//! Command-line arguments. With no flags kexplore opens as a browser; the
//! picker flags turn it into a file selector that writes the chosen paths to
//! `--out` (or stdout) and exits 0, or exits 1 if the user cancels.

use vstd::prelude::*;

verus! {

#[derive(Clone, Copy, PartialEq, Eq, Structural, Debug)]
pub enum PickKind {
    OpenFile,
    OpenDir,
    Save,
}

/// Picker configuration, present only when a `--pick-*` / `--save` flag was given.
pub struct Picker {
    pub kind: PickKind,
    /// Whether more than one path may be returned.
    pub multiple: bool,
    /// Where the chosen paths are written; None means stdout.
    pub out: Option<String>,
    /// Filename prefilled into the draft node (save mode only).
    pub save_name: String,
}

/// The parsed command line.
pub struct Args {
    pub picker: Option<Picker>,
    /// Directory to open on launch; None means `$HOME`.
    pub start: Option<String>,
}

/// Mathematical form of a [`Picker`].
pub struct PickerModel {
    pub kind: PickKind,
    pub multiple: bool,
    pub out: Option<Seq<char>>,
    pub save_name: Seq<char>,
}

/// Mathematical form of [`Args`].
pub struct ArgsModel {
    pub picker: Option<PickerModel>,
    pub start: Option<Seq<char>>,
}

pub open spec fn opt_view(o: Option<String>) -> Option<Seq<char>> {
    match o {
        Some(s) => Some(s@),
        None => None,
    }
}

impl View for Picker {
    type V = PickerModel;

    open spec fn view(&self) -> PickerModel {
        PickerModel {
            kind: self.kind,
            multiple: self.multiple,
            out: opt_view(self.out),
            save_name: self.save_name@,
        }
    }
}

impl View for Args {
    type V = ArgsModel;

    open spec fn view(&self) -> ArgsModel {
        ArgsModel {
            picker: match self.picker {
                Some(p) => Some(p@),
                None => None,
            },
            start: opt_view(self.start),
        }
    }
}

pub open spec fn result_view(r: Result<Args, String>) -> Result<ArgsModel, Seq<char>> {
    match r {
        Ok(a) => Ok(a@),
        Err(e) => Err(e@),
    }
}

impl Picker {
    pub open spec fn title_spec(self) -> Seq<char> {
        match (self.kind, self.multiple) {
            (PickKind::OpenFile, false) => "Select a file"@,
            (PickKind::OpenFile, true) => "Select files"@,
            (PickKind::OpenDir, false) => "Choose a folder"@,
            (PickKind::OpenDir, true) => "Choose folders"@,
            (PickKind::Save, _) => "Save file"@,
        }
    }

    /// Title shown at the top of the picker panel.
    pub fn title(&self) -> (r: &'static str)
        ensures
            r@ == self.title_spec(),
    {
        match (self.kind, self.multiple) {
            (PickKind::OpenFile, false) => "Select a file",
            (PickKind::OpenFile, true) => "Select files",
            (PickKind::OpenDir, false) => "Choose a folder",
            (PickKind::OpenDir, true) => "Choose folders",
            (PickKind::Save, _) => "Save file",
        }
    }

    /// Label on the confirm button.
    pub fn accept_label(&self) -> (r: &'static str)
        ensures
            r@ == (if self.kind == PickKind::Save {
                "Save"@
            } else {
                "Open"@
            }),
    {
        match self.kind {
            PickKind::Save => "Save",
            _ => "Open",
        }
    }
}

pub const USAGE: &'static str = "\
kexplore — canvas file explorer

Usage:
  kexplore [--start DIR]
  kexplore --pick-file  [--start DIR] [--out PATH]
  kexplore --pick-files [--start DIR] [--out PATH]
  kexplore --pick-dir   [--start DIR] [--out PATH]
  kexplore --pick-dirs  [--start DIR] [--out PATH]
  kexplore --save [NAME] [--start DIR] [--out PATH]

Picker modes write the chosen paths, one per line, to --out (default stdout),
exiting 0 on confirm and 1 on cancel.
";

/// The flags collected so far while scanning the argument list.
pub struct ParseState {
    pub kind: Option<PickKind>,
    pub multiple: bool,
    pub out: Option<Seq<char>>,
    pub start: Option<Seq<char>>,
    pub save_name: Seq<char>,
}

pub open spec fn initial_state() -> ParseState {
    ParseState { kind: None, multiple: false, out: None, start: None, save_name: Seq::empty() }
}

pub open spec fn finish(st: ParseState) -> ArgsModel {
    ArgsModel {
        picker: match st.kind {
            Some(kind) => Some(
                PickerModel { kind, multiple: st.multiple, out: st.out, save_name: st.save_name },
            ),
            None => None,
        },
        start: st.start,
    }
}

/// A token that begins with `--` is a flag, never a `--save` name.
pub open spec fn is_flag(s: Seq<char>) -> bool {
    s.len() >= 2 && s[0] == '-' && s[1] == '-'
}

pub open spec fn select(st: ParseState, kind: PickKind, multiple: bool) -> ParseState {
    ParseState { kind: Some(kind), multiple, ..st }
}

/// The command-line grammar: the result of reading `argv` from position `i`
/// with the flags `st` already seen.
pub open spec fn parse_from(argv: Seq<Seq<char>>, i: int, st: ParseState) -> Result<ArgsModel, Seq<char>>
    decreases argv.len() - i,
{
    if i < 0 || i >= argv.len() {
        Ok(finish(st))
    } else {
        let a = argv[i];
        if a == "--pick-file"@ {
            parse_from(argv, i + 1, select(st, PickKind::OpenFile, false))
        } else if a == "--pick-files"@ {
            parse_from(argv, i + 1, select(st, PickKind::OpenFile, true))
        } else if a == "--pick-dir"@ {
            parse_from(argv, i + 1, select(st, PickKind::OpenDir, false))
        } else if a == "--pick-dirs"@ {
            parse_from(argv, i + 1, select(st, PickKind::OpenDir, true))
        } else if a == "--save"@ {
            if i + 1 < argv.len() && !is_flag(argv[i + 1]) {
                parse_from(
                    argv,
                    i + 2,
                    ParseState { save_name: argv[i + 1], ..select(st, PickKind::Save, false) },
                )
            } else {
                parse_from(argv, i + 1, select(st, PickKind::Save, false))
            }
        } else if a == "--out"@ {
            if i + 1 < argv.len() {
                parse_from(argv, i + 2, ParseState { out: Some(argv[i + 1]), ..st })
            } else {
                Err("--out"@ + " requires a value"@)
            }
        } else if a == "--start"@ {
            if i + 1 < argv.len() {
                parse_from(argv, i + 2, ParseState { start: Some(argv[i + 1]), ..st })
            } else {
                Err("--start"@ + " requires a value"@)
            }
        } else if a == "-h"@ || a == "--help"@ {
            Err(USAGE@)
        } else {
            Err("unknown argument: "@ + a + "\n\n"@ + USAGE@)
        }
    }
}

pub open spec fn parse_spec(argv: Seq<Seq<char>>) -> Result<ArgsModel, Seq<char>> {
    parse_from(argv, 0, initial_state())
}

proof fn lemma_save_name_not_flag(argv: Seq<Seq<char>>, i: int, st: ParseState)
    requires
        !is_flag(st.save_name),
    ensures
        parse_from(argv, i, st) matches Ok(a) ==> (a.picker matches Some(p) ==> !is_flag(p.save_name)),
    decreases argv.len() - i,
{
    if 0 <= i < argv.len() {
        let a = argv[i];
        lemma_save_name_not_flag(argv, i + 1, select(st, PickKind::OpenFile, false));
        lemma_save_name_not_flag(argv, i + 1, select(st, PickKind::OpenFile, true));
        lemma_save_name_not_flag(argv, i + 1, select(st, PickKind::OpenDir, false));
        lemma_save_name_not_flag(argv, i + 1, select(st, PickKind::OpenDir, true));
        lemma_save_name_not_flag(argv, i + 1, select(st, PickKind::Save, false));
        if i + 1 < argv.len() {
            if !is_flag(argv[i + 1]) {
                lemma_save_name_not_flag(
                    argv,
                    i + 2,
                    ParseState { save_name: argv[i + 1], ..select(st, PickKind::Save, false) },
                );
            }
            lemma_save_name_not_flag(argv, i + 2, ParseState { out: Some(argv[i + 1]), ..st });
            lemma_save_name_not_flag(argv, i + 2, ParseState { start: Some(argv[i + 1]), ..st });
        }
    }
}

/// `--save` never takes a flag for its file name: whatever the flags and
/// their order, a parsed picker's save name is empty or a token that does
/// not begin with `--`.
pub proof fn law_save_name_is_never_a_flag(argv: Seq<Seq<char>>)
    ensures
        parse_spec(argv) matches Ok(a) ==> (a.picker matches Some(p) ==> !is_flag(p.save_name)),
{
    lemma_save_name_not_flag(argv, 0, initial_state());
}

/// Appending a picker flag `f` (which `q` reads at its last position as the
/// selection of `(kind, multiple)`) to a list that parses leaves everything
/// read before it as it was and makes `f` the picker's mode. `st_end` is
/// the state the list leaves.
proof fn lemma_append_picker_flag(
    argv: Seq<Seq<char>>,
    i: int,
    st: ParseState,
    f: Seq<char>,
    kind: PickKind,
    multiple: bool,
) -> (st_end: ParseState)
    requires
        0 <= i <= argv.len(),
        parse_from(argv, i, st) is Ok,
        is_flag(f),
        forall|s2: ParseState|
            #[trigger] parse_from(argv.push(f), argv.len() as int, s2) == parse_from(
                argv.push(f),
                (argv.len() + 1) as int,
                select(s2, kind, multiple),
            ),
    ensures
        parse_from(argv, i, st) == Ok::<ArgsModel, Seq<char>>(finish(st_end)),
        parse_from(argv.push(f), i, st) == Ok::<ArgsModel, Seq<char>>(finish(select(st_end, kind, multiple))),
    decreases argv.len() - i,
{
    let q = argv.push(f);
    let n = argv.len() as int;
    if i == n {
        assert(parse_from(q, n + 1, select(st, kind, multiple)) == Ok::<ArgsModel, Seq<char>>(
            finish(select(st, kind, multiple)),
        ));
        st
    } else {
        let a = argv[i];
        assert(q[i] == a);
        if i + 1 < n {
            assert(q[i + 1] == argv[i + 1]);
        } else {
            assert(q[i + 1] == f);
        }
        if a == "--pick-file"@ {
            lemma_append_picker_flag(argv, i + 1, select(st, PickKind::OpenFile, false), f, kind, multiple)
        } else if a == "--pick-files"@ {
            lemma_append_picker_flag(argv, i + 1, select(st, PickKind::OpenFile, true), f, kind, multiple)
        } else if a == "--pick-dir"@ {
            lemma_append_picker_flag(argv, i + 1, select(st, PickKind::OpenDir, false), f, kind, multiple)
        } else if a == "--pick-dirs"@ {
            lemma_append_picker_flag(argv, i + 1, select(st, PickKind::OpenDir, true), f, kind, multiple)
        } else if a == "--save"@ {
            if i + 1 < n && !is_flag(argv[i + 1]) {
                lemma_append_picker_flag(
                    argv,
                    i + 2,
                    ParseState { save_name: argv[i + 1], ..select(st, PickKind::Save, false) },
                    f,
                    kind,
                    multiple,
                )
            } else {
                lemma_append_picker_flag(argv, i + 1, select(st, PickKind::Save, false), f, kind, multiple)
            }
        } else if a == "--out"@ {
            lemma_append_picker_flag(argv, i + 2, ParseState { out: Some(argv[i + 1]), ..st }, f, kind, multiple)
        } else {
            lemma_append_picker_flag(
                argv,
                i + 2,
                ParseState { start: Some(argv[i + 1]), ..st },
                f,
                kind,
                multiple,
            )
        }
    }
}

/// After a list that parses, the picker flag `f` read as a flag.
proof fn lemma_last_flag(argv: Seq<Seq<char>>, f: Seq<char>, kind: PickKind, multiple: bool)
    requires
        parse_spec(argv) is Ok,
        is_flag(f),
        forall|s2: ParseState|
            #[trigger] parse_from(argv.push(f), argv.len() as int, s2) == parse_from(
                argv.push(f),
                (argv.len() + 1) as int,
                select(s2, kind, multiple),
            ),
    ensures
        ({
            let a = parse_spec(argv)->Ok_0;
            &&& parse_spec(argv.push(f)) matches Ok(b)
            &&& b.picker matches Some(p)
            &&& p.kind == kind
            &&& p.multiple == multiple
            &&& b.start == a.start
            &&& a.picker matches Some(pa) ==> p.out == pa.out && p.save_name == pa.save_name
        }),
{
    lemma_append_picker_flag(argv, 0, initial_state(), f, kind, multiple);
}

/// The last picker flag alone decides the picker's mode: appending
/// `--pick-file`, `--pick-files`, `--pick-dir` or `--pick-dirs` to any
/// argument list that parses gives a picker of that kind that allows one
/// path (`--pick-file`, `--pick-dir`) or several (`--pick-files`,
/// `--pick-dirs`), keeping the start directory, the output path and the
/// save name read before it.
pub proof fn law_last_picker_flag_decides(argv: Seq<Seq<char>>)
    requires
        parse_spec(argv) is Ok,
    ensures
        ({
            let a = parse_spec(argv)->Ok_0;
            &&& parse_spec(argv.push("--pick-file"@)) matches Ok(b) && b.picker matches Some(p) && p.kind
                == PickKind::OpenFile && !p.multiple && b.start == a.start && (a.picker matches Some(pa) ==> p.out
                == pa.out && p.save_name == pa.save_name)
            &&& parse_spec(argv.push("--pick-files"@)) matches Ok(b) && b.picker matches Some(p) && p.kind
                == PickKind::OpenFile && p.multiple && b.start == a.start && (a.picker matches Some(pa) ==> p.out
                == pa.out && p.save_name == pa.save_name)
            &&& parse_spec(argv.push("--pick-dir"@)) matches Ok(b) && b.picker matches Some(p) && p.kind
                == PickKind::OpenDir && !p.multiple && b.start == a.start && (a.picker matches Some(pa) ==> p.out
                == pa.out && p.save_name == pa.save_name)
            &&& parse_spec(argv.push("--pick-dirs"@)) matches Ok(b) && b.picker matches Some(p) && p.kind
                == PickKind::OpenDir && p.multiple && b.start == a.start && (a.picker matches Some(pa) ==> p.out
                == pa.out && p.save_name == pa.save_name)
        }),
{
    reveal_strlit("--pick-file");
    reveal_strlit("--pick-files");
    reveal_strlit("--pick-dir");
    reveal_strlit("--pick-dirs");
    let n = argv.len() as int;
    let f1 = "--pick-file"@;
    let f2 = "--pick-files"@;
    let f3 = "--pick-dir"@;
    let f4 = "--pick-dirs"@;
    assert(f1.len() == 11 && f2.len() == 12 && f3.len() == 10 && f4.len() == 11);
    assert(f1[7] != f4[7]);
    assert forall|s2: ParseState|
        #[trigger] parse_from(argv.push(f1), n, s2) == parse_from(argv.push(f1), n + 1, select(s2, PickKind::OpenFile, false)) by {
        assert(argv.push(f1)[n] == f1);
    }
    lemma_last_flag(argv, f1, PickKind::OpenFile, false);
    assert forall|s2: ParseState|
        #[trigger] parse_from(argv.push(f2), n, s2) == parse_from(argv.push(f2), n + 1, select(s2, PickKind::OpenFile, true)) by {
        assert(argv.push(f2)[n] == f2);
    }
    lemma_last_flag(argv, f2, PickKind::OpenFile, true);
    assert forall|s2: ParseState|
        #[trigger] parse_from(argv.push(f3), n, s2) == parse_from(argv.push(f3), n + 1, select(s2, PickKind::OpenDir, false)) by {
        assert(argv.push(f3)[n] == f3);
    }
    lemma_last_flag(argv, f3, PickKind::OpenDir, false);
    assert forall|s2: ParseState|
        #[trigger] parse_from(argv.push(f4), n, s2) == parse_from(argv.push(f4), n + 1, select(s2, PickKind::OpenDir, true)) by {
        assert(argv.push(f4)[n] == f4);
    }
    lemma_last_flag(argv, f4, PickKind::OpenDir, true);
}

pub open spec fn views(argv: Seq<String>) -> Seq<Seq<char>> {
    argv.map_values(|s: String| s@)
}

fn eq_lit(a: &String, lit: &str) -> (r: bool)
    ensures
        r == (a@ == lit@),
{
    let b = String::from_str(lit);
    *a == b
}

fn is_flag_exec(s: &String) -> (r: bool)
    ensures
        r == is_flag(s@),
{
    let t = s.as_str();
    t.unicode_len() >= 2 && t.get_char(0) == '-' && t.get_char(1) == '-'
}

fn opt_string(s: Option<String>) -> (r: Option<String>)
    ensures
        opt_view(r) == opt_view(s),
{
    s
}

/// Parse the argument list (excluding argv[0]). Returns the usage string as an
/// error for `--help`, so the caller can print it and exit 0.
pub fn parse(argv: Vec<String>) -> (r: Result<Args, String>)
    ensures
        result_view(r) == parse_spec(views(argv@)),
{
    let ghost av = views(argv@);
    let mut kind: Option<PickKind> = None;
    let mut multiple = false;
    let mut out: Option<String> = None;
    let mut start: Option<String> = None;
    let mut save_name = String::new();

    let mut i: usize = 0;
    while i < argv.len()
        invariant
            av == views(argv@),
            i <= argv.len(),
            parse_from(
                av,
                i as int,
                ParseState { kind, multiple, out: opt_view(out), start: opt_view(start), save_name: save_name@ },
            ) == parse_spec(av),
        decreases argv.len() - i,
    {
        let a = &argv[i];
        proof {
            assert(av[i as int] == a@);
        }
        if eq_lit(a, "--pick-file") {
            kind = Some(PickKind::OpenFile);
            multiple = false;
        } else if eq_lit(a, "--pick-files") {
            kind = Some(PickKind::OpenFile);
            multiple = true;
        } else if eq_lit(a, "--pick-dir") {
            kind = Some(PickKind::OpenDir);
            multiple = false;
        } else if eq_lit(a, "--pick-dirs") {
            kind = Some(PickKind::OpenDir);
            multiple = true;
        } else if eq_lit(a, "--save") {
            kind = Some(PickKind::Save);
            multiple = false;
            if i + 1 < argv.len() {
                let next = &argv[i + 1];
                proof {
                    assert(av[i + 1] == next@);
                }
                if !is_flag_exec(next) {
                    save_name = next.clone();
                    i = i + 1;
                }
            }
        } else if eq_lit(a, "--out") {
            if i + 1 < argv.len() {
                let v = argv[i + 1].clone();
                proof {
                    assert(av[i + 1] == v@);
                }
                out = Some(v);
                i = i + 1;
            } else {
                let mut msg = String::from_str("--out");
                msg.append(" requires a value");
                return Err(msg);
            }
        } else if eq_lit(a, "--start") {
            if i + 1 < argv.len() {
                let v = argv[i + 1].clone();
                proof {
                    assert(av[i + 1] == v@);
                }
                start = Some(v);
                i = i + 1;
            } else {
                let mut msg = String::from_str("--start");
                msg.append(" requires a value");
                return Err(msg);
            }
        } else if eq_lit(a, "-h") || eq_lit(a, "--help") {
            return Err(String::from_str(USAGE));
        } else {
            let mut msg = String::from_str("unknown argument: ");
            msg.append(a.as_str());
            msg.append("\n\n");
            msg.append(USAGE);
            return Err(msg);
        }
        i = i + 1;
    }
    let picker = match kind {
        Some(kind) => Some(Picker { kind, multiple, out: opt_string(out), save_name }),
        None => None,
    };
    Ok(Args { picker, start })
}

} // verus!
