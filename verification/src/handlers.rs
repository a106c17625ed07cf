//! Open-with handlers (~/.config/kallos/handlers).
//!
//! Config format, one rule per line:
//!     ext, ext: command with {FILE}
//! Extension match is case-insensitive and the last matching line wins.
//!
//! The command template is tokenized at parse time and {FILE} substituted
//! per token afterward, so paths with spaces stay one argv entry. Expansion
//! is whitespace-splitting plus leading-~ home expansion only: no globbing,
//! no $VARS, no quoting.

use vstd::prelude::*;
use vstd::string::StringSliceAdditionalSpecFns;

verus! {

/// The Unicode `White_Space` property, which `char::is_whitespace` tests:
/// tab through carriage return, space, next line, no-break space, ogham
/// space mark, the en quad through hair space, line and paragraph
/// separators, narrow no-break space, medium mathematical space and
/// ideographic space.
pub open spec fn unicode_whitespace(c: char) -> bool {
    let u = c as u32;
    ||| 0x09 <= u <= 0x0D
    ||| u == 0x20
    ||| u == 0x85
    ||| u == 0xA0
    ||| u == 0x1680
    ||| 0x2000 <= u <= 0x200A
    ||| u == 0x2028
    ||| u == 0x2029
    ||| u == 0x202F
    ||| u == 0x205F
    ||| u == 0x3000
}

pub open spec fn ascii_whitespace(c: char) -> bool {
    c == ' ' || c == '\t' || c == '\n' || c == '\x0B' || c == '\x0C' || c == '\r'
}

/// Whether `c` has the Unicode `White_Space` property (what
/// `char::is_whitespace` tests; in the ASCII range: space, tab, line feed,
/// vertical tab, form feed and carriage return).
fn char_is_whitespace(c: char) -> (r: bool)
    ensures
        r == unicode_whitespace(c),
        (c as u32) < 128 ==> (r <==> ascii_whitespace(c)),
{
    let u = c as u32;
    (0x09 <= u && u <= 0x0D) || u == 0x20 || u == 0x85 || u == 0xA0 || u == 0x1680 || (0x2000 <= u && u
        <= 0x200A) || u == 0x2028 || u == 0x2029 || u == 0x202F || u == 0x205F || u == 0x3000
}

/// `String::push`: appends one character.
#[verifier::external_body]
pub(crate) fn push_char(s: &mut String, c: char)
    ensures
        final(s)@ == old(s)@.push(c),
{
    s.push(c)
}

/// The characters of a string, in order.
pub fn chars_of(s: &str) -> (r: Vec<char>)
    ensures
        r@ == s@,
{
    let mut out: Vec<char> = Vec::new();
    for c in it: s.chars()
        invariant
            out@.len() == it.index(),
            forall|k: int| 0 <= k < out@.len() ==> out@[k] == it.seq()[k],
    {
        out.push(c);
    }
    assert(out@ =~= s@);
    out
}

/// The string of the characters `cs[from..to]`.
fn string_of(cs: &Vec<char>, from: usize, to: usize) -> (r: String)
    requires
        from <= to <= cs@.len(),
    ensures
        r@ == cs@.subrange(from as int, to as int),
{
    let mut s = String::new();
    let mut i = from;
    while i < to
        invariant
            from <= i <= to <= cs@.len(),
            s@ == cs@.subrange(from as int, i as int),
        decreases to - i,
    {
        push_char(&mut s, cs[i]);
        assert(cs@.subrange(from as int, i + 1) =~= cs@.subrange(from as int, i as int).push(cs@[i as int]));
        i = i + 1;
    }
    s
}

/// `s` cut at every character satisfying `p` (the separators dropped; `n`
/// separators give `n + 1` pieces, empty ones included).
pub open spec fn split_by(s: Seq<char>, p: spec_fn(char) -> bool) -> Seq<Seq<char>>
    decreases s.len(),
{
    if s.len() == 0 {
        seq![Seq::<char>::empty()]
    } else {
        let prev = split_by(s.drop_last(), p);
        if p(s.last()) {
            prev.push(Seq::<char>::empty())
        } else {
            prev.update(prev.len() - 1, prev.last().push(s.last()))
        }
    }
}

pub proof fn lemma_split_by_nonempty(s: Seq<char>, p: spec_fn(char) -> bool)
    ensures
        split_by(s, p).len() >= 1,
    decreases s.len(),
{
    if s.len() > 0 {
        lemma_split_by_nonempty(s.drop_last(), p);
    }
}

/// The separator test: `sep`, or any whitespace.
pub open spec fn is_sep(sep: char, on_whitespace: bool) -> spec_fn(char) -> bool {
    |c: char| if on_whitespace {
        unicode_whitespace(c)
    } else {
        c == sep
    }
}

pub open spec fn pieces(cs: Seq<char>, ranges: Seq<(usize, usize)>) -> Seq<Seq<char>> {
    ranges.map_values(|r: (usize, usize)| cs.subrange(r.0 as int, r.1 as int))
}

/// Split `cs[from..to]` at separators, returning each piece as an index
/// range into `cs`.
fn split_ranges(cs: &Vec<char>, from: usize, to: usize, sep: char, on_whitespace: bool) -> (r: Vec<(usize, usize)>)
    requires
        from <= to <= cs@.len(),
    ensures
        pieces(cs@, r@) == split_by(cs@.subrange(from as int, to as int), is_sep(sep, on_whitespace)),
        forall|k: int| 0 <= k < r@.len() ==> from <= (#[trigger] r@[k]).0 <= r@[k].1 <= to,
{
    let ghost p = is_sep(sep, on_whitespace);
    let mut out: Vec<(usize, usize)> = Vec::new();
    out.push((from, from));
    let mut i = from;
    proof {
        assert(cs@.subrange(from as int, from as int) =~= Seq::<char>::empty());
        assert(pieces(cs@, out@) =~= seq![Seq::<char>::empty()]);
    }
    while i < to
        invariant
            from <= i <= to <= cs@.len(),
            p == is_sep(sep, on_whitespace),
            out@.len() >= 1,
            out@.last().1 == i,
            forall|k: int| 0 <= k < out@.len() ==> from <= (#[trigger] out@[k]).0 <= out@[k].1 <= i,
            pieces(cs@, out@) == split_by(cs@.subrange(from as int, i as int), p),
        decreases to - i,
    {
        let c = cs[i];
        let is = if on_whitespace {
            char_is_whitespace(c)
        } else {
            c == sep
        };
        let ghost prefix = cs@.subrange(from as int, i + 1);
        proof {
            assert(prefix.drop_last() =~= cs@.subrange(from as int, i as int));
            assert(prefix.last() == c);
            lemma_split_by_nonempty(cs@.subrange(from as int, i as int), p);
        }
        let ghost before = out@;
        if is {
            out.push((i + 1, i + 1));
            proof {
                assert(cs@.subrange(i + 1, i + 1) =~= Seq::<char>::empty());
                assert(pieces(cs@, out@) =~= pieces(cs@, before).push(Seq::<char>::empty()));
            }
        } else {
            let last = out.len() - 1;
            let (a, _) = out[last];
            out.set(last, (a, i + 1));
            proof {
                assert(cs@.subrange(a as int, i + 1) =~= cs@.subrange(a as int, i as int).push(c));
                assert(pieces(cs@, out@) =~= pieces(cs@, before).update(
                    before.len() - 1,
                    pieces(cs@, before).last().push(c),
                ));
            }
        }
        i = i + 1;
    }
    out
}

/// `s` without leading whitespace.
pub open spec fn trim_start(s: Seq<char>) -> Seq<char>
    decreases s.len(),
{
    if s.len() > 0 && unicode_whitespace(s[0]) {
        trim_start(s.drop_first())
    } else {
        s
    }
}

/// `s` without trailing whitespace.
pub open spec fn trim_end(s: Seq<char>) -> Seq<char>
    decreases s.len(),
{
    if s.len() > 0 && unicode_whitespace(s.last()) {
        trim_end(s.drop_last())
    } else {
        s
    }
}

/// `str::trim`: without leading and trailing whitespace.
pub open spec fn trim(s: Seq<char>) -> Seq<char> {
    trim_end(trim_start(s))
}

/// The range of `cs[from..to]` left after trimming whitespace off both ends.
fn trim_range(cs: &Vec<char>, from: usize, to: usize) -> (r: (usize, usize))
    requires
        from <= to <= cs@.len(),
    ensures
        from <= r.0 <= r.1 <= to,
        cs@.subrange(r.0 as int, r.1 as int) == trim(cs@.subrange(from as int, to as int)),
{
    let mut a = from;
    while a < to && char_is_whitespace(cs[a])
        invariant
            from <= a <= to <= cs@.len(),
            trim_start(cs@.subrange(from as int, to as int)) == trim_start(cs@.subrange(a as int, to as int)),
        decreases to - a,
    {
        assert(cs@.subrange(a as int, to as int).drop_first() =~= cs@.subrange(a + 1, to as int));
        a = a + 1;
    }
    let mut b = to;
    while b > a && char_is_whitespace(cs[b - 1])
        invariant
            from <= a <= b <= to <= cs@.len(),
            trim_end(cs@.subrange(a as int, to as int)) == trim_end(cs@.subrange(a as int, b as int)),
        decreases b - a,
    {
        assert(cs@.subrange(a as int, b as int).drop_last() =~= cs@.subrange(a as int, b - 1));
        b = b - 1;
    }
    (a, b)
}

/// ASCII uppercase letters to lowercase; everything else unchanged.
pub open spec fn lower_char(c: char) -> char {
    if 'A' <= c && c <= 'Z' {
        ((c as u8) + 32u8) as char
    } else {
        c
    }
}

/// `str::to_ascii_lowercase`.
pub open spec fn ascii_lower(s: Seq<char>) -> Seq<char> {
    s.map_values(|c: char| lower_char(c))
}

fn lower_char_exec(c: char) -> (r: char)
    ensures
        r == lower_char(c),
{
    if 'A' <= c && c <= 'Z' {
        ((c as u8) + 32u8) as char
    } else {
        c
    }
}

/// The lowercased string of `cs[from..to]`.
fn lower_string(cs: &Vec<char>, from: usize, to: usize) -> (r: String)
    requires
        from <= to <= cs@.len(),
    ensures
        r@ == ascii_lower(cs@.subrange(from as int, to as int)),
{
    let mut s = String::new();
    let mut i = from;
    while i < to
        invariant
            from <= i <= to <= cs@.len(),
            s@ == ascii_lower(cs@.subrange(from as int, i as int)),
        decreases to - i,
    {
        push_char(&mut s, lower_char_exec(cs[i]));
        assert(ascii_lower(cs@.subrange(from as int, i + 1)) =~= ascii_lower(
            cs@.subrange(from as int, i as int),
        ).push(lower_char(cs@[i as int])));
        i = i + 1;
    }
    s
}


/// A leading `~` (alone, or before `/`) stands for the home directory.
pub open spec fn expand_tilde_spec(tok: Seq<char>, home: Option<Seq<char>>) -> Seq<char> {
    match home {
        Some(h) => if tok == seq!['~'] {
            h
        } else if tok.len() >= 2 && tok[0] == '~' && tok[1] == '/' {
            h + seq!['/'] + tok.skip(2)
        } else {
            tok
        },
        None => tok,
    }
}

/// Expand a leading `~` in the token `cs[from..to]`.
fn expand_tilde(cs: &Vec<char>, from: usize, to: usize, home: Option<&str>) -> (r: String)
    requires
        from <= to <= cs@.len(),
    ensures
        r@ == expand_tilde_spec(cs@.subrange(from as int, to as int), opt_str_view(home)),
{
    let ghost tok = cs@.subrange(from as int, to as int);
    if let Some(h) = home {
        if to - from == 1 && cs[from] == '~' {
            assert(tok =~= seq!['~']);
            return String::from_str(h);
        }
        if to - from >= 2 && cs[from] == '~' && cs[from + 1] == '/' {
            let mut s = String::from_str(h);
            push_char(&mut s, '/');
            let rest = string_of(cs, from + 2, to);
            s.append(rest.as_str());
            assert(tok.skip(2) =~= cs@.subrange(from + 2, to as int));
            return s;
        }
        proof {
            assert(tok.len() == to - from);
            if tok.len() >= 1 {
                assert(tok[0] == cs@[from as int]);
            }
            if tok.len() >= 2 {
                assert(tok[1] == cs@[from + 1]);
            }
            if tok == seq!['~'] {
                assert(seq!['~'][0] == '~');
                assert(tok[0] == '~');
            }
        }
    }
    string_of(cs, from, to)
}

pub open spec fn opt_str_view(o: Option<&str>) -> Option<Seq<char>> {
    match o {
        Some(s) => Some(s@),
        None => None,
    }
}

/// The first position at or after `i` holding `c`.
pub open spec fn find_char(s: Seq<char>, c: char, i: int) -> Option<int>
    decreases s.len() - i,
{
    if i < 0 || i >= s.len() {
        None
    } else if s[i] == c {
        Some(i)
    } else {
        find_char(s, c, i + 1)
    }
}

/// An extension entry: trimmed and lowercased, dropped when empty.
pub open spec fn ext_entry(piece: Seq<char>) -> Option<Seq<char>> {
    let e = ascii_lower(trim(piece));
    if e.len() > 0 {
        Some(e)
    } else {
        None
    }
}

pub open spec fn nonempty(piece: Seq<char>) -> Option<Seq<char>> {
    if piece.len() > 0 {
        Some(piece)
    } else {
        None
    }
}

/// Mathematical form of a [`Handler`].
pub struct HandlerModel {
    pub exts: Seq<Seq<char>>,
    pub command: Seq<Seq<char>>,
}

/// One config line: extensions before the first `:`, the command after it,
/// split on whitespace with a leading `~` expanded; None when either part
/// comes out empty or there is no `:`.
pub open spec fn handler_of_line(line: Seq<char>, home: Option<Seq<char>>) -> Option<HandlerModel> {
    match find_char(line, ':', 0) {
        None => None,
        Some(k) => {
            let exts = split_by(line.take(k), is_sep(',', false)).filter_map(|e: Seq<char>| ext_entry(e));
            let command = split_by(line.skip(k + 1), is_sep(' ', true)).filter_map(
                |t: Seq<char>| nonempty(t),
            ).map_values(|t: Seq<char>| expand_tilde_spec(t, home));
            if exts.len() == 0 || command.len() == 0 {
                None
            } else {
                Some(HandlerModel { exts, command })
            }
        },
    }
}

/// `l` without one trailing carriage return.
pub open spec fn strip_cr(l: Seq<char>) -> Seq<char> {
    if l.len() > 0 && l.last() == '\r' {
        l.drop_last()
    } else {
        l
    }
}

/// `str::lines`: split at `\n`, each terminated line loses one trailing
/// `\r`, and a final empty piece (after a last `\n`, or of an empty text) is
/// not a line.
pub open spec fn lines(s: Seq<char>) -> Seq<Seq<char>> {
    let p = split_by(s, is_sep('\n', false));
    p.drop_last().map_values(|l: Seq<char>| strip_cr(l)) + if p.last().len() > 0 {
        seq![p.last()]
    } else {
        Seq::<Seq<char>>::empty()
    }
}

/// The handlers a config text declares, in file order.
pub open spec fn parse_handlers_spec(content: Seq<char>, home: Option<Seq<char>>) -> Seq<HandlerModel> {
    lines(content).filter_map(|l: Seq<char>| handler_of_line(l, home))
}

pub struct Handler {
    pub exts: Vec<String>,
    pub command: Vec<String>,
}

pub open spec fn strings_view(v: Seq<String>) -> Seq<Seq<char>> {
    v.map_values(|s: String| s@)
}

impl View for Handler {
    type V = HandlerModel;

    open spec fn view(&self) -> HandlerModel {
        HandlerModel { exts: strings_view(self.exts@), command: strings_view(self.command@) }
    }
}

pub open spec fn handlers_view(v: Seq<Handler>) -> Seq<HandlerModel> {
    v.map_values(|h: Handler| h@)
}

fn find_char_exec(cs: &Vec<char>, from: usize, to: usize, c: char) -> (r: Option<usize>)
    requires
        from <= to <= cs@.len(),
    ensures
        match find_char(cs@.subrange(from as int, to as int), c, 0) {
            Some(k) => r == Some((from + k) as usize),
            None => r is None,
        },
{
    let ghost s = cs@.subrange(from as int, to as int);
    let mut i = from;
    while i < to
        invariant
            from <= i <= to <= cs@.len(),
            s == cs@.subrange(from as int, to as int),
            find_char(s, c, (i - from) as int) == find_char(s, c, 0),
        decreases to - i,
    {
        if cs[i] == c {
            return Some(i);
        }
        i = i + 1;
    }
    None
}

/// Parse one config line, `cs[from..to]`.
fn handler_of_range(cs: &Vec<char>, from: usize, to: usize, home: Option<&str>) -> (r: Option<Handler>)
    requires
        from <= to <= cs@.len(),
    ensures
        match r {
            Some(h) => handler_of_line(cs@.subrange(from as int, to as int), opt_str_view(home)) == Some(h@),
            None => handler_of_line(cs@.subrange(from as int, to as int), opt_str_view(home)) is None,
        },
{
    let ghost line = cs@.subrange(from as int, to as int);
    let ghost hv = opt_str_view(home);
    let k = match find_char_exec(cs, from, to, ':') {
        Some(k) => k,
        None => return None,
    };
    let ghost kk = (k - from) as int;
    proof {
        lemma_find_char_bounds(line, ':', 0);
        assert(line.take(kk) =~= cs@.subrange(from as int, k as int));
        assert(line.skip(kk + 1) =~= cs@.subrange(k + 1, to as int));
    }
    // Extensions.
    let ext_ranges = split_ranges(cs, from, k, ',', false);
    let ghost ep = pieces(cs@, ext_ranges@);
    let mut exts: Vec<String> = Vec::new();
    let mut i: usize = 0;
    while i < ext_ranges.len()
        invariant
            i <= ext_ranges@.len(),
            ep == pieces(cs@, ext_ranges@),
            forall|j: int| 0 <= j < ext_ranges@.len() ==> (#[trigger] ext_ranges@[j]).0 <= ext_ranges@[j].1 <= cs@.len(),
            strings_view(exts@) == ep.take(i as int).filter_map(|e: Seq<char>| ext_entry(e)),
        decreases ext_ranges@.len() - i,
    {
        let (a, b) = ext_ranges[i];
        let (x, y) = trim_range(cs, a, b);
        let e = lower_string(cs, x, y);
        let ghost before = exts@;
        proof {
            assert(ep.take(i + 1).drop_last() =~= ep.take(i as int));
            assert(ep[i as int] == cs@.subrange(a as int, b as int));
        }
        let ghost f = |e: Seq<char>| ext_entry(e);
        proof {
            assert(e@.len() == y - x);
            assert(f(ep[i as int]) == (if e@.len() > 0 {
                Some(e@)
            } else {
                None
            }));
        }
        if x < y {
            exts.push(e);
            proof {
                assert(strings_view(exts@) =~= strings_view(before).push(e@));
                assert(ep.take(i + 1).filter_map(f) =~= ep.take(i as int).filter_map(f).push(e@));
            }
        } else {
            proof {
                assert(ep.take(i + 1).filter_map(f) =~= ep.take(i as int).filter_map(f));
            }
        }
        i = i + 1;
    }
    proof {
        assert(ep.take(ext_ranges@.len() as int) =~= ep);
    }
    // Command tokens.
    let tok_ranges = split_ranges(cs, k + 1, to, ' ', true);
    let ghost tp = pieces(cs@, tok_ranges@);
    let mut command: Vec<String> = Vec::new();
    let mut i: usize = 0;
    while i < tok_ranges.len()
        invariant
            i <= tok_ranges@.len(),
            tp == pieces(cs@, tok_ranges@),
            forall|j: int| 0 <= j < tok_ranges@.len() ==> (#[trigger] tok_ranges@[j]).0 <= tok_ranges@[j].1 <= cs@.len(),
            strings_view(command@) == tp.take(i as int).filter_map(|t: Seq<char>| nonempty(t)).map_values(
                |t: Seq<char>| expand_tilde_spec(t, hv),
            ),
            hv == opt_str_view(home),
        decreases tok_ranges@.len() - i,
    {
        let (a, b) = tok_ranges[i];
        let ghost before = command@;
        proof {
            assert(tp.take(i + 1).drop_last() =~= tp.take(i as int));
            assert(tp[i as int] == cs@.subrange(a as int, b as int));
        }
        if a < b {
            let t = expand_tilde(cs, a, b, home);
            command.push(t);
            proof {
                let f = |t: Seq<char>| nonempty(t);
                let g = |t: Seq<char>| expand_tilde_spec(t, hv);
                assert(tp.take(i + 1).filter_map(f) =~= tp.take(i as int).filter_map(f).push(tp[i as int]));
                assert(strings_view(command@) =~= strings_view(before).push(t@));
                assert(tp.take(i + 1).filter_map(f).map_values(g) =~= tp.take(i as int).filter_map(f).map_values(
                    g,
                ).push(g(tp[i as int])));
            }
        } else {
            proof {
                let f = |t: Seq<char>| nonempty(t);
                assert(tp.take(i + 1).filter_map(f) =~= tp.take(i as int).filter_map(f));
            }
        }
        i = i + 1;
    }
    proof {
        assert(tp.take(tok_ranges@.len() as int) =~= tp);
    }
    if exts.len() == 0 || command.len() == 0 {
        return None;
    }
    Some(Handler { exts, command })
}

pub proof fn lemma_find_char_bounds(s: Seq<char>, c: char, i: int)
    ensures
        find_char(s, c, i) matches Some(k) ==> i <= k < s.len() && s[k] == c,
    decreases s.len() - i,
{
    if 0 <= i < s.len() && s[i] != c {
        lemma_find_char_bounds(s, c, i + 1);
    }
}

/// Parse a handlers config text. `home` is the value `~` expands to (none:
/// no expansion). Lines without a `:`, or with no extension or no command,
/// are skipped.
pub fn parse_handlers(content: &str, home: Option<&str>) -> (r: Vec<Handler>)
    ensures
        handlers_view(r@) == parse_handlers_spec(content@, opt_str_view(home)),
{
    let cs = chars_of(content);
    let n = cs.len();
    let ranges = split_ranges(&cs, 0, n, '\n', false);
    let ghost p = pieces(cs@, ranges@);
    let ghost hv = opt_str_view(home);
    let ghost f = |l: Seq<char>| handler_of_line(l, hv);
    proof {
        assert(cs@.subrange(0, n as int) =~= cs@);
        lemma_split_by_nonempty(cs@, is_sep('\n', false));
    }
    let m = ranges.len();
    let mut out: Vec<Handler> = Vec::new();
    let mut i: usize = 0;
    // Every piece but the last is a terminated line.
    while i + 1 < m
        invariant
            m == ranges@.len() >= 1,
            i + 1 <= m,
            p == pieces(cs@, ranges@),
            p == split_by(content@, is_sep('\n', false)),
            forall|j: int| 0 <= j < ranges@.len() ==> (#[trigger] ranges@[j]).0 <= ranges@[j].1 <= cs@.len(),
            hv == opt_str_view(home),
            f == (|l: Seq<char>| handler_of_line(l, hv)),
            handlers_view(out@) == p.drop_last().map_values(|l: Seq<char>| strip_cr(l)).take(i as int).filter_map(f),
        decreases m - i,
    {
        let (a, b0) = ranges[i];
        let b = if b0 > a && cs[b0 - 1] == '\r' {
            b0 - 1
        } else {
            b0
        };
        let ghost ls = p.drop_last().map_values(|l: Seq<char>| strip_cr(l));
        proof {
            assert(p[i as int] == cs@.subrange(a as int, b0 as int));
            assert(ls[i as int] == strip_cr(p[i as int]));
            if b0 > a && cs@[b0 - 1] == '\r' {
                assert(cs@.subrange(a as int, b0 as int).drop_last() =~= cs@.subrange(a as int, b as int));
            }
            assert(cs@.subrange(a as int, b as int) == ls[i as int]);
            assert(ls.take(i + 1).drop_last() =~= ls.take(i as int));
        }
        let ghost before = out@;
        match handler_of_range(&cs, a, b, home) {
            Some(h) => {
                out.push(h);
                proof {
                    assert(handlers_view(out@) =~= handlers_view(before).push(h@));
                }
            },
            None => {},
        }
        i = i + 1;
    }
    // The last piece is a line only when it is not empty.
    let (a, b) = ranges[m - 1];
    let ghost ls = p.drop_last().map_values(|l: Seq<char>| strip_cr(l));
    proof {
        assert(ls.take(ls.len() as int) =~= ls);
        assert(p.last() == cs@.subrange(a as int, b as int));
        assert(lines(content@) == ls + if p.last().len() > 0 {
            seq![p.last()]
        } else {
            Seq::<Seq<char>>::empty()
        });
    }
    if a < b {
        let ghost before = out@;
        match handler_of_range(&cs, a, b, home) {
            Some(h) => {
                out.push(h);
                proof {
                    assert(handlers_view(out@) =~= handlers_view(before).push(h@));
                }
            },
            None => {},
        }
        proof {
            let l = lines(content@);
            assert(l.drop_last() =~= ls);
            assert(l.last() == p.last());
        }
    } else {
        proof {
            assert(lines(content@) =~= ls);
        }
    }
    out
}


/* File extensions (Unix paths, as raw bytes) */

/// `bytes` cut at every `sep` byte (the separators dropped).
pub open spec fn split_bytes(bytes: Seq<u8>, sep: u8) -> Seq<Seq<u8>>
    decreases bytes.len(),
{
    if bytes.len() == 0 {
        seq![Seq::<u8>::empty()]
    } else {
        let prev = split_bytes(bytes.drop_last(), sep);
        if bytes.last() == sep {
            prev.push(Seq::<u8>::empty())
        } else {
            prev.update(prev.len() - 1, prev.last().push(bytes.last()))
        }
    }
}

pub proof fn lemma_split_bytes_nonempty(bytes: Seq<u8>, sep: u8)
    ensures
        split_bytes(bytes, sep).len() >= 1,
    decreases bytes.len(),
{
    if bytes.len() > 0 {
        lemma_split_bytes_nonempty(bytes.drop_last(), sep);
    }
}

/// A path segment that names something: not empty (doubled or trailing
/// `/`) and not `.` (which paths normalize away).
pub open spec fn is_named(seg: Seq<u8>) -> bool {
    seg.len() > 0 && seg != seq![46u8]
}

/// The last segment of `segs` that names something.
pub open spec fn last_named(segs: Seq<Seq<u8>>) -> Option<Seq<u8>>
    decreases segs.len(),
{
    if segs.len() == 0 {
        None
    } else if is_named(segs.last()) {
        Some(segs.last())
    } else {
        last_named(segs.drop_last())
    }
}

/// `Path::file_name`: the last named segment, unless it is `..`.
pub open spec fn file_name(path: Seq<u8>) -> Option<Seq<u8>> {
    match last_named(split_bytes(path, 47u8)) {
        Some(name) => if name == seq![46u8, 46u8] {
            None
        } else {
            Some(name)
        },
        None => None,
    }
}

/// The position of the last `c` in `s`.
pub open spec fn last_index_of(s: Seq<u8>, c: u8) -> Option<int>
    decreases s.len(),
{
    if s.len() == 0 {
        None
    } else if s.last() == c {
        Some(s.len() - 1)
    } else {
        last_index_of(s.drop_last(), c)
    }
}

/// `Path::extension`: what follows the last `.` of the file name, when that
/// `.` is not its first byte.
pub open spec fn extension(path: Seq<u8>) -> Option<Seq<u8>> {
    match file_name(path) {
        None => None,
        Some(name) => match last_index_of(name, 46u8) {
            Some(k) => if k > 0 {
                Some(name.skip(k + 1))
            } else {
                None
            },
            None => None,
        },
    }
}

/// Whether `path[a..b]` is a named segment.
fn named_at(path: &[u8], a: usize, b: usize) -> (r: bool)
    requires
        a <= b <= path@.len(),
    ensures
        r == is_named(path@.subrange(a as int, b as int)),
{
    let seg = Ghost(path@.subrange(a as int, b as int));
    if b == a {
        return false;
    }
    let is_dot = b - a == 1 && path[a] == 46u8;
    proof {
        let dot = seq![46u8];
        assert(dot.len() == 1 && dot[0] == 46u8);
        if seg@ == dot {
            assert(b - a == 1);
            assert(seg@[0] == path@[a as int]);
        }
        if is_dot {
            assert(seg@ =~= dot);
        }
    }
    !is_dot
}

/// The byte range of the last named segment of `path`.
fn last_named_range(path: &[u8]) -> (r: Option<(usize, usize)>)
    ensures
        match last_named(split_bytes(path@, 47u8)) {
            Some(s) => r matches Some((a, b)) && a <= b <= path@.len() && path@.subrange(a as int, b as int)
                == s,
            None => r is None,
        },
{
    let n = path.len();
    let mut seg_start: usize = 0;
    let mut last: Option<(usize, usize)> = None;
    let mut i: usize = 0;
    proof {
        assert(path@.take(0) =~= Seq::<u8>::empty());
        assert(path@.subrange(0, 0) =~= Seq::<u8>::empty());
    }
    while i < n
        invariant
            n == path@.len(),
            seg_start <= i <= n,
            split_bytes(path@.take(i as int), 47u8).len() >= 1,
            split_bytes(path@.take(i as int), 47u8).last() == path@.subrange(seg_start as int, i as int),
            match last_named(split_bytes(path@.take(i as int), 47u8).drop_last()) {
                Some(s) => last matches Some((a, b)) && a <= b <= n && path@.subrange(a as int, b as int)
                    == s,
                None => last is None,
            },
        decreases n - i,
    {
        let ghost pre = path@.take(i as int);
        let ghost post = path@.take(i + 1);
        let ghost sp = split_bytes(pre, 47u8);
        proof {
            assert(post.drop_last() =~= pre);
            assert(post.last() == path@[i as int]);
        }
        if path[i] == 47u8 {
            let named = named_at(path, seg_start, i);
            proof {
                assert(split_bytes(post, 47u8) == sp.push(Seq::<u8>::empty()));
                assert(split_bytes(post, 47u8).drop_last() =~= sp);
                assert(path@.subrange(i + 1, i + 1) =~= Seq::<u8>::empty());
            }
            if named {
                last = Some((seg_start, i));
            }
            seg_start = i + 1;
        } else {
            proof {
                assert(split_bytes(post, 47u8) == sp.update(sp.len() - 1, sp.last().push(path@[i as int])));
                assert(split_bytes(post, 47u8).drop_last() =~= sp.drop_last());
                assert(path@.subrange(seg_start as int, i + 1) =~= path@.subrange(seg_start as int, i as int).push(
                    path@[i as int],
                ));
            }
        }
        i = i + 1;
    }
    proof {
        assert(path@.take(n as int) =~= path@);
    }
    if named_at(path, seg_start, n) {
        Some((seg_start, n))
    } else {
        last
    }
}

/// The byte range of the file extension of `path`.
fn extension_range(path: &[u8]) -> (r: Option<(usize, usize)>)
    ensures
        match extension(path@) {
            Some(e) => r matches Some((a, b)) && a <= b <= path@.len() && path@.subrange(a as int, b as int) == e,
            None => r is None,
        },
{
    let n = path.len();
    let (a, b) = match last_named_range(path) {
        Some(r) => r,
        None => return None,
    };
    let ghost name = path@.subrange(a as int, b as int);
    // `..` has no file name.
    if b - a == 2 && path[a] == 46u8 && path[a + 1] == 46u8 {
        proof {
            assert(name =~= seq![46u8, 46u8]);
        }
        return None;
    }
    proof {
        if name == seq![46u8, 46u8] {
            assert(name[0] == path@[a as int] && name[1] == path@[a + 1]);
        }
    }
    // The last dot of the name.
    let mut j = b;
    while j > a && path[j - 1] != 46u8
        invariant
            a <= j <= b <= n,
            n == path@.len(),
            name == path@.subrange(a as int, b as int),
            last_index_of(name, 46u8) == last_index_of(path@.subrange(a as int, j as int), 46u8),
        decreases j - a,
    {
        assert(path@.subrange(a as int, j as int).drop_last() =~= path@.subrange(a as int, j - 1));
        j = j - 1;
    }
    proof {
        if j == a {
            assert(path@.subrange(a as int, j as int) =~= Seq::<u8>::empty());
        }
    }
    if j - a <= 1 {
        // No dot, or only a leading one.
        return None;
    }
    proof {
        assert(name.skip((j - 1 - a) + 1) =~= path@.subrange(j as int, b as int));
    }
    Some((j, b))
}

/// `str::from_utf8`: the text the bytes encode, if they are valid UTF-8.
#[verifier::external_body]
fn utf8_text(bytes: &[u8]) -> (r: Option<&str>)
    ensures
        r is Some <==> vstd::utf8::valid_utf8(bytes@),
        r matches Some(s) ==> s@ == vstd::utf8::decode_utf8(bytes@),
{
    std::str::from_utf8(bytes).ok()
}

/// The extension of a path, lowercased, when it is valid UTF-8; what
/// handlers are keyed by.
pub open spec fn extension_key(path: Seq<u8>) -> Option<Seq<char>> {
    match extension(path) {
        Some(e) => if vstd::utf8::valid_utf8(e) {
            Some(ascii_lower(vstd::utf8::decode_utf8(e)))
        } else {
            None
        },
        None => None,
    }
}

/// The lowercased extension of a path (see [`extension_key`]).
pub fn lowercase_extension(path: &[u8]) -> (r: Option<String>)
    ensures
        match extension_key(path@) {
            Some(k) => r matches Some(s) && s@ == k,
            None => r is None,
        },
{
    let (a, b) = match extension_range(path) {
        Some(r) => r,
        None => return None,
    };
    let ext = vstd::slice::slice_subrange(path, a, b);
    let text = match utf8_text(ext) {
        Some(t) => t,
        None => return None,
    };
    let cs = chars_of(text);
    Some(lower_string(&cs, 0, cs.len()))
}

/// The handler a file extension `ext` selects: a handler listing `ext`.
pub open spec fn handles(h: HandlerModel, ext: Seq<char>) -> bool {
    h.exts.contains(ext)
}

/// Last matching handler wins.
pub fn find_handler<'a>(handlers: &'a [Handler], file: &[u8]) -> (r: Option<&'a Handler>)
    ensures
        match extension_key(file@) {
            None => r is None,
            Some(e) => match r {
                Some(h) => exists|i: int|
                    0 <= i < handlers@.len() && h == &handlers@[i] && handles(handlers@[i]@, e) && forall|j: int|
                        i < j < handlers@.len() ==> !handles(#[trigger] handlers@[j]@, e),
                None => forall|j: int| 0 <= j < handlers@.len() ==> !handles(#[trigger] handlers@[j]@, e),
            },
        },
{
    let ext = match lowercase_extension(file) {
        Some(e) => e,
        None => return None,
    };
    let mut i = handlers.len();
    while i > 0
        invariant
            i <= handlers@.len(),
            extension_key(file@) == Some(ext@),
            forall|j: int| i <= j < handlers@.len() ==> !handles(#[trigger] handlers@[j]@, ext@),
        decreases i,
    {
        i = i - 1;
        let h = &handlers[i];
        let mut k: usize = 0;
        while k < h.exts.len()
            invariant
                i < handlers@.len(),
                *h == handlers@[i as int],
                extension_key(file@) == Some(ext@),
                forall|j: int| i < j < handlers@.len() ==> !handles(#[trigger] handlers@[j]@, ext@),
                k <= h.exts@.len(),
                forall|q: int| 0 <= q < k ==> h.exts@[q]@ != ext@,
            decreases h.exts@.len() - k,
        {
            if h.exts[k] == ext {
                proof {
                    assert(strings_view(h.exts@)[k as int] == ext@);
                    assert(handles(handlers@[i as int]@, ext@));
                    assert(h == &handlers@[i as int]);
                }
                return Some(h);
            }
            k = k + 1;
        }
        proof {
            assert forall|q: int| 0 <= q < strings_view(h.exts@).len() implies strings_view(h.exts@)[q] != ext@ by {
                assert(h.exts@[q]@ != ext@);
            }
        }
    }
    None
}

/* Building the argument vector */

/// The bytes of `{FILE}`.
pub open spec fn file_marker() -> Seq<u8> {
    seq![123u8, 70u8, 73u8, 76u8, 69u8, 125u8]
}

/// Every `{FILE}` in `t` (left to right, non-overlapping) replaced by `f`.
pub open spec fn replace_marker(t: Seq<u8>, f: Seq<u8>) -> Seq<u8>
    decreases t.len(),
{
    if t.len() == 0 {
        Seq::empty()
    } else if t.len() >= 6 && t.take(6) == file_marker() {
        f + replace_marker(t.skip(6), f)
    } else {
        seq![t[0]] + replace_marker(t.drop_first(), f)
    }
}

fn marker_at(t: &[u8], i: usize) -> (r: bool)
    requires
        i <= t@.len(),
    ensures
        r == (t@.len() - i >= 6 && t@.skip(i as int).take(6) == file_marker()),
{
    let n = t.len();
    if n - i < 6 {
        return false;
    }
    let r = t[i] == 123u8 && t[i + 1] == 70u8 && t[i + 2] == 73u8 && t[i + 3] == 76u8 && t[i + 4] == 69u8
        && t[i + 5] == 125u8;
    proof {
        let w = t@.skip(i as int).take(6);
        if r {
            assert(w =~= file_marker());
        } else {
            if w == file_marker() {
                assert(w[0] == t@[i as int] && w[1] == t@[i + 1] && w[2] == t@[i + 2]);
                assert(w[3] == t@[i + 3] && w[4] == t@[i + 4] && w[5] == t@[i + 5]);
            }
        }
    }
    r
}

/// Replace every "{FILE}" occurrence in a token with the raw path bytes.
pub fn substitute(tok: &str, file: &[u8]) -> (r: Vec<u8>)
    ensures
        r@ == replace_marker(tok.spec_bytes(), file@),
{
    let t = tok.as_bytes();
    let n = t.len();
    let mut out: Vec<u8> = Vec::new();
    let mut i: usize = 0;
    proof {
        assert(t@.skip(0) =~= t@);
    }
    while i < n
        invariant
            n == t@.len(),
            i <= n,
            t@ == tok.spec_bytes(),
            out@ + replace_marker(t@.skip(i as int), file@) == replace_marker(t@, file@),
        decreases n - i,
    {
        let ghost rest = t@.skip(i as int);
        if marker_at(t, i) {
            let ghost before = out@;
            out.extend_from_slice(file);
            proof {
                assert(rest.skip(6) =~= t@.skip(i + 6));
                assert(before + (file@ + replace_marker(rest.skip(6), file@)) =~= out@ + replace_marker(
                    t@.skip(i + 6),
                    file@,
                ));
            }
            i = i + 6;
        } else {
            let ghost before = out@;
            out.push(t[i]);
            proof {
                assert(rest.drop_first() =~= t@.skip(i + 1));
                assert(rest[0] == t@[i as int]);
                assert(before + (seq![rest[0]] + replace_marker(rest.drop_first(), file@)) =~= out@
                    + replace_marker(t@.skip(i + 1), file@));
            }
            i = i + 1;
        }
    }
    proof {
        assert(t@.skip(n as int) =~= Seq::<u8>::empty());
        assert(out@ + Seq::<u8>::empty() =~= out@);
    }
    out
}

/// The argument vector a handler runs for `file`: its command tokens with
/// every `{FILE}` replaced by the file's path bytes.
pub fn handler_argv(handler: &Handler, file: &[u8]) -> (r: Vec<Vec<u8>>)
    ensures
        r@.len() == handler.command@.len(),
        forall|k: int|
            0 <= k < r@.len() ==> (#[trigger] r@[k])@ == replace_marker(vstd::utf8::encode_utf8(handler.command@[k]@), file@),
{
    let mut out: Vec<Vec<u8>> = Vec::new();
    let mut k: usize = 0;
    while k < handler.command.len()
        invariant
            k <= handler.command@.len(),
            out@.len() == k,
            forall|q: int|
                0 <= q < k ==> (#[trigger] out@[q])@ == replace_marker(vstd::utf8::encode_utf8(handler.command@[q]@), file@),
        decreases handler.command@.len() - k,
    {
        out.push(substitute(handler.command[k].as_str(), file));
        k = k + 1;
    }
    out
}

/// The URL bar's path text: trimmed, with a leading `~` expanded to `home`.
pub fn expand_home(text: &str, home: Option<&str>) -> (r: String)
    ensures
        r@ == expand_tilde_spec(trim(text@), opt_str_view(home)),
{
    let cs = chars_of(text);
    let (a, b) = trim_range(&cs, 0, cs.len());
    proof {
        assert(cs@.subrange(0, cs@.len() as int) =~= cs@);
    }
    expand_tilde(&cs, a, b, home)
}

} // verus!
