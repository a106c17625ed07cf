use kexplore::cli::{parse, Args, PickKind, Picker, USAGE};

fn args(v: &[&str]) -> Vec<String> {
    v.iter().map(|s| s.to_string()).collect()
}

fn parse_ok(v: &[&str]) -> Args {
    match parse(args(v)) {
        Ok(a) => a,
        Err(e) => panic!("{e}"),
    }
}

#[test]
fn no_args_is_browser_mode() {
    let a = parse_ok(&[]);
    assert!(a.picker.is_none());
    assert!(a.start.is_none());
}

#[test]
fn pick_files_sets_multiple() {
    let a = parse_ok(&["--pick-files"]);
    let p = a.picker.expect("picker");
    assert!(p.multiple);
    assert!(p.kind == PickKind::OpenFile);
}

#[test]
fn save_takes_an_optional_name() {
    let named = parse_ok(&["--save", "report.pdf"]);
    assert_eq!(named.picker.expect("picker").save_name, "report.pdf");
    // A following flag must not be swallowed as the name.
    let bare = parse_ok(&["--save", "--out", "/tmp/o"]);
    let p = bare.picker.expect("picker");
    assert_eq!(p.save_name, "");
    assert_eq!(p.out, Some("/tmp/o".to_string()));
}

#[test]
fn parses_what_the_termfilechooser_wrapper_emits() {
    let open = parse_ok(&["--pick-file", "--out", "/tmp/o"]);
    assert!(!open.picker.as_ref().unwrap().multiple);

    let multi = parse_ok(&["--pick-files", "--out", "/tmp/o"]);
    assert!(multi.picker.as_ref().unwrap().multiple);

    let dir = parse_ok(&["--pick-dir", "--out", "/tmp/o"]);
    assert!(dir.picker.as_ref().unwrap().kind == PickKind::OpenDir);

    let save = parse_ok(&["--save", "page.html", "--start", "/home/u/Downloads", "--out", "/tmp/o"]);
    let p = save.picker.expect("picker");
    assert_eq!(p.save_name, "page.html");
    assert_eq!(p.out, Some("/tmp/o".to_string()));
    assert_eq!(save.start, Some("/home/u/Downloads".to_string()));

    // The wrapper emits a bare `--save` when the caller suggested no path;
    // the following flag must not be taken as the filename.
    let bare = parse_ok(&["--save", "--out", "/tmp/o"]);
    let p = bare.picker.expect("picker");
    assert_eq!(p.save_name, "");
    assert_eq!(p.out, Some("/tmp/o".to_string()));
}

#[test]
fn missing_values_and_unknown_flags_error() {
    assert!(parse(args(&["--out"])).is_err());
    assert!(parse(args(&["--nope"])).is_err());
}

#[test]
fn help_flags_answer_with_usage() {
    assert_eq!(parse(args(&["-h"])).err(), Some(USAGE.to_string()));
    assert_eq!(parse(args(&["--help"])).err(), Some(USAGE.to_string()));
}

#[test]
fn unknown_flag_message_names_it_then_usage() {
    let e = parse(args(&["--nope"])).err().unwrap();
    assert_eq!(e, format!("unknown argument: --nope\n\n{USAGE}"));
}

#[test]
fn pick_dirs_is_multiple_dir_picker() {
    let p = parse_ok(&["--pick-dirs"]).picker.unwrap();
    assert!(p.kind == PickKind::OpenDir);
    assert!(p.multiple);
    assert!(p.out.is_none());
}

#[test]
fn titles_and_labels_follow_kind() {
    let mk = |kind, multiple| Picker { kind, multiple, out: None, save_name: String::new() };
    assert_eq!(mk(PickKind::OpenFile, false).title(), "Select a file");
    assert_eq!(mk(PickKind::OpenFile, true).title(), "Select files");
    assert_eq!(mk(PickKind::OpenDir, false).title(), "Choose a folder");
    assert_eq!(mk(PickKind::OpenDir, true).title(), "Choose folders");
    assert_eq!(mk(PickKind::Save, false).title(), "Save file");
    assert_eq!(mk(PickKind::Save, false).accept_label(), "Save");
    assert_eq!(mk(PickKind::OpenDir, true).accept_label(), "Open");
}

#[test]
fn start_without_picker_stays_browser_mode() {
    let a = parse_ok(&["--start", "/etc"]);
    assert!(a.picker.is_none());
    assert_eq!(a.start, Some("/etc".to_string()));
}
