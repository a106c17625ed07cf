use kexplore::handlers::{expand_home, find_handler, handler_argv, lowercase_extension, parse_handlers, substitute, Handler};

fn strings(v: &[&str]) -> Vec<String> {
    v.iter().map(|s| s.to_string()).collect()
}

#[test]
fn parses_extensions_and_command() {
    let hs = parse_handlers("png, JPG : feh --scale {FILE}\n", None);
    assert_eq!(hs.len(), 1);
    assert_eq!(hs[0].exts, strings(&["png", "jpg"]));
    assert_eq!(hs[0].command, strings(&["feh", "--scale", "{FILE}"]));
}

#[test]
fn skips_lines_without_colon_extension_or_command() {
    let text = "no colon here\n : cmd\npdf:\n  , : x\ntxt: less\n";
    let hs = parse_handlers(text, None);
    assert_eq!(hs.len(), 1);
    assert_eq!(hs[0].exts, strings(&["txt"]));
    assert_eq!(hs[0].command, strings(&["less"]));
}

#[test]
fn crlf_lines_and_missing_final_newline() {
    let hs = parse_handlers("a: one\r\nb: two", None);
    assert_eq!(hs.len(), 2);
    assert_eq!(hs[0].command, strings(&["one"]));
    assert_eq!(hs[1].exts, strings(&["b"]));
    assert_eq!(hs[1].command, strings(&["two"]));
}

#[test]
fn command_splits_at_first_colon_only() {
    let hs = parse_handlers("url: open http://x:80/{FILE}", None);
    assert_eq!(hs[0].command, strings(&["open", "http://x:80/{FILE}"]));
}

#[test]
fn tilde_tokens_expand_to_home() {
    let hs = parse_handlers("sh: ~/bin/run ~ a~b ~user", Some("/home/u"));
    assert_eq!(hs[0].command, strings(&["/home/u/bin/run", "/home/u", "a~b", "~user"]));
    let none = parse_handlers("sh: ~/bin/run", None);
    assert_eq!(none[0].command, strings(&["~/bin/run"]));
}

#[test]
fn last_matching_handler_wins_case_insensitively() {
    let hs = parse_handlers("png: first\ntxt: other\npng,gif: second\n", None);
    let h = find_handler(&hs, b"/tmp/Picture.PNG").expect("handler");
    assert_eq!(h.command, strings(&["second"]));
    let t = find_handler(&hs, b"notes.txt").expect("handler");
    assert_eq!(t.command, strings(&["other"]));
    assert!(find_handler(&hs, b"/tmp/archive.zip").is_none());
}

#[test]
fn no_extension_no_handler() {
    let hs = vec![Handler { exts: strings(&["bashrc", ""]), command: strings(&["x"]) }];
    assert!(find_handler(&hs, b"/home/u/.bashrc").is_none());
    assert!(find_handler(&hs, b"Makefile").is_none());
    assert!(find_handler(&hs, b"dir/..").is_none());
}

#[test]
fn extension_follows_path_rules() {
    assert_eq!(lowercase_extension(b"a/b/c.Tar.GZ"), Some("gz".to_string()));
    assert_eq!(lowercase_extension(b"photo.jpeg/"), Some("jpeg".to_string()));
    assert_eq!(lowercase_extension(b"photo.png/."), Some("png".to_string()));
    assert_eq!(lowercase_extension(b"name."), Some("".to_string()));
    assert_eq!(lowercase_extension(b".hidden"), None);
    assert_eq!(lowercase_extension(b"x.d/file"), None);
    assert_eq!(lowercase_extension(b"/"), None);
    assert_eq!(lowercase_extension(b"a.b/.."), None);
    assert_eq!(lowercase_extension(b"bad.\xff"), None);
}

#[test]
fn substitute_replaces_every_marker() {
    assert_eq!(substitute("{FILE}", b"/a b"), b"/a b".to_vec());
    assert_eq!(substitute("--in={FILE},{FILE}", b"x"), b"--in=x,x".to_vec());
    assert_eq!(substitute("plain", b"x"), b"plain".to_vec());
    assert_eq!(substitute("{FIL}{FILE", b"x"), b"{FIL}{FILE".to_vec());
    // Raw path bytes need not be UTF-8.
    assert_eq!(substitute("{FILE}", b"\xff"), vec![0xffu8]);
}

#[test]
fn argv_keeps_a_spaced_path_in_one_entry() {
    let h = Handler { exts: strings(&["pdf"]), command: strings(&["zathura", "{FILE}", "--page=1"]) };
    let argv = handler_argv(&h, b"/tmp/my file.pdf");
    assert_eq!(argv, vec![b"zathura".to_vec(), b"/tmp/my file.pdf".to_vec(), b"--page=1".to_vec()]);
}

#[test]
fn url_text_is_trimmed_and_tilde_expanded() {
    assert_eq!(expand_home("  ~/Downloads \n", Some("/home/u")), "/home/u/Downloads");
    assert_eq!(expand_home("~", Some("/home/u")), "/home/u");
    assert_eq!(expand_home("~", None), "~");
    assert_eq!(expand_home(" /etc ", Some("/home/u")), "/etc");
}

#[test]
fn handler_file_fields_split_on_spaces_and_tilde_expands() {
    let text = "png, JPG : imv {FILE}\nno colon\n: orphan\nmp4:\nmp4,mkv: ~/bin/play --loop {FILE}\n";
    let hs = parse_handlers(text, Some("/home/u"));
    assert_eq!(hs.len(), 2);
    assert_eq!(hs[0].exts, strings(&["png", "jpg"]));
    assert_eq!(hs[0].command, strings(&["imv", "{FILE}"]));
    assert_eq!(hs[1].exts, strings(&["mp4", "mkv"]));
    assert_eq!(hs[1].command, strings(&["/home/u/bin/play", "--loop", "{FILE}"]));
    // Unicode whitespace separates fields too.
    let hs = parse_handlers("txt:\u{3000}less\u{00A0}-R", None);
    assert_eq!(hs[0].command, strings(&["less", "-R"]));
}
