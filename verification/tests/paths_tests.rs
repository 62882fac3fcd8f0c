use bnclip::paths::{
    is_path_like, normalize_paths, parse_path_lines, paths_to_probe, uri_display_paths,
    PathFacts,
};

fn facts_with(paths: &[(&str, bool)]) -> PathFacts {
    let mut f = PathFacts::new();
    for (p, d) in paths {
        f.record(p, *d);
    }
    f
}

#[test]
fn normalize_uri_list_is_unchanged() {
    let f = PathFacts::new();
    let out = normalize_paths(b"file:///a\nfile:///b", &f);
    assert_eq!(out, Some(b"file:///a\nfile:///b".to_vec()));
}

#[test]
fn normalize_existing_absolute_paths_become_uris() {
    let f = facts_with(&[("/tmp/x.txt", false), ("/tmp/dir", true)]);
    let out = normalize_paths(b"copy\n/tmp/x.txt\n/tmp/dir", &f);
    assert_eq!(out, Some(b"copy\nfile:///tmp/x.txt\nfile:///tmp/dir".to_vec()));
}

#[test]
fn normalize_trims_and_skips_blank_lines() {
    let f = facts_with(&[("/tmp/x.txt", false)]);
    let out = normalize_paths(b"  \n  /tmp/x.txt \r\n\n\tfile:///y  \n", &f);
    assert_eq!(out, Some(b"file:///tmp/x.txt\nfile:///y".to_vec()));
}

#[test]
fn normalize_rejects_missing_paths_and_plain_text() {
    let f = PathFacts::new();
    assert_eq!(normalize_paths(b"/tmp/does-not-exist", &f), None);
    assert_eq!(normalize_paths(b"hello world", &f), None);
    assert_eq!(normalize_paths(b"file://", &f), None);
    assert_eq!(normalize_paths(b"cut", &f), None);
    assert_eq!(normalize_paths(b"", &f), None);
    assert_eq!(normalize_paths(b"   \n\n", &f), None);
    assert_eq!(normalize_paths(b"file:///a\nnot a path", &f), None);
    assert_eq!(normalize_paths(&[0xff, 0xfe, 0x41], &f), None);
}

#[test]
fn normalize_is_idempotent_on_examples() {
    let f = facts_with(&[("/home/u/a b.txt", false)]);
    let once = normalize_paths("cut\n/home/u/a b.txt\nfile:///z".as_bytes(), &f).unwrap();
    assert_eq!(once, "cut\nfile:///home/u/a b.txt\nfile:///z".as_bytes().to_vec());
    let twice = normalize_paths(&once, &f).unwrap();
    assert_eq!(once, twice);
}

#[test]
fn parse_path_lines_gives_header_and_paths() {
    let f = facts_with(&[("/etc/hosts", false)]);
    let (verb, paths) = parse_path_lines("copy\n/etc/hosts\nfile:///x", &f).unwrap();
    assert_eq!(verb, Some("copy".to_string()));
    assert_eq!(paths, vec!["/etc/hosts".to_string(), "file:///x".to_string()]);
    let (verb, paths) = parse_path_lines("file:///x", &f).unwrap();
    assert_eq!(verb, None);
    assert_eq!(paths, vec!["file:///x".to_string()]);
    assert!(parse_path_lines("copy", &f).is_none());
    assert!(parse_path_lines("copy\nhello", &f).is_none());
}

#[test]
fn path_like_lines() {
    let f = facts_with(&[("/etc/hosts", false)]);
    assert!(is_path_like("file:///a", &f));
    assert!(!is_path_like("file://", &f));
    assert!(is_path_like("/etc/hosts", &f));
    assert!(!is_path_like("/etc/nothing", &f));
    assert!(!is_path_like("relative/path", &f));
    assert!(!is_path_like("", &f));
}

#[test]
fn display_paths_drop_scheme_query_and_escapes() {
    let out = uri_display_paths(b"copy\nfile:///home/u/My%20Doc.pdf?x=1\n/tmp/plain\nfile://");
    assert_eq!(
        out,
        vec!["/home/u/My Doc.pdf".to_string(), "/tmp/plain".to_string()]
    );
    assert!(uri_display_paths(&[0xff]).is_empty());
    assert_eq!(uri_display_paths(b"file:///caf%C3%A9"), vec!["/caf\u{e9}".to_string()]);
    assert_eq!(uri_display_paths(b"file:///bad%ZZ"), vec!["/bad%ZZ".to_string()]);
}

#[test]
fn probes_cover_absolute_lines_and_display_paths() {
    let out = paths_to_probe(b"copy\n/tmp/a%20b\nfile:///c?q\nhello");
    assert_eq!(
        out,
        vec![
            "/tmp/a%20b".to_string(),
            "/tmp/a b".to_string(),
            "/c".to_string(),
            "hello".to_string(),
        ]
    );
    assert!(paths_to_probe(&[0xc3]).is_empty());
}

#[test]
fn facts_record_files_and_directories() {
    let f = facts_with(&[("/d", true), ("/f", false)]);
    let d: Vec<char> = "/d".chars().collect();
    let file: Vec<char> = "/f".chars().collect();
    let none: Vec<char> = "/n".chars().collect();
    assert!(f.knows(&d) && f.knows_directory(&d));
    assert!(f.knows(&file) && !f.knows_directory(&file));
    assert!(!f.knows(&none) && !f.knows_directory(&none));
}
