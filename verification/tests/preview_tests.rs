use bnclip::mime::detect_mime;
use bnclip::paths::PathFacts;
use bnclip::preview::{create_preview, middle_truncate, truncate_preview, PREVIEW_STORE_LEN};

const PNG_HEADER: [u8; 8] = [0x89, 0x50, 0x4E, 0x47, 0x0D, 0x0A, 0x1A, 0x0A];

#[test]
fn truncate_preview_cuts_plain_text_only() {
    assert_eq!(truncate_preview("hello world", 5, true), "hello...");
    assert_eq!(truncate_preview("hello world", 5, false), "hello world");
    assert_eq!(truncate_preview("hello", 5, true), "hello");
    assert_eq!(truncate_preview("h\u{e9}llo w", 2, true), "h\u{e9}...");
    assert_eq!(truncate_preview("abc", 0, true), "...");
}

#[test]
fn middle_truncate_keeps_head_and_tail() {
    assert_eq!(middle_truncate("abcdefghij", 7), "abcd\u{2026}ij");
    assert_eq!(middle_truncate("abcdefghij", 10), "abcdefghij");
    assert_eq!(middle_truncate("abcdefghij", 4), "abcdefghij");
    assert_eq!(middle_truncate("abcdefghij", 5), "ab\u{2026}ij");
    assert_eq!(middle_truncate("abcdefghijklmnopqrstuvwxyz", 11).chars().count(), 11);
}

#[test]
fn text_preview_is_trimmed_with_newlines_marked() {
    let f = PathFacts::new();
    assert_eq!(
        create_preview(b"  hello\nworld \n", "text/plain", &f),
        "hello \u{21b5} world"
    );
}

#[test]
fn text_preview_is_cut_to_store_length() {
    let f = PathFacts::new();
    let long = "x".repeat(1000);
    let p = create_preview(long.as_bytes(), "text/plain", &f);
    assert_eq!(p.chars().count(), PREVIEW_STORE_LEN);
    assert_eq!(PREVIEW_STORE_LEN, 253);
}

#[test]
fn text_preview_replaces_invalid_utf8() {
    let f = PathFacts::new();
    assert_eq!(create_preview(&[b'a', 0xff, b'b'], "text/plain", &f), "a\u{fffd}b");
}

#[test]
fn file_reference_previews() {
    let mut f = PathFacts::new();
    f.record("/home/u/Photos", true);
    f.record("/home/u/report.pdf", false);
    assert_eq!(
        create_preview(b"file:///home/u/report.pdf", "text/uri-list", &f),
        "[[ file: report.pdf ]]"
    );
    assert_eq!(
        create_preview(b"copy\nfile:///home/u/Photos", "text/uri-list", &f),
        "[[ directory: Photos/ ]]"
    );
    assert_eq!(
        create_preview(b"file:///a.txt\nfile:///b.txt\nfile:///c.txt", "text/uri-list", &f),
        "[[ file: a.txt +2 ]]"
    );
    assert_eq!(create_preview(b"file:///dir/", "text/uri-list", &f), "[[ file: /dir/ ]]");
}

#[test]
fn long_file_names_are_shortened_in_the_middle() {
    let f = PathFacts::new();
    let name = "n".repeat(300);
    let uri = format!("file:///{}", name);
    let p = create_preview(uri.as_bytes(), "text/uri-list", &f);
    assert!(p.starts_with("[[ file: nnn"));
    assert!(p.contains('\u{2026}'));
    assert!(p.ends_with("n ]]"));
    assert_eq!(p.chars().count(), PREVIEW_STORE_LEN);
    let two = format!("file:///{}\nfile:///b", "m".repeat(200));
    let p = create_preview(two.as_bytes(), "text/uri-list", &f);
    assert_eq!(p, format!("[[ file: {} +1 ]]", "m".repeat(200)));
    let dir = format!("file:///{}", "d".repeat(400));
    let mut g = PathFacts::new();
    g.record(&format!("/{}", "d".repeat(400)), true);
    let p = create_preview(dir.as_bytes(), "text/uri-list", &g);
    assert!(p.starts_with("[[ directory: ddd"));
    assert!(p.contains('\u{2026}'));
    assert_eq!(p.chars().count(), PREVIEW_STORE_LEN);
}

#[test]
fn names_up_to_241_characters_are_kept_whole() {
    let f = PathFacts::new();
    let name = "q".repeat(238);
    let uri = format!("file:///{}", name);
    let p = create_preview(uri.as_bytes(), "text/uri-list", &f);
    assert!(p.starts_with(&format!("[[ file: {}", name)));
    assert!(!p.contains('\u{2026}'));
    assert_eq!(p, format!("[[ file: {} ]]", name));
    let dir_name = "r".repeat(239);
    let mut g = PathFacts::new();
    g.record(&format!("/{}", dir_name), true);
    let p = create_preview(format!("file:///{}", dir_name).as_bytes(), "text/uri-list", &g);
    assert!(p.starts_with(&format!("[[ directory: {}", dir_name)));
    assert_eq!(p.chars().count(), PREVIEW_STORE_LEN);
}

#[test]
fn previews_keep_tabs_and_mark_newlines() {
    let f = PathFacts::new();
    assert_eq!(create_preview(b"a\tb", "text/plain", &f), "a\tb");
    assert_eq!(create_preview(b"a\r\nb", "text/plain", &f), "a\r \u{21b5} b");
    assert_eq!(
        create_preview(b"file:///tmp/x%09y%0Az", "text/uri-list", &f),
        "[[ file: x\ty\nz ]]"
    );
    assert_eq!(create_preview(b"abc", "image/a\tb", &f), "[[ image a\tb 3 B ]]");
    assert!(!create_preview(b"one\ttwo\nthree", "text/plain", &f).contains('\n'));
}

#[test]
fn uri_list_without_paths_falls_back_to_text() {
    let f = PathFacts::new();
    assert_eq!(create_preview(b"copy", "text/uri-list", &f), "copy");
}

#[test]
fn image_and_data_previews() {
    let f = PathFacts::new();
    assert_eq!(create_preview(&PNG_HEADER, "image/png", &f), "[[ image png 8 B ]]");
    assert_eq!(create_preview(b"abcde", "application/zip", &f), "[[ data 5 B ]]");
    assert_eq!(create_preview(&[0u8; 1023], "application/zip", &f), "[[ data 1023 B ]]");
    let big = vec![0u8; 1024 * 1024 + 200 * 1024];
    assert_eq!(create_preview(&big, "image/jpeg", &f), "[[ image jpeg 1.2 MiB ]]");
}

#[test]
fn mime_detection() {
    let mut f = PathFacts::new();
    f.record("/etc/hosts", false);
    assert_eq!(detect_mime(b"hello", &f), Some("text/plain".to_string()));
    assert_eq!(detect_mime(b"/etc/hosts", &f), Some("text/uri-list".to_string()));
    assert_eq!(detect_mime(b"/etc/other", &f), Some("text/plain".to_string()));
    assert_eq!(detect_mime(&PNG_HEADER, &f), Some("image/png".to_string()));
    assert_eq!(detect_mime(&[0x80, 0x81, 0x82, 0x83], &f), None);
    // A PDF is recognised by its magic number but is not an image.
    assert_eq!(detect_mime(&[0x25, 0x50, 0x44, 0x46, 0xff, 0xfe], &f), None);
}
