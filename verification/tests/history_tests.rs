use bnclip::history::{list_lines, ClipboardMeta, History};

fn meta(preview: &str, mime: &str, pinned: bool, timestamp: u128) -> ClipboardMeta {
    ClipboardMeta {
        preview: preview.to_string(),
        mime: mime.to_string(),
        pinned,
        timestamp,
    }
}

#[test]
fn put_get_remove() {
    let mut h = History::new();
    assert_eq!(h.len(), 0);
    h.put("aa".to_string(), meta("one", "text/plain", false, 1));
    h.put("bb".to_string(), meta("two", "text/plain", false, 2));
    assert_eq!(h.len(), 2);
    assert_eq!(h.get("aa").unwrap().preview, "one");
    h.put("aa".to_string(), meta("uno", "text/plain", false, 3));
    assert_eq!(h.len(), 2);
    assert_eq!(h.get("aa").unwrap().timestamp, 3);
    assert!(h.remove("aa"));
    assert!(!h.remove("aa"));
    assert!(h.get("aa").is_none());
    assert_eq!(h.len(), 1);
    h.clear();
    assert_eq!(h.len(), 0);
}

#[test]
fn pin_toggles() {
    let mut h = History::new();
    h.put("aa".to_string(), meta("one", "text/plain", false, 1));
    let m = h.toggle_pin("aa").unwrap();
    assert!(m.pinned);
    assert!(h.get("aa").unwrap().pinned);
    let m = h.toggle_pin("aa").unwrap();
    assert!(!m.pinned);
    assert!(!h.get("aa").unwrap().pinned);
    assert!(h.toggle_pin("zz").is_none());
}

#[test]
fn eviction_prefers_oldest_unpinned() {
    let mut h = History::new();
    assert!(h.find_eviction_candidate().is_none());
    h.put("a".to_string(), meta("", "text/plain", true, 1));
    h.put("b".to_string(), meta("", "text/plain", false, 5));
    h.put("c".to_string(), meta("", "text/plain", false, 3));
    assert_eq!(h.find_eviction_candidate(), Some("c".to_string()));
    h.toggle_pin("c");
    assert_eq!(h.find_eviction_candidate(), Some("b".to_string()));
    h.toggle_pin("b");
    assert_eq!(h.find_eviction_candidate(), None);
}

#[test]
fn eviction_ties_go_by_hash() {
    let mut h = History::new();
    h.put("b2".to_string(), meta("", "text/plain", false, 7));
    h.put("b10".to_string(), meta("", "text/plain", false, 7));
    assert_eq!(h.find_eviction_candidate(), Some("b10".to_string()));
}

#[test]
fn trim_evicts_in_order_and_keeps_pinned() {
    let mut h = History::new();
    h.put("p".to_string(), meta("", "text/plain", true, 0));
    for i in 1..=5u128 {
        h.put(format!("k{}", i), meta("", "text/plain", false, i));
    }
    let evicted = h.trim_to(3);
    assert_eq!(evicted, vec!["k1".to_string(), "k2".to_string(), "k3".to_string()]);
    assert_eq!(h.len(), 3);
    assert!(h.get("p").is_some());
    let evicted = h.trim_to(10);
    assert!(evicted.is_empty());
    let evicted = h.trim_to(0);
    assert_eq!(evicted, vec!["k4".to_string(), "k5".to_string()]);
    assert_eq!(h.len(), 1);
    assert!(h.get("p").unwrap().pinned);
}

#[test]
fn pinned_rows_over_the_limit_all_stay() {
    let mut h = History::new();
    h.put("p1".to_string(), meta("", "text/plain", true, 1));
    h.put("p2".to_string(), meta("", "text/plain", true, 2));
    h.put("u".to_string(), meta("", "text/plain", false, 3));
    let evicted = h.trim_to(1);
    assert_eq!(evicted, vec!["u".to_string()]);
    assert_eq!(h.len(), 2);
    assert!(h.trim_to(0).is_empty());
    assert_eq!(h.len(), 2);
}

#[test]
fn listing_is_newest_first() {
    let mut h = History::new();
    h.put("a".to_string(), meta("old", "text/plain", false, 1));
    h.put("c".to_string(), meta("new", "image/png", true, 9));
    h.put("b".to_string(), meta("mid", "text/plain", false, 5));
    h.put("d".to_string(), meta("mid2", "text/plain", false, 5));
    let rows = h.newest_first();
    let hashes: Vec<&str> = rows.iter().map(|r| r.hash.as_str()).collect();
    assert_eq!(hashes, vec!["c", "d", "b", "a"]);
}

#[test]
fn listing_lines_are_tab_separated() {
    let mut h = History::new();
    h.put("0011223344556677".to_string(), meta("hello world", "text/plain", false, 42));
    h.put("8899aabbccddeeff".to_string(), meta("[[ image png 8 B ]]", "image/png", true, 7));
    let rows = h.newest_first();
    let lines = list_lines(&rows, 5);
    assert_eq!(
        lines,
        vec![
            "0011223344556677\ttext/plain\tfalse\t42\thello...".to_string(),
            "8899aabbccddeeff\timage/png\ttrue\t7\t[[ image png 8 B ]]".to_string(),
        ]
    );
    let wide = list_lines(&rows, 1000);
    assert_eq!(wide[0], "0011223344556677\ttext/plain\tfalse\t42\thello world");
}

#[test]
fn listing_lines_have_five_fields() {
    let mut h = History::new();
    h.put("aa".to_string(), meta("a\tb", "text/plain", false, 1));
    h.put("bb".to_string(), meta("x\ny", "text\tplain", false, 2));
    let rows = h.newest_first();
    let lines = list_lines(&rows, 100);
    assert_eq!(lines[0], "bb\ttext plain\tfalse\t2\tx \u{21b5} y");
    assert_eq!(lines[1], "aa\ttext/plain\tfalse\t1\ta b");
    for line in &lines {
        assert_eq!(line.split('\t').count(), 5);
        assert!(!line.contains('\n'));
    }
}
