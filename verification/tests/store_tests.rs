use bnclip::history::{ClipboardMeta, History};
use bnclip::paths::PathFacts;
use bnclip::retry::{RetryState, OPEN_ATTEMPTS};
use bnclip::store::{consults_ignore_patterns, content_hash, is_admitted, store, Config, StoreOutcome};
use bnclip::ignore::{ignore_verdict, invalid_patterns, should_ignore};

fn small_config(max_len: u64) -> Config {
    Config { max_history_length: max_len, ..Config::default() }
}

#[test]
fn default_config() {
    let c = Config::default();
    assert_eq!(c.preview_width, 100);
    assert_eq!(c.max_history_length, 500);
    assert_eq!(c.max_store_size, 10 * 1024 * 1024);
    assert_eq!(c.min_store_size, 1);
    assert!(c.ignore_patterns.is_empty());
    assert_eq!(c.read_limit(), 10 * 1024 * 1024 + 1);
    let c = Config { max_store_size: u64::MAX, ..Config::default() };
    assert_eq!(c.read_limit(), u64::MAX);
}

#[test]
fn content_hash_is_hex_of_blake3_prefix() {
    let h = content_hash(b"hello");
    assert_eq!(h, "ea8f163db3868292");
    assert_eq!(content_hash(b"hello"), h);
    assert_ne!(content_hash(b"hello!"), h);
    assert_eq!(content_hash(b"").len(), 16);
}

#[test]
fn ignore_patterns() {
    let pats = vec!["^secret:".to_string(), "(".to_string()];
    assert!(should_ignore("secret: 1234", &pats));
    assert!(!should_ignore("public", &pats));
    assert!(!should_ignore("secret: 1234", &[]));
    assert!(!should_ignore("(", &["(".to_string()]));
    assert!(should_ignore("<meta x>", &["^<meta".to_string()]));
}

#[test]
fn admission_rules() {
    let c = Config {
        min_store_size: 2,
        max_store_size: 5,
        ignore_patterns: vec!["^no".to_string()],
        ..Config::default()
    };
    assert!(is_admitted(&c, "", b"abc"));
    assert!(!is_admitted(&c, "clear", b"abc"));
    assert!(!is_admitted(&c, "sensitive", b"abc"));
    assert!(is_admitted(&c, "nil", b"abc"));
    assert!(!is_admitted(&c, "", b"a"));
    assert!(!is_admitted(&c, "", b"abcdef"));
    assert!(is_admitted(&c, "", b"abcde"));
    assert!(!is_admitted(&c, "", b"nope"));
    assert!(is_admitted(&c, "", &[0xff, b'n', b'o']));
}

#[test]
fn store_adds_then_refreshes() {
    let mut h = History::new();
    let f = PathFacts::new();
    let c = Config::default();
    let out = store(&mut h, &c, "", b"  hi\nthere ".to_vec(), &f, 10);
    let hash = match out {
        StoreOutcome::Added { hash, content, evicted } => {
            assert_eq!(content, b"  hi\nthere ".to_vec());
            assert!(evicted.is_empty());
            hash
        }
        _ => panic!("expected a new entry"),
    };
    assert_eq!(hash, content_hash(b"  hi\nthere "));
    let m = h.get(&hash).unwrap();
    assert_eq!(m.preview, "hi \u{21b5} there");
    assert_eq!(m.mime, "text/plain");
    assert!(!m.pinned);
    assert_eq!(m.timestamp, 10);
    h.toggle_pin(&hash);
    match store(&mut h, &c, "", b"  hi\nthere ".to_vec(), &f, 20) {
        StoreOutcome::Refreshed { hash: again } => assert_eq!(again, hash),
        _ => panic!("expected a refresh"),
    }
    let m = h.get(&hash).unwrap();
    assert_eq!(m.timestamp, 20);
    assert!(m.pinned);
    assert_eq!(h.len(), 1);
}

#[test]
fn store_skips() {
    let mut h = History::new();
    let f = PathFacts::new();
    let c = Config::default();
    assert!(matches!(store(&mut h, &c, "sensitive", b"x".to_vec(), &f, 1), StoreOutcome::Skipped));
    assert!(matches!(store(&mut h, &c, "", Vec::new(), &f, 1), StoreOutcome::Skipped));
    assert!(matches!(
        store(&mut h, &c, "", vec![0x80, 0x81, 0x82], &f, 1),
        StoreOutcome::Skipped
    ));
    let c2 = Config { ignore_patterns: vec!["^secret".to_string()], ..Config::default() };
    assert!(matches!(store(&mut h, &c2, "", b"secret!".to_vec(), &f, 1), StoreOutcome::Skipped));
    assert_eq!(h.len(), 0);
}

#[test]
fn store_normalizes_file_lists() {
    let mut h = History::new();
    let mut f = PathFacts::new();
    f.record("/home/u/report.pdf", false);
    let c = Config::default();
    match store(&mut h, &c, "", b"copy\n/home/u/report.pdf\n".to_vec(), &f, 3) {
        StoreOutcome::Added { hash, content, .. } => {
            assert_eq!(content, b"copy\nfile:///home/u/report.pdf".to_vec());
            let m = h.get(&hash).unwrap();
            assert_eq!(m.mime, "text/uri-list");
            assert_eq!(m.preview, "[[ file: report.pdf ]]");
        }
        _ => panic!("expected a new entry"),
    }
}

#[test]
fn store_trims_oldest_unpinned() {
    let mut h = History::new();
    let f = PathFacts::new();
    let c = small_config(2);
    store(&mut h, &c, "", b"one".to_vec(), &f, 1);
    store(&mut h, &c, "", b"two".to_vec(), &f, 2);
    h.toggle_pin(&content_hash(b"one"));
    match store(&mut h, &c, "", b"three".to_vec(), &f, 3) {
        StoreOutcome::Added { evicted, .. } => assert_eq!(evicted, vec![content_hash(b"two")]),
        _ => panic!("expected a new entry"),
    }
    assert_eq!(h.len(), 2);
    assert!(h.get(&content_hash(b"one")).is_some());
    assert!(h.get(&content_hash(b"three")).is_some());
}

#[test]
fn store_with_zero_limit_keeps_only_pinned() {
    let mut h = History::new();
    h.put(
        "x".to_string(),
        ClipboardMeta { preview: String::new(), mime: "text/plain".to_string(), pinned: true, timestamp: 0 },
    );
    let f = PathFacts::new();
    match store(&mut h, &small_config(0), "", b"a".to_vec(), &f, 5) {
        StoreOutcome::Added { evicted, hash, .. } => {
            assert_eq!(evicted, vec![hash]);
        }
        _ => panic!("expected a new entry"),
    }
    assert_eq!(h.len(), 1);
    assert!(h.get("x").unwrap().pinned);
}

#[test]
fn retry_backoff() {
    let mut s = RetryState::start();
    assert_eq!(s.attempt(), 0);
    let mut waits = vec![s.wait_millis()];
    while let Some(next) = s.after_busy() {
        s = next;
        waits.push(s.wait_millis());
    }
    assert_eq!(s.attempt(), OPEN_ATTEMPTS);
    assert_eq!(&waits[..7], &[2, 4, 8, 16, 32, 50, 50]);
    assert_eq!(waits.len(), OPEN_ATTEMPTS as usize + 1);
    assert!(waits.iter().all(|w| *w <= 50));
}

#[test]
fn facts_beyond_the_probed_paths_change_nothing() {
    let content = b"/srv/a.txt\n/srv/b".to_vec();
    let probes = bnclip::paths::paths_to_probe(&content);
    assert_eq!(probes, vec!["/srv/a.txt".to_string(), "/srv/a.txt".to_string(), "/srv/b".to_string(), "/srv/b".to_string()]);
    let mut f1 = PathFacts::new();
    f1.record("/srv/a.txt", false);
    f1.record("/srv/b", true);
    let mut f2 = PathFacts::new();
    f2.record("/srv/a.txt", false);
    f2.record("/srv/b", true);
    f2.record("/srv", true);
    f2.record("/elsewhere", false);
    let c = Config::default();
    let mut h1 = History::new();
    let mut h2 = History::new();
    let o1 = store(&mut h1, &c, "", content.clone(), &f1, 1);
    let o2 = store(&mut h2, &c, "", content, &f2, 1);
    match (o1, o2) {
        (
            StoreOutcome::Added { hash: a, content: ca, .. },
            StoreOutcome::Added { hash: b, content: cb, .. },
        ) => {
            assert_eq!(a, b);
            assert_eq!(ca, cb);
            assert_eq!(ca, b"file:///srv/a.txt\nfile:///srv/b".to_vec());
            assert_eq!(h1.get(&a).unwrap().preview, "[[ file: a.txt +1 ]]");
            assert_eq!(h1.get(&a).unwrap().preview, h2.get(&b).unwrap().preview);
        }
        _ => panic!("expected new entries"),
    }
}

fn apply_to_blobs(blobs: &mut std::collections::HashMap<String, Vec<u8>>, outcome: StoreOutcome) {
    if let StoreOutcome::Added { hash, content, evicted } = outcome {
        blobs.insert(hash, content);
        for gone in evicted {
            blobs.remove(&gone);
        }
    }
}

fn history_keys(h: &History) -> Vec<String> {
    let mut keys: Vec<String> = h.newest_first().into_iter().map(|r| r.hash).collect();
    keys.sort();
    keys
}

#[test]
fn blobs_keep_step_with_the_history() {
    let mut h = History::new();
    let mut blobs = std::collections::HashMap::new();
    let f = PathFacts::new();
    let c = small_config(2);
    for (i, text) in ["one", "two", "one", "three", "four"].iter().enumerate() {
        let out = store(&mut h, &c, "", text.as_bytes().to_vec(), &f, i as u128);
        apply_to_blobs(&mut blobs, out);
        let mut blob_keys: Vec<String> = blobs.keys().cloned().collect();
        blob_keys.sort();
        assert_eq!(blob_keys, history_keys(&h));
    }
    assert_eq!(h.len(), 2);
    assert_eq!(blobs.get(&content_hash(b"four")).unwrap(), &b"four".to_vec());
    assert_eq!(blobs.get(&content_hash(b"three")).unwrap(), &b"three".to_vec());
}

#[test]
fn invalid_patterns_are_listed_in_order() {
    let pats = vec!["(".to_string(), "^ok".to_string(), "[".to_string(), "x".to_string()];
    assert_eq!(invalid_patterns(&pats), vec![0, 2]);
    assert!(invalid_patterns(&[]).is_empty());
    assert!(invalid_patterns(&["a+".to_string()]).is_empty());
}

#[test]
fn ignore_verdicts() {
    let pats = vec!["(".to_string(), "^ok".to_string()];
    assert_eq!(ignore_verdict("ok then", &pats), Some(true));
    assert_eq!(ignore_verdict("not ok", &pats), Some(false));
    assert_eq!(ignore_verdict("anything", &[]), Some(false));
    assert_eq!(ignore_verdict("anything", &["(".to_string()]), Some(false));
}

#[test]
fn pattern_consultation() {
    let c = Config {
        min_store_size: 2,
        max_store_size: 5,
        ignore_patterns: vec!["^no".to_string()],
        ..Config::default()
    };
    assert!(consults_ignore_patterns(&c, "", b"abc"));
    assert!(!consults_ignore_patterns(&c, "clear", b"abc"));
    assert!(!consults_ignore_patterns(&c, "", b"a"));
    assert!(!consults_ignore_patterns(&c, "", b"abcdef"));
    assert!(!consults_ignore_patterns(&c, "", &[0xff, b'n', b'o']));
    assert!(!consults_ignore_patterns(&Config::default(), "", b"abc"));
}

#[test]
fn refreshed_entry_keeps_its_blob() {
    let mut h = History::new();
    let mut blobs = std::collections::HashMap::new();
    let f = PathFacts::new();
    let c = Config::default();
    let first = store(&mut h, &c, "", b"same".to_vec(), &f, 1);
    apply_to_blobs(&mut blobs, first);
    match store(&mut h, &c, "", b"same".to_vec(), &f, 2) {
        StoreOutcome::Refreshed { hash } => {
            assert_eq!(blobs.get(&hash).unwrap(), &b"same".to_vec());
            assert_eq!(content_hash(blobs.get(&hash).unwrap()), hash);
        }
        _ => panic!("expected a refresh"),
    }
}
