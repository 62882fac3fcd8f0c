//! Storing a clipboard copy: what is admitted, how it is keyed, and how it
//! enters the history.
use vstd::prelude::*;
use vstd::utf8::{decode_utf8, valid_utf8};

use crate::history::{is_trim_of, ClipboardMeta, History, MetaView};
use crate::ignore::{ignored, should_ignore};
use crate::mime::{detect_mime, detected_mime, normalized_lists_are_uri_lists};
use crate::paths::{
    all_path_lines, display_path, facts_agree_on, is_path_line, is_verb, parsed_path_lines, lemma_display_paths_origin, lemma_probe_covers,
    normalize_paths, normalized_display_paths_are_probed, normalized_paths,
    parsing_depends_on_probed_paths, probe_paths_of, uri_display_paths_of, PathFacts,
};
use crate::preview::{create_preview, preview_of};
use crate::text::{chars_equal, content_lines, push_chars, str_chars, utf8_text};

verus! {

// ---------------------------------------------------------------------------
// Configuration
// ---------------------------------------------------------------------------

/// User settings. Sizes are in bytes.
pub struct Config {
    /// Most characters of a text preview shown by a listing.
    pub preview_width: usize,
    /// Most rows kept in the history.
    pub max_history_length: u64,
    /// Larger copies are not stored.
    pub max_store_size: u64,
    /// Smaller copies are not stored.
    pub min_store_size: u64,
    /// Regular expressions; text that one of them matches is not stored.
    pub ignore_patterns: Vec<String>,
}

/// 10 MiB.
pub const DEFAULT_MAX_STORE_SIZE: u64 = 10485760;

impl Default for Config {
    /// Width 100, 500 rows, copies of 1 B up to 10 MiB, no ignore patterns.
    fn default() -> (res: Config)
        ensures
            res.preview_width == 100,
            res.max_history_length == 500,
            res.max_store_size == 10 * 1024 * 1024,
            res.min_store_size == 1,
            res.ignore_patterns@.len() == 0,
    {
        Config {
            preview_width: 100,
            max_history_length: 500,
            max_store_size: DEFAULT_MAX_STORE_SIZE,
            min_store_size: 1,
            ignore_patterns: Vec::new(),
        }
    }
}

impl Config {
    /// How many bytes to read of a copy: one more than the largest that is
    /// stored, so that an oversized copy is recognised.
    pub fn read_limit(&self) -> (res: u64)
        ensures
            res == if self.max_store_size == u64::MAX {
                u64::MAX
            } else {
                (self.max_store_size + 1) as u64
            },
    {
        self.max_store_size.saturating_add(1)
    }
}

/// The ignore patterns of a configuration, as texts.
pub open spec fn patterns_of(config: Config) -> Seq<Seq<char>> {
    config.ignore_patterns@.map_values(|p: String| p@)
}

// ---------------------------------------------------------------------------
// Content hash
// ---------------------------------------------------------------------------

/// Name of the first eight bytes of the BLAKE3 extendable output of `content`.
pub uninterp spec fn spec_blake3_prefix8(content: Seq<u8>) -> Seq<u8>;

/// The lower-case hexadecimal digit for `d < 16`.
pub open spec fn hex_digit(d: nat) -> char {
    if d < 10 {
        crate::text::digit_char(d)
    } else if d == 10 {
        'a'
    } else if d == 11 {
        'b'
    } else if d == 12 {
        'c'
    } else if d == 13 {
        'd'
    } else if d == 14 {
        'e'
    } else {
        'f'
    }
}

/// Lower-case hexadecimal, two digits per byte, high nibble first.
pub open spec fn hex_lower(bytes: Seq<u8>) -> Seq<char>
    decreases bytes.len(),
{
    if bytes.len() == 0 {
        seq![]
    } else {
        hex_lower(bytes.drop_last()) + seq![
            hex_digit((bytes.last() / 16) as nat),
            hex_digit((bytes.last() % 16) as nat),
        ]
    }
}

/// The key of an entry: its BLAKE3 prefix in hexadecimal.
pub open spec fn content_hash_of(content: Seq<u8>) -> Seq<char> {
    hex_lower(spec_blake3_prefix8(content))
}

/// `blake3::Hasher::new().update(content).finalize_xof().fill(&mut [0u8; 8])`:
/// eight bytes of the BLAKE3 extendable output, named.
#[verifier::external_body]
fn blake3_prefix8(content: &[u8]) -> (res: Vec<u8>)
    ensures
        res@ == spec_blake3_prefix8(content@),
        res@.len() == 8,
{
    let mut buf = [0u8; 8];
    blake3::Hasher::new().update(content).finalize_xof().fill(&mut buf);
    buf.to_vec()
}

/// The lower-case hexadecimal digit for `d`.
fn hex_char(d: u8) -> (c: char)
    requires
        d < 16,
    ensures
        c == hex_digit(d as nat),
{
    if d == 0 { '0' } else if d == 1 { '1' } else if d == 2 { '2' } else if d == 3 { '3' }
    else if d == 4 { '4' } else if d == 5 { '5' } else if d == 6 { '6' } else if d == 7 { '7' }
    else if d == 8 { '8' } else if d == 9 { '9' } else if d == 10 { 'a' } else if d == 11 { 'b' }
    else if d == 12 { 'c' } else if d == 13 { 'd' } else if d == 14 { 'e' } else { 'f' }
}

/// Lower-case hexadecimal of `bytes`, two digits per byte, high nibble
/// first: what `hex::encode` gives.
fn hex_encode(bytes: &[u8]) -> (res: String)
    ensures
        res@ == hex_lower(bytes@),
{
    let mut out: Vec<char> = Vec::new();
    let n = bytes.len();
    assert(bytes@.take(0) =~= Seq::<u8>::empty());
    for i in 0..n
        invariant
            n == bytes@.len(),
            out@ == hex_lower(bytes@.take(i as int)),
    {
        let ghost pre = bytes@.take(i + 1);
        assert(pre.drop_last() =~= bytes@.take(i as int));
        assert(pre.last() == bytes@[i as int]);
        let b = bytes[i];
        let ghost before = out@;
        out.push(hex_char(b / 16));
        out.push(hex_char(b % 16));
        assert(out@ =~= before + seq![hex_digit((b / 16) as nat), hex_digit((b % 16) as nat)]);
    }
    assert(bytes@.take(n as int) =~= bytes@);
    let mut s = String::new();
    push_chars(&mut s, &out);
    s
}

/// The key under which `content` is stored.
pub fn content_hash(content: &[u8]) -> (res: String)
    ensures
        res@ == content_hash_of(content@),
        res@.len() == 16,
{
    let digest = blake3_prefix8(content);
    proof {
        lemma_hex_len(digest@);
    }
    hex_encode(&digest)
}

proof fn lemma_hex_len(b: Seq<u8>)
    ensures
        hex_lower(b).len() == 2 * b.len(),
    decreases b.len(),
{
    if b.len() > 0 {
        lemma_hex_len(b.drop_last());
    }
}

// ---------------------------------------------------------------------------
// Storing
// ---------------------------------------------------------------------------

/// `"clear"`.
pub open spec fn clear_state() -> Seq<char> {
    seq!['c', 'l', 'e', 'a', 'r']
}

/// `"sensitive"`.
pub open spec fn sensitive_state() -> Seq<char> {
    seq!['s', 'e', 'n', 's', 'i', 't', 'i', 'v', 'e']
}

/// A copy is stored unless the clipboard owner marked it `clear` or
/// `sensitive`, it is larger than `max_store_size` or smaller than
/// `min_store_size`, or it is text that an ignore pattern matches.
pub open spec fn admitted(config: Config, clipboard_state: Seq<char>, content: Seq<u8>) -> bool {
    &&& clipboard_state != clear_state()
    &&& clipboard_state != sensitive_state()
    &&& content.len() <= config.max_store_size
    &&& content.len() >= config.min_store_size
    &&& !(config.ignore_patterns@.len() > 0 && valid_utf8(content) && ignored(
        decode_utf8(content),
        patterns_of(config),
    ))
}

/// What is stored of a copy: a list of file references in its normalised
/// form, anything else byte for byte.
pub open spec fn stored_bytes(content: Seq<u8>, facts: PathFacts) -> Seq<u8> {
    match normalized_paths(content, facts) {
        Some(n) => n,
        None => content,
    }
}

/// The record of a newly stored entry.
pub open spec fn new_record(bytes: Seq<u8>, mime: Seq<char>, facts: PathFacts, timestamp: u128) -> MetaView {
    MetaView { preview: preview_of(bytes, mime, facts), mime, pinned: false, timestamp }
}

/// Whether a copy is to be stored (see [`admitted`]).
pub fn is_admitted(config: &Config, clipboard_state: &str, content: &[u8]) -> (res: bool)
    ensures
        res == admitted(*config, clipboard_state@, content@),
{
    let state = str_chars(clipboard_state);
    let clear = vec!['c', 'l', 'e', 'a', 'r'];
    let sensitive = vec!['s', 'e', 'n', 's', 'i', 't', 'i', 'v', 'e'];
    if chars_equal(&state, &clear) || chars_equal(&state, &sensitive) {
        return false;
    }
    let size = content.len() as u64;
    if size > config.max_store_size {
        return false;
    }
    if size < config.min_store_size {
        return false;
    }
    if config.ignore_patterns.len() > 0 {
        if let Some(text) = utf8_text(content) {
            if should_ignore(text, config.ignore_patterns.as_slice()) {
                return false;
            }
        }
    }
    true
}

/// Whether judging a copy consults the ignore patterns: it does for text
/// that is not marked `clear` or `sensitive` and is within the size bounds,
/// when there are patterns.
pub open spec fn consults_patterns(config: Config, clipboard_state: Seq<char>, content: Seq<u8>) -> bool {
    &&& clipboard_state != clear_state()
    &&& clipboard_state != sensitive_state()
    &&& content.len() <= config.max_store_size
    &&& content.len() >= config.min_store_size
    &&& config.ignore_patterns@.len() > 0
    &&& valid_utf8(content)
}

/// Whether [`is_admitted`] consults the ignore patterns for this copy (see
/// [`consults_patterns`]).
pub fn consults_ignore_patterns(config: &Config, clipboard_state: &str, content: &[u8]) -> (res: bool)
    ensures
        res == consults_patterns(*config, clipboard_state@, content@),
{
    let state = str_chars(clipboard_state);
    let clear = vec!['c', 'l', 'e', 'a', 'r'];
    let sensitive = vec!['s', 'e', 'n', 's', 'i', 't', 'i', 'v', 'e'];
    if chars_equal(&state, &clear) || chars_equal(&state, &sensitive) {
        return false;
    }
    let size = content.len() as u64;
    if size > config.max_store_size || size < config.min_store_size {
        return false;
    }
    config.ignore_patterns.len() > 0 && utf8_text(content).is_some()
}

/// What storing a copy did.
pub enum StoreOutcome {
    /// Nothing was stored.
    Skipped,
    /// The content was already stored; its timestamp was renewed.
    Refreshed { hash: String },
    /// A new row was added (its bytes are `content`), and the rows in
    /// `evicted` were dropped to keep the history within its limit.
    Added { hash: String, content: Vec<u8>, evicted: Vec<String> },
}

/// What storing `content` does to a history `before`, leaving `after`, and
/// what it answers: nothing changes for a copy that is not admitted or has
/// no type; content already stored only has its timestamp renewed; anything
/// else is added as a new unpinned row, and the history is trimmed to
/// `max_history_length` rows.
pub open spec fn store_effect(
    before: Map<Seq<char>, MetaView>,
    after: Map<Seq<char>, MetaView>,
    config: Config,
    clipboard_state: Seq<char>,
    content: Seq<u8>,
    facts: PathFacts,
    timestamp: u128,
    outcome: StoreOutcome,
) -> bool {
    let stored = stored_bytes(content, facts);
    let h = content_hash_of(stored);
    match outcome {
        StoreOutcome::Skipped => {
            &&& after == before
            &&& (!admitted(config, clipboard_state, content) || (!before.contains_key(h)
                && detected_mime(stored, facts) is None))
        },
        StoreOutcome::Refreshed { hash } => {
            &&& admitted(config, clipboard_state, content)
            &&& hash@ == h
            &&& before.contains_key(h)
            &&& after == before.insert(h, MetaView { timestamp, ..before[h] })
        },
        StoreOutcome::Added { hash, content: bytes, evicted } => {
            &&& admitted(config, clipboard_state, content)
            &&& hash@ == h
            &&& bytes@ == stored
            &&& !before.contains_key(h)
            &&& detected_mime(stored, facts) is Some
            &&& is_trim_of(
                before.insert(
                    h,
                    new_record(stored, detected_mime(stored, facts).unwrap(), facts, timestamp),
                ),
                after,
                evicted.deep_view(),
                config.max_history_length,
            )
        },
    }
}

/// A blob table (entry key to stored bytes) once a store's outcome is
/// written to it: the bytes of a new entry under its key, then the evicted
/// keys removed.
pub open spec fn blobs_after(blobs: Map<Seq<char>, Seq<u8>>, outcome: StoreOutcome) -> Map<
    Seq<char>,
    Seq<u8>,
> {
    match outcome {
        StoreOutcome::Added { hash, content, evicted } => blobs.insert(hash@, content@).remove_keys(
            evicted.deep_view().to_set(),
        ),
        _ => blobs,
    }
}

/// Stores a clipboard copy taken at `timestamp`: skips what is not
/// admitted, renews the timestamp of content already stored, and otherwise
/// adds a row (when the content has a type) and trims the history to
/// `max_history_length` rows.
pub fn store(
    history: &mut History,
    config: &Config,
    clipboard_state: &str,
    content: Vec<u8>,
    facts: &PathFacts,
    timestamp: u128,
) -> (outcome: StoreOutcome)
    ensures
        store_effect(
            old(history)@,
            final(history)@,
            *config,
            clipboard_state@,
            content@,
            *facts,
            timestamp,
            outcome,
        ),
{
    if !is_admitted(config, clipboard_state, &content) {
        return StoreOutcome::Skipped;
    }
    let stored = match normalize_paths(&content, facts) {
        Some(n) => n,
        None => content,
    };
    let hash = content_hash(&stored);
    let refreshed = match history.get(hash.as_str()) {
        Some(meta) => {
            let mut m = meta.duplicate();
            m.timestamp = timestamp;
            Some(m)
        },
        None => None,
    };
    if let Some(m) = refreshed {
        proof {
            assert(m@ == MetaView { timestamp, ..old(history)@[hash@] });
        }
        history.put(hash.clone(), m);
        return StoreOutcome::Refreshed { hash };
    }
    let mime = match detect_mime(&stored, facts) {
        Some(m) => m,
        None => return StoreOutcome::Skipped,
    };
    let preview = create_preview(&stored, mime.as_str(), facts);
    let meta = ClipboardMeta { preview, mime, pinned: false, timestamp };
    history.put(hash.clone(), meta);
    let evicted = history.trim_to(config.max_history_length);
    StoreOutcome::Added { hash, content: stored, evicted }
}

// ---------------------------------------------------------------------------
// Laws
// ---------------------------------------------------------------------------

/// The blob table keeps step with the history: when the history and the
/// blob table have the same keys, writing a store's outcome to the blob
/// table leaves them with the same keys again; a new entry that stays has the
/// stored bytes as its blob, and every other blob is unchanged.
pub proof fn blobs_follow_the_history(
    before: Map<Seq<char>, MetaView>,
    after: Map<Seq<char>, MetaView>,
    blobs: Map<Seq<char>, Seq<u8>>,
    config: Config,
    clipboard_state: Seq<char>,
    content: Seq<u8>,
    facts: PathFacts,
    timestamp: u128,
    outcome: StoreOutcome,
)
    requires
        store_effect(before, after, config, clipboard_state, content, facts, timestamp, outcome),
        blobs.dom() == before.dom(),
    ensures
        blobs_after(blobs, outcome).dom() == after.dom(),
        forall|k: Seq<char>|
            #[trigger] after.contains_key(k) && blobs.contains_key(k) ==> blobs_after(
                blobs,
                outcome,
            )[k] == blobs[k],
        outcome matches StoreOutcome::Added { hash, .. } ==> (after.contains_key(hash@)
            ==> blobs_after(blobs, outcome)[hash@] == stored_bytes(content, facts)),
{
    match outcome {
        StoreOutcome::Added { hash, content: bytes, evicted } => {
            let ev = evicted.deep_view();
            let b2 = blobs_after(blobs, outcome);
            let h = hash@;
            assert forall|k: Seq<char>| b2.dom().contains(k) <==> after.dom().contains(k) by {
                if after.contains_key(k) {
                    if ev.to_set().contains(k) {
                        let i = choose|i: int| 0 <= i < ev.len() && ev[i] == k;
                        assert(!after.contains_key(ev[i]));
                    }
                }
                if b2.dom().contains(k) {
                    if !after.contains_key(k) {
                        assert(ev.contains(k));
                        assert(ev.to_set().contains(k));
                    }
                }
            }
            assert(b2.dom() =~= after.dom());
        },
        StoreOutcome::Refreshed { hash } => {
            assert(after.dom() =~= before.dom());
        },
        StoreOutcome::Skipped => {},
    }
}

/// Every blob is stored under the content hash of its bytes.
pub open spec fn blobs_keyed_by_hash(blobs: Map<Seq<char>, Seq<u8>>) -> bool {
    forall|k: Seq<char>| #[trigger] blobs.contains_key(k) ==> content_hash_of(blobs[k]) == k
}

/// Storing keeps every blob under its own content hash. So the entry a store
/// answers with, new or refreshed, has a blob with the hash of the stored
/// bytes, and that blob is the stored bytes unless another stored content
/// has the same hash: a repeated copy decodes to what was stored.
pub proof fn blobs_stay_keyed_by_hash(
    before: Map<Seq<char>, MetaView>,
    after: Map<Seq<char>, MetaView>,
    blobs: Map<Seq<char>, Seq<u8>>,
    config: Config,
    clipboard_state: Seq<char>,
    content: Seq<u8>,
    facts: PathFacts,
    timestamp: u128,
    outcome: StoreOutcome,
)
    requires
        store_effect(before, after, config, clipboard_state, content, facts, timestamp, outcome),
        blobs.dom() == before.dom(),
        blobs_keyed_by_hash(blobs),
    ensures
        blobs_keyed_by_hash(blobs_after(blobs, outcome)),
        ({
            let stored = stored_bytes(content, facts);
            let h = content_hash_of(stored);
            let b2 = blobs_after(blobs, outcome);
            (outcome is Refreshed || (outcome is Added && after.contains_key(h))) ==> {
                &&& b2.contains_key(h)
                &&& content_hash_of(b2[h]) == h
                &&& (forall|k: Seq<char>|
                    #[trigger] blobs.contains_key(k) && content_hash_of(blobs[k]) == h
                        ==> blobs[k] == stored) ==> b2[h] == stored
            }
        }),
{
    blobs_follow_the_history(
        before,
        after,
        blobs,
        config,
        clipboard_state,
        content,
        facts,
        timestamp,
        outcome,
    );
    let b2 = blobs_after(blobs, outcome);
    assert forall|k: Seq<char>| #[trigger] b2.contains_key(k) implies content_hash_of(b2[k])
        == k by {
        if let StoreOutcome::Added { hash, content: bytes, evicted } = outcome {
            if k != hash@ {
                assert(b2[k] == blobs[k]);
            }
        }
    }
}

/// Admission depends on the clipboard state only through `"clear"` and
/// `"sensitive"`: any two other states (`""`, `"nil"`, `"data"`, ...) admit
/// exactly the same copies.
pub proof fn admission_reads_only_clear_and_sensitive(
    config: Config,
    state1: Seq<char>,
    state2: Seq<char>,
    content: Seq<u8>,
)
    requires
        state1 != seq!['c', 'l', 'e', 'a', 'r'],
        state1 != seq!['s', 'e', 'n', 's', 'i', 't', 'i', 'v', 'e'],
        state2 != seq!['c', 'l', 'e', 'a', 'r'],
        state2 != seq!['s', 'e', 'n', 's', 'i', 't', 'i', 'v', 'e'],
    ensures
        admitted(config, state1, content) == admitted(config, state2, content),
{
}

/// A copy marked `"clear"` or `"sensitive"` is never admitted; any other
/// copy within the size bounds is admitted when there are no ignore
/// patterns, or when it is not text, or when no pattern matches it.
pub proof fn what_is_admitted(config: Config, clipboard_state: Seq<char>, content: Seq<u8>)
    ensures
        clipboard_state == seq!['c', 'l', 'e', 'a', 'r'] ==> !admitted(
            config,
            clipboard_state,
            content,
        ),
        clipboard_state == seq!['s', 'e', 'n', 's', 'i', 't', 'i', 'v', 'e'] ==> !admitted(
            config,
            clipboard_state,
            content,
        ),
        clipboard_state != seq!['c', 'l', 'e', 'a', 'r'] && clipboard_state != seq![
            's',
            'e',
            'n',
            's',
            'i',
            't',
            'i',
            'v',
            'e',
        ] && config.min_store_size <= content.len() <= config.max_store_size && (
        config.ignore_patterns@.len() == 0 || !valid_utf8(content) || !ignored(
            decode_utf8(content),
            patterns_of(config),
        )) ==> admitted(config, clipboard_state, content),
{
}

/// A line that is neither a `copy`/`cut` header at the top nor starts with
/// `file://` or `/` (a web address, a word) names no file: UTF-8 text with
/// such a line is not a list of file references, so it is typed
/// `text/plain` and stored byte for byte.
pub proof fn lines_naming_no_file_keep_text_plain(bytes: Seq<u8>, facts: PathFacts, k: int)
    requires
        valid_utf8(bytes),
        0 <= k < content_lines(decode_utf8(bytes)).len(),
        !(k == 0 && (content_lines(decode_utf8(bytes))[0] == seq!['c', 'o', 'p', 'y']
            || content_lines(decode_utf8(bytes))[0] == seq!['c', 'u', 't'])),
        !(content_lines(decode_utf8(bytes))[k].len() >= 7 && content_lines(
            decode_utf8(bytes),
        )[k].take(7) == seq!['f', 'i', 'l', 'e', ':', '/', '/']),
        !(content_lines(decode_utf8(bytes))[k].len() > 0 && content_lines(
            decode_utf8(bytes),
        )[k][0] == '/'),
    ensures
        parsed_path_lines(decode_utf8(bytes), facts) is None,
        normalized_paths(bytes, facts) is None,
        stored_bytes(bytes, facts) == bytes,
        detected_mime(bytes, facts) == Some(seq!['t', 'e', 'x', 't', '/', 'p', 'l', 'a', 'i', 'n']),
{
    let lines = content_lines(decode_utf8(bytes));
    let line = lines[k];
    assert(!is_path_line(line, facts)) by {
        if line.len() >= 7 {
            assert(line.subrange(0, 7) =~= line.take(7));
        }
    }
    if is_verb(lines[0]) {
        assert(k >= 1);
        assert(lines.drop_first()[k - 1] == line);
        assert(!all_path_lines(lines.drop_first(), facts));
    } else {
        assert(!all_path_lines(lines, facts));
    }
}

/// A copy that is larger than `max_store_size`, or smaller than
/// `min_store_size`, is never stored.
pub proof fn out_of_bounds_copies_are_not_admitted(
    config: Config,
    clipboard_state: Seq<char>,
    content: Seq<u8>,
)
    requires
        content.len() > config.max_store_size || content.len() < config.min_store_size,
    ensures
        !admitted(config, clipboard_state, content),
{
}

/// Text that an ignore pattern matches is never stored.
pub proof fn ignored_text_is_not_admitted(config: Config, clipboard_state: Seq<char>, text: Seq<char>)
    requires
        config.ignore_patterns@.len() > 0,
        ignored(text, patterns_of(config)),
    ensures
        !admitted(config, clipboard_state, vstd::utf8::encode_utf8(text)),
{
    vstd::utf8::encode_utf8_valid_utf8(text);
    vstd::utf8::encode_utf8_decode_utf8(text);
}

/// Content that is not a list of file references is stored byte for byte.
pub proof fn plain_content_is_kept_verbatim(content: Seq<u8>, facts: PathFacts)
    requires
        normalized_paths(content, facts) is None,
    ensures
        stored_bytes(content, facts) == content,
{
}

/// Probing the paths that `paths_to_probe` lists is enough: two sets of
/// facts that agree on them lead to the same stored bytes, type and preview.
pub proof fn probed_paths_decide_the_entry(content: Seq<u8>, f1: PathFacts, f2: PathFacts)
    requires
        valid_utf8(content) ==> facts_agree_on(
            f1,
            f2,
            probe_paths_of(content_lines(decode_utf8(content))),
        ),
    ensures
        stored_bytes(content, f1) == stored_bytes(content, f2),
        detected_mime(stored_bytes(content, f1), f1) == detected_mime(
            stored_bytes(content, f2),
            f2,
        ),
        forall|mime: Seq<char>|
            #[trigger] preview_of(stored_bytes(content, f1), mime, f1) == preview_of(
                stored_bytes(content, f2),
                mime,
                f2,
            ),
{
    if !valid_utf8(content) {
        return;
    }
    let text = decode_utf8(content);
    let lines = content_lines(text);
    let probes = probe_paths_of(lines);
    parsing_depends_on_probed_paths(text, f1, f2);
    let b = stored_bytes(content, f1);
    assert(b == stored_bytes(content, f2));
    if normalized_paths(content, f1) is Some {
        normalized_lists_are_uri_lists(content, f1);
        normalized_lists_are_uri_lists(content, f2);
        normalized_display_paths_are_probed(content, f1);
    } else {
        lemma_display_paths_origin(lines);
        lemma_probe_covers(lines);
    }
    let paths = uri_display_paths_of(b);
    if paths.len() > 0 {
        assert(probes.contains(paths[0])) by {
            if normalized_paths(content, f1) is None {
                assert(b == content);
                let k = choose|k: int|
                    0 <= k < lines.len() && !is_verb(lines[k]) && #[trigger] paths[0]
                        == display_path(lines[k]) && paths[0].len() > 0;
                assert(probes.contains(display_path(lines[k])));
            }
        }
        let i = choose|i: int| 0 <= i < probes.len() && probes[i] == paths[0];
        assert(f1.is_directory(probes[i]) == f2.is_directory(probes[i]));
    }
    assert forall|mime: Seq<char>|
        #[trigger] preview_of(b, mime, f1) == preview_of(b, mime, f2) by {}
}

} // verus!
