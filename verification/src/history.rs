//! The clipboard history: entries keyed by content hash, the order in which
//! they are evicted when the history is over its limit, pinning, and the
//! newest-first listing.
use vstd::prelude::*;

use crate::preview::{truncate_preview, truncated_preview, PREVIEW_STORE_LEN};
use crate::text::{bool_chars, bool_text, chars_start_with, decimal, decimal_chars, push_chars, starts_with, str_chars};

verus! {

/// `s` on one line: every `'\n'` replaced by `" ↵ "` and every tab by a
/// space, so that a listed field never splits a row or its fields.
pub open spec fn one_line(s: Seq<char>) -> Seq<char>
    decreases s.len(),
{
    if s.len() == 0 {
        seq![]
    } else if s.last() == '\n' {
        one_line(s.drop_last()) + seq![' ', '\u{21b5}', ' ']
    } else if s.last() == '\t' {
        one_line(s.drop_last()).push(' ')
    } else {
        one_line(s.drop_last()).push(s.last())
    }
}

/// `s` holds neither a tab nor a newline.
pub open spec fn is_single_line(s: Seq<char>) -> bool {
    forall|i: int| 0 <= i < s.len() ==> #[trigger] s[i] != '\t' && s[i] != '\n'
}

/// Text put on one line (see [`one_line`]).
fn to_one_line(s: &[char]) -> (res: Vec<char>)
    ensures
        res@ == one_line(s@),
{
    let mut out: Vec<char> = Vec::new();
    let n = s.len();
    assert(s@.take(0) =~= Seq::<char>::empty());
    for i in 0..n
        invariant
            n == s@.len(),
            out@ == one_line(s@.take(i as int)),
    {
        let ghost pre = s@.take(i + 1);
        assert(pre.drop_last() =~= s@.take(i as int));
        assert(pre.last() == s@[i as int]);
        if s[i] == '\n' {
            let ghost before = out@;
            out.push(' ');
            out.push('\u{21b5}');
            out.push(' ');
            assert(out@ =~= before + seq![' ', '\u{21b5}', ' ']);
        } else if s[i] == '\t' {
            out.push(' ');
        } else {
            out.push(s[i]);
        }
    }
    assert(s@.take(n as int) =~= s@);
    out
}

/// Putting text on one line leaves no tab or newline.
pub proof fn lemma_one_line_single(s: Seq<char>)
    ensures
        is_single_line(one_line(s)),
    decreases s.len(),
{
    if s.len() > 0 {
        lemma_one_line_single(s.drop_last());
    }
}


// ---------------------------------------------------------------------------
// Entries
// ---------------------------------------------------------------------------

/// What is kept about one clipboard entry (its bytes are stored apart).
pub struct ClipboardMeta {
    pub preview: String,
    pub mime: String,
    pub pinned: bool,
    pub timestamp: u128,
}

/// The abstract value of a [`ClipboardMeta`].
pub struct MetaView {
    pub preview: Seq<char>,
    pub mime: Seq<char>,
    pub pinned: bool,
    pub timestamp: u128,
}

impl View for ClipboardMeta {
    type V = MetaView;

    open spec fn view(&self) -> MetaView {
        MetaView {
            preview: self.preview@,
            mime: self.mime@,
            pinned: self.pinned,
            timestamp: self.timestamp,
        }
    }
}

impl ClipboardMeta {
    /// A copy of this record.
    pub fn duplicate(&self) -> (res: ClipboardMeta)
        ensures
            res@ == self@,
    {
        ClipboardMeta {
            preview: self.preview.clone(),
            mime: self.mime.clone(),
            pinned: self.pinned,
            timestamp: self.timestamp,
        }
    }
}

/// One row of the history: the content hash and its record.
pub struct HistoryEntry {
    pub hash: String,
    pub meta: ClipboardMeta,
}

impl View for HistoryEntry {
    type V = (Seq<char>, MetaView);

    open spec fn view(&self) -> (Seq<char>, MetaView) {
        (self.hash@, self.meta@)
    }
}

impl HistoryEntry {
    /// A copy of this row.
    pub fn duplicate(&self) -> (res: HistoryEntry)
        ensures
            res@ == self@,
    {
        HistoryEntry { hash: self.hash.clone(), meta: self.meta.duplicate() }
    }
}

// ---------------------------------------------------------------------------
// Orders
// ---------------------------------------------------------------------------

/// Lexicographic order on texts, by code point (the order of `String`).
pub open spec fn text_lt(a: Seq<char>, b: Seq<char>) -> bool
    decreases a.len(),
{
    if a.len() == 0 {
        b.len() > 0
    } else if b.len() == 0 {
        false
    } else if (a[0] as u32) < (b[0] as u32) {
        true
    } else if a[0] == b[0] {
        text_lt(a.drop_first(), b.drop_first())
    } else {
        false
    }
}

/// Age order of rows: by timestamp, then by hash (`(timestamp, hash)` tuples).
pub open spec fn older(h1: Seq<char>, t1: u128, h2: Seq<char>, t2: u128) -> bool {
    t1 < t2 || (t1 == t2 && text_lt(h1, h2))
}

/// Eviction order: unpinned rows go before pinned ones, and within each
/// group the older row goes first.
pub open spec fn evicts_before(h1: Seq<char>, m1: MetaView, h2: Seq<char>, m2: MetaView) -> bool {
    (!m1.pinned && m2.pinned) || (m1.pinned == m2.pinned && older(
        h1,
        m1.timestamp,
        h2,
        m2.timestamp,
    ))
}

/// No text is before itself.
proof fn lemma_text_lt_irreflexive(a: Seq<char>)
    ensures
        !text_lt(a, a),
    decreases a.len(),
{
    if a.len() > 0 {
        lemma_text_lt_irreflexive(a.drop_first());
    }
}

/// The text order is transitive.
proof fn lemma_text_lt_transitive(a: Seq<char>, b: Seq<char>, c: Seq<char>)
    requires
        text_lt(a, b),
        text_lt(b, c),
    ensures
        text_lt(a, c),
    decreases a.len(),
{
    if a.len() > 0 && b.len() > 0 && c.len() > 0 {
        if a[0] == b[0] && b[0] == c[0] {
            lemma_text_lt_transitive(a.drop_first(), b.drop_first(), c.drop_first());
        }
    }
}

/// Two different texts are ordered one way or the other.
proof fn lemma_text_lt_total(a: Seq<char>, b: Seq<char>)
    requires
        a != b,
    ensures
        text_lt(a, b) || text_lt(b, a),
    decreases a.len(),
{
    if a.len() > 0 && b.len() > 0 && a[0] == b[0] {
        if a.drop_first() == b.drop_first() {
            assert(a =~= seq![a[0]] + a.drop_first());
            assert(b =~= seq![b[0]] + b.drop_first());
        }
        lemma_text_lt_total(a.drop_first(), b.drop_first());
    } else if a.len() == 0 && b.len() == 0 {
        assert(a =~= b);
    } else if a.len() > 0 && b.len() > 0 {
        vstd::utf8::char_u32_cast(a[0], a[0] as u32);
        vstd::utf8::char_u32_cast(b[0], b[0] as u32);
    }
}

/// The eviction order is transitive.
proof fn lemma_evicts_before_transitive(
    h1: Seq<char>,
    m1: MetaView,
    h2: Seq<char>,
    m2: MetaView,
    h3: Seq<char>,
    m3: MetaView,
)
    requires
        evicts_before(h1, m1, h2, m2),
        evicts_before(h2, m2, h3, m3),
    ensures
        evicts_before(h1, m1, h3, m3),
{
    if m1.pinned == m2.pinned && m2.pinned == m3.pinned && m1.timestamp == m2.timestamp
        && m2.timestamp == m3.timestamp {
        lemma_text_lt_transitive(h1, h2, h3);
    }
}

/// Rows with different hashes are ordered for eviction one way or the other.
proof fn lemma_evicts_before_total(h1: Seq<char>, m1: MetaView, h2: Seq<char>, m2: MetaView)
    requires
        h1 != h2,
    ensures
        evicts_before(h1, m1, h2, m2) || evicts_before(h2, m2, h1, m1),
{
    lemma_text_lt_total(h1, h2);
}

/// The age order is transitive.
proof fn lemma_older_transitive(
    h1: Seq<char>,
    t1: u128,
    h2: Seq<char>,
    t2: u128,
    h3: Seq<char>,
    t3: u128,
)
    requires
        older(h1, t1, h2, t2),
        older(h2, t2, h3, t3),
    ensures
        older(h1, t1, h3, t3),
{
    if t1 == t2 && t2 == t3 {
        lemma_text_lt_transitive(h1, h2, h3);
    }
}

/// Strict lexicographic comparison of two texts.
pub fn text_less(a: &[char], b: &[char]) -> (res: bool)
    ensures
        res == text_lt(a@, b@),
{
    let n = a.len();
    let m = b.len();
    let mut i: usize = 0;
    assert(a@.skip(0) =~= a@);
    assert(b@.skip(0) =~= b@);
    while i < n && i < m
        invariant
            i <= n == a@.len(),
            i <= m == b@.len(),
            text_lt(a@, b@) == text_lt(a@.skip(i as int), b@.skip(i as int)),
        decreases n - i,
    {
        let ghost sa = a@.skip(i as int);
        let ghost sb = b@.skip(i as int);
        assert(sa[0] == a@[i as int]);
        assert(sb[0] == b@[i as int]);
        if (a[i] as u32) < (b[i] as u32) {
            return true;
        }
        if a[i] != b[i] {
            return false;
        }
        assert(sa.drop_first() =~= a@.skip(i + 1));
        assert(sb.drop_first() =~= b@.skip(i + 1));
        i = i + 1;
    }
    m > i
}

fn entry_older(a: &HistoryEntry, b: &HistoryEntry) -> (res: bool)
    ensures
        res == older(a.hash@, a.meta.timestamp, b.hash@, b.meta.timestamp),
{
    if a.meta.timestamp != b.meta.timestamp {
        return a.meta.timestamp < b.meta.timestamp;
    }
    let ha = str_chars(a.hash.as_str());
    let hb = str_chars(b.hash.as_str());
    text_less(&ha, &hb)
}

fn entry_evicts_before(a: &HistoryEntry, b: &HistoryEntry) -> (res: bool)
    ensures
        res == evicts_before(a.hash@, a.meta@, b.hash@, b.meta@),
{
    if a.meta.pinned != b.meta.pinned {
        return !a.meta.pinned;
    }
    entry_older(a, b)
}

// ---------------------------------------------------------------------------
// The history
// ---------------------------------------------------------------------------

/// The hashes of a sequence of rows.
pub open spec fn keys_of(rows: Seq<(Seq<char>, MetaView)>) -> Seq<Seq<char>> {
    rows.map_values(|r: (Seq<char>, MetaView)| r.0)
}

/// No hash occurs twice.
pub open spec fn unique_keys(rows: Seq<(Seq<char>, MetaView)>) -> bool {
    forall|i: int, j: int|
        0 <= i < rows.len() && 0 <= j < rows.len() && i != j ==> (#[trigger] rows[i]).0
            != (#[trigger] rows[j]).0
}

/// The map from hash to record that a sequence of rows stands for.
pub open spec fn map_of(rows: Seq<(Seq<char>, MetaView)>) -> Map<Seq<char>, MetaView> {
    Map::new(
        |k: Seq<char>| exists|i: int| 0 <= i < rows.len() && (#[trigger] rows[i]).0 == k,
        |k: Seq<char>| rows[choose|i: int| 0 <= i < rows.len() && (#[trigger] rows[i]).0 == k].1,
    )
}

/// Each row is found in the map under its hash.
proof fn lemma_map_of_at(rows: Seq<(Seq<char>, MetaView)>, i: int)
    requires
        unique_keys(rows),
        0 <= i < rows.len(),
    ensures
        map_of(rows).contains_key(rows[i].0),
        map_of(rows)[rows[i].0] == rows[i].1,
{
    let k = rows[i].0;
    assert(map_of(rows).dom().contains(k));
    let j = choose|j: int| 0 <= j < rows.len() && (#[trigger] rows[j]).0 == k;
    assert(j == i);
}

/// The map has as many keys as there are rows.
proof fn lemma_map_of_len(rows: Seq<(Seq<char>, MetaView)>)
    requires
        unique_keys(rows),
    ensures
        map_of(rows).dom().finite(),
        map_of(rows).dom().len() == rows.len(),
{
    let ks = keys_of(rows);
    assert(ks.no_duplicates()) by {
        assert forall|i: int, j: int|
            0 <= i < ks.len() && 0 <= j < ks.len() && i != j implies ks[i] != ks[j] by {
            assert(ks[i] == rows[i].0);
            assert(ks[j] == rows[j].0);
        }
    }
    ks.unique_seq_to_set();
    assert(map_of(rows).dom() =~= ks.to_set()) by {
        assert forall|k: Seq<char>| map_of(rows).dom().contains(k) implies ks.to_set().contains(
            k,
        ) by {
            let i = choose|i: int| 0 <= i < rows.len() && (#[trigger] rows[i]).0 == k;
            assert(ks[i] == k);
        }
        assert forall|k: Seq<char>| ks.to_set().contains(k) implies map_of(rows).dom().contains(
            k,
        ) by {
            let i = choose|i: int| 0 <= i < ks.len() && ks[i] == k;
            assert(rows[i].0 == k);
        }
    }
    vstd::seq_lib::seq_to_set_is_finite(ks);
}

/// Removing a row removes its hash from the map.
proof fn lemma_map_of_remove(rows: Seq<(Seq<char>, MetaView)>, i: int)
    requires
        unique_keys(rows),
        0 <= i < rows.len(),
    ensures
        unique_keys(rows.remove(i)),
        map_of(rows.remove(i)) == map_of(rows).remove(rows[i].0),
{
    let r = rows.remove(i);
    assert forall|a: int, b: int|
        0 <= a < r.len() && 0 <= b < r.len() && a != b implies (#[trigger] r[a]).0
        != (#[trigger] r[b]).0 by {
        let a2 = if a < i { a } else { a + 1 };
        let b2 = if b < i { b } else { b + 1 };
        assert(r[a] == rows[a2]);
        assert(r[b] == rows[b2]);
    }
    let m = map_of(rows).remove(rows[i].0);
    assert forall|k: Seq<char>| #[trigger] map_of(r).contains_key(k) <==> m.contains_key(k) by {
        if map_of(r).contains_key(k) {
            let a = choose|a: int| 0 <= a < r.len() && (#[trigger] r[a]).0 == k;
            let a2 = if a < i { a } else { a + 1 };
            assert(r[a] == rows[a2]);
            assert(map_of(rows).contains_key(k));
        }
        if m.contains_key(k) {
            let a2 = choose|a: int| 0 <= a < rows.len() && (#[trigger] rows[a]).0 == k;
            assert(a2 != i);
            let a = if a2 < i { a2 } else { a2 - 1 };
            assert(r[a] == rows[a2]);
        }
    }
    assert forall|k: Seq<char>| #[trigger] map_of(r).contains_key(k) implies map_of(r)[k]
        == m[k] by {
        let a = choose|a: int| 0 <= a < r.len() && (#[trigger] r[a]).0 == k;
        let a2 = if a < i { a } else { a + 1 };
        assert(r[a] == rows[a2]);
        lemma_map_of_at(r, a);
        lemma_map_of_at(rows, a2);
    }
    assert(map_of(r) =~= m);
}

/// Replacing a row's record replaces it in the map.
proof fn lemma_map_of_update(rows: Seq<(Seq<char>, MetaView)>, i: int, v: MetaView)
    requires
        unique_keys(rows),
        0 <= i < rows.len(),
    ensures
        unique_keys(rows.update(i, (rows[i].0, v))),
        map_of(rows.update(i, (rows[i].0, v))) == map_of(rows).insert(rows[i].0, v),
{
    let r = rows.update(i, (rows[i].0, v));
    assert forall|a: int, b: int|
        0 <= a < r.len() && 0 <= b < r.len() && a != b implies (#[trigger] r[a]).0
        != (#[trigger] r[b]).0 by {
        assert(r[a].0 == rows[a].0);
        assert(r[b].0 == rows[b].0);
    }
    let m = map_of(rows).insert(rows[i].0, v);
    assert forall|k: Seq<char>| #[trigger] map_of(r).contains_key(k) <==> m.contains_key(k) by {
        if map_of(r).contains_key(k) {
            let a = choose|a: int| 0 <= a < r.len() && (#[trigger] r[a]).0 == k;
            assert(rows[a].0 == k);
        }
        if m.contains_key(k) {
            if k == rows[i].0 {
                assert(r[i].0 == k);
            } else {
                let a = choose|a: int| 0 <= a < rows.len() && (#[trigger] rows[a]).0 == k;
                assert(r[a].0 == k);
            }
        }
    }
    assert forall|k: Seq<char>| #[trigger] map_of(r).contains_key(k) implies map_of(r)[k]
        == m[k] by {
        let a = choose|a: int| 0 <= a < r.len() && (#[trigger] r[a]).0 == k;
        lemma_map_of_at(r, a);
        if a != i {
            assert(r[a] == rows[a]);
            lemma_map_of_at(rows, a);
        }
    }
    assert(map_of(r) =~= m);
}

/// Appending a row with a new hash adds it to the map.
proof fn lemma_map_of_push(rows: Seq<(Seq<char>, MetaView)>, k: Seq<char>, v: MetaView)
    requires
        unique_keys(rows),
        !map_of(rows).contains_key(k),
    ensures
        unique_keys(rows.push((k, v))),
        map_of(rows.push((k, v))) == map_of(rows).insert(k, v),
{
    let r = rows.push((k, v));
    assert forall|a: int, b: int|
        0 <= a < r.len() && 0 <= b < r.len() && a != b implies (#[trigger] r[a]).0
        != (#[trigger] r[b]).0 by {
        if a < rows.len() && b < rows.len() {
            assert(r[a] == rows[a]);
            assert(r[b] == rows[b]);
        } else if a < rows.len() {
            assert(r[a] == rows[a]);
            assert(map_of(rows).dom().contains(rows[a].0));
        } else if b < rows.len() {
            assert(r[b] == rows[b]);
            assert(map_of(rows).dom().contains(rows[b].0));
        }
    }
    let m = map_of(rows).insert(k, v);
    assert forall|q: Seq<char>| #[trigger] map_of(r).contains_key(q) <==> m.contains_key(q) by {
        if map_of(r).contains_key(q) && q != k {
            let a = choose|a: int| 0 <= a < r.len() && (#[trigger] r[a]).0 == q;
            assert(r[a] == rows[a]);
        }
        if m.contains_key(q) {
            if q == k {
                assert(r[rows.len() as int].0 == q);
            } else {
                let a = choose|a: int| 0 <= a < rows.len() && (#[trigger] rows[a]).0 == q;
                assert(r[a].0 == q);
            }
        }
    }
    assert forall|q: Seq<char>| #[trigger] map_of(r).contains_key(q) implies map_of(r)[q]
        == m[q] by {
        let a = choose|a: int| 0 <= a < r.len() && (#[trigger] r[a]).0 == q;
        lemma_map_of_at(r, a);
        if a < rows.len() {
            assert(r[a] == rows[a]);
            lemma_map_of_at(rows, a);
        }
    }
    assert(map_of(r) =~= m);
}

/// The rows that a vector of entries holds.
pub open spec fn rows_of(entries: Seq<HistoryEntry>) -> Seq<(Seq<char>, MetaView)> {
    entries.map_values(|e: HistoryEntry| e@)
}

/// The clipboard history: each content hash has at most one record.
pub struct History {
    entries: Vec<HistoryEntry>,
}

impl View for History {
    type V = Map<Seq<char>, MetaView>;

    closed spec fn view(&self) -> Map<Seq<char>, MetaView> {
        map_of(self.rows())
    }
}

/// The number of rows of a history.
pub open spec fn size(m: Map<Seq<char>, MetaView>) -> nat {
    m.dom().len()
}

/// `m` has an unpinned row.
pub open spec fn has_unpinned(m: Map<Seq<char>, MetaView>) -> bool {
    exists|k: Seq<char>| #[trigger] m.contains_key(k) && !m[k].pinned
}

/// The hashes of the pinned rows of `m`.
pub open spec fn pinned_keys(m: Map<Seq<char>, MetaView>) -> Set<Seq<char>> {
    m.dom().filter(|k: Seq<char>| m[k].pinned)
}

/// How many rows trimming `m` to `max` leaves: all of them when they fit;
/// otherwise `max`, or the pinned rows when they alone are more than `max`.
pub open spec fn trimmed_size(m: Map<Seq<char>, MetaView>, max: u64) -> nat {
    if size(m) <= max {
        size(m)
    } else if pinned_keys(m).len() <= max {
        max as nat
    } else {
        pinned_keys(m).len()
    }
}

/// `after` is what is left of `before` once unpinned rows were evicted,
/// oldest first, until at most `max` remain or none but pinned rows are
/// left; `evicted` lists them in the order they went. Pinned rows are never
/// evicted.
pub open spec fn is_trim_of(
    before: Map<Seq<char>, MetaView>,
    after: Map<Seq<char>, MetaView>,
    evicted: Seq<Seq<char>>,
    max: u64,
) -> bool {
    &&& after.dom().finite()
    &&& size(after) == trimmed_size(before, max)
    &&& forall|k: Seq<char>| #[trigger]
        after.contains_key(k) ==> before.contains_key(k) && after[k] == before[k]
    &&& forall|k: Seq<char>| #[trigger]
        before.contains_key(k) && before[k].pinned ==> after.contains_key(k)
    &&& evicted.len() + size(after) == size(before)
    &&& evicted.len() > 0 ==> size(after) >= max
    &&& size(after) > max ==> !has_unpinned(after)
    &&& forall|i: int|
        0 <= i < evicted.len() ==> before.contains_key(#[trigger] evicted[i])
            && !after.contains_key(evicted[i]) && !before[evicted[i]].pinned
    &&& forall|k: Seq<char>| #[trigger]
        before.contains_key(k) ==> after.contains_key(k) || evicted.contains(k)
    &&& forall|i: int, k: Seq<char>|
        0 <= i < evicted.len() && #[trigger] after.contains_key(k) && !before[k].pinned
            ==> older(
            #[trigger] evicted[i],
            before[evicted[i]].timestamp,
            k,
            before[k].timestamp,
        )
    &&& forall|i: int, j: int|
        0 <= i < j < evicted.len() ==> older(
            #[trigger] evicted[i],
            before[evicted[i]].timestamp,
            #[trigger] evicted[j],
            before[evicted[j]].timestamp,
        )
}

/// From how a trim went, the number of rows it leaves.
proof fn lemma_trim_size(
    before: Map<Seq<char>, MetaView>,
    after: Map<Seq<char>, MetaView>,
    evicted: Seq<Seq<char>>,
    max: u64,
)
    requires
        before.dom().finite(),
        after.dom().finite(),
        forall|k: Seq<char>| #[trigger]
            after.contains_key(k) ==> before.contains_key(k) && after[k] == before[k],
        forall|k: Seq<char>| #[trigger]
            before.contains_key(k) && before[k].pinned ==> after.contains_key(k),
        evicted.len() + size(after) == size(before),
        evicted.len() > 0 ==> size(after) >= max,
        size(after) > max ==> !has_unpinned(after),
    ensures
        size(after) == trimmed_size(before, max),
{
    let p = pinned_keys(before);
    assert(p.subset_of(after.dom()));
    vstd::set_lib::lemma_len_subset(p, after.dom());
    assert(after.dom().subset_of(before.dom()));
    vstd::set_lib::lemma_len_subset(after.dom(), before.dom());
    if size(after) > max {
        assert(after.dom() =~= p) by {
            assert forall|k: Seq<char>| after.dom().contains(k) implies p.contains(k) by {
                if !before[k].pinned {
                    assert(after.contains_key(k) && !after[k].pinned);
                }
            }
        }
    }
}

/// `h` is the row that goes first when evicting from `m`: the oldest
/// unpinned row.
pub open spec fn is_eviction_candidate(m: Map<Seq<char>, MetaView>, h: Seq<char>) -> bool {
    &&& m.contains_key(h)
    &&& !m[h].pinned
    &&& forall|k: Seq<char>|
        #[trigger] m.contains_key(k) && k != h && !m[k].pinned ==> older(
            h,
            m[h].timestamp,
            k,
            m[k].timestamp,
        )
}

impl History {
    spec fn rows(&self) -> Seq<(Seq<char>, MetaView)> {
        rows_of(self.entries@)
    }

    #[verifier::type_invariant]
    spec fn well_formed(&self) -> bool {
        unique_keys(self.rows())
    }

    /// An empty history.
    pub fn new() -> (res: History)
        ensures
            res@ == Map::<Seq<char>, MetaView>::empty(),
    {
        let h = History { entries: Vec::new() };
        assert(h@ =~= Map::<Seq<char>, MetaView>::empty());
        h
    }

    /// The number of rows.
    pub fn len(&self) -> (res: usize)
        ensures
            res == size(self@),
            self@.dom().finite(),
    {
        proof {
            use_type_invariant(self);
            lemma_map_of_len(self.rows());
        }
        self.entries.len()
    }

    fn index_of(&self, hash: &str) -> (res: Option<usize>)
        ensures
            match res {
                Some(i) => i < self.entries@.len() && self.entries@[i as int].hash@ == hash@,
                None => !self@.contains_key(hash@),
            },
    {
        proof {
            use_type_invariant(self);
        }
        let target = str_chars(hash);
        let n = self.entries.len();
        for i in 0..n
            invariant
                n == self.entries@.len(),
                target@ == hash@,
                forall|j: int| 0 <= j < i ==> (#[trigger] self.entries@[j]).hash@ != hash@,
        {
            let h = str_chars(self.entries[i].hash.as_str());
            if crate::text::chars_equal(&h, &target) {
                return Some(i);
            }
        }
        proof {
            if self@.contains_key(hash@) {
                let rows = self.rows();
                let j = choose|j: int| 0 <= j < rows.len() && (#[trigger] rows[j]).0 == hash@;
                assert(rows[j] == self.entries@[j]@);
            }
        }
        None
    }

    /// The record kept for `hash`, if any.
    pub fn get(&self, hash: &str) -> (res: Option<&ClipboardMeta>)
        ensures
            match res {
                Some(m) => self@.contains_key(hash@) && m@ == self@[hash@],
                None => !self@.contains_key(hash@),
            },
    {
        proof {
            use_type_invariant(self);
        }
        match self.index_of(hash) {
            Some(i) => {
                proof {
                    lemma_map_of_at(self.rows(), i as int);
                    assert(self.rows()[i as int] == self.entries@[i as int]@);
                }
                Some(&self.entries[i].meta)
            },
            None => None,
        }
    }

    /// Sets the record for `hash`, adding a row or replacing the old record.
    pub fn put(&mut self, hash: String, meta: ClipboardMeta)
        ensures
            final(self)@ == old(self)@.insert(hash@, meta@),
    {
        proof {
            use_type_invariant(&*self);
        }
        let ghost old_rows = self.rows();
        match self.index_of(hash.as_str()) {
            Some(i) => {
                proof {
                    assert(old_rows[i as int].0 == hash@);
                    lemma_map_of_update(old_rows, i as int, meta@);
                }
                let e = HistoryEntry { hash, meta };
                let ghost ev = e@;
                let mut entries = Vec::new();
                std::mem::swap(&mut entries, &mut self.entries);
                entries.set(i, e);
                assert(rows_of(entries@) =~= old_rows.update(i as int, (old_rows[i as int].0, ev.1)));
                self.entries = entries;
                proof {
                    assert(self.rows() =~= old_rows.update(i as int, (old_rows[i as int].0, ev.1)));
                }
            },
            None => {
                proof {
                    lemma_map_of_push(old_rows, hash@, meta@);
                }
                let e = HistoryEntry { hash, meta };
                let ghost ev = e@;
                let mut entries = Vec::new();
                std::mem::swap(&mut entries, &mut self.entries);
                entries.push(e);
                assert(rows_of(entries@) =~= old_rows.push(ev));
                self.entries = entries;
                proof {
                    assert(self.rows() =~= old_rows.push(ev));
                }
            },
        }
    }

    /// Removes the row of `hash`; whether there was one.
    pub fn remove(&mut self, hash: &str) -> (res: bool)
        ensures
            final(self)@ == old(self)@.remove(hash@),
            res == old(self)@.contains_key(hash@),
    {
        proof {
            use_type_invariant(&*self);
        }
        let ghost old_rows = self.rows();
        match self.index_of(hash) {
            Some(i) => {
                proof {
                    lemma_map_of_remove(old_rows, i as int);
                    lemma_map_of_at(old_rows, i as int);
                }
                let mut entries = Vec::new();
                std::mem::swap(&mut entries, &mut self.entries);
                entries.remove(i);
                assert(rows_of(entries@) =~= old_rows.remove(i as int));
                self.entries = entries;
                proof {
                    assert(self.rows() =~= old_rows.remove(i as int));
                }
                true
            },
            None => {
                assert(old_rows.len() == self.rows().len());
                assert(old(self)@.remove(hash@) =~= old(self)@);
                false
            },
        }
    }

    /// Flips the pin of `hash`'s record and gives back the new record;
    /// nothing changes when there is no such row.
    pub fn toggle_pin(&mut self, hash: &str) -> (res: Option<ClipboardMeta>)
        ensures
            match res {
                Some(m) => {
                    &&& old(self)@.contains_key(hash@)
                    &&& m@ == MetaView { pinned: !old(self)@[hash@].pinned, ..old(self)@[hash@] }
                    &&& final(self)@ == old(self)@.insert(hash@, m@)
                },
                None => !old(self)@.contains_key(hash@) && final(self)@ == old(self)@,
            },
    {
        let found = match self.get(hash) {
            Some(m) => {
                let mut n = m.duplicate();
                n.pinned = !n.pinned;
                Some(n)
            },
            None => None,
        };
        match found {
            Some(n) => {
                let h = hash.to_owned();
                let back = n.duplicate();
                self.put(h, n);
                Some(back)
            },
            None => None,
        }
    }

    /// Removes every row.
    pub fn clear(&mut self)
        ensures
            final(self)@ == Map::<Seq<char>, MetaView>::empty(),
    {
        self.entries = Vec::new();
        assert(self@ =~= Map::<Seq<char>, MetaView>::empty());
    }

    fn eviction_index(&self) -> (res: Option<usize>)
        ensures
            match res {
                Some(i) => i < self.entries@.len() && is_eviction_candidate(
                    self@,
                    self.entries@[i as int].hash@,
                ),
                None => !has_unpinned(self@),
            },
    {
        proof {
            use_type_invariant(self);
        }
        let ghost rows = self.rows();
        let n = self.entries.len();
        if n == 0 {
            proof {
                if has_unpinned(self@) {
                    let k = choose|k: Seq<char>| #[trigger] self@.contains_key(k) && !self@[k].pinned;
                    let j = choose|j: int| 0 <= j < rows.len() && (#[trigger] rows[j]).0 == k;
                }
            }
            return None;
        }
        let mut best: usize = 0;
        for i in 1..n
            invariant
                n == self.entries@.len(),
                rows == self.rows(),
                unique_keys(rows),
                best < i <= n,
                forall|j: int|
                    0 <= j < i && j != best ==> evicts_before(
                        rows[best as int].0,
                        rows[best as int].1,
                        (#[trigger] rows[j]).0,
                        rows[j].1,
                    ),
        {
            assert(rows[i as int] == self.entries@[i as int]@);
            assert(rows[best as int] == self.entries@[best as int]@);
            if entry_evicts_before(&self.entries[i], &self.entries[best]) {
                proof {
                    assert forall|j: int| 0 <= j < i + 1 && j != i implies evicts_before(
                        rows[i as int].0,
                        rows[i as int].1,
                        (#[trigger] rows[j]).0,
                        rows[j].1,
                    ) by {
                        if j != best {
                            lemma_evicts_before_transitive(
                                rows[i as int].0,
                                rows[i as int].1,
                                rows[best as int].0,
                                rows[best as int].1,
                                rows[j].0,
                                rows[j].1,
                            );
                        }
                    }
                }
                best = i;
            } else {
                proof {
                    lemma_evicts_before_total(
                        rows[i as int].0,
                        rows[i as int].1,
                        rows[best as int].0,
                        rows[best as int].1,
                    );
                }
            }
        }
        let ghost m = map_of(rows);
        let ghost h = rows[best as int].0;
        proof {
            lemma_map_of_at(rows, best as int);
            assert(rows[best as int] == self.entries@[best as int]@);
            assert forall|k: Seq<char>| #[trigger] m.contains_key(k) && k != h implies evicts_before(
                h,
                m[h],
                k,
                m[k],
            ) by {
                let j = choose|j: int| 0 <= j < rows.len() && (#[trigger] rows[j]).0 == k;
                lemma_map_of_at(rows, j);
            }
        }
        if self.entries[best].meta.pinned {
            proof {
                if has_unpinned(m) {
                    let k = choose|k: Seq<char>| #[trigger] m.contains_key(k) && !m[k].pinned;
                    assert(evicts_before(h, m[h], k, m[k]));
                }
            }
            return None;
        }
        Some(best)
    }

    /// The hash of the row to evict first: the oldest unpinned row; `None`
    /// when every row is pinned (pinned rows are never evicted).
    pub fn find_eviction_candidate(&self) -> (res: Option<String>)
        ensures
            match res {
                Some(h) => is_eviction_candidate(self@, h@),
                None => !has_unpinned(self@),
            },
    {
        proof {
            use_type_invariant(self);
            lemma_map_of_len(self.rows());
        }
        match self.eviction_index() {
            Some(i) => Some(self.entries[i].hash.clone()),
            None => None,
        }
    }

    /// Evicts unpinned rows, oldest first, until at most `max` rows remain or
    /// only pinned rows are left; gives back the evicted hashes in the order
    /// they went.
    pub fn trim_to(&mut self, max: u64) -> (evicted: Vec<String>)
        ensures
            is_trim_of(old(self)@, final(self)@, evicted.deep_view(), max),
    {
        proof {
            use_type_invariant(&*self);
            lemma_map_of_len(self.rows());
        }
        let ghost start = self@;
        let mut evicted: Vec<String> = Vec::new();
        let mut done = false;
        while !done && (self.entries.len() as u64) > max
            invariant
                unique_keys(self.rows()),
                start == old(self)@,
                start.dom().finite(),
                self@.dom().finite(),
                size(self@) == self.entries@.len(),
                done ==> !has_unpinned(self@),
                forall|k: Seq<char>| #[trigger]
                    self@.contains_key(k) ==> start.contains_key(k) && self@[k] == start[k],
                evicted@.len() + size(self@) == size(start),
                evicted@.len() > 0 ==> self.entries@.len() >= max,
                forall|i: int|
                    0 <= i < evicted@.len() ==> start.contains_key((#[trigger] evicted@[i])@)
                        && !self@.contains_key(evicted@[i]@) && !start[evicted@[i]@].pinned,
                forall|k: Seq<char>| #[trigger]
                    start.contains_key(k) ==> self@.contains_key(k) || exists|i: int|
                        0 <= i < evicted@.len() && (#[trigger] evicted@[i])@ == k,
                forall|i: int, k: Seq<char>|
                    0 <= i < evicted@.len() && #[trigger] self@.contains_key(k) && !start[k].pinned
                        ==> older(
                        (#[trigger] evicted@[i])@,
                        start[evicted@[i]@].timestamp,
                        k,
                        start[k].timestamp,
                    ),
                forall|i: int, j: int|
                    0 <= i < j < evicted@.len() ==> older(
                        (#[trigger] evicted@[i])@,
                        start[evicted@[i]@].timestamp,
                        (#[trigger] evicted@[j])@,
                        start[evicted@[j]@].timestamp,
                    ),
            decreases self.entries@.len() + if done { 0int } else { 1int },
        {
            proof {
                use_type_invariant(&*self);
            }
            let ghost before = self@;
            let ghost rows = self.rows();
            match self.eviction_index() {
                None => {
                    done = true;
                },
                Some(idx) => {
                    let h = self.entries[idx].hash.clone();
                    proof {
                        lemma_map_of_remove(rows, idx as int);
                        lemma_map_of_at(rows, idx as int);
                        assert(rows[idx as int] == self.entries@[idx as int]@);
                    }
                    let mut entries = Vec::new();
                    std::mem::swap(&mut entries, &mut self.entries);
                    entries.remove(idx);
                    assert(rows_of(entries@) =~= rows.remove(idx as int));
                    self.entries = entries;
                    proof {
                        assert(self.rows() =~= rows.remove(idx as int));
                        lemma_map_of_len(self.rows());
                        assert(self@ == before.remove(h@));
                    }
                    let ghost ev_before = evicted@;
                    evicted.push(h);
                    proof {
                        assert(evicted@ =~= ev_before.push(h));
                        assert forall|k: Seq<char>| #[trigger]
                            start.contains_key(k) implies self@.contains_key(k) || exists|i: int|
                                0 <= i < evicted@.len() && (#[trigger] evicted@[i])@ == k by {
                            if !self@.contains_key(k) {
                                if k == h@ {
                                    assert(evicted@[ev_before.len() as int]@ == k);
                                } else {
                                    assert(!before.contains_key(k));
                                    let i = choose|i: int|
                                        0 <= i < ev_before.len() && (#[trigger] ev_before[i])@ == k;
                                    assert(evicted@[i] == ev_before[i]);
                                }
                            }
                        }
                        assert forall|i: int, k: Seq<char>|
                            0 <= i < evicted@.len() && #[trigger] self@.contains_key(k)
                                && !start[k].pinned implies older(
                                (#[trigger] evicted@[i])@,
                                start[evicted@[i]@].timestamp,
                                k,
                                start[k].timestamp,
                            ) by {
                            if i < ev_before.len() {
                                assert(evicted@[i] == ev_before[i]);
                                assert(before.contains_key(k));
                            } else {
                                assert(evicted@[i] == h);
                                assert(before.contains_key(k) && k != h@);
                            }
                        }
                        assert forall|i: int, j: int|
                            0 <= i < j < evicted@.len() implies older(
                                (#[trigger] evicted@[i])@,
                                start[evicted@[i]@].timestamp,
                                (#[trigger] evicted@[j])@,
                                start[evicted@[j]@].timestamp,
                            ) by {
                            assert(evicted@[i] == ev_before[i]);
                            if j < ev_before.len() {
                                assert(evicted@[j] == ev_before[j]);
                            } else {
                                assert(evicted@[j] == h);
                                assert(before.contains_key(h@));
                                assert(!before[h@].pinned);
                            }
                        }
                        assert forall|i: int|
                            0 <= i < evicted@.len() implies start.contains_key(
                                (#[trigger] evicted@[i])@,
                            ) && !self@.contains_key(evicted@[i]@)
                                && !start[evicted@[i]@].pinned by {
                            if i < ev_before.len() {
                                assert(evicted@[i] == ev_before[i]);
                            }
                        }
                    }
                },
            }
        }
        proof {
            let ev = evicted.deep_view();
            assert forall|i: int| 0 <= i < ev.len() implies #[trigger] ev[i] == evicted@[i]@ by {}
            assert forall|k: Seq<char>| #[trigger] start.contains_key(k) implies self@.contains_key(k)
                || ev.contains(k) by {
                if !self@.contains_key(k) {
                    let i = choose|i: int| 0 <= i < evicted@.len() && (#[trigger] evicted@[i])@ == k;
                    assert(ev[i] == k);
                }
            }
            assert forall|k: Seq<char>| #[trigger]
                start.contains_key(k) && start[k].pinned implies self@.contains_key(k) by {
                if !self@.contains_key(k) {
                    let i = choose|i: int| 0 <= i < evicted@.len() && (#[trigger] evicted@[i])@ == k;
                }
            }
            if size(self@) > max {
                assert(done);
            }
            lemma_trim_size(start, self@, ev, max);
        }
        evicted
    }

    /// Every row, newest first: descending by timestamp, then by hash.
    pub fn newest_first(&self) -> (res: Vec<HistoryEntry>)
        ensures
            res@.len() == size(self@),
            forall|i: int|
                0 <= i < res@.len() ==> self@.contains_key((#[trigger] res@[i]).hash@)
                    && self@[res@[i].hash@] == res@[i].meta@,
            forall|i: int, j: int|
                0 <= i < j < res@.len() ==> older(
                    (#[trigger] res@[j]).hash@,
                    res@[j].meta.timestamp,
                    (#[trigger] res@[i]).hash@,
                    res@[i].meta.timestamp,
                ),
    {
        proof {
            use_type_invariant(self);
            lemma_map_of_len(self.rows());
        }
        let ghost rows = self.rows();
        let mut rest: Vec<HistoryEntry> = Vec::new();
        let n = self.entries.len();
        for i in 0..n
            invariant
                n == self.entries@.len(),
                rows == self.rows(),
                rest@.len() == i,
                forall|j: int| 0 <= j < i ==> (#[trigger] rest@[j])@ == rows[j],
        {
            let e = self.entries[i].duplicate();
            assert(rows[i as int] == self.entries@[i as int]@);
            rest.push(e);
        }
        let mut out: Vec<HistoryEntry> = Vec::new();
        while rest.len() > 0
            invariant
                unique_keys(rows),
                rows.len() == n,
                out@.len() + rest@.len() == n,
                forall|j: int|
                    0 <= j < rest@.len() ==> map_of(rows).contains_key((#[trigger] rest@[j]).hash@)
                        && map_of(rows)[rest@[j].hash@] == rest@[j].meta@,
                forall|j: int|
                    0 <= j < out@.len() ==> map_of(rows).contains_key((#[trigger] out@[j]).hash@)
                        && map_of(rows)[out@[j].hash@] == out@[j].meta@,
                forall|a: int, b: int|
                    0 <= a < rest@.len() && 0 <= b < rest@.len() && a != b
                        ==> (#[trigger] rest@[a]).hash@ != (#[trigger] rest@[b]).hash@,
                forall|a: int, b: int|
                    0 <= a < out@.len() && 0 <= b < rest@.len() ==> older(
                        (#[trigger] rest@[b]).hash@,
                        rest@[b].meta.timestamp,
                        (#[trigger] out@[a]).hash@,
                        out@[a].meta.timestamp,
                    ),
                forall|a: int, b: int|
                    0 <= a < b < out@.len() ==> older(
                        (#[trigger] out@[b]).hash@,
                        out@[b].meta.timestamp,
                        (#[trigger] out@[a]).hash@,
                        out@[a].meta.timestamp,
                    ),
            decreases rest@.len(),
        {
            let m = rest.len();
            let mut best: usize = 0;
            for i in 1..m
                invariant
                    m == rest@.len(),
                    best < i <= m,
                    forall|a: int, b: int|
                        0 <= a < rest@.len() && 0 <= b < rest@.len() && a != b
                            ==> (#[trigger] rest@[a]).hash@ != (#[trigger] rest@[b]).hash@,
                    forall|j: int|
                        0 <= j < i && j != best ==> older(
                            (#[trigger] rest@[j]).hash@,
                            rest@[j].meta.timestamp,
                            rest@[best as int].hash@,
                            rest@[best as int].meta.timestamp,
                        ),
            {
                if entry_older(&rest[best], &rest[i]) {
                    proof {
                        assert forall|j: int| 0 <= j < i + 1 && j != i implies older(
                            (#[trigger] rest@[j]).hash@,
                            rest@[j].meta.timestamp,
                            rest@[i as int].hash@,
                            rest@[i as int].meta.timestamp,
                        ) by {
                            if j != best {
                                lemma_older_transitive(
                                    rest@[j].hash@,
                                    rest@[j].meta.timestamp,
                                    rest@[best as int].hash@,
                                    rest@[best as int].meta.timestamp,
                                    rest@[i as int].hash@,
                                    rest@[i as int].meta.timestamp,
                                );
                            }
                        }
                    }
                    best = i;
                } else {
                    proof {
                        lemma_text_lt_total(rest@[i as int].hash@, rest@[best as int].hash@);
                    }
                }
            }
            let ghost rest_before = rest@;
            let ghost out_before = out@;
            let e = rest.remove(best);
            out.push(e);
            proof {
                assert(rest@ =~= rest_before.remove(best as int));
                assert(out@ =~= out_before.push(rest_before[best as int]));
                assert forall|j: int| 0 <= j < rest@.len() implies map_of(rows).contains_key(
                    (#[trigger] rest@[j]).hash@,
                ) && map_of(rows)[rest@[j].hash@] == rest@[j].meta@ by {
                    let j2 = if j < best { j } else { j + 1 };
                    assert(rest@[j] == rest_before[j2]);
                }
                assert forall|a: int, b: int|
                    0 <= a < rest@.len() && 0 <= b < rest@.len() && a != b implies (#[trigger] rest@[a]).hash@
                    != (#[trigger] rest@[b]).hash@ by {
                    let a2 = if a < best { a } else { a + 1 };
                    let b2 = if b < best { b } else { b + 1 };
                    assert(rest@[a] == rest_before[a2]);
                    assert(rest@[b] == rest_before[b2]);
                }
                assert forall|a: int, b: int|
                    0 <= a < out@.len() && 0 <= b < rest@.len() implies older(
                        (#[trigger] rest@[b]).hash@,
                        rest@[b].meta.timestamp,
                        (#[trigger] out@[a]).hash@,
                        out@[a].meta.timestamp,
                    ) by {
                    let b2 = if b < best { b } else { b + 1 };
                    assert(rest@[b] == rest_before[b2]);
                    if a < out_before.len() {
                        assert(out@[a] == out_before[a]);
                    } else {
                        assert(out@[a] == rest_before[best as int]);
                    }
                }
                assert forall|a: int, b: int| 0 <= a < b < out@.len() implies older(
                    (#[trigger] out@[b]).hash@,
                    out@[b].meta.timestamp,
                    (#[trigger] out@[a]).hash@,
                    out@[a].meta.timestamp,
                ) by {
                    assert(out@[a] == out_before[a]);
                    if b < out_before.len() {
                        assert(out@[b] == out_before[b]);
                    } else {
                        assert(out@[b] == rest_before[best as int]);
                    }
                }
            }
        }
        out
    }
}

// ---------------------------------------------------------------------------
// Listing
// ---------------------------------------------------------------------------

/// `"text/"`.
pub open spec fn text_prefix() -> Seq<char> {
    seq!['t', 'e', 'x', 't', '/']
}

/// One line of a listing, tab-separated: hash, type, pinned, timestamp and
/// the preview, shortened to `width` characters when it is text; type and
/// preview are put on one line so that they stay one field each.
pub open spec fn list_line(hash: Seq<char>, meta: MetaView, width: nat) -> Seq<char> {
    hash + seq!['\t'] + one_line(meta.mime) + seq!['\t'] + bool_text(meta.pinned) + seq!['\t']
        + decimal(meta.timestamp as nat) + seq!['\t'] + one_line(
        truncated_preview(meta.preview, width, starts_with(meta.mime, text_prefix())),
    )
}

/// How many times `c` occurs in `s`.
pub open spec fn count_char(s: Seq<char>, c: char) -> nat
    decreases s.len(),
{
    if s.len() == 0 {
        0
    } else {
        count_char(s.drop_last(), c) + if s.last() == c { 1nat } else { 0nat }
    }
}

/// The listing width: the configured one, at most `PREVIEW_STORE_LEN`.
pub open spec fn list_width(preview_width: usize) -> nat {
    if preview_width < PREVIEW_STORE_LEN { preview_width as nat } else { PREVIEW_STORE_LEN as nat }
}

/// The listing lines of `rows`, in their order.
pub fn list_lines(rows: &Vec<HistoryEntry>, preview_width: usize) -> (res: Vec<String>)
    ensures
        res@.len() == rows@.len(),
        forall|i: int|
            0 <= i < rows@.len() ==> (#[trigger] res@[i])@ == list_line(
                rows@[i].hash@,
                rows@[i].meta@,
                list_width(preview_width),
            ),
{
    let width = if preview_width < PREVIEW_STORE_LEN { preview_width } else { PREVIEW_STORE_LEN };
    let text = vec!['t', 'e', 'x', 't', '/'];
    let mut out: Vec<String> = Vec::new();
    let n = rows.len();
    for i in 0..n
        invariant
            n == rows@.len(),
            width == list_width(preview_width),
            text@ == text_prefix(),
            out@.len() == i,
            forall|j: int|
                0 <= j < i ==> (#[trigger] out@[j])@ == list_line(
                    rows@[j].hash@,
                    rows@[j].meta@,
                    width as nat,
                ),
    {
        let row = &rows[i];
        let mime = str_chars(row.meta.mime.as_str());
        let is_text = chars_start_with(&mime, &text);
        let preview = truncate_preview(row.meta.preview.as_str(), width, is_text);
        let mut line = String::new();
        push_chars(&mut line, &str_chars(row.hash.as_str()));
        push_chars(&mut line, &['\t']);
        push_chars(&mut line, &to_one_line(&mime));
        push_chars(&mut line, &['\t']);
        push_chars(&mut line, &bool_chars(row.meta.pinned));
        push_chars(&mut line, &['\t']);
        push_chars(&mut line, &decimal_chars(row.meta.timestamp));
        push_chars(&mut line, &['\t']);
        push_chars(&mut line, &to_one_line(&str_chars(preview.as_str())));
        assert(line@ =~= list_line(row.hash@, row.meta@, width as nat));
        out.push(line);
    }
    out
}

// ---------------------------------------------------------------------------
// Laws
// ---------------------------------------------------------------------------

/// Pinning twice gives back the record it started from: `pin` again unpins.
pub proof fn pin_twice_restores(m: Map<Seq<char>, MetaView>, h: Seq<char>)
    requires
        m.contains_key(h),
    ensures
        ({
            let once = m.insert(h, MetaView { pinned: !m[h].pinned, ..m[h] });
            let twice = once.insert(h, MetaView { pinned: !once[h].pinned, ..once[h] });
            twice == m
        }),
{
    let once = m.insert(h, MetaView { pinned: !m[h].pinned, ..m[h] });
    let twice = once.insert(h, MetaView { pinned: !once[h].pinned, ..once[h] });
    assert(twice =~= m);
}

/// Pinned rows survive trimming, whatever the limit.
pub proof fn pinned_rows_survive_trim(
    before: Map<Seq<char>, MetaView>,
    after: Map<Seq<char>, MetaView>,
    evicted: Seq<Seq<char>>,
    max: u64,
    k: Seq<char>,
)
    requires
        is_trim_of(before, after, evicted, max),
        before.contains_key(k),
        before[k].pinned,
    ensures
        after.contains_key(k),
        after[k] == before[k],
{
}

/// Counts add up over a concatenation.
proof fn lemma_count_add(a: Seq<char>, b: Seq<char>, c: char)
    ensures
        count_char(a + b, c) == count_char(a, c) + count_char(b, c),
    decreases b.len(),
{
    if b.len() == 0 {
        assert(a + b =~= a);
    } else {
        lemma_count_add(a, b.drop_last(), c);
        assert((a + b).drop_last() =~= a + b.drop_last());
        assert((a + b).last() == b.last());
    }
}

/// Single-line text has no tab and no newline to count.
proof fn lemma_count_single_line(s: Seq<char>)
    requires
        is_single_line(s),
    ensures
        count_char(s, '\t') == 0,
        count_char(s, '\n') == 0,
    decreases s.len(),
{
    if s.len() > 0 {
        assert(is_single_line(s.drop_last())) by {
            assert forall|i: int| 0 <= i < s.drop_last().len() implies #[trigger] s.drop_last()[i]
                != '\t' && s.drop_last()[i] != '\n' by {
                assert(s.drop_last()[i] == s[i]);
            }
        }
        lemma_count_single_line(s.drop_last());
        assert(s.last() == s[s.len() - 1]);
    }
}

/// A listing line whose hash is single-line (as every content hash is) has
/// exactly five tab-separated fields and no newline: it is one TSV row.
pub proof fn listing_lines_are_tsv_rows(hash: Seq<char>, meta: MetaView, width: nat)
    requires
        is_single_line(hash),
    ensures
        count_char(list_line(hash, meta, width), '\t') == 4,
        count_char(list_line(hash, meta, width), '\n') == 0,
{
    let tab = seq!['\t'];
    let mime = one_line(meta.mime);
    let pinned = bool_text(meta.pinned);
    let ts = decimal(meta.timestamp as nat);
    let preview = one_line(
        truncated_preview(meta.preview, width, starts_with(meta.mime, text_prefix())),
    );
    lemma_one_line_single(meta.mime);
    lemma_one_line_single(
        truncated_preview(meta.preview, width, starts_with(meta.mime, text_prefix())),
    );
    lemma_decimal_fields(meta.timestamp as nat);
    assert(is_single_line(pinned));
    lemma_count_single_line(hash);
    lemma_count_single_line(mime);
    lemma_count_single_line(pinned);
    lemma_count_single_line(ts);
    lemma_count_single_line(preview);
    assert(count_char(tab, '\t') == 1 && count_char(tab, '\n') == 0) by {
        reveal_with_fuel(count_char, 2);
        assert(tab.drop_last() =~= Seq::<char>::empty());
        assert(tab.last() == '\t');
    }
    let l1 = hash + tab;
    let l2 = l1 + mime;
    let l3 = l2 + tab;
    let l4 = l3 + pinned;
    let l5 = l4 + tab;
    let l6 = l5 + ts;
    let l7 = l6 + tab;
    let l8 = l7 + preview;
    assert(l8 == list_line(hash, meta, width));
    lemma_count_add(hash, tab, '\t');
    lemma_count_add(l1, mime, '\t');
    lemma_count_add(l2, tab, '\t');
    lemma_count_add(l3, pinned, '\t');
    lemma_count_add(l4, tab, '\t');
    lemma_count_add(l5, ts, '\t');
    lemma_count_add(l6, tab, '\t');
    lemma_count_add(l7, preview, '\t');
    lemma_count_add(hash, tab, '\n');
    lemma_count_add(l1, mime, '\n');
    lemma_count_add(l2, tab, '\n');
    lemma_count_add(l3, pinned, '\n');
    lemma_count_add(l4, tab, '\n');
    lemma_count_add(l5, ts, '\n');
    lemma_count_add(l6, tab, '\n');
    lemma_count_add(l7, preview, '\n');
}

/// Decimal digits hold no tab or newline.
proof fn lemma_decimal_fields(n: nat)
    ensures
        is_single_line(decimal(n)),
    decreases n,
{
    if n >= 10 {
        lemma_decimal_fields(n / 10);
    }
}

/// The tab-separated fields of `s`, in order (a line without a tab is one
/// field).
pub open spec fn tab_fields(s: Seq<char>) -> Seq<Seq<char>>
    decreases s.len(),
{
    if s.len() == 0 {
        seq![seq![]]
    } else {
        let f = tab_fields(s.drop_last());
        if s.last() == '\t' {
            f.push(seq![])
        } else {
            f.update(f.len() - 1, f.last().push(s.last()))
        }
    }
}

/// The value of a decimal digit; `None` for any other character.
pub open spec fn digit_value(c: char) -> Option<nat> {
    if c == '0' { Some(0) } else if c == '1' { Some(1) } else if c == '2' { Some(2) }
    else if c == '3' { Some(3) } else if c == '4' { Some(4) } else if c == '5' { Some(5) }
    else if c == '6' { Some(6) } else if c == '7' { Some(7) } else if c == '8' { Some(8) }
    else if c == '9' { Some(9) } else { None }
}

/// The number that a string of decimal digits reads as; `None` when it is
/// empty or holds anything but digits.
pub open spec fn read_decimal(s: Seq<char>) -> Option<nat>
    decreases s.len(),
{
    if s.len() == 0 {
        None
    } else {
        match digit_value(s.last()) {
            None => None,
            Some(d) => if s.len() == 1 {
                Some(d)
            } else {
                match read_decimal(s.drop_last()) {
                    None => None,
                    Some(v) => Some(10 * v + d),
                }
            },
        }
    }
}

/// A line without a tab is a single field.
proof fn lemma_one_field(s: Seq<char>)
    requires
        !s.contains('\t'),
    ensures
        tab_fields(s) == seq![s],
    decreases s.len(),
{
    if s.len() > 0 {
        assert(!s.drop_last().contains('\t')) by {
            if s.drop_last().contains('\t') {
                let i = choose|i: int| 0 <= i < s.drop_last().len() && s.drop_last()[i] == '\t';
                assert(s[i] == '\t');
            }
        }
        lemma_one_field(s.drop_last());
        assert(s.last() == s[s.len() - 1]);
        assert(s.drop_last().push(s.last()) =~= s);
        assert(tab_fields(s) =~= seq![s]);
    } else {
        assert(s =~= Seq::<char>::empty());
        assert(tab_fields(s) =~= seq![s]);
    }
}

/// A tab and a tab-free field at the end add one field.
proof fn lemma_add_field(a: Seq<char>, b: Seq<char>)
    requires
        !b.contains('\t'),
    ensures
        tab_fields(a + seq!['\t'] + b) == tab_fields(a).push(b),
    decreases b.len(),
{
    let at = a + seq!['\t'];
    if b.len() == 0 {
        assert(at + b =~= at);
        assert(at.drop_last() =~= a);
        assert(at.last() == '\t');
        assert(b =~= Seq::<char>::empty());
        assert(tab_fields(at) =~= tab_fields(a).push(b));
    } else {
        assert(!b.drop_last().contains('\t')) by {
            if b.drop_last().contains('\t') {
                let i = choose|i: int| 0 <= i < b.drop_last().len() && b.drop_last()[i] == '\t';
                assert(b[i] == '\t');
            }
        }
        lemma_add_field(a, b.drop_last());
        assert((at + b).drop_last() =~= at + b.drop_last());
        assert((at + b).last() == b[b.len() - 1]);
        assert(b.drop_last().push(b.last()) =~= b);
        assert(tab_fields(at + b) =~= tab_fields(a).push(b));
    }
}

/// Decimal rendering reads back as the number it renders.
proof fn lemma_decimal_reads_back(n: nat)
    ensures
        read_decimal(decimal(n)) == Some(n),
        !decimal(n).contains('\t'),
    decreases n,
{
    lemma_decimal_fields(n);
    if n < 10 {
        assert(decimal(n) =~= seq![crate::text::digit_char(n)]);
        assert(decimal(n).drop_last().len() == 0);
    } else {
        lemma_decimal_reads_back(n / 10);
        let d = decimal(n);
        assert(d.drop_last() =~= decimal(n / 10));
        assert(d.last() == crate::text::digit_char(n % 10));
        assert(decimal(n / 10).len() >= 1);
    }
    if decimal(n).contains('\t') {
        let i = choose|i: int| 0 <= i < decimal(n).len() && decimal(n)[i] == '\t';
    }
}

/// A listing line reads back as what it lists: five tab-separated fields,
/// the first the hash, the third `true` or `false` as the row is pinned,
/// and the fourth the row's timestamp in decimal, for every `u128`
/// timestamp.
pub proof fn listing_fields_read_back(hash: Seq<char>, meta: MetaView, width: nat)
    requires
        is_single_line(hash),
    ensures
        ({
            let f = tab_fields(list_line(hash, meta, width));
            &&& f.len() == 5
            &&& f[0] == hash
            &&& f[2] == if meta.pinned {
                seq!['t', 'r', 'u', 'e']
            } else {
                seq!['f', 'a', 'l', 's', 'e']
            }
            &&& read_decimal(f[3]) == Some(meta.timestamp as nat)
        }),
{
    let tab = seq!['\t'];
    let mime = one_line(meta.mime);
    let pinned = bool_text(meta.pinned);
    let ts = decimal(meta.timestamp as nat);
    let preview = one_line(
        truncated_preview(meta.preview, width, starts_with(meta.mime, text_prefix())),
    );
    lemma_one_line_single(meta.mime);
    lemma_one_line_single(
        truncated_preview(meta.preview, width, starts_with(meta.mime, text_prefix())),
    );
    lemma_decimal_reads_back(meta.timestamp as nat);
    assert forall|x: Seq<char>| is_single_line(x) implies !x.contains('\t') by {
        if x.contains('\t') {
            let i = choose|i: int| 0 <= i < x.len() && x[i] == '\t';
        }
    }
    assert(is_single_line(pinned));
    lemma_one_field(hash);
    lemma_add_field(hash, mime);
    lemma_add_field(hash + tab + mime, pinned);
    lemma_add_field(hash + tab + mime + tab + pinned, ts);
    lemma_add_field(hash + tab + mime + tab + pinned + tab + ts, preview);
    assert(hash + tab + mime + tab + pinned + tab + ts + tab + preview == list_line(
        hash,
        meta,
        width,
    ));
}

/// Trimming evicts the oldest unpinned rows first: an unpinned row that is
/// kept is newer than every unpinned row that was evicted.
pub proof fn oldest_unpinned_evicted_first(
    before: Map<Seq<char>, MetaView>,
    after: Map<Seq<char>, MetaView>,
    evicted: Seq<Seq<char>>,
    max: u64,
    i: int,
    k: Seq<char>,
)
    requires
        is_trim_of(before, after, evicted, max),
        0 <= i < evicted.len(),
        !before[evicted[i]].pinned,
        after.contains_key(k),
        !before[k].pinned,
    ensures
        older(evicted[i], before[evicted[i]].timestamp, k, before[k].timestamp),
{
}

} // verus!
