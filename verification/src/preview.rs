//! The preview kept for each entry, and its shortening for listings.
use vstd::prelude::*;

use crate::mime::{image_prefix, text_plain, text_uri_list};
use crate::paths::{uri_display_paths, uri_display_paths_of, PathFacts};
use crate::text::{
    chars_equal, chars_start_with, decimal, decimal_chars, push_chars, slice_chars,
    spec_utf8_lossy, starts_with, str_chars, take_chars, take_first, trim, trim_chars,
    utf8_lossy,
};

verus! {

/// The longest preview that is stored, in characters.
pub const PREVIEW_STORE_LEN: usize = 253;

// ---------------------------------------------------------------------------
// Specifications
// ---------------------------------------------------------------------------

/// `s` cut to `width` characters followed by `"..."` when it is plain text
/// longer than `width`; `s` itself otherwise.
pub open spec fn truncated_preview(s: Seq<char>, width: nat, is_plain_text: bool) -> Seq<char> {
    if is_plain_text && s.len() > width {
        s.take(width as int) + seq!['.', '.', '.']
    } else {
        s
    }
}

/// How many characters of the head `middle_truncate` keeps.
pub open spec fn head_keep(max_chars: nat) -> nat {
    ((max_chars - 1) * 2 / 3) as nat
}

/// `s` shortened in the middle to `max_chars` characters, with `…` where
/// characters were left out; unchanged when it fits or `max_chars <= 4`.
pub open spec fn middle_truncated(s: Seq<char>, max_chars: nat) -> Seq<char> {
    if s.len() <= max_chars || max_chars <= 4 {
        s
    } else {
        let keep = (max_chars - 1) as nat;
        let head = head_keep(max_chars);
        let tail = (keep - head) as nat;
        s.take(head as int) + seq!['\u{2026}'] + s.skip(s.len() - tail)
    }
}

/// The part of `s` after its last `c` (all of `s` when there is none):
/// `s.rsplit(c).next()`.
pub open spec fn after_last(s: Seq<char>, c: char) -> Seq<char>
    decreases s.len(),
{
    if s.len() == 0 {
        s
    } else if s.last() == c {
        seq![]
    } else {
        after_last(s.drop_last(), c).push(s.last())
    }
}

/// `s` with every `'\n'` shown as `" ↵ "`.
pub open spec fn newlines_marked(s: Seq<char>) -> Seq<char>
    decreases s.len(),
{
    if s.len() == 0 {
        seq![]
    } else if s.last() == '\n' {
        newlines_marked(s.drop_last()) + seq![' ', '\u{21b5}', ' ']
    } else {
        newlines_marked(s.drop_last()).push(s.last())
    }
}

/// Name of what `bytesize::ByteSize::b(n).to_string()` gives.
pub uninterp spec fn spec_byte_size_text(n: u64) -> Seq<char>;

/// The size text of `n` bytes: the plain number and `" B"` below one KiB.
pub open spec fn size_text(n: u64) -> Seq<char> {
    if n < 1024 {
        decimal(n as nat) + seq![' ', 'B']
    } else {
        spec_byte_size_text(n)
    }
}

/// `"[[ "`, `" ]]"`.
pub open spec fn open_mark() -> Seq<char> {
    seq!['[', '[', ' ']
}

pub open spec fn close_mark() -> Seq<char> {
    seq![' ', ']', ']']
}

/// The label of a file reference: `"directory: "` or `"file: "`.
pub open spec fn reference_label(is_dir: bool) -> Seq<char> {
    if is_dir {
        seq!['d', 'i', 'r', 'e', 'c', 't', 'o', 'r', 'y', ':', ' ']
    } else {
        seq!['f', 'i', 'l', 'e', ':', ' ']
    }
}

/// The name a file reference is shown by: the last component of its path,
/// or the whole path when that is empty.
pub open spec fn reference_name(path: Seq<char>) -> Seq<char> {
    let seg = after_last(path, '/');
    if seg.len() > 0 {
        seg
    } else {
        path
    }
}

/// How many characters of a file name a reference preview keeps.
pub open spec fn name_budget() -> nat {
    (PREVIEW_STORE_LEN - 12) as nat
}

/// The preview of a list of file references: the first one's name,
/// shortened in the middle, a `/` after a directory, and `+n` for the `n`
/// others, cut to `PREVIEW_STORE_LEN` characters.
pub open spec fn references_preview(paths: Seq<Seq<char>>, facts: PathFacts) -> Seq<char> {
    let p0 = paths[0];
    let is_dir = facts.is_directory(p0);
    let slash: Seq<char> = if is_dir { seq!['/'] } else { seq![] };
    let first = middle_truncated(reference_name(p0), name_budget());
    let others: Seq<char> = if paths.len() == 1 {
        seq![]
    } else {
        seq![' ', '+'] + decimal((paths.len() - 1) as nat)
    };
    take_chars(
        open_mark() + reference_label(is_dir) + first + slash + others + close_mark(),
        PREVIEW_STORE_LEN as nat,
    )
}

/// The preview of text: trimmed, newlines marked, at most
/// `PREVIEW_STORE_LEN` characters.
pub open spec fn text_preview(bytes: Seq<u8>) -> Seq<char> {
    take_chars(newlines_marked(trim(spec_utf8_lossy(bytes))), PREVIEW_STORE_LEN as nat)
}

/// The preview kept for an entry of type `mime`.
pub open spec fn preview_of(bytes: Seq<u8>, mime: Seq<char>, facts: PathFacts) -> Seq<char> {
    let paths = uri_display_paths_of(bytes);
    if mime == text_uri_list() && paths.len() > 0 {
        references_preview(paths, facts)
    } else if mime == text_plain() || mime == text_uri_list() {
        text_preview(bytes)
    } else if starts_with(mime, image_prefix()) {
        seq!['[', '[', ' ', 'i', 'm', 'a', 'g', 'e', ' '] + mime.skip(6) + seq![' ']
            + size_text(bytes.len() as u64) + close_mark()
    } else {
        seq!['[', '[', ' ', 'd', 'a', 't', 'a', ' '] + size_text(bytes.len() as u64)
            + close_mark()
    }
}

// ---------------------------------------------------------------------------
// Trusted boundary with bytesize
// ---------------------------------------------------------------------------

/// `bytesize::ByteSize::b(n).to_string()`: the human-readable size in IEC
/// units with one decimal (`"1.2 MiB"`); the crate renders it through
/// floating point, so the text is named. Its source shows that sizes below
/// one KiB print as the plain number followed by `" B"`.
#[verifier::external_body]
fn byte_size_text(n: u64) -> (res: String)
    ensures
        res@ == spec_byte_size_text(n),
        n < 1024 ==> res@ == decimal(n as nat) + seq![' ', 'B'],
{
    bytesize::ByteSize::b(n).to_string()
}

// ---------------------------------------------------------------------------
// Executable functions
// ---------------------------------------------------------------------------

/// Cuts plain-text previews longer than `width` characters to `width`
/// characters followed by `"..."`; other previews are returned unchanged.
pub fn truncate_preview(preview: &str, width: usize, is_plain_text: bool) -> (res: String)
    ensures
        res@ == truncated_preview(preview@, width as nat, is_plain_text),
{
    let cs = str_chars(preview);
    if is_plain_text && cs.len() > width {
        let mut out = String::new();
        push_chars(&mut out, &slice_chars(&cs, 0, width));
        push_chars(&mut out, &['.', '.', '.']);
        out
    } else {
        let mut out = String::new();
        push_chars(&mut out, &cs);
        assert(out@ =~= preview@);
        out
    }
}

/// Shortens `s` to `max_chars` characters by replacing its middle with `…`
/// (two thirds of the kept characters from the head, the rest from the
/// tail); `s` is returned unchanged when it fits or when `max_chars <= 4`.
pub fn middle_truncate(s: &str, max_chars: usize) -> (res: String)
    ensures
        res@ == middle_truncated(s@, max_chars as nat),
{
    let cs = str_chars(s);
    let mut out = String::new();
    push_middle_truncated(&mut out, &cs, max_chars);
    assert(out@ =~= middle_truncated(s@, max_chars as nat));
    out
}

fn push_middle_truncated(out: &mut String, cs: &[char], max_chars: usize)
    ensures
        final(out)@ == old(out)@ + middle_truncated(cs@, max_chars as nat),
{
    let count = cs.len();
    if count <= max_chars || max_chars <= 4 {
        push_chars(out, cs);
        return;
    }
    let keep = max_chars - 1;
    let head = keep / 3 * 2 + keep % 3 * 2 / 3;
    assert(head == (keep as nat * 2) / 3) by (nonlinear_arith)
        requires
            head == keep / 3 * 2 + keep % 3 * 2 / 3,
    ;
    let tail = keep - head;
    push_chars(out, &slice_chars(cs, 0, head));
    push_chars(out, &['\u{2026}']);
    push_chars(out, &slice_chars(cs, count - tail, count));
    assert(cs@.take(head as int) =~= cs@.subrange(0, head as int));
    assert(cs@.skip(count - tail) =~= cs@.subrange(count - tail, count as int));
}

/// The characters of `s` after its last `c`.
fn chars_after_last(s: &[char], c: char) -> (res: Vec<char>)
    ensures
        res@ == after_last(s@, c),
{
    let n = s.len();
    let mut start = n;
    assert(s@.take(n as int) =~= s@);
    assert(s@ + s@.subrange(n as int, n as int) =~= s@);
    while start > 0 && s[start - 1] != c
        invariant
            start <= n == s@.len(),
            after_last(s@, c) == after_last(s@.take(start as int), c) + s@.subrange(
                start as int,
                n as int,
            ),
        decreases start,
    {
        let ghost pre = s@.take(start as int);
        assert(pre.drop_last() =~= s@.take(start - 1));
        assert(pre.last() == s@[start - 1]);
        assert(after_last(s@.take(start - 1), c).push(s@[start - 1]) + s@.subrange(
            start as int,
            n as int,
        ) =~= after_last(s@.take(start - 1), c) + s@.subrange(start - 1, n as int));
        start = start - 1;
    }
    let ghost pre = s@.take(start as int);
    if start > 0 {
        assert(pre.last() == s@[start - 1]);
    }
    assert(after_last(pre, c) =~= Seq::<char>::empty());
    assert(Seq::<char>::empty() + s@.subrange(start as int, n as int) =~= s@.subrange(
        start as int,
        n as int,
    ));
    slice_chars(s, start, n)
}

/// Text with its newlines marked (see [`newlines_marked`]).
fn mark_newlines(s: &[char]) -> (res: Vec<char>)
    ensures
        res@ == newlines_marked(s@),
{
    let mut out: Vec<char> = Vec::new();
    let n = s.len();
    assert(s@.take(0) =~= Seq::<char>::empty());
    for i in 0..n
        invariant
            n == s@.len(),
            out@ == newlines_marked(s@.take(i as int)),
    {
        let ghost pre = s@.take(i + 1);
        assert(pre.drop_last() =~= s@.take(i as int));
        assert(pre.last() == s@[i as int]);
        if s[i] == '\n' {
            let ghost before = out@;
            out.push(' ');
            out.push('\u{21b5}');
            out.push(' ');
            assert(out@ =~= before + seq![' ', '\u{21b5}', ' ']);
        } else {
            out.push(s[i]);
        }
    }
    assert(s@.take(n as int) =~= s@);
    out
}

/// The preview of a list of file references.
fn references_text(paths: &Vec<String>, facts: &PathFacts) -> (res: String)
    requires
        paths@.len() > 0,
    ensures
        res@ == references_preview(paths.deep_view(), *facts),
{
    let ghost pv = paths.deep_view();
    let p0 = str_chars(paths[0].as_str());
    assert(p0@ == pv[0]);
    let seg = chars_after_last(&p0, '/');
    let name = if seg.len() > 0 { seg } else { p0.clone() };
    let is_dir = facts.knows_directory(&p0);
    let mut s = String::new();
    push_chars(&mut s, &['[', '[', ' ']);
    if is_dir {
        push_chars(&mut s, &['d', 'i', 'r', 'e', 'c', 't', 'o', 'r', 'y', ':', ' ']);
    } else {
        push_chars(&mut s, &['f', 'i', 'l', 'e', ':', ' ']);
    }
    push_middle_truncated(&mut s, &name, PREVIEW_STORE_LEN - 12);
    if is_dir {
        push_chars(&mut s, &['/']);
    }
    let ghost slash: Seq<char> = if is_dir { seq!['/'] } else { seq![] };
    if paths.len() != 1 {
        push_chars(&mut s, &[' ', '+']);
        let d = decimal_chars((paths.len() - 1) as u128);
        push_chars(&mut s, &d);
    }
    push_chars(&mut s, &[' ', ']', ']']);
    let ghost others: Seq<char> = if pv.len() == 1 {
        seq![]
    } else {
        seq![' ', '+'] + decimal((pv.len() - 1) as nat)
    };
    assert(s@ =~= open_mark() + reference_label(is_dir) + middle_truncated(name@, name_budget())
        + slash + others + close_mark());
    let all = str_chars(s.as_str());
    let cut = take_first(&all, PREVIEW_STORE_LEN);
    let mut out = String::new();
    push_chars(&mut out, &cut);
    assert(out@ =~= cut@);
    out
}

/// The preview stored for an entry of type `mime` (see [`preview_of`]).
pub fn create_preview(bytes: &[u8], mime: &str, facts: &PathFacts) -> (res: String)
    ensures
        res@ == preview_of(bytes@, mime@, *facts),
{
    let m = str_chars(mime);
    let uri_list = vec!['t', 'e', 'x', 't', '/', 'u', 'r', 'i', '-', 'l', 'i', 's', 't'];
    let plain = vec!['t', 'e', 'x', 't', '/', 'p', 'l', 'a', 'i', 'n'];
    let image = vec!['i', 'm', 'a', 'g', 'e', '/'];
    let is_uri_list = chars_equal(&m, &uri_list);
    if is_uri_list {
        let paths = uri_display_paths(bytes);
        if paths.len() > 0 {
            return references_text(&paths, facts);
        }
    }
    if is_uri_list || chars_equal(&m, &plain) {
        let text = utf8_lossy(bytes);
        let cs = str_chars(text.as_str());
        let t = trim_chars(&cs);
        let marked = mark_newlines(&t);
        let cut = take_first(&marked, PREVIEW_STORE_LEN);
        let mut out = String::new();
        push_chars(&mut out, &cut);
        assert(out@ =~= cut@);
        return out;
    }
    let size = byte_size_text(bytes.len() as u64);
    let size_cs = str_chars(size.as_str());
    let mut out = String::new();
    if chars_start_with(&m, &image) {
        push_chars(&mut out, &['[', '[', ' ', 'i', 'm', 'a', 'g', 'e', ' ']);
        push_chars(&mut out, &slice_chars(&m, 6, m.len()));
        push_chars(&mut out, &[' ']);
        push_chars(&mut out, &size_cs);
        push_chars(&mut out, &[' ', ']', ']']);
        assert(m@.subrange(6, m@.len() as int) =~= m@.skip(6));
    } else {
        push_chars(&mut out, &['[', '[', ' ', 'd', 'a', 't', 'a', ' ']);
        push_chars(&mut out, &size_cs);
        push_chars(&mut out, &[' ', ']', ']']);
    }
    out
}

// ---------------------------------------------------------------------------
// Laws
// ---------------------------------------------------------------------------

/// Marking newlines leaves none.
proof fn lemma_newlines_marked_has_none(s: Seq<char>)
    ensures
        !newlines_marked(s).contains('\n'),
    decreases s.len(),
{
    if s.len() > 0 {
        lemma_newlines_marked_has_none(s.drop_last());
        let r = newlines_marked(s);
        let prev = newlines_marked(s.drop_last());
        if r.contains('\n') {
            let i = choose|i: int| 0 <= i < r.len() && r[i] == '\n';
            if i < prev.len() {
                assert(r[i] == prev[i]);
            }
        }
    }
}

/// How many digits small numbers have.
proof fn lemma_decimal_len(n: nat)
    ensures
        n < 10 ==> decimal(n).len() == 1,
        n < 100 ==> decimal(n).len() <= 2,
        n < 1000 ==> decimal(n).len() <= 3,
    decreases n,
{
    if n >= 10 {
        lemma_decimal_len(n / 10);
    }
}

/// With at most a thousand references and a first name of at most 230
/// characters, a reference preview is never cut: it shows the whole name
/// and ends with its closing `" ]]"`.
pub proof fn reference_preview_shape(paths: Seq<Seq<char>>, facts: PathFacts)
    requires
        0 < paths.len() <= 1000,
        reference_name(paths[0]).len() <= 230,
    ensures
        ({
            let r = references_preview(paths, facts);
            let is_dir = facts.is_directory(paths[0]);
            &&& r.len() >= 3
            &&& r.subrange(r.len() - 3, r.len() as int) == close_mark()
            &&& (open_mark() + reference_label(is_dir) + reference_name(paths[0])).is_prefix_of(r)
        }),
{
    let p0 = paths[0];
    let name = reference_name(p0);
    let is_dir = facts.is_directory(p0);
    let slash: Seq<char> = if is_dir { seq!['/'] } else { seq![] };
    lemma_decimal_len((paths.len() - 1) as nat);
    let others: Seq<char> = if paths.len() == 1 {
        seq![]
    } else {
        seq![' ', '+'] + decimal((paths.len() - 1) as nat)
    };
    assert(middle_truncated(name, name_budget()) == name);
    let whole = open_mark() + reference_label(is_dir) + name + slash + others + close_mark();
    assert(whole.len() <= PREVIEW_STORE_LEN);
    assert(references_preview(paths, facts) == whole);
    assert(whole.subrange(whole.len() - 3, whole.len() as int) =~= close_mark());
    let head = open_mark() + reference_label(is_dir) + name;
    assert(whole.take(head.len() as int) =~= head);
}

/// A plain-text preview shortened for a listing is at most `width + 3`
/// characters long, and a preview that is not plain text is never changed.
pub proof fn truncated_preview_bound(s: Seq<char>, width: nat, is_plain_text: bool)
    ensures
        truncated_preview(s, width, is_plain_text).len() <= if is_plain_text {
            width + 3
        } else {
            s.len()
        },
        is_plain_text ==> truncated_preview(s, width, is_plain_text).len() <= s.len() + 3,
        !is_plain_text ==> truncated_preview(s, width, is_plain_text) == s,
{
}

/// Middle truncation gives exactly `max_chars` characters when it shortens,
/// keeping the head and the tail of the text.
pub proof fn middle_truncate_exact_length(s: Seq<char>, max_chars: nat)
    requires
        s.len() > max_chars > 4,
    ensures
        middle_truncated(s, max_chars).len() == max_chars,
        starts_with(middle_truncated(s, max_chars), s.take(head_keep(max_chars) as int)),
        middle_truncated(s, max_chars).last() == s.last(),
{
    let r = middle_truncated(s, max_chars);
    let head = head_keep(max_chars);
    assert(head <= max_chars - 1) by (nonlinear_arith)
        requires
            head == ((max_chars - 1) * 2 / 3) as nat,
            max_chars > 4,
    ;
    assert(head >= 1) by (nonlinear_arith)
        requires
            head == ((max_chars - 1) * 2 / 3) as nat,
            max_chars > 4,
    ;
    assert(r.subrange(0, head as int) =~= s.take(head as int));
}

/// Marking newlines goes character by character: a `'\n'` becomes
/// `" ↵ "`, every other character stays, and text without a newline is left
/// as it is.
pub proof fn newlines_marked_char_by_char(a: Seq<char>, b: Seq<char>, c: char)
    ensures
        newlines_marked(a + b) == newlines_marked(a) + newlines_marked(b),
        newlines_marked(seq![c]) == if c == '\n' {
            seq![' ', '\u{21b5}', ' ']
        } else {
            seq![c]
        },
        !a.contains('\n') ==> newlines_marked(a) == a,
    decreases b.len(),
{
    assert(seq![c].drop_last() =~= Seq::<char>::empty());
    assert(newlines_marked(seq![c].drop_last()) == Seq::<char>::empty());
    assert(seq![c].last() == c);
    if c == '\n' {
        assert(newlines_marked(seq![c]) =~= seq![' ', '\u{21b5}', ' ']);
    } else {
        assert(newlines_marked(seq![c]) =~= seq![c]);
    }
    if b.len() == 0 {
        assert(a + b =~= a);
    } else {
        newlines_marked_char_by_char(a, b.drop_last(), c);
        assert((a + b).drop_last() =~= a + b.drop_last());
        assert((a + b).last() == b.last());
    }
    lemma_no_newline_unmarked(a);
}

proof fn lemma_no_newline_unmarked(a: Seq<char>)
    ensures
        !a.contains('\n') ==> newlines_marked(a) == a,
    decreases a.len(),
{
    if a.len() > 0 && !a.contains('\n') {
        assert(!a.drop_last().contains('\n')) by {
            if a.drop_last().contains('\n') {
                let i = choose|i: int| 0 <= i < a.drop_last().len() && a.drop_last()[i] == '\n';
                assert(a[i] == '\n');
            }
        }
        lemma_no_newline_unmarked(a.drop_last());
        assert(a.last() == a[a.len() - 1]);
        assert(a.drop_last().push(a.last()) =~= a);
    }
}

/// A text preview shows the start of the copy: it is the trimmed text with
/// its newlines marked, cut to its first `PREVIEW_STORE_LEN` characters; for
/// text without a newline, simply the first characters of the trimmed text.
pub proof fn text_preview_shows_the_start(bytes: Seq<u8>, mime: Seq<char>, facts: PathFacts)
    requires
        mime == seq!['t', 'e', 'x', 't', '/', 'p', 'l', 'a', 'i', 'n'] || (mime == seq![
            't',
            'e',
            'x',
            't',
            '/',
            'u',
            'r',
            'i',
            '-',
            'l',
            'i',
            's',
            't',
        ] && uri_display_paths_of(bytes).len() == 0),
    ensures
        ({
            let t = trim(spec_utf8_lossy(bytes));
            let m = newlines_marked(t);
            let p = preview_of(bytes, mime, facts);
            &&& p.len() == if m.len() <= 253 {
                m.len()
            } else {
                253
            }
            &&& p.is_prefix_of(m)
            &&& !t.contains('\n') ==> p == t.take(p.len() as int)
        }),
{
    let t = trim(spec_utf8_lossy(bytes));
    let m = newlines_marked(t);
    lemma_no_newline_unmarked(t);
    let p = preview_of(bytes, mime, facts);
    assert(p == take_chars(m, PREVIEW_STORE_LEN as nat));
    if m.len() <= 253 {
        assert(m.take(m.len() as int) =~= m);
    }
    assert(p =~= m.take(p.len() as int));
}

/// Text previews are never longer than `PREVIEW_STORE_LEN` characters, and
/// a text preview holds no newline.
pub proof fn text_previews_are_bounded(bytes: Seq<u8>, mime: Seq<char>, facts: PathFacts)
    requires
        mime == text_plain() || mime == text_uri_list(),
    ensures
        preview_of(bytes, mime, facts).len() <= PREVIEW_STORE_LEN,
        mime == text_plain() || uri_display_paths_of(bytes).len() == 0 ==> !preview_of(
            bytes,
            mime,
            facts,
        ).contains('\n'),
{
    let m = newlines_marked(trim(spec_utf8_lossy(bytes)));
    lemma_newlines_marked_has_none(trim(spec_utf8_lossy(bytes)));
    let t = take_chars(m, PREVIEW_STORE_LEN as nat);
    if t.contains('\n') {
        let i = choose|i: int| 0 <= i < t.len() && t[i] == '\n';
        assert(t[i] == m[i]);
    }
}

} // verus!
