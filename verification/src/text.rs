//! Character-level text handling: whitespace trimming, line splitting,
//! joining, decimal rendering and the UTF-8 boundary with `std`.
use vstd::prelude::*;
use vstd::utf8::{decode_utf8, encode_utf8, valid_utf8};

verus! {

// ---------------------------------------------------------------------------
// Specifications
// ---------------------------------------------------------------------------

/// Unicode `White_Space`, the property that `char::is_whitespace` and
/// `str::trim` go by.
pub open spec fn is_white_space(c: char) -> bool {
    let u = c as u32;
    ||| (0x09 <= u && u <= 0x0d)
    ||| u == 0x20
    ||| u == 0x85
    ||| u == 0xa0
    ||| u == 0x1680
    ||| (0x2000 <= u && u <= 0x200a)
    ||| u == 0x2028
    ||| u == 0x2029
    ||| u == 0x202f
    ||| u == 0x205f
    ||| u == 0x3000
}

/// `s` without its leading white space.
pub open spec fn trim_start(s: Seq<char>) -> Seq<char>
    decreases s.len(),
{
    if s.len() > 0 && is_white_space(s[0]) {
        trim_start(s.drop_first())
    } else {
        s
    }
}

/// `s` without its trailing white space.
pub open spec fn trim_end(s: Seq<char>) -> Seq<char>
    decreases s.len(),
{
    if s.len() > 0 && is_white_space(s.last()) {
        trim_end(s.drop_last())
    } else {
        s
    }
}

/// `s` without leading and trailing white space (`str::trim`).
pub open spec fn trim(s: Seq<char>) -> Seq<char> {
    trim_end(trim_start(s))
}

/// `p` is a prefix of `s`.
pub open spec fn starts_with(s: Seq<char>, p: Seq<char>) -> bool {
    p.len() <= s.len() && s.subrange(0, p.len() as int) == p
}

/// `c` occurs in `s`.
pub open spec fn has_char(s: Seq<char>, c: char) -> bool {
    exists|i: int| 0 <= i < s.len() && s[i] == c
}

/// A line counts when it is not blank; it is kept trimmed.
pub open spec fn keep_line(done: Seq<Seq<char>>, cur: Seq<char>) -> Seq<Seq<char>> {
    if trim(cur).len() > 0 {
        done.push(trim(cur))
    } else {
        done
    }
}

/// Reading `s` left to right: the finished lines and the line under way.
pub open spec fn scan_lines(s: Seq<char>) -> (Seq<Seq<char>>, Seq<char>)
    decreases s.len(),
{
    if s.len() == 0 {
        (seq![], seq![])
    } else {
        let (done, cur) = scan_lines(s.drop_last());
        if s.last() == '\n' {
            (keep_line(done, cur), seq![])
        } else {
            (done, cur.push(s.last()))
        }
    }
}

/// The lines of `s` (split at `'\n'`), each trimmed, blank ones left out:
/// `s.lines().map(str::trim).filter(|l| !l.is_empty())`.
pub open spec fn content_lines(s: Seq<char>) -> Seq<Seq<char>> {
    let (done, cur) = scan_lines(s);
    keep_line(done, cur)
}

/// The items joined by `'\n'`.
pub open spec fn join_lines(items: Seq<Seq<char>>) -> Seq<char>
    decreases items.len(),
{
    if items.len() == 0 {
        seq![]
    } else if items.len() == 1 {
        items[0]
    } else {
        join_lines(items.drop_last()) + seq!['\n'] + items.last()
    }
}

/// The decimal digit for `d < 10`.
pub open spec fn digit_char(d: nat) -> char {
    if d == 0 { '0' }
    else if d == 1 { '1' }
    else if d == 2 { '2' }
    else if d == 3 { '3' }
    else if d == 4 { '4' }
    else if d == 5 { '5' }
    else if d == 6 { '6' }
    else if d == 7 { '7' }
    else if d == 8 { '8' }
    else { '9' }
}

/// The decimal rendering of `n` (what `Display` prints for an unsigned integer).
pub open spec fn decimal(n: nat) -> Seq<char>
    decreases n,
{
    if n < 10 {
        seq![digit_char(n)]
    } else {
        decimal(n / 10).push(digit_char(n % 10))
    }
}

/// `"true"` or `"false"`, as `Display` prints a `bool`.
pub open spec fn bool_text(b: bool) -> Seq<char> {
    if b { seq!['t', 'r', 'u', 'e'] } else { seq!['f', 'a', 'l', 's', 'e'] }
}

/// The first `n` characters of `s` (all of it when it is shorter).
pub open spec fn take_chars(s: Seq<char>, n: nat) -> Seq<char> {
    if s.len() <= n { s } else { s.take(n as int) }
}

/// Name of what `String::from_utf8_lossy` returns for `bytes`.
pub uninterp spec fn spec_utf8_lossy(bytes: Seq<u8>) -> Seq<char>;

// ---------------------------------------------------------------------------
// Lemmas
// ---------------------------------------------------------------------------

/// Every character of `trim_start(s)` stands in `s`, and it is a suffix of `s`.
proof fn lemma_trim_start_suffix(s: Seq<char>)
    ensures
        trim_start(s).len() <= s.len(),
        trim_start(s) == s.subrange(s.len() - trim_start(s).len(), s.len() as int),
    decreases s.len(),
{
    if s.len() > 0 && is_white_space(s[0]) {
        lemma_trim_start_suffix(s.drop_first());
        assert(s.drop_first().subrange(
            s.drop_first().len() - trim_start(s.drop_first()).len(),
            s.drop_first().len() as int,
        ) =~= s.subrange(s.len() - trim_start(s).len(), s.len() as int));
    } else {
        assert(s.subrange(0, s.len() as int) =~= s);
    }
}

/// `trim_end(s)` is a prefix of `s`.
proof fn lemma_trim_end_prefix(s: Seq<char>)
    ensures
        trim_end(s).len() <= s.len(),
        trim_end(s) == s.subrange(0, trim_end(s).len() as int),
    decreases s.len(),
{
    if s.len() > 0 && is_white_space(s.last()) {
        lemma_trim_end_prefix(s.drop_last());
        assert(s.drop_last().subrange(0, trim_end(s.drop_last()).len() as int) =~= s.subrange(
            0,
            trim_end(s).len() as int,
        ));
    } else {
        assert(s.subrange(0, s.len() as int) =~= s);
    }
}

/// A non-empty result of `trim_start` begins with a non-white character.
proof fn lemma_trim_start_first(s: Seq<char>)
    ensures
        trim_start(s).len() > 0 ==> !is_white_space(trim_start(s)[0]),
    decreases s.len(),
{
    if s.len() > 0 && is_white_space(s[0]) {
        lemma_trim_start_first(s.drop_first());
    }
}

/// A non-empty result of `trim_end` ends with a non-white character.
proof fn lemma_trim_end_last(s: Seq<char>)
    ensures
        trim_end(s).len() > 0 ==> !is_white_space(trim_end(s).last()),
    decreases s.len(),
{
    if s.len() > 0 && is_white_space(s.last()) {
        lemma_trim_end_last(s.drop_last());
    }
}

/// `trim(s)` is a contiguous piece of `s` that neither begins nor ends with white space.
proof fn lemma_trim_shape(s: Seq<char>)
    ensures
        exists|a: int, b: int| 0 <= a <= b <= s.len() && trim(s) == s.subrange(a, b),
        trim(s).len() > 0 ==> !is_white_space(trim(s)[0]) && !is_white_space(trim(s).last()),
{
    let t = trim_start(s);
    lemma_trim_start_suffix(s);
    lemma_trim_end_prefix(t);
    lemma_trim_start_first(s);
    lemma_trim_end_last(t);
    let a = s.len() - t.len();
    let b = a + trim_end(t).len();
    assert(trim(s) =~= s.subrange(a, b));
    if trim(s).len() > 0 {
        assert(trim(s)[0] == t[0]);
    }
}

/// Text that neither begins nor ends with white space is its own trim.
proof fn lemma_trim_fixed(s: Seq<char>)
    requires
        s.len() > 0,
        !is_white_space(s[0]),
        !is_white_space(s.last()),
    ensures
        trim(s) == s,
{
}

/// A character that occurs in a piece of `s` occurs in `s`.
proof fn lemma_has_char_subrange(s: Seq<char>, a: int, b: int, c: char)
    requires
        0 <= a <= b <= s.len(),
        has_char(s.subrange(a, b), c),
    ensures
        has_char(s, c),
{
    let i = choose|i: int| 0 <= i < b - a && s.subrange(a, b)[i] == c;
    assert(s[a + i] == c);
}

/// The line under way never holds a newline, and no finished line does.
proof fn lemma_scan_no_newline(s: Seq<char>)
    ensures
        !has_char(scan_lines(s).1, '\n'),
        forall|k: int|
            0 <= k < scan_lines(s).0.len() ==> !has_char(#[trigger] scan_lines(s).0[k], '\n')
                && scan_lines(s).0[k].len() > 0,
    decreases s.len(),
{
    if s.len() > 0 {
        lemma_scan_no_newline(s.drop_last());
        let (done, cur) = scan_lines(s.drop_last());
        if s.last() == '\n' {
            if trim(cur).len() > 0 {
                lemma_trim_shape(cur);
                let (a, b) = choose|a: int, b: int|
                    0 <= a <= b <= cur.len() && trim(cur) == cur.subrange(a, b);
                if has_char(trim(cur), '\n') {
                    lemma_has_char_subrange(cur, a, b, '\n');
                }
            }
        } else {
            let nc = cur.push(s.last());
            if has_char(nc, '\n') {
                let i = choose|i: int| 0 <= i < nc.len() && nc[i] == '\n';
                assert(cur[i] == '\n');
            }
        }
    }
}

/// The lines of any text are non-empty, trimmed and free of newlines.
pub(crate) proof fn lemma_content_lines_shape(s: Seq<char>)
    ensures
        forall|k: int|
            0 <= k < content_lines(s).len() ==> {
                let l = #[trigger] content_lines(s)[k];
                &&& l.len() > 0
                &&& !has_char(l, '\n')
                &&& !is_white_space(l[0])
                &&& !is_white_space(l.last())
            },
{
    lemma_scan_no_newline(s);
    let (done, cur) = scan_lines(s);
    assert forall|k: int| 0 <= k < done.len() implies {
        let l = #[trigger] done[k];
        &&& !is_white_space(l[0])
        &&& !is_white_space(l.last())
    } by {
        lemma_scan_lines_trimmed(s, k);
    }
    if trim(cur).len() > 0 {
        lemma_trim_shape(cur);
        let (a, b) = choose|a: int, b: int|
            0 <= a <= b <= cur.len() && trim(cur) == cur.subrange(a, b);
        if has_char(trim(cur), '\n') {
            lemma_has_char_subrange(cur, a, b, '\n');
        }
    }
}

/// The finished lines are trimmed.
proof fn lemma_scan_lines_trimmed(s: Seq<char>, k: int)
    requires
        0 <= k < scan_lines(s).0.len(),
    ensures
        !is_white_space(scan_lines(s).0[k][0]),
        !is_white_space(scan_lines(s).0[k].last()),
    decreases s.len(),
{
    if s.len() > 0 {
        let (done, cur) = scan_lines(s.drop_last());
        if s.last() == '\n' && k == done.len() {
            lemma_trim_shape(cur);
        } else {
            lemma_scan_lines_trimmed(s.drop_last(), k);
        }
    }
}

/// Reading text without newlines only extends the line under way.
proof fn lemma_scan_append_plain(a: Seq<char>, b: Seq<char>)
    requires
        !has_char(b, '\n'),
    ensures
        scan_lines(a + b) == (scan_lines(a).0, scan_lines(a).1 + b),
    decreases b.len(),
{
    if b.len() == 0 {
        assert(a + b =~= a);
        assert(scan_lines(a).1 + b =~= scan_lines(a).1);
    } else {
        let b0 = b.drop_last();
        assert(!has_char(b0, '\n')) by {
            if has_char(b0, '\n') {
                let i = choose|i: int| 0 <= i < b0.len() && b0[i] == '\n';
                assert(b[i] == '\n');
            }
        }
        lemma_scan_append_plain(a, b0);
        assert((a + b).drop_last() =~= a + b0);
        assert(b.last() != '\n') by {
            assert(b[b.len() - 1] == b.last());
        }
        assert(scan_lines(a).1 + b0 + seq![b.last()] =~= scan_lines(a).1 + b);
        assert((scan_lines(a).1 + b0).push(b.last()) =~= scan_lines(a).1 + b);
    }
}

/// Lines that are non-empty, trimmed and newline-free come back unchanged
/// from their join.
pub(crate) proof fn lemma_content_lines_join(items: Seq<Seq<char>>)
    requires
        forall|k: int|
            0 <= k < items.len() ==> {
                let l = #[trigger] items[k];
                &&& l.len() > 0
                &&& !has_char(l, '\n')
                &&& !is_white_space(l[0])
                &&& !is_white_space(l.last())
            },
    ensures
        scan_lines(join_lines(items)) == (
            if items.len() == 0 { seq![] } else { items.drop_last() },
            if items.len() == 0 { seq![] } else { items.last() },
        ),
        content_lines(join_lines(items)) == items,
    decreases items.len(),
{
    if items.len() == 0 {
        assert(trim(seq![]) =~= Seq::<char>::empty());
    } else if items.len() == 1 {
        let x = items[0];
        lemma_scan_append_plain(seq![], x);
        assert(seq![] + x =~= x);
        assert(Seq::<char>::empty() + x =~= x);
        lemma_trim_fixed(x);
        assert(items.drop_last() =~= seq![]);
        assert(seq![x] =~= items);
    } else {
        let p = items.drop_last();
        let x = items.last();
        lemma_content_lines_join(p);
        let jp = join_lines(p);
        let jn = jp + seq!['\n'];
        assert(jn.drop_last() =~= jp);
        assert(scan_lines(jn) == (content_lines(jp), Seq::<char>::empty()));
        lemma_scan_append_plain(jn, x);
        assert(join_lines(items) == jn + x);
        assert(Seq::<char>::empty() + x =~= x);
        lemma_trim_fixed(x);
        assert(p.last() == items[items.len() - 2]);
        lemma_trim_fixed(p.last());
        assert(p.drop_last().push(p.last()) =~= p);
        assert(p.push(x) =~= items);
    }
}

// ---------------------------------------------------------------------------
// Trusted boundary with std's UTF-8 conversions
// ---------------------------------------------------------------------------

/// `std::str::from_utf8`: by its documentation it succeeds exactly on valid
/// UTF-8, and the text it gives back is what the bytes encode.
#[verifier::external_body]
pub(crate) fn utf8_text(bytes: &[u8]) -> (res: Option<&str>)
    ensures
        res.is_some() == valid_utf8(bytes@),
        res matches Some(s) ==> s@ == decode_utf8(bytes@),
{
    std::str::from_utf8(bytes).ok()
}

/// `String::from_utf8_lossy`: the result is named; by its documentation,
/// valid UTF-8 comes back decoded as it is. What it makes of invalid
/// sequences (U+FFFD in their place) is left to the name.
#[verifier::external_body]
pub(crate) fn utf8_lossy(bytes: &[u8]) -> (res: String)
    ensures
        res@ == spec_utf8_lossy(bytes@),
        valid_utf8(bytes@) ==> res@ == decode_utf8(bytes@),
{
    String::from_utf8_lossy(bytes).into_owned()
}

/// `String::push`: appends one character.
#[verifier::external_body]
pub(crate) fn push_char(s: &mut String, c: char)
    ensures
        final(s)@ == old(s)@.push(c),
{
    s.push(c)
}

// ---------------------------------------------------------------------------
// Executable helpers
// ---------------------------------------------------------------------------

/// The characters of `s`, in order.
pub fn str_chars(s: &str) -> (res: Vec<char>)
    ensures
        res@ == s@,
{
    let mut out: Vec<char> = Vec::new();
    for c in it: s.chars()
        invariant
            out@ == it.seq().take(it.index() as int),
    {
        out.push(c);
    }
    out
}

/// A `String` holding the characters `cs`.
pub fn string_of(cs: &[char]) -> (res: String)
    ensures
        res@ == cs@,
{
    let mut out = String::new();
    let n = cs.len();
    for i in 0..n
        invariant
            n == cs@.len(),
            out@ == cs@.take(i as int),
    {
        push_char(&mut out, cs[i]);
        assert(cs@.take(i as int).push(cs@[i as int]) =~= cs@.take(i + 1));
    }
    assert(cs@.take(n as int) =~= cs@);
    out
}

/// Appends the characters `cs` to `out`.
pub fn push_chars(out: &mut String, cs: &[char])
    ensures
        final(out)@ == old(out)@ + cs@,
{
    let n = cs.len();
    for i in 0..n
        invariant
            n == cs@.len(),
            out@ == old(out)@ + cs@.take(i as int),
    {
        push_char(out, cs[i]);
        assert(old(out)@ + cs@.take(i as int) + seq![cs@[i as int]] =~= old(out)@ + cs@.take(
            i + 1,
        ));
    }
    assert(cs@.take(n as int) =~= cs@);
}

/// The UTF-8 bytes of `s`.
pub fn string_bytes(s: &String) -> (res: Vec<u8>)
    ensures
        res@ == encode_utf8(s@),
{
    let b = s.as_str().as_bytes();
    let mut out: Vec<u8> = Vec::new();
    let n = b.len();
    for i in 0..n
        invariant
            n == b@.len(),
            out@ == b@.take(i as int),
    {
        out.push(b[i]);
        assert(b@.take(i as int).push(b@[i as int]) =~= b@.take(i + 1));
    }
    assert(b@.take(n as int) =~= b@);
    out
}

/// `c` is white space (`char::is_whitespace`).
pub fn char_is_white_space(c: char) -> (res: bool)
    ensures
        res == is_white_space(c),
{
    let u = c as u32;
    (0x09 <= u && u <= 0x0d) || u == 0x20 || u == 0x85 || u == 0xa0 || u == 0x1680 || (0x2000
        <= u && u <= 0x200a) || u == 0x2028 || u == 0x2029 || u == 0x202f || u == 0x205f || u
        == 0x3000
}

/// Equality of two character sequences.
pub fn chars_equal(a: &[char], b: &[char]) -> (res: bool)
    ensures
        res == (a@ == b@),
{
    if a.len() != b.len() {
        return false;
    }
    let n = a.len();
    for i in 0..n
        invariant
            n == a@.len(),
            n == b@.len(),
            forall|j: int| 0 <= j < i ==> a@[j] == b@[j],
    {
        if a[i] != b[i] {
            return false;
        }
    }
    assert(a@ =~= b@);
    true
}

/// `p` is a prefix of `s`.
pub fn chars_start_with(s: &[char], p: &[char]) -> (res: bool)
    ensures
        res == starts_with(s@, p@),
{
    if p.len() > s.len() {
        return false;
    }
    let n = p.len();
    for i in 0..n
        invariant
            n == p@.len(),
            n <= s@.len(),
            forall|j: int| 0 <= j < i ==> s@[j] == p@[j],
    {
        if s[i] != p[i] {
            assert(s@.subrange(0, n as int)[i as int] != p@[i as int]);
            return false;
        }
    }
    assert(s@.subrange(0, n as int) =~= p@);
    true
}

/// The characters `s[from..to]`.
pub fn slice_chars(s: &[char], from: usize, to: usize) -> (res: Vec<char>)
    requires
        from <= to <= s@.len(),
    ensures
        res@ == s@.subrange(from as int, to as int),
{
    let mut out: Vec<char> = Vec::new();
    let mut i = from;
    while i < to
        invariant
            from <= i <= to <= s@.len(),
            out@ == s@.subrange(from as int, i as int),
        decreases to - i,
    {
        out.push(s[i]);
        assert(s@.subrange(from as int, i as int).push(s@[i as int]) =~= s@.subrange(
            from as int,
            i + 1,
        ));
        i = i + 1;
    }
    out
}

/// The first `n` characters of `s`.
pub fn take_first(s: &[char], n: usize) -> (res: Vec<char>)
    ensures
        res@ == take_chars(s@, n as nat),
{
    if s.len() <= n {
        let r = slice_chars(s, 0, s.len());
        assert(r@ =~= s@);
        r
    } else {
        slice_chars(s, 0, n)
    }
}

/// `s` without leading and trailing white space.
pub fn trim_chars(s: &[char]) -> (res: Vec<char>)
    ensures
        res@ == trim(s@),
{
    let n = s.len();
    let mut i: usize = 0;
    assert(s@.subrange(0, n as int) =~= s@);
    while i < n && char_is_white_space(s[i])
        invariant
            i <= n == s@.len(),
            trim_start(s@) == trim_start(s@.subrange(i as int, n as int)),
        decreases n - i,
    {
        let ghost rest = s@.subrange(i as int, n as int);
        assert(rest.drop_first() =~= s@.subrange(i + 1, n as int));
        i = i + 1;
    }
    assert(trim_start(s@) == s@.subrange(i as int, n as int));
    let mut j: usize = n;
    while j > i && char_is_white_space(s[j - 1])
        invariant
            i <= j <= n == s@.len(),
            trim(s@) == trim_end(s@.subrange(i as int, j as int)),
        decreases j - i,
    {
        let ghost part = s@.subrange(i as int, j as int);
        assert(part.drop_last() =~= s@.subrange(i as int, j - 1));
        assert(part.last() == s@[j - 1]);
        j = j - 1;
    }
    let ghost part = s@.subrange(i as int, j as int);
    assert(j > i ==> part.last() == s@[j - 1]);
    slice_chars(s, i, j)
}

/// The non-blank lines of `s`, trimmed.
pub fn split_content_lines(s: &[char]) -> (res: Vec<Vec<char>>)
    ensures
        res.deep_view() == content_lines(s@),
{
    let mut done: Vec<Vec<char>> = Vec::new();
    let mut cur: Vec<char> = Vec::new();
    let n = s.len();
    assert(s@.take(0) =~= Seq::<char>::empty());
    for i in 0..n
        invariant
            n == s@.len(),
            (done.deep_view(), cur@) == scan_lines(s@.take(i as int)),
    {
        let ghost before = s@.take(i as int);
        assert(s@.take(i + 1).drop_last() =~= before);
        assert(s@.take(i + 1).last() == s@[i as int]);
        if s[i] == '\n' {
            let t = trim_chars(&cur);
            if t.len() > 0 {
                let ghost dv = done.deep_view();
                assert(t.deep_view() =~= t@);
                done.push(t);
                assert(done.deep_view() =~= dv.push(t@));
            }
            cur = Vec::new();
            assert(cur@ =~= Seq::<char>::empty());
        } else {
            cur.push(s[i]);
        }
        assert((done.deep_view(), cur@) == scan_lines(s@.take(i + 1)));
    }
    assert(s@.take(n as int) =~= s@);
    let t = trim_chars(&cur);
    if t.len() > 0 {
        let ghost dv = done.deep_view();
        assert(t.deep_view() =~= t@);
        done.push(t);
        assert(done.deep_view() =~= dv.push(t@));
    }
    done
}

/// The decimal rendering of `n`.
pub fn decimal_chars(n: u128) -> (res: Vec<char>)
    ensures
        res@ == decimal(n as nat),
    decreases n,
{
    let d = n % 10;
    let c = if d == 0 { '0' }
        else if d == 1 { '1' }
        else if d == 2 { '2' }
        else if d == 3 { '3' }
        else if d == 4 { '4' }
        else if d == 5 { '5' }
        else if d == 6 { '6' }
        else if d == 7 { '7' }
        else if d == 8 { '8' }
        else { '9' };
    if n < 10 {
        vec![c]
    } else {
        let mut v = decimal_chars(n / 10);
        v.push(c);
        v
    }
}

/// `"true"` or `"false"`.
pub fn bool_chars(b: bool) -> (res: Vec<char>)
    ensures
        res@ == bool_text(b),
{
    if b { vec!['t', 'r', 'u', 'e'] } else { vec!['f', 'a', 'l', 's', 'e'] }
}

} // verus!
