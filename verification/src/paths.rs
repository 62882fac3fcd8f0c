//! File references on the clipboard: recognising a list of paths
//! (optionally headed by `copy` or `cut`), rewriting it as `file://` URIs,
//! and the display form of each reference.
use vstd::prelude::*;
use vstd::utf8::{decode_utf8, encode_utf8, encode_utf8_decode_utf8, valid_utf8};

use crate::text::{
    content_lines, has_char, is_white_space, join_lines, lemma_content_lines_join,
    lemma_content_lines_shape, push_chars, split_content_lines, spec_utf8_lossy, starts_with,
    str_chars, string_bytes, string_of, utf8_text, chars_equal, chars_start_with,
    slice_chars,
};

verus! {

// ---------------------------------------------------------------------------
// What the file system said about the paths that matter
// ---------------------------------------------------------------------------

/// One path that was found on disk.
struct KnownPath {
    path: Vec<char>,
    is_dir: bool,
}

/// The paths found on disk (as files or as directories) at the time a
/// clipboard entry is examined. A path that was not recorded counts as
/// absent.
pub struct PathFacts {
    known: Vec<KnownPath>,
}

impl PathFacts {
    /// `p` names an existing file or directory.
    pub closed spec fn exists_path(self, p: Seq<char>) -> bool {
        exists|i: int| 0 <= i < self.known@.len() && (#[trigger] self.known@[i]).path@ == p
    }

    /// `p` names an existing directory.
    pub closed spec fn is_directory(self, p: Seq<char>) -> bool {
        exists|i: int|
            0 <= i < self.known@.len() && (#[trigger] self.known@[i]).path@ == p
                && self.known@[i].is_dir
    }

    /// No path is known to exist.
    pub fn new() -> (res: PathFacts)
        ensures
            forall|p: Seq<char>| !res.exists_path(p) && !res.is_directory(p),
    {
        PathFacts { known: Vec::new() }
    }

    /// Records that `path` exists, as a directory or not.
    pub fn record(&mut self, path: &str, is_dir: bool)
        ensures
            forall|p: Seq<char>|
                #![trigger final(self).exists_path(p)]
                final(self).exists_path(p) == (old(self).exists_path(p) || p == path@),
            forall|p: Seq<char>|
                #![trigger final(self).is_directory(p)]
                final(self).is_directory(p) == (old(self).is_directory(p) || (p == path@
                    && is_dir)),
    {
        let ghost old_known = self.known@;
        self.known.push(KnownPath { path: str_chars(path), is_dir });
        assert forall|p: Seq<char>| #![trigger self.exists_path(p)]
            self.exists_path(p) == (old(self).exists_path(p) || p == path@) by {
            if old(self).exists_path(p) {
                let i = choose|i: int|
                    0 <= i < old_known.len() && (#[trigger] old_known[i]).path@ == p;
                assert(self.known@[i] == old_known[i]);
            }
            if p == path@ {
                assert(self.known@[old_known.len() as int].path@ == p);
            }
            if self.exists_path(p) {
                let i = choose|i: int|
                    0 <= i < self.known@.len() && (#[trigger] self.known@[i]).path@ == p;
                if i < old_known.len() {
                    assert(old_known[i] == self.known@[i]);
                }
            }
        }
        assert forall|p: Seq<char>| #![trigger self.is_directory(p)]
            self.is_directory(p) == (old(self).is_directory(p) || (p == path@ && is_dir)) by {
            if old(self).is_directory(p) {
                let i = choose|i: int|
                    0 <= i < old_known.len() && (#[trigger] old_known[i]).path@ == p
                        && old_known[i].is_dir;
                assert(self.known@[i] == old_known[i]);
            }
            if p == path@ && is_dir {
                assert(self.known@[old_known.len() as int].path@ == p);
            }
            if self.is_directory(p) {
                let i = choose|i: int|
                    0 <= i < self.known@.len() && (#[trigger] self.known@[i]).path@ == p
                        && self.known@[i].is_dir;
                if i < old_known.len() {
                    assert(old_known[i] == self.known@[i]);
                }
            }
        }
    }

    /// Whether `p` was recorded.
    pub fn knows(&self, p: &[char]) -> (res: bool)
        ensures
            res == self.exists_path(p@),
    {
        let n = self.known.len();
        for i in 0..n
            invariant
                n == self.known@.len(),
                forall|j: int| 0 <= j < i ==> (#[trigger] self.known@[j]).path@ != p@,
        {
            if chars_equal(&self.known[i].path, p) {
                return true;
            }
        }
        false
    }

    /// Whether `p` was recorded as a directory.
    pub fn knows_directory(&self, p: &[char]) -> (res: bool)
        ensures
            res == self.is_directory(p@),
    {
        let n = self.known.len();
        for i in 0..n
            invariant
                n == self.known@.len(),
                forall|j: int|
                    0 <= j < i ==> !((#[trigger] self.known@[j]).path@ == p@
                        && self.known@[j].is_dir),
        {
            if self.known[i].is_dir && chars_equal(&self.known[i].path, p) {
                return true;
            }
        }
        false
    }
}

// ---------------------------------------------------------------------------
// Specifications
// ---------------------------------------------------------------------------

/// `"file://"`.
pub open spec fn file_scheme() -> Seq<char> {
    seq!['f', 'i', 'l', 'e', ':', '/', '/']
}

/// `"copy"`.
pub open spec fn copy_verb() -> Seq<char> {
    seq!['c', 'o', 'p', 'y']
}

/// `"cut"`.
pub open spec fn cut_verb() -> Seq<char> {
    seq!['c', 'u', 't']
}

/// A file manager's `copy` / `cut` header line.
pub open spec fn is_verb(line: Seq<char>) -> bool {
    line == copy_verb() || line == cut_verb()
}

/// A line names a file: a `file://` URI with something after the scheme,
/// or an absolute path that exists on disk.
pub open spec fn is_path_line(line: Seq<char>, facts: PathFacts) -> bool {
    if starts_with(line, file_scheme()) {
        line.len() > file_scheme().len()
    } else if line.len() > 0 && line[0] == '/' {
        facts.exists_path(line)
    } else {
        false
    }
}

/// Every line names a file.
pub open spec fn all_path_lines(lines: Seq<Seq<char>>, facts: PathFacts) -> bool {
    forall|k: int| 0 <= k < lines.len() ==> is_path_line(#[trigger] lines[k], facts)
}

/// The text is a list of file references: its non-blank lines are an
/// optional `copy`/`cut` header followed by at least one line that names a
/// file. The result is the header and the path lines.
pub open spec fn parsed_path_lines(text: Seq<char>, facts: PathFacts) -> Option<
    (Option<Seq<char>>, Seq<Seq<char>>),
> {
    let lines = content_lines(text);
    if lines.len() == 0 {
        None
    } else if is_verb(lines[0]) {
        if lines.len() > 1 && all_path_lines(lines.drop_first(), facts) {
            Some((Some(lines[0]), lines.drop_first()))
        } else {
            None
        }
    } else if all_path_lines(lines, facts) {
        Some((None, lines))
    } else {
        None
    }
}

/// A path line as a `file://` URI.
pub open spec fn as_file_uri(line: Seq<char>) -> Seq<char> {
    if starts_with(line, file_scheme()) {
        line
    } else {
        file_scheme() + line
    }
}

/// The lines of a normalised list: the header, if any, then each path as a URI.
pub open spec fn normalized_lines(verb: Option<Seq<char>>, paths: Seq<Seq<char>>) -> Seq<
    Seq<char>,
> {
    let head: Seq<Seq<char>> = match verb {
        Some(v) => seq![v],
        None => seq![],
    };
    head + paths.map_values(|p: Seq<char>| as_file_uri(p))
}

/// What `normalize_paths` gives for `bytes`: for UTF-8 text that is a list
/// of file references, the list rewritten with `file://` URIs, one per line.
pub open spec fn normalized_paths(bytes: Seq<u8>, facts: PathFacts) -> Option<Seq<u8>> {
    if !valid_utf8(bytes) {
        None
    } else {
        match parsed_path_lines(decode_utf8(bytes), facts) {
            None => None,
            Some((verb, paths)) => Some(encode_utf8(join_lines(normalized_lines(verb, paths)))),
        }
    }
}

/// The value of an ASCII hexadecimal digit.
pub open spec fn hex_digit_value(b: u8) -> Option<u8> {
    if 0x30 <= b && b <= 0x39 {
        Some((b - 0x30) as u8)
    } else if 0x61 <= b && b <= 0x66 {
        Some((b - 0x61 + 10) as u8)
    } else if 0x41 <= b && b <= 0x46 {
        Some((b - 0x41 + 10) as u8)
    } else {
        None
    }
}

/// Percent-decoding of bytes: every `%` followed by two hexadecimal digits
/// stands for the byte they spell; all other bytes stay.
pub open spec fn percent_decoded(b: Seq<u8>) -> Seq<u8>
    decreases b.len(),
{
    if b.len() == 0 {
        seq![]
    } else if b[0] == 0x25 && b.len() >= 3 && hex_digit_value(b[1]) is Some && hex_digit_value(
        b[2],
    ) is Some {
        seq![
            (hex_digit_value(b[1]).unwrap() * 16 + hex_digit_value(b[2]).unwrap()) as u8,
        ] + percent_decoded(b.skip(3))
    } else {
        seq![b[0]] + percent_decoded(b.drop_first())
    }
}

/// `s` without the `file://` scheme, if it has it.
pub open spec fn without_file_scheme(s: Seq<char>) -> Seq<char> {
    if starts_with(s, file_scheme()) {
        s.skip(file_scheme().len() as int)
    } else {
        s
    }
}

/// The part of `s` before its first `c` (all of `s` when there is none).
pub open spec fn before_first(s: Seq<char>, c: char) -> Seq<char>
    decreases s.len(),
{
    if s.len() == 0 {
        s
    } else if s[0] == c {
        seq![]
    } else {
        seq![s[0]] + before_first(s.drop_first(), c)
    }
}

/// How a line of a URI list is shown: scheme and query dropped, percent
/// escapes decoded (invalid UTF-8 replaced).
pub open spec fn display_path(line: Seq<char>) -> Seq<char> {
    spec_utf8_lossy(percent_decoded(encode_utf8(before_first(without_file_scheme(line), '?'))))
}

/// The display forms of the lines that are not a header, empty ones left out.
pub open spec fn display_paths_of(lines: Seq<Seq<char>>) -> Seq<Seq<char>>
    decreases lines.len(),
{
    if lines.len() == 0 {
        seq![]
    } else {
        let rest = display_paths_of(lines.drop_last());
        let l = lines.last();
        if is_verb(l) || display_path(l).len() == 0 {
            rest
        } else {
            rest.push(display_path(l))
        }
    }
}

/// What `uri_display_paths` gives for `bytes`.
pub open spec fn uri_display_paths_of(bytes: Seq<u8>) -> Seq<Seq<char>> {
    if valid_utf8(bytes) {
        display_paths_of(content_lines(decode_utf8(bytes)))
    } else {
        seq![]
    }
}

/// The paths whose state on disk the handling of `lines` depends on: each
/// absolute path line, and the display form of each line that is not a
/// header.
pub open spec fn probe_paths_of(lines: Seq<Seq<char>>) -> Seq<Seq<char>>
    decreases lines.len(),
{
    if lines.len() == 0 {
        seq![]
    } else {
        let rest = probe_paths_of(lines.drop_last());
        let l = lines.last();
        let with_line = if l.len() > 0 && l[0] == '/' { rest.push(l) } else { rest };
        if is_verb(l) || display_path(l).len() == 0 {
            with_line
        } else {
            with_line.push(display_path(l))
        }
    }
}

// ---------------------------------------------------------------------------
// Trusted boundary with percent_encoding
// ---------------------------------------------------------------------------

/// `percent_encoding::percent_decode_str(s).decode_utf8_lossy()`: the crate's
/// source decodes every `%` followed by two hexadecimal digits and leaves
/// every other byte, then hands the bytes to `String::from_utf8_lossy`.
#[verifier::external_body]
fn percent_decode_lossy(s: &str) -> (res: String)
    ensures
        res@ == spec_utf8_lossy(percent_decoded(encode_utf8(s@))),
{
    percent_encoding::percent_decode_str(s).decode_utf8_lossy().into_owned()
}

// ---------------------------------------------------------------------------
// Executable functions
// ---------------------------------------------------------------------------

fn file_scheme_chars() -> (res: Vec<char>)
    ensures
        res@ == file_scheme(),
{
    vec!['f', 'i', 'l', 'e', ':', '/', '/']
}

/// Whether `line` is a `copy` / `cut` header.
fn line_is_verb(line: &[char]) -> (res: bool)
    ensures
        res == is_verb(line@),
{
    let copy = vec!['c', 'o', 'p', 'y'];
    let cut = vec!['c', 'u', 't'];
    chars_equal(line, &copy) || chars_equal(line, &cut)
}

/// Whether a (trimmed) line names a file.
pub fn is_path_like(line: &str, facts: &PathFacts) -> (res: bool)
    ensures
        res == is_path_line(line@, *facts),
{
    let cs = str_chars(line);
    line_names_file(&cs, facts)
}

fn line_names_file(line: &[char], facts: &PathFacts) -> (res: bool)
    ensures
        res == is_path_line(line@, *facts),
{
    let scheme = file_scheme_chars();
    if chars_start_with(line, &scheme) {
        return line.len() > scheme.len();
    }
    if line.len() > 0 && line[0] == '/' {
        return facts.knows(line);
    }
    false
}

fn all_lines_name_files(lines: &Vec<Vec<char>>, from: usize, facts: &PathFacts) -> (res: bool)
    requires
        from <= lines@.len(),
    ensures
        res == all_path_lines(lines.deep_view().skip(from as int), *facts),
{
    let n = lines.len();
    let ghost dv = lines.deep_view();
    let mut i = from;
    while i < n
        invariant
            from <= i <= n == lines@.len(),
            dv == lines.deep_view(),
            forall|k: int| from <= k < i ==> is_path_line(#[trigger] dv[k], *facts),
        decreases n - i,
    {
        assert(lines[i as int]@ == dv[i as int]);
        if !line_names_file(&lines[i], facts) {
            assert(dv.skip(from as int)[i - from] == dv[i as int]);
            return false;
        }
        i = i + 1;
    }
    assert forall|k: int| 0 <= k < dv.skip(from as int).len() implies is_path_line(
        #[trigger] dv.skip(from as int)[k],
        *facts,
    ) by {
        assert(dv.skip(from as int)[k] == dv[k + from]);
    }
    true
}

/// The header and path lines of `lines`, when they form a list of file references.
pub(crate) fn parse_lines(lines: &Vec<Vec<char>>, facts: &PathFacts) -> (res: Option<
    (Option<Vec<char>>, Vec<Vec<char>>),
>)
    ensures
        match res {
            None => parsed_path_lines_of(lines.deep_view(), *facts) is None,
            Some((verb, paths)) => parsed_path_lines_of(lines.deep_view(), *facts) == Some(
                (
                    match verb {
                        Some(v) => Some(v@),
                        None => None,
                    },
                    paths.deep_view(),
                ),
            ),
        },
{
    let ghost dv = lines.deep_view();
    if lines.len() == 0 {
        return None;
    }
    assert(lines[0]@ == dv[0]);
    if line_is_verb(&lines[0]) {
        if lines.len() > 1 && all_lines_name_files(lines, 1, facts) {
            let rest = copy_lines(lines, 1);
            assert(dv.drop_first() =~= dv.skip(1));
            Some((Some(copy_chars(&lines[0])), rest))
        } else {
            assert(dv.drop_first() =~= dv.skip(1));
            None
        }
    } else if all_lines_name_files(lines, 0, facts) {
        assert(dv.skip(0) =~= dv);
        let all = copy_lines(lines, 0);
        assert(dv.skip(0) =~= dv);
        Some((None, all))
    } else {
        assert(dv.skip(0) =~= dv);
        None
    }
}

/// The view of an optional character vector.
pub open spec fn opt_chars(o: &Option<Vec<char>>) -> Option<Seq<char>> {
    match o {
        Some(v) => Some(v@),
        None => None,
    }
}

/// `parsed_path_lines` on already-split lines.
pub open spec fn parsed_path_lines_of(lines: Seq<Seq<char>>, facts: PathFacts) -> Option<
    (Option<Seq<char>>, Seq<Seq<char>>),
> {
    if lines.len() == 0 {
        None
    } else if is_verb(lines[0]) {
        if lines.len() > 1 && all_path_lines(lines.drop_first(), facts) {
            Some((Some(lines[0]), lines.drop_first()))
        } else {
            None
        }
    } else if all_path_lines(lines, facts) {
        Some((None, lines))
    } else {
        None
    }
}

fn copy_chars(s: &Vec<char>) -> (res: Vec<char>)
    ensures
        res@ == s@,
{
    let r = slice_chars(s, 0, s.len());
    assert(r@ =~= s@);
    r
}

fn copy_lines(lines: &Vec<Vec<char>>, from: usize) -> (res: Vec<Vec<char>>)
    requires
        from <= lines@.len(),
    ensures
        res.deep_view() == lines.deep_view().skip(from as int),
{
    let ghost dv = lines.deep_view();
    let mut out: Vec<Vec<char>> = Vec::new();
    let n = lines.len();
    let mut i = from;
    while i < n
        invariant
            from <= i <= n == lines@.len(),
            dv == lines.deep_view(),
            out.deep_view() =~= dv.subrange(from as int, i as int),
        decreases n - i,
    {
        let c = copy_chars(&lines[i]);
        assert(c.deep_view() =~= c@);
        assert(lines[i as int]@ == dv[i as int]);
        let ghost before = out.deep_view();
        out.push(c);
        assert(out.deep_view() =~= before.push(c@));
        i = i + 1;
    }
    assert(dv.subrange(from as int, n as int) =~= dv.skip(from as int));
    out
}

/// The header (if any) and the path lines of `text`, when its non-blank
/// lines form a list of file references; `None` otherwise.
pub fn parse_path_lines(text: &str, facts: &PathFacts) -> (res: Option<(Option<String>, Vec<String>)>)
    ensures
        match res {
            None => parsed_path_lines(text@, *facts) is None,
            Some((verb, paths)) => parsed_path_lines(text@, *facts) == Some(
                (
                    match verb {
                        Some(v) => Some(v@),
                        None => None,
                    },
                    paths.deep_view(),
                ),
            ),
        },
{
    let cs = str_chars(text);
    let lines = split_content_lines(&cs);
    match parse_lines(&lines, facts) {
        None => None,
        Some((verb, paths)) => {
            let v = match verb {
                Some(v) => Some(string_of(&v)),
                None => None,
            };
            let mut out: Vec<String> = Vec::new();
            let n = paths.len();
            let ghost pv = paths.deep_view();
            for i in 0..n
                invariant
                    n == paths@.len(),
                    pv == paths.deep_view(),
                    out.deep_view() =~= pv.take(i as int),
            {
                let s = string_of(&paths[i]);
                assert(paths[i as int]@ == pv[i as int]);
                let ghost before = out.deep_view();
                out.push(s);
                assert(out.deep_view() =~= before.push(s@));
                assert(pv.take(i as int).push(pv[i as int]) =~= pv.take(i + 1));
            }
            assert(pv.take(n as int) =~= pv);
            Some((v, out))
        },
    }
}

/// Rewrites a list of file references as `file://` URIs, one per line,
/// after its `copy`/`cut` header if it has one. `None` when `bytes` is not
/// UTF-8 text that is such a list.
pub fn normalize_paths(bytes: &[u8], facts: &PathFacts) -> (res: Option<Vec<u8>>)
    ensures
        res matches Some(out) ==> normalized_paths(bytes@, *facts) == Some(out@),
        res is None ==> normalized_paths(bytes@, *facts) is None,
{
    let text = match utf8_text(bytes) {
        Some(t) => t,
        None => return None,
    };
    let cs = str_chars(text);
    let lines = split_content_lines(&cs);
    let (verb, paths) = match parse_lines(&lines, facts) {
        Some(p) => p,
        None => return None,
    };
    let has_head = verb.is_some();
    let ghost pv = paths.deep_view();
    let ghost items = normalized_lines(opt_chars(&verb), pv);
    let ghost head_len: int = if has_head { 1 } else { 0 };
    let mut out = String::new();
    match &verb {
        Some(v) => {
            push_chars(&mut out, v);
            assert(items.take(1) =~= seq![v@]);
            assert(join_lines(items.take(1)) == v@);
        },
        None => {
            assert(items.take(0) =~= Seq::<Seq<char>>::empty());
        },
    }
    let scheme = file_scheme_chars();
    let n = paths.len();
    for i in 0..n
        invariant
            n == paths@.len(),
            pv == paths.deep_view(),
            scheme@ == file_scheme(),
            has_head == (head_len == 1),
            head_len == 0 || head_len == 1,
            items.len() == head_len + n,
            forall|k: int|
                0 <= k < n ==> #[trigger] items[head_len + k] == as_file_uri(pv[k]),
            out@ == join_lines(items.take(head_len + i)),
    {
        assert(paths[i as int]@ == pv[i as int]);
        let ghost prev = items.take(head_len + i);
        let ghost next = items.take(head_len + i + 1);
        assert(next.drop_last() =~= prev);
        assert(next.last() == as_file_uri(pv[i as int]));
        if has_head || i > 0 {
            push_chars(&mut out, &['\n']);
        } else {
            assert(prev =~= Seq::<Seq<char>>::empty());
            assert(out@ =~= Seq::<char>::empty());
        }
        if !chars_start_with(&paths[i], &scheme) {
            push_chars(&mut out, &scheme);
        }
        push_chars(&mut out, &paths[i]);
        if has_head || i > 0 {
            assert(out@ =~= join_lines(prev) + seq!['\n'] + as_file_uri(pv[i as int]));
        } else {
            assert(next =~= seq![as_file_uri(pv[i as int])]);
            assert(out@ =~= as_file_uri(pv[i as int]));
        }
    }
    assert(items.take(head_len + n) =~= items);
    proof {
        assert(lines.deep_view() == content_lines(decode_utf8(bytes@)));
    }
    Some(string_bytes(&out))
}

/// The display form of each line of a URI list: scheme, query and percent
/// escapes removed; header lines and lines that end up empty left out.
/// Nothing for bytes that are not UTF-8.
pub fn uri_display_paths(bytes: &[u8]) -> (res: Vec<String>)
    ensures
        res.deep_view() == uri_display_paths_of(bytes@),
{
    let text = match utf8_text(bytes) {
        Some(t) => t,
        None => {
            let r: Vec<String> = Vec::new();
            assert(r.deep_view() =~= Seq::<Seq<char>>::empty());
            return r;
        },
    };
    let cs = str_chars(text);
    let lines = split_content_lines(&cs);
    let ghost lv = lines.deep_view();
    let mut out: Vec<String> = Vec::new();
    let n = lines.len();
    assert(lv.take(0) =~= Seq::<Seq<char>>::empty());
    for i in 0..n
        invariant
            n == lines@.len(),
            lv == lines.deep_view(),
            out.deep_view() == display_paths_of(lv.take(i as int)),
    {
        assert(lines[i as int]@ == lv[i as int]);
        assert(lv.take(i + 1).drop_last() =~= lv.take(i as int));
        assert(lv.take(i + 1).last() == lv[i as int]);
        if !line_is_verb(&lines[i]) {
            let d = display_of_line(&lines[i]);
            if !d.as_str().is_empty() {
                let ghost before = out.deep_view();
                out.push(d);
                assert(out.deep_view() =~= before.push(d@));
            }
        }
    }
    assert(lv.take(n as int) =~= lv);
    out
}

/// The display form of one line.
fn display_of_line(line: &Vec<char>) -> (res: String)
    ensures
        res@ == display_path(line@),
{
    let scheme = file_scheme_chars();
    let start = if chars_start_with(line, &scheme) { scheme.len() } else { 0 };
    let n = line.len();
    let mut end = start;
    let ghost rest = without_file_scheme(line@);
    assert(rest =~= line@.subrange(start as int, n as int));
    while end < n && line[end] != '?'
        invariant
            start <= end <= n == line@.len(),
            forall|k: int| start <= k < end ==> line@[k] != '?',
            before_first(rest, '?') == line@.subrange(start as int, end as int) + before_first(
                line@.subrange(end as int, n as int),
                '?',
            ),
        decreases n - end,
    {
        let ghost tail = line@.subrange(end as int, n as int);
        assert(tail.drop_first() =~= line@.subrange(end + 1, n as int));
        assert(line@.subrange(start as int, end as int) + seq![line@[end as int]]
            =~= line@.subrange(start as int, end + 1));
        end = end + 1;
    }
    let ghost tail = line@.subrange(end as int, n as int);
    assert(before_first(tail, '?') =~= Seq::<char>::empty());
    assert(line@.subrange(start as int, end as int) + Seq::<char>::empty()
        =~= line@.subrange(start as int, end as int));
    let part = string_of(&slice_chars(line, start, end));
    percent_decode_lossy(part.as_str())
}

/// The paths whose state on disk `normalize_paths`, `detect_mime` and
/// `create_preview` consult for `bytes`: absolute path lines, and the display
/// form of each line. Nothing for bytes that are not UTF-8.
pub fn paths_to_probe(bytes: &[u8]) -> (res: Vec<String>)
    ensures
        res.deep_view() == (if valid_utf8(bytes@) {
            probe_paths_of(content_lines(decode_utf8(bytes@)))
        } else {
            seq![]
        }),
{
    let text = match utf8_text(bytes) {
        Some(t) => t,
        None => {
            let r: Vec<String> = Vec::new();
            assert(r.deep_view() =~= Seq::<Seq<char>>::empty());
            return r;
        },
    };
    let cs = str_chars(text);
    let lines = split_content_lines(&cs);
    let ghost lv = lines.deep_view();
    let mut out: Vec<String> = Vec::new();
    let n = lines.len();
    assert(lv.take(0) =~= Seq::<Seq<char>>::empty());
    for i in 0..n
        invariant
            n == lines@.len(),
            lv == lines.deep_view(),
            out.deep_view() == probe_paths_of(lv.take(i as int)),
    {
        assert(lines[i as int]@ == lv[i as int]);
        assert(lv.take(i + 1).drop_last() =~= lv.take(i as int));
        assert(lv.take(i + 1).last() == lv[i as int]);
        if lines[i].len() > 0 && lines[i][0] == '/' {
            let s = string_of(&lines[i]);
            let ghost before = out.deep_view();
            out.push(s);
            assert(out.deep_view() =~= before.push(s@));
        }
        if !line_is_verb(&lines[i]) {
            let d = display_of_line(&lines[i]);
            if !d.as_str().is_empty() {
                let ghost before = out.deep_view();
                out.push(d);
                assert(out.deep_view() =~= before.push(d@));
            }
        }
    }
    assert(lv.take(n as int) =~= lv);
    out
}

// ---------------------------------------------------------------------------
// Laws
// ---------------------------------------------------------------------------

proof fn lemma_uri_shape(p: Seq<char>)
    requires
        p.len() > 0,
        !has_char(p, '\n'),
        !is_white_space(p[0]),
        !is_white_space(p.last()),
        starts_with(p, file_scheme()) ==> p.len() > file_scheme().len(),
    ensures
        as_file_uri(p).len() > file_scheme().len(),
        starts_with(as_file_uri(p), file_scheme()),
        as_file_uri(as_file_uri(p)) == as_file_uri(p),
        !has_char(as_file_uri(p), '\n'),
        !is_white_space(as_file_uri(p)[0]),
        !is_white_space(as_file_uri(p).last()),
        !is_verb(as_file_uri(p)),
{
    let u = as_file_uri(p);
    if !starts_with(p, file_scheme()) {
        assert(u.subrange(0, 7) =~= file_scheme());
        assert(u.last() == p.last());
        assert(u[0] == 'f');
        if has_char(u, '\n') {
            let i = choose|i: int| 0 <= i < u.len() && u[i] == '\n';
            if i >= 7 {
                assert(p[i - 7] == '\n');
            }
        }
    } else {
        if p.len() == file_scheme().len() {
            assert(p =~= file_scheme());
        }
        assert(p[0] == p.subrange(0, 7)[0]);
    }
    if is_verb(u) {
        assert(u[0] == 'c');
        assert(u[0] == u.subrange(0, 7)[0]);
    }
}

/// Normalisation is a normal form: normalising an already normalised list
/// gives it back unchanged, whatever exists on disk.
pub proof fn normalize_paths_is_idempotent(bytes: Seq<u8>, facts: PathFacts)
    requires
        normalized_paths(bytes, facts) is Some,
    ensures
        normalized_paths(normalized_paths(bytes, facts).unwrap(), facts) == normalized_paths(
            bytes,
            facts,
        ),
{
    let text = decode_utf8(bytes);
    let lines = content_lines(text);
    lemma_content_lines_shape(text);
    let (verb, paths) = parsed_path_lines(text, facts).unwrap();
    let items = normalized_lines(verb, paths);
    let head_len: int = if verb is Some { 1 } else { 0 };
    assert(paths == lines.skip(head_len)) by {
        if verb is Some {
            assert(lines.drop_first() =~= lines.skip(1));
        } else {
            assert(lines =~= lines.skip(0));
        }
    }
    assert forall|k: int| 0 <= k < paths.len() implies {
        let u = #[trigger] items[head_len + k];
        &&& u == as_file_uri(paths[k])
        &&& u.len() > file_scheme().len()
        &&& starts_with(u, file_scheme())
        &&& as_file_uri(u) == u
        &&& !has_char(u, '\n')
        &&& !is_white_space(u[0])
        &&& !is_white_space(u.last())
        &&& !is_verb(u)
    } by {
        assert(paths[k] == lines[head_len + k]);
        assert(is_path_line(paths[k], facts));
        lemma_uri_shape(paths[k]);
    }
    assert forall|k: int| 0 <= k < items.len() implies {
        let l = #[trigger] items[k];
        &&& l.len() > 0
        &&& !has_char(l, '\n')
        &&& !is_white_space(l[0])
        &&& !is_white_space(l.last())
    } by {
        if k < head_len {
            assert(items[k] == lines[0]);
        } else {
            assert(items[head_len + (k - head_len)] == items[k]);
        }
    }
    lemma_content_lines_join(items);
    let out_text = join_lines(items);
    let out = encode_utf8(out_text);
    encode_utf8_decode_utf8(out_text);
    vstd::utf8::encode_utf8_valid_utf8(out_text);
    assert(decode_utf8(out) == out_text);
    assert(content_lines(out_text) == items);
    let uris = items.skip(head_len);
    assert forall|k: int| 0 <= k < uris.len() implies is_path_line(#[trigger] uris[k], facts) by {
        assert(uris[k] == items[head_len + k]);
    }
    assert(uris.map_values(|p: Seq<char>| as_file_uri(p)) =~= uris) by {
        assert forall|k: int| 0 <= k < uris.len() implies #[trigger] as_file_uri(uris[k])
            == uris[k] by {
            assert(uris[k] == items[head_len + k]);
        }
    }
    match verb {
        Some(v) => {
            assert(items[0] == v);
            assert(uris =~= items.drop_first());
            assert(parsed_path_lines(out_text, facts) == Some((Some(v), uris)));
            assert(normalized_lines(Some(v), uris) =~= items);
        },
        None => {
            assert(uris =~= items);
            assert(items.len() > 0);
            assert(!is_verb(items[0]));
            assert(parsed_path_lines(out_text, facts) == Some((None::<Seq<char>>, uris)));
            assert(normalized_lines(None, uris) =~= items);
        },
    }
}

/// Facts `f1` and `f2` say the same of each of `paths`.
pub open spec fn facts_agree_on(f1: PathFacts, f2: PathFacts, paths: Seq<Seq<char>>) -> bool {
    forall|i: int|
        0 <= i < paths.len() ==> f1.exists_path(#[trigger] paths[i]) == f2.exists_path(paths[i])
            && f1.is_directory(paths[i]) == f2.is_directory(paths[i])
}

/// The probe list holds every absolute path line and the display form of
/// every line that is not a header.
pub(crate) proof fn lemma_probe_covers(lines: Seq<Seq<char>>)
    ensures
        forall|k: int|
            0 <= k < lines.len() && (#[trigger] lines[k]).len() > 0 && lines[k][0] == '/'
                ==> probe_paths_of(lines).contains(lines[k]),
        forall|k: int|
            0 <= k < lines.len() && !is_verb(#[trigger] lines[k]) && display_path(lines[k]).len()
                > 0 ==> probe_paths_of(lines).contains(display_path(lines[k])),
    decreases lines.len(),
{
    if lines.len() > 0 {
        let init = lines.drop_last();
        lemma_probe_covers(init);
        let rest = probe_paths_of(init);
        let l = lines.last();
        let with_line = if l.len() > 0 && l[0] == '/' { rest.push(l) } else { rest };
        let all = probe_paths_of(lines);
        assert forall|x: Seq<char>| rest.contains(x) implies all.contains(x) by {
            let i = choose|i: int| 0 <= i < rest.len() && rest[i] == x;
            assert(with_line[i] == x);
            assert(all[i] == x);
        }
        assert(l.len() > 0 && l[0] == '/' ==> all.contains(l)) by {
            if l.len() > 0 && l[0] == '/' {
                assert(all[rest.len() as int] == l);
            }
        }
        assert(!is_verb(l) && display_path(l).len() > 0 ==> all.contains(display_path(l))) by {
            if !is_verb(l) && display_path(l).len() > 0 {
                assert(all[with_line.len() as int] == display_path(l));
            }
        }
        assert forall|k: int|
            0 <= k < lines.len() && (#[trigger] lines[k]).len() > 0 && lines[k][0] == '/'
                implies all.contains(lines[k]) by {
            if k < init.len() {
                assert(init[k] == lines[k]);
            }
        }
        assert forall|k: int|
            0 <= k < lines.len() && !is_verb(#[trigger] lines[k]) && display_path(lines[k]).len()
                > 0 implies all.contains(display_path(lines[k])) by {
            if k < init.len() {
                assert(init[k] == lines[k]);
            }
        }
    }
}

/// Every display path comes from a line that is not a header.
pub(crate) proof fn lemma_display_paths_origin(lines: Seq<Seq<char>>)
    ensures
        forall|j: int|
            0 <= j < display_paths_of(lines).len() ==> exists|k: int|
                0 <= k < lines.len() && !is_verb(lines[k]) && #[trigger] display_paths_of(
                    lines,
                )[j] == display_path(lines[k]) && display_paths_of(lines)[j].len() > 0,
    decreases lines.len(),
{
    if lines.len() > 0 {
        let init = lines.drop_last();
        lemma_display_paths_origin(init);
        let rest = display_paths_of(init);
        let all = display_paths_of(lines);
        assert forall|j: int| 0 <= j < all.len() implies exists|k: int|
            0 <= k < lines.len() && !is_verb(lines[k]) && #[trigger] all[j] == display_path(
                lines[k],
            ) && all[j].len() > 0 by {
            if j < rest.len() {
                assert(all[j] == rest[j]);
                let k = choose|k: int|
                    0 <= k < init.len() && !is_verb(init[k]) && rest[j] == display_path(init[k])
                        && rest[j].len() > 0;
                assert(init[k] == lines[k]);
            } else {
                assert(all[j] == display_path(lines.last()));
                assert(lines.last() == lines[lines.len() - 1]);
            }
        }
    }
}

/// A path line and its URI form display the same.
proof fn lemma_display_of_uri(p: Seq<char>)
    ensures
        display_path(as_file_uri(p)) == display_path(p),
{
    if !starts_with(p, file_scheme()) {
        let u = file_scheme() + p;
        assert(u.subrange(0, 7) =~= file_scheme());
        assert(u.skip(7) =~= p);
    }
}

/// Whether the lines of a text form a list of file references depends only
/// on what the facts say of the paths that `paths_to_probe` lists.
pub proof fn parsing_depends_on_probed_paths(text: Seq<char>, f1: PathFacts, f2: PathFacts)
    requires
        facts_agree_on(f1, f2, probe_paths_of(content_lines(text))),
    ensures
        parsed_path_lines(text, f1) == parsed_path_lines(text, f2),
{
    let lines = content_lines(text);
    lemma_probe_covers(lines);
    let probes = probe_paths_of(lines);
    assert forall|k: int| 0 <= k < lines.len() implies is_path_line(#[trigger] lines[k], f1)
        == is_path_line(lines[k], f2) by {
        let l = lines[k];
        if l.len() > 0 && l[0] == '/' {
            assert(probes.contains(l));
            let i = choose|i: int| 0 <= i < probes.len() && probes[i] == l;
            assert(f1.exists_path(probes[i]) == f2.exists_path(probes[i]));
        }
    }
    assert(all_path_lines(lines, f1) == all_path_lines(lines, f2));
    if lines.len() > 0 {
        let rest = lines.drop_first();
        assert forall|k: int| 0 <= k < rest.len() implies is_path_line(#[trigger] rest[k], f1)
            == is_path_line(rest[k], f2) by {
            assert(rest[k] == lines[k + 1]);
        }
        assert(all_path_lines(rest, f1) == all_path_lines(rest, f2));
    }
}

/// The display paths of a normalised list are display paths of the lines
/// of the text it was made from.
pub proof fn normalized_display_paths_are_probed(bytes: Seq<u8>, facts: PathFacts)
    requires
        normalized_paths(bytes, facts) is Some,
    ensures
        forall|j: int|
            0 <= j < uri_display_paths_of(normalized_paths(bytes, facts).unwrap()).len()
                ==> probe_paths_of(content_lines(decode_utf8(bytes))).contains(
                #[trigger] uri_display_paths_of(normalized_paths(bytes, facts).unwrap())[j],
            ),
{
    let text = decode_utf8(bytes);
    let lines = content_lines(text);
    lemma_content_lines_shape(text);
    lemma_probe_covers(lines);
    let (verb, paths) = parsed_path_lines(text, facts).unwrap();
    let items = normalized_lines(verb, paths);
    let head_len: int = if verb is Some { 1 } else { 0 };
    assert(paths == lines.skip(head_len)) by {
        if verb is Some {
            assert(lines.drop_first() =~= lines.skip(1));
        } else {
            assert(lines =~= lines.skip(0));
        }
    }
    normalize_paths_is_idempotent(bytes, facts);
    let out = normalized_paths(bytes, facts).unwrap();
    let out_text = join_lines(items);
    encode_utf8_decode_utf8(out_text);
    vstd::utf8::encode_utf8_valid_utf8(out_text);
    assert forall|k: int| 0 <= k < items.len() implies {
        let l = #[trigger] items[k];
        &&& l.len() > 0
        &&& !has_char(l, '\n')
        &&& !is_white_space(l[0])
        &&& !is_white_space(l.last())
    } by {
        if k < head_len {
            assert(items[k] == lines[0]);
        } else {
            assert(items[k] == as_file_uri(paths[k - head_len]));
            assert(paths[k - head_len] == lines[k]);
            assert(is_path_line(paths[k - head_len], facts));
            lemma_uri_shape(paths[k - head_len]);
        }
    }
    lemma_content_lines_join(items);
    assert(content_lines(decode_utf8(out)) == items);
    lemma_display_paths_origin(items);
    let shown = uri_display_paths_of(out);
    assert forall|j: int| 0 <= j < shown.len() implies probe_paths_of(lines).contains(
        #[trigger] shown[j],
    ) by {
        let k = choose|k: int|
            0 <= k < items.len() && !is_verb(items[k]) && shown[j] == display_path(items[k])
                && shown[j].len() > 0;
        if k < head_len {
            assert(items[k] == lines[0]);
            assert(is_verb(lines[0]));
        }
        let p = paths[k - head_len];
        assert(p == lines[k]);
        assert(items[k] == as_file_uri(p));
        lemma_display_of_uri(p);
        assert(is_path_line(p, facts));
        assert(!is_verb(p)) by {
            if is_verb(p) {
                if starts_with(p, file_scheme()) {
                    assert(p[0] == p.subrange(0, 7)[0]);
                }
            }
        }
    }
}

} // verus!
