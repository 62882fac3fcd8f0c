//! Ignore patterns: regular expressions whose matches are never stored.
use vstd::prelude::*;

verus! {

/// Name of whether `regex::Regex::new(p)` succeeds.
pub uninterp spec fn spec_regex_compiles(p: Seq<char>) -> bool;

/// Name of what building a `regex::RegexSet` from `patterns` and asking
/// `is_match(text)` gives: `None` when the set cannot be built.
pub uninterp spec fn spec_regex_set_match(patterns: Seq<Seq<char>>, text: Seq<char>) -> Option<
    bool,
>;

/// Name of whether the regular expression `p` matches somewhere in `text`:
/// what a `regex::RegexSet` holding `p` reports of it on `text`.
pub uninterp spec fn spec_regex_matches(p: Seq<char>, text: Seq<char>) -> bool;

/// The patterns that compile on their own, in their order.
pub open spec fn valid_patterns(patterns: Seq<Seq<char>>) -> Seq<Seq<char>>
    decreases patterns.len(),
{
    if patterns.len() == 0 {
        seq![]
    } else {
        let rest = valid_patterns(patterns.drop_last());
        if spec_regex_compiles(patterns.last()) {
            rest.push(patterns.last())
        } else {
            rest
        }
    }
}

/// What the ignore patterns say of `text`: invalid patterns are skipped;
/// with no valid pattern the text is not ignored; otherwise the valid ones
/// are combined into one set, which decides, or `None` when the set is
/// refused.
pub open spec fn ignore_verdict_of(text: Seq<char>, patterns: Seq<Seq<char>>) -> Option<bool> {
    let valid = valid_patterns(patterns);
    if patterns.len() == 0 || valid.len() == 0 {
        Some(false)
    } else {
        spec_regex_set_match(valid, text)
    }
}

/// `text` is to be ignored: the valid patterns, as one set, match it. When
/// the set is refused, nothing is ignored.
pub open spec fn ignored(text: Seq<char>, patterns: Seq<Seq<char>>) -> bool {
    match ignore_verdict_of(text, patterns) {
        Some(b) => b,
        None => false,
    }
}

/// The positions, in order, of the patterns that do not compile.
pub open spec fn invalid_positions(patterns: Seq<Seq<char>>) -> Seq<usize>
    decreases patterns.len(),
{
    if patterns.len() == 0 {
        seq![]
    } else {
        let rest = invalid_positions(patterns.drop_last());
        if spec_regex_compiles(patterns.last()) {
            rest
        } else {
            rest.push((patterns.len() - 1) as usize)
        }
    }
}

/// `regex::Regex::new(p).is_ok()`: whether `p` is a valid pattern (the
/// crate's syntax and size limits decide; the answer is named).
#[verifier::external_body]
fn regex_compiles(p: &str) -> (res: bool)
    ensures
        res == spec_regex_compiles(p@),
{
    regex::Regex::new(p).is_ok()
}

/// `regex::RegexSet::new(patterns)` followed by `is_match(text)` on the set:
/// `None` when the set is refused (a pattern is invalid or the set exceeds
/// the crate's size limits), else whether any pattern matches. The outcome
/// is named as a function of the patterns and the text; as the crate
/// documents `is_match`, a built set matches exactly when one of its
/// patterns does.
#[verifier::external_body]
fn regex_set_match(patterns: &Vec<String>, text: &str) -> (res: Option<bool>)
    ensures
        res == spec_regex_set_match(patterns.deep_view(), text@),
        res matches Some(b) ==> (b <==> exists|i: int|
            0 <= i < patterns.len() && #[trigger] spec_regex_matches(
                patterns.deep_view()[i],
                text@,
            )),
{
    match regex::RegexSet::new(patterns) {
        Ok(set) => Some(set.is_match(text)),
        Err(_) => None,
    }
}

/// What a sequence with one more item at its end contains.
proof fn lemma_push_contains(s: Seq<Seq<char>>, a: Seq<char>, x: Seq<char>)
    ensures
        s.push(a).contains(x) <==> s.contains(x) || x == a,
{
    if s.contains(x) {
        let i = choose|i: int| 0 <= i < s.len() && s[i] == x;
        assert(s.push(a)[i] == x);
    }
    if x == a {
        assert(s.push(a)[s.len() as int] == x);
    }
    if s.push(a).contains(x) && x != a {
        let i = choose|i: int| 0 <= i < s.len() + 1 && s.push(a)[i] == x;
        assert(s[i] == x);
    }
}

/// A pattern is among the valid ones exactly when it is one of the
/// patterns and compiles.
proof fn lemma_valid_patterns(pv: Seq<Seq<char>>)
    ensures
        forall|x: Seq<char>| #[trigger]
            valid_patterns(pv).contains(x) <==> pv.contains(x) && spec_regex_compiles(x),
    decreases pv.len(),
{
    if pv.len() > 0 {
        let rest = pv.drop_last();
        let last = pv.last();
        lemma_valid_patterns(rest);
        assert(rest.push(last) =~= pv);
        assert forall|x: Seq<char>| #[trigger]
            valid_patterns(pv).contains(x) <==> pv.contains(x) && spec_regex_compiles(x) by {
            lemma_push_contains(rest, last, x);
            lemma_push_contains(valid_patterns(rest), last, x);
        }
    }
}

/// The positions of the ignore patterns that do not compile, in order (see
/// [`invalid_positions`]); these are skipped.
pub fn invalid_patterns(patterns: &[String]) -> (res: Vec<usize>)
    ensures
        res@ == invalid_positions(patterns@.map_values(|p: String| p@)),
{
    let ghost pv = patterns@.map_values(|p: String| p@);
    let mut out: Vec<usize> = Vec::new();
    let n = patterns.len();
    assert(pv.take(0) =~= Seq::<Seq<char>>::empty());
    for i in 0..n
        invariant
            n == patterns@.len(),
            pv == patterns@.map_values(|p: String| p@),
            out@ == invalid_positions(pv.take(i as int)),
    {
        assert(pv.take(i + 1).drop_last() =~= pv.take(i as int));
        assert(pv.take(i + 1).last() == patterns[i as int]@);
        if !regex_compiles(patterns[i].as_str()) {
            out.push(i);
        }
    }
    assert(pv.take(n as int) =~= pv);
    out
}

/// What the ignore `patterns` say of `text` (see [`ignore_verdict_of`]):
/// `Some(true)` exactly when some valid pattern matches it, `Some(false)`
/// when none does, `None` when the valid patterns cannot form a set.
pub fn ignore_verdict(text: &str, patterns: &[String]) -> (res: Option<bool>)
    ensures
        res == ignore_verdict_of(text@, patterns@.map_values(|p: String| p@)),
        res == Some(true) ==> exists|i: int|
            0 <= i < patterns.len() && spec_regex_compiles(patterns@[i]@)
                && #[trigger] spec_regex_matches(patterns@[i]@, text@),
        res == Some(false) ==> forall|i: int|
            0 <= i < patterns.len() && spec_regex_compiles(patterns@[i]@) ==> !(
            #[trigger] spec_regex_matches(patterns@[i]@, text@)),
{
    let ghost pv = patterns@.map_values(|p: String| p@);
    if patterns.len() == 0 {
        return Some(false);
    }
    let mut valid: Vec<String> = Vec::new();
    let n = patterns.len();
    assert(pv.take(0) =~= Seq::<Seq<char>>::empty());
    for i in 0..n
        invariant
            n == patterns@.len(),
            pv == patterns@.map_values(|p: String| p@),
            valid.deep_view() == valid_patterns(pv.take(i as int)),
    {
        assert(pv.take(i + 1).drop_last() =~= pv.take(i as int));
        assert(pv.take(i + 1).last() == patterns[i as int]@);
        if regex_compiles(patterns[i].as_str()) {
            let ghost before = valid.deep_view();
            let p = patterns[i].clone();
            valid.push(p);
            assert(valid.deep_view() =~= before.push(patterns[i as int]@));
        }
    }
    assert(pv.take(n as int) =~= pv);
    proof {
        lemma_valid_patterns(pv);
    }
    if valid.len() == 0 {
        proof {
            assert forall|i: int|
                0 <= i < patterns.len() && spec_regex_compiles(patterns@[i]@) implies !(
            #[trigger] spec_regex_matches(patterns@[i]@, text@)) by {
                assert(pv[i] == patterns@[i]@);
                assert(pv.contains(pv[i]));
                assert(valid.deep_view().contains(pv[i]));
            }
        }
        return Some(false);
    }
    let found = regex_set_match(&valid, text);
    proof {
        let vv = valid.deep_view();
        if let Some(b) = found {
            if b {
                let j = choose|j: int| 0 <= j < vv.len() && #[trigger] spec_regex_matches(vv[j], text@);
                assert(vv.contains(vv[j]));
                let i = choose|i: int| 0 <= i < pv.len() && pv[i] == vv[j];
                assert(pv[i] == patterns@[i]@);
            } else {
                assert forall|i: int|
                    0 <= i < patterns.len() && spec_regex_compiles(patterns@[i]@) implies !(
                #[trigger] spec_regex_matches(patterns@[i]@, text@)) by {
                    assert(pv[i] == patterns@[i]@);
                    assert(pv.contains(pv[i]));
                    assert(vv.contains(pv[i]));
                    let j = choose|j: int| 0 <= j < vv.len() && vv[j] == pv[i];
                    if spec_regex_matches(patterns@[i]@, text@) {
                        assert(spec_regex_matches(vv[j], text@));
                    }
                }
            }
        }
    }
    found
}

/// Whether `text` matches one of the ignore `patterns` (see [`ignored`]).
/// When it is ignored, some valid pattern matches it; when it is not and the
/// valid patterns form a set, none of them matches it.
pub fn should_ignore(text: &str, patterns: &[String]) -> (res: bool)
    ensures
        res == ignored(text@, patterns@.map_values(|p: String| p@)),
        res ==> exists|i: int|
            0 <= i < patterns.len() && spec_regex_compiles(patterns@[i]@)
                && #[trigger] spec_regex_matches(patterns@[i]@, text@),
        !res && spec_regex_set_match(
            valid_patterns(patterns@.map_values(|p: String| p@)),
            text@,
        ) is Some ==> forall|i: int|
            0 <= i < patterns.len() && spec_regex_compiles(patterns@[i]@) ==> !(
            #[trigger] spec_regex_matches(patterns@[i]@, text@)),
{
    match ignore_verdict(text, patterns) {
        Some(b) => b,
        None => false,
    }
}

} // verus!
