//! Deciding what kind of content a clipboard entry holds.
use vstd::prelude::*;
use vstd::utf8::{decode_utf8, valid_utf8};

use crate::paths::{normalize_paths_is_idempotent, normalized_paths, parsed_path_lines, PathFacts};
use crate::text::{
    chars_start_with, split_content_lines, str_chars, starts_with, string_of, utf8_text,
};

verus! {

/// `"text/plain"`.
pub open spec fn text_plain() -> Seq<char> {
    seq!['t', 'e', 'x', 't', '/', 'p', 'l', 'a', 'i', 'n']
}

/// `"text/uri-list"`.
pub open spec fn text_uri_list() -> Seq<char> {
    seq!['t', 'e', 'x', 't', '/', 'u', 'r', 'i', '-', 'l', 'i', 's', 't']
}

/// `"image/"`.
pub open spec fn image_prefix() -> Seq<char> {
    seq!['i', 'm', 'a', 'g', 'e', '/']
}

/// Name of the MIME type that `infer::get` recognises in `bytes` (by their
/// magic numbers), if any.
pub uninterp spec fn spec_infer_mime(bytes: Seq<u8>) -> Option<Seq<char>>;

/// The MIME type of an entry: `text/uri-list` for UTF-8 text that is a list
/// of file references, `text/plain` for other UTF-8 text, and for anything
/// else the image type the content's magic numbers show; `None` when they
/// show none, or not an image.
pub open spec fn detected_mime(bytes: Seq<u8>, facts: PathFacts) -> Option<Seq<char>> {
    if valid_utf8(bytes) {
        if parsed_path_lines(decode_utf8(bytes), facts) is Some {
            Some(text_uri_list())
        } else {
            Some(text_plain())
        }
    } else {
        match spec_infer_mime(bytes) {
            Some(m) => if starts_with(m, image_prefix()) {
                Some(m)
            } else {
                None
            },
            None => None,
        }
    }
}

/// `infer::get(bytes)` and the MIME type of what it found: the result is
/// named, as a function of the bytes alone (the crate matches a fixed table
/// of magic numbers).
#[verifier::external_body]
fn infer_mime(bytes: &[u8]) -> (res: Option<String>)
    ensures
        match res {
            Some(m) => spec_infer_mime(bytes@) == Some(m@),
            None => spec_infer_mime(bytes@) is None,
        },
{
    match infer::get(bytes) {
        Some(kind) => Some(kind.mime_type().to_string()),
        None => None,
    }
}

/// The MIME type of an entry (see [`detected_mime`]).
pub fn detect_mime(bytes: &[u8], facts: &PathFacts) -> (res: Option<String>)
    ensures
        match res {
            Some(m) => detected_mime(bytes@, *facts) == Some(m@),
            None => detected_mime(bytes@, *facts) is None,
        },
{
    match utf8_text(bytes) {
        Some(text) => {
            let cs = str_chars(text);
            let lines = split_content_lines(&cs);
            if crate::paths::parse_lines(&lines, facts).is_some() {
                let v = vec!['t', 'e', 'x', 't', '/', 'u', 'r', 'i', '-', 'l', 'i', 's', 't'];
                Some(string_of(&v))
            } else {
                let v = vec!['t', 'e', 'x', 't', '/', 'p', 'l', 'a', 'i', 'n'];
                Some(string_of(&v))
            }
        },
        None => match infer_mime(bytes) {
            Some(m) => {
                let prefix = vec!['i', 'm', 'a', 'g', 'e', '/'];
                let mc = str_chars(m.as_str());
                if chars_start_with(&mc, &prefix) {
                    Some(m)
                } else {
                    None
                }
            },
            None => None,
        },
    }
}

/// A normalised list of file references is recognised as `text/uri-list`.
pub proof fn normalized_lists_are_uri_lists(bytes: Seq<u8>, facts: PathFacts)
    requires
        normalized_paths(bytes, facts) is Some,
    ensures
        detected_mime(normalized_paths(bytes, facts).unwrap(), facts) == Some(text_uri_list()),
{
    normalize_paths_is_idempotent(bytes, facts);
}

/// Content that is not UTF-8 keeps the type its magic numbers show when that
/// is an image type (a JPEG stays `image/jpeg`, a PNG `image/png`); any type
/// it is given is that very type, and text is always `text/plain` or
/// `text/uri-list`.
pub proof fn images_keep_the_type_they_show(bytes: Seq<u8>, facts: PathFacts)
    ensures
        !valid_utf8(bytes) && spec_infer_mime(bytes) is Some && spec_infer_mime(bytes).unwrap().len()
            >= 6 && spec_infer_mime(bytes).unwrap().take(6) == seq!['i', 'm', 'a', 'g', 'e', '/']
            ==> detected_mime(bytes, facts) == spec_infer_mime(bytes),
        !valid_utf8(bytes) && detected_mime(bytes, facts) is Some ==> detected_mime(bytes, facts)
            == spec_infer_mime(bytes),
        valid_utf8(bytes) ==> detected_mime(bytes, facts) == Some(
            seq!['t', 'e', 'x', 't', '/', 'p', 'l', 'a', 'i', 'n'],
        ) || detected_mime(bytes, facts) == Some(
            seq!['t', 'e', 'x', 't', '/', 'u', 'r', 'i', '-', 'l', 'i', 's', 't'],
        ),
{
    if let Some(m) = spec_infer_mime(bytes) {
        if m.len() >= 6 {
            assert(m.subrange(0, 6) =~= m.take(6));
        }
    }
}

} // verus!
