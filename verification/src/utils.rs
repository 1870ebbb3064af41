//! Small text helpers shared by the command-line tools.

use vstd::prelude::*;
use vstd::string::{StringExecFns, StringSliceAdditionalSpecFns};
use vstd::utf8::{decode_utf8, is_char_boundary, encode_utf8_decode_utf8};
use crate::text::{last_path_segment, last_segment};

verus! {

/// `s` itself when it has at most `max_len` bytes; otherwise its first
/// `max_len - 3` bytes followed by `...`.
pub fn truncate_string(s: &str, max_len: usize) -> (r: String)
    requires
        s.spec_bytes().len() > max_len ==> 3 <= max_len && is_char_boundary(s.spec_bytes(), max_len - 3),
    ensures
        s.spec_bytes().len() <= max_len ==> r@ == s@,
        s.spec_bytes().len() > max_len ==> r@ == decode_utf8(s.spec_bytes().subrange(0, max_len - 3)) + "..."@,
{
    let n = s.as_bytes().len();
    if n <= max_len {
        String::from_str(s)
    } else {
        let (head, _tail) = s.split_at(max_len - 3);
        proof {
            encode_utf8_decode_utf8(head@);
        }
        let mut r = String::from_str(head);
        r.append("...");
        r
    }
}

/// The string value of member `key` of the top-level JSON object written in
/// `text`, as `serde_json` reads it; `None` when `text` is not JSON, not an
/// object, lacks the member, or the member is not a string.
pub uninterp spec fn json_string_member(text: Seq<char>, key: Seq<char>) -> Option<Seq<char>>;

/// Reads member `key` of the JSON object in `text` with `serde_json::from_str`.
#[verifier::external_body]
pub(crate) fn json_member_str(text: &str, key: &str) -> (r: Option<String>)
    ensures
        match r {
            Some(s) => json_string_member(text@, key@) == Some(s@),
            None => json_string_member(text@, key@) is None,
        },
{
    match serde_json::from_str::<serde_json::Value>(text) {
        Ok(serde_json::Value::Object(members)) => match members.get(key) {
            Some(serde_json::Value::String(s)) => Some(s.clone()),
            _ => None,
        },
        _ => None,
    }
}

/// The file name at the end of a `/`- or `\`-separated path.
pub fn file_name_of(path: &str) -> (r: String)
    ensures
        r@ == last_path_segment(path@),
{
    last_segment(path)
}

/// The file name recorded in an image's metadata: the last path segment of
/// its `FileName` member.
pub fn extract_filename(metadata: &str) -> (r: Option<String>)
    ensures
        match json_string_member(metadata@, "FileName"@) {
            Some(p) => r matches Some(f) && f@ == last_path_segment(p),
            None => r is None,
        },
{
    match json_member_str(metadata, "FileName") {
        Some(path) => Some(file_name_of(path.as_str())),
        None => None,
    }
}

/// The message `serde_json` gives when `text` is not one JSON value; `None`
/// when it is.
pub uninterp spec fn json_error_text(text: Seq<char>) -> Option<Seq<char>>;

/// Parses `text` with `serde_json::from_str` into a `serde_json::Value` and
/// hands back the error's message when that fails.
#[verifier::external_body]
pub(crate) fn json_parse_error(text: &str) -> (r: Option<String>)
    ensures
        match r {
            Some(e) => json_error_text(text@) == Some(e@),
            None => json_error_text(text@) is None,
        },
{
    match serde_json::from_str::<serde_json::Value>(text) {
        Ok(_) => None,
        Err(e) => Some(e.to_string()),
    }
}

/// The last component of a path as `std::path::Path::file_name` finds it;
/// `None` for a path that ends in `..` or has no components. Which characters
/// separate components is fixed by the build target: `/` on Unix, `/` and
/// `\` on Windows.
pub uninterp spec fn path_file_name(path: Seq<char>) -> Option<Seq<char>>;

/// Calls `std::path::Path::file_name` on `path`.
#[verifier::external_body]
pub(crate) fn file_name_component(path: &str) -> (r: Option<String>)
    ensures
        match r {
            Some(f) => path_file_name(path@) == Some(f@),
            None => path_file_name(path@) is None,
        },
{
    match std::path::Path::new(path).file_name() {
        Some(f) => Some(f.to_string_lossy().into_owned()),
        None => None,
    }
}

/// `base` joined with `part` as `std::path::Path::join` joins them: `part`
/// alone when it is absolute, otherwise `base`, a separator when `base` does
/// not already end in one, and `part`. What counts as absolute and as a
/// separator is fixed by the build target.
pub uninterp spec fn path_joined(base: Seq<char>, part: Seq<char>) -> Seq<char>;

/// Calls `std::path::Path::join` on `base` and `part`.
#[verifier::external_body]
pub(crate) fn join_path(base: &str, part: &str) -> (r: String)
    ensures
        r@ == path_joined(base@, part@),
{
    std::path::Path::new(base).join(part).to_string_lossy().into_owned()
}

/// Position of the last `c` in `s`.
pub open spec fn last_index_of(s: Seq<char>, c: char) -> Option<int>
    decreases s.len(),
{
    if s.len() == 0 {
        None
    } else if s.last() == c {
        Some(s.len() - 1)
    } else {
        last_index_of(s.drop_last(), c)
    }
}

/// The extension of a file name as `std::path::Path::extension` documents
/// it: none without a file name, without a `.`, or when the only `.` starts
/// the name; otherwise what follows the last `.`.
pub open spec fn extension_of(file_name: Option<Seq<char>>) -> Option<Seq<char>> {
    match file_name {
        None => None,
        Some(n) => match last_index_of(n, '.') {
            None => None,
            Some(i) => if i == 0 { None } else { Some(n.subrange(i + 1, n.len() as int)) },
        },
    }
}

/// Calls `std::path::Path::extension` on `path`.
#[verifier::external_body]
pub(crate) fn path_extension(path: &str) -> (r: Option<String>)
    ensures
        match r {
            Some(e) => extension_of(path_file_name(path@)) == Some(e@),
            None => extension_of(path_file_name(path@)) is None,
        },
{
    match std::path::Path::new(path).extension() {
        Some(e) => Some(e.to_string_lossy().into_owned()),
        None => None,
    }
}

} // verus!
