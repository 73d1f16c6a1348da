//! Trusted boundary around the outside routines the archive logic needs:
//! zlib inflation, UTF-8 decoding, and ASCII case-insensitive comparison.

use vstd::prelude::*;
use vstd::utf8::{decode_utf8, valid_utf8};

verus! {

#[verifier::external_type_specification]
#[verifier::external_body]
pub struct ExIoError(std::io::Error);

/// What inflating a zlib-wrapped deflate stream yields: `Some` of the
/// plain bytes when the stream is well formed, `None` when it is not.
/// The result depends on the compressed bytes alone.
pub uninterp spec fn inflate_of(b: Seq<u8>) -> Option<Seq<u8>>;

/// Relies on flate2's `ZlibDecoder` driven by `Read::read_to_end`:
/// inflation of an in-memory stream is a function of the input bytes
/// alone, succeeding exactly on well-formed zlib data.
#[verifier::external_body]
pub(crate) fn zlib_inflate(data: &[u8]) -> (r: Option<Vec<u8>>)
    ensures
        match r {
            Some(v) => inflate_of(data@) == Some(v@),
            None => inflate_of(data@) is None,
        },
{
    let mut buf = Vec::new();
    match std::io::Read::read_to_end(&mut flate2::read::ZlibDecoder::new(data), &mut buf) {
        Ok(_) => Some(buf),
        Err(_) => None,
    }
}

/// Relies on `String::from_utf8`: it succeeds exactly on valid UTF-8 and
/// returns the decoded characters, as vstd's UTF-8 model states them.
#[verifier::external_body]
pub(crate) fn bytes_to_string(v: Vec<u8>) -> (r: Option<String>)
    ensures
        match r {
            Some(s) => valid_utf8(v@) && s@ == decode_utf8(v@),
            None => !valid_utf8(v@),
        },
{
    match String::from_utf8(v) {
        Ok(s) => Some(s),
        Err(_) => None,
    }
}

/// An ASCII upper-case letter.
pub open spec fn is_ascii_upper(c: char) -> bool {
    65 <= (c as u32) && (c as u32) <= 90
}

/// A character's code point with an ASCII upper-case letter mapped to
/// its lower-case counterpart, as `char::to_ascii_lowercase` maps it.
pub open spec fn fold_char(c: char) -> int {
    if is_ascii_upper(c) {
        (c as u32) + 32
    } else {
        (c as u32) as int
    }
}

/// ASCII case-insensitive equality of two character sequences: equal
/// length and, position by position, equal case-folded code points.
pub open spec fn eq_ci(a: Seq<char>, b: Seq<char>) -> bool {
    a.len() == b.len() && forall|i: int| 0 <= i < a.len() ==> fold_char(a[i]) == fold_char(b[i])
}

/// Relies on `str::eq_ignore_ascii_case`: an ASCII case-insensitive
/// match, ASCII letters compared without case and every other character
/// compared exactly.
#[verifier::external_body]
pub(crate) fn str_eq_ci(a: &String, b: &str) -> (r: bool)
    ensures
        r == eq_ci(a@, b@),
{
    a.eq_ignore_ascii_case(b)
}

} // verus!
