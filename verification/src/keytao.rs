//! The KeyTao coding scheme: code elements, code lengths and stems.

use vstd::prelude::*;
use vstd::string::StrSliceExecFns;
use vstd::string::StringSliceAdditionalSpecFns;

verus! {

/// Number of code elements (the letters `a` to `z`).
pub const CODE_ELEMS: usize = 26;

/// Longest code of an entry.
pub const MAX_CODE_N: usize = 6;

/// Shortest code of a phrase of three characters.
pub const MIN_PHRASE_CODE_N: usize = 3;

/// A stem: the first three code elements of a single character's code,
/// from which phrase codes are built.
pub type Stem = [u8; 3];

/// A shape element (形码): one of `a`, `i`, `o`, `u`, `v`.
pub open spec fn spec_is_xm(c: u8) -> bool {
    c == 0x61u8 || c == 0x69u8 || c == 0x6fu8 || c == 0x75u8 || c == 0x76u8
}

/// A sound element (音码): a lower-case letter that is no shape element.
pub open spec fn spec_is_ym(c: u8) -> bool {
    0x61u8 <= c <= 0x7au8 && !spec_is_xm(c)
}

/// Whether `c` is a shape element.
pub fn is_xm(c: u8) -> (r: bool)
    ensures
        r == spec_is_xm(c),
{
    c == 0x61 || c == 0x69 || c == 0x6f || c == 0x75 || c == 0x76
}

/// Whether `c` is a sound element.
pub fn is_ym(c: u8) -> (r: bool)
    ensures
        r == spec_is_ym(c),
{
    0x61 <= c && c <= 0x7a && !is_xm(c)
}

/// The stem of a code: its first three bytes, if it has that many.
pub open spec fn spec_stem(code: Seq<u8>) -> Option<Seq<u8>> {
    if code.len() >= 3 {
        Some(code.take(3))
    } else {
        None
    }
}

/// Extracts the stem from a single character's code; `None` when the code
/// is shorter than three bytes.
pub fn stem(code: &str) -> (r: Option<Stem>)
    ensures
        r matches Some(s) ==> spec_stem(code.spec_bytes()) == Some(s@),
        r is None ==> spec_stem(code.spec_bytes()) is None,
{
    let b = code.as_bytes();
    if b.len() >= 3 {
        let s: Stem = [b[0], b[1], b[2]];
        assert(s@ =~= code.spec_bytes().take(3));
        Some(s)
    } else {
        None
    }
}

/// The shortest code that a phrase may have: three for a phrase of three
/// characters, four otherwise.
pub open spec fn spec_phrase_min_code_len(text: Seq<char>) -> usize {
    if text.len() == 3 {
        3
    } else {
        4
    }
}

/// The shortest code that the phrase `text` may have.
pub fn phrase_min_code_len(text: &str) -> (r: usize)
    ensures
        r == spec_phrase_min_code_len(text@),
{
    if text.unicode_len() == 3 {
        MIN_PHRASE_CODE_N
    } else {
        4
    }
}

} // verus!
