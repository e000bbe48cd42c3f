//! Phrases whose code is not a prefix of `<4 sound elements><2 shape
//! elements>`, or, for a phrase of three characters, of `<3 sound
//! elements><3 shape elements>` (编码形式异常).

use crate::entry::Phrase;
use crate::keytao::{is_xm, is_ym, phrase_min_code_len, spec_is_xm, spec_is_ym, spec_phrase_min_code_len};
use crate::order::code_of;
use vstd::prelude::*;

verus! {

/// A well-formed phrase code: as many sound elements as the shortest code
/// of the phrase has (three or four), then shape elements up to six in all.
pub open spec fn valid_spec(code: Seq<u8>, text: Seq<char>) -> bool {
    let m = spec_phrase_min_code_len(text) as int;
    &&& m <= code.len() <= 6
    &&& forall|i: int| 0 <= i < m ==> spec_is_ym(#[trigger] code[i])
    &&& forall|i: int| m <= i < code.len() ==> spec_is_xm(#[trigger] code[i])
}

pub fn valid(code: &[u8], text: &str) -> (r: bool)
    ensures
        r == valid_spec(code@, text@),
{
    let m = phrase_min_code_len(text);
    if code.len() < m || code.len() > 6 {
        return false;
    }
    let mut i: usize = 0;
    while i < code.len()
        invariant
            m == spec_phrase_min_code_len(text@),
            m <= code@.len() <= 6,
            i <= code@.len(),
            forall|j: int| 0 <= j < i && j < m ==> spec_is_ym(#[trigger] code@[j]),
            forall|j: int| m <= j < i ==> spec_is_xm(#[trigger] code@[j]),
        decreases code.len() - i,
    {
        if i < m {
            if !is_ym(code[i]) {
                return false;
            }
        } else if !is_xm(code[i]) {
            return false;
        }
        i += 1;
    }
    true
}

/// The phrases whose code is malformed, in table order.
pub fn check<'a>(phrases: &'a [Phrase]) -> (r: Vec<&'a Phrase>)
    ensures
        r@.map_values(|e: &Phrase| *e) == phrases@.filter(
            |e: Phrase| !valid_spec(code_of(e), e.text@),
        ),
{
    let ghost p = |e: Phrase| !valid_spec(code_of(e), e.text@);
    let mut r: Vec<&Phrase> = Vec::new();
    let mut i: usize = 0;
    while i < phrases.len()
        invariant
            i <= phrases@.len(),
            p == (|e: Phrase| !valid_spec(code_of(e), e.text@)),
            r@.map_values(|e: &Phrase| *e) == phrases@.take(i as int).filter(p),
        decreases phrases.len() - i,
    {
        proof {
            assert(phrases@.take(i + 1) =~= phrases@.take(i as int).push(phrases@[i as int]));
            phrases@.take(i as int).lemma_filter_push(phrases@[i as int], p);
        }
        let ghost old_r = r@;
        let b = phrases[i].code.as_str().as_bytes();
        assert(b@ == code_of(phrases@[i as int]));
        if !valid(b, phrases[i].text.as_str()) {
            r.push(&phrases[i]);
            assert(r@.map_values(|e: &Phrase| *e) =~= old_r.map_values(|e: &Phrase| *e).push(
                phrases@[i as int],
            ));
        } else {
            assert(r@ == old_r);
        }
        assert(r@.map_values(|e: &Phrase| *e) =~= phrases@.take(i + 1).filter(p));
        i += 1;
    }
    assert(phrases@.take(phrases@.len() as int) =~= phrases@);
    r
}

} // verus!
