//! Phrases whose code cannot be derived from the stems of their characters
//! (无理码).

use crate::entry::Phrase;
use crate::hashing::{stem_map_contents, stem_map_get, StemMap};
use crate::keytao::Stem;
use crate::order::{code_of, lemma_map_perm, phrase_le, sort_phrases, sorted_by};
use rayon::iter::{IntoParallelRefIterator, ParallelIterator};
use vstd::prelude::*;
use vstd::string::StrSliceExecFns;

verus! {

/// The byte of `code` at `i`, if there is one.
pub open spec fn at(code: Seq<u8>, i: int) -> Option<u8> {
    if 0 <= i < code.len() {
        Some(code[i])
    } else {
        None
    }
}

/// The stem agrees with each required byte (`None` requires nothing).
pub open spec fn stem_fits(s: Stem, r0: Option<u8>, r1: Option<u8>, r2: Option<u8>) -> bool {
    &&& (r0 matches Some(v) ==> s[0] == v)
    &&& (r1 matches Some(v) ==> s[1] == v)
    &&& (r2 matches Some(v) ==> s[2] == v)
}

/// The character `c` has a stem that fits the required bytes.
pub open spec fn slot_ok_spec(
    stems: Map<char, Seq<Stem>>,
    c: char,
    r0: Option<u8>,
    r1: Option<u8>,
    r2: Option<u8>,
) -> bool {
    stems.contains_key(c) && exists|j: int|
        0 <= j < stems[c].len() && stem_fits(#[trigger] stems[c][j], r0, r1, r2)
}

/// A phrase's code follows from its characters' stems:
/// - two characters: the first two bytes of each stem, then the third byte
///   of each (code positions 0 1 | 2 3 | 4 | 5);
/// - three characters: the first byte of each, then the third byte of each
///   (0 | 1 | 2 | 3 4 5);
/// - four or more: the first byte of the first three and of the last
///   character, then the third byte of the first two (0 1 2 3 | 4 5).
/// A position past the end of the code requires nothing.
pub open spec fn correct_spec(e: Phrase, stems: Map<char, Seq<Stem>>) -> bool {
    let t = e.text@;
    let c = code_of(e);
    if t.len() < 2 {
        false
    } else if t.len() == 2 {
        slot_ok_spec(stems, t[0], at(c, 0), at(c, 1), at(c, 4)) && slot_ok_spec(
            stems,
            t[1],
            at(c, 2),
            at(c, 3),
            at(c, 5),
        )
    } else if t.len() == 3 {
        &&& slot_ok_spec(stems, t[0], at(c, 0), None, at(c, 3))
        &&& slot_ok_spec(stems, t[1], at(c, 1), None, at(c, 4))
        &&& slot_ok_spec(stems, t[2], at(c, 2), None, at(c, 5))
    } else {
        &&& slot_ok_spec(stems, t[0], at(c, 0), None, at(c, 4))
        &&& slot_ok_spec(stems, t[1], at(c, 1), None, at(c, 5))
        &&& slot_ok_spec(stems, t[2], at(c, 2), None, None)
        &&& slot_ok_spec(stems, t.last(), at(c, 3), None, None)
    }
}

fn at_exec(code: &[u8], i: usize) -> (r: Option<u8>)
    ensures
        r == at(code@, i as int),
{
    if i < code.len() {
        Some(code[i])
    } else {
        None
    }
}

fn fits(s: &Stem, r0: Option<u8>, r1: Option<u8>, r2: Option<u8>) -> (r: bool)
    ensures
        r == stem_fits(*s, r0, r1, r2),
{
    (match r0 {
        Some(v) => s[0] == v,
        None => true,
    }) && (match r1 {
        Some(v) => s[1] == v,
        None => true,
    }) && (match r2 {
        Some(v) => s[2] == v,
        None => true,
    })
}

/// Whether character `c` has a stem that fits the required bytes.
pub fn slot_ok(stems: &StemMap, c: char, r0: Option<u8>, r1: Option<u8>, r2: Option<u8>) -> (r:
    bool)
    ensures
        r == slot_ok_spec(stem_map_contents(*stems), c, r0, r1, r2),
{
    let v = match stem_map_get(stems, c) {
        None => return false,
        Some(v) => v,
    };
    let mut i: usize = 0;
    while i < v.len()
        invariant
            v@ == stem_map_contents(*stems)[c],
            stem_map_contents(*stems).contains_key(c),
            i <= v@.len(),
            forall|j: int| 0 <= j < i ==> !stem_fits(#[trigger] v@[j], r0, r1, r2),
        decreases v.len() - i,
    {
        if fits(&v[i], r0, r1, r2) {
            return true;
        }
        i += 1;
    }
    false
}

/// Whether the phrase's code follows from its characters' stems.
pub fn is_correct(e: &Phrase, stems: &StemMap) -> (r: bool)
    ensures
        r == correct_spec(*e, stem_map_contents(*stems)),
{
    let code = e.code.as_str().as_bytes();
    let text = e.text.as_str();
    let n = text.unicode_len();
    if n < 2 {
        return false;
    }
    let c0 = text.get_char(0);
    let c1 = text.get_char(1);
    if n == 2 {
        slot_ok(stems, c0, at_exec(code, 0), at_exec(code, 1), at_exec(code, 4)) && slot_ok(
            stems,
            c1,
            at_exec(code, 2),
            at_exec(code, 3),
            at_exec(code, 5),
        )
    } else if n == 3 {
        let c2 = text.get_char(2);
        slot_ok(stems, c0, at_exec(code, 0), None, at_exec(code, 3)) && slot_ok(
            stems,
            c1,
            at_exec(code, 1),
            None,
            at_exec(code, 4),
        ) && slot_ok(stems, c2, at_exec(code, 2), None, at_exec(code, 5))
    } else {
        let c2 = text.get_char(2);
        let c3 = text.get_char(n - 1);
        slot_ok(stems, c0, at_exec(code, 0), None, at_exec(code, 4)) && slot_ok(
            stems,
            c1,
            at_exec(code, 1),
            None,
            at_exec(code, 5),
        ) && slot_ok(stems, c2, at_exec(code, 2), None, None) && slot_ok(
            stems,
            c3,
            at_exec(code, 3),
            None,
            None,
        )
    }
}

/// Whether the phrase's code does not follow from its characters' stems.
pub fn is_anomalous(e: &Phrase, stems: &StemMap) -> (r: bool)
    ensures
        r == !correct_spec(*e, stem_map_contents(*stems)),
{
    !is_correct(e, stems)
}

/// `par_iter().filter(..).collect()` (rayon) with `is_anomalous` as the
/// filter: the anomalous phrases, in table order (rayon's `collect` into a
/// `Vec` keeps the order of the items).
#[verifier::external_body]
fn par_filter_anomalous<'a>(phrases: &'a [Phrase], stems: &StemMap) -> (r: Vec<&'a Phrase>)
    ensures
        r@.map_values(|e: &Phrase| *e) == phrases@.filter(
            |e: Phrase| !correct_spec(e, stem_map_contents(*stems)),
        ),
{
    phrases.par_iter().filter(|e| is_anomalous(e, stems)).collect()
}

/// The phrases whose code does not follow from their characters' stems,
/// sorted by text and then by code.
pub fn check<'a>(phrases: &'a [Phrase], stems: &StemMap) -> (r: Vec<&'a Phrase>)
    ensures
        r@.map_values(|e: &Phrase| *e).to_multiset() == phrases@.filter(
            |e: Phrase| !correct_spec(e, stem_map_contents(*stems)),
        ).to_multiset(),
        sorted_by(r@, |a: &Phrase, b: &Phrase| phrase_le(*a, *b)),
{
    let mut result = par_filter_anomalous(phrases, stems);
    let ghost before = result@;
    sort_phrases(&mut result);
    proof {
        lemma_map_perm(before, result@, |e: &Phrase| *e);
    }
    result
}

} // verus!
