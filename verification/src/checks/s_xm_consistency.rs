//! Inconsistent shape parts (形码段冲突) of single characters, in order of
//! character.

use crate::entry::Single;
use crate::order::{lemma_map_perm, sort_singles_by_text, sorted_by};
use crate::shapes::{conflicted, is_conflicted, shape_states};
use vstd::prelude::*;

verus! {

broadcast use vstd::seq_lib::group_seq_properties;

/// The entries of characters whose shape parts do not lie on one chain, in
/// order of character.
pub fn check<'a>(singles: &'a [Single]) -> (r: Vec<&'a Single>)
    ensures
        r@.map_values(|e: &Single| *e).to_multiset() == singles@.filter(
            |x: Single| conflicted(singles@, x.text),
        ).to_multiset(),
        sorted_by(r@, |a: &Single, b: &Single| a.text <= b.text),
{
    let ghost ss = singles@;
    let ghost cp = |x: Single| conflicted(ss, x.text);
    let (states, _) = shape_states(singles);
    let mut res: Vec<&Single> = Vec::new();
    let mut i: usize = 0;
    while i < singles.len()
        invariant
            i <= ss.len(),
            ss == singles@,
            crate::shapes::states_describe(crate::hashing::shape_states_contents(states), ss),
            cp == (|x: Single| conflicted(ss, x.text)),
            res@.map_values(|e: &Single| *e) == ss.take(i as int).filter(cp),
        decreases singles.len() - i,
    {
        let e = &singles[i];
        proof {
            assert(ss.take(i + 1) =~= ss.take(i as int).push(*e));
            ss.take(i as int).lemma_filter_push(*e, cp);
        }
        if is_conflicted(&states, e.text, Ghost(ss)) {
            let ghost old_res = res@;
            res.push(e);
            assert(res@.map_values(|e: &Single| *e) =~= old_res.map_values(|e: &Single| *e).push(*e));
        }
        i += 1;
    }
    assert(ss.take(ss.len() as int) =~= ss);
    let ghost before = res@;
    sort_singles_by_text(&mut res);
    proof {
        lemma_map_perm(before, res@, |e: &Single| *e);
    }
    res
}

} // verus!
