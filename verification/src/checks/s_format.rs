//! Single characters whose code is not a prefix of
//! `<2 sound elements><2 to 4 shape elements>` (编码形式异常).

use crate::entry::Single;
use crate::keytao::{is_xm, is_ym, spec_is_xm, spec_is_ym};
use crate::order::code_of;
use vstd::prelude::*;

verus! {

/// A well-formed code of a single character: one sound element, or two
/// sound elements followed by at most four shape elements.
pub open spec fn valid_spec(code: Seq<u8>) -> bool {
    if code.len() == 1 {
        spec_is_ym(code[0])
    } else if 2 <= code.len() <= 6 {
        &&& spec_is_ym(code[0])
        &&& spec_is_ym(code[1])
        &&& forall|i: int| 2 <= i < code.len() ==> spec_is_xm(#[trigger] code[i])
    } else {
        false
    }
}

pub fn valid(code: &[u8]) -> (r: bool)
    ensures
        r == valid_spec(code@),
{
    if code.len() == 1 {
        return is_ym(code[0]);
    }
    if code.len() < 2 || code.len() > 6 || !is_ym(code[0]) || !is_ym(code[1]) {
        return false;
    }
    let mut i: usize = 2;
    while i < code.len()
        invariant
            2 <= i <= code@.len(),
            forall|j: int| 2 <= j < i ==> spec_is_xm(#[trigger] code@[j]),
        decreases code.len() - i,
    {
        if !is_xm(code[i]) {
            return false;
        }
        i += 1;
    }
    true
}

/// The single characters whose code is malformed, in table order.
pub fn check<'a>(singles: &'a [Single]) -> (r: Vec<&'a Single>)
    ensures
        r@.map_values(|e: &Single| *e) == singles@.filter(|e: Single| !valid_spec(code_of(e))),
{
    let ghost p = |e: Single| !valid_spec(code_of(e));
    let mut r: Vec<&Single> = Vec::new();
    let mut i: usize = 0;
    while i < singles.len()
        invariant
            i <= singles@.len(),
            p == (|e: Single| !valid_spec(code_of(e))),
            r@.map_values(|e: &Single| *e) == singles@.take(i as int).filter(p),
        decreases singles.len() - i,
    {
        proof {
            assert(singles@.take(i + 1) =~= singles@.take(i as int).push(singles@[i as int]));
            singles@.take(i as int).lemma_filter_push(singles@[i as int], p);
        }
        let ghost old_r = r@;
        let b = singles[i].code.as_str().as_bytes();
        assert(b@ == code_of(singles@[i as int]));
        if !valid(b) {
            r.push(&singles[i]);
            assert(r@.map_values(|e: &Single| *e) =~= old_r.map_values(|e: &Single| *e).push(
                singles@[i as int],
            ));
            assert(p(singles@[i as int]));
            assert(singles@.take(i + 1).filter(p) == singles@.take(i as int).filter(p).push(singles@[i as int]));
        } else {
            assert(r@ == old_r);
            assert(!p(singles@[i as int]));
            assert(singles@.take(i + 1).filter(p) == singles@.take(i as int).filter(p));
        }
        assert(r@.map_values(|e: &Single| *e) =~= singles@.take(i + 1).filter(p));
        i += 1;
    }
    assert(singles@.take(singles@.len() as int) =~= singles@);
    r
}

} // verus!
