//! Short codes (简码) of single characters on a code chain that holds more
//! than one short code.

use crate::chains::{ascii_codes, has_code, pref_total, proper_prefix, run_count_prefixes};
use crate::entry::Single;
use crate::groups::{
    lemma_single_group, lemma_single_group_count, lemma_single_group_exists, lemma_sorted_filter,
    single_group, single_group_end, sorted_refs,
};
use crate::order::{code_of, lemma_filter_map_commute, lemma_filter_perm, single_le, sorted_by, starts_with};
use vstd::prelude::*;

verus! {

broadcast use vstd::seq_lib::group_seq_properties;

/// The entry's code is a short code on the chain of a code of its
/// character that has more than one short code entry.
pub open spec fn redundant(ss: Seq<Single>, x: Single) -> bool {
    exists|c: Seq<u8>|
        #![trigger has_code(ss, x.text, c)]
        has_code(ss, x.text, c) && proper_prefix(code_of(x), c) && pref_total(ss, x.text, c) > 1
}

/// Whether the entry at position `j` of the run `lo..hi` is reported.
fn redundant_at(singles: &[Single], es: &Vec<&Single>, lo: usize, hi: usize, j: usize) -> (r: bool)
    requires
        es@.map_values(|e: &Single| *e).to_multiset() == singles@.to_multiset(),
        sorted_by(es@, |a: &Single, b: &Single| a.text <= b.text),
        single_group(es@, lo as int, hi as int),
        lo <= j < hi,
    ensures
        r == redundant(singles@, *es@[j as int]),
{
    let ghost ss = singles@;
    let x = es[j];
    let ghost t = x.text;
    let xc = x.code.as_str().as_bytes();
    let mut k = lo;
    while k < hi
        invariant
            es@.map_values(|e: &Single| *e).to_multiset() == singles@.to_multiset(),
            sorted_by(es@, |a: &Single, b: &Single| a.text <= b.text),
            single_group(es@, lo as int, hi as int),
            lo <= k <= hi,
            lo <= j < hi,
            ss == singles@,
            x == es@[j as int],
            t == x.text,
            xc@ == code_of(*x),
            forall|kk: int|
                lo <= kk < k ==> !(proper_prefix(code_of(*x), code_of(*(#[trigger] es@[kk])))
                    && pref_total(ss, t, code_of(*es@[kk])) > 1),
        decreases hi - k,
    {
        let f = es[k].code.as_str().as_bytes();
        let ghost fb = code_of(*es@[k as int]);
        assert(f@ == fb);
        if 0 < xc.len() && xc.len() < f.len() && starts_with(f, xc) {
            let pf = run_count_prefixes(es, lo, hi, f);
            proof {
                assert(es@[k as int].text == es@[lo as int].text);
                let p2 = |y: Single| y.text == t && proper_prefix(code_of(y), fb);
                lemma_single_group_count(ss, es@, lo as int, hi as int, p2);
                assert(p2 =~= (|x: Single| x.text == es@[lo as int].text && proper_prefix(code_of(x), f@)));
                assert(p2 =~= (|e: Single| e.text == t && proper_prefix(code_of(e), fb)));
            }
            if pf > 1 {
                proof {
                    lemma_single_group(es@, lo as int, hi as int);
                    let pc = |y: Single| y.text == t && code_of(y) == fb;
                    lemma_single_group_exists(ss, es@, lo as int, hi as int, pc);
                    assert(pc(*es@[k as int]));
                    let i = choose|i: int| 0 <= i < ss.len() && #[trigger] pc(ss[i]);
                    assert(has_code(ss, t, fb));
                }
                return true;
            }
        }
        k += 1;
    }
    proof {
        if redundant(ss, *x) {
            let c = choose|c: Seq<u8>|
                #![trigger has_code(ss, t, c)]
                has_code(ss, t, c) && proper_prefix(code_of(*x), c) && pref_total(ss, t, c) > 1;
            let pc = |y: Single| y.text == t && code_of(y) == c;
            lemma_single_group_exists(ss, es@, lo as int, hi as int, pc);
            let i = choose|i: int| 0 <= i < ss.len() && (#[trigger] ss[i]).text == t && code_of(ss[i]) == c;
            assert(pc(ss[i]));
            let kk = choose|kk: int| lo <= kk < hi && #[trigger] pc(*es@[kk]);
        }
    }
    false
}

/// The short-code entries on code chains with more than one short-code
/// entry, sorted by character and then by code.
pub fn check<'a>(singles: &'a [Single]) -> (r: Vec<&'a Single>)
    requires
        ascii_codes(singles@),
    ensures
        r@.map_values(|e: &Single| *e).to_multiset() == singles@.filter(
            |x: Single| redundant(singles@, x),
        ).to_multiset(),
        sorted_by(r@, |a: &Single, b: &Single| single_le(*a, *b)),
{
    let ghost rp = |x: &Single| redundant(singles@, *x);
    let es = sorted_refs(singles);
    let n = es.len();
    let mut result: Vec<&Single> = Vec::new();
    let mut lo: usize = 0;
    while lo < n
        invariant
            n == es@.len(),
            lo <= n,
            es@.map_values(|e: &Single| *e).to_multiset() == singles@.to_multiset(),
            sorted_by(es@, |a: &Single, b: &Single| a.text <= b.text),
            lo == 0 || lo == n || es@[lo - 1].text != es@[lo as int].text,
            rp == (|x: &Single| redundant(singles@, *x)),
            result@ == es@.take(lo as int).filter(rp),
        decreases n - lo,
    {
        let hi = single_group_end(&es, lo);
        let mut j = lo;
        while j < hi
            invariant
                es@.map_values(|e: &Single| *e).to_multiset() == singles@.to_multiset(),
                sorted_by(es@, |a: &Single, b: &Single| a.text <= b.text),
                single_group(es@, lo as int, hi as int),
                lo <= j <= hi,
                rp == (|x: &Single| redundant(singles@, *x)),
                result@ == es@.take(j as int).filter(rp),
            decreases hi - j,
        {
            proof {
                assert(es@.take(j + 1) =~= es@.take(j as int).push(es@[j as int]));
                es@.take(j as int).lemma_filter_push(es@[j as int], rp);
            }
            if redundant_at(singles, &es, lo, hi, j) {
                result.push(es[j]);
            }
            j += 1;
        }
        proof {
            if hi < n {
                assert(es@[hi - 1].text == es@[lo as int].text);
            }
        }
        lo = hi;
    }
    proof {
        assert(es@.take(n as int) =~= es@);
        let q = |x: Single| redundant(singles@, x);
        let f = |e: &Single| *e;
        lemma_filter_map_commute(es@, f, q);
        assert((|x: &Single| q(f(x))) =~= rp);
        lemma_filter_perm(es@.map_values(f), singles@, q);
        lemma_sorted_filter(es@, |a: &Single, b: &Single| single_le(*a, *b), rp);
    }
    result
}

} // verus!
