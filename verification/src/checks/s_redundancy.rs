//! Redundant entries (词条冗余) of single characters: a full code whose code
//! chain holds more than two entries.

use crate::chains::{
    cnt, has_code, is_full, pref_total, proper_prefix, run_count_code, run_count_prefixes, run_has_extension,
};
use crate::entry::Single;
use crate::groups::{lemma_refs_contain, lemma_single_group_count, lemma_single_group_exists, single_group, single_group_end, sorted_refs};
use crate::order::{
    bytes_eq, bytes_lt, code_of, lemma_bytes_le_antisym, lemma_bytes_le_refl, lemma_bytes_le_trans,
    single_le, sorted_by,
};
use vstd::prelude::*;

verus! {

broadcast use vstd::seq_lib::group_seq_properties;

/// `c` is a full code of character `t`, and its chain (the entries of `t`
/// with code `c` or with a proper prefix of it) holds more than two entries.
pub open spec fn overfull(ss: Seq<Single>, t: char, c: Seq<u8>) -> bool {
    is_full(ss, t, c) && cnt(ss, t, c) + pref_total(ss, t, c) > 2
}

/// Entries of `t` whose code is a non-empty prefix of `f` of at most `m`
/// bytes.
pub open spec fn pref_upto(ss: Seq<Single>, t: char, f: Seq<u8>, m: int) -> nat {
    ss.filter(|e: Single| e.text == t && 0 < code_of(e).len() <= m && code_of(e).is_prefix_of(f)).len()
}

/// Walking the prefixes of the code `c` of `t` from the shortest, the
/// chain is already found crowded before the prefix of `n` bytes: for some
/// shorter prefix that is a code of `t`, the entries of `c` and of its
/// prefixes up to that one number more than two.
pub open spec fn crowded_before(ss: Seq<Single>, t: char, c: Seq<u8>, n: int) -> bool {
    exists|m: int|
        1 <= m < n && #[trigger] has_code(ss, t, c.take(m)) && cnt(ss, t, c) + pref_upto(ss, t, c, m) > 2
}

/// Every prefix of a full code that the check cuts off ends on a character
/// boundary: wherever the prefix of `n` bytes would end inside a character,
/// the chain is already found crowded before it.
pub open spec fn cuttable_chains(ss: Seq<Single>) -> bool {
    forall|i: int, n: int|
        0 <= i < ss.len() && is_full(ss, ss[i].text, code_of(ss[i])) && 1 <= n < code_of(ss[i]).len()
            && !#[trigger] vstd::utf8::is_char_boundary(code_of(ss[i]), n) ==> crowded_before(
            ss,
            ss[i].text,
            code_of(ss[i]),
            n,
        )
}

/// Strictly before by character, then by code.
pub open spec fn pair_lt(a: Single, b: Single) -> bool {
    a.text < b.text || (a.text == b.text && bytes_lt(code_of(a), code_of(b)))
}

/// Same character and same code.
pub open spec fn same_pair(a: Single, b: Single) -> bool {
    a.text == b.text && code_of(a) == code_of(b)
}

proof fn lemma_le_trans(a: Single, b: Single, c: Single)
    requires
        single_le(a, b),
        single_le(b, c),
    ensures
        single_le(a, c),
{
    if a.text == c.text {
        lemma_bytes_le_trans(code_of(a), code_of(b), code_of(c));
    }
}

proof fn lemma_le_lt(a: Single, b: Single, c: Single)
    requires
        single_le(a, b),
        pair_lt(b, c),
    ensures
        pair_lt(a, c),
{
    if a.text == c.text {
        lemma_bytes_le_trans(code_of(a), code_of(b), code_of(c));
        if code_of(a) == code_of(c) {
            lemma_bytes_le_antisym(code_of(b), code_of(c));
        }
    }
}

/// What the entries `res` gathered from the first `j` sorted entries `es`
/// are: overfull, one per character and code, in order, and each overfull
/// pair met so far among them.
spec fn collected(ss: Seq<Single>, es: Seq<&Single>, res: Seq<&Single>, j: int) -> bool {
    &&& forall|k: int|
        0 <= k < res.len() ==> es.contains(#[trigger] res[k]) && overfull(
            ss,
            res[k].text,
            code_of(*res[k]),
        )
    &&& forall|i: int, k: int| 0 <= i < k < res.len() ==> pair_lt(*#[trigger] res[i], *#[trigger] res[k])
    &&& res.len() > 0 ==> j > 0
    &&& j > 0 ==> forall|k: int| 0 <= k < res.len() ==> single_le(*#[trigger] res[k], *es[j - 1])
    &&& forall|m: int|
        0 <= m < j && overfull(ss, (#[trigger] es[m]).text, code_of(*es[m])) ==> exists|k: int|
            0 <= k < res.len() && same_pair(*#[trigger] res[k], *es[m])
}

/// Whether the entry at `j`, the first of its code in the run `lo..hi`,
/// has an overfull code.
fn overfull_at(singles: &[Single], es: &Vec<&Single>, lo: usize, hi: usize, j: usize) -> (r: bool)
    requires
        es@.map_values(|e: &Single| *e).to_multiset() == singles@.to_multiset(),
        sorted_by(es@, |a: &Single, b: &Single| a.text <= b.text),
        single_group(es@, lo as int, hi as int),
        lo <= j < hi,
    ensures
        r == overfull(singles@, es@[j as int].text, code_of(*es@[j as int])),
{
    let ghost ss = singles@;
    let ghost t = es@[j as int].text;
    let c = es[j].code.as_str().as_bytes();
    let ghost cb = code_of(*es@[j as int]);
    assert(c@ == cb);
    assert(t == es@[lo as int].text);
    proof {
        let pc = |y: Single| y.text == t && code_of(y) == cb;
        lemma_single_group_exists(ss, es@, lo as int, hi as int, pc);
        assert(pc(*es@[j as int]));
        let i = choose|i: int| 0 <= i < ss.len() && #[trigger] pc(ss[i]);
        assert(ss[i].text == t && code_of(ss[i]) == cb);
        let pe = |y: Single| y.text == t && proper_prefix(cb, code_of(y));
        lemma_single_group_exists(ss, es@, lo as int, hi as int, pe);
        if exists|i: int| 0 <= i < ss.len() && (#[trigger] ss[i]).text == t && proper_prefix(cb, code_of(ss[i])) {
            let i = choose|i: int| 0 <= i < ss.len() && (#[trigger] ss[i]).text == t && proper_prefix(cb, code_of(ss[i]));
            assert(pe(ss[i]));
        }
        if exists|jj: int| lo <= jj < hi && #[trigger] pe(*es@[jj]) {
            let jj = choose|jj: int| lo <= jj < hi && #[trigger] pe(*es@[jj]);
            assert(ss.len() > 0);
            let i = choose|i: int| 0 <= i < ss.len() && #[trigger] pe(ss[i]);
            assert(ss[i].text == t && proper_prefix(cb, code_of(ss[i])));
        }
    }
    if run_has_extension(es, lo, hi, c) {
        proof {
            let pe = |y: Single| y.text == t && proper_prefix(cb, code_of(y));
            let jj = choose|jj: int| lo <= jj < hi && proper_prefix(c@, code_of(*(#[trigger] es@[jj])));
            assert(pe(*es@[jj]));
        }
        return false;
    }
    proof {
        let pe = |y: Single| y.text == t && proper_prefix(cb, code_of(y));
        assert forall|jj: int| lo <= jj < hi implies !#[trigger] pe(*es@[jj]) by {
            assert(!proper_prefix(c@, code_of(*es@[jj])));
        }
    }
    let k = run_count_code(es, lo, hi, c);
    let p = run_count_prefixes(es, lo, hi, c);
    proof {
        let pk = |y: Single| y.text == t && code_of(y) == cb;
        lemma_single_group_count(ss, es@, lo as int, hi as int, pk);
        assert(pk =~= (|x: Single| x.text == es@[lo as int].text && code_of(x) == c@));
        assert(pk =~= (|e: Single| e.text == t && code_of(e) == cb));
        let pp = |y: Single| y.text == t && proper_prefix(code_of(y), cb);
        lemma_single_group_count(ss, es@, lo as int, hi as int, pp);
        assert(pp =~= (|x: Single| x.text == es@[lo as int].text && proper_prefix(code_of(x), c@)));
        assert(pp =~= (|e: Single| e.text == t && proper_prefix(code_of(e), cb)));
    }
    if k > 2 {
        true
    } else {
        p > 2 - k
    }
}

/// One entry for each full code of a character whose chain holds more
/// than two entries, in order of character and then of code.
pub fn check<'a>(singles: &'a [Single]) -> (r: Vec<&'a Single>)
    requires
        cuttable_chains(singles@),
    ensures
        forall|k: int|
            0 <= k < r@.len() ==> singles@.contains(*#[trigger] r@[k]) && overfull(
                singles@,
                r@[k].text,
                code_of(*r@[k]),
            ),
        forall|i: int, k: int| 0 <= i < k < r@.len() ==> pair_lt(*#[trigger] r@[i], *#[trigger] r@[k]),
        forall|x: Single|
            #![trigger singles@.contains(x)]
            singles@.contains(x) && overfull(singles@, x.text, code_of(x)) ==> exists|k: int|
                0 <= k < r@.len() && same_pair(*#[trigger] r@[k], x),
{
    let ghost ss = singles@;
    let es = sorted_refs(singles);
    let n = es.len();
    let mut result: Vec<&Single> = Vec::new();
    let mut lo: usize = 0;
    while lo < n
        invariant
            n == es@.len(),
            lo <= n,
            ss == singles@,
            es@.map_values(|e: &Single| *e).to_multiset() == singles@.to_multiset(),
            sorted_by(es@, |a: &Single, b: &Single| single_le(*a, *b)),
            sorted_by(es@, |a: &Single, b: &Single| a.text <= b.text),
            lo == 0 || lo == n || es@[lo - 1].text != es@[lo as int].text,
            collected(ss, es@, result@, lo as int),
        decreases n - lo,
    {
        let hi = single_group_end(&es, lo);
        let mut j = lo;
        while j < hi
            invariant
                n == es@.len(),
                ss == singles@,
                es@.map_values(|e: &Single| *e).to_multiset() == singles@.to_multiset(),
                sorted_by(es@, |a: &Single, b: &Single| single_le(*a, *b)),
                sorted_by(es@, |a: &Single, b: &Single| a.text <= b.text),
                single_group(es@, lo as int, hi as int),
                lo <= j <= hi,
                collected(ss, es@, result@, j as int),
            decreases hi - j,
        {
            let c = es[j].code.as_str().as_bytes();
            let first = j == lo || !bytes_eq(es[j - 1].code.as_str().as_bytes(), c);
            let ghost x = *es@[j as int];
            proof {
                if j > 0 {
                    assert(single_le(*es@[j - 1], x));
                    if first {
                        if j == lo {
                            assert(es@[j - 1].text != x.text);
                        } else {
                            assert(es@[j - 1].text == x.text);
                        }
                        assert(pair_lt(*es@[j - 1], x));
                    }
                    assert forall|k: int| 0 <= k < result@.len() implies single_le(
                        *#[trigger] result@[k],
                        x,
                    ) by {
                        lemma_le_trans(*result@[k], *es@[j - 1], x);
                    }
                }
            }
            if first && overfull_at(singles, &es, lo, hi, j) {
                let ghost before = result@;
                result.push(es[j]);
                proof {
                    lemma_bytes_le_refl(code_of(x));
                    assert forall|i: int, k: int| 0 <= i < k < result@.len() implies pair_lt(
                        *#[trigger] result@[i],
                        *#[trigger] result@[k],
                    ) by {
                        if k == before.len() {
                            assert(single_le(*before[i], *es@[j - 1]));
                            lemma_le_lt(*before[i], *es@[j - 1], x);
                        } else {
                            assert(pair_lt(*before[i], *before[k]));
                        }
                    }
                    assert forall|k: int| 0 <= k < result@.len() implies single_le(
                        *#[trigger] result@[k],
                        *es@[j as int],
                    ) by {
                        if k < before.len() {
                            assert(single_le(*before[k], x));
                        }
                    }
                    assert forall|m: int|
                        0 <= m < j + 1 && overfull(ss, (#[trigger] es@[m]).text, code_of(*es@[m])) implies exists|k: int|
                        0 <= k < result@.len() && same_pair(*#[trigger] result@[k], *es@[m]) by {
                        if m < j {
                            let k = choose|k: int| 0 <= k < before.len() && same_pair(*#[trigger] before[k], *es@[m]);
                            assert(same_pair(*result@[k], *es@[m]));
                        } else {
                            assert(same_pair(*result@[before.len() as int], *es@[m]));
                        }
                    }
                    assert forall|k: int| 0 <= k < result@.len() implies es@.contains(#[trigger] result@[k]) && overfull(
                        ss,
                        result@[k].text,
                        code_of(*result@[k]),
                    ) by {
                        if k < before.len() {
                            assert(es@.contains(before[k]));
                        } else {
                            assert(es@[j as int] == result@[k]);
                        }
                    }
                }
            } else {
                proof {
                    assert forall|m: int|
                        0 <= m < j + 1 && overfull(ss, (#[trigger] es@[m]).text, code_of(*es@[m])) implies exists|k: int|
                        0 <= k < result@.len() && same_pair(*#[trigger] result@[k], *es@[m]) by {
                        if m == j {
                            if first {
                                assert(false);
                            } else {
                                assert(same_pair(*es@[j - 1], x));
                                assert(overfull(ss, es@[j - 1].text, code_of(*es@[j - 1])));
                                let k = choose|k: int| 0 <= k < result@.len() && same_pair(*#[trigger] result@[k], *es@[j - 1]);
                                assert(same_pair(*result@[k], x));
                            }
                        }
                    }
                }
            }
            j += 1;
        }
        proof {
            if hi < n {
                assert(es@[hi - 1].text == es@[lo as int].text);
            }
        }
        lo = hi;
    }
    proof {
        assert forall|k: int| 0 <= k < result@.len() implies singles@.contains(*#[trigger] result@[k]) by {
            let m = choose|m: int| 0 <= m < es@.len() && es@[m] == result@[k];
            lemma_refs_contain(ss, es@, *result@[k]);
        }
        assert forall|x: Single|
            #![trigger singles@.contains(x)]
            singles@.contains(x) && overfull(singles@, x.text, code_of(x)) implies exists|k: int|
            0 <= k < result@.len() && same_pair(*#[trigger] result@[k], x) by {
            lemma_refs_contain(ss, es@, x);
            let m = choose|m: int| 0 <= m < es@.len() && *(#[trigger] es@[m]) == x;
            assert(overfull(ss, es@[m].text, code_of(*es@[m])));
            let k = choose|k: int| 0 <= k < result@.len() && same_pair(*#[trigger] result@[k], *es@[m]);
            assert(same_pair(*result@[k], x));
        }
    }
    result
}

} // verus!
