//! Orphaned full codes (孤立全码) of single characters: a full code none of
//! whose proper prefixes is a code of the same character, while one of them
//! is no code at all.

use crate::chains::{proper_prefix, run_has_extension};
use crate::codesets::{code_sets, keyed_short, key_set_of, num_code, num_code_of, num_orphan, pair_set_of, short_entries, short_keyable};
use crate::entry::Single;
use crate::groups::{
    lemma_refs_contain, lemma_single_group_exists, lemma_single_sorted_by_text, lemma_sorted_filter,
    single_group, single_group_end,
};
use crate::hashing::{key_set_contains, key_set_contents, pair_set_contains, pair_set_contents, KeySet, PairSet};
use crate::keys::{append_key, key_of, keyable, lemma_key_take, lemma_key_wide_bound, pack_pair};
use crate::codesets::{lemma_num_pair_query, lemma_num_query};
use crate::keytao::MAX_CODE_N;
use crate::order::{code_of, lemma_filter_map_commute, lemma_filter_perm, lemma_map_perm, single_le, sort_singles, sorted_by};
use vstd::prelude::*;

verus! {

broadcast use vstd::seq_lib::group_seq_properties;

/// Some entry of `t` has a code that `c` is a proper prefix of.
pub open spec fn extended(es: Seq<Single>, t: char, c: Seq<u8>) -> bool {
    exists|m: int| 0 <= m < es.len() && (#[trigger] es[m]).text == t && proper_prefix(c, code_of(es[m]))
}

/// The entry's code is a full code of its character, and orphaned.
pub open spec fn orphaned(es: Seq<Single>, x: Single) -> bool {
    !extended(es, x.text, code_of(x)) && num_orphan(es, x.text, code_of(x))
}

/// Whether the code `code` of `text` is orphaned among the entries `es`,
/// whose codes and pairs of character and code the sets hold.
fn is_orphan(text: char, code: &[u8], used: &KeySet, pairs: &PairSet, Ghost(es): Ghost<Seq<Single>>) -> (r: bool)
    requires
        keyed_short(es),
        key_set_of(key_set_contents(*used), es),
        pair_set_of(pair_set_contents(*pairs), es),
        keyable(code@),
        code@.len() <= MAX_CODE_N,
    ensures
        r == num_orphan(es, text, code@),
{
    let n = code.len();
    let last = if n > 0 {
        n - 1
    } else {
        0
    };
    let mut k: u32 = 0;
    let mut idle = false;
    let mut j: usize = 0;
    while j < last
        invariant
            keyed_short(es),
            key_set_of(key_set_contents(*used), es),
            pair_set_of(pair_set_contents(*pairs), es),
            keyable(code@),
            n == code@.len() <= MAX_CODE_N,
            last == if n > 0 { n - 1 } else { 0 },
            j <= last,
            k == key_of(code@.take(j as int)),
            forall|m: int| 1 <= m <= j ==> !num_code_of(es, text, #[trigger] code@.take(m)),
            idle == exists|m: int| 1 <= m <= j && !num_code(es, #[trigger] code@.take(m)),
        decreases last - j,
    {
        let ghost p = code@.take(j + 1);
        proof {
            lemma_key_take(code@, j as int);
            assert(keyable(p));
            lemma_key_wide_bound(p);
        }
        k = append_key(k, code[j]);
        proof {
            lemma_num_pair_query(pair_set_contents(*pairs), es, text, p);
            lemma_num_query(key_set_contents(*used), es, p);
        }
        if pair_set_contains(pairs, pack_pair(text, k)) {
            assert(num_code_of(es, text, code@.take(j + 1)));
            return false;
        }
        if !key_set_contains(used, k) {
            idle = true;
        }
        j += 1;
    }
    proof {
        if idle {
            let m = choose|m: int| 1 <= m <= j && !num_code(es, #[trigger] code@.take(m));
            assert(1 <= m < code@.len());
        }
    }
    idle
}

/// Whether the entry at `j` of the run `lo..hi` of the sorted entries is
/// orphaned.
fn orphaned_at(
    es: &Vec<&Single>,
    lo: usize,
    hi: usize,
    j: usize,
    used: &KeySet,
    pairs: &PairSet,
    Ghost(ents): Ghost<Seq<Single>>,
) -> (r: bool)
    requires
        es@.map_values(|e: &Single| *e).to_multiset() == ents.to_multiset(),
        sorted_by(es@, |a: &Single, b: &Single| a.text <= b.text),
        single_group(es@, lo as int, hi as int),
        lo <= j < hi,
        keyed_short(ents),
        key_set_of(key_set_contents(*used), ents),
        pair_set_of(pair_set_contents(*pairs), ents),
    ensures
        r == orphaned(ents, *es@[j as int]),
{
    let x = es[j];
    let c = x.code.as_str().as_bytes();
    let ghost t = x.text;
    let ghost cb = code_of(*x);
    assert(c@ == cb);
    proof {
        lemma_refs_contain(ents, es@, *x);
        let m = choose|m: int| 0 <= m < ents.len() && ents[m] == *x;
        assert(keyed_short(ents) ==> keyable(code_of(ents[m])));
        assert(t == es@[lo as int].text);
        let pe = |y: Single| y.text == t && proper_prefix(cb, code_of(y));
        lemma_single_group_exists(ents, es@, lo as int, hi as int, pe);
        if extended(ents, t, cb) {
            let i = choose|i: int| 0 <= i < ents.len() && (#[trigger] ents[i]).text == t && proper_prefix(cb, code_of(ents[i]));
            assert(pe(ents[i]));
        }
        if exists|i: int| 0 <= i < ents.len() && #[trigger] pe(ents[i]) {
            let i = choose|i: int| 0 <= i < ents.len() && #[trigger] pe(ents[i]);
            assert(ents[i].text == t && proper_prefix(cb, code_of(ents[i])));
        }
    }
    if run_has_extension(es, lo, hi, c) {
        proof {
            let pe = |y: Single| y.text == t && proper_prefix(cb, code_of(y));
            let jj = choose|jj: int| lo <= jj < hi && proper_prefix(c@, code_of(*(#[trigger] es@[jj])));
            assert(pe(*es@[jj]));
        }
        return false;
    }
    proof {
        let pe = |y: Single| y.text == t && proper_prefix(cb, code_of(y));
        assert forall|jj: int| lo <= jj < hi implies !#[trigger] pe(*es@[jj]) by {
            assert(!proper_prefix(c@, code_of(*es@[jj])));
        }
    }
    is_orphan(x.text, c, used, pairs, Ghost(ents))
}

/// The entries (with codes of at most six bytes) whose full code is
/// orphaned, in order of character and then of code.
pub fn check<'a>(singles: &'a [Single]) -> (r: Vec<&'a Single>)
    requires
        short_keyable(singles@),
    ensures
        r@.map_values(|e: &Single| *e).to_multiset() == short_entries(singles@).filter(
            |x: Single| orphaned(short_entries(singles@), x),
        ).to_multiset(),
        sorted_by(r@, |a: &Single, b: &Single| single_le(*a, *b)),
{
    let ghost ents = short_entries(singles@);
    let (mut es, used, pairs) = code_sets(singles);
    let ghost before = es@;
    sort_singles(&mut es);
    proof {
        lemma_map_perm(before, es@, |e: &Single| *e);
        lemma_single_sorted_by_text(es@);
    }
    let ghost rp = |x: &Single| orphaned(ents, *x);
    let n = es.len();
    let mut result: Vec<&Single> = Vec::new();
    let mut lo: usize = 0;
    while lo < n
        invariant
            n == es@.len(),
            lo <= n,
            ents == short_entries(singles@),
            es@.map_values(|e: &Single| *e).to_multiset() == ents.to_multiset(),
            sorted_by(es@, |a: &Single, b: &Single| single_le(*a, *b)),
            sorted_by(es@, |a: &Single, b: &Single| a.text <= b.text),
            keyed_short(ents),
            key_set_of(key_set_contents(used), ents),
            pair_set_of(pair_set_contents(pairs), ents),
            lo == 0 || lo == n || es@[lo - 1].text != es@[lo as int].text,
            rp == (|x: &Single| orphaned(ents, *x)),
            result@ == es@.take(lo as int).filter(rp),
        decreases n - lo,
    {
        let hi = single_group_end(&es, lo);
        let mut j = lo;
        while j < hi
            invariant
                es@.map_values(|e: &Single| *e).to_multiset() == ents.to_multiset(),
                sorted_by(es@, |a: &Single, b: &Single| a.text <= b.text),
                single_group(es@, lo as int, hi as int),
                keyed_short(ents),
                key_set_of(key_set_contents(used), ents),
                pair_set_of(pair_set_contents(pairs), ents),
                lo <= j <= hi,
                rp == (|x: &Single| orphaned(ents, *x)),
                result@ == es@.take(j as int).filter(rp),
            decreases hi - j,
        {
            proof {
                assert(es@.take(j + 1) =~= es@.take(j as int).push(es@[j as int]));
                es@.take(j as int).lemma_filter_push(es@[j as int], rp);
            }
            if orphaned_at(&es, lo, hi, j, &used, &pairs, Ghost(ents)) {
                result.push(es[j]);
            }
            j += 1;
        }
        proof {
            if hi < n {
                assert(es@[hi - 1].text == es@[lo as int].text);
            }
        }
        lo = hi;
    }
    proof {
        assert(es@.take(n as int) =~= es@);
        let q = |x: Single| orphaned(ents, x);
        let f = |e: &Single| *e;
        lemma_filter_map_commute(es@, f, q);
        assert((|x: &Single| q(f(x))) =~= rp);
        lemma_filter_perm(es@.map_values(f), ents, q);
        lemma_sorted_filter(es@, |a: &Single, b: &Single| single_le(*a, *b), rp);
    }
    result
}

} // verus!
