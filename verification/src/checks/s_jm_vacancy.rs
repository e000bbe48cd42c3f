//! Vacant short codes (简码空码) of single characters: a code that no entry
//! has, below a short code of a character on the way to one of its longer
//! codes.

use crate::codesets::{
    code_sets, is_code, is_code_of, key_set_of, lemma_key_query, lemma_pair_query, numbered, pair_set_of,
    short, short_entries, short_letters,
};
use crate::entry::Single;
use crate::hashing::{
    key_set_contains, key_set_contents, key_set_insert, key_set_new, pair_set_contains, pair_set_contents,
};
use crate::keys::{append_key, key_of, lemma_key_bound, lemma_key_injective, lemma_key_take, letters, pack_pair};
use crate::keytao::MAX_CODE_N;
use crate::order::{bytes_le, code_of, lemma_map_perm, sort_strs, sorted_by};
use vstd::prelude::*;
use vstd::string::StringSliceAdditionalSpecFns;
use vstd::utf8::encode_utf8;

verus! {

broadcast use vstd::seq_lib::group_seq_properties;

/// The longest proper prefix of `c`, of at most `n` bytes, that is a code
/// of `t`; its length, or 0 when there is none.
pub open spec fn top(es: Seq<Single>, t: char, c: Seq<u8>, n: int) -> int
    decreases n,
{
    if n <= 0 {
        0
    } else if is_code_of(es, t, c.take(n)) {
        n
    } else {
        top(es, t, c, n - 1)
    }
}

/// `p` is a vacant code below the entry `e`: a prefix of its code, shorter
/// than the longest proper prefix that is a code of its character, and no
/// code at all.
pub open spec fn vacancy_of(es: Seq<Single>, e: Single, p: Seq<u8>) -> bool {
    let c = code_of(e);
    &&& short(e)
    &&& 2 <= c.len()
    &&& 1 <= p.len() < top(es, e.text, c, c.len() - 1)
    &&& p == c.take(p.len() as int)
    &&& !is_code(es, p)
}

/// `p` is a vacant code below some entry.
pub open spec fn vacant(es: Seq<Single>, p: Seq<u8>) -> bool {
    exists|m: int| 0 <= m < es.len() && vacancy_of(es, #[trigger] es[m], p)
}

/// What the vacant codes `res` gathered so far are: vacant, made of
/// letters, each once, and their numbers those in `seen`.
spec fn gathered(ents: Seq<Single>, res: Seq<&str>, seen: Set<u32>) -> bool {
    &&& forall|q: int|
        0 <= q < res.len() ==> vacant(ents, (#[trigger] res[q]).spec_bytes()) && letters(res[q].spec_bytes())
            && res[q].spec_bytes().len() <= MAX_CODE_N
    &&& forall|a: int, b: int|
        0 <= a < b < res.len() ==> (#[trigger] res[a]).spec_bytes() != (#[trigger] res[b]).spec_bytes()
    &&& forall|k: u32|
        #[trigger] seen.contains(k) <==> exists|q: int| 0 <= q < res.len() && key_of((#[trigger] res[q]).spec_bytes()) == k
}

/// Some gathered code is `p`.
spec fn holds(res: Seq<&str>, p: Seq<u8>) -> bool {
    exists|q: int| 0 <= q < res.len() && (#[trigger] res[q]).spec_bytes() == p
}

/// The vacant short codes: codes that no entry has, each a proper prefix of
/// the code of an entry (of at most six bytes) and shorter than the longest
/// proper prefix of it that is a code of the entry's character. Each comes
/// once, in byte order.
pub fn check<'a>(singles: &'a [Single]) -> (r: Vec<&'a str>)
    requires
        short_letters(singles@),
    ensures
        forall|q: int| 0 <= q < r@.len() ==> vacant(short_entries(singles@), (#[trigger] r@[q]).spec_bytes()),
        forall|p: Seq<u8>| vacant(short_entries(singles@), p) ==> exists|q: int| 0 <= q < r@.len() && (#[trigger] r@[q]).spec_bytes() == p,
        forall|a: int, b: int| 0 <= a < b < r@.len() ==> (#[trigger] r@[a]).spec_bytes() != (#[trigger] r@[b]).spec_bytes(),
        sorted_by(r@, |a: &str, b: &str| bytes_le(encode_utf8(a@), encode_utf8(b@))),
{
    broadcast use vstd::utf8::encode_utf8_valid_utf8;

    let ghost ents = short_entries(singles@);
    let ghost sp = |e: Single| short(e);
    let (_, used, pairs) = code_sets(singles);
    let mut seen = key_set_new(0);
    let mut result: Vec<&'a str> = Vec::new();
    let mut i: usize = 0;
    while i < singles.len()
        invariant
            i <= singles@.len(),
            short_letters(singles@),
            ents == short_entries(singles@),
            sp == (|e: Single| short(e)),
            ents == singles@.filter(sp),
            numbered(ents),
            key_set_of(key_set_contents(used), ents),
            pair_set_of(pair_set_contents(pairs), ents),
            gathered(ents, result@, key_set_contents(seen)),
            forall|ii: int, p: Seq<u8>|
                0 <= ii < i && #[trigger] vacancy_of(ents, singles@[ii], p) ==> holds(result@, p),
        decreases singles.len() - i,
    {
        let e = &singles[i];
        let c = e.code.as_str().as_bytes();
        let ghost cb = code_of(*e);
        assert(c@ == cb);
        let n = c.len();
        if n < 2 || n > MAX_CODE_N {
            i += 1;
            continue;
        }
        proof {
            assert(short(*e));
            assert(letters(cb));
            singles@.lemma_filter_contains(sp, i as int);
            assert(ents.contains(*e));
        }
        let ghost em = choose|em: int| 0 <= em < ents.len() && ents[em] == *e;
        let mut k: u32 = 0;
        let mut m: usize = 0;
        let mut j: usize = 0;
        while j < n - 1
            invariant
                2 <= n <= MAX_CODE_N,
                n == cb.len(),
                c@ == cb,
                letters(cb),
                numbered(ents),
                pair_set_of(pair_set_contents(pairs), ents),
                j <= n - 1,
                k == key_of(cb.take(j as int)),
                m == top(ents, e.text, cb, j as int),
                m <= j,
            decreases n - 1 - j,
        {
            let ghost p = cb.take(j + 1);
            proof {
                lemma_key_take(cb, j as int);
                assert(letters(p));
                lemma_key_bound(p);
                lemma_pair_query(pair_set_contents(pairs), ents, e.text, p);
            }
            k = append_key(k, c[j]);
            if pair_set_contains(&pairs, pack_pair(e.text, k)) {
                m = j + 1;
            }
            j += 1;
        }
        let mut k: u32 = 0;
        let mut j: usize = 0;
        while j + 1 < m
            invariant
                2 <= n <= MAX_CODE_N,
                n == cb.len(),
                c@ == cb,
                cb == code_of(*e),
                i < singles@.len(),
                *e == singles@[i as int],
                letters(cb),
                short(*e),
                0 <= em < ents.len(),
                ents[em] == *e,
                numbered(ents),
                key_set_of(key_set_contents(used), ents),
                m == top(ents, e.text, cb, n - 1),
                m <= n - 1,
                j + 1 <= m || j == 0,
                k == key_of(cb.take(j as int)),
                gathered(ents, result@, key_set_contents(seen)),
                forall|l: int|
                    1 <= l <= j && !is_code(ents, #[trigger] cb.take(l)) ==> holds(result@, cb.take(l)),
                forall|ii: int, p: Seq<u8>|
                    0 <= ii < i && #[trigger] vacancy_of(ents, singles@[ii], p) ==> holds(result@, p),
            decreases m - j,
        {
            let ghost p = cb.take(j + 1);
            proof {
                lemma_key_take(cb, j as int);
                assert(letters(p));
                lemma_key_bound(p);
                lemma_key_query(key_set_contents(used), ents, p);
            }
            k = append_key(k, c[j]);
            let ghost old_seen = key_set_contents(seen);
            let ghost old_res = result@;
            if !key_set_contains(&used, k) {
                if key_set_insert(&mut seen, k) {
                    proof {
                        vstd::utf8::encode_utf8_valid_utf8(e.code@);
                        vstd::utf8::is_char_boundary_iff_not_is_continuation_byte(cb, j + 1);
                        assert(!vstd::utf8::is_continuation_byte(cb[j + 1]));
                    }
                    let (head, _) = e.code.as_str().split_at(j + 1);
                    result.push(head);
                    proof {
                        assert(head.spec_bytes() =~= p);
                        assert(vacancy_of(ents, ents[em], p));
                        assert(vacant(ents, p));
                        assert forall|a: int, b: int|
                            0 <= a < b < result@.len() implies (#[trigger] result@[a]).spec_bytes() != (#[trigger] result@[b]).spec_bytes() by {
                            if b == old_res.len() {
                                if old_res[a].spec_bytes() == p {
                                    assert(old_seen.contains(k));
                                }
                            } else {
                                assert(old_res[a] == result@[a] && old_res[b] == result@[b]);
                            }
                        }
                        assert forall|q: int| 0 <= q < result@.len() implies vacant(ents, (#[trigger] result@[q]).spec_bytes())
                            && letters(result@[q].spec_bytes()) && result@[q].spec_bytes().len() <= MAX_CODE_N by {
                            if q < old_res.len() {
                                assert(old_res[q] == result@[q]);
                            }
                        }
                        assert forall|kk: u32| #[trigger] key_set_contents(seen).contains(kk) <==> exists|q: int|
                            0 <= q < result@.len() && key_of((#[trigger] result@[q]).spec_bytes()) == kk by {
                            if old_seen.contains(kk) {
                                let q = choose|q: int| 0 <= q < old_res.len() && key_of((#[trigger] old_res[q]).spec_bytes()) == kk;
                                assert(result@[q] == old_res[q]);
                            }
                            if kk == k {
                                assert(result@[old_res.len() as int] == head);
                            }
                            if exists|q: int| 0 <= q < result@.len() && key_of((#[trigger] result@[q]).spec_bytes()) == kk {
                                let q = choose|q: int| 0 <= q < result@.len() && key_of((#[trigger] result@[q]).spec_bytes()) == kk;
                                if q < old_res.len() {
                                    assert(result@[q] == old_res[q]);
                                }
                            }
                        }
                        assert forall|l: int| 1 <= l <= j + 1 && !is_code(ents, #[trigger] cb.take(l)) implies holds(result@, cb.take(l)) by {
                            if l <= j {
                                let q = choose|q: int| 0 <= q < old_res.len() && (#[trigger] old_res[q]).spec_bytes() == cb.take(l);
                                assert(result@[q] == old_res[q]);
                            } else {
                                assert(result@[old_res.len() as int] == head);
                            }
                        }
                        assert forall|ii: int, pp: Seq<u8>|
                            0 <= ii < i && #[trigger] vacancy_of(ents, singles@[ii], pp) implies holds(result@, pp) by {
                            let q = choose|q: int| 0 <= q < old_res.len() && (#[trigger] old_res[q]).spec_bytes() == pp;
                            assert(result@[q] == old_res[q]);
                        }
                    }
                } else {
                    proof {
                        let q = choose|q: int| 0 <= q < result@.len() && key_of((#[trigger] result@[q]).spec_bytes()) == k;
                        lemma_key_injective(result@[q].spec_bytes(), p);
                    }
                }
            }
            j += 1;
        }
        proof {
            assert forall|ii: int, p: Seq<u8>|
                0 <= ii < i + 1 && #[trigger] vacancy_of(ents, singles@[ii], p) implies holds(result@, p) by {
                if ii == i {
                    let l = p.len() as int;
                    assert(cb.take(l) == p);
                }
            }
        }
        i += 1;
    }
    proof {
        assert forall|p: Seq<u8>| vacant(ents, p) implies holds(result@, p) by {
            let m = choose|m: int| 0 <= m < ents.len() && vacancy_of(ents, #[trigger] ents[m], p);
            assert(ents.contains(ents[m]));
            singles@.lemma_filter_contains_rev(sp, ents[m]);
            let ii = choose|ii: int| 0 <= ii < singles@.len() && singles@[ii] == ents[m];
            assert(vacancy_of(ents, singles@[ii], p));
        }
    }
    let ghost before = result@;
    sort_strs(&mut result);
    proof {
        broadcast use vstd::seq_lib::group_to_multiset_ensures;

        before.to_multiset_ensures();
        result@.to_multiset_ensures();
        assert forall|q: int| 0 <= q < result@.len() implies vacant(ents, (#[trigger] result@[q]).spec_bytes()) by {
            assert(result@.contains(result@[q]));
            assert(result@.to_multiset().count(result@[q]) > 0);
            assert(before.contains(result@[q]));
        }
        assert forall|p: Seq<u8>| vacant(ents, p) implies exists|q: int| 0 <= q < result@.len() && (#[trigger] result@[q]).spec_bytes() == p by {
            let q = choose|q: int| 0 <= q < before.len() && (#[trigger] before[q]).spec_bytes() == p;
            assert(before.contains(before[q]));
            assert(before.to_multiset().count(before[q]) > 0);
            assert(result@.contains(before[q]));
        }
        let f = |x: &str| x.spec_bytes();
        lemma_map_perm(before, result@, f);
        assert(before.map_values(f).no_duplicates()) by {
            assert forall|u: int, v: int| 0 <= u < v < before.len() implies before.map_values(f)[u] != before.map_values(f)[v] by {
                assert(before[u].spec_bytes() != before[v].spec_bytes());
            }
        }
        before.map_values(f).lemma_multiset_has_no_duplicates();
        result@.map_values(f).lemma_multiset_has_no_duplicates_conv();
        assert forall|a: int, b: int| 0 <= a < b < result@.len() implies (#[trigger] result@[a]).spec_bytes() != (#[trigger] result@[b]).spec_bytes() by {
            assert(result@.map_values(f)[a] != result@.map_values(f)[b]);
        }
    }
    result
}

} // verus!
