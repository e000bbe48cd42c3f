//! Vacant phrase codes (词组空码): a prefix of a phrase's code, at least as
//! long as the shortest code a phrase of that text may have, that no phrase
//! has as its code.

use crate::entry::Phrase;
use crate::keys::{code_key, is_letter, key_of, lemma_key_bound, lemma_key_injective, lemma_key_take, letters};
use crate::keytao::{phrase_min_code_len, spec_phrase_min_code_len, MAX_CODE_N};
use crate::order::{bytes_le, code_of, lemma_map_perm, sort_strs, sorted_by};
use vstd::prelude::*;
use vstd::string::StringSliceAdditionalSpecFns;
use vstd::utf8::encode_utf8;

verus! {

broadcast use vstd::seq_lib::group_seq_properties;

/// Number of codes of at most five letters: `27^5`.
pub const BITS: usize = 14348907;

/// Words of 64 bits that hold `BITS` bits.
pub const WORDS: usize = (BITS + 63) / 64;

/// Bit `k` of the words `bits` is set.
pub open spec fn has_bit(bits: Seq<u64>, k: int) -> bool {
    (bits[k / 64] >> ((k % 64) as u64)) & 1u64 == 1u64
}

/// The codes of the phrases can be numbered: those shorter than six bytes
/// are made of letters, and a code longer than the shortest a phrase of its
/// text may have has at most six bytes, all but the last letters and the
/// last an ASCII byte.
pub open spec fn keyed_phrases(ps: Seq<Phrase>) -> bool {
    forall|i: int|
        0 <= i < ps.len() ==> {
            let c = code_of(#[trigger] ps[i]);
            &&& c.len() < MAX_CODE_N ==> letters(c)
            &&& c.len() > spec_phrase_min_code_len(ps[i].text@) ==> c.len() <= MAX_CODE_N && letters(
                c.take(c.len() - 1),
            ) && c[c.len() - 1] < 0x80
        }
}

/// Some phrase has the code `c`.
pub open spec fn is_phrase_code(ps: Seq<Phrase>, c: Seq<u8>) -> bool {
    exists|i: int| 0 <= i < ps.len() && code_of(#[trigger] ps[i]) == c
}

/// `p` is a vacant code below the phrase `e`: a proper prefix of its code,
/// no shorter than the shortest code of its text, that no phrase has.
pub open spec fn vacancy_of(ps: Seq<Phrase>, e: Phrase, p: Seq<u8>) -> bool {
    let c = code_of(e);
    let mn = spec_phrase_min_code_len(e.text@);
    &&& mn <= p.len() < c.len()
    &&& p == c.take(p.len() as int)
    &&& !is_phrase_code(ps, p)
}

/// `p` is a vacant code below some phrase.
pub open spec fn vacant(ps: Seq<Phrase>, p: Seq<u8>) -> bool {
    exists|i: int| 0 <= i < ps.len() && vacancy_of(ps, #[trigger] ps[i], p)
}

/// `key * 27 + (c - 0x60)`: the number of a code with `c` appended.
pub fn append_key(key: usize, c: u8) -> (r: usize)
    requires
        0x61 <= c,
        key * 27 + (c - 0x60) <= usize::MAX,
    ensures
        r == key * 27 + (c - 0x60),
{
    key * 27 + ((c - 0x61 + 1) as usize)
}

proof fn lemma_word_bits(w: u64, b: u64, b2: u64)
    by (bit_vector)
    requires
        b < 64,
        b2 < 64,
    ensures
        (((w | (1u64 << b)) >> b2) & 1u64 == 1u64) == (((w >> b2) & 1u64 == 1u64) || b == b2),
        ((w & (1u64 << b)) == 0u64) == !((w >> b) & 1u64 == 1u64),
{
}

proof fn lemma_index_bits(key: usize)
    by (bit_vector)
    ensures
        key & 63 == key % 64,
        key >> 6 == key / 64,
{
}

/// Sets bit `key` of the words `bits`; whether it was clear before.
pub fn insert(bits: &mut [u64], key: usize) -> (r: bool)
    requires
        key < old(bits)@.len() * 64,
    ensures
        final(bits)@.len() == old(bits)@.len(),
        r == !has_bit(old(bits)@, key as int),
        forall|k: int|
            0 <= k < old(bits)@.len() * 64 ==> #[trigger] has_bit(final(bits)@, k) == (has_bit(
                old(bits)@,
                k,
            ) || k == key),
{
    proof {
        lemma_index_bits(key);
    }
    let mask = 1u64 << ((key & 63) as u64);
    let i = key >> 6;
    let w = bits[i];
    let new = w & mask == 0;
    bits[i] = w | mask;
    proof {
        let b = (key % 64) as u64;
        lemma_word_bits(w, b, b);
        assert forall|k: int| 0 <= k < old(bits)@.len() * 64 implies #[trigger] has_bit(bits@, k) == (
        has_bit(old(bits)@, k) || k == key) by {
            let b2 = (k % 64) as u64;
            lemma_word_bits(w, b, b2);
            if k / 64 == key / 64 {
                if b == b2 {
                    assert(k == key);
                }
            } else {
                assert(bits@[k / 64] == old(bits)@[k / 64]);
            }
        }
    }
    new
}

/// Whether bit `key` of the words `bits` is set.
fn bit_set(bits: &[u64], key: usize) -> (r: bool)
    requires
        key < bits@.len() * 64,
    ensures
        r == has_bit(bits@, key as int),
{
    proof {
        lemma_index_bits(key);
        lemma_word_bits(bits@[(key / 64) as int], (key % 64) as u64, 0);
    }
    bits[key >> 6] & (1u64 << ((key & 63) as u64)) != 0
}

/// Words with no bit set.
fn clear_bits() -> (r: Vec<u64>)
    ensures
        r@.len() == WORDS,
        forall|k: int| 0 <= k < WORDS * 64 ==> !#[trigger] has_bit(r@, k),
{
    let r = vec![0u64; WORDS];
    proof {
        assert forall|k: int| 0 <= k < WORDS * 64 implies !#[trigger] has_bit(r@, k) by {
            let b = (k % 64) as u64;
            assert(r@[k / 64] == 0u64);
            assert((0u64 >> b) & 1u64 == 0u64) by (bit_vector);
        }
    }
    r
}

/// The bits of `used` are the numbers of the codes of the phrases, among
/// the first `i`, shorter than six bytes.
spec fn used_bits(bits: Seq<u64>, ps: Seq<Phrase>, i: int) -> bool {
    &&& bits.len() == WORDS
    &&& forall|k: int|
        0 <= k < WORDS * 64 ==> (#[trigger] has_bit(bits, k) <==> exists|j: int|
            0 <= j < i && code_of(#[trigger] ps[j]).len() < MAX_CODE_N && key_of(code_of(ps[j])) == k)
}

/// What the vacant codes `res` gathered so far are: vacant, of letters,
/// each once, and their numbers the bits of `seen`.
spec fn gathered(ps: Seq<Phrase>, res: Seq<&str>, seen: Seq<u64>) -> bool {
    &&& seen.len() == WORDS
    &&& forall|q: int|
        0 <= q < res.len() ==> vacant(ps, (#[trigger] res[q]).spec_bytes()) && letters(res[q].spec_bytes())
            && res[q].spec_bytes().len() < MAX_CODE_N
    &&& forall|a: int, b: int|
        0 <= a < b < res.len() ==> (#[trigger] res[a]).spec_bytes() != (#[trigger] res[b]).spec_bytes()
    &&& forall|k: int|
        0 <= k < WORDS * 64 ==> (#[trigger] has_bit(seen, k) <==> exists|q: int|
            0 <= q < res.len() && key_of((#[trigger] res[q]).spec_bytes()) == k)
}

/// Some gathered code is `p`.
spec fn holds(res: Seq<&str>, p: Seq<u8>) -> bool {
    exists|q: int| 0 <= q < res.len() && (#[trigger] res[q]).spec_bytes() == p
}

/// Asking the bits of the phrase codes for the number of `p` asks whether
/// some phrase has the code `p`.
proof fn lemma_used_query(bits: Seq<u64>, ps: Seq<Phrase>, p: Seq<u8>)
    requires
        used_bits(bits, ps, ps.len() as int),
        keyed_phrases(ps),
        letters(p),
        p.len() < MAX_CODE_N,
    ensures
        has_bit(bits, key_of(p)) <==> is_phrase_code(ps, p),
{
    lemma_key_bound(p);
    if has_bit(bits, key_of(p)) {
        let j = choose|j: int|
            0 <= j < ps.len() && code_of(#[trigger] ps[j]).len() < MAX_CODE_N && key_of(code_of(ps[j])) == key_of(p);
        lemma_key_injective(code_of(ps[j]), p);
    }
    if is_phrase_code(ps, p) {
        let j = choose|j: int| 0 <= j < ps.len() && code_of(#[trigger] ps[j]) == p;
        assert(code_of(ps[j]).len() < MAX_CODE_N && key_of(code_of(ps[j])) == key_of(p));
    }
}

/// The vacant phrase codes: each a proper prefix of a phrase's code, no
/// shorter than the shortest code of its text, that no phrase has. Each
/// comes once, in byte order.
pub fn check<'a>(phrases: &'a [Phrase]) -> (r: Vec<&'a str>)
    requires
        keyed_phrases(phrases@),
    ensures
        forall|q: int| 0 <= q < r@.len() ==> vacant(phrases@, (#[trigger] r@[q]).spec_bytes()),
        forall|p: Seq<u8>|
            vacant(phrases@, p) ==> exists|q: int| 0 <= q < r@.len() && (#[trigger] r@[q]).spec_bytes() == p,
        forall|a: int, b: int|
            0 <= a < b < r@.len() ==> (#[trigger] r@[a]).spec_bytes() != (#[trigger] r@[b]).spec_bytes(),
        sorted_by(r@, |a: &str, b: &str| bytes_le(encode_utf8(a@), encode_utf8(b@))),
{
    let ghost ps = phrases@;
    let mut used = clear_bits();
    let mut i: usize = 0;
    while i < phrases.len()
        invariant
            i <= ps.len(),
            ps == phrases@,
            keyed_phrases(ps),
            used_bits(used@, ps, i as int),
        decreases phrases.len() - i,
    {
        let c = phrases[i].code.as_str().as_bytes();
        let ghost cb = code_of(ps[i as int]);
        assert(c@ == cb);
        if c.len() < MAX_CODE_N {
            proof {
                lemma_key_bound(cb);
            }
            let k = code_key(c) as usize;
            let ghost before = used@;
            insert(used.as_mut_slice(), k);
            proof {
                assert forall|kk: int| 0 <= kk < WORDS * 64 implies (#[trigger] has_bit(used@, kk) <==> exists|j: int|
                    0 <= j < i + 1 && code_of(#[trigger] ps[j]).len() < MAX_CODE_N && key_of(code_of(ps[j])) == kk) by {
                    if has_bit(before, kk) {
                        let j = choose|j: int|
                            0 <= j < i && code_of(#[trigger] ps[j]).len() < MAX_CODE_N && key_of(code_of(ps[j])) == kk;
                    }
                    if kk == k {
                        assert(code_of(ps[i as int]).len() < MAX_CODE_N);
                    }
                    if exists|j: int| 0 <= j < i + 1 && code_of(#[trigger] ps[j]).len() < MAX_CODE_N && key_of(code_of(ps[j])) == kk {
                        let j = choose|j: int|
                            0 <= j < i + 1 && code_of(#[trigger] ps[j]).len() < MAX_CODE_N && key_of(code_of(ps[j])) == kk;
                        if j < i {
                            assert(has_bit(before, kk));
                        }
                    }
                }
            }
        }
        i += 1;
    }
    let mut seen = clear_bits();
    let mut result: Vec<&'a str> = Vec::new();
    let mut i: usize = 0;
    while i < phrases.len()
        invariant
            i <= ps.len(),
            ps == phrases@,
            keyed_phrases(ps),
            used_bits(used@, ps, ps.len() as int),
            gathered(ps, result@, seen@),
            forall|ii: int, p: Seq<u8>|
                0 <= ii < i && #[trigger] vacancy_of(ps, ps[ii], p) ==> holds(result@, p),
        decreases phrases.len() - i,
    {
        let e = &phrases[i];
        let c = e.code.as_str().as_bytes();
        let ghost cb = code_of(*e);
        assert(c@ == cb);
        let n = c.len();
        let min = phrase_min_code_len(e.text.as_str());
        if n <= min {
            i += 1;
            continue;
        }
        proof {
            assert(n <= MAX_CODE_N && letters(cb.take(n - 1)) && cb[n - 1] < 0x80);
        }
        let mut k: usize = 0;
        let mut j: usize = 0;
        while j < n - 1
            invariant
                min < n <= MAX_CODE_N,
                min == spec_phrase_min_code_len(e.text@),
                n == cb.len(),
                c@ == cb,
                cb == code_of(*e),
                letters(cb.take(n - 1)),
                cb[n - 1] < 0x80,
                i < ps.len(),
                *e == ps[i as int],
                keyed_phrases(ps),
                used_bits(used@, ps, ps.len() as int),
                j <= n - 1,
                k == key_of(cb.take(j as int)),
                gathered(ps, result@, seen@),
                forall|l: int|
                    min <= l <= j && !is_phrase_code(ps, #[trigger] cb.take(l)) ==> holds(result@, cb.take(l)),
                forall|ii: int, p: Seq<u8>|
                    0 <= ii < i && #[trigger] vacancy_of(ps, ps[ii], p) ==> holds(result@, p),
            decreases n - 1 - j,
        {
            let ghost p = cb.take(j + 1);
            proof {
                lemma_key_take(cb, j as int);
                assert(p =~= cb.take(n - 1).take(j + 1));
                assert(cb.take(n - 1)[j as int] == cb[j as int]);
                assert(letters(p));
                lemma_key_bound(p);
            }
            k = append_key(k, c[j]);
            if j + 1 >= min {
                proof {
                    lemma_used_query(used@, ps, p);
                }
                if !bit_set(used.as_slice(), k) {
                    let ghost old_seen = seen@;
                    let ghost old_res = result@;
                    if insert(seen.as_mut_slice(), k) {
                        proof {
                            vstd::utf8::encode_utf8_valid_utf8(e.code@);
                            vstd::utf8::is_char_boundary_iff_not_is_continuation_byte(cb, j + 1);
                            if j + 1 < n - 1 {
                                assert(cb.take(n - 1)[j + 1] == cb[j + 1]);
                            }
                        }
                        let (head, _) = e.code.as_str().split_at(j + 1);
                        result.push(head);
                        proof {
                            assert(head.spec_bytes() =~= p);
                            assert(vacancy_of(ps, ps[i as int], p));
                            assert(vacant(ps, p));
                            assert forall|a: int, b: int|
                                0 <= a < b < result@.len() implies (#[trigger] result@[a]).spec_bytes() != (
                            #[trigger] result@[b]).spec_bytes() by {
                                if b == old_res.len() {
                                    if old_res[a].spec_bytes() == p {
                                        assert(has_bit(old_seen, k as int));
                                    }
                                } else {
                                    assert(old_res[a] == result@[a] && old_res[b] == result@[b]);
                                }
                            }
                            assert forall|q: int| 0 <= q < result@.len() implies vacant(
                                ps,
                                (#[trigger] result@[q]).spec_bytes(),
                            ) && letters(result@[q].spec_bytes()) && result@[q].spec_bytes().len()
                                < MAX_CODE_N by {
                                if q < old_res.len() {
                                    assert(old_res[q] == result@[q]);
                                }
                            }
                            assert forall|kk: int| 0 <= kk < WORDS * 64 implies (#[trigger] has_bit(seen@, kk) <==> exists|q: int|
                                0 <= q < result@.len() && key_of((#[trigger] result@[q]).spec_bytes()) == kk) by {
                                if has_bit(old_seen, kk) {
                                    let q = choose|q: int|
                                        0 <= q < old_res.len() && key_of((#[trigger] old_res[q]).spec_bytes()) == kk;
                                    assert(result@[q] == old_res[q]);
                                }
                                if kk == k {
                                    assert(result@[old_res.len() as int] == head);
                                }
                                if exists|q: int| 0 <= q < result@.len() && key_of((#[trigger] result@[q]).spec_bytes()) == kk {
                                    let q = choose|q: int|
                                        0 <= q < result@.len() && key_of((#[trigger] result@[q]).spec_bytes()) == kk;
                                    if q < old_res.len() {
                                        assert(result@[q] == old_res[q]);
                                        assert(has_bit(old_seen, kk));
                                    }
                                }
                            }
                            assert forall|l: int|
                                min <= l <= j + 1 && !is_phrase_code(ps, #[trigger] cb.take(l)) implies holds(
                                result@,
                                cb.take(l),
                            ) by {
                                if l <= j {
                                    let q = choose|q: int|
                                        0 <= q < old_res.len() && (#[trigger] old_res[q]).spec_bytes() == cb.take(l);
                                    assert(result@[q] == old_res[q]);
                                } else {
                                    assert(result@[old_res.len() as int] == head);
                                }
                            }
                            assert forall|ii: int, pp: Seq<u8>|
                                0 <= ii < i && #[trigger] vacancy_of(ps, ps[ii], pp) implies holds(result@, pp) by {
                                let q = choose|q: int| 0 <= q < old_res.len() && (#[trigger] old_res[q]).spec_bytes() == pp;
                                assert(result@[q] == old_res[q]);
                            }
                        }
                    } else {
                        proof {
                            assert(has_bit(old_seen, k as int));
                            let q = choose|q: int|
                                0 <= q < result@.len() && key_of((#[trigger] result@[q]).spec_bytes()) == k;
                            lemma_key_injective(result@[q].spec_bytes(), p);
                        }
                    }
                }
            }
            j += 1;
        }
        proof {
            assert forall|ii: int, p: Seq<u8>|
                0 <= ii < i + 1 && #[trigger] vacancy_of(ps, ps[ii], p) implies holds(result@, p) by {
                if ii == i {
                    let l = p.len() as int;
                    assert(cb.take(l) == p);
                }
            }
        }
        i += 1;
    }
    let ghost before = result@;
    sort_strs(&mut result);
    proof {
        broadcast use vstd::seq_lib::group_to_multiset_ensures;

        before.to_multiset_ensures();
        result@.to_multiset_ensures();
        assert forall|q: int| 0 <= q < result@.len() implies vacant(ps, (#[trigger] result@[q]).spec_bytes()) by {
            assert(result@.contains(result@[q]));
            assert(result@.to_multiset().count(result@[q]) > 0);
            assert(before.contains(result@[q]));
        }
        assert forall|p: Seq<u8>| vacant(ps, p) implies exists|q: int|
            0 <= q < result@.len() && (#[trigger] result@[q]).spec_bytes() == p by {
            let ii = choose|ii: int| 0 <= ii < ps.len() && vacancy_of(ps, #[trigger] ps[ii], p);
            let q = choose|q: int| 0 <= q < before.len() && (#[trigger] before[q]).spec_bytes() == p;
            assert(before.contains(before[q]));
            assert(before.to_multiset().count(before[q]) > 0);
            assert(result@.contains(before[q]));
        }
        let f = |x: &str| x.spec_bytes();
        lemma_map_perm(before, result@, f);
        assert(before.map_values(f).no_duplicates()) by {
            assert forall|u: int, v: int| 0 <= u < v < before.len() implies before.map_values(f)[u]
                != before.map_values(f)[v] by {
                assert(before[u].spec_bytes() != before[v].spec_bytes());
            }
        }
        before.map_values(f).lemma_multiset_has_no_duplicates();
        result@.map_values(f).lemma_multiset_has_no_duplicates_conv();
        assert forall|a: int, b: int| 0 <= a < b < result@.len() implies (#[trigger] result@[a]).spec_bytes()
            != (#[trigger] result@[b]).spec_bytes() by {
            assert(result@.map_values(f)[a] != result@.map_values(f)[b]);
        }
    }
    result
}

} // verus!
