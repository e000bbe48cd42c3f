//! Lone fly keys (孤立飞键) of single characters. A fly key lets two code
//! beginnings stand for each other, such as `fe` and `qe`; a character that
//! has a code beginning with one of them should also have one beginning
//! with the other, or the one-letter code of the other's first letter.

use crate::entry::Single;
use crate::hashing::{mask_map_contents, mask_map_get, mask_map_insert, mask_map_new, MaskMap};
use crate::keys::is_letter;
use crate::order::{code_of, lemma_map_perm, single_le, sort_singles, sorted_by};
use vstd::prelude::*;

verus! {

broadcast use vstd::seq_lib::group_seq_properties;

/// Number of slots: the code beginnings that take part in fly keys.
pub const SLOTS: u32 = 21;

/// Slot `k`: a code beginning. Slots `2i` and `2i + 1` stand for each
/// other; slot 20, `qh`, is what a code beginning `fh` needs.
pub open spec fn slot(k: int) -> (u8, u8) {
    if k == 0 { (0x66, 0x65) }        // fe
    else if k == 1 { (0x71, 0x65) }   // qe
    else if k == 2 { (0x66, 0x7a) }   // fz
    else if k == 3 { (0x71, 0x7a) }   // qz
    else if k == 4 { (0x6a, 0x65) }   // je
    else if k == 5 { (0x77, 0x65) }   // we
    else if k == 6 { (0x6a, 0x7a) }   // jz
    else if k == 7 { (0x77, 0x7a) }   // wz
    else if k == 8 { (0x65, 0x6d) }   // em
    else if k == 9 { (0x65, 0x78) }   // ex
    else if k == 10 { (0x66, 0x6d) }  // fm
    else if k == 11 { (0x66, 0x78) }  // fx
    else if k == 12 { (0x67, 0x6d) }  // gm
    else if k == 13 { (0x67, 0x78) }  // gx
    else if k == 14 { (0x68, 0x6d) }  // hm
    else if k == 15 { (0x68, 0x78) }  // hx
    else if k == 16 { (0x6b, 0x6d) }  // km
    else if k == 17 { (0x6b, 0x78) }  // kx
    else if k == 18 { (0x77, 0x6d) }  // wm
    else if k == 19 { (0x77, 0x78) }  // wx
    else { (0x71, 0x68) }             // qh
}

/// The slot whose evidence a code beginning `a b` needs: the other slot of
/// its fly key, or `qh` for `fh`; `None` for any other beginning.
pub open spec fn needed(a: u8, b: u8) -> Option<int> {
    if a == 0x66 && b == 0x68 {
        Some(20)
    } else if exists|k: int| 0 <= k < 20 && slot(k) == (a, b) {
        let k = choose|k: int| 0 <= k < 20 && slot(k) == (a, b);
        Some(if k % 2 == 0 { k + 1 } else { k - 1 })
    } else {
        None
    }
}

/// The code `c` is evidence for slot `k`: it begins with the slot, or it is
/// the one-letter code of the slot's first letter.
pub open spec fn evidence(c: Seq<u8>, k: int) -> bool {
    (c.len() == 1 && c[0] == slot(k).0) || (c.len() >= 2 && c[0] == slot(k).0 && c[1] == slot(k).1)
}

/// The entry's code begins with a fly key whose other half has no evidence
/// among the codes of the entry's character.
pub open spec fn lone(ss: Seq<Single>, x: Single) -> bool {
    let c = code_of(x);
    &&& c.len() >= 2
    &&& needed(c[0], c[1]) matches Some(k) && !exists|i: int|
        0 <= i < ss.len() && (#[trigger] ss[i]).text == x.text && evidence(code_of(ss[i]), k)
}

/// The first one or two bytes of every code are letters.
pub open spec fn fly_keyed(ss: Seq<Single>) -> bool {
    forall|i: int|
        0 <= i < ss.len() ==> {
            let c = code_of(#[trigger] ss[i]);
            &&& c.len() >= 1 ==> is_letter(c[0])
            &&& c.len() >= 2 ==> is_letter(c[1])
        }
}

/// Bit `k` of `x` is set.
pub open spec fn bit(x: u32, k: int) -> bool {
    (x >> (k as u32)) & 1u32 == 1u32
}

proof fn lemma_bits(x: u32, y: u32, j: u32, k: u32)
    by (bit_vector)
    requires
        j < 32,
        k < 32,
    ensures
        ((x | y) >> k) & 1u32 == 1u32 <==> ((x >> k) & 1u32 == 1u32 || (y >> k) & 1u32 == 1u32),
        ((1u32 << j) >> k) & 1u32 == 1u32 <==> j == k,
        ((0u32 >> k) & 1u32 == 1u32) == false,
        (x & (1u32 << k) == 0u32) <==> !((x >> k) & 1u32 == 1u32),
{
}

/// The index of a code element among the 26: `a` is 0, `z` is 25.
pub fn ix(c: u8) -> (r: usize)
    requires
        is_letter(c),
    ensures
        r == c - 0x61,
        r < 26,
{
    (c - 0x61) as usize
}

/// Slot `k`.
fn slot_at(k: u32) -> (r: (u8, u8))
    requires
        k < SLOTS,
    ensures
        r == slot(k as int),
{
    match k {
        0 => (0x66, 0x65),
        1 => (0x71, 0x65),
        2 => (0x66, 0x7a),
        3 => (0x71, 0x7a),
        4 => (0x6a, 0x65),
        5 => (0x77, 0x65),
        6 => (0x6a, 0x7a),
        7 => (0x77, 0x7a),
        8 => (0x65, 0x6d),
        9 => (0x65, 0x78),
        10 => (0x66, 0x6d),
        11 => (0x66, 0x78),
        12 => (0x67, 0x6d),
        13 => (0x67, 0x78),
        14 => (0x68, 0x6d),
        15 => (0x68, 0x78),
        16 => (0x6b, 0x6d),
        17 => (0x6b, 0x78),
        18 => (0x77, 0x6d),
        19 => (0x77, 0x78),
        _ => (0x71, 0x68),
    }
}

/// The slot that a code beginning `a b` needs.
fn needed_slot(a: u8, b: u8) -> (r: Option<u32>)
    ensures
        r is Some <==> needed(a, b) is Some,
        r matches Some(k) ==> needed(a, b) == Some(k as int) && k < SLOTS,
{
    if a == 0x66 && b == 0x68 {
        return Some(20);
    }
    let mut k: u32 = 0;
    while k < 20
        invariant
            k <= 20,
            !(a == 0x66 && b == 0x68),
            forall|kk: int| 0 <= kk < k ==> slot(kk) != (a, b),
        decreases 20 - k,
    {
        let (s0, s1) = slot_at(k);
        if s0 == a && s1 == b {
            proof {
                let w = choose|kk: int| 0 <= kk < 20 && slot(kk) == (a, b);
                if w != k {
                    assert(slot(w) != slot(k as int));
                }
            }
            return Some(if k % 2 == 0 {
                k + 1
            } else {
                k - 1
            });
        }
        k += 1;
    }
    None
}

/// The bits of the slots that the code `c` is evidence for.
fn evidence_bits(c: &[u8]) -> (r: u32)
    ensures
        forall|k: int| 0 <= k < SLOTS ==> (#[trigger] bit(r, k) <==> evidence(c@, k)),
{
    let mut bits: u32 = 0;
    let mut k: u32 = 0;
    proof {
        assert forall|kk: int| 0 <= kk < SLOTS implies !#[trigger] bit(0u32, kk) by {
            lemma_bits(0, 0, 0, kk as u32);
        }
    }
    while k < SLOTS
        invariant
            k <= SLOTS,
            forall|kk: int| 0 <= kk < SLOTS ==> (#[trigger] bit(bits, kk) <==> kk < k && evidence(c@, kk)),
        decreases SLOTS - k,
    {
        let (s0, s1) = slot_at(k);
        let hit = (c.len() == 1 && c[0] == s0) || (c.len() >= 2 && c[0] == s0 && c[1] == s1);
        let ghost old_bits = bits;
        assert(hit == evidence(c@, k as int));
        if hit {
            bits = bits | (1u32 << k);
        }
        proof {
            assert forall|kk: int| 0 <= kk < SLOTS implies (#[trigger] bit(bits, kk) <==> kk < k + 1 && evidence(c@, kk)) by {
                lemma_bits(old_bits, 1u32 << k, k, kk as u32);
                assert(bit(old_bits, kk) <==> kk < k && evidence(c@, kk));
                assert(bit(1u32 << k, kk) <==> kk == k);
                if hit {
                    assert(bits == old_bits | (1u32 << k));
                    assert(bit(bits, kk) <==> bit(old_bits, kk) || bit(1u32 << k, kk));
                } else {
                    assert(bits == old_bits);
                }
            }
        }
        k += 1;
    }
    bits
}

/// The masks hold, for each character among the first `i` entries, the
/// slots that its codes are evidence for.
spec fn masks_of(m: Map<char, u32>, ss: Seq<Single>, i: int) -> bool {
    &&& forall|t: char| #[trigger] m.contains_key(t) <==> exists|j: int| 0 <= j < i && (#[trigger] ss[j]).text == t
    &&& forall|t: char, k: int|
        m.contains_key(t) && 0 <= k < SLOTS ==> (#[trigger] bit(m[t], k) <==> exists|j: int|
            0 <= j < i && (#[trigger] ss[j]).text == t && evidence(code_of(ss[j]), k))
}

/// The entries whose code begins with a fly key whose other half has no
/// evidence among the codes of the same character, in order of character
/// and then of code.
pub fn check<'a>(singles: &'a [Single]) -> (r: Vec<&'a Single>)
    requires
        fly_keyed(singles@),
    ensures
        r@.map_values(|e: &Single| *e).to_multiset() == singles@.filter(|x: Single| lone(singles@, x)).to_multiset(),
        sorted_by(r@, |a: &Single, b: &Single| single_le(*a, *b)),
{
    let ghost ss = singles@;
    let mut masks: MaskMap = mask_map_new(singles.len() / 2);
    let mut i: usize = 0;
    while i < singles.len()
        invariant
            i <= ss.len(),
            ss == singles@,
            masks_of(mask_map_contents(masks), ss, i as int),
        decreases singles.len() - i,
    {
        let e = &singles[i];
        let c = e.code.as_str().as_bytes();
        let ghost cb = code_of(*e);
        assert(c@ == cb);
        let m = evidence_bits(c);
        let old = match mask_map_get(&masks, e.text) {
            Some(v) => v,
            None => 0,
        };
        let ghost before = mask_map_contents(masks);
        mask_map_insert(&mut masks, e.text, old | m);
        proof {
            let now = mask_map_contents(masks);
            assert forall|t: char| #[trigger] now.contains_key(t) <==> exists|j: int| 0 <= j < i + 1 && (#[trigger] ss[j]).text == t by {
                if t == e.text {
                    assert(ss[i as int].text == t);
                }
            }
            assert forall|t: char, k: int|
                now.contains_key(t) && 0 <= k < SLOTS implies (#[trigger] bit(now[t], k) <==> exists|j: int|
                0 <= j < i + 1 && (#[trigger] ss[j]).text == t && evidence(code_of(ss[j]), k)) by {
                if t == e.text {
                    lemma_bits(old, m, 0, k as u32);
                    let ex_old = exists|j: int| 0 <= j < i && (#[trigger] ss[j]).text == t && evidence(code_of(ss[j]), k);
                    let ex_new = exists|j: int| 0 <= j < i + 1 && (#[trigger] ss[j]).text == t && evidence(code_of(ss[j]), k);
                    assert(ex_new <==> (ex_old || evidence(cb, k))) by {
                        if evidence(cb, k) {
                            assert(ss[i as int].text == t && evidence(code_of(ss[i as int]), k));
                        }
                        if ex_old {
                            let j = choose|j: int| 0 <= j < i && (#[trigger] ss[j]).text == t && evidence(code_of(ss[j]), k);
                            assert(0 <= j < i + 1);
                        }
                        if ex_new {
                            let j = choose|j: int| 0 <= j < i + 1 && (#[trigger] ss[j]).text == t && evidence(code_of(ss[j]), k);
                            if j < i {
                                assert(ex_old);
                            }
                        }
                    }
                    assert(bit(old, k) <==> ex_old) by {
                        if !before.contains_key(t) {
                            assert(old == 0);
                            lemma_bits(0, 0, 0, k as u32);
                            if ex_old {
                                let j = choose|j: int| 0 <= j < i && (#[trigger] ss[j]).text == t && evidence(code_of(ss[j]), k);
                                assert(exists|j: int| 0 <= j < i && (#[trigger] ss[j]).text == t);
                            }
                        }
                    }
                    assert(bit(m, k) <==> evidence(cb, k));
                    assert(now[t] == old | m);
                } else {
                    assert(now[t] == before[t]);
                    if exists|j: int| 0 <= j < i + 1 && (#[trigger] ss[j]).text == t && evidence(code_of(ss[j]), k) {
                        let j = choose|j: int| 0 <= j < i + 1 && (#[trigger] ss[j]).text == t && evidence(code_of(ss[j]), k);
                        assert(j < i);
                    }
                }
            }
        }
        i += 1;
    }
    let ghost lp = |x: Single| lone(ss, x);
    let mut res: Vec<&Single> = Vec::new();
    let mut i: usize = 0;
    while i < singles.len()
        invariant
            i <= ss.len(),
            ss == singles@,
            fly_keyed(ss),
            masks_of(mask_map_contents(masks), ss, ss.len() as int),
            lp == (|x: Single| lone(ss, x)),
            res@.map_values(|e: &Single| *e) == ss.take(i as int).filter(lp),
        decreases singles.len() - i,
    {
        let e = &singles[i];
        let c = e.code.as_str().as_bytes();
        let ghost cb = code_of(*e);
        assert(c@ == cb);
        proof {
            assert(ss.take(i + 1) =~= ss.take(i as int).push(*e));
            ss.take(i as int).lemma_filter_push(*e, lp);
        }
        let hit = if c.len() >= 2 {
            match needed_slot(c[0], c[1]) {
                Some(k) => {
                    let have = match mask_map_get(&masks, e.text) {
                        Some(v) => v,
                        None => 0,
                    };
                    proof {
                        let mm = mask_map_contents(masks);
                        assert(ss[i as int].text == e.text);
                        assert(mm.contains_key(e.text));
                        lemma_bits(have, 0, 0, k);
                        assert(bit(mm[e.text], k as int) <==> exists|j: int|
                            0 <= j < ss.len() && (#[trigger] ss[j]).text == e.text && evidence(code_of(ss[j]), k as int));
                    }
                    have & (1u32 << k) == 0
                },
                None => false,
            }
        } else {
            false
        };
        assert(hit == lone(ss, *e));
        if hit {
            let ghost old_res = res@;
            res.push(e);
            assert(res@.map_values(|e: &Single| *e) =~= old_res.map_values(|e: &Single| *e).push(*e));
        }
        i += 1;
    }
    assert(ss.take(ss.len() as int) =~= ss);
    let ghost before = res@;
    sort_singles(&mut res);
    proof {
        lemma_map_perm(before, res@, |e: &Single| *e);
    }
    res
}

} // verus!
