//! Phrases whose code uses a flying key (飞键) while not every alternative
//! code of the phrase is present (残缺飞键).
//!
//! Some pairs of code elements may be typed in two ways (`fe` or `qe`, `em`
//! or `ex`, ...). When a phrase's code is written with one of them, the
//! codes with the other ways should all be present too, under the same text.

use crate::entry::Phrase;
use crate::groups::{
    lemma_exists_perm, lemma_phrase_group, lemma_sorted_filter, phrase_group, phrase_group_end,
};
use crate::hashing::{stem_map_contents, stem_map_get, StemMap};
use crate::keytao::{phrase_min_code_len, spec_phrase_min_code_len, Stem};
use crate::checks::p_on_s_anomaly::at;
use crate::order::{
    code_of, lemma_filter_map_commute, lemma_filter_perm, lemma_map_perm, par_sort_phrases, phrase_le,
    sorted_by,
};
use vstd::prelude::*;
use vstd::string::StrSliceExecFns;

verus! {

broadcast use vstd::seq_lib::group_seq_properties;

/// The other way of typing a pair of code elements, for the pairs that
/// have one (`fh` has `qh`, but not the other way round).
pub open spec fn full_alt_target_spec(a: u8, b: u8) -> Option<(u8, u8)> {
    if a == 0x66 && b == 0x65 { Some((0x71u8, 0x65u8)) }  // fe -> qe
    else if a == 0x71 && b == 0x65 { Some((0x66u8, 0x65u8)) }  // qe -> fe
    else if a == 0x66 && b == 0x7a { Some((0x71u8, 0x7au8)) }  // fz -> qz
    else if a == 0x71 && b == 0x7a { Some((0x66u8, 0x7au8)) }  // qz -> fz
    else if a == 0x6a && b == 0x65 { Some((0x77u8, 0x65u8)) }  // je -> we
    else if a == 0x77 && b == 0x65 { Some((0x6au8, 0x65u8)) }  // we -> je
    else if a == 0x6a && b == 0x7a { Some((0x77u8, 0x7au8)) }  // jz -> wz
    else if a == 0x77 && b == 0x7a { Some((0x6au8, 0x7au8)) }  // wz -> jz
    else if a == 0x65 && b == 0x6d { Some((0x65u8, 0x78u8)) }  // em -> ex
    else if a == 0x65 && b == 0x78 { Some((0x65u8, 0x6du8)) }  // ex -> em
    else if a == 0x66 && b == 0x6d { Some((0x66u8, 0x78u8)) }  // fm -> fx
    else if a == 0x66 && b == 0x78 { Some((0x66u8, 0x6du8)) }  // fx -> fm
    else if a == 0x67 && b == 0x6d { Some((0x67u8, 0x78u8)) }  // gm -> gx
    else if a == 0x67 && b == 0x78 { Some((0x67u8, 0x6du8)) }  // gx -> gm
    else if a == 0x68 && b == 0x6d { Some((0x68u8, 0x78u8)) }  // hm -> hx
    else if a == 0x68 && b == 0x78 { Some((0x68u8, 0x6du8)) }  // hx -> hm
    else if a == 0x6b && b == 0x6d { Some((0x6bu8, 0x78u8)) }  // km -> kx
    else if a == 0x6b && b == 0x78 { Some((0x6bu8, 0x6du8)) }  // kx -> km
    else if a == 0x77 && b == 0x6d { Some((0x77u8, 0x78u8)) }  // wm -> wx
    else if a == 0x77 && b == 0x78 { Some((0x77u8, 0x6du8)) }  // wx -> wm
    else if a == 0x66 && b == 0x68 { Some((0x71u8, 0x68u8)) }  // fh -> qh
    else { None }
}

/// The other way of typing the pair `a b`, if it has one.
pub fn full_alt_target(a: u8, b: u8) -> (r: Option<(u8, u8)>)
    ensures
        r == full_alt_target_spec(a, b),
{
    if a == 0x66 && b == 0x65 { Some((0x71, 0x65)) }
    else if a == 0x71 && b == 0x65 { Some((0x66, 0x65)) }
    else if a == 0x66 && b == 0x7a { Some((0x71, 0x7a)) }
    else if a == 0x71 && b == 0x7a { Some((0x66, 0x7a)) }
    else if a == 0x6a && b == 0x65 { Some((0x77, 0x65)) }
    else if a == 0x77 && b == 0x65 { Some((0x6a, 0x65)) }
    else if a == 0x6a && b == 0x7a { Some((0x77, 0x7a)) }
    else if a == 0x77 && b == 0x7a { Some((0x6a, 0x7a)) }
    else if a == 0x65 && b == 0x6d { Some((0x65, 0x78)) }
    else if a == 0x65 && b == 0x78 { Some((0x65, 0x6d)) }
    else if a == 0x66 && b == 0x6d { Some((0x66, 0x78)) }
    else if a == 0x66 && b == 0x78 { Some((0x66, 0x6d)) }
    else if a == 0x67 && b == 0x6d { Some((0x67, 0x78)) }
    else if a == 0x67 && b == 0x78 { Some((0x67, 0x6d)) }
    else if a == 0x68 && b == 0x6d { Some((0x68, 0x78)) }
    else if a == 0x68 && b == 0x78 { Some((0x68, 0x6d)) }
    else if a == 0x6b && b == 0x6d { Some((0x6b, 0x78)) }
    else if a == 0x6b && b == 0x78 { Some((0x6b, 0x6d)) }
    else if a == 0x77 && b == 0x6d { Some((0x77, 0x78)) }
    else if a == 0x77 && b == 0x78 { Some((0x77, 0x6d)) }
    else if a == 0x66 && b == 0x68 { Some((0x71, 0x68)) }
    else { None }
}

/// The other first element for the pair `a b`, when its other way of typing
/// changes the first element.
pub open spec fn seg_first_alt_spec(a: u8, b: u8) -> Option<u8> {
    match full_alt_target_spec(a, b) {
        Some((t0, _)) => if t0 != a {
            Some(t0)
        } else {
            None
        },
        None => None,
    }
}

fn seg_first_alt(a: u8, b: u8) -> (r: Option<u8>)
    ensures
        r == seg_first_alt_spec(a, b),
{
    match full_alt_target(a, b) {
        Some((t0, _)) => if t0 != a {
            Some(t0)
        } else {
            None
        },
        None => None,
    }
}

/// A stem of the character that agrees with the code: same first element,
/// and same third element where the code has one for it.
pub open spec fn stem_matches(s: Stem, first: u8, third: Option<u8>) -> bool {
    s[0] == first && (third matches Some(t) ==> s[2] == t)
}

/// Every agreeing stem has `t` as other first element.
pub open spec fn all_alt_to(ss: Seq<Stem>, first: u8, third: Option<u8>, t: u8) -> bool {
    forall|j: int|
        0 <= j < ss.len() && stem_matches(#[trigger] ss[j], first, third) ==> seg_first_alt_spec(
            ss[j][0],
            ss[j][1],
        ) == Some(t)
}

/// Some stem agrees.
pub open spec fn some_match(ss: Seq<Stem>, first: u8, third: Option<u8>) -> bool {
    exists|j: int| 0 <= j < ss.len() && stem_matches(#[trigger] ss[j], first, third)
}

/// The other first element of the character's slot in a phrase code: there
/// is one when the character has stems that agree with the code and all of
/// them have the same other first element.
pub open spec fn slot_alt_spec(
    m: Map<char, Seq<Stem>>,
    c: char,
    first: u8,
    third: Option<u8>,
) -> Option<u8> {
    if m.contains_key(c) && some_match(m[c], first, third) && exists|t: u8|
        all_alt_to(m[c], first, third, t) {
        Some(choose|t: u8| all_alt_to(m[c], first, third, t))
    } else {
        None
    }
}

fn slot_alt(stems: &StemMap, c: char, first: u8, third: Option<u8>) -> (r: Option<u8>)
    ensures
        r == slot_alt_spec(stem_map_contents(*stems), c, first, third),
{
    let ghost m = stem_map_contents(*stems);
    let v = match stem_map_get(stems, c) {
        None => return None,
        Some(v) => v,
    };
    let mut need: Option<u8> = None;
    let mut saw_no = false;
    let mut i: usize = 0;
    while i < v.len()
        invariant
            m == stem_map_contents(*stems),
            m.contains_key(c),
            v@ == m[c],
            i <= v@.len(),
            !(need is Some && saw_no),
            saw_no <==> exists|j: int|
                0 <= j < i && stem_matches(#[trigger] v@[j], first, third) && seg_first_alt_spec(
                    v@[j][0],
                    v@[j][1],
                ) is None,
            need is None ==> forall|j: int|
                0 <= j < i && stem_matches(#[trigger] v@[j], first, third) ==> seg_first_alt_spec(
                    v@[j][0],
                    v@[j][1],
                ) is None,
            need matches Some(t) ==> (forall|j: int|
                0 <= j < i && stem_matches(#[trigger] v@[j], first, third) ==> seg_first_alt_spec(
                    v@[j][0],
                    v@[j][1],
                ) == Some(t)) && exists|j: int|
                0 <= j < i && stem_matches(#[trigger] v@[j], first, third),
        decreases v.len() - i,
    {
        let s = v[i];
        let third_ok = match third {
            Some(t) => s[2] == t,
            None => true,
        };
        if s[0] == first && third_ok {
            assert(stem_matches(v@[i as int], first, third));
            match seg_first_alt(s[0], s[1]) {
                Some(t) => {
                    if saw_no {
                        proof {
                            assert(!all_alt_to(m[c], first, third, t)) by {}
                            assert forall|u: u8| !all_alt_to(m[c], first, third, u) by {
                                let j = choose|j: int|
                                    0 <= j < i && stem_matches(#[trigger] v@[j], first, third)
                                        && seg_first_alt_spec(v@[j][0], v@[j][1]) is None;
                            }
                        }
                        return None;
                    }
                    match need {
                        None => {
                            need = Some(t);
                        },
                        Some(x) => {
                            if x != t {
                                proof {
                                    assert forall|u: u8| !all_alt_to(m[c], first, third, u) by {
                                        if all_alt_to(m[c], first, third, u) {
                                            let j = choose|j: int|
                                                0 <= j < i && stem_matches(
                                                    #[trigger] v@[j],
                                                    first,
                                                    third,
                                                );
                                            assert(seg_first_alt_spec(v@[j][0], v@[j][1]) == Some(x));
                                            assert(seg_first_alt_spec(v@[i as int][0], v@[i as int][1]) == Some(t));
                                        }
                                    }
                                }
                                return None;
                            }
                        },
                    }
                },
                None => {
                    if need.is_some() {
                        proof {
                            assert forall|u: u8| !all_alt_to(m[c], first, third, u) by {
                                assert(seg_first_alt_spec(v@[i as int][0], v@[i as int][1]) is None);
                            }
                        }
                        return None;
                    }
                    saw_no = true;
                },
            }
        }
        i += 1;
    }
    proof {
        match need {
            Some(t) => {
                assert(all_alt_to(m[c], first, third, t));
                assert(some_match(m[c], first, third));
                let u = choose|u: u8| all_alt_to(m[c], first, third, u);
                let j = choose|j: int| 0 <= j < v@.len() && stem_matches(#[trigger] v@[j], first, third);
                assert(seg_first_alt_spec(v@[j][0], v@[j][1]) == Some(u));
            },
            None => {
                if some_match(m[c], first, third) {
                    assert forall|u: u8| !all_alt_to(m[c], first, third, u) by {
                        let j = choose|j: int| 0 <= j < v@.len() && stem_matches(#[trigger] v@[j], first, third);
                    }
                }
            },
        }
    }
    need
}


/// An alternative: at position `.0`, `.1` elements (one or two) may be
/// replaced by `.2` (and `.3`).
pub type Alt = (usize, usize, u8, u8);

pub open spec fn push_opt(s: Seq<Alt>, o: Option<Alt>) -> Seq<Alt> {
    match o {
        Some(a) => s.push(a),
        None => s,
    }
}

/// The alternative for the pair at `p` of a two-character phrase's code.
pub open spec fn pair_alt(code: Seq<u8>, p: usize) -> Option<Alt> {
    match full_alt_target_spec(code[p as int], code[p + 1]) {
        Some((t0, t1)) => Some((p, 2usize, t0, t1)),
        None => None,
    }
}

/// The alternative for the first element of character `c`'s slot `i`.
pub open spec fn slot_item(
    m: Map<char, Seq<Stem>>,
    c: char,
    code: Seq<u8>,
    i: usize,
    third: Option<u8>,
) -> Option<Alt> {
    match slot_alt_spec(m, c, code[i as int], third) {
        Some(t) => Some((i, 1usize, t, 0u8)),
        None => None,
    }
}

/// The alternatives of a phrase's code:
/// - two characters: each of the two pairs `0 1` and `2 3` that has another
///   way of typing;
/// - three characters: each character's first element (code positions 0,
///   1, 2, with third elements at 3, 4, 5) that has another first element;
/// - four or more: likewise for the first three and the last character
///   (positions 0 to 3, third elements at 4 and 5 for the first two).
pub open spec fn alts_spec(e: Phrase, m: Map<char, Seq<Stem>>) -> Seq<Alt> {
    let t = e.text@;
    let c = code_of(e);
    if t.len() == 2 {
        push_opt(push_opt(Seq::empty(), pair_alt(c, 0)), pair_alt(c, 2))
    } else if t.len() == 3 {
        push_opt(
            push_opt(
                push_opt(Seq::empty(), slot_item(m, t[0], c, 0, at(c, 3))),
                slot_item(m, t[1], c, 1, at(c, 4)),
            ),
            slot_item(m, t[2], c, 2, at(c, 5)),
        )
    } else {
        push_opt(
            push_opt(
                push_opt(
                    push_opt(Seq::empty(), slot_item(m, t[0], c, 0, at(c, 4))),
                    slot_item(m, t[1], c, 1, at(c, 5)),
                ),
                slot_item(m, t[2], c, 2, None),
            ),
            slot_item(m, t.last(), c, 3, None),
        )
    }
}

/// `base` with the alternatives among the first `k` that `mask` selects
/// (bit `i` for alternative `i`) applied.
pub open spec fn apply_alts(base: Seq<u8>, alts: Seq<Alt>, mask: u32, k: int) -> Seq<u8>
    decreases k,
{
    if k <= 0 {
        base
    } else {
        let b = apply_alts(base, alts, mask, k - 1);
        let a = alts[k - 1];
        if mask & (1u32 << ((k - 1) as u32)) != 0 {
            if a.1 == 2 {
                b.update(a.0 as int, a.2).update(a.0 + 1, a.3)
            } else {
                b.update(a.0 as int, a.2)
            }
        } else {
            b
        }
    }
}

/// The number of subsets of `k` alternatives.
pub open spec fn num_masks(k: nat) -> u32 {
    if k == 0 {
        1
    } else if k == 1 {
        2
    } else if k == 2 {
        4
    } else if k == 3 {
        8
    } else {
        16
    }
}

/// The code prefix that selecting `mask` of the phrase's alternatives gives.
pub open spec fn alt_key(e: Phrase, m: Map<char, Seq<Stem>>, mask: u32) -> Seq<u8> {
    let alts = alts_spec(e, m);
    apply_alts(code_of(e).take(spec_phrase_min_code_len(e.text@) as int), alts, mask, alts.len() as int)
}

/// Some phrase with text `text` has a code that starts with `key`, `mn`
/// bytes long.
pub open spec fn present(ps: Seq<Phrase>, text: Seq<char>, mn: int, key: Seq<u8>) -> bool {
    exists|i: int|
        0 <= i < ps.len() && (#[trigger] ps[i]).text@ == text && code_of(ps[i]).len() >= mn
            && code_of(ps[i]).take(mn) == key
}

/// The phrase's code uses a flying key, and some code that another way of
/// typing would give (at least one alternative applied) is missing from the
/// phrases of its text.
pub open spec fn triggered(ps: Seq<Phrase>, e: Phrase, m: Map<char, Seq<Stem>>) -> bool {
    let mn = spec_phrase_min_code_len(e.text@) as int;
    let alts = alts_spec(e, m);
    &&& e.text@.len() >= 2
    &&& code_of(e).len() >= mn
    &&& alts.len() > 0
    &&& exists|mask: u32|
        1 <= mask < num_masks(alts.len()) && !present(ps, e.text@, mn, #[trigger] alt_key(e, m, mask))
}

/// `key` is the prefix that some selection of the phrase's alternatives
/// (the empty one included) gives.
pub open spec fn covers(e: Phrase, m: Map<char, Seq<Stem>>, key: Seq<u8>) -> bool {
    exists|mask: u32| mask < num_masks(alts_spec(e, m).len()) && #[trigger] alt_key(e, m, mask) == key
}

/// A phrase is reported when its code prefix is one of the ways of typing
/// the code of a phrase, with the same text, that triggers.
pub open spec fn reported(ps: Seq<Phrase>, x: Phrase, m: Map<char, Seq<Stem>>) -> bool {
    let mn = spec_phrase_min_code_len(x.text@) as int;
    &&& x.text@.len() >= 2
    &&& code_of(x).len() >= mn
    &&& exists|i: int|
        0 <= i < ps.len() && (#[trigger] ps[i]).text@ == x.text@ && triggered(ps, ps[i], m)
            && covers(ps[i], m, code_of(x).take(mn))
}


/// Alternatives stay within the code prefix of length `mn`.
pub open spec fn alts_within(alts: Seq<Alt>, mn: int) -> bool {
    &&& alts.len() <= 4
    &&& forall|i: int|
        0 <= i < alts.len() ==> ((#[trigger] alts[i]).1 == 1 || alts[i].1 == 2) && alts[i].0
            + alts[i].1 <= mn
}

fn push_some(v: &mut Vec<Alt>, o: Option<Alt>)
    ensures
        final(v)@ == push_opt(old(v)@, o),
{
    match o {
        Some(a) => v.push(a),
        None => {},
    }
}

fn slot_item_exec(stems: &StemMap, c: char, code: &[u8], i: usize, third: Option<u8>) -> (r: Option<
    Alt,
>)
    requires
        i < code@.len(),
    ensures
        r == slot_item(stem_map_contents(*stems), c, code@, i, third),
{
    match slot_alt(stems, c, code[i], third) {
        Some(t) => Some((i, 1, t, 0)),
        None => None,
    }
}

fn at_exec(code: &[u8], i: usize) -> (r: Option<u8>)
    ensures
        r == at(code@, i as int),
{
    if i < code.len() {
        Some(code[i])
    } else {
        None
    }
}

/// The alternatives of a phrase's code.
fn compute_alts(e: &Phrase, stems: &StemMap) -> (r: Vec<Alt>)
    requires
        e.text@.len() >= 2,
        code_of(*e).len() >= spec_phrase_min_code_len(e.text@),
    ensures
        r@ == alts_spec(*e, stem_map_contents(*stems)),
        alts_within(r@, spec_phrase_min_code_len(e.text@) as int),
{
    let code = e.code.as_str().as_bytes();
    let text = e.text.as_str();
    let n = text.unicode_len();
    let mut r: Vec<Alt> = Vec::new();
    if n == 2 {
        let a0 = match full_alt_target(code[0], code[1]) {
            Some((t0, t1)) => Some((0usize, 2usize, t0, t1)),
            None => None,
        };
        push_some(&mut r, a0);
        let a1 = match full_alt_target(code[2], code[3]) {
            Some((t0, t1)) => Some((2usize, 2usize, t0, t1)),
            None => None,
        };
        push_some(&mut r, a1);
    } else if n == 3 {
        push_some(&mut r, slot_item_exec(stems, text.get_char(0), code, 0, at_exec(code, 3)));
        push_some(&mut r, slot_item_exec(stems, text.get_char(1), code, 1, at_exec(code, 4)));
        push_some(&mut r, slot_item_exec(stems, text.get_char(2), code, 2, at_exec(code, 5)));
    } else {
        push_some(&mut r, slot_item_exec(stems, text.get_char(0), code, 0, at_exec(code, 4)));
        push_some(&mut r, slot_item_exec(stems, text.get_char(1), code, 1, at_exec(code, 5)));
        push_some(&mut r, slot_item_exec(stems, text.get_char(2), code, 2, None));
        push_some(&mut r, slot_item_exec(stems, text.get_char(n - 1), code, 3, None));
    }
    r
}

/// The first `mn` bytes of `code` with the alternatives that `mask` selects
/// applied.
fn apply_exec(code: &[u8], mn: usize, alts: &Vec<Alt>, mask: u32) -> (r: Vec<u8>)
    requires
        mn <= code@.len(),
        alts_within(alts@, mn as int),
    ensures
        r@ == apply_alts(code@.take(mn as int), alts@, mask, alts@.len() as int),
        r@.len() == mn,
{
    let mut r: Vec<u8> = Vec::new();
    let mut i: usize = 0;
    while i < mn
        invariant
            mn <= code@.len(),
            i <= mn,
            r@ == code@.take(i as int),
        decreases mn - i,
    {
        r.push(code[i]);
        assert(r@ =~= code@.take(i + 1));
        i += 1;
    }
    let mut k: usize = 0;
    while k < alts.len()
        invariant
            alts_within(alts@, mn as int),
            k <= alts@.len(),
            r@ == apply_alts(code@.take(mn as int), alts@, mask, k as int),
            r@.len() == mn,
        decreases alts.len() - k,
    {
        let a = alts[k];
        assert(alts_within(alts@, mn as int));
        assert(a == alts@[k as int]);
        if mask & (1u32 << (k as u32)) != 0 {
            r.set(a.0, a.2);
            if a.1 == 2 {
                r.set(a.0 + 1, a.3);
            }
        }
        k += 1;
    }
    r
}


fn num_masks_exec(k: usize) -> (r: u32)
    requires
        k <= 4,
    ensures
        r == num_masks(k as nat),
        r <= 16,
{
    if k == 0 {
        1
    } else if k == 1 {
        2
    } else if k == 2 {
        4
    } else if k == 3 {
        8
    } else {
        16
    }
}

/// Some phrase of the run `lo..hi` has a code that starts with `key`.
fn present_in_group(es: &Vec<&Phrase>, lo: usize, hi: usize, mn: usize, key: &Vec<u8>) -> (r: bool)
    requires
        lo <= hi <= es@.len(),
        key@.len() == mn,
    ensures
        r == exists|j: int|
            lo <= j < hi && code_of(*(#[trigger] es@[j])).len() >= mn && code_of(*es@[j]).take(
                mn as int,
            ) == key@,
{
    let mut j = lo;
    while j < hi
        invariant
            lo <= j <= hi <= es@.len(),
            key@.len() == mn,
            forall|i: int|
                lo <= i < j ==> !(code_of(*(#[trigger] es@[i])).len() >= mn && code_of(
                    *es@[i],
                ).take(mn as int) == key@),
        decreases hi - j,
    {
        let c = es[j].code.as_str().as_bytes();
        if crate::order::starts_with(c, key.as_slice()) {
            assert(code_of(*es@[j as int]).take(mn as int) =~= key@);
            return true;
        }
        proof {
            if code_of(*es@[j as int]).len() >= mn && code_of(*es@[j as int]).take(mn as int)
                == key@ {
                assert(key@.is_prefix_of(c@));
            }
        }
        j += 1;
    }
    false
}

/// Some phrase satisfies `p`, which only phrases of a run's text can, exactly
/// when some phrase of the run does.
proof fn lemma_group_exists(
    ps: Seq<Phrase>,
    es: Seq<&Phrase>,
    lo: int,
    hi: int,
    p: spec_fn(Phrase) -> bool,
)
    requires
        es.map_values(|e: &Phrase| *e).to_multiset() == ps.to_multiset(),
        sorted_by(es, |a: &Phrase, b: &Phrase| phrase_le(*a, *b)),
        phrase_group(es, lo, hi),
        forall|x: Phrase| #[trigger] p(x) ==> x.text@ == es[lo].text@,
    ensures
        (exists|i: int| 0 <= i < ps.len() && #[trigger] p(ps[i])) <==> (exists|j: int|
            lo <= j < hi && #[trigger] p(*es[j])),
{
    let e = es.map_values(|e: &Phrase| *e);
    lemma_exists_perm(ps, e, p);
    lemma_phrase_group(es, lo, hi);
    if exists|j: int| 0 <= j < e.len() && #[trigger] p(e[j]) {
        let j = choose|j: int| 0 <= j < e.len() && #[trigger] p(e[j]);
        assert(e[j] == *es[j]);
        assert(lo <= j < hi);
    }
    if exists|j: int| lo <= j < hi && #[trigger] p(*es[j]) {
        let j = choose|j: int| lo <= j < hi && #[trigger] p(*es[j]);
        assert(e[j] == *es[j]);
        assert(p(e[j]));
    }
}

/// Entry `x` of the run is marked once the phrases `lo..a` are processed.
pub open spec fn marked(
    ps: Seq<Phrase>,
    es: Seq<&Phrase>,
    lo: int,
    a: int,
    x: Phrase,
    m: Map<char, Seq<Stem>>,
    mn: int,
) -> bool {
    &&& code_of(x).len() >= mn
    &&& exists|j: int|
        lo <= j < a && triggered(ps, *(#[trigger] es[j]), m) && covers(
            *es[j],
            m,
            code_of(x).take(mn),
        )
}


/// Whether some key of `keys` is a prefix of `code`.
fn any_key_prefix(keys: &Vec<Vec<u8>>, code: &[u8]) -> (r: bool)
    ensures
        r == exists|q: int| 0 <= q < keys@.len() && (#[trigger] keys@[q])@.is_prefix_of(code@),
{
    let mut q: usize = 0;
    while q < keys.len()
        invariant
            q <= keys@.len(),
            forall|qq: int| 0 <= qq < q ==> !(#[trigger] keys@[qq])@.is_prefix_of(code@),
        decreases keys.len() - q,
    {
        if crate::order::starts_with(code, keys[q].as_slice()) {
            return true;
        }
        q += 1;
    }
    false
}

/// Reports the marked phrases of the run `lo..hi` (all with one text).
fn check_text<'a>(
    ps: &[Phrase],
    es: &Vec<&'a Phrase>,
    lo: usize,
    hi: usize,
    stems: &StemMap,
    result: &mut Vec<&'a Phrase>,
)
    requires
        es@.map_values(|e: &Phrase| *e).to_multiset() == ps@.to_multiset(),
        sorted_by(es@, |a: &Phrase, b: &Phrase| phrase_le(*a, *b)),
        phrase_group(es@, lo as int, hi as int),
    ensures
        final(result)@ == old(result)@ + es@.subrange(lo as int, hi as int).filter(
            |x: &Phrase| reported(ps@, *x, stem_map_contents(*stems)),
        ),
{
    let ghost m = stem_map_contents(*stems);
    let ghost t = es@[lo as int].text@;
    let ghost rp = |x: &Phrase| reported(ps@, *x, m);
    let text = es[lo].text.as_str();
    if text.unicode_len() < 2 {
        proof {
            let g = es@.subrange(lo as int, hi as int);
            assert forall|i: int| 0 <= i < g.len() implies !rp(#[trigger] g[i]) by {
                assert(g[i] == es@[lo + i]);
            }
            g.lemma_all_neg_filter_empty(rp);
            assert(g.filter(rp) =~= Seq::<&Phrase>::empty());
        }
        assert(result@ =~= old(result)@ + es@.subrange(lo as int, hi as int).filter(rp));
        return;
    }
    let mn = phrase_min_code_len(text);
    let k = hi - lo;
    let mut marks: Vec<bool> = Vec::new();
    while marks.len() < k
        invariant
            marks@.len() <= k,
            forall|b: int| 0 <= b < marks@.len() ==> !marks@[b],
        decreases k - marks.len(),
    {
        marks.push(false);
    }
    let mut a = lo;
    while a < hi
        invariant
            phrase_group(es@, lo as int, hi as int),
            es@.map_values(|e: &Phrase| *e).to_multiset() == ps@.to_multiset(),
            sorted_by(es@, |a: &Phrase, b: &Phrase| phrase_le(*a, *b)),
            m == stem_map_contents(*stems),
            t == es@[lo as int].text@,
            t.len() >= 2,
            mn == spec_phrase_min_code_len(t),
            k == hi - lo,
            lo <= a <= hi,
            marks@.len() == k,
            forall|b: int|
                0 <= b < k ==> marks@[b] == marked(ps@, es@, lo as int, a as int, *es@[lo + b], m, mn as int),
        decreases hi - a,
    {
        let e = es[a];
        assert(e.text@ == t);
        let code = e.code.as_str().as_bytes();
        let ghost trig_spec = triggered(ps@, *e, m);
        if code.len() >= mn {
            let alts = compute_alts(e, stems);
            if alts.len() > 0 {
                let nm = num_masks_exec(alts.len());
                let mut keys: Vec<Vec<u8>> = Vec::new();
                let mut mask: u32 = 0;
                while mask < nm
                    invariant
                        nm == num_masks(alts@.len()),
                        nm <= 16,
                        mask <= nm,
                        keys@.len() == mask,
                        mn <= code@.len(),
                        code@ == code_of(*e),
                        alts@ == alts_spec(*e, m),
                        alts_within(alts@, mn as int),
                        mn == spec_phrase_min_code_len(e.text@),
                        forall|q: int|
                            0 <= q < mask ==> (#[trigger] keys@[q])@ == alt_key(*e, m, q as u32)
                                && keys@[q]@.len() == mn,
                    decreases nm - mask,
                {
                    let key = apply_exec(code, mn, &alts, mask);
                    keys.push(key);
                    mask += 1;
                }
                let mut trig = false;
                let mut q: usize = 1;
                while q < keys.len()
                    invariant
                        1 <= q <= keys@.len(),
                        keys@.len() == nm,
                        nm == num_masks(alts@.len()),
                        nm <= 16,
                        lo <= hi <= es@.len(),
                        forall|qq: int|
                            0 <= qq < nm ==> (#[trigger] keys@[qq])@ == alt_key(*e, m, qq as u32)
                                && keys@[qq]@.len() == mn,
                        trig <==> exists|qq: int|
                            1 <= qq < q && !exists|j: int|
                                lo <= j < hi && code_of(*(#[trigger] es@[j])).len() >= mn
                                    && code_of(*es@[j]).take(mn as int) == (#[trigger] keys@[qq])@,
                    decreases keys.len() - q,
                {
                    if !present_in_group(es, lo, hi, mn, &keys[q]) {
                        trig = true;
                    }
                    q += 1;
                }
                proof {
                    // the run holds exactly the phrases of its text
                    assert forall|mask: u32| 1 <= mask < nm implies (present(
                        ps@,
                        t,
                        mn as int,
                        #[trigger] alt_key(*e, m, mask),
                    ) <==> exists|j: int|
                        lo <= j < hi && code_of(*(#[trigger] es@[j])).len() >= mn && code_of(
                            *es@[j],
                        ).take(mn as int) == keys@[mask as int]@) by {
                        let key = alt_key(*e, m, mask);
                        assert(keys@[mask as int]@ == key);
                        let pr = |y: Phrase|
                            y.text@ == t && code_of(y).len() >= mn && code_of(y).take(mn as int)
                                == key;
                        lemma_group_exists(ps@, es@, lo as int, hi as int, pr);
                        if present(ps@, t, mn as int, key) {
                            let i = choose|i: int|
                                0 <= i < ps@.len() && (#[trigger] ps@[i]).text@ == t && code_of(
                                    ps@[i],
                                ).len() >= mn && code_of(ps@[i]).take(mn as int) == key;
                            assert(pr(ps@[i]));
                            let j = choose|j: int| lo <= j < hi && #[trigger] pr(*es@[j]);
                            assert(code_of(*es@[j]).len() >= mn);
                        }
                        if exists|j: int|
                            lo <= j < hi && code_of(*(#[trigger] es@[j])).len() >= mn && code_of(
                                *es@[j],
                            ).take(mn as int) == key {
                            let j = choose|j: int|
                                lo <= j < hi && code_of(*(#[trigger] es@[j])).len() >= mn
                                    && code_of(*es@[j]).take(mn as int) == key;
                            assert(es@[j].text@ == t);
                            assert(pr(*es@[j]));
                            let i = choose|i: int| 0 <= i < ps@.len() && #[trigger] pr(ps@[i]);
                            assert(ps@[i].text@ == t);
                        }
                    }
                    if trig {
                        let qq = choose|qq: int|
                            1 <= qq < nm && !exists|j: int|
                                lo <= j < hi && code_of(*(#[trigger] es@[j])).len() >= mn
                                    && code_of(*es@[j]).take(mn as int) == (#[trigger] keys@[qq])@;
                        assert(!present(ps@, t, mn as int, alt_key(*e, m, qq as u32)));
                        assert(trig_spec);
                    } else {
                        assert forall|mask: u32| 1 <= mask < nm implies present(
                            ps@,
                            t,
                            mn as int,
                            #[trigger] alt_key(*e, m, mask),
                        ) by {
                            assert(keys@[mask as int]@ == alt_key(*e, m, mask));
                        }
                        assert(!trig_spec);
                    }
                }
                if trig {
                    let mut b: usize = 0;
                    while b < k
                        invariant
                            b <= k,
                            k == hi - lo,
                            lo <= hi <= es@.len(),
                            marks@.len() == k,
                            keys@.len() == nm,
                            nm == num_masks(alts@.len()),
                            forall|qq: int|
                                0 <= qq < nm ==> (#[trigger] keys@[qq])@ == alt_key(*e, m, qq as u32)
                                    && keys@[qq]@.len() == mn,
                            trig_spec,
                            alts@ == alts_spec(*e, m),
                            forall|bb: int|
                                0 <= bb < b ==> marks@[bb] == (marked(ps@, es@, lo as int, a as int, *es@[lo + bb], m, mn as int)
                                    || (code_of(*es@[lo + bb]).len() >= mn && covers(*e, m, code_of(*es@[lo + bb]).take(mn as int)))),
                            forall|bb: int|
                                b <= bb < k ==> marks@[bb] == marked(ps@, es@, lo as int, a as int, *es@[lo + bb], m, mn as int),
                        decreases k - b,
                    {
                        let xc = es[lo + b].code.as_str().as_bytes();
                        let ghost x = *es@[lo + b];
                        let ghost cov = code_of(x).len() >= mn && covers(*e, m, code_of(x).take(mn as int));
                        if xc.len() >= mn {
                            let hit = any_key_prefix(&keys, xc);
                            proof {
                                if hit {
                                    let qq = choose|qq: int| 0 <= qq < keys@.len() && (#[trigger] keys@[qq])@.is_prefix_of(xc@);
                                    assert(keys@[qq]@ =~= code_of(x).take(mn as int));
                                    assert(alt_key(*e, m, qq as u32) == code_of(x).take(mn as int));
                                    assert((qq as u32) < num_masks(alts_spec(*e, m).len()));
                                    assert(cov);
                                } else if cov {
                                    let mask = choose|mask: u32| mask < num_masks(alts_spec(*e, m).len()) && #[trigger] alt_key(*e, m, mask) == code_of(x).take(mn as int);
                                    assert(keys@[mask as int]@ == code_of(x).take(mn as int));
                                    assert(keys@[mask as int]@.is_prefix_of(xc@));
                                }
                            }
                            if hit {
                                marks.set(b, true);
                            }
                        }
                        b += 1;
                    }
                }
            }
        }
        proof {
            assert forall|b: int| 0 <= b < k implies #[trigger] marks@[b] == marked(ps@, es@, lo as int, a + 1, *es@[lo + b], m, mn as int) by {
                let x = *es@[lo + b];
                let key = code_of(x).take(mn as int);
                if marked(ps@, es@, lo as int, a + 1, x, m, mn as int) && !marked(ps@, es@, lo as int, a as int, x, m, mn as int) {
                    let j = choose|j: int| lo <= j < a + 1 && triggered(ps@, *(#[trigger] es@[j]), m) && covers(*es@[j], m, key);
                    assert(j == a);
                }
                if marked(ps@, es@, lo as int, a as int, x, m, mn as int) {
                    let j = choose|j: int| lo <= j < a && triggered(ps@, *(#[trigger] es@[j]), m) && covers(*es@[j], m, key);
                    assert(lo <= j < a + 1);
                }
            }
        }
        a += 1;
    }
    proof {
        assert forall|bb: int| 0 <= bb < k implies #[trigger] marks@[bb] == rp(es@[lo + bb]) by {
            let x = *es@[lo + bb];
            assert(x.text@ == t);
            let key = code_of(x).take(mn as int);
            let pr = |y: Phrase| y.text@ == t && triggered(ps@, y, m) && covers(y, m, key);
            lemma_group_exists(ps@, es@, lo as int, hi as int, pr);
            if marked(ps@, es@, lo as int, hi as int, x, m, mn as int) {
                let j = choose|j: int|
                    lo <= j < hi && triggered(ps@, *(#[trigger] es@[j]), m) && covers(
                        *es@[j],
                        m,
                        key,
                    );
                assert(es@[j].text@ == t);
                assert(pr(*es@[j]));
                let i = choose|i: int| 0 <= i < ps@.len() && #[trigger] pr(ps@[i]);
                assert(reported(ps@, x, m));
            }
            if reported(ps@, x, m) {
                let i = choose|i: int|
                    0 <= i < ps@.len() && (#[trigger] ps@[i]).text@ == x.text@ && triggered(
                        ps@,
                        ps@[i],
                        m,
                    ) && covers(ps@[i], m, key);
                assert(pr(ps@[i]));
                let j = choose|j: int| lo <= j < hi && #[trigger] pr(*es@[j]);
                assert(marked(ps@, es@, lo as int, hi as int, x, m, mn as int));
            }
        }
    }
    let ghost old_result = result@;
    let mut b: usize = 0;
    while b < k
        invariant
            b <= k,
            k == hi - lo,
            lo <= hi <= es@.len(),
            marks@.len() == k,
            forall|bb: int| 0 <= bb < k ==> marks@[bb] == rp(es@[lo + bb]),
            result@ == old_result + es@.subrange(lo as int, lo + b).filter(rp),
        decreases k - b,
    {
        proof {
            let g = es@.subrange(lo as int, lo + b);
            assert(es@.subrange(lo as int, lo + b + 1) =~= g.push(es@[lo + b]));
            g.lemma_filter_push(es@[lo + b], rp);
        }
        if marks[b] {
            result.push(es[lo + b]);
        }
        b += 1;
    }
}


/// The phrases with a flying key whose alternative codes are incomplete,
/// together with those alternatives that are present, sorted by text and
/// then by code.
pub fn check<'a>(phrases: &'a [Phrase], stems: &StemMap) -> (r: Vec<&'a Phrase>)
    ensures
        r@.map_values(|e: &Phrase| *e).to_multiset() == phrases@.filter(
            |x: Phrase| reported(phrases@, x, stem_map_contents(*stems)),
        ).to_multiset(),
        sorted_by(r@, |a: &Phrase, b: &Phrase| phrase_le(*a, *b)),
{
    let ghost m = stem_map_contents(*stems);
    let ghost rp = |x: &Phrase| reported(phrases@, *x, m);
    let mut entries: Vec<&Phrase> = Vec::new();
    let mut i: usize = 0;
    while i < phrases.len()
        invariant
            i <= phrases@.len(),
            entries@.map_values(|e: &Phrase| *e) == phrases@.take(i as int),
        decreases phrases.len() - i,
    {
        let ghost old_entries = entries@;
        entries.push(&phrases[i]);
        assert(entries@.map_values(|e: &Phrase| *e) =~= old_entries.map_values(|e: &Phrase| *e).push(phrases@[i as int]));
        assert(phrases@.take(i + 1) =~= phrases@.take(i as int).push(phrases@[i as int]));
        i += 1;
    }
    assert(phrases@.take(phrases@.len() as int) =~= phrases@);
    let ghost before = entries@;
    par_sort_phrases(&mut entries);
    proof {
        lemma_map_perm(before, entries@, |e: &Phrase| *e);
    }
    let n = entries.len();
    let mut result: Vec<&Phrase> = Vec::new();
    let mut lo: usize = 0;
    while lo < n
        invariant
            n == entries@.len(),
            lo <= n,
            entries@.map_values(|e: &Phrase| *e).to_multiset() == phrases@.to_multiset(),
            sorted_by(entries@, |a: &Phrase, b: &Phrase| phrase_le(*a, *b)),
            lo == 0 || lo == n || entries@[lo - 1].text@ != entries@[lo as int].text@,
            m == stem_map_contents(*stems),
            rp == (|x: &Phrase| reported(phrases@, *x, m)),
            result@ == entries@.subrange(0, lo as int).filter(rp),
        decreases n - lo,
    {
        let hi = phrase_group_end(&entries, lo);
        let ghost prev = result@;
        check_text(phrases, &entries, lo, hi, stems, &mut result);
        proof {
            let a = entries@.subrange(0, lo as int);
            let b = entries@.subrange(lo as int, hi as int);
            assert(entries@.subrange(0, hi as int) =~= a + b);
            Seq::filter_distributes_over_add(a, b, rp);
            if hi < n {
                assert(entries@[hi - 1].text@ == entries@[lo as int].text@);
            }
        }
        lo = hi;
    }
    proof {
        assert(entries@.subrange(0, n as int) =~= entries@);
        lemma_filter_map_commute(entries@, |e: &Phrase| *e, |x: Phrase| reported(phrases@, x, m));
        let q = |x: Phrase| reported(phrases@, x, m);
        let f = |e: &Phrase| *e;
        assert((|x: &Phrase| q(f(x))) =~= rp);
        lemma_filter_perm(
            entries@.map_values(|e: &Phrase| *e),
            phrases@,
            |x: Phrase| reported(phrases@, x, m),
        );
        lemma_sorted_filter(entries@, |a: &Phrase, b: &Phrase| phrase_le(*a, *b), rp);
    }
    result
}

} // verus!

