//! The codes of at most six letters of a table of single characters, held
//! as sets of code numbers: which codes occur, and which occur for which
//! character.

use crate::entry::Single;
use crate::hashing::{
    key_set_contents, key_set_insert, key_set_new, pair_set_contents, pair_set_insert, pair_set_new,
    KeySet, PairSet,
};
use crate::keys::{
    code_key, key_of, keyable, lemma_key_bound, lemma_key_injective, lemma_key_wide_bound, lemma_pair_injective,
    letters, pack_pair, pair_spec,
};
use crate::keytao::MAX_CODE_N;
use crate::order::code_of;
use vstd::prelude::*;

verus! {

broadcast use vstd::seq_lib::group_seq_properties;

/// The code of `e` has at most six bytes.
pub open spec fn short(e: Single) -> bool {
    code_of(e).len() <= MAX_CODE_N
}

/// The entries whose codes have at most six bytes.
pub open spec fn short_entries(ss: Seq<Single>) -> Seq<Single> {
    ss.filter(|e: Single| short(e))
}

/// Every code of at most six bytes is made of letters.
pub open spec fn short_letters(ss: Seq<Single>) -> bool {
    forall|i: int| 0 <= i < ss.len() && short(#[trigger] ss[i]) ==> letters(code_of(ss[i]))
}

/// No code of at most six bytes has a byte before `a`.
pub open spec fn short_keyable(ss: Seq<Single>) -> bool {
    forall|i: int| 0 <= i < ss.len() && short(#[trigger] ss[i]) ==> keyable(code_of(ss[i]))
}

/// Every code has at most six bytes, none before `a`.
pub open spec fn keyed_short(es: Seq<Single>) -> bool {
    forall|m: int| 0 <= m < es.len() ==> keyable(code_of(#[trigger] es[m])) && short(es[m])
}

/// Every code is made of letters and has at most six bytes.
pub open spec fn numbered(es: Seq<Single>) -> bool {
    forall|m: int| 0 <= m < es.len() ==> letters(code_of(#[trigger] es[m])) && short(es[m])
}

/// Some entry has the code `c`.
pub open spec fn is_code(es: Seq<Single>, c: Seq<u8>) -> bool {
    exists|m: int| 0 <= m < es.len() && code_of(#[trigger] es[m]) == c
}

/// Some entry of character `t` has the code `c`.
pub open spec fn is_code_of(es: Seq<Single>, t: char, c: Seq<u8>) -> bool {
    exists|m: int| 0 <= m < es.len() && (#[trigger] es[m]).text == t && code_of(es[m]) == c
}

/// Some entry has a code with the number of `c` (for codes of letters:
/// the code `c` itself).
pub open spec fn num_code(es: Seq<Single>, c: Seq<u8>) -> bool {
    exists|m: int| 0 <= m < es.len() && key_of(code_of(#[trigger] es[m])) == key_of(c)
}

/// Some entry of character `t` has a code with the number of `c`.
pub open spec fn num_code_of(es: Seq<Single>, t: char, c: Seq<u8>) -> bool {
    exists|m: int| 0 <= m < es.len() && (#[trigger] es[m]).text == t && key_of(code_of(es[m])) == key_of(c)
}

/// No proper prefix of `c` is a code of `t`, and some proper prefix of it
/// is no code at all.
pub open spec fn orphan(es: Seq<Single>, t: char, c: Seq<u8>) -> bool {
    &&& forall|n: int| 1 <= n < c.len() ==> !is_code_of(es, t, #[trigger] c.take(n))
    &&& exists|n: int| 1 <= n < c.len() && !is_code(es, #[trigger] c.take(n))
}

/// No proper prefix of `c` numbers like a code of `t`, and some proper
/// prefix of it numbers like no code at all. For codes of letters, whose
/// numbers differ whenever the codes do, this is `orphan`.
pub open spec fn num_orphan(es: Seq<Single>, t: char, c: Seq<u8>) -> bool {
    &&& forall|n: int| 1 <= n < c.len() ==> !num_code_of(es, t, #[trigger] c.take(n))
    &&& exists|n: int| 1 <= n < c.len() && !num_code(es, #[trigger] c.take(n))
}

/// The set holds the numbers of the codes of `es`.
pub open spec fn key_set_of(s: Set<u32>, es: Seq<Single>) -> bool {
    forall|k: u32|
        #[trigger] s.contains(k) <==> exists|m: int|
            0 <= m < es.len() && key_of(code_of(#[trigger] es[m])) == k
}

/// The set holds the packed pairs of character and code number of `es`.
pub open spec fn pair_set_of(s: Set<u64>, es: Seq<Single>) -> bool {
    forall|p: u64|
        #[trigger] s.contains(p) <==> exists|m: int|
            0 <= m < es.len() && pair_spec((#[trigger] es[m]).text, key_of(code_of(es[m])) as u32) == p
}

/// Asking a set of code numbers for the number of `c` asks whether `c` is a
/// code.
pub proof fn lemma_key_query(s: Set<u32>, es: Seq<Single>, c: Seq<u8>)
    requires
        key_set_of(s, es),
        numbered(es),
        letters(c),
        c.len() <= MAX_CODE_N,
    ensures
        s.contains(key_of(c) as u32) <==> is_code(es, c),
{
    lemma_key_bound(c);
    if s.contains(key_of(c) as u32) {
        let m = choose|m: int| 0 <= m < es.len() && key_of(code_of(#[trigger] es[m])) == key_of(c) as u32;
        lemma_key_bound(code_of(es[m]));
        lemma_key_injective(code_of(es[m]), c);
    }
    if is_code(es, c) {
        let m = choose|m: int| 0 <= m < es.len() && code_of(#[trigger] es[m]) == c;
        assert(key_of(code_of(es[m])) == key_of(c) as u32);
    }
}

/// Asking a set of packed pairs for `t` and the number of `c` asks whether
/// `c` is a code of `t`.
pub proof fn lemma_pair_query(s: Set<u64>, es: Seq<Single>, t: char, c: Seq<u8>)
    requires
        pair_set_of(s, es),
        numbered(es),
        letters(c),
        c.len() <= MAX_CODE_N,
    ensures
        s.contains(pair_spec(t, key_of(c) as u32)) <==> is_code_of(es, t, c),
{
    lemma_key_bound(c);
    let q = pair_spec(t, key_of(c) as u32);
    if s.contains(q) {
        let m = choose|m: int|
            0 <= m < es.len() && pair_spec((#[trigger] es[m]).text, key_of(code_of(es[m])) as u32) == q;
        lemma_key_bound(code_of(es[m]));
        lemma_pair_injective(es[m].text, key_of(code_of(es[m])) as u32, t, key_of(c) as u32);
        lemma_key_injective(code_of(es[m]), c);
    }
    if is_code_of(es, t, c) {
        let m = choose|m: int| 0 <= m < es.len() && (#[trigger] es[m]).text == t && code_of(es[m]) == c;
        assert(pair_spec(es[m].text, key_of(code_of(es[m])) as u32) == q);
    }
}

/// Asking a set of code numbers for the number of `c` asks whether some
/// code numbers like `c`.
pub proof fn lemma_num_query(s: Set<u32>, es: Seq<Single>, c: Seq<u8>)
    requires
        key_set_of(s, es),
        keyed_short(es),
        keyable(c),
        c.len() <= MAX_CODE_N,
    ensures
        s.contains(key_of(c) as u32) <==> num_code(es, c),
{
    lemma_key_wide_bound(c);
    if s.contains(key_of(c) as u32) {
        let m = choose|m: int| 0 <= m < es.len() && key_of(code_of(#[trigger] es[m])) == key_of(c) as u32;
        lemma_key_wide_bound(code_of(es[m]));
    }
    if num_code(es, c) {
        let m = choose|m: int| 0 <= m < es.len() && key_of(code_of(#[trigger] es[m])) == key_of(c);
        assert(key_of(code_of(es[m])) == key_of(c) as u32);
    }
}

/// Asking a set of packed pairs for `t` and the number of `c` asks whether
/// some code of `t` numbers like `c`.
pub proof fn lemma_num_pair_query(s: Set<u64>, es: Seq<Single>, t: char, c: Seq<u8>)
    requires
        pair_set_of(s, es),
        keyed_short(es),
        keyable(c),
        c.len() <= MAX_CODE_N,
    ensures
        s.contains(pair_spec(t, key_of(c) as u32)) <==> num_code_of(es, t, c),
{
    lemma_key_wide_bound(c);
    let q = pair_spec(t, key_of(c) as u32);
    if s.contains(q) {
        let m = choose|m: int|
            0 <= m < es.len() && pair_spec((#[trigger] es[m]).text, key_of(code_of(es[m])) as u32) == q;
        lemma_key_wide_bound(code_of(es[m]));
        lemma_pair_injective(es[m].text, key_of(code_of(es[m])) as u32, t, key_of(c) as u32);
    }
    if num_code_of(es, t, c) {
        let m = choose|m: int| 0 <= m < es.len() && (#[trigger] es[m]).text == t && key_of(code_of(es[m])) == key_of(c);
        assert(pair_spec(es[m].text, key_of(code_of(es[m])) as u32) == q);
    }
}

/// The entries with codes of at most six bytes, the numbers of their codes,
/// and their pairs of character and code number.
pub fn code_sets<'a>(singles: &'a [Single]) -> (r: (Vec<&'a Single>, KeySet, PairSet))
    requires
        short_keyable(singles@),
    ensures
        r.0@.map_values(|e: &Single| *e) == short_entries(singles@),
        keyed_short(short_entries(singles@)),
        short_letters(singles@) ==> numbered(short_entries(singles@)),
        key_set_of(key_set_contents(r.1), short_entries(singles@)),
        pair_set_of(pair_set_contents(r.2), short_entries(singles@)),
{
    let ghost sp = |e: Single| short(e);
    let mut used = key_set_new(singles.len());
    let mut pairs = pair_set_new(singles.len());
    let mut entries: Vec<&Single> = Vec::new();
    let mut i: usize = 0;
    while i < singles.len()
        invariant
            i <= singles@.len(),
            short_keyable(singles@),
            sp == (|e: Single| short(e)),
            entries@.map_values(|e: &Single| *e) == singles@.take(i as int).filter(sp),
            keyed_short(singles@.take(i as int).filter(sp)),
            short_letters(singles@) ==> numbered(singles@.take(i as int).filter(sp)),
            key_set_of(key_set_contents(used), singles@.take(i as int).filter(sp)),
            pair_set_of(pair_set_contents(pairs), singles@.take(i as int).filter(sp)),
        decreases singles.len() - i,
    {
        let ghost before = singles@.take(i as int).filter(sp);
        let ghost x = singles@[i as int];
        proof {
            assert(singles@.take(i + 1) =~= singles@.take(i as int).push(x));
            singles@.take(i as int).lemma_filter_push(x, sp);
        }
        let e = &singles[i];
        let b = e.code.as_str().as_bytes();
        if b.len() <= MAX_CODE_N {
            proof {
                assert(short(x));
                assert(keyable(code_of(x)));
                lemma_key_wide_bound(code_of(x));
            }
            let k = code_key(b);
            let ghost old_used = key_set_contents(used);
            let ghost old_pairs = pair_set_contents(pairs);
            key_set_insert(&mut used, k);
            pair_set_insert(&mut pairs, pack_pair(e.text, k));
            let ghost old_entries = entries@;
            entries.push(e);
            proof {
                let now = before.push(x);
                assert(entries@.map_values(|e: &Single| *e) =~= old_entries.map_values(|e: &Single| *e).push(x));
                assert forall|m: int| 0 <= m < now.len() implies keyable(code_of(#[trigger] now[m])) && short(now[m]) by {
                    if m < before.len() {
                        assert(now[m] == before[m]);
                    }
                }
                if short_letters(singles@) {
                    assert forall|m: int| 0 <= m < now.len() implies letters(code_of(#[trigger] now[m])) && short(now[m]) by {
                        if m < before.len() {
                            assert(now[m] == before[m]);
                        } else {
                            assert(now[m] == singles@[i as int]);
                        }
                    }
                }
                assert forall|kk: u32| #[trigger] key_set_contents(used).contains(kk) <==> exists|m: int|
                    0 <= m < now.len() && key_of(code_of(#[trigger] now[m])) == kk by {
                    if old_used.contains(kk) {
                        let m = choose|m: int| 0 <= m < before.len() && key_of(code_of(#[trigger] before[m])) == kk;
                        assert(now[m] == before[m]);
                    }
                    if kk == k {
                        assert(now[before.len() as int] == x);
                    }
                    if exists|m: int| 0 <= m < now.len() && key_of(code_of(#[trigger] now[m])) == kk {
                        let m = choose|m: int| 0 <= m < now.len() && key_of(code_of(#[trigger] now[m])) == kk;
                        if m < before.len() {
                            assert(now[m] == before[m]);
                        }
                    }
                }
                assert forall|pp: u64| #[trigger] pair_set_contents(pairs).contains(pp) <==> exists|m: int|
                    0 <= m < now.len() && pair_spec((#[trigger] now[m]).text, key_of(code_of(now[m])) as u32) == pp by {
                    if old_pairs.contains(pp) {
                        let m = choose|m: int|
                            0 <= m < before.len() && pair_spec((#[trigger] before[m]).text, key_of(code_of(before[m])) as u32) == pp;
                        assert(now[m] == before[m]);
                    }
                    if pp == pair_spec(x.text, k) {
                        assert(now[before.len() as int] == x);
                    }
                    if exists|m: int| 0 <= m < now.len() && pair_spec((#[trigger] now[m]).text, key_of(code_of(now[m])) as u32) == pp {
                        let m = choose|m: int|
                            0 <= m < now.len() && pair_spec((#[trigger] now[m]).text, key_of(code_of(now[m])) as u32) == pp;
                        if m < before.len() {
                            assert(now[m] == before[m]);
                        }
                    }
                }
            }
        }
        i += 1;
    }
    assert(singles@.take(singles@.len() as int) =~= singles@);
    (entries, used, pairs)
}

} // verus!
