//! Colliding short codes (简码重码) of single characters: a short code of a
//! character that another entry has too.

use crate::chains::{count_codes, counts_of, gcnt, proper_prefix};
use crate::entry::Single;
use crate::groups::lemma_exists_perm;
use crate::hashing::{
    code_counts_contents, code_counts_get, code_groups_contents, code_groups_new, code_groups_push,
    code_groups_values, listed, strs_bytes, CodeCounts,
};
use crate::order::{bytes_eq, bytes_le, bytes_lt, code_of, dedup_strs, has_bytes, sort_strs, sorted_by};
use vstd::prelude::*;
use vstd::string::StringSliceAdditionalSpecFns;
use vstd::utf8::encode_utf8;

verus! {

broadcast use vstd::seq_lib::group_seq_properties;

/// The entry is of character `t`.
pub open spec fn text_is(t: char) -> spec_fn(Single) -> bool {
    |e: Single| e.text == t
}

/// The codes of the entries of character `t`, in table order.
pub open spec fn codes_of(ss: Seq<Single>, t: char) -> Seq<Seq<u8>> {
    ss.filter(text_is(t)).map_values(|e: Single| code_of(e))
}

/// The codes hold two different codes, and one that some other entry has
/// too.
pub open spec fn crowded_codes(ss: Seq<Single>, cs: Seq<Seq<u8>>) -> bool {
    &&& exists|a: int, b: int| 0 <= a < cs.len() && 0 <= b < cs.len() && #[trigger] cs[a] != #[trigger] cs[b]
    &&& exists|a: int| 0 <= a < cs.len() && gcnt(ss, #[trigger] cs[a]) > 1
}

/// Among crowded codes `cs`, `p` is one that some other entry has too and
/// that is a proper prefix of one of them.
pub open spec fn collision_in(ss: Seq<Single>, cs: Seq<Seq<u8>>, p: Seq<u8>) -> bool {
    &&& crowded_codes(ss, cs)
    &&& cs.contains(p)
    &&& gcnt(ss, p) > 1
    &&& exists|a: int| 0 <= a < cs.len() && proper_prefix(p, #[trigger] cs[a])
}

/// `p` collides among the codes of some character.
pub open spec fn collides(ss: Seq<Single>, p: Seq<u8>) -> bool {
    exists|t: char| #[trigger] collision_in(ss, codes_of(ss, t), p)
}

/// Every byte is ASCII.
pub open spec fn ascii_bytes(c: Seq<u8>) -> bool {
    forall|k: int| 0 <= k < c.len() ==> c[k] < 0x80
}

/// The codes of every character whose codes are crowded are ASCII.
pub open spec fn crowded_ascii(ss: Seq<Single>) -> bool {
    forall|i: int|
        0 <= i < ss.len() && crowded_codes(ss, codes_of(ss, (#[trigger] ss[i]).text)) ==> ascii_bytes(code_of(ss[i]))
}

/// What collides in a list collides in a list with all its elements.
proof fn lemma_more_elements(ss: Seq<Single>, u: Seq<Seq<u8>>, w: Seq<Seq<u8>>)
    requires
        forall|x: Seq<u8>| #[trigger] u.contains(x) ==> w.contains(x),
    ensures
        crowded_codes(ss, u) ==> crowded_codes(ss, w),
        forall|p: Seq<u8>| #[trigger] collision_in(ss, u, p) ==> collision_in(ss, w, p),
{
    if crowded_codes(ss, u) {
        let (i, j) = choose|i: int, j: int| 0 <= i < u.len() && 0 <= j < u.len() && #[trigger] u[i] != #[trigger] u[j];
        assert(u.contains(u[i]) && u.contains(u[j]));
        let i2 = choose|i2: int| 0 <= i2 < w.len() && w[i2] == u[i];
        let j2 = choose|j2: int| 0 <= j2 < w.len() && w[j2] == u[j];
        assert(w[i2] != w[j2]);
        let k = choose|k: int| 0 <= k < u.len() && gcnt(ss, #[trigger] u[k]) > 1;
        assert(u.contains(u[k]));
        let k2 = choose|k2: int| 0 <= k2 < w.len() && w[k2] == u[k];
        assert(gcnt(ss, w[k2]) > 1);
    }
    assert forall|p: Seq<u8>| #[trigger] collision_in(ss, u, p) implies collision_in(ss, w, p) by {
        let k = choose|k: int| 0 <= k < u.len() && proper_prefix(p, #[trigger] u[k]);
        assert(u.contains(u[k]));
        let k2 = choose|k2: int| 0 <= k2 < w.len() && w[k2] == u[k];
        assert(proper_prefix(p, w[k2]));
    }
}

/// Lists with the same elements agree on what collides in them.
proof fn lemma_same_elements(ss: Seq<Single>, a: Seq<Seq<u8>>, b: Seq<Seq<u8>>)
    requires
        forall|x: Seq<u8>| #[trigger] a.contains(x) <==> b.contains(x),
    ensures
        crowded_codes(ss, a) == crowded_codes(ss, b),
        forall|p: Seq<u8>| #[trigger] collision_in(ss, a, p) == collision_in(ss, b, p),
{
    lemma_more_elements(ss, a, b);
    lemma_more_elements(ss, b, a);
}

/// Whether some string of `d` has the bytes `s`.
fn contains_bytes(d: &Vec<&str>, s: &[u8]) -> (r: bool)
    ensures
        r == strs_bytes(d@).contains(s@),
{
    let mut j: usize = 0;
    while j < d.len()
        invariant
            j <= d@.len(),
            forall|k: int| 0 <= k < j ==> (#[trigger] d@[k]).spec_bytes() != s@,
        decreases d.len() - j,
    {
        if bytes_eq(d[j].as_bytes(), s) {
            assert(strs_bytes(d@)[j as int] == s@);
            return true;
        }
        j += 1;
    }
    proof {
        if strs_bytes(d@).contains(s@) {
            let k = choose|k: int| 0 <= k < strs_bytes(d@).len() && strs_bytes(d@)[k] == s@;
            assert(d@[k].spec_bytes() == s@);
        }
    }
    false
}

/// Whether more than one entry has the code `s`, by the counts.
fn shared(cnt: &CodeCounts, s: &str, Ghost(ss): Ghost<Seq<Single>>) -> (r: bool)
    requires
        counts_of(*cnt, ss),
    ensures
        r == (gcnt(ss, s.spec_bytes()) > 1),
{
    match code_counts_get(cnt, s) {
        Some(v) => v > 1,
        None => false,
    }
}

/// Appends to `result` the colliding codes among `codes`, the codes of one
/// character.
fn collisions_of<'a>(codes: Vec<&'a str>, cnt: &CodeCounts, result: &mut Vec<&'a str>, Ghost(ss): Ghost<Seq<Single>>)
    requires
        counts_of(*cnt, ss),
        crowded_codes(ss, strs_bytes(codes@)) ==> forall|a: int|
            0 <= a < codes@.len() ==> ascii_bytes((#[trigger] codes@[a]).spec_bytes()),
    ensures
        final(result)@.len() >= old(result)@.len(),
        forall|q: int| 0 <= q < old(result)@.len() ==> final(result)@[q] == old(result)@[q],
        forall|q: int|
            old(result)@.len() <= q < final(result)@.len() ==> collision_in(
                ss,
                strs_bytes(codes@),
                (#[trigger] final(result)@[q]).spec_bytes(),
            ),
        forall|p: Seq<u8>|
            collision_in(ss, strs_bytes(codes@), p) ==> exists|q: int|
                old(result)@.len() <= q < final(result)@.len() && (#[trigger] final(result)@[q]).spec_bytes() == p,
{
    broadcast use vstd::utf8::encode_utf8_valid_utf8;

    let ghost cs = strs_bytes(codes@);
    let ghost start = result@.len();
    let mut codes = codes;
    let ghost unsorted = codes@;
    sort_strs(&mut codes);
    let d = dedup_strs(&codes);
    let ghost ds = strs_bytes(d@);
    proof {
        assert forall|x: Seq<u8>| #[trigger] cs.contains(x) <==> ds.contains(x) by {
            let px = |s: &str| s.spec_bytes() == x;
            lemma_exists_perm(unsorted, codes@, px);
            if cs.contains(x) {
                let k = choose|k: int| 0 <= k < cs.len() && cs[k] == x;
                assert(px(unsorted[k]));
                let k2 = choose|k2: int| 0 <= k2 < codes@.len() && #[trigger] px(codes@[k2]);
                assert(has_bytes(codes@, x));
                let j = choose|j: int| 0 <= j < d@.len() && encode_utf8((#[trigger] d@[j])@) == x;
                assert(ds[j] == x);
            }
            if ds.contains(x) {
                let j = choose|j: int| 0 <= j < ds.len() && ds[j] == x;
                assert(encode_utf8(d@[j]@) == x);
                assert(has_bytes(d@, x));
                let k2 = choose|k2: int| 0 <= k2 < codes@.len() && encode_utf8((#[trigger] codes@[k2])@) == x;
                assert(px(codes@[k2]));
                let k = choose|k: int| 0 <= k < unsorted.len() && #[trigger] px(unsorted[k]);
                assert(cs[k] == x);
            }
        }
        lemma_same_elements(ss, cs, ds);
    }
    if d.len() < 2 {
        proof {
            if crowded_codes(ss, ds) {
                let (i, j) = choose|i: int, j: int| 0 <= i < ds.len() && 0 <= j < ds.len() && #[trigger] ds[i] != #[trigger] ds[j];
            }
        }
        return;
    }
    let mut any = false;
    let mut a: usize = 0;
    while a < d.len()
        invariant
            a <= d@.len(),
            ds == strs_bytes(d@),
            counts_of(*cnt, ss),
            any == exists|k: int| 0 <= k < a && gcnt(ss, #[trigger] ds[k]) > 1,
        decreases d.len() - a,
    {
        assert(ds[a as int] == d@[a as int].spec_bytes());
        if shared(cnt, d[a], Ghost(ss)) {
            any = true;
        }
        a += 1;
    }
    if !any {
        return;
    }
    proof {
        let (i, j) = (0int, 1int);
        assert(bytes_lt(encode_utf8(d@[0]@), encode_utf8(d@[1]@)));
        assert(ds[i] != ds[j]);
        assert(crowded_codes(ss, ds));
        assert forall|k: int| 0 <= k < d@.len() implies ascii_bytes((#[trigger] d@[k]).spec_bytes()) by {
            assert(ds.contains(ds[k]));
            assert(cs.contains(ds[k]));
            let k2 = choose|k2: int| 0 <= k2 < cs.len() && cs[k2] == ds[k];
            assert(crowded_codes(ss, cs));
            assert(cs[k2] == unsorted[k2].spec_bytes());
            assert(ascii_bytes(unsorted[k2].spec_bytes()));
        }
    }
    let mut a: usize = 0;
    while a < d.len()
        invariant
            a <= d@.len(),
            ds == strs_bytes(d@),
            counts_of(*cnt, ss),
            crowded_codes(ss, ds),
            forall|k: int| 0 <= k < d@.len() ==> ascii_bytes((#[trigger] d@[k]).spec_bytes()),
            forall|p: Seq<u8>| #[trigger] collision_in(ss, cs, p) == collision_in(ss, ds, p),
            result@.len() >= start,
            forall|q: int| 0 <= q < start ==> result@[q] == old(result)@[q],
            start == old(result)@.len(),
            forall|q: int| start <= q < result@.len() ==> collision_in(ss, cs, (#[trigger] result@[q]).spec_bytes()),
            forall|k: int, n: int|
                0 <= k < a && 1 <= n < ds[k].len() && collision_in(ss, ds, #[trigger] ds[k].take(n)) ==> exists|q: int|
                    start <= q < result@.len() && (#[trigger] result@[q]).spec_bytes() == ds[k].take(n),
        decreases d.len() - a,
    {
        let c = d[a];
        let cb = c.as_bytes();
        assert(cb@ == ds[a as int]);
        let mut n: usize = 1;
        while n < cb.len()
            invariant
                a < d@.len(),
                1 <= n,
                cb@ == ds[a as int],
                ds == strs_bytes(d@),
                c == d@[a as int],
                counts_of(*cnt, ss),
                crowded_codes(ss, ds),
                ascii_bytes(cb@),
                forall|p: Seq<u8>| #[trigger] collision_in(ss, cs, p) == collision_in(ss, ds, p),
                result@.len() >= start,
                forall|q: int| 0 <= q < start ==> result@[q] == old(result)@[q],
                start == old(result)@.len(),
                forall|q: int| start <= q < result@.len() ==> collision_in(ss, cs, (#[trigger] result@[q]).spec_bytes()),
                forall|k: int, m: int|
                    0 <= k < a && 1 <= m < ds[k].len() && collision_in(ss, ds, #[trigger] ds[k].take(m)) ==> exists|q: int|
                        start <= q < result@.len() && (#[trigger] result@[q]).spec_bytes() == ds[k].take(m),
                forall|m: int|
                    1 <= m < n && m < ds[a as int].len() && collision_in(ss, ds, #[trigger] ds[a as int].take(m)) ==> exists|q: int|
                        start <= q < result@.len() && (#[trigger] result@[q]).spec_bytes() == ds[a as int].take(m),
            decreases cb.len() - n,
        {
            proof {
                vstd::utf8::encode_utf8_valid_utf8(c@);
                vstd::utf8::is_char_boundary_iff_not_is_continuation_byte(cb@, n as int);
                assert(cb@[n as int] < 0x80);
            }
            let (s, _) = c.split_at(n);
            let ghost p = cb@.take(n as int);
            assert(s.spec_bytes() =~= p);
            let hit = contains_bytes(&d, s.as_bytes()) && shared(cnt, s, Ghost(ss));
            proof {
                assert(proper_prefix(p, ds[a as int]));
                assert(hit == collision_in(ss, ds, p));
            }
            if hit {
                let ghost old_res = result@;
                result.push(s);
                proof {
                    assert(result@[old_res.len() as int] == s);
                    assert forall|q: int| start <= q < result@.len() implies collision_in(ss, cs, (#[trigger] result@[q]).spec_bytes()) by {
                        if q < old_res.len() {
                            assert(result@[q] == old_res[q]);
                        }
                    }
                    assert forall|k: int, m: int|
                        0 <= k < a && 1 <= m < ds[k].len() && collision_in(ss, ds, #[trigger] ds[k].take(m)) implies exists|q: int|
                        start <= q < result@.len() && (#[trigger] result@[q]).spec_bytes() == ds[k].take(m) by {
                        let q = choose|q: int| start <= q < old_res.len() && (#[trigger] old_res[q]).spec_bytes() == ds[k].take(m);
                        assert(result@[q] == old_res[q]);
                    }
                    assert forall|m: int|
                        1 <= m < n + 1 && m < ds[a as int].len() && collision_in(ss, ds, #[trigger] ds[a as int].take(m)) implies exists|q: int|
                        start <= q < result@.len() && (#[trigger] result@[q]).spec_bytes() == ds[a as int].take(m) by {
                        if m < n {
                            let q = choose|q: int| start <= q < old_res.len() && (#[trigger] old_res[q]).spec_bytes() == ds[a as int].take(m);
                            assert(result@[q] == old_res[q]);
                        } else {
                            assert(result@[old_res.len() as int].spec_bytes() == p);
                        }
                    }
                }
            }
            n += 1;
        }
        a += 1;
    }
    proof {
        assert forall|p: Seq<u8>| collision_in(ss, cs, p) implies exists|q: int|
            start <= q < result@.len() && (#[trigger] result@[q]).spec_bytes() == p by {
            assert(collision_in(ss, ds, p));
            let k = choose|k: int| 0 <= k < ds.len() && proper_prefix(p, #[trigger] ds[k]);
            assert(ds[k].take(p.len() as int) =~= p);
        }
    }
}

/// Every collision is among the gathered codes, when the gathered codes
/// cover every list of codes of a character.
proof fn lemma_covered(ss: Seq<Single>, m: Map<char, Seq<Seq<u8>>>, all: Seq<Vec<&str>>, res: Seq<&str>)
    requires
        forall|t: char| #[trigger] m.contains_key(t) <==> exists|j: int| 0 <= j < ss.len() && (#[trigger] ss[j]).text == t,
        forall|t: char| #[trigger] m.contains_key(t) ==> m[t] == codes_of(ss, t),
        forall|t: char|
            #[trigger] m.contains_key(t) ==> exists|i: int| 0 <= i < all.len() && strs_bytes(#[trigger] all[i]@) == m[t],
        forall|gi: int, p: Seq<u8>|
            0 <= gi < all.len() && #[trigger] collision_in(ss, strs_bytes(all[gi]@), p) ==> exists|q: int|
                0 <= q < res.len() && (#[trigger] res[q]).spec_bytes() == p,
    ensures
        forall|p: Seq<u8>| collides(ss, p) ==> has_bytes(res, p),
{
    assert forall|p: Seq<u8>| collides(ss, p) implies has_bytes(res, p) by {
        let t = choose|t: char| #[trigger] collision_in(ss, codes_of(ss, t), p);
        let cs = codes_of(ss, t);
        assert(cs.contains(p));
        let f = ss.filter(text_is(t));
        assert(f.len() > 0);
        assert(f.contains(f[0]));
        ss.lemma_filter_contains_rev(text_is(t), f[0]);
        let j = choose|j: int| 0 <= j < ss.len() && ss[j] == f[0];
        assert(f[0].text == t) by {
            broadcast use vstd::seq_lib::group_filter_ensures;
        }
        assert(ss[j].text == t);
        assert(m.contains_key(t));
        let gi = choose|gi: int| 0 <= gi < all.len() && strs_bytes(#[trigger] all[gi]@) == m[t];
        assert(collision_in(ss, strs_bytes(all[gi]@), p));
        let q = choose|q: int| 0 <= q < res.len() && (#[trigger] res[q]).spec_bytes() == p;
        assert(encode_utf8(res[q]@) == p);
    }
}

/// Sorting and removing repeats keeps what collides, and all of it.
proof fn lemma_finish(ss: Seq<Single>, before: Seq<&str>, sorted: Seq<&str>, r: Seq<&str>)
    requires
        forall|q: int| 0 <= q < before.len() ==> collides(ss, (#[trigger] before[q]).spec_bytes()),
        forall|p: Seq<u8>| collides(ss, p) ==> has_bytes(before, p),
        sorted.to_multiset() == before.to_multiset(),
        forall|x: Seq<u8>|
            #![trigger has_bytes(sorted, x)]
            #![trigger has_bytes(r, x)]
            has_bytes(sorted, x) <==> has_bytes(r, x),
    ensures
        forall|q: int| 0 <= q < r.len() ==> collides(ss, (#[trigger] r[q]).spec_bytes()),
        forall|p: Seq<u8>| collides(ss, p) ==> exists|q: int| 0 <= q < r.len() && (#[trigger] r[q]).spec_bytes() == p,
{
    assert forall|x: Seq<u8>| #[trigger] has_bytes(before, x) <==> has_bytes(sorted, x) by {
        lemma_exists_perm(before, sorted, |s: &str| encode_utf8(s@) == x);
        if has_bytes(before, x) {
            let k = choose|k: int| 0 <= k < before.len() && encode_utf8((#[trigger] before[k])@) == x;
            assert((|s: &str| encode_utf8(s@) == x)(before[k]));
        }
        if has_bytes(sorted, x) {
            let k = choose|k: int| 0 <= k < sorted.len() && encode_utf8((#[trigger] sorted[k])@) == x;
            assert((|s: &str| encode_utf8(s@) == x)(sorted[k]));
        }
    }
    assert forall|q: int| 0 <= q < r.len() implies collides(ss, (#[trigger] r[q]).spec_bytes()) by {
        let x = r[q].spec_bytes();
        assert(has_bytes(r, x));
        assert(has_bytes(sorted, x));
        assert(has_bytes(before, x));
        let k = choose|k: int| 0 <= k < before.len() && encode_utf8((#[trigger] before[k])@) == x;
        assert(collides(ss, before[k].spec_bytes()));
    }
    assert forall|p: Seq<u8>| collides(ss, p) implies exists|q: int| 0 <= q < r.len() && (#[trigger] r[q]).spec_bytes() == p by {
        assert(has_bytes(before, p));
        assert(has_bytes(sorted, p));
        assert(has_bytes(r, p));
        let q = choose|q: int| 0 <= q < r.len() && encode_utf8((#[trigger] r[q])@) == p;
        assert(r[q].spec_bytes() == p);
    }
}

/// The colliding short codes, each once, in byte order.
pub fn check<'a>(singles: &'a [Single]) -> (r: Vec<&'a str>)
    requires
        singles@.len() < usize::MAX,
        crowded_ascii(singles@),
    ensures
        forall|q: int| 0 <= q < r@.len() ==> collides(singles@, (#[trigger] r@[q]).spec_bytes()),
        forall|p: Seq<u8>| collides(singles@, p) ==> exists|q: int| 0 <= q < r@.len() && (#[trigger] r@[q]).spec_bytes() == p,
        forall|a: int, b: int| 0 <= a < b < r@.len() ==> bytes_lt((#[trigger] r@[a]).spec_bytes(), (#[trigger] r@[b]).spec_bytes()),
{
    let ghost ss = singles@;
    let cnt = count_codes(singles);
    let mut grp = code_groups_new(singles.len());
    let mut i: usize = 0;
    while i < singles.len()
        invariant
            i <= ss.len(),
            ss == singles@,
            forall|t: char| #[trigger] code_groups_contents(grp).contains_key(t) <==> exists|j: int|
                0 <= j < i && (#[trigger] ss[j]).text == t,
            forall|t: char|
                #[trigger] code_groups_contents(grp).contains_key(t) ==> code_groups_contents(grp)[t] == codes_of(
                    ss.take(i as int),
                    t,
                ),
        decreases singles.len() - i,
    {
        let e = &singles[i];
        let ghost before = code_groups_contents(grp);
        code_groups_push(&mut grp, e.text, e.code.as_str());
        proof {
            let pre = ss.take(i as int);
            assert(ss.take(i + 1) =~= pre.push(*e));
            assert forall|t: char| #[trigger] code_groups_contents(grp).contains_key(t) <==> exists|j: int|
                0 <= j < i + 1 && (#[trigger] ss[j]).text == t by {
                if t == e.text {
                    assert(ss[i as int].text == t);
                }
            }
            assert forall|t: char|
                #[trigger] code_groups_contents(grp).contains_key(t) implies code_groups_contents(grp)[t] == codes_of(
                ss.take(i + 1),
                t,
            ) by {
                let tp = text_is(t);
                pre.lemma_filter_push(*e, tp);
                let f = |x: Single| code_of(x);
                if t == e.text {
                    if !before.contains_key(t) {
                        assert(pre.filter(tp) =~= Seq::<Single>::empty()) by {
                            assert forall|j: int| 0 <= j < pre.len() implies !tp(#[trigger] pre[j]) by {
                                assert(pre[j] == ss[j]);
                            }
                            pre.lemma_all_neg_filter_empty(tp);
                        }
                    }
                    assert(pre.filter(tp).push(*e).map_values(f) =~= pre.filter(tp).map_values(f).push(code_of(*e)));
                }
            }
        }
        i += 1;
    }
    assert(ss.take(ss.len() as int) =~= ss);
    let ghost m = code_groups_contents(grp);
    let mut groups = code_groups_values(grp);
    let ghost all = groups@;
    let mut result: Vec<&'a str> = Vec::new();
    while groups.len() > 0
        invariant
            ss == singles@,
            crowded_ascii(ss),
            counts_of(cnt, ss),
            groups@.len() <= all.len(),
            groups@ == all.take(groups@.len() as int),
            forall|gi: int| 0 <= gi < all.len() ==> listed(m, strs_bytes(#[trigger] all[gi]@)),
            forall|t: char| #[trigger] m.contains_key(t) ==> m[t] == codes_of(ss, t),
            forall|t: char| #[trigger] m.contains_key(t) <==> exists|j: int| 0 <= j < ss.len() && (#[trigger] ss[j]).text == t,
            forall|t: char|
                #[trigger] m.contains_key(t) ==> exists|i: int| 0 <= i < all.len() && strs_bytes(#[trigger] all[i]@) == m[t],
            forall|q: int| 0 <= q < result@.len() ==> collides(ss, (#[trigger] result@[q]).spec_bytes()),
            forall|gi: int, p: Seq<u8>|
                groups@.len() <= gi < all.len() && #[trigger] collision_in(ss, strs_bytes(all[gi]@), p) ==> exists|q: int|
                    0 <= q < result@.len() && (#[trigger] result@[q]).spec_bytes() == p,
        decreases groups@.len(),
    {
        let ghost gi = groups@.len() - 1;
        let codes = groups.pop().unwrap();
        assert(codes == all[gi]);
        assert(listed(m, strs_bytes(all[gi]@)));
        let ghost t = choose|t: char| m.contains_key(t) && #[trigger] m[t] == strs_bytes(all[gi]@);
        let ghost cs = strs_bytes(codes@);
        assert(cs == codes_of(ss, t));
        proof {
            if crowded_codes(ss, cs) {
                assert forall|a: int| 0 <= a < codes@.len() implies ascii_bytes((#[trigger] codes@[a]).spec_bytes()) by {
                    let f = ss.filter(text_is(t));
                    assert(cs[a] == code_of(f[a]));
                    assert(f.contains(f[a]));
                    ss.lemma_filter_contains_rev(text_is(t), f[a]);
                    let i = choose|i: int| 0 <= i < ss.len() && ss[i] == f[a];
                    broadcast use vstd::seq_lib::group_filter_ensures;
                    assert(f[a].text == t);
                    assert(crowded_codes(ss, codes_of(ss, ss[i].text)));
                }
            }
        }
        let ghost old_res = result@;
        collisions_of(codes, &cnt, &mut result, Ghost(ss));
        proof {
            assert forall|q: int| 0 <= q < result@.len() implies collides(ss, (#[trigger] result@[q]).spec_bytes()) by {
                if q < old_res.len() {
                    assert(result@[q] == old_res[q]);
                } else {
                    assert(collision_in(ss, codes_of(ss, t), result@[q].spec_bytes()));
                }
            }
            assert forall|gg: int, p: Seq<u8>|
                groups@.len() <= gg < all.len() && #[trigger] collision_in(ss, strs_bytes(all[gg]@), p) implies exists|q: int|
                0 <= q < result@.len() && (#[trigger] result@[q]).spec_bytes() == p by {
                if gg > gi {
                    let q = choose|q: int| 0 <= q < old_res.len() && (#[trigger] old_res[q]).spec_bytes() == p;
                    assert(result@[q] == old_res[q]);
                }
            }
        }
    }
    proof {
        lemma_covered(ss, m, all, result@);
    }
    let ghost before = result@;
    sort_strs(&mut result);
    let r = dedup_strs(&result);
    proof {
        lemma_finish(ss, before, result@, r@);
    }
    r
}

} // verus!
