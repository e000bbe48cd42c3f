//! Byte-wise lexicographic order of codes, the order of entries by text and
//! code, and the sorts that the checks use.

use crate::entry::{Phrase, Single};
use rayon::slice::ParallelSliceMut;
use vstd::prelude::*;
use vstd::utf8::encode_utf8;

verus! {

broadcast use vstd::seq_lib::group_seq_properties;

/// The bytes of an entry's code.
pub open spec fn code_of<T>(e: crate::entry::Entry<T>) -> Seq<u8> {
    encode_utf8(e.code@)
}

/// Lexicographic order on byte strings, the order of `[u8]` and `str`.
pub open spec fn bytes_le(a: Seq<u8>, b: Seq<u8>) -> bool
    decreases a.len(),
{
    if a.len() == 0 {
        true
    } else if b.len() == 0 {
        false
    } else if a[0] != b[0] {
        a[0] < b[0]
    } else {
        bytes_le(a.drop_first(), b.drop_first())
    }
}

/// Strictly before in lexicographic order.
pub open spec fn bytes_lt(a: Seq<u8>, b: Seq<u8>) -> bool {
    bytes_le(a, b) && a != b
}

pub proof fn lemma_bytes_le_refl(a: Seq<u8>)
    ensures
        bytes_le(a, a),
    decreases a.len(),
{
    if a.len() > 0 {
        lemma_bytes_le_refl(a.drop_first());
    }
}

pub proof fn lemma_bytes_le_total(a: Seq<u8>, b: Seq<u8>)
    ensures
        bytes_le(a, b) || bytes_le(b, a),
    decreases a.len(),
{
    if a.len() > 0 && b.len() > 0 && a[0] == b[0] {
        lemma_bytes_le_total(a.drop_first(), b.drop_first());
    }
}

pub proof fn lemma_bytes_le_antisym(a: Seq<u8>, b: Seq<u8>)
    requires
        bytes_le(a, b),
        bytes_le(b, a),
    ensures
        a == b,
    decreases a.len(),
{
    if a.len() > 0 {
        lemma_bytes_le_antisym(a.drop_first(), b.drop_first());
        assert(a =~= seq![a[0]] + a.drop_first());
        assert(b =~= seq![b[0]] + b.drop_first());
    } else {
        assert(b.len() == 0);
        assert(a =~= b);
    }
}

pub proof fn lemma_bytes_le_trans(a: Seq<u8>, b: Seq<u8>, c: Seq<u8>)
    requires
        bytes_le(a, b),
        bytes_le(b, c),
    ensures
        bytes_le(a, c),
    decreases a.len(),
{
    if a.len() > 0 && b.len() > 0 && c.len() > 0 && a[0] == b[0] && b[0] == c[0] {
        lemma_bytes_le_trans(a.drop_first(), b.drop_first(), c.drop_first());
    }
}

/// A prefix comes no later than what it is a prefix of.
pub proof fn lemma_prefix_le(a: Seq<u8>, b: Seq<u8>)
    requires
        a.is_prefix_of(b),
    ensures
        bytes_le(a, b),
    decreases a.len(),
{
    if a.len() > 0 {
        assert(a[0] == b[0]);
        assert(a.drop_first().is_prefix_of(b.drop_first())) by {
            assert forall|i: int| 0 <= i < a.len() - 1 implies a.drop_first()[i]
                == b.drop_first()[i] by {
                assert(a[i + 1] == b[i + 1]);
            }
        }
        lemma_prefix_le(a.drop_first(), b.drop_first());
    }
}

/// Whatever lies between `a` and an extension of `a` extends `a` too.
pub proof fn lemma_between_prefix(a: Seq<u8>, b: Seq<u8>, c: Seq<u8>)
    requires
        a.is_prefix_of(c),
        bytes_le(a, b),
        bytes_le(b, c),
    ensures
        a.is_prefix_of(b),
    decreases a.len(),
{
    if a.len() > 0 {
        assert(a[0] == c[0]);
        assert(b.len() > 0);
        assert(b[0] == a[0]);
        assert(a.drop_first().is_prefix_of(c.drop_first())) by {
            assert forall|i: int| 0 <= i < a.len() - 1 implies a.drop_first()[i]
                == c.drop_first()[i] by {
                assert(a[i + 1] == c[i + 1]);
            }
        }
        lemma_between_prefix(a.drop_first(), b.drop_first(), c.drop_first());
        assert forall|i: int| 0 <= i < a.len() implies a[i] == b[i] by {
            if i > 0 {
                assert(a.drop_first()[i - 1] == b.drop_first()[i - 1]);
            }
        }
    }
}

/// Whether `p` is a prefix of `s`.
pub fn starts_with(s: &[u8], p: &[u8]) -> (r: bool)
    ensures
        r == p@.is_prefix_of(s@),
{
    if p.len() > s.len() {
        return false;
    }
    let mut i: usize = 0;
    while i < p.len()
        invariant
            p@.len() <= s@.len(),
            i <= p@.len(),
            forall|j: int| 0 <= j < i ==> p@[j] == s@[j],
        decreases p.len() - i,
    {
        if p[i] != s[i] {
            return false;
        }
        i += 1;
    }
    true
}

/// Whether `a` and `b` are the same bytes.
pub fn bytes_eq(a: &[u8], b: &[u8]) -> (r: bool)
    ensures
        r == (a@ == b@),
{
    if a.len() != b.len() {
        return false;
    }
    let r = starts_with(a, b);
    proof {
        if r {
            assert(a@ =~= b@);
        }
    }
    r
}

/// Order of single-character entries: by character, then by code.
pub open spec fn single_le(a: Single, b: Single) -> bool {
    a.text < b.text || (a.text == b.text && bytes_le(code_of(a), code_of(b)))
}

/// Order of phrase entries: by the bytes of the text, then by code.
pub open spec fn phrase_le(a: Phrase, b: Phrase) -> bool {
    bytes_lt(encode_utf8(a.text@), encode_utf8(b.text@)) || (a.text@ == b.text@ && bytes_le(
        code_of(a),
        code_of(b),
    ))
}

/// `s` is sorted by `le`.
pub open spec fn sorted_by<A>(s: Seq<A>, le: spec_fn(A, A) -> bool) -> bool {
    forall|i: int, j: int| 0 <= i < j < s.len() ==> le(#[trigger] s[i], #[trigger] s[j])
}

/// `slice::sort_unstable_by_key` with the key `(text, code)`: the entries
/// are reordered, none added or lost, into ascending order of character
/// and then of code (std orders `char` by scalar value, `String` by bytes,
/// tuples lexicographically). The order of entries with equal keys is left
/// open.
#[verifier::external_body]
pub fn sort_singles(v: &mut Vec<&Single>)
    ensures
        final(v)@.to_multiset() == old(v)@.to_multiset(),
        sorted_by(final(v)@, |a: &Single, b: &Single| single_le(*a, *b)),
{
    v.sort_unstable_by_key(|e| (e.text, &e.code))
}

/// `slice::sort_unstable_by_key` with the key `text`: the entries are
/// reordered, none added or lost, into ascending order of character. The
/// order of entries with equal characters is left open.
#[verifier::external_body]
pub fn sort_singles_by_text(v: &mut Vec<&Single>)
    ensures
        final(v)@.to_multiset() == old(v)@.to_multiset(),
        sorted_by(final(v)@, |a: &Single, b: &Single| a.text <= b.text),
{
    v.sort_unstable_by_key(|e| e.text)
}

/// `slice::sort_unstable_by_key` with the key `(&text, &code)` on phrases:
/// reordered, none added or lost, into ascending order of text and then of
/// code, both compared by bytes. Equal keys come in an order left open.
#[verifier::external_body]
pub fn sort_phrases(v: &mut Vec<&Phrase>)
    ensures
        final(v)@.to_multiset() == old(v)@.to_multiset(),
        sorted_by(final(v)@, |a: &Phrase, b: &Phrase| phrase_le(*a, *b)),
{
    v.sort_unstable_by_key(|e| (&e.text, &e.code))
}

/// `ParallelSliceMut::par_sort_unstable_by_key` (rayon) with the key
/// `(&text, &code)`: the same result as `sort_phrases`, sorted in parallel.
#[verifier::external_body]
pub fn par_sort_phrases(v: &mut Vec<&Phrase>)
    ensures
        final(v)@.to_multiset() == old(v)@.to_multiset(),
        sorted_by(final(v)@, |a: &Phrase, b: &Phrase| phrase_le(*a, *b)),
{
    v.par_sort_unstable_by_key(|e| (&e.text, &e.code))
}

/// `slice::sort_unstable` on string slices: reordered, none added or lost,
/// into ascending order of their bytes.
#[verifier::external_body]
pub fn sort_strs(v: &mut Vec<&str>)
    ensures
        final(v)@.to_multiset() == old(v)@.to_multiset(),
        sorted_by(final(v)@, |a: &str, b: &str| bytes_le(encode_utf8(a@), encode_utf8(b@))),
{
    v.sort_unstable()
}

/// Some string of `v` has the bytes `x`.
pub open spec fn has_bytes(v: Seq<&str>, x: Seq<u8>) -> bool {
    exists|i: int| 0 <= i < v.len() && encode_utf8((#[trigger] v[i])@) == x
}

/// The strings of a list sorted by bytes, each once: the first of each run
/// of equal strings.
pub fn dedup_strs<'a>(v: &Vec<&'a str>) -> (r: Vec<&'a str>)
    requires
        sorted_by(v@, |a: &str, b: &str| bytes_le(encode_utf8(a@), encode_utf8(b@))),
    ensures
        forall|i: int, j: int|
            0 <= i < j < r@.len() ==> bytes_lt(encode_utf8((#[trigger] r@[i])@), encode_utf8((#[trigger] r@[j])@)),
        forall|x: Seq<u8>|
            #![trigger has_bytes(v@, x)]
            #![trigger has_bytes(r@, x)]
            has_bytes(v@, x) <==> has_bytes(r@, x),
{
    let mut r: Vec<&'a str> = Vec::new();
    let mut i: usize = 0;
    while i < v.len()
        invariant
            i <= v@.len(),
            sorted_by(v@, |a: &str, b: &str| bytes_le(encode_utf8(a@), encode_utf8(b@))),
            forall|a: int, b: int|
                0 <= a < b < r@.len() ==> bytes_lt(encode_utf8((#[trigger] r@[a])@), encode_utf8((#[trigger] r@[b])@)),
            i > 0 ==> r@.len() > 0 && encode_utf8(r@.last()@) == encode_utf8(v@[i - 1]@),
            r@.len() > 0 ==> i > 0,
            forall|x: Seq<u8>| #[trigger] has_bytes(v@.take(i as int), x) <==> has_bytes(r@, x),
        decreases v.len() - i,
    {
        let fresh = i == 0 || !bytes_eq(v[i - 1].as_bytes(), v[i].as_bytes());
        let ghost old_r = r@;
        let ghost vi = encode_utf8(v@[i as int]@);
        let ghost pre = v@.take(i as int);
        let ghost now = v@.take(i + 1);
        assert(now =~= pre.push(v@[i as int]));
        if fresh {
            r.push(v[i]);
            proof {
                if i > 0 {
                    let last = encode_utf8(v@[i - 1]@);
                    assert(bytes_le(last, vi));
                    assert forall|a: int| 0 <= a < old_r.len() implies bytes_lt(encode_utf8((#[trigger] old_r[a])@), vi) by {
                        let ra = encode_utf8(old_r[a]@);
                        if a < old_r.len() - 1 {
                            assert(bytes_lt(ra, encode_utf8(old_r[old_r.len() - 1]@)));
                        } else {
                            lemma_bytes_le_refl(ra);
                        }
                        lemma_bytes_le_trans(ra, last, vi);
                        if ra == vi {
                            lemma_bytes_le_antisym(last, vi);
                        }
                    }
                }
                assert forall|a: int, b: int| 0 <= a < b < r@.len() implies bytes_lt(
                    encode_utf8((#[trigger] r@[a])@),
                    encode_utf8((#[trigger] r@[b])@),
                ) by {
                    if b < old_r.len() {
                        assert(r@[a] == old_r[a] && r@[b] == old_r[b]);
                    } else {
                        assert(r@[a] == old_r[a]);
                    }
                }
                assert forall|x: Seq<u8>| #[trigger] has_bytes(now, x) <==> has_bytes(r@, x) by {
                    if has_bytes(now, x) {
                        let k = choose|k: int| 0 <= k < now.len() && encode_utf8((#[trigger] now[k])@) == x;
                        if k < i {
                            assert(pre[k] == now[k]);
                            assert(has_bytes(pre, x));
                            let j = choose|j: int| 0 <= j < old_r.len() && encode_utf8((#[trigger] old_r[j])@) == x;
                            assert(r@[j] == old_r[j]);
                        } else {
                            assert(r@[old_r.len() as int] == v@[i as int]);
                        }
                    }
                    if has_bytes(r@, x) {
                        let j = choose|j: int| 0 <= j < r@.len() && encode_utf8((#[trigger] r@[j])@) == x;
                        if j < old_r.len() {
                            assert(r@[j] == old_r[j]);
                            assert(has_bytes(old_r, x));
                            assert(has_bytes(pre, x) <==> has_bytes(old_r, x));
                            let k = choose|k: int| 0 <= k < pre.len() && encode_utf8((#[trigger] pre[k])@) == x;
                            assert(now[k] == pre[k]);
                        } else {
                            assert(now[i as int] == v@[i as int]);
                        }
                    }
                }
            }
        } else {
            proof {
                assert forall|x: Seq<u8>| #[trigger] has_bytes(now, x) <==> has_bytes(r@, x) by {
                    if has_bytes(now, x) {
                        let k = choose|k: int| 0 <= k < now.len() && encode_utf8((#[trigger] now[k])@) == x;
                        if k == i {
                            assert(pre[i - 1] == v@[i - 1]);
                            assert(has_bytes(pre, x));
                        } else {
                            assert(pre[k] == now[k]);
                            assert(has_bytes(pre, x));
                        }
                    }
                    assert(has_bytes(pre, x) <==> has_bytes(r@, x));
                    if has_bytes(pre, x) {
                        let k = choose|k: int| 0 <= k < pre.len() && encode_utf8((#[trigger] pre[k])@) == x;
                        assert(now[k] == pre[k]);
                    }
                }
            }
        }
        i += 1;
    }
    assert(v@.take(v@.len() as int) =~= v@);
    r
}

/// Order of single-character entries by character, code and position.
pub open spec fn index_le(singles: Seq<Single>, i: usize, j: usize) -> bool {
    let a = singles[i as int];
    let b = singles[j as int];
    a.text < b.text || (a.text == b.text && (bytes_lt(code_of(a), code_of(b)) || (code_of(a)
        == code_of(b) && i <= j)))
}

/// `slice::sort_unstable_by_key` on positions of `singles` with the key
/// `(text, &code, position)`: the positions are reordered, none added or
/// lost, into ascending order of character, then code, then position.
#[verifier::external_body]
pub fn sort_positions(order: &mut Vec<usize>, singles: &[Single])
    requires
        forall|k: int| 0 <= k < old(order)@.len() ==> old(order)@[k] < singles@.len(),
    ensures
        final(order)@.to_multiset() == old(order)@.to_multiset(),
        sorted_by(final(order)@, |i: usize, j: usize| index_le(singles@, i, j)),
{
    order.sort_unstable_by_key(|&i| (singles[i].text, &singles[i].code, i))
}

/// The text of phrase `i` comes no later than that of phrase `j`, by bytes.
pub open spec fn text_le(phrases: Seq<Phrase>, i: usize, j: usize) -> bool {
    bytes_le(encode_utf8(phrases[i as int].text@), encode_utf8(phrases[j as int].text@))
}

/// `slice::sort_unstable_by_key` on positions of `phrases` with the key
/// `&text`: the positions are reordered, none added or lost, into ascending
/// order of the phrases' texts (std orders `String` by bytes). The order of
/// positions with equal texts is left open.
#[verifier::external_body]
pub fn sort_positions_by_text(order: &mut Vec<usize>, phrases: &[Phrase])
    requires
        forall|k: int| 0 <= k < old(order)@.len() ==> old(order)@[k] < phrases@.len(),
    ensures
        final(order)@.to_multiset() == old(order)@.to_multiset(),
        sorted_by(final(order)@, |i: usize, j: usize| text_le(phrases@, i, j)),
{
    order.sort_unstable_by_key(|&i| &phrases[i].text)
}

/// A multiset of a filtered sequence is the filtered multiset.
pub proof fn lemma_filter_to_multiset<A>(s: Seq<A>, p: spec_fn(A) -> bool)
    ensures
        s.filter(p).to_multiset() =~= s.to_multiset().filter(p),
    decreases s.len(),
{
    broadcast use vstd::seq_lib::group_to_multiset_ensures;
    broadcast use vstd::multiset::group_multiset_axioms;

    if s.len() == 0 {
        assert(s.filter(p) =~= Seq::<A>::empty());
    } else {
        let t = s.drop_last();
        assert(s =~= t.push(s.last()));
        lemma_filter_to_multiset(t, p);
        t.lemma_filter_push(s.last(), p);
        assert forall|x: A| #[trigger] s.filter(p).to_multiset().count(x) == s.to_multiset().filter(
            p,
        ).count(x) by {}
    }
}

/// Sequences with the same elements have filters with the same elements.
pub proof fn lemma_filter_perm<A>(s1: Seq<A>, s2: Seq<A>, p: spec_fn(A) -> bool)
    requires
        s1.to_multiset() == s2.to_multiset(),
    ensures
        s1.filter(p).to_multiset() == s2.filter(p).to_multiset(),
        s1.filter(p).len() == s2.filter(p).len(),
{
    broadcast use vstd::seq_lib::group_to_multiset_ensures;

    lemma_filter_to_multiset(s1, p);
    lemma_filter_to_multiset(s2, p);
    s1.filter(p).to_multiset_ensures();
    s2.filter(p).to_multiset_ensures();
}

/// Filtering by a property of the image, then mapping, is mapping, then
/// filtering.
pub proof fn lemma_filter_map_commute<A, B>(s: Seq<A>, f: spec_fn(A) -> B, q: spec_fn(B) -> bool)
    ensures
        s.filter(|x: A| q(f(x))).map_values(f) == s.map_values(f).filter(q),
    decreases s.len(),
{
    let p = |x: A| q(f(x));
    if s.len() == 0 {
        assert(s.filter(p).map_values(f) =~= Seq::<B>::empty());
        assert(s.map_values(f).filter(q) =~= Seq::<B>::empty());
    } else {
        let t = s.drop_last();
        assert(s =~= t.push(s.last()));
        lemma_filter_map_commute(t, f, q);
        t.lemma_filter_push(s.last(), p);
        assert(s.map_values(f) =~= t.map_values(f).push(f(s.last())));
        t.map_values(f).lemma_filter_push(f(s.last()), q);
        if p(s.last()) {
            assert(s.filter(p).map_values(f) =~= t.filter(p).map_values(f).push(f(s.last())));
        } else {
            assert(s.filter(p).map_values(f) =~= t.filter(p).map_values(f));
        }
    }
}

/// Reordering a sequence reorders its image under `f`.
pub proof fn lemma_map_perm<A, B>(a: Seq<A>, b: Seq<A>, f: spec_fn(A) -> B)
    requires
        a.to_multiset() == b.to_multiset(),
    ensures
        a.map_values(f).to_multiset() == b.map_values(f).to_multiset(),
    decreases a.len(),
{
    broadcast use vstd::seq_lib::group_to_multiset_ensures;
    broadcast use vstd::multiset::group_multiset_axioms;

    a.to_multiset_ensures();
    b.to_multiset_ensures();
    if a.len() == 0 {
        assert(b.len() == 0);
        assert(a.map_values(f) =~= b.map_values(f));
    } else {
        let x = a.last();
        let a1 = a.drop_last();
        assert(a =~= a1.push(x));
        assert(b.to_multiset().count(x) > 0);
        assert(b.contains(x));
        let k = choose|k: int| 0 <= k < b.len() && b[k] == x;
        let b1 = b.remove(k);
        assert(a1.to_multiset() =~= b1.to_multiset());
        lemma_map_perm(a1, b1, f);
        assert(a.map_values(f) =~= a1.map_values(f).push(f(x)));
        let mb = b.map_values(f);
        assert(mb.remove(k) =~= b1.map_values(f));
        mb.to_multiset_ensures();
        assert(mb[k] == f(x));
        assert(mb.to_multiset().count(f(x)) > 0) by {
            assert(mb.contains(f(x)));
        }
        assert(mb.to_multiset() =~= b1.map_values(f).to_multiset().insert(f(x)));
    }
}

} // verus!
