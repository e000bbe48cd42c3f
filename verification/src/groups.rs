//! Runs of entries with the same text in a sorted sequence: they hold every
//! entry with that text, and nothing else.

use crate::entry::{Phrase, Single};
use crate::order::{
    bytes_le, bytes_lt, lemma_bytes_le_antisym, lemma_filter_perm, lemma_map_perm, phrase_le,
    single_le, sort_singles, sorted_by,
};
use vstd::prelude::*;
use vstd::utf8::{encode_utf8, encode_utf8_decode_utf8};

verus! {

broadcast use vstd::seq_lib::group_seq_properties;

/// A filter of a sorted sequence is sorted.
pub proof fn lemma_sorted_filter<A>(s: Seq<A>, le: spec_fn(A, A) -> bool, p: spec_fn(A) -> bool)
    requires
        sorted_by(s, le),
    ensures
        sorted_by(s.filter(p), le),
    decreases s.len(),
{
    if s.len() > 0 {
        let t = s.drop_last();
        assert(s =~= t.push(s.last()));
        assert(sorted_by(t, le)) by {
            assert forall|i: int, j: int| 0 <= i < j < t.len() implies le(
                #[trigger] t[i],
                #[trigger] t[j],
            ) by {
                assert(t[i] == s[i] && t[j] == s[j]);
            }
        }
        lemma_sorted_filter(t, le, p);
        t.lemma_filter_push(s.last(), p);
        if p(s.last()) {
            let f = s.filter(p);
            assert forall|i: int, j: int| 0 <= i < j < f.len() implies le(
                #[trigger] f[i],
                #[trigger] f[j],
            ) by {
                if j == f.len() - 1 {
                    let x = f[i];
                    assert(x == t.filter(p)[i]);
                    assert(t.filter(p).contains(x));
                    t.lemma_filter_contains_rev(p, x);
                    let k = choose|k: int| 0 <= k < t.len() && t[k] == x;
                    assert(s[k] == t[k]);
                    assert(s[s.len() - 1] == s.last());
                    assert(le(s[k], s[s.len() - 1]));
                } else {
                    assert(f[i] == t.filter(p)[i]);
                    assert(f[j] == t.filter(p)[j]);
                }
            }
        }
    }
}

/// Some element of a sequence satisfies `p` exactly when some element of a
/// reordering of it does.
pub proof fn lemma_exists_perm<A>(a: Seq<A>, b: Seq<A>, p: spec_fn(A) -> bool)
    requires
        a.to_multiset() == b.to_multiset(),
    ensures
        (exists|i: int| 0 <= i < a.len() && #[trigger] p(a[i])) <==> (exists|j: int|
            0 <= j < b.len() && #[trigger] p(b[j])),
{
    broadcast use vstd::seq_lib::group_to_multiset_ensures;

    a.to_multiset_ensures();
    b.to_multiset_ensures();
    if exists|i: int| 0 <= i < a.len() && #[trigger] p(a[i]) {
        let i = choose|i: int| 0 <= i < a.len() && #[trigger] p(a[i]);
        assert(a.contains(a[i]));
        assert(a.to_multiset().count(a[i]) > 0);
        assert(b.to_multiset().count(a[i]) > 0);
        assert(b.contains(a[i]));
        let j = choose|j: int| 0 <= j < b.len() && b[j] == a[i];
        assert(p(b[j]));
    }
    if exists|j: int| 0 <= j < b.len() && #[trigger] p(b[j]) {
        let j = choose|j: int| 0 <= j < b.len() && #[trigger] p(b[j]);
        assert(b.contains(b[j]));
        assert(b.to_multiset().count(b[j]) > 0);
        assert(a.to_multiset().count(b[j]) > 0);
        assert(a.contains(b[j]));
        let i = choose|i: int| 0 <= i < a.len() && a[i] == b[j];
        assert(p(a[i]));
    }
}

/// The run `lo..hi` of a sequence of phrases sorted by text and code holds
/// every phrase with that text.
pub open spec fn phrase_group(s: Seq<&Phrase>, lo: int, hi: int) -> bool {
    &&& 0 <= lo < hi <= s.len()
    &&& forall|j: int| lo <= j < hi ==> (#[trigger] s[j]).text@ == s[lo].text@
    &&& (lo == 0 || s[lo - 1].text@ != s[lo].text@)
    &&& (hi == s.len() || s[hi].text@ != s[lo].text@)
}

/// Outside its run, no phrase has the run's text.
pub proof fn lemma_phrase_group(s: Seq<&Phrase>, lo: int, hi: int)
    requires
        sorted_by(s, |a: &Phrase, b: &Phrase| phrase_le(*a, *b)),
        phrase_group(s, lo, hi),
    ensures
        forall|j: int| 0 <= j < s.len() && (j < lo || hi <= j) ==> (#[trigger] s[j]).text@ != s[lo].text@,
{
    let t = s[lo].text@;
    assert forall|j: int| 0 <= j < s.len() && (j < lo || hi <= j) implies (
    #[trigger] s[j]).text@ != t by {
        if s[j].text@ == t {
            if j < lo {
                let m = s[lo - 1];
                assert(phrase_le(*s[j], *m));
                assert(phrase_le(*m, *s[lo]));
                lemma_text_between(t, m.text@);
            } else {
                let m = s[hi];
                assert(phrase_le(*s[hi - 1], *m));
                assert(phrase_le(*m, *s[j]));
                assert(s[hi - 1].text@ == t);
                lemma_text_between(t, m.text@);
            }
        }
    }
}

/// A text that sorts both after and before `t` is `t`.
proof fn lemma_text_between(t: Seq<char>, u: Seq<char>)
    requires
        bytes_lt(encode_utf8(t), encode_utf8(u)) || t == u,
        bytes_lt(encode_utf8(u), encode_utf8(t)) || u == t,
    ensures
        t == u,
{
    if t != u {
        lemma_bytes_le_antisym(encode_utf8(t), encode_utf8(u));
    }
}

/// Whether two phrases have the same text.
pub fn same_phrase_text(a: &Phrase, b: &Phrase) -> (r: bool)
    ensures
        r == (a.text@ == b.text@),
{
    a.text == b.text
}

/// The end of the run of phrases that starts at `lo`.
pub fn phrase_group_end(s: &Vec<&Phrase>, lo: usize) -> (hi: usize)
    requires
        lo < s@.len(),
        lo == 0 || s@[lo - 1].text@ != s@[lo as int].text@,
    ensures
        phrase_group(s@, lo as int, hi as int),
{
    let n = s.len();
    let mut hi = lo + 1;
    while hi < s.len() && same_phrase_text(s[hi], s[lo])
        invariant
            lo < hi <= s@.len(),
            forall|j: int| lo <= j < hi ==> (#[trigger] s@[j]).text@ == s@[lo as int].text@,
        decreases s.len() - hi,
    {
        hi += 1;
    }
    hi
}

/// The run `lo..hi` of a sequence of single characters sorted by character
/// holds every entry of that character.
pub open spec fn single_group(s: Seq<&Single>, lo: int, hi: int) -> bool {
    &&& 0 <= lo < hi <= s.len()
    &&& forall|j: int| lo <= j < hi ==> (#[trigger] s[j]).text == s[lo].text
    &&& (lo == 0 || s[lo - 1].text != s[lo].text)
    &&& (hi == s.len() || s[hi].text != s[lo].text)
}

/// Outside its run, no entry has the run's character.
pub proof fn lemma_single_group(s: Seq<&Single>, lo: int, hi: int)
    requires
        sorted_by(s, |a: &Single, b: &Single| a.text <= b.text),
        single_group(s, lo, hi),
    ensures
        forall|j: int| 0 <= j < s.len() && (j < lo || hi <= j) ==> (#[trigger] s[j]).text != s[lo].text,
{
    let t = s[lo].text;
    assert forall|j: int| 0 <= j < s.len() && (j < lo || hi <= j) implies (
    #[trigger] s[j]).text != t by {
        if s[j].text == t {
            if j < lo {
                assert(s[j].text <= s[lo - 1].text);
                assert(s[lo - 1].text <= s[lo].text);
            } else {
                assert(s[hi - 1].text <= s[hi].text);
                assert(s[hi].text <= s[j].text);
                assert(s[hi - 1].text == t);
            }
        }
    }
}

/// Sorted by character and code means sorted by character.
pub proof fn lemma_single_sorted_by_text(s: Seq<&Single>)
    requires
        sorted_by(s, |a: &Single, b: &Single| single_le(*a, *b)),
    ensures
        sorted_by(s, |a: &Single, b: &Single| a.text <= b.text),
{
    assert forall|i: int, j: int| 0 <= i < j < s.len() implies (#[trigger] s[i]).text <= (#[trigger] s[j]).text by {
        assert(single_le(*s[i], *s[j]));
    }
}

/// The end of the run of single characters that starts at `lo`.
pub fn single_group_end(s: &Vec<&Single>, lo: usize) -> (hi: usize)
    requires
        lo < s@.len(),
        lo == 0 || s@[lo - 1].text != s@[lo as int].text,
    ensures
        single_group(s@, lo as int, hi as int),
{
    let n = s.len();
    let mut hi = lo + 1;
    while hi < s.len() && s[hi].text == s[lo].text
        invariant
            lo < hi <= s@.len(),
            forall|j: int| lo <= j < hi ==> (#[trigger] s@[j]).text == s@[lo as int].text,
        decreases s.len() - hi,
    {
        hi += 1;
    }
    hi
}

/// Entries that satisfy `p`, which only entries of a run's character can,
/// are counted alike over all entries and over the run.
pub proof fn lemma_single_group_count(
    ss: Seq<Single>,
    es: Seq<&Single>,
    lo: int,
    hi: int,
    p: spec_fn(Single) -> bool,
)
    requires
        es.map_values(|e: &Single| *e).to_multiset() == ss.to_multiset(),
        sorted_by(es, |a: &Single, b: &Single| a.text <= b.text),
        single_group(es, lo, hi),
        forall|x: Single| #[trigger] p(x) ==> x.text == es[lo].text,
    ensures
        ss.filter(p).len() == es.subrange(lo, hi).map_values(|e: &Single| *e).filter(p).len(),
{
    let e = es.map_values(|e: &Single| *e);
    lemma_filter_perm(e, ss, p);
    lemma_single_group(es, lo, hi);
    let a = e.subrange(0, lo);
    let b = e.subrange(lo, hi);
    let c = e.subrange(hi, e.len() as int);
    assert(e =~= a + b + c);
    assert(b =~= es.subrange(lo, hi).map_values(|e: &Single| *e));
    assert forall|i: int| 0 <= i < a.len() implies !p(#[trigger] a[i]) by {
        assert(a[i] == *es[i]);
    }
    assert forall|i: int| 0 <= i < c.len() implies !p(#[trigger] c[i]) by {
        assert(c[i] == *es[hi + i]);
    }
    a.lemma_all_neg_filter_empty(p);
    c.lemma_all_neg_filter_empty(p);
    Seq::filter_distributes_over_add(a, b, p);
    Seq::filter_distributes_over_add(a + b, c, p);
}

/// Some entry satisfies `p`, which only entries of a run's character can,
/// exactly when some entry of the run does.
pub proof fn lemma_single_group_exists(
    ss: Seq<Single>,
    es: Seq<&Single>,
    lo: int,
    hi: int,
    p: spec_fn(Single) -> bool,
)
    requires
        es.map_values(|e: &Single| *e).to_multiset() == ss.to_multiset(),
        sorted_by(es, |a: &Single, b: &Single| a.text <= b.text),
        single_group(es, lo, hi),
        forall|x: Single| #[trigger] p(x) ==> x.text == es[lo].text,
    ensures
        (exists|i: int| 0 <= i < ss.len() && #[trigger] p(ss[i])) <==> (exists|j: int|
            lo <= j < hi && #[trigger] p(*es[j])),
{
    let e = es.map_values(|e: &Single| *e);
    lemma_exists_perm(ss, e, p);
    lemma_single_group(es, lo, hi);
    if exists|j: int| 0 <= j < e.len() && #[trigger] p(e[j]) {
        let j = choose|j: int| 0 <= j < e.len() && #[trigger] p(e[j]);
        assert(e[j] == *es[j]);
        assert(lo <= j < hi);
    }
    if exists|j: int| lo <= j < hi && #[trigger] p(*es[j]) {
        let j = choose|j: int| lo <= j < hi && #[trigger] p(*es[j]);
        assert(e[j] == *es[j]);
        assert(p(e[j]));
    }
}

/// An entry is among the entries exactly when some reference points at it.
pub proof fn lemma_refs_contain<A>(ss: Seq<A>, es: Seq<&A>, x: A)
    requires
        es.map_values(|e: &A| *e).to_multiset() == ss.to_multiset(),
    ensures
        ss.contains(x) <==> exists|m: int| 0 <= m < es.len() && *(#[trigger] es[m]) == x,
{
    broadcast use vstd::seq_lib::group_to_multiset_ensures;

    let f = es.map_values(|e: &A| *e);
    f.to_multiset_ensures();
    ss.to_multiset_ensures();
    if ss.contains(x) {
        assert(ss.to_multiset().count(x) > 0);
        assert(f.to_multiset().count(x) > 0);
        assert(f.contains(x));
        let m = choose|m: int| 0 <= m < f.len() && f[m] == x;
        assert(*es[m] == x);
    }
    if exists|m: int| 0 <= m < es.len() && *(#[trigger] es[m]) == x {
        let m = choose|m: int| 0 <= m < es.len() && *(#[trigger] es[m]) == x;
        assert(f[m] == x);
        assert(f.contains(x));
        assert(f.to_multiset().count(x) > 0);
        assert(ss.to_multiset().count(x) > 0);
    }
}

/// Elements that satisfy `p`, which no element outside the run `lo..hi`
/// of a reordering does, are counted alike over all elements and over the
/// run.
pub proof fn lemma_run_filter<A>(ss: Seq<A>, es: Seq<&A>, lo: int, hi: int, p: spec_fn(A) -> bool)
    requires
        es.map_values(|e: &A| *e).to_multiset() == ss.to_multiset(),
        0 <= lo <= hi <= es.len(),
        forall|m: int| 0 <= m < es.len() && (m < lo || hi <= m) ==> !p(*(#[trigger] es[m])),
    ensures
        ss.filter(p).len() == es.subrange(lo, hi).map_values(|e: &A| *e).filter(p).len(),
{
    let e = es.map_values(|e: &A| *e);
    lemma_filter_perm(e, ss, p);
    let a = e.subrange(0, lo);
    let b = e.subrange(lo, hi);
    let c = e.subrange(hi, e.len() as int);
    assert(e =~= a + b + c);
    assert(b =~= es.subrange(lo, hi).map_values(|e: &A| *e));
    assert forall|i: int| 0 <= i < a.len() implies !p(#[trigger] a[i]) by {
        assert(a[i] == *es[i]);
    }
    assert forall|i: int| 0 <= i < c.len() implies !p(#[trigger] c[i]) by {
        assert(c[i] == *es[hi + i]);
    }
    a.lemma_all_neg_filter_empty(p);
    c.lemma_all_neg_filter_empty(p);
    Seq::filter_distributes_over_add(a, b, p);
    Seq::filter_distributes_over_add(a + b, c, p);
}

/// A filter that keeps every element keeps the whole sequence.
pub proof fn lemma_filter_all<A>(s: Seq<A>, p: spec_fn(A) -> bool)
    requires
        forall|i: int| 0 <= i < s.len() ==> p(#[trigger] s[i]),
    ensures
        s.filter(p) == s,
    decreases s.len(),
{
    if s.len() > 0 {
        let t = s.drop_last();
        assert(s =~= t.push(s.last()));
        lemma_filter_all(t, p);
        t.lemma_filter_push(s.last(), p);
    } else {
        assert(s.filter(p) =~= s);
    }
}

/// A filter of a sequence without duplicates has none.
pub proof fn lemma_filter_no_dups<A>(s: Seq<A>, p: spec_fn(A) -> bool)
    requires
        s.no_duplicates(),
    ensures
        s.filter(p).no_duplicates(),
    decreases s.len(),
{
    if s.len() > 0 {
        let t = s.drop_last();
        assert(s =~= t.push(s.last()));
        lemma_filter_no_dups(t, p);
        t.lemma_filter_push(s.last(), p);
        if p(s.last()) {
            let f = t.filter(p);
            if f.contains(s.last()) {
                t.lemma_filter_contains_rev(p, s.last());
                let k = choose|k: int| 0 <= k < t.len() && t[k] == s.last();
                assert(s[k] == s[s.len() - 1]);
            }
        }
    }
}

/// A reordering of the positions `0..n` holds each position once.
pub proof fn lemma_positions_perm(init: Seq<usize>, order: Seq<usize>, n: nat)
    requires
        init == Seq::new(n, |k: int| k as usize),
        n <= usize::MAX,
        order.to_multiset() == init.to_multiset(),
    ensures
        order.len() == n,
        order.no_duplicates(),
        forall|i: usize| i < n ==> #[trigger] order.contains(i),
        forall|k: int| 0 <= k < order.len() ==> (#[trigger] order[k]) < n,
{
    broadcast use vstd::seq_lib::group_to_multiset_ensures;

    init.to_multiset_ensures();
    order.to_multiset_ensures();
    assert(init.no_duplicates());
    init.lemma_multiset_has_no_duplicates();
    order.lemma_multiset_has_no_duplicates_conv();
    assert forall|i: usize| i < n implies #[trigger] order.contains(i) by {
        assert(init[i as int] == i);
        assert(init.contains(i));
        assert(init.to_multiset().count(i) > 0);
        assert(order.to_multiset().count(i) > 0);
    }
    assert forall|k: int| 0 <= k < order.len() implies (#[trigger] order[k]) < n by {
        assert(order.contains(order[k]));
        assert(order.to_multiset().count(order[k]) > 0);
        assert(init.to_multiset().count(order[k]) > 0);
        assert(init.contains(order[k]));
    }
}

/// References to the entries, sorted by character and then by code.
pub fn sorted_refs<'a>(singles: &'a [Single]) -> (es: Vec<&'a Single>)
    ensures
        es@.map_values(|e: &Single| *e).to_multiset() == singles@.to_multiset(),
        sorted_by(es@, |a: &Single, b: &Single| single_le(*a, *b)),
        sorted_by(es@, |a: &Single, b: &Single| a.text <= b.text),
{
    let mut es: Vec<&Single> = Vec::new();
    let mut i: usize = 0;
    while i < singles.len()
        invariant
            i <= singles@.len(),
            es@.map_values(|e: &Single| *e) == singles@.take(i as int),
        decreases singles.len() - i,
    {
        let ghost old_es = es@;
        es.push(&singles[i]);
        assert(es@.map_values(|e: &Single| *e) =~= old_es.map_values(|e: &Single| *e).push(
            singles@[i as int],
        ));
        assert(singles@.take(i + 1) =~= singles@.take(i as int).push(singles@[i as int]));
        i += 1;
    }
    assert(singles@.take(singles@.len() as int) =~= singles@);
    let ghost before = es@;
    sort_singles(&mut es);
    proof {
        lemma_map_perm(before, es@, |e: &Single| *e);
        lemma_single_sorted_by_text(es@);
    }
    es
}

} // verus!
