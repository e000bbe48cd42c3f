//! Redundant phrases (词组冗余): phrases of the same text whose codes agree
//! on as many bytes as the shortest code of that text has. Of each such
//! class the phrase with the longest code is reported.

use crate::entry::Phrase;
use crate::groups::{lemma_filter_all, lemma_phrase_group, lemma_refs_contain, lemma_run_filter, phrase_group, phrase_group_end};
use crate::keytao::{phrase_min_code_len, spec_phrase_min_code_len};
use crate::order::{
    bytes_le, code_of, lemma_between_prefix, lemma_bytes_le_trans, lemma_map_perm, lemma_prefix_le,
    par_sort_phrases, phrase_le, sorted_by,
};
use vstd::prelude::*;
use vstd::string::StrSliceExecFns;

verus! {

broadcast use vstd::seq_lib::group_seq_properties;

/// The first bytes of the phrase's code, as many as the shortest code of
/// its text has.
pub open spec fn pfx(e: Phrase) -> Seq<u8> {
    code_of(e).take(spec_phrase_min_code_len(e.text@) as int)
}

/// Same text, and the codes agree on their first bytes.
pub open spec fn same_class(a: Phrase, b: Phrase) -> bool {
    a.text@ == b.text@ && pfx(a) == pfx(b)
}

/// More than one phrase is in the class of `x`.
pub open spec fn crowded(ps: Seq<Phrase>, x: Phrase) -> bool {
    ps.filter(|y: Phrase| same_class(y, x)).len() >= 2
}

/// No phrase of the class of `x` has a longer code, nor one as long that
/// comes later in byte order.
pub open spec fn topmost(ps: Seq<Phrase>, x: Phrase) -> bool {
    forall|i: int|
        0 <= i < ps.len() && same_class(#[trigger] ps[i], x) ==> code_of(ps[i]).len() < code_of(x).len() || (
        code_of(ps[i]).len() == code_of(x).len() && bytes_le(code_of(ps[i]), code_of(x)))
}

/// Every phrase whose text is shared with another phrase has a code at
/// least as long as the shortest code of its text, and a character
/// boundary there.
pub open spec fn sliceable(ps: Seq<Phrase>) -> bool {
    forall|i: int|
        0 <= i < ps.len() && ps.filter(|y: Phrase| y.text@ == ps[i].text@).len() >= 2 ==> {
            let c = code_of(#[trigger] ps[i]);
            let n = spec_phrase_min_code_len(ps[i].text@) as int;
            n <= c.len() && vstd::utf8::is_char_boundary(c, n)
        }
}

/// Whether the first `n` bytes of `a` and `b` agree.
fn same_prefix(a: &[u8], b: &[u8], n: usize) -> (r: bool)
    requires
        n <= a@.len(),
        n <= b@.len(),
    ensures
        r == (a@.take(n as int) == b@.take(n as int)),
{
    let mut i: usize = 0;
    while i < n
        invariant
            n <= a@.len(),
            n <= b@.len(),
            i <= n,
            forall|k: int| 0 <= k < i ==> a@[k] == b@[k],
        decreases n - i,
    {
        if a[i] != b[i] {
            assert(a@.take(n as int)[i as int] != b@.take(n as int)[i as int]);
            return false;
        }
        i += 1;
    }
    assert(a@.take(n as int) =~= b@.take(n as int));
    true
}

/// Within a run of one text, the phrases of a class lie together.
proof fn lemma_class_between(es: Seq<&Phrase>, lo: int, hi: int, a: int, b: int, c: int)
    requires
        sorted_by(es, |x: &Phrase, y: &Phrase| phrase_le(*x, *y)),
        phrase_group(es, lo, hi),
        forall|m: int| lo <= m < hi ==> spec_phrase_min_code_len(es[lo].text@) <= code_of(*(#[trigger] es[m])).len(),
        lo <= a < b < c < hi,
        same_class(*es[a], *es[c]),
    ensures
        same_class(*es[a], *es[b]),
{
    let n = spec_phrase_min_code_len(es[lo].text@) as int;
    let ca = code_of(*es[a]);
    let cb = code_of(*es[b]);
    let cc = code_of(*es[c]);
    assert(es[a].text@ == es[lo].text@ && es[b].text@ == es[lo].text@ && es[c].text@ == es[lo].text@);
    assert(phrase_le(*es[a], *es[b]));
    assert(phrase_le(*es[b], *es[c]));
    assert(bytes_le(ca, cb) && bytes_le(cb, cc));
    let p = ca.take(n);
    assert(p.is_prefix_of(ca));
    assert(p == cc.take(n));
    assert(p.is_prefix_of(cc));
    lemma_prefix_le(p, ca);
    lemma_bytes_le_trans(p, ca, cb);
    lemma_between_prefix(p, cb, cc);
    assert(cb.take(n) =~= p);
}

/// A class run `j..k` inside a run of one text holds every phrase of its
/// class.
proof fn lemma_class_run(es: Seq<&Phrase>, lo: int, hi: int, j: int, k: int)
    requires
        sorted_by(es, |x: &Phrase, y: &Phrase| phrase_le(*x, *y)),
        phrase_group(es, lo, hi),
        forall|m: int| lo <= m < hi ==> spec_phrase_min_code_len(es[lo].text@) <= code_of(*(#[trigger] es[m])).len(),
        lo <= j < k <= hi,
        forall|m: int| j <= m < k ==> same_class(*(#[trigger] es[m]), *es[j]),
        j == lo || !same_class(*es[j - 1], *es[j]),
        k == hi || !same_class(*es[k], *es[j]),
    ensures
        forall|m: int| 0 <= m < es.len() && (m < j || k <= m) ==> !same_class(*(#[trigger] es[m]), *es[j]),
{
    lemma_phrase_group(es, lo, hi);
    assert forall|m: int| 0 <= m < es.len() && (m < j || k <= m) implies !same_class(*(#[trigger] es[m]), *es[j]) by {
        if same_class(*es[m], *es[j]) {
            assert(es[m].text@ == es[lo].text@);
            assert(lo <= m < hi);
            if m < j {
                if m < j - 1 {
                    lemma_class_between(es, lo, hi, m, j - 1, j);
                }
            } else {
                if k < m {
                    lemma_class_between(es, lo, hi, j, k, m);
                }
            }
        }
    }
}

/// The end of the class run that starts at `j`, inside the run `lo..hi` of
/// one text whose shortest code has `n` bytes.
fn class_end(es: &Vec<&Phrase>, lo: usize, hi: usize, j: usize, n: usize) -> (k: usize)
    requires
        phrase_group(es@, lo as int, hi as int),
        lo <= j < hi,
        n == spec_phrase_min_code_len(es@[lo as int].text@),
        forall|m: int| lo <= m < hi ==> n <= code_of(*(#[trigger] es@[m])).len(),
    ensures
        j < k <= hi,
        forall|m: int| j <= m < k ==> same_class(*(#[trigger] es@[m]), *es@[j as int]),
        k == hi || !same_class(*es@[k as int], *es@[j as int]),
{
    let cj = es[j].code.as_str().as_bytes();
    assert(cj@ == code_of(*es@[j as int]));
    let mut k = j + 1;
    while k < hi
        invariant
            phrase_group(es@, lo as int, hi as int),
            lo <= j < k <= hi,
            n == spec_phrase_min_code_len(es@[lo as int].text@),
            forall|m: int| lo <= m < hi ==> n <= code_of(*(#[trigger] es@[m])).len(),
            cj@ == code_of(*es@[j as int]),
            forall|m: int| j <= m < k ==> same_class(*(#[trigger] es@[m]), *es@[j as int]),
        decreases hi - k,
    {
        let ck = es[k].code.as_str().as_bytes();
        assert(ck@ == code_of(*es@[k as int]));
        assert(es@[k as int].text@ == es@[lo as int].text@ && es@[j as int].text@ == es@[lo as int].text@);
        if !same_prefix(ck, cj, n) {
            return k;
        }
        k += 1;
    }
    k
}

/// The last phrase with the longest code in the run `j..k`.
fn class_top(es: &Vec<&Phrase>, j: usize, k: usize) -> (b: usize)
    requires
        j < k <= es@.len(),
    ensures
        j <= b < k,
        forall|m: int|
            j <= m < k ==> code_of(*(#[trigger] es@[m])).len() < code_of(*es@[b as int]).len() || (code_of(
                *es@[m],
            ).len() == code_of(*es@[b as int]).len() && m <= b),
{
    let mut b = j;
    let mut bl = es[j].code.as_str().as_bytes().len();
    let mut m = j + 1;
    while m < k
        invariant
            j <= b < m <= k <= es@.len(),
            bl == code_of(*es@[b as int]).len(),
            forall|mm: int|
                j <= mm < m ==> code_of(*(#[trigger] es@[mm])).len() < bl || (code_of(*es@[mm]).len() == bl
                    && mm <= b),
        decreases k - m,
    {
        let l = es[m].code.as_str().as_bytes().len();
        if l >= bl {
            b = m;
            bl = l;
        }
        m += 1;
    }
    b
}

/// What the representatives `res` gathered from the sorted phrases before
/// `pos` are.
#[verifier::opaque]
spec fn gathered(ps: Seq<Phrase>, es: Seq<&Phrase>, res: Seq<&Phrase>, pos: int) -> bool {
    &&& forall|q: int, m: int| 0 <= q < res.len() && pos <= m < es.len() ==> phrase_le(*#[trigger] res[q], *#[trigger] es[m])
    &&& sorted_by(res, |x: &Phrase, y: &Phrase| phrase_le(*x, *y))
    &&& forall|q1: int, q2: int| 0 <= q1 < q2 < res.len() ==> !same_class(*#[trigger] res[q1], *#[trigger] res[q2])
    &&& forall|q: int|
        0 <= q < res.len() ==> ps.contains(*#[trigger] res[q]) && crowded(ps, *res[q]) && topmost(ps, *res[q])
    &&& forall|q: int, m: int| 0 <= q < res.len() && pos <= m < es.len() ==> !same_class(*#[trigger] res[q], *#[trigger] es[m])
    &&& forall|m: int| 0 <= m < pos && crowded(ps, *(#[trigger] es[m])) ==> exists|q: int|
        0 <= q < res.len() && same_class(*#[trigger] res[q], *es[m])
}

/// Nothing gathered from no phrases.
proof fn lemma_gather_start(ps: Seq<Phrase>, es: Seq<&Phrase>)
    ensures
        gathered(ps, es, Seq::empty(), 0),
{
    reveal(gathered);
}

/// Passing a phrase `j` that is alone in its class.
proof fn lemma_gather_skip(ps: Seq<Phrase>, es: Seq<&Phrase>, res: Seq<&Phrase>, j: int)
    requires
        gathered(ps, es, res, j),
        0 <= j < es.len(),
        !crowded(ps, *es[j]),
    ensures
        gathered(ps, es, res, j + 1),
{
    reveal(gathered);
    assert forall|m: int| 0 <= m < j + 1 && crowded(ps, *(#[trigger] es[m])) implies exists|q: int|
        0 <= q < res.len() && same_class(*#[trigger] res[q], *es[m]) by {
        assert(m != j);
    }
}

/// Passing the class run `j..k` of more than one phrase, whose
/// representative `b` has been gathered.
proof fn lemma_gather_push(
    ps: Seq<Phrase>,
    es: Seq<&Phrase>,
    res: Seq<&Phrase>,
    lo: int,
    hi: int,
    j: int,
    k: int,
    b: int,
)
    requires
        gathered(ps, es, res, j),
        es.map_values(|e: &Phrase| *e).to_multiset() == ps.to_multiset(),
        sorted_by(es, |x: &Phrase, y: &Phrase| phrase_le(*x, *y)),
        phrase_group(es, lo, hi),
        lo <= j < k <= hi,
        k - j >= 2,
        j <= b < k,
        forall|m: int| 0 <= m < es.len() && (m < j || k <= m) ==> !same_class(*(#[trigger] es[m]), *es[j]),
        forall|m: int| j <= m < k ==> same_class(*(#[trigger] es[m]), *es[j]),
        ps.filter(|y: Phrase| same_class(y, *es[j])).len() == k - j,
        forall|m: int|
            j <= m < k ==> code_of(*(#[trigger] es[m])).len() < code_of(*es[b]).len() || (code_of(*es[m]).len()
                == code_of(*es[b]).len() && m <= b),
    ensures
        gathered(ps, es, res.push(es[b]), k),
{
    reveal(gathered);
    let x = *es[j];
    let y = *es[b];
    let nr = res.push(es[b]);
    assert(same_class(y, x));
    assert((|z: Phrase| same_class(z, x)) =~= (|z: Phrase| same_class(z, y)));
    assert(crowded(ps, y));
    lemma_refs_contain(ps, es, y);
    assert forall|i: int| 0 <= i < ps.len() && same_class(#[trigger] ps[i], y) implies code_of(ps[i]).len()
        < code_of(y).len() || (code_of(ps[i]).len() == code_of(y).len() && bytes_le(code_of(ps[i]), code_of(y))) by {
        lemma_refs_contain(ps, es, ps[i]);
        assert(ps.contains(ps[i]));
        let mm = choose|mm: int| 0 <= mm < es.len() && *(#[trigger] es[mm]) == ps[i];
        assert(same_class(*es[mm], x));
        assert(j <= mm < k);
        if code_of(ps[i]).len() == code_of(y).len() {
            assert(mm <= b);
            if mm < b {
                assert(phrase_le(*es[mm], *es[b]));
                assert(es[mm].text@ == es[lo].text@);
                assert(es[b].text@ == es[lo].text@);
            } else {
                crate::order::lemma_bytes_le_refl(code_of(y));
            }
        }
    }
    assert(topmost(ps, y));
    assert forall|q: int, mm: int| 0 <= q < nr.len() && k <= mm < es.len() implies phrase_le(*#[trigger] nr[q], *#[trigger] es[mm]) by {
        if q < res.len() {
            assert(nr[q] == res[q]);
        } else {
            assert(nr[q] == es[b]);
        }
    }
    assert forall|q1: int, q2: int| 0 <= q1 < q2 < nr.len() implies phrase_le(*#[trigger] nr[q1], *#[trigger] nr[q2]) by {
        if q2 == res.len() {
            assert(nr[q1] == res[q1]);
            assert(phrase_le(*res[q1], *es[b]));
        } else {
            assert(nr[q1] == res[q1] && nr[q2] == res[q2]);
        }
    }
    assert forall|q1: int, q2: int| 0 <= q1 < q2 < nr.len() implies !same_class(*#[trigger] nr[q1], *#[trigger] nr[q2]) by {
        if q2 == res.len() {
            assert(nr[q1] == res[q1]);
            assert(!same_class(*res[q1], *es[b]));
        } else {
            assert(nr[q1] == res[q1] && nr[q2] == res[q2]);
        }
    }
    assert forall|q: int| 0 <= q < nr.len() implies ps.contains(*#[trigger] nr[q]) && crowded(ps, *nr[q]) && topmost(
        ps,
        *nr[q],
    ) by {
        if q < res.len() {
            assert(nr[q] == res[q]);
        } else {
            assert(nr[q] == es[b]);
        }
    }
    assert forall|q: int, mm: int| 0 <= q < nr.len() && k <= mm < es.len() implies !same_class(
        *#[trigger] nr[q],
        *#[trigger] es[mm],
    ) by {
        if q < res.len() {
            assert(nr[q] == res[q]);
        } else {
            assert(nr[q] == es[b]);
            assert(!same_class(*es[mm], x));
        }
    }
    assert forall|mm: int| 0 <= mm < k && crowded(ps, *(#[trigger] es[mm])) implies exists|q: int|
        0 <= q < nr.len() && same_class(*#[trigger] nr[q], *es[mm]) by {
        if mm < j {
            let q = choose|q: int| 0 <= q < res.len() && same_class(*#[trigger] res[q], *es[mm]);
            assert(nr[q] == res[q]);
        } else {
            assert(same_class(*nr[res.len() as int], *es[mm]));
        }
    }
}

/// All gathered: the contract of the check, but coverage over the sorted
/// phrases.
proof fn lemma_gather_done(ps: Seq<Phrase>, es: Seq<&Phrase>, res: Seq<&Phrase>)
    requires
        gathered(ps, es, res, es.len() as int),
    ensures
        forall|q: int|
            0 <= q < res.len() ==> ps.contains(*#[trigger] res[q]) && crowded(ps, *res[q]) && topmost(ps, *res[q]),
        forall|q1: int, q2: int| 0 <= q1 < q2 < res.len() ==> !same_class(*#[trigger] res[q1], *#[trigger] res[q2]),
        forall|m: int| 0 <= m < es.len() && crowded(ps, *(#[trigger] es[m])) ==> exists|q: int|
            0 <= q < res.len() && same_class(*#[trigger] res[q], *es[m]),
        sorted_by(res, |x: &Phrase, y: &Phrase| phrase_le(*x, *y)),
{
    reveal(gathered);
}

/// Coverage over the sorted phrases is coverage over the phrases.
proof fn lemma_cover(ps: Seq<Phrase>, es: Seq<&Phrase>, res: Seq<&Phrase>)
    requires
        es.map_values(|e: &Phrase| *e).to_multiset() == ps.to_multiset(),
        forall|m: int| 0 <= m < es.len() && crowded(ps, *(#[trigger] es[m])) ==> exists|q: int|
            0 <= q < res.len() && same_class(*#[trigger] res[q], *es[m]),
    ensures
        forall|i: int|
            0 <= i < ps.len() && crowded(ps, #[trigger] ps[i]) ==> exists|q: int|
                0 <= q < res.len() && same_class(*#[trigger] res[q], ps[i]),
{
    assert forall|i: int| 0 <= i < ps.len() && crowded(ps, #[trigger] ps[i]) implies exists|q: int|
        0 <= q < res.len() && same_class(*#[trigger] res[q], ps[i]) by {
        let x = ps[i];
        lemma_refs_contain(ps, es, x);
        assert(ps.contains(x));
        let mm = choose|mm: int| 0 <= mm < es.len() && *(#[trigger] es[mm]) == x;
        assert(crowded(ps, *es[mm]));
        let q = choose|q: int| 0 <= q < res.len() && same_class(*#[trigger] res[q], *es[mm]);
        assert(same_class(*res[q], x));
    }
}

/// Within a run `lo..hi` of one text: how many phrases have its text, and,
/// when more than one, that their codes are long enough to compare.
proof fn lemma_group_facts(ps: Seq<Phrase>, es: Seq<&Phrase>, lo: int, hi: int)
    requires
        sliceable(ps),
        es.map_values(|e: &Phrase| *e).to_multiset() == ps.to_multiset(),
        sorted_by(es, |x: &Phrase, y: &Phrase| phrase_le(*x, *y)),
        phrase_group(es, lo, hi),
    ensures
        hi - lo >= 2 ==> forall|m: int|
            lo <= m < hi ==> spec_phrase_min_code_len(es[lo].text@) <= code_of(*(#[trigger] es[m])).len(),
        hi - lo < 2 ==> !crowded(ps, *es[lo]),
{
    lemma_phrase_group(es, lo, hi);
    let t = es[lo].text@;
    let tp = |y: Phrase| y.text@ == t;
    lemma_run_filter(ps, es, lo, hi, tp);
    lemma_filter_all(es.subrange(lo, hi).map_values(|e: &Phrase| *e), tp);
    if hi - lo >= 2 {
        assert forall|m: int| lo <= m < hi implies spec_phrase_min_code_len(es[lo].text@) <= code_of(
            *(#[trigger] es[m]),
        ).len() by {
            lemma_refs_contain(ps, es, *es[m]);
            let i = choose|i: int| 0 <= i < ps.len() && ps[i] == *es[m];
            assert(tp =~= (|y: Phrase| y.text@ == ps[i].text@));
            assert(ps.filter(|y: Phrase| y.text@ == ps[i].text@).len() >= 2);
            assert(spec_phrase_min_code_len(ps[i].text@) <= code_of(ps[i]).len());
        }
    } else {
        let x = *es[lo];
        let cp = |y: Phrase| same_class(y, x);
        lemma_run_filter(ps, es, lo, hi, cp);
        es.subrange(lo, hi).map_values(|e: &Phrase| *e).lemma_filter_len(cp);
    }
}

/// One phrase for each class of more than one phrase: the one with the
/// longest code, the last in byte order among those. In order of text and
/// then of code.
pub fn check<'a>(phrases: &'a [Phrase]) -> (r: Vec<&'a Phrase>)
    requires
        sliceable(phrases@),
    ensures
        forall|q: int|
            0 <= q < r@.len() ==> phrases@.contains(*#[trigger] r@[q]) && crowded(phrases@, *r@[q]) && topmost(
                phrases@,
                *r@[q],
            ),
        forall|q1: int, q2: int| 0 <= q1 < q2 < r@.len() ==> !same_class(*#[trigger] r@[q1], *#[trigger] r@[q2]),
        forall|i: int|
            0 <= i < phrases@.len() && crowded(phrases@, #[trigger] phrases@[i]) ==> exists|q: int|
                0 <= q < r@.len() && same_class(*#[trigger] r@[q], phrases@[i]),
        sorted_by(r@, |x: &Phrase, y: &Phrase| phrase_le(*x, *y)),
{
    let ghost ps = phrases@;
    let mut es: Vec<&Phrase> = Vec::new();
    let mut i: usize = 0;
    while i < phrases.len()
        invariant
            i <= phrases@.len(),
            es@.map_values(|e: &Phrase| *e) == phrases@.take(i as int),
        decreases phrases.len() - i,
    {
        let ghost old_es = es@;
        es.push(&phrases[i]);
        assert(es@.map_values(|e: &Phrase| *e) =~= old_es.map_values(|e: &Phrase| *e).push(phrases@[i as int]));
        assert(phrases@.take(i + 1) =~= phrases@.take(i as int).push(phrases@[i as int]));
        i += 1;
    }
    assert(phrases@.take(phrases@.len() as int) =~= phrases@);
    let ghost unsorted = es@;
    par_sort_phrases(&mut es);
    proof {
        lemma_map_perm(unsorted, es@, |e: &Phrase| *e);
        lemma_gather_start(ps, es@);
    }
    let n = es.len();
    let mut result: Vec<&Phrase> = Vec::new();
    let mut lo: usize = 0;
    while lo < n
        invariant
            n == es@.len(),
            lo <= n,
            ps == phrases@,
            sliceable(ps),
            es@.map_values(|e: &Phrase| *e).to_multiset() == ps.to_multiset(),
            sorted_by(es@, |x: &Phrase, y: &Phrase| phrase_le(*x, *y)),
            lo == 0 || lo == n || es@[lo - 1].text@ != es@[lo as int].text@,
            gathered(ps, es@, result@, lo as int),
        decreases n - lo,
    {
        let hi = phrase_group_end(&es, lo);
        proof {
            lemma_group_facts(ps, es@, lo as int, hi as int);
        }
        if hi - lo >= 2 {
            let m = phrase_min_code_len(es[lo].text.as_str());
            let mut j = lo;
            while j < hi
                invariant
                    n == es@.len(),
                    ps == phrases@,
                    es@.map_values(|e: &Phrase| *e).to_multiset() == ps.to_multiset(),
                    sorted_by(es@, |x: &Phrase, y: &Phrase| phrase_le(*x, *y)),
                    phrase_group(es@, lo as int, hi as int),
                    m == spec_phrase_min_code_len(es@[lo as int].text@),
                    forall|mm: int| lo <= mm < hi ==> m <= code_of(*(#[trigger] es@[mm])).len(),
                    lo <= j <= hi,
                    j == lo || j == hi || !same_class(*es@[j - 1], *es@[j as int]),
                    gathered(ps, es@, result@, j as int),
                decreases hi - j,
            {
                let k = class_end(&es, lo, hi, j, m);
                let ghost x = *es@[j as int];
                let ghost cp = |y: Phrase| same_class(y, x);
                proof {
                    lemma_class_run(es@, lo as int, hi as int, j as int, k as int);
                    lemma_run_filter(ps, es@, j as int, k as int, cp);
                    lemma_filter_all(es@.subrange(j as int, k as int).map_values(|e: &Phrase| *e), cp);
                }
                if k - j >= 2 {
                    let b = class_top(&es, j, k);
                    let ghost old_res = result@;
                    result.push(es[b]);
                    proof {
                        lemma_gather_push(ps, es@, old_res, lo as int, hi as int, j as int, k as int, b as int);
                    }
                } else {
                    proof {
                        es@.subrange(j as int, k as int).map_values(|e: &Phrase| *e).lemma_filter_len(cp);
                        lemma_gather_skip(ps, es@, result@, j as int);
                    }
                }
                j = k;
            }
        } else {
            proof {
                lemma_gather_skip(ps, es@, result@, lo as int);
            }
        }
        proof {
            if hi < n {
                assert(es@[hi - 1].text@ == es@[lo as int].text@);
            }
        }
        lo = hi;
    }
    proof {
        lemma_gather_done(ps, es@, result@);
        lemma_cover(ps, es@, result@);
    }
    result
}

} // verus!
