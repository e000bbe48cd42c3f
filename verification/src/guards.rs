//! Tests on the codes of a table that tell whether a check may run on it:
//! the checks that number codes or cut them into prefixes need codes of a
//! certain form.

use crate::chains::ascii_codes;
use crate::checks::p_redundancy::sliceable;
use crate::checks::s_redundancy::cuttable_chains;
use crate::checks::p_vacancy::keyed_phrases;
use crate::checks::s_fj_absence::fly_keyed;
use crate::checks::s_jm_collision::{ascii_bytes, crowded_ascii};
use crate::codesets::{short, short_keyable, short_letters};
use crate::entry::{Phrase, Single};
use crate::keys::{is_letter, keyable, letters};
use crate::keytao::{phrase_min_code_len, spec_phrase_min_code_len, MAX_CODE_N};
use crate::groups::{lemma_filter_all, lemma_phrase_group, lemma_refs_contain, lemma_run_filter, phrase_group, phrase_group_end};
use crate::order::{code_of, lemma_map_perm, phrase_le, sort_phrases, sorted_by};
use vstd::prelude::*;
use vstd::string::{StrSliceExecFns, StringSliceAdditionalSpecFns};

verus! {

broadcast use vstd::seq_lib::group_seq_properties;

/// Whether every byte of `c` is a letter.
fn all_letters(c: &[u8]) -> (r: bool)
    ensures
        r == letters(c@),
{
    let mut i: usize = 0;
    while i < c.len()
        invariant
            i <= c@.len(),
            forall|j: int| 0 <= j < i ==> is_letter(#[trigger] c@[j]),
        decreases c.len() - i,
    {
        if !(0x61 <= c[i] && c[i] <= 0x7a) {
            return false;
        }
        i += 1;
    }
    true
}

/// Whether every code is ASCII.
pub fn codes_ascii(singles: &[Single]) -> (r: bool)
    ensures
        r == ascii_codes(singles@),
{
    let mut i: usize = 0;
    while i < singles.len()
        invariant
            i <= singles@.len(),
            forall|j: int| 0 <= j < i ==> vstd::utf8::is_ascii_chars((#[trigger] singles@[j]).code@),
        decreases singles.len() - i,
    {
        if !singles[i].code.as_str().is_ascii() {
            return false;
        }
        i += 1;
    }
    true
}

/// ASCII codes are ASCII wherever they are crowded.
pub proof fn lemma_ascii_crowded(ss: Seq<Single>)
    requires
        ascii_codes(ss),
    ensures
        crowded_ascii(ss),
{
    assert forall|i: int| 0 <= i < ss.len() implies ascii_bytes(code_of(#[trigger] ss[i])) by {
        let s = ss[i].code@;
        vstd::utf8::is_ascii_chars_encode_utf8(s);
        assert forall|k: int| 0 <= k < code_of(ss[i]).len() implies code_of(ss[i])[k] < 0x80 by {
            assert(vstd::utf8::is_ascii_chars(s));
            assert((s[k] as u32) < 0x80);
        }
    }
}

/// Where every code is ASCII, every prefix of a code ends on a character
/// boundary, so the redundancy check may run.
pub proof fn lemma_ascii_cuttable(ss: Seq<Single>)
    requires
        ascii_codes(ss),
    ensures
        cuttable_chains(ss),
{
    assert forall|i: int, n: int|
        0 <= i < ss.len() && 1 <= n < code_of(ss[i]).len() implies #[trigger] vstd::utf8::is_char_boundary(
        code_of(ss[i]),
        n,
    ) by {
        let c = code_of(ss[i]);
        let s = ss[i].code@;
        vstd::utf8::is_ascii_chars_encode_utf8(s);
        assert(vstd::utf8::is_ascii_chars(s));
        assert((s[n] as u32) < 0x80);
        assert(c[n] < 0x80);
        vstd::utf8::encode_utf8_valid_utf8(ss[i].code@);
        vstd::utf8::is_char_boundary_iff_not_is_continuation_byte(c, n);
    }
}

/// Whether no code of at most six bytes has a byte before `a`.
pub fn short_codes_keyable(singles: &[Single]) -> (r: bool)
    ensures
        r == short_keyable(singles@),
{
    let mut i: usize = 0;
    while i < singles.len()
        invariant
            i <= singles@.len(),
            forall|j: int| 0 <= j < i && short(#[trigger] singles@[j]) ==> keyable(code_of(singles@[j])),
        decreases singles.len() - i,
    {
        let c = singles[i].code.as_str().as_bytes();
        assert(c@ == code_of(singles@[i as int]));
        if c.len() <= MAX_CODE_N {
            let mut j: usize = 0;
            while j < c.len()
                invariant
                    i < singles@.len(),
                    c@ == code_of(singles@[i as int]),
                    c@.len() <= MAX_CODE_N,
                    forall|jj: int| 0 <= jj < i && short(#[trigger] singles@[jj]) ==> keyable(code_of(singles@[jj])),
                    j <= c@.len(),
                    forall|k: int| 0 <= k < j ==> 0x61u8 <= #[trigger] c@[k],
                decreases c.len() - j,
            {
                if c[j] < 0x61 {
                    proof {
                        let x = singles@[i as int];
                        assert(short(x));
                        assert(code_of(x)[j as int] < 0x61);
                        assert(!keyable(code_of(x)));
                    }
                    return false;
                }
                j += 1;
            }
        }
        i += 1;
    }
    true
}

/// Whether every code of at most six bytes is made of letters.
pub fn short_codes_letters(singles: &[Single]) -> (r: bool)
    ensures
        r == short_letters(singles@),
{
    let mut i: usize = 0;
    while i < singles.len()
        invariant
            i <= singles@.len(),
            forall|j: int| 0 <= j < i && short(#[trigger] singles@[j]) ==> letters(code_of(singles@[j])),
        decreases singles.len() - i,
    {
        let c = singles[i].code.as_str().as_bytes();
        assert(c@ == code_of(singles@[i as int]));
        if c.len() <= MAX_CODE_N && !all_letters(c) {
            return false;
        }
        i += 1;
    }
    true
}

/// Whether the first one or two bytes of every code are letters.
pub fn fly_keyed_codes(singles: &[Single]) -> (r: bool)
    ensures
        r == fly_keyed(singles@),
{
    let mut i: usize = 0;
    while i < singles.len()
        invariant
            i <= singles@.len(),
            forall|j: int|
                0 <= j < i ==> {
                    let c = code_of(#[trigger] singles@[j]);
                    &&& c.len() >= 1 ==> is_letter(c[0])
                    &&& c.len() >= 2 ==> is_letter(c[1])
                },
        decreases singles.len() - i,
    {
        let c = singles[i].code.as_str().as_bytes();
        assert(c@ == code_of(singles@[i as int]));
        if c.len() >= 1 && !(0x61 <= c[0] && c[0] <= 0x7a) {
            return false;
        }
        if c.len() >= 2 && !(0x61 <= c[1] && c[1] <= 0x7a) {
            return false;
        }
        i += 1;
    }
    true
}

/// Whether the codes of the phrases can be numbered as the check for
/// vacant codes needs.
pub fn phrases_keyed(phrases: &[Phrase]) -> (r: bool)
    ensures
        r == keyed_phrases(phrases@),
{
    let mut i: usize = 0;
    while i < phrases.len()
        invariant
            i <= phrases@.len(),
            forall|j: int|
                0 <= j < i ==> {
                    let c = code_of(#[trigger] phrases@[j]);
                    &&& c.len() < MAX_CODE_N ==> letters(c)
                    &&& c.len() > spec_phrase_min_code_len(phrases@[j].text@) ==> c.len() <= MAX_CODE_N
                        && letters(c.take(c.len() - 1)) && c[c.len() - 1] < 0x80
                },
        decreases phrases.len() - i,
    {
        let e = &phrases[i];
        let c = e.code.as_str().as_bytes();
        let ghost cb = code_of(*e);
        assert(c@ == cb);
        let n = c.len();
        if n < MAX_CODE_N && !all_letters(c) {
            return false;
        }
        if n > phrase_min_code_len(e.text.as_str()) {
            if n > MAX_CODE_N || c[n - 1] >= 0x80 {
                return false;
            }
            let head = vstd::slice::slice_subrange(c, 0, n - 1);
            assert(head@ =~= cb.take(n - 1));
            if !all_letters(head) {
                return false;
            }
        }
        i += 1;
    }
    true
}

/// The test for phrases of the text `t`.
pub open spec fn has_text(t: Seq<char>) -> spec_fn(Phrase) -> bool {
    |y: Phrase| y.text@ == t
}

/// How many phrases have the text `t`.
pub open spec fn text_count(ps: Seq<Phrase>, t: Seq<char>) -> nat {
    ps.filter(has_text(t)).len()
}

/// The code of `e` is at least as long as the shortest code of its text,
/// and a character ends there.
pub open spec fn cuttable(e: Phrase) -> bool {
    let c = code_of(e);
    let n = spec_phrase_min_code_len(e.text@) as int;
    n <= c.len() && vstd::utf8::is_char_boundary(c, n)
}

/// Within a run of one text, how many phrases have that text.
proof fn lemma_run_count(ps: Seq<Phrase>, es: Seq<&Phrase>, lo: int, hi: int)
    requires
        es.map_values(|e: &Phrase| *e).to_multiset() == ps.to_multiset(),
        sorted_by(es, |x: &Phrase, y: &Phrase| phrase_le(*x, *y)),
        phrase_group(es, lo, hi),
    ensures
        text_count(ps, es[lo].text@) == hi - lo,
{
    lemma_phrase_group(es, lo, hi);
    let t = es[lo].text@;
    let tp = has_text(t);
    lemma_run_filter(ps, es, lo, hi, tp);
    let sub = es.subrange(lo, hi).map_values(|e: &Phrase| *e);
    assert forall|i: int| 0 <= i < sub.len() implies tp(#[trigger] sub[i]) by {
        assert(sub[i] == *es[lo + i]);
    }
    lemma_filter_all(sub, tp);
    assert(sub.filter(tp) == sub);
    assert(ps.filter(tp).len() == hi - lo);
}

/// A phrase whose text more than one phrase has and whose code cannot be
/// cut: the codes are not sliceable.
proof fn lemma_uncut(ps: Seq<Phrase>, es: Seq<&Phrase>, x: Phrase)
    requires
        es.map_values(|e: &Phrase| *e).to_multiset() == ps.to_multiset(),
        exists|m: int| 0 <= m < es.len() && *(#[trigger] es[m]) == x,
        text_count(ps, x.text@) >= 2,
        !cuttable(x),
    ensures
        !sliceable(ps),
{
    lemma_refs_contain(ps, es, x);
    let k = choose|k: int| 0 <= k < ps.len() && ps[k] == x;
    assert((|y: Phrase| y.text@ == ps[k].text@) =~= has_text(x.text@));
}

/// Every phrase whose text more than one phrase has can be cut: the codes
/// are sliceable.
proof fn lemma_all_cut(ps: Seq<Phrase>, es: Seq<&Phrase>)
    requires
        es.map_values(|e: &Phrase| *e).to_multiset() == ps.to_multiset(),
        forall|m: int| 0 <= m < es.len() ==> (text_count(ps, (#[trigger] es[m]).text@) >= 2 ==> cuttable(*es[m])),
    ensures
        sliceable(ps),
{
    assert forall|i: int|
        0 <= i < ps.len() && ps.filter(|y: Phrase| y.text@ == ps[i].text@).len() >= 2 implies {
        let c = code_of(#[trigger] ps[i]);
        let nn = spec_phrase_min_code_len(ps[i].text@) as int;
        nn <= c.len() && vstd::utf8::is_char_boundary(c, nn)
    } by {
        lemma_refs_contain(ps, es, ps[i]);
        assert(ps.contains(ps[i]));
        let m = choose|m: int| 0 <= m < es.len() && *(#[trigger] es[m]) == ps[i];
        assert((|y: Phrase| y.text@ == ps[i].text@) =~= has_text(es[m].text@));
        assert(cuttable(*es[m]));
    }
}

/// Whether the codes of the phrases can be cut where `p_redundancy`
/// compares them: for every text that more than one phrase has, each such
/// phrase's code is at least as long as the text's shortest code, and a
/// character ends there.
pub fn phrase_codes_fit(phrases: &[Phrase]) -> (r: bool)
    ensures
        r == sliceable(phrases@),
{
    let ghost ps = phrases@;
    let mut es: Vec<&Phrase> = Vec::new();
    let mut i: usize = 0;
    while i < phrases.len()
        invariant
            i <= phrases@.len(),
            es@.map_values(|e: &Phrase| *e) == phrases@.take(i as int),
        decreases phrases.len() - i,
    {
        let ghost old_es = es@;
        es.push(&phrases[i]);
        assert(es@.map_values(|e: &Phrase| *e) =~= old_es.map_values(|e: &Phrase| *e).push(phrases@[i as int]));
        assert(phrases@.take(i + 1) =~= phrases@.take(i as int).push(phrases@[i as int]));
        i += 1;
    }
    assert(phrases@.take(phrases@.len() as int) =~= phrases@);
    let ghost unsorted = es@;
    sort_phrases(&mut es);
    proof {
        lemma_map_perm(unsorted, es@, |e: &Phrase| *e);
    }
    let n = es.len();
    let mut lo: usize = 0;
    while lo < n
        invariant
            n == es@.len(),
            lo <= n,
            ps == phrases@,
            es@.map_values(|e: &Phrase| *e).to_multiset() == ps.to_multiset(),
            sorted_by(es@, |x: &Phrase, y: &Phrase| phrase_le(*x, *y)),
            lo == 0 || lo == n || es@[lo - 1].text@ != es@[lo as int].text@,
            forall|m: int| 0 <= m < lo ==> (text_count(ps, (#[trigger] es@[m]).text@) >= 2 ==> cuttable(*es@[m])),
        decreases n - lo,
    {
        let hi = phrase_group_end(&es, lo);
        proof {
            lemma_run_count(ps, es@, lo as int, hi as int);
        }
        if hi - lo >= 2 {
            let mut j = lo;
            while j < hi
                invariant
                    n == es@.len(),
                    ps == phrases@,
                    es@.map_values(|e: &Phrase| *e).to_multiset() == ps.to_multiset(),
                    phrase_group(es@, lo as int, hi as int),
                    text_count(ps, es@[lo as int].text@) == hi - lo,
                    hi - lo >= 2,
                    lo <= j <= hi,
                    forall|m: int| 0 <= m < j ==> (text_count(ps, (#[trigger] es@[m]).text@) >= 2 ==> cuttable(*es@[m])),
                decreases hi - j,
            {
                let e = es[j];
                let c = e.code.as_str();
                let m = phrase_min_code_len(e.text.as_str());
                assert(c.spec_bytes() == code_of(*e));
                if c.as_bytes().len() < m || !c.is_char_boundary(m) {
                    proof {
                        assert(*es@[j as int] == *e);
                        assert(es@[j as int].text@ == es@[lo as int].text@);
                        lemma_uncut(ps, es@, *e);
                    }
                    return false;
                }
                j += 1;
            }
        }
        proof {
            assert forall|m: int| 0 <= m < hi && text_count(ps, (#[trigger] es@[m]).text@) >= 2 implies cuttable(*es@[m]) by {
                if lo <= m < hi && hi - lo < 2 {
                    assert(m == lo);
                }
            }
            if hi < n {
                assert(es@[hi - 1].text@ == es@[lo as int].text@);
            }
        }
        lo = hi;
    }
    proof {
        lemma_all_cut(ps, es@);
    }
    true
}
} // verus!
