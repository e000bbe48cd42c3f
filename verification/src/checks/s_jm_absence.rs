//! Missing short codes (简码缺失) of single characters: a longest code of a
//! character none of whose proper prefixes is a code of that character,
//! while one of them is no code at all.

use crate::codesets::{is_code, is_code_of, key_set_of, orphan};
use crate::entry::Single;
use crate::groups::{
    lemma_refs_contain, lemma_single_group_exists, lemma_sorted_filter, single_group, single_group_end,
    sorted_refs,
};
use crate::hashing::{key_set_contains, key_set_contents, key_set_insert, key_set_new, KeySet};
use crate::keys::{code_key, key_of, keyable, lemma_key_injective, lemma_letters_keyable, lemma_key_nonneg, lemma_key_prefix_le, lemma_key_take, letters};
use crate::order::{code_of, lemma_filter_map_commute, lemma_filter_perm, single_le, sorted_by};
use vstd::prelude::*;
use vstd::string::StringSliceAdditionalSpecFns;

verus! {

broadcast use vstd::seq_lib::group_seq_properties;

/// The base in which codes are numbered.
pub const BASE: u32 = 27;

/// Every code is made of letters and numbers within a `u32`.
pub open spec fn keyed(ss: Seq<Single>) -> bool {
    forall|i: int|
        0 <= i < ss.len() ==> letters(code_of(#[trigger] ss[i])) && key_of(code_of(ss[i])) <= u32::MAX
}

/// No code of the entry's character is longer than the entry's.
pub open spec fn longest(ss: Seq<Single>, x: Single) -> bool {
    forall|i: int| 0 <= i < ss.len() && (#[trigger] ss[i]).text == x.text ==> code_of(ss[i]).len() <= code_of(x).len()
}

/// The entry has a longest code of its character, and that code is
/// orphaned: none of its proper prefixes is a code of the character, and
/// one of them is no code at all.
pub open spec fn absent(ss: Seq<Single>, x: Single) -> bool {
    longest(ss, x) && orphan(ss, x.text, code_of(x))
}

/// The number of a code without bytes before `a`.
pub fn pack(code: &str) -> (r: u32)
    requires
        keyable(code.spec_bytes()),
        key_of(code.spec_bytes()) <= u32::MAX,
    ensures
        r == key_of(code.spec_bytes()),
{
    code_key(code.as_bytes())
}

/// Asking the set of code numbers for the number of `c` asks whether `c`
/// is a code.
proof fn lemma_used_query(s: Set<u32>, ss: Seq<Single>, c: Seq<u8>)
    requires
        key_set_of(s, ss),
        keyed(ss),
        letters(c),
        key_of(c) <= u32::MAX,
    ensures
        s.contains(key_of(c) as u32) <==> is_code(ss, c),
{
    lemma_key_nonneg(c);
    if s.contains(key_of(c) as u32) {
        let m = choose|m: int| 0 <= m < ss.len() && key_of(code_of(#[trigger] ss[m])) == key_of(c) as u32;
        lemma_key_injective(code_of(ss[m]), c);
    }
    if is_code(ss, c) {
        let m = choose|m: int| 0 <= m < ss.len() && code_of(#[trigger] ss[m]) == c;
        assert(key_of(code_of(ss[m])) == key_of(c) as u32);
    }
}

/// Whether some entry of the run `lo..hi` has the code numbered `p`.
fn run_has_key(es: &Vec<&Single>, lo: usize, hi: usize, p: u32, Ghost(ss): Ghost<Seq<Single>>) -> (r: bool)
    requires
        lo <= hi <= es@.len(),
        keyed(ss),
        es@.map_values(|e: &Single| *e).to_multiset() == ss.to_multiset(),
    ensures
        r == exists|jj: int| lo <= jj < hi && key_of(code_of(*(#[trigger] es@[jj]))) == p,
{
    let mut jj = lo;
    while jj < hi
        invariant
            lo <= jj <= hi <= es@.len(),
            keyed(ss),
            es@.map_values(|e: &Single| *e).to_multiset() == ss.to_multiset(),
            forall|k: int| lo <= k < jj ==> key_of(code_of(*(#[trigger] es@[k]))) != p,
        decreases hi - jj,
    {
        proof {
            lemma_refs_contain(ss, es@, *es@[jj as int]);
            let m = choose|m: int| 0 <= m < ss.len() && ss[m] == *es@[jj as int];
            assert(letters(code_of(ss[m])));
        }
        if pack(es[jj].code.as_str()) == p {
            return true;
        }
        jj += 1;
    }
    false
}

/// The longest code length in the run `lo..hi`.
fn run_longest(es: &Vec<&Single>, lo: usize, hi: usize) -> (r: usize)
    requires
        lo < hi <= es@.len(),
    ensures
        forall|jj: int| lo <= jj < hi ==> code_of(*(#[trigger] es@[jj])).len() <= r,
        exists|jj: int| lo <= jj < hi && code_of(*(#[trigger] es@[jj])).len() == r,
{
    let mut r = es[lo].code.as_str().as_bytes().len();
    let mut jj = lo + 1;
    while jj < hi
        invariant
            lo < jj <= hi <= es@.len(),
            forall|k: int| lo <= k < jj ==> code_of(*(#[trigger] es@[k])).len() <= r,
            exists|k: int| lo <= k < jj && code_of(*(#[trigger] es@[k])).len() == r,
        decreases hi - jj,
    {
        let n = es[jj].code.as_str().as_bytes().len();
        if n > r {
            r = n;
        }
        jj += 1;
    }
    r
}

/// Whether the entry at `j` of the run `lo..hi` of the sorted entries is
/// reported, given the longest code length `longest_n` of the run.
fn absent_at(
    es: &Vec<&Single>,
    lo: usize,
    hi: usize,
    j: usize,
    longest_n: usize,
    used: &KeySet,
    Ghost(ss): Ghost<Seq<Single>>,
) -> (r: bool)
    requires
        es@.map_values(|e: &Single| *e).to_multiset() == ss.to_multiset(),
        sorted_by(es@, |a: &Single, b: &Single| a.text <= b.text),
        single_group(es@, lo as int, hi as int),
        lo <= j < hi,
        keyed(ss),
        key_set_of(key_set_contents(*used), ss),
        forall|jj: int| lo <= jj < hi ==> code_of(*(#[trigger] es@[jj])).len() <= longest_n,
        exists|jj: int| lo <= jj < hi && code_of(*(#[trigger] es@[jj])).len() == longest_n,
    ensures
        r == absent(ss, *es@[j as int]),
{
    let x = es[j];
    let ghost t = x.text;
    let ghost c = code_of(*x);
    let n = x.code.as_str().as_bytes().len();
    assert(t == es@[lo as int].text);
    proof {
        lemma_refs_contain(ss, es@, *x);
        let m = choose|m: int| 0 <= m < ss.len() && ss[m] == *x;
        assert(letters(c) && key_of(c) <= u32::MAX);
        let pl = |y: Single| y.text == t && code_of(y).len() > c.len();
        lemma_single_group_exists(ss, es@, lo as int, hi as int, pl);
        if !longest(ss, *x) {
            let i = choose|i: int| 0 <= i < ss.len() && (#[trigger] ss[i]).text == t && !(code_of(ss[i]).len() <= c.len());
            assert(pl(ss[i]));
        }
        if n < longest_n {
            let jj = choose|jj: int| lo <= jj < hi && code_of(*(#[trigger] es@[jj])).len() == longest_n;
            assert(pl(*es@[jj]));
            let i = choose|i: int| 0 <= i < ss.len() && #[trigger] pl(ss[i]);
            assert(ss[i].text == t && !(code_of(ss[i]).len() <= c.len()));
        }
        if longest(ss, *x) {
            assert forall|jj: int| lo <= jj < hi implies !#[trigger] pl(*es@[jj]) by {
                if pl(*es@[jj]) {
                    let i = choose|i: int| 0 <= i < ss.len() && #[trigger] pl(ss[i]);
                    assert(ss[i].text == t);
                }
            }
        }
    }
    if n != longest_n {
        return false;
    }
    if n == 0 {
        return false;
    }
    let k = pack(x.code.as_str());
    let mut p = k / BASE;
    let mut l: usize = n - 1;
    let mut free = false;
    proof {
        lemma_letters_keyable(c);
        lemma_key_take(c, l as int);
        assert(c.take(l + 1) =~= c);
        lemma_key_prefix_le(c, l as int);
        assert((key_of(c.take(l as int)) * 27 + (c[l as int] - 0x60)) / 27 == key_of(c.take(l as int))) by (nonlinear_arith)
            requires
                1 <= c[l as int] - 0x60 <= 26,
                key_of(c.take(l as int)) >= 0;
    }
    while p != 0
        invariant
            es@.map_values(|e: &Single| *e).to_multiset() == ss.to_multiset(),
            sorted_by(es@, |a: &Single, b: &Single| a.text <= b.text),
            single_group(es@, lo as int, hi as int),
            keyed(ss),
            key_set_of(key_set_contents(*used), ss),
            t == es@[lo as int].text,
            lo <= j < hi,
            c == code_of(*es@[j as int]),
            t == es@[j as int].text,
            longest(ss, *es@[j as int]),
            letters(c),
            key_of(c) <= u32::MAX,
            n == c.len(),
            l < n,
            p == key_of(c.take(l as int)),
            free == exists|ll: int| l < ll < n && !is_code(ss, #[trigger] c.take(ll)),
            forall|ll: int| l < ll < n ==> !is_code_of(ss, t, #[trigger] c.take(ll)),
        decreases l,
    {
        let ghost q = c.take(l as int);
        proof {
            assert(letters(q));
            lemma_letters_keyable(q);
            lemma_letters_keyable(c);
            lemma_key_nonneg(q);
            if l == 0 {
                assert(q.len() == 0);
            }
            lemma_key_prefix_le(c, l as int);
            assert(letters(q));
            lemma_used_query(key_set_contents(*used), ss, q);
        }
        if !key_set_contains(used, p) {
            free = true;
        } else if run_has_key(es, lo, hi, p, Ghost(ss)) {
            proof {
                let jj = choose|jj: int| lo <= jj < hi && key_of(code_of(*(#[trigger] es@[jj]))) == p;
                lemma_refs_contain(ss, es@, *es@[jj]);
                let m = choose|m: int| 0 <= m < ss.len() && ss[m] == *es@[jj];
                assert(letters(code_of(ss[m])));
                lemma_key_injective(code_of(*es@[jj]), q);
                assert(es@[jj].text == t);
                assert(ss[m].text == t && code_of(ss[m]) == q);
                assert(is_code_of(ss, t, c.take(l as int)));
            }
            return false;
        } else {
            proof {
                let pc = |y: Single| y.text == t && code_of(y) == q;
                lemma_single_group_exists(ss, es@, lo as int, hi as int, pc);
                if is_code_of(ss, t, q) {
                    let m = choose|m: int| 0 <= m < ss.len() && (#[trigger] ss[m]).text == t && code_of(ss[m]) == q;
                    assert(pc(ss[m]));
                    let jj = choose|jj: int| lo <= jj < hi && #[trigger] pc(*es@[jj]);
                    assert(key_of(code_of(*es@[jj])) == p);
                }
            }
        }
        proof {
            lemma_key_take(c, l - 1);
            assert((key_of(c.take(l - 1)) * 27 + (c[l - 1] - 0x60)) / 27 == key_of(c.take(l - 1))) by (nonlinear_arith)
                requires
                    1 <= c[l - 1] - 0x60 <= 26,
                    key_of(c.take(l - 1)) >= 0;
            assert(letters(c.take(l - 1)));
            lemma_letters_keyable(c.take(l - 1));
            lemma_key_nonneg(c.take(l - 1));
        }
        p = p / BASE;
        l = l - 1;
    }
    proof {
        assert(letters(c.take(l as int)));
        lemma_letters_keyable(c.take(l as int));
        lemma_key_nonneg(c.take(l as int));
        assert(l == 0);
    }
    free
}

/// The entries whose code is a longest code of their character and
/// orphaned, in order of character and then of code.
pub fn check<'a>(singles: &'a [Single]) -> (r: Vec<&'a Single>)
    requires
        keyed(singles@),
    ensures
        r@.map_values(|e: &Single| *e).to_multiset() == singles@.filter(|x: Single| absent(singles@, x)).to_multiset(),
        sorted_by(r@, |a: &Single, b: &Single| single_le(*a, *b)),
{
    let ghost ss = singles@;
    let mut used = key_set_new(singles.len());
    let mut i: usize = 0;
    while i < singles.len()
        invariant
            i <= ss.len(),
            ss == singles@,
            keyed(ss),
            key_set_of(key_set_contents(used), ss.take(i as int)),
        decreases singles.len() - i,
    {
        let ghost old_used = key_set_contents(used);
        let k = pack(singles[i].code.as_str());
        key_set_insert(&mut used, k);
        proof {
            let now = ss.take(i + 1);
            let before = ss.take(i as int);
            assert forall|kk: u32| #[trigger] key_set_contents(used).contains(kk) <==> exists|m: int|
                0 <= m < now.len() && key_of(code_of(#[trigger] now[m])) == kk by {
                if old_used.contains(kk) {
                    let m = choose|m: int| 0 <= m < before.len() && key_of(code_of(#[trigger] before[m])) == kk;
                    assert(now[m] == before[m]);
                }
                if kk == k {
                    assert(now[i as int] == ss[i as int]);
                }
                if exists|m: int| 0 <= m < now.len() && key_of(code_of(#[trigger] now[m])) == kk {
                    let m = choose|m: int| 0 <= m < now.len() && key_of(code_of(#[trigger] now[m])) == kk;
                    if m < before.len() {
                        assert(now[m] == before[m]);
                    }
                }
            }
        }
        i += 1;
    }
    assert(ss.take(ss.len() as int) =~= ss);
    let es = sorted_refs(singles);
    let ghost rp = |x: &Single| absent(ss, *x);
    let n = es.len();
    let mut result: Vec<&Single> = Vec::new();
    let mut lo: usize = 0;
    while lo < n
        invariant
            n == es@.len(),
            lo <= n,
            ss == singles@,
            keyed(ss),
            key_set_of(key_set_contents(used), ss),
            es@.map_values(|e: &Single| *e).to_multiset() == ss.to_multiset(),
            sorted_by(es@, |a: &Single, b: &Single| single_le(*a, *b)),
            sorted_by(es@, |a: &Single, b: &Single| a.text <= b.text),
            lo == 0 || lo == n || es@[lo - 1].text != es@[lo as int].text,
            rp == (|x: &Single| absent(ss, *x)),
            result@ == es@.take(lo as int).filter(rp),
        decreases n - lo,
    {
        let hi = single_group_end(&es, lo);
        let longest_n = run_longest(&es, lo, hi);
        let mut j = lo;
        while j < hi
            invariant
                es@.map_values(|e: &Single| *e).to_multiset() == ss.to_multiset(),
                sorted_by(es@, |a: &Single, b: &Single| a.text <= b.text),
                single_group(es@, lo as int, hi as int),
                keyed(ss),
                key_set_of(key_set_contents(used), ss),
                forall|jj: int| lo <= jj < hi ==> code_of(*(#[trigger] es@[jj])).len() <= longest_n,
                exists|jj: int| lo <= jj < hi && code_of(*(#[trigger] es@[jj])).len() == longest_n,
                lo <= j <= hi,
                rp == (|x: &Single| absent(ss, *x)),
                result@ == es@.take(j as int).filter(rp),
            decreases hi - j,
        {
            proof {
                assert(es@.take(j + 1) =~= es@.take(j as int).push(es@[j as int]));
                es@.take(j as int).lemma_filter_push(es@[j as int], rp);
            }
            if absent_at(&es, lo, hi, j, longest_n, &used, Ghost(ss)) {
                result.push(es[j]);
            }
            j += 1;
        }
        proof {
            if hi < n {
                assert(es@[hi - 1].text == es@[lo as int].text);
            }
        }
        lo = hi;
    }
    proof {
        assert(es@.take(n as int) =~= es@);
        let q = |x: Single| absent(ss, x);
        let f = |e: &Single| *e;
        lemma_filter_map_commute(es@, f, q);
        assert((|x: &Single| q(f(x))) =~= rp);
        lemma_filter_perm(es@.map_values(f), ss, q);
        lemma_sorted_filter(es@, |a: &Single, b: &Single| single_le(*a, *b), rp);
    }
    result
}

} // verus!
