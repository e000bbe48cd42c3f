//! Code chains of single characters: the codes of a character, how many
//! entries each has, and which codes are prefixes of which.

use crate::entry::Single;
use crate::groups::single_group;
use crate::hashing::{code_counts_contents, code_counts_get, code_counts_insert, code_counts_new, CodeCounts};
use crate::order::{bytes_eq, code_of, index_le, sorted_by, starts_with};
use vstd::prelude::*;
use vstd::string::StringSliceAdditionalSpecFns;

verus! {

broadcast use vstd::seq_lib::group_seq_properties;

/// Entries of any character with code `c`.
pub open spec fn gcnt(ss: Seq<Single>, c: Seq<u8>) -> nat {
    ss.filter(|e: Single| code_of(e) == c).len()
}

/// Entries of character `t` with code `c`.
pub open spec fn cnt(ss: Seq<Single>, t: char, c: Seq<u8>) -> nat {
    ss.filter(|e: Single| e.text == t && code_of(e) == c).len()
}

/// `c` is a code of character `t`.
pub open spec fn has_code(ss: Seq<Single>, t: char, c: Seq<u8>) -> bool {
    exists|i: int| 0 <= i < ss.len() && (#[trigger] ss[i]).text == t && code_of(ss[i]) == c
}

/// `p` is a proper, non-empty prefix of `c`.
pub open spec fn proper_prefix(p: Seq<u8>, c: Seq<u8>) -> bool {
    0 < p.len() < c.len() && p.is_prefix_of(c)
}

/// `c` is a code of `t` that no other code of `t` extends: a full code.
pub open spec fn is_full(ss: Seq<Single>, t: char, c: Seq<u8>) -> bool {
    has_code(ss, t, c) && !exists|i: int|
        0 <= i < ss.len() && (#[trigger] ss[i]).text == t && proper_prefix(c, code_of(ss[i]))
}

/// Entries of `t` whose code is a proper prefix of `f`.
pub open spec fn pref_total(ss: Seq<Single>, t: char, f: Seq<u8>) -> nat {
    ss.filter(|e: Single| e.text == t && proper_prefix(code_of(e), f)).len()
}

/// Positions `order` of `singles`, sorted by character, code and position,
/// and the entries `es` at them.
pub open spec fn ordered(singles: Seq<Single>, order: Seq<usize>, es: Seq<&Single>) -> bool {
    &&& es.len() == order.len() == singles.len()
    &&& forall|k: int| 0 <= k < order.len() ==> (#[trigger] order[k]) < singles.len()
    &&& forall|k: int| 0 <= k < es.len() ==> *(#[trigger] es[k]) == singles[order[k] as int]
    &&& order.no_duplicates()
    &&& forall|i: usize| i < singles.len() ==> #[trigger] order.contains(i)
    &&& sorted_by(order, |i: usize, j: usize| index_le(singles, i, j))
    &&& sorted_by(es, |a: &Single, b: &Single| a.text <= b.text)
    &&& es.map_values(|e: &Single| *e).to_multiset() == singles.to_multiset()
}

/// The counts of `m` are those of `singles`.
pub open spec fn counts_of(m: CodeCounts, singles: Seq<Single>) -> bool {
    &&& forall|c: Seq<u8>|
        #![trigger code_counts_contents(m).contains_key(c)]
        code_counts_contents(m).contains_key(c) <==> gcnt(singles, c) > 0
    &&& forall|c: Seq<u8>|
        code_counts_contents(m).contains_key(c) ==> #[trigger] code_counts_contents(m)[c]
            == gcnt(singles, c)
}

/// All codes are ASCII.
pub open spec fn ascii_codes(singles: Seq<Single>) -> bool {
    forall|i: int| 0 <= i < singles.len() ==> vstd::utf8::is_ascii_chars((#[trigger] singles[i]).code@)
}

/// Counts every code of `singles`.
pub fn count_codes<'a>(singles: &'a [Single]) -> (r: CodeCounts<'a>)
    requires
        singles@.len() < usize::MAX,
    ensures
        forall|c: Seq<u8>|
            #![trigger code_counts_contents(r).contains_key(c)]
            code_counts_contents(r).contains_key(c) <==> gcnt(singles@, c) > 0,
        forall|c: Seq<u8>|
            code_counts_contents(r).contains_key(c) ==> #[trigger] code_counts_contents(r)[c]
                == gcnt(singles@, c),
{
    let mut m = code_counts_new(singles.len());
    let mut i: usize = 0;
    while i < singles.len()
        invariant
            i <= singles@.len(),
            singles@.len() < usize::MAX,
            forall|c: Seq<u8>|
                #![trigger code_counts_contents(m).contains_key(c)]
                code_counts_contents(m).contains_key(c) <==> gcnt(singles@.take(i as int), c) > 0,
            forall|c: Seq<u8>|
                code_counts_contents(m).contains_key(c) ==> #[trigger] code_counts_contents(m)[c]
                    == gcnt(singles@.take(i as int), c),
        decreases singles.len() - i,
    {
        let k = singles[i].code.as_str();
        let ghost ci = code_of(singles@[i as int]);
        assert(k.spec_bytes() == ci);
        let v = match code_counts_get(&m, k) {
            Some(v) => v,
            None => 0,
        };
        proof {
            let t = singles@.take(i as int);
            assert(singles@.take(i + 1) =~= t.push(singles@[i as int]));
            assert forall|c: Seq<u8>| true implies #[trigger] gcnt(singles@.take(i + 1), c) == gcnt(t, c)
                + if c == ci {
                1nat
            } else {
                0nat
            } by {
                t.lemma_filter_push(singles@[i as int], |e: Single| code_of(e) == c);
            }
            assert(t.filter(|e: Single| code_of(e) == ci).len() <= t.len()) by {
                t.lemma_filter_len(|e: Single| code_of(e) == ci);
            }
        }
        code_counts_insert(&mut m, k, v + 1);
        i += 1;
    }
    assert(singles@.take(singles@.len() as int) =~= singles@);
    m
}


/// Entries of the run `lo..hi` whose code is `c`.
pub fn run_count_code(es: &Vec<&Single>, lo: usize, hi: usize, c: &[u8]) -> (r: usize)
    requires
        single_group(es@, lo as int, hi as int),
    ensures
        r == es@.subrange(lo as int, hi as int).map_values(|e: &Single| *e).filter(
            |x: Single| x.text == es@[lo as int].text && code_of(x) == c@,
        ).len(),
{
    let ghost t = es@[lo as int].text;
    let ghost p = |x: Single| x.text == t && code_of(x) == c@;
    let mut r: usize = 0;
    let mut j = lo;
    while j < hi
        invariant
            single_group(es@, lo as int, hi as int),
            t == es@[lo as int].text,
            p == (|x: Single| x.text == t && code_of(x) == c@),
            lo <= j <= hi,
            r == es@.subrange(lo as int, j as int).map_values(|e: &Single| *e).filter(p).len(),
            r <= j - lo,
        decreases hi - j,
    {
        proof {
            let g = es@.subrange(lo as int, j as int).map_values(|e: &Single| *e);
            assert(es@.subrange(lo as int, j + 1).map_values(|e: &Single| *e) =~= g.push(*es@[j as int]));
            g.lemma_filter_push(*es@[j as int], p);
            g.lemma_filter_len(p);
        }
        if bytes_eq(es[j].code.as_str().as_bytes(), c) {
            r += 1;
        }
        j += 1;
    }
    assert(p =~= (|x: Single| x.text == es@[lo as int].text && code_of(x) == c@));
    r
}

/// Entries of the run `lo..hi` whose code is a proper prefix of `f`.
pub fn run_count_prefixes(es: &Vec<&Single>, lo: usize, hi: usize, f: &[u8]) -> (r: usize)
    requires
        single_group(es@, lo as int, hi as int),
    ensures
        r == es@.subrange(lo as int, hi as int).map_values(|e: &Single| *e).filter(
            |x: Single| x.text == es@[lo as int].text && proper_prefix(code_of(x), f@),
        ).len(),
{
    let ghost t = es@[lo as int].text;
    let ghost p = |x: Single| x.text == t && proper_prefix(code_of(x), f@);
    let mut r: usize = 0;
    let mut j = lo;
    while j < hi
        invariant
            single_group(es@, lo as int, hi as int),
            t == es@[lo as int].text,
            p == (|x: Single| x.text == t && proper_prefix(code_of(x), f@)),
            lo <= j <= hi,
            r == es@.subrange(lo as int, j as int).map_values(|e: &Single| *e).filter(p).len(),
            r <= j - lo,
        decreases hi - j,
    {
        proof {
            let g = es@.subrange(lo as int, j as int).map_values(|e: &Single| *e);
            assert(es@.subrange(lo as int, j + 1).map_values(|e: &Single| *e) =~= g.push(*es@[j as int]));
            g.lemma_filter_push(*es@[j as int], p);
            g.lemma_filter_len(p);
        }
        let x = es[j].code.as_str().as_bytes();
        if 0 < x.len() && x.len() < f.len() && starts_with(f, x) {
            r += 1;
        }
        j += 1;
    }
    assert(p =~= (|x: Single| x.text == es@[lo as int].text && proper_prefix(code_of(x), f@)));
    r
}

/// Some entry of the run `lo..hi` has a code that `c` is a proper prefix of.
pub fn run_has_extension(es: &Vec<&Single>, lo: usize, hi: usize, c: &[u8]) -> (r: bool)
    requires
        lo <= hi <= es@.len(),
    ensures
        r == exists|j: int| lo <= j < hi && proper_prefix(c@, code_of(*(#[trigger] es@[j]))),
{
    let mut j = lo;
    while j < hi
        invariant
            lo <= j <= hi <= es@.len(),
            forall|jj: int| lo <= jj < j ==> !proper_prefix(c@, code_of(*(#[trigger] es@[jj]))),
        decreases hi - j,
    {
        let x = es[j].code.as_str().as_bytes();
        if 0 < c.len() && c.len() < x.len() && starts_with(x, c) {
            return true;
        }
        j += 1;
    }
    false
}

/// Some entry of `lo..j` has the code `c`.
pub fn run_has_code_before(es: &Vec<&Single>, lo: usize, j: usize, c: &[u8]) -> (r: bool)
    requires
        lo <= j <= es@.len(),
    ensures
        r == exists|jj: int| lo <= jj < j && code_of(*(#[trigger] es@[jj])) == c@,
{
    let mut k = lo;
    while k < j
        invariant
            lo <= k <= j <= es@.len(),
            forall|jj: int| lo <= jj < k ==> code_of(*(#[trigger] es@[jj])) != c@,
        decreases j - k,
    {
        if bytes_eq(es[k].code.as_str().as_bytes(), c) {
            return true;
        }
        k += 1;
    }
    false
}

} // verus!
