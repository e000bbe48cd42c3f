//! Short codes (简码) of single characters that are used in a way that
//! leaves the character's codes ambiguous: too many entries on one code
//! chain, or a lone short code that is doubled elsewhere or skips a free
//! shorter code.

use crate::chains::{
    ascii_codes, cnt, count_codes, counts_of, gcnt, has_code, is_full, ordered, pref_total,
    proper_prefix, run_count_code, run_count_prefixes, run_has_code_before, run_has_extension,
};
use crate::entry::Single;
use crate::groups::{
    lemma_filter_no_dups, lemma_positions_perm, lemma_single_group, lemma_single_group_count,
    lemma_single_group_exists, lemma_sorted_filter, single_group, single_group_end,
};
use crate::hashing::{code_counts_contents, code_counts_get, CodeCounts};
use crate::order::{code_of, index_le, lemma_map_perm, sort_positions, sorted_by, starts_with};
use vstd::prelude::*;
use vstd::string::{StrSliceExecFns, StringSliceAdditionalSpecFns};

verus! {

broadcast use vstd::seq_lib::group_seq_properties;

/// Entries on the chain of the full code `f` besides one entry of `f`.
pub open spec fn ttl(ss: Seq<Single>, t: char, f: Seq<u8>) -> int {
    cnt(ss, t, f) - 1 + pref_total(ss, t, f)
}

/// The short code `p` is doubled (another entry of any character has it),
/// or one of its proper prefixes is no code at all.
pub open spec fn weak_prefix(ss: Seq<Single>, p: Seq<u8>) -> bool {
    gcnt(ss, p) > 1 || exists|k: int| 1 <= k < p.len() && gcnt(ss, #[trigger] p.take(k)) == 0
}

/// The full code `f` of `t` condemns its short code `p`: the chain of `f`
/// holds more than two entries, or `f` has a single entry and `p` is its
/// only, single-entry short code, and `p` is weak.
pub open spec fn condemns(ss: Seq<Single>, t: char, f: Seq<u8>, p: Seq<u8>) -> bool {
    &&& is_full(ss, t, f)
    &&& has_code(ss, t, p)
    &&& proper_prefix(p, f)
    &&& (ttl(ss, t, f) > 1 || (ttl(ss, t, f) == 1 && cnt(ss, t, f) == 1 && weak_prefix(ss, p)))
}

/// Every entry of the short code `p` of `t` is reported.
pub open spec fn bad_all(ss: Seq<Single>, t: char, p: Seq<u8>) -> bool {
    exists|f: Seq<u8>| #[trigger] condemns(ss, t, f, p)
}

/// All but the first entry of the full code `c` of `t` are reported.
pub open spec fn bad_rest(ss: Seq<Single>, t: char, c: Seq<u8>) -> bool {
    is_full(ss, t, c) && cnt(ss, t, c) > 1
}

/// An earlier entry has the same character and code.
pub open spec fn earlier_twin(ss: Seq<Single>, i: int) -> bool {
    exists|j: int|
        0 <= j < i && (#[trigger] ss[j]).text == ss[i].text && code_of(ss[j]) == code_of(ss[i])
}

/// Entry `i` is reported.
pub open spec fn anomalous(ss: Seq<Single>, i: int) -> bool {
    let t = ss[i].text;
    let c = code_of(ss[i]);
    bad_all(ss, t, c) || (bad_rest(ss, t, c) && earlier_twin(ss, i))
}

/// Whether the short code `code` is weak: doubled, or with a proper prefix
/// that is no code.
fn weak(m: &CodeCounts, singles: &[Single], code: &str) -> (r: bool)
    requires
        vstd::string::is_ascii(code),
        gcnt(singles@, code.spec_bytes()) > 0,
        forall|c: Seq<u8>|
            #![trigger code_counts_contents(*m).contains_key(c)]
            code_counts_contents(*m).contains_key(c) <==> gcnt(singles@, c) > 0,
        forall|c: Seq<u8>|
            code_counts_contents(*m).contains_key(c) ==> #[trigger] code_counts_contents(*m)[c]
                == gcnt(singles@, c),
    ensures
        r == weak_prefix(singles@, code.spec_bytes()),
{
    broadcast use vstd::string::is_ascii_spec_bytes;

    let ghost b = code.spec_bytes();
    assert(code_counts_contents(*m).contains_key(b));
    match code_counts_get(m, code) {
        Some(v) => {
            if v > 1 {
                return true;
            }
        },
        None => {},
    }
    let n = code.unicode_len();
    assert(b.len() == n);
    let mut k: usize = 1;
    while k < n
        invariant
            vstd::string::is_ascii(code),
            b == code.spec_bytes(),
            b.len() == n,
            n == code@.len(),
            1 <= k,
            gcnt(singles@, b) <= 1,
            forall|kk: int| 1 <= kk < k && kk < n ==> gcnt(singles@, #[trigger] b.take(kk)) > 0,
            forall|c: Seq<u8>|
                #![trigger code_counts_contents(*m).contains_key(c)]
                code_counts_contents(*m).contains_key(c) <==> gcnt(singles@, c) > 0,
        decreases n - k,
    {
        let p = code.substring_ascii(0, k);
        assert(p.spec_bytes() =~= b.take(k as int));
        if code_counts_get(m, p).is_none() {
            return true;
        }
        k += 1;
    }
    false
}


/// Whether the entry at position `j` of the run `lo..hi` is reported.
fn anomalous_at(
    singles: &[Single],
    order: &Vec<usize>,
    es: &Vec<&Single>,
    lo: usize,
    hi: usize,
    j: usize,
    m: &CodeCounts,
) -> (r: bool)
    requires
        ordered(singles@, order@, es@),
        single_group(es@, lo as int, hi as int),
        lo <= j < hi,
        counts_of(*m, singles@),
        ascii_codes(singles@),
    ensures
        r == anomalous(singles@, order@[j as int] as int),
{
    let ghost ss = singles@;
    let ghost i = order@[j as int] as int;
    let x = es[j];
    assert(*x == ss[i]);
    let ghost t = x.text;
    assert(t == es@[lo as int].text);
    let c = x.code.as_str().as_bytes();
    let ghost cb = code_of(*x);
    assert(c@ == cb);
    let full = !run_has_extension(es, lo, hi, c);
    proof {
        let pe = |y: Single| y.text == t && proper_prefix(cb, code_of(y));
        lemma_single_group_exists(ss, es@, lo as int, hi as int, pe);
        assert(has_code(ss, t, cb)) by {
            assert(ss[i].text == t && code_of(ss[i]) == cb);
        }
        if exists|jj: int| lo <= jj < hi && proper_prefix(cb, code_of(*(#[trigger] es@[jj]))) {
            let jj = choose|jj: int| lo <= jj < hi && proper_prefix(cb, code_of(*(#[trigger] es@[jj])));
            assert(pe(*es@[jj]));
            let k = choose|k: int| 0 <= k < ss.len() && #[trigger] pe(ss[k]);
            assert(!is_full(ss, t, cb));
        }
        if !is_full(ss, t, cb) {
            let k = choose|k: int| 0 <= k < ss.len() && (#[trigger] ss[k]).text == t && proper_prefix(cb, code_of(ss[k]));
            assert(pe(ss[k]));
            let jj = choose|jj: int| lo <= jj < hi && #[trigger] pe(*es@[jj]);
        }
        assert(full == is_full(ss, t, cb));
    }
    let n_c = run_count_code(es, lo, hi, c);
    proof {
        let p1 = |y: Single| y.text == t && code_of(y) == cb;
        lemma_single_group_count(ss, es@, lo as int, hi as int, p1);
        assert(p1 =~= (|x: Single| x.text == es@[lo as int].text && code_of(x) == c@));
        assert(p1 =~= (|e: Single| e.text == t && code_of(e) == cb));
        assert(n_c == cnt(ss, t, cb));
    }
    let rest = full && n_c > 1;
    let twin = run_has_code_before(es, lo, j, c);
    proof {
        lemma_single_group(es@, lo as int, hi as int);
        if twin {
            let jj = choose|jj: int| lo <= jj < j && code_of(*(#[trigger] es@[jj])) == cb;
            let i2 = order@[jj] as int;
            assert(*es@[jj] == ss[i2]);
            assert(index_le(ss, order@[jj], order@[j as int]));
            assert(order@[jj] != order@[j as int]);
            assert(ss[i2].text == ss[i].text);
            assert(earlier_twin(ss, i));
        }
        if earlier_twin(ss, i) {
            let i2 = choose|i2: int| 0 <= i2 < i && (#[trigger] ss[i2]).text == ss[i].text && code_of(ss[i2]) == code_of(ss[i]);
            assert(order@.contains(i2 as usize));
            let jj = choose|jj: int| 0 <= jj < order@.len() && order@[jj] == i2 as usize;
            assert(*es@[jj] == ss[i2]);
            assert(lo <= jj < hi);
            if jj > j {
                assert(index_le(ss, order@[j as int], order@[jj]));
            }
            assert(jj != j);
            assert(jj < j);
            assert(code_of(*es@[jj]) == cb);
        }
        assert(twin == earlier_twin(ss, i));
    }
    proof {
        let pg = |e: Single| code_of(e) == cb;
        ss.lemma_filter_contains(pg, i);
        assert(ss.filter(pg).contains(ss[i]));
        assert(gcnt(ss, cb) > 0);
    }
    let mut all = false;
    let mut k = lo;
    while k < hi && !all
        invariant
            ordered(singles@, order@, es@),
            single_group(es@, lo as int, hi as int),
            lo <= k <= hi,
            lo <= j < hi,
            ss == singles@,
            t == es@[lo as int].text,
            *x == ss[i],
            0 <= i < ss.len(),
            gcnt(ss, cb) > 0,
            ss[i].text == t,
            c@ == cb,
            cb == code_of(ss[i]),
            counts_of(*m, singles@),
            ascii_codes(singles@),
            all ==> bad_all(ss, t, cb),
            !all ==> forall|kk: int| lo <= kk < k ==> !condemns(ss, t, code_of(*(#[trigger] es@[kk])), cb),
        decreases hi - k,
    {
        let f = es[k].code.as_str().as_bytes();
        let ghost fb = code_of(*es@[k as int]);
        assert(f@ == fb);
        let f_full = !run_has_extension(es, lo, hi, f);
        proof {
            assert(es@[k as int].text == t);
            let pe = |y: Single| y.text == t && proper_prefix(fb, code_of(y));
            lemma_single_group_exists(ss, es@, lo as int, hi as int, pe);
            let io = order@[k as int] as int;
            assert(ss[io] == *es@[k as int]);
            assert(has_code(ss, t, fb));
            if exists|jj: int| lo <= jj < hi && proper_prefix(fb, code_of(*(#[trigger] es@[jj]))) {
                let jj = choose|jj: int| lo <= jj < hi && proper_prefix(fb, code_of(*(#[trigger] es@[jj])));
                assert(pe(*es@[jj]));
                let kk = choose|kk: int| 0 <= kk < ss.len() && #[trigger] pe(ss[kk]);
            }
            if !is_full(ss, t, fb) {
                let kk = choose|kk: int| 0 <= kk < ss.len() && (#[trigger] ss[kk]).text == t && proper_prefix(fb, code_of(ss[kk]));
                assert(pe(ss[kk]));
                let jj = choose|jj: int| lo <= jj < hi && #[trigger] pe(*es@[jj]);
            }
            assert(f_full == is_full(ss, t, fb));
        }
        if f_full && 0 < c.len() && c.len() < f.len() && starts_with(f, c) {
            let nf = run_count_code(es, lo, hi, f);
            let pf = run_count_prefixes(es, lo, hi, f);
            proof {
                let p1 = |y: Single| y.text == t && code_of(y) == fb;
                let p2 = |y: Single| y.text == t && proper_prefix(code_of(y), fb);
                lemma_single_group_count(ss, es@, lo as int, hi as int, p1);
                lemma_single_group_count(ss, es@, lo as int, hi as int, p2);
                assert(p1 =~= (|x: Single| x.text == es@[lo as int].text && code_of(x) == f@));
                assert(p1 =~= (|e: Single| e.text == t && code_of(e) == fb));
                assert(p2 =~= (|x: Single| x.text == es@[lo as int].text && proper_prefix(code_of(x), f@)));
                assert(p2 =~= (|e: Single| e.text == t && proper_prefix(code_of(e), fb)));
                assert(nf == cnt(ss, t, fb));
                assert(pf == pref_total(ss, t, fb));
                let g = es@.subrange(lo as int, hi as int).map_values(|e: &Single| *e);
                let pc = |y: Single| y.text == t && code_of(y) == fb;
                assert(g[k - lo] == *es@[k as int]);
                assert(pc(g[k - lo]));
                assert(g.filter(pc).contains(g[k - lo])) by {
                    g.lemma_filter_contains(pc, k - lo);
                }
                assert(nf >= 1);
                g.lemma_filter_len(pc);
                g.lemma_filter_len(|y: Single| y.text == t && proper_prefix(code_of(y), fb));
            }
            // the chain holds nf - 1 + pf entries besides one of f
            let more_than_one = nf >= 3 || pf >= 3 || nf + pf >= 3;
            let exactly_one = nf < 3 && pf < 3 && nf + pf == 2;
            if more_than_one || (exactly_one && nf == 1 && weak(m, singles, x.code.as_str())) {
                all = true;
                proof {
                    assert(has_code(ss, t, cb)) by {
                        assert(ss[i].text == t && code_of(ss[i]) == cb);
                    }
                    assert(condemns(ss, t, fb, cb));
                }
            }
        }
        k += 1;
    }
    proof {
        if !all {
            assert forall|f: Seq<u8>| !#[trigger] condemns(ss, t, f, cb) by {
                if condemns(ss, t, f, cb) {
                    let pf = |y: Single| y.text == t && code_of(y) == f;
                    lemma_single_group_exists(ss, es@, lo as int, hi as int, pf);
                    let ii = choose|ii: int| 0 <= ii < ss.len() && (#[trigger] ss[ii]).text == t && code_of(ss[ii]) == f;
                    assert(pf(ss[ii]));
                    let jj = choose|jj: int| lo <= jj < hi && #[trigger] pf(*es@[jj]);
                    assert(!condemns(ss, t, code_of(*es@[jj]), cb));
                }
            }
        }
    }
    all || (rest && twin)
}


/// The entries whose short or full code is used ambiguously, sorted by
/// character, code and position: the entries of every short code that a
/// full code condemns, and all but the first entry of a full code with
/// several entries.
pub fn check<'a>(singles: &'a [Single]) -> (r: Vec<&'a Single>)
    requires
        singles@.len() < usize::MAX,
        ascii_codes(singles@),
    ensures
        exists|idx: Seq<usize>|
            {
                &&& idx.no_duplicates()
                &&& sorted_by(idx, |i: usize, j: usize| index_le(singles@, i, j))
                &&& forall|i: usize|
                    #[trigger] idx.contains(i) <==> (i < singles@.len() && anomalous(
                        singles@,
                        i as int,
                    ))
                &&& r@.map_values(|e: &Single| *e) == idx.map_values(|i: usize| singles@[i as int])
            },
{
    let ghost ss = singles@;
    let ghost anom = |i: usize| anomalous(ss, i as int);
    let m = count_codes(singles);
    let n = singles.len();
    let mut order: Vec<usize> = Vec::new();
    while order.len() < n
        invariant
            order.len() <= n,
            order@ == Seq::new(order@.len(), |k: int| k as usize),
        decreases n - order.len(),
    {
        let k = order.len();
        order.push(k);
        assert(order@ =~= Seq::new(order@.len(), |k: int| k as usize));
    }
    let ghost init = order@;
    sort_positions(&mut order, singles);
    proof {
        lemma_positions_perm(init, order@, n as nat);
    }
    let mut es: Vec<&Single> = Vec::new();
    let mut k: usize = 0;
    while k < n
        invariant
            k <= n,
            n == singles@.len(),
            ss == singles@,
            order@.len() == n,
            forall|kk: int| 0 <= kk < order@.len() ==> (#[trigger] order@[kk]) < n,
            es@.len() == k,
            forall|kk: int| 0 <= kk < k ==> *(#[trigger] es@[kk]) == ss[order@[kk] as int],
        decreases n - k,
    {
        let ghost old_es = es@;
        es.push(&singles[order[k]]);
        assert(forall|kk: int| 0 <= kk < k ==> es@[kk] == old_es[kk]);
        k += 1;
    }
    proof {
        assert forall|a: int, b: int| 0 <= a < b < es@.len() implies (#[trigger] es@[a]).text
            <= (#[trigger] es@[b]).text by {
            assert(index_le(ss, order@[a], order@[b]));
        }
        let f = |i: usize| ss[i as int];
        lemma_map_perm(init, order@, f);
        assert(init.map_values(f) =~= ss);
        assert(es@.map_values(|e: &Single| *e) =~= order@.map_values(f));
    }
    let mut result: Vec<&Single> = Vec::new();
    let ghost mut idx: Seq<usize> = Seq::empty();
    let mut lo: usize = 0;
    while lo < n
        invariant
            n == singles@.len(),
            ss == singles@,
            anom == (|i: usize| anomalous(ss, i as int)),
            lo <= n,
            ordered(singles@, order@, es@),
            counts_of(m, singles@),
            ascii_codes(singles@),
            lo == 0 || lo == n || es@[lo - 1].text != es@[lo as int].text,
            idx == order@.take(lo as int).filter(anom),
            result@.map_values(|e: &Single| *e) == idx.map_values(|i: usize| ss[i as int]),
        decreases n - lo,
    {
        let hi = single_group_end(&es, lo);
        let mut j = lo;
        while j < hi
            invariant
                n == singles@.len(),
                ss == singles@,
                anom == (|i: usize| anomalous(ss, i as int)),
                lo <= j <= hi,
                ordered(singles@, order@, es@),
                single_group(es@, lo as int, hi as int),
                counts_of(m, singles@),
                ascii_codes(singles@),
                idx == order@.take(j as int).filter(anom),
                result@.map_values(|e: &Single| *e) == idx.map_values(|i: usize| ss[i as int]),
            decreases hi - j,
        {
            proof {
                assert(order@.take(j + 1) =~= order@.take(j as int).push(order@[j as int]));
                order@.take(j as int).lemma_filter_push(order@[j as int], anom);
            }
            if anomalous_at(singles, &order, &es, lo, hi, j, &m) {
                let ghost old_result = result@;
                result.push(es[j]);
                proof {
                    let old_idx = idx;
                    idx = idx.push(order@[j as int]);
                    assert(result@.map_values(|e: &Single| *e) =~= old_result.map_values(
                        |e: &Single| *e,
                    ).push(*es@[j as int]));
                    assert(idx.map_values(|i: usize| ss[i as int]) =~= old_idx.map_values(
                        |i: usize| ss[i as int],
                    ).push(ss[order@[j as int] as int]));
                }
            }
            j += 1;
        }
        proof {
            if hi < n {
                assert(es@[hi - 1].text == es@[lo as int].text);
            }
        }
        lo = hi;
    }
    proof {
        assert(order@.take(n as int) =~= order@);
        lemma_filter_no_dups(order@, anom);
        lemma_sorted_filter(order@, |i: usize, j: usize| index_le(ss, i, j), anom);
        assert forall|i: usize| #[trigger] idx.contains(i) <==> (i < ss.len() && anomalous(ss, i as int)) by {
            if idx.contains(i) {
                order@.lemma_filter_contains_rev(anom, i);
            }
            if i < ss.len() && anomalous(ss, i as int) {
                assert(order@.contains(i));
                let k = choose|k: int| 0 <= k < order@.len() && order@[k] == i;
                order@.lemma_filter_contains(anom, k);
            }
        }
    }
    result
}

} // verus!
