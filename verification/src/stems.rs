//! The stems of the single characters, from which phrase codes are built.

use crate::entry::Single;
use crate::hashing::{
    stem_map_contents, stem_map_insert, stem_map_is_empty, stem_map_new, stem_map_remove, StemMap,
};
use crate::keytao::{spec_stem, stem, Stem};
use crate::order::code_of;
use vstd::prelude::*;

verus! {

/// The stems of the first `k` entries: each character maps to the distinct
/// stems of its codes of three or more bytes, in order of first appearance.
pub open spec fn stems_upto(singles: Seq<Single>, k: int) -> Map<char, Seq<Stem>>
    decreases k,
{
    if k <= 0 {
        Map::empty()
    } else {
        let m = stems_upto(singles, k - 1);
        let e = singles[k - 1];
        match spec_stem(code_of(e)) {
            None => m,
            Some(s) => {
                let old_stems = if m.contains_key(e.text) {
                    m[e.text]
                } else {
                    Seq::empty()
                };
                if has_stem(old_stems, s) {
                    m.insert(e.text, old_stems)
                } else {
                    m.insert(e.text, old_stems.push(stem_of(s)))
                }
            },
        }
    }
}

/// Whether `stems` holds the stem `s`.
pub open spec fn has_stem(stems: Seq<Stem>, s: Seq<u8>) -> bool {
    exists|j: int| 0 <= j < stems.len() && (#[trigger] stems[j])@ == s
}

/// The array holding a three-byte stem.
pub open spec fn stem_of(s: Seq<u8>) -> Stem {
    choose|a: Stem| a@ == s
}

fn contains_stem(v: &Vec<Stem>, s: Stem) -> (r: bool)
    ensures
        r == has_stem(v@, s@),
{
    let mut i: usize = 0;
    while i < v.len()
        invariant
            i <= v@.len(),
            forall|j: int| 0 <= j < i ==> v@[j]@ != s@,
        decreases v.len() - i,
    {
        if v[i][0] == s[0] && v[i][1] == s[1] && v[i][2] == s[2] {
            assert(v@[i as int]@ =~= s@);
            return true;
        }
        i += 1;
    }
    false
}

/// The stems of all single characters (each character's distinct stems in
/// order of first appearance); fails with `无有效构词码` when no code has
/// three bytes.
pub fn get_stems(singles: &Vec<Single>) -> (r: Result<StemMap, String>)
    ensures
        match r {
            Ok(m) => stem_map_contents(m) == stems_upto(singles@, singles@.len() as int)
                && stems_upto(singles@, singles@.len() as int).dom() != Set::<char>::empty(),
            Err(msg) => msg@ == "无有效构词码"@ && stems_upto(singles@, singles@.len() as int).dom()
                == Set::<char>::empty(),
        },
{
    let mut stems = stem_map_new(4096);
    let mut i: usize = 0;
    while i < singles.len()
        invariant
            i <= singles@.len(),
            stem_map_contents(stems) == stems_upto(singles@, i as int),
        decreases singles.len() - i,
    {
        let e = &singles[i];
        match stem(e.code.as_str()) {
            None => {},
            Some(s) => {
                let ghost m = stems_upto(singles@, i as int);
                let ghost old_stems = if m.contains_key(e.text) {
                    m[e.text]
                } else {
                    Seq::empty()
                };
                let mut v = match stem_map_remove(&mut stems, e.text) {
                    Some(v) => v,
                    None => Vec::new(),
                };
                assert(v@ == old_stems);
                assert(stem_map_contents(stems) == m.remove(e.text));
                let ghost has = has_stem(old_stems, s@);
                if !contains_stem(&v, s) {
                    v.push(s);
                    proof {
                        let t: Stem = stem_of(s@);
                        assert(t@ == s@);
                        assert(t == s) by {
                            assert(t@ =~= s@);
                        }
                    }
                }
                assert(v@ == if has { old_stems } else { old_stems.push(stem_of(s@)) });
                stem_map_insert(&mut stems, e.text, v);
                proof {
                    assert(spec_stem(code_of(singles@[i as int])) == Some(s@));
                    let se = singles@[i as int];
                    assert(se.text == e.text);
                    assert(code_of(se) == code_of(*e));
                    if has {
                        assert(stems_upto(singles@, i + 1) == m.insert(e.text, old_stems));
                    } else {
                        assert(stems_upto(singles@, i + 1) == m.insert(
                            e.text,
                            old_stems.push(stem_of(s@)),
                        ));
                    }
                    assert(stems_upto(singles@, i + 1) == m.insert(e.text, v@));
                    assert(stem_map_contents(stems) =~= stems_upto(singles@, i + 1));
                }
            },
        }
        i += 1;
    }
    if stem_map_is_empty(&stems) {
        return Err("无有效构词码".to_owned());
    }
    Ok(stems)
}

} // verus!
