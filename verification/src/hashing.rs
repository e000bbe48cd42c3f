//! The hash maps and sets of `ahash` that the checks use, and what their
//! operations do to their contents.

use crate::keytao::Stem;
use ahash::{AHashMap, AHashSet, RandomState};
use vstd::prelude::*;
use vstd::string::StringSliceAdditionalSpecFns;

verus! {

#[verifier::external_type_specification]
#[verifier::external_body]
#[verifier::reject_recursive_types(K)]
#[verifier::reject_recursive_types(V)]
#[verifier::reject_recursive_types(S)]
pub struct ExAHashMap<K, V, S>(AHashMap<K, V, S>);

#[verifier::external_type_specification]
#[verifier::external_body]
#[verifier::reject_recursive_types(T)]
#[verifier::reject_recursive_types(S)]
pub struct ExAHashSet<T, S>(AHashSet<T, S>);

#[verifier::external_type_specification]
#[verifier::external_body]
pub struct ExRandomState(RandomState);

/// The stems of each single character.
pub type StemMap = AHashMap<char, Vec<Stem>>;

/// What a `StemMap` holds: for each character, its list of stems.
pub uninterp spec fn stem_map_contents(m: StemMap) -> Map<char, Seq<Stem>>;

/// `AHashMap::with_capacity`: an empty map.
#[verifier::external_body]
pub fn stem_map_new(capacity: usize) -> (r: StemMap)
    ensures
        stem_map_contents(r) =~= Map::empty(),
{
    AHashMap::with_capacity(capacity)
}

/// `AHashMap::get` (an inherent method of `AHashMap`): the stems under
/// `c`, if the map holds `c`.
#[verifier::external_body]
pub fn stem_map_get<'a>(m: &'a StemMap, c: char) -> (r: Option<&'a Vec<Stem>>)
    ensures
        r is Some <==> stem_map_contents(*m).contains_key(c),
        r matches Some(v) ==> v@ == stem_map_contents(*m)[c],
{
    m.get(&c)
}

/// `AHashMap::insert` (an inherent method of `AHashMap`): `c` now maps to
/// `v`.
#[verifier::external_body]
pub fn stem_map_insert(m: &mut StemMap, c: char, v: Vec<Stem>)
    ensures
        stem_map_contents(*final(m)) == stem_map_contents(*old(m)).insert(c, v@),
{
    m.insert(c, v);
}

/// `AHashMap::remove` (an inherent method of `AHashMap`): `c` is taken out;
/// its stems come back.
#[verifier::external_body]
pub fn stem_map_remove(m: &mut StemMap, c: char) -> (r: Option<Vec<Stem>>)
    ensures
        stem_map_contents(*final(m)) == stem_map_contents(*old(m)).remove(c),
        r is Some <==> stem_map_contents(*old(m)).contains_key(c),
        r matches Some(v) ==> v@ == stem_map_contents(*old(m))[c],
{
    m.remove(&c)
}

/// `HashMap::is_empty` (through `Deref`).
#[verifier::external_body]
pub fn stem_map_is_empty(m: &StemMap) -> (r: bool)
    ensures
        r == (stem_map_contents(*m).dom() == Set::<char>::empty()),
{
    m.is_empty()
}

/// How many times each code occurs, keyed by the code's text.
pub type CodeCounts<'a> = AHashMap<&'a str, usize>;

/// What a `CodeCounts` holds: the count under each key, the key taken as
/// its bytes (std's `str` compares and hashes by bytes).
pub uninterp spec fn code_counts_contents(m: AHashMap<&str, usize>) -> Map<Seq<u8>, usize>;

/// `AHashMap::with_capacity`: an empty map.
#[verifier::external_body]
pub fn code_counts_new<'a>(capacity: usize) -> (r: CodeCounts<'a>)
    ensures
        code_counts_contents(r) =~= Map::empty(),
{
    AHashMap::with_capacity(capacity)
}

/// `AHashMap::get`: the count under `k`, if the map holds `k`.
#[verifier::external_body]
pub fn code_counts_get<'a>(m: &CodeCounts<'a>, k: &str) -> (r: Option<usize>)
    ensures
        r is Some <==> code_counts_contents(*m).contains_key(k.spec_bytes()),
        r matches Some(v) ==> v == code_counts_contents(*m)[k.spec_bytes()],
{
    m.get(k).copied()
}

/// `AHashMap::insert`: `k` now maps to `v`.
#[verifier::external_body]
pub fn code_counts_insert<'a>(m: &mut CodeCounts<'a>, k: &'a str, v: usize)
    ensures
        code_counts_contents(*final(m)) == code_counts_contents(*old(m)).insert(k.spec_bytes(), v),
{
    m.insert(k, v);
}

/// For each character, a mask of bits.
pub type MaskMap = AHashMap<char, u32>;

/// What a `MaskMap` holds.
pub uninterp spec fn mask_map_contents(m: MaskMap) -> Map<char, u32>;

/// `AHashMap::with_capacity`: an empty map.
#[verifier::external_body]
pub fn mask_map_new(capacity: usize) -> (r: MaskMap)
    ensures
        mask_map_contents(r) =~= Map::empty(),
{
    AHashMap::with_capacity(capacity)
}

/// `AHashMap::get` (an inherent method of `AHashMap`): the mask under `c`,
/// if any.
#[verifier::external_body]
pub fn mask_map_get(m: &MaskMap, c: char) -> (r: Option<u32>)
    ensures
        r is Some <==> mask_map_contents(*m).contains_key(c),
        r matches Some(v) ==> v == mask_map_contents(*m)[c],
{
    m.get(&c).copied()
}

/// `AHashMap::insert` (an inherent method of `AHashMap`): `c` now maps to
/// `v`.
#[verifier::external_body]
pub fn mask_map_insert(m: &mut MaskMap, c: char, v: u32)
    ensures
        mask_map_contents(*final(m)) == mask_map_contents(*old(m)).insert(c, v),
{
    m.insert(c, v);
}

/// For each character, the longest shape part of its codes met so far, and
/// whether two of them have been found that do not lie on one chain.
pub type ShapeStates<'a> = AHashMap<char, (Option<&'a [u8]>, bool)>;

/// A state of a `ShapeStates` as plain values.
pub open spec fn shape_state_view(v: (Option<&[u8]>, bool)) -> (Option<Seq<u8>>, bool) {
    (
        match v.0 {
            Some(s) => Some(s@),
            None => None,
        },
        v.1,
    )
}

/// What a `ShapeStates` holds.
pub uninterp spec fn shape_states_contents(m: AHashMap<char, (Option<&[u8]>, bool)>) -> Map<
    char,
    (Option<Seq<u8>>, bool),
>;

/// `AHashMap::with_capacity`: an empty map.
#[verifier::external_body]
pub fn shape_states_new<'a>(capacity: usize) -> (r: ShapeStates<'a>)
    ensures
        shape_states_contents(r) =~= Map::empty(),
{
    AHashMap::with_capacity(capacity)
}

/// `AHashMap::get` (an inherent method of `AHashMap`): the state under `c`,
/// if any.
#[verifier::external_body]
pub fn shape_states_get<'a>(m: &ShapeStates<'a>, c: char) -> (r: Option<(Option<&'a [u8]>, bool)>)
    ensures
        r is Some <==> shape_states_contents(*m).contains_key(c),
        r matches Some(v) ==> shape_state_view(v) == shape_states_contents(*m)[c],
{
    m.get(&c).copied()
}

/// `AHashMap::insert` (an inherent method of `AHashMap`): `c` now maps to
/// `v`.
#[verifier::external_body]
pub fn shape_states_insert<'a>(m: &mut ShapeStates<'a>, c: char, v: (Option<&'a [u8]>, bool))
    ensures
        shape_states_contents(*final(m)) == shape_states_contents(*old(m)).insert(c, shape_state_view(v)),
{
    m.insert(c, v);
}

/// For each character, the codes of its entries in table order.
pub type CodeGroups<'a> = AHashMap<char, Vec<&'a str>>;

/// The bytes of each string.
pub open spec fn strs_bytes(v: Seq<&str>) -> Seq<Seq<u8>> {
    v.map_values(|s: &str| s.spec_bytes())
}

/// What a `CodeGroups` holds: for each character, the bytes of its codes.
pub uninterp spec fn code_groups_contents(m: AHashMap<char, Vec<&str>>) -> Map<char, Seq<Seq<u8>>>;

/// `AHashMap::with_capacity`: an empty map.
#[verifier::external_body]
pub fn code_groups_new<'a>(capacity: usize) -> (r: CodeGroups<'a>)
    ensures
        code_groups_contents(r) =~= Map::empty(),
{
    AHashMap::with_capacity(capacity)
}

/// `HashMap::entry(t).or_default().push(code)` (through `DerefMut`): `code`
/// is appended to the codes under `t`, which start out empty.
#[verifier::external_body]
pub fn code_groups_push<'a>(m: &mut CodeGroups<'a>, t: char, code: &'a str)
    ensures
        code_groups_contents(*final(m)) == code_groups_contents(*old(m)).insert(
            t,
            (if code_groups_contents(*old(m)).contains_key(t) {
                code_groups_contents(*old(m))[t]
            } else {
                Seq::empty()
            }).push(code.spec_bytes()),
        ),
{
    m.entry(t).or_default().push(code);
}

/// The map holds `l` under some character.
pub open spec fn listed(m: Map<char, Seq<Seq<u8>>>, l: Seq<Seq<u8>>) -> bool {
    exists|t: char| m.contains_key(t) && #[trigger] m[t] == l
}

/// `IntoIterator for AHashMap`, keeping the values: the lists of codes, one
/// for each character, in an order left open.
#[verifier::external_body]
pub fn code_groups_values<'a>(m: CodeGroups<'a>) -> (r: Vec<Vec<&'a str>>)
    ensures
        forall|i: int| 0 <= i < r@.len() ==> listed(code_groups_contents(m), strs_bytes(#[trigger] r@[i]@)),
        forall|t: char|
            #[trigger] code_groups_contents(m).contains_key(t) ==> exists|i: int|
                0 <= i < r@.len() && strs_bytes(#[trigger] r@[i]@) == code_groups_contents(m)[t],
{
    m.into_iter().map(|(_, v)| v).collect()
}

/// A set of code numbers.
pub type KeySet = AHashSet<u32>;

/// What a `KeySet` holds.
pub uninterp spec fn key_set_contents(s: KeySet) -> Set<u32>;

/// `AHashSet::with_capacity`: an empty set.
#[verifier::external_body]
pub fn key_set_new(capacity: usize) -> (r: KeySet)
    ensures
        key_set_contents(r) =~= Set::empty(),
{
    AHashSet::with_capacity(capacity)
}

/// `HashSet::insert` (through `DerefMut`): `k` is now in the set; the
/// result tells whether it was not before.
#[verifier::external_body]
pub fn key_set_insert(s: &mut KeySet, k: u32) -> (r: bool)
    ensures
        key_set_contents(*final(s)) == key_set_contents(*old(s)).insert(k),
        r == !key_set_contents(*old(s)).contains(k),
{
    s.insert(k)
}

/// `HashSet::contains` (through `Deref`).
#[verifier::external_body]
pub fn key_set_contains(s: &KeySet, k: u32) -> (r: bool)
    ensures
        r == key_set_contents(*s).contains(k),
{
    s.contains(&k)
}

/// A set of packed pairs of a character and a code number.
pub type PairSet = AHashSet<u64>;

/// What a `PairSet` holds.
pub uninterp spec fn pair_set_contents(s: PairSet) -> Set<u64>;

/// `AHashSet::with_capacity`: an empty set.
#[verifier::external_body]
pub fn pair_set_new(capacity: usize) -> (r: PairSet)
    ensures
        pair_set_contents(r) =~= Set::empty(),
{
    AHashSet::with_capacity(capacity)
}

/// `HashSet::insert` (through `DerefMut`): `p` is now in the set.
#[verifier::external_body]
pub fn pair_set_insert(s: &mut PairSet, p: u64)
    ensures
        pair_set_contents(*final(s)) == pair_set_contents(*old(s)).insert(p),
{
    s.insert(p);
}

/// `HashSet::contains` (through `Deref`).
#[verifier::external_body]
pub fn pair_set_contains(s: &PairSet, p: u64) -> (r: bool)
    ensures
        r == pair_set_contents(*s).contains(p),
{
    s.contains(&p)
}

} // verus!
