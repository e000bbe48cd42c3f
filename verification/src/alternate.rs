//! Alternate sound codes of phrases (飞键替代). Where a pair of sound
//! elements can be typed in two ways (see `alternate`), a phrase whose
//! sound code uses one way should be present with the other ways too. A
//! text is definitely incomplete when a sure alternative is missing, and
//! uncertain when the single characters' stems leave it open.

use crate::checks::p_on_s_fj_incomplete::{full_alt_target, full_alt_target_spec, seg_first_alt_spec};
use crate::hashing::{stem_map_contents, stem_map_get, StemMap};
use crate::entry::Phrase;
use crate::groups::lemma_positions_perm;
use crate::keytao::{is_ym, spec_is_ym, Stem};
use crate::order::{bytes_le, code_of, lemma_bytes_le_antisym, sort_positions_by_text, sorted_by, text_le};
use crate::text::str_eq;
use vstd::utf8::encode_utf8;
use vstd::arithmetic::power2::pow2;
use vstd::prelude::*;
use vstd::string::StrSliceExecFns;

verus! {

broadcast use vstd::seq_lib::group_seq_properties;

/// What is found for the phrases of one text.
#[derive(Clone, Copy, PartialEq, Eq, Structural)]
pub enum Status {
    /// Nothing missing.
    Clean,
    /// An alternative is surely missing.
    Definite,
    /// Something may be missing, or the text cannot be judged.
    Uncertain,
}

/// The sound code of a phrase, padded with zeros to four bytes.
pub type Chain = [u8; 4];

/// A pair of sound elements.
pub type Ym = [u8; 2];

/// An alternative: at position `.0`, the `.1` (one or two) bytes of `.2`.
pub type Alt = (usize, usize, Ym);

/// The characters of a phrase whose stems decide its sound code.
pub struct Ctx {
    /// The length of the sound code: 3 for three characters, else 4.
    pub ym_len: usize,
    /// How many characters take part: 2, 3 or 4.
    pub cnt: usize,
    /// The characters, by their place in the sound code.
    pub cs: [char; 4],
}

/// What `Ctx::new` makes of a text: for two characters `ab`, sound length
/// 4 from `a b`; for three `abc`, length 3 from `a b c`; for four or more,
/// length 4 from the first three and the last. Shorter texts have none.
pub open spec fn ctx_spec(t: Seq<char>) -> Option<(usize, usize, Seq<char>)> {
    if t.len() < 2 {
        None
    } else if t.len() == 2 {
        Some((4usize, 2usize, seq![t[0], t[1], t[0], t[0]]))
    } else if t.len() == 3 {
        Some((3usize, 3usize, seq![t[0], t[1], t[2], t[0]]))
    } else {
        Some((4usize, 4usize, seq![t[0], t[1], t[2], t.last()]))
    }
}

impl Ctx {
    /// The context of a phrase's text, when it has at least two characters.
    pub fn new(text: &str) -> (r: Option<Ctx>)
        ensures
            match ctx_spec(text@) {
                None => r is None,
                Some((yl, cnt, cs)) => r matches Some(c) && c.ym_len == yl && c.cnt == cnt && c.cs@ == cs,
            },
    {
        let n = text.unicode_len();
        if n < 2 {
            return None;
        }
        let c0 = text.get_char(0);
        let c1 = text.get_char(1);
        if n == 2 {
            let r = Ctx { ym_len: 4, cnt: 2, cs: [c0, c1, c0, c0] };
            assert(r.cs@ =~= seq![c0, c1, c0, c0]);
            return Some(r);
        }
        let c2 = text.get_char(2);
        if n == 3 {
            let r = Ctx { ym_len: 3, cnt: 3, cs: [c0, c1, c2, c0] };
            assert(r.cs@ =~= seq![c0, c1, c2, c0]);
            return Some(r);
        }
        let last = text.get_char(n - 1);
        let r = Ctx { ym_len: 4, cnt: 4, cs: [c0, c1, c2, last] };
        assert(r.cs@ =~= seq![c0, c1, c2, last]);
        Some(r)
    }
}

/// The other way of typing a pair of sound elements, if it has one.
pub fn alternate(ym: Ym) -> (r: Option<Ym>)
    ensures
        match full_alt_target_spec(ym[0], ym[1]) {
            Some((a, b)) => r matches Some(t) && t[0] == a && t[1] == b,
            None => r is None,
        },
{
    match full_alt_target(ym[0], ym[1]) {
        Some((a, b)) => Some([a, b]),
        None => None,
    }
}

/// An alternative as plain values: position, length, bytes.
pub type AltView = (int, int, Seq<u8>);

/// An alternative as plain values.
pub open spec fn alt_view(a: Alt) -> AltView {
    (a.0 as int, a.1 as int, a.2@)
}

/// Alternatives as plain values.
pub open spec fn alts_view(alts: Seq<Alt>) -> Seq<AltView> {
    alts.map_values(|a: Alt| alt_view(a))
}

/// Bit `i` of `mask` is set.
pub open spec fn mask_bit(mask: usize, i: int) -> bool {
    (mask >> (i as usize)) & 1usize == 1usize
}

/// `chain` with the `len` bytes of `ym` written at `pos`.
pub open spec fn overwrite(chain: Seq<u8>, pos: int, len: int, ym: Seq<u8>) -> Seq<u8> {
    Seq::new(chain.len(), |j: int| if pos <= j < pos + len { ym[j - pos] } else { chain[j] })
}

/// `chain` with the first `k` alternatives that `mask` selects applied.
pub open spec fn apply_spec(chain: Seq<u8>, alts: Seq<AltView>, mask: usize, k: int) -> Seq<u8>
    decreases k,
{
    if k <= 0 {
        chain
    } else {
        let c = apply_spec(chain, alts, mask, k - 1);
        let a = alts[k - 1];
        if mask_bit(mask, k - 1) {
            overwrite(c, a.0, a.1, a.2)
        } else {
            c
        }
    }
}

/// Alternatives that stay within a chain: each of at most two bytes (of
/// the two an alternative holds), written inside the four.
pub open spec fn alts_fit(alts: Seq<AltView>) -> bool {
    forall|i: int|
        0 <= i < alts.len() ==> 0 <= (#[trigger] alts[i]).0 && 0 <= alts[i].1 <= 2 && alts[i].0 + alts[i].1 <= 4
            && alts[i].2.len() == 2
}

/// Applies the alternatives that `mask` selects (bit `i` for alternative
/// `i`) to the chain.
pub fn apply_alts(chain: &mut Chain, alts: &[Alt], mask: usize)
    requires
        alts_fit(alts_view(alts@)),
        alts@.len() <= usize::BITS,
    ensures
        final(chain)@ == apply_spec(old(chain)@, alts_view(alts@), mask, alts@.len() as int),
{
    let ghost start = chain@;
    let mut i: usize = 0;
    while i < alts.len()
        invariant
            alts_fit(alts_view(alts@)),
            alts@.len() <= usize::BITS,
            i <= alts@.len(),
            chain@ == apply_spec(start, alts_view(alts@), mask, i as int),
            chain@.len() == 4,
        decreases alts.len() - i,
    {
        let (pos, len, ym) = alts[i];
        assert(alts@[i as int] == (pos, len, ym));
        assert(alts_view(alts@)[i as int] == alt_view((pos, len, ym)));
        if (mask >> i) & 1 != 0 {
            let ghost before = chain@;
            let mut k: usize = 0;
            while k < len
                invariant
                    len <= 2,
                    pos + len <= 4,
                    k <= len,
                    chain@.len() == 4,
                    forall|j: int| 0 <= j < 4 ==> #[trigger] chain@[j] == if pos <= j < pos + k {
                        ym@[j - pos]
                    } else {
                        before[j]
                    },
                decreases len - k,
            {
                chain[pos + k] = ym[k];
                k += 1;
            }
            proof {
                assert(mask_bit(mask, i as int)) by {
                    assert((mask >> i) & 1 != 0 ==> (mask >> i) & 1 == 1) by (bit_vector);
                }
                assert(chain@ =~= overwrite(before, pos as int, len as int, ym@));
            }
        } else {
            proof {
                assert(!mask_bit(mask, i as int));
            }
        }
        i += 1;
    }
}

/// Some chain that a non-empty selection of the alternatives gives is not
/// present.
pub open spec fn definite_missing_spec(chain: Seq<u8>, alts: Seq<AltView>, present: Set<Seq<u8>>) -> bool {
    exists|mask: usize|
        1 <= mask < pow2(alts.len()) && !present.contains(#[trigger] apply_spec(chain, alts, mask, alts.len() as int))
}

/// Some chain that a selection of the definite alternatives and a
/// non-empty selection of the uncertain ones give is not present.
pub open spec fn uncertain_missing_spec(
    chain: Seq<u8>,
    definite_alts: Seq<AltView>,
    uncertain_alts: Seq<AltView>,
    present: Set<Seq<u8>>,
) -> bool {
    exists|dm: usize, um: usize|
        dm < pow2(definite_alts.len()) && 1 <= um < pow2(uncertain_alts.len()) && !present.contains(
            #[trigger] apply_spec(
                apply_spec(chain, definite_alts, dm, definite_alts.len() as int),
                uncertain_alts,
                um,
                uncertain_alts.len() as int,
            ),
        )
}

/// `1 << n`: the number of selections of `n` alternatives.
fn pow2_exec(n: usize) -> (r: usize)
    requires
        n < usize::BITS,
    ensures
        r == pow2(n as nat),
        r >= 1,
{
    proof {
        vstd::arithmetic::power2::lemma_pow2_pos(n as nat);
        vstd::bits::lemma_usize_pow2_no_overflow(n as nat);
        vstd::bits::lemma_usize_shl_is_mul(1, n);
    }
    1usize << n
}

/// The chain is among `present`.
pub open spec fn chain_in(present: Seq<Chain>, c: Seq<u8>) -> bool {
    exists|k: int| 0 <= k < present.len() && (#[trigger] present[k])@ == c
}

/// The chains among `present`, as a set.
pub open spec fn chain_set(present: Seq<Chain>) -> Set<Seq<u8>> {
    Set::new(|c: Seq<u8>| chain_in(present, c))
}

fn contains_chain(present: &[Chain], c: &Chain) -> (r: bool)
    ensures
        r == chain_in(present@, c@),
{
    let mut k: usize = 0;
    while k < present.len()
        invariant
            k <= present@.len(),
            forall|kk: int| 0 <= kk < k ==> (#[trigger] present@[kk])@ != c@,
        decreases present.len() - k,
    {
        let p = present[k];
        if p[0] == c[0] && p[1] == c[1] && p[2] == c[2] && p[3] == c[3] {
            assert(p@ =~= c@);
            return true;
        }
        assert(p@ != c@) by {
            if p@ == c@ {
                assert(p@[0] == c@[0] && p@[1] == c@[1] && p@[2] == c@[2] && p@[3] == c@[3]);
            }
        }
        k += 1;
    }
    false
}

/// Whether some non-empty selection of the alternatives gives a chain that
/// is not present.
pub fn definite_missing(chain: Chain, alts: &[Alt], present: &[Chain]) -> (r: bool)
    requires
        alts_fit(alts_view(alts@)),
        alts@.len() < usize::BITS,
    ensures
        r == definite_missing_spec(chain@, alts_view(alts@), chain_set(present@)),
{
    let top = pow2_exec(alts.len());
    let mut mask: usize = 1;
    while mask < top
        invariant
            alts_fit(alts_view(alts@)),
            alts@.len() < usize::BITS,
            top == pow2(alts@.len()),
            1 <= mask <= top,
            forall|m: usize|
                1 <= m < mask ==> chain_in(present@, #[trigger] apply_spec(chain@, alts_view(alts@), m, alts@.len() as int)),
        decreases top - mask,
    {
        let mut candidate = chain;
        apply_alts(&mut candidate, alts, mask);
        if !contains_chain(present, &candidate) {
            assert(!chain_set(present@).contains(candidate@));
            assert(alts_view(alts@).len() == alts@.len());
            assert(1 <= mask < pow2(alts_view(alts@).len()));
            assert(!chain_set(present@).contains(
                apply_spec(chain@, alts_view(alts@), mask, alts_view(alts@).len() as int),
            ));
            return true;
        }
        mask += 1;
    }
    proof {
        assert forall|m: usize| 1 <= m < pow2(alts_view(alts@).len()) implies chain_set(present@).contains(
            #[trigger] apply_spec(chain@, alts_view(alts@), m, alts_view(alts@).len() as int),
        ) by {
            assert(chain_in(present@, apply_spec(chain@, alts_view(alts@), m, alts@.len() as int)));
        }
    }
    false
}

/// Whether some selection of the definite alternatives together with some
/// non-empty selection of the uncertain ones gives a chain that is not
/// present.
pub fn uncertain_missing(chain: Chain, definite_alts: &[Alt], uncertain_alts: &[Alt], present: &[Chain]) -> (r: bool)
    requires
        alts_fit(alts_view(definite_alts@)),
        alts_fit(alts_view(uncertain_alts@)),
        definite_alts@.len() < usize::BITS,
        uncertain_alts@.len() < usize::BITS,
    ensures
        r == uncertain_missing_spec(chain@, alts_view(definite_alts@), alts_view(uncertain_alts@), chain_set(present@)),
{
    let ghost da = alts_view(definite_alts@);
    let ghost ua = alts_view(uncertain_alts@);
    let dtop = pow2_exec(definite_alts.len());
    let utop = pow2_exec(uncertain_alts.len());
    let mut dm: usize = 0;
    while dm < dtop
        invariant
            alts_fit(da),
            alts_fit(ua),
            definite_alts@.len() < usize::BITS,
            uncertain_alts@.len() < usize::BITS,
            da == alts_view(definite_alts@),
            ua == alts_view(uncertain_alts@),
            dtop == pow2(da.len()),
            utop == pow2(ua.len()),
            utop >= 1,
            dm <= dtop,
            forall|d: usize, u: usize|
                d < dm && 1 <= u < utop ==> chain_in(
                    present@,
                    #[trigger] apply_spec(apply_spec(chain@, da, d, da.len() as int), ua, u, ua.len() as int),
                ),
        decreases dtop - dm,
    {
        let mut um: usize = 1;
        while um < utop
            invariant
                alts_fit(da),
                alts_fit(ua),
                definite_alts@.len() < usize::BITS,
                uncertain_alts@.len() < usize::BITS,
                da == alts_view(definite_alts@),
                ua == alts_view(uncertain_alts@),
                dtop == pow2(da.len()),
                utop == pow2(ua.len()),
                dm < dtop,
                1 <= um <= utop,
                forall|d: usize, u: usize|
                    d < dm && 1 <= u < utop ==> chain_in(
                        present@,
                        #[trigger] apply_spec(apply_spec(chain@, da, d, da.len() as int), ua, u, ua.len() as int),
                    ),
                forall|u: usize|
                    1 <= u < um ==> chain_in(
                        present@,
                        #[trigger] apply_spec(apply_spec(chain@, da, dm, da.len() as int), ua, u, ua.len() as int),
                    ),
            decreases utop - um,
        {
            let mut candidate = chain;
            apply_alts(&mut candidate, definite_alts, dm);
            apply_alts(&mut candidate, uncertain_alts, um);
            if !contains_chain(present, &candidate) {
                assert(!chain_set(present@).contains(candidate@));
                return true;
            }
            um += 1;
        }
        dm += 1;
    }
    proof {
        assert forall|d: usize, u: usize|
            d < pow2(da.len()) && 1 <= u < pow2(ua.len()) implies chain_set(present@).contains(
            #[trigger] apply_spec(apply_spec(chain@, da, d, da.len() as int), ua, u, ua.len() as int),
        ) by {
            assert(chain_in(present@, apply_spec(apply_spec(chain@, da, d, da.len() as int), ua, u, ua.len() as int)));
        }
    }
    false
}

/// Whether some stem of the character begins with `a b`.
pub open spec fn pair_known(m: Map<char, Seq<Stem>>, c: char, a: u8, b: u8) -> bool {
    m.contains_key(c) && exists|j: int| 0 <= j < m[c].len() && (#[trigger] m[c][j])[0] == a && m[c][j][1] == b
}

/// The alternative for the pair at `p` of a two-character phrase's chain,
/// when the character's stems know the pair and it has another way.
pub open spec fn pair_alt_at(m: Map<char, Seq<Stem>>, c: char, chain: Seq<u8>, p: int) -> Seq<AltView> {
    if pair_known(m, c, chain[p], chain[p + 1]) {
        match full_alt_target_spec(chain[p], chain[p + 1]) {
            Some((a, b)) => seq![(p, 2int, seq![a, b])],
            None => Seq::empty(),
        }
    } else {
        Seq::empty()
    }
}

/// What a chain of a two-character phrase gives: definite when a selection
/// of the alternatives of its two pairs is missing, uncertain when a pair
/// is unknown to its character's stems.
pub open spec fn two_status_spec(chain: Seq<u8>, cs: Seq<char>, m: Map<char, Seq<Stem>>, present: Set<Seq<u8>>) -> Status {
    let alts = pair_alt_at(m, cs[0], chain, 0) + pair_alt_at(m, cs[1], chain, 2);
    if !m.contains_key(cs[0]) || !m.contains_key(cs[1]) {
        Status::Uncertain
    } else if definite_missing_spec(chain, alts, present) {
        Status::Definite
    } else if !pair_known(m, cs[0], chain[0], chain[1]) || !pair_known(m, cs[1], chain[2], chain[3]) {
        Status::Uncertain
    } else {
        Status::Clean
    }
}

/// What the stems of a character say of the first element `x` of its
/// place in a chain.
pub enum Slot {
    /// No stem begins with `x`.
    Unmatched,
    /// No stem that begins with `x` has another first element.
    Plain,
    /// Every stem that begins with `x` has the same other first element.
    Sure(u8),
    /// Some stems that begin with `x` have the same other first element,
    /// others none.
    Unsure(u8),
    /// Stems that begin with `x` have different other first elements.
    Mixed,
}

/// The stem begins with `x`.
pub open spec fn begins(x: u8) -> spec_fn(Stem) -> bool {
    |s: Stem| s[0] == x
}

/// The stem begins with `x` and has another first element.
pub open spec fn shifts(x: u8) -> spec_fn(Stem) -> bool {
    |s: Stem| s[0] == x && seg_first_alt_spec(s[0], s[1]) is Some
}

/// The stems that begin with `x`.
pub open spec fn matching(ss: Seq<Stem>, x: u8) -> Seq<Stem> {
    ss.filter(begins(x))
}

/// The stems that begin with `x` and have another first element.
pub open spec fn shifting(ss: Seq<Stem>, x: u8) -> Seq<Stem> {
    ss.filter(shifts(x))
}

/// What the stems `ss` say of the first element `x`.
pub open spec fn slot_spec(ss: Seq<Stem>, x: u8) -> Slot {
    let ms = matching(ss, x);
    let sh = shifting(ss, x);
    if ms.len() == 0 {
        Slot::Unmatched
    } else if sh.len() == 0 {
        Slot::Plain
    } else if forall|j: int|
        0 <= j < sh.len() ==> seg_first_alt_spec((#[trigger] sh[j])[0], sh[j][1]) == seg_first_alt_spec(
            sh[0][0],
            sh[0][1],
        ) {
        let v = seg_first_alt_spec(sh[0][0], sh[0][1])->Some_0;
        if sh.len() == ms.len() {
            Slot::Sure(v)
        } else {
            Slot::Unsure(v)
        }
    } else {
        Slot::Mixed
    }
}

/// What the stems say of the first element `x`.
fn slot_status(stems: &Vec<Stem>, x: u8) -> (r: Slot)
    ensures
        r == slot_spec(stems@, x),
{
    let ghost pm = begins(x);
    let ghost pa = shifts(x);
    let mut matched: usize = 0;
    let mut alt_cnt: usize = 0;
    let mut target: Option<u8> = None;
    let mut same = true;
    let mut i: usize = 0;
    while i < stems.len()
        invariant
            i <= stems@.len(),
            pm == begins(x),
            pa == shifts(x),
            matched == stems@.take(i as int).filter(pm).len(),
            alt_cnt == stems@.take(i as int).filter(pa).len(),
            alt_cnt <= i,
            matched <= i,
            target is None <==> alt_cnt == 0,
            target matches Some(v) ==> Some(v) == seg_first_alt_spec(
                stems@.take(i as int).filter(pa)[0][0],
                stems@.take(i as int).filter(pa)[0][1],
            ),
            same <==> forall|j: int|
                0 <= j < alt_cnt ==> seg_first_alt_spec(
                    (#[trigger] stems@.take(i as int).filter(pa)[j])[0],
                    stems@.take(i as int).filter(pa)[j][1],
                ) == target,
        decreases stems.len() - i,
    {
        let st = stems[i];
        let ghost pre = stems@.take(i as int);
        proof {
            assert(stems@.take(i + 1) =~= pre.push(st));
            pre.lemma_filter_push(st, pm);
            pre.lemma_filter_push(st, pa);
        }
        if st[0] == x {
            matched += 1;
            match full_alt_target(st[0], st[1]) {
                Some((t0, _)) => {
                    if t0 != x {
                        alt_cnt += 1;
                        match target {
                            None => {
                                target = Some(t0);
                            },
                            Some(v) => {
                                if v != t0 {
                                    same = false;
                                }
                            },
                        }
                    }
                },
                None => {},
            }
        }
        proof {
            let now = stems@.take(i + 1).filter(pa);
            if pa(st) {
                assert(now =~= pre.filter(pa).push(st));
                if alt_cnt > 1 {
                    assert(now[0] == pre.filter(pa)[0]);
                }
            } else {
                assert(now =~= pre.filter(pa));
            }
        }
        i += 1;
    }
    assert(stems@.take(stems@.len() as int) =~= stems@);
    if matched == 0 {
        return Slot::Unmatched;
    }
    if alt_cnt == 0 {
        return Slot::Plain;
    }
    let v = match target {
        Some(v) => v,
        None => {
            return Slot::Mixed;
        },
    };
    if same {
        if alt_cnt == matched {
            Slot::Sure(v)
        } else {
            Slot::Unsure(v)
        }
    } else {
        proof {
            let sh = stems@.filter(pa);
            let j = choose|j: int|
                0 <= j < alt_cnt && seg_first_alt_spec((#[trigger] sh[j])[0], sh[j][1]) != target;
        }
        Slot::Mixed
    }
}

/// The alternatives and the doubt that the first `k` places of a chain of a
/// phrase of three or more characters give.
pub open spec fn multi_parts(chain: Seq<u8>, cs: Seq<char>, m: Map<char, Seq<Stem>>, k: int) -> (
    Seq<AltView>,
    Seq<AltView>,
    bool,
)
    decreases k,
{
    if k <= 0 {
        (Seq::empty(), Seq::empty(), false)
    } else {
        let (d, u, f) = multi_parts(chain, cs, m, k - 1);
        let i = k - 1;
        match slot_spec(m[cs[i]], chain[i]) {
            Slot::Unmatched => (d, u, true),
            Slot::Plain => (d, u, f),
            Slot::Sure(v) => (d.push((i, 1int, seq![v, 0u8])), u, f),
            Slot::Unsure(v) => (d, u.push((i, 1int, seq![v, 0u8])), f),
            Slot::Mixed => (d, u, true),
        }
    }
}

/// What a chain of a phrase of three or more characters gives: definite
/// when a selection of its sure alternatives is missing; uncertain when a
/// place is unknown or mixed, or a selection with unsure alternatives is
/// missing.
pub open spec fn multi_status_spec(
    chain: Seq<u8>,
    cs: Seq<char>,
    cnt: int,
    m: Map<char, Seq<Stem>>,
    present: Set<Seq<u8>>,
) -> Status {
    let (d, u, f) = multi_parts(chain, cs, m, cnt);
    if exists|i: int| 0 <= i < cnt && !m.contains_key(#[trigger] cs[i]) {
        Status::Uncertain
    } else if definite_missing_spec(chain, d, present) {
        Status::Definite
    } else if f || (u.len() > 0 && uncertain_missing_spec(chain, d, u, present)) {
        Status::Uncertain
    } else {
        Status::Clean
    }
}

fn two_char_status(chain: Chain, ctx: &Ctx, singles: &StemMap, present: &[Chain]) -> (r: Status)
    requires
        ctx.cnt == 2,
    ensures
        r == two_status_spec(chain@, ctx.cs@, stem_map_contents(*singles), chain_set(present@)),
{
    let ghost m = stem_map_contents(*singles);
    let mut alts: Vec<Alt> = Vec::new();
    let mut uncertain = false;
    let mut i: usize = 0;
    while i < 2
        invariant
            i <= 2,
            m == stem_map_contents(*singles),
            ctx.cnt == 2,
            m.contains_key(ctx.cs@[0]) || i == 0,
            i == 2 ==> m.contains_key(ctx.cs@[1]),
            alts_view(alts@) == if i == 0 {
                Seq::<AltView>::empty()
            } else if i == 1 {
                pair_alt_at(m, ctx.cs@[0], chain@, 0)
            } else {
                pair_alt_at(m, ctx.cs@[0], chain@, 0) + pair_alt_at(m, ctx.cs@[1], chain@, 2)
            },
            uncertain == ((i >= 1 && !pair_known(m, ctx.cs@[0], chain@[0], chain@[1])) || (i >= 2
                && !pair_known(m, ctx.cs@[1], chain@[2], chain@[3]))),
        decreases 2 - i,
    {
        let a = chain[2 * i];
        let b = chain[2 * i + 1];
        let stems = match stem_map_get(singles, ctx.cs[i]) {
            Some(v) => v,
            None => {
                return Status::Uncertain;
            },
        };
        let mut known = false;
        let mut j: usize = 0;
        while j < stems.len()
            invariant
                j <= stems@.len(),
                known == exists|k: int| 0 <= k < j && (#[trigger] stems@[k])[0] == a && stems@[k][1] == b,
            decreases stems.len() - j,
        {
            if stems[j][0] == a && stems[j][1] == b {
                known = true;
            }
            j += 1;
        }
        let ghost old_alts = alts_view(alts@);
        if !known {
            uncertain = true;
        } else {
            match alternate([a, b]) {
                Some(t) => {
                    let alt: Alt = (2 * i, 2, t);
                    alts.push(alt);
                    proof {
                        assert(alts_view(alts@) =~= old_alts.push(alt_view(alt)));
                        assert(t@ =~= seq![t[0], t[1]]);
                    }
                },
                None => {},
            }
        }
        proof {
            let p = 2 * i as int;
            assert(chain@[p] == a && chain@[p + 1] == b);
            if i == 0 {
                assert(alts_view(alts@) =~= pair_alt_at(m, ctx.cs@[0], chain@, 0));
            } else {
                assert(alts_view(alts@) =~= pair_alt_at(m, ctx.cs@[0], chain@, 0) + pair_alt_at(m, ctx.cs@[1], chain@, 2));
            }
        }
        i += 1;
    }
    proof {
        assert(alts_fit(alts_view(alts@)));
    }
    if definite_missing(chain, alts.as_slice(), present) {
        Status::Definite
    } else if uncertain {
        Status::Uncertain
    } else {
        Status::Clean
    }
}


fn multi_char_status(chain: Chain, ctx: &Ctx, singles: &StemMap, present: &[Chain]) -> (r: Status)
    requires
        3 <= ctx.cnt <= 4,
    ensures
        r == multi_status_spec(chain@, ctx.cs@, ctx.cnt as int, stem_map_contents(*singles), chain_set(present@)),
{
    let ghost m = stem_map_contents(*singles);
    let mut dalts: Vec<Alt> = Vec::new();
    let mut ualts: Vec<Alt> = Vec::new();
    let mut uncertain = false;
    let mut i: usize = 0;
    while i < ctx.cnt
        invariant
            3 <= ctx.cnt <= 4,
            i <= ctx.cnt,
            m == stem_map_contents(*singles),
            forall|k: int| 0 <= k < i ==> m.contains_key(#[trigger] ctx.cs@[k]),
            multi_parts(chain@, ctx.cs@, m, i as int) == (alts_view(dalts@), alts_view(ualts@), uncertain),
            alts_fit(alts_view(dalts@)),
            alts_fit(alts_view(ualts@)),
            dalts@.len() <= i,
            ualts@.len() <= i,
            forall|k: int| 0 <= k < dalts@.len() ==> (#[trigger] dalts@[k]).0 < i,
            forall|k: int| 0 <= k < ualts@.len() ==> (#[trigger] ualts@[k]).0 < i,
        decreases ctx.cnt - i,
    {
        let stems = match stem_map_get(singles, ctx.cs[i]) {
            Some(v) => v,
            None => {
                return Status::Uncertain;
            },
        };
        let ghost od = alts_view(dalts@);
        let ghost ou = alts_view(ualts@);
        match slot_status(stems, chain[i]) {
            Slot::Unmatched => {
                uncertain = true;
            },
            Slot::Plain => {},
            Slot::Sure(v) => {
                let alt: Alt = (i, 1, [v, 0]);
                dalts.push(alt);
                proof {
                    assert(alt.2@ =~= seq![v, 0u8]);
                    assert(alts_view(dalts@) =~= od.push(alt_view(alt)));
                }
            },
            Slot::Unsure(v) => {
                let alt: Alt = (i, 1, [v, 0]);
                ualts.push(alt);
                proof {
                    assert(alt.2@ =~= seq![v, 0u8]);
                    assert(alts_view(ualts@) =~= ou.push(alt_view(alt)));
                }
            },
            Slot::Mixed => {
                uncertain = true;
            },
        }
        i += 1;
    }
    if definite_missing(chain, dalts.as_slice(), present) {
        return Status::Definite;
    }
    if uncertain || (ualts.len() > 0 && uncertain_missing(chain, dalts.as_slice(), ualts.as_slice(), present)) {
        return Status::Uncertain;
    }
    Status::Clean
}

/// The length of the sound part (音码) of a code: its leading run of sound
/// elements.
pub open spec fn ym_len(c: Seq<u8>) -> nat
    decreases c.len(),
{
    if c.len() == 0 || !spec_is_ym(c[0]) {
        0
    } else {
        1 + ym_len(c.drop_first())
    }
}

proof fn lemma_ym_len(c: Seq<u8>, k: int)
    requires
        0 <= k <= c.len(),
        forall|j: int| 0 <= j < k ==> spec_is_ym(#[trigger] c[j]),
        k == c.len() || !spec_is_ym(c[k]),
    ensures
        ym_len(c) == k,
    decreases k,
{
    if k > 0 {
        lemma_ym_len(c.drop_first(), k - 1);
    }
}

fn ym_len_exec(c: &[u8]) -> (r: usize)
    ensures
        r == ym_len(c@),
{
    let mut i: usize = 0;
    while i < c.len() && is_ym(c[i])
        invariant
            i <= c@.len(),
            forall|j: int| 0 <= j < i ==> spec_is_ym(#[trigger] c@[j]),
        decreases c.len() - i,
    {
        i += 1;
    }
    proof {
        lemma_ym_len(c@, i as int);
    }
    i
}

/// The chain of a code whose sound part has `yl` (3 or 4) bytes.
pub open spec fn chain_of(c: Seq<u8>, yl: nat) -> Seq<u8> {
    if yl == 4 {
        c.take(4)
    } else {
        c.take(3).push(0u8)
    }
}

/// The chains of the phrases of text `t` whose sound part has `yl` bytes.
pub open spec fn present_set(ps: Seq<Phrase>, t: Seq<char>, yl: nat) -> Set<Seq<u8>> {
    Set::new(
        |c: Seq<u8>|
            exists|i: int|
                0 <= i < ps.len() && (#[trigger] ps[i]).text@ == t && ym_len(code_of(ps[i])) == yl && chain_of(
                    code_of(ps[i]),
                    yl,
                ) == c,
    )
}

/// What a chain gives, by the number of characters.
pub open spec fn chain_status_spec(
    c: Seq<u8>,
    cs: Seq<char>,
    cnt: int,
    m: Map<char, Seq<Stem>>,
    present: Set<Seq<u8>>,
) -> Status {
    if cnt == 2 {
        two_status_spec(c, cs, m, present)
    } else {
        multi_status_spec(c, cs, cnt, m, present)
    }
}

/// What is found for the phrases of text `t`: uncertain when the text is
/// too short or a character has no stems; definite when some chain of the
/// text is; else uncertain when some phrase's sound part has the wrong
/// length or some chain is uncertain; else clean.
pub open spec fn group_status_spec(ps: Seq<Phrase>, t: Seq<char>, m: Map<char, Seq<Stem>>) -> Status {
    match ctx_spec(t) {
        None => Status::Uncertain,
        Some((yl, cnt, cs)) => {
            let present = present_set(ps, t, yl as nat);
            if exists|i: int| 0 <= i < cnt && !m.contains_key(#[trigger] cs[i]) {
                Status::Uncertain
            } else if exists|c: Seq<u8>|
                present.contains(c) && #[trigger] chain_status_spec(c, cs, cnt as int, m, present)
                    == Status::Definite {
                Status::Definite
            } else if (exists|i: int|
                0 <= i < ps.len() && (#[trigger] ps[i]).text@ == t && ym_len(code_of(ps[i])) != yl) || (exists|
                c: Seq<u8>,
            |
                present.contains(c) && #[trigger] chain_status_spec(c, cs, cnt as int, m, present)
                    == Status::Uncertain) {
                Status::Uncertain
            } else {
                Status::Clean
            }
        },
    }
}

/// The positions `lo..hi` of `idx` are exactly the phrases of text `t`.
pub open spec fn exact_group(ps: Seq<Phrase>, idx: Seq<usize>, lo: int, hi: int, t: Seq<char>) -> bool {
    &&& 0 <= lo <= hi <= idx.len()
    &&& forall|k: int| lo <= k < hi ==> (#[trigger] idx[k]) < ps.len()
    &&& forall|p: int|
        0 <= p < ps.len() ==> ((#[trigger] ps[p]).text@ == t <==> exists|k: int| lo <= k < hi && idx[k] == p)
}

fn group_status(
    text: &str,
    idx: &Vec<usize>,
    lo: usize,
    hi: usize,
    phrases: &[Phrase],
    singles: &StemMap,
    chains: &mut Vec<Chain>,
) -> (r: Status)
    requires
        exact_group(phrases@, idx@, lo as int, hi as int, text@),
    ensures
        r == group_status_spec(phrases@, text@, stem_map_contents(*singles)),
{
    let ghost ps = phrases@;
    let ghost m = stem_map_contents(*singles);
    let ghost t = text@;
    let ctx = match Ctx::new(text) {
        Some(c) => c,
        None => {
            return Status::Uncertain;
        },
    };
    let ghost yl = ctx.ym_len as nat;
    let mut k: usize = 0;
    while k < ctx.cnt
        invariant
            k <= ctx.cnt <= 4,
            m == stem_map_contents(*singles),
            t == text@,
            ctx_spec(t) == Some((ctx.ym_len, ctx.cnt, ctx.cs@)),
            forall|kk: int| 0 <= kk < k ==> m.contains_key(#[trigger] ctx.cs@[kk]),
        decreases ctx.cnt - k,
    {
        if stem_map_get(singles, ctx.cs[k]).is_none() {
            assert(!m.contains_key(ctx.cs@[k as int]));
            return Status::Uncertain;
        }
        k += 1;
    }
    chains.clear();
    let mut uncertain = false;
    let mut k = lo;
    while k < hi
        invariant
            exact_group(ps, idx@, lo as int, hi as int, t),
            ps == phrases@,
            lo <= k <= hi,
            yl == ctx.ym_len,
            t == text@,
            m == stem_map_contents(*singles),
            ctx_spec(t) == Some((ctx.ym_len, ctx.cnt, ctx.cs@)),
            forall|kk: int| 0 <= kk < ctx.cnt ==> m.contains_key(#[trigger] ctx.cs@[kk]),
            ctx.ym_len == 3 || ctx.ym_len == 4,
            forall|c: Seq<u8>|
                #[trigger] chain_in(chains@, c) <==> exists|kk: int|
                    lo <= kk < k && ym_len(code_of(ps[idx@[kk] as int])) == yl && chain_of(
                        code_of(#[trigger] ps[idx@[kk] as int]),
                        yl,
                    ) == c,
            uncertain <==> exists|kk: int| lo <= kk < k && ym_len(code_of(#[trigger] ps[idx@[kk] as int])) != yl,
        decreases hi - k,
    {
        let e = &phrases[idx[k]];
        let c = e.code.as_str().as_bytes();
        let ghost cb = code_of(*e);
        assert(c@ == cb);
        let l = ym_len_exec(c);
        let ghost before = chains@;
        if l == ctx.ym_len {
            proof {
                if l == 3 {
                    assert(ym_len(cb) >= 3);
                }
                lemma_ym_prefix(cb);
            }
            let chain: Chain = [c[0], c[1], c[2], if l == 4 {
                c[3]
            } else {
                0
            }];
            assert(chain@ =~= chain_of(cb, yl));
            if !contains_chain(chains.as_slice(), &chain) {
                chains.push(chain);
            }
            proof {
                assert forall|cc: Seq<u8>|
                    #[trigger] chain_in(chains@, cc) <==> exists|kk: int|
                        lo <= kk < k + 1 && ym_len(code_of(ps[idx@[kk] as int])) == yl && chain_of(
                            code_of(#[trigger] ps[idx@[kk] as int]),
                            yl,
                        ) == cc by {
                    if chain_in(chains@, cc) {
                        let q = choose|q: int| 0 <= q < chains@.len() && (#[trigger] chains@[q])@ == cc;
                        if q < before.len() {
                            assert(chain_in(before, cc));
                        }
                    }
                    if chain_in(before, cc) {
                        let q = choose|q: int| 0 <= q < before.len() && (#[trigger] before[q])@ == cc;
                        assert(chains@[q] == before[q]);
                    }
                    if cc == chain@ {
                        if !chain_in(before, cc) {
                            assert(chains@[chains@.len() - 1]@ == cc);
                        }
                        assert(chain_in(chains@, cc));
                    }
                }
            }
        } else {
            uncertain = true;
        }
        k += 1;
    }
    proof {
        assert forall|c: Seq<u8>| #[trigger] chain_set(chains@).contains(c) == present_set(ps, t, yl).contains(c) by {
            if chain_set(chains@).contains(c) {
                let kk = choose|kk: int|
                    lo <= kk < hi && ym_len(code_of(ps[idx@[kk] as int])) == yl && chain_of(
                        code_of(#[trigger] ps[idx@[kk] as int]),
                        yl,
                    ) == c;
                let p = idx@[kk] as int;
                assert(ps[p].text@ == t);
            }
            if present_set(ps, t, yl).contains(c) {
                let i = choose|i: int|
                    0 <= i < ps.len() && (#[trigger] ps[i]).text@ == t && ym_len(code_of(ps[i])) == yl && chain_of(
                        code_of(ps[i]),
                        yl,
                    ) == c;
                let kk = choose|kk: int| lo <= kk < hi && idx@[kk] == i;
                assert(chain_in(chains@, c));
            }
        }
        assert(chain_set(chains@) =~= present_set(ps, t, yl));
        assert(uncertain <==> exists|i: int| 0 <= i < ps.len() && (#[trigger] ps[i]).text@ == t && ym_len(code_of(ps[i])) != yl) by {
            if uncertain {
                let kk = choose|kk: int| lo <= kk < hi && ym_len(code_of(#[trigger] ps[idx@[kk] as int])) != yl;
                let p = idx@[kk] as int;
                assert(ps[p].text@ == t);
            }
            if exists|i: int| 0 <= i < ps.len() && (#[trigger] ps[i]).text@ == t && ym_len(code_of(ps[i])) != yl {
                let i = choose|i: int| 0 <= i < ps.len() && (#[trigger] ps[i]).text@ == t && ym_len(code_of(ps[i])) != yl;
                let kk = choose|kk: int| lo <= kk < hi && idx@[kk] == i;
                assert(ym_len(code_of(ps[idx@[kk] as int])) != yl);
            }
        }
    }
    let ghost present = present_set(ps, t, yl);
    let ghost cs = ctx.cs@;
    let ghost cnt = ctx.cnt as int;
    let ghost off = uncertain;
    let mut q: usize = 0;
    while q < chains.len()
        invariant
            q <= chains@.len(),
            chain_set(chains@) == present,
            present == present_set(ps, t, yl),
            m == stem_map_contents(*singles),
            t == text@,
            ps == phrases@,
            yl == ctx.ym_len,
            ctx_spec(t) == Some((ctx.ym_len, ctx.cnt, ctx.cs@)),
            forall|kk: int| 0 <= kk < ctx.cnt ==> m.contains_key(#[trigger] ctx.cs@[kk]),
            off <==> exists|i: int| 0 <= i < ps.len() && (#[trigger] ps[i]).text@ == t && ym_len(code_of(ps[i])) != yl,
            2 <= ctx.cnt <= 4,
            cs == ctx.cs@,
            cnt == ctx.cnt,
            forall|qq: int| 0 <= qq < q ==> chain_status_spec((#[trigger] chains@[qq])@, cs, cnt, m, present) != Status::Definite,
            uncertain <==> off || exists|qq: int|
                0 <= qq < q && chain_status_spec((#[trigger] chains@[qq])@, cs, cnt, m, present) == Status::Uncertain,
        decreases chains.len() - q,
    {
        let ch = chains[q];
        let st = if ctx.cnt == 2 {
            two_char_status(ch, &ctx, singles, chains.as_slice())
        } else {
            multi_char_status(ch, &ctx, singles, chains.as_slice())
        };
        assert(st == chain_status_spec(ch@, cs, cnt, m, present));
        match st {
            Status::Definite => {
                proof {
                    assert(chain_in(chains@, ch@));
                    assert(present.contains(ch@));
                }
                return Status::Definite;
            },
            Status::Uncertain => {
                uncertain = true;
            },
            Status::Clean => {},
        }
        q += 1;
    }
    proof {
        assert forall|c: Seq<u8>| present.contains(c) implies #[trigger] chain_status_spec(c, cs, cnt, m, present) != Status::Definite by {
            assert(chain_set(chains@).contains(c));
            let qq = choose|qq: int| 0 <= qq < chains@.len() && (#[trigger] chains@[qq])@ == c;
        }
        if exists|c: Seq<u8>| present.contains(c) && #[trigger] chain_status_spec(c, cs, cnt, m, present) == Status::Uncertain {
            let c = choose|c: Seq<u8>| present.contains(c) && #[trigger] chain_status_spec(c, cs, cnt, m, present) == Status::Uncertain;
            assert(chain_set(chains@).contains(c));
            let qq = choose|qq: int| 0 <= qq < chains@.len() && (#[trigger] chains@[qq])@ == c;
        }
    }
    if uncertain {
        Status::Uncertain
    } else {
        Status::Clean
    }
}

/// A code whose sound part has at least three bytes has them in front.
proof fn lemma_ym_prefix(c: Seq<u8>)
    ensures
        ym_len(c) <= c.len(),
    decreases c.len(),
{
    if c.len() > 0 && spec_is_ym(c[0]) {
        lemma_ym_prefix(c.drop_first());
    }
}


/// In positions sorted by text, a maximal run of one text holds every
/// phrase of that text.
proof fn lemma_text_run(ps: Seq<Phrase>, idx: Seq<usize>, lo: int, hi: int, t: Seq<char>)
    requires
        sorted_by(idx, |a: usize, b: usize| text_le(ps, a, b)),
        idx.len() == ps.len(),
        ps.len() <= usize::MAX,
        forall|k: int| 0 <= k < idx.len() ==> (#[trigger] idx[k]) < ps.len(),
        forall|p: usize| p < ps.len() ==> #[trigger] idx.contains(p),
        0 <= lo < hi <= idx.len(),
        forall|k: int| lo <= k < hi ==> (#[trigger] ps[idx[k] as int]).text@ == t,
        lo == 0 || ps[idx[lo - 1] as int].text@ != t,
        hi == idx.len() || ps[idx[hi] as int].text@ != t,
    ensures
        exact_group(ps, idx, lo, hi, t),
{
    assert forall|p: int| 0 <= p < ps.len() implies ((#[trigger] ps[p]).text@ == t <==> exists|k: int|
        lo <= k < hi && idx[k] == p) by {
        if ps[p].text@ == t {
            assert(idx.contains(p as usize));
            let k0 = choose|k0: int| 0 <= k0 < idx.len() && idx[k0] == p as usize;
            assert(idx[k0] as int == p);
            if k0 < lo - 1 {
                let a = encode_utf8(ps[idx[lo - 1] as int].text@);
                assert(text_le(ps, idx[k0], idx[lo - 1]));
                assert(text_le(ps, idx[lo - 1], idx[lo]));
                lemma_bytes_le_antisym(a, encode_utf8(t));
                vstd::utf8::encode_utf8_decode_utf8(t);
                vstd::utf8::encode_utf8_decode_utf8(ps[idx[lo - 1] as int].text@);
            } else if k0 > hi {
                let a = encode_utf8(ps[idx[hi] as int].text@);
                assert(text_le(ps, idx[hi - 1], idx[hi]));
                assert(text_le(ps, idx[hi], idx[k0]));
                lemma_bytes_le_antisym(a, encode_utf8(t));
                vstd::utf8::encode_utf8_decode_utf8(t);
                vstd::utf8::encode_utf8_decode_utf8(ps[idx[hi] as int].text@);
            }
        }
    }
}

/// The phrases of texts that surely miss an alternative, and those of texts
/// that may, each in table order.
pub fn find_alternate<'a>(phrases: &'a [Phrase], singles: &StemMap) -> (r: (Vec<&'a Phrase>, Vec<&'a Phrase>))
    ensures
        r.0@.map_values(|e: &Phrase| *e) == phrases@.filter(
            |e: Phrase| group_status_spec(phrases@, e.text@, stem_map_contents(*singles)) == Status::Definite,
        ),
        r.1@.map_values(|e: &Phrase| *e) == phrases@.filter(
            |e: Phrase| group_status_spec(phrases@, e.text@, stem_map_contents(*singles)) == Status::Uncertain,
        ),
{
    let ghost ps = phrases@;
    let ghost m = stem_map_contents(*singles);
    let n = phrases.len();
    let mut idx: Vec<usize> = Vec::new();
    let mut statuses: Vec<Status> = Vec::new();
    let mut i: usize = 0;
    while i < n
        invariant
            n == ps.len(),
            i <= n,
            idx@ == Seq::new(i as nat, |k: int| k as usize),
            statuses@.len() == i,
        decreases n - i,
    {
        idx.push(i);
        statuses.push(Status::Clean);
        assert(idx@ =~= Seq::new((i + 1) as nat, |k: int| k as usize));
        i += 1;
    }
    let ghost init = idx@;
    sort_positions_by_text(&mut idx, phrases);
    proof {
        lemma_positions_perm(init, idx@, n as nat);
    }
    let mut chains: Vec<Chain> = Vec::new();
    let mut i: usize = 0;
    while i < n
        invariant
            n == ps.len(),
            ps == phrases@,
            m == stem_map_contents(*singles),
            i <= n,
            idx@.len() == n,
            idx@.no_duplicates(),
            forall|k: int| 0 <= k < idx@.len() ==> (#[trigger] idx@[k]) < n,
            forall|p: usize| p < n ==> #[trigger] idx@.contains(p),
            sorted_by(idx@, |a: usize, b: usize| text_le(ps, a, b)),
            statuses@.len() == n,
            forall|k: int| 0 <= k < i ==> statuses@[#[trigger] idx@[k] as int] == group_status_spec(ps, ps[idx@[k] as int].text@, m),
            i == 0 || i == n || ps[idx@[i - 1] as int].text@ != ps[idx@[i as int] as int].text@,
        decreases n - i,
    {
        let text = phrases[idx[i]].text.as_str();
        let ghost t = text@;
        let mut j = i + 1;
        while j < n && str_eq(phrases[idx[j]].text.as_str(), text)
            invariant
                n == ps.len(),
                ps == phrases@,
                idx@.len() == n,
                forall|k: int| 0 <= k < idx@.len() ==> (#[trigger] idx@[k]) < n,
                i < j <= n,
                t == text@,
                t == ps[idx@[i as int] as int].text@,
                forall|k: int| i <= k < j ==> (#[trigger] ps[idx@[k] as int]).text@ == t,
            decreases n - j,
        {
            j += 1;
        }
        proof {
            lemma_text_run(ps, idx@, i as int, j as int, t);
        }
        let status = group_status(text, &idx, i, j, phrases, singles, &mut chains);
        let ghost before = statuses@;
        let mut k = i;
        while k < j
            invariant
                n == ps.len(),
                idx@.len() == n,
                idx@.no_duplicates(),
                forall|kk: int| 0 <= kk < idx@.len() ==> (#[trigger] idx@[kk]) < n,
                i <= k <= j <= n,
                statuses@.len() == n,
                before.len() == n,
                forall|kk: int| 0 <= kk < idx@.len() && !(i <= kk < k) ==> statuses@[#[trigger] idx@[kk] as int] == before[idx@[kk] as int],
                forall|kk: int| i <= kk < k ==> statuses@[#[trigger] idx@[kk] as int] == status,
            decreases j - k,
        {
            statuses.set(idx[k], status);
            proof {
                assert forall|kk: int| 0 <= kk < idx@.len() && !(i <= kk < k + 1) implies statuses@[#[trigger] idx@[kk] as int] == before[idx@[kk] as int] by {
                    assert(idx@[kk] != idx@[k as int]);
                }
            }
            k += 1;
        }
        proof {
            assert forall|kk: int| 0 <= kk < j implies statuses@[#[trigger] idx@[kk] as int] == group_status_spec(ps, ps[idx@[kk] as int].text@, m) by {
                if kk >= i {
                    assert(ps[idx@[kk] as int].text@ == t);
                }
            }
            if j < n {
                assert(ps[idx@[j - 1] as int].text@ == t);
            }
        }
        i = j;
    }
    proof {
        assert forall|p: int| 0 <= p < n implies statuses@[p] == group_status_spec(ps, ps[p].text@, m) by {
            assert(idx@.contains(p as usize));
            let k = choose|k: int| 0 <= k < idx@.len() && idx@[k] == p as usize;
            assert(statuses@[idx@[k] as int] == group_status_spec(ps, ps[idx@[k] as int].text@, m));
        }
    }
    let ghost pd = |e: Phrase| group_status_spec(ps, e.text@, m) == Status::Definite;
    let ghost pu = |e: Phrase| group_status_spec(ps, e.text@, m) == Status::Uncertain;
    let mut definite: Vec<&Phrase> = Vec::new();
    let mut uncertain: Vec<&Phrase> = Vec::new();
    let mut p: usize = 0;
    while p < n
        invariant
            n == ps.len(),
            ps == phrases@,
            p <= n,
            statuses@.len() == n,
            forall|q: int| 0 <= q < n ==> statuses@[q] == group_status_spec(ps, ps[q].text@, m),
            pd == (|e: Phrase| group_status_spec(ps, e.text@, m) == Status::Definite),
            pu == (|e: Phrase| group_status_spec(ps, e.text@, m) == Status::Uncertain),
            definite@.map_values(|e: &Phrase| *e) == ps.take(p as int).filter(pd),
            uncertain@.map_values(|e: &Phrase| *e) == ps.take(p as int).filter(pu),
        decreases n - p,
    {
        let e = &phrases[p];
        proof {
            assert(ps.take(p + 1) =~= ps.take(p as int).push(*e));
            ps.take(p as int).lemma_filter_push(*e, pd);
            ps.take(p as int).lemma_filter_push(*e, pu);
        }
        let ghost od = definite@;
        let ghost ou = uncertain@;
        match statuses[p] {
            Status::Definite => {
                definite.push(e);
                assert(definite@.map_values(|e: &Phrase| *e) =~= od.map_values(|e: &Phrase| *e).push(*e));
            },
            Status::Uncertain => {
                uncertain.push(e);
                assert(uncertain@.map_values(|e: &Phrase| *e) =~= ou.map_values(|e: &Phrase| *e).push(*e));
            },
            Status::Clean => {},
        }
        p += 1;
    }
    assert(ps.take(n as int) =~= ps);
    (definite, uncertain)
}

} // verus!
