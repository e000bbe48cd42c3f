//! The checks that the reports hold beside the format and vacancy checks:
//! each runs one check over a table and appends what it found to the
//! report as a section under its title.

use crate::checks::{
    p_on_s_anomaly, p_on_s_fj_incomplete, p_redundancy, s_fj_absence, s_jm_collision, s_jm_vacancy,
    s_qm_orphan, s_redundancy, s_xm_conflict,
};
use crate::codesets::{short_entries, short_keyable, short_letters};
use crate::entry::{describe_spec, Entry, EntryText, Phrase, Single};
use crate::hashing::{stem_map_contents, StemMap};
use crate::order::{bytes_le, bytes_lt, code_of, phrase_le, single_le, sorted_by};
use crate::report::{describe_all, owned_all, report_items, section};
use crate::shapes::conflicted;
use vstd::prelude::*;
use vstd::string::StringSliceAdditionalSpecFns;
use vstd::utf8::encode_utf8;

verus! {

/// How a list of entries shows in a report: one description per entry.
pub open spec fn described<T>(r: Seq<&Entry<T>>) -> Seq<Seq<char>> {
    r.map_values(|e: &Entry<T>| describe_spec(*e))
}

/// How a list of codes shows in a report.
pub open spec fn spelled(r: Seq<&str>) -> Seq<Seq<char>> {
    r.map_values(|s: &str| s@)
}

/// Appends the section of the entries `found` under `title`; their number.
pub fn report_entries<T: EntryText>(report: &mut Vec<u8>, title: &str, found: &Vec<&Entry<T>>) -> (n: usize)
    requires
        title@.len() <= 16,
    ensures
        n == found@.len(),
        final(report)@ == old(report)@ + encode_utf8(section(title@, described(found@))),
{
    let items = describe_all(found);
    report_items(report, title, &items)
}

/// Appends the section of the codes `found` under `title`; their number.
pub fn report_codes(report: &mut Vec<u8>, title: &str, found: &Vec<&str>) -> (n: usize)
    requires
        title@.len() <= 16,
    ensures
        n == found@.len(),
        final(report)@ == old(report)@ + encode_utf8(section(title@, spelled(found@))),
{
    let items = owned_all(found);
    report_items(report, title, &items)
}

/// What `s_xm_conflict::check` returns for `ss`.
pub open spec fn xm_conflict_found(ss: Seq<Single>, r: Seq<&Single>) -> bool {
    &&& r.map_values(|e: &Single| *e).to_multiset() == ss.filter(|x: Single| conflicted(ss, x.text)).to_multiset()
    &&& sorted_by(r, |a: &Single, b: &Single| single_le(*a, *b))
}

/// Runs the check of shape codes (形码段冲突) and appends its section.
pub fn check_s_xm_conflict(singles: &[Single], report: &mut Vec<u8>) -> (n: usize)
    ensures
        exists|r: Seq<&Single>|
            #[trigger] xm_conflict_found(singles@, r) && n == r.len() && final(report)@ == old(report)@
                + encode_utf8(section("单字形码段冲突"@, described(r))),
{
    let found = s_xm_conflict::check(singles);
    proof {
        reveal_strlit("单字形码段冲突");
    }
    let n = report_entries(report, "单字形码段冲突", &found);
    assert(xm_conflict_found(singles@, found@));
    n
}

/// What `s_redundancy::check` returns for `ss`.
pub open spec fn redundancy_found(ss: Seq<Single>, r: Seq<&Single>) -> bool {
    &&& forall|k: int|
        0 <= k < r.len() ==> ss.contains(*#[trigger] r[k]) && s_redundancy::overfull(ss, r[k].text, code_of(*r[k]))
    &&& forall|i: int, k: int| 0 <= i < k < r.len() ==> s_redundancy::pair_lt(*#[trigger] r[i], *#[trigger] r[k])
    &&& forall|x: Single|
        #![trigger ss.contains(x)]
        ss.contains(x) && s_redundancy::overfull(ss, x.text, code_of(x)) ==> exists|k: int|
            0 <= k < r.len() && s_redundancy::same_pair(*#[trigger] r[k], x)
}

/// Runs the check of crowded code chains (词条冗余) and appends its section.
pub fn check_s_redundancy(singles: &[Single], report: &mut Vec<u8>) -> (n: usize)
    requires
        s_redundancy::cuttable_chains(singles@),
    ensures
        exists|r: Seq<&Single>|
            #[trigger] redundancy_found(singles@, r) && n == r.len() && final(report)@ == old(report)@
                + encode_utf8(section("单字词条冗余"@, described(r))),
{
    let found = s_redundancy::check(singles);
    proof {
        reveal_strlit("单字词条冗余");
    }
    let n = report_entries(report, "单字词条冗余", &found);
    assert(redundancy_found(singles@, found@));
    n
}

/// What `s_fj_absence::check` returns for `ss`.
pub open spec fn fj_absence_found(ss: Seq<Single>, r: Seq<&Single>) -> bool {
    &&& r.map_values(|e: &Single| *e).to_multiset() == ss.filter(|x: Single| s_fj_absence::lone(ss, x)).to_multiset()
    &&& sorted_by(r, |a: &Single, b: &Single| single_le(*a, *b))
}

/// Runs the check of lone fly keys (孤立飞键) and appends its section.
pub fn check_s_fj_absence(singles: &[Single], report: &mut Vec<u8>) -> (n: usize)
    requires
        s_fj_absence::fly_keyed(singles@),
    ensures
        exists|r: Seq<&Single>|
            #[trigger] fj_absence_found(singles@, r) && n == r.len() && final(report)@ == old(report)@
                + encode_utf8(section("单字孤立飞键"@, described(r))),
{
    let found = s_fj_absence::check(singles);
    proof {
        reveal_strlit("单字孤立飞键");
    }
    let n = report_entries(report, "单字孤立飞键", &found);
    assert(fj_absence_found(singles@, found@));
    n
}

/// What `s_qm_orphan::check` returns for `ss`.
pub open spec fn qm_orphan_found(ss: Seq<Single>, r: Seq<&Single>) -> bool {
    &&& r.map_values(|e: &Single| *e).to_multiset() == short_entries(ss).filter(
        |x: Single| s_qm_orphan::orphaned(short_entries(ss), x),
    ).to_multiset()
    &&& sorted_by(r, |a: &Single, b: &Single| single_le(*a, *b))
}

/// Runs the check of full codes without short code (孤立全码) and appends
/// its section.
pub fn check_s_qm_orphan(singles: &[Single], report: &mut Vec<u8>) -> (n: usize)
    requires
        short_keyable(singles@),
    ensures
        exists|r: Seq<&Single>|
            #[trigger] qm_orphan_found(singles@, r) && n == r.len() && final(report)@ == old(report)@
                + encode_utf8(section("单字孤立全码"@, described(r))),
{
    let found = s_qm_orphan::check(singles);
    proof {
        reveal_strlit("单字孤立全码");
    }
    let n = report_entries(report, "单字孤立全码", &found);
    assert(qm_orphan_found(singles@, found@));
    n
}

/// What `s_jm_collision::check` returns for `ss`.
pub open spec fn jm_collision_found(ss: Seq<Single>, r: Seq<&str>) -> bool {
    &&& forall|q: int| 0 <= q < r.len() ==> s_jm_collision::collides(ss, (#[trigger] r[q]).spec_bytes())
    &&& forall|p: Seq<u8>|
        s_jm_collision::collides(ss, p) ==> exists|q: int| 0 <= q < r.len() && (#[trigger] r[q]).spec_bytes() == p
    &&& forall|a: int, b: int| 0 <= a < b < r.len() ==> bytes_lt((#[trigger] r[a]).spec_bytes(), (#[trigger] r[b]).spec_bytes())
}

/// Runs the check of shared short codes (简码重码) and appends its section.
pub fn check_s_jm_collision(singles: &[Single], report: &mut Vec<u8>) -> (n: usize)
    requires
        singles@.len() < usize::MAX,
        s_jm_collision::crowded_ascii(singles@),
    ensures
        exists|r: Seq<&str>|
            #[trigger] jm_collision_found(singles@, r) && n == r.len() && final(report)@ == old(report)@
                + encode_utf8(section("单字简码重码"@, spelled(r))),
{
    let found = s_jm_collision::check(singles);
    proof {
        reveal_strlit("单字简码重码");
    }
    let n = report_codes(report, "单字简码重码", &found);
    assert(jm_collision_found(singles@, found@));
    n
}

/// What `s_jm_vacancy::check` returns for `ss`.
pub open spec fn jm_vacancy_found(ss: Seq<Single>, r: Seq<&str>) -> bool {
    &&& forall|q: int| 0 <= q < r.len() ==> s_jm_vacancy::vacant(short_entries(ss), (#[trigger] r[q]).spec_bytes())
    &&& forall|p: Seq<u8>|
        s_jm_vacancy::vacant(short_entries(ss), p) ==> exists|q: int| 0 <= q < r.len() && (#[trigger] r[q]).spec_bytes() == p
    &&& forall|a: int, b: int| 0 <= a < b < r.len() ==> (#[trigger] r[a]).spec_bytes() != (#[trigger] r[b]).spec_bytes()
    &&& sorted_by(r, |a: &str, b: &str| bytes_le(encode_utf8(a@), encode_utf8(b@)))
}

/// Runs the check of skipped short codes (简码空码) and appends its section.
pub fn check_s_jm_vacancy(singles: &[Single], report: &mut Vec<u8>) -> (n: usize)
    requires
        short_letters(singles@),
    ensures
        exists|r: Seq<&str>|
            #[trigger] jm_vacancy_found(singles@, r) && n == r.len() && final(report)@ == old(report)@
                + encode_utf8(section("单字简码空码"@, spelled(r))),
{
    let found = s_jm_vacancy::check(singles);
    proof {
        reveal_strlit("单字简码空码");
    }
    let n = report_codes(report, "单字简码空码", &found);
    assert(jm_vacancy_found(singles@, found@));
    n
}

/// What `p_redundancy::check` returns for `ps`.
pub open spec fn p_redundancy_found(ps: Seq<Phrase>, r: Seq<&Phrase>) -> bool {
    &&& forall|q: int|
        0 <= q < r.len() ==> ps.contains(*#[trigger] r[q]) && p_redundancy::crowded(ps, *r[q]) && p_redundancy::topmost(
            ps,
            *r[q],
        )
    &&& forall|q1: int, q2: int| 0 <= q1 < q2 < r.len() ==> !p_redundancy::same_class(*#[trigger] r[q1], *#[trigger] r[q2])
    &&& forall|i: int|
        0 <= i < ps.len() && p_redundancy::crowded(ps, #[trigger] ps[i]) ==> exists|q: int|
            0 <= q < r.len() && p_redundancy::same_class(*#[trigger] r[q], ps[i])
    &&& sorted_by(r, |x: &Phrase, y: &Phrase| phrase_le(*x, *y))
}

/// Runs the check of crowded phrase chains (词条冗余) and appends its
/// section.
pub fn check_p_redundancy(phrases: &[Phrase], report: &mut Vec<u8>) -> (n: usize)
    requires
        p_redundancy::sliceable(phrases@),
    ensures
        exists|r: Seq<&Phrase>|
            #[trigger] p_redundancy_found(phrases@, r) && n == r.len() && final(report)@ == old(report)@
                + encode_utf8(section("词组词条冗余"@, described(r))),
{
    let found = p_redundancy::check(phrases);
    proof {
        reveal_strlit("词组词条冗余");
    }
    let n = report_entries(report, "词组词条冗余", &found);
    assert(p_redundancy_found(phrases@, found@));
    n
}

/// What `p_on_s_anomaly::check` returns for `ps` and the stems `m`.
pub open spec fn anomaly_found(ps: Seq<Phrase>, m: Map<char, Seq<crate::keytao::Stem>>, r: Seq<&Phrase>) -> bool {
    &&& r.map_values(|e: &Phrase| *e).to_multiset() == ps.filter(|e: Phrase| !p_on_s_anomaly::correct_spec(e, m)).to_multiset()
    &&& sorted_by(r, |a: &Phrase, b: &Phrase| phrase_le(*a, *b))
}

/// Runs the check of underivable phrase codes (无理码) and appends its
/// section.
pub fn check_p_on_s_anomaly(phrases: &[Phrase], stems: &StemMap, report: &mut Vec<u8>) -> (n: usize)
    ensures
        exists|r: Seq<&Phrase>|
            #[trigger] anomaly_found(phrases@, stem_map_contents(*stems), r) && n == r.len() && final(report)@
                == old(report)@ + encode_utf8(section("词组无理码"@, described(r))),
{
    let found = p_on_s_anomaly::check(phrases, stems);
    proof {
        reveal_strlit("词组无理码");
    }
    let n = report_entries(report, "词组无理码", &found);
    assert(anomaly_found(phrases@, stem_map_contents(*stems), found@));
    n
}

/// What `p_on_s_fj_incomplete::check` returns for `ps` and the stems `m`.
pub open spec fn fj_incomplete_found(ps: Seq<Phrase>, m: Map<char, Seq<crate::keytao::Stem>>, r: Seq<&Phrase>) -> bool {
    &&& r.map_values(|e: &Phrase| *e).to_multiset() == ps.filter(
        |x: Phrase| p_on_s_fj_incomplete::reported(ps, x, m),
    ).to_multiset()
    &&& sorted_by(r, |a: &Phrase, b: &Phrase| phrase_le(*a, *b))
}

/// Runs the check of incomplete fly keys (残缺飞键) and appends its
/// section.
pub fn check_p_on_s_fj_incomplete(phrases: &[Phrase], stems: &StemMap, report: &mut Vec<u8>) -> (n: usize)
    ensures
        exists|r: Seq<&Phrase>|
            #[trigger] fj_incomplete_found(phrases@, stem_map_contents(*stems), r) && n == r.len() && final(report)@
                == old(report)@ + encode_utf8(section("词组残缺飞键"@, described(r))),
{
    let found = p_on_s_fj_incomplete::check(phrases, stems);
    proof {
        reveal_strlit("词组残缺飞键");
    }
    let n = report_entries(report, "词组残缺飞键", &found);
    assert(fj_incomplete_found(phrases@, stem_map_contents(*stems), found@));
    n
}

} // verus!
