use keytao_checker::checks::{
    s_fj_absence, s_format, s_jm_absence, s_jm_anomaly, s_jm_collision, s_jm_redundancy, s_jm_vacancy,
    s_qm_orphan, s_redundancy, s_xm_conflict, s_xm_consistency,
};
use keytao_checker::entry::{Entry, Single};
use keytao_checker::guards::{codes_ascii, fly_keyed_codes, short_codes_letters};

fn table(rows: &[(char, &str)]) -> Vec<Single> {
    rows.iter()
        .enumerate()
        .map(|(i, &(text, code))| Entry {
            line_num: i + 1,
            line: format!("{text}\t{code}"),
            text,
            code: code.to_string(),
        })
        .collect()
}

fn pairs(v: &[&Single]) -> Vec<(char, String)> {
    v.iter().map(|e| (e.text, e.code.clone())).collect()
}

fn lines(v: &[&Single]) -> Vec<usize> {
    v.iter().map(|e| e.line_num).collect()
}

fn owned(v: &[(char, &str)]) -> Vec<(char, String)> {
    v.iter().map(|&(t, c)| (t, c.to_string())).collect()
}

#[test]
fn s_format_reports_malformed_codes() {
    let t = table(&[
        ('中', "zk"),
        ('中', "zkao"),
        ('中', "za"),
        ('中', "b"),
        ('中', "a"),
        ('中', "zkaoiuv"),
        ('中', "zk1"),
        ('中', ""),
    ]);
    let r = s_format::check(&t);
    assert_eq!(lines(&r), vec![3, 5, 6, 7, 8]);
}

#[test]
fn s_format_valid_codes() {
    assert!(s_format::valid(b"b"));
    assert!(s_format::valid(b"bc"));
    assert!(s_format::valid(b"bcaoiu"));
    assert!(!s_format::valid(b"bcaoiuv"));
    assert!(!s_format::valid(b""));
    assert!(!s_format::valid(b"ba"));
}

#[test]
fn s_redundancy_reports_crowded_chains() {
    let t = table(&[
        ('甲', "d"),
        ('甲', "dk"),
        ('甲', "dka"),
        ('乙', "e"),
        ('乙', "eb"),
        ('丙', "f"),
        ('丙', "fa"),
        ('丙', "fb"),
        ('丁', "g"),
        ('丁', "g"),
        ('丁', "gu"),
        ('戊', "h"),
        ('戊', "h"),
        ('戊', "h"),
    ]);
    assert!(codes_ascii(&t));
    let r = s_redundancy::check(&t);
    assert_eq!(pairs(&r), owned(&[('丁', "gu"), ('戊', "h"), ('甲', "dka")]));
}

#[test]
fn s_redundancy_nothing_when_two_per_chain() {
    let t = table(&[('甲', "d"), ('甲', "dk"), ('乙', "d"), ('乙', "dk")]);
    assert!(s_redundancy::check(&t).is_empty());
}

#[test]
fn s_xm_conflict_reports_all_entries_of_conflicting_text() {
    let t = table(&[
        ('甲', "dk"),
        ('甲', "dkao"),
        ('甲', "dka"),
        ('乙', "ebio"),
        ('乙', "e"),
        ('乙', "ebao"),
    ]);
    let r = s_xm_conflict::check(&t);
    assert_eq!(pairs(&r), owned(&[('乙', "e"), ('乙', "ebao"), ('乙', "ebio")]));
}

#[test]
fn s_xm_conflict_none() {
    let t = table(&[('甲', "dk"), ('甲', "dkao"), ('甲', "dka"), ('乙', "eb")]);
    assert!(s_xm_conflict::check(&t).is_empty());
}

#[test]
fn s_xm_consistency_groups_by_text() {
    let t = table(&[
        ('乙', "ebio"),
        ('甲', "dkao"),
        ('甲', "dkio"),
        ('乙', "ebao"),
        ('丙', "fa"),
    ]);
    let r = s_xm_consistency::check(&t);
    assert_eq!(r.len(), 4);
    assert_eq!(r[0].text, '乙');
    assert_eq!(r[1].text, '乙');
    assert_eq!(r[2].text, '甲');
    assert_eq!(r[3].text, '甲');
}

#[test]
fn s_fj_absence_reports_lone_fly_keys() {
    let t = table(&[
        ('甲', "fek"),
        ('乙', "fek"),
        ('乙', "qe"),
        ('丙', "fh"),
        ('丙', "q"),
        ('丁', "qh"),
        ('戊', "em"),
        ('戊', "e"),
        ('己', "wx"),
    ]);
    assert!(fly_keyed_codes(&t));
    let r = s_fj_absence::check(&t);
    assert_eq!(pairs(&r), owned(&[('己', "wx"), ('甲', "fek")]));
}

#[test]
fn s_fj_absence_fh_needs_qh() {
    let t = table(&[('丙', "fhk"), ('丁', "fh"), ('丁', "qhk")]);
    let r = s_fj_absence::check(&t);
    assert_eq!(pairs(&r), owned(&[('丙', "fhk")]));
}

#[test]
fn s_qm_orphan_reports_full_codes_without_short_code() {
    let t = table(&[
        ('甲', "dka"),
        ('乙', "d"),
        ('丙', "ebc"),
        ('丙', "e"),
        ('丁', "fgh"),
        ('戊', "f"),
        ('戊', "fg"),
    ]);
    assert!(short_codes_letters(&t));
    let r = s_qm_orphan::check(&t);
    assert_eq!(pairs(&r), owned(&[('甲', "dka")]));
}

#[test]
fn s_qm_orphan_reports_every_duplicate() {
    let t = table(&[('甲', "dka"), ('甲', "dka"), ('乙', "d")]);
    let r = s_qm_orphan::check(&t);
    assert_eq!(lines(&r).len(), 2);
    assert_eq!(pairs(&r), owned(&[('甲', "dka"), ('甲', "dka")]));
}

#[test]
fn s_jm_collision_reports_shared_short_codes() {
    let t = table(&[
        ('甲', "d"),
        ('甲', "dka"),
        ('乙', "d"),
        ('丙', "fg"),
        ('丙', "fgh"),
        ('丁', "fg"),
        ('戊', "h"),
        ('戊', "hk"),
        ('己', "e"),
        ('己', "e"),
    ]);
    assert_eq!(s_jm_collision::check(&t), vec!["d", "fg"]);
}

#[test]
fn s_jm_vacancy_reports_skipped_codes() {
    let t = table(&[
        ('甲', "dk"),
        ('甲', "dka"),
        ('乙', "hj"),
        ('乙', "hjk"),
        ('丙', "gk"),
        ('丙', "gkl"),
        ('丙', "g"),
    ]);
    assert_eq!(s_jm_vacancy::check(&t), vec!["d", "h"]);
}

#[test]
fn s_jm_absence_reports_longest_codes_over_free_prefix() {
    let t = table(&[('甲', "dka"), ('乙', "d"), ('丙', "eb"), ('丙', "ebc"), ('丁', "f")]);
    let r = s_jm_absence::check(&t);
    assert_eq!(pairs(&r), owned(&[('甲', "dka")]));
}

#[test]
fn s_jm_absence_pack() {
    assert_eq!(s_jm_absence::pack(""), 0);
    assert_eq!(s_jm_absence::pack("a"), 1);
    assert_eq!(s_jm_absence::pack("ba"), 2 * 27 + 1);
}

#[test]
fn s_jm_redundancy_reports_prefix_runs() {
    let t = table(&[
        ('甲', "d"),
        ('甲', "dk"),
        ('甲', "dka"),
        ('丁', "g"),
        ('丁', "g"),
        ('丁', "gu"),
        ('乙', "e"),
        ('乙', "eb"),
    ]);
    let r = s_jm_redundancy::check(&t);
    assert_eq!(pairs(&r), owned(&[('丁', "g"), ('丁', "g"), ('甲', "d"), ('甲', "dk")]));
}

#[test]
fn s_jm_anomaly_reports_misplaced_short_codes() {
    let t = table(&[
        ('甲', "d"),
        ('甲', "dk"),
        ('乙', "d"),
        ('丙', "f"),
        ('丙', "f"),
        ('丁', "g"),
        ('丁', "gh"),
        ('丁', "ghk"),
    ]);
    let r = s_jm_anomaly::check(&t);
    assert_eq!(lines(&r), vec![6, 7, 5, 1]);
}

#[test]
fn ix_of_code_elements() {
    assert_eq!(s_fj_absence::ix(b'a'), 0);
    assert_eq!(s_fj_absence::ix(b'q'), 16);
    assert_eq!(s_fj_absence::ix(b'z'), 25);
}

#[test]
fn guards_on_single_codes() {
    assert!(codes_ascii(&table(&[('中', "zk"), ('国', "gb1")])));
    assert!(!codes_ascii(&table(&[('中', "zké")])));
    assert!(fly_keyed_codes(&table(&[('中', "zk1"), ('国', "g")])));
    assert!(!fly_keyed_codes(&table(&[('中', "Zk")])));
    assert!(!fly_keyed_codes(&table(&[('中', "z1")])));
    assert!(short_codes_letters(&table(&[('中', "zkaoiuv1")])));
    assert!(!short_codes_letters(&table(&[('中', "zk1")])));
}

#[test]
fn s_redundancy_non_ascii_code_cut_after_crowded_prefix() {
    let t = table(&[('甲', "d"), ('甲', "d"), ('甲', "d中")]);
    let r = s_redundancy::check(&t);
    assert_eq!(pairs(&r), owned(&[('甲', "d中")]));
}

#[test]
fn s_qm_orphan_compares_code_numbers() {
    let t = table(&[('甲', "a|k"), ('丙', "a")]);
    assert!(!short_codes_letters(&t));
    assert!(keytao_checker::guards::short_codes_keyable(&t));
    assert_eq!(pairs(&s_qm_orphan::check(&t)), owned(&[('甲', "a|k")]));
    let t = table(&[('甲', "a|k"), ('丙', "a"), ('乙', "ba")]);
    assert_eq!(pairs(&s_qm_orphan::check(&t)), owned(&[('乙', "ba")]));
}

#[test]
fn short_codes_keyable_guard() {
    assert!(keytao_checker::guards::short_codes_keyable(&table(&[('中', "zk|"), ('国', "gb中")])));
    assert!(!keytao_checker::guards::short_codes_keyable(&table(&[('中', "zK")])));
    assert!(keytao_checker::guards::short_codes_keyable(&table(&[('中', "zkaoiuK")])));
}
