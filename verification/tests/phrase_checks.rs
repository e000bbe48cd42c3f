use keytao_checker::alternate::{
    alternate, apply_alts, definite_missing, find_alternate, uncertain_missing, Ctx,
};
use keytao_checker::checks::p_on_s_fj_incomplete::full_alt_target;
use keytao_checker::checks::{p_format, p_on_s_anomaly, p_on_s_fj_incomplete, p_redundancy, p_vacancy};
use keytao_checker::entry::{Entry, Phrase, Single};
use keytao_checker::guards::{phrase_codes_fit, phrases_keyed};
use keytao_checker::hashing::{stem_map_get, StemMap};
use keytao_checker::report::{check_p_format, check_p_vacancy, check_s_format};
use keytao_checker::stems::get_stems;

fn phrases(rows: &[(&str, &str)]) -> Vec<Phrase> {
    rows.iter()
        .enumerate()
        .map(|(i, &(text, code))| Entry {
            line_num: i + 1,
            line: format!("{text}\t{code}"),
            text: text.to_string(),
            code: code.to_string(),
        })
        .collect()
}

fn singles(rows: &[(char, &str)]) -> Vec<Single> {
    rows.iter()
        .enumerate()
        .map(|(i, &(text, code))| Entry {
            line_num: i + 1,
            line: format!("{text}\t{code}"),
            text,
            code: code.to_string(),
        })
        .collect()
}

fn pairs(v: &[&Phrase]) -> Vec<(String, String)> {
    v.iter().map(|e| (e.text.clone(), e.code.clone())).collect()
}

fn owned(v: &[(&str, &str)]) -> Vec<(String, String)> {
    v.iter().map(|&(t, c)| (t.to_string(), c.to_string())).collect()
}

fn stems(rows: &[(char, &str)]) -> StemMap {
    get_stems(&singles(rows)).unwrap()
}

#[test]
fn p_format_reports_malformed_codes() {
    let t = phrases(&[
        ("中国", "zkgb"),
        ("中国", "zkgbao"),
        ("中国", "zkgbaoi"),
        ("中国", "zkg"),
        ("中国人", "zgr"),
        ("中国人", "zgra"),
        ("中国人", "zgraoi"),
        ("中国人", "zgraoiu"),
        ("中国", "zkab"),
        ("中华人民", "zhrmo"),
    ]);
    let r = p_format::check(&t);
    let lines: Vec<usize> = r.iter().map(|e| e.line_num).collect();
    assert_eq!(lines, vec![3, 4, 8, 9]);
}

#[test]
fn p_format_valid() {
    assert!(p_format::valid(b"zgr", "中国人"));
    assert!(!p_format::valid(b"zgr", "中国"));
    assert!(p_format::valid(b"zkgbo", "中国"));
}

#[test]
fn p_redundancy_reports_longest_of_each_crowded_chain() {
    let t = phrases(&[
        ("中国", "zkgb"),
        ("中国", "zkgbao"),
        ("中国人", "zgr"),
        ("中国人", "zgra"),
        ("中华", "zhhh"),
        ("中华", "zhhx"),
    ]);
    assert!(phrase_codes_fit(&t));
    let r = p_redundancy::check(&t);
    assert_eq!(pairs(&r), owned(&[("中国", "zkgbao"), ("中国人", "zgra")]));
}

#[test]
fn p_vacancy_reports_skipped_codes() {
    let t = phrases(&[("中国", "zkgbao"), ("中国", "zkgb"), ("中国人", "zgrao")]);
    assert!(phrases_keyed(&t));
    assert_eq!(p_vacancy::check(&t), vec!["zgr", "zgra", "zkgba"]);
}

#[test]
fn p_vacancy_no_duplicates() {
    let t = phrases(&[("中国", "zkgbao"), ("中过", "zkgbai")]);
    assert_eq!(p_vacancy::check(&t), vec!["zkgb", "zkgba"]);
}

#[test]
fn p_vacancy_bits() {
    assert_eq!(p_vacancy::BITS, 27usize.pow(5));
    assert_eq!(p_vacancy::append_key(0, b'a'), 1);
    assert_eq!(p_vacancy::append_key(2, b'z'), 2 * 27 + 26);
    let mut bits = vec![0u64; 3];
    assert!(p_vacancy::insert(&mut bits, 70));
    assert!(!p_vacancy::insert(&mut bits, 70));
    assert_eq!(bits, vec![0, 1 << 6, 0]);
}

#[test]
fn get_stems_keeps_distinct_stems_in_order() {
    let m = stems(&[('中', "zkao"), ('中', "zka"), ('中', "zk"), ('中', "zki"), ('国', "gbi")]);
    assert_eq!(stem_map_get(&m, '中').unwrap(), &vec![*b"zka", *b"zki"]);
    assert_eq!(stem_map_get(&m, '国').unwrap(), &vec![*b"gbi"]);
    assert!(stem_map_get(&m, '人').is_none());
}

#[test]
fn get_stems_without_three_byte_codes() {
    let r = get_stems(&singles(&[('中', "zk"), ('国', "g")]));
    assert_eq!(r.err().unwrap(), "无有效构词码");
}

#[test]
fn p_on_s_anomaly_reports_underivable_codes() {
    let m = stems(&[('中', "zka"), ('国', "gbi"), ('人', "rfu")]);
    let t = phrases(&[
        ("你好", "nihk"),
        ("中国", "zkgb"),
        ("中国", "zkgbao"),
        ("中国", "zkgbo"),
        ("中国", "zkgx"),
        ("中国人", "zgra"),
        ("中国人", "zgrau"),
        ("中国人民", "zgrrai"),
    ]);
    let r = p_on_s_anomaly::check(&t, &m);
    assert_eq!(
        pairs(&r),
        owned(&[
            ("中国", "zkgbao"),
            ("中国", "zkgbo"),
            ("中国", "zkgx"),
            ("中国人", "zgrau"),
            ("中国人民", "zgrrai"),
            ("你好", "nihk"),
        ])
    );
}

#[test]
fn p_on_s_fj_incomplete_reports_missing_fly_key() {
    let m = stems(&[('中', "zka"), ('国', "gbi")]);
    let t = phrases(&[("中国", "fezk"), ("中国", "fezka")]);
    let r = p_on_s_fj_incomplete::check(&t, &m);
    assert_eq!(pairs(&r), owned(&[("中国", "fezk"), ("中国", "fezka")]));
}

#[test]
fn p_on_s_fj_incomplete_complete_pair() {
    let m = stems(&[('中', "zka"), ('国', "gbi")]);
    let t = phrases(&[("中国", "fezk"), ("中国", "qezk")]);
    assert!(p_on_s_fj_incomplete::check(&t, &m).is_empty());
}

#[test]
fn p_on_s_fj_incomplete_three_chars() {
    let m = stems(&[('甲', "fem"), ('乙', "zka"), ('丙', "gbi")]);
    let t = phrases(&[("甲乙丙", "fzg")]);
    let r = p_on_s_fj_incomplete::check(&t, &m);
    assert_eq!(pairs(&r), owned(&[("甲乙丙", "fzg")]));
    let t = phrases(&[("甲乙丙", "fzg"), ("甲乙丙", "qzg")]);
    assert!(p_on_s_fj_incomplete::check(&t, &m).is_empty());
}

#[test]
fn full_alt_targets() {
    assert_eq!(full_alt_target(b'f', b'e'), Some((b'q', b'e')));
    assert_eq!(full_alt_target(b'q', b'e'), Some((b'f', b'e')));
    assert_eq!(full_alt_target(b'f', b'h'), Some((b'q', b'h')));
    assert_eq!(full_alt_target(b'q', b'h'), None);
    assert_eq!(full_alt_target(b'w', b'm'), Some((b'w', b'x')));
    assert_eq!(full_alt_target(b'a', b'b'), None);
}

#[test]
fn ctx_of_texts() {
    assert!(Ctx::new("中").is_none());
    let c = Ctx::new("中国").unwrap();
    assert_eq!((c.ym_len, c.cnt, c.cs), (4, 2, ['中', '国', '中', '中']));
    let c = Ctx::new("中国人").unwrap();
    assert_eq!((c.ym_len, c.cnt, c.cs), (3, 3, ['中', '国', '人', '中']));
    let c = Ctx::new("中华人民共和国").unwrap();
    assert_eq!((c.ym_len, c.cnt, c.cs), (4, 4, ['中', '华', '人', '国']));
}

#[test]
fn alternates_and_masks() {
    assert_eq!(alternate(*b"jz"), Some(*b"wz"));
    assert_eq!(alternate(*b"zk"), None);
    let alts = [(0usize, 2usize, *b"qe"), (2, 1, *b"w\0")];
    let mut c = *b"fejz";
    apply_alts(&mut c, &alts, 0);
    assert_eq!(&c, b"fejz");
    apply_alts(&mut c, &alts, 3);
    assert_eq!(&c, b"qewz");
    let mut c = *b"fejz";
    apply_alts(&mut c, &alts, 2);
    assert_eq!(&c, b"fewz");
}

#[test]
fn missing_alternatives() {
    let alts = [(0usize, 2usize, *b"qe")];
    assert!(definite_missing(*b"fezk", &alts, &[*b"fezk"]));
    assert!(!definite_missing(*b"fezk", &alts, &[*b"fezk", *b"qezk"]));
    assert!(!definite_missing(*b"fezk", &[], &[]));
    let u = [(2usize, 1usize, *b"w\0")];
    assert!(uncertain_missing(*b"fejz", &alts, &u, &[*b"fejz", *b"qejz"]));
    assert!(!uncertain_missing(*b"fejz", &alts, &u, &[*b"fejz", *b"qejz", *b"fewz", *b"qewz"]));
}

#[test]
fn find_alternate_sorts_phrases_by_status() {
    let m = stems(&[('中', "feo"), ('国', "zka")]);
    let t = phrases(&[("中国", "fezkao"), ("中人", "fezk"), ("中", "fe")]);
    let (definite, uncertain) = find_alternate(&t, &m);
    assert_eq!(pairs(&definite), owned(&[("中国", "fezkao")]));
    assert_eq!(pairs(&uncertain), owned(&[("中人", "fezk"), ("中", "fe")]));

    let t = phrases(&[("中国", "fezkao"), ("中国", "qezk")]);
    let (definite, uncertain) = find_alternate(&t, &m);
    assert!(definite.is_empty());
    assert_eq!(pairs(&uncertain), owned(&[("中国", "fezkao"), ("中国", "qezk")]));
}

#[test]
fn find_alternate_clean() {
    let m = stems(&[('中', "zka"), ('国', "gbi")]);
    let t = phrases(&[("中国", "zkgb")]);
    let (definite, uncertain) = find_alternate(&t, &m);
    assert!(definite.is_empty());
    assert!(uncertain.is_empty());
}

#[test]
fn report_sections_for_checks() {
    let mut report = Vec::new();
    let s = singles(&[('中', "zk"), ('国', "a")]);
    assert_eq!(check_s_format(&s, &mut report), 1);
    let p = phrases(&[("中国", "zkgbao"), ("中国", "zkgb"), ("中国人", "zg")]);
    assert_eq!(check_p_format(&p, &mut report), 1);
    assert_eq!(check_p_vacancy(&p, &mut report), 1);
    let text = String::from_utf8(report).unwrap();
    let e8 = "=".repeat(8);
    let e14 = "=".repeat(14);
    assert_eq!(
        text,
        format!(
            "{e8}单字编码形式异常{e8}\n第2行：'国\ta'\n{e8}词组编码形式异常{e8}\n第3行：'中国人\tzg'\n{e14}空码{e14}\nzkgba\n"
        )
    );
}

#[test]
fn guards_on_phrase_codes() {
    assert!(phrases_keyed(&phrases(&[("中国", "zkgbao"), ("中国人", "zgr")])));
    assert!(!phrases_keyed(&phrases(&[("中国", "zkgbaoi")])));
    assert!(!phrases_keyed(&phrases(&[("中国", "zK")])));
    assert!(phrase_codes_fit(&phrases(&[("中国", "zkgb"), ("中国人", "zgr")])));
    assert!(phrase_codes_fit(&phrases(&[("中国", "zkg")])));
    assert!(!phrase_codes_fit(&phrases(&[("中国", "zkg"), ("中国", "zkgb")])));
    assert!(!phrase_codes_fit(&phrases(&[("中国", "zkgé"), ("中国", "zkgb")])));
    assert!(phrase_codes_fit(&phrases(&[("中国", "zkgbé"), ("中国", "zkgb"), ("中国人", "z")])));
}

#[test]
fn alternatives_of_any_count_and_length() {
    let alts = [(1usize, 0usize, *b"zz"), (0, 1, *b"q\0"), (3, 1, *b"x\0"), (2, 2, *b"wx"), (0, 0, *b"aa")];
    let mut c = *b"fejz";
    apply_alts(&mut c, &alts, 0b11111);
    assert_eq!(&c, b"qewx");
    let mut c = *b"fejz";
    apply_alts(&mut c, &alts, 0b00001);
    assert_eq!(&c, b"fejz");
    assert!(!definite_missing(*b"fejz", &[(1usize, 0usize, *b"zz")], &[*b"fejz"]));
    assert!(definite_missing(*b"fejz", &alts, &[*b"fejz"]));
    assert!(!uncertain_missing(*b"fejz", &[], &[(0usize, 0usize, *b"aa")], &[*b"fejz"]));
    assert!(uncertain_missing(*b"fejz", &alts, &[(0usize, 0usize, *b"aa")], &[*b"fejz"]));
}
