use keytao_checker::checks::p_on_s_fj_incomplete::full_alt_target;
use keytao_checker::checks::{p_format, s_format, s_xm_conflict, s_xm_consistency};
use keytao_checker::entry::{Entry, Phrase, Single};
use keytao_checker::findings::{
    check_p_on_s_anomaly, check_p_on_s_fj_incomplete, check_p_redundancy, check_s_fj_absence,
    check_s_jm_collision, check_s_jm_vacancy, check_s_qm_orphan, check_s_redundancy, check_s_xm_conflict,
};
use keytao_checker::stems::get_stems;

fn singles(rows: &[(char, &str)]) -> Vec<Single> {
    rows.iter()
        .enumerate()
        .map(|(i, &(text, code))| Entry {
            line_num: i + 1,
            line: format!("{text}\t{code}"),
            text,
            code: code.to_string(),
        })
        .collect()
}

fn phrases(rows: &[(&str, &str)]) -> Vec<Phrase> {
    rows.iter()
        .enumerate()
        .map(|(i, &(text, code))| Entry {
            line_num: i + 1,
            line: format!("{text}\t{code}"),
            text: text.to_string(),
            code: code.to_string(),
        })
        .collect()
}

fn section(title: &str, items: &[&str]) -> String {
    let eq = "=".repeat((32 - 2 * title.chars().count()) / 2);
    let mut s = format!("{eq}{title}{eq}\n");
    for i in items {
        s.push_str(i);
        s.push('\n');
    }
    s
}

#[test]
fn written_lines_read_back() {
    for line in ["中\tzk", "中\tzk\t100", "中\tzk\t\t"] {
        let e = Single::parse(4, line).unwrap().unwrap();
        assert_eq!((e.text, e.code.as_str()), ('中', "zk"));
    }
    let e = Phrase::parse(4, "中国人\tzgra\t5").unwrap().unwrap();
    assert_eq!((e.text.as_str(), e.code.as_str()), ("中国人", "zgra"));
}

#[test]
fn fly_key_partners_pair_up() {
    let mut with_partner = 0;
    for a in b'a'..=b'z' {
        for b in b'a'..=b'z' {
            if let Some((c, d)) = full_alt_target(a, b) {
                with_partner += 1;
                if (a, b) == (b'f', b'h') {
                    assert_eq!((c, d), (b'q', b'h'));
                    assert_eq!(full_alt_target(c, d), None);
                } else {
                    assert_eq!(full_alt_target(c, d), Some((a, b)));
                }
            }
        }
    }
    assert_eq!(with_partner, 21);
}

fn all_codes(alphabet: &[u8], max: usize) -> Vec<Vec<u8>> {
    let mut all = vec![vec![]];
    let mut last = vec![vec![]];
    for _ in 0..max {
        let mut next = vec![];
        for c in &last {
            for &b in alphabet {
                let mut d = c.clone();
                d.push(b);
                next.push(d);
            }
        }
        all.extend(next.iter().cloned());
        last = next;
    }
    all
}

fn is_ym(b: u8) -> bool {
    b.is_ascii_lowercase() && !b"aiouv".contains(&b)
}

fn is_xm(b: u8) -> bool {
    b"aiouv".contains(&b)
}

#[test]
fn single_codes_are_prefixes_of_full_codes() {
    let alphabet = [b'a', b'b', b'v', b'1'];
    let fulls: Vec<Vec<u8>> = all_codes(&alphabet, 6)
        .into_iter()
        .filter(|f| f.len() >= 4 && is_ym(f[0]) && is_ym(f[1]) && f[2..].iter().all(|&c| is_xm(c)))
        .collect();
    for code in all_codes(&alphabet, 7) {
        let prefix = !code.is_empty() && fulls.iter().any(|f| f.starts_with(&code));
        assert_eq!(s_format::valid(&code), prefix, "{code:?}");
    }
}

#[test]
fn phrase_codes_are_prefixes_of_full_codes() {
    let alphabet = [b'a', b'b', b'1'];
    for (text, m) in [("中国人", 3usize), ("中国", 4), ("中华人民", 4)] {
        let fulls: Vec<Vec<u8>> = all_codes(&alphabet, 6)
            .into_iter()
            .filter(|f| f.len() == 6 && f[..m].iter().all(|&c| is_ym(c)) && f[m..].iter().all(|&c| is_xm(c)))
            .collect();
        for code in all_codes(&alphabet, 7) {
            let prefix = code.len() >= m && fulls.iter().any(|f| f.starts_with(&code));
            assert_eq!(p_format::valid(&code, text), prefix, "{text} {code:?}");
        }
    }
}

#[test]
fn both_shape_checks_report_the_same_entries() {
    let t = singles(&[
        ('乙', "ebio"),
        ('甲', "dkao"),
        ('乙', "e"),
        ('甲', "dkio"),
        ('乙', "ebao"),
        ('丙', "fa"),
        ('丙', "fao"),
    ]);
    let mut a: Vec<usize> = s_xm_conflict::check(&t).iter().map(|e| e.line_num).collect();
    let mut b: Vec<usize> = s_xm_consistency::check(&t).iter().map(|e| e.line_num).collect();
    a.sort();
    b.sort();
    assert_eq!(a, vec![1, 2, 3, 4, 5]);
    assert_eq!(a, b);
}

#[test]
fn single_sections() {
    let t = singles(&[
        ('甲', "dka"),
        ('乙', "d"),
        ('乙', "dk"),
        ('乙', "dkao"),
        ('乙', "dkio"),
        ('丙', "fek"),
    ]);
    let mut report = Vec::new();
    assert_eq!(check_s_xm_conflict(&t, &mut report), 4);
    assert_eq!(check_s_redundancy(&t, &mut report), 2);
    assert_eq!(check_s_fj_absence(&t, &mut report), 1);
    assert_eq!(check_s_qm_orphan(&t, &mut report), 1);
    assert_eq!(check_s_jm_collision(&t, &mut report), 0);
    assert_eq!(check_s_jm_vacancy(&t, &mut report), 0);
    let expected = section("单字形码段冲突", &["第2行：'乙\td'", "第3行：'乙\tdk'", "第4行：'乙\tdkao'", "第5行：'乙\tdkio'"])
        + &section("单字词条冗余", &["第4行：'乙\tdkao'", "第5行：'乙\tdkio'"])
        + &section("单字孤立飞键", &["第6行：'丙\tfek'"])
        + &section("单字孤立全码", &["第6行：'丙\tfek'"]);
    assert_eq!(String::from_utf8(report).unwrap(), expected);
}

#[test]
fn short_code_sections() {
    let t = singles(&[('甲', "d"), ('甲', "dka"), ('乙', "d"), ('丙', "hk"), ('丙', "hkl"), ('丁', "jkl")]);
    let mut report = Vec::new();
    assert_eq!(check_s_jm_collision(&t, &mut report), 1);
    assert_eq!(check_s_jm_vacancy(&t, &mut report), 1);
    assert_eq!(check_s_qm_orphan(&t, &mut report), 1);
    let text = String::from_utf8(report).unwrap();
    let expected = section("单字简码重码", &["d"]) + &section("单字简码空码", &["h"]) + &section("单字孤立全码", &["第6行：'丁\tjkl'"]);
    assert_eq!(text, expected);
}

#[test]
fn phrase_sections() {
    let s = singles(&[('中', "zka"), ('国', "gbi")]);
    let stems = get_stems(&s).unwrap();
    let p = phrases(&[("中国", "fezk"), ("中国", "zkgb"), ("中国", "zkgba")]);
    let mut report = Vec::new();
    assert_eq!(check_p_redundancy(&p, &mut report), 1);
    assert_eq!(check_p_on_s_anomaly(&p, &stems, &mut report), 1);
    assert_eq!(check_p_on_s_fj_incomplete(&p, &stems, &mut report), 1);
    let text = String::from_utf8(report).unwrap();
    let expected = section("词组词条冗余", &["第3行：'中国\tzkgba'"])
        + &section("词组无理码", &["第1行：'中国\tfezk'"])
        + &section("词组残缺飞键", &["第1行：'中国\tfezk'"]);
    assert_eq!(text, expected);
}
