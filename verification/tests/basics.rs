use keytao_checker::cli::Args;
use keytao_checker::entry::{Entry, Phrase, Single};
use keytao_checker::keys::{append_key, code_key, pack_pair};
use keytao_checker::keytao::{is_xm, is_ym, phrase_min_code_len, stem};
use keytao_checker::reader::{load_dict, split_header, validate_header};
use keytao_checker::report::{describe_all, owned_all, report_items};
use keytao_checker::text::{decimal, is_blank, str_eq, trim_end};

fn strings(v: &[&str]) -> Vec<String> {
    v.iter().map(|s| s.to_string()).collect()
}

#[test]
fn single_entry_parses_text_and_code() {
    let e = Single::parse(3, "中\tzk\t100").unwrap().unwrap();
    assert_eq!(e.line_num, 3);
    assert_eq!(e.line, "中\tzk\t100");
    assert_eq!(e.text, '中');
    assert_eq!(e.code, "zk");
}

#[test]
fn phrase_entry_parses_without_weight() {
    let e = Phrase::parse(7, "中国\tzkgb").unwrap().unwrap();
    assert_eq!(e.text, "中国");
    assert_eq!(e.code, "zkgb");
    assert_eq!(e.line_num, 7);
}

#[test]
fn blank_and_comment_lines_give_no_entry() {
    assert!(Single::parse(1, "").unwrap().is_none());
    assert!(Single::parse(1, "# 注释").unwrap().is_none());
    assert!(Phrase::parse(1, "#").unwrap().is_none());
}

#[test]
fn entry_errors() {
    assert_eq!(Single::parse(1, " \tzk").err().unwrap(), "缺失文本");
    assert_eq!(Single::parse(1, "\tzk").err().unwrap(), "缺失文本");
    assert_eq!(Single::parse(1, "中国\tzk").err().unwrap(), "文本不是单字");
    assert_eq!(Phrase::parse(1, "中\tzk").err().unwrap(), "文本不是词组");
    assert_eq!(Single::parse(1, "中").err().unwrap(), "缺失编码");
    assert_eq!(Single::parse(1, "中\t ").err().unwrap(), "缺失编码");
    assert_eq!(Single::parse(1, "中\t\t1").err().unwrap(), "缺失编码");
}

#[test]
fn describe_shows_line_number_and_line() {
    let e = Single::parse(3, "中\tzk").unwrap().unwrap();
    assert_eq!(e.describe(), "第3行：'中\tzk'");
    let e = Single::parse(120, "国\tgb").unwrap().unwrap();
    assert_eq!(e.describe(), "第120行：'国\tgb'");
}

#[test]
fn describe_all_keeps_order() {
    let a = Single::parse(1, "中\tzk").unwrap().unwrap();
    let b = Single::parse(2, "国\tgb").unwrap().unwrap();
    let v: Vec<&Single> = vec![&b, &a];
    assert_eq!(describe_all(&v), vec!["第2行：'国\tgb'".to_string(), "第1行：'中\tzk'".to_string()]);
    assert_eq!(owned_all(&vec!["ab", "c"]), strings(&["ab", "c"]));
}

#[test]
fn shape_and_sound_elements() {
    for c in [b'a', b'i', b'o', b'u', b'v'] {
        assert!(is_xm(c));
        assert!(!is_ym(c));
    }
    assert!(is_ym(b'b'));
    assert!(is_ym(b'z'));
    assert!(!is_ym(b'A'));
    assert!(!is_xm(b'1'));
}

#[test]
fn stem_takes_three_bytes() {
    assert_eq!(stem("zkao"), Some([b'z', b'k', b'a']));
    assert_eq!(stem("zka"), Some([b'z', b'k', b'a']));
    assert_eq!(stem("zk"), None);
    assert_eq!(stem(""), None);
}

#[test]
fn phrase_min_code_len_by_length() {
    assert_eq!(phrase_min_code_len("中国人"), 3);
    assert_eq!(phrase_min_code_len("中国"), 4);
    assert_eq!(phrase_min_code_len("中华人民"), 4);
}

#[test]
fn args_single_only() {
    match Args::parse(strings(&["-s", "a.yaml"])).unwrap() {
        Args::SingleOnly(p) => assert_eq!(p, "a.yaml"),
        _ => panic!("wrong variant"),
    }
}

#[test]
fn args_phrase_only() {
    match Args::parse(strings(&["-p", "b.yaml"])).unwrap() {
        Args::PhraseOnly(p) => assert_eq!(p, "b.yaml"),
        _ => panic!("wrong variant"),
    }
}

#[test]
fn args_both_single_first() {
    match Args::parse(strings(&["s.yaml", "p.yaml"])).unwrap() {
        Args::Both { phrase, single } => {
            assert_eq!(single, "s.yaml");
            assert_eq!(phrase, "p.yaml");
        }
        _ => panic!("wrong variant"),
    }
}

#[test]
fn args_wrong_count() {
    let msg = "参数无效。用法参见 README。";
    assert_eq!(Args::parse(vec![]).err().unwrap(), msg);
    assert_eq!(Args::parse(strings(&["-s"])).err().unwrap(), msg);
    assert_eq!(Args::parse(strings(&["-s", "a", "b"])).err().unwrap(), msg);
}

#[test]
fn report_items_writes_heading_and_lines() {
    let mut report = b"x\n".to_vec();
    let n = report_items(&mut report, "空码", &strings(&["zgr", "zgra"]));
    assert_eq!(n, 2);
    let eq = "=".repeat(14);
    let expected = format!("x\n{eq}空码{eq}\nzgr\nzgra\n");
    assert_eq!(String::from_utf8(report).unwrap(), expected);
}

#[test]
fn report_items_long_title() {
    let mut report = Vec::new();
    report_items(&mut report, "单字编码形式异常", &strings(&["a"]));
    let eq = "=".repeat(8);
    assert_eq!(String::from_utf8(report).unwrap(), format!("{eq}单字编码形式异常{eq}\na\n"));
}

#[test]
fn report_items_nothing_found() {
    let mut report = b"keep".to_vec();
    let n = report_items(&mut report, "空码", &Vec::new());
    assert_eq!(n, 0);
    assert_eq!(report, b"keep".to_vec());
}

#[test]
fn text_helpers() {
    assert!(is_blank(""));
    assert!(is_blank(" \t\u{3000}"));
    assert!(!is_blank(" a "));
    assert_eq!(trim_end("ab \t\r"), "ab");
    assert_eq!(trim_end("  "), "");
    assert!(str_eq("键道", "键道"));
    assert!(!str_eq("键道", "键"));
    assert_eq!(decimal(0), "0");
    assert_eq!(decimal(907), "907");
}

#[test]
fn keys_are_base_27() {
    assert_eq!(append_key(0, b'a'), 1);
    assert_eq!(append_key(1, b'b'), 29);
    assert_eq!(code_key(b"ab"), 29);
    assert_eq!(code_key(b""), 0);
    assert_eq!(code_key(b"z"), 26);
    assert_ne!(code_key(b"a"), code_key(b"aa"));
    assert_eq!(pack_pair('中', 29), ((('中' as u64) << 32) | 29));
}

fn header(columns: &str) -> Vec<String> {
    let mut v = strings(&["# 键道", "---", "name: keytao", "version: \"1\""]);
    if !columns.is_empty() {
        v.push(columns.to_string());
    }
    v.push("...".to_string());
    v
}

#[test]
fn split_header_stops_at_dots() {
    let lines = strings(&["---", "name: a  ", "...  ", "中\tzk"]);
    let (h, k) = split_header(&lines);
    assert_eq!(k, 3);
    assert_eq!(h, "---\nname: a\n...\n");
}

#[test]
fn header_validation() {
    assert!(validate_header("---\nname: a\nversion: \"0.1\"\n...\n").is_ok());
    assert!(validate_header("name: a\nversion: b\ncolumns: [text, code, weight]\n").is_ok());
    assert_eq!(
        validate_header("version: b\n").err().unwrap(),
        "YAML 头中的 name 缺失或不是字符串。"
    );
    assert_eq!(
        validate_header("name: a\n").err().unwrap(),
        "YAML 头中的 version 缺失或不是字符串。"
    );
    assert_eq!(
        validate_header("name: a\nversion: b\ncolumns: text\n").err().unwrap(),
        "YAML 头中的 columns 不是列表。"
    );
    assert_eq!(
        validate_header("name: a\nversion: b\ncolumns: [text, code]\n").err().unwrap(),
        "YAML 头中的 columns 不是 [text, code, weight]"
    );
    assert_eq!(validate_header("").err().unwrap(), "YAML 头为空。");
    assert!(validate_header("name: [a\n").err().unwrap().starts_with("YAML 头解析失败："));
}

#[test]
fn load_dict_reads_entries_after_header() {
    let mut lines = header("columns: [text, code, weight]");
    lines.extend(strings(&["", "中\tzk\t10  ", "# x", "国\tgbi"]));
    let d: Vec<Single> = load_dict(&lines).unwrap();
    assert_eq!(d.len(), 2);
    assert_eq!(d[0].line_num, 8);
    assert_eq!(d[0].line, "中\tzk\t10");
    assert_eq!(d[0].code, "zk");
    assert_eq!(d[1].line_num, 10);
    assert_eq!(d[1].text, '国');
}

#[test]
fn load_dict_reports_line_errors() {
    let mut lines = header("");
    lines.extend(strings(&["中\tzk", "国"]));
    let r: Result<Vec<Single>, String> = load_dict(&lines);
    assert_eq!(r.err().unwrap(), "第 7 行：缺失编码");
}

#[test]
fn load_dict_empty_table() {
    let mut lines = header("");
    lines.push("# 空".to_string());
    let r: Result<Vec<Phrase>, String> = load_dict(&lines);
    assert_eq!(r.err().unwrap(), "码表为空");
}

#[test]
fn load_dict_bad_header() {
    let lines = strings(&["---", "name: a", "...", "中国\tzkgb"]);
    let r: Result<Vec<Phrase>, String> = load_dict(&lines);
    assert_eq!(r.err().unwrap(), "YAML 头中的 version 缺失或不是字符串。");
}

#[test]
fn entry_fields_are_public() {
    let e: Entry<char> = Entry { line_num: 1, line: "中\tzk".to_string(), text: '中', code: "zk".to_string() };
    assert_eq!(e.describe(), "第1行：'中\tzk'");
}
