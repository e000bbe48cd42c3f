//! Reading a code table: the YAML header between `---` and `...`, then one
//! entry per line.

use crate::entry::{parse_line_spec, Entry, EntryText};
use crate::text::{decimal, decimal_spec, str_eq, trim_end, trim_end_spec};
use saphyr::LoadableYamlNode;
use saphyr::Yaml;
use vstd::prelude::*;
use vstd::string::StringExecFns;

verus! {

/// The `columns` item of a header, as far as the checks read it.
pub enum Columns {
    /// No `columns` item.
    Absent,
    /// A `columns` item that is no list.
    NotList,
    /// A list; each item is `Some(s)` for a string `s`, `None` otherwise.
    List(Vec<Option<String>>),
}

/// What the header check reads of the first YAML document of a header.
pub struct HeaderFields {
    /// `name` is present and a string.
    pub has_name: bool,
    /// `version` is present and a string.
    pub has_version: bool,
    /// The `columns` item.
    pub columns: Columns,
}

/// The `columns` item as plain values.
pub enum ColumnsSpec {
    Absent,
    NotList,
    List(Seq<Option<Seq<char>>>),
}

/// The fields of a header as plain values: `name` and `version` present as
/// strings, and the `columns` item.
pub open spec fn fields_view(f: HeaderFields) -> (bool, bool, ColumnsSpec) {
    (
        f.has_name,
        f.has_version,
        match f.columns {
            Columns::Absent => ColumnsSpec::Absent,
            Columns::NotList => ColumnsSpec::NotList,
            Columns::List(cols) => ColumnsSpec::List(
                cols@.map_values(
                    |c: Option<String>|
                        match c {
                            Some(s) => Some(s@),
                            None => None,
                        },
                ),
            ),
        },
    )
}

/// A parsed header as plain values: the scanner's message when it fails,
/// `None` when there is no document, else the fields of the first one.
pub open spec fn parsed_view(r: Result<Option<HeaderFields>, String>) -> Result<
    Option<(bool, bool, ColumnsSpec)>,
    Seq<char>,
> {
    match r {
        Err(m) => Err(m@),
        Ok(None) => Ok(None),
        Ok(Some(f)) => Ok(Some(fields_view(f))),
    }
}

/// What saphyr makes of the YAML text `s`, read as `parse_header` reads it.
pub uninterp spec fn yaml_header(s: Seq<char>) -> Result<Option<(bool, bool, ColumnsSpec)>, Seq<char>>;

/// `Yaml::load_from_str` (saphyr), then the first document read through
/// `as_mapping_get`, `as_str` and `as_vec`: whether `name` and `version` are
/// strings, and what `columns` is; on a scan error, the error's message
/// (its `Display`). The result is named, not stated: it is saphyr's parse of
/// `s`, and depends on `s` alone.
#[verifier::external_body]
fn parse_header(s: &str) -> (r: Result<Option<HeaderFields>, String>)
    ensures
        parsed_view(r) == yaml_header(s@),
{
    let docs = Yaml::load_from_str(s).map_err(|e| e.to_string())?;
    let doc = match docs.first() {
        Some(d) => d,
        None => return Ok(None),
    };
    let has = |k: &str| doc.as_mapping_get(k).and_then(Yaml::as_str).is_some();
    let columns = match doc.as_mapping_get("columns").map(Yaml::as_vec) {
        None => Columns::Absent,
        Some(None) => Columns::NotList,
        Some(Some(v)) => Columns::List(v.iter().map(|y| y.as_str().map(String::from)).collect()),
    };
    Ok(Some(HeaderFields { has_name: has("name"), has_version: has("version"), columns }))
}

/// The columns list is exactly `[text, code, weight]`.
pub open spec fn columns_expected(cols: Seq<Option<Seq<char>>>) -> bool {
    &&& cols.len() == 3
    &&& cols[0] == Some("text"@)
    &&& cols[1] == Some("code"@)
    &&& cols[2] == Some("weight"@)
}

/// What the header check answers for the fields of a header.
pub open spec fn header_check_spec(f: (bool, bool, ColumnsSpec)) -> Result<(), Seq<char>> {
    if !f.0 {
        Err("YAML 头中的 name 缺失或不是字符串。"@)
    } else if !f.1 {
        Err("YAML 头中的 version 缺失或不是字符串。"@)
    } else {
        match f.2 {
            ColumnsSpec::Absent => Ok(()),
            ColumnsSpec::NotList => Err("YAML 头中的 columns 不是列表。"@),
            ColumnsSpec::List(cols) => if columns_expected(cols) {
                Ok(())
            } else {
                Err("YAML 头中的 columns 不是 [text, code, weight]"@)
            },
        }
    }
}

fn is_str(s: &Option<String>, expected: &str) -> (r: bool)
    ensures
        r == (match s {
            Some(a) => Some(a@),
            None => None,
        } == Some(expected@)),
{
    match s {
        Some(a) => str_eq(a.as_str(), expected),
        None => false,
    }
}

/// Checks the fields of a header: `name` and `version` must be strings, and
/// `columns`, where present, must be the list `[text, code, weight]`.
pub fn check_header_fields(f: &HeaderFields) -> (r: Result<(), String>)
    ensures
        match header_check_spec(fields_view(*f)) {
            Ok(()) => r is Ok,
            Err(m) => r matches Err(msg) && msg@ == m,
        },
{
    if !f.has_name {
        return Err("YAML 头中的 name 缺失或不是字符串。".to_owned());
    }
    if !f.has_version {
        return Err("YAML 头中的 version 缺失或不是字符串。".to_owned());
    }
    match &f.columns {
        Columns::Absent => Ok(()),
        Columns::NotList => Err("YAML 头中的 columns 不是列表。".to_owned()),
        Columns::List(cols) => {
            proof {
                reveal_strlit("text");
                reveal_strlit("code");
                reveal_strlit("weight");
            }
            if cols.len() == 3 && is_str(&cols[0], "text") && is_str(&cols[1], "code") && is_str(
                &cols[2],
                "weight",
            ) {
                Ok(())
            } else {
                Err("YAML 头中的 columns 不是 [text, code, weight]".to_owned())
            }
        },
    }
}

/// What validating a header gives for what the parse gave.
pub open spec fn header_verdict_spec(p: Result<Option<(bool, bool, ColumnsSpec)>, Seq<char>>) -> Result<
    (),
    Seq<char>,
> {
    match p {
        Err(e) => Err("YAML 头解析失败："@ + e),
        Ok(None) => Err("YAML 头为空。"@),
        Ok(Some(f)) => header_check_spec(f),
    }
}

/// The verdict on a parsed header: the scanner's error, an empty header, or
/// what `check_header_fields` says of the first document.
pub fn header_verdict(parsed: Result<Option<HeaderFields>, String>) -> (r: Result<(), String>)
    ensures
        match header_verdict_spec(parsed_view(parsed)) {
            Ok(()) => r is Ok,
            Err(m) => r matches Err(msg) && msg@ == m,
        },
{
    match parsed {
        Err(e) => {
            let mut m = "YAML 头解析失败：".to_owned();
            m.append(e.as_str());
            Err(m)
        },
        Ok(None) => Err("YAML 头为空。".to_owned()),
        Ok(Some(f)) => check_header_fields(&f),
    }
}

/// Validates the YAML header `s`: it must parse, hold a document, and that
/// document must pass `check_header_fields`.
pub fn validate_header(s: &str) -> (r: Result<(), String>)
    ensures
        match header_verdict_spec(yaml_header(s@)) {
            Ok(()) => r is Ok,
            Err(m) => r matches Err(msg) && msg@ == m,
        },
{
    header_verdict(parse_header(s))
}

/// Index just past the header: past the first line that reads `...` once
/// trailing white space is trimmed, or the number of lines when none does.
pub open spec fn header_end(lines: Seq<String>) -> int
    decreases lines.len(),
{
    if lines.len() == 0 {
        0
    } else if trim_end_spec(lines[0]@) == "..."@ {
        1
    } else {
        1 + header_end(lines.drop_first())
    }
}

/// The first `k` lines, each trimmed of trailing white space and ended by a
/// newline.
pub open spec fn header_text(lines: Seq<String>, k: int) -> Seq<char>
    decreases k,
{
    if k <= 0 {
        Seq::empty()
    } else {
        header_text(lines, k - 1) + trim_end_spec(lines[k - 1]@) + seq!['\n']
    }
}

proof fn lemma_header_end(lines: Seq<String>, k: int)
    requires
        0 <= k <= lines.len(),
        forall|j: int| 0 <= j < k ==> trim_end_spec(#[trigger] lines[j]@) != "..."@,
        k == lines.len() || trim_end_spec(lines[k]@) == "..."@,
    ensures
        header_end(lines) == if k == lines.len() {
            k
        } else {
            k + 1
        },
    decreases k,
{
    if k > 0 {
        let t = lines.drop_first();
        assert forall|j: int| 0 <= j < k - 1 implies trim_end_spec(#[trigger] t[j]@) != "..."@ by {
            assert(t[j] == lines[j + 1]);
        }
        lemma_header_end(t, k - 1);
    }
}

/// Splits off the header: its text, and the number of lines it takes.
pub fn split_header(lines: &Vec<String>) -> (r: (String, usize))
    ensures
        r.1 == header_end(lines@),
        r.0@ == header_text(lines@, r.1 as int),
{
    let mut header = String::new();
    let mut i: usize = 0;
    let n = lines.len();
    while i < n
        invariant
            n == lines@.len(),
            i <= n,
            forall|j: int| 0 <= j < i ==> trim_end_spec(#[trigger] lines@[j]@) != "..."@,
            header@ == header_text(lines@, i as int),
        decreases n - i,
    {
        let line = trim_end(lines[i].as_str());
        header.append(line.as_str());
        header.append("\n");
        proof {
            reveal_strlit("\n");
            assert(header@ =~= header_text(lines@, i + 1));
        }
        if str_eq(line.as_str(), "...") {
            proof {
                lemma_header_end(lines@, i as int);
            }
            return (header, i + 1);
        }
        i += 1;
    }
    proof {
        lemma_header_end(lines@, n as int);
    }
    (header, n)
}

/// The error for line number `line_num`: `第 <line_num> 行：<m>`.
pub open spec fn line_error(line_num: nat, m: Seq<char>) -> Seq<char> {
    "第 "@ + decimal_spec(line_num) + " 行："@ + m
}

/// The entries of lines `start..k` (line numbers count from 1): each line is
/// trimmed of trailing white space and parsed; the first line that fails
/// gives the error. An entry is `(line number, trimmed line, text, code)`.
pub open spec fn entries_spec<T: EntryText>(lines: Seq<String>, start: int, k: int) -> Result<
    Seq<(nat, Seq<char>, Seq<char>, Seq<char>)>,
    Seq<char>,
>
    decreases k - start,
{
    if k <= start {
        Ok(Seq::empty())
    } else {
        match entries_spec::<T>(lines, start, k - 1) {
            Err(m) => Err(m),
            Ok(es) => {
                let line = trim_end_spec(lines[k - 1]@);
                match parse_line_spec::<T>(line) {
                    Err(m) => Err(line_error(k as nat, m)),
                    Ok(None) => Ok(es),
                    Ok(Some((text, code))) => Ok(es.push((k as nat, line, text, code))),
                }
            },
        }
    }
}

/// An entry matches `(line number, line, text, code)`.
pub open spec fn entry_matches<T: EntryText>(
    e: Entry<T>,
    s: (nat, Seq<char>, Seq<char>, Seq<char>),
) -> bool {
    &&& e.line_num == s.0
    &&& e.line@ == s.1
    &&& e.text.chars_of() == s.2
    &&& e.code@ == s.3
}

/// Entries match their descriptions one for one.
pub open spec fn entries_match<T: EntryText>(
    es: Seq<Entry<T>>,
    ss: Seq<(nat, Seq<char>, Seq<char>, Seq<char>)>,
) -> bool {
    &&& es.len() == ss.len()
    &&& forall|i: int| 0 <= i < es.len() ==> entry_matches(#[trigger] es[i], ss[i])
}

/// What loading the lines after the header gives: the entries, an error for
/// the first line that does not parse, or `码表为空` when there is no entry.
pub open spec fn body_spec<T: EntryText>(lines: Seq<String>, start: int) -> Result<
    Seq<(nat, Seq<char>, Seq<char>, Seq<char>)>,
    Seq<char>,
> {
    match entries_spec::<T>(lines, start, lines.len() as int) {
        Err(m) => Err(m),
        Ok(es) => if es.len() == 0 {
            Err("码表为空"@)
        } else {
            Ok(es)
        },
    }
}

/// Parses the lines from `start` on into entries; fails on the first line
/// that does not parse, or when there is no entry at all.
pub fn load_entries<T: EntryText>(lines: &Vec<String>, start: usize) -> (r: Result<
    Vec<Entry<T>>,
    String,
>)
    requires
        lines@.len() < usize::MAX,
    ensures
        match body_spec::<T>(lines@, start as int) {
            Ok(ss) => r matches Ok(es) && entries_match(es@, ss),
            Err(m) => r matches Err(msg) && msg@ == m,
        },
{
    let n = lines.len();
    let mut dict: Vec<Entry<T>> = Vec::new();
    let mut i: usize = start;
    if i > n {
        i = n;
    }
    proof {
        assert(entries_spec::<T>(lines@, start as int, i as int) == Ok::<
            Seq<(nat, Seq<char>, Seq<char>, Seq<char>)>,
            Seq<char>,
        >(Seq::empty()));
    }
    while i < n
        invariant
            n == lines@.len(),
            n < usize::MAX,
            i <= n,
            start <= i || i == n,
            entries_spec::<T>(lines@, start as int, i as int) matches Ok(ss) && entries_match(
                dict@,
                ss,
            ),
        decreases n - i,
    {
        let ghost ss = entries_spec::<T>(lines@, start as int, i as int)->Ok_0;
        let line = trim_end(lines[i].as_str());
        match Entry::<T>::parse(i + 1, line.as_str()) {
            Ok(Some(e)) => {
                dict.push(e);
                proof {
                    let ss2 = entries_spec::<T>(lines@, start as int, i + 1)->Ok_0;
                    assert(ss2 == ss.push(ss2.last()));
                    assert forall|j: int| 0 <= j < dict@.len() implies entry_matches(
                        #[trigger] dict@[j],
                        ss2[j],
                    ) by {
                        if j < ss.len() {
                            assert(ss2[j] == ss[j]);
                        }
                    }
                }
            },
            Ok(None) => {},
            Err(m) => {
                let mut msg = "第 ".to_owned();
                msg.append(decimal(i + 1).as_str());
                msg.append(" 行：");
                msg.append(m.as_str());
                proof {
                    let k = i + 1;
                    assert(entries_spec::<T>(lines@, start as int, k as int) == Err::<
                        Seq<(nat, Seq<char>, Seq<char>, Seq<char>)>,
                        Seq<char>,
                    >(line_error(k as nat, m@)));
                    lemma_entries_err::<T>(lines@, start as int, k as int, n as int);
                }
                return Err(msg);
            },
        }
        i += 1;
    }
    if dict.len() == 0 {
        return Err("码表为空".to_owned());
    }
    Ok(dict)
}

proof fn lemma_entries_err<T: EntryText>(lines: Seq<String>, start: int, k: int, n: int)
    requires
        start < k <= n,
        entries_spec::<T>(lines, start, k) is Err,
    ensures
        entries_spec::<T>(lines, start, n) == entries_spec::<T>(lines, start, k),
    decreases n - k,
{
    if k < n {
        lemma_entries_err::<T>(lines, start, k, n - 1);
    }
}

/// Loads a code table from its lines: the header, up to the first line
/// `...`, is validated, then the remaining lines are parsed into entries.
/// The first failure is the error.
pub fn load_dict<T: EntryText>(lines: &Vec<String>) -> (r: Result<Vec<Entry<T>>, String>)
    requires
        lines@.len() < usize::MAX,
    ensures
        match header_verdict_spec(yaml_header(header_text(lines@, header_end(lines@)))) {
            Err(m) => r matches Err(msg) && msg@ == m,
            Ok(()) => match body_spec::<T>(lines@, header_end(lines@)) {
                Ok(ss) => r matches Ok(es) && entries_match(es@, ss),
                Err(m) => r matches Err(msg) && msg@ == m,
            },
        },
{
    let (header, start) = split_header(lines);
    match validate_header(header.as_str()) {
        Err(m) => Err(m),
        Ok(()) => load_entries(lines, start),
    }
}

} // verus!
