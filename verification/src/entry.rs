//! Entries of a code table: one line `text<TAB>code[<TAB>weight]`.

use crate::text::{all_white, decimal, decimal_spec, is_blank};
use vstd::prelude::*;
use vstd::string::StrSliceExecFns;

verus! {

/// What the text column of an entry may hold: a single character or a
/// phrase.
pub trait EntryText: Sized {
    /// Whether `s` is a text of this kind.
    spec fn accepts(s: Seq<char>) -> bool;

    /// The characters of a parsed text.
    spec fn chars_of(&self) -> Seq<char>;

    /// The name of this kind of text, for messages.
    spec fn kind_spec() -> Seq<char>;

    /// Parses the text column.
    fn parse(s: &str) -> (r: Option<Self>)
        ensures
            r is Some <==> Self::accepts(s@),
            r matches Some(t) ==> t.chars_of() == s@,
    ;

    /// The name of this kind of text.
    fn kind() -> (r: &'static str)
        ensures
            r@ == Self::kind_spec(),
    ;
}

impl EntryText for char {
    /// A single character: exactly one `char`.
    open spec fn accepts(s: Seq<char>) -> bool {
        s.len() == 1
    }

    open spec fn chars_of(&self) -> Seq<char> {
        seq![*self]
    }

    open spec fn kind_spec() -> Seq<char> {
        "单字"@
    }

    fn parse(s: &str) -> (r: Option<Self>) {
        if s.unicode_len() == 1 {
            let c = s.get_char(0);
            assert(seq![c] =~= s@);
            Some(c)
        } else {
            None
        }
    }

    fn kind() -> (r: &'static str) {
        "单字"
    }
}

impl EntryText for String {
    /// A phrase: at least two characters.
    open spec fn accepts(s: Seq<char>) -> bool {
        s.len() >= 2
    }

    open spec fn chars_of(&self) -> Seq<char> {
        self@
    }

    open spec fn kind_spec() -> Seq<char> {
        "词组"@
    }

    fn parse(s: &str) -> (r: Option<Self>) {
        if s.unicode_len() >= 2 {
            Some(s.to_owned())
        } else {
            None
        }
    }

    fn kind() -> (r: &'static str) {
        "词组"
    }
}

/// An entry of a code table.
pub struct Entry<T> {
    /// Line number, from 1.
    pub line_num: usize,
    /// The trimmed line.
    pub line: String,
    /// The text.
    pub text: T,
    /// The code.
    pub code: String,
}

/// An entry of the table of single characters.
pub type Single = Entry<char>;

/// An entry of the table of phrases.
pub type Phrase = Entry<String>;

/// Index of the first tab in `s`, or `s.len()` when there is none.
pub open spec fn first_tab(s: Seq<char>) -> int
    decreases s.len(),
{
    if s.len() == 0 {
        0
    } else if s[0] == '\t' {
        0
    } else {
        1 + first_tab(s.drop_first())
    }
}

/// The first tab-separated field of `s`.
pub open spec fn field0(s: Seq<char>) -> Seq<char> {
    s.take(first_tab(s))
}

/// The second tab-separated field of `s`, when `s` holds a tab.
pub open spec fn field1(s: Seq<char>) -> Option<Seq<char>> {
    if first_tab(s) < s.len() {
        let rest = s.skip(first_tab(s) + 1);
        Some(rest.take(first_tab(rest)))
    } else {
        None
    }
}

/// What parsing a trimmed line gives: no entry (blank or comment line), the
/// text and code columns of an entry, or an error message.
pub open spec fn parse_line_spec<T: EntryText>(line: Seq<char>) -> Result<
    Option<(Seq<char>, Seq<char>)>,
    Seq<char>,
> {
    if line.len() == 0 || line[0] == '#' {
        Ok(None)
    } else if all_white(field0(line)) {
        Err("缺失文本"@)
    } else if !T::accepts(field0(line)) {
        Err("文本不是"@ + T::kind_spec())
    } else {
        match field1(line) {
            None => Err("缺失编码"@),
            Some(code) => if all_white(code) {
                Err("缺失编码"@)
            } else {
                Ok(Some((field0(line), code)))
            },
        }
    }
}

pub proof fn lemma_first_tab(s: Seq<char>, k: int)
    requires
        0 <= k <= s.len(),
        forall|j: int| 0 <= j < k ==> s[j] != '\t',
        k == s.len() || s[k] == '\t',
    ensures
        first_tab(s) == k,
    decreases k,
{
    if k > 0 {
        lemma_first_tab(s.drop_first(), k - 1);
    }
}

proof fn lemma_first_tab_bound(s: Seq<char>)
    ensures
        0 <= first_tab(s) <= s.len(),
    decreases s.len(),
{
    if s.len() > 0 && s[0] != '\t' {
        lemma_first_tab_bound(s.drop_first());
    }
}

/// Index of the first tab in `s` at or after `from`, or `s.len()`.
fn find_tab(s: &str, n: usize, from: usize) -> (r: usize)
    requires
        n == s@.len(),
        from <= n,
    ensures
        first_tab(s@.skip(from as int)) == r - from,
        from <= r <= n,
{
    let mut i = from;
    while i < n && s.get_char(i) != '\t'
        invariant
            n == s@.len(),
            from <= i <= n,
            forall|j: int| from <= j < i ==> s@[j] != '\t',
        decreases n - i,
    {
        i += 1;
    }
    proof {
        let t = s@.skip(from as int);
        lemma_first_tab(t, i - from);
    }
    i
}

/// How a report shows an entry: `第<line number>行：'<line>'`.
pub open spec fn describe_spec<T>(e: Entry<T>) -> Seq<char> {
    "第"@ + decimal_spec(e.line_num as nat) + "行：'"@ + e.line@ + "'"@
}

impl<T: EntryText> Entry<T> {
    /// Parses a trimmed line of a code table into an entry; `Ok(None)` for a
    /// blank line or a comment.
    pub fn parse(line_num: usize, line: &str) -> (r: Result<Option<Self>, String>)
        ensures
            match parse_line_spec::<T>(line@) {
                Ok(None) => r matches Ok(None),
                Ok(Some((text, code))) => r matches Ok(Some(e)) && e.line_num == line_num
                    && e.line@ == line@ && e.text.chars_of() == text && e.code@ == code,
                Err(m) => r matches Err(msg) && msg@ == m,
            },
    {
        let n = line.unicode_len();
        if n == 0 || line.get_char(0) == '#' {
            return Ok(None);
        }
        let t0 = find_tab(line, n, 0);
        assert(line@.skip(0) =~= line@);
        let raw_text = line.substring_char(0, t0);
        if is_blank(raw_text) {
            return Err("缺失文本".to_owned());
        }
        let parsed = match T::parse(raw_text) {
            Some(t) => t,
            None => {
                let mut m = "文本不是".to_owned();
                m.append(T::kind());
                return Err(m);
            },
        };
        if t0 == n {
            return Err("缺失编码".to_owned());
        }
        let t1 = find_tab(line, n, t0 + 1);
        proof {
            let rest = line@.skip(t0 + 1);
            assert(rest.take(t1 - (t0 + 1)) =~= line@.subrange(t0 + 1, t1 as int));
        }
        let code = line.substring_char(t0 + 1, t1);
        if is_blank(code) {
            return Err("缺失编码".to_owned());
        }
        Ok(Some(Entry { line_num, line: line.to_owned(), text: parsed, code: code.to_owned() }))
    }

    /// How a report shows the entry: `第<line number>行：'<line>'`.
    pub fn describe(&self) -> (r: String)
        ensures
            r@ == describe_spec(*self),
    {
        let mut r = "第".to_owned();
        r.append(decimal(self.line_num).as_str());
        r.append("行：'");
        r.append(self.line.as_str());
        r.append("'");
        r
    }
}

} // verus!
