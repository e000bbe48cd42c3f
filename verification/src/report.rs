//! Reports: a section per check that found something, a heading line and
//! one line per item, appended to the report's bytes.

use crate::checks::{p_format, p_vacancy, s_format};
use crate::entry::{describe_spec, Entry, Phrase, Single};
use crate::order::{bytes_le, code_of, sorted_by};
use crate::text::push_char;
use vstd::prelude::*;
use vstd::string::{StrSliceExecFns, StringExecFns, StringSliceAdditionalSpecFns};
use vstd::utf8::encode_utf8;

verus! {

broadcast use vstd::seq_lib::group_seq_properties;

/// `n` equal signs.
pub open spec fn rule(n: nat) -> Seq<char> {
    Seq::new(n, |i: int| '=')
}

/// The heading of a section: the title between two rules, so that the
/// line is about 32 columns wide (a CJK character taking two).
pub open spec fn heading(title: Seq<char>) -> Seq<char> {
    let k = ((32 - 2 * title.len()) / 2) as nat;
    rule(k) + title + rule(k) + seq!['\n']
}

/// Each item on a line of its own.
pub open spec fn item_lines(items: Seq<Seq<char>>) -> Seq<char>
    decreases items.len(),
{
    if items.len() == 0 {
        Seq::empty()
    } else {
        item_lines(items.drop_last()) + items.last() + seq!['\n']
    }
}

/// The section of a check: nothing when it found nothing, else the heading
/// and the items.
pub open spec fn section(title: Seq<char>, items: Seq<Seq<char>>) -> Seq<char> {
    if items.len() == 0 {
        Seq::empty()
    } else {
        heading(title) + item_lines(items)
    }
}

/// The characters of each string.
pub open spec fn texts(items: Seq<String>) -> Seq<Seq<char>> {
    items.map_values(|s: String| s@)
}

/// Appends the section of `items` under `title` to the report; the number
/// of items.
pub fn report_items(report: &mut Vec<u8>, title: &str, items: &Vec<String>) -> (n: usize)
    requires
        title@.len() <= 16,
    ensures
        n == items@.len(),
        final(report)@ == old(report)@ + encode_utf8(section(title@, texts(items@))),
{
    if items.len() == 0 {
        assert(encode_utf8(section(title@, texts(items@))) =~= Seq::<u8>::empty());
        assert(old(report)@ + Seq::<u8>::empty() =~= old(report)@);
        return 0;
    }
    let k = (32 - 2 * title.unicode_len()) / 2;
    let mut s = String::new();
    let mut i: usize = 0;
    while i < k
        invariant
            i <= k,
            s@ == rule(i as nat),
        decreases k - i,
    {
        push_char(&mut s, '=');
        assert(s@ =~= rule((i + 1) as nat));
        i += 1;
    }
    s.append(title);
    let mut i: usize = 0;
    let ghost left = s@;
    while i < k
        invariant
            i <= k,
            s@ == left + rule(i as nat),
        decreases k - i,
    {
        push_char(&mut s, '=');
        assert(s@ =~= left + rule((i + 1) as nat));
        i += 1;
    }
    push_char(&mut s, '\n');
    assert(s@ =~= heading(title@));
    let mut j: usize = 0;
    while j < items.len()
        invariant
            j <= items@.len(),
            s@ == heading(title@) + item_lines(texts(items@).take(j as int)),
        decreases items.len() - j,
    {
        s.append(items[j].as_str());
        push_char(&mut s, '\n');
        proof {
            let t = texts(items@);
            assert(t.take(j + 1).drop_last() =~= t.take(j as int));
            assert(s@ =~= heading(title@) + item_lines(t.take(j + 1)));
        }
        j += 1;
    }
    assert(texts(items@).take(items@.len() as int) =~= texts(items@));
    let ghost before = report@;
    report.extend_from_slice(s.as_str().as_bytes());
    assert(report@ =~= before + encode_utf8(s@));
    items.len()
}

/// How each entry shows in a report.
pub fn describe_all<T: crate::entry::EntryText>(entries: &Vec<&Entry<T>>) -> (r: Vec<String>)
    ensures
        texts(r@) == entries@.map_values(|e: &Entry<T>| describe_spec(*e)),
{
    let mut r: Vec<String> = Vec::new();
    let mut i: usize = 0;
    while i < entries.len()
        invariant
            i <= entries@.len(),
            texts(r@) == entries@.take(i as int).map_values(|e: &Entry<T>| describe_spec(*e)),
        decreases entries.len() - i,
    {
        let ghost old_r = r@;
        r.push(entries[i].describe());
        assert(texts(r@) =~= texts(old_r).push(describe_spec(*entries@[i as int])));
        assert(entries@.take(i + 1).map_values(|e: &Entry<T>| describe_spec(*e)) =~= entries@.take(
            i as int,
        ).map_values(|e: &Entry<T>| describe_spec(*e)).push(describe_spec(*entries@[i as int])));
        i += 1;
    }
    assert(entries@.take(entries@.len() as int) =~= entries@);
    r
}

/// Each string, owned.
pub fn owned_all(items: &Vec<&str>) -> (r: Vec<String>)
    ensures
        texts(r@) == items@.map_values(|s: &str| s@),
{
    let mut r: Vec<String> = Vec::new();
    let mut i: usize = 0;
    while i < items.len()
        invariant
            i <= items@.len(),
            texts(r@) == items@.take(i as int).map_values(|s: &str| s@),
        decreases items.len() - i,
    {
        let ghost old_r = r@;
        r.push(items[i].to_owned());
        assert(texts(r@) =~= texts(old_r).push(items@[i as int]@));
        assert(items@.take(i + 1).map_values(|s: &str| s@) =~= items@.take(i as int).map_values(|s: &str| s@).push(
            items@[i as int]@,
        ));
        i += 1;
    }
    assert(items@.take(items@.len() as int) =~= items@);
    r
}

/// Checks the forms of the codes of single characters and appends the
/// section `单字编码形式异常`; the number of entries reported.
pub fn check_s_format(singles: &[Single], report: &mut Vec<u8>) -> (n: usize)
    ensures
        n == singles@.filter(|e: Single| !s_format::valid_spec(code_of(e))).len(),
        final(report)@ == old(report)@ + encode_utf8(
            section(
                "单字编码形式异常"@,
                singles@.filter(|e: Single| !s_format::valid_spec(code_of(e))).map_values(
                    |e: Single| describe_spec(e),
                ),
            ),
        ),
{
    let found = s_format::check(singles);
    let items = describe_all(&found);
    proof {
        reveal_strlit("单字编码形式异常");
        let f = |e: &Single| *e;
        let d = |e: Single| describe_spec(e);
        assert(found@.map_values(|e: &Single| describe_spec(*e)) =~= found@.map_values(f).map_values(d));
    }
    report_items(report, "单字编码形式异常", &items)
}

/// Checks the forms of the codes of phrases and appends the section
/// `词组编码形式异常`; the number of phrases reported.
pub fn check_p_format(phrases: &[Phrase], report: &mut Vec<u8>) -> (n: usize)
    ensures
        n == phrases@.filter(|e: Phrase| !p_format::valid_spec(code_of(e), e.text@)).len(),
        final(report)@ == old(report)@ + encode_utf8(
            section(
                "词组编码形式异常"@,
                phrases@.filter(|e: Phrase| !p_format::valid_spec(code_of(e), e.text@)).map_values(
                    |e: Phrase| describe_spec(e),
                ),
            ),
        ),
{
    let found = p_format::check(phrases);
    let items = describe_all(&found);
    proof {
        reveal_strlit("词组编码形式异常");
        let f = |e: &Phrase| *e;
        let d = |e: Phrase| describe_spec(e);
        assert(found@.map_values(|e: &Phrase| describe_spec(*e)) =~= found@.map_values(f).map_values(d));
    }
    report_items(report, "词组编码形式异常", &items)
}

/// The vacant phrase codes, as `p_vacancy::check` returns them.
pub open spec fn vacancies_listed(ps: Seq<Phrase>, r: Seq<&str>) -> bool {
    &&& forall|q: int| 0 <= q < r.len() ==> p_vacancy::vacant(ps, (#[trigger] r[q]).spec_bytes())
    &&& forall|p: Seq<u8>| p_vacancy::vacant(ps, p) ==> exists|q: int| 0 <= q < r.len() && (#[trigger] r[q]).spec_bytes() == p
    &&& forall|a: int, b: int| 0 <= a < b < r.len() ==> (#[trigger] r[a]).spec_bytes() != (#[trigger] r[b]).spec_bytes()
    &&& sorted_by(r, |a: &str, b: &str| bytes_le(encode_utf8(a@), encode_utf8(b@)))
}

/// Looks for vacant phrase codes and appends the section `空码`; the number
/// of codes reported.
pub fn check_p_vacancy(phrases: &[Phrase], report: &mut Vec<u8>) -> (n: usize)
    requires
        p_vacancy::keyed_phrases(phrases@),
    ensures
        exists|r: Seq<&str>|
            #[trigger] vacancies_listed(phrases@, r) && n == r.len() && final(report)@ == old(report)@ + encode_utf8(
                section("空码"@, r.map_values(|s: &str| s@)),
            ),
{
    let found = p_vacancy::check(phrases);
    let items = owned_all(&found);
    proof {
        reveal_strlit("空码");
    }
    let n = report_items(report, "空码", &items);
    assert(vacancies_listed(phrases@, found@));
    n
}

} // verus!
