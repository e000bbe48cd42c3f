//! Properties that hold of the library as a whole: of every input, or
//! across several of its functions.

use crate::checks::p_format;
use crate::checks::p_on_s_fj_incomplete::full_alt_target_spec;
use crate::checks::s_format;
use crate::checks::s_fj_absence;
use crate::checks::p_on_s_fj_incomplete;
use crate::checks::p_on_s_fj_incomplete::seg_first_alt_spec;
use crate::checks::p_on_s_anomaly::{at, correct_spec, slot_ok_spec, stem_fits};
use crate::entry::Phrase;
use crate::alternate::{AltView, multi_parts, multi_status_spec, slot_spec, shifts, begins, Slot, definite_missing_spec, apply_spec, mask_bit, overwrite, pair_alt_at, pair_known, two_status_spec, Status};
use crate::entry::{lemma_first_tab, parse_line_spec, EntryText, Single};
use crate::keytao::{spec_is_xm, spec_is_ym, spec_phrase_min_code_len, spec_stem, Stem};
use crate::codesets::{numbered, num_orphan, orphan};
use crate::keys::{lemma_key_injective, letters};
use crate::order::code_of;
use crate::reader::{body_spec, entries_spec};
use crate::text::trim_end_spec;
use crate::shapes::conflicted;
use crate::stems::{has_stem, stem_of, stems_upto};
use crate::report::{heading, section};
use crate::text::all_white;
use vstd::prelude::*;

verus! {

/// `s` holds no tab.
pub open spec fn tab_free(s: Seq<char>) -> bool {
    forall|i: int| 0 <= i < s.len() ==> s[i] != '\t'
}

/// A table line written from a text and a code: `text<TAB>code`, followed
/// by nothing or by more tab-separated columns.
pub open spec fn written_line(text: Seq<char>, code: Seq<char>, rest: Seq<char>) -> Seq<char> {
    text + seq!['\t'] + code + rest
}

/// A line written from the text and the code of an entry reads back as
/// that text and that code, whatever columns follow the code: the text is
/// one of the kind the table holds, neither blank nor starting with `#`,
/// and neither text nor code holds a tab or is blank.
pub proof fn law_line_round_trip<T: EntryText>(text: Seq<char>, code: Seq<char>, rest: Seq<char>)
    requires
        T::accepts(text),
        tab_free(text),
        !all_white(text),
        text[0] != '#',
        tab_free(code),
        !all_white(code),
        rest.len() == 0 || rest[0] == '\t',
    ensures
        parse_line_spec::<T>(written_line(text, code, rest)) == Ok::<
            Option<(Seq<char>, Seq<char>)>,
            Seq<char>,
        >(Some((text, code))),
{
    let line = written_line(text, code, rest);
    assert(text.len() > 0);
    lemma_first_tab(line, text.len() as int);
    assert(line.take(text.len() as int) =~= text);
    let tail = line.skip(text.len() as int + 1);
    assert(tail =~= code + rest);
    lemma_first_tab(tail, code.len() as int);
    assert(tail.take(code.len() as int) =~= code);
}

/// Every fly-key pair has a partner; the partner of a partner is the pair
/// itself, except for `fh`, whose partner `qh` has none of its own.
pub proof fn law_fly_key_partners(a: u8, b: u8)
    ensures
        full_alt_target_spec(a, b) matches Some((c, d)) ==> if a == 0x66 && b == 0x68 {
            c == 0x71 && d == 0x68 && full_alt_target_spec(c, d) is None
        } else {
            full_alt_target_spec(c, d) == Some((a, b))
        },
{
}

/// A full code of a single character: two sound elements, then two to four
/// shape elements.
pub open spec fn full_single_code(f: Seq<u8>) -> bool {
    &&& 4 <= f.len() <= 6
    &&& spec_is_ym(f[0])
    &&& spec_is_ym(f[1])
    &&& forall|i: int| 2 <= i < f.len() ==> spec_is_xm(#[trigger] f[i])
}

/// `code` is a prefix of `f`.
pub open spec fn prefix_of(code: Seq<u8>, f: Seq<u8>) -> bool {
    code.len() <= f.len() && f.take(code.len() as int) == code
}

/// A code of a single character is well formed exactly when it is a
/// non-empty prefix of a full code `<2 sound elements><2 to 4 shape
/// elements>`.
pub proof fn law_single_code_form(code: Seq<u8>)
    ensures
        s_format::valid_spec(code) <==> code.len() >= 1 && exists|f: Seq<u8>|
            full_single_code(f) && #[trigger] prefix_of(code, f),
{
    if s_format::valid_spec(code) {
        let filler: Seq<u8> = seq![0x62u8, 0x62u8, 0x61u8, 0x61u8];
        let f = if code.len() >= 4 {
            code
        } else {
            code + filler.skip(code.len() as int)
        };
        assert(f.take(code.len() as int) =~= code);
        assert forall|i: int| 2 <= i < f.len() implies spec_is_xm(#[trigger] f[i]) by {
            if i >= code.len() {
                assert(f[i] == filler[i]);
            }
        }
        assert(full_single_code(f) && prefix_of(code, f));
    }
    if code.len() >= 1 && exists|f: Seq<u8>| full_single_code(f) && #[trigger] prefix_of(code, f) {
        let f = choose|f: Seq<u8>| full_single_code(f) && #[trigger] prefix_of(code, f);
        assert forall|i: int| 0 <= i < code.len() implies code[i] == f[i] by {
            assert(f.take(code.len() as int)[i] == f[i]);
        }
    }
}

/// A full code of a phrase whose shortest code has `m` bytes: `m` sound
/// elements, then shape elements up to six bytes in all.
pub open spec fn full_phrase_code(f: Seq<u8>, m: int) -> bool {
    &&& f.len() == 6
    &&& forall|i: int| 0 <= i < m ==> spec_is_ym(#[trigger] f[i])
    &&& forall|i: int| m <= i < 6 ==> spec_is_xm(#[trigger] f[i])
}

/// A phrase code is well formed exactly when it is a prefix of the full
/// code `<4 sound elements><2 shape elements>` (for a phrase of three
/// characters `<3 sound elements><3 shape elements>`) at least as long as
/// the phrase's shortest code.
pub proof fn law_phrase_code_form(code: Seq<u8>, text: Seq<char>)
    ensures
        p_format::valid_spec(code, text) <==> code.len() >= spec_phrase_min_code_len(text) && exists|f: Seq<u8>|
            full_phrase_code(f, spec_phrase_min_code_len(text) as int) && #[trigger] prefix_of(code, f),
{
    let m = spec_phrase_min_code_len(text) as int;
    if p_format::valid_spec(code, text) {
        let filler = Seq::new(6, |i: int| if i < m { 0x62u8 } else { 0x61u8 });
        let f = code + filler.skip(code.len() as int);
        assert(f.take(code.len() as int) =~= code);
        assert forall|i: int| 0 <= i < m implies spec_is_ym(#[trigger] f[i]) by {
            if i >= code.len() {
                assert(f[i] == filler[i]);
            }
        }
        assert forall|i: int| m <= i < 6 implies spec_is_xm(#[trigger] f[i]) by {
            if i >= code.len() {
                assert(f[i] == filler[i]);
            }
        }
        assert(full_phrase_code(f, m) && prefix_of(code, f));
    }
    if code.len() >= m && exists|f: Seq<u8>| full_phrase_code(f, m) && #[trigger] prefix_of(code, f) {
        let f = choose|f: Seq<u8>| full_phrase_code(f, m) && #[trigger] prefix_of(code, f);
        assert forall|i: int| 0 <= i < code.len() implies code[i] == f[i] by {
            assert(f.take(code.len() as int)[i] == f[i]);
        }
    }
}

/// A check adds nothing to the report exactly when it found nothing, so
/// the report stays empty exactly when no check found anything.
pub proof fn law_section_empty(title: Seq<char>, items: Seq<Seq<char>>)
    ensures
        section(title, items).len() == 0 <==> items.len() == 0,
{
    if items.len() > 0 {
        assert(heading(title).len() > 0);
    }
}

/// Some entry among the first `k` has text `c` and a code whose stem is
/// `s`.
pub open spec fn stem_source(singles: Seq<Single>, k: int, c: char, s: Seq<u8>) -> bool {
    exists|i: int| 0 <= i < k && singles[i].text == c && #[trigger] spec_stem(code_of(singles[i])) == Some(s)
}

/// No stem occurs twice in `stems`.
pub open spec fn distinct_stems(stems: Seq<Stem>) -> bool {
    forall|a: int, b: int| 0 <= a < b < stems.len() ==> (#[trigger] stems[a])@ != (#[trigger] stems[b])@
}

proof fn lemma_stems_upto(singles: Seq<Single>, k: int, c: char, s: Seq<u8>)
    requires
        0 <= k <= singles.len(),
    ensures
        ({
            let m = stems_upto(singles, k);
            m.contains_key(c) && has_stem(m[c], s)
        }) <==> stem_source(singles, k, c, s),
        stems_upto(singles, k).contains_key(c) ==> distinct_stems(stems_upto(singles, k)[c]),
    decreases k,
{
    if k > 0 {
        lemma_stems_upto(singles, k - 1, c, s);
        let m = stems_upto(singles, k - 1);
        let e = singles[k - 1];
        if let Some(s0) = spec_stem(code_of(e)) {
            let a: Stem = [s0[0], s0[1], s0[2]];
            assert(a@ =~= s0);
            assert(stem_of(s0)@ == s0);
            let old_stems = if m.contains_key(e.text) {
                m[e.text]
            } else {
                Seq::empty()
            };
            if e.text == c {
                lemma_stems_upto(singles, k - 1, c, s0);
                if !has_stem(old_stems, s0) {
                    let n = old_stems.push(stem_of(s0));
                    assert(has_stem(n, s) <==> has_stem(old_stems, s) || s == s0) by {
                        if has_stem(n, s) {
                            let j = choose|j: int| 0 <= j < n.len() && (#[trigger] n[j])@ == s;
                            if j < old_stems.len() {
                                assert(old_stems[j] == n[j]);
                            }
                        }
                        if has_stem(old_stems, s) {
                            let j = choose|j: int| 0 <= j < old_stems.len() && (#[trigger] old_stems[j])@ == s;
                            assert(n[j] == old_stems[j]);
                        }
                        if s == s0 {
                            assert(n[n.len() - 1]@ == s);
                        }
                    }
                } else {
                    if s == s0 {
                        assert(stem_source(singles, k - 1, c, s0));
                    }
                }
            }
            if stem_source(singles, k, c, s) && !stem_source(singles, k - 1, c, s) {
                let i = choose|i: int|
                    0 <= i < k && singles[i].text == c && #[trigger] spec_stem(code_of(singles[i])) == Some(s);
                assert(i == k - 1);
            }
        } else {
            if stem_source(singles, k, c, s) {
                let i = choose|i: int|
                    0 <= i < k && singles[i].text == c && #[trigger] spec_stem(code_of(singles[i])) == Some(s);
                assert(i < k - 1);
            }
        }
    }
}

/// The stems gathered from a table are, per character, exactly the first
/// three bytes of its codes of three bytes or more, none of them twice.
pub proof fn law_stems_exact(singles: Seq<Single>, c: char, s: Seq<u8>)
    ensures
        ({
            let m = stems_upto(singles, singles.len() as int);
            m.contains_key(c) && has_stem(m[c], s)
        }) <==> stem_source(singles, singles.len() as int, c, s),
        stems_upto(singles, singles.len() as int).contains_key(c) ==> distinct_stems(
            stems_upto(singles, singles.len() as int)[c],
        ),
{
    lemma_stems_upto(singles, singles.len() as int, c, s);
}

/// The two checks of shape codes (形码段冲突) report the same entries,
/// differing at most in their order.
pub proof fn law_shape_checks_agree(singles: Seq<Single>, by_entry: Seq<Single>, by_text: Seq<Single>)
    requires
        by_entry.to_multiset() == singles.filter(|x: Single| conflicted(singles, x.text)).to_multiset(),
        by_text.to_multiset() == singles.filter(|x: Single| conflicted(singles, x.text)).to_multiset(),
    ensures
        by_entry.to_multiset() == by_text.to_multiset(),
{
}

/// The entries read from lines `start..k` come from those lines, in order:
/// each carries the number (from 1) of the line it was read from and that
/// line, trimmed.
pub open spec fn entries_from_lines(
    lines: Seq<String>,
    start: int,
    k: int,
    es: Seq<(nat, Seq<char>, Seq<char>, Seq<char>)>,
) -> bool {
    &&& forall|i: int| 0 <= i < es.len() ==> start < (#[trigger] es[i]).0 <= k && es[i].1 == trim_end_spec(
        lines[es[i].0 - 1]@,
    )
    &&& forall|i: int, j: int| 0 <= i < j < es.len() ==> (#[trigger] es[i]).0 < (#[trigger] es[j]).0
}

proof fn lemma_entries_lines<T: EntryText>(lines: Seq<String>, start: int, k: int)
    requires
        0 <= start,
        k <= lines.len(),
    ensures
        entries_spec::<T>(lines, start, k) matches Ok(es) ==> entries_from_lines(lines, start, k, es),
    decreases k - start,
{
    if k > start {
        lemma_entries_lines::<T>(lines, start, k - 1);
    }
}

/// Loading a table keeps each entry's place: the entries come in the
/// order of their lines, each with the number of its line, counted from 1
/// over the whole file, header included, and with that line, trimmed.
pub proof fn law_entries_keep_their_lines<T: EntryText>(lines: Seq<String>, start: int)
    requires
        0 <= start,
    ensures
        body_spec::<T>(lines, start) matches Ok(es) ==> entries_from_lines(lines, start, lines.len() as int, es),
{
    lemma_entries_lines::<T>(lines, start, lines.len() as int);
}

/// For codes of letters, a code is orphaned by numbers (as the orphan
/// check decides, comparing code numbers) exactly when it is orphaned by
/// codes: no proper prefix is a code of its character and some proper
/// prefix is no code.
pub proof fn law_orphan_by_numbers(es: Seq<Single>, t: char, c: Seq<u8>)
    requires
        numbered(es),
        letters(c),
    ensures
        num_orphan(es, t, c) <==> orphan(es, t, c),
{
    assert forall|n: int| 1 <= n < c.len() implies (crate::codesets::num_code_of(es, t, #[trigger] c.take(n))
        <==> crate::codesets::is_code_of(es, t, c.take(n))) && (crate::codesets::num_code(es, c.take(n))
        <==> crate::codesets::is_code(es, c.take(n))) by {
        let p = c.take(n);
        if crate::codesets::num_code_of(es, t, p) {
            let m = choose|m: int| 0 <= m < es.len() && (#[trigger] es[m]).text == t && crate::keys::key_of(code_of(es[m])) == crate::keys::key_of(p);
            lemma_key_injective(code_of(es[m]), p);
        }
        if crate::codesets::is_code_of(es, t, p) {
            let m = choose|m: int| 0 <= m < es.len() && (#[trigger] es[m]).text == t && code_of(es[m]) == p;
            assert(crate::keys::key_of(code_of(es[m])) == crate::keys::key_of(p));
        }
        if crate::codesets::num_code(es, p) {
            let m = choose|m: int| 0 <= m < es.len() && crate::keys::key_of(code_of(#[trigger] es[m])) == crate::keys::key_of(p);
            lemma_key_injective(code_of(es[m]), p);
        }
        if crate::codesets::is_code(es, p) {
            let m = choose|m: int| 0 <= m < es.len() && code_of(#[trigger] es[m]) == p;
            assert(crate::keys::key_of(code_of(es[m])) == crate::keys::key_of(p));
        }
    }
}

/// The fly-key rule of the scheme, letter by letter: before `e` or `z`,
/// `f` and `q` stand for each other, and so do `j` and `w`; after `e`, `f`,
/// `g`, `h`, `k` or `w`, `m` and `x` stand for each other; and `fh` may be
/// typed `qh`. No other pair has another way.
pub open spec fn fly_key_rule(a: u8, b: u8) -> Option<(u8, u8)> {
    let (e, z, f, q, j, w, m, x, g, h, k) = (
        0x65u8,
        0x7au8,
        0x66u8,
        0x71u8,
        0x6au8,
        0x77u8,
        0x6du8,
        0x78u8,
        0x67u8,
        0x68u8,
        0x6bu8,
    );
    if (b == e || b == z) && (a == f || a == q || a == j || a == w) {
        Some((
            if a == f {
                q
            } else if a == q {
                f
            } else if a == j {
                w
            } else {
                j
            },
            b,
        ))
    } else if (b == m || b == x) && (a == e || a == f || a == g || a == h || a == k || a == w) {
        Some((a, if b == m { x } else { m }))
    } else if a == f && b == h {
        Some((q, h))
    } else {
        None
    }
}

/// The other way of typing a pair of code elements follows the fly-key
/// rule of the scheme, for every pair.
pub proof fn law_fly_key_table(a: u8, b: u8)
    ensures
        full_alt_target_spec(a, b) == fly_key_rule(a, b),
{
}

/// The slot of the lone-fly-key check that a code beginning `a b` needs is
/// the other way of typing `a b`: a beginning needs a slot exactly when it
/// has another way, and the slot is that way.
pub proof fn law_needed_slot_is_partner(a: u8, b: u8)
    ensures
        s_fj_absence::needed(a, b) is Some <==> fly_key_rule(a, b) is Some,
        s_fj_absence::needed(a, b) matches Some(k) ==> 0 <= k < 21 && fly_key_rule(a, b) == Some(
            s_fj_absence::slot(k),
        ),
{
    lemma_slots_partnered();
    law_fly_key_table(a, b);
    if exists|k: int| 0 <= k < 20 && s_fj_absence::slot(k) == (a, b) {
        let k = choose|k: int| 0 <= k < 20 && s_fj_absence::slot(k) == (a, b);
        assert(!(a == 0x66 && b == 0x68)) by {
            if a == 0x66 && b == 0x68 {
                assert(s_fj_absence::slot(k) != (0x66u8, 0x68u8));
            }
        }
    } else if !(a == 0x66 && b == 0x68) && fly_key_rule(a, b) is Some {
        lemma_rule_has_slot(a, b);
    }
}

/// Slots `2i` and `2i + 1` are each other's other way, and none is `fh`.
proof fn lemma_slots_partnered()
    ensures
        forall|k: int|
            0 <= k < 20 ==> #[trigger] fly_key_rule(s_fj_absence::slot(k).0, s_fj_absence::slot(k).1) == Some(
                s_fj_absence::slot(if k % 2 == 0 { k + 1 } else { k - 1 }),
            ) && s_fj_absence::slot(k) != (0x66u8, 0x68u8),
        s_fj_absence::slot(20) == (0x71u8, 0x68u8),
{
    assert forall|k: int| 0 <= k < 20 implies #[trigger] fly_key_rule(s_fj_absence::slot(k).0, s_fj_absence::slot(k).1)
        == Some(s_fj_absence::slot(if k % 2 == 0 { k + 1 } else { k - 1 })) && s_fj_absence::slot(k) != (
        0x66u8,
        0x68u8,
    ) by {
        if k == 0 {} else if k == 1 {} else if k == 2 {} else if k == 3 {} else if k == 4 {}
        else if k == 5 {} else if k == 6 {} else if k == 7 {} else if k == 8 {} else if k == 9 {}
        else if k == 10 {} else if k == 11 {} else if k == 12 {} else if k == 13 {} else if k == 14 {}
        else if k == 15 {} else if k == 16 {} else if k == 17 {} else if k == 18 {} else {}
    }
}

/// Every pair with another way, but `fh`, is one of the first twenty slots.
proof fn lemma_rule_has_slot(a: u8, b: u8)
    requires
        fly_key_rule(a, b) is Some,
        !(a == 0x66 && b == 0x68),
    ensures
        exists|k: int| 0 <= k < 20 && s_fj_absence::slot(k) == (a, b),
{
    let k: int = if b == 0x65 {
        if a == 0x66 { 0 } else if a == 0x71 { 1 } else if a == 0x6a { 4 } else { 5 }
    } else if b == 0x7a {
        if a == 0x66 { 2 } else if a == 0x71 { 3 } else if a == 0x6a { 6 } else { 7 }
    } else {
        let base: int = if a == 0x65 { 8 } else if a == 0x66 { 10 } else if a == 0x67 { 12 } else if a == 0x68 {
            14
        } else if a == 0x6b {
            16
        } else {
            18
        };
        if b == 0x6d { base } else { base + 1 }
    };
    assert(s_fj_absence::slot(k) == (a, b));
}

/// How many characters of a text of `n` characters take part in its code.
pub open spec fn code_slots(n: int) -> int {
    if n == 2 {
        2
    } else if n == 3 {
        3
    } else {
        4
    }
}

/// The character of a text that takes part `k`: the `k`-th, except that
/// for four or more characters the fourth part is the last character.
pub open spec fn slot_char(t: Seq<char>, k: int) -> char {
    if t.len() >= 4 && k == 3 {
        t.last()
    } else {
        t[k]
    }
}

/// For a text of `n` characters, the part (`.0`) and the stem byte (`.1`)
/// that code position `p` (0 to 5) comes from:
/// two characters `a1 a2 b1 b2 a3 b3`; three `a1 b1 c1 a3 b3 c3`; four or
/// more `a1 b1 c1 z1 a3 b3` (`z` the last character).
pub open spec fn code_source(n: int, p: int) -> (int, int) {
    if n == 2 {
        if p == 0 { (0, 0) } else if p == 1 { (0, 1) } else if p == 2 { (1, 0) } else if p == 3 { (1, 1) }
        else if p == 4 { (0, 2) } else { (1, 2) }
    } else if n == 3 {
        if p == 0 { (0, 0) } else if p == 1 { (1, 0) } else if p == 2 { (2, 0) } else if p == 3 { (0, 2) }
        else if p == 4 { (1, 2) } else { (2, 2) }
    } else {
        if p == 0 { (0, 0) } else if p == 1 { (1, 0) } else if p == 2 { (2, 0) } else if p == 3 { (3, 0) }
        else if p == 4 { (0, 2) } else { (1, 2) }
    }
}

/// Code position `p`, if the code reaches it and it comes from part `k`,
/// holds the byte of stem `s` that the position takes.
pub open spec fn serves_at(n: int, c: Seq<u8>, k: int, s: Stem, p: int) -> bool {
    (p < c.len() && code_source(n, p).0 == k) ==> s[code_source(n, p).1] == c[p]
}

/// Stem `s` gives every one of the first six code positions that part `k`
/// supplies.
pub open spec fn serves(n: int, c: Seq<u8>, k: int, s: Stem) -> bool {
    &&& serves_at(n, c, k, s, 0)
    &&& serves_at(n, c, k, s, 1)
    &&& serves_at(n, c, k, s, 2)
    &&& serves_at(n, c, k, s, 3)
    &&& serves_at(n, c, k, s, 4)
    &&& serves_at(n, c, k, s, 5)
}

/// Part `k` of the text has a stem that gives all its positions of the code.
pub open spec fn part_derivable(t: Seq<char>, c: Seq<u8>, m: Map<char, Seq<Stem>>, k: int) -> bool {
    let ch = slot_char(t, k);
    m.contains_key(ch) && exists|j: int| 0 <= j < m[ch].len() && serves(t.len() as int, c, k, #[trigger] m[ch][j])
}

proof fn lemma_part(
    t: Seq<char>,
    c: Seq<u8>,
    m: Map<char, Seq<Stem>>,
    k: int,
    r0: Option<u8>,
    r1: Option<u8>,
    r2: Option<u8>,
)
    requires
        forall|s: Stem| serves(t.len() as int, c, k, s) <==> stem_fits(s, r0, r1, r2),
    ensures
        part_derivable(t, c, m, k) <==> slot_ok_spec(m, slot_char(t, k), r0, r1, r2),
{
    let ch = slot_char(t, k);
    if part_derivable(t, c, m, k) {
        let j = choose|j: int| 0 <= j < m[ch].len() && serves(t.len() as int, c, k, #[trigger] m[ch][j]);
        assert(stem_fits(m[ch][j], r0, r1, r2));
    }
    if slot_ok_spec(m, ch, r0, r1, r2) {
        let j = choose|j: int| 0 <= j < m[ch].len() && stem_fits(#[trigger] m[ch][j], r0, r1, r2);
        assert(serves(t.len() as int, c, k, m[ch][j]));
    }
}

/// A phrase's code follows from its characters' stems exactly when every
/// character that takes part has one stem that gives each of the first six
/// code positions it supplies (positions the code does not reach require
/// nothing): for three characters, for instance, the sixth byte must be
/// the third byte of a stem of the third character.
pub proof fn law_phrase_code_derivation(e: Phrase, m: Map<char, Seq<Stem>>)
    ensures
        correct_spec(e, m) <==> e.text@.len() >= 2 && forall|k: int|
            0 <= k < code_slots(e.text@.len() as int) ==> #[trigger] part_derivable(e.text@, code_of(e), m, k),
{
    let t = e.text@;
    let c = code_of(e);
    let n = t.len() as int;
    if n == 2 {
        lemma_part(t, c, m, 0, at(c, 0), at(c, 1), at(c, 4));
        lemma_part(t, c, m, 1, at(c, 2), at(c, 3), at(c, 5));
    } else if n == 3 {
        lemma_part(t, c, m, 0, at(c, 0), None, at(c, 3));
        lemma_part(t, c, m, 1, at(c, 1), None, at(c, 4));
        lemma_part(t, c, m, 2, at(c, 2), None, at(c, 5));
    } else if n >= 4 {
        lemma_part(t, c, m, 0, at(c, 0), None, at(c, 4));
        lemma_part(t, c, m, 1, at(c, 1), None, at(c, 5));
        lemma_part(t, c, m, 2, at(c, 2), None, None);
        lemma_part(t, c, m, 3, at(c, 3), None, None);
    }
}

/// Some stem of `ch` begins with `a b`.
pub open spec fn stem_begins(m: Map<char, Seq<Stem>>, ch: char, a: u8, b: u8) -> bool {
    m.contains_key(ch) && exists|j: int| 0 <= j < m[ch].len() && (#[trigger] m[ch][j])[0] == a && m[ch][j][1] == b
}

/// For a chain of a two-character phrase whose characters both have stems:
/// when the pair at `p` (0 for the first character, 2 for the second) is
/// the beginning of a stem of its character and has another way `x y`,
/// and the chain with `x y` put in its place is not present, an
/// alternative is surely missing.
pub proof fn law_two_char_alternatives(
    chain: Seq<u8>,
    cs: Seq<char>,
    m: Map<char, Seq<Stem>>,
    present: Set<Seq<u8>>,
    p: int,
    x: u8,
    y: u8,
)
    requires
        chain.len() == 4,
        cs.len() >= 2,
        p == 0 || p == 2,
        m.contains_key(cs[0]),
        m.contains_key(cs[1]),
        stem_begins(m, cs[p / 2], chain[p], chain[p + 1]),
        fly_key_rule(chain[p], chain[p + 1]) == Some((x, y)),
        !present.contains(chain.update(p, x).update(p + 1, y)),
    ensures
        two_status_spec(chain, cs, m, present) == Status::Definite,
{
    law_fly_key_table(chain[p], chain[p + 1]);
    vstd::arithmetic::power2::lemma2_to64();
    let a0 = pair_alt_at(m, cs[0], chain, 0);
    let a1 = pair_alt_at(m, cs[1], chain, 2);
    let alts = a0 + a1;
    assert(pair_known(m, cs[p / 2], chain[p], chain[p + 1]));
    let target = chain.update(p, x).update(p + 1, y);
    assert(overwrite(chain, p, 2, seq![x, y]) =~= target);
    assert(mask_bit(1usize, 0)) by {
        assert((1usize >> 0usize) & 1usize == 1usize) by (bit_vector);
    }
    assert(!mask_bit(1usize, 1)) by {
        assert((1usize >> 1usize) & 1usize == 0usize) by (bit_vector);
    }
    assert(!mask_bit(2usize, 0)) by {
        assert((2usize >> 0usize) & 1usize == 0usize) by (bit_vector);
    }
    assert(mask_bit(2usize, 1)) by {
        assert((2usize >> 1usize) & 1usize == 1usize) by (bit_vector);
    }
    reveal_with_fuel(apply_spec, 3);
    let mask: usize = if p == 0 || a0.len() == 0 { 1 } else { 2 };
    if p == 0 {
        assert(a0 =~= seq![(0int, 2int, seq![x, y])]);
        assert(alts[0] == (0int, 2int, seq![x, y]));
        assert(apply_spec(chain, alts, mask, 1) == target);
        if alts.len() == 2 {
            assert(apply_spec(chain, alts, mask, 2) == target);
        }
    } else {
        assert(a1 =~= seq![(2int, 2int, seq![x, y])]);
        if a0.len() == 0 {
            assert(alts =~= a1);
            assert(apply_spec(chain, alts, mask, 1) == target);
        } else {
            assert(alts[1] == (2int, 2int, seq![x, y]));
            assert(apply_spec(chain, alts, mask, 1) == chain);
            assert(apply_spec(chain, alts, mask, 2) == target);
        }
    }
    assert(1 <= alts.len() <= 2);
    assert(1 <= mask < vstd::arithmetic::power2::pow2(alts.len()));
    assert(!present.contains(apply_spec(chain, alts, mask, alts.len() as int)));
}

/// Line `j` (counted from 0), trimmed, read as an entry line of the table.
pub open spec fn line_read<T: EntryText>(lines: Seq<String>, j: int) -> Result<
    Option<(Seq<char>, Seq<char>)>,
    Seq<char>,
> {
    parse_line_spec::<T>(trim_end_spec(lines[j]@))
}

/// The lines `start..k` were all read without error, and each that holds
/// an entry gave one: its number, the trimmed line, its text and its code.
pub open spec fn all_lines_taken<T: EntryText>(
    lines: Seq<String>,
    start: int,
    k: int,
    es: Seq<(nat, Seq<char>, Seq<char>, Seq<char>)>,
) -> bool {
    forall|j: int|
        start <= j < k ==> (#[trigger] line_read::<T>(lines, j)) is Ok && (line_read::<T>(lines, j) matches Ok(
            Some((text, code)),
        ) ==> exists|i: int|
            0 <= i < es.len() && es[i] == (((j + 1) as nat), trim_end_spec(lines[j]@), text, code))
}

proof fn lemma_entries_complete<T: EntryText>(lines: Seq<String>, start: int, k: int)
    requires
        0 <= start,
        k <= lines.len(),
    ensures
        entries_spec::<T>(lines, start, k) matches Ok(es) ==> all_lines_taken::<T>(lines, start, k, es),
    decreases k - start,
{
    if k > start {
        lemma_entries_complete::<T>(lines, start, k - 1);
        if let Ok(es) = entries_spec::<T>(lines, start, k) {
            let prev = entries_spec::<T>(lines, start, k - 1)->Ok_0;
            assert forall|j: int| start <= j < k implies (#[trigger] line_read::<T>(lines, j)) is Ok && (
            line_read::<T>(lines, j) matches Ok(Some((text, code))) ==> exists|i: int|
                0 <= i < es.len() && es[i] == (((j + 1) as nat), trim_end_spec(lines[j]@), text, code)) by {
                if j < k - 1 {
                    assert(line_read::<T>(lines, j) is Ok);
                    if let Ok(Some((text, code))) = line_read::<T>(lines, j) {
                        let i = choose|i: int|
                            0 <= i < prev.len() && prev[i] == (((j + 1) as nat), trim_end_spec(lines[j]@), text, code);
                        assert(es[i] == prev[i]);
                    }
                } else {
                    if let Ok(Some((text, code))) = line_read::<T>(lines, j) {
                        assert(es[prev.len() as int] == (((j + 1) as nat), trim_end_spec(lines[j]@), text, code));
                    }
                }
            }
        }
    }
}

/// Loading a table takes every line after the header: when it succeeds,
/// no such line failed to read, and each line that holds an entry gave
/// one, with its line number, the trimmed line, its text and its code.
pub proof fn law_entries_complete<T: EntryText>(lines: Seq<String>, start: int)
    requires
        0 <= start,
    ensures
        body_spec::<T>(lines, start) matches Ok(es) ==> all_lines_taken::<T>(lines, start, lines.len() as int, es),
{
    lemma_entries_complete::<T>(lines, start, lines.len() as int);
}

/// The pair at `p` of the chain begins a stem of its character and has
/// another way of typing.
pub open spec fn pair_alternative(chain: Seq<u8>, cs: Seq<char>, m: Map<char, Seq<Stem>>, p: int) -> bool {
    stem_begins(m, cs[p / 2], chain[p], chain[p + 1]) && fly_key_rule(chain[p], chain[p + 1]) is Some
}

/// The chain with the pair at `p` typed its other way.
pub open spec fn with_alternative(chain: Seq<u8>, p: int) -> Seq<u8> {
    let t = fly_key_rule(chain[p], chain[p + 1])->Some_0;
    chain.update(p, t.0).update(p + 1, t.1)
}

/// A chain of a two-character phrase is surely missing an alternative only
/// when one is: the pair of the first or of the second character, or both,
/// begin stems of their characters and have other ways, and the chain with
/// those put in is not present.
pub proof fn law_two_char_definite_only_if_missing(
    chain: Seq<u8>,
    cs: Seq<char>,
    m: Map<char, Seq<Stem>>,
    present: Set<Seq<u8>>,
)
    requires
        chain.len() == 4,
        cs.len() >= 2,
    ensures
        two_status_spec(chain, cs, m, present) == Status::Definite ==> {
            ||| pair_alternative(chain, cs, m, 0) && !present.contains(with_alternative(chain, 0))
            ||| pair_alternative(chain, cs, m, 2) && !present.contains(with_alternative(chain, 2))
            ||| pair_alternative(chain, cs, m, 0) && pair_alternative(chain, cs, m, 2) && !present.contains(
                with_alternative(with_alternative(chain, 0), 2),
            )
        },
{
    if two_status_spec(chain, cs, m, present) == Status::Definite {
        law_fly_key_table(chain[0], chain[1]);
        law_fly_key_table(chain[2], chain[3]);
        vstd::arithmetic::power2::lemma2_to64();
        let a0 = pair_alt_at(m, cs[0], chain, 0);
        let a1 = pair_alt_at(m, cs[1], chain, 2);
        let alts = a0 + a1;
        assert(definite_missing_spec(chain, alts, present));
        let mask = choose|mask: usize|
            1 <= mask < vstd::arithmetic::power2::pow2(alts.len()) && !present.contains(
                #[trigger] apply_spec(chain, alts, mask, alts.len() as int),
            );
        assert(mask_bit(1usize, 0) && !mask_bit(1usize, 1) && !mask_bit(2usize, 0) && mask_bit(2usize, 1)
            && mask_bit(3usize, 0) && mask_bit(3usize, 1)) by {
            assert((1usize >> 0usize) & 1usize == 1usize) by (bit_vector);
            assert((1usize >> 1usize) & 1usize == 0usize) by (bit_vector);
            assert((2usize >> 0usize) & 1usize == 0usize) by (bit_vector);
            assert((2usize >> 1usize) & 1usize == 1usize) by (bit_vector);
            assert((3usize >> 0usize) & 1usize == 1usize) by (bit_vector);
            assert((3usize >> 1usize) & 1usize == 1usize) by (bit_vector);
        }
        reveal_with_fuel(apply_spec, 3);
        let w0 = with_alternative(chain, 0);
        let w2 = with_alternative(chain, 2);
        let w02 = with_alternative(w0, 2);
        if a0.len() > 0 {
            assert(pair_known(m, cs[0], chain[0], chain[1]));
            assert(pair_alternative(chain, cs, m, 0));
            let t = fly_key_rule(chain[0], chain[1])->Some_0;
            assert(a0 =~= seq![(0int, 2int, seq![t.0, t.1])]);
            assert(overwrite(chain, 0, 2, seq![t.0, t.1]) =~= w0);
        }
        if a1.len() > 0 {
            assert(pair_known(m, cs[1], chain[2], chain[3]));
            assert(pair_alternative(chain, cs, m, 2));
            let t = fly_key_rule(chain[2], chain[3])->Some_0;
            assert(a1 =~= seq![(2int, 2int, seq![t.0, t.1])]);
            assert(overwrite(chain, 2, 2, seq![t.0, t.1]) =~= w2);
            if a0.len() > 0 {
                assert(w0[2] == chain[2] && w0[3] == chain[3]);
                assert(overwrite(w0, 2, 2, seq![t.0, t.1]) =~= w02);
            }
        }
        if a0.len() > 0 && a1.len() > 0 {
            if mask == 1 {
                assert(apply_spec(chain, alts, mask, 2) == w0);
            } else if mask == 2 {
                assert(apply_spec(chain, alts, mask, 1) == chain);
                assert(apply_spec(chain, alts, mask, 2) == w2);
            } else {
                assert(mask == 3);
                assert(apply_spec(chain, alts, mask, 2) == w02);
            }
        } else if a0.len() > 0 {
            assert(alts =~= a0);
            assert(mask == 1);
            assert(apply_spec(chain, alts, mask, 1) == w0);
        } else if a1.len() > 0 {
            assert(alts =~= a1);
            assert(mask == 1);
            assert(apply_spec(chain, alts, mask, 1) == w2);
        } else {
            assert(alts.len() == 0);
        }
    }
}

/// For a phrase of two characters whose code has at least four bytes:
/// when the pair at `p` (0 or 2) has another way `x y` of typing, and no
/// phrase of the same text has a code that begins with the first four
/// bytes with `x y` put in at `p`, the phrase is reported as an incomplete
/// fly key.
pub proof fn law_two_char_incomplete(ps: Seq<Phrase>, i: int, m: Map<char, Seq<Stem>>, p: int, x: u8, y: u8)
    requires
        0 <= i < ps.len(),
        ps[i].text@.len() == 2,
        code_of(ps[i]).len() >= 4,
        p == 0 || p == 2,
        fly_key_rule(code_of(ps[i])[p], code_of(ps[i])[p + 1]) == Some((x, y)),
        forall|j: int|
            0 <= j < ps.len() && (#[trigger] ps[j]).text@ == ps[i].text@ && code_of(ps[j]).len() >= 4 ==> code_of(
                ps[j],
            ).take(4) != code_of(ps[i]).take(4).update(p, x).update(p + 1, y),
    ensures
        p_on_s_fj_incomplete::reported(ps, ps[i], m),
{
    let e = ps[i];
    let c = code_of(e);
    law_fly_key_table(c[p], c[p + 1]);
    let a0 = p_on_s_fj_incomplete::pair_alt(c, 0);
    let a1 = p_on_s_fj_incomplete::pair_alt(c, 2);
    let alts = p_on_s_fj_incomplete::alts_spec(e, m);
    assert(alts == p_on_s_fj_incomplete::push_opt(p_on_s_fj_incomplete::push_opt(Seq::empty(), a0), a1));
    let base = c.take(4);
    let target = base.update(p, x).update(p + 1, y);
    assert(1u32 & (1u32 << 0u32) != 0u32 && 1u32 & (1u32 << 1u32) == 0u32 && 2u32 & (1u32 << 0u32) == 0u32
        && 2u32 & (1u32 << 1u32) != 0u32 && 0u32 & (1u32 << 0u32) == 0u32 && 0u32 & (1u32 << 1u32) == 0u32)
        by (bit_vector);
    reveal_with_fuel(p_on_s_fj_incomplete::apply_alts, 3);
    let mask: u32 = if p == 0 || a0 is None { 1 } else { 2 };
    if p == 0 {
        assert(a0 == Some((0usize, 2usize, x, y)));
        assert(alts[0] == (0usize, 2usize, x, y));
        if a1 is Some {
            assert(alts.len() == 2);
            assert(p_on_s_fj_incomplete::apply_alts(base, alts, mask, 2) =~= target);
        } else {
            assert(alts.len() == 1);
            assert(p_on_s_fj_incomplete::apply_alts(base, alts, mask, 1) =~= target);
        }
    } else {
        assert(a1 == Some((2usize, 2usize, x, y)));
        if a0 is Some {
            assert(alts.len() == 2);
            assert(alts[1] == (2usize, 2usize, x, y));
            assert(p_on_s_fj_incomplete::apply_alts(base, alts, mask, 1) == base);
            assert(p_on_s_fj_incomplete::apply_alts(base, alts, mask, 2) =~= target);
        } else {
            assert(alts.len() == 1);
            assert(alts[0] == (2usize, 2usize, x, y));
            assert(p_on_s_fj_incomplete::apply_alts(base, alts, mask, 1) =~= target);
        }
    }
    assert(p_on_s_fj_incomplete::alt_key(e, m, mask) == target);
    assert(1 <= mask < p_on_s_fj_incomplete::num_masks(alts.len()));
    assert(!p_on_s_fj_incomplete::present(ps, e.text@, 4, target));
    assert(p_on_s_fj_incomplete::triggered(ps, e, m));
    assert(p_on_s_fj_incomplete::apply_alts(base, alts, 0u32, alts.len() as int) == base);
    assert(p_on_s_fj_incomplete::alt_key(e, m, 0u32) == base);
    assert(p_on_s_fj_incomplete::covers(e, m, base));
}

/// Stem `s` agrees with a slot of a phrase code: same first element, and
/// the same third element where the code has one for it.
pub open spec fn stem_agrees(s: Stem, first: u8, third: Option<u8>) -> bool {
    s[0] == first && (third is None || s[2] == third->Some_0)
}

/// The other first element that the incomplete-fly-key check gives a
/// character's slot is `t` exactly when the character has a stem that
/// agrees with the code, and every agreeing stem begins with a pair whose
/// other way of typing begins with `t`, a letter other than its own first.
pub proof fn law_slot_alternative(m: Map<char, Seq<Stem>>, c: char, first: u8, third: Option<u8>, t: u8)
    ensures
        p_on_s_fj_incomplete::slot_alt_spec(m, c, first, third) == Some(t) <==> {
            &&& m.contains_key(c)
            &&& exists|j: int| 0 <= j < m[c].len() && stem_agrees(#[trigger] m[c][j], first, third)
            &&& forall|j: int|
                0 <= j < m[c].len() && stem_agrees(#[trigger] m[c][j], first, third) ==> (fly_key_rule(
                    m[c][j][0],
                    m[c][j][1],
                ) matches Some((u, _)) && u == t && u != m[c][j][0])
        },
{
    assert forall|a: u8, b: u8| #[trigger] full_alt_target_spec(a, b) == fly_key_rule(a, b) by {
        law_fly_key_table(a, b);
    }
    if m.contains_key(c) {
        let ss = m[c];
        assert forall|j: int| 0 <= j < ss.len() implies (stem_agrees(#[trigger] ss[j], first, third)
            <==> p_on_s_fj_incomplete::stem_matches(ss[j], first, third)) by {}
        if p_on_s_fj_incomplete::slot_alt_spec(m, c, first, third) == Some(t) {
            let tt = choose|tt: u8| p_on_s_fj_incomplete::all_alt_to(ss, first, third, tt);
            assert(tt == t);
            assert forall|j: int|
                0 <= j < ss.len() && stem_agrees(#[trigger] ss[j], first, third) implies (fly_key_rule(
                ss[j][0],
                ss[j][1],
            ) matches Some((u, _)) && u == t && u != ss[j][0]) by {
                assert(p_on_s_fj_incomplete::seg_first_alt_spec(ss[j][0], ss[j][1]) == Some(t));
                assert(full_alt_target_spec(ss[j][0], ss[j][1]) == fly_key_rule(ss[j][0], ss[j][1]));
            }
            let j = choose|j: int| 0 <= j < ss.len() && p_on_s_fj_incomplete::stem_matches(#[trigger] ss[j], first, third);
            assert(stem_agrees(ss[j], first, third));
        }
        if (exists|j: int| 0 <= j < ss.len() && stem_agrees(#[trigger] ss[j], first, third)) && (forall|j: int|
            0 <= j < ss.len() && stem_agrees(#[trigger] ss[j], first, third) ==> (fly_key_rule(ss[j][0], ss[j][1]) matches Some(
                (u, _),
            ) && u == t && u != ss[j][0])) {
            let j0 = choose|j: int| 0 <= j < ss.len() && stem_agrees(#[trigger] ss[j], first, third);
            assert(p_on_s_fj_incomplete::stem_matches(ss[j0], first, third));
            assert(p_on_s_fj_incomplete::some_match(ss, first, third));
            assert forall|j: int|
                0 <= j < ss.len() && p_on_s_fj_incomplete::stem_matches(#[trigger] ss[j], first, third) implies p_on_s_fj_incomplete::seg_first_alt_spec(
                ss[j][0],
                ss[j][1],
            ) == Some(t) by {
                assert(stem_agrees(ss[j], first, third));
                assert(full_alt_target_spec(ss[j][0], ss[j][1]) == fly_key_rule(ss[j][0], ss[j][1]));
            }
            assert(p_on_s_fj_incomplete::all_alt_to(ss, first, third, t));
            let tt = choose|tt: u8| p_on_s_fj_incomplete::all_alt_to(ss, first, third, tt);
            assert(p_on_s_fj_incomplete::seg_first_alt_spec(ss[j0][0], ss[j0][1]) == Some(tt));
            assert(p_on_s_fj_incomplete::seg_first_alt_spec(ss[j0][0], ss[j0][1]) == Some(t));
        }
    }
}

proof fn lemma_filter_in<A>(s: Seq<A>, p: spec_fn(A) -> bool, i: int)
    requires
        0 <= i < s.filter(p).len(),
    ensures
        s.contains(s.filter(p)[i]),
    decreases s.len(),
{
    if s.len() > 0 {
        let t = s.drop_last();
        assert(s =~= t.push(s.last()));
        t.lemma_filter_push(s.last(), p);
        if i < t.filter(p).len() {
            lemma_filter_in(t, p, i);
            let k = choose|k: int| 0 <= k < t.len() && t[k] == t.filter(p)[i];
            assert(s[k] == t[k]);
        } else {
            assert(s[s.len() - 1] == s.filter(p)[i]);
        }
    } else {
        assert(s.filter(p) =~= Seq::<A>::empty()) by {
            s.lemma_filter_len(p);
        }
    }
}

proof fn lemma_filter_same_len<A>(s: Seq<A>, p: spec_fn(A) -> bool, q: spec_fn(A) -> bool)
    requires
        forall|a: A| #[trigger] q(a) ==> p(a),
    ensures
        s.filter(q).len() <= s.filter(p).len(),
        s.filter(q).len() == s.filter(p).len() <==> forall|j: int| 0 <= j < s.len() && p(#[trigger] s[j]) ==> q(s[j]),
    decreases s.len(),
{
    if s.len() == 0 {
        s.lemma_filter_len(p);
        s.lemma_filter_len(q);
    } else {
        let t = s.drop_last();
        let e = s.last();
        assert(s =~= t.push(e));
        lemma_filter_same_len(t, p, q);
        t.lemma_filter_len_push(p, e);
        t.lemma_filter_len_push(q, e);
        if forall|j: int| 0 <= j < s.len() && p(#[trigger] s[j]) ==> q(s[j]) {
            assert forall|j: int| 0 <= j < t.len() && p(#[trigger] t[j]) implies q(t[j]) by {
                assert(s[j] == t[j]);
            }
            assert(p(e) ==> q(e)) by {
                assert(s[s.len() - 1] == e);
            }
        } else {
            let j = choose|j: int| 0 <= j < s.len() && p(#[trigger] s[j]) && !q(s[j]);
            if j < t.len() {
                assert(t[j] == s[j]);
            }
        }
    }
}

/// Some stem begins with `x`, and every stem that begins with `x` begins
/// with a pair whose other way of typing begins with `v`, a letter other
/// than `x`.
pub open spec fn sure_place(ss: Seq<Stem>, x: u8, v: u8) -> bool {
    &&& exists|j: int| 0 <= j < ss.len() && (#[trigger] ss[j])[0] == x
    &&& forall|j: int|
        0 <= j < ss.len() && (#[trigger] ss[j])[0] == x ==> (fly_key_rule(x, ss[j][1]) matches Some((u, _)) && u == v
            && u != x)
}

/// What the stems of a character say of the place `x` of a chain of three
/// or more characters is "surely typed another way as `v`" exactly when
/// some stem begins with `x`, and every stem that begins with `x` begins
/// with a pair whose other way of typing begins with `v`, a letter other
/// than `x`.
pub proof fn law_sure_slot(ss: Seq<Stem>, x: u8, v: u8)
    ensures
        slot_spec(ss, x) == Slot::Sure(v) <==> sure_place(ss, x, v),
{
    assert forall|a: u8, b: u8| #[trigger] full_alt_target_spec(a, b) == fly_key_rule(a, b) by {
        law_fly_key_table(a, b);
    }
    let pb = begins(x);
    let ps = shifts(x);
    let ms = ss.filter(pb);
    let sh = ss.filter(ps);
    broadcast use vstd::seq_lib::group_filter_ensures;
    lemma_filter_same_len(ss, pb, ps);
    let rhs = (exists|j: int| 0 <= j < ss.len() && (#[trigger] ss[j])[0] == x) && (forall|j: int|
        0 <= j < ss.len() && (#[trigger] ss[j])[0] == x ==> (fly_key_rule(x, ss[j][1]) matches Some((u, _)) && u
            == v && u != x));
    if slot_spec(ss, x) == Slot::Sure(v) {
        assert(ms.len() > 0 && sh.len() > 0 && sh.len() == ms.len());
        assert(pb(ms[0]));
        lemma_filter_in(ss, pb, 0);
        let w = choose|k: int| 0 <= k < ss.len() && ss[k] == ms[0];
        assert(ss[w][0] == x);
        assert forall|j: int| 0 <= j < ss.len() && (#[trigger] ss[j])[0] == x implies (fly_key_rule(x, ss[j][1]) matches Some(
            (u, _),
        ) && u == v && u != x) by {
            assert(pb(ss[j]));
            assert(ps(ss[j]));
            assert(sh.contains(ss[j]));
            let k = choose|k: int| 0 <= k < sh.len() && sh[k] == ss[j];
            assert(seg_first_alt_spec(sh[k][0], sh[k][1]) == seg_first_alt_spec(sh[0][0], sh[0][1]));
            assert(full_alt_target_spec(x, ss[j][1]) == fly_key_rule(x, ss[j][1]));
        }
    }
    if rhs {
        let w = choose|j: int| 0 <= j < ss.len() && (#[trigger] ss[j])[0] == x;
        assert(pb(ss[w]));
        assert(ms.contains(ss[w]));
        assert forall|j: int| 0 <= j < ss.len() && pb(#[trigger] ss[j]) implies ps(ss[j]) by {
            assert(ss[j][0] == x);
            assert(full_alt_target_spec(x, ss[j][1]) == fly_key_rule(x, ss[j][1]));
        }
        assert(sh.len() == ms.len());
        assert forall|j: int| 0 <= j < sh.len() implies seg_first_alt_spec((#[trigger] sh[j])[0], sh[j][1]) == Some(v) by {
            assert(ps(sh[j]));
            lemma_filter_in(ss, ps, j);
            let k = choose|k: int| 0 <= k < ss.len() && ss[k] == sh[j];
            assert(ss[k][0] == x);
            assert(full_alt_target_spec(x, ss[k][1]) == fly_key_rule(x, ss[k][1]));
        }
        assert(seg_first_alt_spec(sh[0][0], sh[0][1]) == Some(v));
    }
}

proof fn lemma_parts_have(chain: Seq<u8>, cs: Seq<char>, m: Map<char, Seq<Stem>>, k: int, i: int, v: u8)
    requires
        0 <= i < k,
        slot_spec(m[cs[i]], chain[i]) == Slot::Sure(v),
    ensures
        exists|idx: int|
            0 <= idx < multi_parts(chain, cs, m, k).0.len() && #[trigger] multi_parts(chain, cs, m, k).0[idx] == (
                i,
                1int,
                seq![v, 0u8],
            ),
        multi_parts(chain, cs, m, k).0.len() <= k,
    decreases k,
{
    let d = multi_parts(chain, cs, m, k).0;
    let prev = multi_parts(chain, cs, m, k - 1).0;
    if k - 1 == i {
        lemma_parts_len(chain, cs, m, k - 1);
        assert(d == prev.push((i, 1int, seq![v, 0u8])));
        assert(d[prev.len() as int] == (i, 1int, seq![v, 0u8]));
    } else {
        lemma_parts_have(chain, cs, m, k - 1, i, v);
        let idx = choose|idx: int| 0 <= idx < prev.len() && #[trigger] prev[idx] == (i, 1int, seq![v, 0u8]);
        assert(d == prev || d == prev.push(d.last()));
        assert(d[idx] == prev[idx]);
    }
}

proof fn lemma_parts_len(chain: Seq<u8>, cs: Seq<char>, m: Map<char, Seq<Stem>>, k: int)
    requires
        0 <= k,
    ensures
        multi_parts(chain, cs, m, k).0.len() <= k,
    decreases k,
{
    if k > 0 {
        lemma_parts_len(chain, cs, m, k - 1);
    }
}

proof fn lemma_apply_one(chain: Seq<u8>, d: Seq<AltView>, idx: int, i: int, v: u8, k: int)
    requires
        chain.len() == 4,
        0 <= idx < d.len() <= 4,
        0 <= i < 4,
        d[idx] == (i, 1int, seq![v, 0u8]),
        0 <= k <= d.len(),
    ensures
        apply_spec(chain, d, 1usize << (idx as usize), k) == if k <= idx {
            chain
        } else {
            chain.update(i, v)
        },
    decreases k,
{
    if k > 0 {
        lemma_apply_one(chain, d, idx, i, v, k - 1);
        let b = idx as usize;
        let j = (k - 1) as usize;
        assert((((1usize << b) >> j) & 1usize == 1usize) <==> b == j) by (bit_vector)
            requires
                b < 4,
                j < 4,
        ;
        if k - 1 == idx {
            assert(overwrite(chain, i, 1, seq![v, 0u8]) =~= chain.update(i, v));
        }
    }
}

/// For a chain of a phrase of three or more characters whose characters
/// all have stems: when the place `i` is surely typed another way as `v`
/// (some stem of its character begins with the chain's element there, and
/// all such stems' pairs have other ways beginning with `v`), and the chain
/// with `v` put in at `i` is not present, an alternative is surely missing.
pub proof fn law_multi_char_sure_missing(
    chain: Seq<u8>,
    cs: Seq<char>,
    cnt: int,
    m: Map<char, Seq<Stem>>,
    present: Set<Seq<u8>>,
    i: int,
    v: u8,
)
    requires
        chain.len() == 4,
        3 <= cnt <= 4,
        cs.len() >= cnt,
        forall|k: int| 0 <= k < cnt ==> m.contains_key(#[trigger] cs[k]),
        0 <= i < cnt,
        sure_place(m[cs[i]], chain[i], v),
        !present.contains(chain.update(i, v)),
    ensures
        multi_status_spec(chain, cs, cnt, m, present) == Status::Definite,
{
    law_sure_slot(m[cs[i]], chain[i], v);
    lemma_parts_have(chain, cs, m, cnt, i, v);
    let d = multi_parts(chain, cs, m, cnt).0;
    let idx = choose|idx: int| 0 <= idx < d.len() && #[trigger] d[idx] == (i, 1int, seq![v, 0u8]);
    lemma_apply_one(chain, d, idx, i, v, d.len() as int);
    let mask = 1usize << (idx as usize);
    vstd::arithmetic::power2::lemma2_to64();
    assert(idx < 4);
    assert(vstd::arithmetic::power2::pow2(idx as nat) <= 8);
    vstd::bits::lemma_usize_shl_is_mul(1, idx as usize);
    vstd::arithmetic::power2::lemma_pow2_strictly_increases(idx as nat, d.len());
    assert(1 <= mask < vstd::arithmetic::power2::pow2(d.len()));
    assert(!present.contains(apply_spec(chain, d, mask, d.len() as int)));
    assert(!(exists|k: int| 0 <= k < cnt && !m.contains_key(#[trigger] cs[k])));
}

} // verus!
