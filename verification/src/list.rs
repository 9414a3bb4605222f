//! List detection and grouping: per-paragraph list classification, nesting
//! levels, prefix cleaning, and the pass that coalesces consecutive list
//! paragraphs into list elements.

use vstd::prelude::*;

use crate::cleanup::word_list_marker;
use crate::models::{
    concat_text, runs_view, DocumentElement, ElemV, FormattedRun, ItemV, ListItem, RunV,
};
use crate::numbering::NumberingFormat;
use crate::raw::{RawNumbering, RawParagraph};
use crate::text::{
    is_digit_char, is_alpha_ascii_char, is_space_char, match_at, spec_trim, trim_front, trimmed,
};

verus! {

/// What the numbering property of a paragraph says about its list role.
pub struct ListInfo {
    pub level: u8,
    pub is_ordered: bool,
    pub num_id: Option<i32>,
}

/// The number of leading digits of `s`.
pub open spec fn digits_run_len(s: Seq<char>) -> nat
    decreases s.len(),
{
    if s.len() > 0 && is_digit_char(s[0]) {
        1 + digits_run_len(s.drop_first())
    } else {
        0
    }
}

/// The index of the first `c` in `s`, or the length when `c` is absent.
pub open spec fn first_index_of(s: Seq<char>, c: char) -> int
    decreases s.len(),
{
    if s.len() == 0 {
        0
    } else if s[0] == c {
        0
    } else {
        1 + first_index_of(s.drop_first(), c)
    }
}

/// The number of leading white-space characters of `s`.
pub open spec fn space_run_len(s: Seq<char>) -> int
    decreases s.len(),
{
    if s.len() > 0 && is_space_char(s[0]) {
        1 + space_run_len(s.drop_first())
    } else {
        0
    }
}

/// The first index at or past `from` holding `c`, or the length.
fn find_char_from(v: &Vec<char>, from: usize, c: char) -> (r: usize)
    requires
        from <= v@.len(),
    ensures
        r == from + first_index_of(v@.skip(from as int), c),
        from <= r <= v@.len(),
        r < v@.len() ==> v@[r as int] == c,
        forall|j: int| from <= j < r ==> v@[j] != c,
{
    let n = v.len();
    let mut i = from;
    while i < n && v[i] != c
        invariant
            n == v@.len(),
            from <= i <= n,
            forall|j: int| from <= j < i ==> v@[j] != c,
        decreases n - i,
    {
        i = i + 1;
    }
    proof {
        lemma_first_index_shift(v@, from as int, i as int, c);
    }
    i
}

pub proof fn lemma_first_index_shift(s: Seq<char>, from: int, i: int, c: char)
    requires
        0 <= from <= i <= s.len(),
        forall|j: int| from <= j < i ==> s[j] != c,
        i == s.len() || s[i] == c,
    ensures
        first_index_of(s.skip(from), c) == i - from,
    decreases i - from,
{
    let t = s.skip(from);
    if i == from {
        if t.len() > 0 {
            assert(t[0] == s[from]);
        }
    } else {
        assert(t.len() > 0);
        assert(t[0] == s[from]);
        assert(t[0] != c);
        assert(t.drop_first() =~= s.skip(from + 1));
        lemma_first_index_shift(s, from + 1, i, c);
    }
}

/// Whether trimmed text looks like a list item: a numbered line with long
/// content, a bullet glyph, or a letter followed by a dot.
pub open spec fn spec_is_likely_list_item(text: Seq<char>) -> bool {
    let t = spec_trim(text);
    if match_at(t, word_list_marker(), 0) {
        false
    } else {
        ||| (t.len() > 0 && is_digit_char(t[0]) && first_index_of(t, '.') < t.len() && spec_trim(
            t.skip(first_index_of(t, '.') + 1),
        ).len() > 20)
        ||| match_at(t, seq!['\u{2022}', ' '], 0)
        ||| match_at(t, seq!['-', ' '], 0)
        ||| match_at(t, seq!['*', ' '], 0)
        ||| (t.len() > 3 && t[1] == '.' && is_alpha_ascii_char(t[0]))
    }
}

pub fn is_likely_list_item(text: &str) -> (r: bool)
    ensures
        r == spec_is_likely_list_item(text@),
{
    let cs = crate::text::chars_of(text);
    let t = trimmed(&cs);
    let marker = crate::cleanup::word_list_marker_vec();
    if crate::text::starts_with_sub(&t, &marker) {
        return false;
    }
    if t.len() > 0 && crate::text::is_digit(t[0]) {
        let dot = find_char_from(&t, 0, '.');
        proof {
            assert(t@.skip(0) =~= t@);
        }
        if dot < t.len() {
            let mut after: Vec<char> = Vec::new();
            let mut i = dot + 1;
            while i < t.len()
                invariant
                    dot + 1 <= i <= t@.len(),
                    after@ == t@.subrange(dot + 1, i as int),
                decreases t@.len() - i,
            {
                after.push(t[i]);
                proof {
                    assert(after@ =~= t@.subrange(dot + 1, i + 1));
                }
                i = i + 1;
            }
            proof {
                assert(after@ =~= t@.skip(dot + 1));
            }
            let at = trimmed(&after);
            if at.len() > 20 {
                return true;
            }
        }
    }
    let bullet: Vec<char> = vec!['\u{2022}', ' '];
    let dash: Vec<char> = vec!['-', ' '];
    let star: Vec<char> = vec!['*', ' '];
    if crate::text::starts_with_sub(&t, &bullet) || crate::text::starts_with_sub(&t, &dash)
        || crate::text::starts_with_sub(&t, &star) {
        return true;
    }
    if t.len() > 3 && t[1] == '.' && crate::text::is_alpha_ascii(t[0]) {
        return true;
    }
    false
}

/// The nesting level derived from leading white space: two spaces are one
/// level, truncated into a byte.
pub open spec fn spec_list_level(text: Seq<char>) -> u8 {
    ((space_run_len(text) / 2) as u8)
}

pub fn calculate_list_level(text: &str) -> (r: u8)
    ensures
        r == spec_list_level(text@),
{
    let text = crate::text::chars_of(text);
    let text = &text;
    let n = text.len();
    let mut i: usize = 0;
    loop
        invariant
            n == text@.len(),
            i <= n,
            forall|j: int| 0 <= j < i ==> is_space_char(#[trigger] text@[j]),
        ensures
            i <= n,
            forall|j: int| 0 <= j < i ==> is_space_char(#[trigger] text@[j]),
            i == n || !is_space_char(text@[i as int]),
        decreases n - i,
    {
        if i == n {
            break ;
        }
        if !crate::text::is_space(text[i]) {
            break ;
        }
        i = i + 1;
    }
    proof {
        assert(text@.skip(0) =~= text@);
        lemma_space_run_shift(text@, 0, i as int);
    }
    let half: usize = i / 2;
    let r: u8 = #[verifier::truncate] (half as u8);
    r
}

proof fn lemma_space_run_shift(s: Seq<char>, from: int, i: int)
    requires
        0 <= from <= i <= s.len(),
        forall|j: int| from <= j < i ==> is_space_char(#[trigger] s[j]),
        i == s.len() || !is_space_char(s[i]),
    ensures
        space_run_len(s.skip(from)) == i - from,
    decreases i - from,
{
    let t = s.skip(from);
    if i == from {
        if t.len() > 0 {
            assert(t[0] == s[from]);
        }
    } else {
        assert(t[0] == s[from]);
        assert(t.drop_first() =~= s.skip(from + 1));
        lemma_space_run_shift(s, from + 1, i);
    }
}

/// Ordered or unordered for a Word-numbered paragraph, from the known
/// `(numbering id, level)` table; unknown ids count as ordered.
pub open spec fn spec_numbering_ordered(num_id: Option<i32>, level: u8) -> bool {
    match num_id {
        Some(id) => {
            if id == 1 {
                if level == 0 || level == 1 || level == 2 {
                    true
                } else {
                    level % 2 == 1
                }
            } else {
                true
            }
        },
        None => false,
    }
}

/// Classifies a paragraph that carries a numbering property as a list
/// item; paragraphs without one are no Word list.
pub fn detect_list_from_paragraph_numbering(para: &RawParagraph) -> (r: Option<ListInfo>)
    ensures
        match (r, para.numbering) {
            (Some(info), Some(numpr)) => info.level == numpr.level && info.num_id == numpr.num_id
                && info.is_ordered == spec_numbering_ordered(numpr.num_id, numpr.level),
            (None, None) => true,
            _ => false,
        },
{
    match &para.numbering {
        Some(numpr) => {
            let level = numpr.level;
            let num_id = numpr.num_id;
            let is_ordered = match num_id {
                Some(id) => {
                    if id == 1 {
                        if level == 0 || level == 1 || level == 2 {
                            true
                        } else {
                            level % 2 == 1
                        }
                    } else {
                        true
                    }
                },
                None => false,
            };
            Some(ListInfo { level, is_ordered, num_id })
        },
        None => None,
    }
}

/// The numbering style for a known `(numbering id, level)` pair, with
/// level-based defaults for unknown ids.
pub open spec fn spec_numbering_format(num_id: i32, level: u8) -> NumberingFormat {
    if num_id == 4 && level == 0 {
        NumberingFormat::Decimal
    } else if num_id == 4 && level == 1 {
        NumberingFormat::Decimal
    } else if num_id == 4 && level == 2 {
        NumberingFormat::LowerRoman
    } else if num_id == 5 && level == 2 {
        NumberingFormat::ParenLowerLetter
    } else if num_id == 2 && level == 0 {
        NumberingFormat::Decimal
    } else if num_id == 2 && level == 3 {
        NumberingFormat::ParenLowerRoman
    } else if num_id == 1 && level == 0 {
        NumberingFormat::Decimal
    } else if num_id == 1 && level == 1 {
        NumberingFormat::LowerLetter
    } else if num_id == 1 && level == 2 {
        NumberingFormat::LowerRoman
    } else if num_id == 1 && level == 3 {
        NumberingFormat::ParenLowerLetter
    } else if num_id == 1 && level == 4 {
        NumberingFormat::ParenLowerRoman
    } else if level == 0 {
        NumberingFormat::Decimal
    } else if level == 1 {
        NumberingFormat::LowerLetter
    } else if level == 2 {
        NumberingFormat::LowerRoman
    } else if level == 3 {
        NumberingFormat::UpperLetter
    } else if level == 4 {
        NumberingFormat::UpperRoman
    } else {
        NumberingFormat::Decimal
    }
}

pub fn get_numbering_format(num_id: i32, level: u8) -> (r: NumberingFormat)
    ensures
        r == spec_numbering_format(num_id, level),
{
    if num_id == 4 && level == 0 {
        NumberingFormat::Decimal
    } else if num_id == 4 && level == 1 {
        NumberingFormat::Decimal
    } else if num_id == 4 && level == 2 {
        NumberingFormat::LowerRoman
    } else if num_id == 5 && level == 2 {
        NumberingFormat::ParenLowerLetter
    } else if num_id == 2 && level == 0 {
        NumberingFormat::Decimal
    } else if num_id == 2 && level == 3 {
        NumberingFormat::ParenLowerRoman
    } else if num_id == 1 && level == 0 {
        NumberingFormat::Decimal
    } else if num_id == 1 && level == 1 {
        NumberingFormat::LowerLetter
    } else if num_id == 1 && level == 2 {
        NumberingFormat::LowerRoman
    } else if num_id == 1 && level == 3 {
        NumberingFormat::ParenLowerLetter
    } else if num_id == 1 && level == 4 {
        NumberingFormat::ParenLowerRoman
    } else if level == 0 {
        NumberingFormat::Decimal
    } else if level == 1 {
        NumberingFormat::LowerLetter
    } else if level == 2 {
        NumberingFormat::LowerRoman
    } else if level == 3 {
        NumberingFormat::UpperLetter
    } else if level == 4 {
        NumberingFormat::UpperRoman
    } else {
        NumberingFormat::Decimal
    }
}

/// The bullet or number prefix to strip from a text-detected list item's
/// combined, trimmed text: a bullet glyph with its space, a run of digits
/// with the dot and an optional following space, or a letter with the dot
/// and an optional following space.
pub open spec fn spec_list_prefix_len(t: Seq<char>) -> int {
    if match_at(t, seq!['\u{2022}', ' '], 0) || match_at(t, seq!['-', ' '], 0) || match_at(
        t,
        seq!['*', ' '],
        0,
    ) {
        2
    } else if first_index_of(t, '.') < t.len() {
        let dot = first_index_of(t, '.');
        if forall|j: int| 0 <= j < dot ==> is_digit_char(#[trigger] t[j]) {
            dot + if dot + 1 < t.len() && t[dot + 1] == ' ' {
                2int
            } else {
                1int
            }
        } else if t.len() > 2 && t[1] == '.' && is_alpha_ascii_char(t[0]) {
            if 2 < t.len() && t[2] == ' ' {
                3
            } else {
                2
            }
        } else {
            0
        }
    } else {
        0
    }
}

/// The runs of a list item with `k` characters of prefix removed from the
/// front, the first surviving run trimmed at its start, and runs emptied
/// by the removal dropped.
pub open spec fn spec_drop_prefix_runs(rs: Seq<RunV>, k: int) -> Seq<RunV>
    decreases rs.len(),
{
    if rs.len() == 0 {
        rs
    } else if k <= 0 {
        rs
    } else {
        let first = rs[0];
        if first.text.len() <= k {
            spec_drop_prefix_runs(rs.drop_first(), k - first.text.len())
        } else {
            seq![RunV { text: trim_front(first.text.skip(k)), fmt: first.fmt }]
                + rs.drop_first()
        }
    }
}

/// Strips the detected list prefix from a run sequence while keeping the
/// formatting boundaries of the remaining text.
pub fn clean_list_item_runs(runs: Vec<FormattedRun>) -> (r: Vec<FormattedRun>)
    ensures
        runs_view(r@) == spec_clean_list_runs(runs_view(runs@)),
{
    let ghost whole = runs_view(runs@);
    if runs.len() == 0 {
        proof {
            assert(runs_view(runs@) =~= Seq::<RunV>::empty());
        }
        return runs;
    }
    let combined = crate::cleanup::concat_runs_text(&runs);
    let t = trimmed(&combined);
    let k = list_prefix_len(&t);
    if k == 0 {
        proof {
            assert(runs_view(runs@) =~= spec_clean_list_runs(runs_view(runs@)));
        }
        return runs;
    }
    proof {
        assert(spec_clean_list_runs(whole) == spec_drop_prefix_runs(whole, k as int));
    }
    // Remove `k` characters from the front of the run sequence.
    let mut rest = runs;
    let mut remaining = k;
    let ghost orig_view = whole;
    while rest.len() > 0 && remaining > 0
        invariant
            spec_drop_prefix_runs(orig_view, k as int) == spec_drop_prefix_runs(
                runs_view(rest@),
                remaining as int,
            ),
            remaining <= k,
        decreases rest@.len(), remaining,
    {
        let ghost pre = runs_view(rest@);
        let first_len = crate::text::chars_of(rest[0].text.as_str()).len();
        if first_len <= remaining {
            let ghost dropped = rest@[0]@;
            let _ = rest.remove(0);
            remaining = remaining - first_len;
            proof {
                assert(runs_view(rest@) =~= pre.drop_first());
                assert(pre[0].text.len() == first_len);
            }
        } else {
            // Split inside this run: keep its tail, trimmed at the start.
            let cs = crate::text::chars_of(rest[0].text.as_str());
            let mut kept: Vec<char> = Vec::new();
            let mut i = remaining;
            while i < cs.len()
                invariant
                    remaining <= i <= cs@.len(),
                    kept@ == cs@.subrange(remaining as int, i as int),
                decreases cs@.len() - i,
            {
                kept.push(cs[i]);
                proof {
                    assert(kept@ =~= cs@.subrange(remaining as int, i + 1));
                }
                i = i + 1;
            }
            proof {
                assert(kept@ =~= cs@.skip(remaining as int));
            }
            let kt = crate::text::trimmed_front(&kept);
            let fmt = rest[0].formatting.clone();
            let _ = rest.remove(0);
            let nr = FormattedRun { text: crate::text::string_of(&kt), formatting: fmt };
            rest.insert(0, nr);
            proof {
                assert(runs_view(rest@) =~= seq![
                    RunV { text: trim_front(pre[0].text.skip(remaining as int)), fmt: pre[0].fmt },
                ] + pre.drop_first());
            }
            remaining = 0;
        }
    }
    proof {
        assert(spec_drop_prefix_runs(runs_view(rest@), 0) == runs_view(rest@));
        if remaining > 0 {
            assert(rest@.len() == 0);
            assert(runs_view(rest@) =~= Seq::<RunV>::empty());
            assert(spec_drop_prefix_runs(runs_view(rest@), remaining as int) == runs_view(rest@));
        }
    }
    rest
}

/// The cleaned run sequence of a text-detected list item.
pub open spec fn spec_clean_list_runs(rs: Seq<RunV>) -> Seq<RunV> {
    if rs.len() == 0 {
        rs
    } else {
        let t = spec_trim(concat_text(rs));
        let k = spec_list_prefix_len(t);
        if k == 0 {
            rs
        } else {
            spec_drop_prefix_runs(rs, k)
        }
    }
}

/// The executable prefix length over the trimmed combined text.
fn list_prefix_len(t: &Vec<char>) -> (k: usize)
    ensures
        k == spec_list_prefix_len(t@),
{
    let bullet: Vec<char> = vec!['\u{2022}', ' '];
    let dash: Vec<char> = vec!['-', ' '];
    let star: Vec<char> = vec!['*', ' '];
    if crate::text::starts_with_sub(t, &bullet) || crate::text::starts_with_sub(t, &dash)
        || crate::text::starts_with_sub(t, &star) {
        return 2;
    }
    let n = t.len();
    let dot = find_char_from(t, 0, '.');
    proof {
        assert(t@.skip(0) =~= t@);
    }
    if dot < n {
        let mut all_digits = true;
        let mut j: usize = 0;
        while j < dot
            invariant
                dot <= t@.len(),
                j <= dot,
                all_digits == (forall|x: int| 0 <= x < j ==> is_digit_char(#[trigger] t@[x])),
            decreases dot - j,
        {
            if !crate::text::is_digit(t[j]) {
                all_digits = false;
                proof {
                    assert(!is_digit_char(t@[j as int]));
                }
                j = dot;
            } else {
                j = j + 1;
            }
        }
        if all_digits {
            if dot + 1 < n {
                if t[dot + 1] == ' ' {
                    return dot + 2;
                }
            }
            return dot + 1;
        }
        if n > 2 && t[1] == '.' && crate::text::is_alpha_ascii(t[0]) {
            if t[2] == ' ' {
                return 3;
            }
            return 2;
        }
        return 0;
    }
    0
}

/// Whether a list paragraph's text marks an ordered item: its trimmed
/// text starts with a digit.
pub open spec fn spec_para_ordered(text: Seq<char>) -> bool {
    let t = spec_trim(text);
    t.len() > 0 && is_digit_char(t[0])
}

fn para_ordered_exec(text: &Vec<char>) -> (r: bool)
    ensures
        r == spec_para_ordered(text@),
{
    let t = trimmed(text);
    t.len() > 0 && crate::text::is_digit(t[0])
}

/// The flushed accumulator: one list element, or nothing when empty.
pub open spec fn spec_flush(acc: Seq<ItemV>, ordered: bool) -> Seq<ElemV> {
    if acc.len() == 0 {
        Seq::<ElemV>::empty()
    } else {
        seq![ElemV::List { items: acc, ordered }]
    }
}

/// The list item a list paragraph becomes: cleaned runs at the level the
/// leading white space gives.
pub open spec fn spec_para_item(runs: Seq<RunV>) -> ItemV {
    ItemV { runs: spec_clean_list_runs(runs), level: spec_list_level(concat_text(runs)) }
}

/// Grouping of consecutive text-detected list paragraphs into list
/// elements, carrying the accumulated items and their ordered flag.
pub open spec fn spec_group(s: Seq<ElemV>, acc: Seq<ItemV>, ordered: bool) -> Seq<ElemV>
    decreases s.len(),
{
    if s.len() == 0 {
        spec_flush(acc, ordered)
    } else {
        let e = s[0];
        match e {
            ElemV::Paragraph { runs } => {
                let text = concat_text(runs);
                if spec_is_likely_list_item(text) {
                    let is_ord = spec_para_ordered(text);
                    let item = spec_para_item(runs);
                    if acc.len() > 0 && is_ord != ordered {
                        spec_flush(acc, ordered) + spec_group(s.drop_first(), seq![item], is_ord)
                    } else {
                        spec_group(s.drop_first(), acc.push(item), is_ord)
                    }
                } else {
                    spec_flush(acc, ordered) + seq![e] + spec_group(
                        s.drop_first(),
                        Seq::<ItemV>::empty(),
                        ordered,
                    )
                }
            },
            _ => spec_flush(acc, ordered) + seq![e] + spec_group(
                s.drop_first(),
                Seq::<ItemV>::empty(),
                ordered,
            ),
        }
    }
}

/// Coalesces consecutive text-detected list paragraphs into single list
/// elements, flushing at every non-list element and at every switch
/// between ordered and unordered.
pub fn group_list_items(elements: Vec<DocumentElement>) -> (r: Vec<DocumentElement>)
    ensures
        crate::models::elems_view(r@) == spec_group(
            crate::models::elems_view(elements@),
            Seq::<ItemV>::empty(),
            false,
        ),
{
    let ghost orig = crate::models::elems_view(elements@);
    let ghost goal = spec_group(orig, Seq::<ItemV>::empty(), false);
    let mut input = elements;
    let mut out: Vec<DocumentElement> = Vec::new();
    let mut acc: Vec<ListItem> = Vec::new();
    let mut acc_ordered: bool = false;
    proof {
        assert(crate::models::elems_view(input@) =~= orig);
        assert(crate::models::elems_view(out@) =~= Seq::<ElemV>::empty());
        assert(crate::models::items_view(acc@) =~= Seq::<ItemV>::empty());
        assert(Seq::<ElemV>::empty() + goal =~= goal);
    }
    while input.len() > 0
        invariant
            goal == crate::models::elems_view(out@) + spec_group(
                crate::models::elems_view(input@),
                crate::models::items_view(acc@),
                acc_ordered,
            ),
        decreases input@.len(),
    {
        let ghost pre_in = crate::models::elems_view(input@);
        let ghost pre_acc = crate::models::items_view(acc@);
        let ghost pre_out = crate::models::elems_view(out@);
        let ghost pre_ord = acc_ordered;
        let e = input.remove(0);
        proof {
            assert(crate::models::elems_view(input@) =~= pre_in.drop_first());
            assert(e@ == pre_in[0]);
        }
        match e {
            DocumentElement::Paragraph { runs } => {
                let ghost runs_v = runs_view(runs@);
                proof {
                    assert(pre_in[0] == ElemV::Paragraph { runs: runs_v });
                }
                let text = crate::cleanup::concat_runs_text(&runs);
                let text_str = crate::text::string_of(&text);
                if is_likely_list_item(text_str.as_str()) {
                    let ghost item = spec_para_item(runs_v);
                    let is_ord = para_ordered_exec(&text);
                    if acc.len() > 0 && is_ord != acc_ordered {
                        let items = acc;
                        acc = Vec::new();
                        out.push(DocumentElement::List { items, ordered: acc_ordered });
                        proof {
                            assert(crate::models::elems_view(out@) =~= pre_out + spec_flush(
                                pre_acc,
                                pre_ord,
                            ));
                            assert(crate::models::items_view(acc@) =~= Seq::<ItemV>::empty());
                        }
                    }
                    let level = calculate_list_level(text_str.as_str());
                    let clean_runs = clean_list_item_runs(runs);
                    acc.push(ListItem { runs: clean_runs, level });
                    acc_ordered = is_ord;
                    proof {
                        if pre_acc.len() > 0 && is_ord != pre_ord {
                            assert(crate::models::items_view(acc@) =~= seq![item]);
                            assert(spec_group(pre_in, pre_acc, pre_ord) == spec_flush(
                                pre_acc,
                                pre_ord,
                            ) + spec_group(pre_in.drop_first(), seq![item], is_ord));
                            assert(pre_out + (spec_flush(pre_acc, pre_ord) + spec_group(
                                pre_in.drop_first(),
                                seq![item],
                                is_ord,
                            )) =~= (pre_out + spec_flush(pre_acc, pre_ord)) + spec_group(
                                pre_in.drop_first(),
                                seq![item],
                                is_ord,
                            ));
                        } else {
                            assert(crate::models::items_view(acc@) =~= pre_acc.push(item));
                            assert(spec_group(pre_in, pre_acc, pre_ord) == spec_group(
                                pre_in.drop_first(),
                                pre_acc.push(item),
                                is_ord,
                            ));
                        }
                    }
                } else {
                    if acc.len() > 0 {
                        let items = acc;
                        acc = Vec::new();
                        out.push(DocumentElement::List { items, ordered: acc_ordered });
                    }
                    out.push(DocumentElement::Paragraph { runs });
                    proof {
                        assert(crate::models::items_view(acc@) =~= Seq::<ItemV>::empty());
                        assert(crate::models::elems_view(out@) =~= (pre_out + spec_flush(
                            pre_acc,
                            pre_ord,
                        )).push(pre_in[0]));
                        assert(spec_group(pre_in, pre_acc, pre_ord) == spec_flush(pre_acc, pre_ord)
                            + seq![pre_in[0]] + spec_group(
                            pre_in.drop_first(),
                            Seq::<ItemV>::empty(),
                            pre_ord,
                        ));
                        assert(pre_out + (spec_flush(pre_acc, pre_ord) + seq![pre_in[0]]
                            + spec_group(
                            pre_in.drop_first(),
                            Seq::<ItemV>::empty(),
                            pre_ord,
                        )) =~= ((pre_out + spec_flush(pre_acc, pre_ord)).push(pre_in[0]))
                            + spec_group(pre_in.drop_first(), Seq::<ItemV>::empty(), pre_ord));
                    }
                }
            },
            other => {
                if acc.len() > 0 {
                    let items = acc;
                    acc = Vec::new();
                    out.push(DocumentElement::List { items, ordered: acc_ordered });
                }
                out.push(other);
                proof {
                    assert(crate::models::items_view(acc@) =~= Seq::<ItemV>::empty());
                    assert(crate::models::elems_view(out@) =~= (pre_out + spec_flush(
                        pre_acc,
                        pre_ord,
                    )).push(pre_in[0]));
                    assert(spec_group(pre_in, pre_acc, pre_ord) == spec_flush(pre_acc, pre_ord)
                        + seq![pre_in[0]] + spec_group(
                        pre_in.drop_first(),
                        Seq::<ItemV>::empty(),
                        pre_ord,
                    ));
                    assert(pre_out + (spec_flush(pre_acc, pre_ord) + seq![pre_in[0]] + spec_group(
                        pre_in.drop_first(),
                        Seq::<ItemV>::empty(),
                        pre_ord,
                    )) =~= ((pre_out + spec_flush(pre_acc, pre_ord)).push(pre_in[0]))
                        + spec_group(pre_in.drop_first(), Seq::<ItemV>::empty(), pre_ord));
                }
            },
        }
    }
    if acc.len() > 0 {
        let ghost fin_out = crate::models::elems_view(out@);
        let ghost fin_acc = crate::models::items_view(acc@);
        out.push(DocumentElement::List { items: acc, ordered: acc_ordered });
        proof {
            assert(crate::models::elems_view(input@).len() == 0);
            assert(crate::models::elems_view(input@) =~= Seq::<ElemV>::empty());
            assert(spec_group(Seq::<ElemV>::empty(), fin_acc, acc_ordered) == spec_flush(
                fin_acc,
                acc_ordered,
            ));
            assert(crate::models::elems_view(out@) =~= fin_out + spec_flush(
                fin_acc,
                acc_ordered,
            ));
        }
    } else {
        proof {
            assert(crate::models::elems_view(input@) =~= Seq::<ElemV>::empty());
            assert(crate::models::items_view(acc@) =~= Seq::<ItemV>::empty());
            assert(spec_flush(Seq::<ItemV>::empty(), acc_ordered) =~= Seq::<ElemV>::empty());
            assert(crate::models::elems_view(out@) + Seq::<ElemV>::empty()
                =~= crate::models::elems_view(out@));
        }
    }
    out
}

} // verus!
