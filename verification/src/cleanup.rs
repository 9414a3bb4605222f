//! Post-processing helpers: sentence detection for the heading heuristic,
//! and stripping of the internal marker that tags Word-numbered lists.

use vstd::prelude::*;

use crate::models::{
    concat_text, runs_view, items_view, DocumentElement, ElemV, FormattedRun, ItemV, ListItem,
    RunV,
};
use crate::text::{contains_seq, contains_sub, match_at, spec_trim, trimmed};

verus! {

/// The number of non-overlapping occurrences of `pat` in `s`, counted
/// left to right.
pub open spec fn count_matches(s: Seq<char>, pat: Seq<char>) -> int
    decreases s.len(),
{
    if pat.len() == 0 || s.len() < pat.len() {
        0
    } else if match_at(s, pat, 0) {
        1 + count_matches(s.skip(pat.len() as int), pat)
    } else {
        count_matches(s.skip(1), pat)
    }
}

fn count_matches_exec(v: &Vec<char>, pat: &Vec<char>) -> (r: usize)
    requires
        pat@.len() > 0,
    ensures
        r == count_matches(v@, pat@),
{
    let n = v.len();
    let m = pat.len();
    let mut i: usize = 0;
    let mut r: usize = 0;
    proof {
        assert(v@.skip(0) =~= v@);
    }
    while n - i >= m && i < n
        invariant
            n == v@.len(),
            m == pat@.len(),
            m > 0,
            i <= n,
            r <= i,
            r + count_matches(v@.skip(i as int), pat@) == count_matches(v@, pat@),
        decreases n - i,
    {
        let ghost rem = v@.skip(i as int);
        let mut hit = true;
        let mut j: usize = 0;
        while j < m
            invariant
                n == v@.len(),
                m == pat@.len(),
                i + m <= n,
                j <= m,
                hit == (forall|t: int| 0 <= t < j ==> v@[i + t] == pat@[t]),
            decreases m - j,
        {
            if v[i + j] != pat[j] {
                hit = false;
                proof {
                    assert(v@[i + j as int] != pat@[j as int]);
                }
                j = m;
            } else {
                j = j + 1;
            }
        }
        proof {
            assert(rem.len() >= m);
            if hit {
                assert forall|t: int| 0 <= t < m implies rem.subrange(0, m as int)[t] == pat@[t] by {
                    assert(rem[t] == v@[i + t]);
                }
                assert(rem.subrange(0, m as int) =~= pat@);
                assert(match_at(rem, pat@, 0));
            } else {
                if match_at(rem, pat@, 0) {
                    let t = choose|t: int| 0 <= t < m && v@[i + t] != pat@[t];
                    assert(rem.subrange(0, m as int)[t] == pat@[t]);
                    assert(rem[t] == v@[i + t]);
                    assert(false);
                }
            }
        }
        if hit {
            r = r + 1;
            proof {
                assert(v@.skip(i as int).skip(m as int) =~= v@.skip(i + m));
            }
            i = i + m;
        } else {
            proof {
                assert(v@.skip(i as int).skip(1) =~= v@.skip(i + 1));
            }
            i = i + 1;
        }
    }
    proof {
        assert(count_matches(v@.skip(i as int), pat@) == 0);
    }
    r
}

/// The four connector words whose presence marks a sentence.
pub open spec fn sentence_connectors() -> Seq<Seq<char>> {
    seq![
        seq![' ', 'a', 'n', 'd', ' '],
        seq![' ', 'b', 'u', 't', ' '],
        seq![' ', 'h', 'o', 'w', 'e', 'v', 'e', 'r', ' '],
        seq![' ', 't', 'h', 'e', 'r', 'e', 'f', 'o', 'r', 'e', ' '],
    ]
}

/// Whether trimmed text reads like a sentence rather than a heading:
/// several sentence breaks, a long text with terminal punctuation, or a
/// common connector word.
pub open spec fn spec_is_likely_sentence(text: Seq<char>) -> bool {
    let t = spec_trim(text);
    ||| count_matches(t, seq!['.', ' ']) > 1
    ||| (t.len() > 80 && (t.last() == '.' || t.last() == '!' || t.last() == '?'))
    ||| contains_seq(t, sentence_connectors()[0])
    ||| contains_seq(t, sentence_connectors()[1])
    ||| contains_seq(t, sentence_connectors()[2])
    ||| contains_seq(t, sentence_connectors()[3])
}

pub fn is_likely_sentence(text: &str) -> (r: bool)
    ensures
        r == spec_is_likely_sentence(text@),
{
    let cs = crate::text::chars_of(text);
    let t = trimmed(&cs);
    let dot_space: Vec<char> = vec!['.', ' '];
    if count_matches_exec(&t, &dot_space) > 1 {
        return true;
    }
    if t.len() > 80 {
        let last = t[t.len() - 1];
        if last == '.' || last == '!' || last == '?' {
            return true;
        }
    }
    let c_and: Vec<char> = vec![' ', 'a', 'n', 'd', ' '];
    let c_but: Vec<char> = vec![' ', 'b', 'u', 't', ' '];
    let c_how: Vec<char> = vec![' ', 'h', 'o', 'w', 'e', 'v', 'e', 'r', ' '];
    let c_the: Vec<char> = vec![' ', 't', 'h', 'e', 'r', 'e', 'f', 'o', 'r', 'e', ' '];
    proof {
        assert(c_and@ =~= sentence_connectors()[0]);
        assert(c_but@ =~= sentence_connectors()[1]);
        assert(c_how@ =~= sentence_connectors()[2]);
        assert(c_the@ =~= sentence_connectors()[3]);
    }
    contains_sub(&t, &c_and) || contains_sub(&t, &c_but) || contains_sub(&t, &c_how)
        || contains_sub(&t, &c_the)
}

/// The internal marker that tags a run produced for a Word-numbered list.
pub open spec fn word_list_marker() -> Seq<char> {
    seq!['_', '_', 'W', 'O', 'R', 'D', '_', 'L', 'I', 'S', 'T', '_', '_']
}

pub fn word_list_marker_vec() -> (r: Vec<char>)
    ensures
        r@ == word_list_marker(),
{
    let r: Vec<char> = vec!['_', '_', 'W', 'O', 'R', 'D', '_', 'L', 'I', 'S', 'T', '_', '_'];
    proof {
        assert(r@ =~= word_list_marker());
    }
    r
}

/// A run with the marker prefix removed from its text; any other run is
/// returned unchanged.
pub open spec fn spec_strip_marker_run(r: RunV) -> RunV {
    if match_at(r.text, word_list_marker(), 0) {
        RunV { text: r.text.skip(word_list_marker().len() as int), fmt: r.fmt }
    } else {
        r
    }
}

fn strip_marker_run(run: &FormattedRun) -> (r: FormattedRun)
    ensures
        r@ == spec_strip_marker_run(run@),
{
    let marker = word_list_marker_vec();
    let cs = crate::text::chars_of(run.text.as_str());
    if crate::text::starts_with_sub(&cs, &marker) {
        let n = cs.len();
        let mut rest: Vec<char> = Vec::new();
        let mut i: usize = 13;
        proof {
            assert(word_list_marker().len() == 13);
            assert(n >= 13);
        }
        while i < n
            invariant
                n == cs@.len(),
                13 <= i <= n,
                rest@ == cs@.subrange(13, i as int),
            decreases n - i,
        {
            rest.push(cs[i]);
            proof {
                assert(rest@ =~= cs@.subrange(13, i + 1));
            }
            i = i + 1;
        }
        proof {
            assert(rest@ =~= cs@.skip(13));
        }
        FormattedRun {
            text: crate::text::string_of(&rest),
            formatting: run.formatting.clone(),
        }
    } else {
        run.clone()
    }
}

/// A run sequence with the marker stripped from each run that carries it.
pub open spec fn spec_strip_marker_runs(rs: Seq<RunV>) -> Seq<RunV> {
    rs.map_values(|r: RunV| spec_strip_marker_run(r))
}

fn strip_marker_runs(runs: &Vec<FormattedRun>) -> (r: Vec<FormattedRun>)
    ensures
        runs_view(r@) == spec_strip_marker_runs(runs_view(runs@)),
{
    let mut out: Vec<FormattedRun> = Vec::new();
    let mut i: usize = 0;
    let n = runs.len();
    while i < n
        invariant
            n == runs@.len(),
            i <= n,
            out@.len() == i,
            forall|j: int|
                0 <= j < i ==> (#[trigger] out@[j])@ == spec_strip_marker_run(runs@[j]@),
        decreases n - i,
    {
        out.push(strip_marker_run(&runs[i]));
        i = i + 1;
    }
    proof {
        assert forall|j: int| 0 <= j < n implies runs_view(out@)[j] == spec_strip_marker_runs(
            runs_view(runs@),
        )[j] by {
            assert(out@[j]@ == spec_strip_marker_run(runs@[j]@));
        }
        assert(runs_view(out@) =~= spec_strip_marker_runs(runs_view(runs@)));
    }
    out
}

/// A list item whose combined text starts with the marker has the marker
/// stripped from its first run; other items are unchanged.
pub open spec fn spec_clean_item(it: ItemV) -> ItemV {
    if match_at(concat_text(it.runs), word_list_marker(), 0) && it.runs.len() > 0 {
        ItemV { runs: it.runs.update(0, spec_strip_marker_run(it.runs[0])), level: it.level }
    } else {
        it
    }
}

fn clean_item(item: &ListItem) -> (r: ListItem)
    ensures
        r@ == spec_clean_item(item@),
{
    let combined = concat_runs_text(&item.runs);
    let marker = word_list_marker_vec();
    if crate::text::starts_with_sub(&combined, &marker) && item.runs.len() > 0 {
        let mut new_runs: Vec<FormattedRun> = Vec::new();
        new_runs.push(strip_marker_run(&item.runs[0]));
        let mut i: usize = 1;
        let n = item.runs.len();
        while i < n
            invariant
                n == item.runs@.len(),
                1 <= i <= n,
                new_runs@.len() == i,
                new_runs@[0]@ == spec_strip_marker_run(item.runs@[0]@),
                forall|j: int| 1 <= j < i ==> (#[trigger] new_runs@[j])@ == item.runs@[j]@,
            decreases n - i,
        {
            new_runs.push(item.runs[i].clone());
            i = i + 1;
        }
        proof {
            let u = runs_view(item.runs@).update(
                0,
                spec_strip_marker_run(runs_view(item.runs@)[0]),
            );
            assert forall|j: int| 0 <= j < n implies runs_view(new_runs@)[j] == u[j] by {
                if j == 0 {
                    assert(new_runs@[0]@ == spec_strip_marker_run(item.runs@[0]@));
                } else {
                    assert(new_runs@[j]@ == item.runs@[j]@);
                }
            }
            assert(runs_view(new_runs@) =~= u);
        }
        ListItem { runs: new_runs, level: item.level }
    } else {
        item.clone()
    }
}

/// The combined text of a vector of runs, as one character vector.
pub fn concat_runs_text(runs: &Vec<FormattedRun>) -> (r: Vec<char>)
    ensures
        r@ == concat_text(runs_view(runs@)),
{
    let mut out: Vec<char> = Vec::new();
    let mut i: usize = 0;
    let n = runs.len();
    proof {
        lemma_concat_text_take(runs_view(runs@), 0);
    }
    while i < n
        invariant
            n == runs@.len(),
            i <= n,
            out@ == concat_text_upto(runs_view(runs@), i as int),
        decreases n - i,
    {
        let mut t = crate::text::chars_of(runs[i].text.as_str());
        out.append(&mut t);
        proof {
            assert(runs_view(runs@)[i as int] == runs@[i as int]@);
            assert(out@ =~= concat_text_upto(runs_view(runs@), i + 1));
        }
        i = i + 1;
    }
    proof {
        lemma_concat_text_upto_all(runs_view(runs@));
    }
    out
}

/// The concatenation of the first `n` runs' text.
pub open spec fn concat_text_upto(s: Seq<RunV>, n: int) -> Seq<char>
    decreases n,
{
    if n <= 0 {
        Seq::<char>::empty()
    } else {
        concat_text_upto(s, n - 1) + s[n - 1].text
    }
}

proof fn lemma_concat_text_take(s: Seq<RunV>, n: int)
    ensures
        concat_text_upto(s, 0) == Seq::<char>::empty(),
{
}

/// Prefix concatenation over the whole sequence is the full concatenation.
pub proof fn lemma_concat_text_upto_all(s: Seq<RunV>)
    ensures
        concat_text_upto(s, s.len() as int) == concat_text(s),
    decreases s.len(),
{
    if s.len() > 0 {
        lemma_concat_text_upto_all(s.drop_first());
        lemma_concat_upto_shift(s, s.len() as int);
        assert(s[0].text + concat_text_upto(s.drop_first(), s.len() - 1) == concat_text_upto(
            s,
            s.len() as int,
        ));
    } else {
        assert(concat_text_upto(s, 0) =~= concat_text(s));
    }
}

proof fn lemma_concat_upto_shift(s: Seq<RunV>, n: int)
    requires
        s.len() > 0,
        0 <= n <= s.len(),
    ensures
        concat_text_upto(s, n) == if n == 0 {
            Seq::<char>::empty()
        } else {
            s[0].text + concat_text_upto(s.drop_first(), n - 1)
        },
    decreases n,
{
    if n > 0 {
        lemma_concat_upto_shift(s, n - 1);
        if n == 1 {
            assert(concat_text_upto(s, 1) =~= s[0].text + concat_text_upto(s.drop_first(), 0));
        } else {
            assert(s.drop_first()[n - 2] == s[n - 1]);
            assert(s[0].text + concat_text_upto(s.drop_first(), n - 1) =~= (s[0].text
                + concat_text_upto(s.drop_first(), n - 2)) + s[n - 1].text);
        }
    }
}

/// One element with internal list markers removed: paragraph runs are each
/// stripped, list items are stripped on their first run, anything else is
/// unchanged.
pub open spec fn spec_clean_element(e: ElemV) -> ElemV {
    match e {
        ElemV::Paragraph { runs } => ElemV::Paragraph { runs: spec_strip_marker_runs(runs) },
        ElemV::List { items, ordered } => ElemV::List {
            items: items.map_values(|it: ItemV| spec_clean_item(it)),
            ordered,
        },
        _ => e,
    }
}

/// Removes the internal Word-list marker from every element.
pub fn clean_word_list_markers(elements: Vec<DocumentElement>) -> (r: Vec<DocumentElement>)
    ensures
        crate::models::elems_view(r@) == crate::models::elems_view(elements@).map_values(
            |e: ElemV| spec_clean_element(e),
        ),
{
    let ghost orig = elements@;
    let mut out: Vec<DocumentElement> = Vec::new();
    let mut i: usize = 0;
    let n = elements.len();
    while i < n
        invariant
            n == elements@.len(),
            elements@ == orig,
            i <= n,
            out@.len() == i,
            forall|j: int|
                0 <= j < i ==> (#[trigger] out@[j])@ == spec_clean_element(orig[j]@),
        decreases n - i,
    {
        let cleaned: DocumentElement = match &elements[i] {
            DocumentElement::Paragraph { runs } => {
                let new_runs = strip_marker_runs(runs);
                proof {
                    assert(spec_clean_element(orig[i as int]@) == ElemV::Paragraph {
                        runs: spec_strip_marker_runs(runs_view(runs@)),
                    });
                }
                DocumentElement::Paragraph { runs: new_runs }
            },
            DocumentElement::List { items, ordered } => {
                let mut new_items: Vec<ListItem> = Vec::new();
                let mut k: usize = 0;
                let m = items.len();
                while k < m
                    invariant
                        m == items@.len(),
                        k <= m,
                        new_items@.len() == k,
                        forall|j: int|
                            0 <= j < k ==> (#[trigger] new_items@[j])@ == spec_clean_item(
                                items@[j]@,
                            ),
                    decreases m - k,
                {
                    new_items.push(clean_item(&items[k]));
                    k = k + 1;
                }
                proof {
                    assert forall|j: int| 0 <= j < m implies items_view(new_items@)[j]
                        == items_view(items@).map_values(|it: ItemV| spec_clean_item(it))[j] by {
                        assert(new_items@[j]@ == spec_clean_item(items@[j]@));
                    }
                    assert(items_view(new_items@) =~= items_view(items@).map_values(
                        |it: ItemV| spec_clean_item(it),
                    ));
                }
                DocumentElement::List { items: new_items, ordered: *ordered }
            },
            DocumentElement::Heading { level, text, number } => {
                let number2: Option<String> = match number {
                    Some(s2) => Some(s2.clone()),
                    None => None,
                };
                DocumentElement::Heading { level: *level, text: text.clone(), number: number2 }
            },
            DocumentElement::Table { table } => {
                let t = table.clone();
                DocumentElement::Table { table: t }
            },
            DocumentElement::Image { description, width, height, relationship_id, image_path } => {
                let rel: Option<String> = match relationship_id {
                    Some(s2) => Some(s2.clone()),
                    None => None,
                };
                let ip: Option<String> = match image_path {
                    Some(s2) => Some(s2.clone()),
                    None => None,
                };
                DocumentElement::Image {
                    description: description.clone(),
                    width: *width,
                    height: *height,
                    relationship_id: rel,
                    image_path: ip,
                }
            },
            DocumentElement::Equation { latex, fallback } => DocumentElement::Equation {
                latex: latex.clone(),
                fallback: fallback.clone(),
            },
            DocumentElement::PageBreak => DocumentElement::PageBreak,
        };
        proof {
            assert(cleaned@ == spec_clean_element(orig[i as int]@));
        }
        out.push(cleaned);
        i = i + 1;
    }
    proof {
        assert forall|j: int| 0 <= j < n implies crate::models::elems_view(out@)[j]
            == crate::models::elems_view(elements@).map_values(
            |e: ElemV| spec_clean_element(e),
        )[j] by {
            assert(out@[j]@ == spec_clean_element(orig[j]@));
        }
        assert(crate::models::elems_view(out@) =~= crate::models::elems_view(
            elements@,
        ).map_values(|e: ElemV| spec_clean_element(e)));
    }
    out
}

} // verus!
