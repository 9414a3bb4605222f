//! Read-only document queries: case-insensitive full-text search over
//! every element's flattened text, and outline generation from headings.

use vstd::prelude::*;

use crate::equation::find_pat;
use crate::models::{
    concat_text, elems_view, Document, DocumentElement, ElemV, OutlineItem, SearchResult,
};
use crate::text::{lower_of, match_at, spec_trim};

verus! {

/// The mathematical value of a `SearchResult`.
#[verifier::ext_equal]
pub struct SearchV {
    pub element_index: int,
    pub text: Seq<char>,
    pub start_pos: int,
    pub end_pos: int,
}

impl View for SearchResult {
    type V = SearchV;

    open spec fn view(&self) -> SearchV {
        SearchV {
            element_index: self.element_index as int,
            text: self.text@,
            start_pos: self.start_pos as int,
            end_pos: self.end_pos as int,
        }
    }
}

pub open spec fn results_view(s: Seq<SearchResult>) -> Seq<SearchV> {
    s.map_values(|r: SearchResult| r@)
}

/// One match of the lowered query in one text: the position is the first
/// occurrence within the lowercase equivalent of the text, and the match
/// spans the raw query's length.
pub open spec fn text_hit(text: Seq<char>, i: int, ql: Seq<char>, qlen: int) -> Seq<SearchV> {
    let low = lower_of(text);
    let p = find_pat(low, ql);
    if p < low.len() && match_at(low, ql, p as int) && p + qlen <= usize::MAX {
        seq![
            SearchV { element_index: i, text: text, start_pos: p as int, end_pos: p + qlen },
        ]
    } else {
        Seq::<SearchV>::empty()
    }
}

/// The matches among the first `k` list items of element `i`.
pub open spec fn list_hits(
    items: Seq<crate::models::ItemV>,
    i: int,
    ql: Seq<char>,
    qlen: int,
    k: int,
) -> Seq<SearchV>
    decreases k,
{
    if k <= 0 {
        Seq::<SearchV>::empty()
    } else {
        list_hits(items, i, ql, qlen, k - 1) + text_hit(concat_text(items[k - 1].runs), i, ql, qlen)
    }
}

/// The matches among the first `k` cells of a row (or header row).
pub open spec fn cells_hits(
    cells: Seq<crate::models::CellV>,
    i: int,
    ql: Seq<char>,
    qlen: int,
    k: int,
) -> Seq<SearchV>
    decreases k,
{
    if k <= 0 {
        Seq::<SearchV>::empty()
    } else {
        cells_hits(cells, i, ql, qlen, k - 1) + text_hit(cells[k - 1].content, i, ql, qlen)
    }
}

/// The matches among the first `k` data rows of a table.
pub open spec fn rows_hits(
    rows: Seq<Seq<crate::models::CellV>>,
    i: int,
    ql: Seq<char>,
    qlen: int,
    k: int,
) -> Seq<SearchV>
    decreases k,
{
    if k <= 0 {
        Seq::<SearchV>::empty()
    } else {
        rows_hits(rows, i, ql, qlen, k - 1) + cells_hits(
            rows[k - 1],
            i,
            ql,
            qlen,
            rows[k - 1].len() as int,
        )
    }
}

/// The matches within one element, at its index.
pub open spec fn elem_hits(e: ElemV, i: int, ql: Seq<char>, qlen: int) -> Seq<SearchV> {
    match e {
        ElemV::Heading { level, text, number } => text_hit(text, i, ql, qlen),
        ElemV::Paragraph { runs } => text_hit(concat_text(runs), i, ql, qlen),
        ElemV::List { items, ordered } => list_hits(items, i, ql, qlen, items.len() as int),
        ElemV::Table { table } => cells_hits(
            table.headers,
            i,
            ql,
            qlen,
            table.headers.len() as int,
        ) + rows_hits(table.rows, i, ql, qlen, table.rows.len() as int),
        ElemV::Image { description, .. } => text_hit(description, i, ql, qlen),
        ElemV::Equation { latex, fallback } => text_hit(latex, i, ql, qlen),
        ElemV::PageBreak => Seq::<SearchV>::empty(),
    }
}

/// The matches among the first `n` elements.
pub open spec fn search_upto(elems: Seq<ElemV>, ql: Seq<char>, qlen: int, n: int) -> Seq<SearchV>
    decreases n,
{
    if n <= 0 {
        Seq::<SearchV>::empty()
    } else {
        search_upto(elems, ql, qlen, n - 1) + elem_hits(elems[n - 1], n - 1, ql, qlen)
    }
}

/// The search results for a query: one per matching element, list item or
/// table cell, in document order. Matching folds case through the full
/// lowercase mapping; an empty query, or one whose lowered form trims to
/// nothing, yields no results. The whole search is a function of the
/// query's lowered form and length alone.
pub open spec fn spec_search(elems: Seq<ElemV>, q: Seq<char>) -> Seq<SearchV> {
    let ql = lower_of(q);
    if q.len() == 0 || spec_trim(ql).len() == 0 {
        Seq::<SearchV>::empty()
    } else {
        search_upto(elems, ql, q.len() as int, elems.len() as int)
    }
}

/// Case does not change what a search returns: queries with the same
/// lowercase equivalent and the same length give the very same results.
pub proof fn lemma_search_case_insensitive(elems: Seq<ElemV>, q1: Seq<char>, q2: Seq<char>)
    requires
        lower_of(q1) == lower_of(q2),
        q1.len() == q2.len(),
    ensures
        spec_search(elems, q1) == spec_search(elems, q2),
{
}

/// An empty query yields no results.
pub proof fn lemma_search_empty_query(elems: Seq<ElemV>, q: Seq<char>)
    requires
        q.len() == 0,
    ensures
        spec_search(elems, q) == Seq::<SearchV>::empty(),
{
}

/// Every result spans exactly the query's length, starts before it ends,
/// and points at a real element.
pub proof fn lemma_search_positions(elems: Seq<ElemV>, q: Seq<char>, j: int)
    requires
        0 <= j < spec_search(elems, q).len(),
    ensures
        spec_search(elems, q)[j].end_pos - spec_search(elems, q)[j].start_pos == q.len(),
        q.len() > 0 ==> spec_search(elems, q)[j].start_pos < spec_search(elems, q)[j].end_pos,
        0 <= spec_search(elems, q)[j].element_index < elems.len(),
{
    let ql = lower_of(q);
    if !(q.len() == 0 || spec_trim(ql).len() == 0) {
        lemma_search_upto_positions(elems, ql, q.len() as int, elems.len() as int, j);
    }
}

proof fn lemma_hit_positions(text: Seq<char>, i: int, ql: Seq<char>, qlen: int, j: int)
    requires
        0 <= j < text_hit(text, i, ql, qlen).len(),
    ensures
        text_hit(text, i, ql, qlen)[j].end_pos - text_hit(text, i, ql, qlen)[j].start_pos == qlen,
        text_hit(text, i, ql, qlen)[j].start_pos >= 0,
        text_hit(text, i, ql, qlen)[j].element_index == i,
{
}

proof fn lemma_list_hits_positions(
    items: Seq<crate::models::ItemV>,
    i: int,
    ql: Seq<char>,
    qlen: int,
    k: int,
    j: int,
)
    requires
        0 <= j < list_hits(items, i, ql, qlen, k).len(),
    ensures
        list_hits(items, i, ql, qlen, k)[j].end_pos - list_hits(items, i, ql, qlen, k)[j].start_pos
            == qlen,
        list_hits(items, i, ql, qlen, k)[j].start_pos >= 0,
        list_hits(items, i, ql, qlen, k)[j].element_index == i,
    decreases k,
{
    if k > 0 {
        let pre = list_hits(items, i, ql, qlen, k - 1);
        if j < pre.len() {
            lemma_list_hits_positions(items, i, ql, qlen, k - 1, j);
        } else {
            lemma_hit_positions(concat_text(items[k - 1].runs), i, ql, qlen, j - pre.len());
        }
    }
}

proof fn lemma_cells_hits_positions(
    cells: Seq<crate::models::CellV>,
    i: int,
    ql: Seq<char>,
    qlen: int,
    k: int,
    j: int,
)
    requires
        0 <= j < cells_hits(cells, i, ql, qlen, k).len(),
    ensures
        cells_hits(cells, i, ql, qlen, k)[j].end_pos - cells_hits(cells, i, ql, qlen, k)[
            j
        ].start_pos == qlen,
        cells_hits(cells, i, ql, qlen, k)[j].start_pos >= 0,
        cells_hits(cells, i, ql, qlen, k)[j].element_index == i,
    decreases k,
{
    if k > 0 {
        let pre = cells_hits(cells, i, ql, qlen, k - 1);
        if j < pre.len() {
            lemma_cells_hits_positions(cells, i, ql, qlen, k - 1, j);
        } else {
            lemma_hit_positions(cells[k - 1].content, i, ql, qlen, j - pre.len());
        }
    }
}

proof fn lemma_rows_hits_positions(
    rows: Seq<Seq<crate::models::CellV>>,
    i: int,
    ql: Seq<char>,
    qlen: int,
    k: int,
    j: int,
)
    requires
        0 <= j < rows_hits(rows, i, ql, qlen, k).len(),
    ensures
        rows_hits(rows, i, ql, qlen, k)[j].end_pos - rows_hits(rows, i, ql, qlen, k)[j].start_pos
            == qlen,
        rows_hits(rows, i, ql, qlen, k)[j].start_pos >= 0,
        rows_hits(rows, i, ql, qlen, k)[j].element_index == i,
    decreases k,
{
    if k > 0 {
        let pre = rows_hits(rows, i, ql, qlen, k - 1);
        if j < pre.len() {
            lemma_rows_hits_positions(rows, i, ql, qlen, k - 1, j);
        } else {
            lemma_cells_hits_positions(
                rows[k - 1],
                i,
                ql,
                qlen,
                rows[k - 1].len() as int,
                j - pre.len(),
            );
        }
    }
}

proof fn lemma_elem_hits_positions(e: ElemV, i: int, ql: Seq<char>, qlen: int, j: int)
    requires
        0 <= j < elem_hits(e, i, ql, qlen).len(),
    ensures
        elem_hits(e, i, ql, qlen)[j].end_pos - elem_hits(e, i, ql, qlen)[j].start_pos == qlen,
        elem_hits(e, i, ql, qlen)[j].start_pos >= 0,
        elem_hits(e, i, ql, qlen)[j].element_index == i,
{
    match e {
        ElemV::Heading { level, text, number } => {
            lemma_hit_positions(text, i, ql, qlen, j);
        },
        ElemV::Paragraph { runs } => {
            lemma_hit_positions(concat_text(runs), i, ql, qlen, j);
        },
        ElemV::List { items, ordered } => {
            lemma_list_hits_positions(items, i, ql, qlen, items.len() as int, j);
        },
        ElemV::Table { table } => {
            let hh = cells_hits(table.headers, i, ql, qlen, table.headers.len() as int);
            if j < hh.len() {
                lemma_cells_hits_positions(
                    table.headers,
                    i,
                    ql,
                    qlen,
                    table.headers.len() as int,
                    j,
                );
            } else {
                lemma_rows_hits_positions(
                    table.rows,
                    i,
                    ql,
                    qlen,
                    table.rows.len() as int,
                    j - hh.len(),
                );
            }
        },
        ElemV::Image { description, .. } => {
            lemma_hit_positions(description, i, ql, qlen, j);
        },
        ElemV::Equation { latex, fallback } => {
            lemma_hit_positions(latex, i, ql, qlen, j);
        },
        ElemV::PageBreak => {},
    }
}

proof fn lemma_search_upto_positions(elems: Seq<ElemV>, ql: Seq<char>, qlen: int, n: int, j: int)
    requires
        0 <= j < search_upto(elems, ql, qlen, n).len(),
        n <= elems.len(),
    ensures
        search_upto(elems, ql, qlen, n)[j].end_pos - search_upto(elems, ql, qlen, n)[j].start_pos
            == qlen,
        search_upto(elems, ql, qlen, n)[j].start_pos >= 0,
        0 <= search_upto(elems, ql, qlen, n)[j].element_index < elems.len(),
    decreases n,
{
    if n > 0 {
        let pre = search_upto(elems, ql, qlen, n - 1);
        if j < pre.len() {
            lemma_search_upto_positions(elems, ql, qlen, n - 1, j);
        } else {
            lemma_elem_hits_positions(elems[n - 1], n - 1, ql, qlen, j - pre.len());
        }
    }
}

/// Searches one text; a hit is appended as a result at element `i`.
fn push_text_hit(
    out: &mut Vec<SearchResult>,
    text: &Vec<char>,
    i: usize,
    ql: &Vec<char>,
    qlen: usize,
)
    ensures
        results_view(final(out)@) == results_view(old(out)@) + text_hit(
            text@,
            i as int,
            ql@,
            qlen as int,
        ),
{
    let ghost pre = results_view(out@);
    let text_s = crate::text::string_of(text);
    let low_s = crate::text::lowercase(text_s.as_str());
    let low = crate::text::chars_of(low_s.as_str());
    match crate::text::find_sub(&low, ql) {
        Some(p) => {
            proof {
                if ql@.len() > 0 {
                    crate::equation::lemma_find_pat_at(low@, ql@, p as int);
                } else {
                    assert(low@.subrange(0, 0) =~= ql@);
                    assert(match_at(low@, ql@, 0));
                    assert(p == 0);
                    assert(find_pat(low@, ql@) == 0);
                }
            }
            if p < low.len() && qlen <= usize::MAX - p {
                let r = SearchResult {
                    element_index: i,
                    text: crate::text::string_of(text),
                    start_pos: p,
                    end_pos: p + qlen,
                };
                out.push(r);
                proof {
                    assert(results_view(out@) =~= pre + text_hit(
                        text@,
                        i as int,
                        ql@,
                        qlen as int,
                    ));
                }
            } else {
                proof {
                    assert(text_hit(text@, i as int, ql@, qlen as int)
                        =~= Seq::<SearchV>::empty());
                    assert(results_view(out@) =~= pre + text_hit(
                        text@,
                        i as int,
                        ql@,
                        qlen as int,
                    ));
                }
            }
        },
        None => {
            proof {
                if ql@.len() > 0 {
                    crate::equation::lemma_find_pat_at(low@, ql@, low@.len() as int);
                } else {
                    assert(low@.subrange(0, 0) =~= ql@);
                    assert(match_at(low@, ql@, 0));
                }
                assert(text_hit(text@, i as int, ql@, qlen as int) =~= Seq::<SearchV>::empty());
                assert(results_view(out@) =~= pre + text_hit(
                    text@,
                    i as int,
                    ql@,
                    qlen as int,
                ));
            }
        },
    }
}

/// Searches a document's elements for a query, case-insensitively under
/// the full lowercase mapping: every matching heading, paragraph, list
/// item, table cell, image description and equation yields one result
/// with the match's position; a blank query yields nothing.
pub fn search_document(document: &Document, query: &str) -> (r: Vec<SearchResult>)
    ensures
        results_view(r@) == spec_search(elems_view(document.elements@), query@),
{
    let qcs = crate::text::chars_of(query);
    let qlen = qcs.len();
    let low_q = crate::text::lowercase(query);
    let ql = crate::text::chars_of(low_q.as_str());
    let qt = crate::text::trimmed(&ql);
    let mut out: Vec<SearchResult> = Vec::new();
    if qlen == 0 || qt.len() == 0 {
        proof {
            assert(results_view(out@) =~= Seq::<SearchV>::empty());
        }
        return out;
    }
    let n = document.elements.len();
    let mut i: usize = 0;
    proof {
        assert(results_view(out@) =~= search_upto(
            elems_view(document.elements@),
            ql@,
            qlen as int,
            0,
        ));
    }
    while i < n
        invariant
            n == document.elements@.len(),
            ql@ == lower_of(query@),
            qlen == query@.len(),
            qlen > 0,
            spec_trim(ql@).len() != 0,
            i <= n,
            results_view(out@) == search_upto(
                elems_view(document.elements@),
                ql@,
                qlen as int,
                i as int,
            ),
        decreases n - i,
    {
        let ghost ev = elems_view(document.elements@);
        proof {
            assert(ev[i as int] == document.elements@[i as int]@);
        }
        match &document.elements[i] {
            DocumentElement::Heading { level, text, number } => {
                let tv = crate::text::chars_of(text.as_str());
                push_text_hit(&mut out, &tv, i, &ql, qlen);
            },
            DocumentElement::Paragraph { runs } => {
                let tv = crate::cleanup::concat_runs_text(runs);
                push_text_hit(&mut out, &tv, i, &ql, qlen);
            },
            DocumentElement::List { items, ordered } => {
                let m = items.len();
                let mut k: usize = 0;
                let ghost items_v = crate::models::items_view(items@);
                while k < m
                    invariant
                        m == items@.len(),
                        items_v == crate::models::items_view(items@),
                        items_v.len() == m,
                        k <= m,
                        ql@ == lower_of(query@),
                        qlen == query@.len(),
                        i < n,
                        results_view(out@) == search_upto(ev, ql@, qlen as int, i as int)
                            + list_hits(items_v, i as int, ql@, qlen as int, k as int),
                    decreases m - k,
                {
                    let tv = crate::cleanup::concat_runs_text(&items[k].runs);
                    proof {
                        assert(items_v[k as int] == items@[k as int]@);
                    }
                    push_text_hit(&mut out, &tv, i, &ql, qlen);
                    proof {
                        assert(results_view(out@) =~= search_upto(
                            ev,
                            ql@,
                            qlen as int,
                            i as int,
                        ) + list_hits(items_v, i as int, ql@, qlen as int, k + 1));
                    }
                    k = k + 1;
                }
                proof {
                    assert(elem_hits(ev[i as int], i as int, ql@, qlen as int) == list_hits(
                        items_v,
                        i as int,
                        ql@,
                        qlen as int,
                        m as int,
                    ));
                }
            },
            DocumentElement::Table { table } => {
                let ghost hv = crate::models::cells_view(table.headers@);
                let ghost rv = crate::table::rows_view(table.rows@);
                let hn = table.headers.len();
                let mut k: usize = 0;
                while k < hn
                    invariant
                        hn == table.headers@.len(),
                        hv == crate::models::cells_view(table.headers@),
                        hv.len() == hn,
                        k <= hn,
                        ql@ == lower_of(query@),
                        qlen == query@.len(),
                        i < n,
                        results_view(out@) == search_upto(ev, ql@, qlen as int, i as int)
                            + cells_hits(hv, i as int, ql@, qlen as int, k as int),
                    decreases hn - k,
                {
                    let tv = crate::text::chars_of(table.headers[k].content.as_str());
                    proof {
                        assert(hv[k as int] == table.headers@[k as int]@);
                    }
                    push_text_hit(&mut out, &tv, i, &ql, qlen);
                    proof {
                        assert(results_view(out@) =~= search_upto(
                            ev,
                            ql@,
                            qlen as int,
                            i as int,
                        ) + cells_hits(hv, i as int, ql@, qlen as int, k + 1));
                    }
                    k = k + 1;
                }
                let rn = table.rows.len();
                let mut t: usize = 0;
                while t < rn
                    invariant
                        rn == table.rows@.len(),
                        hn == table.headers@.len(),
                        hv == crate::models::cells_view(table.headers@),
                        rv == crate::table::rows_view(table.rows@),
                        rv.len() == rn,
                        hv.len() == hn,
                        t <= rn,
                        ql@ == lower_of(query@),
                        qlen == query@.len(),
                        i < n,
                        results_view(out@) == search_upto(ev, ql@, qlen as int, i as int)
                            + cells_hits(hv, i as int, ql@, qlen as int, hn as int) + rows_hits(
                            rv,
                            i as int,
                            ql@,
                            qlen as int,
                            t as int,
                        ),
                    decreases rn - t,
                {
                    let cn = table.rows[t].len();
                    let mut c: usize = 0;
                    proof {
                        assert(rv[t as int] == crate::models::cells_view(table.rows@[t as int]@));
                    }
                    while c < cn
                        invariant
                            t < rn == table.rows@.len(),
                            cn == table.rows@[t as int]@.len(),
                            hv == crate::models::cells_view(table.headers@),
                            rv == crate::table::rows_view(table.rows@),
                            rv[t as int] == crate::models::cells_view(table.rows@[t as int]@),
                            rv[t as int].len() == cn,
                            hn == table.headers@.len(),
                            hv.len() == hn,
                            c <= cn,
                            ql@ == lower_of(query@),
                            qlen == query@.len(),
                            i < n,
                            results_view(out@) == search_upto(ev, ql@, qlen as int, i as int)
                                + cells_hits(hv, i as int, ql@, qlen as int, hn as int)
                                + rows_hits(rv, i as int, ql@, qlen as int, t as int)
                                + cells_hits(
                                rv[t as int],
                                i as int,
                                ql@,
                                qlen as int,
                                c as int,
                            ),
                        decreases cn - c,
                    {
                        let tv = crate::text::chars_of(table.rows[t][c].content.as_str());
                        proof {
                            assert(rv[t as int][c as int] == table.rows@[t as int]@[c as int]@);
                        }
                        push_text_hit(&mut out, &tv, i, &ql, qlen);
                        proof {
                            assert(results_view(out@) =~= search_upto(
                                ev,
                                ql@,
                                qlen as int,
                                i as int,
                            ) + cells_hits(hv, i as int, ql@, qlen as int, hn as int)
                                + rows_hits(rv, i as int, ql@, qlen as int, t as int)
                                + cells_hits(rv[t as int], i as int, ql@, qlen as int, c + 1));
                        }
                        c = c + 1;
                    }
                    proof {
                        assert(results_view(out@) =~= search_upto(
                            ev,
                            ql@,
                            qlen as int,
                            i as int,
                        ) + cells_hits(hv, i as int, ql@, qlen as int, hn as int) + rows_hits(
                            rv,
                            i as int,
                            ql@,
                            qlen as int,
                            t + 1,
                        ));
                    }
                    t = t + 1;
                }
                proof {
                    assert(elem_hits(ev[i as int], i as int, ql@, qlen as int) == cells_hits(
                        hv,
                        i as int,
                        ql@,
                        qlen as int,
                        hn as int,
                    ) + rows_hits(rv, i as int, ql@, qlen as int, rn as int));
                    assert(search_upto(ev, ql@, qlen as int, i as int) + (cells_hits(
                        hv,
                        i as int,
                        ql@,
                        qlen as int,
                        hn as int,
                    ) + rows_hits(rv, i as int, ql@, qlen as int, rn as int)) =~= search_upto(
                        ev,
                        ql@,
                        qlen as int,
                        i as int,
                    ) + cells_hits(hv, i as int, ql@, qlen as int, hn as int) + rows_hits(
                        rv,
                        i as int,
                        ql@,
                        qlen as int,
                        rn as int,
                    ));
                }
            },
            DocumentElement::Image { description, .. } => {
                let tv = crate::text::chars_of(description.as_str());
                push_text_hit(&mut out, &tv, i, &ql, qlen);
            },
            DocumentElement::Equation { latex, fallback } => {
                let tv = crate::text::chars_of(latex.as_str());
                push_text_hit(&mut out, &tv, i, &ql, qlen);
            },
            DocumentElement::PageBreak => {
                proof {
                    assert(elem_hits(ev[i as int], i as int, ql@, qlen as int)
                        =~= Seq::<SearchV>::empty());
                }
            },
        }
        proof {
            assert(results_view(out@) =~= search_upto(ev, ql@, qlen as int, i + 1));
        }
        i = i + 1;
    }
    out
}

/// The mathematical value of an `OutlineItem`.
#[verifier::ext_equal]
pub struct OutlineV {
    pub title: Seq<char>,
    pub level: u8,
    pub element_index: int,
}

impl View for OutlineItem {
    type V = OutlineV;

    open spec fn view(&self) -> OutlineV {
        OutlineV {
            title: self.title@,
            level: self.level,
            element_index: self.element_index as int,
        }
    }
}

pub open spec fn outline_view(s: Seq<OutlineItem>) -> Seq<OutlineV> {
    s.map_values(|r: OutlineItem| r@)
}

/// A heading's outline title: its number, a space and its text when it is
/// numbered, else its text alone.
pub open spec fn heading_title(text: Seq<char>, number: Option<Seq<char>>) -> Seq<char> {
    match number {
        Some(nb) => nb + seq![' '] + text,
        None => text,
    }
}

/// The outline entries among the first `n` elements.
pub open spec fn outline_upto(elems: Seq<ElemV>, n: int) -> Seq<OutlineV>
    decreases n,
{
    if n <= 0 {
        Seq::<OutlineV>::empty()
    } else {
        outline_upto(elems, n - 1) + match elems[n - 1] {
            ElemV::Heading { level, text, number } => seq![
                OutlineV {
                    title: heading_title(text, number),
                    level: level,
                    element_index: n - 1,
                },
            ],
            _ => Seq::<OutlineV>::empty(),
        }
    }
}

/// Builds the outline: one entry per heading element, in order, with the
/// heading's number prefixed to its title when it has one.
pub fn generate_outline(document: &Document) -> (r: Vec<OutlineItem>)
    ensures
        outline_view(r@) == outline_upto(
            elems_view(document.elements@),
            document.elements@.len() as int,
        ),
{
    let mut out: Vec<OutlineItem> = Vec::new();
    let n = document.elements.len();
    let mut i: usize = 0;
    proof {
        assert(outline_view(out@) =~= outline_upto(elems_view(document.elements@), 0));
    }
    while i < n
        invariant
            n == document.elements@.len(),
            i <= n,
            outline_view(out@) == outline_upto(elems_view(document.elements@), i as int),
        decreases n - i,
    {
        let ghost ev = elems_view(document.elements@);
        proof {
            assert(ev[i as int] == document.elements@[i as int]@);
        }
        match &document.elements[i] {
            DocumentElement::Heading { level, text, number } => {
                let title: String = match number {
                    Some(nb) => {
                        let mut tv = crate::text::chars_of(nb.as_str());
                        tv.push(' ');
                        let mut tx = crate::text::chars_of(text.as_str());
                        tv.append(&mut tx);
                        proof {
                            assert(tv@ =~= heading_title(text@, Some(nb@)));
                        }
                        crate::text::string_of(&tv)
                    },
                    None => {
                        let tv = crate::text::chars_of(text.as_str());
                        crate::text::string_of(&tv)
                    },
                };
                out.push(OutlineItem { title, level: *level, element_index: i });
                proof {
                    assert(outline_view(out@) =~= outline_upto(ev, i + 1));
                }
            },
            _ => {
                proof {
                    assert(outline_view(out@) =~= outline_upto(ev, i + 1));
                }
            },
        }
        i = i + 1;
    }
    out
}

} // verus!
