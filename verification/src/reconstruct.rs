//! The reconstruction driver: per-paragraph classification, equation
//! splicing by paragraph index, display-equation merging, list grouping,
//! marker cleanup and final metadata.

use vstd::prelude::*;

use crate::models::{
    elems_view, runs_view, Document, DocumentElement, DocumentMetadata, ElemV, FormattedRun,
    ImageOptions, RunV, TextFormatting,
};
use crate::raw::{RawDocChild, RawParaChild, RawRunChild};

verus! {

/// One extracted equation with its rendering and position.
pub struct EquationInfo {
    pub latex: String,
    pub fallback: String,
    pub is_inline: bool,
    pub paragraph_index: usize,
}

/// The mathematical value of an `EquationInfo`.
#[verifier::ext_equal]
pub struct EqV {
    pub latex: Seq<char>,
    pub fallback: Seq<char>,
    pub is_inline: bool,
    pub paragraph_index: int,
}

impl View for EquationInfo {
    type V = EqV;

    open spec fn view(&self) -> EqV {
        EqV {
            latex: self.latex@,
            fallback: self.fallback@,
            is_inline: self.is_inline,
            paragraph_index: self.paragraph_index as int,
        }
    }
}

pub open spec fn eqs_view(s: Seq<EquationInfo>) -> Seq<EqV> {
    s.map_values(|e: EquationInfo| e@)
}

/// One piece of a paragraph's interleaving of text and inline equations.
pub enum ParagraphContent {
    Text(String),
    InlineEquation { latex: String, fallback: String },
}

/// The interleaved contents of one paragraph, keyed by its index.
pub struct ParaContents {
    pub index: usize,
    pub contents: Vec<ParagraphContent>,
}

/// One display-equation group: the equations of one paragraph index.
pub struct DisplayGroup {
    pub index: usize,
    pub equations: Vec<DocumentElement>,
}

pub open spec fn group_indices_sorted(gs: Seq<DisplayGroup>) -> bool {
    forall|a: int, b: int| 0 <= a < b < gs.len() ==> gs[a].index < gs[b].index
}

/// Whether an element advances the paragraph counter during the merge:
/// paragraphs, headings and lists each stand for one source paragraph.
pub open spec fn counts_as_paragraph(e: ElemV) -> bool {
    match e {
        ElemV::Paragraph { .. } => true,
        ElemV::Heading { .. } => true,
        ElemV::List { .. } => true,
        _ => false,
    }
}

pub open spec fn groups_view(gs: Seq<DisplayGroup>) -> Seq<(int, Seq<ElemV>)> {
    gs.map_values(|g: DisplayGroup| (g.index as int, elems_view(g.equations@)))
}

/// The merge of pending display-equation groups into the element stream:
/// before each paragraph-counting element, every group whose index falls
/// short of the next paragraph position is flushed; what remains is
/// appended at the end.
pub open spec fn spec_merge(
    es: Seq<ElemV>,
    gs: Seq<(int, Seq<ElemV>)>,
    para: int,
) -> Seq<ElemV>
    decreases es.len(), gs.len(),
{
    if es.len() == 0 {
        flatten_groups(gs)
    } else {
        let e = es[0];
        if counts_as_paragraph(e) {
            if gs.len() > 0 && gs[0].0 < para + 1 {
                gs[0].1 + spec_merge(es, gs.drop_first(), para)
            } else {
                seq![e] + spec_merge(es.drop_first(), gs, para + 1)
            }
        } else {
            seq![e] + spec_merge(es.drop_first(), gs, para)
        }
    }
}

pub open spec fn flatten_groups(gs: Seq<(int, Seq<ElemV>)>) -> Seq<ElemV>
    decreases gs.len(),
{
    if gs.len() == 0 {
        Seq::<ElemV>::empty()
    } else {
        gs[0].1 + flatten_groups(gs.drop_first())
    }
}

/// Everything in a sequence that is not an equation element, in order.
pub open spec fn drop_equations(s: Seq<ElemV>) -> Seq<ElemV>
    decreases s.len(),
{
    if s.len() == 0 {
        s
    } else {
        (if s[0] is Equation {
            Seq::<ElemV>::empty()
        } else {
            seq![s[0]]
        }) + drop_equations(s.drop_first())
    }
}

pub open spec fn all_equations(s: Seq<ElemV>) -> bool {
    forall|i: int| 0 <= i < s.len() ==> s[i] is Equation
}

pub open spec fn groups_all_equations(gs: Seq<(int, Seq<ElemV>)>) -> bool {
    forall|i: int| 0 <= i < gs.len() ==> all_equations(#[trigger] gs[i].1)
}

proof fn lemma_drop_equations_concat(a: Seq<ElemV>, b: Seq<ElemV>)
    ensures
        drop_equations(a + b) == drop_equations(a) + drop_equations(b),
    decreases a.len(),
{
    if a.len() == 0 {
        assert(a + b =~= b);
        assert(drop_equations(a) =~= Seq::<ElemV>::empty());
        assert(drop_equations(a) + drop_equations(b) =~= drop_equations(b));
    } else {
        lemma_drop_equations_concat(a.drop_first(), b);
        assert((a + b).drop_first() =~= a.drop_first() + b);
        assert((a + b)[0] == a[0]);
        assert((if a[0] is Equation {
            Seq::<ElemV>::empty()
        } else {
            seq![a[0]]
        }) + (drop_equations(a.drop_first()) + drop_equations(b)) =~= ((if a[0] is Equation {
            Seq::<ElemV>::empty()
        } else {
            seq![a[0]]
        }) + drop_equations(a.drop_first())) + drop_equations(b));
    }
}

proof fn lemma_drop_equations_all(s: Seq<ElemV>)
    requires
        all_equations(s),
    ensures
        drop_equations(s) == Seq::<ElemV>::empty(),
    decreases s.len(),
{
    if s.len() > 0 {
        assert(forall|i: int| 0 <= i < s.drop_first().len() ==> s.drop_first()[i] == s[i + 1]);
        lemma_drop_equations_all(s.drop_first());
        assert(drop_equations(s) =~= Seq::<ElemV>::empty());
    }
}

proof fn lemma_flatten_all_equations(gs: Seq<(int, Seq<ElemV>)>)
    requires
        groups_all_equations(gs),
    ensures
        drop_equations(flatten_groups(gs)) == Seq::<ElemV>::empty(),
    decreases gs.len(),
{
    if gs.len() > 0 {
        assert(all_equations(gs[0].1));
        assert(forall|i: int|
            0 <= i < gs.drop_first().len() ==> gs.drop_first()[i] == gs[i + 1]);
        lemma_flatten_all_equations(gs.drop_first());
        lemma_drop_equations_concat(gs[0].1, flatten_groups(gs.drop_first()));
        lemma_drop_equations_all(gs[0].1);
        assert(drop_equations(flatten_groups(gs)) =~= Seq::<ElemV>::empty());
    }
}

/// Splicing display equations into the stream never loses or reorders
/// the stream's own elements: with the inserted equations taken back
/// out, the merged stream reads exactly as before the merge.
pub proof fn lemma_merge_preserves_order(
    es: Seq<ElemV>,
    gs: Seq<(int, Seq<ElemV>)>,
    para: int,
)
    requires
        groups_all_equations(gs),
        forall|i: int| 0 <= i < es.len() ==> !((#[trigger] es[i]) is Equation),
    ensures
        drop_equations(spec_merge(es, gs, para)) == es,
    decreases es.len(), gs.len(),
{
    if es.len() == 0 {
        lemma_flatten_all_equations(gs);
        assert(drop_equations(spec_merge(es, gs, para)) =~= es);
    } else {
        let e = es[0];
        assert(forall|i: int|
            0 <= i < es.drop_first().len() ==> es.drop_first()[i] == es[i + 1]);
        if counts_as_paragraph(e) {
            if gs.len() > 0 && gs[0].0 < para + 1 {
                assert(forall|i: int|
                    0 <= i < gs.drop_first().len() ==> gs.drop_first()[i] == gs[i + 1]);
                lemma_merge_preserves_order(es, gs.drop_first(), para);
                lemma_drop_equations_concat(gs[0].1, spec_merge(es, gs.drop_first(), para));
                lemma_drop_equations_all(gs[0].1);
                assert(drop_equations(spec_merge(es, gs, para)) =~= es);
            } else {
                lemma_merge_preserves_order(es.drop_first(), gs, para + 1);
                lemma_drop_equations_concat(seq![e], spec_merge(es.drop_first(), gs, para + 1));
                assert(!(es[0] is Equation));
                assert(seq![e].drop_first() =~= Seq::<ElemV>::empty());
                assert(drop_equations(Seq::<ElemV>::empty()) =~= Seq::<ElemV>::empty());
                assert(drop_equations(seq![e]) =~= seq![e]);
                assert(drop_equations(spec_merge(es, gs, para)) =~= es);
            }
        } else {
            lemma_merge_preserves_order(es.drop_first(), gs, para);
            lemma_drop_equations_concat(seq![e], spec_merge(es.drop_first(), gs, para));
            assert(!(es[0] is Equation));
            assert(seq![e].drop_first() =~= Seq::<ElemV>::empty());
            assert(drop_equations(Seq::<ElemV>::empty()) =~= Seq::<ElemV>::empty());
            assert(drop_equations(seq![e]) =~= seq![e]);
            assert(drop_equations(spec_merge(es, gs, para)) =~= es);
        }
    }
}

/// Merges display equations into the element list at their paragraph
/// positions: each group lands before the first paragraph-counting
/// element at or past its index, and leftovers land at the end.
pub fn merge_display_equations(elements: Vec<DocumentElement>, groups: Vec<DisplayGroup>) -> (r:
    Vec<DocumentElement>)
    ensures
        elems_view(r@) == spec_merge(elems_view(elements@), groups_view(groups@), 0),
{
    let ghost goal = spec_merge(elems_view(elements@), groups_view(groups@), 0);
    let mut out: Vec<DocumentElement> = Vec::new();
    let mut input = elements;
    let mut pending = groups;
    let mut para: usize = 0;
    let n0 = input.len();
    proof {
        assert(elems_view(out@) =~= Seq::<ElemV>::empty());
        assert(Seq::<ElemV>::empty() + goal =~= goal);
    }
    while input.len() > 0
        invariant
            goal == elems_view(out@) + spec_merge(
                elems_view(input@),
                groups_view(pending@),
                para as int,
            ),
            para + input@.len() <= n0,
        decreases input@.len(), pending@.len(),
    {
        let ghost pre_in = elems_view(input@);
        let ghost pre_gs = groups_view(pending@);
        let ghost pre_out = elems_view(out@);
        let counts = match &input[0] {
            DocumentElement::Paragraph { .. } => true,
            DocumentElement::Heading { .. } => true,
            DocumentElement::List { .. } => true,
            _ => false,
        };
        if counts && pending.len() > 0 && pending[0].index < para + 1 {
            let g = pending.remove(0);
            let mut eqs = g.equations;
            let ghost eqs_v = elems_view(eqs@);
            proof {
                assert(groups_view(pending@) =~= pre_gs.drop_first());
                assert(pre_gs[0].1 == eqs_v);
            }
            let mut k: usize = 0;
            let n_eqs = eqs.len();
            proof {
                assert(eqs_v.take(0) =~= Seq::<ElemV>::empty());
                assert(elems_view(out@) =~= pre_out + eqs_v.take(0));
            }
            while k < n_eqs
                invariant
                    n_eqs == eqs@.len(),
                    eqs_v == elems_view(eqs@),
                    k <= n_eqs,
                    elems_view(out@) == pre_out + eqs_v.take(k as int),
                decreases n_eqs - k,
            {
                let ghost out_before = out@;
                let e = eqs[k].clone_element();
                out.push(e);
                proof {
                    assert(elems_view(out@) =~= elems_view(out_before).push(eqs@[k as int]@));
                    assert(eqs_v[k as int] == eqs@[k as int]@);
                    assert(eqs_v.take(k + 1) =~= eqs_v.take(k as int).push(eqs_v[k as int]));
                    assert(pre_out + eqs_v.take(k as int).push(eqs_v[k as int]) =~= (pre_out
                        + eqs_v.take(k as int)).push(eqs_v[k as int]));
                    assert(elems_view(out@) =~= pre_out + eqs_v.take(k + 1));
                }
                k = k + 1;
            }
            proof {
                assert(eqs_v.take(n_eqs as int) =~= eqs_v);
                assert(spec_merge(pre_in, pre_gs, para as int) == pre_gs[0].1 + spec_merge(
                    pre_in,
                    pre_gs.drop_first(),
                    para as int,
                ));
                assert(pre_out + (pre_gs[0].1 + spec_merge(
                    pre_in,
                    pre_gs.drop_first(),
                    para as int,
                )) =~= (pre_out + pre_gs[0].1) + spec_merge(
                    pre_in,
                    pre_gs.drop_first(),
                    para as int,
                ));
            }
        } else {
            let e = input.remove(0);
            proof {
                assert(elems_view(input@) =~= pre_in.drop_first());
                assert(e@ == pre_in[0]);
            }
            out.push(e);
            if counts {
                para = para + 1;
                proof {
                    assert(spec_merge(pre_in, pre_gs, (para - 1) as int) == seq![pre_in[0]]
                        + spec_merge(pre_in.drop_first(), pre_gs, para as int));
                    assert(pre_out + (seq![pre_in[0]] + spec_merge(
                        pre_in.drop_first(),
                        pre_gs,
                        para as int,
                    )) =~= elems_view(out@) + spec_merge(
                        pre_in.drop_first(),
                        pre_gs,
                        para as int,
                    ));
                }
            } else {
                proof {
                    assert(spec_merge(pre_in, pre_gs, para as int) == seq![pre_in[0]]
                        + spec_merge(pre_in.drop_first(), pre_gs, para as int));
                    assert(pre_out + (seq![pre_in[0]] + spec_merge(
                        pre_in.drop_first(),
                        pre_gs,
                        para as int,
                    )) =~= elems_view(out@) + spec_merge(
                        pre_in.drop_first(),
                        pre_gs,
                        para as int,
                    ));
                }
            }
        }
    }
    // Whatever groups remain land at the end, in order.
    proof {
        assert(elems_view(input@).len() == 0);
        assert(elems_view(input@) =~= Seq::<ElemV>::empty());
    }
    let mut gi: usize = 0;
    let gn = pending.len();
    proof {
        assert(goal =~= elems_view(out@) + flatten_groups(groups_view(pending@)));
        assert(groups_view(pending@).skip(0) =~= groups_view(pending@));
    }
    while gi < gn
        invariant
            gn == pending@.len(),
            gi <= gn,
            goal == elems_view(out@) + flatten_groups(groups_view(pending@).skip(gi as int)),
        decreases gn - gi,
    {
        let ghost gs_rest = groups_view(pending@).skip(gi as int);
        let ghost pre_out = elems_view(out@);
        let n_eqs = pending[gi].equations.len();
        let ghost eqs_v = elems_view(pending[gi as int].equations@);
        proof {
            assert(gs_rest[0] == groups_view(pending@)[gi as int]);
            assert(gs_rest.drop_first() =~= groups_view(pending@).skip(gi + 1));
        }
        let mut k: usize = 0;
        proof {
            assert(eqs_v.take(0) =~= Seq::<ElemV>::empty());
            assert(elems_view(out@) =~= pre_out + eqs_v.take(0));
        }
        while k < n_eqs
            invariant
                gi < pending@.len(),
                n_eqs == pending@[gi as int].equations@.len(),
                eqs_v == elems_view(pending@[gi as int].equations@),
                k <= n_eqs,
                elems_view(out@) == pre_out + eqs_v.take(k as int),
            decreases n_eqs - k,
        {
            let ghost out_before = out@;
            let e = pending[gi].equations[k].clone_element();
            out.push(e);
            proof {
                assert(elems_view(out@) =~= elems_view(out_before).push(
                    pending@[gi as int].equations@[k as int]@,
                ));
                assert(eqs_v[k as int] == pending@[gi as int].equations@[k as int]@);
                assert(eqs_v.take(k + 1) =~= eqs_v.take(k as int).push(eqs_v[k as int]));
                assert(pre_out + eqs_v.take(k as int).push(eqs_v[k as int]) =~= (pre_out
                    + eqs_v.take(k as int)).push(eqs_v[k as int]));
                assert(elems_view(out@) =~= pre_out + eqs_v.take(k + 1));
            }
            k = k + 1;
        }
        proof {
            assert(eqs_v.take(n_eqs as int) =~= eqs_v);
            assert(pre_out + (eqs_v + flatten_groups(
                groups_view(pending@).skip(gi + 1),
            )) =~= elems_view(out@) + flatten_groups(groups_view(pending@).skip(gi + 1)));
        }
        gi = gi + 1;
    }
    proof {
        assert(groups_view(pending@).skip(gn as int) =~= Seq::<(int, Seq<ElemV>)>::empty());
        assert(flatten_groups(Seq::<(int, Seq<ElemV>)>::empty()) =~= Seq::<ElemV>::empty());
        assert(elems_view(out@) + Seq::<ElemV>::empty() =~= elems_view(out@));
    }
    out
}

/// The mathematical value of a `ParagraphContent`.
#[verifier::ext_equal]
pub enum PCV {
    Text(Seq<char>),
    Inline { latex: Seq<char>, fallback: Seq<char> },
}

impl View for ParagraphContent {
    type V = PCV;

    open spec fn view(&self) -> PCV {
        match self {
            ParagraphContent::Text(t) => PCV::Text(t@),
            ParagraphContent::InlineEquation { latex, fallback } => PCV::Inline {
                latex: latex@,
                fallback: fallback@,
            },
        }
    }
}

pub open spec fn contents_view(s: Seq<ParagraphContent>) -> Seq<PCV> {
    s.map_values(|c: ParagraphContent| c@)
}

pub open spec fn para_contents_view(s: Seq<ParaContents>) -> Seq<(int, Seq<PCV>)> {
    s.map_values(|p: ParaContents| (p.index as int, contents_view(p.contents@)))
}

/// The first entry at `idx`, if one exists.
pub open spec fn lookup_contents(pcs: Seq<(int, Seq<PCV>)>, idx: int) -> Option<Seq<PCV>>
    decreases pcs.len(),
{
    if pcs.len() == 0 {
        None
    } else if pcs[0].0 == idx {
        Some(pcs[0].1)
    } else {
        lookup_contents(pcs.drop_first(), idx)
    }
}

pub open spec fn lookup_group(gs: Seq<(int, Seq<ElemV>)>, idx: int) -> Option<Seq<ElemV>>
    decreases gs.len(),
{
    if gs.len() == 0 {
        None
    } else if gs[0].0 == idx {
        Some(gs[0].1)
    } else {
        lookup_group(gs.drop_first(), idx)
    }
}

/// Whether any piece of a paragraph's contents is an inline equation.
pub open spec fn has_inline(cs: Seq<PCV>) -> bool
    decreases cs.len(),
{
    if cs.len() == 0 {
        false
    } else {
        (cs[0] is Inline) || has_inline(cs.drop_first())
    }
}

/// The run a flushed text accumulator becomes.
pub open spec fn flush_text(acc: Seq<char>) -> Seq<RunV> {
    if acc.len() > 0 {
        seq![RunV { text: acc, fmt: crate::models::default_fmt() }]
    } else {
        Seq::<RunV>::empty()
    }
}

/// The runs a paragraph's interleaved contents become: text accumulates,
/// and each inline equation flushes the text and stands as a dollar-
/// delimited run.
pub open spec fn rebuild_runs(cs: Seq<PCV>, acc: Seq<char>) -> Seq<RunV>
    decreases cs.len(),
{
    if cs.len() == 0 {
        flush_text(acc)
    } else {
        match cs[0] {
            PCV::Text(t) => rebuild_runs(cs.drop_first(), acc + t),
            PCV::Inline { latex, fallback } => flush_text(acc) + seq![
                RunV {
                    text: seq!['$'] + latex + seq!['$'],
                    fmt: crate::models::default_fmt(),
                },
            ] + rebuild_runs(cs.drop_first(), Seq::<char>::empty()),
        }
    }
}

/// The inline-equation splice: each paragraph (counted one-based) whose
/// contents hold an inline equation is rebuilt from its interleaving; a
/// paragraph with no recorded contents but a display group at its index
/// is replaced by the group; everything else passes through.
pub open spec fn spec_splice(
    es: Seq<ElemV>,
    pcs: Seq<(int, Seq<PCV>)>,
    gs: Seq<(int, Seq<ElemV>)>,
    para: int,
) -> Seq<ElemV>
    decreases es.len(),
{
    if es.len() == 0 {
        Seq::<ElemV>::empty()
    } else {
        match es[0] {
            ElemV::Paragraph { runs } => {
                let here = (match lookup_contents(pcs, para + 1) {
                    Some(cs) => {
                        if has_inline(cs) {
                            seq![ElemV::Paragraph { runs: rebuild_runs(cs, Seq::<char>::empty()) }]
                        } else {
                            seq![ElemV::Paragraph { runs }]
                        }
                    },
                    None => {
                        match lookup_group(gs, para + 1) {
                            Some(eqs) => eqs,
                            None => seq![ElemV::Paragraph { runs }],
                        }
                    },
                });
                here + spec_splice(es.drop_first(), pcs, gs, para + 1)
            },
            _ => seq![es[0]] + spec_splice(es.drop_first(), pcs, gs, para),
        }
    }
}

fn lookup_contents_exec<'a>(pcs: &'a Vec<ParaContents>, idx: usize) -> (r: Option<
    &'a Vec<ParagraphContent>,
>)
    ensures
        match r {
            Some(cs) => lookup_contents(para_contents_view(pcs@), idx as int) == Some(
                contents_view(cs@),
            ),
            None => lookup_contents(para_contents_view(pcs@), idx as int) is None,
        },
{
    let n = pcs.len();
    let mut i: usize = 0;
    proof {
        assert(para_contents_view(pcs@).skip(0) =~= para_contents_view(pcs@));
    }
    while i < n
        invariant
            n == pcs@.len(),
            i <= n,
            lookup_contents(para_contents_view(pcs@), idx as int) == lookup_contents(
                para_contents_view(pcs@).skip(i as int),
                idx as int,
            ),
        decreases n - i,
    {
        let ghost rest = para_contents_view(pcs@).skip(i as int);
        proof {
            assert(rest[0] == para_contents_view(pcs@)[i as int]);
            assert(rest.drop_first() =~= para_contents_view(pcs@).skip(i + 1));
        }
        if pcs[i].index == idx {
            return Some(&pcs[i].contents);
        }
        i = i + 1;
    }
    proof {
        assert(para_contents_view(pcs@).skip(n as int) =~= Seq::<(int, Seq<PCV>)>::empty());
    }
    None
}

fn lookup_group_exec<'a>(gs: &'a Vec<DisplayGroup>, idx: usize) -> (r: Option<
    &'a Vec<DocumentElement>,
>)
    ensures
        match r {
            Some(eqs) => lookup_group(groups_view(gs@), idx as int) == Some(elems_view(eqs@)),
            None => lookup_group(groups_view(gs@), idx as int) is None,
        },
{
    let n = gs.len();
    let mut i: usize = 0;
    proof {
        assert(groups_view(gs@).skip(0) =~= groups_view(gs@));
    }
    while i < n
        invariant
            n == gs@.len(),
            i <= n,
            lookup_group(groups_view(gs@), idx as int) == lookup_group(
                groups_view(gs@).skip(i as int),
                idx as int,
            ),
        decreases n - i,
    {
        let ghost rest = groups_view(gs@).skip(i as int);
        proof {
            assert(rest[0] == groups_view(gs@)[i as int]);
            assert(rest.drop_first() =~= groups_view(gs@).skip(i + 1));
        }
        if gs[i].index == idx {
            return Some(&gs[i].equations);
        }
        i = i + 1;
    }
    proof {
        assert(groups_view(gs@).skip(n as int) =~= Seq::<(int, Seq<ElemV>)>::empty());
    }
    None
}

fn has_inline_exec(cs: &Vec<ParagraphContent>) -> (r: bool)
    ensures
        r == has_inline(contents_view(cs@)),
{
    let n = cs.len();
    let mut i: usize = 0;
    proof {
        assert(contents_view(cs@).skip(0) =~= contents_view(cs@));
    }
    while i < n
        invariant
            n == cs@.len(),
            i <= n,
            has_inline(contents_view(cs@)) == has_inline(contents_view(cs@).skip(i as int)),
        decreases n - i,
    {
        let ghost rest = contents_view(cs@).skip(i as int);
        proof {
            assert(rest[0] == contents_view(cs@)[i as int]);
            assert(rest.drop_first() =~= contents_view(cs@).skip(i + 1));
        }
        match &cs[i] {
            ParagraphContent::InlineEquation { .. } => {
                return true;
            },
            _ => {},
        }
        i = i + 1;
    }
    proof {
        assert(contents_view(cs@).skip(n as int) =~= Seq::<PCV>::empty());
    }
    false
}

/// Rebuilds a paragraph's runs from its text and inline equations.
fn rebuild_runs_exec(cs: &Vec<ParagraphContent>) -> (r: Vec<FormattedRun>)
    ensures
        runs_view(r@) == rebuild_runs(contents_view(cs@), Seq::<char>::empty()),
{
    let mut out: Vec<FormattedRun> = Vec::new();
    let mut acc: Vec<char> = Vec::new();
    let n = cs.len();
    let mut i: usize = 0;
    proof {
        assert(contents_view(cs@).skip(0) =~= contents_view(cs@));
        assert(acc@ =~= Seq::<char>::empty());
        assert(runs_view(out@) =~= Seq::<RunV>::empty());
        assert(Seq::<RunV>::empty() + rebuild_runs(contents_view(cs@), Seq::<char>::empty())
            =~= rebuild_runs(contents_view(cs@), Seq::<char>::empty()));
    }
    while i < n
        invariant
            n == cs@.len(),
            i <= n,
            rebuild_runs(contents_view(cs@), Seq::<char>::empty()) == runs_view(out@)
                + rebuild_runs(contents_view(cs@).skip(i as int), acc@),
        decreases n - i,
    {
        let ghost rest = contents_view(cs@).skip(i as int);
        let ghost pre_out = runs_view(out@);
        let ghost pre_acc = acc@;
        proof {
            assert(rest[0] == contents_view(cs@)[i as int]);
            assert(rest.drop_first() =~= contents_view(cs@).skip(i + 1));
        }
        match &cs[i] {
            ParagraphContent::Text(t) => {
                let mut tv = crate::text::chars_of(t.as_str());
                acc.append(&mut tv);
                proof {
                    assert(acc@ =~= pre_acc + t@);
                }
            },
            ParagraphContent::InlineEquation { latex, fallback } => {
                if acc.len() > 0 {
                    let run = FormattedRun {
                        text: crate::text::string_of(&acc),
                        formatting: TextFormatting::default(),
                    };
                    out.push(run);
                    acc = Vec::new();
                }
                let mut dv: Vec<char> = Vec::new();
                dv.push('$');
                let mut lv = crate::text::chars_of(latex.as_str());
                dv.append(&mut lv);
                dv.push('$');
                let eqrun = FormattedRun {
                    text: crate::text::string_of(&dv),
                    formatting: TextFormatting::default(),
                };
                out.push(eqrun);
                proof {
                    assert(dv@ =~= seq!['$'] + latex@ + seq!['$']);
                    assert(acc@ =~= Seq::<char>::empty());
                    assert(runs_view(out@) =~= pre_out + flush_text(pre_acc) + seq![
                        RunV {
                            text: seq!['$'] + latex@ + seq!['$'],
                            fmt: crate::models::default_fmt(),
                        },
                    ]);
                    assert(pre_out + (flush_text(pre_acc) + seq![
                        RunV {
                            text: seq!['$'] + latex@ + seq!['$'],
                            fmt: crate::models::default_fmt(),
                        },
                    ] + rebuild_runs(contents_view(cs@).skip(i + 1), Seq::<char>::empty()))
                        =~= runs_view(out@) + rebuild_runs(
                        contents_view(cs@).skip(i + 1),
                        Seq::<char>::empty(),
                    ));
                }
            },
        }
        i = i + 1;
    }
    proof {
        assert(contents_view(cs@).skip(n as int) =~= Seq::<PCV>::empty());
    }
    if acc.len() > 0 {
        let run = FormattedRun {
            text: crate::text::string_of(&acc),
            formatting: TextFormatting::default(),
        };
        out.push(run);
        proof {
            assert(runs_view(out@) =~= runs_view(out@.drop_last()) + flush_text(acc@));
        }
    } else {
        proof {
            assert(flush_text(acc@) =~= Seq::<RunV>::empty());
            assert(runs_view(out@) + Seq::<RunV>::empty() =~= runs_view(out@));
        }
    }
    out
}

/// Splices inline equations into their paragraphs and replaces display-
/// equation paragraphs, by one-based paragraph index.
pub fn splice_equations(
    elements: Vec<DocumentElement>,
    inline: &Vec<ParaContents>,
    groups: &Vec<DisplayGroup>,
) -> (r: Vec<DocumentElement>)
    ensures
        elems_view(r@) == spec_splice(
            elems_view(elements@),
            para_contents_view(inline@),
            groups_view(groups@),
            0,
        ),
{
    let ghost pcs = para_contents_view(inline@);
    let ghost gsv = groups_view(groups@);
    let ghost goal = spec_splice(elems_view(elements@), pcs, gsv, 0);
    let mut input = elements;
    let mut out: Vec<DocumentElement> = Vec::new();
    let mut para: usize = 0;
    let n0 = input.len();
    proof {
        assert(elems_view(out@) =~= Seq::<ElemV>::empty());
        assert(Seq::<ElemV>::empty() + goal =~= goal);
    }
    while input.len() > 0
        invariant
            goal == elems_view(out@) + spec_splice(elems_view(input@), pcs, gsv, para as int),
            pcs == para_contents_view(inline@),
            gsv == groups_view(groups@),
            para + input@.len() <= n0,
        decreases input@.len(),
    {
        let ghost pre_in = elems_view(input@);
        let ghost pre_out = elems_view(out@);
        let e = input.remove(0);
        proof {
            assert(elems_view(input@) =~= pre_in.drop_first());
            assert(e@ == pre_in[0]);
        }
        match e {
            DocumentElement::Paragraph { runs } => {
                para = para + 1;
                match lookup_contents_exec(inline, para) {
                    Some(cs) => {
                        if has_inline_exec(cs) {
                            let new_runs = rebuild_runs_exec(cs);
                            out.push(DocumentElement::Paragraph { runs: new_runs });
                            proof {
                                assert(elems_view(out@) =~= pre_out + seq![
                                    ElemV::Paragraph {
                                        runs: rebuild_runs(
                                            contents_view(cs@),
                                            Seq::<char>::empty(),
                                        ),
                                    },
                                ]);
                                assert(pre_out + (seq![
                                    ElemV::Paragraph {
                                        runs: rebuild_runs(
                                            contents_view(cs@),
                                            Seq::<char>::empty(),
                                        ),
                                    },
                                ] + spec_splice(pre_in.drop_first(), pcs, gsv, para as int))
                                    =~= elems_view(out@) + spec_splice(
                                    pre_in.drop_first(),
                                    pcs,
                                    gsv,
                                    para as int,
                                ));
                            }
                        } else {
                            out.push(DocumentElement::Paragraph { runs });
                            proof {
                                assert(elems_view(out@) =~= pre_out + seq![pre_in[0]]);
                                assert(pre_out + (seq![pre_in[0]] + spec_splice(
                                    pre_in.drop_first(),
                                    pcs,
                                    gsv,
                                    para as int,
                                )) =~= elems_view(out@) + spec_splice(
                                    pre_in.drop_first(),
                                    pcs,
                                    gsv,
                                    para as int,
                                ));
                            }
                        }
                    },
                    None => {
                        match lookup_group_exec(groups, para) {
                            Some(eqs) => {
                                let ghost eqs_v = elems_view(eqs@);
                                let m = eqs.len();
                                let mut k: usize = 0;
                                proof {
                                    assert(eqs_v.take(0) =~= Seq::<ElemV>::empty());
                                    assert(elems_view(out@) =~= pre_out + eqs_v.take(0));
                                }
                                while k < m
                                    invariant
                                        m == eqs@.len(),
                                        eqs_v == elems_view(eqs@),
                                        k <= m,
                                        elems_view(out@) == pre_out + eqs_v.take(k as int),
                                    decreases m - k,
                                {
                                    let ghost out_before = out@;
                                    let e2 = eqs[k].clone_element();
                                    out.push(e2);
                                    proof {
                                        assert(elems_view(out@) =~= elems_view(
                                            out_before,
                                        ).push(eqs@[k as int]@));
                                        assert(eqs_v[k as int] == eqs@[k as int]@);
                                        assert(eqs_v.take(k + 1) =~= eqs_v.take(
                                            k as int,
                                        ).push(eqs_v[k as int]));
                                        assert(pre_out + eqs_v.take(k as int).push(
                                            eqs_v[k as int],
                                        ) =~= (pre_out + eqs_v.take(k as int)).push(
                                            eqs_v[k as int],
                                        ));
                                        assert(elems_view(out@) =~= pre_out + eqs_v.take(k + 1));
                                    }
                                    k = k + 1;
                                }
                                proof {
                                    assert(eqs_v.take(m as int) =~= eqs_v);
                                    assert(pre_out + (eqs_v + spec_splice(
                                        pre_in.drop_first(),
                                        pcs,
                                        gsv,
                                        para as int,
                                    )) =~= elems_view(out@) + spec_splice(
                                        pre_in.drop_first(),
                                        pcs,
                                        gsv,
                                        para as int,
                                    ));
                                }
                            },
                            None => {
                                out.push(DocumentElement::Paragraph { runs });
                                proof {
                                    assert(elems_view(out@) =~= pre_out + seq![pre_in[0]]);
                                    assert(pre_out + (seq![pre_in[0]] + spec_splice(
                                        pre_in.drop_first(),
                                        pcs,
                                        gsv,
                                        para as int,
                                    )) =~= elems_view(out@) + spec_splice(
                                        pre_in.drop_first(),
                                        pcs,
                                        gsv,
                                        para as int,
                                    ));
                                }
                            },
                        }
                    },
                }
            },
            other => {
                out.push(other);
                proof {
                    assert(elems_view(out@) =~= pre_out + seq![pre_in[0]]);
                    assert(pre_out + (seq![pre_in[0]] + spec_splice(
                        pre_in.drop_first(),
                        pcs,
                        gsv,
                        para as int,
                    )) =~= elems_view(out@) + spec_splice(
                        pre_in.drop_first(),
                        pcs,
                        gsv,
                        para as int,
                    ));
                }
            },
        }
    }
    proof {
        assert(elems_view(input@).len() == 0);
        assert(spec_splice(elems_view(input@), pcs, gsv, para as int) =~= Seq::<ElemV>::empty());
        assert(elems_view(out@) + Seq::<ElemV>::empty() =~= elems_view(out@));
    }
    out
}

/// The accumulated outcome of the classification pass: the elements so
/// far, the word total (saturating), the two numbering states and the
/// count of image files consumed.
#[verifier::ext_equal]
pub struct ClassV {
    pub elements: Seq<ElemV>,
    pub words: int,
    pub numbering: Map<(int, int), u32>,
    pub counters: Seq<u32>,
    pub images_used: int,
}

pub open spec fn strs_view(s: Seq<String>) -> Seq<Seq<char>> {
    s.map_values(|x: String| x@)
}

/// The description of the `used`-th extracted image, one-based.
pub open spec fn image_desc(used: int) -> Seq<char> {
    seq!['I', 'm', 'a', 'g', 'e', ' '] + crate::text::dec_rep(
        if used + 1 <= u32::MAX {
            used + 1
        } else {
            u32::MAX as int
        },
    )
}

pub open spec fn image_element(images: Seq<Seq<char>>, used: int) -> ElemV {
    ElemV::Image {
        description: image_desc(used),
        width: None,
        height: None,
        relationship_id: None,
        image_path: Some(images[used]),
    }
}

/// The image elements `d` drawings produce while extracted files last,
/// with the count of files consumed afterwards.
pub open spec fn add_images(images: Seq<Seq<char>>, used: int, d: int) -> (Seq<ElemV>, int)
    decreases d,
{
    if d <= 0 {
        (Seq::<ElemV>::empty(), used)
    } else {
        let prev = add_images(images, used, d - 1);
        if prev.1 < images.len() {
            (prev.0 + seq![image_element(images, prev.1)], prev.1 + 1)
        } else {
            prev
        }
    }
}

/// The number of drawings among the first `n` children of a run.
pub open spec fn drawings_in_run(cs: Seq<RawRunChild>, n: int) -> nat
    decreases n,
{
    if n <= 0 {
        0
    } else {
        drawings_in_run(cs, n - 1) + (match cs[n - 1] {
            RawRunChild::Drawing => 1nat,
            _ => 0nat,
        })
    }
}

/// The number of drawings among the first `n` children of a paragraph.
pub open spec fn drawings_in_para(cs: Seq<RawParaChild>, n: int) -> nat
    decreases n,
{
    if n <= 0 {
        0
    } else {
        drawings_in_para(cs, n - 1) + (match cs[n - 1] {
            RawParaChild::Run(r) => drawings_in_run(r.children@, r.children@.len() as int),
            _ => 0nat,
        })
    }
}

/// The formatted runs of a paragraph: one per run child whose plain text
/// is non-empty, carrying that run's formatting.
pub open spec fn spec_para_runs(cs: Seq<RawParaChild>, n: int) -> Seq<RunV>
    decreases n,
{
    if n <= 0 {
        Seq::<RunV>::empty()
    } else {
        spec_para_runs(cs, n - 1) + (match cs[n - 1] {
            RawParaChild::Run(r) => if crate::raw::spec_run_plain_text(r.children@).len() > 0 {
                seq![
                    RunV {
                        text: crate::raw::spec_run_plain_text(r.children@),
                        fmt: r.formatting@,
                    },
                ]
            } else {
                Seq::<RunV>::empty()
            },
            _ => Seq::<RunV>::empty(),
        })
    }
}

/// Two spaces of indent per nesting level.
pub open spec fn indent_spaces(level: int) -> Seq<char>
    decreases level,
{
    if level <= 0 {
        Seq::<char>::empty()
    } else {
        indent_spaces(level - 1) + seq![' ', ' ']
    }
}

/// The tagged prefix of a Word-numbered list paragraph: the internal
/// marker, the indent, then the sequential number or bullet.
pub open spec fn word_list_prefix(
    m: Map<(int, int), u32>,
    numpr: crate::raw::RawNumbering,
) -> Seq<char> {
    crate::cleanup::word_list_marker() + indent_spaces(numpr.level as int) + (if
    crate::list::spec_numbering_ordered(numpr.num_id, numpr.level) {
        match numpr.num_id {
            Some(id) => crate::numbering::spec_generated_number(
                m,
                id,
                numpr.level,
                crate::list::spec_numbering_format(id, numpr.level),
            ),
            None => crate::text::dec_rep(
                if numpr.level < 255 {
                    numpr.level + 1
                } else {
                    255int
                },
            ) + seq!['.', ' '],
        }
    } else {
        seq!['*', ' ']
    })
}

/// The classification of one document child, folded over the running
/// state: images first, then the paragraph's element under the priority
/// rules (Word list, styled heading, text-shape heading, plain
/// paragraph), or the extracted table.
pub open spec fn classify_step(
    st: ClassV,
    c: RawDocChild,
    enabled: bool,
    images: Seq<Seq<char>>,
) -> ClassV {
    match c {
        RawDocChild::Table(t) => ClassV {
            elements: st.elements + (match crate::table::spec_extract_table(t) {
                Some(tv) => seq![ElemV::Table { table: tv }],
                None => Seq::<ElemV>::empty(),
            }),
            words: st.words,
            numbering: st.numbering,
            counters: st.counters,
            images_used: st.images_used,
        },
        RawDocChild::Paragraph(p) => {
            let imgs = add_images(
                images,
                st.images_used,
                drawings_in_para(p.children@, p.children@.len() as int) as int,
            );
            let runs = spec_para_runs(p.children@, p.children@.len() as int);
            let total = crate::models::concat_text(runs);
            if crate::text::spec_trim(total).len() == 0 {
                ClassV {
                    elements: st.elements + imgs.0,
                    words: st.words,
                    numbering: st.numbering,
                    counters: st.counters,
                    images_used: imgs.1,
                }
            } else {
                let wc = crate::text::word_count(total);
                let words2 = if st.words + wc > usize::MAX {
                    usize::MAX as int
                } else {
                    st.words + wc
                };
                match p.numbering {
                    Some(numpr) => {
                        let elem = ElemV::Paragraph {
                            runs: seq![
                                RunV {
                                    text: word_list_prefix(st.numbering, numpr),
                                    fmt: crate::models::default_fmt(),
                                },
                            ] + runs,
                        };
                        let m2 = if crate::list::spec_numbering_ordered(
                            numpr.num_id,
                            numpr.level,
                        ) {
                            match numpr.num_id {
                                Some(id) => crate::numbering::after_generate(
                                    st.numbering,
                                    id,
                                    numpr.level,
                                ),
                                None => st.numbering,
                            }
                        } else {
                            st.numbering
                        };
                        ClassV {
                            elements: st.elements + imgs.0 + seq![elem],
                            words: words2,
                            numbering: m2,
                            counters: st.counters,
                            images_used: imgs.1,
                        }
                    },
                    None => {
                        match crate::heading::spec_detect_with_numbering(p) {
                            Some(info) => {
                                let text = match info.clean_text {
                                    Some(t) => t,
                                    None => total,
                                };
                                let auto = crate::numbering::track_label(
                                    st.counters,
                                    info.level,
                                );
                                let number = match info.number {
                                    Some(nb) => Some(nb),
                                    None => if enabled && auto.len() > 0 {
                                        Some(auto)
                                    } else {
                                        None
                                    },
                                };
                                let counters2 = if info.number is None && enabled {
                                    crate::numbering::after_bump(st.counters, info.level)
                                } else {
                                    st.counters
                                };
                                ClassV {
                                    elements: st.elements + imgs.0 + seq![
                                        ElemV::Heading { level: info.level, text, number },
                                    ],
                                    words: words2,
                                    numbering: st.numbering,
                                    counters: counters2,
                                    images_used: imgs.1,
                                }
                            },
                            None => {
                                let first_fmt = if runs.len() > 0 {
                                    runs[0].fmt
                                } else {
                                    crate::models::default_fmt()
                                };
                                let elem = match crate::heading::spec_detect_heading_from_text(
                                    total,
                                    first_fmt,
                                ) {
                                    Some(level) => ElemV::Heading {
                                        level,
                                        text: total,
                                        number: None,
                                    },
                                    None => ElemV::Paragraph {
                                        runs: crate::models::spec_consolidate(runs),
                                    },
                                };
                                ClassV {
                                    elements: st.elements + imgs.0 + seq![elem],
                                    words: words2,
                                    numbering: st.numbering,
                                    counters: st.counters,
                                    images_used: imgs.1,
                                }
                            },
                        }
                    },
                }
            }
        },
    }
}

/// The classification of the first `n` children, from an initial state.
pub open spec fn spec_classify(
    children: Seq<RawDocChild>,
    enabled: bool,
    images: Seq<Seq<char>>,
    init: ClassV,
    n: int,
) -> ClassV
    decreases n,
{
    if n <= 0 {
        init
    } else {
        classify_step(
            spec_classify(children, enabled, images, init, n - 1),
            children[n - 1],
            enabled,
            images,
        )
    }
}

/// Classifies the document children in order: each paragraph becomes its
/// images followed by a heading, Word-list paragraph, text-shape heading
/// or plain consolidated paragraph under the priority rules, and each
/// table its extracted element; words are counted as the pass goes.
fn classify_children(
    children: &Vec<RawDocChild>,
    numbering: &mut crate::numbering::DocumentNumberingManager,
    tracker: &mut crate::numbering::HeadingNumberTracker,
    image_paths: &Vec<String>,
) -> (r: (Vec<DocumentElement>, usize))
    requires
        old(numbering).wf(),
        old(tracker).wf(),
    ensures
        final(numbering).wf(),
        final(tracker).wf(),
        ({
            let fin = spec_classify(
                children@,
                old(tracker).enabled(),
                strs_view(image_paths@),
                ClassV {
                    elements: Seq::<ElemV>::empty(),
                    words: 0,
                    numbering: old(numbering)@,
                    counters: old(tracker).counters(),
                    images_used: 0,
                },
                children@.len() as int,
            );
            &&& elems_view(r.0@) == fin.elements
            &&& r.1 as int == fin.words
            &&& final(numbering)@ == fin.numbering
            &&& final(tracker).counters() == fin.counters
            &&& final(tracker).enabled() == old(tracker).enabled()
        }),
{
    let ghost enabled0 = old(tracker).enabled();
    let ghost imgs_v = strs_view(image_paths@);
    let ghost init = ClassV {
        elements: Seq::<ElemV>::empty(),
        words: 0,
        numbering: old(numbering)@,
        counters: old(tracker).counters(),
        images_used: 0,
    };
    let mut elements: Vec<DocumentElement> = Vec::new();
    let mut word_total: usize = 0;
    let mut images_used: usize = 0;
    let n = children.len();
    let mut i: usize = 0;
    proof {
        assert(elems_view(elements@) =~= init.elements);
    }
    while i < n
        invariant
            n == children@.len(),
            i <= n,
            numbering.wf(),
            tracker.wf(),
            tracker.enabled() == enabled0,
            imgs_v == strs_view(image_paths@),
            ({
                let st = spec_classify(children@, enabled0, imgs_v, init, i as int);
                &&& elems_view(elements@) == st.elements
                &&& word_total as int == st.words
                &&& numbering@ == st.numbering
                &&& tracker.counters() == st.counters
                &&& images_used as int == st.images_used
            }),
        decreases n - i,
    {
        let ghost st = spec_classify(children@, enabled0, imgs_v, init, i as int);
        let ghost st2 = classify_step(st, children@[i as int], enabled0, imgs_v);
        proof {
            assert(spec_classify(children@, enabled0, imgs_v, init, i + 1) == st2);
        }
        match &children[i] {
            RawDocChild::Paragraph(para) => {
                let heading_info = crate::heading::detect_heading_with_numbering(para);
                let list_info = crate::list::detect_list_from_paragraph_numbering(para);
                let cn = para.children.len();
                // Images: one element per drawing, while extracted files last.
                let ghost d_all = drawings_in_para(para.children@, para.children@.len() as int) as int;
                let ghost imgs = add_images(imgs_v, st.images_used, d_all);
                let mut ci: usize = 0;
                while ci < cn
                    invariant
                        cn == para.children@.len(),
                        ci <= cn,
                        imgs_v == strs_view(image_paths@),
                        ({
                            let part = add_images(
                                imgs_v,
                                st.images_used,
                                drawings_in_para(para.children@, ci as int) as int,
                            );
                            &&& elems_view(elements@) == st.elements + part.0
                            &&& images_used as int == part.1
                        }),
                    decreases cn - ci,
                {
                    let ghost d_pre = drawings_in_para(para.children@, ci as int) as int;
                    match &para.children[ci] {
                        RawParaChild::Run(run) => {
                            let rn = run.children.len();
                            let mut ri: usize = 0;
                            while ri < rn
                                invariant
                                    cn == para.children@.len(),
                                    ci < cn,
                                    para.children@[ci as int] matches RawParaChild::Run(rr)
                                        && rr == run,
                                    rn == run.children@.len(),
                                    ri <= rn,
                                    imgs_v == strs_view(image_paths@),
                                    d_pre == drawings_in_para(para.children@, ci as int),
                                    ({
                                        let part = add_images(
                                            imgs_v,
                                            st.images_used,
                                            d_pre + drawings_in_run(run.children@, ri as int) as int,
                                        );
                                        &&& elems_view(elements@) == st.elements + part.0
                                        &&& images_used as int == part.1
                                    }),
                                decreases rn - ri,
                            {
                                let ghost part_pre = add_images(
                                    imgs_v,
                                    st.images_used,
                                    d_pre + drawings_in_run(run.children@, ri as int) as int,
                                );
                                match &run.children[ri] {
                                    RawRunChild::Drawing => {
                                        if images_used < image_paths.len() {
                                            let mut desc: Vec<char> = vec![
                                                'I',
                                                'm',
                                                'a',
                                                'g',
                                                'e',
                                                ' ',
                                            ];
                                            let mut num = crate::text::u32_dec(
                                                if images_used < 0xFFFF_FFFF {
                                                    (images_used + 1) as u32
                                                } else {
                                                    0xFFFF_FFFFu32
                                                },
                                            );
                                            desc.append(&mut num);
                                            let path = image_paths[images_used].clone();
                                            let ghost pre_el = elems_view(elements@);
                                            elements.push(
                                                DocumentElement::Image {
                                                    description: crate::text::string_of(&desc),
                                                    width: None,
                                                    height: None,
                                                    relationship_id: None,
                                                    image_path: Some(path),
                                                },
                                            );
                                            proof {
                                                assert(desc@ =~= image_desc(
                                                    images_used as int,
                                                ));
                                                assert(imgs_v[images_used as int]
                                                    == image_paths@[images_used as int]@);
                                                assert(elems_view(elements@) =~= pre_el + seq![
                                                    image_element(imgs_v, images_used as int),
                                                ]);
                                            }
                                            images_used = images_used + 1;
                                        }
                                        proof {
                                            let dnew = d_pre + drawings_in_run(
                                                run.children@,
                                                ri + 1,
                                            ) as int;
                                            assert(drawings_in_run(run.children@, ri + 1)
                                                == drawings_in_run(run.children@, ri as int)
                                                + 1);
                                            assert(add_images(imgs_v, st.images_used, dnew)
                                                == if part_pre.1 < imgs_v.len() {
                                                (
                                                    part_pre.0 + seq![
                                                        image_element(imgs_v, part_pre.1),
                                                    ],
                                                    part_pre.1 + 1,
                                                )
                                            } else {
                                                part_pre
                                            });
                                            assert(st.elements + part_pre.0 + seq![
                                                image_element(imgs_v, part_pre.1),
                                            ] =~= st.elements + (part_pre.0 + seq![
                                                image_element(imgs_v, part_pre.1),
                                            ]));
                                        }
                                    },
                                    _ => {
                                        proof {
                                            assert(drawings_in_run(run.children@, ri + 1)
                                                == drawings_in_run(run.children@, ri as int));
                                        }
                                    },
                                }
                                ri = ri + 1;
                            }
                            proof {
                                assert(drawings_in_para(para.children@, ci + 1) == d_pre
                                    + drawings_in_run(
                                    run.children@,
                                    run.children@.len() as int,
                                ));
                            }
                        },
                        _ => {
                            proof {
                                assert(drawings_in_para(para.children@, ci + 1) == d_pre);
                            }
                        },
                    }
                    ci = ci + 1;
                }
                proof {
                    assert(drawings_in_para(para.children@, cn as int) == d_all);
                }
                // Formatted runs from the text children.
                let mut formatted_runs: Vec<FormattedRun> = Vec::new();
                let mut cj: usize = 0;
                while cj < cn
                    invariant
                        cn == para.children@.len(),
                        cj <= cn,
                        runs_view(formatted_runs@) == spec_para_runs(
                            para.children@,
                            cj as int,
                        ),
                    decreases cn - cj,
                {
                    let ghost pre_runs = runs_view(formatted_runs@);
                    match &para.children[cj] {
                        RawParaChild::Run(run) => {
                            let text = crate::raw::extract_run_plain_text(run);
                            if text.len() > 0 {
                                formatted_runs.push(
                                    FormattedRun {
                                        text: crate::text::string_of(&text),
                                        formatting: run.formatting.clone(),
                                    },
                                );
                                proof {
                                    assert(runs_view(formatted_runs@) =~= pre_runs + seq![
                                        RunV {
                                            text: crate::raw::spec_run_plain_text(
                                                run.children@,
                                            ),
                                            fmt: run.formatting@,
                                        },
                                    ]);
                                }
                            } else {
                                proof {
                                    assert(runs_view(formatted_runs@) =~= spec_para_runs(
                                        para.children@,
                                        cj + 1,
                                    ));
                                }
                            }
                        },
                        _ => {
                            proof {
                                assert(runs_view(formatted_runs@) =~= spec_para_runs(
                                    para.children@,
                                    cj + 1,
                                ));
                            }
                        },
                    }
                    cj = cj + 1;
                }
                let ghost runs_v = spec_para_runs(para.children@, cn as int);
                let ghost total = crate::models::concat_text(runs_v);
                let total_text = crate::cleanup::concat_runs_text(&formatted_runs);
                let trimmed_total = crate::text::trimmed(&total_text);
                if trimmed_total.len() > 0 {
                    let words = crate::text::count_words(&total_text);
                    word_total = if word_total <= usize::MAX - words {
                        word_total + words
                    } else {
                        usize::MAX
                    };
                    match list_info {
                        Some(info) => {
                            // A Word-numbered list paragraph, tagged for cleanup.
                            let ghost numpr = match children@[i as int] {
                                RawDocChild::Paragraph(pp) => pp.numbering->0,
                                RawDocChild::Table(_) => arbitrary(),
                            };
                            let mut prefix: Vec<char> = crate::cleanup::word_list_marker_vec();
                            let mut lvl: usize = 0;
                            let levels = info.level as usize;
                            while lvl < levels
                                invariant
                                    lvl <= levels,
                                    prefix@ == crate::cleanup::word_list_marker()
                                        + indent_spaces(lvl as int),
                                decreases levels - lvl,
                            {
                                prefix.push(' ');
                                prefix.push(' ');
                                proof {
                                    assert(prefix@ =~= crate::cleanup::word_list_marker()
                                        + indent_spaces(lvl + 1));
                                }
                                lvl = lvl + 1;
                            }
                            proof {
                                assert(prefix@ == crate::cleanup::word_list_marker()
                                    + indent_spaces(numpr.level as int));
                            }
                            if info.is_ordered {
                                match info.num_id {
                                    Some(num_id) => {
                                        let format = crate::list::get_numbering_format(
                                            num_id,
                                            info.level,
                                        );
                                        let number = numbering.generate_number(
                                            num_id,
                                            info.level,
                                            format,
                                        );
                                        let mut nv = crate::text::chars_of(number.as_str());
                                        prefix.append(&mut nv);
                                        proof {
                                            assert(prefix@ =~= word_list_prefix(
                                                st.numbering,
                                                numpr,
                                            ));
                                        }
                                    },
                                    None => {
                                        let mut nv = crate::text::u32_dec(
                                            if info.level < 255 {
                                                (info.level + 1) as u32
                                            } else {
                                                255u32
                                            },
                                        );
                                        prefix.append(&mut nv);
                                        prefix.push('.');
                                        prefix.push(' ');
                                        proof {
                                            assert(prefix@ =~= word_list_prefix(
                                                st.numbering,
                                                numpr,
                                            ));
                                        }
                                    },
                                }
                            } else {
                                prefix.push('*');
                                prefix.push(' ');
                                proof {
                                    assert(prefix@ =~= word_list_prefix(st.numbering, numpr));
                                }
                            }
                            let prefix_run = FormattedRun {
                                text: crate::text::string_of(&prefix),
                                formatting: TextFormatting::default(),
                            };
                            let mut updated: Vec<FormattedRun> = Vec::new();
                            updated.push(prefix_run);
                            let mut fr = formatted_runs;
                            updated.append(&mut fr);
                            let ghost pre_el = elems_view(elements@);
                            elements.push(DocumentElement::Paragraph { runs: updated });
                            proof {
                                assert(runs_view(updated@) =~= seq![
                                    RunV {
                                        text: word_list_prefix(st.numbering, numpr),
                                        fmt: crate::models::default_fmt(),
                                    },
                                ] + runs_v);
                                assert(elems_view(elements@) =~= st2.elements);
                            }
                        },
                        None => {
                            match heading_info {
                                Some(info) => {
                                    let ghost info_v = info@;
                                    let heading_text: String = match info.clean_text {
                                        Some(t) => t,
                                        None => crate::text::string_of(&total_text),
                                    };
                                    let number: Option<String> = match info.number {
                                        Some(nb) => Some(nb),
                                        None => {
                                            let auto = tracker.get_number(info.level);
                                            if auto.as_str().unicode_len() == 0 {
                                                None
                                            } else {
                                                Some(auto)
                                            }
                                        },
                                    };
                                    let ghost pre_el = elems_view(elements@);
                                    elements.push(
                                        DocumentElement::Heading {
                                            level: info.level,
                                            text: heading_text,
                                            number,
                                        },
                                    );
                                    proof {
                                        assert(elems_view(elements@) =~= st2.elements);
                                    }
                                },
                                None => {
                                    let default_fmt_val = TextFormatting::default();
                                    let first_fmt: &TextFormatting = if formatted_runs.len()
                                        > 0 {
                                        &formatted_runs[0].formatting
                                    } else {
                                        &default_fmt_val
                                    };
                                    let total_str = crate::text::string_of(&total_text);
                                    match crate::heading::detect_heading_from_text(
                                        total_str.as_str(),
                                        first_fmt,
                                    ) {
                                        Some(level) => {
                                            let ghost pre_el = elems_view(elements@);
                                            elements.push(
                                                DocumentElement::Heading {
                                                    level,
                                                    text: crate::text::string_of(&total_text),
                                                    number: None,
                                                },
                                            );
                                            proof {
                                                assert(elems_view(elements@)
                                                    =~= st2.elements);
                                            }
                                        },
                                        None => {
                                            let consolidated =
                                                FormattedRun::consolidate_runs(formatted_runs);
                                            let ghost pre_el = elems_view(elements@);
                                            elements.push(
                                                DocumentElement::Paragraph {
                                                    runs: consolidated,
                                                },
                                            );
                                            proof {
                                                assert(elems_view(elements@)
                                                    =~= st2.elements);
                                            }
                                        },
                                    }
                                },
                            }
                        },
                    }
                } else {
                    proof {
                        assert(elems_view(elements@) =~= st2.elements);
                    }
                }
            },
            RawDocChild::Table(table) => {
                match crate::table::extract_table_data(table) {
                    Some(el) => {
                        let ghost pre_el = elems_view(elements@);
                        elements.push(el);
                        proof {
                            assert(elems_view(elements@) =~= st2.elements);
                        }
                    },
                    None => {
                        proof {
                            assert(elems_view(elements@) =~= st2.elements);
                        }
                    },
                }
            },
        }
        i = i + 1;
    }
    (elements, word_total)
}

/// The display-equation element an extracted equation becomes.
pub open spec fn eq_element(e: EqV) -> ElemV {
    ElemV::Equation { latex: e.latex, fallback: e.fallback }
}

/// The display groups of an equation list: inline entries are dropped,
/// and each display entry joins the last group when its index repeats,
/// else opens a new group, keeping scan order.
pub open spec fn spec_group_displays(eqs: Seq<EqV>) -> Seq<(int, Seq<ElemV>)>
    decreases eqs.len(),
{
    if eqs.len() == 0 {
        Seq::<(int, Seq<ElemV>)>::empty()
    } else {
        let prev = spec_group_displays(eqs.drop_last());
        let e = eqs.last();
        if e.is_inline {
            prev
        } else if prev.len() > 0 && prev.last().0 == e.paragraph_index {
            prev.update(
                prev.len() - 1,
                (e.paragraph_index, prev.last().1.push(eq_element(e))),
            )
        } else {
            prev.push((e.paragraph_index, seq![eq_element(e)]))
        }
    }
}

/// Groups the display equations of an equation scan by their paragraph
/// index, preserving the scan's ascending order.
pub fn group_display_equations(equations: &Vec<EquationInfo>) -> (r: Vec<DisplayGroup>)
    requires
        forall|a: int, b: int|
            0 <= a < b < equations@.len() ==> (#[trigger] equations@[a].paragraph_index)
                <= #[trigger] equations@[b].paragraph_index,
    ensures
        group_indices_sorted(r@),
        groups_view(r@) == spec_group_displays(eqs_view(equations@)),
{
    let mut out: Vec<DisplayGroup> = Vec::new();
    let n = equations.len();
    let mut i: usize = 0;
    proof {
        assert(eqs_view(equations@).take(0) =~= Seq::<EqV>::empty());
        assert(groups_view(out@) =~= spec_group_displays(eqs_view(equations@).take(0)));
    }
    while i < n
        invariant
            n == equations@.len(),
            i <= n,
            group_indices_sorted(out@),
            groups_view(out@) == spec_group_displays(eqs_view(equations@).take(i as int)),
            forall|a: int, b: int|
                0 <= a < b < equations@.len() ==> (#[trigger] equations@[a].paragraph_index)
                    <= #[trigger] equations@[b].paragraph_index,
            forall|x: int|
                i <= x < n && out@.len() > 0 ==> out@[out@.len() - 1].index <= (
                #[trigger] equations@[x].paragraph_index),
        decreases n - i,
    {
        let ghost pre = out@;
        let ghost evs = eqs_view(equations@);
        proof {
            assert(evs.take(i + 1).drop_last() =~= evs.take(i as int));
            assert(evs.take(i + 1).last() == evs[i as int]);
            assert(evs[i as int] == equations@[i as int]@);
        }
        let eq = &equations[i];
        if eq.is_inline {
            i = i + 1;
            continue ;
        }
        let el = DocumentElement::Equation {
            latex: eq.latex.clone(),
            fallback: eq.fallback.clone(),
        };
        let idx = eq.paragraph_index;
        let push_new = if out.len() == 0 {
            true
        } else {
            out[out.len() - 1].index != idx
        };
        if push_new {
            let mut eqs: Vec<DocumentElement> = Vec::new();
            eqs.push(el);
            out.push(DisplayGroup { index: idx, equations: eqs });
            proof {
                assert(elems_view(eqs@) =~= seq![eq_element(equations@[i as int]@)]);
                assert(groups_view(out@) =~= groups_view(pre).push(
                    (idx as int, seq![eq_element(equations@[i as int]@)]),
                ));
                assert(groups_view(out@) =~= spec_group_displays(evs.take(i + 1)));
                assert forall|a: int, b: int| 0 <= a < b < out@.len() implies out@[a].index
                    < out@[b].index by {
                    if b < pre.len() {
                        assert(out@[a].index == pre[a].index);
                        assert(out@[b].index == pre[b].index);
                    } else {
                        assert(out@[b].index == idx);
                        assert(pre[pre.len() - 1].index <= equations@[i as int].paragraph_index);
                        if a < pre.len() - 1 {
                            assert(pre[a].index < pre[pre.len() - 1].index);
                        }
                        assert(out@[a].index == pre[a].index);
                    }
                }
            }
        } else {
            let last = out.len() - 1;
            let mut g = out.remove(last);
            g.equations.push(el);
            let ghost gidx = g.index;
            out.push(g);
            proof {
                assert(groups_view(pre).last() == groups_view(pre)[pre.len() - 1]);
                assert(elems_view(g.equations@) =~= groups_view(pre)[pre.len() - 1].1.push(
                    eq_element(equations@[i as int]@),
                ));
                assert(groups_view(out@) =~= groups_view(pre).update(
                    pre.len() - 1,
                    (
                        idx as int,
                        groups_view(pre)[pre.len() - 1].1.push(
                            eq_element(equations@[i as int]@),
                        ),
                    ),
                ));
                assert(groups_view(out@) =~= spec_group_displays(evs.take(i + 1)));
                assert(out@.len() == pre.len());
                assert forall|a: int, b: int| 0 <= a < b < out@.len() implies out@[a].index
                    < out@[b].index by {
                    assert(out@[a].index == pre[a].index);
                    assert(out@[b].index == pre[b].index);
                }
                assert forall|x: int|
                    i + 1 <= x < n && out@.len() > 0 implies out@[out@.len() - 1].index <= (
                #[trigger] equations@[x].paragraph_index) by {
                    assert(out@[out@.len() - 1].index == pre[pre.len() - 1].index);
                }
            }
        }
        i = i + 1;
    }
    proof {
        assert(eqs_view(equations@).take(n as int) =~= eqs_view(equations@));
    }
    out
}

/// The element stream and word total the whole reconstruction produces:
/// classification from fresh numbering state (with the document-wide
/// auto-numbering decision), inline-equation splicing, list grouping,
/// marker cleanup, then the display-equation merge.
pub open spec fn spec_build(
    children: Seq<RawDocChild>,
    inline_v: Seq<(int, Seq<PCV>)>,
    eqs_v: Seq<EqV>,
    images: Seq<Seq<char>>,
) -> (Seq<ElemV>, int) {
    let enabled = crate::heading::spec_analyze_heading_structure(children);
    let cls = spec_classify(
        children,
        enabled,
        images,
        ClassV {
            elements: Seq::<ElemV>::empty(),
            words: 0,
            numbering: Map::<(int, int), u32>::empty(),
            counters: Seq::new(6, |i: int| 0u32),
            images_used: 0,
        },
        children.len() as int,
    );
    let gs = spec_group_displays(eqs_v);
    let spliced = spec_splice(cls.elements, inline_v, gs, 0);
    let grouped = crate::list::spec_group(spliced, Seq::<crate::models::ItemV>::empty(), false);
    let cleaned = grouped.map_values(|e: ElemV| crate::cleanup::spec_clean_element(e));
    (spec_merge(cleaned, gs, 0), cls.words)
}

/// Builds a document from the raw children, the equation scans, the
/// extracted image paths and the load metadata: classification, equation
/// splicing and merging, list grouping, marker cleanup, and word and
/// page counts.
pub fn build_document(
    children: &Vec<RawDocChild>,
    inline: &Vec<ParaContents>,
    equations: &Vec<EquationInfo>,
    title: String,
    file_path: String,
    file_size: u64,
    image_paths: &Vec<String>,
    image_options: ImageOptions,
) -> (r: Document)
    requires
        forall|a: int, b: int|
            0 <= a < b < equations@.len() ==> (#[trigger] equations@[a].paragraph_index)
                <= #[trigger] equations@[b].paragraph_index,
    ensures
        r.title@ == title@,
        r.metadata.file_path@ == file_path@,
        r.metadata.file_size == file_size,
        elems_view(r.elements@) == spec_build(
            children@,
            para_contents_view(inline@),
            eqs_view(equations@),
            strs_view(image_paths@),
        ).0,
        r.metadata.word_count as int == spec_build(
            children@,
            para_contents_view(inline@),
            eqs_view(equations@),
            strs_view(image_paths@),
        ).1,
        r.metadata.page_count == (r.metadata.word_count + 249) / 250,
        r.metadata.created is None,
        r.metadata.modified is None,
        r.metadata.author is None,
        r.image_options == image_options,
{
    let mut numbering = crate::numbering::DocumentNumberingManager::new();
    let mut tracker = crate::numbering::HeadingNumberTracker::new();
    if crate::heading::analyze_heading_structure(children) {
        tracker.enable_auto_numbering();
    }
    proof {
        assert(tracker.counters() =~= Seq::new(6, |i: int| 0u32));
        assert(tracker.enabled() == crate::heading::spec_analyze_heading_structure(children@));
    }
    let classified = classify_children(children, &mut numbering, &mut tracker, image_paths);
    let elements0 = classified.0;
    let word_count = classified.1;
    let groups = group_display_equations(equations);
    let spliced = splice_equations(elements0, inline, &groups);
    let grouped = crate::list::group_list_items(spliced);
    let cleaned = crate::cleanup::clean_word_list_markers(grouped);
    let merged = merge_display_equations(cleaned, groups);
    let page_count = crate::estimate_page_count(word_count);
    let metadata = DocumentMetadata {
        file_path,
        file_size,
        word_count,
        page_count,
        created: None,
        modified: None,
        author: None,
    };
    Document { title, metadata, elements: merged, image_options }
}

} // verus!
