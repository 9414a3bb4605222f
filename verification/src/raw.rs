//! The raw paragraph/table model the reconstruction consumes: a plain-value
//! mirror of what the engine reads from an OOXML package, together with the
//! text extraction over it.

use vstd::prelude::*;

use crate::models::{FmtV, TextFormatting};
use crate::text::spec_trim;

verus! {

/// One child of a run: a text piece, a tab, a line break, or a drawing.
pub enum RawRunChild {
    Text(String),
    Tab,
    Break,
    Drawing,
}

/// One run with its formatting, as read from the package.
pub struct RawRun {
    pub children: Vec<RawRunChild>,
    pub formatting: TextFormatting,
}

/// One child of a paragraph: a run, a tracked insertion, or a tracked
/// deletion (deletions carry nothing — they are skipped).
pub enum RawParaChild {
    Run(RawRun),
    Insert(Vec<RawRun>),
    Delete,
}

/// A paragraph's numbering property: the definition id, if the package
/// names one, and the level (zero when absent).
pub struct RawNumbering {
    pub num_id: Option<i32>,
    pub level: u8,
}

/// One paragraph: style name, numbering property and children.
pub struct RawParagraph {
    pub style: Option<String>,
    pub numbering: Option<RawNumbering>,
    pub children: Vec<RawParaChild>,
}

/// One table cell, flattened to the runs of its paragraphs.
pub struct RawCell {
    pub runs: Vec<RawRun>,
}

/// One table row.
pub struct RawRow {
    pub cells: Vec<RawCell>,
}

/// One table.
pub struct RawTable {
    pub rows: Vec<RawRow>,
}

/// One top-level child of the document body, in reading order.
pub enum RawDocChild {
    Paragraph(RawParagraph),
    Table(RawTable),
}

/// The text one run child contributes: its text, a tab, a line break, or
/// an image placeholder.
pub open spec fn spec_run_child_text(c: RawRunChild) -> Seq<char> {
    match c {
        RawRunChild::Text(s) => s@,
        RawRunChild::Tab => seq!['\t'],
        RawRunChild::Break => seq!['\n'],
        RawRunChild::Drawing => seq!['[', 'I', 'm', 'a', 'g', 'e', ']'],
    }
}

/// The text of a run: its children's text in order.
pub open spec fn spec_run_text(cs: Seq<RawRunChild>) -> Seq<char>
    decreases cs.len(),
{
    if cs.len() == 0 {
        Seq::<char>::empty()
    } else {
        spec_run_text(cs.drop_last()) + spec_run_child_text(cs.last())
    }
}

/// Only the `Text` children of a run, concatenated: the text used when
/// building formatted runs.
pub open spec fn spec_run_plain_text(cs: Seq<RawRunChild>) -> Seq<char>
    decreases cs.len(),
{
    if cs.len() == 0 {
        Seq::<char>::empty()
    } else {
        spec_run_plain_text(cs.drop_last()) + match cs.last() {
            RawRunChild::Text(s) => s@,
            _ => Seq::<char>::empty(),
        }
    }
}

/// The text one paragraph child contributes: runs and insertions count,
/// deletions are skipped.
pub open spec fn spec_para_child_text(c: RawParaChild) -> Seq<char> {
    match c {
        RawParaChild::Run(r) => spec_run_text(r.children@),
        RawParaChild::Insert(rs) => spec_runs_text(rs@),
        RawParaChild::Delete => Seq::<char>::empty(),
    }
}

/// The text of a sequence of runs.
pub open spec fn spec_runs_text(rs: Seq<RawRun>) -> Seq<char>
    decreases rs.len(),
{
    if rs.len() == 0 {
        Seq::<char>::empty()
    } else {
        spec_runs_text(rs.drop_last()) + spec_run_text(rs.last().children@)
    }
}

/// The extracted text of a paragraph: children's text in order, trimmed.
pub open spec fn spec_paragraph_text(cs: Seq<RawParaChild>) -> Seq<char> {
    spec_trim(spec_para_children_text(cs))
}

pub open spec fn spec_para_children_text(cs: Seq<RawParaChild>) -> Seq<char>
    decreases cs.len(),
{
    if cs.len() == 0 {
        Seq::<char>::empty()
    } else {
        spec_para_children_text(cs.drop_last()) + spec_para_child_text(cs.last())
    }
}

/// The text of one run, with tabs, breaks and image placeholders.
pub fn extract_run_text(run: &RawRun) -> (r: Vec<char>)
    ensures
        r@ == spec_run_text(run.children@),
{
    let mut out: Vec<char> = Vec::new();
    let mut i: usize = 0;
    let n = run.children.len();
    while i < n
        invariant
            n == run.children@.len(),
            i <= n,
            out@ == spec_run_text(run.children@.subrange(0, i as int)),
        decreases n - i,
    {
        let ghost pre = run.children@.subrange(0, i as int);
        match &run.children[i] {
            RawRunChild::Text(s) => {
                let mut cs = crate::text::chars_of(s.as_str());
                out.append(&mut cs);
            },
            RawRunChild::Tab => {
                out.push('\t');
            },
            RawRunChild::Break => {
                out.push('\n');
            },
            RawRunChild::Drawing => {
                out.push('[');
                out.push('I');
                out.push('m');
                out.push('a');
                out.push('g');
                out.push('e');
                out.push(']');
            },
        }
        proof {
            let post = run.children@.subrange(0, i + 1);
            assert(post.drop_last() =~= pre);
            assert(post.last() == run.children@[i as int]);
            assert(out@ =~= spec_run_text(pre) + spec_run_child_text(run.children@[i as int]));
        }
        i = i + 1;
    }
    proof {
        assert(run.children@.subrange(0, n as int) =~= run.children@);
    }
    out
}

/// Only the `Text` children of one run, concatenated.
pub fn extract_run_plain_text(run: &RawRun) -> (r: Vec<char>)
    ensures
        r@ == spec_run_plain_text(run.children@),
{
    let mut out: Vec<char> = Vec::new();
    let mut i: usize = 0;
    let n = run.children.len();
    while i < n
        invariant
            n == run.children@.len(),
            i <= n,
            out@ == spec_run_plain_text(run.children@.subrange(0, i as int)),
        decreases n - i,
    {
        let ghost pre = run.children@.subrange(0, i as int);
        match &run.children[i] {
            RawRunChild::Text(s) => {
                let mut cs = crate::text::chars_of(s.as_str());
                out.append(&mut cs);
            },
            _ => {},
        }
        proof {
            let post = run.children@.subrange(0, i + 1);
            assert(post.drop_last() =~= pre);
            assert(post.last() == run.children@[i as int]);
            assert(out@ =~= spec_run_plain_text(post));
        }
        i = i + 1;
    }
    proof {
        assert(run.children@.subrange(0, n as int) =~= run.children@);
    }
    out
}

/// The extracted text of a paragraph: runs and insertions, trimmed.
pub fn extract_paragraph_text(para: &RawParagraph) -> (r: Vec<char>)
    ensures
        r@ == spec_paragraph_text(para.children@),
{
    let mut out: Vec<char> = Vec::new();
    let mut i: usize = 0;
    let n = para.children.len();
    while i < n
        invariant
            n == para.children@.len(),
            i <= n,
            out@ == spec_para_children_text(para.children@.subrange(0, i as int)),
        decreases n - i,
    {
        let ghost pre = para.children@.subrange(0, i as int);
        match &para.children[i] {
            RawParaChild::Run(run) => {
                let mut t = extract_run_text(run);
                out.append(&mut t);
            },
            RawParaChild::Insert(runs) => {
                let mut j: usize = 0;
                let m = runs.len();
                let mut ins: Vec<char> = Vec::new();
                while j < m
                    invariant
                        m == runs@.len(),
                        j <= m,
                        ins@ == spec_runs_text(runs@.subrange(0, j as int)),
                    decreases m - j,
                {
                    let ghost rpre = runs@.subrange(0, j as int);
                    let mut t = extract_run_text(&runs[j]);
                    ins.append(&mut t);
                    proof {
                        let rpost = runs@.subrange(0, j + 1);
                        assert(rpost.drop_last() =~= rpre);
                        assert(rpost.last() == runs@[j as int]);
                        assert(ins@ =~= spec_runs_text(rpost));
                    }
                    j = j + 1;
                }
                proof {
                    assert(runs@.subrange(0, m as int) =~= runs@);
                }
                out.append(&mut ins);
            },
            RawParaChild::Delete => {},
        }
        proof {
            let post = para.children@.subrange(0, i + 1);
            assert(post.drop_last() =~= pre);
            assert(post.last() == para.children@[i as int]);
            assert(out@ =~= spec_para_children_text(post));
        }
        i = i + 1;
    }
    proof {
        assert(para.children@.subrange(0, n as int) =~= para.children@);
    }
    crate::text::trimmed(&out)
}

/// The formatting view of a raw run.
pub open spec fn raw_run_fmt(r: RawRun) -> FmtV {
    r.formatting@
}

} // verus!
