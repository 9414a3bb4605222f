//! The document data model: elements, formatting, tables and metadata,
//! together with run consolidation and its laws.

use vstd::prelude::*;

verus! {

/// Image rendering options. The scale is held in whole percent.
pub struct ImageOptions {
    pub enabled: bool,
    pub max_width: Option<u32>,
    pub max_height: Option<u32>,
    pub scale_percent: Option<u32>,
}

impl Default for ImageOptions {
    fn default() -> (r: Self)
        ensures
            !r.enabled,
            r.max_width is None,
            r.max_height is None,
            r.scale_percent is None,
    {
        ImageOptions { enabled: false, max_width: None, max_height: None, scale_percent: None }
    }
}

/// Character formatting of one run. The font size is held in whole points.
pub struct TextFormatting {
    pub bold: bool,
    pub italic: bool,
    pub underline: bool,
    pub strikethrough: bool,
    pub font_size: Option<u32>,
    pub color: Option<String>,
}

/// The mathematical value of a `TextFormatting`.
#[verifier::ext_equal]
pub struct FmtV {
    pub bold: bool,
    pub italic: bool,
    pub underline: bool,
    pub strikethrough: bool,
    pub font_size: Option<u32>,
    pub color: Option<Seq<char>>,
}

impl View for TextFormatting {
    type V = FmtV;

    open spec fn view(&self) -> FmtV {
        FmtV {
            bold: self.bold,
            italic: self.italic,
            underline: self.underline,
            strikethrough: self.strikethrough,
            font_size: self.font_size,
            color: match self.color {
                Some(ref c) => Some(c@),
                None => None,
            },
        }
    }
}

pub open spec fn default_fmt() -> FmtV {
    FmtV {
        bold: false,
        italic: false,
        underline: false,
        strikethrough: false,
        font_size: None,
        color: None,
    }
}

impl Default for TextFormatting {
    fn default() -> (r: Self)
        ensures
            r@ == default_fmt(),
    {
        TextFormatting {
            bold: false,
            italic: false,
            underline: false,
            strikethrough: false,
            font_size: None,
            color: None,
        }
    }
}

impl Clone for TextFormatting {
    fn clone(&self) -> (r: Self)
        ensures
            r@ == self@,
    {
        TextFormatting {
            bold: self.bold,
            italic: self.italic,
            underline: self.underline,
            strikethrough: self.strikethrough,
            font_size: self.font_size,
            color: match &self.color {
                Some(c) => Some(c.clone()),
                None => None,
            },
        }
    }
}

impl PartialEq for TextFormatting {
    fn eq(&self, other: &Self) -> (r: bool)
        ensures
            r == (self@ == other@),
    {
        let size_eq = match (self.font_size, other.font_size) {
            (Some(a), Some(b)) => a == b,
            (None, None) => true,
            _ => false,
        };
        let color_eq = match (&self.color, &other.color) {
            (Some(a), Some(b)) => a.eq(b),
            (None, None) => true,
            _ => false,
        };
        self.bold == other.bold && self.italic == other.italic && self.underline == other.underline
            && self.strikethrough == other.strikethrough && size_eq && color_eq
    }
}

impl vstd::std_specs::cmp::PartialEqSpecImpl for TextFormatting {
    open spec fn obeys_eq_spec() -> bool {
        true
    }

    open spec fn eq_spec(&self, other: &Self) -> bool {
        self@ == other@
    }
}

/// One run of text with uniform formatting.
pub struct FormattedRun {
    pub text: String,
    pub formatting: TextFormatting,
}

/// The mathematical value of a `FormattedRun`.
#[verifier::ext_equal]
pub struct RunV {
    pub text: Seq<char>,
    pub fmt: FmtV,
}

impl View for FormattedRun {
    type V = RunV;

    open spec fn view(&self) -> RunV {
        RunV { text: self.text@, fmt: self.formatting@ }
    }
}

impl Clone for FormattedRun {
    fn clone(&self) -> (r: Self)
        ensures
            r@ == self@,
    {
        FormattedRun { text: self.text.clone(), formatting: self.formatting.clone() }
    }
}

pub open spec fn runs_view(s: Seq<FormattedRun>) -> Seq<RunV> {
    s.map_values(|r: FormattedRun| r@)
}

/// The concatenated text of a run sequence.
pub open spec fn concat_text(s: Seq<RunV>) -> Seq<char>
    decreases s.len(),
{
    if s.len() == 0 {
        Seq::<char>::empty()
    } else {
        s[0].text + concat_text(s.drop_first())
    }
}

/// Adjacent runs with the same formatting merged, left to right.
pub open spec fn spec_consolidate(s: Seq<RunV>) -> Seq<RunV>
    decreases s.len(),
{
    if s.len() <= 1 {
        s
    } else if s[0].fmt == s[1].fmt {
        spec_consolidate(
            seq![RunV { text: s[0].text + s[1].text, fmt: s[0].fmt }] + s.skip(2),
        )
    } else {
        seq![s[0]] + spec_consolidate(s.drop_first())
    }
}

/// No two adjacent runs share a formatting.
pub open spec fn well_consolidated(s: Seq<RunV>) -> bool {
    forall|i: int| 0 <= i < s.len() - 1 ==> (#[trigger] s[i].fmt) != s[i + 1].fmt
}

impl FormattedRun {
    /// Merges adjacent runs whose formatting is identical, keeping text order.
    pub fn consolidate_runs(runs: Vec<FormattedRun>) -> (r: Vec<FormattedRun>)
        ensures
            runs_view(r@) == spec_consolidate(runs_view(runs@)),
    {
        let n = runs.len();
        if n == 0 {
            let r: Vec<FormattedRun> = Vec::new();
            proof {
                assert(runs_view(r@) =~= runs_view(runs@));
            }
            return r;
        }
        let mut out: Vec<FormattedRun> = Vec::new();
        let mut cur: FormattedRun = runs[0].clone();
        let mut i: usize = 1;
        proof {
            assert(runs_view(runs@)[0] == runs@[0]@);
            assert(seq![cur@] + runs_view(runs@).skip(1) =~= runs_view(runs@));
            assert(runs_view(out@) =~= Seq::<RunV>::empty());
            assert(Seq::<RunV>::empty() + spec_consolidate(runs_view(runs@)) =~= spec_consolidate(
                runs_view(runs@),
            ));
        }
        while i < n
            invariant
                n == runs@.len(),
                1 <= i <= n,
                spec_consolidate(runs_view(runs@)) == runs_view(out@) + spec_consolidate(
                    seq![cur@] + runs_view(runs@).skip(i as int),
                ),
            decreases n - i,
        {
            let ghost pre_out = runs_view(out@);
            let ghost pre_cur = cur@;
            let ghost rest = runs_view(runs@).skip(i as int);
            let ghost s = seq![pre_cur] + rest;
            proof {
                assert(s.len() >= 2);
                assert(s[0] == pre_cur);
                assert(s[1] == runs_view(runs@)[i as int]);
                assert(s[1] == runs@[i as int]@);
            }
            if cur.formatting == runs[i].formatting {
                cur.text.append(runs[i].text.as_str());
                proof {
                    assert(cur@ == RunV { text: s[0].text + s[1].text, fmt: s[0].fmt });
                    assert(s.skip(2) =~= runs_view(runs@).skip(i + 1));
                    assert(seq![cur@] + runs_view(runs@).skip(i + 1) =~= seq![
                        RunV { text: s[0].text + s[1].text, fmt: s[0].fmt },
                    ] + s.skip(2));
                    assert(spec_consolidate(s) == spec_consolidate(
                        seq![cur@] + runs_view(runs@).skip(i + 1),
                    ));
                }
            } else {
                out.push(cur);
                cur = runs[i].clone();
                proof {
                    assert(s.drop_first() =~= seq![cur@] + runs_view(runs@).skip(i + 1));
                    assert(spec_consolidate(s) == seq![pre_cur] + spec_consolidate(
                        seq![cur@] + runs_view(runs@).skip(i + 1),
                    ));
                    assert(runs_view(out@) =~= pre_out + seq![pre_cur]);
                    assert(pre_out + (seq![pre_cur] + spec_consolidate(
                        seq![cur@] + runs_view(runs@).skip(i + 1),
                    )) =~= runs_view(out@) + spec_consolidate(
                        seq![cur@] + runs_view(runs@).skip(i + 1),
                    ));
                }
            }
            i = i + 1;
        }
        out.push(cur);
        proof {
            let whole = runs_view(runs@);
            assert(whole.skip(n as int) =~= Seq::<RunV>::empty());
            let last = out@[out@.len() - 1]@;
            assert(seq![last] + whole.skip(n as int) =~= seq![last]);
            assert(spec_consolidate(seq![last]) == seq![last]);
            assert(runs_view(out@) =~= runs_view(out@.drop_last()) + seq![last]);
        }
        out
    }
}

/// Consolidation never loses or reorders text: the concatenation of the
/// consolidated runs' text equals the concatenation of the originals'.
pub proof fn lemma_consolidate_lossless(s: Seq<RunV>)
    ensures
        concat_text(spec_consolidate(s)) == concat_text(s),
    decreases s.len(),
{
    if s.len() <= 1 {
    } else if s[0].fmt == s[1].fmt {
        let merged = RunV { text: s[0].text + s[1].text, fmt: s[0].fmt };
        let t = seq![merged] + s.skip(2);
        lemma_consolidate_lossless(t);
        assert(t.drop_first() =~= s.skip(2));
        assert(s.drop_first().drop_first() =~= s.skip(2));
        assert(concat_text(t) == merged.text + concat_text(s.skip(2)));
        assert(concat_text(s.drop_first()) == s[1].text + concat_text(s.skip(2)));
        assert(merged.text + concat_text(s.skip(2)) =~= s[0].text + (s[1].text + concat_text(
            s.skip(2),
        )));
    } else {
        lemma_consolidate_lossless(s.drop_first());
        let t = seq![s[0]] + spec_consolidate(s.drop_first());
        assert(t.drop_first() =~= spec_consolidate(s.drop_first()));
        assert(t[0] == s[0]);
    }
}

/// The first run of a consolidated sequence keeps the first formatting.
proof fn lemma_consolidate_head(s: Seq<RunV>)
    requires
        s.len() > 0,
    ensures
        spec_consolidate(s).len() > 0,
        spec_consolidate(s)[0].fmt == s[0].fmt,
    decreases s.len(),
{
    if s.len() <= 1 {
    } else if s[0].fmt == s[1].fmt {
        let merged = RunV { text: s[0].text + s[1].text, fmt: s[0].fmt };
        let t = seq![merged] + s.skip(2);
        lemma_consolidate_head(t);
        assert(t[0] == merged);
    } else {
        assert(spec_consolidate(s)[0] == s[0]);
    }
}

/// Consolidation leaves no two adjacent runs with the same formatting.
pub proof fn lemma_consolidate_separates(s: Seq<RunV>)
    ensures
        well_consolidated(spec_consolidate(s)),
    decreases s.len(),
{
    if s.len() <= 1 {
    } else if s[0].fmt == s[1].fmt {
        let merged = RunV { text: s[0].text + s[1].text, fmt: s[0].fmt };
        lemma_consolidate_separates(seq![merged] + s.skip(2));
    } else {
        let rest = spec_consolidate(s.drop_first());
        lemma_consolidate_separates(s.drop_first());
        lemma_consolidate_head(s.drop_first());
        let r = seq![s[0]] + rest;
        assert(s.drop_first()[0] == s[1]);
        assert forall|i: int| 0 <= i < r.len() - 1 implies (#[trigger] r[i].fmt) != r[i + 1].fmt by {
            if i == 0 {
                assert(r[1] == rest[0]);
            } else {
                assert(r[i] == rest[i - 1]);
                assert(r[i + 1] == rest[i]);
            }
        }
    }
}

/// A sequence already free of adjacent equal formattings is left unchanged.
proof fn lemma_consolidate_fixed(s: Seq<RunV>)
    requires
        well_consolidated(s),
    ensures
        spec_consolidate(s) == s,
    decreases s.len(),
{
    if s.len() <= 1 {
    } else {
        assert(s[0].fmt != s[1].fmt);
        assert forall|i: int| 0 <= i < s.drop_first().len() - 1 implies (#[trigger] s.drop_first()[
            i
        ].fmt) != s.drop_first()[i + 1].fmt by {
            assert(s.drop_first()[i] == s[i + 1]);
            assert(s.drop_first()[i + 1] == s[i + 2]);
        }
        lemma_consolidate_fixed(s.drop_first());
        assert(seq![s[0]] + s.drop_first() =~= s);
    }
}

/// Consolidating twice gives the same result as consolidating once.
pub proof fn lemma_consolidate_idempotent(s: Seq<RunV>)
    ensures
        spec_consolidate(spec_consolidate(s)) == spec_consolidate(s),
{
    lemma_consolidate_separates(s);
    lemma_consolidate_fixed(spec_consolidate(s));
}

/// How text is aligned within a table cell.
#[derive(Clone, Copy, Debug, PartialEq, Eq, Structural)]
pub enum TextAlignment {
    Left,
    Center,
    Right,
    Justify,
}

impl Default for TextAlignment {
    fn default() -> (r: Self)
        ensures
            r == TextAlignment::Left,
    {
        TextAlignment::Left
    }
}

/// The inferred kind of a table cell's content.
#[derive(Clone, Copy, Debug, PartialEq, Eq, Structural)]
pub enum CellDataType {
    Text,
    Number,
    Currency,
    Percentage,
    Date,
    Boolean,
    Empty,
}

impl Default for CellDataType {
    fn default() -> (r: Self)
        ensures
            r == CellDataType::Text,
    {
        CellDataType::Text
    }
}

/// One table cell with its content, alignment, formatting and data type.
pub struct TableCell {
    pub content: String,
    pub alignment: TextAlignment,
    pub formatting: TextFormatting,
    pub data_type: CellDataType,
}

/// The mathematical value of a `TableCell`.
#[verifier::ext_equal]
pub struct CellV {
    pub content: Seq<char>,
    pub alignment: TextAlignment,
    pub fmt: FmtV,
    pub data_type: CellDataType,
}

impl View for TableCell {
    type V = CellV;

    open spec fn view(&self) -> CellV {
        CellV {
            content: self.content@,
            alignment: self.alignment,
            fmt: self.formatting@,
            data_type: self.data_type,
        }
    }
}

impl Clone for TableCell {
    fn clone(&self) -> (r: Self)
        ensures
            r@ == self@,
    {
        TableCell {
            content: self.content.clone(),
            alignment: self.alignment,
            formatting: self.formatting.clone(),
            data_type: self.data_type,
        }
    }
}

pub open spec fn cells_view(s: Seq<TableCell>) -> Seq<CellV> {
    s.map_values(|c: TableCell| c@)
}

/// Table shape and presentation data.
pub struct TableMetadata {
    pub column_count: usize,
    pub row_count: usize,
    pub has_headers: bool,
    pub column_widths: Vec<usize>,
    pub column_alignments: Vec<TextAlignment>,
    pub title: Option<String>,
}

/// A table: header row, data rows and metadata.
pub struct TableData {
    pub headers: Vec<TableCell>,
    pub rows: Vec<Vec<TableCell>>,
    pub metadata: TableMetadata,
}

/// One item of a list, at a nesting level (0 is outermost).
pub struct ListItem {
    pub runs: Vec<FormattedRun>,
    pub level: u8,
}

/// The mathematical value of a `ListItem`.
#[verifier::ext_equal]
pub struct ItemV {
    pub runs: Seq<RunV>,
    pub level: u8,
}

impl View for ListItem {
    type V = ItemV;

    open spec fn view(&self) -> ItemV {
        ItemV { runs: runs_view(self.runs@), level: self.level }
    }
}

pub open spec fn items_view(s: Seq<ListItem>) -> Seq<ItemV> {
    s.map_values(|it: ListItem| it@)
}

/// One element of the reconstructed document, in reading order.
pub enum DocumentElement {
    Heading { level: u8, text: String, number: Option<String> },
    Paragraph { runs: Vec<FormattedRun> },
    List { items: Vec<ListItem>, ordered: bool },
    Table { table: TableData },
    Image {
        description: String,
        width: Option<u32>,
        height: Option<u32>,
        relationship_id: Option<String>,
        image_path: Option<String>,
    },
    Equation { latex: String, fallback: String },
    PageBreak,
}

/// The mathematical value of a `TableMetadata`.
#[verifier::ext_equal]
pub struct MetaV {
    pub column_count: usize,
    pub row_count: usize,
    pub has_headers: bool,
    pub column_widths: Seq<usize>,
    pub column_alignments: Seq<TextAlignment>,
    pub title: Option<Seq<char>>,
}

impl View for TableMetadata {
    type V = MetaV;

    open spec fn view(&self) -> MetaV {
        MetaV {
            column_count: self.column_count,
            row_count: self.row_count,
            has_headers: self.has_headers,
            column_widths: self.column_widths@,
            column_alignments: self.column_alignments@,
            title: match self.title {
                Some(ref t) => Some(t@),
                None => None,
            },
        }
    }
}

/// The mathematical value of a `TableData`.
#[verifier::ext_equal]
pub struct TableV {
    pub headers: Seq<CellV>,
    pub rows: Seq<Seq<CellV>>,
    pub metadata: MetaV,
}

impl View for TableData {
    type V = TableV;

    open spec fn view(&self) -> TableV {
        TableV {
            headers: cells_view(self.headers@),
            rows: self.rows@.map_values(|row: Vec<TableCell>| cells_view(row@)),
            metadata: self.metadata@,
        }
    }
}

/// The mathematical value of a `DocumentElement`.
#[verifier::ext_equal]
pub enum ElemV {
    Heading { level: u8, text: Seq<char>, number: Option<Seq<char>> },
    Paragraph { runs: Seq<RunV> },
    List { items: Seq<ItemV>, ordered: bool },
    Table { table: TableV },
    Image {
        description: Seq<char>,
        width: Option<u32>,
        height: Option<u32>,
        relationship_id: Option<Seq<char>>,
        image_path: Option<Seq<char>>,
    },
    Equation { latex: Seq<char>, fallback: Seq<char> },
    PageBreak,
}

pub open spec fn opt_str_view(o: Option<String>) -> Option<Seq<char>> {
    match o {
        Some(s) => Some(s@),
        None => None,
    }
}

impl View for DocumentElement {
    type V = ElemV;

    open spec fn view(&self) -> ElemV {
        match self {
            DocumentElement::Heading { level, text, number } => ElemV::Heading {
                level: *level,
                text: text@,
                number: opt_str_view(*number),
            },
            DocumentElement::Paragraph { runs } => ElemV::Paragraph { runs: runs_view(runs@) },
            DocumentElement::List { items, ordered } => ElemV::List {
                items: items_view(items@),
                ordered: *ordered,
            },
            DocumentElement::Table { table } => ElemV::Table { table: table@ },
            DocumentElement::Image { description, width, height, relationship_id, image_path } => {
                ElemV::Image {
                    description: description@,
                    width: *width,
                    height: *height,
                    relationship_id: opt_str_view(*relationship_id),
                    image_path: opt_str_view(*image_path),
                }
            },
            DocumentElement::Equation { latex, fallback } => ElemV::Equation {
                latex: latex@,
                fallback: fallback@,
            },
            DocumentElement::PageBreak => ElemV::PageBreak,
        }
    }
}

pub open spec fn elems_view(s: Seq<DocumentElement>) -> Seq<ElemV> {
    s.map_values(|e: DocumentElement| e@)
}

impl Clone for ListItem {
    fn clone(&self) -> (r: Self)
        ensures
            r@ == self@,
    {
        let runs = clone_runs(&self.runs);
        ListItem { runs, level: self.level }
    }
}

/// A deep copy of a run vector, equal in view.
pub fn clone_runs(runs: &Vec<FormattedRun>) -> (r: Vec<FormattedRun>)
    ensures
        runs_view(r@) == runs_view(runs@),
        r@.len() == runs@.len(),
{
    let mut out: Vec<FormattedRun> = Vec::new();
    let mut i: usize = 0;
    let n = runs.len();
    while i < n
        invariant
            n == runs@.len(),
            i <= n,
            out@.len() == i,
            forall|j: int| 0 <= j < i ==> (#[trigger] out@[j])@ == runs@[j]@,
        decreases n - i,
    {
        out.push(runs[i].clone());
        i = i + 1;
    }
    proof {
        assert forall|j: int| 0 <= j < n implies runs_view(out@)[j] == runs_view(runs@)[j] by {
            assert(out@[j]@ == runs@[j]@);
        }
        assert(runs_view(out@) =~= runs_view(runs@));
    }
    out
}

/// A deep copy of a cell vector, equal in view.
pub fn clone_cells(cells: &Vec<TableCell>) -> (r: Vec<TableCell>)
    ensures
        cells_view(r@) == cells_view(cells@),
        r@.len() == cells@.len(),
{
    let mut out: Vec<TableCell> = Vec::new();
    let mut i: usize = 0;
    let n = cells.len();
    while i < n
        invariant
            n == cells@.len(),
            i <= n,
            out@.len() == i,
            forall|j: int| 0 <= j < i ==> (#[trigger] out@[j])@ == cells@[j]@,
        decreases n - i,
    {
        out.push(cells[i].clone());
        i = i + 1;
    }
    proof {
        assert forall|j: int| 0 <= j < n implies cells_view(out@)[j] == cells_view(cells@)[j] by {
            assert(out@[j]@ == cells@[j]@);
        }
        assert(cells_view(out@) =~= cells_view(cells@));
    }
    out
}

impl Clone for TableMetadata {
    fn clone(&self) -> (r: Self)
        ensures
            r@ == self@,
    {
        let mut widths: Vec<usize> = Vec::new();
        let mut i: usize = 0;
        let n = self.column_widths.len();
        while i < n
            invariant
                n == self.column_widths@.len(),
                i <= n,
                widths@ == self.column_widths@.subrange(0, i as int),
            decreases n - i,
        {
            widths.push(self.column_widths[i]);
            proof {
                assert(widths@ =~= self.column_widths@.subrange(0, i + 1));
            }
            i = i + 1;
        }
        proof {
            assert(widths@ =~= self.column_widths@);
        }
        let mut aligns: Vec<TextAlignment> = Vec::new();
        let mut k: usize = 0;
        let na = self.column_alignments.len();
        while k < na
            invariant
                na == self.column_alignments@.len(),
                k <= na,
                aligns@ == self.column_alignments@.subrange(0, k as int),
            decreases na - k,
        {
            aligns.push(self.column_alignments[k]);
            proof {
                assert(aligns@ =~= self.column_alignments@.subrange(0, k + 1));
            }
            k = k + 1;
        }
        proof {
            assert(aligns@ =~= self.column_alignments@);
        }
        TableMetadata {
            column_count: self.column_count,
            row_count: self.row_count,
            has_headers: self.has_headers,
            column_widths: widths,
            column_alignments: aligns,
            title: match &self.title {
                Some(t) => Some(t.clone()),
                None => None,
            },
        }
    }
}

impl Clone for TableData {
    fn clone(&self) -> (r: Self)
        ensures
            r@ == self@,
    {
        let headers = clone_cells(&self.headers);
        let mut rows: Vec<Vec<TableCell>> = Vec::new();
        let mut i: usize = 0;
        let n = self.rows.len();
        while i < n
            invariant
                n == self.rows@.len(),
                i <= n,
                rows@.len() == i,
                forall|j: int|
                    0 <= j < i ==> cells_view(#[trigger] rows@[j]@) == cells_view(
                        self.rows@[j]@,
                    ),
            decreases n - i,
        {
            rows.push(clone_cells(&self.rows[i]));
            i = i + 1;
        }
        proof {
            let f = |row: Vec<TableCell>| cells_view(row@);
            assert forall|j: int| 0 <= j < n implies rows@.map_values(f)[j]
                == self.rows@.map_values(f)[j] by {
                assert(cells_view(rows@[j]@) == cells_view(self.rows@[j]@));
            }
            assert(rows@.map_values(f) =~= self.rows@.map_values(f));
        }
        TableData { headers, rows, metadata: self.metadata.clone() }
    }
}

impl DocumentElement {
    /// A deep copy of the element, equal in view.
    pub fn clone_element(&self) -> (r: Self)
        ensures
            r@ == self@,
    {
        match self {
            DocumentElement::Heading { level, text, number } => {
                let number2: Option<String> = match number {
                    Some(s2) => Some(s2.clone()),
                    None => None,
                };
                DocumentElement::Heading { level: *level, text: text.clone(), number: number2 }
            },
            DocumentElement::Paragraph { runs } => DocumentElement::Paragraph {
                runs: clone_runs(runs),
            },
            DocumentElement::List { items, ordered } => {
                let mut new_items: Vec<ListItem> = Vec::new();
                let mut i: usize = 0;
                let n = items.len();
                while i < n
                    invariant
                        n == items@.len(),
                        i <= n,
                        new_items@.len() == i,
                        forall|j: int|
                            0 <= j < i ==> (#[trigger] new_items@[j])@ == items@[j]@,
                    decreases n - i,
                {
                    new_items.push(items[i].clone());
                    i = i + 1;
                }
                proof {
                    assert forall|j: int| 0 <= j < n implies items_view(new_items@)[j]
                        == items_view(items@)[j] by {
                        assert(new_items@[j]@ == items@[j]@);
                    }
                    assert(items_view(new_items@) =~= items_view(items@));
                }
                DocumentElement::List { items: new_items, ordered: *ordered }
            },
            DocumentElement::Table { table } => DocumentElement::Table { table: table.clone() },
            DocumentElement::Image { description, width, height, relationship_id, image_path } => {
                let rel: Option<String> = match relationship_id {
                    Some(s2) => Some(s2.clone()),
                    None => None,
                };
                let ip: Option<String> = match image_path {
                    Some(s2) => Some(s2.clone()),
                    None => None,
                };
                DocumentElement::Image {
                    description: description.clone(),
                    width: *width,
                    height: *height,
                    relationship_id: rel,
                    image_path: ip,
                }
            },
            DocumentElement::Equation { latex, fallback } => DocumentElement::Equation {
                latex: latex.clone(),
                fallback: fallback.clone(),
            },
            DocumentElement::PageBreak => DocumentElement::PageBreak,
        }
    }
}

/// Document metadata recorded at load time.
pub struct DocumentMetadata {
    pub file_path: String,
    pub file_size: u64,
    pub word_count: usize,
    pub page_count: usize,
    pub created: Option<String>,
    pub modified: Option<String>,
    pub author: Option<String>,
}

/// A fully reconstructed document.
pub struct Document {
    pub title: String,
    pub metadata: DocumentMetadata,
    pub elements: Vec<DocumentElement>,
    pub image_options: ImageOptions,
}

/// One match of a search query within a document element.
pub struct SearchResult {
    pub element_index: usize,
    pub text: String,
    pub start_pos: usize,
    pub end_pos: usize,
}

/// One heading of the document outline.
pub struct OutlineItem {
    pub title: String,
    pub level: u8,
    pub element_index: usize,
}

} // verus!
