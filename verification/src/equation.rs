//! The equation engine: a typed OMML expression tree parsed from markup
//! by depth-matched tag scanning, with unicode, LaTeX and plain-text
//! renderers over the tree.
//!
//! The scanner matches element tags literally (`<m:f>`, `</m:f>`, ...),
//! as package markup writes them: an element carrying attributes on the
//! tag itself is passed over as unknown markup, and `m:sSubSup` is not a
//! node of the tree — its inner runs surface as plain text, as they do
//! through the object-model path.

use vstd::prelude::*;

use crate::text::{contains_seq, match_at, string_of, chars_of, subvec};

verus! {

/// One node of the parsed OMML expression tree.
pub enum OmmlElement {
    Superscript { base: Box<OmmlElement>, sup: Box<OmmlElement> },
    Subscript { base: Box<OmmlElement>, sub: Box<OmmlElement> },
    Fraction { num: Box<OmmlElement>, den: Box<OmmlElement>, no_bar: bool },
    Nary {
        operator: String,
        sub: Option<Box<OmmlElement>>,
        sup: Option<Box<OmmlElement>>,
        base: Box<OmmlElement>,
    },
    Delimiter { content: Box<OmmlElement> },
    Function { name: Box<OmmlElement>, arg: Box<OmmlElement> },
    Radical { degree: Option<Box<OmmlElement>>, base: Box<OmmlElement> },
    Text(String),
    Sequence(Vec<OmmlElement>),
}

/// The mathematical value of an `OmmlElement`.
#[verifier::ext_equal]
pub enum OmmlV {
    Superscript { base: Box<OmmlV>, sup: Box<OmmlV> },
    Subscript { base: Box<OmmlV>, sub: Box<OmmlV> },
    Fraction { num: Box<OmmlV>, den: Box<OmmlV>, no_bar: bool },
    Nary { operator: Seq<char>, sub: Option<Box<OmmlV>>, sup: Option<Box<OmmlV>>, base: Box<OmmlV> },
    Delimiter { content: Box<OmmlV> },
    Function { name: Box<OmmlV>, arg: Box<OmmlV> },
    Radical { degree: Option<Box<OmmlV>>, base: Box<OmmlV> },
    Text(Seq<char>),
    Sequence(Seq<OmmlV>),
}

pub open spec fn omml_view(e: OmmlElement) -> OmmlV
    decreases e,
{
    match e {
        OmmlElement::Superscript { base, sup } => OmmlV::Superscript {
            base: Box::new(omml_view(*base)),
            sup: Box::new(omml_view(*sup)),
        },
        OmmlElement::Subscript { base, sub } => OmmlV::Subscript {
            base: Box::new(omml_view(*base)),
            sub: Box::new(omml_view(*sub)),
        },
        OmmlElement::Fraction { num, den, no_bar } => OmmlV::Fraction {
            num: Box::new(omml_view(*num)),
            den: Box::new(omml_view(*den)),
            no_bar,
        },
        OmmlElement::Nary { operator, sub, sup, base } => OmmlV::Nary {
            operator: operator@,
            sub: match sub {
                Some(b) => Some(Box::new(omml_view(*b))),
                None => None,
            },
            sup: match sup {
                Some(b) => Some(Box::new(omml_view(*b))),
                None => None,
            },
            base: Box::new(omml_view(*base)),
        },
        OmmlElement::Delimiter { content } => OmmlV::Delimiter {
            content: Box::new(omml_view(*content)),
        },
        OmmlElement::Function { name, arg } => OmmlV::Function {
            name: Box::new(omml_view(*name)),
            arg: Box::new(omml_view(*arg)),
        },
        OmmlElement::Radical { degree, base } => OmmlV::Radical {
            degree: match degree {
                Some(b) => Some(Box::new(omml_view(*b))),
                None => None,
            },
            base: Box::new(omml_view(*base)),
        },
        OmmlElement::Text(s) => OmmlV::Text(s@),
        OmmlElement::Sequence(es) => OmmlV::Sequence(omml_views(es@)),
    }
}

pub open spec fn omml_views(es: Seq<OmmlElement>) -> Seq<OmmlV>
    decreases es,
{
    if es.len() == 0 {
        Seq::<OmmlV>::empty()
    } else {
        seq![omml_view(es[0])] + omml_views(es.drop_first())
    }
}

impl View for OmmlElement {
    type V = OmmlV;

    open spec fn view(&self) -> OmmlV {
        omml_view(*self)
    }
}

/// The superscript form of one character, where Unicode has one.
pub open spec fn sup_char(c: char) -> char {
    if c == '0' {
        '\u{2070}'
    } else if c == '1' {
        '\u{00B9}'
    } else if c == '2' {
        '\u{00B2}'
    } else if c == '3' {
        '\u{00B3}'
    } else if c == '4' {
        '\u{2074}'
    } else if c == '5' {
        '\u{2075}'
    } else if c == '6' {
        '\u{2076}'
    } else if c == '7' {
        '\u{2077}'
    } else if c == '8' {
        '\u{2078}'
    } else if c == '9' {
        '\u{2079}'
    } else if c == '+' {
        '\u{207A}'
    } else if c == '-' {
        '\u{207B}'
    } else if c == '=' {
        '\u{207C}'
    } else if c == '(' {
        '\u{207D}'
    } else if c == ')' {
        '\u{207E}'
    } else if c == 'n' {
        '\u{207F}'
    } else if c == 'i' {
        '\u{2071}'
    } else {
        c
    }
}

/// The subscript form of one character, where Unicode has one.
pub open spec fn sub_char(c: char) -> char {
    if c == '0' {
        '\u{2080}'
    } else if c == '1' {
        '\u{2081}'
    } else if c == '2' {
        '\u{2082}'
    } else if c == '3' {
        '\u{2083}'
    } else if c == '4' {
        '\u{2084}'
    } else if c == '5' {
        '\u{2085}'
    } else if c == '6' {
        '\u{2086}'
    } else if c == '7' {
        '\u{2087}'
    } else if c == '8' {
        '\u{2088}'
    } else if c == '9' {
        '\u{2089}'
    } else if c == '+' {
        '\u{208A}'
    } else if c == '-' {
        '\u{208B}'
    } else if c == '=' {
        '\u{208C}'
    } else if c == '(' {
        '\u{208D}'
    } else if c == ')' {
        '\u{208E}'
    } else if c == 'a' {
        '\u{2090}'
    } else if c == 'e' {
        '\u{2091}'
    } else if c == 'h' {
        '\u{2095}'
    } else if c == 'i' {
        '\u{1D62}'
    } else if c == 'j' {
        '\u{2C7C}'
    } else if c == 'k' {
        '\u{2096}'
    } else if c == 'l' {
        '\u{2097}'
    } else if c == 'm' {
        '\u{2098}'
    } else if c == 'n' {
        '\u{2099}'
    } else if c == 'o' {
        '\u{2092}'
    } else if c == 'p' {
        '\u{209A}'
    } else if c == 'r' {
        '\u{1D63}'
    } else if c == 's' {
        '\u{209B}'
    } else if c == 't' {
        '\u{209C}'
    } else if c == 'u' {
        '\u{1D64}'
    } else if c == 'v' {
        '\u{1D65}'
    } else if c == 'x' {
        '\u{2093}'
    } else {
        c
    }
}

pub open spec fn sup_map(s: Seq<char>) -> Seq<char> {
    s.map_values(|c: char| sup_char(c))
}

pub open spec fn sub_map(s: Seq<char>) -> Seq<char> {
    s.map_values(|c: char| sub_char(c))
}

fn sup_char_exec(c: char) -> (r: char)
    ensures
        r == sup_char(c),
{
    if c == '0' {
        '\u{2070}'
    } else if c == '1' {
        '\u{00B9}'
    } else if c == '2' {
        '\u{00B2}'
    } else if c == '3' {
        '\u{00B3}'
    } else if c == '4' {
        '\u{2074}'
    } else if c == '5' {
        '\u{2075}'
    } else if c == '6' {
        '\u{2076}'
    } else if c == '7' {
        '\u{2077}'
    } else if c == '8' {
        '\u{2078}'
    } else if c == '9' {
        '\u{2079}'
    } else if c == '+' {
        '\u{207A}'
    } else if c == '-' {
        '\u{207B}'
    } else if c == '=' {
        '\u{207C}'
    } else if c == '(' {
        '\u{207D}'
    } else if c == ')' {
        '\u{207E}'
    } else if c == 'n' {
        '\u{207F}'
    } else if c == 'i' {
        '\u{2071}'
    } else {
        c
    }
}

fn sub_char_exec(c: char) -> (r: char)
    ensures
        r == sub_char(c),
{
    if c == '0' {
        '\u{2080}'
    } else if c == '1' {
        '\u{2081}'
    } else if c == '2' {
        '\u{2082}'
    } else if c == '3' {
        '\u{2083}'
    } else if c == '4' {
        '\u{2084}'
    } else if c == '5' {
        '\u{2085}'
    } else if c == '6' {
        '\u{2086}'
    } else if c == '7' {
        '\u{2087}'
    } else if c == '8' {
        '\u{2088}'
    } else if c == '9' {
        '\u{2089}'
    } else if c == '+' {
        '\u{208A}'
    } else if c == '-' {
        '\u{208B}'
    } else if c == '=' {
        '\u{208C}'
    } else if c == '(' {
        '\u{208D}'
    } else if c == ')' {
        '\u{208E}'
    } else if c == 'a' {
        '\u{2090}'
    } else if c == 'e' {
        '\u{2091}'
    } else if c == 'h' {
        '\u{2095}'
    } else if c == 'i' {
        '\u{1D62}'
    } else if c == 'j' {
        '\u{2C7C}'
    } else if c == 'k' {
        '\u{2096}'
    } else if c == 'l' {
        '\u{2097}'
    } else if c == 'm' {
        '\u{2098}'
    } else if c == 'n' {
        '\u{2099}'
    } else if c == 'o' {
        '\u{2092}'
    } else if c == 'p' {
        '\u{209A}'
    } else if c == 'r' {
        '\u{1D63}'
    } else if c == 's' {
        '\u{209B}'
    } else if c == 't' {
        '\u{209C}'
    } else if c == 'u' {
        '\u{1D64}'
    } else if c == 'v' {
        '\u{1D65}'
    } else if c == 'x' {
        '\u{2093}'
    } else {
        c
    }
}

/// Converts text to Unicode superscript characters where they exist.
pub fn to_superscript(text: &str) -> (r: String)
    ensures
        r@ == sup_map(text@),
{
    let cs = chars_of(text);
    let mut out: Vec<char> = Vec::new();
    let mut i: usize = 0;
    while i < cs.len()
        invariant
            i <= cs@.len(),
            out@.len() == i,
            forall|j: int| 0 <= j < i ==> #[trigger] out@[j] == sup_char(cs@[j]),
        decreases cs@.len() - i,
    {
        out.push(sup_char_exec(cs[i]));
        i = i + 1;
    }
    proof {
        assert(out@ =~= sup_map(text@));
    }
    string_of(&out)
}

/// Converts text to Unicode subscript characters where they exist.
pub fn to_subscript(text: &str) -> (r: String)
    ensures
        r@ == sub_map(text@),
{
    let cs = chars_of(text);
    let mut out: Vec<char> = Vec::new();
    let mut i: usize = 0;
    while i < cs.len()
        invariant
            i <= cs@.len(),
            out@.len() == i,
            forall|j: int| 0 <= j < i ==> #[trigger] out@[j] == sub_char(cs@[j]),
        decreases cs@.len() - i,
    {
        out.push(sub_char_exec(cs[i]));
        i = i + 1;
    }
    proof {
        assert(out@ =~= sub_map(text@));
    }
    string_of(&out)
}

/// The Unicode rendering of an equation tree: pre-composed fractions for
/// the common pairs, superscript and subscript substitution tables, and
/// parenthesised delimiters.
pub open spec fn spec_render_unicode(e: OmmlV) -> Seq<char>
    decreases e,
{
    match e {
        OmmlV::Text(s) => s,
        OmmlV::Sequence(es) => spec_render_unicode_seq(es),
        OmmlV::Superscript { base, sup } => spec_render_unicode(*base) + sup_map(
            spec_render_unicode(*sup),
        ),
        OmmlV::Subscript { base, sub } => spec_render_unicode(*base) + sub_map(
            spec_render_unicode(*sub),
        ),
        OmmlV::Fraction { num, den, no_bar } => spec_fraction_unicode(
            spec_render_unicode(*num),
            spec_render_unicode(*den),
        ),
        OmmlV::Nary { operator, sub, sup, base } => operator + (match sub {
            Some(b) => sub_map(spec_render_unicode(*b)),
            None => Seq::<char>::empty(),
        }) + (match sup {
            Some(b) => sup_map(spec_render_unicode(*b)),
            None => Seq::<char>::empty(),
        }) + spec_render_unicode(*base),
        OmmlV::Delimiter { content } => seq!['('] + spec_render_unicode(*content) + seq![')'],
        OmmlV::Function { name, arg } => spec_render_unicode(*name) + spec_render_unicode(*arg),
        OmmlV::Radical { degree, base } => (match degree {
            Some(b) => spec_render_unicode(*b),
            None => Seq::<char>::empty(),
        }) + spec_render_unicode(*base),
    }
}

pub open spec fn spec_render_unicode_seq(es: Seq<OmmlV>) -> Seq<char>
    decreases es,
{
    if es.len() == 0 {
        Seq::<char>::empty()
    } else {
        spec_render_unicode(es[0]) + spec_render_unicode_seq(es.drop_first())
    }
}

/// The pre-composed fraction glyph for the common pairs, else the
/// `(num⁄den)` form with the fraction slash.
pub open spec fn spec_fraction_unicode(num: Seq<char>, den: Seq<char>) -> Seq<char> {
    if num == seq!['1'] && den == seq!['2'] {
        seq!['\u{00BD}']
    } else if num == seq!['1'] && den == seq!['4'] {
        seq!['\u{00BC}']
    } else if num == seq!['3'] && den == seq!['4'] {
        seq!['\u{00BE}']
    } else if num == seq!['1'] && den == seq!['3'] {
        seq!['\u{2153}']
    } else if num == seq!['2'] && den == seq!['3'] {
        seq!['\u{2154}']
    } else if num == seq!['1'] && den == seq!['5'] {
        seq!['\u{2155}']
    } else if num == seq!['1'] && den == seq!['8'] {
        seq!['\u{215B}']
    } else {
        seq!['('] + num + seq!['\u{2044}'] + den + seq![')']
    }
}

/// Renders a parsed equation tree to Unicode text.
pub fn render_to_unicode(element: &OmmlElement) -> (r: String)
    ensures
        r@ == spec_render_unicode(element@),
    decreases *element,
{
    match element {
        OmmlElement::Text(s) => {
            let cs = chars_of(s.as_str());
            string_of(&cs)
        },
        OmmlElement::Sequence(es) => {
            let mut out: Vec<char> = Vec::new();
            let mut i: usize = 0;
            proof {
                lemma_omml_views_len(es@);
            }
            while i < es.len()
                invariant
                    *element == OmmlElement::Sequence(*es),
                    i <= es@.len(),
                    out@ == spec_render_unicode_seq(omml_views(es@).take(i as int)),
                    omml_views(es@).len() == es@.len(),
                decreases es@.len() - i,
            {
                let ghost vs = omml_views(es@);
                proof {
                    assert(*element == OmmlElement::Sequence(*es));
                    assert(decreases_to!(*element => element->Sequence_0));
                    assert(decreases_to!(element->Sequence_0 => element->Sequence_0@));
                    assert(decreases_to!(element->Sequence_0@ => element->Sequence_0@[i as int]));
                    assert(element->Sequence_0@[i as int] == es@[i as int]);
                    assert(decreases_to!(*element => es@[i as int]));
                }
                let piece = render_to_unicode(&es[i]);
                let mut pcs = chars_of(piece.as_str());
                out.append(&mut pcs);
                proof {
                    lemma_render_seq_take(vs, i as int);
                    lemma_omml_views_index(es@, i as int);
                    assert(out@ =~= spec_render_unicode_seq(vs.take(i + 1)));
                }
                i = i + 1;
            }
            proof {
                assert(omml_views(es@).take(es@.len() as int) =~= omml_views(es@));
            }
            string_of(&out)
        },
        OmmlElement::Superscript { base, sup } => {
            let b = render_to_unicode(base);
            let s = render_to_unicode(sup);
            let ss = to_superscript(s.as_str());
            let mut out = chars_of(b.as_str());
            let mut sv = chars_of(ss.as_str());
            out.append(&mut sv);
            proof {
                assert(out@ =~= spec_render_unicode(element@));
            }
            string_of(&out)
        },
        OmmlElement::Subscript { base, sub } => {
            let b = render_to_unicode(base);
            let s = render_to_unicode(sub);
            let ss = to_subscript(s.as_str());
            let mut out = chars_of(b.as_str());
            let mut sv = chars_of(ss.as_str());
            out.append(&mut sv);
            proof {
                assert(out@ =~= spec_render_unicode(element@));
            }
            string_of(&out)
        },
        OmmlElement::Fraction { num, den, no_bar } => {
            let ns = render_to_unicode(num);
            let ds = render_to_unicode(den);
            let nv = chars_of(ns.as_str());
            let dv = chars_of(ds.as_str());
            let mut out: Vec<char> = Vec::new();
            if one_char_eq(&nv, '1') && one_char_eq(&dv, '2') {
                out.push('\u{00BD}');
            } else if one_char_eq(&nv, '1') && one_char_eq(&dv, '4') {
                out.push('\u{00BC}');
            } else if one_char_eq(&nv, '3') && one_char_eq(&dv, '4') {
                out.push('\u{00BE}');
            } else if one_char_eq(&nv, '1') && one_char_eq(&dv, '3') {
                out.push('\u{2153}');
            } else if one_char_eq(&nv, '2') && one_char_eq(&dv, '3') {
                out.push('\u{2154}');
            } else if one_char_eq(&nv, '1') && one_char_eq(&dv, '5') {
                out.push('\u{2155}');
            } else if one_char_eq(&nv, '1') && one_char_eq(&dv, '8') {
                out.push('\u{215B}');
            } else {
                out.push('(');
                let mut n2 = chars_of(ns.as_str());
                out.append(&mut n2);
                out.push('\u{2044}');
                let mut d2 = chars_of(ds.as_str());
                out.append(&mut d2);
                out.push(')');
            }
            proof {
                assert(out@ =~= spec_render_unicode(element@));
            }
            string_of(&out)
        },
        OmmlElement::Nary { operator, sub, sup, base } => {
            let mut out = chars_of(operator.as_str());
            match sub {
                Some(b) => {
                    let s = render_to_unicode(b);
                    let ss = to_subscript(s.as_str());
                    let mut sv = chars_of(ss.as_str());
                    out.append(&mut sv);
                },
                None => {},
            }
            match sup {
                Some(b) => {
                    let s = render_to_unicode(b);
                    let ss = to_superscript(s.as_str());
                    let mut sv = chars_of(ss.as_str());
                    out.append(&mut sv);
                },
                None => {},
            }
            let bs = render_to_unicode(base);
            let mut bv = chars_of(bs.as_str());
            out.append(&mut bv);
            proof {
                assert(out@ =~= spec_render_unicode(element@));
            }
            string_of(&out)
        },
        OmmlElement::Delimiter { content } => {
            let c = render_to_unicode(content);
            let mut out: Vec<char> = Vec::new();
            out.push('(');
            let mut cv = chars_of(c.as_str());
            out.append(&mut cv);
            out.push(')');
            proof {
                assert(out@ =~= spec_render_unicode(element@));
            }
            string_of(&out)
        },
        OmmlElement::Function { name, arg } => {
            let a = render_to_unicode(name);
            let b = render_to_unicode(arg);
            let mut out = chars_of(a.as_str());
            let mut bv = chars_of(b.as_str());
            out.append(&mut bv);
            proof {
                assert(out@ =~= spec_render_unicode(element@));
            }
            string_of(&out)
        },
        OmmlElement::Radical { degree, base } => {
            let mut out: Vec<char> = Vec::new();
            match degree {
                Some(d) => {
                    let ds = render_to_unicode(d);
                    let mut dv = chars_of(ds.as_str());
                    out.append(&mut dv);
                },
                None => {},
            }
            let bs = render_to_unicode(base);
            let mut bv = chars_of(bs.as_str());
            out.append(&mut bv);
            proof {
                assert(out@ =~= spec_render_unicode(element@));
            }
            string_of(&out)
        },
    }
}

proof fn lemma_omml_views_len(es: Seq<OmmlElement>)
    ensures
        omml_views(es).len() == es.len(),
    decreases es,
{
    if es.len() > 0 {
        lemma_omml_views_len(es.drop_first());
    }
}

proof fn lemma_omml_views_index(es: Seq<OmmlElement>, i: int)
    requires
        0 <= i < es.len(),
    ensures
        omml_views(es).len() == es.len(),
        omml_views(es)[i] == omml_view(es[i]),
    decreases es,
{
    lemma_omml_views_len(es);
    if i > 0 {
        lemma_omml_views_index(es.drop_first(), i - 1);
        assert(es.drop_first()[i - 1] == es[i]);
    }
}

proof fn lemma_render_seq_take(vs: Seq<OmmlV>, i: int)
    requires
        0 <= i < vs.len(),
    ensures
        spec_render_unicode_seq(vs.take(i + 1)) == spec_render_unicode_seq(vs.take(i))
            + spec_render_unicode(vs[i]),
    decreases i,
{
    if i == 0 {
        assert(vs.take(1).drop_first() =~= Seq::<OmmlV>::empty());
        assert(vs.take(1)[0] == vs[0]);
        assert(vs.take(0) =~= Seq::<OmmlV>::empty());
        assert(spec_render_unicode_seq(Seq::<OmmlV>::empty()) == Seq::<char>::empty());
        assert(spec_render_unicode_seq(vs.take(1)) =~= spec_render_unicode(vs[0])
            + Seq::<char>::empty());
        assert(spec_render_unicode_seq(vs.take(0)) + spec_render_unicode(vs[0])
            =~= spec_render_unicode(vs[0]) + Seq::<char>::empty());
    } else {
        lemma_render_seq_take(vs.drop_first(), i - 1);
        assert(vs.take(i + 1).drop_first() =~= vs.drop_first().take(i));
        assert(vs.take(i).drop_first() =~= vs.drop_first().take(i - 1));
        assert(vs.take(i + 1)[0] == vs[0]);
        assert(vs.take(i)[0] == vs[0]);
        assert(vs.drop_first()[i - 1] == vs[i]);
        assert(spec_render_unicode(vs[0]) + (spec_render_unicode_seq(vs.drop_first().take(i - 1))
            + spec_render_unicode(vs[i])) =~= (spec_render_unicode(vs[0])
            + spec_render_unicode_seq(vs.drop_first().take(i - 1))) + spec_render_unicode(vs[i]));
    }
}

fn one_char_eq(v: &Vec<char>, c: char) -> (r: bool)
    ensures
        r == (v@ == seq![c]),
{
    if v.len() == 1 && v[0] == c {
        proof {
            assert(v@ =~= seq![c]);
        }
        true
    } else {
        proof {
            if v@ == seq![c] {
                assert(v@.len() == 1);
                assert(v@[0] == c);
            }
        }
        false
    }
}

/// The least index at which `pat` occurs in `s`, or the length of `s`.
pub open spec fn find_pat(s: Seq<char>, pat: Seq<char>) -> nat
    decreases s.len(),
{
    if match_at(s, pat, 0) {
        0
    } else if s.len() == 0 {
        0
    } else {
        1 + find_pat(s.drop_first(), pat)
    }
}

pub proof fn lemma_find_pat_at(s: Seq<char>, pat: Seq<char>, i: int)
    requires
        pat.len() > 0,
        0 <= i <= s.len(),
        i < s.len() || i + pat.len() <= s.len() || i == s.len(),
        i == s.len() || match_at(s, pat, i),
        forall|j: int| 0 <= j < i ==> !match_at(s, pat, j),
        i == s.len() ==> forall|j: int| !match_at(s, pat, j),
    ensures
        find_pat(s, pat) == i,
    decreases i,
{
    if i == 0 {
        if s.len() == 0 {
        } else {
            if !match_at(s, pat, 0) {
                assert(match_at(s, pat, 0));
            }
        }
    } else {
        assert(!match_at(s, pat, 0));
        assert(s.len() > 0);
        let t = s.drop_first();
        assert forall|j: int| 0 <= j < i - 1 implies !match_at(t, pat, j) by {
            if match_at(t, pat, j) {
                assert(t.subrange(j, j + pat.len()) =~= s.subrange(j + 1, j + 1 + pat.len()));
                assert(match_at(s, pat, j + 1));
            }
        }
        if i == s.len() {
            assert forall|j: int| true implies !match_at(t, pat, j) by {
                if match_at(t, pat, j) {
                    assert(t.subrange(j, j + pat.len()) =~= s.subrange(j + 1, j + 1 + pat.len()));
                    assert(match_at(s, pat, j + 1));
                }
            }
            lemma_find_pat_at(t, pat, i - 1);
        } else {
            assert(s.subrange(i, i + pat.len()) =~= t.subrange(i - 1, i - 1 + pat.len()));
            assert(match_at(t, pat, i - 1));
            lemma_find_pat_at(t, pat, i - 1);
        }
    }
}

/// The least index at which `pat` occurs, computed by scanning.
fn find_pat_exec(v: &Vec<char>, pat: &Vec<char>) -> (r: usize)
    requires
        pat@.len() > 0,
    ensures
        r == find_pat(v@, pat@),
        r <= v@.len(),
        r < v@.len() ==> match_at(v@, pat@, r as int),
{
    match crate::text::find_sub(v, pat) {
        Some(i) => {
            proof {
                lemma_find_pat_at(v@, pat@, i as int);
            }
            i
        },
        None => {
            proof {
                lemma_find_pat_at(v@, pat@, v@.len() as int);
            }
            v.len()
        },
    }
}

/// The index where the matching close tag starts, scanning from `i` at
/// nesting `depth`; the length when the markup ends first.
pub open spec fn scan_close(s: Seq<char>, i: int, st: Seq<char>, en: Seq<char>, depth: int) -> int
    decreases s.len() - i,
{
    if st.len() == 0 || en.len() == 0 || i < 0 || i >= s.len() {
        s.len() as int
    } else if match_at(s, st, i) {
        scan_close(s, i + st.len(), st, en, depth + 1)
    } else if match_at(s, en, i) {
        if depth <= 1 {
            i
        } else {
            scan_close(s, i + en.len(), st, en, depth - 1)
        }
    } else {
        scan_close(s, i + 1, st, en, depth)
    }
}

proof fn lemma_scan_close_range(s: Seq<char>, i: int, st: Seq<char>, en: Seq<char>, depth: int)
    requires
        0 <= i <= s.len(),
    ensures
        i <= scan_close(s, i, st, en, depth) <= s.len(),
    decreases s.len() - i,
{
    if st.len() == 0 || en.len() == 0 || i >= s.len() {
    } else if match_at(s, st, i) {
        lemma_scan_close_range(s, i + st.len(), st, en, depth + 1);
    } else if match_at(s, en, i) {
        if depth <= 1 {
        } else {
            lemma_scan_close_range(s, i + en.len(), st, en, depth - 1);
        }
    } else {
        lemma_scan_close_range(s, i + 1, st, en, depth);
    }
}

/// Scans for the matching close tag.
fn scan_close_exec(v: &Vec<char>, from: usize, st: &Vec<char>, en: &Vec<char>) -> (r: usize)
    requires
        from <= v@.len(),
        st@.len() > 0,
        en@.len() > 0,
    ensures
        r == scan_close(v@, from as int, st@, en@, 1),
        from <= r <= v@.len(),
{
    let n = v.len();
    let mut i = from;
    let mut depth: u128 = 1;
    while i < n
        invariant
            n == v@.len(),
            from <= i <= n,
            st@.len() > 0,
            en@.len() > 0,
            1 <= depth <= 1 + i - from,
            scan_close(v@, from as int, st@, en@, 1) == scan_close(
                v@,
                i as int,
                st@,
                en@,
                depth as int,
            ),
        decreases n - i,
    {
        let st_here = if st.len() <= n - i {
            crate::text::starts_with_sub(&subvec(v, i, n), st)
        } else {
            false
        };
        proof {
            if i + st@.len() <= n {
                assert(v@.subrange(i as int, n as int).subrange(0, st@.len() as int)
                    =~= v@.subrange(i as int, i + st@.len()));
                assert(match_at(v@.subrange(i as int, n as int), st@, 0) == match_at(
                    v@,
                    st@,
                    i as int,
                ));
            } else {
                assert(!match_at(v@, st@, i as int));
            }
        }
        if st_here {
            i = i + st.len();
            depth = depth + 1;
            continue ;
        }
        let en_here = if en.len() <= n - i {
            crate::text::starts_with_sub(&subvec(v, i, n), en)
        } else {
            false
        };
        proof {
            if i + en@.len() <= n {
                assert(v@.subrange(i as int, n as int).subrange(0, en@.len() as int)
                    =~= v@.subrange(i as int, i + en@.len()));
                assert(match_at(v@.subrange(i as int, n as int), en@, 0) == match_at(
                    v@,
                    en@,
                    i as int,
                ));
            } else {
                assert(!match_at(v@, en@, i as int));
            }
        }
        if en_here {
            if depth <= 1 {
                return i;
            }
            i = i + en.len();
            depth = depth - 1;
            continue ;
        }
        i = i + 1;
    }
    n
}

pub open spec fn otag(name: Seq<char>) -> Seq<char> {
    seq!['<'] + name + seq!['>']
}

pub open spec fn ctag(name: Seq<char>) -> Seq<char> {
    seq!['<', '/'] + name + seq!['>']
}

pub open spec fn n_ssup() -> Seq<char> {
    seq!['m', ':', 's', 'S', 'u', 'p']
}

pub open spec fn n_ssub() -> Seq<char> {
    seq!['m', ':', 's', 'S', 'u', 'b']
}

pub open spec fn n_frac() -> Seq<char> {
    seq!['m', ':', 'f']
}

pub open spec fn n_nary() -> Seq<char> {
    seq!['m', ':', 'n', 'a', 'r', 'y']
}

pub open spec fn n_delim() -> Seq<char> {
    seq!['m', ':', 'd']
}

pub open spec fn n_run() -> Seq<char> {
    seq!['m', ':', 'r']
}

pub open spec fn n_e() -> Seq<char> {
    seq!['m', ':', 'e']
}

pub open spec fn n_sup() -> Seq<char> {
    seq!['m', ':', 's', 'u', 'p']
}

pub open spec fn n_sub() -> Seq<char> {
    seq!['m', ':', 's', 'u', 'b']
}

pub open spec fn n_num() -> Seq<char> {
    seq!['m', ':', 'n', 'u', 'm']
}

pub open spec fn n_den() -> Seq<char> {
    seq!['m', ':', 'd', 'e', 'n']
}

pub open spec fn n_func() -> Seq<char> {
    seq!['m', ':', 'f', 'u', 'n', 'c']
}

pub open spec fn n_fname() -> Seq<char> {
    seq!['m', ':', 'f', 'N', 'a', 'm', 'e']
}

pub open spec fn n_rad() -> Seq<char> {
    seq!['m', ':', 'r', 'a', 'd']
}

pub open spec fn n_deg() -> Seq<char> {
    seq!['m', ':', 'd', 'e', 'g']
}

pub open spec fn n_mt() -> Seq<char> {
    seq!['m', ':', 't']
}

/// The clamped end of the block opened at position zero by `name`'s tag.
pub open spec fn block_end(s: Seq<char>, name: Seq<char>) -> int {
    let a = otag(name).len() as int;
    let e = scan_close(s, a, otag(name), ctag(name), 1);
    if e < a {
        a
    } else if e > s.len() {
        s.len() as int
    } else {
        e
    }
}

/// The inner markup of the block opened at position zero.
pub open spec fn block_content(s: Seq<char>, name: Seq<char>) -> Seq<char> {
    if otag(name).len() as int <= s.len() {
        s.subrange(otag(name).len() as int, block_end(s, name))
    } else {
        Seq::<char>::empty()
    }
}

/// The markup after the block's close tag.
pub open spec fn block_rest(s: Seq<char>, name: Seq<char>) -> Seq<char> {
    let after = block_end(s, name) + ctag(name).len();
    if after > s.len() {
        Seq::<char>::empty()
    } else {
        s.skip(after)
    }
}

/// The inner markup of the first `name` block inside `s`, if any.
pub open spec fn content_of(s: Seq<char>, name: Seq<char>) -> Option<Seq<char>> {
    let p = find_pat(s, otag(name));
    if p >= s.len() {
        None
    } else {
        let sfx = s.skip(p as int);
        if otag(name).len() as int <= sfx.len() {
            Some(block_content(sfx, name))
        } else {
            None
        }
    }
}

/// The concatenated text of every `m:t` element, in order.
pub open spec fn mt_texts(s: Seq<char>) -> Seq<char>
    decreases s.len(),
{
    let ot = otag(n_mt());
    let ct = ctag(n_mt());
    let p = find_pat(s, ot);
    if p >= s.len() {
        Seq::<char>::empty()
    } else {
        let a = p + ot.len();
        if a > s.len() {
            Seq::<char>::empty()
        } else {
            let e0 = a + find_pat(s.skip(a as int), ct);
            let e: int = if e0 > s.len() {
                s.len() as int
            } else {
                e0 as int
            };
            let nxt = if e + ct.len() > s.len() {
                s.len() as int
            } else {
                e + ct.len()
            };
            s.subrange(a as int, e) + mt_texts(s.skip(nxt))
        }
    }
}

/// The n-ary operator named in the markup, a summation sign by default.
pub open spec fn nary_operator(c: Seq<char>) -> Seq<char> {
    let chr = seq!['m', ':', 'c', 'h', 'r'];
    let valq = seq!['m', ':', 'v', 'a', 'l', '=', '"'];
    let p = find_pat(c, chr);
    if p >= c.len() {
        seq!['\u{2211}']
    } else {
        let after = c.skip(p as int);
        let q = find_pat(after, valq);
        if q >= after.len() {
            seq!['\u{2211}']
        } else {
            let vstart = q + valq.len();
            if vstart > after.len() {
                seq!['\u{2211}']
            } else {
                let tail = after.skip(vstart as int);
                let z = find_pat(tail, seq!['"']);
                if z >= tail.len() {
                    seq!['\u{2211}']
                } else {
                    tail.subrange(0, z as int)
                }
            }
        }
    }
}

pub open spec fn nobar_marker() -> Seq<char> {
    seq!['m', ':', 'v', 'a', 'l', '=', '"', 'n', 'o', 'B', 'a', 'r', '"']
}

/// The parse of a whole markup fragment: a lone element stands alone,
/// several stand as a sequence.
pub open spec fn spec_parse(s: Seq<char>) -> OmmlV
    decreases s.len(), 2int,
{
    let es = spec_parse_list(s);
    if es.len() == 1 {
        es[0]
    } else {
        OmmlV::Sequence(es)
    }
}

/// The sub-element of `c` held by the first `name` block, an empty text
/// when there is none.
pub open spec fn spec_sub_parse(c: Seq<char>, name: Seq<char>) -> OmmlV
    decreases c.len(), 3int,
{
    match content_of(c, name) {
        Some(c2) => {
            if c2.len() < c.len() {
                spec_parse(c2)
            } else {
                OmmlV::Text(Seq::<char>::empty())
            }
        },
        None => OmmlV::Text(Seq::<char>::empty()),
    }
}

pub open spec fn spec_sub_parse_opt(c: Seq<char>, name: Seq<char>) -> Option<Box<OmmlV>>
    decreases c.len(), 4int,
{
    match content_of(c, name) {
        Some(c2) => {
            if c2.len() < c.len() {
                Some(Box::new(spec_parse(c2)))
            } else {
                None
            }
        },
        None => None,
    }
}

/// The elements parsed from the front of `s`: recognised blocks become
/// tree nodes, unknown tags are skipped, and loose text is ignored.
pub open spec fn spec_parse_list(s: Seq<char>) -> Seq<OmmlV>
    decreases s.len(), 1int,
{
    if s.len() == 0 {
        Seq::<OmmlV>::empty()
    } else if match_at(s, otag(n_ssup()), 0) && block_rest(s, n_ssup()).len() < s.len() {
        let c = block_content(s, n_ssup());
        seq![
            OmmlV::Superscript {
                base: Box::new(spec_sub_parse(c, n_e())),
                sup: Box::new(spec_sub_parse(c, n_sup())),
            },
        ] + spec_parse_list(block_rest(s, n_ssup()))
    } else if match_at(s, otag(n_ssub()), 0) && block_rest(s, n_ssub()).len() < s.len() {
        let c = block_content(s, n_ssub());
        seq![
            OmmlV::Subscript {
                base: Box::new(spec_sub_parse(c, n_e())),
                sub: Box::new(spec_sub_parse(c, n_sub())),
            },
        ] + spec_parse_list(block_rest(s, n_ssub()))
    } else if match_at(s, otag(n_frac()), 0) && block_rest(s, n_frac()).len() < s.len() {
        let c = block_content(s, n_frac());
        seq![
            OmmlV::Fraction {
                num: Box::new(spec_sub_parse(c, n_num())),
                den: Box::new(spec_sub_parse(c, n_den())),
                no_bar: contains_seq(c, nobar_marker()),
            },
        ] + spec_parse_list(block_rest(s, n_frac()))
    } else if match_at(s, otag(n_nary()), 0) && block_rest(s, n_nary()).len() < s.len() {
        let c = block_content(s, n_nary());
        seq![
            OmmlV::Nary {
                operator: nary_operator(c),
                sub: spec_sub_parse_opt(c, n_sub()),
                sup: spec_sub_parse_opt(c, n_sup()),
                base: Box::new(spec_sub_parse(c, n_e())),
            },
        ] + spec_parse_list(block_rest(s, n_nary()))
    } else if match_at(s, otag(n_func()), 0) && block_rest(s, n_func()).len() < s.len() {
        let c = block_content(s, n_func());
        seq![
            OmmlV::Function {
                name: Box::new(spec_sub_parse(c, n_fname())),
                arg: Box::new(spec_sub_parse(c, n_e())),
            },
        ] + spec_parse_list(block_rest(s, n_func()))
    } else if match_at(s, otag(n_rad()), 0) && block_rest(s, n_rad()).len() < s.len() {
        let c = block_content(s, n_rad());
        seq![
            OmmlV::Radical {
                degree: spec_sub_parse_opt(c, n_deg()),
                base: Box::new(spec_sub_parse(c, n_e())),
            },
        ] + spec_parse_list(block_rest(s, n_rad()))
    } else if match_at(s, otag(n_delim()), 0) && block_rest(s, n_delim()).len() < s.len() {
        let c = block_content(s, n_delim());
        seq![OmmlV::Delimiter { content: Box::new(spec_sub_parse(c, n_e())) }]
            + spec_parse_list(block_rest(s, n_delim()))
    } else if match_at(s, otag(n_run()), 0) && block_rest(s, n_run()).len() < s.len() {
        let c = block_content(s, n_run());
        seq![OmmlV::Text(mt_texts(c))] + spec_parse_list(block_rest(s, n_run()))
    } else if s[0] == '<' {
        let g = find_pat(s, seq!['>']);
        if g + 1 < s.len() {
            spec_parse_list(s.skip(g + 1int))
        } else {
            Seq::<OmmlV>::empty()
        }
    } else {
        spec_parse_list(s.drop_first())
    }
}

fn copy_chars(v: &Vec<char>) -> (r: Vec<char>)
    ensures
        r@ == v@,
{
    subvec(v, 0, v.len())
}

fn otag_vec(name: &Vec<char>) -> (r: Vec<char>)
    ensures
        r@ == otag(name@),
{
    let mut r: Vec<char> = Vec::new();
    r.push('<');
    let mut n2 = copy_chars(name);
    r.append(&mut n2);
    r.push('>');
    proof {
        assert(r@ =~= otag(name@));
    }
    r
}

fn ctag_vec(name: &Vec<char>) -> (r: Vec<char>)
    ensures
        r@ == ctag(name@),
{
    let mut r: Vec<char> = Vec::new();
    r.push('<');
    r.push('/');
    let mut n2 = copy_chars(name);
    r.append(&mut n2);
    r.push('>');
    proof {
        assert(r@ =~= ctag(name@));
    }
    r
}

fn name_vec(which: u8) -> (r: Vec<char>)
    ensures
        which == 0 ==> r@ == n_ssup(),
        which == 1 ==> r@ == n_ssub(),
        which == 2 ==> r@ == n_frac(),
        which == 3 ==> r@ == n_nary(),
        which == 4 ==> r@ == n_delim(),
        which == 5 ==> r@ == n_run(),
        which == 6 ==> r@ == n_e(),
        which == 7 ==> r@ == n_sup(),
        which == 8 ==> r@ == n_sub(),
        which == 9 ==> r@ == n_num(),
        which == 10 ==> r@ == n_den(),
        which == 11 ==> r@ == n_func(),
        which == 12 ==> r@ == n_fname(),
        which == 13 ==> r@ == n_rad(),
        which == 14 ==> r@ == n_deg(),
        which >= 15 ==> r@ == n_mt(),
{
    let r: Vec<char> = if which == 0 {
        vec!['m', ':', 's', 'S', 'u', 'p']
    } else if which == 1 {
        vec!['m', ':', 's', 'S', 'u', 'b']
    } else if which == 2 {
        vec!['m', ':', 'f']
    } else if which == 3 {
        vec!['m', ':', 'n', 'a', 'r', 'y']
    } else if which == 4 {
        vec!['m', ':', 'd']
    } else if which == 5 {
        vec!['m', ':', 'r']
    } else if which == 6 {
        vec!['m', ':', 'e']
    } else if which == 7 {
        vec!['m', ':', 's', 'u', 'p']
    } else if which == 8 {
        vec!['m', ':', 's', 'u', 'b']
    } else if which == 9 {
        vec!['m', ':', 'n', 'u', 'm']
    } else if which == 10 {
        vec!['m', ':', 'd', 'e', 'n']
    } else if which == 11 {
        vec!['m', ':', 'f', 'u', 'n', 'c']
    } else if which == 12 {
        vec!['m', ':', 'f', 'N', 'a', 'm', 'e']
    } else if which == 13 {
        vec!['m', ':', 'r', 'a', 'd']
    } else if which == 14 {
        vec!['m', ':', 'd', 'e', 'g']
    } else {
        vec!['m', ':', 't']
    };
    proof {
        if which == 0 {
            assert(r@ =~= n_ssup());
        } else if which == 1 {
            assert(r@ =~= n_ssub());
        } else if which == 2 {
            assert(r@ =~= n_frac());
        } else if which == 3 {
            assert(r@ =~= n_nary());
        } else if which == 4 {
            assert(r@ =~= n_delim());
        } else if which == 5 {
            assert(r@ =~= n_run());
        } else if which == 6 {
            assert(r@ =~= n_e());
        } else if which == 7 {
            assert(r@ =~= n_sup());
        } else if which == 8 {
            assert(r@ =~= n_sub());
        } else if which == 9 {
            assert(r@ =~= n_num());
        } else if which == 10 {
            assert(r@ =~= n_den());
        } else if which == 11 {
            assert(r@ =~= n_func());
        } else if which == 12 {
            assert(r@ =~= n_fname());
        } else if which == 13 {
            assert(r@ =~= n_rad());
        } else if which == 14 {
            assert(r@ =~= n_deg());
        } else {
            assert(r@ =~= n_mt());
        }
    }
    r
}

/// The end of the block opened at position zero, clamped into range.
fn block_end_exec(v: &Vec<char>, name: &Vec<char>) -> (r: usize)
    requires
        otag(name@).len() <= v@.len(),
    ensures
        r == block_end(v@, name@),
        otag(name@).len() <= r <= v@.len(),
{
    let ot = otag_vec(name);
    let ct = ctag_vec(name);
    let a = ot.len();
    let e = scan_close_exec(v, a, &ot, &ct);
    e
}

fn block_content_exec(v: &Vec<char>, name: &Vec<char>) -> (r: Vec<char>)
    requires
        otag(name@).len() <= v@.len(),
    ensures
        r@ == block_content(v@, name@),
        r@.len() < v@.len(),
{
    let ot = otag_vec(name);
    let e = block_end_exec(v, name);
    subvec(v, ot.len(), e)
}

fn block_rest_exec(v: &Vec<char>, name: &Vec<char>) -> (r: Vec<char>)
    requires
        otag(name@).len() <= v@.len(),
    ensures
        r@ == block_rest(v@, name@),
        v@.len() > 0 ==> r@.len() < v@.len(),
{
    let ct = ctag_vec(name);
    let e = block_end_exec(v, name);
    if ct.len() <= v.len() - e {
        let r = subvec(v, e + ct.len(), v.len());
        proof {
            assert(r@ =~= v@.skip(block_end(v@, name@) + ctag(name@).len()));
        }
        r
    } else {
        let r: Vec<char> = Vec::new();
        proof {
            assert(r@ =~= Seq::<char>::empty());
        }
        r
    }
}

fn content_of_exec(v: &Vec<char>, name: &Vec<char>) -> (r: Option<Vec<char>>)
    ensures
        match (r, content_of(v@, name@)) {
            (Some(c), Some(cs)) => c@ == cs && cs.len() < v@.len(),
            (None, None) => true,
            _ => false,
        },
{
    let ot = otag_vec(name);
    let p = find_pat_exec(v, &ot);
    if p >= v.len() {
        return None;
    }
    let sfx = subvec(v, p, v.len());
    proof {
        assert(sfx@ =~= v@.skip(p as int));
    }
    if ot.len() <= sfx.len() {
        let c = block_content_exec(&sfx, name);
        proof {
            assert(c@.len() < sfx@.len());
            assert(sfx@.len() <= v@.len());
        }
        Some(c)
    } else {
        None
    }
}

/// The concatenated `m:t` texts of the markup.
pub fn mt_texts_exec(v: &Vec<char>) -> (r: Vec<char>)
    ensures
        r@ == mt_texts(v@),
    decreases v@.len(),
{
    let mt = name_vec(15);
    let ot = otag_vec(&mt);
    let ct = ctag_vec(&mt);
    let p = find_pat_exec(v, &ot);
    if p >= v.len() {
        let r: Vec<char> = Vec::new();
        proof {
            assert(r@ =~= mt_texts(v@));
        }
        return r;
    }
    if ot.len() > v.len() - p {
        let r: Vec<char> = Vec::new();
        proof {
            assert(r@ =~= mt_texts(v@));
        }
        return r;
    }
    let a = p + ot.len();
    let tail = subvec(v, a, v.len());
    proof {
        assert(tail@ =~= v@.skip(a as int));
    }
    let q = find_pat_exec(&tail, &ct);
    let e: usize = if q > v.len() - a {
        v.len()
    } else {
        a + q
    };
    proof {
        assert(e == if a + find_pat(v@.skip(a as int), ctag(n_mt())) > v@.len() {
            v@.len() as int
        } else {
            a + find_pat(v@.skip(a as int), ctag(n_mt()))
        });
    }
    let nxt: usize = if ct.len() > v.len() - e {
        v.len()
    } else {
        e + ct.len()
    };
    let mut piece = subvec(v, a, e);
    let rest_v = subvec(v, nxt, v.len());
    proof {
        assert(rest_v@ =~= v@.skip(nxt as int));
        assert(nxt >= a);
        assert(a >= 1);
    }
    let mut rest = mt_texts_exec(&rest_v);
    piece.append(&mut rest);
    proof {
        assert(piece@ =~= mt_texts(v@));
    }
    piece
}

/// The operator character of an n-ary block.
fn nary_operator_exec(c: &Vec<char>) -> (r: Vec<char>)
    ensures
        r@ == nary_operator(c@),
{
    let chr: Vec<char> = vec!['m', ':', 'c', 'h', 'r'];
    let valq: Vec<char> = vec!['m', ':', 'v', 'a', 'l', '=', '"'];
    let quote: Vec<char> = vec!['"'];
    let sum: Vec<char> = vec!['\u{2211}'];
    proof {
        assert(chr@ =~= seq!['m', ':', 'c', 'h', 'r']);
        assert(valq@ =~= seq!['m', ':', 'v', 'a', 'l', '=', '"']);
        assert(quote@ =~= seq!['"']);
        assert(sum@ =~= seq!['\u{2211}']);
    }
    let p = find_pat_exec(c, &chr);
    if p >= c.len() {
        return sum;
    }
    let after = subvec(c, p, c.len());
    proof {
        assert(after@ =~= c@.skip(p as int));
    }
    let q = find_pat_exec(&after, &valq);
    if q >= after.len() {
        return sum;
    }
    if valq.len() > after.len() - q {
        return sum;
    }
    let vstart = q + valq.len();
    let tail = subvec(&after, vstart, after.len());
    proof {
        assert(tail@ =~= after@.skip(vstart as int));
    }
    let z = find_pat_exec(&tail, &quote);
    if z >= tail.len() {
        return sum;
    }
    let r = subvec(&tail, 0, z);
    r
}

/// Parses the elements at the front of the markup, in order.
fn parse_list_exec(v: &Vec<char>) -> (r: Vec<OmmlElement>)
    ensures
        omml_views(r@) == spec_parse_list(v@),
    decreases v@.len(), 1int,
{
    let n = v.len();
    if n == 0 {
        let r: Vec<OmmlElement> = Vec::new();
        proof {
            assert(omml_views(r@) =~= spec_parse_list(v@));
        }
        return r;
    }
    let ssup = name_vec(0);
    let ssub = name_vec(1);
    let frac = name_vec(2);
    let nary = name_vec(3);
    let func = name_vec(11);
    let rad = name_vec(13);
    let delim = name_vec(4);
    let run = name_vec(5);
    let g0 = begins_block(v, &ssup);
    let g1 = begins_block(v, &ssub);
    let g2 = begins_block(v, &frac);
    let g3 = begins_block(v, &nary);
    let g4 = begins_block(v, &func);
    let g5 = begins_block(v, &rad);
    let g6 = begins_block(v, &delim);
    let g7 = begins_block(v, &run);
    if g0 {
        let c = block_content_exec(v, &ssup);
        let rest = block_rest_exec(v, &ssup);
        let base = sub_parse_exec(&c, 6);
        let sup = sub_parse_exec(&c, 7);
        let e = OmmlElement::Superscript { base: Box::new(base), sup: Box::new(sup) };
        proof {
            assert(spec_parse_list(v@)[0] == omml_view(e));
            assert(spec_parse_list(v@).drop_first() =~= spec_parse_list(rest@));
        }
        return cons_parsed(e, &rest, v);
    }
    if g1 {
        let c = block_content_exec(v, &ssub);
        let rest = block_rest_exec(v, &ssub);
        let base = sub_parse_exec(&c, 6);
        let sb = sub_parse_exec(&c, 8);
        let e = OmmlElement::Subscript { base: Box::new(base), sub: Box::new(sb) };
        proof {
            assert(spec_parse_list(v@)[0] == omml_view(e));
            assert(spec_parse_list(v@).drop_first() =~= spec_parse_list(rest@));
        }
        return cons_parsed(e, &rest, v);
    }
    if g2 {
        let c = block_content_exec(v, &frac);
        let rest = block_rest_exec(v, &frac);
        let num = sub_parse_exec(&c, 9);
        let den = sub_parse_exec(&c, 10);
        let marker: Vec<char> = vec![
            'm',
            ':',
            'v',
            'a',
            'l',
            '=',
            '"',
            'n',
            'o',
            'B',
            'a',
            'r',
            '"',
        ];
        proof {
            assert(marker@ =~= nobar_marker());
        }
        let no_bar = crate::text::contains_sub(&c, &marker);
        let e = OmmlElement::Fraction { num: Box::new(num), den: Box::new(den), no_bar };
        proof {
            assert(spec_parse_list(v@)[0] == omml_view(e));
            assert(spec_parse_list(v@).drop_first() =~= spec_parse_list(rest@));
        }
        return cons_parsed(e, &rest, v);
    }
    if g3 {
        let c = block_content_exec(v, &nary);
        let rest = block_rest_exec(v, &nary);
        let op = nary_operator_exec(&c);
        let sb = sub_parse_opt_exec(&c, 8);
        let sp = sub_parse_opt_exec(&c, 7);
        let base = sub_parse_exec(&c, 6);
        let e = OmmlElement::Nary {
            operator: string_of(&op),
            sub: sb,
            sup: sp,
            base: Box::new(base),
        };
        proof {
            assert(spec_parse_list(v@)[0] == omml_view(e));
            assert(spec_parse_list(v@).drop_first() =~= spec_parse_list(rest@));
        }
        return cons_parsed(e, &rest, v);
    }
    if g4 {
        let c = block_content_exec(v, &func);
        let rest = block_rest_exec(v, &func);
        let name = sub_parse_exec(&c, 12);
        let arg = sub_parse_exec(&c, 6);
        let e = OmmlElement::Function { name: Box::new(name), arg: Box::new(arg) };
        proof {
            assert(spec_parse_list(v@)[0] == omml_view(e));
            assert(spec_parse_list(v@).drop_first() =~= spec_parse_list(rest@));
        }
        return cons_parsed(e, &rest, v);
    }
    if g5 {
        let c = block_content_exec(v, &rad);
        let rest = block_rest_exec(v, &rad);
        let deg = sub_parse_opt_exec(&c, 14);
        let base = sub_parse_exec(&c, 6);
        let e = OmmlElement::Radical { degree: deg, base: Box::new(base) };
        proof {
            assert(spec_parse_list(v@)[0] == omml_view(e));
            assert(spec_parse_list(v@).drop_first() =~= spec_parse_list(rest@));
        }
        return cons_parsed(e, &rest, v);
    }
    if g6 {
        let c = block_content_exec(v, &delim);
        let rest = block_rest_exec(v, &delim);
        let content = sub_parse_exec(&c, 6);
        let e = OmmlElement::Delimiter { content: Box::new(content) };
        proof {
            assert(spec_parse_list(v@)[0] == omml_view(e));
            assert(spec_parse_list(v@).drop_first() =~= spec_parse_list(rest@));
        }
        return cons_parsed(e, &rest, v);
    }
    if g7 {
        let c = block_content_exec(v, &run);
        let rest = block_rest_exec(v, &run);
        let texts = mt_texts_exec(&c);
        let e = OmmlElement::Text(string_of(&texts));
        proof {
            assert(spec_parse_list(v@)[0] == omml_view(e));
            assert(spec_parse_list(v@).drop_first() =~= spec_parse_list(rest@));
        }
        return cons_parsed(e, &rest, v);
    }
    if v[0] == '<' {
        let gt: Vec<char> = vec!['>'];
        proof {
            assert(gt@ =~= seq!['>']);
        }
        let g = find_pat_exec(v, &gt);
        if g < n && n - g > 1 {
            let rest = subvec(v, g + 1, n);
            proof {
                assert(rest@ =~= v@.skip(g + 1int));
            }
            let r = parse_list_exec(&rest);
            return r;
        }
        let r: Vec<OmmlElement> = Vec::new();
        proof {
            assert(omml_views(r@) =~= spec_parse_list(v@));
        }
        return r;
    }
    let rest = subvec(v, 1, n);
    proof {
        assert(rest@ =~= v@.drop_first());
    }
    parse_list_exec(&rest)
}

/// Whether the markup begins with the open tag and the block consumes at
/// least one character.
fn begins_block(v: &Vec<char>, name: &Vec<char>) -> (r: bool)
    ensures
        r == (match_at(v@, otag(name@), 0) && block_rest(v@, name@).len() < v@.len()),
        r ==> otag(name@).len() <= v@.len(),
{
    let ot = otag_vec(name);
    if crate::text::starts_with_sub(v, &ot) {
        proof {
            let e = block_end(v@, name@);
            assert(e >= otag(name@).len());
            let after = e + ctag(name@).len();
            if after > v@.len() {
                assert(block_rest(v@, name@).len() == 0);
            } else {
                assert(block_rest(v@, name@).len() == v@.len() - after);
            }
            assert(v@.len() >= otag(name@).len());
            assert(otag(name@).len() > 0);
        }
        true
    } else {
        false
    }
}

/// Appends a parsed element to the parse of the remaining markup.
fn cons_parsed(e: OmmlElement, rest: &Vec<char>, whole: &Vec<char>) -> (r: Vec<OmmlElement>)
    requires
        spec_parse_list(whole@).len() > 0,
        spec_parse_list(whole@)[0] == omml_view(e),
        spec_parse_list(whole@).drop_first() == spec_parse_list(rest@),
    ensures
        omml_views(r@) == spec_parse_list(whole@),
    decreases rest@.len(), 2int,
{
    let tail = parse_list_exec(rest);
    let ghost tail0 = tail@;
    let mut tail2 = tail;
    let mut r: Vec<OmmlElement> = Vec::new();
    r.push(e);
    r.append(&mut tail2);
    proof {
        assert(r@ =~= seq![e] + tail0);
        lemma_omml_views_len(r@);
        lemma_omml_views_len(tail0);
        assert(omml_views(tail0) == spec_parse_list(rest@));
        assert forall|j: int| 0 <= j < r@.len() implies omml_views(r@)[j] == spec_parse_list(
            whole@,
        )[j] by {
            lemma_omml_views_index(r@, j);
            if j == 0 {
                assert(r@[0] == e);
            } else {
                assert(r@[j] == tail0[j - 1]);
                lemma_omml_views_index(tail0, j - 1);
                assert(omml_views(tail0)[j - 1] == spec_parse_list(rest@)[j - 1]);
                assert(spec_parse_list(whole@)[j] == spec_parse_list(whole@).drop_first()[j - 1]);
            }
        }
        assert(omml_views(r@) =~= spec_parse_list(whole@));
    }
    r
}

/// Parses a sub-block of the markup, an empty text when it is absent.
fn sub_parse_exec(c: &Vec<char>, which: u8) -> (r: OmmlElement)
    requires
        6 <= which <= 14,
    ensures
        which == 6 ==> omml_view(r) == spec_sub_parse(c@, n_e()),
        which == 7 ==> omml_view(r) == spec_sub_parse(c@, n_sup()),
        which == 8 ==> omml_view(r) == spec_sub_parse(c@, n_sub()),
        which == 9 ==> omml_view(r) == spec_sub_parse(c@, n_num()),
        which == 10 ==> omml_view(r) == spec_sub_parse(c@, n_den()),
        which == 12 ==> omml_view(r) == spec_sub_parse(c@, n_fname()),
    decreases c@.len(), 3int,
{
    let name = name_vec(which);
    match content_of_exec(c, &name) {
        Some(c2) => {
            proof {
                assert(c2@.len() < c@.len());
            }
            parse_exec(&c2)
        },
        None => OmmlElement::Text(String::new()),
    }
}

/// Parses an optional sub-block of the markup.
fn sub_parse_opt_exec(c: &Vec<char>, which: u8) -> (r: Option<Box<OmmlElement>>)
    requires
        6 <= which <= 14,
    ensures
        which == 7 ==> (match r {
            Some(b) => spec_sub_parse_opt(c@, n_sup()) == Some(
                Box::new(omml_view(*b)),
            ),
            None => spec_sub_parse_opt(c@, n_sup()) is None,
        }),
        which == 8 ==> (match r {
            Some(b) => spec_sub_parse_opt(c@, n_sub()) == Some(
                Box::new(omml_view(*b)),
            ),
            None => spec_sub_parse_opt(c@, n_sub()) is None,
        }),
        which == 14 ==> (match r {
            Some(b) => spec_sub_parse_opt(c@, n_deg()) == Some(
                Box::new(omml_view(*b)),
            ),
            None => spec_sub_parse_opt(c@, n_deg()) is None,
        }),
    decreases c@.len(), 4int,
{
    let name = name_vec(which);
    match content_of_exec(c, &name) {
        Some(c2) => {
            proof {
                assert(c2@.len() < c@.len());
            }
            Some(Box::new(parse_exec(&c2)))
        },
        None => None,
    }
}

/// Parses a whole markup fragment into one tree node.
fn parse_exec(v: &Vec<char>) -> (r: OmmlElement)
    ensures
        omml_view(r) == spec_parse(v@),
    decreases v@.len(), 2int,
{
    let mut es = parse_list_exec(v);
    proof {
        lemma_omml_views_len(es@);
    }
    if es.len() == 1 {
        let ghost es0 = es@;
        let e = es.pop().unwrap();
        proof {
            lemma_omml_views_index(es0, 0);
            assert(e == es0[0]);
            assert(omml_view(e) == spec_parse_list(v@)[0]);
        }
        e
    } else {
        let e = OmmlElement::Sequence(es);
        e
    }
}

/// The LaTeX replacement for one character: Greek letters and common
/// operators become commands, anything else stands as itself.
pub open spec fn latex_char(c: char) -> Seq<char> {
    if c == '\u{03C0}' {
        seq!['\\', 'p', 'i', ' ']
    } else if c == '\u{03B1}' {
        seq!['\\', 'a', 'l', 'p', 'h', 'a', ' ']
    } else if c == '\u{03B2}' {
        seq!['\\', 'b', 'e', 't', 'a', ' ']
    } else if c == '\u{03B3}' {
        seq!['\\', 'g', 'a', 'm', 'm', 'a', ' ']
    } else if c == '\u{0393}' {
        seq!['\\', 'G', 'a', 'm', 'm', 'a', ' ']
    } else if c == '\u{03B4}' {
        seq!['\\', 'd', 'e', 'l', 't', 'a', ' ']
    } else if c == '\u{0394}' {
        seq!['\\', 'D', 'e', 'l', 't', 'a', ' ']
    } else if c == '\u{03B8}' {
        seq!['\\', 't', 'h', 'e', 't', 'a', ' ']
    } else if c == '\u{03BB}' {
        seq!['\\', 'l', 'a', 'm', 'b', 'd', 'a', ' ']
    } else if c == '\u{03BC}' {
        seq!['\\', 'm', 'u', ' ']
    } else if c == '\u{03C3}' {
        seq!['\\', 's', 'i', 'g', 'm', 'a', ' ']
    } else if c == '\u{03A3}' {
        seq!['\\', 'S', 'i', 'g', 'm', 'a', ' ']
    } else if c == '\u{03C6}' {
        seq!['\\', 'p', 'h', 'i', ' ']
    } else if c == '\u{03C9}' {
        seq!['\\', 'o', 'm', 'e', 'g', 'a', ' ']
    } else if c == '\u{03A9}' {
        seq!['\\', 'O', 'm', 'e', 'g', 'a', ' ']
    } else if c == '\u{221E}' {
        seq!['\\', 'i', 'n', 'f', 't', 'y', ' ']
    } else if c == '\u{00B1}' {
        seq!['\\', 'p', 'm', ' ']
    } else if c == '\u{00D7}' {
        seq!['\\', 't', 'i', 'm', 'e', 's', ' ']
    } else if c == '\u{00F7}' {
        seq!['\\', 'd', 'i', 'v', ' ']
    } else if c == '\u{2264}' {
        seq!['\\', 'l', 'e', 'q', ' ']
    } else if c == '\u{2265}' {
        seq!['\\', 'g', 'e', 'q', ' ']
    } else if c == '\u{2260}' {
        seq!['\\', 'n', 'e', 'q', ' ']
    } else if c == '\u{2248}' {
        seq!['\\', 'a', 'p', 'p', 'r', 'o', 'x', ' ']
    } else if c == '\u{2208}' {
        seq!['\\', 'i', 'n', ' ']
    } else if c == '\u{2209}' {
        seq!['\\', 'n', 'o', 't', 'i', 'n', ' ']
    } else if c == '\u{2282}' {
        seq!['\\', 's', 'u', 'b', 's', 'e', 't', ' ']
    } else if c == '\u{2283}' {
        seq!['\\', 's', 'u', 'p', 's', 'e', 't', ' ']
    } else if c == '\u{222A}' {
        seq!['\\', 'c', 'u', 'p', ' ']
    } else if c == '\u{2229}' {
        seq!['\\', 'c', 'a', 'p', ' ']
    } else if c == '\u{2205}' {
        seq!['\\', 'e', 'm', 'p', 't', 'y', 's', 'e', 't', ' ']
    } else if c == '\u{221A}' {
        seq!['\\', 's', 'q', 'r', 't']
    } else {
        seq![c]
    }
}

/// Character-by-character LaTeX substitution of a text run.
pub open spec fn latex_text(s: Seq<char>) -> Seq<char>
    decreases s.len(),
{
    if s.len() == 0 {
        Seq::<char>::empty()
    } else {
        latex_char(s[0]) + latex_text(s.drop_first())
    }
}

fn latex_char_exec(c: char, out: &mut Vec<char>)
    ensures
        final(out)@ == old(out)@ + latex_char(c),
{
    let ghost pre = out@;
    if c == '\u{03C0}' {
        push_str4(out, '\\', 'p', 'i', ' ');
    } else if c == '\u{03B1}' {
        push_str4(out, '\\', 'a', 'l', 'p');
        push_str3(out, 'h', 'a', ' ');
    } else if c == '\u{03B2}' {
        push_str4(out, '\\', 'b', 'e', 't');
        push_str2(out, 'a', ' ');
    } else if c == '\u{03B3}' {
        push_str4(out, '\\', 'g', 'a', 'm');
        push_str3(out, 'm', 'a', ' ');
    } else if c == '\u{0393}' {
        push_str4(out, '\\', 'G', 'a', 'm');
        push_str3(out, 'm', 'a', ' ');
    } else if c == '\u{03B4}' {
        push_str4(out, '\\', 'd', 'e', 'l');
        push_str3(out, 't', 'a', ' ');
    } else if c == '\u{0394}' {
        push_str4(out, '\\', 'D', 'e', 'l');
        push_str3(out, 't', 'a', ' ');
    } else if c == '\u{03B8}' {
        push_str4(out, '\\', 't', 'h', 'e');
        push_str3(out, 't', 'a', ' ');
    } else if c == '\u{03BB}' {
        push_str4(out, '\\', 'l', 'a', 'm');
        push_str4(out, 'b', 'd', 'a', ' ');
    } else if c == '\u{03BC}' {
        push_str4(out, '\\', 'm', 'u', ' ');
    } else if c == '\u{03C3}' {
        push_str4(out, '\\', 's', 'i', 'g');
        push_str3(out, 'm', 'a', ' ');
    } else if c == '\u{03A3}' {
        push_str4(out, '\\', 'S', 'i', 'g');
        push_str3(out, 'm', 'a', ' ');
    } else if c == '\u{03C6}' {
        push_str4(out, '\\', 'p', 'h', 'i');
        out.push(' ');
    } else if c == '\u{03C9}' {
        push_str4(out, '\\', 'o', 'm', 'e');
        push_str3(out, 'g', 'a', ' ');
    } else if c == '\u{03A9}' {
        push_str4(out, '\\', 'O', 'm', 'e');
        push_str3(out, 'g', 'a', ' ');
    } else if c == '\u{221E}' {
        push_str4(out, '\\', 'i', 'n', 'f');
        push_str3(out, 't', 'y', ' ');
    } else if c == '\u{00B1}' {
        push_str4(out, '\\', 'p', 'm', ' ');
    } else if c == '\u{00D7}' {
        push_str4(out, '\\', 't', 'i', 'm');
        push_str3(out, 'e', 's', ' ');
    } else if c == '\u{00F7}' {
        push_str4(out, '\\', 'd', 'i', 'v');
        out.push(' ');
    } else if c == '\u{2264}' {
        push_str4(out, '\\', 'l', 'e', 'q');
        out.push(' ');
    } else if c == '\u{2265}' {
        push_str4(out, '\\', 'g', 'e', 'q');
        out.push(' ');
    } else if c == '\u{2260}' {
        push_str4(out, '\\', 'n', 'e', 'q');
        out.push(' ');
    } else if c == '\u{2248}' {
        push_str4(out, '\\', 'a', 'p', 'p');
        push_str4(out, 'r', 'o', 'x', ' ');
    } else if c == '\u{2208}' {
        push_str4(out, '\\', 'i', 'n', ' ');
    } else if c == '\u{2209}' {
        push_str4(out, '\\', 'n', 'o', 't');
        push_str3(out, 'i', 'n', ' ');
    } else if c == '\u{2282}' {
        push_str4(out, '\\', 's', 'u', 'b');
        push_str4(out, 's', 'e', 't', ' ');
    } else if c == '\u{2283}' {
        push_str4(out, '\\', 's', 'u', 'p');
        push_str4(out, 's', 'e', 't', ' ');
    } else if c == '\u{222A}' {
        push_str4(out, '\\', 'c', 'u', 'p');
        out.push(' ');
    } else if c == '\u{2229}' {
        push_str4(out, '\\', 'c', 'a', 'p');
        out.push(' ');
    } else if c == '\u{2205}' {
        push_str4(out, '\\', 'e', 'm', 'p');
        push_str4(out, 't', 'y', 's', 'e');
        push_str2(out, 't', ' ');
    } else if c == '\u{221A}' {
        push_str4(out, '\\', 's', 'q', 'r');
        out.push('t');
    } else {
        out.push(c);
    }
    proof {
        assert(out@ =~= pre + latex_char(c));
    }
}

fn push_str2(out: &mut Vec<char>, a: char, b: char)
    ensures
        final(out)@ == old(out)@ + seq![a, b],
{
    out.push(a);
    out.push(b);
    proof {
        assert(out@ =~= old(out)@ + seq![a, b]);
    }
}

fn push_str3(out: &mut Vec<char>, a: char, b: char, c: char)
    ensures
        final(out)@ == old(out)@ + seq![a, b, c],
{
    out.push(a);
    out.push(b);
    out.push(c);
    proof {
        assert(out@ =~= old(out)@ + seq![a, b, c]);
    }
}

fn push_str4(out: &mut Vec<char>, a: char, b: char, c: char, d: char)
    ensures
        final(out)@ == old(out)@ + seq![a, b, c, d],
{
    out.push(a);
    out.push(b);
    out.push(c);
    out.push(d);
    proof {
        assert(out@ =~= old(out)@ + seq![a, b, c, d]);
    }
}

fn latex_text_exec(s: &Vec<char>) -> (r: Vec<char>)
    ensures
        r@ == latex_text(s@),
{
    let mut out: Vec<char> = Vec::new();
    let mut i: usize = 0;
    proof {
        assert(s@.take(0int) =~= Seq::<char>::empty());
    }
    while i < s.len()
        invariant
            i <= s@.len(),
            out@ == latex_text(s@.take(i as int)),
        decreases s@.len() - i,
    {
        latex_char_exec(s[i], &mut out);
        proof {
            lemma_latex_text_take(s@, i as int);
        }
        i = i + 1;
    }
    proof {
        assert(s@.take(s@.len() as int) =~= s@);
    }
    out
}

proof fn lemma_latex_text_take(s: Seq<char>, i: int)
    requires
        0 <= i < s.len(),
    ensures
        latex_text(s.take(i + 1)) == latex_text(s.take(i)) + latex_char(s[i]),
    decreases i,
{
    if i == 0 {
        assert(s.take(1).drop_first() =~= Seq::<char>::empty());
        assert(s.take(1)[0] == s[0]);
        assert(s.take(0) =~= Seq::<char>::empty());
        assert(latex_text(Seq::<char>::empty()) == Seq::<char>::empty());
        assert(latex_text(s.take(1)) =~= latex_char(s[0]) + Seq::<char>::empty());
        assert(latex_text(s.take(0)) + latex_char(s[0]) =~= latex_char(s[0])
            + Seq::<char>::empty());
    } else {
        lemma_latex_text_take(s.drop_first(), i - 1);
        assert(s.take(i + 1).drop_first() =~= s.drop_first().take(i));
        assert(s.take(i).drop_first() =~= s.drop_first().take(i - 1));
        assert(s.take(i + 1)[0] == s[0]);
        assert(s.take(i)[0] == s[0]);
        assert(s.drop_first()[i - 1] == s[i]);
        assert(latex_char(s[0]) + (latex_text(s.drop_first().take(i - 1)) + latex_char(s[i]))
            =~= (latex_char(s[0]) + latex_text(s.drop_first().take(i - 1))) + latex_char(s[i]));
    }
}

/// The LaTeX command for an n-ary operator character, a sum by default.
pub open spec fn nary_latex_op(op: Seq<char>) -> Seq<char> {
    if op == seq!['\u{222B}'] {
        seq!['\\', 'i', 'n', 't']
    } else if op == seq!['\u{222C}'] {
        seq!['\\', 'i', 'i', 'n', 't']
    } else if op == seq!['\u{222D}'] {
        seq!['\\', 'i', 'i', 'i', 'n', 't']
    } else if op == seq!['\u{222E}'] {
        seq!['\\', 'o', 'i', 'n', 't']
    } else if op == seq!['\u{220F}'] {
        seq!['\\', 'p', 'r', 'o', 'd']
    } else if op == seq!['\u{22C3}'] {
        seq!['\\', 'b', 'i', 'g', 'c', 'u', 'p']
    } else if op == seq!['\u{22C2}'] {
        seq!['\\', 'b', 'i', 'g', 'c', 'a', 'p']
    } else {
        seq!['\\', 's', 'u', 'm']
    }
}

/// The LaTeX rendering of an equation tree.
pub open spec fn spec_render_latex(e: OmmlV) -> Seq<char>
    decreases e,
{
    match e {
        OmmlV::Text(s) => latex_text(s),
        OmmlV::Sequence(es) => spec_render_latex_seq(es),
        OmmlV::Superscript { base, sup } => spec_render_latex(*base) + seq!['^', '{']
            + spec_render_latex(*sup) + seq!['}'],
        OmmlV::Subscript { base, sub } => spec_render_latex(*base) + seq!['_', '{']
            + spec_render_latex(*sub) + seq!['}'],
        OmmlV::Fraction { num, den, no_bar } => (if no_bar {
            seq!['\\', 'b', 'i', 'n', 'o', 'm', '{']
        } else {
            seq!['\\', 'f', 'r', 'a', 'c', '{']
        }) + spec_render_latex(*num) + seq!['}', '{'] + spec_render_latex(*den) + seq!['}'],
        OmmlV::Nary { operator, sub, sup, base } => nary_latex_op(operator) + (match sub {
            Some(b) => seq!['_', '{'] + spec_render_latex(*b) + seq!['}'],
            None => Seq::<char>::empty(),
        }) + (match sup {
            Some(b) => seq!['^', '{'] + spec_render_latex(*b) + seq!['}'],
            None => Seq::<char>::empty(),
        }) + seq![' '] + spec_render_latex(*base),
        OmmlV::Delimiter { content } => seq!['\\', 'l', 'e', 'f', 't', '('] + spec_render_latex(
            *content,
        ) + seq!['\\', 'r', 'i', 'g', 'h', 't', ')'],
        OmmlV::Function { name, arg } => seq!['\\'] + spec_render_latex(*name) + seq![' ']
            + spec_render_latex(*arg),
        OmmlV::Radical { degree, base } => seq!['\\', 's', 'q', 'r', 't'] + (match degree {
            Some(b) => {
                if spec_render_latex(*b).len() > 0 && spec_render_latex(*b) != seq!['2'] {
                    seq!['['] + spec_render_latex(*b) + seq![']']
                } else {
                    Seq::<char>::empty()
                }
            },
            None => Seq::<char>::empty(),
        }) + seq!['{'] + spec_render_latex(*base) + seq!['}'],
    }
}

pub open spec fn spec_render_latex_seq(es: Seq<OmmlV>) -> Seq<char>
    decreases es,
{
    if es.len() == 0 {
        Seq::<char>::empty()
    } else {
        spec_render_latex(es[0]) + spec_render_latex_seq(es.drop_first())
    }
}

proof fn lemma_latex_seq_take(vs: Seq<OmmlV>, i: int)
    requires
        0 <= i < vs.len(),
    ensures
        spec_render_latex_seq(vs.take(i + 1)) == spec_render_latex_seq(vs.take(i))
            + spec_render_latex(vs[i]),
    decreases i,
{
    if i == 0 {
        assert(vs.take(1).drop_first() =~= Seq::<OmmlV>::empty());
        assert(vs.take(1)[0] == vs[0]);
        assert(vs.take(0) =~= Seq::<OmmlV>::empty());
        assert(spec_render_latex_seq(Seq::<OmmlV>::empty()) == Seq::<char>::empty());
        assert(spec_render_latex_seq(vs.take(1)) =~= spec_render_latex(vs[0])
            + Seq::<char>::empty());
        assert(spec_render_latex_seq(vs.take(0)) + spec_render_latex(vs[0]) =~= spec_render_latex(
            vs[0],
        ) + Seq::<char>::empty());
    } else {
        lemma_latex_seq_take(vs.drop_first(), i - 1);
        assert(vs.take(i + 1).drop_first() =~= vs.drop_first().take(i));
        assert(vs.take(i).drop_first() =~= vs.drop_first().take(i - 1));
        assert(vs.take(i + 1)[0] == vs[0]);
        assert(vs.take(i)[0] == vs[0]);
        assert(vs.drop_first()[i - 1] == vs[i]);
        assert(spec_render_latex(vs[0]) + (spec_render_latex_seq(vs.drop_first().take(i - 1))
            + spec_render_latex(vs[i])) =~= (spec_render_latex(vs[0]) + spec_render_latex_seq(
            vs.drop_first().take(i - 1),
        )) + spec_render_latex(vs[i]));
    }
}

/// Renders a parsed equation tree to LaTeX.
#[verifier::rlimit(100)]
pub fn render_to_latex(element: &OmmlElement) -> (r: String)
    ensures
        r@ == spec_render_latex(element@),
    decreases *element,
{
    match element {
        OmmlElement::Text(s) => {
            let cs = chars_of(s.as_str());
            let out = latex_text_exec(&cs);
            string_of(&out)
        },
        OmmlElement::Sequence(es) => {
            let mut out: Vec<char> = Vec::new();
            let mut i: usize = 0;
            proof {
                lemma_omml_views_len(es@);
            }
            while i < es.len()
                invariant
                    *element == OmmlElement::Sequence(*es),
                    i <= es@.len(),
                    out@ == spec_render_latex_seq(omml_views(es@).take(i as int)),
                    omml_views(es@).len() == es@.len(),
                decreases es@.len() - i,
            {
                let ghost vs = omml_views(es@);
                proof {
                    assert(decreases_to!(*element => element->Sequence_0));
                    assert(decreases_to!(element->Sequence_0 => element->Sequence_0@));
                    assert(decreases_to!(element->Sequence_0@ => element->Sequence_0@[i as int]));
                    assert(element->Sequence_0@[i as int] == es@[i as int]);
                    assert(decreases_to!(*element => es@[i as int]));
                }
                let piece = render_to_latex(&es[i]);
                let mut pcs = chars_of(piece.as_str());
                out.append(&mut pcs);
                proof {
                    lemma_latex_seq_take(vs, i as int);
                    lemma_omml_views_index(es@, i as int);
                    assert(out@ =~= spec_render_latex_seq(vs.take(i + 1)));
                }
                i = i + 1;
            }
            proof {
                assert(omml_views(es@).take(es@.len() as int) =~= omml_views(es@));
            }
            string_of(&out)
        },
        OmmlElement::Superscript { base, sup } => {
            let b = render_to_latex(base);
            let s = render_to_latex(sup);
            let mut out = chars_of(b.as_str());
            push_str2(&mut out, '^', '{');
            let mut sv = chars_of(s.as_str());
            out.append(&mut sv);
            out.push('}');
            proof {
                assert(out@ =~= spec_render_latex(element@));
            }
            string_of(&out)
        },
        OmmlElement::Subscript { base, sub } => {
            let b = render_to_latex(base);
            let s = render_to_latex(sub);
            let mut out = chars_of(b.as_str());
            push_str2(&mut out, '_', '{');
            let mut sv = chars_of(s.as_str());
            out.append(&mut sv);
            out.push('}');
            proof {
                assert(out@ =~= spec_render_latex(element@));
            }
            string_of(&out)
        },
        OmmlElement::Fraction { num, den, no_bar } => {
            let ns = render_to_latex(num);
            let ds = render_to_latex(den);
            let mut out: Vec<char> = Vec::new();
            if *no_bar {
                push_str4(&mut out, '\\', 'b', 'i', 'n');
                push_str3(&mut out, 'o', 'm', '{');
            } else {
                push_str4(&mut out, '\\', 'f', 'r', 'a');
                push_str2(&mut out, 'c', '{');
            }
            let mut nv = chars_of(ns.as_str());
            out.append(&mut nv);
            push_str2(&mut out, '}', '{');
            let mut dv = chars_of(ds.as_str());
            out.append(&mut dv);
            out.push('}');
            proof {
                assert(out@ =~= spec_render_latex(element@));
            }
            string_of(&out)
        },
        OmmlElement::Nary { operator, sub, sup, base } => {
            let opv = chars_of(operator.as_str());
            let mut out: Vec<char> = Vec::new();
            let int_c: Vec<char> = vec!['\u{222B}'];
            let iint_c: Vec<char> = vec!['\u{222C}'];
            let iiint_c: Vec<char> = vec!['\u{222D}'];
            let oint_c: Vec<char> = vec!['\u{222E}'];
            let prod_c: Vec<char> = vec!['\u{220F}'];
            let cup_c: Vec<char> = vec!['\u{22C3}'];
            let cap_c: Vec<char> = vec!['\u{22C2}'];
            proof {
                assert(int_c@ =~= seq!['\u{222B}']);
                assert(iint_c@ =~= seq!['\u{222C}']);
                assert(iiint_c@ =~= seq!['\u{222D}']);
                assert(oint_c@ =~= seq!['\u{222E}']);
                assert(prod_c@ =~= seq!['\u{220F}']);
                assert(cup_c@ =~= seq!['\u{22C3}']);
                assert(cap_c@ =~= seq!['\u{22C2}']);
            }
            if vec_eq_chars(&opv, &int_c) {
                push_str4(&mut out, '\\', 'i', 'n', 't');
            } else if vec_eq_chars(&opv, &iint_c) {
                push_str4(&mut out, '\\', 'i', 'i', 'n');
                out.push('t');
            } else if vec_eq_chars(&opv, &iiint_c) {
                push_str4(&mut out, '\\', 'i', 'i', 'i');
                push_str2(&mut out, 'n', 't');
            } else if vec_eq_chars(&opv, &oint_c) {
                push_str4(&mut out, '\\', 'o', 'i', 'n');
                out.push('t');
            } else if vec_eq_chars(&opv, &prod_c) {
                push_str4(&mut out, '\\', 'p', 'r', 'o');
                out.push('d');
            } else if vec_eq_chars(&opv, &cup_c) {
                push_str4(&mut out, '\\', 'b', 'i', 'g');
                push_str3(&mut out, 'c', 'u', 'p');
            } else if vec_eq_chars(&opv, &cap_c) {
                push_str4(&mut out, '\\', 'b', 'i', 'g');
                push_str3(&mut out, 'c', 'a', 'p');
            } else {
                push_str4(&mut out, '\\', 's', 'u', 'm');
            }
            proof {
                assert(out@ =~= nary_latex_op(operator@));
            }
            match sub {
                Some(b) => {
                    let s = render_to_latex(b);
                    push_str2(&mut out, '_', '{');
                    let mut sv = chars_of(s.as_str());
                    out.append(&mut sv);
                    out.push('}');
                },
                None => {},
            }
            match sup {
                Some(b) => {
                    let s = render_to_latex(b);
                    push_str2(&mut out, '^', '{');
                    let mut sv = chars_of(s.as_str());
                    out.append(&mut sv);
                    out.push('}');
                },
                None => {},
            }
            out.push(' ');
            let bs = render_to_latex(base);
            let mut bv = chars_of(bs.as_str());
            out.append(&mut bv);
            proof {
                assert(out@ =~= spec_render_latex(element@));
            }
            string_of(&out)
        },
        OmmlElement::Delimiter { content } => {
            let c = render_to_latex(content);
            let mut out: Vec<char> = Vec::new();
            push_str4(&mut out, '\\', 'l', 'e', 'f');
            push_str2(&mut out, 't', '(');
            let mut cv = chars_of(c.as_str());
            out.append(&mut cv);
            push_str4(&mut out, '\\', 'r', 'i', 'g');
            push_str3(&mut out, 'h', 't', ')');
            proof {
                assert(out@ =~= spec_render_latex(element@));
            }
            string_of(&out)
        },
        OmmlElement::Function { name, arg } => {
            let ns = render_to_latex(name);
            let ars = render_to_latex(arg);
            let mut out: Vec<char> = Vec::new();
            out.push('\\');
            let mut nv = chars_of(ns.as_str());
            out.append(&mut nv);
            out.push(' ');
            let mut av = chars_of(ars.as_str());
            out.append(&mut av);
            proof {
                assert(out@ =~= spec_render_latex(element@));
            }
            string_of(&out)
        },
        OmmlElement::Radical { degree, base } => {
            let mut out: Vec<char> = Vec::new();
            push_str4(&mut out, '\\', 's', 'q', 'r');
            out.push('t');
            match degree {
                Some(d) => {
                    let ds = render_to_latex(d);
                    let dv = chars_of(ds.as_str());
                    let two: Vec<char> = vec!['2'];
                    proof {
                        assert(two@ =~= seq!['2']);
                    }
                    if dv.len() > 0 && !vec_eq_chars(&dv, &two) {
                        out.push('[');
                        let mut dv2 = chars_of(ds.as_str());
                        out.append(&mut dv2);
                        out.push(']');
                    }
                },
                None => {},
            }
            out.push('{');
            let bs = render_to_latex(base);
            let mut bv = chars_of(bs.as_str());
            out.append(&mut bv);
            out.push('}');
            proof {
                assert(out@ =~= spec_render_latex(element@));
            }
            string_of(&out)
        },
    }
}

fn vec_eq_chars(a: &Vec<char>, b: &Vec<char>) -> (r: bool)
    ensures
        r == (a@ == b@),
{
    if a.len() != b.len() {
        return false;
    }
    let n = a.len();
    let mut i: usize = 0;
    while i < n
        invariant
            n == a@.len() == b@.len(),
            i <= n,
            forall|j: int| 0 <= j < i ==> a@[j] == b@[j],
        decreases n - i,
    {
        if a[i] != b[i] {
            return false;
        }
        i = i + 1;
    }
    proof {
        assert(a@ =~= b@);
    }
    true
}

/// An equation: its raw markup, Unicode rendering and plain fallback.
pub struct Equation {
    pub omml: String,
    pub unicode: String,
    pub fallback: String,
}

impl Equation {
    /// Parses OMML markup and renders it to Unicode, keeping the raw
    /// markup and a plain-text fallback alongside. Malformed fragments
    /// degrade to what was accumulated; parsing never fails.
    pub fn from_omml(omml: String) -> (r: Result<Equation, String>)
        ensures
            r is Ok,
            r->Ok_0.omml@ == omml@,
            r->Ok_0.unicode@ == spec_render_unicode(spec_parse(omml@)),
            r->Ok_0.fallback@ == mt_texts(omml@),
    {
        let cs = chars_of(omml.as_str());
        let tree = parse_exec(&cs);
        let unicode = render_to_unicode(&tree);
        let fb = mt_texts_exec(&cs);
        let fallback = string_of(&fb);
        Ok(Equation { omml, unicode, fallback })
    }
}

/// Parses OMML markup and renders it to Unicode text.
pub fn parse_omml_to_unicode(omml: &str) -> (r: Result<String, String>)
    ensures
        r is Ok,
        r->Ok_0@ == spec_render_unicode(spec_parse(omml@)),
{
    let cs = chars_of(omml);
    let tree = parse_exec(&cs);
    Ok(render_to_unicode(&tree))
}

/// Converts OMML markup to LaTeX.
pub fn omml_to_latex(omml: &str) -> (r: String)
    ensures
        r@ == spec_render_latex(spec_parse(omml@)),
{
    let cs = chars_of(omml);
    let tree = parse_exec(&cs);
    render_to_latex(&tree)
}

/// The LaTeX form of the first `tag` block's content: recursively
/// converted when it holds nested markup, else its plain text; nothing
/// when the block is absent or empty.
pub open spec fn spec_extract_latex_text(s: Seq<char>, tag: Seq<char>) -> Option<Seq<char>> {
    match content_of(s, tag) {
        Some(c) => {
            if contains_seq(c, seq!['<', 'm', ':']) {
                Some(spec_render_latex(spec_parse(c)))
            } else {
                let t = mt_texts(c);
                if t.len() > 0 {
                    Some(t)
                } else {
                    None
                }
            }
        },
        None => None,
    }
}

/// Extracts and converts the content of the first `tag` block to LaTeX.
pub fn extract_latex_text(omml: &str, tag: &str) -> (r: Option<String>)
    ensures
        match r {
            Some(t) => spec_extract_latex_text(omml@, tag@) == Some(t@),
            None => spec_extract_latex_text(omml@, tag@) is None,
        },
{
    let cs = chars_of(omml);
    let tv = chars_of(tag);
    match content_of_exec(&cs, &tv) {
        Some(c) => {
            let opener: Vec<char> = vec!['<', 'm', ':'];
            proof {
                assert(opener@ =~= seq!['<', 'm', ':']);
            }
            if crate::text::contains_sub(&c, &opener) {
                let tree = parse_exec(&c);
                Some(render_to_latex(&tree))
            } else {
                let t = mt_texts_exec(&c);
                if t.len() > 0 {
                    Some(string_of(&t))
                } else {
                    None
                }
            }
        },
        None => None,
    }
}

/// The plain inner text of the first `tag` element, without depth
/// matching; nothing when the element is absent or empty.
pub open spec fn spec_extract_text(s: Seq<char>, tag: Seq<char>) -> Option<Seq<char>> {
    let p = find_pat(s, otag(tag));
    if p >= s.len() {
        None
    } else {
        let a = p + otag(tag).len();
        if a > s.len() {
            None
        } else {
            let rest = s.skip(a as int);
            let q = find_pat(rest, ctag(tag));
            if q >= rest.len() {
                None
            } else {
                if q > 0 {
                    Some(rest.subrange(0, q as int))
                } else {
                    None
                }
            }
        }
    }
}

/// Extracts the inner text of the first `tag` element.
pub fn extract_text(omml: &str, tag: &str) -> (r: Option<String>)
    ensures
        match r {
            Some(t) => spec_extract_text(omml@, tag@) == Some(t@),
            None => spec_extract_text(omml@, tag@) is None,
        },
{
    let cs = chars_of(omml);
    let tv = chars_of(tag);
    let ot = otag_vec(&tv);
    let ct = ctag_vec(&tv);
    let p = find_pat_exec(&cs, &ot);
    if p >= cs.len() {
        return None;
    }
    if ot.len() > cs.len() - p {
        return None;
    }
    let a = p + ot.len();
    let rest = subvec(&cs, a, cs.len());
    proof {
        assert(rest@ =~= cs@.skip(a as int));
    }
    let q = find_pat_exec(&rest, &ct);
    if q >= rest.len() {
        return None;
    }
    if q == 0 {
        return None;
    }
    let inner = subvec(&rest, 0, q);
    Some(string_of(&inner))
}

/// The LaTeX conversion of a fragment paired with its plain fallback;
/// the fallback stands in when the conversion is empty.
#[verifier::opaque]
pub open spec fn spec_simple_pair(c: Seq<char>) -> (Seq<char>, Seq<char>) {
    let latex0 = spec_render_latex(spec_parse(c));
    let fb = mt_texts(c);
    (
        if latex0.len() == 0 {
            fb
        } else {
            latex0
        },
        fb,
    )
}

/// The LaTeX conversion of a whole markup fragment, with its plain-text
/// fallback; the fallback stands in for an empty conversion.
pub fn parse_simple_omml(omml: &str) -> (r: (String, String))
    ensures
        r.0@ == spec_simple_pair(omml@).0,
        r.1@ == spec_simple_pair(omml@).1,
        r.1@ == mt_texts(omml@),
        r.0@ == if spec_render_latex(spec_parse(omml@)).len() == 0 {
            mt_texts(omml@)
        } else {
            spec_render_latex(spec_parse(omml@))
        },
{
    proof {
        reveal(crate::equation::spec_simple_pair);
    }
    let cs = chars_of(omml);
    let fbv = mt_texts_exec(&cs);
    let fallback = string_of(&fbv);
    let latex = omml_to_latex(omml);
    if latex.as_str().unicode_len() == 0 {
        let fb2 = string_of(&fbv);
        (fb2, fallback)
    } else {
        (latex, fallback)
    }
}

} // verus!
