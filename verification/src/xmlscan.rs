//! The raw `word/document.xml` pass: paragraph positions, inline and
//! display equations, and per-paragraph text/equation interleavings, read
//! straight from the markup by tag scanning.

use vstd::prelude::*;

use crate::reconstruct::{EquationInfo, ParaContents, ParagraphContent, PCV};
use crate::text::{chars_of, match_at, string_of, subvec};

verus! {

/// The five standard entities decoded, other text kept as it stands.
pub open spec fn spec_unescape(s: Seq<char>) -> Seq<char>
    decreases s.len(),
{
    if s.len() == 0 {
        s
    } else if match_at(s, seq!['&', 'a', 'm', 'p', ';'], 0) {
        seq!['&'] + spec_unescape(s.skip(5))
    } else if match_at(s, seq!['&', 'l', 't', ';'], 0) {
        seq!['<'] + spec_unescape(s.skip(4))
    } else if match_at(s, seq!['&', 'g', 't', ';'], 0) {
        seq!['>'] + spec_unescape(s.skip(4))
    } else if match_at(s, seq!['&', 'q', 'u', 'o', 't', ';'], 0) {
        seq!['"'] + spec_unescape(s.skip(6))
    } else if match_at(s, seq!['&', 'a', 'p', 'o', 's', ';'], 0) {
        seq!['\''] + spec_unescape(s.skip(6))
    } else {
        seq![s[0]] + spec_unescape(s.skip(1))
    }
}

fn starts_at(v: &Vec<char>, i: usize, pat: &Vec<char>) -> (r: bool)
    requires
        i <= v@.len(),
    ensures
        r == match_at(v@, pat@, i as int),
{
    if pat.len() <= v.len() - i {
        let w = subvec(v, i, v.len());
        let hit = crate::text::starts_with_sub(&w, pat);
        proof {
            if pat@.len() <= v@.len() - i {
                assert(v@.subrange(i as int, v@.len() as int).subrange(0, pat@.len() as int)
                    =~= v@.subrange(i as int, i + pat@.len()));
            }
        }
        hit
    } else {
        false
    }
}

/// Decodes the five standard entities of escaped text.
pub fn unescape_entities(v: &Vec<char>) -> (r: Vec<char>)
    ensures
        r@ == spec_unescape(v@),
{
    let amp: Vec<char> = vec!['&', 'a', 'm', 'p', ';'];
    let lt: Vec<char> = vec!['&', 'l', 't', ';'];
    let gt: Vec<char> = vec!['&', 'g', 't', ';'];
    let quot: Vec<char> = vec!['&', 'q', 'u', 'o', 't', ';'];
    let apos: Vec<char> = vec!['&', 'a', 'p', 'o', 's', ';'];
    proof {
        assert(amp@ =~= seq!['&', 'a', 'm', 'p', ';']);
        assert(lt@ =~= seq!['&', 'l', 't', ';']);
        assert(gt@ =~= seq!['&', 'g', 't', ';']);
        assert(quot@ =~= seq!['&', 'q', 'u', 'o', 't', ';']);
        assert(apos@ =~= seq!['&', 'a', 'p', 'o', 's', ';']);
    }
    let mut out: Vec<char> = Vec::new();
    let n = v.len();
    let mut i: usize = 0;
    proof {
        assert(v@.skip(0) =~= v@);
        assert(out@ =~= Seq::<char>::empty());
        assert(Seq::<char>::empty() + spec_unescape(v@) =~= spec_unescape(v@));
    }
    while i < n
        invariant
            n == v@.len(),
            i <= n,
            amp@ == seq!['&', 'a', 'm', 'p', ';'],
            lt@ == seq!['&', 'l', 't', ';'],
            gt@ == seq!['&', 'g', 't', ';'],
            quot@ == seq!['&', 'q', 'u', 'o', 't', ';'],
            apos@ == seq!['&', 'a', 'p', 'o', 's', ';'],
            spec_unescape(v@) == out@ + spec_unescape(v@.skip(i as int)),
        decreases n - i,
    {
        let ghost rest = v@.skip(i as int);
        proof {
            assert(rest[0] == v@[i as int]);
        }
        if starts_at(v, i, &amp) {
            out.push('&');
            proof {
                assert(rest.subrange(0, 5) =~= v@.subrange(i as int, i + 5));
                assert(match_at(rest, amp@, 0));
                assert(rest.skip(5) =~= v@.skip(i + 5));
            }
            i = i + 5;
        } else if starts_at(v, i, &lt) {
            out.push('<');
            proof {
                assert(rest.subrange(0, 4) =~= v@.subrange(i as int, i + 4));
                assert(match_at(rest, lt@, 0));
                assert(!match_at(rest, amp@, 0)) by {
                    if match_at(rest, amp@, 0) {
                        assert(rest.subrange(0, 5)[1] == amp@[1]);
                        assert(match_at(v@, amp@, i as int));
                    }
                }
                assert(rest.skip(4) =~= v@.skip(i + 4));
            }
            i = i + 4;
        } else if starts_at(v, i, &gt) {
            out.push('>');
            proof {
                assert(rest.subrange(0, 4) =~= v@.subrange(i as int, i + 4));
                assert(match_at(rest, gt@, 0));
                assert(!match_at(rest, amp@, 0)) by {
                    if match_at(rest, amp@, 0) {
                        assert(rest.subrange(0, 5)[0] == amp@[0]);
                        assert(match_at(v@, amp@, i as int));
                    }
                }
                assert(!match_at(rest, lt@, 0)) by {
                    if match_at(rest, lt@, 0) {
                        assert(rest.subrange(0, 4)[1] == lt@[1]);
                        assert(match_at(v@, lt@, i as int));
                    }
                }
                assert(rest.skip(4) =~= v@.skip(i + 4));
            }
            i = i + 4;
        } else if starts_at(v, i, &quot) {
            out.push('"');
            proof {
                assert(rest.subrange(0, 6) =~= v@.subrange(i as int, i + 6));
                assert(match_at(rest, quot@, 0));
                assert(!match_at(rest, amp@, 0)) by {
                    if match_at(rest, amp@, 0) {
                        assert(rest.subrange(0, 5)[1] == amp@[1]);
                        assert(match_at(v@, amp@, i as int));
                    }
                }
                assert(!match_at(rest, lt@, 0)) by {
                    if match_at(rest, lt@, 0) {
                        assert(rest.subrange(0, 4)[1] == lt@[1]);
                        assert(match_at(v@, lt@, i as int));
                    }
                }
                assert(!match_at(rest, gt@, 0)) by {
                    if match_at(rest, gt@, 0) {
                        assert(rest.subrange(0, 4)[1] == gt@[1]);
                        assert(match_at(v@, gt@, i as int));
                    }
                }
                assert(rest.skip(6) =~= v@.skip(i + 6));
            }
            i = i + 6;
        } else if starts_at(v, i, &apos) {
            out.push('\'');
            proof {
                assert(rest.subrange(0, 6) =~= v@.subrange(i as int, i + 6));
                assert(match_at(rest, apos@, 0));
                assert(!match_at(rest, amp@, 0)) by {
                    if match_at(rest, amp@, 0) {
                        assert(rest.subrange(0, 5)[2] == amp@[2]);
                        assert(match_at(v@, amp@, i as int));
                    }
                }
                assert(!match_at(rest, lt@, 0)) by {
                    if match_at(rest, lt@, 0) {
                        assert(rest.subrange(0, 4)[1] == lt@[1]);
                        assert(match_at(v@, lt@, i as int));
                    }
                }
                assert(!match_at(rest, gt@, 0)) by {
                    if match_at(rest, gt@, 0) {
                        assert(rest.subrange(0, 4)[1] == gt@[1]);
                        assert(match_at(v@, gt@, i as int));
                    }
                }
                assert(!match_at(rest, quot@, 0)) by {
                    if match_at(rest, quot@, 0) {
                        assert(rest.subrange(0, 6)[1] == quot@[1]);
                        assert(match_at(v@, quot@, i as int));
                    }
                }
                assert(rest.skip(6) =~= v@.skip(i + 6));
            }
            i = i + 6;
        } else {
            out.push(v[i]);
            proof {
                assert(!match_at(rest, amp@, 0)) by {
                    if match_at(rest, amp@, 0) {
                        assert(rest.subrange(0, 5) =~= v@.subrange(i as int, i + 5));
                        assert(match_at(v@, amp@, i as int));
                    }
                }
                assert(!match_at(rest, lt@, 0)) by {
                    if match_at(rest, lt@, 0) {
                        assert(rest.subrange(0, 4) =~= v@.subrange(i as int, i + 4));
                        assert(match_at(v@, lt@, i as int));
                    }
                }
                assert(!match_at(rest, gt@, 0)) by {
                    if match_at(rest, gt@, 0) {
                        assert(rest.subrange(0, 4) =~= v@.subrange(i as int, i + 4));
                        assert(match_at(v@, gt@, i as int));
                    }
                }
                assert(!match_at(rest, quot@, 0)) by {
                    if match_at(rest, quot@, 0) {
                        assert(rest.subrange(0, 6) =~= v@.subrange(i as int, i + 6));
                        assert(match_at(v@, quot@, i as int));
                    }
                }
                assert(!match_at(rest, apos@, 0)) by {
                    if match_at(rest, apos@, 0) {
                        assert(rest.subrange(0, 6) =~= v@.subrange(i as int, i + 6));
                        assert(match_at(v@, apos@, i as int));
                    }
                }
                assert(rest.skip(1) =~= v@.skip(i + 1));
            }
            i = i + 1;
        }
    }
    proof {
        assert(v@.skip(n as int) =~= Seq::<char>::empty());
        assert(out@ + Seq::<char>::empty() =~= out@);
    }
    out
}

pub open spec fn tag_p_open() -> Seq<char> {
    seq!['<', 'w', ':', 'p', '>']
}

pub open spec fn tag_p_attr_open() -> Seq<char> {
    seq!['<', 'w', ':', 'p', ' ']
}

pub open spec fn tag_p_close_s() -> Seq<char> {
    seq!['<', '/', 'w', ':', 'p', '>']
}

pub open spec fn tag_mp_open_s() -> Seq<char> {
    seq!['<', 'm', ':', 'o', 'M', 'a', 't', 'h', 'P', 'a', 'r', 'a']
}

pub open spec fn tag_mp_close_s() -> Seq<char> {
    seq!['<', '/', 'm', ':', 'o', 'M', 'a', 't', 'h', 'P', 'a', 'r', 'a', '>']
}

pub open spec fn tag_m_open_s() -> Seq<char> {
    seq!['<', 'm', ':', 'o', 'M', 'a', 't', 'h', '>']
}

pub open spec fn tag_m_close_s() -> Seq<char> {
    seq!['<', '/', 'm', ':', 'o', 'M', 'a', 't', 'h', '>']
}

pub open spec fn tag_t_open() -> Seq<char> {
    seq!['<', 'w', ':', 't', '>']
}

pub open spec fn tag_t_attr_open() -> Seq<char> {
    seq!['<', 'w', ':', 't', ' ']
}

pub open spec fn tag_t_close_s() -> Seq<char> {
    seq!['<', '/', 'w', ':', 't', '>']
}

/// A paragraph counter bump, saturating at the machine limit.
pub open spec fn para_bump(para: int) -> int {
    if para < usize::MAX {
        para + 1
    } else {
        para
    }
}

/// The record one `m:oMath` block yields: its LaTeX conversion with the
/// plain-text fallback standing in when the conversion is empty, the
/// inline flag, and the paragraph counted so far.
pub open spec fn eq_record(content: Seq<char>, in_mp: bool, para: int) -> crate::reconstruct::EqV {
    let pair = crate::equation::spec_simple_pair(content);
    crate::reconstruct::EqV {
        latex: pair.0,
        fallback: pair.1,
        is_inline: !in_mp,
        paragraph_index: para,
    }
}

/// The inner markup of the `m:oMath` block at the front of `rest`, up to
/// its close tag or the end of the markup.
pub open spec fn math_content(rest: Seq<char>) -> Seq<char> {
    let cr = crate::equation::find_pat(rest, tag_m_close_s());
    if cr >= rest.len() {
        rest
    } else {
        rest.subrange(0, cr as int)
    }
}

/// Every equation of the markup, scanned in order: `w:p` opens count
/// paragraphs, `m:oMathPara` toggles the display context, and each
/// `m:oMath` block yields one record; an unterminated block ends the
/// scan with what was accumulated.
pub open spec fn spec_scan_equations(s: Seq<char>, para: int, in_mp: bool) -> Seq<
    crate::reconstruct::EqV,
>
    decreases s.len(),
{
    if s.len() == 0 {
        Seq::<crate::reconstruct::EqV>::empty()
    } else if match_at(s, tag_p_open(), 0) || match_at(s, tag_p_attr_open(), 0) {
        spec_scan_equations(s.skip(5), para_bump(para), in_mp)
    } else if match_at(s, tag_mp_open_s(), 0) {
        spec_scan_equations(s.skip(12), para, true)
    } else if match_at(s, tag_mp_close_s(), 0) {
        spec_scan_equations(s.skip(14), para, false)
    } else if match_at(s, tag_m_open_s(), 0) {
        let rest = s.skip(9);
        let cr = crate::equation::find_pat(rest, tag_m_close_s());
        seq![eq_record(math_content(rest), in_mp, para)] + (if cr < rest.len() && cr + 10
            <= rest.len() {
            spec_scan_equations(rest.skip(cr + 10int), para, in_mp)
        } else {
            Seq::<crate::reconstruct::EqV>::empty()
        })
    } else {
        spec_scan_equations(s.skip(1), para, in_mp)
    }
}

/// The per-paragraph interleavings flushed at a paragraph close: a
/// repeated index overwrites the last entry, as a keyed store would.
pub open spec fn flush_para(
    out: Seq<(int, Seq<PCV>)>,
    current: Seq<PCV>,
    para: int,
) -> Seq<(int, Seq<PCV>)> {
    if current.len() > 0 {
        if out.len() > 0 && out.last().0 == para {
            out.update(out.len() - 1, (para, current))
        } else {
            out.push((para, current))
        }
    } else {
        out
    }
}

/// The per-paragraph text/inline-equation interleavings of the markup:
/// `w:p` opens start a fresh paragraph, `w:t` text nodes (entity-decoded)
/// and inline `m:oMath` blocks append to it in order, and the close of
/// the paragraph records the non-empty interleavings; an unterminated
/// block or text node ends the scan with what was recorded.
pub open spec fn spec_scan_inline(
    s: Seq<char>,
    para: int,
    in_p: bool,
    in_mp: bool,
    current: Seq<PCV>,
    out: Seq<(int, Seq<PCV>)>,
) -> Seq<(int, Seq<PCV>)>
    decreases s.len(),
{
    if s.len() == 0 {
        out
    } else if match_at(s, tag_p_open(), 0) || match_at(s, tag_p_attr_open(), 0) {
        spec_scan_inline(s.skip(5), para_bump(para), true, in_mp, Seq::<PCV>::empty(), out)
    } else if match_at(s, tag_p_close_s(), 0) {
        spec_scan_inline(
            s.skip(6),
            para,
            false,
            in_mp,
            Seq::<PCV>::empty(),
            flush_para(out, current, para),
        )
    } else if match_at(s, tag_mp_open_s(), 0) {
        spec_scan_inline(s.skip(12), para, in_p, true, current, out)
    } else if match_at(s, tag_mp_close_s(), 0) {
        spec_scan_inline(s.skip(14), para, in_p, false, current, out)
    } else if match_at(s, tag_m_open_s(), 0) {
        let rest = s.skip(9);
        let cr = crate::equation::find_pat(rest, tag_m_close_s());
        let cur2 = if in_p && !in_mp {
            let pair = crate::equation::spec_simple_pair(math_content(rest));
            current.push(PCV::Inline { latex: pair.0, fallback: pair.1 })
        } else {
            current
        };
        if cr < rest.len() && cr + 10 <= rest.len() {
            spec_scan_inline(rest.skip(cr + 10int), para, in_p, in_mp, cur2, out)
        } else {
            out
        }
    } else if (match_at(s, tag_t_open(), 0) || match_at(s, tag_t_attr_open(), 0)) && in_p {
        let g = crate::equation::find_pat(s, seq!['>']);
        if g >= s.len() {
            out
        } else {
            let body = s.skip(g + 1int);
            let cr = crate::equation::find_pat(body, tag_t_close_s());
            let raw = if cr >= body.len() {
                body
            } else {
                body.subrange(0, cr as int)
            };
            let text = spec_unescape(raw);
            let cur2 = if text.len() > 0 {
                current.push(PCV::Text(text))
            } else {
                current
            };
            if cr < body.len() && cr + 6 <= body.len() {
                spec_scan_inline(body.skip(cr + 6int), para, in_p, in_mp, cur2, out)
            } else {
                out
            }
        }
    } else {
        spec_scan_inline(s.skip(1), para, in_p, in_mp, current, out)
    }
}

/// Matching at an offset is matching at the front of the tail.
proof fn lemma_match_shift(s: Seq<char>, pat: Seq<char>, i: int)
    requires
        0 <= i <= s.len(),
    ensures
        match_at(s.skip(i), pat, 0) == match_at(s, pat, i),
{
    if i + pat.len() <= s.len() {
        assert(s.skip(i).subrange(0, pat.len() as int) =~= s.subrange(i, i + pat.len()));
    }
}

/// Whether the paragraph indices of an equation list never decrease.
pub open spec fn equations_sorted(s: Seq<EquationInfo>) -> bool {
    forall|a: int, b: int|
        0 <= a < b < s.len() ==> (#[trigger] s[a].paragraph_index) <= (
        #[trigger] s[b].paragraph_index)
}

/// Whether the paragraph indices of an interleaving list strictly grow.
pub open spec fn contents_sorted(s: Seq<ParaContents>) -> bool {
    forall|a: int, b: int|
        0 <= a < b < s.len() ==> (#[trigger] s[a].index) < (#[trigger] s[b].index)
}

/// Extracts every equation of the document markup, in reading order:
/// each `m:oMath` block becomes one entry at the paragraph counted so
/// far, display when wrapped in an `m:oMathPara`, inline otherwise. The
/// paragraph indices come out in nondecreasing order.
#[verifier::rlimit(100)]
pub fn extract_equations_from_xml(xml: &str) -> (r: Vec<EquationInfo>)
    ensures
        crate::reconstruct::eqs_view(r@) == spec_scan_equations(xml@, 0, false),
        equations_sorted(r@),
{
    let v = chars_of(xml);
    let tag_p: Vec<char> = vec!['<', 'w', ':', 'p', '>'];
    let tag_p_attr: Vec<char> = vec!['<', 'w', ':', 'p', ' '];
    let tag_mp_open: Vec<char> = vec!['<', 'm', ':', 'o', 'M', 'a', 't', 'h', 'P', 'a', 'r', 'a'];
    let tag_mp_close: Vec<char> = vec![
        '<',
        '/',
        'm',
        ':',
        'o',
        'M',
        'a',
        't',
        'h',
        'P',
        'a',
        'r',
        'a',
        '>',
    ];
    let tag_m_open: Vec<char> = vec!['<', 'm', ':', 'o', 'M', 'a', 't', 'h', '>'];
    let tag_m_close: Vec<char> = vec!['<', '/', 'm', ':', 'o', 'M', 'a', 't', 'h', '>'];
    proof {
        assert(tag_p@ =~= tag_p_open());
        assert(tag_p_attr@ =~= tag_p_attr_open());
        assert(tag_mp_open@ =~= tag_mp_open_s());
        assert(tag_mp_close@ =~= tag_mp_close_s());
        assert(tag_m_open@ =~= tag_m_open_s());
        assert(tag_m_close@ =~= tag_m_close_s());
    }
    let ghost goal = spec_scan_equations(xml@, 0, false);
    let mut out: Vec<EquationInfo> = Vec::new();
    let mut para: usize = 0;
    let mut in_math_para: bool = false;
    let n = v.len();
    let mut i: usize = 0;
    proof {
        assert(v@.skip(0) =~= v@);
        assert(crate::reconstruct::eqs_view(out@) =~= Seq::<crate::reconstruct::EqV>::empty());
        assert(Seq::<crate::reconstruct::EqV>::empty() + goal =~= goal);
    }
    while i < n
        invariant
            n == v@.len(),
            i <= n,
            tag_p@ == tag_p_open(),
            tag_p_attr@ == tag_p_attr_open(),
            tag_mp_open@ == tag_mp_open_s(),
            tag_mp_close@ == tag_mp_close_s(),
            tag_m_open@ == tag_m_open_s(),
            tag_m_close@ == tag_m_close_s(),
            goal == crate::reconstruct::eqs_view(out@) + spec_scan_equations(
                v@.skip(i as int),
                para as int,
                in_math_para,
            ),
            equations_sorted(out@),
            forall|j: int| 0 <= j < out@.len() ==> (#[trigger] out@[j].paragraph_index) <= para,
        decreases n - i,
    {
        let ghost rem = v@.skip(i as int);
        let ghost pre_out = crate::reconstruct::eqs_view(out@);
        proof {
            lemma_match_shift(v@, tag_p_open(), i as int);
            lemma_match_shift(v@, tag_p_attr_open(), i as int);
            lemma_match_shift(v@, tag_mp_open_s(), i as int);
            lemma_match_shift(v@, tag_mp_close_s(), i as int);
            lemma_match_shift(v@, tag_m_open_s(), i as int);
        }
        if starts_at(&v, i, &tag_p) || starts_at(&v, i, &tag_p_attr) {
            if para < usize::MAX {
                para = para + 1;
            }
            proof {
                assert(rem.skip(5) =~= v@.skip(i + 5));
            }
            i = i + 5;
            continue ;
        }
        if starts_at(&v, i, &tag_mp_open) {
            in_math_para = true;
            proof {
                assert(rem.skip(12) =~= v@.skip(i + 12));
            }
            i = i + 12;
            continue ;
        }
        if starts_at(&v, i, &tag_mp_close) {
            in_math_para = false;
            proof {
                assert(rem.skip(14) =~= v@.skip(i + 14));
            }
            i = i + 14;
            continue ;
        }
        if starts_at(&v, i, &tag_m_open) {
            let body_start = i + 9;
            let rest = subvec(&v, body_start, n);
            proof {
                assert(rest@ =~= rem.skip(9));
            }
            let close_rel = match crate::text::find_sub(&rest, &tag_m_close) {
                Some(p) => {
                    proof {
                        crate::equation::lemma_find_pat_at(rest@, tag_m_close_s(), p as int);
                    }
                    p
                },
                None => {
                    proof {
                        crate::equation::lemma_find_pat_at(
                            rest@,
                            tag_m_close_s(),
                            rest@.len() as int,
                        );
                    }
                    rest.len()
                },
            };
            let content = subvec(&rest, 0, close_rel);
            proof {
                assert(content@ =~= math_content(rest@));
            }
            let content_s = string_of(&content);
            let pair = crate::equation::parse_simple_omml(content_s.as_str());
            out.push(
                EquationInfo {
                    latex: pair.0,
                    fallback: pair.1,
                    is_inline: !in_math_para,
                    paragraph_index: para,
                },
            );
            proof {
                assert(crate::reconstruct::eqs_view(out@) =~= pre_out + seq![
                    eq_record(math_content(rest@), in_math_para, para as int),
                ]);
                assert forall|a: int, b: int|
                    0 <= a < b < out@.len() implies (#[trigger] out@[a].paragraph_index) <= (
                #[trigger] out@[b].paragraph_index) by {
                    if b < out@.len() - 1 {
                    } else {
                        assert(out@[b].paragraph_index == para);
                    }
                }
            }
            if close_rel < rest.len() {
                proof {
                    assert(close_rel + 10 <= rest@.len());
                    assert(rest@.skip(close_rel + 10) =~= v@.skip(
                        body_start + close_rel + 10,
                    ));
                    assert(pre_out + (seq![
                        eq_record(math_content(rest@), in_math_para, para as int),
                    ] + spec_scan_equations(
                        rest@.skip(close_rel + 10),
                        para as int,
                        in_math_para,
                    )) =~= crate::reconstruct::eqs_view(out@) + spec_scan_equations(
                        rest@.skip(close_rel + 10),
                        para as int,
                        in_math_para,
                    ));
                }
                i = body_start + close_rel + 10;
            } else {
                proof {
                    assert(v@.skip(n as int) =~= Seq::<char>::empty());
                    assert(pre_out + (seq![
                        eq_record(math_content(rest@), in_math_para, para as int),
                    ] + Seq::<crate::reconstruct::EqV>::empty()) =~= crate::reconstruct::eqs_view(
                        out@,
                    ) + Seq::<crate::reconstruct::EqV>::empty());
                }
                i = n;
            }
            continue ;
        }
        proof {
            assert(rem.skip(1) =~= v@.skip(i + 1));
        }
        i = i + 1;
    }
    proof {
        assert(v@.skip(n as int) =~= Seq::<char>::empty());
    }
    out
}

/// Handles one inline `m:oMath` block at the front of the tail: when
/// `record` holds, its conversion joins the interleaving; the scan
/// resumes after the close tag, or stops at the end when none closes it.
fn scan_math_node(
    v: &Vec<char>,
    i: usize,
    record: bool,
    current: &mut Vec<ParagraphContent>,
) -> (r: usize)
    requires
        match_at(v@, tag_m_open_s(), i as int),
    ensures
        ({
            let rem = v@.skip(i as int);
            let rest = rem.skip(9);
            let cr = crate::equation::find_pat(rest, tag_m_close_s());
            &&& crate::reconstruct::contents_view(final(current)@) == (if record {
                crate::reconstruct::contents_view(old(current)@).push(
                    PCV::Inline {
                        latex: crate::equation::spec_simple_pair(math_content(rest)).0,
                        fallback: crate::equation::spec_simple_pair(math_content(rest)).1,
                    },
                )
            } else {
                crate::reconstruct::contents_view(old(current)@)
            })
            &&& (if cr < rest.len() && cr + 10 <= rest.len() {
                r == i + 9 + cr + 10 && r <= v@.len() && i + 9 <= v@.len()
            } else {
                r == v@.len()
            })
        }),
{
    let n = v.len();
    let tag_m_close: Vec<char> = vec!['<', '/', 'm', ':', 'o', 'M', 'a', 't', 'h', '>'];
    proof {
        assert(tag_m_close@ =~= tag_m_close_s());
    }
    let body_start = i + 9;
    let rest = subvec(v, body_start, n);
    let ghost rem = v@.skip(i as int);
    proof {
        assert(rest@ =~= rem.skip(9));
    }
    let close_rel = match crate::text::find_sub(&rest, &tag_m_close) {
        Some(p) => {
            proof {
                crate::equation::lemma_find_pat_at(rest@, tag_m_close_s(), p as int);
            }
            p
        },
        None => {
            proof {
                crate::equation::lemma_find_pat_at(rest@, tag_m_close_s(), rest@.len() as int);
            }
            rest.len()
        },
    };
    if record {
        let content = subvec(&rest, 0, close_rel);
        proof {
            assert(content@ =~= math_content(rest@));
        }
        let content_s = string_of(&content);
        let pair = crate::equation::parse_simple_omml(content_s.as_str());
        let ghost pre = crate::reconstruct::contents_view(current@);
        current.push(ParagraphContent::InlineEquation { latex: pair.0, fallback: pair.1 });
        proof {
            assert(crate::reconstruct::contents_view(current@) =~= pre.push(
                PCV::Inline {
                    latex: crate::equation::spec_simple_pair(math_content(rest@)).0,
                    fallback: crate::equation::spec_simple_pair(math_content(rest@)).1,
                },
            ));
        }
    }
    if close_rel < rest.len() {
        proof {
            assert(close_rel + 10 <= rest@.len());
        }
        body_start + close_rel + 10
    } else {
        n
    }
}

/// Handles one `w:t` text node at the front of the tail: its decoded,
/// non-empty text joins the interleaving; the scan resumes after the
/// close tag, or stops at the end when the markup is cut short.
fn scan_text_node(v: &Vec<char>, i: usize, current: &mut Vec<ParagraphContent>) -> (r: usize)
    requires
        i <= v@.len(),
    ensures
        ({
            let rem = v@.skip(i as int);
            let g = crate::equation::find_pat(rem, seq!['>']);
            if g >= rem.len() {
                r == v@.len() && crate::reconstruct::contents_view(final(current)@)
                    == crate::reconstruct::contents_view(old(current)@)
            } else {
                let body = rem.skip(g + 1int);
                let cr = crate::equation::find_pat(body, tag_t_close_s());
                let raw = if cr >= body.len() {
                    body
                } else {
                    body.subrange(0, cr as int)
                };
                let text = spec_unescape(raw);
                &&& crate::reconstruct::contents_view(final(current)@) == (if text.len() > 0 {
                    crate::reconstruct::contents_view(old(current)@).push(PCV::Text(text))
                } else {
                    crate::reconstruct::contents_view(old(current)@)
                })
                &&& (if cr < body.len() && cr + 6 <= body.len() {
                    r == i + g + 1 + cr + 6 && r <= v@.len()
                } else {
                    r == v@.len()
                })
            }
        }),
{
    let n = v.len();
    let tag_t_close: Vec<char> = vec!['<', '/', 'w', ':', 't', '>'];
    let gtv: Vec<char> = vec!['>'];
    proof {
        assert(tag_t_close@ =~= tag_t_close_s());
        assert(gtv@ =~= seq!['>']);
    }
    let rest0 = subvec(v, i, n);
    let ghost rem = v@.skip(i as int);
    proof {
        assert(rest0@ =~= rem);
    }
    let gt_rel = match crate::text::find_sub(&rest0, &gtv) {
        Some(p) => {
            proof {
                crate::equation::lemma_find_pat_at(rest0@, seq!['>'], p as int);
            }
            p
        },
        None => {
            proof {
                crate::equation::lemma_find_pat_at(rest0@, seq!['>'], rest0@.len() as int);
            }
            rest0.len()
        },
    };
    if gt_rel >= rest0.len() {
        return n;
    }
    let body_start = i + gt_rel + 1;
    let rest = subvec(v, body_start, n);
    proof {
        assert(rest@ =~= rem.skip(gt_rel + 1));
    }
    let close_rel = match crate::text::find_sub(&rest, &tag_t_close) {
        Some(p) => {
            proof {
                crate::equation::lemma_find_pat_at(rest@, tag_t_close_s(), p as int);
            }
            p
        },
        None => {
            proof {
                crate::equation::lemma_find_pat_at(rest@, tag_t_close_s(), rest@.len() as int);
            }
            rest.len()
        },
    };
    let raw = subvec(&rest, 0, close_rel);
    proof {
        if close_rel < rest@.len() {
            assert(raw@ =~= rest@.subrange(0, close_rel as int));
        } else {
            assert(raw@ =~= rest@);
        }
    }
    let text = unescape_entities(&raw);
    if text.len() > 0 {
        let ghost pre = crate::reconstruct::contents_view(current@);
        current.push(ParagraphContent::Text(string_of(&text)));
        proof {
            assert(crate::reconstruct::contents_view(current@) =~= pre.push(
                PCV::Text(spec_unescape(raw@)),
            ));
        }
    }
    if close_rel < rest.len() {
        proof {
            assert(close_rel + 6 <= rest@.len());
        }
        body_start + close_rel + 6
    } else {
        n
    }
}

/// Records a paragraph's interleaving at its close: a repeated index
/// overwrites the last record, a new index appends, keeping the indices
/// strictly increasing.
fn flush_paragraph(out: &mut Vec<ParaContents>, taken: Vec<ParagraphContent>, para: usize)
    requires
        contents_sorted(old(out)@),
        taken@.len() > 0,
        forall|j: int| 0 <= j < old(out)@.len() ==> (#[trigger] old(out)@[j].index) <= para,
    ensures
        crate::reconstruct::para_contents_view(final(out)@) == flush_para(
            crate::reconstruct::para_contents_view(old(out)@),
            crate::reconstruct::contents_view(taken@),
            para as int,
        ),
        contents_sorted(final(out)@),
        forall|j: int| 0 <= j < final(out)@.len() ==> (#[trigger] final(out)@[j].index) <= para,
{
    let ghost pre_out = crate::reconstruct::para_contents_view(out@);
    let ghost pre_cur = crate::reconstruct::contents_view(taken@);
    let push_new = if out.len() == 0 {
        true
    } else {
        out[out.len() - 1].index != para
    };
    if push_new {
        let ghost pre = out@;
        out.push(ParaContents { index: para, contents: taken });
        proof {
            assert(crate::reconstruct::para_contents_view(out@) =~= pre_out.push(
                (para as int, pre_cur),
            ));
            assert(crate::reconstruct::para_contents_view(out@) =~= flush_para(
                pre_out,
                pre_cur,
                para as int,
            ));
            assert forall|a: int, b: int|
                0 <= a < b < out@.len() implies (#[trigger] out@[a].index) < (
            #[trigger] out@[b].index) by {
                if b < pre.len() {
                    assert(out@[a].index == pre[a].index);
                    assert(out@[b].index == pre[b].index);
                } else {
                    assert(out@[b].index == para);
                    assert(pre[a].index <= para);
                    assert(pre[pre.len() - 1].index != para);
                    if a < pre.len() - 1 {
                        assert(pre[a].index < pre[pre.len() - 1].index);
                    }
                }
            }
        }
    } else {
        let last = out.len() - 1;
        let ghost pre = out@;
        let mut g = out.remove(last);
        g.contents = taken;
        out.push(g);
        proof {
            assert(g.index == para);
            assert(crate::reconstruct::para_contents_view(out@) =~= pre_out.update(
                pre_out.len() - 1,
                (para as int, pre_cur),
            ));
            assert(crate::reconstruct::para_contents_view(out@) =~= flush_para(
                pre_out,
                pre_cur,
                para as int,
            ));
            assert(out@.len() == pre.len());
            assert forall|a: int, b: int|
                0 <= a < b < out@.len() implies (#[trigger] out@[a].index) < (
            #[trigger] out@[b].index) by {
                assert(out@[a].index == pre[a].index);
                assert(out@[b].index == pre[b].index);
            }
            assert forall|j: int| 0 <= j < out@.len() implies (#[trigger] out@[j].index)
                <= para by {
                assert(out@[j].index == pre[j].index);
            }
        }
    }
}

/// Extracts, per paragraph, the in-order interleaving of plain text and
/// inline equations, keyed by a one-based paragraph index that strictly
/// grows through the result.
#[verifier::rlimit(100)]
pub fn extract_inline_equation_positions(xml: &str) -> (r: Vec<ParaContents>)
    ensures
        crate::reconstruct::para_contents_view(r@) == spec_scan_inline(
            xml@,
            0,
            false,
            false,
            Seq::<PCV>::empty(),
            Seq::<(int, Seq<PCV>)>::empty(),
        ),
        contents_sorted(r@),
{
    let v = chars_of(xml);
    let ghost goal = spec_scan_inline(
        xml@,
        0,
        false,
        false,
        Seq::<PCV>::empty(),
        Seq::<(int, Seq<PCV>)>::empty(),
    );
    let mut out: Vec<ParaContents> = Vec::new();
    let mut current: Vec<ParagraphContent> = Vec::new();
    let mut para: usize = 0;
    let mut in_paragraph: bool = false;
    let mut in_math_para: bool = false;
    let n = v.len();
    let mut i: usize = 0;
    proof {
        assert(v@.skip(0) =~= v@);
        assert(crate::reconstruct::contents_view(current@) =~= Seq::<PCV>::empty());
        assert(crate::reconstruct::para_contents_view(out@) =~= Seq::<(int, Seq<PCV>)>::empty());
    }
    while i < n
        invariant
            n == v@.len(),
            i <= n,
            goal == spec_scan_inline(
                v@.skip(i as int),
                para as int,
                in_paragraph,
                in_math_para,
                crate::reconstruct::contents_view(current@),
                crate::reconstruct::para_contents_view(out@),
            ),
            contents_sorted(out@),
            forall|j: int| 0 <= j < out@.len() ==> (#[trigger] out@[j].index) <= para,
            out@.len() > 0 ==> out@[out@.len() - 1].index <= para,
        decreases n - i,
    {
        let tag_p: Vec<char> = vec!['<', 'w', ':', 'p', '>'];
        let tag_p_attr: Vec<char> = vec!['<', 'w', ':', 'p', ' '];
        let tag_p_close: Vec<char> = vec!['<', '/', 'w', ':', 'p', '>'];
        let tag_mp_open: Vec<char> = vec![
            '<',
            'm',
            ':',
            'o',
            'M',
            'a',
            't',
            'h',
            'P',
            'a',
            'r',
            'a',
        ];
        let tag_mp_close: Vec<char> = vec![
            '<',
            '/',
            'm',
            ':',
            'o',
            'M',
            'a',
            't',
            'h',
            'P',
            'a',
            'r',
            'a',
            '>',
        ];
        let tag_m_open: Vec<char> = vec!['<', 'm', ':', 'o', 'M', 'a', 't', 'h', '>'];
        let tag_t: Vec<char> = vec!['<', 'w', ':', 't', '>'];
        let tag_t_attr: Vec<char> = vec!['<', 'w', ':', 't', ' '];
        proof {
            assert(tag_p@ =~= tag_p_open());
            assert(tag_p_attr@ =~= tag_p_attr_open());
            assert(tag_p_close@ =~= tag_p_close_s());
            assert(tag_mp_open@ =~= tag_mp_open_s());
            assert(tag_mp_close@ =~= tag_mp_close_s());
            assert(tag_m_open@ =~= tag_m_open_s());
            assert(tag_t@ =~= tag_t_open());
            assert(tag_t_attr@ =~= tag_t_attr_open());
        }
        let ghost rem = v@.skip(i as int);
        let ghost pre_out = crate::reconstruct::para_contents_view(out@);
        let ghost pre_cur = crate::reconstruct::contents_view(current@);
        proof {
            lemma_match_shift(v@, tag_p_open(), i as int);
            lemma_match_shift(v@, tag_p_attr_open(), i as int);
            lemma_match_shift(v@, tag_p_close_s(), i as int);
            lemma_match_shift(v@, tag_mp_open_s(), i as int);
            lemma_match_shift(v@, tag_mp_close_s(), i as int);
            lemma_match_shift(v@, tag_m_open_s(), i as int);
            lemma_match_shift(v@, tag_t_open(), i as int);
            lemma_match_shift(v@, tag_t_attr_open(), i as int);
        }
        if starts_at(&v, i, &tag_p) || starts_at(&v, i, &tag_p_attr) {
            if para < usize::MAX {
                para = para + 1;
            }
            in_paragraph = true;
            current = Vec::new();
            proof {
                assert(rem.skip(5) =~= v@.skip(i + 5));
                assert(crate::reconstruct::contents_view(current@) =~= Seq::<PCV>::empty());
            }
            i = i + 5;
            continue ;
        }
        if starts_at(&v, i, &tag_p_close) {
            in_paragraph = false;
            if current.len() > 0 {
                let taken = current;
                current = Vec::new();
                flush_paragraph(&mut out, taken, para);
            } else {
                proof {
                    assert(pre_cur.len() == 0);
                    assert(flush_para(pre_out, pre_cur, para as int) == pre_out);
                }
            }
            proof {
                assert(rem.skip(6) =~= v@.skip(i + 6));
                assert(crate::reconstruct::contents_view(current@) =~= Seq::<PCV>::empty());
            }
            i = i + 6;
            continue ;
        }
        if starts_at(&v, i, &tag_mp_open) {
            in_math_para = true;
            proof {
                assert(rem.skip(12) =~= v@.skip(i + 12));
            }
            i = i + 12;
            continue ;
        }
        if starts_at(&v, i, &tag_mp_close) {
            in_math_para = false;
            proof {
                assert(rem.skip(14) =~= v@.skip(i + 14));
            }
            i = i + 14;
            continue ;
        }
        if starts_at(&v, i, &tag_m_open) {
            let record = in_paragraph && !in_math_para;
            let next = scan_math_node(&v, i, record, &mut current);
            proof {
                let rest = rem.skip(9);
                let cr = crate::equation::find_pat(rest, tag_m_close_s());
                if cr < rest.len() && cr + 10 <= rest.len() {
                    assert(rest.skip(cr + 10int) =~= v@.skip(next as int));
                } else {
                    assert(v@.skip(n as int) =~= Seq::<char>::empty());
                }
            }
            i = next;
            continue ;
        }
        let is_text_open = starts_at(&v, i, &tag_t) || starts_at(&v, i, &tag_t_attr);
        if is_text_open && in_paragraph {
            let next = scan_text_node(&v, i, &mut current);
            proof {
                let g = crate::equation::find_pat(rem, seq!['>']);
                if g >= rem.len() {
                    assert(v@.skip(n as int) =~= Seq::<char>::empty());
                } else {
                    let body = rem.skip(g + 1int);
                    let cr = crate::equation::find_pat(body, tag_t_close_s());
                    if cr < body.len() && cr + 6 <= body.len() {
                        assert(body.skip(cr + 6int) =~= v@.skip(next as int));
                    } else {
                        assert(v@.skip(n as int) =~= Seq::<char>::empty());
                    }
                }
            }
            i = next;
            continue ;
        }
        proof {
            assert(rem.skip(1) =~= v@.skip(i + 1));
        }
        i = i + 1;
    }
    proof {
        assert(v@.skip(n as int) =~= Seq::<char>::empty());
    }
    out
}

} // verus!
