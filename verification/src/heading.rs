//! Heading detection: style lookup, literal heading numbers in text,
//! reconstruction from numbering properties, the text-shape fallback
//! heuristic, and the document-wide auto-numbering decision.
//!
//! The shape heuristic classifies by character class. Its classes are
//! deliberately the ASCII ones, stated exactly below, so that every
//! classification is a proved function of the text: letters outside
//! ASCII count as neither upper-case nor alphabetic here, which only
//! makes the heuristic more conservative on such text.

use vstd::prelude::*;

use crate::cleanup::spec_is_likely_sentence;
use crate::list::{digits_run_len, first_index_of, space_run_len, spec_is_likely_list_item};
use crate::models::opt_str_view;
use crate::numbering::level_slot;
use crate::raw::{spec_paragraph_text, RawDocChild, RawNumbering, RawParagraph};
use crate::text::{
    contains_seq, is_digit_char, is_space_char, is_upper_ascii_char, is_ascii_punct_char,
    is_alpha_ascii_char, match_at, spec_trim, subvec, trimmed,
};

verus! {

/// The index of the first white-space character, or the length.
pub open spec fn first_ws_index(s: Seq<char>) -> int
    decreases s.len(),
{
    if s.len() == 0 {
        0
    } else if is_space_char(s[0]) {
        0
    } else {
        1 + first_ws_index(s.drop_first())
    }
}

proof fn lemma_first_ws_shift(s: Seq<char>, from: int, i: int)
    requires
        0 <= from <= i <= s.len(),
        forall|j: int| from <= j < i ==> !is_space_char(#[trigger] s[j]),
        i == s.len() || is_space_char(s[i]),
    ensures
        first_ws_index(s.skip(from)) == i - from,
    decreases i - from,
{
    let t = s.skip(from);
    if i == from {
        if t.len() > 0 {
            assert(t[0] == s[from]);
        }
    } else {
        assert(t[0] == s[from]);
        assert(t.drop_first() =~= s.skip(from + 1));
        lemma_first_ws_shift(s, from + 1, i);
    }
}

/// The first white-space index at or past `from`, or the length.
fn first_ws_from(v: &Vec<char>, from: usize) -> (r: usize)
    requires
        from <= v@.len(),
    ensures
        r == from + first_ws_index(v@.skip(from as int)),
        from <= r <= v@.len(),
        r < v@.len() ==> is_space_char(v@[r as int]),
        forall|j: int| from <= j < r ==> !is_space_char(#[trigger] v@[j]),
{
    let n = v.len();
    let mut i = from;
    while i < n && !crate::text::is_space(v[i])
        invariant
            n == v@.len(),
            from <= i <= n,
            forall|j: int| from <= j < i ==> !is_space_char(#[trigger] v@[j]),
        decreases n - i,
    {
        i = i + 1;
    }
    proof {
        lemma_first_ws_shift(v@, from as int, i as int);
    }
    i
}

proof fn lemma_space_run_shift2(s: Seq<char>, from: int, i: int)
    requires
        0 <= from <= i <= s.len(),
        forall|j: int| from <= j < i ==> is_space_char(#[trigger] s[j]),
        i == s.len() || !is_space_char(s[i]),
    ensures
        space_run_len(s.skip(from)) == i - from,
    decreases i - from,
{
    let t = s.skip(from);
    if i == from {
        if t.len() > 0 {
            assert(t[0] == s[from]);
        }
    } else {
        assert(t[0] == s[from]);
        assert(t.drop_first() =~= s.skip(from + 1));
        lemma_space_run_shift2(s, from + 1, i);
    }
}

/// The first non-white-space index at or past `from`, or the length.
fn first_non_ws_from(v: &Vec<char>, from: usize) -> (r: usize)
    requires
        from <= v@.len(),
    ensures
        r == from + space_run_len(v@.skip(from as int)),
        from <= r <= v@.len(),
        r < v@.len() ==> !is_space_char(v@[r as int]),
        forall|j: int| from <= j < r ==> is_space_char(#[trigger] v@[j]),
{
    let n = v.len();
    let mut i = from;
    while i < n && crate::text::is_space(v[i])
        invariant
            n == v@.len(),
            from <= i <= n,
            forall|j: int| from <= j < i ==> is_space_char(#[trigger] v@[j]),
        decreases n - i,
    {
        i = i + 1;
    }
    proof {
        lemma_space_run_shift2(v@, from as int, i as int);
    }
    i
}

proof fn lemma_digits_run_shift(s: Seq<char>, from: int, i: int)
    requires
        0 <= from <= i <= s.len(),
        forall|j: int| from <= j < i ==> is_digit_char(#[trigger] s[j]),
        i == s.len() || !is_digit_char(s[i]),
    ensures
        digits_run_len(s.skip(from)) == i - from,
    decreases i - from,
{
    let t = s.skip(from);
    if i == from {
        if t.len() > 0 {
            assert(t[0] == s[from]);
        }
    } else {
        assert(t[0] == s[from]);
        assert(t.drop_first() =~= s.skip(from + 1));
        lemma_digits_run_shift(s, from + 1, i);
    }
}

/// The first non-digit index at or past `from`, or the length.
fn digits_end_from(v: &Vec<char>, from: usize) -> (r: usize)
    requires
        from <= v@.len(),
    ensures
        r == from + digits_run_len(v@.skip(from as int)),
        from <= r <= v@.len(),
        r < v@.len() ==> !is_digit_char(v@[r as int]),
        forall|j: int| from <= j < r ==> is_digit_char(#[trigger] v@[j]),
{
    let n = v.len();
    let mut i = from;
    while i < n && crate::text::is_digit(v[i])
        invariant
            n == v@.len(),
            from <= i <= n,
            forall|j: int| from <= j < i ==> is_digit_char(#[trigger] v@[j]),
        decreases n - i,
    {
        i = i + 1;
    }
    proof {
        lemma_digits_run_shift(v@, from as int, i as int);
    }
    i
}

/// Non-empty digit runs separated by single dots: `1`, `1.2`, `10.2.3`.
pub open spec fn dot_components_ok(s: Seq<char>) -> bool
    decreases s.len(),
{
    let k = digits_run_len(s);
    if k == 0 {
        false
    } else if k >= s.len() {
        true
    } else if s[k as int] == '.' {
        dot_components_ok(s.skip(k + 1int))
    } else {
        false
    }
}

/// Whether the whole of `v` from `from` is dot-separated digit runs.
fn dot_components_exec(v: &Vec<char>, from: usize) -> (r: bool)
    requires
        from <= v@.len(),
    ensures
        r == dot_components_ok(v@.skip(from as int)),
    decreases v@.len() - from,
{
    let n = v.len();
    let k = digits_end_from(v, from);
    if k == from {
        return false;
    }
    if k == n {
        return true;
    }
    if v[k] != '.' {
        proof {
            assert(v@.skip(from as int)[k - from] == v@[k as int]);
        }
        return false;
    }
    let ghost t = v@.skip(from as int);
    proof {
        assert(t[k - from] == v@[k as int]);
        assert(t.skip(k - from + 1) =~= v@.skip(k + 1));
    }
    dot_components_exec(v, k + 1)
}

/// The literal shape of a hierarchical or simple decimal heading number:
/// dotted digit groups with at least one dot, or a digit run followed by
/// a dot (either form may carry one trailing dot).
pub open spec fn shape_decimal_number(s: Seq<char>) -> bool {
    s.len() > 0 && if s.last() == '.' {
        dot_components_ok(s.drop_last())
    } else {
        dot_components_ok(s) && first_index_of(s, '.') < s.len()
    }
}

fn shape_decimal_number_exec(s: &Vec<char>) -> (r: bool)
    ensures
        r == shape_decimal_number(s@),
{
    let n = s.len();
    if n == 0 {
        return false;
    }
    if s[n - 1] == '.' {
        let head = subvec(s, 0, n - 1);
        proof {
            assert(head@ =~= s@.drop_last());
            assert(head@.skip(0) =~= head@);
        }
        dot_components_exec(&head, 0)
    } else {
        proof {
            assert(s@.skip(0) =~= s@);
        }
        let ok = dot_components_exec(s, 0);
        if !ok {
            return false;
        }
        let dot = find_dot(s);
        dot < n
    }
}

fn find_dot(s: &Vec<char>) -> (r: usize)
    ensures
        r == first_index_of(s@, '.'),
        r <= s@.len(),
{
    let n = s.len();
    let mut i: usize = 0;
    while i < n && s[i] != '.'
        invariant
            n == s@.len(),
            i <= n,
            forall|j: int| 0 <= j < i ==> s@[j] != '.',
        decreases n - i,
    {
        i = i + 1;
    }
    proof {
        assert(s@.skip(0) =~= s@);
        crate::list::lemma_first_index_shift(s@, 0, i as int, '.');
    }
    i
}

/// The number shape after a section word: dotted digit runs, with an
/// optional trailing dot, one group sufficing.
pub open spec fn shape_word_number(s: Seq<char>) -> bool {
    s.len() > 0 && if s.last() == '.' {
        dot_components_ok(s.drop_last())
    } else {
        dot_components_ok(s)
    }
}

fn shape_word_number_exec(s: &Vec<char>) -> (r: bool)
    ensures
        r == shape_word_number(s@),
{
    let n = s.len();
    if n == 0 {
        return false;
    }
    if s[n - 1] == '.' {
        let head = subvec(s, 0, n - 1);
        proof {
            assert(head@ =~= s@.drop_last());
            assert(head@.skip(0) =~= head@);
        }
        dot_components_exec(&head, 0)
    } else {
        proof {
            assert(s@.skip(0) =~= s@);
        }
        dot_components_exec(s, 0)
    }
}

/// A single upper-case letter followed by a dot.
pub open spec fn shape_letter_number(s: Seq<char>) -> bool {
    s.len() == 2 && is_upper_ascii_char(s[0]) && s[1] == '.'
}

/// One or more of the roman symbols `I`, `V`, `X` followed by a dot.
pub open spec fn shape_roman_number(s: Seq<char>) -> bool {
    s.len() >= 2 && s.last() == '.' && forall|j: int|
        0 <= j < s.len() - 1 ==> (#[trigger] s[j]) == 'I' || s[j] == 'V' || s[j] == 'X'
}

fn shape_roman_number_exec(s: &Vec<char>) -> (r: bool)
    ensures
        r == shape_roman_number(s@),
{
    let n = s.len();
    if n < 2 {
        return false;
    }
    if s[n - 1] != '.' {
        return false;
    }
    let mut i: usize = 0;
    while i < n - 1
        invariant
            n == s@.len(),
            n >= 2,
            i <= n - 1,
            forall|j: int| 0 <= j < i ==> (#[trigger] s@[j]) == 'I' || s@[j] == 'V' || s@[j] == 'X',
        decreases n - i,
    {
        let c = s[i];
        if c != 'I' && c != 'V' && c != 'X' {
            return false;
        }
        i = i + 1;
    }
    true
}

/// The start of the remaining text after the white space at `e`.
pub open spec fn rest_start(s: Seq<char>, e: int) -> int {
    e + space_run_len(s.skip(e))
}

/// After boundary `e` there is white space, then non-empty remaining text
/// free of line breaks.
pub open spec fn rest_ok(s: Seq<char>, e: int) -> bool {
    e < s.len() && rest_start(s, e) < s.len() && !contains_seq(
        s.skip(rest_start(s, e)),
        seq!['\n'],
    )
}

/// Trailing dots removed.
pub open spec fn trim_dots(s: Seq<char>) -> Seq<char>
    decreases s.len(),
{
    if s.len() > 0 && s.last() == '.' {
        trim_dots(s.drop_last())
    } else {
        s
    }
}

proof fn lemma_trim_dots_take(s: Seq<char>, i: int)
    requires
        0 <= i <= s.len(),
        forall|j: int| i <= j < s.len() ==> (#[trigger] s[j]) == '.',
    ensures
        trim_dots(s) == trim_dots(s.subrange(0, i)),
    decreases s.len() - i,
{
    if i == s.len() {
        assert(s.subrange(0, i) =~= s);
    } else {
        assert(s.last() == '.');
        assert(s.drop_last() =~= s.subrange(0, s.len() - 1));
        lemma_trim_dots_take(s.subrange(0, s.len() - 1), i);
        assert(s.subrange(0, s.len() - 1).subrange(0, i) =~= s.subrange(0, i));
    }
}

fn trim_dots_exec(v: &Vec<char>) -> (r: Vec<char>)
    ensures
        r@ == trim_dots(v@),
{
    let n = v.len();
    let mut hi: usize = n;
    loop
        invariant
            n == v@.len(),
            hi <= n,
            forall|j: int| hi <= j < n ==> (#[trigger] v@[j]) == '.',
        ensures
            hi <= n,
            forall|j: int| hi <= j < n ==> (#[trigger] v@[j]) == '.',
            hi == 0 || v@[hi - 1] != '.',
        decreases hi,
    {
        if hi == 0 {
            break ;
        }
        if v[hi - 1] != '.' {
            break ;
        }
        hi = hi - 1;
    }
    let r = subvec(v, 0, hi);
    proof {
        lemma_trim_dots_take(v@, hi as int);
        if hi > 0 {
            assert(v@.subrange(0, hi as int).last() == v@[hi - 1]);
            assert(trim_dots(v@.subrange(0, hi as int)) == v@.subrange(0, hi as int));
        } else {
            assert(v@.subrange(0, 0) =~= Seq::<char>::empty());
        }
    }
    r
}

pub open spec fn section_word() -> Seq<char> {
    seq!['S', 'e', 'c', 't', 'i', 'o', 'n']
}

pub open spec fn chapter_word() -> Seq<char> {
    seq!['C', 'h', 'a', 'p', 't', 'e', 'r']
}

pub open spec fn part_word() -> Seq<char> {
    seq!['P', 'a', 'r', 't']
}

/// The boundary after the number of a section-word heading, when the
/// trimmed text matches `Section 1.2 Title` or its Chapter/Part forms.
pub open spec fn word_number_end(s: Seq<char>) -> Option<int> {
    let e = first_ws_index(s);
    if e < s.len() && (s.subrange(0, e) == section_word() || s.subrange(0, e) == chapter_word()
        || s.subrange(0, e) == part_word()) {
        let ns = rest_start(s, e);
        if ns < s.len() {
            let e2 = ns + first_ws_index(s.skip(ns));
            if shape_word_number(s.subrange(ns, e2)) && rest_ok(s, e2) {
                Some(e2)
            } else {
                None
            }
        } else {
            None
        }
    } else {
        None
    }
}

/// The literal heading number and remaining title of trimmed text, under
/// the four patterns in priority order: decimal, section word, single
/// upper-case letter, roman numeral.
pub open spec fn spec_extract_heading_number(s0: Seq<char>) -> Option<(Seq<char>, Seq<char>)> {
    let s = spec_trim(s0);
    if s.len() == 0 {
        None
    } else {
        let e = first_ws_index(s);
        if e < s.len() && shape_decimal_number(s.subrange(0, e)) && rest_ok(s, e) {
            Some((trim_dots(s.subrange(0, e)), s.skip(rest_start(s, e))))
        } else {
            match word_number_end(s) {
                Some(e2) => Some((trim_dots(s.subrange(0, e2)), s.skip(rest_start(s, e2)))),
                None => {
                    if e < s.len() && shape_letter_number(s.subrange(0, e)) && rest_ok(s, e) {
                        Some((trim_dots(s.subrange(0, e)), s.skip(rest_start(s, e))))
                    } else if e < s.len() && shape_roman_number(s.subrange(0, e)) && rest_ok(
                        s,
                        e,
                    ) {
                        Some((trim_dots(s.subrange(0, e)), s.skip(rest_start(s, e))))
                    } else {
                        None
                    }
                },
            }
        }
    }
}

/// Whether the remaining text from `rs` to the end is free of line breaks.
fn no_newline_from(v: &Vec<char>, rs: usize) -> (r: bool)
    requires
        rs <= v@.len(),
    ensures
        r == !contains_seq(v@.skip(rs as int), seq!['\n']),
{
    let n = v.len();
    let mut i = rs;
    while i < n && v[i] != '\n'
        invariant
            n == v@.len(),
            rs <= i <= n,
            forall|j: int| rs <= j < i ==> v@[j] != '\n',
        decreases n - i,
    {
        i = i + 1;
    }
    let ghost t = v@.skip(rs as int);
    if i < n {
        proof {
            assert(t[i - rs] == v@[i as int]);
            assert(t.subrange(i - rs, i - rs + 1) =~= seq!['\n']);
            assert(match_at(t, seq!['\n'], i - rs));
        }
        false
    } else {
        proof {
            if contains_seq(t, seq!['\n']) {
                let j = choose|j: int| match_at(t, seq!['\n'], j);
                assert(t.subrange(j, j + 1)[0] == '\n');
                assert(t[j] == v@[rs + j]);
            }
        }
        true
    }
}

/// Extracts a literal heading number and the remaining title from text,
/// if one of the four patterns applies.
pub fn extract_heading_number_from_text(text: &str) -> (r: Option<(String, String)>)
    ensures
        match r {
            Some(p) => spec_extract_heading_number(text@) == Some((p.0@, p.1@)),
            None => spec_extract_heading_number(text@) is None,
        },
{
    let cs = crate::text::chars_of(text);
    let s = trimmed(&cs);
    let n = s.len();
    if n == 0 {
        return None;
    }
    let e = first_ws_from(&s, 0);
    proof {
        assert(s@.skip(0) =~= s@);
    }
    // Decimal numbering: `1.`, `1.1`, `2.1.1 Title`.
    if e < n {
        let prefix = subvec(&s, 0, e);
        if shape_decimal_number_exec(&prefix) {
            let rs = first_non_ws_from(&s, e);
            if rs < n && no_newline_from(&s, rs) {
                let number = trim_dots_exec(&prefix);
                let rest = subvec(&s, rs, n);
                proof {
                    assert(rest@ =~= s@.skip(rs as int));
                }
                return Some(
                    (crate::text::string_of(&number), crate::text::string_of(&rest)),
                );
            }
        }
        // Section numbering: `Section 1.2`, `Chapter 3`.
        let sec: Vec<char> = vec!['S', 'e', 'c', 't', 'i', 'o', 'n'];
        let cha: Vec<char> = vec!['C', 'h', 'a', 'p', 't', 'e', 'r'];
        let par: Vec<char> = vec!['P', 'a', 'r', 't'];
        let word_hit = vec_eq(&prefix, &sec) || vec_eq(&prefix, &cha) || vec_eq(&prefix, &par);
        proof {
            assert(sec@ =~= section_word());
            assert(cha@ =~= chapter_word());
            assert(par@ =~= part_word());
        }
        if word_hit {
            let ns = first_non_ws_from(&s, e);
            if ns < n {
                let e2 = first_ws_from(&s, ns);
                let num = subvec(&s, ns, e2);
                if shape_word_number_exec(&num) {
                    if e2 < n {
                        let rs = first_non_ws_from(&s, e2);
                        if rs < n && no_newline_from(&s, rs) {
                            let group1 = subvec(&s, 0, e2);
                            let number = trim_dots_exec(&group1);
                            let rest = subvec(&s, rs, n);
                            proof {
                                assert(word_number_end(s@) == Some(e2 as int));
                                assert(rest@ =~= s@.skip(rs as int));
                                assert(!(shape_decimal_number(s@.subrange(0, e as int)) && rest_ok(
                                    s@,
                                    e as int,
                                )));
                            }
                            return Some(
                                (
                                    crate::text::string_of(&number),
                                    crate::text::string_of(&rest),
                                ),
                            );
                        }
                    }
                }
            }
        }
        proof {
            assert(word_number_end(s@) is None);
        }
        // A single upper-case letter: `A. Title`.
        if prefix.len() == 2 {
            if crate::text::is_upper_ascii(prefix[0]) && prefix[1] == '.' {
                let rs = first_non_ws_from(&s, e);
                if rs < n && no_newline_from(&s, rs) {
                    let number = trim_dots_exec(&prefix);
                    let rest = subvec(&s, rs, n);
                    proof {
                        assert(rest@ =~= s@.skip(rs as int));
                    }
                    return Some(
                        (crate::text::string_of(&number), crate::text::string_of(&rest)),
                    );
                }
            }
        }
        // A roman numeral: `I. Title`.
        if shape_roman_number_exec(&prefix) {
            let rs = first_non_ws_from(&s, e);
            if rs < n && no_newline_from(&s, rs) {
                let number = trim_dots_exec(&prefix);
                let rest = subvec(&s, rs, n);
                proof {
                    assert(rest@ =~= s@.skip(rs as int));
                }
                return Some(
                    (crate::text::string_of(&number), crate::text::string_of(&rest)),
                );
            }
        }
        return None;
    }
    proof {
        assert(word_number_end(s@) is None);
    }
    None
}

/// Whether two character vectors hold the same characters.
fn vec_eq(a: &Vec<char>, b: &Vec<char>) -> (r: bool)
    ensures
        r == (a@ == b@),
{
    if a.len() != b.len() {
        return false;
    }
    let n = a.len();
    let mut i: usize = 0;
    while i < n
        invariant
            n == a@.len() == b@.len(),
            i <= n,
            forall|j: int| 0 <= j < i ==> a@[j] == b@[j],
        decreases n - i,
    {
        if a[i] != b[i] {
            return false;
        }
        i = i + 1;
    }
    proof {
        assert(a@ =~= b@);
    }
    true
}

/// The heading level a style name yields: `Heading<N>` gives `N` capped
/// at six, any other `Heading...` style gives one, and a non-heading
/// style gives nothing.
pub open spec fn spec_style_level(style: Option<Seq<char>>) -> Option<u8> {
    match style {
        None => None,
        Some(s) => {
            if match_at(s, seq!['H', 'e', 'a', 'd', 'i', 'n', 'g'], 0) || match_at(
                s,
                seq!['h', 'e', 'a', 'd', 'i', 'n', 'g'],
                0,
            ) {
                if s.len() > 0 && is_digit_char(s.last()) {
                    let d = (s.last() as u32) - 48;
                    if d > 6 {
                        Some(6u8)
                    } else {
                        Some(d as u8)
                    }
                } else {
                    Some(1u8)
                }
            } else {
                None
            }
        },
    }
}

/// Detects a heading level from the paragraph's named style.
pub fn detect_heading_from_paragraph_style(para: &RawParagraph) -> (r: Option<u8>)
    ensures
        r == spec_style_level(opt_str_view(para.style)),
{
    match &para.style {
        None => None,
        Some(style) => {
            let cs = crate::text::chars_of(style.as_str());
            let upper: Vec<char> = vec!['H', 'e', 'a', 'd', 'i', 'n', 'g'];
            let lower: Vec<char> = vec!['h', 'e', 'a', 'd', 'i', 'n', 'g'];
            proof {
                assert(upper@ =~= seq!['H', 'e', 'a', 'd', 'i', 'n', 'g']);
                assert(lower@ =~= seq!['h', 'e', 'a', 'd', 'i', 'n', 'g']);
            }
            if crate::text::starts_with_sub(&cs, &upper) || crate::text::starts_with_sub(
                &cs,
                &lower,
            ) {
                if cs.len() > 0 && crate::text::is_digit(cs[cs.len() - 1]) {
                    let d = (cs[cs.len() - 1] as u32) - 48;
                    if d > 6 {
                        Some(6)
                    } else {
                        Some(d as u8)
                    }
                } else {
                    Some(1)
                }
            } else {
                None
            }
        },
    }
}

/// The heading level the text's length suggests: short texts rank higher.
pub open spec fn spec_level_from_text(text: Seq<char>) -> u8 {
    if text.len() < 20 {
        1u8
    } else if text.len() < 40 {
        2u8
    } else {
        3u8
    }
}

pub fn determine_heading_level_from_text(text: &str) -> (r: u8)
    ensures
        r == spec_level_from_text(text@),
{
    let n = text.unicode_len();
    if n < 20 {
        1
    } else if n < 40 {
        2
    } else {
        3
    }
}

/// The words whose presence rules text out as a heading.
pub open spec fn exclusion_words_present(t: Seq<char>) -> bool {
    ||| contains_seq(t, seq![' ', 't', 'h', 'e', ' '])
    ||| contains_seq(t, seq![' ', 'a', 'n', 'd', ' '])
    ||| contains_seq(t, seq![' ', 'w', 'i', 't', 'h', ' '])
    ||| contains_seq(t, seq![' ', 'f', 'o', 'r', ' '])
}

/// The all-capitals check: every character ASCII upper-case, white
/// space, a digit or ASCII punctuation (the deliberate ASCII reading of
/// the heuristic).
pub open spec fn all_caps_like(t: Seq<char>) -> bool {
    forall|j: int|
        0 <= j < t.len() ==> is_upper_ascii_char(#[trigger] t[j]) || is_space_char(t[j])
            || is_digit_char(t[j]) || is_ascii_punct_char(t[j])
}

/// Title-shape: two to five words, one of them ASCII-alphabetic and
/// longer than three characters, starting with an ASCII upper-case
/// letter.
pub open spec fn title_shape(t: Seq<char>) -> bool {
    &&& t.len() > 10 && t.len() < 40
    &&& t.len() > 0 && t.last() != '.'
    &&& !contains_seq(t, seq![','])
    &&& !contains_seq(t, seq!['('])
    &&& !contains_seq(t, seq![':'])
    &&& 2 <= crate::text::word_count(t) <= 5
    &&& has_long_alpha_word(t)
    &&& t.len() > 0 && is_upper_ascii_char(t[0])
}

/// Positions `a` to `b` hold one white-space-delimited, wholly
/// alphabetic word of `t`.
pub open spec fn word_span(t: Seq<char>, a: int, b: int) -> bool {
    0 <= a < b <= t.len() && (a == 0 || is_space_char(t[a - 1])) && (b == t.len()
        || is_space_char(t[b as int])) && (forall|j: int|
        a <= j < b ==> is_alpha_ascii_char(#[trigger] t[j]))
}

/// Some white-space-separated word of `t` is longer than three characters
/// and wholly alphabetic.
pub open spec fn has_long_alpha_word(t: Seq<char>) -> bool {
    exists|a: int, b: int| b - a > 3 && #[trigger] word_span(t, a, b)
}

fn has_long_alpha_word_exec(t: &Vec<char>) -> (r: bool)
    ensures
        r == has_long_alpha_word(t@),
{
    let n = t.len();
    let mut a: usize = 0;
    while a < n
        invariant
            n == t@.len(),
            a <= n,
            forall|x: int, y: int| 0 <= x < a && y - x > 3 ==> !(#[trigger] word_span(t@, x, y)),
        decreases n - a,
    {
        let starts = if a == 0 {
            true
        } else {
            crate::text::is_space(t[a - 1])
        };
        if starts {
            let b = first_ws_from(t, a);
            if b - a > 3 {
                let mut all_alpha = true;
                let mut j = a;
                while j < b
                    invariant
                        a <= j <= b <= t@.len(),
                        all_alpha == (forall|x: int|
                            a <= x < j ==> is_alpha_ascii_char(#[trigger] t@[x])),
                    decreases b - j,
                {
                    if !crate::text::is_alpha_ascii(t[j]) {
                        all_alpha = false;
                        proof {
                            assert(!is_alpha_ascii_char(t@[j as int]));
                        }
                        j = b;
                    } else {
                        j = j + 1;
                    }
                }
                if all_alpha {
                    proof {
                        assert(word_span(t@, a as int, b as int));
                        assert(has_long_alpha_word(t@));
                    }
                    return true;
                }
            }
        }
        proof {
            assert forall|y: int| y - a > 3 implies !(#[trigger] word_span(t@, a as int, y)) by {
                if word_span(t@, a as int, y) {
                    assert(a == 0 || is_space_char(t@[a - 1]));
                    assert(starts);
                    let b0 = a + first_ws_index(t@.skip(a as int));
                    // every position of the span is alphabetic, so not white space
                    assert forall|j: int| a <= j < y implies !is_space_char(#[trigger] t@[j]) by {
                        assert(is_alpha_ascii_char(t@[j]));
                    }
                    // hence the span cannot reach past the first white space
                    assert(y <= b0) by {
                        if y > b0 {
                            assert(b0 < t@.len());
                            assert(is_space_char(t@[b0 as int]));
                            assert(a <= b0 < y);
                        }
                    }
                    // and the span must end exactly at a white space or the end
                    assert(y == b0) by {
                        if y < b0 {
                            assert(y < t@.len());
                            assert(is_space_char(t@[y as int]));
                            assert(!is_space_char(t@[y as int]));
                        }
                    }
                    // so the executable checks covered this span and rejected it
                    assert(b0 > a + 3);
                    let jw = choose|jw: int| a <= jw < b0 && !is_alpha_ascii_char(t@[jw]);
                    assert(is_alpha_ascii_char(t@[jw]));
                }
            }
        }
        a = a + 1;
    }
    proof {
        if has_long_alpha_word(t@) {
            let (x, y) = choose|x: int, y: int| y - x > 3 && #[trigger] word_span(t@, x, y);
            assert(0 <= x < t@.len());
            assert(!word_span(t@, x, y));
        }
    }
    false
}

/// Whether text with no heading style still reads as a heading, from its
/// shape alone: conservative checks over trimmed, single-line text.
pub open spec fn spec_detect_heading_from_text(
    text: Seq<char>,
    fmt: crate::models::FmtV,
) -> Option<u8> {
    let t = spec_trim(text);
    if t.len() < 100 && !contains_seq(t, seq!['\n']) {
        if spec_is_likely_list_item(t) || spec_is_likely_sentence(t) {
            None
        } else if exclusion_words_present(t) {
            None
        } else if fmt.bold && t.len() < 60 && t.len() > 5 && t.len() > 0 && t.last() != '.'
            && t.last() != ',' && t.last() != ';' && t.last() != ':' {
            Some(spec_level_from_text(t))
        } else if t.len() > 15 && t.len() < 50 && all_caps_like(t) {
            Some(1u8)
        } else if match_at(t, seq!['C', 'h', 'a', 'p', 't', 'e', 'r', ' '], 0) || match_at(
            t,
            seq!['S', 'e', 'c', 't', 'i', 'o', 'n', ' '],
            0,
        ) || match_at(t, seq!['P', 'a', 'r', 't', ' '], 0) {
            Some(spec_level_from_text(t))
        } else if title_shape(t) {
            Some(spec_level_from_text(t))
        } else {
            None
        }
    } else {
        None
    }
}

/// Detects a heading from text shape and first-run formatting alone.
pub fn detect_heading_from_text(
    text: &str,
    formatting: &crate::models::TextFormatting,
) -> (r: Option<u8>)
    ensures
        r == spec_detect_heading_from_text(text@, formatting@),
{
    let cs = crate::text::chars_of(text);
    let t = trimmed(&cs);
    let nl: Vec<char> = vec!['\n'];
    proof {
        assert(nl@ =~= seq!['\n']);
    }
    if !(t.len() < 100 && !crate::text::contains_sub(&t, &nl)) {
        return None;
    }
    let t_str = crate::text::string_of(&t);
    if crate::list::is_likely_list_item(t_str.as_str()) || crate::cleanup::is_likely_sentence(
        t_str.as_str(),
    ) {
        return None;
    }
    let w_the: Vec<char> = vec![' ', 't', 'h', 'e', ' '];
    let w_and: Vec<char> = vec![' ', 'a', 'n', 'd', ' '];
    let w_with: Vec<char> = vec![' ', 'w', 'i', 't', 'h', ' '];
    let w_for: Vec<char> = vec![' ', 'f', 'o', 'r', ' '];
    proof {
        assert(w_the@ =~= seq![' ', 't', 'h', 'e', ' ']);
        assert(w_and@ =~= seq![' ', 'a', 'n', 'd', ' ']);
        assert(w_with@ =~= seq![' ', 'w', 'i', 't', 'h', ' ']);
        assert(w_for@ =~= seq![' ', 'f', 'o', 'r', ' ']);
    }
    if crate::text::contains_sub(&t, &w_the) || crate::text::contains_sub(&t, &w_and)
        || crate::text::contains_sub(&t, &w_with) || crate::text::contains_sub(&t, &w_for) {
        return None;
    }
    if formatting.bold && t.len() < 60 && t.len() > 5 {
        let last = t[t.len() - 1];
        if last != '.' && last != ',' && last != ';' && last != ':' {
            return Some(determine_heading_level_from_text(t_str.as_str()));
        }
    }
    if t.len() > 15 && t.len() < 50 {
        let mut ok = true;
        let mut j: usize = 0;
        while j < t.len()
            invariant
                j <= t@.len(),
                ok == (forall|x: int|
                    0 <= x < j ==> is_upper_ascii_char(#[trigger] t@[x]) || is_space_char(t@[x])
                        || is_digit_char(t@[x]) || is_ascii_punct_char(t@[x])),
            decreases t@.len() - j,
        {
            let c = t[j];
            if !(crate::text::is_upper_ascii(c) || crate::text::is_space(c)
                || crate::text::is_digit(c) || crate::text::is_ascii_punct(c)) {
                ok = false;
                proof {
                    assert(!(is_upper_ascii_char(t@[j as int]) || is_space_char(t@[j as int])
                        || is_digit_char(t@[j as int]) || is_ascii_punct_char(t@[j as int])));
                }
                j = t.len();
            } else {
                j = j + 1;
            }
        }
        if ok {
            return Some(1);
        }
    }
    let p_cha: Vec<char> = vec!['C', 'h', 'a', 'p', 't', 'e', 'r', ' '];
    let p_sec: Vec<char> = vec!['S', 'e', 'c', 't', 'i', 'o', 'n', ' '];
    let p_par: Vec<char> = vec!['P', 'a', 'r', 't', ' '];
    proof {
        assert(p_cha@ =~= seq!['C', 'h', 'a', 'p', 't', 'e', 'r', ' ']);
        assert(p_sec@ =~= seq!['S', 'e', 'c', 't', 'i', 'o', 'n', ' ']);
        assert(p_par@ =~= seq!['P', 'a', 'r', 't', ' ']);
    }
    if crate::text::starts_with_sub(&t, &p_cha) || crate::text::starts_with_sub(&t, &p_sec)
        || crate::text::starts_with_sub(&t, &p_par) {
        return Some(determine_heading_level_from_text(t_str.as_str()));
    }
    // Title-shape phrase.
    if t.len() > 10 && t.len() < 40 {
        let last = t[t.len() - 1];
        let comma: Vec<char> = vec![','];
        let paren: Vec<char> = vec!['('];
        let colon: Vec<char> = vec![':'];
        proof {
            assert(comma@ =~= seq![',']);
            assert(paren@ =~= seq!['(']);
            assert(colon@ =~= seq![':']);
        }
        if last != '.' && !crate::text::contains_sub(&t, &comma) && !crate::text::contains_sub(
            &t,
            &paren,
        ) && !crate::text::contains_sub(&t, &colon) {
            let words = crate::text::count_words(&t);
            if 2 <= words && words <= 5 {
                if has_long_alpha_word_exec(&t) && crate::text::is_upper_ascii(t[0]) {
                    return Some(determine_heading_level_from_text(t_str.as_str()));
                }
            }
        }
    }
    None
}

/// The fixed reconstruction of a heading number from a numbering
/// property: known level/heading-level pairs give a dotted prototype,
/// anything else falls back on the heading level alone.
pub open spec fn spec_reconstruct_heading_number(num_id: i32, level: u8, heading_level: u8) -> Seq<
    char,
> {
    if level == 0 && heading_level == 1 {
        seq!['1']
    } else if level == 1 && heading_level == 2 {
        seq!['1', '.', '1']
    } else if level == 2 && heading_level == 3 {
        seq!['1', '.', '1', '.', '1']
    } else if level == 3 && heading_level == 4 {
        seq!['1', '.', '1', '.', '1', '.', '1']
    } else if heading_level == 1 {
        seq!['1']
    } else if heading_level == 2 {
        seq!['1', '.', '1']
    } else if heading_level == 3 {
        seq!['1', '.', '1', '.', '1']
    } else {
        seq!['1', '.', '1', '.', '1', '.', '1']
    }
}

/// Reconstructs a plausible heading number for a numbering property.
pub fn reconstruct_heading_number(num_id: i32, level: u8, heading_level: u8) -> (r: String)
    ensures
        r@ == spec_reconstruct_heading_number(num_id, level, heading_level),
{
    let one: Vec<char> = vec!['1'];
    let two: Vec<char> = vec!['1', '.', '1'];
    let three: Vec<char> = vec!['1', '.', '1', '.', '1'];
    let four: Vec<char> = vec!['1', '.', '1', '.', '1', '.', '1'];
    proof {
        assert(one@ =~= seq!['1']);
        assert(two@ =~= seq!['1', '.', '1']);
        assert(three@ =~= seq!['1', '.', '1', '.', '1']);
        assert(four@ =~= seq!['1', '.', '1', '.', '1', '.', '1']);
    }
    if level == 0 && heading_level == 1 {
        crate::text::string_of(&one)
    } else if level == 1 && heading_level == 2 {
        crate::text::string_of(&two)
    } else if level == 2 && heading_level == 3 {
        crate::text::string_of(&three)
    } else if level == 3 && heading_level == 4 {
        crate::text::string_of(&four)
    } else if heading_level == 1 {
        crate::text::string_of(&one)
    } else if heading_level == 2 {
        crate::text::string_of(&two)
    } else if heading_level == 3 {
        crate::text::string_of(&three)
    } else {
        crate::text::string_of(&four)
    }
}

/// The numbering id and level of a paragraph's numbering property, when
/// the property names an id.
pub fn extract_numbering_info(numpr: &RawNumbering) -> (r: Option<(i32, u8)>)
    ensures
        match numpr.num_id {
            Some(id) => r == Some((id, numpr.level)),
            None => r is None,
        },
{
    match numpr.num_id {
        Some(id) => Some((id, numpr.level)),
        None => None,
    }
}

/// A detected heading: its level, number and number-free text, where one
/// was found.
pub struct HeadingInfo {
    pub level: u8,
    pub number: Option<String>,
    pub clean_text: Option<String>,
}

/// The mathematical value of a `HeadingInfo`.
#[verifier::ext_equal]
pub struct HeadingInfoV {
    pub level: u8,
    pub number: Option<Seq<char>>,
    pub clean_text: Option<Seq<char>>,
}

impl View for HeadingInfo {
    type V = HeadingInfoV;

    open spec fn view(&self) -> HeadingInfoV {
        HeadingInfoV {
            level: self.level,
            number: opt_str_view(self.number),
            clean_text: opt_str_view(self.clean_text),
        }
    }
}

/// The heading classification of a styled paragraph: a literal number in
/// the text wins, then a number reconstructed from the numbering
/// property, then the bare styled heading.
pub open spec fn spec_detect_with_numbering(para: RawParagraph) -> Option<HeadingInfoV> {
    match spec_style_level(opt_str_view(para.style)) {
        None => None,
        Some(level) => {
            let text = spec_paragraph_text(para.children@);
            match spec_extract_heading_number(text) {
                Some(p) => Some(
                    HeadingInfoV { level, number: Some(p.0), clean_text: Some(p.1) },
                ),
                None => {
                    match para.numbering {
                        Some(numpr) => match numpr.num_id {
                            Some(id) => Some(
                                HeadingInfoV {
                                    level,
                                    number: Some(
                                        spec_reconstruct_heading_number(id, numpr.level, level),
                                    ),
                                    clean_text: Some(text),
                                },
                            ),
                            None => Some(
                                HeadingInfoV { level, number: None, clean_text: None },
                            ),
                        },
                        None => Some(HeadingInfoV { level, number: None, clean_text: None }),
                    }
                },
            }
        },
    }
}

/// Classifies a styled paragraph as a heading, with its number under the
/// priority rules: literal text number, then numbering property, then
/// none.
pub fn detect_heading_with_numbering(para: &RawParagraph) -> (r: Option<HeadingInfo>)
    ensures
        match r {
            Some(info) => spec_detect_with_numbering(*para) == Some(info@),
            None => spec_detect_with_numbering(*para) is None,
        },
{
    let heading_level = match detect_heading_from_paragraph_style(para) {
        None => {
            return None;
        },
        Some(l) => l,
    };
    let text = crate::raw::extract_paragraph_text(para);
    let text_str = crate::text::string_of(&text);
    match extract_heading_number_from_text(text_str.as_str()) {
        Some(p) => Some(
            HeadingInfo { level: heading_level, number: Some(p.0), clean_text: Some(p.1) },
        ),
        None => {
            match &para.numbering {
                Some(numpr) => {
                    match extract_numbering_info(numpr) {
                        Some(pair) => {
                            let number = reconstruct_heading_number(
                                pair.0,
                                pair.1,
                                heading_level,
                            );
                            Some(
                                HeadingInfo {
                                    level: heading_level,
                                    number: Some(number),
                                    clean_text: Some(text_str),
                                },
                            )
                        },
                        None => Some(
                            HeadingInfo { level: heading_level, number: None, clean_text: None },
                        ),
                    }
                },
                None => Some(
                    HeadingInfo { level: heading_level, number: None, clean_text: None },
                ),
            }
        },
    }
}

/// The styled heading level of one document child: only paragraphs with
/// a heading style have one.
pub open spec fn child_style_level(c: RawDocChild) -> Option<u8> {
    match c {
        RawDocChild::Paragraph(p) => spec_style_level(opt_str_view(p.style)),
        RawDocChild::Table(_) => None,
    }
}

/// Whether one child is a styled heading paragraph whose text carries a
/// literal number.
pub open spec fn child_explicit_number(c: RawDocChild) -> bool {
    match c {
        RawDocChild::Paragraph(p) => spec_style_level(opt_str_view(p.style)) is Some
            && spec_extract_heading_number(spec_paragraph_text(p.children@)) is Some,
        RawDocChild::Table(_) => false,
    }
}

/// The number of styled headings among the first `n` children.
pub open spec fn heading_count_upto(s: Seq<RawDocChild>, n: int) -> int
    decreases n,
{
    if n <= 0 {
        0
    } else {
        heading_count_upto(s, n - 1) + if child_style_level(s[n - 1]) is Some {
            1int
        } else {
            0int
        }
    }
}

/// Whether any styled heading among the first `n` children carries a
/// literal number in its text.
pub open spec fn explicit_number_upto(s: Seq<RawDocChild>, n: int) -> bool
    decreases n,
{
    if n <= 0 {
        false
    } else {
        explicit_number_upto(s, n - 1) || child_explicit_number(s[n - 1])
    }
}

/// The number of styled headings among the first `n` children whose
/// level falls in slot `idx`.
pub open spec fn level_count_upto(s: Seq<RawDocChild>, n: int, idx: int) -> int
    decreases n,
{
    if n <= 0 {
        0
    } else {
        level_count_upto(s, n - 1, idx) + match child_style_level(s[n - 1]) {
            Some(l) => if level_slot(l) == idx {
                1int
            } else {
                0int
            },
            None => 0int,
        }
    }
}

/// The number of slots, of the six, that hold at least one heading.
pub open spec fn slots_used(s: Seq<RawDocChild>, n: int) -> int {
    (if level_count_upto(s, n, 0) > 0 {
        1int
    } else {
        0int
    }) + (if level_count_upto(s, n, 1) > 0 {
        1int
    } else {
        0int
    }) + (if level_count_upto(s, n, 2) > 0 {
        1int
    } else {
        0int
    }) + (if level_count_upto(s, n, 3) > 0 {
        1int
    } else {
        0int
    }) + (if level_count_upto(s, n, 4) > 0 {
        1int
    } else {
        0int
    }) + (if level_count_upto(s, n, 5) > 0 {
        1int
    } else {
        0int
    })
}

/// The document-wide auto-numbering decision: off when any heading is
/// already numbered or fewer than three headings exist; on when the
/// headings span several levels or the top slot repeats.
pub open spec fn spec_analyze_heading_structure(s: Seq<RawDocChild>) -> bool {
    if explicit_number_upto(s, s.len() as int) || heading_count_upto(s, s.len() as int) < 3 {
        false
    } else {
        slots_used(s, s.len() as int) > 1 || level_count_upto(s, s.len() as int, 0) > 1
    }
}

/// Decides whether automatic heading numbering should be switched on for
/// a document's paragraphs.
pub fn analyze_heading_structure(children: &Vec<RawDocChild>) -> (r: bool)
    ensures
        r == spec_analyze_heading_structure(children@),
{
    let n = children.len();
    let mut heading_count: usize = 0;
    let mut has_explicit: bool = false;
    let mut c0: usize = 0;
    let mut c1: usize = 0;
    let mut c2: usize = 0;
    let mut c3: usize = 0;
    let mut c4: usize = 0;
    let mut c5: usize = 0;
    let mut i: usize = 0;
    while i < n
        invariant
            n == children@.len(),
            i <= n,
            heading_count == heading_count_upto(children@, i as int),
            heading_count <= i,
            has_explicit == explicit_number_upto(children@, i as int),
            c0 == level_count_upto(children@, i as int, 0),
            c1 == level_count_upto(children@, i as int, 1),
            c2 == level_count_upto(children@, i as int, 2),
            c3 == level_count_upto(children@, i as int, 3),
            c4 == level_count_upto(children@, i as int, 4),
            c5 == level_count_upto(children@, i as int, 5),
            c0 <= i && c1 <= i && c2 <= i && c3 <= i && c4 <= i && c5 <= i,
        decreases n - i,
    {
        let style_level: Option<u8> = match &children[i] {
            RawDocChild::Paragraph(para) => detect_heading_from_paragraph_style(para),
            RawDocChild::Table(_) => None,
        };
        match style_level {
            Some(heading_level) => {
                let explicit_here: bool = match &children[i] {
                    RawDocChild::Paragraph(para) => {
                        let text = crate::raw::extract_paragraph_text(para);
                        let text_str = crate::text::string_of(&text);
                        match extract_heading_number_from_text(text_str.as_str()) {
                            Some(_) => true,
                            None => false,
                        }
                    },
                    RawDocChild::Table(_) => false,
                };
                if explicit_here {
                    has_explicit = true;
                }
                heading_count = heading_count + 1;
                let idx: usize = if heading_level == 0 {
                    0
                } else {
                    let li = (heading_level - 1) as usize;
                    if li > 5 {
                        5
                    } else {
                        li
                    }
                };
                proof {
                    assert(idx as int == level_slot(heading_level));
                }
                if idx == 0 {
                    c0 = c0 + 1;
                } else if idx == 1 {
                    c1 = c1 + 1;
                } else if idx == 2 {
                    c2 = c2 + 1;
                } else if idx == 3 {
                    c3 = c3 + 1;
                } else if idx == 4 {
                    c4 = c4 + 1;
                } else {
                    c5 = c5 + 1;
                }
            },
            None => {},
        }
        i = i + 1;
    }
    if has_explicit || heading_count < 3 {
        return false;
    }
    let mut slots: usize = 0;
    if c0 > 0 {
        slots = slots + 1;
    }
    if c1 > 0 {
        slots = slots + 1;
    }
    if c2 > 0 {
        slots = slots + 1;
    }
    if c3 > 0 {
        slots = slots + 1;
    }
    if c4 > 0 {
        slots = slots + 1;
    }
    if c5 > 0 {
        slots = slots + 1;
    }
    slots > 1 || c0 > 1
}

} // verus!
