//! Table extraction: cell text and formatting, header detection, data
//! type inference, column widths by grapheme count, and the numeric
//! right-alignment rule.

use vstd::prelude::*;

use crate::models::{
    cells_view, CellDataType, CellV, MetaV, TableCell, TableData, TableMetadata, TableV,
    TextAlignment, TextFormatting,
};
use crate::raw::{spec_run_plain_text, RawCell, RawRow, RawTable};
use crate::text::{
    is_digit_char, is_space_char, lower_seq, spec_trim, trimmed, word_count,
};
use crate::list::digits_run_len;

verus! {

/// The number of grapheme clusters of a character sequence. It depends on
/// the characters alone; nothing shorter than the Unicode segmentation
/// rules states its value.
pub uninterp spec fn grapheme_count(s: Seq<char>) -> int;

/// Relies on unicode-segmentation's extended grapheme cluster iterator:
/// the cluster count is a function of the characters alone, each cluster
/// holds at least one character, and only the empty string has none.
#[verifier::external_body]
fn grapheme_len(s: &str) -> (n: usize)
    ensures
        n == grapheme_count(s@),
        n <= s@.len(),
        (n == 0) == (s@.len() == 0),
{
    unicode_segmentation::UnicodeSegmentation::graphemes(s, true).count()
}

/// A float literal as `f64` parsing accepts it: an optional sign, then
/// an infinity or not-a-number word, or a decimal mantissa with an
/// optional exponent.
pub open spec fn is_float_literal(s: Seq<char>) -> bool {
    let body = if s.len() > 0 && (s[0] == '+' || s[0] == '-') {
        s.drop_first()
    } else {
        s
    };
    is_inf_nan_word(body) || is_decimal_float(body)
}

pub open spec fn is_inf_nan_word(b: Seq<char>) -> bool {
    ||| lower_seq(b) == seq!['i', 'n', 'f']
    ||| lower_seq(b) == seq!['i', 'n', 'f', 'i', 'n', 'i', 't', 'y']
    ||| lower_seq(b) == seq!['n', 'a', 'n']
}

/// The index of the first `e` or `E`, or the length.
pub open spec fn first_e_index(s: Seq<char>) -> int
    decreases s.len(),
{
    if s.len() == 0 {
        0
    } else if s[0] == 'e' || s[0] == 'E' {
        0
    } else {
        1 + first_e_index(s.drop_first())
    }
}

pub open spec fn is_decimal_float(b: Seq<char>) -> bool {
    let e = first_e_index(b);
    if e == b.len() {
        is_mantissa(b)
    } else {
        is_mantissa(b.subrange(0, e)) && is_exponent(b.skip(e + 1))
    }
}

/// Digits with an optional dot: `12`, `12.`, `12.5`, `.5`.
pub open spec fn is_mantissa(m: Seq<char>) -> bool {
    let d1 = digits_run_len(m);
    if m.len() == 0 {
        false
    } else if d1 == m.len() {
        true
    } else if m[d1 as int] == '.' {
        let rest = m.skip(d1 + 1int);
        if d1 >= 1 {
            digits_run_len(rest) == rest.len()
        } else {
            rest.len() >= 1 && digits_run_len(rest) == rest.len()
        }
    } else {
        false
    }
}

/// An optional sign, then one or more digits.
pub open spec fn is_exponent(x: Seq<char>) -> bool {
    let y = if x.len() > 0 && (x[0] == '+' || x[0] == '-') {
        x.drop_first()
    } else {
        x
    };
    y.len() >= 1 && digits_run_len(y) == y.len()
}

/// The numeric value of a digit sequence.
pub open spec fn digits_value(s: Seq<char>) -> int
    decreases s.len(),
{
    if s.len() == 0 {
        0
    } else {
        digits_value(s.drop_last()) * 10 + ((s.last() as u32) - 48)
    }
}

/// A `u32` literal as parsing accepts it: an optional plus sign, then
/// digits whose value fits.
pub open spec fn is_u32_literal(s: Seq<char>) -> bool {
    let b = if s.len() > 0 && s[0] == '+' {
        s.drop_first()
    } else {
        s
    };
    b.len() >= 1 && digits_run_len(b) == b.len() && digits_value(b) <= u32::MAX
}

pub open spec fn is_date_sep(c: char) -> bool {
    c == '/' || c == '-'
}

pub open spec fn sep_count(s: Seq<char>) -> int
    decreases s.len(),
{
    if s.len() == 0 {
        0
    } else {
        sep_count(s.drop_last()) + if is_date_sep(s.last()) {
            1int
        } else {
            0int
        }
    }
}

pub open spec fn first_sep_index(s: Seq<char>) -> int
    decreases s.len(),
{
    if s.len() == 0 {
        0
    } else if is_date_sep(s[0]) {
        0
    } else {
        1 + first_sep_index(s.drop_first())
    }
}

/// Three all-numeric components separated by `/` or `-`.
pub open spec fn is_date_like(t: Seq<char>) -> bool {
    sep_count(t) == 2 && {
        let p1 = first_sep_index(t);
        let p2 = p1 + 1 + first_sep_index(t.skip(p1 + 1));
        p1 < t.len() && p2 < t.len() && is_u32_literal(t.subrange(0, p1)) && is_u32_literal(
            t.subrange(p1 + 1, p2),
        ) && is_u32_literal(t.skip(p2 + 1))
    }
}

/// The characters of `s` with every comma removed.
pub open spec fn without_commas(s: Seq<char>) -> Seq<char>
    decreases s.len(),
{
    if s.len() == 0 {
        s
    } else {
        without_commas(s.drop_last()) + if s.last() == ',' {
            Seq::<char>::empty()
        } else {
            seq![s.last()]
        }
    }
}

/// The inferred data type of a cell's trimmed content, in order: empty,
/// currency, percentage, boolean, number (thousands separators removed),
/// date, plain text.
pub open spec fn spec_cell_data_type(content: Seq<char>) -> CellDataType {
    let t = spec_trim(content);
    if t.len() == 0 {
        CellDataType::Empty
    } else if t[0] == '$' || t[0] == '\u{20AC}' || t[0] == '\u{00A3}' {
        CellDataType::Currency
    } else if t.last() == '%' {
        CellDataType::Percentage
    } else if is_boolean_word(t) {
        CellDataType::Boolean
    } else if is_float_literal(without_commas(t)) {
        CellDataType::Number
    } else if (contains_sep(t)) && is_date_like(t) {
        CellDataType::Date
    } else {
        CellDataType::Text
    }
}

pub open spec fn contains_sep(t: Seq<char>) -> bool {
    exists|i: int| 0 <= i < t.len() && is_date_sep(#[trigger] t[i])
}

pub open spec fn is_boolean_word(t: Seq<char>) -> bool {
    ||| lower_seq(t) == seq!['t', 'r', 'u', 'e']
    ||| lower_seq(t) == seq!['f', 'a', 'l', 's', 'e']
    ||| lower_seq(t) == seq!['y', 'e', 's']
    ||| lower_seq(t) == seq!['n', 'o']
    ||| lower_seq(t) == seq!['y']
    ||| lower_seq(t) == seq!['n']
}

fn seq_eq_check(a: &Vec<char>, b: &Vec<char>) -> (r: bool)
    ensures
        r == (a@ == b@),
{
    if a.len() != b.len() {
        return false;
    }
    let mut i: usize = 0;
    let n = a.len();
    while i < n
        invariant
            n == a@.len() == b@.len(),
            i <= n,
            forall|j: int| 0 <= j < i ==> a@[j] == b@[j],
        decreases n - i,
    {
        if a[i] != b[i] {
            return false;
        }
        i = i + 1;
    }
    proof {
        assert(a@ =~= b@);
    }
    true
}

proof fn lemma_digits_shift_local(s: Seq<char>, from: int, i: int)
    requires
        0 <= from <= i <= s.len(),
        forall|j: int| from <= j < i ==> is_digit_char(#[trigger] s[j]),
        i == s.len() || !is_digit_char(s[i]),
    ensures
        digits_run_len(s.skip(from)) == i - from,
    decreases i - from,
{
    let t = s.skip(from);
    if i == from {
        if t.len() > 0 {
            assert(t[0] == s[from]);
        }
    } else {
        assert(t[0] == s[from]);
        assert(t.drop_first() =~= s.skip(from + 1));
        lemma_digits_shift_local(s, from + 1, i);
    }
}

/// The value of an all-digit sequence, computed left to right.
fn digits_value_exec(v: &Vec<char>, from: usize, to: usize) -> (r: Option<u32>)
    requires
        from <= to <= v@.len(),
        digits_run_len(v@.subrange(from as int, to as int)) == to - from,
    ensures
        match r {
            Some(x) => x == digits_value(v@.subrange(from as int, to as int)) && digits_value(
                v@.subrange(from as int, to as int),
            ) <= u32::MAX,
            None => digits_value(v@.subrange(from as int, to as int)) > u32::MAX,
        },
{
    let mut val: u64 = 0;
    let mut over: bool = false;
    let mut i = from;
    while i < to
        invariant
            from <= i <= to <= v@.len(),
            digits_run_len(v@.subrange(from as int, to as int)) == to - from,
            over == (digits_value(v@.subrange(from as int, i as int)) > u32::MAX),
            !over ==> val == digits_value(v@.subrange(from as int, i as int)),
            val <= 0xFFFF_FFFFu64 * 10 + 9,
        decreases to - i,
    {
        let ghost pre = v@.subrange(from as int, i as int);
        let ghost post = v@.subrange(from as int, i + 1);
        proof {
            assert(post.drop_last() =~= pre);
            assert(post.last() == v@[i as int]);
            lemma_run_all_digits(v@.subrange(from as int, to as int));
            assert(v@.subrange(from as int, to as int)[i - from] == v@[i as int]);
            assert(is_digit_char(v@[i as int]));
        }
        let d = (v[i] as u32) - 48;
        if !over {
            if val > 0xFFFF_FFFF {
                over = true;
            } else {
                val = val * 10 + (d as u64);
                if val > 0xFFFF_FFFF {
                    over = true;
                }
            }
        } else {
            proof {
                assert(digits_value(post) == digits_value(pre) * 10 + ((v@[i as int] as u32)
                    - 48));
                assert(digits_value(pre) > u32::MAX);
            }
        }
        i = i + 1;
    }
    if over {
        None
    } else {
        Some(val as u32)
    }
}

/// Whether the range is a `u32` literal with optional plus sign.
fn u32_literal_check(v: &Vec<char>, from: usize, to: usize) -> (r: bool)
    requires
        from <= to <= v@.len(),
    ensures
        r == is_u32_literal(v@.subrange(from as int, to as int)),
{
    let ghost s = v@.subrange(from as int, to as int);
    let mut b = from;
    if from < to && v[from] == '+' {
        b = from + 1;
        proof {
            assert(s.drop_first() =~= v@.subrange(from + 1, to as int));
        }
    } else {
        proof {
            assert(s.len() == 0 || s[0] != '+');
        }
    }
    let ghost bs = v@.subrange(b as int, to as int);
    if b == to {
        return false;
    }
    // all digits in [b, to)?
    let mut i = b;
    while i < to && crate::text::is_digit(v[i])
        invariant
            b <= i <= to <= v@.len(),
            forall|j: int| b <= j < i ==> is_digit_char(#[trigger] v@[j]),
        decreases to - i,
    {
        i = i + 1;
    }
    if i < to {
        proof {
            assert(!is_digit_char(v@[i as int]));
            if digits_run_len(bs) == bs.len() {
                assert(bs[i - b] == v@[i as int]);
                lemma_run_all_digits(bs);
            }
        }
        return false;
    }
    proof {
        lemma_digits_shift_sub(v@, b as int, to as int);
    }
    match digits_value_exec(v, b, to) {
        Some(_) => true,
        None => false,
    }
}

/// Every position of a full digit run is a digit.
proof fn lemma_run_all_digits(s: Seq<char>)
    requires
        digits_run_len(s) == s.len(),
    ensures
        forall|j: int| 0 <= j < s.len() ==> is_digit_char(#[trigger] s[j]),
    decreases s.len(),
{
    if s.len() > 0 {
        assert(is_digit_char(s[0]));
        lemma_run_all_digits(s.drop_first());
        assert forall|j: int| 0 <= j < s.len() implies is_digit_char(#[trigger] s[j]) by {
            if j > 0 {
                assert(s.drop_first()[j - 1] == s[j]);
            }
        }
    }
}

/// A full range of digits has run length equal to its length.
proof fn lemma_digits_shift_sub(s: Seq<char>, b: int, to: int)
    requires
        0 <= b <= to <= s.len(),
        forall|j: int| b <= j < to ==> is_digit_char(#[trigger] s[j]),
    ensures
        digits_run_len(s.subrange(b, to)) == to - b,
    decreases to - b,
{
    let t = s.subrange(b, to);
    if b < to {
        assert(t[0] == s[b]);
        assert(t.drop_first() =~= s.subrange(b + 1, to));
        lemma_digits_shift_sub(s, b + 1, to);
    }
}

/// Infers the data type of a cell's content.
pub fn detect_cell_data_type(content: &str) -> (r: CellDataType)
    ensures
        r == spec_cell_data_type(content@),
{
    let cs = crate::text::chars_of(content);
    let t = trimmed(&cs);
    let n = t.len();
    if n == 0 {
        return CellDataType::Empty;
    }
    let c0 = t[0];
    if c0 == '$' || c0 == '\u{20AC}' || c0 == '\u{00A3}' {
        return CellDataType::Currency;
    }
    if t[n - 1] == '%' {
        return CellDataType::Percentage;
    }
    let low = crate::text::lower_vec(&t);
    let w_true: Vec<char> = vec!['t', 'r', 'u', 'e'];
    let w_false: Vec<char> = vec!['f', 'a', 'l', 's', 'e'];
    let w_yes: Vec<char> = vec!['y', 'e', 's'];
    let w_no: Vec<char> = vec!['n', 'o'];
    let w_y: Vec<char> = vec!['y'];
    let w_n: Vec<char> = vec!['n'];
    proof {
        assert(w_true@ =~= seq!['t', 'r', 'u', 'e']);
        assert(w_false@ =~= seq!['f', 'a', 'l', 's', 'e']);
        assert(w_yes@ =~= seq!['y', 'e', 's']);
        assert(w_no@ =~= seq!['n', 'o']);
        assert(w_y@ =~= seq!['y']);
        assert(w_n@ =~= seq!['n']);
    }
    if seq_eq_check(&low, &w_true) || seq_eq_check(&low, &w_false) || seq_eq_check(&low, &w_yes)
        || seq_eq_check(&low, &w_no) || seq_eq_check(&low, &w_y) || seq_eq_check(&low, &w_n) {
        return CellDataType::Boolean;
    }
    // Number: drop thousands separators, then try the float grammar.
    let mut nc: Vec<char> = Vec::new();
    let mut i: usize = 0;
    while i < n
        invariant
            n == t@.len(),
            i <= n,
            nc@ == without_commas(t@.subrange(0, i as int)),
        decreases n - i,
    {
        proof {
            let pre = t@.subrange(0, i as int);
            let post = t@.subrange(0, i + 1);
            assert(post.drop_last() =~= pre);
            assert(post.last() == t@[i as int]);
        }
        if t[i] != ',' {
            nc.push(t[i]);
            proof {
                assert(nc@ =~= without_commas(t@.subrange(0, i + 1)));
            }
        } else {
            proof {
                assert(nc@ =~= without_commas(t@.subrange(0, i + 1)));
            }
        }
        i = i + 1;
    }
    proof {
        assert(t@.subrange(0, n as int) =~= t@);
    }
    if float_literal_check(&nc) {
        return CellDataType::Number;
    }
    // Date: three numeric components split on `/` or `-`.
    let mut seps: usize = 0;
    let mut p1: usize = n;
    let mut p2: usize = n;
    let mut j: usize = 0;
    while j < n
        invariant
            n == t@.len(),
            j <= n,
            seps == sep_count(t@.subrange(0, j as int)),
            seps >= 1 ==> p1 < j && is_date_sep(t@[p1 as int]) && p1 == first_sep_index(t@) && (
            forall|x: int| 0 <= x < p1 ==> !is_date_sep(#[trigger] t@[x])),
            seps >= 2 ==> p2 < j && p1 < p2 && is_date_sep(t@[p2 as int]) && p2 == p1 + 1
                + first_sep_index(t@.skip(p1 + 1)) && (forall|x: int|
                p1 < x < p2 ==> !is_date_sep(#[trigger] t@[x])),
            seps == 0 ==> forall|x: int| 0 <= x < j ==> !is_date_sep(#[trigger] t@[x]),
            seps == 1 ==> forall|x: int| p1 < x < j ==> !is_date_sep(#[trigger] t@[x]),
            seps <= j,
        decreases n - j,
    {
        proof {
            let pre = t@.subrange(0, j as int);
            let post = t@.subrange(0, j + 1);
            assert(post.drop_last() =~= pre);
            assert(post.last() == t@[j as int]);
        }
        let c = t[j];
        if c == '/' || c == '-' {
            if seps == 0 {
                p1 = j;
                proof {
                    lemma_first_sep_at(t@, j as int);
                }
            } else if seps == 1 {
                p2 = j;
                proof {
                    lemma_first_sep_at_from(t@, p1 + 1, j as int);
                }
            }
            seps = seps + 1;
        }
        j = j + 1;
    }
    proof {
        assert(t@.subrange(0, n as int) =~= t@);
    }
    if seps == 2 {
        proof {
            assert(contains_sep(t@)) by {
                assert(is_date_sep(t@[p1 as int]));
            }
        }
        let ok1 = u32_literal_check(&t, 0, p1);
        let ok2 = u32_literal_check(&t, p1 + 1, p2);
        let ok3 = u32_literal_check(&t, p2 + 1, n);
        proof {
            assert(t@.subrange(p2 + 1, n as int) =~= t@.skip(p2 + 1));
        }
        if ok1 && ok2 && ok3 {
            return CellDataType::Date;
        }
        return CellDataType::Text;
    }
    CellDataType::Text
}

proof fn lemma_first_sep_at(s: Seq<char>, j: int)
    requires
        0 <= j < s.len(),
        is_date_sep(s[j]),
        forall|x: int| 0 <= x < j ==> !is_date_sep(#[trigger] s[x]),
    ensures
        first_sep_index(s) == j,
    decreases j,
{
    if j > 0 {
        assert(!is_date_sep(s[0]));
        assert(s.drop_first() =~= s.skip(1));
        lemma_first_sep_at_shifted(s, 1, j);
    }
}

proof fn lemma_first_sep_at_shifted(s: Seq<char>, from: int, j: int)
    requires
        0 <= from <= j < s.len(),
        is_date_sep(s[j]),
        forall|x: int| from <= x < j ==> !is_date_sep(#[trigger] s[x]),
    ensures
        first_sep_index(s.skip(from)) == j - from,
    decreases j - from,
{
    let t = s.skip(from);
    if j == from {
        assert(t[0] == s[from]);
    } else {
        assert(t[0] == s[from]);
        assert(t.drop_first() =~= s.skip(from + 1));
        lemma_first_sep_at_shifted(s, from + 1, j);
    }
}

proof fn lemma_first_sep_at_from(s: Seq<char>, from: int, j: int)
    requires
        0 <= from <= j < s.len(),
        is_date_sep(s[j]),
        forall|x: int| from <= x < j ==> !is_date_sep(#[trigger] s[x]),
    ensures
        from + first_sep_index(s.skip(from)) == j,
{
    lemma_first_sep_at_shifted(s, from, j);
}

/// Whether the characters form a float literal.
fn float_literal_check(v: &Vec<char>) -> (r: bool)
    ensures
        r == is_float_literal(v@),
{
    let n = v.len();
    let start: usize = if n > 0 && (v[0] == '+' || v[0] == '-') {
        1
    } else {
        0
    };
    let ghost body = if v@.len() > 0 && (v@[0] == '+' || v@[0] == '-') {
        v@.drop_first()
    } else {
        v@
    };
    proof {
        assert(body =~= v@.subrange(start as int, n as int));
    }
    // Infinity and NaN words, case-insensitive.
    let rest = crate::text::subvec(v, start, n);
    let low = crate::text::lower_vec(&rest);
    let w_inf: Vec<char> = vec!['i', 'n', 'f'];
    let w_infinity: Vec<char> = vec!['i', 'n', 'f', 'i', 'n', 'i', 't', 'y'];
    let w_nan: Vec<char> = vec!['n', 'a', 'n'];
    proof {
        assert(w_inf@ =~= seq!['i', 'n', 'f']);
        assert(w_infinity@ =~= seq!['i', 'n', 'f', 'i', 'n', 'i', 't', 'y']);
        assert(w_nan@ =~= seq!['n', 'a', 'n']);
    }
    if seq_eq_check(&low, &w_inf) || seq_eq_check(&low, &w_infinity) || seq_eq_check(
        &low,
        &w_nan,
    ) {
        return true;
    }
    // Split at the first exponent marker.
    let mut e = start;
    while e < n && v[e] != 'e' && v[e] != 'E'
        invariant
            start <= e <= n,
            n == v@.len(),
            forall|x: int| start <= x < e ==> v@[x] != 'e' && v@[x] != 'E',
        decreases n - e,
    {
        e = e + 1;
    }
    proof {
        lemma_first_e_shifted(v@, start as int, e as int);
    }
    if e == n {
        mantissa_check(v, start, n)
    } else {
        let m_ok = mantissa_check(v, start, e);
        if !m_ok {
            proof {
                assert(body.subrange(0, e - start) =~= v@.subrange(start as int, e as int));
            }
            return false;
        }
        proof {
            assert(body.subrange(0, e - start) =~= v@.subrange(start as int, e as int));
            assert(body.skip(e - start + 1) =~= v@.subrange(e + 1, n as int));
        }
        exponent_check(v, e + 1, n)
    }
}

proof fn lemma_first_e_shifted(s: Seq<char>, from: int, e: int)
    requires
        0 <= from <= e <= s.len(),
        forall|x: int| from <= x < e ==> s[x] != 'e' && s[x] != 'E',
        e == s.len() || s[e] == 'e' || s[e] == 'E',
    ensures
        first_e_index(s.skip(from)) == e - from,
    decreases e - from,
{
    let t = s.skip(from);
    if e == from {
        if t.len() > 0 {
            assert(t[0] == s[from]);
        }
    } else {
        assert(t[0] == s[from]);
        assert(t.drop_first() =~= s.skip(from + 1));
        lemma_first_e_shifted(s, from + 1, e);
    }
}

fn mantissa_check(v: &Vec<char>, from: usize, to: usize) -> (r: bool)
    requires
        from <= to <= v@.len(),
    ensures
        r == is_mantissa(v@.subrange(from as int, to as int)),
{
    let ghost m = v@.subrange(from as int, to as int);
    if from == to {
        return false;
    }
    let mut i = from;
    while i < to && crate::text::is_digit(v[i])
        invariant
            from <= i <= to <= v@.len(),
            forall|j: int| from <= j < i ==> is_digit_char(#[trigger] v@[j]),
        decreases to - i,
    {
        i = i + 1;
    }
    proof {
        lemma_digits_shift_sub2(v@, from as int, i as int, to as int);
    }
    if i == to {
        return true;
    }
    if v[i] != '.' {
        proof {
            assert(m[i - from] == v@[i as int]);
        }
        return false;
    }
    proof {
        assert(m[i - from] == v@[i as int]);
        assert(m.skip(i - from + 1) =~= v@.subrange(i + 1, to as int));
    }
    let d1 = i - from;
    if d1 >= 1 {
        let r = all_digits_range(v, i + 1, to);
        r
    } else {
        if i + 1 == to {
            return false;
        }
        all_digits_range(v, i + 1, to)
    }
}

proof fn lemma_digits_shift_sub2(s: Seq<char>, from: int, i: int, to: int)
    requires
        0 <= from <= i <= to <= s.len(),
        forall|j: int| from <= j < i ==> is_digit_char(#[trigger] s[j]),
        i == to || !is_digit_char(s[i]),
    ensures
        digits_run_len(s.subrange(from, to)) == i - from,
    decreases i - from,
{
    let t = s.subrange(from, to);
    if i == from {
        if t.len() > 0 {
            assert(t[0] == s[from]);
        }
    } else {
        assert(t[0] == s[from]);
        assert(t.drop_first() =~= s.subrange(from + 1, to));
        lemma_digits_shift_sub2(s, from + 1, i, to);
    }
}

fn all_digits_range(v: &Vec<char>, from: usize, to: usize) -> (r: bool)
    requires
        from <= to <= v@.len(),
    ensures
        r == (digits_run_len(v@.subrange(from as int, to as int)) == to - from),
{
    let mut i = from;
    while i < to && crate::text::is_digit(v[i])
        invariant
            from <= i <= to <= v@.len(),
            forall|j: int| from <= j < i ==> is_digit_char(#[trigger] v@[j]),
        decreases to - i,
    {
        i = i + 1;
    }
    proof {
        lemma_digits_shift_sub2(v@, from as int, i as int, to as int);
        if i < to {
            assert(digits_run_len(v@.subrange(from as int, to as int)) == i - from);
        }
    }
    i == to
}

fn exponent_check(v: &Vec<char>, from: usize, to: usize) -> (r: bool)
    requires
        from <= to <= v@.len(),
    ensures
        r == is_exponent(v@.subrange(from as int, to as int)),
{
    let ghost x = v@.subrange(from as int, to as int);
    let b: usize = if from < to && (v[from] == '+' || v[from] == '-') {
        from + 1
    } else {
        from
    };
    proof {
        if from < to && (v@[from as int] == '+' || v@[from as int] == '-') {
            assert(x.drop_first() =~= v@.subrange(from + 1, to as int));
        }
    }
    if b == to {
        return false;
    }
    all_digits_range(v, b, to)
}

/// The alignment a data type defaults to: numbers right, booleans
/// centred, everything else left.
pub open spec fn spec_default_alignment(dt: CellDataType) -> TextAlignment {
    match dt {
        CellDataType::Number => TextAlignment::Right,
        CellDataType::Currency => TextAlignment::Right,
        CellDataType::Percentage => TextAlignment::Right,
        CellDataType::Boolean => TextAlignment::Center,
        _ => TextAlignment::Left,
    }
}

pub fn default_alignment_for_type(data_type: CellDataType) -> (r: TextAlignment)
    ensures
        r == spec_default_alignment(data_type),
{
    match data_type {
        CellDataType::Number => TextAlignment::Right,
        CellDataType::Currency => TextAlignment::Right,
        CellDataType::Percentage => TextAlignment::Right,
        CellDataType::Boolean => TextAlignment::Center,
        _ => TextAlignment::Left,
    }
}

impl TableCell {
    /// A cell from its content: the data type is inferred and the
    /// alignment defaults from it.
    pub fn new(content: String) -> (r: Self)
        ensures
            r@.content == content@,
            r@.data_type == spec_cell_data_type(content@),
            r@.alignment == spec_default_alignment(spec_cell_data_type(content@)),
            r@.fmt == crate::models::default_fmt(),
    {
        let data_type = detect_cell_data_type(content.as_str());
        let alignment = default_alignment_for_type(data_type);
        TableCell { content, alignment, formatting: TextFormatting::default(), data_type }
    }

    /// The cell with its alignment overridden.
    pub fn _with_alignment(self, alignment: TextAlignment) -> (r: Self)
        ensures
            r@.content == self@.content,
            r@.data_type == self@.data_type,
            r@.fmt == self@.fmt,
            r@.alignment == alignment,
    {
        TableCell {
            content: self.content,
            alignment,
            formatting: self.formatting,
            data_type: self.data_type,
        }
    }

    /// The cell with its formatting replaced.
    pub fn with_formatting(self, formatting: TextFormatting) -> (r: Self)
        ensures
            r@.content == self@.content,
            r@.data_type == self@.data_type,
            r@.alignment == self@.alignment,
            r@.fmt == formatting@,
    {
        TableCell {
            content: self.content,
            alignment: self.alignment,
            formatting,
            data_type: self.data_type,
        }
    }

    /// The display width of the content in grapheme clusters.
    pub fn display_width(&self) -> (r: usize)
        ensures
            r == grapheme_count(self.content@),
    {
        grapheme_len(self.content.as_str())
    }
}

/// Whether lowered cell text holds one of the header keywords.
pub open spec fn header_keyword_in(cl: Seq<char>) -> bool {
    ||| crate::text::contains_seq(cl, seq!['n', 'a', 'm', 'e'])
    ||| crate::text::contains_seq(cl, seq!['d', 'a', 't', 'e'])
    ||| crate::text::contains_seq(cl, seq!['a', 'm', 'o', 'u', 'n', 't'])
    ||| crate::text::contains_seq(cl, seq!['t', 'y', 'p', 'e'])
    ||| crate::text::contains_seq(cl, seq!['s', 't', 'a', 't', 'u', 's'])
    ||| crate::text::contains_seq(cl, seq!['i', 'd'])
    ||| crate::text::contains_seq(cl, seq!['d', 'e', 's', 'c', 'r', 'i', 'p', 't', 'i', 'o', 'n'])
    ||| crate::text::contains_seq(cl, seq!['c', 'o', 'u', 'n', 't'])
}

/// Whether one cell's text reads like a header: a short non-empty phrase
/// or a header keyword.
pub open spec fn is_header_cell(c: Seq<char>) -> bool {
    (word_count(c) <= 3 && spec_trim(c).len() > 0) || header_keyword_in(lower_seq(c))
}

pub open spec fn header_indicators_upto(row: Seq<Seq<char>>, n: int) -> int
    decreases n,
{
    if n <= 0 {
        0
    } else {
        header_indicators_upto(row, n - 1) + if is_header_cell(row[n - 1]) {
            1int
        } else {
            0int
        }
    }
}

pub open spec fn row_total_len_upto(row: Seq<Seq<char>>, n: int) -> int
    decreases n,
{
    if n <= 0 {
        0
    } else {
        row_total_len_upto(row, n - 1) + row[n - 1].len()
    }
}

/// Whether a row reads like a header row: short cells on average, and
/// more than half the cells header-like.
pub open spec fn spec_appears_header(row: Seq<Seq<char>>) -> bool {
    let total = row_total_len_upto(row, row.len() as int);
    let avg = if row.len() > 0 {
        total / row.len() as int
    } else {
        0
    };
    if avg > 50 {
        false
    } else {
        header_indicators_upto(row, row.len() as int) > row.len() as int / 2
    }
}

fn is_header_cell_exec(c: &Vec<char>) -> (r: bool)
    ensures
        r == is_header_cell(c@),
{
    let words = crate::text::count_words(c);
    if words <= 3 {
        let t = trimmed(c);
        if t.len() > 0 {
            return true;
        }
    }
    let cl = crate::text::lower_vec(c);
    let k1: Vec<char> = vec!['n', 'a', 'm', 'e'];
    let k2: Vec<char> = vec!['d', 'a', 't', 'e'];
    let k3: Vec<char> = vec!['a', 'm', 'o', 'u', 'n', 't'];
    let k4: Vec<char> = vec!['t', 'y', 'p', 'e'];
    let k5: Vec<char> = vec!['s', 't', 'a', 't', 'u', 's'];
    let k6: Vec<char> = vec!['i', 'd'];
    let k7: Vec<char> = vec!['d', 'e', 's', 'c', 'r', 'i', 'p', 't', 'i', 'o', 'n'];
    let k8: Vec<char> = vec!['c', 'o', 'u', 'n', 't'];
    proof {
        assert(k1@ =~= seq!['n', 'a', 'm', 'e']);
        assert(k2@ =~= seq!['d', 'a', 't', 'e']);
        assert(k3@ =~= seq!['a', 'm', 'o', 'u', 'n', 't']);
        assert(k4@ =~= seq!['t', 'y', 'p', 'e']);
        assert(k5@ =~= seq!['s', 't', 'a', 't', 'u', 's']);
        assert(k6@ =~= seq!['i', 'd']);
        assert(k7@ =~= seq!['d', 'e', 's', 'c', 'r', 'i', 'p', 't', 'i', 'o', 'n']);
        assert(k8@ =~= seq!['c', 'o', 'u', 'n', 't']);
    }
    crate::text::contains_sub(&cl, &k1) || crate::text::contains_sub(&cl, &k2)
        || crate::text::contains_sub(&cl, &k3) || crate::text::contains_sub(&cl, &k4)
        || crate::text::contains_sub(&cl, &k5) || crate::text::contains_sub(&cl, &k6)
        || crate::text::contains_sub(&cl, &k7) || crate::text::contains_sub(&cl, &k8)
}

/// Whether a row of cell texts reads like a header row.
pub fn appears_to_be_header(row: &Vec<String>) -> (r: bool)
    ensures
        r == spec_appears_header(row@.map_values(|c: String| c@)),
{
    let ghost rv = row@.map_values(|c: String| c@);
    let n = row.len();
    let mut total: u128 = 0;
    let mut indicators: usize = 0;
    let mut i: usize = 0;
    while i < n
        invariant
            n == row@.len(),
            rv == row@.map_values(|c: String| c@),
            rv.len() == n,
            i <= n,
            total == row_total_len_upto(rv, i as int),
            total <= (i as u128) * (usize::MAX as u128),
            indicators == header_indicators_upto(rv, i as int),
            indicators <= i,
        decreases n - i,
    {
        proof {
            assert(rv[i as int] == row@[i as int]@);
        }
        let cell_chars = crate::text::chars_of(row[i].as_str());
        let clen = cell_chars.len();
        proof {
            assert((total + clen as u128) <= ((i + 1) as u128) * (usize::MAX as u128)) by {
                assert(total <= (i as u128) * (usize::MAX as u128));
                assert(clen as u128 <= usize::MAX as u128);
                assert(((i + 1) as u128) * (usize::MAX as u128) == (i as u128) * (
                usize::MAX as u128) + (usize::MAX as u128)) by (nonlinear_arith);
            }
        }
        total = total + clen as u128;
        if is_header_cell_exec(&cell_chars) {
            indicators = indicators + 1;
        }
        i = i + 1;
    }
    let avg: u128 = if n > 0 {
        total / (n as u128)
    } else {
        0
    };
    if avg > 50 {
        return false;
    }
    indicators > n / 2
}

/// The longest row among the first `n`.
pub open spec fn rows_max_len(rows: Seq<Seq<CellV>>, n: int) -> int
    decreases n,
{
    if n <= 0 {
        0
    } else {
        let m = rows_max_len(rows, n - 1);
        if rows[n - 1].len() > m {
            rows[n - 1].len() as int
        } else {
            m
        }
    }
}

proof fn lemma_rows_max_len_bound(rows: Seq<Seq<CellV>>, n: int, j: int)
    requires
        0 <= j < n <= rows.len(),
    ensures
        rows[j].len() <= rows_max_len(rows, n),
    decreases n,
{
    if j < n - 1 {
        lemma_rows_max_len_bound(rows, n - 1, j);
    }
}

/// The number of columns a table presents: the longer of the header row
/// and the longest data row.
pub open spec fn max_columns(h: Seq<CellV>, rows: Seq<Seq<CellV>>) -> int {
    if h.len() > rows_max_len(rows, rows.len() as int) {
        h.len() as int
    } else {
        rows_max_len(rows, rows.len() as int)
    }
}

/// The starting width of column `i`: the header's display width where a
/// header cell exists, else nothing.
pub open spec fn header_width(h: Seq<CellV>, i: int) -> int {
    if i < h.len() {
        grapheme_count(h[i].content)
    } else {
        0
    }
}

/// The widest content in column `i` among the first `n` rows, starting
/// from the header's own width.
pub open spec fn col_width_upto(hw: int, rows: Seq<Seq<CellV>>, i: int, n: int) -> int
    decreases n,
{
    if n <= 0 {
        hw
    } else {
        let m = col_width_upto(hw, rows, i, n - 1);
        if i < rows[n - 1].len() && grapheme_count(rows[n - 1][i].content) > m {
            grapheme_count(rows[n - 1][i].content)
        } else {
            m
        }
    }
}

pub open spec fn rows_view(rows: Seq<Vec<TableCell>>) -> Seq<Seq<CellV>> {
    rows.map_values(|row: Vec<TableCell>| cells_view(row@))
}

/// The column widths, one per presented column: the per-column maximum
/// of header and cell display widths, floored at three.
pub open spec fn spec_column_widths(h: Seq<CellV>, rows: Seq<Seq<CellV>>) -> Seq<usize> {
    Seq::new(
        max_columns(h, rows) as nat,
        |i: int|
            {
                let m = col_width_upto(header_width(h, i), rows, i, rows.len() as int);
                if m < 3 {
                    3usize
                } else if m > usize::MAX {
                    usize::MAX
                } else {
                    m as usize
                }
            },
    )
}

/// Computes the column widths from header and cell display widths.
pub fn calculate_column_widths(headers: &Vec<TableCell>, rows: &Vec<Vec<TableCell>>) -> (r: Vec<
    usize,
>)
    ensures
        r@ == spec_column_widths(cells_view(headers@), rows_view(rows@)),
{
    let ghost hv = cells_view(headers@);
    let ghost rv = rows_view(rows@);
    let nc = headers.len();
    let nr = rows.len();
    // The number of presented columns.
    let mut mc = nc;
    let mut j0: usize = 0;
    while j0 < nr
        invariant
            nc == headers@.len(),
            nr == rows@.len(),
            rv == rows_view(rows@),
            rv.len() == nr,
            j0 <= nr,
            mc as int == if nc as int > rows_max_len(rv, j0 as int) {
                nc as int
            } else {
                rows_max_len(rv, j0 as int)
            },
        decreases nr - j0,
    {
        proof {
            assert(rv[j0 as int] == cells_view(rows@[j0 as int]@));
        }
        if rows[j0].len() > mc {
            mc = rows[j0].len();
        }
        j0 = j0 + 1;
    }
    proof {
        assert(mc as int == max_columns(hv, rv));
    }
    // Start from the header widths, or nothing past the header row.
    let mut widths: Vec<usize> = Vec::new();
    let mut i: usize = 0;
    while i < mc
        invariant
            nc == headers@.len(),
            hv == cells_view(headers@),
            i <= mc,
            widths@.len() == i,
            forall|x: int| 0 <= x < i ==> #[trigger] widths@[x] == header_width(hv, x),
        decreases mc - i,
    {
        if i < nc {
            proof {
                assert(hv[i as int] == headers@[i as int]@);
            }
            widths.push(headers[i].display_width());
        } else {
            widths.push(0);
        }
        i = i + 1;
    }
    // Raise each column to its widest cell.
    let mut j: usize = 0;
    while j < nr
        invariant
            nc == headers@.len(),
            nr == rows@.len(),
            hv == cells_view(headers@),
            rv == rows_view(rows@),
            rv.len() == nr,
            mc as int == max_columns(hv, rv),
            j <= nr,
            widths@.len() == mc,
            forall|x: int|
                0 <= x < mc ==> #[trigger] widths@[x] == col_width_upto(
                    header_width(hv, x),
                    rv,
                    x,
                    j as int,
                ),
        decreases nr - j,
    {
        let m = rows[j].len();
        let mut k: usize = 0;
        proof {
            assert(rv[j as int] == cells_view(rows@[j as int]@));
            lemma_rows_max_len_bound(rv, nr as int, j as int);
            assert(m <= mc);
        }
        while k < m
            invariant
                nc == headers@.len(),
                j < nr == rows@.len(),
                m == rows@[j as int]@.len(),
                m <= mc,
                hv == cells_view(headers@),
                rv == rows_view(rows@),
                rv[j as int] == cells_view(rows@[j as int]@),
                rv[j as int].len() == m,
                k <= m,
                widths@.len() == mc,
                forall|x: int|
                    0 <= x < mc && x < k ==> #[trigger] widths@[x] == (if grapheme_count(
                        rv[j as int][x].content,
                    ) > col_width_upto(header_width(hv, x), rv, x, j as int) {
                        grapheme_count(rv[j as int][x].content)
                    } else {
                        col_width_upto(header_width(hv, x), rv, x, j as int)
                    }),
                forall|x: int|
                    0 <= x < mc && x >= k ==> #[trigger] widths@[x] == col_width_upto(
                        header_width(hv, x),
                        rv,
                        x,
                        j as int,
                    ),
            decreases m - k,
        {
            let w = rows[j][k].display_width();
            proof {
                assert(rv[j as int][k as int] == rows@[j as int]@[k as int]@);
            }
            if w > widths[k] {
                widths.set(k, w);
            }
            k = k + 1;
        }
        proof {
            assert forall|x: int| 0 <= x < mc implies #[trigger] widths@[x] == col_width_upto(
                header_width(hv, x),
                rv,
                x,
                j + 1,
            ) by {
                if x < m {
                    assert(widths@[x] == (if grapheme_count(rv[j as int][x].content)
                        > col_width_upto(header_width(hv, x), rv, x, j as int) {
                        grapheme_count(rv[j as int][x].content)
                    } else {
                        col_width_upto(header_width(hv, x), rv, x, j as int)
                    }));
                }
            }
        }
        j = j + 1;
    }
    // Floor each width at three.
    let mut i2: usize = 0;
    while i2 < mc
        invariant
            nc == headers@.len(),
            hv == cells_view(headers@),
            rv == rows_view(rows@),
            rv.len() == rows@.len(),
            mc as int == max_columns(hv, rv),
            widths@.len() == mc,
            i2 <= mc,
            forall|x: int|
                i2 <= x < mc ==> #[trigger] widths@[x] == col_width_upto(
                    header_width(hv, x),
                    rv,
                    x,
                    rv.len() as int,
                ),
            forall|x: int| 0 <= x < i2 ==> #[trigger] widths@[x] == spec_column_widths(hv, rv)[x],
        decreases mc - i2,
    {
        if widths[i2] < 3 {
            widths.set(i2, 3);
        }
        proof {
            assert(widths@[i2 as int] == spec_column_widths(hv, rv)[i2 as int]);
        }
        i2 = i2 + 1;
    }
    proof {
        assert(widths@ =~= spec_column_widths(hv, rv));
    }
    widths
}

pub open spec fn is_numeric_type(dt: CellDataType) -> bool {
    dt == CellDataType::Number || dt == CellDataType::Currency || dt == CellDataType::Percentage
}

/// The number of rows that have a cell in column `i`, among the first `n`.
pub open spec fn col_total_upto(rows: Seq<Seq<CellV>>, i: int, n: int) -> int
    decreases n,
{
    if n <= 0 {
        0
    } else {
        col_total_upto(rows, i, n - 1) + if i < rows[n - 1].len() {
            1int
        } else {
            0int
        }
    }
}

/// The number of those cells whose type is numeric.
pub open spec fn col_numeric_upto(rows: Seq<Seq<CellV>>, i: int, n: int) -> int
    decreases n,
{
    if n <= 0 {
        0
    } else {
        col_numeric_upto(rows, i, n - 1) + if i < rows[n - 1].len() && is_numeric_type(
            rows[n - 1][i].data_type,
        ) {
            1int
        } else {
            0int
        }
    }
}

/// A column is right-aligned exactly when more than seven tenths of its
/// cells hold numeric data; otherwise it stays left-aligned.
pub open spec fn spec_column_alignments(h: Seq<CellV>, rows: Seq<Seq<CellV>>) -> Seq<
    TextAlignment,
> {
    Seq::new(
        max_columns(h, rows) as nat,
        |i: int|
            {
                let total = col_total_upto(rows, i, rows.len() as int);
                let numeric = col_numeric_upto(rows, i, rows.len() as int);
                if total > 0 && numeric * 10 > total * 7 {
                    TextAlignment::Right
                } else {
                    TextAlignment::Left
                }
            },
    )
}

/// Determines per-column alignment from the data types in the column:
/// over seventy per cent numeric cells align right, anything else left.
pub fn determine_column_alignments(headers: &Vec<TableCell>, rows: &Vec<Vec<TableCell>>) -> (r:
    Vec<TextAlignment>)
    ensures
        r@ == spec_column_alignments(cells_view(headers@), rows_view(rows@)),
        r@.len() == max_columns(cells_view(headers@), rows_view(rows@)),
{
    let ghost hv = cells_view(headers@);
    let ghost rv = rows_view(rows@);
    let nc = headers.len();
    let nr = rows.len();
    let mut mc = nc;
    let mut j0: usize = 0;
    while j0 < nr
        invariant
            nc == headers@.len(),
            nr == rows@.len(),
            rv == rows_view(rows@),
            rv.len() == nr,
            j0 <= nr,
            mc as int == if nc as int > rows_max_len(rv, j0 as int) {
                nc as int
            } else {
                rows_max_len(rv, j0 as int)
            },
        decreases nr - j0,
    {
        proof {
            assert(rv[j0 as int] == cells_view(rows@[j0 as int]@));
        }
        if rows[j0].len() > mc {
            mc = rows[j0].len();
        }
        j0 = j0 + 1;
    }
    proof {
        assert(mc as int == max_columns(hv, rv));
    }
    let mut aligns: Vec<TextAlignment> = Vec::new();
    let mut i: usize = 0;
    while i < mc
        invariant
            nc == headers@.len(),
            nr == rows@.len(),
            hv == cells_view(headers@),
            rv == rows_view(rows@),
            rv.len() == nr,
            mc as int == max_columns(hv, rv),
            i <= mc,
            aligns@.len() == i,
            forall|x: int|
                0 <= x < i ==> #[trigger] aligns@[x] == spec_column_alignments(hv, rv)[x],
        decreases mc - i,
    {
        let mut numeric: usize = 0;
        let mut total: usize = 0;
        let mut j: usize = 0;
        while j < nr
            invariant
                nr == rows@.len(),
                rv == rows_view(rows@),
                rv.len() == nr,
                j <= nr,
                total == col_total_upto(rv, i as int, j as int),
                numeric == col_numeric_upto(rv, i as int, j as int),
                numeric <= total <= j,
            decreases nr - j,
        {
            proof {
                assert(rv[j as int] == cells_view(rows@[j as int]@));
            }
            if i < rows[j].len() {
                total = total + 1;
                let dt = rows[j][i].data_type;
                proof {
                    assert(rv[j as int][i as int] == rows@[j as int]@[i as int]@);
                }
                let numeric_cell = match dt {
                    CellDataType::Number => true,
                    CellDataType::Currency => true,
                    CellDataType::Percentage => true,
                    _ => false,
                };
                if numeric_cell {
                    numeric = numeric + 1;
                }
            }
            j = j + 1;
        }
        let right = total > 0 && (numeric as u128) * 10 > (total as u128) * 7;
        if right {
            aligns.push(TextAlignment::Right);
        } else {
            aligns.push(TextAlignment::Left);
        }
        proof {
            assert(aligns@[i as int] == spec_column_alignments(hv, rv)[i as int]);
        }
        i = i + 1;
    }
    proof {
        assert(aligns@ =~= spec_column_alignments(hv, rv));
    }
    aligns
}

/// A table's metadata is consistent: one width and one alignment per
/// column, every width at least three.
pub open spec fn table_wf(t: TableV) -> bool {
    &&& t.metadata.column_widths.len() == max_columns(t.headers, t.rows)
    &&& t.metadata.column_alignments.len() == max_columns(t.headers, t.rows)
    &&& t.metadata.column_count == t.headers.len()
    &&& t.metadata.row_count == t.rows.len()
    &&& forall|i: int|
        0 <= i < t.metadata.column_widths.len() ==> #[trigger] t.metadata.column_widths[i] >= 3
}

impl TableData {
    /// A table from its header and data rows; the metadata is derived.
    pub fn new(headers: Vec<TableCell>, rows: Vec<Vec<TableCell>>) -> (r: Self)
        ensures
            r@.headers == cells_view(headers@),
            r@.rows == rows_view(rows@),
            r@.metadata.column_count == headers@.len(),
            r@.metadata.row_count == rows@.len(),
            r@.metadata.has_headers == (headers@.len() > 0),
            r@.metadata.column_widths == spec_column_widths(
                cells_view(headers@),
                rows_view(rows@),
            ),
            r@.metadata.column_alignments == spec_column_alignments(
                cells_view(headers@),
                rows_view(rows@),
            ),
            r@.metadata.title is None,
            table_wf(r@),
    {
        let column_count = headers.len();
        let row_count = rows.len();
        let has_headers = headers.len() > 0;
        let column_widths = calculate_column_widths(&headers, &rows);
        let column_alignments = determine_column_alignments(&headers, &rows);
        let metadata = TableMetadata {
            column_count,
            row_count,
            has_headers,
            column_widths,
            column_alignments,
            title: None,
        };
        let r = TableData { headers, rows, metadata };
        proof {
            assert(r@.rows =~= rows_view(rows@));
            assert forall|i: int| 0 <= i < r@.metadata.column_widths.len() implies #[trigger] r@
                .metadata.column_widths[i] >= 3 by {
                assert(r@.metadata.column_widths[i] == spec_column_widths(
                    cells_view(headers@),
                    rows_view(rows@),
                )[i]);
            }
        }
        r
    }

    /// The width of one column, ten for a column out of range.
    pub fn _get_column_width(&self, column_index: usize) -> (r: usize)
        ensures
            r == if column_index < self@.metadata.column_widths.len() {
                self@.metadata.column_widths[column_index as int]
            } else {
                10usize
            },
    {
        if column_index < self.metadata.column_widths.len() {
            self.metadata.column_widths[column_index]
        } else {
            10
        }
    }

    /// The alignment of one column, left for a column out of range.
    pub fn _get_column_alignment(&self, column_index: usize) -> (r: TextAlignment)
        ensures
            r == if column_index < self@.metadata.column_alignments.len() {
                self@.metadata.column_alignments[column_index as int]
            } else {
                TextAlignment::Left
            },
    {
        if column_index < self.metadata.column_alignments.len() {
            self.metadata.column_alignments[column_index]
        } else {
            TextAlignment::Left
        }
    }
}

/// Cell text accumulation: a space is put between pieces when the text
/// so far does not already end in one.
pub open spec fn add_piece(acc: Seq<char>, piece: Seq<char>) -> Seq<char> {
    if acc.len() > 0 && acc.last() != ' ' {
        acc + seq![' '] + piece
    } else {
        acc + piece
    }
}

/// The text of a cell's run children folded left to right; only `Text`
/// children contribute.
pub open spec fn cell_text_children(cs: Seq<crate::raw::RawRunChild>, acc: Seq<char>) -> Seq<char>
    decreases cs.len(),
{
    if cs.len() == 0 {
        acc
    } else {
        let acc2 = match cs[0] {
            crate::raw::RawRunChild::Text(s) => add_piece(acc, s@),
            _ => acc,
        };
        cell_text_children(cs.drop_first(), acc2)
    }
}

pub open spec fn cell_text_runs(runs: Seq<crate::raw::RawRun>, acc: Seq<char>) -> Seq<char>
    decreases runs.len(),
{
    if runs.len() == 0 {
        acc
    } else {
        cell_text_runs(runs.drop_first(), cell_text_children(runs[0].children@, acc))
    }
}

/// The formatting a cell captures: each run's formatting replaces the
/// captured one until a bold or italic formatting has been seen.
pub open spec fn cell_fmt_runs(
    runs: Seq<crate::raw::RawRun>,
    cur: crate::models::FmtV,
) -> crate::models::FmtV
    decreases runs.len(),
{
    if runs.len() == 0 {
        cur
    } else {
        let cur2 = if !cur.bold && !cur.italic {
            runs[0].formatting@
        } else {
            cur
        };
        cell_fmt_runs(runs.drop_first(), cur2)
    }
}

/// The cell a raw cell becomes: trimmed accumulated text, inferred type,
/// default alignment for the type, captured formatting.
pub open spec fn spec_build_cell(c: RawCell) -> CellV {
    let text = spec_trim(cell_text_runs(c.runs@, Seq::<char>::empty()));
    let dt = spec_cell_data_type(text);
    CellV {
        content: text,
        alignment: spec_default_alignment(dt),
        fmt: cell_fmt_runs(c.runs@, crate::models::default_fmt()),
        data_type: dt,
    }
}

pub open spec fn spec_row_cells(r: RawRow) -> Seq<CellV> {
    r.cells@.map_values(|c: RawCell| spec_build_cell(c))
}

pub open spec fn cell_texts(cells: Seq<CellV>) -> Seq<Seq<char>> {
    cells.map_values(|c: CellV| c.content)
}

/// The header/data split of the raw rows: empty rows are skipped; the
/// first non-empty row becomes the header row when it looks like one,
/// otherwise every non-empty row is data.
pub open spec fn spec_collect_rows(rows: Seq<RawRow>, first: bool) -> (Seq<CellV>, Seq<
    Seq<CellV>,
>)
    decreases rows.len(),
{
    if rows.len() == 0 {
        (Seq::<CellV>::empty(), Seq::<Seq<CellV>>::empty())
    } else {
        let cells = spec_row_cells(rows[0]);
        if cells.len() == 0 {
            spec_collect_rows(rows.drop_first(), first)
        } else if first && spec_appears_header(cell_texts(cells)) {
            let rest = spec_collect_rows(rows.drop_first(), false);
            (cells, rest.1)
        } else {
            let rest = spec_collect_rows(rows.drop_first(), false);
            (rest.0, seq![cells] + rest.1)
        }
    }
}

/// Once the first non-empty row is past, no header row is ever detected.
proof fn lemma_collect_no_first(rows: Seq<RawRow>)
    ensures
        spec_collect_rows(rows, false).0 == Seq::<CellV>::empty(),
    decreases rows.len(),
{
    if rows.len() > 0 {
        lemma_collect_no_first(rows.drop_first());
    }
}

/// The extracted table of a raw table, if it has any content: collected
/// headers and rows, with the first data row promoted to headers when
/// none were detected.
pub open spec fn spec_extract_table(t: RawTable) -> Option<TableV> {
    let hd = spec_collect_rows(t.rows@, true);
    let promoted: (Seq<CellV>, Seq<Seq<CellV>>) = if hd.0.len() == 0 && hd.1.len() > 0 {
        (hd.1[0], hd.1.drop_first())
    } else {
        hd
    };
    if promoted.0.len() > 0 || promoted.1.len() > 0 {
        Some(
            TableV {
                headers: promoted.0,
                rows: promoted.1,
                metadata: MetaV {
                    column_count: promoted.0.len() as usize,
                    row_count: promoted.1.len() as usize,
                    has_headers: promoted.0.len() > 0,
                    column_widths: spec_column_widths(promoted.0, promoted.1),
                    column_alignments: spec_column_alignments(promoted.0, promoted.1),
                    title: None,
                },
            },
        )
    } else {
        None
    }
}

/// Builds one cell from a raw cell's runs.
fn build_cell(c: &RawCell) -> (r: TableCell)
    ensures
        r@ == spec_build_cell(*c),
{
    let ghost full_text = cell_text_runs(c.runs@, Seq::<char>::empty());
    let ghost full_fmt = cell_fmt_runs(c.runs@, crate::models::default_fmt());
    let mut acc: Vec<char> = Vec::new();
    let mut fmt = TextFormatting::default();
    let n = c.runs.len();
    let mut i: usize = 0;
    proof {
        assert(c.runs@.skip(0) =~= c.runs@);
        assert(acc@ =~= Seq::<char>::empty());
    }
    while i < n
        invariant
            n == c.runs@.len(),
            i <= n,
            full_text == cell_text_runs(c.runs@, Seq::<char>::empty()),
            full_fmt == cell_fmt_runs(c.runs@, crate::models::default_fmt()),
            full_text == cell_text_runs(c.runs@.skip(i as int), acc@),
            full_fmt == cell_fmt_runs(c.runs@.skip(i as int), fmt@),
        decreases n - i,
    {
        let run = &c.runs[i];
        let ghost rs = c.runs@.skip(i as int);
        proof {
            assert(rs[0] == c.runs@[i as int]);
            assert(rs.drop_first() =~= c.runs@.skip(i + 1));
        }
        if !fmt.bold && !fmt.italic {
            fmt = run.formatting.clone();
        }
        proof {
            assert(full_fmt == cell_fmt_runs(c.runs@.skip(i + 1), fmt@));
        }
        let m = run.children.len();
        let mut j: usize = 0;
        proof {
            assert(run.children@.skip(0) =~= run.children@);
        }
        while j < m
            invariant
                m == run.children@.len(),
                j <= m,
                full_text == cell_text_runs(
                    c.runs@.skip(i + 1),
                    cell_text_children(run.children@.skip(j as int), acc@),
                ),
            decreases m - j,
        {
            let ghost cs = run.children@.skip(j as int);
            let ghost pre_acc = acc@;
            proof {
                assert(cs[0] == run.children@[j as int]);
                assert(cs.drop_first() =~= run.children@.skip(j + 1));
            }
            match &run.children[j] {
                crate::raw::RawRunChild::Text(s) => {
                    let piece = crate::text::chars_of(s.as_str());
                    if acc.len() > 0 {
                        if acc[acc.len() - 1] != ' ' {
                            acc.push(' ');
                        }
                    }
                    let mut p2 = piece;
                    acc.append(&mut p2);
                    proof {
                        assert(acc@ =~= add_piece(pre_acc, s@));
                    }
                },
                _ => {},
            }
            j = j + 1;
        }
        proof {
            assert(run.children@.skip(m as int) =~= Seq::<crate::raw::RawRunChild>::empty());
        }
        i = i + 1;
    }
    proof {
        assert(c.runs@.skip(n as int) =~= Seq::<crate::raw::RawRun>::empty());
    }
    let t = trimmed(&acc);
    let cell = TableCell::new(crate::text::string_of(&t));
    cell.with_formatting(fmt)
}

/// Extracts a table element from a raw table, or nothing when the table
/// has no usable content.
pub fn extract_table_data(table: &RawTable) -> (r: Option<crate::models::DocumentElement>)
    ensures
        match (r, spec_extract_table(*table)) {
            (Some(e), Some(tv)) => e@ == crate::models::ElemV::Table { table: tv },
            (None, None) => true,
            _ => false,
        },
{
    let ghost goal = spec_collect_rows(table.rows@, true);
    let mut header_cells: Vec<TableCell> = Vec::new();
    let mut data_rows: Vec<Vec<TableCell>> = Vec::new();
    let mut is_first: bool = true;
    let n = table.rows.len();
    let mut i: usize = 0;
    proof {
        assert(table.rows@.skip(0) =~= table.rows@);
        assert(rows_view(data_rows@) =~= Seq::<Seq<CellV>>::empty());
    }
    while i < n
        invariant
            n == table.rows@.len(),
            i <= n,
            goal == spec_collect_rows(table.rows@, true),
            header_cells@.len() > 0 ==> !is_first,
            goal.0 == if header_cells@.len() > 0 {
                cells_view(header_cells@)
            } else {
                spec_collect_rows(table.rows@.skip(i as int), is_first).0
            },
            goal.1 == rows_view(data_rows@) + spec_collect_rows(
                table.rows@.skip(i as int),
                is_first,
            ).1,
        decreases n - i,
    {
        let ghost rest = table.rows@.skip(i as int);
        proof {
            assert(rest[0] == table.rows@[i as int]);
            assert(rest.drop_first() =~= table.rows@.skip(i + 1));
        }
        let row = &table.rows[i];
        let m = row.cells.len();
        let mut row_cells: Vec<TableCell> = Vec::new();
        let mut k: usize = 0;
        while k < m
            invariant
                m == row.cells@.len(),
                k <= m,
                row_cells@.len() == k,
                forall|x: int|
                    0 <= x < k ==> (#[trigger] row_cells@[x])@ == spec_build_cell(row.cells@[x]),
            decreases m - k,
        {
            row_cells.push(build_cell(&row.cells[k]));
            k = k + 1;
        }
        proof {
            assert forall|x: int| 0 <= x < m implies cells_view(row_cells@)[x] == spec_row_cells(
                table.rows@[i as int],
            )[x] by {
                assert(row_cells@[x]@ == spec_build_cell(row.cells@[x]));
            }
            assert(cells_view(row_cells@) =~= spec_row_cells(table.rows@[i as int]));
        }
        if row_cells.len() > 0 {
            // Gather the cell texts for the header test.
            let mut texts: Vec<String> = Vec::new();
            let mut x: usize = 0;
            let rc = row_cells.len();
            while x < rc
                invariant
                    rc == row_cells@.len(),
                    x <= rc,
                    texts@.len() == x,
                    forall|y: int|
                        0 <= y < x ==> (#[trigger] texts@[y])@ == row_cells@[y]@.content,
                decreases rc - x,
            {
                texts.push(row_cells[x].content.clone());
                x = x + 1;
            }
            proof {
                assert forall|y: int| 0 <= y < rc implies texts@.map_values(|cc: String| cc@)[y]
                    == cell_texts(cells_view(row_cells@))[y] by {
                    assert(texts@[y]@ == row_cells@[y]@.content);
                }
                assert(texts@.map_values(|cc: String| cc@) =~= cell_texts(
                    cells_view(row_cells@),
                ));
            }
            let ghost pre_hdr = cells_view(header_cells@);
            let ghost pre_data = rows_view(data_rows@);
            let ghost pre_first = is_first;
            if is_first && appears_to_be_header(&texts) {
                header_cells = row_cells;
                is_first = false;
                proof {
                    assert(spec_collect_rows(rest, true).0 == cells_view(header_cells@));
                    assert(spec_collect_rows(rest, true).1 == spec_collect_rows(
                        table.rows@.skip(i + 1),
                        false,
                    ).1);
                }
            } else {
                data_rows.push(row_cells);
                is_first = false;
                proof {
                    assert(spec_collect_rows(rest, pre_first).0 == spec_collect_rows(
                        table.rows@.skip(i + 1),
                        false,
                    ).0);
                    assert(spec_collect_rows(rest, pre_first).1 == seq![
                        spec_row_cells(table.rows@[i as int]),
                    ] + spec_collect_rows(table.rows@.skip(i + 1), false).1);
                    assert(rows_view(data_rows@) =~= pre_data.push(
                        spec_row_cells(table.rows@[i as int]),
                    ));
                    assert(pre_data + (seq![spec_row_cells(table.rows@[i as int])]
                        + spec_collect_rows(table.rows@.skip(i + 1), false).1) =~= rows_view(
                        data_rows@,
                    ) + spec_collect_rows(table.rows@.skip(i + 1), false).1);
                    if pre_hdr.len() == 0 && !pre_first {
                        lemma_collect_no_first(rest);
                        lemma_collect_no_first(table.rows@.skip(i + 1));
                    }
                }
            }
        } else {
            proof {
                assert(spec_collect_rows(rest, is_first) == spec_collect_rows(
                    table.rows@.skip(i + 1),
                    is_first,
                ));
            }
        }
        i = i + 1;
    }
    proof {
        assert(table.rows@.skip(n as int) =~= Seq::<RawRow>::empty());
        assert(spec_collect_rows(Seq::<RawRow>::empty(), is_first).0 =~= Seq::<CellV>::empty());
        assert(spec_collect_rows(Seq::<RawRow>::empty(), is_first).1 =~= Seq::<
            Seq<CellV>,
        >::empty());
        assert(goal.1 =~= rows_view(data_rows@));
        if header_cells@.len() == 0 {
            assert(goal.0 =~= Seq::<CellV>::empty());
        }
    }
    // Promote the first data row to headers when none were detected.
    if header_cells.len() == 0 && data_rows.len() > 0 {
        let ghost pre_data = rows_view(data_rows@);
        let first_row = data_rows.remove(0);
        header_cells = first_row;
        proof {
            assert(cells_view(header_cells@) == pre_data[0]);
            assert(rows_view(data_rows@) =~= pre_data.drop_first());
        }
    }
    if header_cells.len() > 0 || data_rows.len() > 0 {
        let td = TableData::new(header_cells, data_rows);
        proof {
            let tv = spec_extract_table(*table)->0;
            assert(td@.metadata =~= tv.metadata);
            assert(td@ =~= tv);
        }
        Some(crate::models::DocumentElement::Table { table: td })
    } else {
        None
    }
}

} // verus!
