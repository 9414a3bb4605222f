//! Character-level text utilities: conversions between `String` and
//! `Vec<char>`, whitespace trimming, case folding, substring search,
//! word counting and decimal rendering, each with an exact specification.

use vstd::prelude::*;

verus! {

/// The Unicode `White_Space` code points, as trimmed by `str::trim`.
pub open spec fn is_space_char(c: char) -> bool {
    (9 <= c as u32 && c as u32 <= 13) || c as u32 == 32 || c as u32 == 0x85 || c as u32 == 0xA0
        || c as u32 == 0x1680 || (0x2000 <= c as u32 && c as u32 <= 0x200A) || c as u32 == 0x2028
        || c as u32 == 0x2029 || c as u32 == 0x202F || c as u32 == 0x205F || c as u32 == 0x3000
}

pub open spec fn is_digit_char(c: char) -> bool {
    48 <= c as u32 && c as u32 <= 57
}

pub open spec fn is_upper_ascii_char(c: char) -> bool {
    65 <= c as u32 && c as u32 <= 90
}

pub open spec fn is_lower_ascii_char(c: char) -> bool {
    97 <= c as u32 && c as u32 <= 122
}

pub open spec fn is_alpha_ascii_char(c: char) -> bool {
    is_upper_ascii_char(c) || is_lower_ascii_char(c)
}

/// ASCII punctuation, as accepted by `char::is_ascii_punctuation`.
pub open spec fn is_ascii_punct_char(c: char) -> bool {
    (33 <= c as u32 && c as u32 <= 47) || (58 <= c as u32 && c as u32 <= 64) || (91 <= c as u32
        && c as u32 <= 96) || (123 <= c as u32 && c as u32 <= 126)
}

/// ASCII-range case folding of one character.
pub open spec fn lower_char(c: char) -> char {
    if is_upper_ascii_char(c) {
        ((c as u32) + 32) as char
    } else {
        c
    }
}

pub open spec fn lower_seq(s: Seq<char>) -> Seq<char> {
    s.map_values(|c: char| lower_char(c))
}

pub open spec fn all_spaces(s: Seq<char>) -> bool {
    forall|i: int| 0 <= i < s.len() ==> is_space_char(#[trigger] s[i])
}

/// `s` with leading white space removed.
pub open spec fn trim_front(s: Seq<char>) -> Seq<char>
    decreases s.len(),
{
    if s.len() > 0 && is_space_char(s[0]) {
        trim_front(s.drop_first())
    } else {
        s
    }
}

/// `s` with trailing white space removed.
pub open spec fn trim_back(s: Seq<char>) -> Seq<char>
    decreases s.len(),
{
    if s.len() > 0 && is_space_char(s[s.len() - 1]) {
        trim_back(s.drop_last())
    } else {
        s
    }
}

/// `s` with white space removed from both ends, as `str::trim` leaves it.
pub open spec fn spec_trim(s: Seq<char>) -> Seq<char> {
    trim_back(trim_front(s))
}

/// The pattern `pat` occurs in `s` at position `i`.
pub open spec fn match_at(s: Seq<char>, pat: Seq<char>, i: int) -> bool {
    0 <= i && i + pat.len() <= s.len() && s.subrange(i, i + pat.len()) == pat
}

pub open spec fn contains_seq(s: Seq<char>, pat: Seq<char>) -> bool {
    exists|i: int| match_at(s, pat, i)
}

/// Position `i` starts a white-space-separated word of `s`.
pub open spec fn word_start_at(s: Seq<char>, i: int) -> bool {
    0 <= i < s.len() && !is_space_char(s[i]) && (i == 0 || is_space_char(s[i - 1]))
}

pub open spec fn word_count_upto(s: Seq<char>, n: int) -> int
    decreases n,
{
    if n <= 0 {
        0
    } else {
        word_count_upto(s, n - 1) + if word_start_at(s, n - 1) {
            1int
        } else {
            0int
        }
    }
}

/// The number of white-space-separated words of `s`.
pub open spec fn word_count(s: Seq<char>) -> int {
    word_count_upto(s, s.len() as int)
}

/// The decimal digit character for `d` (`0 <= d <= 9`).
pub open spec fn digit_char(d: int) -> char {
    (48 + d) as char
}

/// The decimal representation of `n`, most significant digit first.
pub open spec fn dec_rep(n: int) -> Seq<char>
    decreases n,
{
    if n < 10 {
        seq![digit_char(if n < 0 { 0int } else { n })]
    } else {
        dec_rep(n / 10).push(digit_char(n % 10))
    }
}

/// The Unicode lowercase equivalent of a character sequence. It depends
/// on the characters alone; its full value is the Unicode case mapping,
/// which no short statement captures.
pub uninterp spec fn lower_of(s: Seq<char>) -> Seq<char>;

/// Relies on `str::to_lowercase`: the lowercase equivalent depends on
/// the characters alone.
#[verifier::external_body]
pub fn lowercase(s: &str) -> (r: String)
    ensures
        r@ == lower_of(s@),
{
    s.to_lowercase()
}

/// Relies on `String::push`: appends one character to the string.
#[verifier::external_body]
pub fn push_char(s: &mut String, c: char)
    ensures
        final(s)@ == old(s)@.push(c),
{
    s.push(c)
}

/// The characters of `s`, in order.
pub fn chars_of(s: &str) -> (v: Vec<char>)
    ensures
        v@ == s@,
{
    let n = s.unicode_len();
    let mut v: Vec<char> = Vec::new();
    let mut i: usize = 0;
    while i < n
        invariant
            n == s@.len(),
            i <= n,
            v@ == s@.subrange(0, i as int),
        decreases n - i,
    {
        v.push(s.get_char(i));
        i = i + 1;
        proof {
            assert(v@ =~= s@.subrange(0, i as int));
        }
    }
    proof {
        assert(v@ =~= s@);
    }
    v
}

/// A `String` holding exactly the characters of `v`.
pub fn string_of(v: &Vec<char>) -> (s: String)
    ensures
        s@ == v@,
{
    let mut s = String::new();
    let mut i: usize = 0;
    while i < v.len()
        invariant
            i <= v@.len(),
            s@ == v@.subrange(0, i as int),
        decreases v@.len() - i,
    {
        push_char(&mut s, v[i]);
        i = i + 1;
        proof {
            assert(s@ =~= v@.subrange(0, i as int));
        }
    }
    proof {
        assert(s@ =~= v@);
    }
    s
}

pub fn is_space(c: char) -> (r: bool)
    ensures
        r == is_space_char(c),
{
    let u = c as u32;
    (9 <= u && u <= 13) || u == 32 || u == 0x85 || u == 0xA0 || u == 0x1680 || (0x2000 <= u && u
        <= 0x200A) || u == 0x2028 || u == 0x2029 || u == 0x202F || u == 0x205F || u == 0x3000
}

pub fn is_digit(c: char) -> (r: bool)
    ensures
        r == is_digit_char(c),
{
    let u = c as u32;
    48 <= u && u <= 57
}

pub fn is_upper_ascii(c: char) -> (r: bool)
    ensures
        r == is_upper_ascii_char(c),
{
    let u = c as u32;
    65 <= u && u <= 90
}

pub fn is_lower_ascii(c: char) -> (r: bool)
    ensures
        r == is_lower_ascii_char(c),
{
    let u = c as u32;
    97 <= u && u <= 122
}

pub fn is_alpha_ascii(c: char) -> (r: bool)
    ensures
        r == is_alpha_ascii_char(c),
{
    is_upper_ascii(c) || is_lower_ascii(c)
}

pub fn is_ascii_punct(c: char) -> (r: bool)
    ensures
        r == is_ascii_punct_char(c),
{
    let u = c as u32;
    (33 <= u && u <= 47) || (58 <= u && u <= 64) || (91 <= u && u <= 96) || (123 <= u && u <= 126)
}

pub fn to_lower(c: char) -> (r: char)
    ensures
        r == lower_char(c),
{
    if is_upper_ascii(c) {
        (((c as u32) + 32) as u8) as char
    } else {
        c
    }
}

/// ASCII-range case folding of a character sequence.
pub fn lower_vec(v: &Vec<char>) -> (r: Vec<char>)
    ensures
        r@ == lower_seq(v@),
{
    let mut r: Vec<char> = Vec::new();
    let mut i: usize = 0;
    while i < v.len()
        invariant
            i <= v@.len(),
            r@ == lower_seq(v@.subrange(0, i as int)),
        decreases v@.len() - i,
    {
        r.push(to_lower(v[i]));
        i = i + 1;
        proof {
            assert(r@ =~= lower_seq(v@.subrange(0, i as int)));
        }
    }
    proof {
        assert(v@.subrange(0, v@.len() as int) =~= v@);
    }
    r
}

proof fn lemma_trim_front_skip(s: Seq<char>, i: int)
    requires
        0 <= i <= s.len(),
        forall|j: int| 0 <= j < i ==> is_space_char(#[trigger] s[j]),
    ensures
        trim_front(s) == trim_front(s.subrange(i, s.len() as int)),
    decreases i,
{
    if i == 0 {
        assert(s.subrange(0, s.len() as int) =~= s);
    } else {
        assert(s.drop_first() =~= s.subrange(1, s.len() as int));
        let t = s.subrange(1, s.len() as int);
        lemma_trim_front_skip(t, i - 1);
        assert(t.subrange(i - 1, t.len() as int) =~= s.subrange(i, s.len() as int));
    }
}

proof fn lemma_trim_back_take(s: Seq<char>, i: int)
    requires
        0 <= i <= s.len(),
        forall|j: int| i <= j < s.len() ==> is_space_char(#[trigger] s[j]),
    ensures
        trim_back(s) == trim_back(s.subrange(0, i)),
    decreases s.len() - i,
{
    if i == s.len() {
        assert(s.subrange(0, i) =~= s);
    } else {
        assert(s.drop_last() =~= s.subrange(0, s.len() - 1));
        lemma_trim_back_take(s.subrange(0, s.len() - 1), i);
        assert(s.subrange(0, s.len() - 1).subrange(0, i) =~= s.subrange(0, i));
    }
}

/// `s` trimmed of leading and trailing white space.
pub fn trimmed(v: &Vec<char>) -> (r: Vec<char>)
    ensures
        r@ == spec_trim(v@),
{
    let n = v.len();
    let mut lo: usize = 0;
    loop
        invariant
            n == v@.len(),
            lo <= n,
            forall|j: int| 0 <= j < lo ==> is_space_char(#[trigger] v@[j]),
        ensures
            lo <= n,
            forall|j: int| 0 <= j < lo ==> is_space_char(#[trigger] v@[j]),
            lo == n || !is_space_char(v@[lo as int]),
        decreases n - lo,
    {
        if lo == n {
            break ;
        }
        if !is_space(v[lo]) {
            break ;
        }
        lo = lo + 1;
    }
    let mut hi: usize = n;
    loop
        invariant
            n == v@.len(),
            lo <= hi <= n,
            forall|j: int| hi <= j < n ==> is_space_char(#[trigger] v@[j]),
        ensures
            lo <= hi <= n,
            forall|j: int| hi <= j < n ==> is_space_char(#[trigger] v@[j]),
            hi == lo || !is_space_char(v@[hi - 1]),
        decreases hi,
    {
        if hi == lo {
            break ;
        }
        if !is_space(v[hi - 1]) {
            break ;
        }
        hi = hi - 1;
    }
    let mut r: Vec<char> = Vec::new();
    let mut i: usize = lo;
    while i < hi
        invariant
            lo <= i <= hi <= v@.len(),
            r@ == v@.subrange(lo as int, i as int),
        decreases hi - i,
    {
        r.push(v[i]);
        i = i + 1;
        proof {
            assert(r@ =~= v@.subrange(lo as int, i as int));
        }
    }
    proof {
        lemma_trim_front_skip(v@, lo as int);
        let t = v@.subrange(lo as int, v@.len() as int);
        if lo < hi {
            assert(t[0] == v@[lo as int]);
            assert(!is_space_char(t[0]));
            assert(trim_front(t) == t);
            lemma_trim_back_take(t, hi - lo);
            assert(t.subrange(0, hi - lo) =~= v@.subrange(lo as int, hi as int));
            assert(t.subrange(0, hi - lo)[hi - lo - 1] == v@[hi - 1]);
            assert(!is_space_char(t.subrange(0, hi - lo)[hi - lo - 1]));
            assert(trim_back(t.subrange(0, hi - lo)) == t.subrange(0, hi - lo));
        } else {
            lemma_trim_front_skip(t, t.len() as int);
            assert(t.subrange(t.len() as int, t.len() as int) =~= Seq::<char>::empty());
            assert(trim_front(t) =~= Seq::<char>::empty());
            assert(trim_back(trim_front(t)) =~= Seq::<char>::empty());
            assert(r@ =~= Seq::<char>::empty());
        }
    }
    r
}

/// `s` trimmed of leading white space only.
pub fn trimmed_front(v: &Vec<char>) -> (r: Vec<char>)
    ensures
        r@ == trim_front(v@),
{
    let n = v.len();
    let mut lo: usize = 0;
    loop
        invariant
            n == v@.len(),
            lo <= n,
            forall|j: int| 0 <= j < lo ==> is_space_char(#[trigger] v@[j]),
        ensures
            lo <= n,
            forall|j: int| 0 <= j < lo ==> is_space_char(#[trigger] v@[j]),
            lo == n || !is_space_char(v@[lo as int]),
        decreases n - lo,
    {
        if lo == n {
            break ;
        }
        if !is_space(v[lo]) {
            break ;
        }
        lo = lo + 1;
    }
    let mut r: Vec<char> = Vec::new();
    let mut i: usize = lo;
    while i < n
        invariant
            n == v@.len(),
            lo <= i <= n,
            r@ == v@.subrange(lo as int, i as int),
        decreases n - i,
    {
        r.push(v[i]);
        proof {
            assert(r@ =~= v@.subrange(lo as int, i + 1));
        }
        i = i + 1;
    }
    proof {
        lemma_trim_front_skip(v@, lo as int);
        let t = v@.subrange(lo as int, v@.len() as int);
        if lo < n {
            assert(t[0] == v@[lo as int]);
            assert(trim_front(t) == t);
        } else {
            assert(t =~= Seq::<char>::empty());
        }
        assert(r@ =~= t);
    }
    r
}

/// The characters of `v` from `lo` (inclusive) to `hi` (exclusive).
pub fn subvec(v: &Vec<char>, lo: usize, hi: usize) -> (r: Vec<char>)
    requires
        lo <= hi <= v@.len(),
    ensures
        r@ == v@.subrange(lo as int, hi as int),
{
    let mut r: Vec<char> = Vec::new();
    let mut i: usize = lo;
    while i < hi
        invariant
            lo <= i <= hi <= v@.len(),
            r@ == v@.subrange(lo as int, i as int),
        decreases hi - i,
    {
        r.push(v[i]);
        proof {
            assert(r@ =~= v@.subrange(lo as int, i + 1));
        }
        i = i + 1;
    }
    r
}

/// Whether `pat` occurs at position `i` of `v`.
fn matches_at(v: &Vec<char>, pat: &Vec<char>, i: usize) -> (r: bool)
    requires
        i + pat@.len() <= v@.len(),
    ensures
        r == match_at(v@, pat@, i as int),
{
    let m = pat.len();
    let n = v.len();
    let mut j: usize = 0;
    while j < m
        invariant
            n == v@.len(),
            i + m <= n,
            m == pat@.len(),
            j <= m,
            forall|k: int| 0 <= k < j ==> v@[i + k] == pat@[k],
        decreases m - j,
    {
        if v[i + j] != pat[j] {
            proof {
                assert(v@.subrange(i as int, i + pat@.len())[j as int] != pat@[j as int]);
            }
            return false;
        }
        j = j + 1;
    }
    proof {
        assert(v@.subrange(i as int, i + pat@.len()) =~= pat@);
    }
    true
}

/// The first position at which `pat` occurs in `v`, if any.
pub fn find_sub(v: &Vec<char>, pat: &Vec<char>) -> (r: Option<usize>)
    ensures
        match r {
            Some(i) => match_at(v@, pat@, i as int) && forall|j: int|
                0 <= j < i ==> !match_at(v@, pat@, j),
            None => forall|j: int| !match_at(v@, pat@, j),
        },
{
    if pat.len() > v.len() {
        return None;
    }
    let last = v.len() - pat.len();
    let mut i: usize = 0;
    loop
        invariant
            pat@.len() <= v@.len(),
            last == v@.len() - pat@.len(),
            i <= last,
            forall|j: int| 0 <= j < i ==> !match_at(v@, pat@, j),
        ensures
            forall|j: int| 0 <= j <= last ==> !match_at(v@, pat@, j),
        decreases last - i,
    {
        if matches_at(v, pat, i) {
            return Some(i);
        }
        if i == last {
            break ;
        }
        i = i + 1;
    }
    proof {
        assert(forall|j: int| match_at(v@, pat@, j) ==> 0 <= j <= last);
    }
    None
}

/// Whether `pat` occurs anywhere in `v`.
pub fn contains_sub(v: &Vec<char>, pat: &Vec<char>) -> (r: bool)
    ensures
        r == contains_seq(v@, pat@),
{
    let f = find_sub(v, pat);
    match f {
        Some(i) => {
            proof {
                assert(match_at(v@, pat@, i as int));
            }
            true
        },
        None => false,
    }
}

/// Whether `v` begins with `pat`.
pub fn starts_with_sub(v: &Vec<char>, pat: &Vec<char>) -> (r: bool)
    ensures
        r == match_at(v@, pat@, 0),
{
    if pat.len() > v.len() {
        return false;
    }
    matches_at(v, pat, 0)
}

/// The number of white-space-separated words in `v`.
pub fn count_words(v: &Vec<char>) -> (r: usize)
    ensures
        r == word_count(v@),
{
    let mut r: usize = 0;
    let mut i: usize = 0;
    while i < v.len()
        invariant
            i <= v@.len(),
            r == word_count_upto(v@, i as int),
            r <= i,
        decreases v@.len() - i,
    {
        let starts = if is_space(v[i]) {
            false
        } else if i == 0 {
            true
        } else {
            is_space(v[i - 1])
        };
        if starts {
            r = r + 1;
        }
        i = i + 1;
    }
    r
}

/// The decimal representation of `n`.
pub fn u32_dec(n: u32) -> (r: Vec<char>)
    ensures
        r@ == dec_rep(n as int),
    decreases n,
{
    if n < 10 {
        let c = ((48 + n) as u8) as char;
        let mut r: Vec<char> = Vec::new();
        r.push(c);
        proof {
            assert(r@ =~= dec_rep(n as int));
        }
        r
    } else {
        let mut r = u32_dec(n / 10);
        r.push(((48 + n % 10) as u8) as char);
        r
    }
}

} // verus!
