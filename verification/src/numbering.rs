//! Numbering state for lists and headings: per-`(numbering id, level)`
//! counters with hierarchical reset, number formatting in decimal, letter
//! and roman styles, and the heading auto-number tracker.

use vstd::prelude::*;

use crate::text::{dec_rep, lower_seq, lower_vec, string_of, u32_dec};

verus! {

/// The numbering styles Word uses for list levels.
#[derive(Clone, Copy, Debug, PartialEq, Eq, Structural)]
pub enum NumberingFormat {
    Decimal,
    LowerLetter,
    UpperLetter,
    LowerRoman,
    UpperRoman,
    ParenLowerLetter,
    ParenLowerRoman,
    Bullet,
}

/// The value of the roman symbol `c`, zero for any other character.
pub open spec fn roman_char_value(c: char) -> int {
    if c == 'I' {
        1
    } else if c == 'V' {
        5
    } else if c == 'X' {
        10
    } else if c == 'L' {
        50
    } else if c == 'C' {
        100
    } else if c == 'D' {
        500
    } else if c == 'M' {
        1000
    } else {
        0
    }
}

/// The value of a roman numeral read left to right with the subtractive rule.
pub open spec fn spec_roman_value(s: Seq<char>) -> int
    decreases s.len(),
{
    if s.len() == 0 {
        0
    } else if s.len() >= 2 && roman_char_value(s[0]) < roman_char_value(s[1]) {
        roman_char_value(s[1]) - roman_char_value(s[0]) + spec_roman_value(s.skip(2))
    } else {
        roman_char_value(s[0]) + spec_roman_value(s.skip(1))
    }
}

/// The subtractive-notation roman numeral for `n`, empty when `n <= 0`.
pub open spec fn spec_to_roman(n: int) -> Seq<char>
    decreases n,
{
    if n <= 0 {
        Seq::<char>::empty()
    } else if n >= 1000 {
        seq!['M'] + spec_to_roman(n - 1000)
    } else if n >= 900 {
        seq!['C', 'M'] + spec_to_roman(n - 900)
    } else if n >= 500 {
        seq!['D'] + spec_to_roman(n - 500)
    } else if n >= 400 {
        seq!['C', 'D'] + spec_to_roman(n - 400)
    } else if n >= 100 {
        seq!['C'] + spec_to_roman(n - 100)
    } else if n >= 90 {
        seq!['X', 'C'] + spec_to_roman(n - 90)
    } else if n >= 50 {
        seq!['L'] + spec_to_roman(n - 50)
    } else if n >= 40 {
        seq!['X', 'L'] + spec_to_roman(n - 40)
    } else if n >= 10 {
        seq!['X'] + spec_to_roman(n - 10)
    } else if n == 9 {
        seq!['I', 'X']
    } else if n >= 5 {
        seq!['V'] + spec_to_roman(n - 5)
    } else if n == 4 {
        seq!['I', 'V']
    } else {
        seq!['I'] + spec_to_roman(n - 1)
    }
}

/// The first symbol a greedy encoding emits is never larger than these
/// bounds, which rule out a spurious subtractive reading at a join.
proof fn lemma_roman_first_bound(n: int)
    requires
        1 <= n,
    ensures
        spec_to_roman(n).len() > 0,
        roman_char_value(spec_to_roman(n)[0]) <= 1000,
        n < 500 ==> roman_char_value(spec_to_roman(n)[0]) <= 100,
        n < 50 ==> roman_char_value(spec_to_roman(n)[0]) <= 10,
        n < 5 ==> roman_char_value(spec_to_roman(n)[0]) <= 1,
{
    if n >= 1000 {
        assert(spec_to_roman(n)[0] == 'M');
    } else if n >= 900 {
        assert(spec_to_roman(n)[0] == 'C');
    } else if n >= 500 {
        assert(spec_to_roman(n)[0] == 'D');
    } else if n >= 400 {
        assert(spec_to_roman(n)[0] == 'C');
    } else if n >= 100 {
        assert(spec_to_roman(n)[0] == 'C');
    } else if n >= 90 {
        assert(spec_to_roman(n)[0] == 'X');
    } else if n >= 50 {
        assert(spec_to_roman(n)[0] == 'L');
    } else if n >= 40 {
        assert(spec_to_roman(n)[0] == 'X');
    } else if n >= 10 {
        assert(spec_to_roman(n)[0] == 'X');
    } else if n == 9 {
        assert(spec_to_roman(n)[0] == 'I');
    } else if n >= 5 {
        assert(spec_to_roman(n)[0] == 'V');
    } else if n == 4 {
        assert(spec_to_roman(n)[0] == 'I');
    } else {
        assert(spec_to_roman(n)[0] == 'I');
    }
}

/// Reading a one-symbol prefix adds its value when what follows starts
/// with a symbol of no greater value.
proof fn lemma_roman_value_prefix1(c: char, rest: Seq<char>)
    requires
        rest.len() > 0 ==> roman_char_value(rest[0]) <= roman_char_value(c),
    ensures
        spec_roman_value(seq![c] + rest) == roman_char_value(c) + spec_roman_value(rest),
{
    let s = seq![c] + rest;
    assert(s[0] == c);
    if rest.len() > 0 {
        assert(s[1] == rest[0]);
    }
    assert(s.skip(1) =~= rest);
}

/// Reading a subtractive pair adds its combined value.
proof fn lemma_roman_value_prefix2(c0: char, c1: char, rest: Seq<char>)
    requires
        roman_char_value(c0) < roman_char_value(c1),
    ensures
        spec_roman_value(seq![c0, c1] + rest) == roman_char_value(c1) - roman_char_value(c0)
            + spec_roman_value(rest),
{
    let s = seq![c0, c1] + rest;
    assert(s[0] == c0);
    assert(s[1] == c1);
    assert(s.skip(2) =~= rest);
}

/// Reading back the encoding of `n` with the subtractive rule gives `n`:
/// the encoder and the standard table agree on every value up to 3999.
pub proof fn lemma_roman_round_trip(n: int)
    requires
        1 <= n <= 3999,
    ensures
        spec_roman_value(spec_to_roman(n)) == n,
    decreases n,
{
    if n >= 1000 {
        if n - 1000 >= 1 {
            lemma_roman_round_trip(n - 1000);
            lemma_roman_first_bound(n - 1000);
        }
        lemma_roman_value_prefix1('M', spec_to_roman(n - 1000));
    } else if n >= 900 {
        if n - 900 >= 1 {
            lemma_roman_round_trip(n - 900);
            lemma_roman_first_bound(n - 900);
        }
        lemma_roman_value_prefix2('C', 'M', spec_to_roman(n - 900));
        assert(seq!['C', 'M'] + spec_to_roman(n - 900) =~= spec_to_roman(n));
    } else if n >= 500 {
        if n - 500 >= 1 {
            lemma_roman_round_trip(n - 500);
            lemma_roman_first_bound(n - 500);
        }
        lemma_roman_value_prefix1('D', spec_to_roman(n - 500));
    } else if n >= 400 {
        if n - 400 >= 1 {
            lemma_roman_round_trip(n - 400);
            lemma_roman_first_bound(n - 400);
        }
        lemma_roman_value_prefix2('C', 'D', spec_to_roman(n - 400));
        assert(seq!['C', 'D'] + spec_to_roman(n - 400) =~= spec_to_roman(n));
    } else if n >= 100 {
        if n - 100 >= 1 {
            lemma_roman_round_trip(n - 100);
            lemma_roman_first_bound(n - 100);
        }
        lemma_roman_value_prefix1('C', spec_to_roman(n - 100));
    } else if n >= 90 {
        if n - 90 >= 1 {
            lemma_roman_round_trip(n - 90);
            lemma_roman_first_bound(n - 90);
        }
        lemma_roman_value_prefix2('X', 'C', spec_to_roman(n - 90));
        assert(seq!['X', 'C'] + spec_to_roman(n - 90) =~= spec_to_roman(n));
    } else if n >= 50 {
        if n - 50 >= 1 {
            lemma_roman_round_trip(n - 50);
            lemma_roman_first_bound(n - 50);
        }
        lemma_roman_value_prefix1('L', spec_to_roman(n - 50));
    } else if n >= 40 {
        if n - 40 >= 1 {
            lemma_roman_round_trip(n - 40);
            lemma_roman_first_bound(n - 40);
        }
        lemma_roman_value_prefix2('X', 'L', spec_to_roman(n - 40));
        assert(seq!['X', 'L'] + spec_to_roman(n - 40) =~= spec_to_roman(n));
    } else if n >= 10 {
        if n - 10 >= 1 {
            lemma_roman_round_trip(n - 10);
            lemma_roman_first_bound(n - 10);
        }
        lemma_roman_value_prefix1('X', spec_to_roman(n - 10));
    } else if n == 9 {
        assert(spec_roman_value(Seq::<char>::empty()) == 0);
        assert(seq!['I', 'X'].skip(2) =~= Seq::<char>::empty());
        assert(spec_roman_value(seq!['I', 'X']) == 9);
    } else if n >= 5 {
        if n - 5 >= 1 {
            lemma_roman_round_trip(n - 5);
            lemma_roman_first_bound(n - 5);
        }
        lemma_roman_value_prefix1('V', spec_to_roman(n - 5));
    } else if n == 4 {
        assert(spec_roman_value(Seq::<char>::empty()) == 0);
        assert(seq!['I', 'V'].skip(2) =~= Seq::<char>::empty());
        assert(spec_roman_value(seq!['I', 'V']) == 4);
    } else {
        if n - 1 >= 1 {
            lemma_roman_round_trip(n - 1);
            lemma_roman_first_bound(n - 1);
        }
        lemma_roman_value_prefix1('I', spec_to_roman(n - 1));
    }
}

/// One `(numbering id, level)` counter.
struct CounterEntry {
    num_id: i32,
    level: u8,
    count: u32,
}

pub open spec fn entry_key(num_id: i32, level: u8) -> (int, int) {
    (num_id as int, level as int)
}

spec fn ekey(e: CounterEntry) -> (int, int) {
    (e.num_id as int, e.level as int)
}

spec fn entries_wf(s: Seq<CounterEntry>) -> bool {
    forall|i: int, j: int| 0 <= i < j < s.len() ==> ekey(s[i]) != ekey(s[j])
}

spec fn map_of(s: Seq<CounterEntry>) -> Map<(int, int), u32>
    decreases s.len(),
{
    if s.len() == 0 {
        Map::<(int, int), u32>::empty()
    } else {
        map_of(s.drop_last()).insert(ekey(s.last()), s.last().count)
    }
}

proof fn lemma_map_of_absent(s: Seq<CounterEntry>, k: (int, int))
    requires
        forall|i: int| 0 <= i < s.len() ==> ekey(#[trigger] s[i]) != k,
    ensures
        !map_of(s).contains_key(k),
    decreases s.len(),
{
    if s.len() > 0 {
        assert(ekey(s.last()) != k);
        lemma_map_of_absent(s.drop_last(), k);
    }
}

proof fn lemma_map_of_index(s: Seq<CounterEntry>, j: int)
    requires
        entries_wf(s),
        0 <= j < s.len(),
    ensures
        map_of(s).contains_key(ekey(s[j])),
        map_of(s)[ekey(s[j])] == s[j].count,
    decreases s.len(),
{
    if j == s.len() - 1 {
    } else {
        assert(entries_wf(s.drop_last()));
        lemma_map_of_index(s.drop_last(), j);
        assert(ekey(s.last()) != ekey(s[j]));
    }
}

proof fn lemma_map_of_update(s: Seq<CounterEntry>, j: int, e: CounterEntry)
    requires
        entries_wf(s),
        0 <= j < s.len(),
        ekey(e) == ekey(s[j]),
    ensures
        entries_wf(s.update(j, e)),
        map_of(s.update(j, e)) == map_of(s).insert(ekey(e), e.count),
    decreases s.len(),
{
    let s2 = s.update(j, e);
    assert(entries_wf(s2));
    if j == s.len() - 1 {
        assert(s2.drop_last() =~= s.drop_last());
        assert(s2.last() == e);
    } else {
        assert(s2.drop_last() =~= s.drop_last().update(j, e));
        assert(entries_wf(s.drop_last()));
        lemma_map_of_update(s.drop_last(), j, e);
        assert(s2.last() == s.last());
        assert(ekey(s.last()) != ekey(e));
        assert(map_of(s.drop_last()).insert(ekey(e), e.count).insert(
            ekey(s.last()),
            s.last().count,
        ) =~= map_of(s.drop_last()).insert(ekey(s.last()), s.last().count).insert(
            ekey(e),
            e.count,
        ));
    }
}

/// Keep only the entries of `num_id` at levels no deeper than `level`,
/// and every entry of other ids.
spec fn keep_entry(e: CounterEntry, num_id: i32, level: u8) -> bool {
    !(e.num_id == num_id && e.level > level)
}

/// For one key `k`: how a reset of `num_id`'s levels deeper than `level`
/// changes the counter map — deeper keys vanish, all others are kept.
pub open spec fn reset_key_ok(
    m_old: Map<(int, int), u32>,
    m_new: Map<(int, int), u32>,
    num_id: i32,
    level: u8,
    k: (int, int),
) -> bool {
    if k.0 == num_id as int && k.1 > level as int {
        !m_new.contains_key(k)
    } else {
        m_new.contains_key(k) == m_old.contains_key(k) && (m_old.contains_key(k) ==> m_new[k]
            == m_old[k])
    }
}

/// For one key `k`: how `generate_number` changes the counter map — the
/// incremented key is present with its new count, deeper keys of the same
/// id vanish, and every other key is kept unchanged.
pub open spec fn generate_key_ok(
    m_old: Map<(int, int), u32>,
    m_new: Map<(int, int), u32>,
    num_id: i32,
    level: u8,
    k: (int, int),
) -> bool {
    if k == entry_key(num_id, level) {
        m_new.contains_key(k) && m_new[k] as int == new_count(m_old, num_id, level)
    } else {
        reset_key_ok(m_old, m_new, num_id, level, k)
    }
}

/// The subsequence of entries that survive a reset of deeper levels.
spec fn kept_entries(s: Seq<CounterEntry>, num_id: i32, level: u8) -> Seq<CounterEntry>
    decreases s.len(),
{
    if s.len() == 0 {
        s
    } else {
        let rest = kept_entries(s.drop_last(), num_id, level);
        if keep_entry(s.last(), num_id, level) {
            rest.push(s.last())
        } else {
            rest
        }
    }
}

proof fn lemma_entries_wf_push(s: Seq<CounterEntry>, e: CounterEntry)
    requires
        entries_wf(s),
        forall|i: int| 0 <= i < s.len() ==> ekey(#[trigger] s[i]) != ekey(e),
    ensures
        entries_wf(s.push(e)),
{
    let s2 = s.push(e);
    assert forall|i: int, j: int| 0 <= i < j < s2.len() implies ekey(s2[i]) != ekey(s2[j]) by {
        if j < s.len() {
            assert(s2[i] == s[i]);
            assert(s2[j] == s[j]);
        } else {
            assert(s2[i] == s[i]);
            assert(s2[j] == e);
        }
    }
}

/// Every entry the reset keeps satisfies the keep predicate, and the
/// kept entries still have pairwise distinct keys.
proof fn lemma_kept_wf(s: Seq<CounterEntry>, num_id: i32, level: u8)
    requires
        entries_wf(s),
    ensures
        entries_wf(kept_entries(s, num_id, level)),
        forall|j: int|
            0 <= j < kept_entries(s, num_id, level).len() ==> keep_entry(
                #[trigger] kept_entries(s, num_id, level)[j],
                num_id,
                level,
            ),
    decreases s.len(),
{
    if s.len() > 0 {
        let dl = s.drop_last();
        let last = s.last();
        assert(entries_wf(dl));
        lemma_kept_wf(dl, num_id, level);
        let kd = kept_entries(dl, num_id, level);
        if keep_entry(last, num_id, level) {
            assert forall|j: int| 0 <= j < kd.len() implies ekey(#[trigger] kd[j]) != ekey(last) by {
                if ekey(kd[j]) == ekey(last) {
                    lemma_map_of_index(kd, j);
                    lemma_kept_key(dl, num_id, level, ekey(last));
                    assert(map_of(dl).contains_key(ekey(last)));
                    let j2 = lemma_map_of_key_index(dl, ekey(last));
                    assert(ekey(s[j2]) == ekey(s[s.len() - 1]));
                    assert(false);
                }
            }
            lemma_entries_wf_push(kd, last);
            assert forall|j: int|
                0 <= j < kept_entries(s, num_id, level).len() implies keep_entry(
                #[trigger] kept_entries(s, num_id, level)[j],
                num_id,
                level,
            ) by {
                if j < kd.len() {
                    assert(kept_entries(s, num_id, level)[j] == kd[j]);
                } else {
                    assert(kept_entries(s, num_id, level)[j] == last);
                }
            }
        }
    }
}

/// For one key, the reset map agrees with the old map off the deeper
/// range and has no key in it.
proof fn lemma_kept_key(s: Seq<CounterEntry>, num_id: i32, level: u8, k: (int, int))
    requires
        entries_wf(s),
    ensures
        k.0 == num_id as int && k.1 > level as int ==> !map_of(
            kept_entries(s, num_id, level),
        ).contains_key(k),
        !(k.0 == num_id as int && k.1 > level as int) ==> (map_of(
            kept_entries(s, num_id, level),
        ).contains_key(k) == map_of(s).contains_key(k) && (map_of(s).contains_key(k) ==> map_of(
            kept_entries(s, num_id, level),
        )[k] == map_of(s)[k])),
    decreases s.len(),
{
    if s.len() > 0 {
        let dl = s.drop_last();
        let last = s.last();
        assert(entries_wf(dl));
        lemma_kept_key(dl, num_id, level, k);
        let kd = kept_entries(dl, num_id, level);
        let ks = kept_entries(s, num_id, level);
        assert(map_of(s) == map_of(dl).insert(ekey(last), last.count));
        if keep_entry(last, num_id, level) {
            assert(ks == kd.push(last));
            assert(ks.drop_last() =~= kd);
            assert(ks.last() == last);
            assert(map_of(ks) == map_of(kd).insert(ekey(last), last.count));
        } else {
            assert(ks == kd);
            assert(ekey(last).0 == num_id as int && ekey(last).1 > level as int);
        }
    }
}

/// Manages per-`(numbering id, level)` counters for sequential list
/// numbering, with hierarchical reset of deeper levels.
pub struct DocumentNumberingManager {
    entries: Vec<CounterEntry>,
}

impl View for DocumentNumberingManager {
    type V = Map<(int, int), u32>;

    closed spec fn view(&self) -> Map<(int, int), u32> {
        map_of(self.entries@)
    }
}

/// The counter a map holds for a key, zero where the key is absent.
pub open spec fn count_at(m: Map<(int, int), u32>, k: (int, int)) -> int {
    if m.contains_key(k) {
        m[k] as int
    } else {
        0
    }
}

/// The format of a number as one counter value renders it.
pub open spec fn spec_format_number(c: int, format: NumberingFormat) -> Seq<char> {
    match format {
        NumberingFormat::Decimal => dec_rep(c) + seq!['.', ' '],
        NumberingFormat::LowerLetter => if 1 <= c <= 26 {
            seq![((96 + c) as char), '.', ' ']
        } else {
            dec_rep(c) + seq!['.', ' ']
        },
        NumberingFormat::UpperLetter => if 1 <= c <= 26 {
            seq![((64 + c) as char), '.', ' ']
        } else {
            dec_rep(c) + seq!['.', ' ']
        },
        NumberingFormat::LowerRoman => lower_seq(spec_to_roman(c)) + seq!['.', ' '],
        NumberingFormat::UpperRoman => spec_to_roman(c) + seq!['.', ' '],
        NumberingFormat::ParenLowerLetter => if 1 <= c <= 26 {
            seq!['(', ((96 + c) as char), ')']
        } else {
            seq!['('] + dec_rep(c) + seq![')']
        },
        NumberingFormat::ParenLowerRoman => seq!['('] + lower_seq(spec_to_roman(c)) + seq![')'],
        NumberingFormat::Bullet => seq!['*', ' '],
    }
}

/// The hierarchical composite used for the known `(4, 1)` pair: the
/// parent counter, a dot, the current counter, then `". "`.
pub open spec fn spec_hier_number(parent: Option<u32>, c: int) -> Seq<char> {
    match parent {
        Some(p) => dec_rep(p as int) + seq!['.'] + dec_rep(c) + seq!['.', ' '],
        None => dec_rep(c) + seq!['.', ' '],
    }
}

/// What `generate_number` returns, given the state before the call.
pub open spec fn spec_generated_number(
    m_old: Map<(int, int), u32>,
    num_id: i32,
    level: u8,
    format: NumberingFormat,
) -> Seq<char> {
    let newc = new_count(m_old, num_id, level);
    if num_id == 4 && level == 1 {
        if m_old.contains_key((4, 0)) {
            spec_hier_number(Some(m_old[(4, 0)]), newc)
        } else {
            spec_hier_number(None, newc)
        }
    } else {
        spec_format_number(newc, format)
    }
}

/// The whole counter map after one `generate_number` call: the key's
/// counter incremented, strictly deeper keys of the same id gone, every
/// other key untouched.
pub open spec fn after_generate(
    m: Map<(int, int), u32>,
    num_id: i32,
    level: u8,
) -> Map<(int, int), u32> {
    Map::new(
        |k: (int, int)|
            k == entry_key(num_id, level) || (m.contains_key(k) && !(k.0 == num_id as int && k.1
                > level as int)),
        |k: (int, int)|
            if k == entry_key(num_id, level) {
                new_count(m, num_id, level) as u32
            } else {
                m[k]
            },
    )
}

/// The counter value after one increment of `(num_id, level)`.
pub open spec fn new_count(m_old: Map<(int, int), u32>, num_id: i32, level: u8) -> int {
    let oldc = count_at(m_old, entry_key(num_id, level));
    if oldc < u32::MAX {
        oldc + 1
    } else {
        oldc
    }
}

impl DocumentNumberingManager {
    pub closed spec fn wf(&self) -> bool {
        entries_wf(self.entries@)
    }

    /// A fresh manager, with every counter absent.
    pub fn new() -> (r: Self)
        ensures
            r.wf(),
            r@ == Map::<(int, int), u32>::empty(),
    {
        DocumentNumberingManager { entries: Vec::new() }
    }

    /// The roman numeral for `num` in subtractive notation.
    pub fn to_roman(num: u32) -> (r: String)
        ensures
            r@ == spec_to_roman(num as int),
    {
        let v = Self::roman_chars(num);
        string_of(&v)
    }

    fn roman_chars(num: u32) -> (r: Vec<char>)
        ensures
            r@ == spec_to_roman(num as int),
    {
        let mut r: Vec<char> = Vec::new();
        let mut n: u32 = num;
        while n > 0
            invariant
                spec_to_roman(num as int) == r@ + spec_to_roman(n as int),
            decreases n,
        {
            let ghost r0 = r@;
            let ghost n0 = n as int;
            if n >= 1000 {
                r.push('M');
                n = n - 1000;
                proof {
                    assert(spec_to_roman(n0) == seq!['M'] + spec_to_roman(n as int));
                    assert(r0 + (seq!['M'] + spec_to_roman(n as int)) =~= r@ + spec_to_roman(
                        n as int,
                    ));
                }
            } else if n >= 900 {
                r.push('C');
                r.push('M');
                n = n - 900;
                proof {
                    assert(spec_to_roman(n0) == seq!['C', 'M'] + spec_to_roman(n as int));
                    assert(r0 + (seq!['C', 'M'] + spec_to_roman(n as int)) =~= r@ + spec_to_roman(
                        n as int,
                    ));
                }
            } else if n >= 500 {
                r.push('D');
                n = n - 500;
                proof {
                    assert(spec_to_roman(n0) == seq!['D'] + spec_to_roman(n as int));
                    assert(r0 + (seq!['D'] + spec_to_roman(n as int)) =~= r@ + spec_to_roman(
                        n as int,
                    ));
                }
            } else if n >= 400 {
                r.push('C');
                r.push('D');
                n = n - 400;
                proof {
                    assert(spec_to_roman(n0) == seq!['C', 'D'] + spec_to_roman(n as int));
                    assert(r0 + (seq!['C', 'D'] + spec_to_roman(n as int)) =~= r@ + spec_to_roman(
                        n as int,
                    ));
                }
            } else if n >= 100 {
                r.push('C');
                n = n - 100;
                proof {
                    assert(spec_to_roman(n0) == seq!['C'] + spec_to_roman(n as int));
                    assert(r0 + (seq!['C'] + spec_to_roman(n as int)) =~= r@ + spec_to_roman(
                        n as int,
                    ));
                }
            } else if n >= 90 {
                r.push('X');
                r.push('C');
                n = n - 90;
                proof {
                    assert(spec_to_roman(n0) == seq!['X', 'C'] + spec_to_roman(n as int));
                    assert(r0 + (seq!['X', 'C'] + spec_to_roman(n as int)) =~= r@ + spec_to_roman(
                        n as int,
                    ));
                }
            } else if n >= 50 {
                r.push('L');
                n = n - 50;
                proof {
                    assert(spec_to_roman(n0) == seq!['L'] + spec_to_roman(n as int));
                    assert(r0 + (seq!['L'] + spec_to_roman(n as int)) =~= r@ + spec_to_roman(
                        n as int,
                    ));
                }
            } else if n >= 40 {
                r.push('X');
                r.push('L');
                n = n - 40;
                proof {
                    assert(spec_to_roman(n0) == seq!['X', 'L'] + spec_to_roman(n as int));
                    assert(r0 + (seq!['X', 'L'] + spec_to_roman(n as int)) =~= r@ + spec_to_roman(
                        n as int,
                    ));
                }
            } else if n >= 10 {
                r.push('X');
                n = n - 10;
                proof {
                    assert(spec_to_roman(n0) == seq!['X'] + spec_to_roman(n as int));
                    assert(r0 + (seq!['X'] + spec_to_roman(n as int)) =~= r@ + spec_to_roman(
                        n as int,
                    ));
                }
            } else if n == 9 {
                r.push('I');
                r.push('X');
                n = 0;
                proof {
                    assert(spec_to_roman(n0) == seq!['I', 'X']);
                    assert(seq!['I', 'X'] =~= seq!['I', 'X'] + spec_to_roman(0));
                    assert(r0 + (seq!['I', 'X'] + spec_to_roman(0)) =~= r@ + spec_to_roman(
                        n as int,
                    ));
                }
            } else if n >= 5 {
                r.push('V');
                n = n - 5;
                proof {
                    assert(spec_to_roman(n0) == seq!['V'] + spec_to_roman(n as int));
                    assert(r0 + (seq!['V'] + spec_to_roman(n as int)) =~= r@ + spec_to_roman(
                        n as int,
                    ));
                }
            } else if n == 4 {
                r.push('I');
                r.push('V');
                n = 0;
                proof {
                    assert(spec_to_roman(n0) == seq!['I', 'V']);
                    assert(seq!['I', 'V'] =~= seq!['I', 'V'] + spec_to_roman(0));
                    assert(r0 + (seq!['I', 'V'] + spec_to_roman(0)) =~= r@ + spec_to_roman(
                        n as int,
                    ));
                }
            } else {
                r.push('I');
                n = n - 1;
                proof {
                    assert(spec_to_roman(n0) == seq!['I'] + spec_to_roman(n as int));
                    assert(r0 + (seq!['I'] + spec_to_roman(n as int)) =~= r@ + spec_to_roman(
                        n as int,
                    ));
                }
            }
        }
        proof {
            assert(r@ + spec_to_roman(0) =~= r@);
        }
        r
    }

    /// Renders one counter value in the given style.
    pub fn format_number(&self, counter: u32, format: NumberingFormat) -> (r: String)
        ensures
            r@ == spec_format_number(counter as int, format),
    {
        let mut v: Vec<char> = Vec::new();
        match format {
            NumberingFormat::Decimal => {
                let mut d = u32_dec(counter);
                v.append(&mut d);
                v.push('.');
                v.push(' ');
                proof {
                    assert(v@ =~= spec_format_number(counter as int, format));
                }
            },
            NumberingFormat::LowerLetter => {
                if 1 <= counter && counter <= 26 {
                    v.push(((96 + counter) as u8) as char);
                    v.push('.');
                    v.push(' ');
                } else {
                    let mut d = u32_dec(counter);
                    v.append(&mut d);
                    v.push('.');
                    v.push(' ');
                }
                proof {
                    assert(v@ =~= spec_format_number(counter as int, format));
                }
            },
            NumberingFormat::UpperLetter => {
                if 1 <= counter && counter <= 26 {
                    v.push(((64 + counter) as u8) as char);
                    v.push('.');
                    v.push(' ');
                } else {
                    let mut d = u32_dec(counter);
                    v.append(&mut d);
                    v.push('.');
                    v.push(' ');
                }
                proof {
                    assert(v@ =~= spec_format_number(counter as int, format));
                }
            },
            NumberingFormat::LowerRoman => {
                let rc = Self::roman_chars(counter);
                let mut lower = lower_vec(&rc);
                v.append(&mut lower);
                v.push('.');
                v.push(' ');
                proof {
                    assert(v@ =~= spec_format_number(counter as int, format));
                }
            },
            NumberingFormat::UpperRoman => {
                let mut rc = Self::roman_chars(counter);
                v.append(&mut rc);
                v.push('.');
                v.push(' ');
                proof {
                    assert(v@ =~= spec_format_number(counter as int, format));
                }
            },
            NumberingFormat::ParenLowerLetter => {
                v.push('(');
                if 1 <= counter && counter <= 26 {
                    v.push(((96 + counter) as u8) as char);
                } else {
                    let mut d = u32_dec(counter);
                    v.append(&mut d);
                }
                v.push(')');
                proof {
                    assert(v@ =~= spec_format_number(counter as int, format));
                }
            },
            NumberingFormat::ParenLowerRoman => {
                v.push('(');
                let rc = Self::roman_chars(counter);
                let mut lower = lower_vec(&rc);
                v.append(&mut lower);
                v.push(')');
                proof {
                    assert(v@ =~= spec_format_number(counter as int, format));
                }
            },
            NumberingFormat::Bullet => {
                v.push('*');
                v.push(' ');
                proof {
                    assert(v@ =~= spec_format_number(counter as int, format));
                }
            },
        }
        string_of(&v)
    }

    fn find_entry(&self, num_id: i32, level: u8) -> (r: Option<usize>)
        requires
            self.wf(),
        ensures
            match r {
                Some(j) => j < self.entries@.len() && ekey(self.entries@[j as int]) == entry_key(
                    num_id,
                    level,
                ),
                None => forall|i: int|
                    0 <= i < self.entries@.len() ==> ekey(#[trigger] self.entries@[i])
                        != entry_key(num_id, level),
            },
    {
        let mut i: usize = 0;
        let n = self.entries.len();
        while i < n
            invariant
                n == self.entries@.len(),
                i <= n,
                forall|j: int|
                    0 <= j < i ==> ekey(#[trigger] self.entries@[j]) != entry_key(num_id, level),
            decreases n - i,
        {
            if self.entries[i].num_id == num_id && self.entries[i].level == level {
                return Some(i);
            }
            i = i + 1;
        }
        None
    }

    /// Removes every counter of `num_id` strictly deeper than
    /// `current_level`, leaving all other counters unchanged.
    pub fn reset_deeper_levels(&mut self, num_id: i32, current_level: u8)
        requires
            old(self).wf(),
        ensures
            final(self).wf(),
            forall|k: (int, int)|
                #[trigger] reset_key_ok(old(self)@, final(self)@, num_id, current_level, k),
    {
        let ghost s_old = self.entries@;
        let mut out: Vec<CounterEntry> = Vec::new();
        let mut i: usize = 0;
        let n = self.entries.len();
        while i < n
            invariant
                n == self.entries@.len(),
                self.entries@ == s_old,
                i <= n,
                out@ == kept_entries(s_old.subrange(0, i as int), num_id, current_level),
            decreases n - i,
        {
            let ghost pre = s_old.subrange(0, i as int);
            let ghost post = s_old.subrange(0, i + 1);
            let e = &self.entries[i];
            let keep = !(e.num_id == num_id && e.level > current_level);
            if keep {
                out.push(CounterEntry { num_id: e.num_id, level: e.level, count: e.count });
            }
            proof {
                assert(post.drop_last() =~= pre);
                assert(post.last() == s_old[i as int]);
                if keep {
                    assert(out@.drop_last() =~= kept_entries(pre, num_id, current_level));
                    assert(out@.last() == s_old[i as int]);
                    assert(out@ =~= kept_entries(pre, num_id, current_level).push(
                        s_old[i as int],
                    ));
                }
                assert(out@ == kept_entries(post, num_id, current_level));
            }
            i = i + 1;
        }
        proof {
            assert(s_old.subrange(0, n as int) =~= s_old);
            assert(out@ == kept_entries(s_old, num_id, current_level));
            lemma_kept_wf(s_old, num_id, current_level);
        }
        self.entries = out;
        proof {
            assert(self@ == map_of(kept_entries(s_old, num_id, current_level)));
            assert(old(self)@ == map_of(s_old));
            assert forall|k: (int, int)|
                #[trigger] reset_key_ok(old(self)@, self@, num_id, current_level, k) by {
                lemma_kept_key(s_old, num_id, current_level, k);
            }
        }
    }


    /// Increments the counter of `(num_id, level)`, resets every counter
    /// of the same id at a strictly deeper level, and renders the number.
    pub fn generate_number(&mut self, num_id: i32, level: u8, format: NumberingFormat) -> (r:
        String)
        requires
            old(self).wf(),
        ensures
            final(self).wf(),
            forall|k: (int, int)|
                #[trigger] generate_key_ok(old(self)@, final(self)@, num_id, level, k),
            final(self)@ == after_generate(old(self)@, num_id, level),
            r@ == spec_generated_number(old(self)@, num_id, level, format),
    {
        let ghost m_old = self@;
        // Increment the counter for this key, creating it at one.
        let found = self.find_entry(num_id, level);
        let counter_value: u32;
        match found {
            Some(j) => {
                proof {
                    lemma_map_of_index(self.entries@, j as int);
                }
                let c = self.entries[j].count;
                let c2: u32 = if c < u32::MAX {
                    c + 1
                } else {
                    c
                };
                let e = CounterEntry { num_id, level, count: c2 };
                proof {
                    lemma_map_of_update(self.entries@, j as int, e);
                }
                self.entries.set(j, e);
                counter_value = c2;
            },
            None => {
                proof {
                    lemma_map_of_absent(self.entries@, entry_key(num_id, level));
                    lemma_entries_wf_push(
                        self.entries@,
                        CounterEntry { num_id, level, count: 1 },
                    );
                }
                let ghost s_before = self.entries@;
                self.entries.push(CounterEntry { num_id, level, count: 1 });
                proof {
                    assert(self.entries@.drop_last() =~= s_before);
                }
                counter_value = 1;
            },
        }
        proof {
            assert(self.wf());
            assert(self@ == m_old.insert(entry_key(num_id, level), counter_value));
        }
        // Reset all deeper levels of this id.
        let ghost m_mid = self@;
        self.reset_deeper_levels(num_id, level);
        proof {
            assert forall|k: (int, int)|
                #[trigger] generate_key_ok(m_old, self@, num_id, level, k) by {
                assert(reset_key_ok(m_mid, self@, num_id, level, k));
                if k == entry_key(num_id, level) {
                    assert(m_mid.contains_key(k) && m_mid[k] == counter_value);
                } else if !(k.0 == num_id as int && k.1 > level as int) {
                    assert(m_mid.contains_key(k) == m_old.contains_key(k));
                }
            }
        }
        proof {
            let m2 = after_generate(m_old, num_id, level);
            assert forall|k: (int, int)| #[trigger] self@.dom().contains(k) == m2.dom().contains(
                k,
            ) by {
                assert(generate_key_ok(m_old, self@, num_id, level, k));
            }
            assert(self@.dom() =~= m2.dom());
            assert forall|k: (int, int)| self@.dom().contains(k) implies #[trigger] self@[k]
                == m2[k] by {
                assert(generate_key_ok(m_old, self@, num_id, level, k));
            }
            assert(self@ =~= m2);
        }
        // Render, hierarchically for the known composite pair.
        proof {
            if num_id == 4 && level == 1 {
                assert(generate_key_ok(m_old, self@, num_id, level, (4int, 0int)));
                assert(self@.contains_key((4int, 0int)) == m_old.contains_key((4int, 0int)));
            }
        }
        self.format_hierarchical_number(num_id, level, counter_value, format)
    }

    /// Renders a counter, composing the parent counter in front for the
    /// known hierarchical `(4, 1)` pair.
    pub fn format_hierarchical_number(
        &self,
        num_id: i32,
        level: u8,
        counter: u32,
        format: NumberingFormat,
    ) -> (r: String)
        requires
            self.wf(),
        ensures
            r@ == if num_id == 4 && level == 1 {
                if self@.contains_key((4, 0)) {
                    spec_hier_number(Some(self@[(4, 0)]), counter as int)
                } else {
                    spec_hier_number(None, counter as int)
                }
            } else {
                spec_format_number(counter as int, format)
            },
    {
        if num_id == 4 && level == 1 {
            let parent = self.find_entry(4, 0);
            let mut v: Vec<char> = Vec::new();
            match parent {
                Some(j) => {
                    proof {
                        lemma_map_of_index(self.entries@, j as int);
                    }
                    let mut p = u32_dec(self.entries[j].count);
                    v.append(&mut p);
                    v.push('.');
                },
                None => {
                    proof {
                        lemma_map_of_absent(self.entries@, (4, 0));
                    }
                },
            }
            let mut c = u32_dec(counter);
            v.append(&mut c);
            v.push('.');
            v.push(' ');
            proof {
                if self@.contains_key((4, 0)) {
                    assert(v@ =~= spec_hier_number(Some(self@[(4, 0)]), counter as int));
                } else {
                    assert(v@ =~= spec_hier_number(None, counter as int));
                }
            }
            string_of(&v)
        } else {
            self.format_number(counter, format)
        }
    }
}

/// Numbering is monotone: as long as a counter has room, each call for
/// the same `(numbering id, level)` leaves a counter strictly greater
/// than before, and every counter of the same id at a deeper level is
/// absent afterwards.
pub proof fn lemma_generate_monotonic(
    m_old: Map<(int, int), u32>,
    m_new: Map<(int, int), u32>,
    num_id: i32,
    level: u8,
)
    requires
        forall|k: (int, int)| #[trigger] generate_key_ok(m_old, m_new, num_id, level, k),
        count_at(m_old, entry_key(num_id, level)) < u32::MAX,
    ensures
        m_new.contains_key(entry_key(num_id, level)),
        m_new[entry_key(num_id, level)] > count_at(m_old, entry_key(num_id, level)),
        forall|k: (int, int)|
            k.0 == num_id as int && k.1 > level as int ==> !m_new.contains_key(k),
{
    assert(generate_key_ok(m_old, m_new, num_id, level, entry_key(num_id, level)));
    assert forall|k: (int, int)|
        k.0 == num_id as int && k.1 > level as int implies !m_new.contains_key(k) by {
        assert(generate_key_ok(m_old, m_new, num_id, level, k));
    }
}

/// After a shallower level is incremented, the next number drawn at any
/// strictly deeper level of the same id restarts at one: the reset left
/// the deeper counter absent.
pub proof fn lemma_reset_restarts_deeper(
    m_old: Map<(int, int), u32>,
    m_new: Map<(int, int), u32>,
    num_id: i32,
    level: u8,
    deeper: u8,
)
    requires
        forall|k: (int, int)| #[trigger] generate_key_ok(m_old, m_new, num_id, level, k),
        deeper > level,
    ensures
        new_count(m_new, num_id, deeper) == 1,
{
    assert(generate_key_ok(m_old, m_new, num_id, level, entry_key(num_id, deeper)));
    assert(!m_new.contains_key(entry_key(num_id, deeper)));
}

/// The slot index the tracker uses for a heading level: levels 1 to 6
/// map to slots 0 to 5; level 0 and levels past 6 are clamped.
pub open spec fn level_slot(level: u8) -> int {
    let i = if level == 0 {
        0int
    } else {
        level - 1
    };
    if i > 5 {
        5int
    } else {
        i
    }
}

/// The non-zero counters among the first `upto` slots, rendered in decimal.
pub open spec fn number_parts(c: Seq<u32>, upto: int) -> Seq<Seq<char>>
    decreases upto,
{
    if upto <= 0 {
        Seq::<Seq<char>>::empty()
    } else {
        number_parts(c, upto - 1) + if c[upto - 1] > 0 {
            seq![dec_rep(c[upto - 1] as int)]
        } else {
            Seq::<Seq<char>>::empty()
        }
    }
}

/// The parts joined with dots, as `"1.2.3"`.
pub open spec fn join_dots(ps: Seq<Seq<char>>) -> Seq<char>
    decreases ps.len(),
{
    if ps.len() == 0 {
        Seq::<char>::empty()
    } else if ps.len() == 1 {
        ps[0]
    } else {
        join_dots(ps.drop_last()) + seq!['.'] + ps.last()
    }
}

/// A counter bumped by one, saturating at its limit.
pub open spec fn bump(x: u32) -> u32 {
    if x < u32::MAX {
        (x + 1) as u32
    } else {
        x
    }
}

/// The tracker's counters after one number is drawn at `level`: the
/// level's slot bumped, deeper slots zeroed, shallower slots kept.
pub open spec fn after_bump(c: Seq<u32>, level: u8) -> Seq<u32> {
    Seq::new(
        6,
        |i: int|
            if i < level_slot(level) {
                c[i]
            } else if i == level_slot(level) {
                bump(c[i])
            } else {
                0u32
            },
    )
}

/// The label `get_number` renders for enabled trackers at `level`, given
/// the counters before the call.
pub open spec fn track_label(c: Seq<u32>, level: u8) -> Seq<char> {
    join_dots(number_parts(after_bump(c, level), level_slot(level) + 1))
}

/// Tracks automatic heading numbers over six heading levels.
pub struct HeadingNumberTracker {
    counters: Vec<u32>,
    auto_numbering_enabled: bool,
}

impl HeadingNumberTracker {
    pub closed spec fn wf(&self) -> bool {
        self.counters@.len() == 6
    }

    pub closed spec fn counters(&self) -> Seq<u32> {
        self.counters@
    }

    pub closed spec fn enabled(&self) -> bool {
        self.auto_numbering_enabled
    }

    /// A fresh tracker: all six counters zero, auto-numbering off.
    pub fn new() -> (r: Self)
        ensures
            r.wf(),
            !r.enabled(),
            r.counters().len() == 6,
            forall|i: int| 0 <= i < 6 ==> r.counters()[i] == 0,
    {
        let mut counters: Vec<u32> = Vec::new();
        let mut i: usize = 0;
        while i < 6
            invariant
                i <= 6,
                counters@.len() == i,
                forall|j: int| 0 <= j < i ==> counters@[j] == 0,
            decreases 6 - i,
        {
            counters.push(0);
            i = i + 1;
        }
        HeadingNumberTracker { counters, auto_numbering_enabled: false }
    }

    /// Switches automatic numbering on; the counters are untouched.
    pub fn enable_auto_numbering(&mut self)
        requires
            old(self).wf(),
        ensures
            final(self).wf(),
            final(self).enabled(),
            final(self).counters() == old(self).counters(),
    {
        self.auto_numbering_enabled = true;
    }

    /// The next number for a heading of `level`: the level's counter is
    /// incremented, deeper counters are reset, and the non-zero counters
    /// up to the level are joined with dots. Disabled trackers return an
    /// empty string and change nothing.
    pub fn get_number(&mut self, level: u8) -> (r: String)
        requires
            old(self).wf(),
        ensures
            final(self).wf(),
            final(self).enabled() == old(self).enabled(),
            !old(self).enabled() ==> final(self).counters() == old(self).counters() && r@
                == Seq::<char>::empty(),
            old(self).enabled() ==> final(self).counters() == after_bump(
                old(self).counters(),
                level,
            ) && r@ == track_label(old(self).counters(), level),
    {
        if !self.auto_numbering_enabled {
            return String::new();
        }
        let level_index: usize = if level == 0 {
            0
        } else {
            let li = (level - 1) as usize;
            if li > 5 {
                5
            } else {
                li
            }
        };
        // Increment the current level.
        let c = self.counters[level_index];
        let c2: u32 = if c < u32::MAX {
            c + 1
        } else {
            c
        };
        self.counters.set(level_index, c2);
        // Reset all deeper levels.
        let mut j: usize = level_index + 1;
        while j < 6
            invariant
                self.counters@.len() == 6,
                level_index < 6,
                level_index < j <= 6,
                self.auto_numbering_enabled,
                forall|t: int| 0 <= t <= level_index ==> self.counters@[t] == old(
                    self,
                ).counters().update(level_index as int, c2)[t],
                forall|t: int| level_index < t < j ==> self.counters@[t] == 0,
            decreases 6 - j,
        {
            self.counters.set(j, 0);
            j = j + 1;
        }
        proof {
            assert(self.counters@ =~= after_bump(old(self).counters(), level));
        }
        // Build the dotted number from the non-zero counters.
        let ghost cs = self.counters@;
        let mut out: Vec<char> = Vec::new();
        let mut first: bool = true;
        let mut i: usize = 0;
        while i <= level_index
            invariant
                self.counters@ == cs,
                cs.len() == 6,
                level_index < 6,
                i <= level_index + 1,
                out@ == join_dots(number_parts(cs, i as int)),
                first == (number_parts(cs, i as int).len() == 0),
            decreases level_index + 1 - i,
        {
            let ghost ps = number_parts(cs, i as int);
            if self.counters[i] > 0 {
                if !first {
                    out.push('.');
                }
                let mut d = u32_dec(self.counters[i]);
                out.append(&mut d);
                first = false;
                proof {
                    let ps2 = number_parts(cs, i + 1);
                    assert(ps2 =~= ps.push(dec_rep(cs[i as int] as int)));
                    if ps.len() == 0 {
                        assert(out@ =~= join_dots(ps2));
                    } else {
                        assert(ps2.drop_last() =~= ps);
                        assert(out@ =~= join_dots(ps) + seq!['.'] + dec_rep(cs[i as int] as int));
                    }
                }
            } else {
                proof {
                    assert(number_parts(cs, i + 1) =~= ps);
                }
            }
            i = i + 1;
        }
        string_of(&out)
    }
}

proof fn lemma_map_of_key_index(s: Seq<CounterEntry>, k: (int, int)) -> (j: int)
    requires
        map_of(s).contains_key(k),
    ensures
        0 <= j < s.len(),
        ekey(s[j]) == k,
    decreases s.len(),
{
    if s.len() == 0 {
        0
    } else if ekey(s.last()) == k {
        s.len() - 1
    } else {
        lemma_map_of_key_index(s.drop_last(), k)
    }
}

} // verus!
