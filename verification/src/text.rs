//! Plain text: lines, separated fields, blanks and whole numbers.
//!
//! A text is a sequence of characters. The specification functions say what the
//! lines and fields of a text are; the executable functions compute them.

use vstd::prelude::*;
use vstd::slice::slice_subrange;

verus! {

/// Index of the first `c` in `s`, or the length of `s` where there is none.
pub open spec fn first_index(s: Seq<char>, c: char) -> int
    decreases s.len(),
{
    if s.len() == 0 {
        0
    } else if s[0] == c {
        0
    } else {
        1 + first_index(s.drop_first(), c)
    }
}

/// The pieces of `s` between the occurrences of `separator`; at least one.
pub open spec fn split(s: Seq<char>, separator: char) -> Seq<Seq<char>>
    decreases s.len(),
    via split_decreases
{
    let k = first_index(s, separator);
    if k >= s.len() {
        seq![s]
    } else {
        seq![s.take(k)] + split(s.skip(k + 1), separator)
    }
}

#[via_fn]
proof fn split_decreases(s: Seq<char>, separator: char) {
    lemma_first_index(s, separator);
}

/// `s` without one carriage return at its end.
pub open spec fn without_return(s: Seq<char>) -> Seq<char> {
    if s.len() > 0 && s.last() == '\r' {
        s.drop_last()
    } else {
        s
    }
}

/// The lines of a text. A line ends at a line feed, which may follow a carriage
/// return; the last line need not have an end.
pub open spec fn lines(s: Seq<char>) -> Seq<Seq<char>>
    decreases s.len(),
    via lines_decreases
{
    let k = first_index(s, '\n');
    if s.len() == 0 {
        Seq::empty()
    } else if k >= s.len() {
        seq![s]
    } else {
        seq![without_return(s.take(k))] + lines(s.skip(k + 1))
    }
}

#[via_fn]
proof fn lines_decreases(s: Seq<char>) {
    lemma_first_index(s, '\n');
}

/// Whether a character has the `White_Space` property of Unicode.
pub open spec fn blank(c: char) -> bool {
    ||| '\u{9}' <= c <= '\u{d}'
    ||| c == '\u{20}' || c == '\u{85}' || c == '\u{a0}' || c == '\u{1680}'
    ||| '\u{2000}' <= c <= '\u{200a}'
    ||| c == '\u{2028}' || c == '\u{2029}' || c == '\u{202f}' || c == '\u{205f}' || c == '\u{3000}'
}

/// `s` without the blanks at its start.
pub open spec fn trim_start(s: Seq<char>) -> Seq<char>
    decreases s.len(),
{
    if s.len() > 0 && blank(s[0]) {
        trim_start(s.drop_first())
    } else {
        s
    }
}

/// `s` without the blanks at its end.
pub open spec fn trim_end(s: Seq<char>) -> Seq<char>
    decreases s.len(),
{
    if s.len() > 0 && blank(s.last()) {
        trim_end(s.drop_last())
    } else {
        s
    }
}

/// `s` without the blanks at both ends.
pub open spec fn trim(s: Seq<char>) -> Seq<char> {
    trim_end(trim_start(s))
}

/// Whether a character is a decimal digit.
pub open spec fn digit(c: char) -> bool {
    '0' <= c <= '9'
}

/// The number that a run of digits denotes.
pub open spec fn digits_value(s: Seq<char>) -> nat
    decreases s.len(),
{
    if s.len() == 0 {
        0
    } else {
        digits_value(s.drop_last()) * 10 + (s.last() as nat - '0' as nat) as nat
    }
}

/// Whether `s` consists of digits, at least one.
pub open spec fn numeral(s: Seq<char>) -> bool {
    s.len() > 0 && forall|i: int| 0 <= i < s.len() ==> digit(#[trigger] s[i])
}

/// The integer that `s` denotes: digits behind an optional sign.
pub open spec fn integer(s: Seq<char>) -> Option<int> {
    if s.len() > 0 && s[0] == '-' {
        if numeral(s.drop_first()) {
            Some(-(digits_value(s.drop_first()) as int))
        } else {
            None
        }
    } else if s.len() > 0 && s[0] == '+' {
        if numeral(s.drop_first()) {
            Some(digits_value(s.drop_first()) as int)
        } else {
            None
        }
    } else if numeral(s) {
        Some(digits_value(s) as int)
    } else {
        None
    }
}

/// The `i32` that `s` denotes, where it denotes one.
pub open spec fn signed_number(s: Seq<char>) -> Option<i32> {
    match integer(s) {
        Some(n) => if i32::MIN <= n <= i32::MAX {
            Some(n as i32)
        } else {
            None
        },
        None => None,
    }
}

/// The `u32` that `s` denotes, where it denotes one; a minus sign is not accepted.
pub open spec fn unsigned_number(s: Seq<char>) -> Option<u32> {
    match integer(s) {
        Some(n) => if 0 <= n <= u32::MAX && s[0] != '-' {
            Some(n as u32)
        } else {
            None
        },
        None => None,
    }
}

/// The decimal numeral of a number.
pub open spec fn decimal(n: nat) -> Seq<char>
    decreases n,
{
    let last = seq![('0' as int + n % 10) as char];
    if n < 10 {
        last
    } else {
        decimal(n / 10) + last
    }
}

/// The first occurrence is one, and nothing before it is.
pub proof fn lemma_first_index(s: Seq<char>, c: char)
    ensures
        0 <= first_index(s, c) <= s.len(),
        first_index(s, c) < s.len() ==> s[first_index(s, c)] == c,
        forall|i: int| 0 <= i < first_index(s, c) ==> s[i] != c,
    decreases s.len(),
{
    if s.len() > 0 && s[0] != c {
        lemma_first_index(s.drop_first(), c);
        assert forall|i: int| 0 <= i < first_index(s, c) implies s[i] != c by {
            if i > 0 {
                assert(s[i] == s.drop_first()[i - 1]);
            }
        }
        assert(first_index(s, c) < s.len() ==> s[first_index(s, c)] == s.drop_first()[first_index(s, c) - 1]);
    }
}

/// An index at which `c` stands with none before it is the first one.
proof fn lemma_is_first_index(s: Seq<char>, c: char, k: int)
    requires
        0 <= k <= s.len(),
        k < s.len() ==> s[k] == c,
        forall|i: int| 0 <= i < k ==> s[i] != c,
    ensures
        first_index(s, c) == k,
{
    lemma_first_index(s, c);
}

/// The characters of a string.
pub fn characters(text: &str) -> (r: Vec<char>)
    ensures
        r@ == text@,
{
    let mut r: Vec<char> = Vec::new();
    for c in it: text.chars()
        invariant
            it.seq() == text@,
            r@ == it.seq().take(it.index()),
    {
        r.push(c);
        assert(it.seq().take(it.index() + 1) == it.seq().take(it.index()).push(it.seq()[it.index()]));
    }
    assert(text@.take(text@.len() as int) == text@);
    r
}

fn copy_range(s: &[char], from: usize, to: usize) -> (r: Vec<char>)
    requires
        from <= to <= s@.len(),
    ensures
        r@ == s@.subrange(from as int, to as int),
{
    let mut r: Vec<char> = Vec::new();
    let mut i: usize = from;
    while i < to
        invariant
            from <= i <= to <= s@.len(),
            r@ == s@.subrange(from as int, i as int),
        decreases to - i,
    {
        r.push(s[i]);
        i = i + 1;
        assert(s@.subrange(from as int, i as int) == s@.subrange(from as int, i - 1).push(s@[i - 1]));
    }
    r
}

/// The sequences that a list of character lists holds.
pub open spec fn views(v: Seq<Vec<char>>) -> Seq<Seq<char>> {
    v.map_values(|p: Vec<char>| p@)
}

/// The pieces of a text between the occurrences of a separator.
pub fn split_on(s: &[char], separator: char) -> (r: Vec<Vec<char>>)
    ensures
        views(r@) == split(s@, separator),
{
    let mut r: Vec<Vec<char>> = Vec::new();
    let mut start: usize = 0;
    let mut i: usize = 0;
    assert(s@.skip(0) == s@);
    assert(views(r@) + split(s@.skip(0), separator) == split(s@, separator));
    while i < s.len()
        invariant
            start <= i <= s@.len(),
            forall|j: int| start <= j < i ==> s@[j] != separator,
            views(r@) + split(s@.skip(start as int), separator) == split(s@, separator),
        decreases s@.len() - i,
    {
        if s[i] == separator {
            let ghost rest = s@.skip(start as int);
            let ghost before = r@;
            r.push(copy_range(s, start, i));
            proof {
                lemma_is_first_index(rest, separator, i - start);
                assert(rest.take(i - start) == s@.subrange(start as int, i as int));
                assert(rest.skip(i - start + 1) == s@.skip(i + 1));
                assert(views(r@) == views(before).push(s@.subrange(start as int, i as int)));
                assert(views(before) + (seq![rest.take(i - start)] + split(s@.skip(i + 1), separator))
                    == views(r@) + split(s@.skip(i + 1), separator));
            }
            start = i + 1;
        }
        i = i + 1;
    }
    let ghost rest = s@.skip(start as int);
    let ghost before = r@;
    r.push(copy_range(s, start, s.len()));
    proof {
        lemma_is_first_index(rest, separator, rest.len() as int);
        assert(rest == s@.subrange(start as int, s@.len() as int));
        assert(views(r@) == views(before).push(rest));
        assert(views(before) + seq![rest] == views(r@));
    }
    r
}

/// The lines of a text.
pub fn lines_of(s: &[char]) -> (r: Vec<Vec<char>>)
    ensures
        views(r@) == lines(s@),
{
    let mut r: Vec<Vec<char>> = Vec::new();
    let mut start: usize = 0;
    let mut i: usize = 0;
    assert(s@.skip(0) == s@);
    assert(views(r@) + lines(s@.skip(0)) == lines(s@));
    while i < s.len()
        invariant
            start <= i <= s@.len(),
            forall|j: int| start <= j < i ==> s@[j] != '\n',
            views(r@) + lines(s@.skip(start as int)) == lines(s@),
        decreases s@.len() - i,
    {
        if s[i] == '\n' {
            let ghost rest = s@.skip(start as int);
            let ghost before = r@;
            let end: usize = if i > start && s[i - 1] == '\r' {
                i - 1
            } else {
                i
            };
            r.push(copy_range(s, start, end));
            proof {
                lemma_is_first_index(rest, '\n', i - start);
                assert(rest.take(i - start) == s@.subrange(start as int, i as int));
                assert(without_return(rest.take(i - start)) == s@.subrange(start as int, end as int));
                assert(rest.skip(i - start + 1) == s@.skip(i + 1));
                assert(views(r@) == views(before).push(s@.subrange(start as int, end as int)));
                assert(views(before) + (seq![without_return(rest.take(i - start))] + lines(s@.skip(i + 1)))
                    == views(r@) + lines(s@.skip(i + 1)));
            }
            start = i + 1;
        }
        i = i + 1;
    }
    let ghost rest = s@.skip(start as int);
    let ghost before = r@;
    proof {
        lemma_is_first_index(rest, '\n', rest.len() as int);
        assert(rest == s@.subrange(start as int, s@.len() as int));
    }
    if start < s.len() {
        r.push(copy_range(s, start, s.len()));
        proof {
            assert(views(r@) == views(before).push(rest));
            assert(views(before) + seq![rest] == views(r@));
        }
    } else {
        assert(views(before) + Seq::empty() == views(before));
    }
    r
}

fn is_blank(c: char) -> (r: bool)
    ensures
        r == blank(c),
{
    ('\u{9}' <= c && c <= '\u{d}') || c == '\u{20}' || c == '\u{85}' || c == '\u{a0}' || c == '\u{1680}' || (
    '\u{2000}' <= c && c <= '\u{200a}') || c == '\u{2028}' || c == '\u{2029}' || c == '\u{202f}' || c
        == '\u{205f}' || c == '\u{3000}'
}

/// A text without the blanks at both ends.
pub fn trimmed<'a>(s: &'a [char]) -> (r: &'a [char])
    ensures
        r@ == trim(s@),
{
    let mut from: usize = 0;
    assert(s@.skip(0) == s@);
    while from < s.len() && is_blank(s[from])
        invariant
            from <= s@.len(),
            trim_start(s@) == trim_start(s@.skip(from as int)),
        decreases s@.len() - from,
    {
        assert(s@.skip(from as int).drop_first() == s@.skip(from + 1));
        from = from + 1;
    }
    let ghost body = s@.skip(from as int);
    assert(trim_start(s@) == body);
    let mut to: usize = s.len();
    assert(s@.subrange(from as int, to as int) == body);
    while to > from && is_blank(s[to - 1])
        invariant
            from <= to <= s@.len(),
            trim_end(body) == trim_end(s@.subrange(from as int, to as int)),
        decreases to,
    {
        assert(s@.subrange(from as int, to as int).drop_last() == s@.subrange(from as int, to - 1));
        to = to - 1;
    }
    slice_subrange(s, from, to)
}

proof fn lemma_digits_value_bounds(s: Seq<char>, i: int)
    requires
        numeral(s),
        0 <= i <= s.len(),
    ensures
        digits_value(s.take(i)) <= digits_value(s),
    decreases s.len() - i,
{
    if i < s.len() {
        assert(s.take(i + 1).drop_last() == s.take(i));
        assert(digit(s[i]));
        lemma_digits_value_bounds(s, i + 1);
    } else {
        assert(s.take(i) == s);
    }
}

/// The number of a run of digits, where it is below `2^63`.
fn parse_digits(s: &[char], from: usize) -> (r: Option<i64>)
    requires
        from <= s@.len(),
    ensures
        r is Some <==> numeral(s@.skip(from as int)) && digits_value(s@.skip(from as int)) <= 0xFFFF_FFFF_FFFF,
        r is Some ==> r->0 == digits_value(s@.skip(from as int)),
{
    let ghost t = s@.skip(from as int);
    if from == s.len() {
        return None;
    }
    let mut n: i64 = 0;
    let mut i: usize = from;
    assert(t.take(0) == Seq::<char>::empty());
    while i < s.len()
        invariant
            from <= i <= s@.len(),
            t == s@.skip(from as int),
            forall|j: int| 0 <= j < i - from ==> digit(#[trigger] t[j]),
            n == digits_value(t.take(i - from)),
            0 <= n <= 0xFFFF_FFFF_FFFF,
        decreases s@.len() - i,
    {
        let c: char = s[i];
        assert(t[i - from] == c);
        if !('0' <= c && c <= '9') {
            assert(!digit(t[i - from]));
            return None;
        }
        let d: i64 = (c as u32 - '0' as u32) as i64;
        n = n * 10 + d;
        proof {
            assert(t.take(i - from + 1).drop_last() == t.take(i - from));
        }
        i = i + 1;
        if n > 0xFFFF_FFFF_FFFF {
            proof {
                if numeral(t) {
                    lemma_digits_value_bounds(t, i - from);
                }
            }
            return None;
        }
    }
    assert(t.take(t.len() as int) == t);
    Some(n)
}

/// Reads an `i32`.
pub fn parse_signed(s: &[char]) -> (r: Option<i32>)
    ensures
        r == signed_number(s@),
{
    if s.len() > 0 && s[0] == '-' {
        assert(s@.skip(1) == s@.drop_first());
        match parse_digits(s, 1) {
            Some(n) => if n <= 0x8000_0000 {
                Some((0 - n) as i32)
            } else {
                None
            },
            None => None,
        }
    } else {
        let from: usize = if s.len() > 0 && s[0] == '+' {
            1
        } else {
            0
        };
        assert(s@.skip(0) == s@);
        assert(from == 1 ==> s@.skip(1) == s@.drop_first());
        match parse_digits(s, from) {
            Some(n) => if n <= 0x7FFF_FFFF {
                Some(n as i32)
            } else {
                None
            },
            None => None,
        }
    }
}

/// Reads a `u32`.
pub fn parse_unsigned(s: &[char]) -> (r: Option<u32>)
    ensures
        r == unsigned_number(s@),
{
    let from: usize = if s.len() > 0 && s[0] == '+' {
        1
    } else {
        0
    };
    assert(s@.skip(0) == s@);
    assert(from == 1 ==> s@.skip(1) == s@.drop_first());
    match parse_digits(s, from) {
        Some(n) => {
            assert(from == 0 ==> digit(s@[0]));
            if n <= 0xFFFF_FFFF {
                Some(n as u32)
            } else {
                None
            }
        },
        None => None,
    }
}

fn digit_text(d: usize) -> (r: &'static str)
    requires
        d < 10,
    ensures
        r@ == seq![('0' as int + d) as char],
{
    proof {
        reveal_strlit("0");
        reveal_strlit("1");
        reveal_strlit("2");
        reveal_strlit("3");
        reveal_strlit("4");
        reveal_strlit("5");
        reveal_strlit("6");
        reveal_strlit("7");
        reveal_strlit("8");
        reveal_strlit("9");
    }
    if d == 0 {
        "0"
    } else if d == 1 {
        "1"
    } else if d == 2 {
        "2"
    } else if d == 3 {
        "3"
    } else if d == 4 {
        "4"
    } else if d == 5 {
        "5"
    } else if d == 6 {
        "6"
    } else if d == 7 {
        "7"
    } else if d == 8 {
        "8"
    } else {
        "9"
    }
}

/// Writes the decimal numeral of a number behind a text.
pub fn append_decimal(text: &mut String, n: usize)
    ensures
        final(text)@ == old(text)@ + decimal(n as nat),
    decreases n,
{
    if n >= 10 {
        append_decimal(text, n / 10);
    }
    text.append(digit_text(n % 10));
    proof {
        assert(n >= 10 ==> text@ == old(text)@ + decimal((n / 10) as nat) + seq![('0' as int + n % 10) as char]);
        assert(text@ =~= old(text)@ + decimal(n as nat));
    }
}

} // verus!
