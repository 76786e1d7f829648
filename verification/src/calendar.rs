//! Calendar months: keys, shifting, and the dated columns of observation files.

use vstd::prelude::*;

use crate::keyset::{month_number, month_of_number, Period};
use crate::text::{characters, lines, lines_of, parse_signed, parse_unsigned, signed_number, split, split_on, trim, trimmed, unsigned_number, views};

verus! {

/// A `(year, month)` key, 1-based month.
pub type MonthKey = (i32, u32);

/// Whether the month of a key is one of the twelve.
pub open spec fn calendar_month(key: MonthKey) -> bool {
    1 <= key.1 <= 12
}

/// Shifts a month key by `delta` months, rolling over years.
///
/// The sum of months must be representable as an `i32`, at every step.
pub fn shift_month(key: MonthKey, delta: i32) -> (r: MonthKey)
    requires
        key.1 <= i32::MAX,
        i32::MIN <= key.0 * 12 <= i32::MAX,
        i32::MIN <= month_number(key) <= i32::MAX,
        i32::MIN <= month_number(key) + delta <= i32::MAX,
    ensures
        month_of_number(month_number(key) + delta) == Some(r),
        key.moved(delta as int) == Some(r),
        month_number(r) == month_number(key) + delta,
        calendar_month(r),
{
    let number: i64 = key.0 as i64 * 12 + (key.1 as i64 - 1) + delta as i64;
    let from_low: i64 = number + 0xC_0000_0000;
    let year: i64 = from_low / 12 - 0x1_0000_0000;
    let month: i64 = from_low % 12 + 1;
    assert(number / 12 == year && number % 12 + 1 == month);
    (year as i32, month as u32)
}

/// The month key of two numerals, where both are numerals and the month is one
/// of the twelve.
pub open spec fn month_of_numerals(year: Seq<char>, month: Seq<char>) -> Option<MonthKey> {
    match (signed_number(trim(year)), unsigned_number(trim(month))) {
        (Some(y), Some(m)) => if 1 <= m <= 12 {
            Some((y, m))
        } else {
            None
        },
        _ => None,
    }
}

/// The month of a line that starts with a `YYYY-MM-...` date column.
pub open spec fn month_of_dated_line(line: Seq<char>) -> Option<MonthKey> {
    let parts = split(trim(split(line, ',')[0]), '-');
    if parts.len() >= 2 {
        month_of_numerals(parts[0], parts[1])
    } else {
        None
    }
}

/// The month of an inventory line with the columns `id, year, month`.
pub open spec fn month_of_event_line(line: Seq<char>) -> Option<MonthKey> {
    let fields = split(line, ',');
    if fields.len() >= 3 {
        month_of_numerals(fields[1], fields[2])
    } else {
        None
    }
}

/// The lines of a text behind its first one.
pub open spec fn lines_behind_header(text: Seq<char>) -> Seq<Seq<char>> {
    if lines(text).len() == 0 {
        Seq::empty()
    } else {
        lines(text).drop_first()
    }
}

fn parse_month(year: &Vec<char>, month: &Vec<char>) -> (r: Option<MonthKey>)
    ensures
        r == month_of_numerals(year@, month@),
{
    match parse_signed(trimmed(year.as_slice())) {
        Some(y) => match parse_unsigned(trimmed(month.as_slice())) {
            Some(m) => if 1 <= m && m <= 12 {
                Some((y, m))
            } else {
                None
            },
            None => None,
        },
        None => None,
    }
}

fn parse_dated_line(line: &Vec<char>) -> (r: Option<MonthKey>)
    ensures
        r == month_of_dated_line(line@),
{
    let fields: Vec<Vec<char>> = split_on(line.as_slice(), ',');
    proof {
        assert(split(line@, ',').len() >= 1);
        assert(views(fields@)[0] == fields@[0]@);
    }
    let parts: Vec<Vec<char>> = split_on(trimmed(fields[0].as_slice()), '-');
    assert(parts@.len() == views(parts@).len());
    if parts.len() >= 2 {
        assert(views(parts@)[0] == parts@[0]@);
        assert(views(parts@)[1] == parts@[1]@);
        parse_month(&parts[0], &parts[1])
    } else {
        None
    }
}

fn parse_event_line(line: &Vec<char>) -> (r: Option<MonthKey>)
    ensures
        r == month_of_event_line(line@),
{
    let fields: Vec<Vec<char>> = split_on(line.as_slice(), ',');
    assert(fields@.len() == views(fields@).len());
    if fields.len() >= 3 {
        assert(views(fields@)[1] == fields@[1]@);
        assert(views(fields@)[2] == fields@[2]@);
        parse_month(&fields[1], &fields[2])
    } else {
        None
    }
}

/// `(year, month)` keys parsed from a leading `YYYY-MM-...` date column
/// (column 0), one per line whose date parses to a valid month; a header row is
/// skipped naturally.
pub fn csv_month_keys(text: &str) -> (r: Vec<MonthKey>)
    ensures
        r@ == lines(text@).filter_map(|line: Seq<char>| month_of_dated_line(line)),
{
    let all: Vec<Vec<char>> = lines_of(characters(text).as_slice());
    let ghost ls = lines(text@);
    let ghost f = |line: Seq<char>| month_of_dated_line(line);
    let mut r: Vec<MonthKey> = Vec::new();
    let mut i: usize = 0;
    assert(ls.take(0).filter_map(f) == Seq::<MonthKey>::empty()) by {
        reveal(Seq::filter_map);
    }
    while i < all.len()
        invariant
            i <= all@.len(),
            views(all@) == ls,
            f == (|line: Seq<char>| month_of_dated_line(line)),
            r@ == ls.take(i as int).filter_map(f),
        decreases all@.len() - i,
    {
        assert(ls[i as int] == all@[i as int]@);
        let m: Option<MonthKey> = parse_dated_line(&all[i]);
        if let Some(key) = m {
            r.push(key);
        }
        proof {
            ls.lemma_filter_map_take_succ(f, i as int);
        }
        i = i + 1;
    }
    assert(all@.len() == ls.len());
    assert(ls.take(ls.len() as int) == ls);
    r
}

/// Event inventory `(year, month)` keys from a CSV with the columns
/// `id, year, month`. The header row is skipped, rows that fail to parse are
/// ignored.
pub fn csv_events(text: &str) -> (r: Vec<MonthKey>)
    ensures
        r@ == lines_behind_header(text@).filter_map(|line: Seq<char>| month_of_event_line(line)),
{
    let all: Vec<Vec<char>> = lines_of(characters(text).as_slice());
    let ghost ls = lines_behind_header(text@);
    let ghost f = |line: Seq<char>| month_of_event_line(line);
    let mut r: Vec<MonthKey> = Vec::new();
    let mut i: usize = 1;
    assert(ls.take(0).filter_map(f) == Seq::<MonthKey>::empty()) by {
        reveal(Seq::filter_map);
    }
    assert(all@.len() == lines(text@).len());
    while i < all.len()
        invariant
            1 <= i,
            all@.len() > 0 ==> i <= all@.len(),
            all@.len() == 0 ==> i == 1,
            views(all@) == lines(text@),
            all@.len() == lines(text@).len(),
            ls == lines_behind_header(text@),
            f == (|line: Seq<char>| month_of_event_line(line)),
            r@ == ls.take(i - 1).filter_map(f),
        decreases all@.len() - i,
    {
        assert(lines(text@)[i as int] == all@[i as int]@);
        assert(ls[i - 1] == all@[i as int]@);
        let m: Option<MonthKey> = parse_event_line(&all[i]);
        if let Some(key) = m {
            r.push(key);
        }
        proof {
            ls.lemma_filter_map_take_succ(f, i - 1);
        }
        i = i + 1;
    }
    assert(ls.take(ls.len() as int) == ls);
    r
}

/// Shifting by nothing keeps a calendar month.
pub proof fn lemma_shift_by_nothing(key: MonthKey)
    requires
        calendar_month(key),
    ensures
        key.moved(0) == Some(key),
{
}

/// Shifts add up: shifting a key by one number of months and the outcome by
/// another is shifting the key by their sum.
pub proof fn lemma_shifts_add(key: MonthKey, a: int, b: int)
    requires
        key.moved(a) is Some,
    ensures
        key.moved(a)->0.moved(b) == key.moved(a + b),
{
}

/// A shift can be undone: shifting a calendar month and then the outcome by the
/// same number of months backwards gives the month back.
pub proof fn lemma_shift_back(key: MonthKey, delta: int)
    requires
        calendar_month(key),
        key.moved(delta) is Some,
    ensures
        key.moved(delta)->0.moved(-delta) == Some(key),
{
}

/// A shift keeps the months among the twelve and moves the count of months by
/// exactly the shift.
pub proof fn lemma_shift_moves_month_number(key: MonthKey, delta: int)
    requires
        key.moved(delta) is Some,
    ensures
        calendar_month(key.moved(delta)->0),
        month_number(key.moved(delta)->0) == month_number(key) + delta,
{
}

} // verus!
