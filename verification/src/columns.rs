//! Numeric columns of comma-separated text.
//!
//! One record per line, fields split on `,`. A field counts where it is the
//! numeral of a finite number; all other fields (headers, gaps, sentinels) are
//! skipped.

use vstd::prelude::*;

use crate::arithmetic::{reads, Arithmetic};
use crate::binary64::Binary64;
use crate::error::{Error, Reason};
use crate::text::{characters, lines, lines_of, split, split_on, trim, trimmed, views};

verus! {

/// The value, where it is finite.
pub open spec fn finite_only(value: Option<Binary64>) -> Option<Binary64> {
    match value {
        Some(v) => if v.finite() {
            Some(v)
        } else {
            None
        },
        None => None,
    }
}

/// `r` is the finite number that a field of a line holds, if it holds one.
pub open spec fn field_of<A: Arithmetic>(line: Seq<char>, column: int, r: Option<Binary64>) -> bool {
    let fields = split(line, ',');
    if column >= fields.len() || trim(fields[column]).len() == 0 {
        r is None
    } else {
        exists|value: Option<Binary64>| #[trigger] reads::<A>(trim(fields[column]), value) && r == finite_only(value)
    }
}

fn read_field<A: Arithmetic>(fields: &Vec<Vec<char>>, column: usize, Ghost(line): Ghost<Seq<char>>) -> (r: Option<
    Binary64,
>)
    requires
        views(fields@) == split(line, ','),
    ensures
        field_of::<A>(line, column as int, r),
{
    assert(fields@.len() == views(fields@).len());
    if column >= fields.len() {
        return None;
    }
    assert(views(fields@)[column as int] == fields@[column as int]@);
    let text: &[char] = trimmed(fields[column].as_slice());
    if text.len() == 0 {
        return None;
    }
    let value: Option<Binary64> = A::parse(text);
    assert(reads::<A>(trim(split(line, ',')[column as int]), value));
    match value {
        Some(v) => if v.is_finite() {
            Some(v)
        } else {
            None
        },
        None => None,
    }
}

/// `cells` holds what the lines of a text have in a column.
pub open spec fn column_cells<A: Arithmetic>(text: Seq<char>, column: int, cells: Seq<Option<Binary64>>) -> bool {
    &&& cells.len() == lines(text).len()
    &&& forall|i: int| 0 <= i < cells.len() ==> field_of::<A>(lines(text)[i], column, #[trigger] cells[i])
}

/// `values` are the finite numbers of a column, in order.
pub open spec fn column_of<A: Arithmetic>(text: Seq<char>, column: int, values: Seq<Binary64>) -> bool {
    exists|cells: Seq<Option<Binary64>>| #[trigger]
        column_cells::<A>(text, column, cells) && values == cells.filter_map(|c: Option<Binary64>| c)
}

/// The finite numbers of a 0-based column, one per line that holds one there;
/// other lines are skipped.
pub fn csv_column<A: Arithmetic>(text: &str, column: usize) -> (r: Vec<Binary64>)
    ensures
        column_of::<A>(text@, column as int, r@),
{
    let all: Vec<Vec<char>> = lines_of(characters(text).as_slice());
    let ghost ls = lines(text@);
    let ghost id = |c: Option<Binary64>| c;
    let ghost mut cells: Seq<Option<Binary64>> = Seq::empty();
    let mut r: Vec<Binary64> = Vec::new();
    let mut i: usize = 0;
    assert(cells.filter_map(id) == Seq::<Binary64>::empty()) by {
        reveal(Seq::filter_map);
    }
    assert(all@.len() == views(all@).len());
    while i < all.len()
        invariant
            i <= all@.len(),
            views(all@) == ls,
            all@.len() == ls.len(),
            cells.len() == i,
            forall|k: int| 0 <= k < i ==> field_of::<A>(ls[k], column as int, #[trigger] cells[k]),
            id == (|c: Option<Binary64>| c),
            r@ == cells.filter_map(id),
        decreases all@.len() - i,
    {
        assert(ls[i as int] == all@[i as int]@);
        let fields: Vec<Vec<char>> = split_on(all[i].as_slice(), ',');
        let cell: Option<Binary64> = read_field::<A>(&fields, column, Ghost(ls[i as int]));
        if let Some(v) = cell {
            r.push(v);
        }
        proof {
            let next = cells.push(cell);
            next.lemma_filter_map_take_succ(id, i as int);
            assert(next.take(i as int) == cells);
            assert(next.take(i + 1) == next);
            cells = next;
        }
        i = i + 1;
    }
    assert(column_cells::<A>(text@, column as int, cells));
    r
}

/// Whether both fields of a line hold a number, or neither does.
pub open spec fn paired(cell: (Option<Binary64>, Option<Binary64>)) -> bool {
    cell.0 is Some <==> cell.1 is Some
}

/// Both numbers of a line, where it holds both.
pub open spec fn pair_of(cell: (Option<Binary64>, Option<Binary64>)) -> Option<(Binary64, Binary64)> {
    match cell {
        (Some(a), Some(b)) => Some((a, b)),
        _ => None,
    }
}

/// `cells` holds what the first lines of a text have in two columns.
pub open spec fn pair_cells<A: Arithmetic>(
    text: Seq<char>,
    col_a: int,
    col_b: int,
    cells: Seq<(Option<Binary64>, Option<Binary64>)>,
) -> bool {
    &&& cells.len() <= lines(text).len()
    &&& forall|i: int|
        0 <= i < cells.len() ==> field_of::<A>(lines(text)[i], col_a, (#[trigger] cells[i]).0) && field_of::<A>(
            lines(text)[i],
            col_b,
            cells[i].1,
        )
}

/// The error for a line of which only one of two columns holds a number.
pub open spec fn unpaired_line(
    line: int,
    col_a: usize,
    col_b: usize,
    cell: (Option<Binary64>, Option<Binary64>),
) -> Error {
    Error::InvalidParameter {
        name: "pairs",
        reason: if cell.0 is Some {
            Reason::Line { line: line as usize, good: col_a, bad: col_b }
        } else {
            Reason::Line { line: line as usize, good: col_b, bad: col_a }
        },
    }
}

/// Aligned pairs from two 0-based columns of the same text.
///
/// The text is walked row by row: a line where both fields hold no number is
/// skipped (which tolerates a header), but a line where exactly one of the two
/// does is an error, since that is the misalignment that would pair values of
/// different rows.
pub fn csv_pairs<A: Arithmetic>(text: &str, col_a: usize, col_b: usize) -> (r: Result<Vec<(Binary64, Binary64)>, Error>)
    ensures
        match r {
            Ok(pairs) => exists|cells: Seq<(Option<Binary64>, Option<Binary64>)>|
                {
                    &&& #[trigger] pair_cells::<A>(text@, col_a as int, col_b as int, cells)
                    &&& cells.len() == lines(text@).len()
                    &&& forall|i: int| 0 <= i < cells.len() ==> paired(#[trigger] cells[i])
                    &&& pairs@ == cells.filter_map(|c: (Option<Binary64>, Option<Binary64>)| pair_of(c))
                },
            Err(e) => exists|cells: Seq<(Option<Binary64>, Option<Binary64>)>|
                {
                    &&& #[trigger] pair_cells::<A>(text@, col_a as int, col_b as int, cells)
                    &&& cells.len() > 0
                    &&& forall|i: int| 0 <= i < cells.len() - 1 ==> paired(#[trigger] cells[i])
                    &&& !paired(cells.last())
                    &&& e == unpaired_line(cells.len() as int, col_a, col_b, cells.last())
                },
        },
{
    let all: Vec<Vec<char>> = lines_of(characters(text).as_slice());
    let ghost ls = lines(text@);
    let ghost f = |c: (Option<Binary64>, Option<Binary64>)| pair_of(c);
    let ghost mut cells: Seq<(Option<Binary64>, Option<Binary64>)> = Seq::empty();
    let mut pairs: Vec<(Binary64, Binary64)> = Vec::new();
    let mut i: usize = 0;
    assert(cells.filter_map(f) == Seq::<(Binary64, Binary64)>::empty()) by {
        reveal(Seq::filter_map);
    }
    assert(all@.len() == views(all@).len());
    while i < all.len()
        invariant
            i <= all@.len(),
            views(all@) == ls,
            ls == lines(text@),
            all@.len() == ls.len(),
            cells.len() == i,
            pair_cells::<A>(text@, col_a as int, col_b as int, cells),
            forall|k: int| 0 <= k < i ==> paired(#[trigger] cells[k]),
            f == (|c: (Option<Binary64>, Option<Binary64>)| pair_of(c)),
            pairs@ == cells.filter_map(f),
        decreases all@.len() - i,
    {
        assert(ls[i as int] == all@[i as int]@);
        let fields: Vec<Vec<char>> = split_on(all[i].as_slice(), ',');
        let a: Option<Binary64> = read_field::<A>(&fields, col_a, Ghost(ls[i as int]));
        let b: Option<Binary64> = read_field::<A>(&fields, col_b, Ghost(ls[i as int]));
        proof {
            let next = cells.push((a, b));
            next.lemma_filter_map_take_succ(f, i as int);
            assert(next.take(i as int) == cells);
            assert(next.take(i + 1) == next);
            cells = next;
            assert(pair_cells::<A>(text@, col_a as int, col_b as int, cells));
        }
        match (a, b) {
            (Some(x), Some(y)) => {
                pairs.push((x, y));
            },
            (None, None) => {},
            (Some(_), None) => {
                return Err(
                    Error::InvalidParameter {
                        name: "pairs",
                        reason: Reason::Line { line: i + 1, good: col_a, bad: col_b },
                    },
                );
            },
            (None, Some(_)) => {
                return Err(
                    Error::InvalidParameter {
                        name: "pairs",
                        reason: Reason::Line { line: i + 1, good: col_b, bad: col_a },
                    },
                );
            },
        }
        i = i + 1;
    }
    Ok(pairs)
}

} // verus!
