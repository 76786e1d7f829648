//! Errors of building or running a nowcast.

use vstd::prelude::*;

use crate::arithmetic::{shows, Arithmetic};
use crate::binary64::Binary64;
use crate::text::{append_decimal, decimal};

verus! {

/// What is wrong with a parameter: a fixed text, with the offending numbers.
#[derive(Debug, Clone, Copy)]
#[allow(inconsistent_fields)]
pub enum Reason {
    /// The text alone.
    Text(&'static str),
    /// A count between two texts.
    Count { before: &'static str, count: usize, after: &'static str },
    /// Two counts: `first`, a text, `second`, a text, behind a text.
    Counts { before: &'static str, first: usize, between: &'static str, second: usize, after: &'static str },
    /// A value between two texts.
    Value { before: &'static str, value: Binary64, after: &'static str },
    /// Two values: `first`, a text, `second`, a text, behind a text.
    Values { before: &'static str, first: Binary64, between: &'static str, second: Binary64, after: &'static str },
    /// The value of a cell: the cell, a text, the value, a text, behind a text.
    Cell { before: &'static str, cell: usize, between: &'static str, value: Binary64, after: &'static str },
    /// The depth of a cell at a step of a stream.
    Depth { cell: usize, value: Binary64, step: usize },
    /// The two columns of a line that do not both hold a number.
    Line { line: usize, good: usize, bad: usize },
    /// A source that lies outside a mesh.
    Source { index: usize, row: usize, col: usize, rows: usize, cols: usize },
}

/// Errors produced while building or running a nowcast.
#[derive(Debug)]
#[allow(inconsistent_fields)]
pub enum Error {
    /// A model parameter is outside its admissible range.
    InvalidParameter { name: &'static str, reason: Reason },
    /// A grid was constructed with the wrong number of values.
    GridSizeMismatch { expected: usize, got: usize, ncols: usize, nrows: usize },
    /// A susceptibility value fell outside the unit interval `[0, 1]`.
    SusceptibilityOutOfRange { cell: usize, value: Binary64 },
    /// The forcing grid does not match the susceptibility grid.
    GridMismatch { susc_cols: usize, susc_rows: usize, forc_cols: usize, forc_rows: usize },
    /// A cell or step index beyond the grid or series bounds.
    OutOfRange { name: &'static str, index: usize, len: usize },
    /// An external engine failed: the simulation itself, not a nowcast parameter.
    Engine { engine: &'static str, reason: String },
    /// Failed to parse an observed forcing series from text.
    Parse(Reason),
}

impl Reason {
    /// `text` is a wording of the reason.
    pub open spec fn says<A: Arithmetic>(self, text: Seq<char>) -> bool {
        match self {
            Reason::Text(t) => text == t@,
            Reason::Count { before, count, after } => text == before@ + decimal(count as nat) + after@,
            Reason::Counts { before, first, between, second, after } => text == before@ + decimal(first as nat)
                + between@ + decimal(second as nat) + after@,
            Reason::Value { before, value, after } => exists|v: Seq<char>| #[trigger]
                shows::<A>(value, v) && text == before@ + v + after@,
            Reason::Values { before, first, between, second, after } => exists|v: Seq<char>, w: Seq<char>| #[trigger]
                shows::<A>(first, v) && #[trigger] shows::<A>(second, w) && text == before@ + v + between@ + w
                    + after@,
            Reason::Cell { before, cell, between, value, after } => exists|v: Seq<char>| #[trigger]
                shows::<A>(value, v) && text == before@ + decimal(cell as nat) + between@ + v + after@,
            Reason::Depth { cell, value, step } => exists|v: Seq<char>| #[trigger]
                shows::<A>(value, v) && text == "depth at cell "@ + decimal(cell as nat) + " is "@ + v + " at step "@
                    + decimal(step as nat) + "; must be finite and non-negative"@,
            Reason::Line { line, good, bad } => text == "line "@ + decimal(line as nat) + ": column "@ + decimal(
                good as nat,
            ) + " parses but column "@ + decimal(bad as nat)
                + " does not — refusing to pair values across rows (fix or drop the line)"@,
            Reason::Source { index, row, col, rows, cols } => text == "source "@ + decimal(index as nat) + " at (row "@
                + decimal(row as nat) + ", col "@ + decimal(col as nat) + ") lies outside the "@ + decimal(
                rows as nat,
            ) + "x"@ + decimal(cols as nat) + " mesh"@,
        }
    }

    /// The wording of the reason.
    pub fn wording<A: Arithmetic>(&self) -> (r: String)
        ensures
            self.says::<A>(r@),
    {
        let mut r: String = String::new();
        match *self {
            Reason::Text(t) => {
                r.append(t);
                assert(r@ == t@);
            },
            Reason::Count { before, count, after } => {
                r.append(before);
                append_decimal(&mut r, count);
                r.append(after);
                assert(r@ == before@ + decimal(count as nat) + after@);
            },
            Reason::Counts { before, first, between, second, after } => {
                r.append(before);
                append_decimal(&mut r, first);
                r.append(between);
                append_decimal(&mut r, second);
                r.append(after);
                assert(r@ == before@ + decimal(first as nat) + between@ + decimal(second as nat) + after@);
            },
            Reason::Value { before, value, after } => {
                let v: String = A::show(value);
                assert(shows::<A>(value, v@));
                r.append(before);
                r.append(v.as_str());
                r.append(after);
                assert(r@ == before@ + v@ + after@);
            },
            Reason::Values { before, first, between, second, after } => {
                let v: String = A::show(first);
                let w: String = A::show(second);
                assert(shows::<A>(first, v@));
                assert(shows::<A>(second, w@));
                r.append(before);
                r.append(v.as_str());
                r.append(between);
                r.append(w.as_str());
                r.append(after);
                assert(r@ == before@ + v@ + between@ + w@ + after@);
            },
            Reason::Cell { before, cell, between, value, after } => {
                let v: String = A::show(value);
                assert(shows::<A>(value, v@));
                r.append(before);
                append_decimal(&mut r, cell);
                r.append(between);
                r.append(v.as_str());
                r.append(after);
                assert(r@ == before@ + decimal(cell as nat) + between@ + v@ + after@);
            },
            Reason::Depth { cell, value, step } => {
                let v: String = A::show(value);
                assert(shows::<A>(value, v@));
                r.append("depth at cell ");
                append_decimal(&mut r, cell);
                r.append(" is ");
                r.append(v.as_str());
                r.append(" at step ");
                append_decimal(&mut r, step);
                r.append("; must be finite and non-negative");
                assert(r@ == "depth at cell "@ + decimal(cell as nat) + " is "@ + v@ + " at step "@ + decimal(
                    step as nat,
                ) + "; must be finite and non-negative"@);
            },
            Reason::Line { line, good, bad } => {
                r.append("line ");
                append_decimal(&mut r, line);
                r.append(": column ");
                append_decimal(&mut r, good);
                r.append(" parses but column ");
                append_decimal(&mut r, bad);
                r.append(" does not — refusing to pair values across rows (fix or drop the line)");
                assert(r@ == "line "@ + decimal(line as nat) + ": column "@ + decimal(good as nat)
                    + " parses but column "@ + decimal(bad as nat)
                    + " does not — refusing to pair values across rows (fix or drop the line)"@);
            },
            Reason::Source { index, row, col, rows, cols } => {
                r.append("source ");
                append_decimal(&mut r, index);
                r.append(" at (row ");
                append_decimal(&mut r, row);
                r.append(", col ");
                append_decimal(&mut r, col);
                r.append(") lies outside the ");
                append_decimal(&mut r, rows);
                r.append("x");
                append_decimal(&mut r, cols);
                r.append(" mesh");
                assert(r@ == "source "@ + decimal(index as nat) + " at (row "@ + decimal(row as nat) + ", col "@
                    + decimal(col as nat) + ") lies outside the "@ + decimal(rows as nat) + "x"@ + decimal(
                    cols as nat,
                ) + " mesh"@);
            },
        }
        r
    }
}

impl Error {
    /// `text` is the message of the error.
    pub open spec fn says<A: Arithmetic>(self, text: Seq<char>) -> bool {
        match self {
            Error::InvalidParameter { name, reason } => exists|t: Seq<char>| #[trigger]
                reason.says::<A>(t) && text == "invalid parameter `"@ + name@ + "`: "@ + t,
            Error::GridSizeMismatch { expected, got, ncols, nrows } => text == "grid size mismatch: expected "@
                + decimal(expected as nat) + " values for "@ + decimal(ncols as nat) + "x"@ + decimal(nrows as nat)
                + " grid, got "@ + decimal(got as nat),
            Error::SusceptibilityOutOfRange { cell, value } => exists|v: Seq<char>| #[trigger]
                shows::<A>(value, v) && text == "susceptibility value at cell "@ + decimal(cell as nat) + " is "@ + v
                    + ", expected within [0, 1]"@,
            Error::GridMismatch { susc_cols, susc_rows, forc_cols, forc_rows } => text
                == "grid mismatch: susceptibility is "@ + decimal(susc_cols as nat) + "x"@ + decimal(susc_rows as nat)
                + " but forcing is "@ + decimal(forc_cols as nat) + "x"@ + decimal(forc_rows as nat),
            Error::OutOfRange { name, index, len } => text == name@ + " index "@ + decimal(index as nat)
                + " is out of range ("@ + decimal(len as nat) + " "@ + name@ + "s available)"@,
            Error::Engine { engine, reason } => text == engine@ + " engine error: "@ + reason@,
            Error::Parse(reason) => exists|t: Seq<char>| #[trigger]
                reason.says::<A>(t) && text == "failed to parse forcing series: "@ + t,
        }
    }

    /// The message of the error.
    pub fn message<A: Arithmetic>(&self) -> (r: String)
        ensures
            self.says::<A>(r@),
    {
        let mut r: String = String::new();
        match self {
            Error::InvalidParameter { name, reason } => {
                let t: String = reason.wording::<A>();
                r.append("invalid parameter `");
                r.append(name);
                r.append("`: ");
                r.append(t.as_str());
                assert(r@ == "invalid parameter `"@ + name@ + "`: "@ + t@);
            },
            Error::GridSizeMismatch { expected, got, ncols, nrows } => {
                r.append("grid size mismatch: expected ");
                append_decimal(&mut r, *expected);
                r.append(" values for ");
                append_decimal(&mut r, *ncols);
                r.append("x");
                append_decimal(&mut r, *nrows);
                r.append(" grid, got ");
                append_decimal(&mut r, *got);
                assert(r@ == "grid size mismatch: expected "@ + decimal(*expected as nat) + " values for "@ + decimal(
                    *ncols as nat,
                ) + "x"@ + decimal(*nrows as nat) + " grid, got "@ + decimal(*got as nat));
            },
            Error::SusceptibilityOutOfRange { cell, value } => {
                let v: String = A::show(*value);
                assert(shows::<A>(*value, v@));
                r.append("susceptibility value at cell ");
                append_decimal(&mut r, *cell);
                r.append(" is ");
                r.append(v.as_str());
                r.append(", expected within [0, 1]");
                assert(r@ == "susceptibility value at cell "@ + decimal(*cell as nat) + " is "@ + v@
                    + ", expected within [0, 1]"@);
            },
            Error::GridMismatch { susc_cols, susc_rows, forc_cols, forc_rows } => {
                r.append("grid mismatch: susceptibility is ");
                append_decimal(&mut r, *susc_cols);
                r.append("x");
                append_decimal(&mut r, *susc_rows);
                r.append(" but forcing is ");
                append_decimal(&mut r, *forc_cols);
                r.append("x");
                append_decimal(&mut r, *forc_rows);
                assert(r@ == "grid mismatch: susceptibility is "@ + decimal(*susc_cols as nat) + "x"@ + decimal(
                    *susc_rows as nat,
                ) + " but forcing is "@ + decimal(*forc_cols as nat) + "x"@ + decimal(*forc_rows as nat));
            },
            Error::OutOfRange { name, index, len } => {
                r.append(name);
                r.append(" index ");
                append_decimal(&mut r, *index);
                r.append(" is out of range (");
                append_decimal(&mut r, *len);
                r.append(" ");
                r.append(name);
                r.append("s available)");
                assert(r@ == name@ + " index "@ + decimal(*index as nat) + " is out of range ("@ + decimal(*len as nat)
                    + " "@ + name@ + "s available)"@);
            },
            Error::Engine { engine, reason } => {
                r.append(engine);
                r.append(" engine error: ");
                r.append(reason.as_str());
                assert(r@ == engine@ + " engine error: "@ + reason@);
            },
            Error::Parse(reason) => {
                let t: String = reason.wording::<A>();
                r.append("failed to parse forcing series: ");
                r.append(t.as_str());
                assert(r@ == "failed to parse forcing series: "@ + t@);
            },
        }
        r
    }
}

} // verus!
