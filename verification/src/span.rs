//! Positions and spans inside a file's text.

use vstd::prelude::*;

verus! {

/// A position within a file, both as (row, column) and as byte offset.
/// All three coordinates are 0-based.
#[derive(Clone, Copy, Debug, Hash, PartialEq, Eq, Structural)]
pub struct Position {
    pub byte: usize,
    pub row: usize,
    pub column: usize,
}

impl Position {
    pub fn new(byte: usize, row: usize, column: usize) -> (p: Position)
        ensures
            p == (Position { byte, row, column }),
    {
        Position { byte, row, column }
    }
}

/// Positions ordered by (byte, row, column).
pub open spec fn pos_le(a: Position, b: Position) -> bool {
    if a.byte != b.byte {
        a.byte < b.byte
    } else if a.row != b.row {
        a.row < b.row
    } else {
        a.column <= b.column
    }
}

/// An inclusive range of text within a file.
#[derive(Clone, Copy, Debug, Hash, PartialEq, Eq, Structural)]
pub struct Span {
    pub start: Position,
    pub end: Position,
}

impl Span {
    pub fn new(start: Position, end: Position) -> (s: Span)
        ensures
            s == (Span { start, end }),
    {
        Span { start, end }
    }
}

/// Spans ordered by start ascending, then end descending, so that an
/// enclosing span precedes an enclosed one.
pub open spec fn span_le(a: Span, b: Span) -> bool {
    if a.start != b.start {
        pos_le(a.start, b.start)
    } else {
        pos_le(b.end, a.end)
    }
}

/// `a` encloses `b`: both byte and row ranges of `b` lie inside `a`'s.
pub open spec fn span_encloses(a: Span, b: Span) -> bool {
    a.start.byte <= b.start.byte && b.end.byte <= a.end.byte && a.start.row <= b.start.row
        && b.end.row <= a.end.row
}

/// Decide `pos_le` on two positions.
pub fn pos_le_x(a: &Position, b: &Position) -> (r: bool)
    ensures
        r == pos_le(*a, *b),
{
    if a.byte != b.byte {
        a.byte < b.byte
    } else if a.row != b.row {
        a.row < b.row
    } else {
        a.column <= b.column
    }
}

/// Decide `span_le` on two spans.
pub fn span_le_x(a: &Span, b: &Span) -> (r: bool)
    ensures
        r == span_le(*a, *b),
{
    if a.start.byte != b.start.byte || a.start.row != b.start.row || a.start.column
        != b.start.column {
        pos_le_x(&a.start, &b.start)
    } else {
        pos_le_x(&b.end, &a.end)
    }
}

/// Decide `span_encloses`.
pub fn span_encloses_x(a: &Span, b: &Span) -> (r: bool)
    ensures
        r == span_encloses(*a, *b),
{
    a.start.byte <= b.start.byte && b.end.byte <= a.end.byte && a.start.row <= b.start.row
        && b.end.row <= a.end.row
}

/// Like `Position`, but possibly only the row is known. Diff hunks know
/// only line numbers.
#[derive(Clone, Copy, Debug, Hash, PartialEq, Eq, Structural)]
pub enum PartialPosition {
    Row(usize),
    Whole(Position),
}

impl PartialPosition {
    pub fn byte(&self) -> (r: Option<usize>)
        ensures
            r == (match *self {
                PartialPosition::Whole(w) => Some(w.byte),
                _ => None::<usize>,
            }),
    {
        match self {
            PartialPosition::Whole(w) => Some(w.byte),
            _ => None,
        }
    }

    pub fn row(&self) -> (r: usize)
        ensures
            r == (match *self {
                PartialPosition::Row(row) => row,
                PartialPosition::Whole(w) => w.row,
            }),
    {
        match self {
            PartialPosition::Row(r) => *r,
            PartialPosition::Whole(w) => w.row,
        }
    }

    pub fn column(&self) -> (r: Option<usize>)
        ensures
            r == (match *self {
                PartialPosition::Whole(w) => Some(w.column),
                _ => None::<usize>,
            }),
    {
        match self {
            PartialPosition::Whole(w) => Some(w.column),
            _ => None,
        }
    }
}

/// Like `Span`, but possibly only the rows are known.
#[derive(Clone, Copy, Debug, Hash, PartialEq, Eq, Structural)]
pub enum PartialSpan {
    Row(usize, usize),
    Whole(Span),
}

impl PartialSpan {
    pub fn start_byte(&self) -> (r: Option<usize>)
        ensures
            r == (match *self {
                PartialSpan::Whole(w) => Some(w.start.byte),
                _ => None::<usize>,
            }),
    {
        match self {
            PartialSpan::Whole(w) => Some(w.start.byte),
            _ => None,
        }
    }

    pub fn start_row(&self) -> (r: usize)
        ensures
            r == (match *self {
                PartialSpan::Row(s, _) => s,
                PartialSpan::Whole(w) => w.start.row,
            }),
    {
        match self {
            PartialSpan::Row(s, _) => *s,
            PartialSpan::Whole(w) => w.start.row,
        }
    }

    pub fn start_column(&self) -> (r: Option<usize>)
        ensures
            r == (match *self {
                PartialSpan::Whole(w) => Some(w.start.column),
                _ => None::<usize>,
            }),
    {
        match self {
            PartialSpan::Whole(w) => Some(w.start.column),
            _ => None,
        }
    }

    pub fn end_byte(&self) -> (r: Option<usize>)
        ensures
            r == (match *self {
                PartialSpan::Whole(w) => Some(w.end.byte),
                _ => None::<usize>,
            }),
    {
        match self {
            PartialSpan::Whole(w) => Some(w.end.byte),
            _ => None,
        }
    }

    pub fn end_row(&self) -> (r: usize)
        ensures
            r == (match *self {
                PartialSpan::Row(_, e) => e,
                PartialSpan::Whole(w) => w.end.row,
            }),
    {
        match self {
            PartialSpan::Row(_, e) => *e,
            PartialSpan::Whole(w) => w.end.row,
        }
    }

    pub fn end_column(&self) -> (r: Option<usize>)
        ensures
            r == (match *self {
                PartialSpan::Whole(w) => Some(w.end.column),
                _ => None::<usize>,
            }),
    {
        match self {
            PartialSpan::Whole(w) => Some(w.end.column),
            _ => None,
        }
    }
}

} // verus!
