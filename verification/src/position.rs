//! Positions in a document, as the parser and as the editor protocol count them.

use vstd::prelude::*;

verus! {

/// A zero-based (row, column) pair as the parser reports it.
#[derive(Clone, Copy, Debug, PartialEq, Eq, Structural)]
pub struct Point {
    pub row: usize,
    pub column: usize,
}

/// A zero-based (line, character) pair as the editor protocol carries it.
#[derive(Clone, Copy, Debug, PartialEq, Eq, Structural)]
pub struct Position {
    pub line: u32,
    pub character: u32,
}

/// A span between two parser points; `end` is the boundary of the span.
#[derive(Clone, Copy, Debug, PartialEq, Eq, Structural)]
pub struct Span {
    pub start: Point,
    pub end: Point,
}

/// A span between two protocol positions; `end` is the boundary of the span.
#[derive(Clone, Copy, Debug, PartialEq, Eq, Structural)]
pub struct Range {
    pub start: Position,
    pub end: Position,
}

/// A span in a document: what a definition query answers with.
#[derive(Clone, Debug, PartialEq, Eq)]
pub struct Location {
    pub uri: String,
    pub range: Range,
}

/// The mathematical content of a [`Location`].
pub ghost struct LocationView {
    pub uri: Seq<char>,
    pub range: Range,
}

impl View for Location {
    type V = LocationView;

    open spec fn view(&self) -> LocationView {
        LocationView { uri: self.uri@, range: self.range }
    }
}

/// The protocol position of a parser point: the low 32 bits of each
/// coordinate.
pub open spec fn position_of(point: Point) -> Position {
    Position { line: point.row as u32, character: point.column as u32 }
}

/// The parser point of a protocol position.
pub open spec fn point_of(position: Position) -> Point {
    Point { row: position.line as usize, column: position.character as usize }
}

/// The protocol range of a parser span.
pub open spec fn range_of(span: Span) -> Range {
    Range { start: position_of(span.start), end: position_of(span.end) }
}

/// Converts a parser point to a protocol position, keeping the low 32 bits
/// of each coordinate.
pub fn to_position(point: Point) -> (position: Position)
    ensures
        position == position_of(point),
        point.row <= u32::MAX ==> position.line == point.row,
        point.column <= u32::MAX ==> position.character == point.column,
{
    Position { line: point.row as u32, character: point.column as u32 }
}

/// Converts a parser span to a protocol range, end by end.
pub fn to_range(span: Span) -> (range: Range)
    ensures
        range == range_of(span),
{
    Range { start: to_position(span.start), end: to_position(span.end) }
}

/// Converts a protocol position to a parser point; no coordinate changes.
pub fn to_point(position: Position) -> (point: Point)
    ensures
        point == point_of(position),
        point.row == position.line,
        point.column == position.character,
{
    Point { row: position.line as usize, column: position.character as usize }
}

} // verus!
