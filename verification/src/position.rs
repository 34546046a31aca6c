//! Positions in the text, and the anchors that segments end in.
use std::cmp::Ordering;
use vstd::prelude::*;
use vstd::std_specs::cmp::{PartialEqSpecImpl, PartialOrdSpecImpl};

verus! {

/// A place in the text: lines count from 1, columns from 0.
///
/// Places are ordered by line first, then by column.
#[derive(Debug, Copy, Clone, PartialEq, Eq, Hash, Ord, Structural)]
pub struct LineColumn {
    pub line: usize,
    pub column: usize,
}

/// One of the five places within a character cell.
#[derive(Debug, Copy, Clone, PartialEq, Eq, Hash, Structural)]
pub enum Region {
    Center,
    North,
    East,
    South,
    West,
}

/// An anchor: a point of one character cell at which segments end.
///
/// `source` counts every character of the text, `visual` only those that take
/// up a column. The region pair names the row (north, centre, south) and the
/// side (west, centre, east) of the cell that the anchor sits in, so that
/// several segments can end in one cell without sharing an anchor.
///
/// Two anchors are the same when all four fields agree; they are ordered by
/// `source` alone.
#[derive(Debug, Copy, Clone, Eq, Hash)]
pub struct Node {
    pub character: char,
    pub source: LineColumn,
    pub visual: LineColumn,
    pub region: (Region, Region),
}

impl LineColumn {
    /// Whether `self` comes strictly before `other` in reading order.
    pub open spec fn before(self, other: LineColumn) -> bool {
        self.line < other.line || (self.line == other.line && self.column < other.column)
    }
}

/// Places are totally ordered: of two places that differ, one comes before
/// the other, and never both; what comes before a place comes before all that
/// follows it.
pub proof fn law_places_are_ordered(a: LineColumn, b: LineColumn, c: LineColumn)
    ensures
        !a.before(a),
        a != b ==> (a.before(b) <==> !b.before(a)),
        a.before(b) && b.before(c) ==> a.before(c),
{
}

impl PartialOrd for LineColumn {
    fn partial_cmp(&self, other: &Self) -> (r: Option<Ordering>) {
        if self.line < other.line {
            Some(Ordering::Less)
        } else if self.line > other.line {
            Some(Ordering::Greater)
        } else if self.column < other.column {
            Some(Ordering::Less)
        } else if self.column > other.column {
            Some(Ordering::Greater)
        } else {
            Some(Ordering::Equal)
        }
    }
}

impl PartialOrdSpecImpl for LineColumn {
    open spec fn obeys_partial_cmp_spec() -> bool {
        true
    }

    open spec fn partial_cmp_spec(&self, other: &Self) -> Option<Ordering> {
        if self.before(*other) {
            Some(Ordering::Less)
        } else if other.before(*self) {
            Some(Ordering::Greater)
        } else {
            Some(Ordering::Equal)
        }
    }
}

impl PartialEq for Node {
    fn eq(&self, other: &Self) -> (r: bool) {
        self.character == other.character && self.source == other.source && self.visual
            == other.visual && self.region.0 == other.region.0 && self.region.1 == other.region.1
    }
}

impl PartialEqSpecImpl for Node {
    open spec fn obeys_eq_spec() -> bool {
        true
    }

    open spec fn eq_spec(&self, other: &Self) -> bool {
        *self == *other
    }
}

impl PartialOrd for Node {
    fn partial_cmp(&self, other: &Self) -> (r: Option<Ordering>) {
        self.source.partial_cmp(&other.source)
    }
}

impl PartialOrdSpecImpl for Node {
    open spec fn obeys_partial_cmp_spec() -> bool {
        true
    }

    open spec fn partial_cmp_spec(&self, other: &Self) -> Option<Ordering> {
        if self.source.before(other.source) {
            Some(Ordering::Less)
        } else if other.source.before(self.source) {
            Some(Ordering::Greater)
        } else {
            Some(Ordering::Equal)
        }
    }
}

impl Node {
    /// The anchor of the same cell in another region.
    pub open spec fn at(self, row: Region, side: Region) -> Node {
        Node { region: (row, side), ..self }
    }

    /// The anchor of the same cell in another region.
    pub fn in_region(&self, row: Region, side: Region) -> (n: Node)
        ensures
            n == self.at(row, side),
    {
        Node { character: self.character, source: self.source, visual: self.visual, region: (row, side) }
    }
}

} // verus!
