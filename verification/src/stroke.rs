//! What a segment is drawn with.
use crate::glyph::{falls, is_falling, is_horizontal, is_level, is_rising, is_upright, is_vertical, rises};
use crate::position::Region;
use vstd::prelude::*;

verus! {

/// The direction of a stroke and the glyph that draws it.
///
/// `NorthEastSouthWest` is the `/` diagonal, `NorthWestSouthEast` the `\` one.
#[derive(Debug, Copy, Clone, PartialEq, Eq, Hash, Structural)]
pub enum Brush {
    NorthSouth(char),
    EastWest(char),
    NorthEastSouthWest(char),
    NorthWestSouthEast(char),
}

/// The label of a segment: its stroke, between two optional end markers.
#[derive(Debug, Copy, Clone, PartialEq, Eq, Hash, Structural)]
pub struct Edge(pub Option<char>, pub Brush, pub Option<char>);

impl Brush {
    /// The glyph that draws the stroke.
    pub open spec fn glyph(self) -> char {
        match self {
            Brush::NorthSouth(c) => c,
            Brush::EastWest(c) => c,
            Brush::NorthEastSouthWest(c) => c,
            Brush::NorthWestSouthEast(c) => c,
        }
    }

    /// The glyph that draws the stroke.
    pub fn character(&self) -> (c: char)
        ensures
            c == self.glyph(),
    {
        match self {
            Brush::NorthSouth(c) => *c,
            Brush::EastWest(c) => *c,
            Brush::NorthEastSouthWest(c) => *c,
            Brush::NorthWestSouthEast(c) => *c,
        }
    }
}

impl Brush {
    /// The stroke that a stroke glyph draws through its cell; junctions and
    /// crossings draw none.
    pub open spec fn of_glyph(c: char) -> Option<Brush> {
        if is_upright(c) {
            Some(Brush::NorthSouth(c))
        } else if is_level(c) {
            Some(Brush::EastWest(c))
        } else if is_falling(c) {
            Some(Brush::NorthWestSouthEast(c))
        } else if is_rising(c) {
            Some(Brush::NorthEastSouthWest(c))
        } else {
            None
        }
    }

    /// The stroke that a stroke glyph draws through its cell.
    pub fn from_glyph(c: char) -> (b: Option<Brush>)
        ensures
            b == Brush::of_glyph(c),
    {
        if is_vertical(c) {
            Some(Brush::NorthSouth(c))
        } else if is_horizontal(c) {
            Some(Brush::EastWest(c))
        } else if falls(c) {
            Some(Brush::NorthWestSouthEast(c))
        } else if rises(c) {
            Some(Brush::NorthEastSouthWest(c))
        } else {
            None
        }
    }

    /// The region of its first cell in which a run of this stroke starts.
    pub open spec fn takeoff(self) -> (Region, Region) {
        match self {
            Brush::NorthSouth(_) => (Region::North, Region::Center),
            Brush::EastWest(_) => (Region::Center, Region::West),
            Brush::NorthEastSouthWest(_) => (Region::North, Region::East),
            Brush::NorthWestSouthEast(_) => (Region::North, Region::West),
        }
    }

    /// The region of its first cell in which a run of this stroke starts.
    pub fn start_region(&self) -> (r: (Region, Region))
        ensures
            r == self.takeoff(),
    {
        match self {
            Brush::NorthSouth(_) => (Region::North, Region::Center),
            Brush::EastWest(_) => (Region::Center, Region::West),
            Brush::NorthEastSouthWest(_) => (Region::North, Region::East),
            Brush::NorthWestSouthEast(_) => (Region::North, Region::West),
        }
    }

    /// The region of its last cell in which a run of this stroke ends.
    pub open spec fn landing(self) -> (Region, Region) {
        match self {
            Brush::NorthSouth(_) => (Region::South, Region::Center),
            Brush::EastWest(_) => (Region::Center, Region::East),
            Brush::NorthEastSouthWest(_) => (Region::South, Region::West),
            Brush::NorthWestSouthEast(_) => (Region::South, Region::East),
        }
    }

    /// The region of its last cell in which a run of this stroke ends.
    pub fn end_region(&self) -> (r: (Region, Region))
        ensures
            r == self.landing(),
    {
        match self {
            Brush::NorthSouth(_) => (Region::South, Region::Center),
            Brush::EastWest(_) => (Region::Center, Region::East),
            Brush::NorthEastSouthWest(_) => (Region::South, Region::West),
            Brush::NorthWestSouthEast(_) => (Region::South, Region::East),
        }
    }
}

impl Edge {
    /// The label of a plain segment drawn with `brush`.
    pub open spec fn plain(brush: Brush) -> Edge {
        Edge(None, brush, None)
    }

    /// The label of a plain segment drawn with `brush`.
    pub fn of(brush: Brush) -> (e: Edge)
        ensures
            e == Edge::plain(brush),
    {
        Edge(None, brush, None)
    }
}

} // verus!
