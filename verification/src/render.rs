//! Drawing a graph back onto a grid of characters.
//!
//! Every anchor puts its character into its cell. Every segment then fills
//! the cells strictly between its two anchors with the glyph of its stroke, so
//! that an anchor is never painted over by the segments that end in it.
use crate::graph::{Graph, GraphView};
use crate::position::{LineColumn, Node};
use crate::stroke::{Brush, Edge};
use vstd::prelude::*;

verus! {

/// A row with the character `c` in column `column`; the row is filled up
/// with blanks where it was too short.
pub open spec fn row_with(row: Seq<char>, column: int, c: char) -> Seq<char> {
    if row.len() <= column {
        (row + Seq::new((column - row.len()) as nat, |i: int| ' ')).push(c)
    } else {
        row.update(column, c)
    }
}

/// A grid with the character `c` in the cell at line `line` (from 1) and
/// column `column` (from 0); rows are added where the grid was too short.
pub open spec fn grid_with(grid: Seq<Seq<char>>, line: int, column: int, c: char) -> Seq<Seq<char>> {
    let tall = if grid.len() < line {
        grid + Seq::new((line - grid.len()) as nat, |i: int| Seq::<char>::empty())
    } else {
        grid
    };
    tall.update(line - 1, row_with(tall[line - 1], column, c))
}

/// The number of whole numbers strictly between `low` and `high`.
pub open spec fn gap(low: int, high: int) -> nat {
    if high > low + 1 {
        (high - low - 1) as nat
    } else {
        0
    }
}

/// The cells strictly between the anchors of a segment, as line and column,
/// from the anchor `v`, which comes first in the text, towards `u`.
///
/// A vertical stroke fills the column of `v`, a horizontal one its row. A
/// diagonal goes down a row with each column it moves, east or west, and stops
/// at the row or the column of `u`, whichever it meets first.
pub open spec fn between(v: LineColumn, u: LineColumn, brush: Brush) -> Seq<(int, int)> {
    match brush {
        Brush::NorthSouth(_) => Seq::new(gap(v.line as int, u.line as int), |k: int| (v.line + 1 + k, v.column as int)),
        Brush::EastWest(_) => Seq::new(
            gap(v.column as int, u.column as int),
            |k: int| (v.line as int, v.column + 1 + k),
        ),
        Brush::NorthEastSouthWest(_) => Seq::new(
            vstd::math::min(gap(v.line as int, u.line as int) as int, gap(u.column as int, v.column as int) as int) as nat,
            |k: int| (v.line + 1 + k, v.column - 1 - k),
        ),
        Brush::NorthWestSouthEast(_) => Seq::new(
            vstd::math::min(gap(v.line as int, u.line as int) as int, gap(v.column as int, u.column as int) as int) as nat,
            |k: int| (v.line + 1 + k, v.column + 1 + k),
        ),
    }
}

/// A grid with the character `c` in each of `cells`.
pub open spec fn filled(grid: Seq<Seq<char>>, cells: Seq<(int, int)>, c: char) -> Seq<Seq<char>>
    decreases cells.len(),
{
    if cells.len() == 0 {
        grid
    } else {
        grid_with(filled(grid, cells.drop_last(), c), cells.last().0, cells.last().1, c)
    }
}

/// A grid with each of `nodes` in its cell.
pub open spec fn with_anchors(grid: Seq<Seq<char>>, nodes: Seq<Node>) -> Seq<Seq<char>>
    decreases nodes.len(),
{
    if nodes.len() == 0 {
        grid
    } else {
        grid_with(
            with_anchors(grid, nodes.drop_last()),
            nodes.last().visual.line as int,
            nodes.last().visual.column as int,
            nodes.last().character,
        )
    }
}

/// A grid with the cells between the anchors of one segment filled.
pub open spec fn with_segment(grid: Seq<Seq<char>>, edge: (Node, Node, Edge)) -> Seq<Seq<char>> {
    let (v, u) = if edge.0.source.before(edge.1.source) {
        (edge.0.visual, edge.1.visual)
    } else {
        (edge.1.visual, edge.0.visual)
    };
    filled(grid, between(v, u, edge.2.1), edge.2.1.glyph())
}

/// A grid with the cells of each of `edges` filled, in order.
pub open spec fn with_segments(grid: Seq<Seq<char>>, edges: Seq<(Node, Node, Edge)>) -> Seq<Seq<char>>
    decreases edges.len(),
{
    if edges.len() == 0 {
        grid
    } else {
        with_segment(with_segments(grid, edges.drop_last()), edges.last())
    }
}

/// The rows of a grid in one text, a line break after each.
pub open spec fn flattened(grid: Seq<Seq<char>>) -> Seq<char>
    decreases grid.len(),
{
    if grid.len() == 0 {
        Seq::empty()
    } else {
        (flattened(grid.drop_last()) + grid.last()).push('\n')
    }
}

/// Whether a character is white space: one with the Unicode property
/// White_Space.
pub open spec fn is_space(c: char) -> bool {
    ('\u{9}' <= c && c <= '\u{d}') || c == ' ' || c == '\u{85}' || c == '\u{a0}' || c == '\u{1680}' || (
    '\u{2000}' <= c && c <= '\u{200a}') || c == '\u{2028}' || c == '\u{2029}' || c == '\u{202f}' || c
        == '\u{205f}' || c == '\u{3000}'
}

/// A text without the white space at its end.
pub open spec fn trimmed(text: Seq<char>) -> Seq<char>
    decreases text.len(),
{
    if text.len() > 0 && is_space(text.last()) {
        trimmed(text.drop_last())
    } else {
        text
    }
}

impl GraphView {
    /// Whether every anchor of the graph, and every end of a segment, lies
    /// on a line of the page: on line 1 or below.
    pub open spec fn on_page(self) -> bool {
        &&& forall|i: int| 0 <= i < self.nodes.len() ==> (#[trigger] self.nodes[i]).visual.line >= 1
        &&& forall|i: int|
            0 <= i < self.edges.len() ==> (#[trigger] self.edges[i]).0.visual.line >= 1 && self.edges[i].1.visual.line
                >= 1
    }

    /// The grid that the graph draws: its anchors first, then its segments.
    pub open spec fn grid(self) -> Seq<Seq<char>> {
        with_segments(with_anchors(Seq::empty(), self.nodes), self.edges)
    }

    /// The text that the graph draws: the rows of its grid, without the
    /// white space at the end.
    pub open spec fn text(self) -> Seq<char> {
        trimmed(flattened(self.grid()))
    }
}

/// The rows of a grid that is being drawn.
pub open spec fn rows_of(lines: Seq<Vec<char>>) -> Seq<Seq<char>> {
    lines.map_values(|row: Vec<char>| row@)
}

/// Whether a character is white space.
pub fn is_white_space(c: char) -> (b: bool)
    ensures
        b == is_space(c),
{
    ('\u{9}' <= c && c <= '\u{d}') || c == ' ' || c == '\u{85}' || c == '\u{a0}' || c == '\u{1680}' || (
    '\u{2000}' <= c && c <= '\u{200a}') || c == '\u{2028}' || c == '\u{2029}' || c == '\u{202f}' || c
        == '\u{205f}' || c == '\u{3000}'
}

/// Puts `c` into column `column` of a row.
fn put(row: &mut Vec<char>, column: usize, c: char)
    ensures
        final(row)@ == row_with(old(row)@, column as int, c),
{
    while row.len() < column
        invariant
            old(row)@.len() <= column ==> row@.len() <= column && row@ == old(row)@ + Seq::new(
                (row@.len() - old(row)@.len()) as nat,
                |i: int| ' ',
            ),
            old(row)@.len() > column ==> row@ == old(row)@,
        decreases column - row.len(),
    {
        row.push(' ');
        proof {
            assert(row@ =~= old(row)@ + Seq::new((row@.len() - old(row)@.len()) as nat, |i: int| ' '));
        }
    }
    if row.len() == column {
        proof {
            assert(old(row)@.len() <= column);
            assert(row@ =~= old(row)@ + Seq::new((column - old(row)@.len()) as nat, |i: int| ' '));
        }
        row.push(c);
    } else {
        row.set(column, c);
    }
}

/// Puts `c` into the cell at `at` of a grid.
fn draw(lines: &mut Vec<Vec<char>>, at: LineColumn, c: char)
    requires
        at.line >= 1,
    ensures
        rows_of(final(lines)@) == grid_with(rows_of(old(lines)@), at.line as int, at.column as int, c),
{
    while lines.len() < at.line
        invariant
            old(lines)@.len() < at.line ==> lines@.len() <= at.line && rows_of(lines@) == rows_of(old(lines)@)
                + Seq::new((lines@.len() - old(lines)@.len()) as nat, |i: int| Seq::<char>::empty()),
            old(lines)@.len() >= at.line ==> lines@ == old(lines)@,
        decreases at.line - lines.len(),
    {
        let ghost short = lines@;
        lines.push(Vec::new());
        proof {
            assert(rows_of(lines@) =~= rows_of(short).push(Seq::<char>::empty()));
            assert(rows_of(lines@) =~= rows_of(old(lines)@) + Seq::new(
                (lines@.len() - old(lines)@.len()) as nat,
                |i: int| Seq::<char>::empty(),
            ));
        }
    }
    let ghost tall = rows_of(lines@);
    put(&mut lines[at.line - 1], at.column, c);
    proof {
        assert(rows_of(lines@) =~= tall.update(at.line - 1, row_with(tall[at.line - 1], at.column as int, c)));
    }
}

/// The number of whole numbers strictly between `low` and `high`.
fn gap_of(low: usize, high: usize) -> (n: usize)
    ensures
        n == gap(low as int, high as int),
{
    if high > low && high - low > 1 {
        high - low - 1
    } else {
        0
    }
}

/// Fills the cells strictly between `v` and `u` with the glyph of `brush`.
fn fill(lines: &mut Vec<Vec<char>>, v: LineColumn, u: LineColumn, brush: Brush)
    requires
        v.line >= 1,
    ensures
        rows_of(final(lines)@) == filled(rows_of(old(lines)@), between(v, u, brush), brush.glyph()),
{
    let c = brush.character();
    let rows = gap_of(v.line, u.line);
    let east = gap_of(v.column, u.column);
    let west = gap_of(u.column, v.column);
    let n = match brush {
        Brush::NorthSouth(_) => rows,
        Brush::EastWest(_) => east,
        Brush::NorthEastSouthWest(_) => if rows < west {
            rows
        } else {
            west
        },
        Brush::NorthWestSouthEast(_) => if rows < east {
            rows
        } else {
            east
        },
    };
    let ghost cells = between(v, u, brush);
    let mut k: usize = 0;
    while k < n
        invariant
            k <= n,
            v.line >= 1,
            c == brush.glyph(),
            cells == between(v, u, brush),
            n == cells.len(),
            rows == gap(v.line as int, u.line as int),
            east == gap(v.column as int, u.column as int),
            west == gap(u.column as int, v.column as int),
            rows_of(lines@) == filled(rows_of(old(lines)@), cells.take(k as int), c),
        decreases n - k,
    {
        let at = match brush {
            Brush::NorthSouth(_) => LineColumn { line: v.line + 1 + k, column: v.column },
            Brush::EastWest(_) => LineColumn { line: v.line, column: v.column + 1 + k },
            Brush::NorthEastSouthWest(_) => LineColumn { line: v.line + 1 + k, column: v.column - 1 - k },
            Brush::NorthWestSouthEast(_) => LineColumn { line: v.line + 1 + k, column: v.column + 1 + k },
        };
        proof {
            assert(cells.take(k + 1).drop_last() =~= cells.take(k as int));
            assert(cells.take(k + 1).last() == (at.line as int, at.column as int));
        }
        draw(lines, at, c);
        k += 1;
    }
    proof {
        assert(cells.take(n as int) =~= cells);
    }
}

/// `String::push`: the character goes to the end of the string.
pub assume_specification[ String::push ](s: &mut String, ch: char)
    ensures
        final(s)@ == old(s)@.push(ch),
;

impl Graph {
    /// The text that the graph draws.
    pub fn to_string(&self) -> (text: String)
        requires
            self@.on_page(),
        ensures
            text@ == self@.text(),
    {
        let mut lines: Vec<Vec<char>> = Vec::new();
        proof {
            assert(rows_of(lines@) =~= Seq::<Seq<char>>::empty());
        }
        let nodes = self.nodes();
        let mut i: usize = 0;
        while i < nodes.len()
            invariant
                i <= nodes.len(),
                nodes@ == self@.nodes,
                self@.on_page(),
                rows_of(lines@) == with_anchors(Seq::empty(), nodes@.take(i as int)),
            decreases nodes.len() - i,
        {
            proof {
                assert(nodes@.take(i + 1).drop_last() =~= nodes@.take(i as int));
            }
            draw(&mut lines, nodes[i].visual, nodes[i].character);
            i += 1;
        }
        proof {
            assert(nodes@.take(i as int) =~= nodes@);
        }
        let edges = self.all_edges();
        let ghost anchored = rows_of(lines@);
        let mut i: usize = 0;
        while i < edges.len()
            invariant
                i <= edges.len(),
                edges@ == self@.edges,
                self@.on_page(),
                rows_of(lines@) == with_segments(anchored, edges@.take(i as int)),
            decreases edges.len() - i,
        {
            proof {
                assert(edges@.take(i + 1).drop_last() =~= edges@.take(i as int));
            }
            let (a, b, edge) = edges[i];
            if a.source < b.source {
                fill(&mut lines, a.visual, b.visual, edge.1);
            } else {
                fill(&mut lines, b.visual, a.visual, edge.1);
            }
            i += 1;
        }
        proof {
            assert(edges@.take(i as int) =~= edges@);
        }
        let mut flat: Vec<char> = Vec::new();
        let mut i: usize = 0;
        while i < lines.len()
            invariant
                i <= lines.len(),
                flat@ == flattened(rows_of(lines@).take(i as int)),
            decreases lines.len() - i,
        {
            proof {
                assert(rows_of(lines@).take(i + 1).drop_last() =~= rows_of(lines@).take(i as int));
            }
            let ghost head = flat@;
            let mut j: usize = 0;
            while j < lines[i].len()
                invariant
                    i < lines.len(),
                    j <= lines[i as int].len(),
                    flat@ == head + lines[i as int]@.take(j as int),
                decreases lines[i as int].len() - j,
            {
                flat.push(lines[i][j]);
                proof {
                    assert(lines[i as int]@.take(j + 1) =~= lines[i as int]@.take(j as int).push(
                        lines[i as int]@[j as int],
                    ));
                    assert(flat@ =~= head + lines[i as int]@.take(j + 1));
                }
                j += 1;
            }
            proof {
                assert(lines[i as int]@.take(j as int) =~= lines[i as int]@);
            }
            flat.push('\n');
            i += 1;
        }
        proof {
            assert(rows_of(lines@).take(i as int) =~= rows_of(lines@));
        }
        let mut end: usize = flat.len();
        proof {
            assert(flat@.take(end as int) =~= flat@);
        }
        while end > 0 && is_white_space(flat[end - 1])
            invariant
                end <= flat.len(),
                trimmed(flat@) == trimmed(flat@.take(end as int)),
            decreases end,
        {
            proof {
                assert(flat@.take(end as int).drop_last() =~= flat@.take(end - 1));
            }
            end -= 1;
        }
        let mut text = String::new();
        let mut i: usize = 0;
        while i < end
            invariant
                i <= end,
                end <= flat.len(),
                text@ == flat@.take(i as int),
            decreases end - i,
        {
            text.push(flat[i]);
            proof {
                assert(flat@.take(i + 1) =~= flat@.take(i as int).push(flat@[i as int]));
            }
            i += 1;
        }
        proof {
            assert(flat@.take(flat@.len() as int) =~= flat@);
        }
        text
    }
}

} // verus!
