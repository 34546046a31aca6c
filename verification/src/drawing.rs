//! What a graph that is true to a page draws.
//!
//! A grid that is drawn cell by cell from a page, a glyph at a time, agrees
//! with the page wherever it is not blank, and has no blank at the end of a
//! row and no empty row at its end. Once every glyph of the page is drawn, the
//! grid is the page without the blanks at the end of its rows.
use crate::glyph::is_glyph;
use crate::graph::GraphView;
use crate::page::{drawn_from, edge_spans, edge_true, inside, shows, sits, straight};
use crate::position::{LineColumn, Node};
use crate::render::{between, filled, grid_with, row_with, with_anchors, with_segment, with_segments};
use crate::stroke::{Brush, Edge};
use vstd::prelude::*;

verus! {

/// The character in the cell at line `l` and column `c` of a grid, a blank
/// where the grid has no such cell.
pub open spec fn painted(grid: Seq<Seq<char>>, l: int, c: int) -> char {
    if 1 <= l <= grid.len() && 0 <= c < grid[l - 1].len() {
        grid[l - 1][c]
    } else {
        ' '
    }
}

/// Whether a grid has no blank at the end of a row and no empty row at its
/// end.
pub open spec fn tight(grid: Seq<Seq<char>>) -> bool {
    &&& forall|r: int| 0 <= r < grid.len() && (#[trigger] grid[r]).len() > 0 ==> grid[r].last() != ' '
    &&& grid.len() > 0 ==> grid.last().len() > 0
}

/// Whether a grid is tight and holds, in each cell, a blank or what the
/// page holds there.
pub open spec fn drawn_from_page(grid: Seq<Seq<char>>, page: Seq<Seq<char>>) -> bool {
    &&& tight(grid)
    &&& forall|l: int, c: int| #[trigger] painted(grid, l, c) == ' ' || painted(grid, l, c) == painted(page, l, c)
}

/// Whether the cell at line `l` and column `c` of the page holds a glyph
/// that the grid holds too.
pub open spec fn done(grid: Seq<Seq<char>>, page: Seq<Seq<char>>, l: int, c: int) -> bool {
    is_glyph(painted(page, l, c)) && painted(grid, l, c) == painted(page, l, c)
}

/// Drawing a character changes the cell that it is drawn in and no other.
pub proof fn lemma_grid_with(grid: Seq<Seq<char>>, l: int, c: int, ch: char)
    requires
        l >= 1,
        c >= 0,
    ensures
        painted(grid_with(grid, l, c, ch), l, c) == ch,
        forall|l2: int, c2: int|
            l2 != l || c2 != c ==> #[trigger] painted(grid_with(grid, l, c, ch), l2, c2) == painted(grid, l2, c2),
        tight(grid) && ch != ' ' ==> tight(grid_with(grid, l, c, ch)),
{
    let tall = if grid.len() < l {
        grid + Seq::new((l - grid.len()) as nat, |i: int| Seq::<char>::empty())
    } else {
        grid
    };
    let row = tall[l - 1];
    let wide = row_with(row, c, ch);
    let after = grid_with(grid, l, c, ch);
    assert(after == tall.update(l - 1, wide));
    assert(wide.len() > c && wide[c] == ch);
    assert forall|l2: int, c2: int| l2 != l || c2 != c implies #[trigger] painted(after, l2, c2) == painted(
        grid,
        l2,
        c2,
    ) by {
        if 1 <= l2 <= after.len() {
            if l2 == l {
                if 0 <= c2 < wide.len() {
                    if row.len() <= c {
                        if c2 < row.len() {
                            assert(wide[c2] == row[c2]);
                        } else {
                            assert(wide[c2] == ' ');
                        }
                    } else {
                        assert(wide[c2] == row[c2]);
                    }
                }
            } else {
                assert(after[l2 - 1] == tall[l2 - 1]);
            }
        }
    }
    if tight(grid) && ch != ' ' {
        assert forall|r: int| 0 <= r < after.len() && (#[trigger] after[r]).len() > 0 implies after[r].last()
            != ' ' by {
            if r == l - 1 {
                if row.len() <= c {
                    assert(wide.last() == ch);
                } else if c == row.len() - 1 {
                    assert(wide.last() == ch);
                } else {
                    assert(wide.last() == row.last());
                    assert(grid[r].last() != ' ');
                }
            } else {
                assert(after[r] == tall[r]);
                if r < grid.len() {
                    assert(grid[r].last() != ' ');
                }
            }
        }
    }
}

/// Drawing a glyph of the page into its cell keeps a grid drawn from the
/// page; what was drawn stays drawn, and the cell is drawn.
pub proof fn lemma_draw(grid: Seq<Seq<char>>, page: Seq<Seq<char>>, l: int, c: int, ch: char)
    requires
        drawn_from_page(grid, page),
        shows(page, l, c, ch),
    ensures
        drawn_from_page(grid_with(grid, l, c, ch), page),
        forall|l2: int, c2: int| done(grid, page, l2, c2) ==> #[trigger] done(grid_with(grid, l, c, ch), page, l2, c2),
        done(grid_with(grid, l, c, ch), page, l, c),
{
    lemma_grid_with(grid, l, c, ch);
    let after = grid_with(grid, l, c, ch);
    assert(painted(page, l, c) == ch);
    assert forall|l2: int, c2: int| #[trigger] painted(after, l2, c2) == ' ' || painted(after, l2, c2) == painted(
        page,
        l2,
        c2,
    ) by {
        if l2 != l || c2 != c {
            assert(painted(after, l2, c2) == painted(grid, l2, c2));
            assert(painted(grid, l2, c2) == ' ' || painted(grid, l2, c2) == painted(page, l2, c2));
        }
    }
    assert forall|l2: int, c2: int| done(grid, page, l2, c2) implies #[trigger] done(after, page, l2, c2) by {
        if l2 != l || c2 != c {
            assert(painted(after, l2, c2) == painted(grid, l2, c2));
        }
    }
}

/// Filling cells that hold a glyph on the page with that glyph keeps a grid
/// drawn from the page; what was drawn stays drawn, and the cells are drawn.
pub proof fn lemma_filled(grid: Seq<Seq<char>>, page: Seq<Seq<char>>, cells: Seq<(int, int)>, ch: char)
    requires
        drawn_from_page(grid, page),
        forall|k: int| 0 <= k < cells.len() ==> shows(page, (#[trigger] cells[k]).0, cells[k].1, ch),
    ensures
        drawn_from_page(filled(grid, cells, ch), page),
        forall|l: int, c: int| done(grid, page, l, c) ==> #[trigger] done(filled(grid, cells, ch), page, l, c),
        forall|k: int| 0 <= k < cells.len() ==> done(filled(grid, cells, ch), page, (#[trigger] cells[k]).0, cells[k].1),
    decreases cells.len(),
{
    if cells.len() > 0 {
        let front = cells.drop_last();
        let last = cells.last();
        assert forall|k: int| 0 <= k < front.len() implies shows(page, (#[trigger] front[k]).0, front[k].1, ch) by {
            assert(front[k] == cells[k]);
        }
        lemma_filled(grid, page, front, ch);
        let mid = filled(grid, front, ch);
        assert(last == cells[cells.len() - 1]);
        lemma_draw(mid, page, last.0, last.1, ch);
        let after = filled(grid, cells, ch);
        assert forall|l: int, c: int| done(grid, page, l, c) implies #[trigger] done(after, page, l, c) by {
            assert(done(mid, page, l, c));
        }
        assert forall|k: int| 0 <= k < cells.len() implies done(after, page, (#[trigger] cells[k]).0, cells[k].1) by {
            if k < front.len() {
                assert(front[k] == cells[k]);
                assert(done(mid, page, front[k].0, front[k].1));
            }
        }
    }
}

/// The cells between the ends of a straight run are the cells inside it.
pub proof fn lemma_between(v: LineColumn, u: LineColumn, brush: Brush)
    requires
        straight(v, u, brush),
    ensures
        forall|k: int|
            0 <= k < between(v, u, brush).len() ==> inside(
                v,
                u,
                brush,
                (#[trigger] between(v, u, brush)[k]).0,
                between(v, u, brush)[k].1,
            ),
        forall|l: int, c: int| #[trigger]
            inside(v, u, brush, l, c) ==> exists|k: int|
                0 <= k < between(v, u, brush).len() && #[trigger] between(v, u, brush)[k] == (l, c),
{
    let cells = between(v, u, brush);
    assert forall|l: int, c: int| #[trigger] inside(v, u, brush, l, c) implies exists|k: int|
        0 <= k < cells.len() && #[trigger] cells[k] == (l, c) by {
        let k = match brush {
            Brush::EastWest(_) => c - v.column - 1,
            _ => l - v.line - 1,
        };
        assert(0 <= k < cells.len());
        assert(cells[k] == (l, c));
    }
}

/// Filling a segment that is true to the page keeps a grid drawn from the
/// page; what was drawn stays drawn, and the cells inside the segment are
/// drawn.
pub proof fn lemma_segment(grid: Seq<Seq<char>>, page: Seq<Seq<char>>, e: (Node, Node, Edge))
    requires
        drawn_from_page(grid, page),
        edge_true(page, e),
    ensures
        drawn_from_page(with_segment(grid, e), page),
        forall|l: int, c: int| done(grid, page, l, c) ==> #[trigger] done(with_segment(grid, e), page, l, c),
        forall|l: int, c: int| #[trigger]
            inside(drawn_from(e).0, drawn_from(e).1, e.2.1, l, c) ==> done(with_segment(grid, e), page, l, c),
{
    let (v, u) = drawn_from(e);
    let brush = e.2.1;
    let cells = between(v, u, brush);
    lemma_between(v, u, brush);
    assert forall|k: int| 0 <= k < cells.len() implies shows(page, (#[trigger] cells[k]).0, cells[k].1, brush.glyph()) by {
        assert(inside(v, u, brush, cells[k].0, cells[k].1));
    }
    lemma_filled(grid, page, cells, brush.glyph());
    assert(with_segment(grid, e) == filled(grid, cells, brush.glyph()));
    assert forall|l: int, c: int| #[trigger] inside(v, u, brush, l, c) implies done(
        with_segment(grid, e),
        page,
        l,
        c,
    ) by {
        let k = choose|k: int| 0 <= k < cells.len() && #[trigger] cells[k] == (l, c);
        assert(done(filled(grid, cells, brush.glyph()), page, cells[k].0, cells[k].1));
    }
}

/// Filling segments that are true to the page keeps a grid drawn from the
/// page; what was drawn stays drawn, and the cells inside each segment are
/// drawn.
pub proof fn lemma_segments(grid: Seq<Seq<char>>, page: Seq<Seq<char>>, edges: Seq<(Node, Node, Edge)>)
    requires
        drawn_from_page(grid, page),
        forall|i: int| 0 <= i < edges.len() ==> edge_true(page, #[trigger] edges[i]),
    ensures
        drawn_from_page(with_segments(grid, edges), page),
        forall|l: int, c: int| done(grid, page, l, c) ==> #[trigger] done(with_segments(grid, edges), page, l, c),
        forall|i: int, l: int, c: int|
            0 <= i < edges.len() && #[trigger] inside(
                drawn_from(edges[i]).0,
                drawn_from(edges[i]).1,
                edges[i].2.1,
                l,
                c,
            ) ==> done(with_segments(grid, edges), page, l, c),
    decreases edges.len(),
{
    if edges.len() > 0 {
        let front = edges.drop_last();
        let last = edges.last();
        assert forall|i: int| 0 <= i < front.len() implies edge_true(page, #[trigger] front[i]) by {
            assert(front[i] == edges[i]);
        }
        lemma_segments(grid, page, front);
        let mid = with_segments(grid, front);
        assert(last == edges[edges.len() - 1]);
        lemma_segment(mid, page, last);
        let after = with_segments(grid, edges);
        assert forall|l: int, c: int| done(grid, page, l, c) implies #[trigger] done(after, page, l, c) by {
            assert(done(mid, page, l, c));
        }
        assert forall|i: int, l: int, c: int|
            0 <= i < edges.len() && #[trigger] inside(
                drawn_from(edges[i]).0,
                drawn_from(edges[i]).1,
                edges[i].2.1,
                l,
                c,
            ) implies done(after, page, l, c) by {
            if i < front.len() {
                assert(front[i] == edges[i]);
                assert(done(mid, page, l, c));
            }
        }
    }
}

/// Drawing anchors that sit in their cells makes a grid drawn from the
/// page, in which the cell of each anchor is drawn.
pub proof fn lemma_anchors(page: Seq<Seq<char>>, nodes: Seq<Node>)
    requires
        forall|i: int| 0 <= i < nodes.len() ==> sits(page, #[trigger] nodes[i]),
    ensures
        drawn_from_page(with_anchors(Seq::empty(), nodes), page),
        forall|i: int|
            0 <= i < nodes.len() ==> done(
                with_anchors(Seq::empty(), nodes),
                page,
                (#[trigger] nodes[i]).visual.line as int,
                nodes[i].visual.column as int,
            ),
    decreases nodes.len(),
{
    if nodes.len() > 0 {
        let front = nodes.drop_last();
        let last = nodes.last();
        assert forall|i: int| 0 <= i < front.len() implies sits(page, #[trigger] front[i]) by {
            assert(front[i] == nodes[i]);
        }
        lemma_anchors(page, front);
        let mid = with_anchors(Seq::empty(), front);
        assert(last == nodes[nodes.len() - 1]);
        lemma_draw(mid, page, last.visual.line as int, last.visual.column as int, last.character);
        let after = with_anchors(Seq::empty(), nodes);
        assert forall|i: int| 0 <= i < nodes.len() implies done(
            after,
            page,
            (#[trigger] nodes[i]).visual.line as int,
            nodes[i].visual.column as int,
        ) by {
            if i < front.len() {
                assert(front[i] == nodes[i]);
                assert(done(mid, page, front[i].visual.line as int, front[i].visual.column as int));
            }
        }
    }
}

/// Whether every cell of a page holds a glyph or a blank.
pub open spec fn plain(page: Seq<Seq<char>>) -> bool {
    forall|l: int, c: int| is_glyph(#[trigger] painted(page, l, c)) || painted(page, l, c) == ' '
}

/// A graph that is true to a page and covers every glyph on it draws a grid
/// that is tight and holds, in each cell, what the page holds there.
pub proof fn lemma_grid(g: GraphView, page: Seq<Seq<char>>)
    requires
        plain(page),
        g.true_to(page),
        forall|l: int, c: int| is_glyph(#[trigger] painted(page, l, c)) ==> g.covers(l, c),
    ensures
        tight(g.grid()),
        forall|l: int, c: int| #[trigger] painted(g.grid(), l, c) == painted(page, l, c),
{
    lemma_anchors(page, g.nodes);
    let base = with_anchors(Seq::empty(), g.nodes);
    lemma_segments(base, page, g.edges);
    let grid = g.grid();
    assert forall|l: int, c: int| #[trigger] painted(grid, l, c) == painted(page, l, c) by {
        if is_glyph(painted(page, l, c)) {
            assert(g.covers(l, c));
            let i = choose|i: int| 0 <= i < g.edges.len() && edge_spans(#[trigger] g.edges[i], l, c, l, c);
            let e = g.edges[i];
            let (v, u) = drawn_from(e);
            if inside(v, u, e.2.1, l, c) {
                assert(done(grid, page, l, c));
            } else {
                let n = if l == e.0.visual.line && c == e.0.visual.column {
                    e.0
                } else {
                    e.1
                };
                assert(g.nodes.contains(n));
                let k = choose|k: int| 0 <= k < g.nodes.len() && g.nodes[k] == n;
                assert(done(base, page, g.nodes[k].visual.line as int, g.nodes[k].visual.column as int));
                assert(done(grid, page, l, c));
            }
        } else {
            assert(painted(grid, l, c) == ' ' || painted(grid, l, c) == painted(page, l, c));
        }
    }
}

/// Two tight grids that hold the same character in every cell are the same
/// grid.
pub proof fn lemma_tight_is_one(g: Seq<Seq<char>>, h: Seq<Seq<char>>)
    requires
        tight(g),
        tight(h),
        forall|l: int, c: int| #[trigger] painted(g, l, c) == painted(h, l, c),
    ensures
        g == h,
{
    assert(g.len() == h.len()) by {
        if g.len() > h.len() {
            let c = g.last().len() - 1;
            assert(painted(g, g.len() as int, c) == g.last().last());
            assert(painted(h, g.len() as int, c) == ' ');
        }
        if h.len() > g.len() {
            let c = h.last().len() - 1;
            assert(painted(h, h.len() as int, c) == h.last().last());
            assert(painted(g, h.len() as int, c) == ' ');
        }
    }
    assert forall|r: int| 0 <= r < g.len() implies #[trigger] g[r] == h[r] by {
        if g[r].len() > h[r].len() {
            let c = g[r].len() - 1;
            assert(painted(g, r + 1, c) == g[r].last());
            assert(painted(h, r + 1, c) == ' ');
        }
        if h[r].len() > g[r].len() {
            let c = h[r].len() - 1;
            assert(painted(h, r + 1, c) == h[r].last());
            assert(painted(g, r + 1, c) == ' ');
        }
        assert forall|c: int| 0 <= c < g[r].len() implies g[r][c] == h[r][c] by {
            assert(painted(g, r + 1, c) == painted(h, r + 1, c));
        }
        assert(g[r] =~= h[r]);
    }
    assert(g =~= h);
}

} // verus!
