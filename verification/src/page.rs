//! The page that a text lays out, and what it means for anchors, runs and
//! graphs to be true to it.
//!
//! A page is the text cut into rows, one character to a cell. An anchor is
//! true to the page when its cell holds its glyph, a run when the cells
//! between its two ends hold the glyph of its stroke. A graph covers a cell
//! when an anchor sits in it or a segment passes through it.
use crate::glyph::is_glyph;
use crate::graph::{joins, nodes_with, region_code, GraphView};
use crate::position::{LineColumn, Node, Region};
use crate::stroke::{Brush, Edge};
use vstd::prelude::*;

verus! {

/// Whether the cell at line `l` and column `c` of `page` holds the glyph
/// `ch`.
pub open spec fn shows(page: Seq<Seq<char>>, l: int, c: int, ch: char) -> bool {
    &&& is_glyph(ch)
    &&& 1 <= l <= page.len()
    &&& 0 <= c < page[l - 1].len()
    &&& page[l - 1][c] == ch
}

/// Whether the cell of an anchor holds the anchor's glyph.
pub open spec fn sits(page: Seq<Seq<char>>, n: Node) -> bool {
    shows(page, n.visual.line as int, n.visual.column as int, n.character)
}

/// Whether `later` holds all of `page`, cell for cell, and maybe more.
pub open spec fn extends(page: Seq<Seq<char>>, later: Seq<Seq<char>>) -> bool {
    &&& page.len() <= later.len()
    &&& forall|r: int|
        0 <= r < page.len() ==> (#[trigger] page[r]).len() <= later[r].len() && forall|c: int|
            0 <= c < page[r].len() ==> page[r][c] == #[trigger] later[r][c]
}

/// Whether a run of `brush` from `v` to `u` is straight: both are one cell,
/// or `u` lies from `v` where the stroke leads.
pub open spec fn straight(v: LineColumn, u: LineColumn, brush: Brush) -> bool {
    v == u || match brush {
        Brush::NorthSouth(_) => v.column == u.column && v.line < u.line,
        Brush::EastWest(_) => v.line == u.line && v.column < u.column,
        Brush::NorthWestSouthEast(_) => v.line < u.line && u.column - v.column == u.line - v.line,
        Brush::NorthEastSouthWest(_) => v.line < u.line && v.column - u.column == u.line - v.line,
    }
}

/// Whether the cell at line `l` and column `c` lies strictly between the
/// ends `v` and `u` of a straight run of `brush`.
pub open spec fn inside(v: LineColumn, u: LineColumn, brush: Brush, l: int, c: int) -> bool {
    match brush {
        Brush::NorthSouth(_) => c == v.column && v.line < l < u.line,
        Brush::EastWest(_) => l == v.line && v.column < c < u.column,
        Brush::NorthWestSouthEast(_) => v.line < l < u.line && c - v.column == l - v.line,
        Brush::NorthEastSouthWest(_) => v.line < l < u.line && v.column - c == l - v.line,
    }
}

/// Whether the cell at line `l` and column `c` is an end of the run from `v`
/// to `u` or lies inside it.
pub open spec fn along(v: LineColumn, u: LineColumn, brush: Brush, l: int, c: int) -> bool {
    (l == v.line && c == v.column) || (l == u.line && c == u.column) || inside(v, u, brush, l, c)
}

/// Whether one region of a cell comes before another: north before centre
/// before south, and in one row west before centre before east.
pub open spec fn region_leads(r: (Region, Region), s: (Region, Region)) -> bool {
    region_code(r.0) < region_code(s.0) || (region_code(r.0) == region_code(s.0) && region_code(r.1)
        < region_code(s.1))
}

/// Whether the anchor `a` leads the anchor `b`: it comes first in the text,
/// or it is an anchor of the same cell in a region that comes first.
pub open spec fn leads(a: Node, b: Node) -> bool {
    a.source.before(b.source) || (a.source == b.source && a.visual == b.visual && a.character == b.character
        && region_leads(a.region, b.region))
}

/// Whether a run of `brush` from the anchor `a` to the anchor `b` is true to
/// the page: both anchors sit in their cells, `a` leads `b`, the run is
/// straight, and every cell inside it holds the glyph of the stroke.
pub open spec fn run_true(page: Seq<Seq<char>>, a: Node, b: Node, brush: Brush) -> bool {
    &&& sits(page, a)
    &&& sits(page, b)
    &&& leads(a, b)
    &&& a.source.before(b.source) || a.visual == b.visual
    &&& straight(a.visual, b.visual, brush)
    &&& forall|l: int, c: int| #[trigger]
        inside(a.visual, b.visual, brush, l, c) ==> shows(page, l, c, brush.glyph())
}

/// The two ends of a segment in the order in which it is drawn: the one that
/// comes first in the text first.
pub open spec fn drawn_from(e: (Node, Node, Edge)) -> (LineColumn, LineColumn) {
    if e.0.source.before(e.1.source) {
        (e.0.visual, e.1.visual)
    } else {
        (e.1.visual, e.0.visual)
    }
}

/// Whether a segment of a graph is true to the page: it is a run from its
/// first anchor to its second that is true to the page.
pub open spec fn edge_true(page: Seq<Seq<char>>, e: (Node, Node, Edge)) -> bool {
    &&& sits(page, e.0)
    &&& sits(page, e.1)
    &&& leads(e.0, e.1)
    &&& straight(drawn_from(e).0, drawn_from(e).1, e.2.1)
    &&& forall|l: int, c: int| #[trigger]
        inside(drawn_from(e).0, drawn_from(e).1, e.2.1, l, c) ==> shows(page, l, c, e.2.1.glyph())
}

/// Whether a segment of a graph has an end in the cell at line `l` and
/// column `c` or passes through it.
pub open spec fn edge_covers(e: (Node, Node, Edge), l: int, c: int) -> bool {
    along(drawn_from(e).0, drawn_from(e).1, e.2.1, l, c)
}

/// Whether the cell at line `l` and column `c` and the cell at line `m` and
/// column `d` both lie along the run from `v` to `u`.
pub open spec fn run_spans(v: LineColumn, u: LineColumn, brush: Brush, l: int, c: int, m: int, d: int) -> bool {
    along(v, u, brush, l, c) && along(v, u, brush, m, d)
}

/// Whether a segment of a graph covers both the cell at line `l` and column
/// `c` and the cell at line `m` and column `d`.
pub open spec fn edge_spans(e: (Node, Node, Edge), l: int, c: int, m: int, d: int) -> bool {
    edge_covers(e, l, c) && edge_covers(e, m, d)
}

impl GraphView {
    /// Whether the graph is true to the page: every anchor sits in its cell,
    /// every segment is true to the page, no two segments join the same two
    /// anchors, and the graph holds both ends of each of its segments as
    /// anchors.
    pub open spec fn true_to(self, page: Seq<Seq<char>>) -> bool {
        &&& forall|i: int| 0 <= i < self.nodes.len() ==> sits(page, #[trigger] self.nodes[i])
        &&& forall|i: int| 0 <= i < self.edges.len() ==> edge_true(page, #[trigger] self.edges[i])
        &&& forall|i: int, j: int|
            0 <= i < self.edges.len() && 0 <= j < self.edges.len() && (#[trigger] self.edges[i]).0 == (
            #[trigger] self.edges[j]).0 && self.edges[i].1 == self.edges[j].1 ==> i == j
        &&& forall|i: int|
            0 <= i < self.edges.len() ==> self.nodes.contains((#[trigger] self.edges[i]).0)
                && self.nodes.contains(self.edges[i].1)
    }

    /// Whether one segment of the graph covers both the cell at line `l` and
    /// column `c` and the cell at line `m` and column `d`.
    pub open spec fn spans(self, l: int, c: int, m: int, d: int) -> bool {
        exists|i: int| 0 <= i < self.edges.len() && edge_spans(#[trigger] self.edges[i], l, c, m, d)
    }

    /// Whether a segment of the graph has an end in the cell at line `l` and
    /// column `c` or passes through it.
    pub open spec fn covers(self, l: int, c: int) -> bool {
        self.spans(l, c, l, c)
    }
}

/// A graph that is true to a page has all its anchors on lines of the page.
pub proof fn lemma_on_page(g: GraphView, page: Seq<Seq<char>>)
    requires
        g.true_to(page),
    ensures
        g.on_page(),
{
    assert forall|i: int| 0 <= i < g.nodes.len() implies (#[trigger] g.nodes[i]).visual.line >= 1 by {
        assert(sits(page, g.nodes[i]));
    }
    assert forall|i: int| 0 <= i < g.edges.len() implies (#[trigger] g.edges[i]).0.visual.line >= 1
        && g.edges[i].1.visual.line >= 1 by {
        assert(edge_true(page, g.edges[i]));
    }
}

/// What is true to a page is true to every page that holds it.
pub proof fn lemma_shows_later(page: Seq<Seq<char>>, later: Seq<Seq<char>>, l: int, c: int, ch: char)
    requires
        extends(page, later),
        shows(page, l, c, ch),
    ensures
        shows(later, l, c, ch),
{
    assert(page[l - 1].len() <= later[l - 1].len());
    assert(page[l - 1][c] == later[l - 1][c]);
}

/// A run that is true to a page is true to every page that holds it.
pub proof fn lemma_run_later(page: Seq<Seq<char>>, later: Seq<Seq<char>>, a: Node, b: Node, brush: Brush)
    requires
        extends(page, later),
        run_true(page, a, b, brush),
    ensures
        run_true(later, a, b, brush),
{
    lemma_shows_later(page, later, a.visual.line as int, a.visual.column as int, a.character);
    lemma_shows_later(page, later, b.visual.line as int, b.visual.column as int, b.character);
    assert forall|l: int, c: int| #[trigger] inside(a.visual, b.visual, brush, l, c) implies shows(
        later,
        l,
        c,
        brush.glyph(),
    ) by {
        lemma_shows_later(page, later, l, c, brush.glyph());
    }
}

/// A graph that is true to a page is true to every page that holds it.
pub proof fn lemma_graph_later(g: GraphView, page: Seq<Seq<char>>, later: Seq<Seq<char>>)
    requires
        extends(page, later),
        g.true_to(page),
    ensures
        g.true_to(later),
{
    assert forall|i: int| 0 <= i < g.nodes.len() implies sits(later, #[trigger] g.nodes[i]) by {
        let n = g.nodes[i];
        lemma_shows_later(page, later, n.visual.line as int, n.visual.column as int, n.character);
    }
    assert forall|i: int| 0 <= i < g.edges.len() implies edge_true(later, #[trigger] g.edges[i]) by {
        let e = g.edges[i];
        assert(edge_true(page, e));
        lemma_shows_later(page, later, e.0.visual.line as int, e.0.visual.column as int, e.0.character);
        lemma_shows_later(page, later, e.1.visual.line as int, e.1.visual.column as int, e.1.character);
        assert forall|l: int, c: int| #[trigger]
            inside(drawn_from(e).0, drawn_from(e).1, e.2.1, l, c) implies shows(later, l, c, e.2.1.glyph()) by {
            lemma_shows_later(page, later, l, c, e.2.1.glyph());
        }
    }
}

/// A run that is true to the page makes a segment that is, whichever of its
/// ends the graph files first.
pub proof fn lemma_run_makes_edge(page: Seq<Seq<char>>, a: Node, b: Node, w: Edge)
    requires
        run_true(page, a, b, w.1),
    ensures
        GraphView::files_first(a, b),
        edge_true(page, (a, b, w)),
        forall|l: int, c: int| along(a.visual, b.visual, w.1, l, c) <==> edge_covers((a, b, w), l, c),
{
    if a.source.before(b.source) {
        assert(!b.source.before(a.source));
    } else {
        assert(a.visual == b.visual);
        assert(!b.source.before(a.source));
    }
}

/// Putting a run that is true to the page into a graph that is true to it
/// leaves the graph true to the page. A segment of the graph then covers
/// every two cells that one segment covered before, and every two cells along
/// the run.
pub proof fn lemma_with_edge_true(g: GraphView, page: Seq<Seq<char>>, a: Node, b: Node, w: Edge)
    requires
        g.true_to(page),
        run_true(page, a, b, w.1),
    ensures
        g.with_edge(a, b, w).true_to(page),
        forall|l: int, c: int, m: int, d: int|
            g.spans(l, c, m, d) ==> #[trigger] g.with_edge(a, b, w).spans(l, c, m, d),
        forall|l: int, c: int, m: int, d: int|
            run_spans(a.visual, b.visual, w.1, l, c, m, d) ==> #[trigger] g.with_edge(a, b, w).spans(l, c, m, d),
{
    let h = g.with_edge(a, b, w);
    let (p, q) = (a, b);
    lemma_run_makes_edge(page, a, b, w);
    assert(edge_true(page, (p, q, w)));
    let once = nodes_with(g.nodes, a);
    let twice = nodes_with(once, b);
    assert forall|i: int| 0 <= i < h.nodes.len() implies sits(page, #[trigger] h.nodes[i]) by {
        if i < g.nodes.len() {
            assert(h.nodes[i] == g.nodes[i]);
        } else if i < once.len() {
            assert(h.nodes[i] == once[i]);
        }
    }
    assert forall|i: int| 0 <= i < h.edges.len() implies edge_true(page, #[trigger] h.edges[i]) by {
        if i < g.edges.len() {
            assert(edge_true(page, g.edges[i]));
        }
    }
    assert forall|i: int| 0 <= i < h.edges.len() implies h.nodes.contains((#[trigger] h.edges[i]).0)
        && h.nodes.contains(h.edges[i].1) by {
        if joins(g.edges, p, q) {
            assert(g.nodes.contains(g.edges[i].0) && g.nodes.contains(g.edges[i].1));
        } else {
            assert(once.contains(a)) by {
                if !g.nodes.contains(a) {
                    assert(once[once.len() - 1] == a);
                }
            }
            assert(twice.contains(b)) by {
                if !once.contains(b) {
                    assert(twice[twice.len() - 1] == b);
                }
            }
            assert(twice.contains(a)) by {
                let k = choose|k: int| 0 <= k < once.len() && once[k] == a;
                assert(twice[k] == a);
            }
            if i < g.edges.len() {
                assert(h.edges[i] == g.edges[i]);
                let e = g.edges[i];
                assert(g.nodes.contains(e.0) && g.nodes.contains(e.1));
                let k0 = choose|k: int| 0 <= k < g.nodes.len() && g.nodes[k] == e.0;
                let k1 = choose|k: int| 0 <= k < g.nodes.len() && g.nodes[k] == e.1;
                assert(once[k0] == e.0 && twice[k0] == e.0);
                assert(once[k1] == e.1 && twice[k1] == e.1);
            }
        }
    }
    assert forall|l: int, c: int, m: int, d: int| g.spans(l, c, m, d) implies #[trigger] h.spans(l, c, m, d) by {
        let i = choose|i: int| 0 <= i < g.edges.len() && edge_spans(#[trigger] g.edges[i], l, c, m, d);
        let e = g.edges[i];
        assert(edge_true(page, e));
        if e.0 == p && e.1 == q {
            assert(h.edges[i] == (p, q, w));
            lemma_same_ends_cover(e, (p, q, w), l, c);
            lemma_same_ends_cover(e, (p, q, w), m, d);
        } else {
            assert(h.edges[i] == e);
        }
        assert(edge_spans(h.edges[i], l, c, m, d));
    }
    assert forall|l: int, c: int, m: int, d: int| run_spans(a.visual, b.visual, w.1, l, c, m, d) implies #[trigger] h.spans(
        l,
        c,
        m,
        d,
    ) by {
        if joins(g.edges, p, q) {
            let i = choose|i: int| 0 <= i < g.edges.len() && (#[trigger] g.edges[i]).0 == p && g.edges[i].1 == q;
            assert(h.edges[i] == (p, q, w));
            assert(edge_spans(h.edges[i], l, c, m, d));
        } else {
            assert(h.edges[h.edges.len() - 1] == (p, q, w));
            assert(edge_spans(h.edges[h.edges.len() - 1], l, c, m, d));
        }
    }
}

/// Two straight segments between the same two anchors pass through the same
/// cells, whatever their strokes.
pub proof fn lemma_same_ends_cover(e: (Node, Node, Edge), f: (Node, Node, Edge), l: int, c: int)
    requires
        e.0 == f.0,
        e.1 == f.1,
        straight(drawn_from(e).0, drawn_from(e).1, e.2.1),
        straight(drawn_from(f).0, drawn_from(f).1, f.2.1),
        edge_covers(e, l, c),
    ensures
        edge_covers(f, l, c),
{
}

} // verus!
