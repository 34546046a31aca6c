//! What holds of scanning, drawing and cleaning together.
use crate::clean::{joined, kept, lines_of, normalized, sieved};
use crate::drawing::{lemma_grid, lemma_tight_is_one, painted, plain};
use crate::faithful::{glyph_at, lemma_page_grows, lemma_parsed, marks_apart, page_of, page_with};
use crate::glyph::{combining_mark, is_glyph};
use crate::graph::GraphView;
use crate::render::{flattened, is_space, trimmed};
use crate::page::{edge_covers, edge_true};
use crate::position::LineColumn;
use crate::runs::{back, lemma_parsed_runs, run_back};
use crate::single::{
    edge_whole, graph_sited, lemma_parsed_sited, lemma_parsed_whole, lemma_same_ends, sited, stroke_at,
};
use crate::scan::{parsed, Scan};
use crate::stroke::Brush;
use vstd::prelude::*;

verus! {

/// Every cell of the page that a text lays out holds a glyph or a blank.
pub proof fn lemma_page_plain(text: Seq<char>)
    ensures
        plain(page_of(text)),
        page_of(text).len() >= 1,
    decreases text.len(),
{
    let page = page_of(text);
    if text.len() == 0 {
        assert(page =~= seq![Seq::<char>::empty()]);
        assert forall|l: int, c: int| is_glyph(#[trigger] painted(page, l, c)) || painted(page, l, c) == ' ' by {}
    } else {
        let front = text.drop_last();
        let before = page_of(front);
        lemma_page_plain(front);
        lemma_page_grows(text);
        let k = kept(text.last(), combining_mark(text.last()));
        assert(page == page_with(before, k));
        assert forall|l: int, c: int| is_glyph(#[trigger] painted(page, l, c)) || painted(page, l, c) == ' ' by {
            assert(is_glyph(painted(before, l, c)) || painted(before, l, c) == ' ');
            if 1 <= l <= page.len() && 0 <= c < page[l - 1].len() {
                if l <= before.len() && c < before[l - 1].len() {
                    assert(painted(page, l, c) == painted(before, l, c));
                }
            }
        }
    }
}

/// A row without a blank at its end that agrees, cell for cell, with a row
/// of glyphs and blanks is that row without the white space at its end.
pub proof fn lemma_row_trim(g: Seq<char>, p: Seq<char>)
    requires
        g.len() > 0 ==> g.last() != ' ',
        forall|c: int| 0 <= c < p.len() ==> is_glyph(#[trigger] p[c]) || p[c] == ' ',
        forall|c: int| 0 <= c < g.len() ==> c < p.len() && #[trigger] g[c] == p[c],
        forall|c: int| g.len() <= c < p.len() ==> #[trigger] p[c] == ' ',
    ensures
        trimmed(p) == g,
    decreases p.len(),
{
    if p.len() > 0 && is_space(p.last()) {
        assert(p.last() == ' ');
        assert(g.len() < p.len()) by {
            if g.len() >= p.len() {
                assert(g[p.len() - 1] == p[p.len() - 1]);
            }
        }
        lemma_row_trim(g, p.drop_last());
    } else if p.len() > 0 {
        assert(is_glyph(p.last()));
        assert(g.len() == p.len()) by {
            if g.len() < p.len() {
                assert(p[p.len() - 1] == ' ');
            }
        }
        assert(g =~= p);
    } else {
        assert(g =~= p);
    }
}

/// Whether `grid` is `rows` without the empty rows at its end.
pub open spec fn core_of(grid: Seq<Seq<char>>, rows: Seq<Seq<char>>) -> bool {
    &&& grid.len() <= rows.len()
    &&& forall|r: int| 0 <= r < grid.len() ==> #[trigger] grid[r] == rows[r]
    &&& forall|r: int| grid.len() <= r < rows.len() ==> (#[trigger] rows[r]).len() == 0
    &&& grid.len() > 0 ==> grid.last().len() > 0
}

/// Rows with a line break after each are the rows with a line break between
/// each two, and one more line break.
pub proof fn lemma_flattened(grid: Seq<Seq<char>>)
    requires
        grid.len() > 0,
    ensures
        flattened(grid) == joined(grid).push('\n'),
    decreases grid.len(),
{
    if grid.len() == 1 {
        assert(grid.drop_last().len() == 0);
        assert(flattened(grid.drop_last()) =~= Seq::<char>::empty());
        assert(flattened(grid) =~= grid[0].push('\n'));
    } else {
        lemma_flattened(grid.drop_last());
        assert(flattened(grid) =~= joined(grid).push('\n'));
    }
}

/// Rows put together and trimmed are their core, each row ended by a line
/// break, trimmed.
pub proof fn lemma_join_core(grid: Seq<Seq<char>>, rows: Seq<Seq<char>>)
    requires
        core_of(grid, rows),
    ensures
        trimmed(joined(rows)) == trimmed(flattened(grid)),
    decreases rows.len(),
{
    if rows.len() == grid.len() {
        assert(rows =~= grid);
        if grid.len() > 0 {
            lemma_flattened(grid);
            assert(joined(grid).push('\n').drop_last() =~= joined(grid));
        }
    } else {
        assert(rows[rows.len() - 1].len() == 0);
        if rows.len() == 1 {
            assert(grid.len() == 0);
            assert(joined(rows) =~= Seq::<char>::empty());
        } else {
            let front = rows.drop_last();
            assert(joined(rows) =~= joined(front).push('\n'));
            assert(joined(front).push('\n').drop_last() =~= joined(front));
            assert forall|r: int| 0 <= r < grid.len() implies #[trigger] grid[r] == front[r] by {
                assert(grid[r] == rows[r]);
            }
            assert forall|r: int| grid.len() <= r < front.len() implies (#[trigger] front[r]).len() == 0 by {
                assert(front[r] == rows[r]);
            }
            lemma_join_core(grid, front);
        }
    }
}

/// The round-trip law: the drawing of the graph that a text stands for is
/// the cleaned text, without the white space at its end.
///
/// The law holds of every text in which no glyph and no line break is a
/// combining mark, and which is short enough for its positions to be
/// counted.
pub proof fn law_round_trip(text: Seq<char>)
    requires
        marks_apart(text),
        text.len() + 3 <= usize::MAX,
    ensures
        parsed(text).text() == trimmed(normalized(text)),
{
    let page = page_of(text);
    let g = parsed(text);
    lemma_parsed(text);
    lemma_page_plain(text);
    assert forall|l: int, c: int| is_glyph(#[trigger] painted(page, l, c)) implies g.covers(l, c) by {
        assert(glyph_at(page, l, c));
    }
    lemma_grid(g, page);
    let grid = g.grid();
    let trim = |line: Seq<char>| trimmed(line);
    let rows = page.map_values(trim);
    assert(grid.len() <= page.len()) by {
        if grid.len() > page.len() {
            let l = grid.len() as int;
            let c = grid.last().len() - 1;
            assert(painted(grid, l, c) == grid.last().last());
            assert(painted(page, l, c) == ' ');
        }
    }
    assert forall|r: int| 0 <= r < page.len() implies #[trigger] rows[r] == (if r < grid.len() {
        grid[r]
    } else {
        Seq::<char>::empty()
    }) by {
        let p = page[r];
        let row = if r < grid.len() {
            grid[r]
        } else {
            Seq::<char>::empty()
        };
        assert forall|c: int| 0 <= c < p.len() implies is_glyph(#[trigger] p[c]) || p[c] == ' ' by {
            assert(painted(page, r + 1, c) == p[c]);
        }
        assert forall|c: int| 0 <= c < row.len() implies c < p.len() && #[trigger] row[c] == p[c] by {
            assert(painted(grid, r + 1, c) == row[c]);
            assert(painted(page, r + 1, c) == row[c]);
            if c >= p.len() {
                let last = row.len() - 1;
                assert(painted(grid, r + 1, last) == row.last());
                assert(painted(page, r + 1, last) == ' ');
            }
        }
        assert forall|c: int| row.len() <= c < p.len() implies #[trigger] p[c] == ' ' by {
            assert(painted(grid, r + 1, c) == ' ');
            assert(painted(page, r + 1, c) == p[c]);
        }
        lemma_row_trim(row, p);
    }
    let lines = lines_of(sieved(text)).map_values(trim);
    assert(normalized(text) == joined(lines));
    if page.last().len() == 0 {
        assert(lines =~= rows.drop_last());
        assert(grid.len() < page.len()) by {
            if grid.len() == page.len() {
                assert(rows[page.len() - 1] == grid[page.len() - 1]);
                assert(trimmed(page.last()) == page.last());
            }
        }
    } else {
        assert(lines =~= rows);
    }
    assert(core_of(grid, lines));
    lemma_join_core(grid, lines);
}

/// The scan is true to its text: every anchor of the graph that a text
/// stands for sits in a cell that holds its glyph, every segment is straight
/// and passes only through cells that hold the glyph of its stroke, and every
/// glyph of the text is an anchor's or lies on a segment.
///
/// The law holds of the texts of which the round-trip law holds.
pub proof fn law_scan_is_true(text: Seq<char>)
    requires
        marks_apart(text),
        text.len() + 3 <= usize::MAX,
    ensures
        parsed(text).true_to(page_of(text)),
        forall|l: int, c: int| #[trigger] glyph_at(page_of(text), l, c) ==> parsed(text).covers(l, c),
{
    lemma_parsed(text);
}

/// Runs are whole: where cells that follow one another along a stroke all
/// hold the glyph of the stroke, the first and the last of them lie on one
/// segment of the graph that the text stands for. `k` is the number of steps
/// from the first cell to the last, the cell at line `l` and column `c`.
///
/// The law holds of the texts of which the round-trip law holds.
pub proof fn law_runs_are_whole(text: Seq<char>, brush: Brush, l: int, c: int, k: int)
    requires
        marks_apart(text),
        text.len() + 3 <= usize::MAX,
        run_back(page_of(text), brush, l, c, k),
    ensures
        parsed(text).spans(l, c, back(brush, l, c, k).0, back(brush, l, c, k).1),
{
    lemma_parsed_runs(text, brush, l, c, k);
}

/// No stroke lies on two segments: if two segments of the graph that a text
/// stands for cover one cell that holds a stroke, they are one segment.
///
/// With the law that runs are whole, every run of one stroke lies on one
/// segment and on no other. The law holds of the texts of which the
/// round-trip law holds.
pub proof fn law_strokes_are_single(text: Seq<char>, i: int, j: int, l: int, c: int)
    requires
        marks_apart(text),
        text.len() + 3 <= usize::MAX,
        stroke_at(page_of(text), l, c),
        0 <= i < parsed(text).edges.len(),
        0 <= j < parsed(text).edges.len(),
        edge_covers(parsed(text).edges[i], l, c),
        edge_covers(parsed(text).edges[j], l, c),
    ensures
        i == j,
{
    let g = parsed(text);
    let page = page_of(text);
    lemma_parsed(text);
    lemma_parsed_whole(text);
    lemma_parsed_sited(text);
    let sites = choose|sites: Map<(int, int), LineColumn>| #[trigger] graph_sited(g, sites);
    let e = g.edges[i];
    let f = g.edges[j];
    assert(edge_true(page, e) && edge_true(page, f));
    assert(edge_whole(page, e, page.len() as int + 2, 0) && edge_whole(page, f, page.len() as int + 2, 0));
    lemma_same_ends(page, e, f, page.len() as int + 2, 0, l, c);
    assert(sited(sites, e.0) && sited(sites, f.0) && sited(sites, e.1) && sited(sites, f.1));
    assert(e.0 == f.0);
    assert(e.1 == f.1);
}

/// The end of the text ends every run: once the cell past the end of the
/// text is resolved, no run is pending and none is in building.
///
/// The law holds of the texts of which the round-trip law holds.
pub proof fn law_end_ends_all(text: Seq<char>)
    requires
        marks_apart(text),
        text.len() + 3 <= usize::MAX,
    ensures
        Scan::scanned(text).at_end().step().ports.len() == 0,
        Scan::scanned(text).at_end().step().tx is Initial,
{
    lemma_parsed(text);
}

/// The drawing does not hang on the order of the graph: two graphs that are
/// true to one page, and cover every glyph on it, draw the same text, in
/// whatever order they hold their anchors and segments.
pub proof fn law_drawing_needs_no_order(g: GraphView, h: GraphView, page: Seq<Seq<char>>)
    requires
        plain(page),
        g.true_to(page),
        h.true_to(page),
        forall|l: int, c: int| is_glyph(#[trigger] painted(page, l, c)) ==> g.covers(l, c) && h.covers(l, c),
    ensures
        g.grid() == h.grid(),
        g.text() == h.text(),
{
    lemma_grid(g, page);
    lemma_grid(h, page);
    assert forall|l: int, c: int| #[trigger] painted(g.grid(), l, c) == painted(h.grid(), l, c) by {
        assert(painted(g.grid(), l, c) == painted(page, l, c));
        assert(painted(h.grid(), l, c) == painted(page, l, c));
    }
    lemma_tight_is_one(g.grid(), h.grid());
}

/// Drawing is a function of the graph: two drawings of one graph are the
/// same text.
pub proof fn law_drawing_is_one(g: GraphView, first: Seq<char>, second: Seq<char>)
    requires
        first == g.text(),
        second == g.text(),
    ensures
        first == second,
{
}

/// Scanning is a function of the text: two scans of one text hold the same
/// anchors and the same segments, in the same order.
pub proof fn law_scanning_is_one(text: Seq<char>, first: GraphView, second: GraphView)
    requires
        first == parsed(text),
        second == parsed(text),
    ensures
        first.nodes == second.nodes,
        first.edges == second.edges,
{
}

} // verus!
