//! No stroke lies on two segments.
//!
//! A run of the scan starts where its stroke starts: in the first cell that
//! holds its glyph, or in the junction or crossing that opens it. It ends
//! where its stroke ends: in the last cell that holds its glyph, or in the
//! junction or crossing that takes it. Two segments that cover one cell of a
//! stroke therefore start and end in the same anchors, and are one segment.
use crate::clean::kept;
use crate::drawing::painted;
use crate::faithful::{
    building_before, building_true, cell_true, held_spans, held_true, lemma_all_end, lemma_building_later,
    lemma_closing, lemma_half, lemma_kinds_are_glyphs, lemma_page_grows, lemma_ports_true_later, lemma_reaches,
    lemma_scanned, lemma_taken, marks_apart, page_of, page_with, port_true, ports_before, ports_true,
};
use crate::glyph::{
    combining_mark, crown, east_arm, falling_half, is_glyph, is_level, level, level_weight, lone_west, north_arm,
    rising_half, south_arm, takes_up, upright, upright_weight, west_arm,
};
use crate::graph::GraphView;
use crate::page::{edge_covers, edge_true, inside, lemma_run_makes_edge, run_true, shows, sits, straight};
use crate::position::{LineColumn, Node, Region};
use crate::runs::{
    back, fed_by, feeds, grown, lemma_scanned_runs, lemma_scanned_seeds, lemma_sweep_keeps, lower_half,
    plain_stroke, reached, run_back, runs_kept, seeded, seeds_kept, through, tip, tipped, unpassed,
};
use crate::scan::{
    closed, descent, dropped, north_half, opened, parsed, queued, west_half, Fate, Met, Port, Scan, Sweep, Turn,
    Tx,
};
use crate::stroke::{Brush, Edge};
use vstd::prelude::*;

verus! {

/// Whether a junction or a crossing takes a run of `brush` that arrives in
/// its cell: its north arm has the weight of the vertical stroke, its west
/// arm takes the horizontal stroke up, or its upper half is drawn with the
/// glyph of the diagonal.
pub open spec fn takes(ch: char, brush: Brush) -> bool {
    match brush {
        Brush::NorthSouth(g) => upright_weight(g) is Some && north_arm(ch) == upright_weight(g),
        Brush::EastWest(g) => level_weight(g) is Some && takes_up(ch, level_weight(g)->0),
        Brush::NorthWestSouthEast(g) => falling_half(ch) == Some(g),
        Brush::NorthEastSouthWest(g) => rising_half(ch) == Some(g),
    }
}

/// Whether a run of `brush` can come out of the cell at line `l` and column
/// `c`: the cell holds the glyph of the stroke, or a junction or crossing
/// that opens it.
pub open spec fn outlet(page: Seq<Seq<char>>, brush: Brush, l: int, c: int) -> bool {
    painted(page, l, c) == brush.glyph() || feeds(painted(page, l, c), brush)
}

/// Whether a run of `brush` can go into the cell at line `l` and column `c`:
/// the cell holds the glyph of the stroke, or a junction or crossing that
/// takes it.
pub open spec fn inlet(page: Seq<Seq<char>>, brush: Brush, l: int, c: int) -> bool {
    painted(page, l, c) == brush.glyph() || takes(painted(page, l, c), brush)
}

/// Whether the cell at line `l` and column `c` lies behind the scan: in a
/// row above `row`, in that row west of column `width`, or west of every row.
pub open spec fn behind(l: int, c: int, row: int, width: int) -> bool {
    l < row || (l == row && c < width) || c < 0
}

/// Whether the cell at line `l` and column `c` of the page holds a stroke.
pub open spec fn stroke_at(page: Seq<Seq<char>>, l: int, c: int) -> bool {
    Brush::of_glyph(painted(page, l, c)) is Some
}

/// Whether a run of `brush` starts soundly in the anchor `n`: in the north
/// or west of a cell that holds the glyph of the stroke, with no way for the
/// stroke to come out of the cell before; or in the centre of a junction or
/// crossing that opens the stroke.
pub open spec fn start_sound(page: Seq<Seq<char>>, n: Node, brush: Brush) -> bool {
    let l = n.visual.line as int;
    let c = n.visual.column as int;
    ||| painted(page, l, c) == brush.glyph() && n.region == brush.takeoff() && !outlet(
        page,
        brush,
        back(brush, l, c, 1).0,
        back(brush, l, c, 1).1,
    )
    ||| feeds(painted(page, l, c), brush) && n.region == (Region::Center, Region::Center)
}

/// Whether a run of `brush` ends soundly in the anchor `n`: in the south or
/// east of a cell that holds the glyph of the stroke, with no way for the
/// stroke to go into the cell after, which lies behind the scan; or in the
/// centre of a junction or crossing that takes the stroke.
pub open spec fn end_sound(page: Seq<Seq<char>>, n: Node, brush: Brush, row: int, width: int) -> bool {
    let l = n.visual.line as int;
    let c = n.visual.column as int;
    ||| painted(page, l, c) == brush.glyph() && n.region == brush.landing() && !inlet(
        page,
        brush,
        back(brush, l, c, -1).0,
        back(brush, l, c, -1).1,
    ) && behind(back(brush, l, c, -1).0, back(brush, l, c, -1).1, row, width)
    ||| takes(painted(page, l, c), brush) && n.region == (Region::Center, Region::Center)
}

/// Whether a segment covers a cell of a stroke or more than one cell.
pub open spec fn weighty(page: Seq<Seq<char>>, e: (Node, Node, Edge)) -> bool {
    e.0.visual != e.1.visual || stroke_at(page, e.0.visual.line as int, e.0.visual.column as int)
}

/// Whether a segment is whole: if it covers a cell of a stroke, or more
/// than one cell, it is drawn with the stroke of its own glyph, and starts and
/// ends soundly.
pub open spec fn edge_whole(page: Seq<Seq<char>>, e: (Node, Node, Edge), row: int, width: int) -> bool {
    weighty(page, e) ==> plain_stroke(e.2.1) && start_sound(page, e.0, e.2.1) && end_sound(
        page,
        e.1,
        e.2.1,
        row,
        width,
    )
}

/// Whether every segment of a graph is whole.
pub open spec fn graph_whole(g: GraphView, page: Seq<Seq<char>>, row: int, width: int) -> bool {
    forall|i: int| 0 <= i < g.edges.len() ==> edge_whole(page, #[trigger] g.edges[i], row, width)
}

/// Whether a pending run is whole so far: it is drawn with the vertical or
/// diagonal stroke of its own glyph, starts soundly, ends in the south of its
/// last cell, and the stroke has no way into the cell after.
pub open spec fn port_whole(page: Seq<Seq<char>>, port: Port) -> bool {
    &&& plain_stroke(port.edge.1)
    &&& !(port.edge.1 is EastWest)
    &&& start_sound(page, port.start, port.edge.1)
    &&& port.end.region == port.edge.1.landing()
    &&& !inlet(
        page,
        port.edge.1,
        back(port.edge.1, port.end.visual.line as int, port.end.visual.column as int, -1).0,
        back(port.edge.1, port.end.visual.line as int, port.end.visual.column as int, -1).1,
    )
}

/// Whether each of `ports` is whole so far.
pub open spec fn ports_whole(page: Seq<Seq<char>>, ports: Seq<Port>) -> bool {
    forall|i: int| 0 <= i < ports.len() ==> port_whole(page, #[trigger] ports[i])
}

/// Whether the run in building, if there is one, is drawn with the
/// horizontal stroke of its own glyph and starts soundly.
pub open spec fn building_whole(page: Seq<Seq<char>>, tx: Tx) -> bool {
    tx matches Tx::Build { start, edge } ==> plain_stroke(edge.1) && edge.1 is EastWest && start_sound(
        page,
        start,
        edge.1,
    )
}

/// Strokes, junctions and crossings are apart: a stroke has no arm and no
/// half, and opens and takes nothing; a blank is none of them.
pub proof fn lemma_kinds_apart(ch: char)
    ensures
        Brush::of_glyph(ch) is Some ==> north_arm(ch) is None && south_arm(ch) is None && west_arm(ch) is None
            && east_arm(ch) is None && falling_half(ch) is None && rising_half(ch) is None,
        forall|brush: Brush| #[trigger] feeds(ch, brush) ==> Brush::of_glyph(ch) is None && is_glyph(ch),
        forall|brush: Brush| #[trigger] takes(ch, brush) ==> Brush::of_glyph(ch) is None && is_glyph(ch),
        forall|brush: Brush| plain_stroke(brush) ==> #[trigger] brush.glyph() != ' ' && is_glyph(brush.glyph()),
        Brush::of_glyph(' ') is None,
        forall|brush: Brush| !feeds(' ', brush) && !takes(' ', brush),
{
    lemma_kinds_are_glyphs(ch);
    assert forall|brush: Brush| #[trigger] takes(ch, brush) implies Brush::of_glyph(ch) is None && is_glyph(ch) by {
        match brush {
            Brush::EastWest(g) => {
                assert(west_arm(ch) is Some);
            },
            _ => {},
        }
    }
}

/// The grown page holds, in every cell but the new one, what the page holds.
pub proof fn lemma_painted_grown(page: Seq<Seq<char>>, later: Seq<Seq<char>>, row: int, width: int)
    requires
        grown(page, later, row, width),
    ensures
        forall|l: int, c: int| l != row || c != width ==> #[trigger] painted(later, l, c) == painted(page, l, c),
{
    assert forall|l: int, c: int| l != row || c != width implies #[trigger] painted(later, l, c) == painted(
        page,
        l,
        c,
    ) by {
        if 1 <= l <= row && 0 <= c {
            if l < row {
                assert(later[l - 1].len() == page[l - 1].len());
            }
            if c < page[l - 1].len() {
                assert(page[l - 1][c] == later[l - 1][c]);
            }
        }
    }
}

/// What starts soundly on a page starts soundly on the grown page.
pub proof fn lemma_start_later(
    page: Seq<Seq<char>>,
    later: Seq<Seq<char>>,
    row: int,
    width: int,
    n: Node,
    brush: Brush,
)
    requires
        grown(page, later, row, width),
        sits(page, n),
        start_sound(page, n, brush),
    ensures
        start_sound(later, n, brush),
{
    lemma_painted_grown(page, later, row, width);
    let l = n.visual.line as int;
    let c = n.visual.column as int;
    assert(painted(later, l, c) == painted(page, l, c));
    let b = back(brush, l, c, 1);
    assert(painted(later, b.0, b.1) == painted(page, b.0, b.1));
}

/// What ends soundly on a page ends soundly on the grown page.
pub proof fn lemma_end_later(
    page: Seq<Seq<char>>,
    later: Seq<Seq<char>>,
    row: int,
    width: int,
    n: Node,
    brush: Brush,
)
    requires
        grown(page, later, row, width),
        sits(page, n),
        end_sound(page, n, brush, row, width),
    ensures
        end_sound(later, n, brush, row, width + 1),
{
    lemma_painted_grown(page, later, row, width);
    let l = n.visual.line as int;
    let c = n.visual.column as int;
    assert(painted(later, l, c) == painted(page, l, c));
    let b = back(brush, l, c, -1);
    if behind(b.0, b.1, row, width) {
        assert(painted(later, b.0, b.1) == painted(page, b.0, b.1));
    }
}

/// A graph that is true to a page and whole stays whole on the grown page.
pub proof fn lemma_graph_whole_later(
    g: GraphView,
    page: Seq<Seq<char>>,
    later: Seq<Seq<char>>,
    row: int,
    width: int,
)
    requires
        grown(page, later, row, width),
        g.true_to(page),
        graph_whole(g, page, row, width),
    ensures
        graph_whole(g, later, row, width + 1),
{
    lemma_painted_grown(page, later, row, width);
    assert forall|i: int| 0 <= i < g.edges.len() implies edge_whole(later, #[trigger] g.edges[i], row, width + 1) by {
        let e = g.edges[i];
        assert(edge_true(page, e));
        assert(edge_whole(page, e, row, width));
        assert(painted(later, e.0.visual.line as int, e.0.visual.column as int) == painted(
            page,
            e.0.visual.line as int,
            e.0.visual.column as int,
        ));
        if weighty(later, e) {
            assert(weighty(page, e));
            lemma_start_later(page, later, row, width, e.0, e.2.1);
            lemma_end_later(page, later, row, width, e.1, e.2.1);
        }
    }
}

/// Putting a whole segment into a whole graph leaves the graph whole.
pub proof fn lemma_with_edge_whole(
    g: GraphView,
    page: Seq<Seq<char>>,
    row: int,
    width: int,
    a: Node,
    b: Node,
    w: Edge,
)
    requires
        graph_whole(g, page, row, width),
        run_true(page, a, b, w.1),
        edge_whole(page, (a, b, w), row, width),
    ensures
        graph_whole(g.with_edge(a, b, w), page, row, width),
{
    let h = g.with_edge(a, b, w);
    lemma_run_makes_edge(page, a, b, w);
    assert forall|i: int| 0 <= i < h.edges.len() implies edge_whole(page, #[trigger] h.edges[i], row, width) by {
        if i < g.edges.len() {
            assert(edge_whole(page, g.edges[i], row, width));
        }
    }
}

/// Whether the scan resolves the new cell of the grown page: `cell` is the
/// cell in row `row` and column `width`, and holds the glyph that the grown
/// page shows there, if it shows one.
pub open spec fn at_new_cell(later: Seq<Seq<char>>, cell: Node, row: int, width: int) -> bool {
    &&& cell.visual.line == row
    &&& cell.visual.column == width
    &&& cell_true(later, cell)
    &&& forall|x: char| shows(later, row, width, x) ==> x == cell.character
}

/// The new cell of the grown page holds the character that the scan
/// resolves, if that is a glyph, and no glyph otherwise. No cell lies below
/// it.
pub proof fn lemma_new_cell_holds(later: Seq<Seq<char>>, cell: Node, row: int, width: int)
    requires
        later.len() == row,
        at_new_cell(later, cell, row, width),
    ensures
        is_glyph(cell.character) ==> painted(later, row, width) == cell.character,
        !is_glyph(cell.character) ==> !is_glyph(painted(later, row, width)),
        forall|c: int| #[trigger] painted(later, row + 1, c) == ' ',
{
    let x = painted(later, row, width);
    if is_glyph(x) {
        assert(shows(later, row, width, x));
    }
}

/// A queue of whole runs with one more whole run is a queue of whole runs.
proof fn lemma_queued_whole(page: Seq<Seq<char>>, ports: Seq<Port>, port: Port)
    requires
        ports_whole(page, ports),
        port_whole(page, port),
    ensures
        ports_whole(page, queued(ports, port)),
{
}

/// The run that a junction sends down is whole.
proof fn lemma_descent_whole(later: Seq<Seq<char>>, cell: Node, row: int, width: int)
    requires
        later.len() == row,
        at_new_cell(later, cell, row, width),
        south_arm(cell.character) is Some,
    ensures
        port_whole(later, descent(cell, south_arm(cell.character)->0)),
{
    lemma_kinds_are_glyphs(cell.character);
    lemma_new_cell_holds(later, cell, row, width);
    lemma_kinds_apart(' ');
    assert(painted(later, row + 1, width) == ' ');
}

/// One pending run that takes the new cell leaves the graph and the
/// pending runs whole.
pub proof fn lemma_take_whole(
    sweep: Sweep,
    port: Port,
    cell: Node,
    page: Seq<Seq<char>>,
    later: Seq<Seq<char>>,
    row: int,
    width: int,
)
    requires
        grown(page, later, row, width),
        at_new_cell(later, cell, row, width),
        graph_whole(sweep.graph, later, row, width + 1),
        ports_whole(later, sweep.ports),
        port_whole(page, port),
        port_true(page, port),
        port_true(later, port),
        port.start.source.before(cell.source),
    ensures
        graph_whole(sweep.take(port, cell).graph, later, row, width + 1),
        ports_whole(later, sweep.take(port, cell).ports),
{
    let after = sweep.take(port, cell);
    let center = cell.at(Region::Center, Region::Center);
    let ch = cell.character;
    let brush = port.edge.1;
    let el = port.end.visual.line as int;
    let ec = port.end.visual.column as int;
    let next = back(brush, el, ec, -1);
    lemma_painted_grown(page, later, row, width);
    lemma_new_cell_holds(later, cell, row, width);
    lemma_kinds_apart(ch);
    lemma_kinds_apart(' ');
    lemma_kinds_apart(painted(later, row, width));
    lemma_start_later(page, later, row, width, port.start, brush);
    match port.fate(cell) {
        Fate::Continues => {
            let longer = reached(port, cell);
            assert(painted(later, row + 1, back(brush, row, width, -1).1) == ' ');
            assert(port_whole(later, longer));
            lemma_queued_whole(later, sweep.ports, longer);
        },
        Fate::Crosses => {
            lemma_reaches(later, port, cell, center);
            assert(takes(ch, brush));
            assert(edge_whole(later, (port.start, center, port.edge), row, width + 1));
            lemma_with_edge_whole(sweep.graph, later, row, width + 1, port.start, center, port.edge);
        },
        Fate::Arrives => {
            lemma_reaches(later, port, cell, center);
            assert(takes(ch, brush));
            assert(edge_whole(later, (port.start, center, port.edge), row, width + 1));
            lemma_with_edge_whole(sweep.graph, later, row, width + 1, port.start, center, port.edge);
            if south_arm(ch) is Some {
                lemma_descent_whole(later, cell, row, width);
                lemma_queued_whole(later, sweep.ports, descent(cell, south_arm(ch)->0));
            }
        },
        Fate::Waits => {
            if next.0 == row && next.1 == width {
                assert(!inlet(later, brush, row, width));
            } else {
                assert(painted(later, next.0, next.1) == painted(page, next.0, next.1));
            }
            assert(port_whole(later, port));
            lemma_queued_whole(later, sweep.ports, port);
        },
        Fate::Ends => {
            assert(painted(later, next.0, next.1) == painted(page, next.0, next.1));
            assert(behind(next.0, next.1, row, width + 1));
            assert(edge_whole(later, (port.start, port.end, port.edge), row, width + 1));
            lemma_with_edge_whole(sweep.graph, later, row, width + 1, port.start, port.end, port.edge);
        },
    }
}

/// The pending runs that take the new cell in turn leave the graph and the
/// pending runs whole.
pub proof fn lemma_take_all_whole(
    sweep: Sweep,
    ports: Seq<Port>,
    cell: Node,
    page: Seq<Seq<char>>,
    later: Seq<Seq<char>>,
    row: int,
    width: int,
)
    requires
        grown(page, later, row, width),
        at_new_cell(later, cell, row, width),
        graph_whole(sweep.graph, later, row, width + 1),
        ports_whole(later, sweep.ports),
        ports_whole(page, ports),
        ports_true(page, ports),
        ports_before(ports, cell.source),
    ensures
        graph_whole(sweep.take_all(ports, cell).graph, later, row, width + 1),
        ports_whole(later, sweep.take_all(ports, cell).ports),
    decreases ports.len(),
{
    if ports.len() > 0 {
        let front = ports.drop_last();
        let last = ports.last();
        assert forall|i: int| 0 <= i < front.len() implies port_whole(page, #[trigger] front[i]) && port_true(
            page,
            front[i],
        ) && front[i].start.source.before(cell.source) && front[i].end.source.before(cell.source) by {
            assert(front[i] == ports[i]);
        }
        lemma_take_all_whole(sweep, front, cell, page, later, row, width);
        assert(last == ports[ports.len() - 1]);
        lemma_ports_true_later(page, later, ports);
        lemma_take_whole(sweep.take_all(front, cell), last, cell, page, later, row, width);
    }
}

/// The pending runs, after the glyph of the new cell sent its south arm
/// down, are whole.
proof fn lemma_dropped_whole(later: Seq<Seq<char>>, ports: Seq<Port>, cell: Node, row: int, width: int)
    requires
        later.len() == row,
        at_new_cell(later, cell, row, width),
        ports_whole(later, ports),
    ensures
        ports_whole(later, dropped(ports, cell)),
{
    if south_arm(cell.character) is Some {
        lemma_descent_whole(later, cell, row, width);
        lemma_queued_whole(later, ports, descent(cell, south_arm(cell.character)->0));
    }
}

/// The run that the east arm of the glyph of the new cell opens is whole.
proof fn lemma_opened_whole(later: Seq<Seq<char>>, cell: Node, row: int, width: int)
    requires
        later.len() == row,
        at_new_cell(later, cell, row, width),
    ensures
        building_whole(later, opened(cell)),
{
    lemma_kinds_are_glyphs(cell.character);
    lemma_new_cell_holds(later, cell, row, width);
}

/// Whether the stroke that the glyph of the new cell draws starts in that
/// cell: if the glyph is a stroke, the stroke has no way out of the cell
/// before, unless it is the horizontal stroke of the run in building.
pub open spec fn starts_fresh(later: Seq<Seq<char>>, tx: Tx, cell: Node, row: int, width: int) -> bool {
    Brush::of_glyph(cell.character) matches Some(brush) ==> (tx is Build && tx->edge.1 == brush) || !outlet(
        later,
        brush,
        back(brush, row, width, 1).0,
        back(brush, row, width, 1).1,
    )
}

/// The glyph of the new cell that settles leaves the pending runs and the
/// run in building whole. The stroke of a run that the glyph closes has no
/// way into the new cell.
pub proof fn lemma_settle_runs_whole(
    sweep: Sweep,
    tx: Tx,
    cell: Node,
    prev: Node,
    later: Seq<Seq<char>>,
    row: int,
    width: int,
)
    requires
        later.len() == row,
        at_new_cell(later, cell, row, width),
        ports_whole(later, sweep.ports),
        building_whole(later, tx),
        starts_fresh(later, tx, cell, row, width),
    ensures
        ports_whole(later, sweep.settle(tx, cell, prev).ports),
        building_whole(later, sweep.settle(tx, cell, prev).tx),
        sweep.settle(tx, cell, prev).closing is Build ==> sweep.settle(tx, cell, prev).closing == tx && !inlet(
            later,
            tx->edge.1,
            row,
            width,
        ),
{
    let ch = cell.character;
    let center = cell.at(Region::Center, Region::Center);
    lemma_kinds_are_glyphs(ch);
    lemma_kinds_apart(ch);
    lemma_kinds_apart(' ');
    lemma_new_cell_holds(later, cell, row, width);
    lemma_kinds_apart(painted(later, row, width));
    lemma_dropped_whole(later, sweep.ports, cell, row, width);
    lemma_opened_whole(later, cell, row, width);
    if Brush::of_glyph(ch) is Some && !(Brush::of_glyph(ch)->0 is EastWest) {
        let brush = Brush::of_glyph(ch)->0;
        assert(painted(later, row + 1, back(brush, row, width, -1).1) == ' ');
        assert(port_whole(later, through(cell, brush)));
        lemma_queued_whole(later, sweep.ports, through(cell, brush));
    } else if falling_half(ch) is Some && rising_half(ch) is Some {
        let down = lower_half(cell, Brush::NorthWestSouthEast(falling_half(ch)->0));
        let past = lower_half(cell, Brush::NorthEastSouthWest(rising_half(ch)->0));
        assert(painted(later, row + 1, width + 1) == ' ');
        assert(painted(later, row + 1, width - 1) == ' ');
        assert(port_whole(later, down));
        assert(port_whole(later, past));
        lemma_queued_whole(later, sweep.ports, down);
        lemma_queued_whole(later, queued(sweep.ports, down), past);
    } else if west_arm(ch) is None && (south_arm(ch) is Some || east_arm(ch) is Some) {
    } else {
    }
}

/// The glyph of the new cell that settles leaves the graph whole.
pub proof fn lemma_settle_graph_whole(
    sweep: Sweep,
    tx: Tx,
    cell: Node,
    prev: Node,
    later: Seq<Seq<char>>,
    row: int,
    width: int,
)
    requires
        later.len() == row,
        at_new_cell(later, cell, row, width),
        graph_whole(sweep.graph, later, row, width + 1),
        building_whole(later, tx),
        building_true(later, tx, prev, row, width),
        building_before(tx, cell.source),
    ensures
        graph_whole(sweep.settle(tx, cell, prev).graph, later, row, width + 1),
{
    let ch = cell.character;
    let center = cell.at(Region::Center, Region::Center);
    lemma_kinds_are_glyphs(ch);
    lemma_kinds_apart(ch);
    lemma_kinds_apart(' ');
    lemma_new_cell_holds(later, cell, row, width);
    lemma_kinds_apart(painted(later, row, width));
    let graph = if sweep.met.north {
        sweep.graph
    } else {
        north_half(sweep.graph, cell, crown(ch))
    };
    assert(graph_whole(graph, later, row, width + 1)) by {
        if !sweep.met.north && crown(ch) is Some {
            let brush = Brush::NorthSouth(upright(crown(ch)->0));
            lemma_half(later, cell, (Region::North, Region::Center), (Region::Center, Region::Center), brush);
            lemma_with_edge_whole(
                sweep.graph,
                later,
                row,
                width + 1,
                cell.at(Region::North, Region::Center),
                center,
                Edge::plain(brush),
            );
        }
    }
    if Brush::of_glyph(ch) is Some && !(Brush::of_glyph(ch)->0 is EastWest) {
    } else if falling_half(ch) is Some && rising_half(ch) is Some {
        let fb = Brush::NorthWestSouthEast(falling_half(ch)->0);
        let rb = Brush::NorthEastSouthWest(rising_half(ch)->0);
        lemma_half(later, cell, (Region::North, Region::West), (Region::Center, Region::Center), fb);
        lemma_half(later, cell, (Region::North, Region::East), (Region::Center, Region::Center), rb);
        let first = if sweep.met.falling {
            graph
        } else {
            graph.with_edge(cell.at(Region::North, Region::West), center, Edge::plain(fb))
        };
        if !sweep.met.falling {
            lemma_with_edge_whole(graph, later, row, width + 1, cell.at(Region::North, Region::West), center, Edge::plain(fb));
        }
        if !sweep.met.rising {
            lemma_with_edge_whole(first, later, row, width + 1, cell.at(Region::North, Region::East), center, Edge::plain(rb));
        }
    } else if west_arm(ch) is None && (south_arm(ch) is Some || east_arm(ch) is Some) {
    } else {
        match tx {
            Tx::Initial => {
                if !is_level(ch) && lone_west(ch) is Some {
                    let brush = Brush::EastWest(level(lone_west(ch)->0));
                    lemma_half(later, cell, (Region::Center, Region::West), (Region::Center, Region::Center), brush);
                    lemma_with_edge_whole(
                        graph,
                        later,
                        row,
                        width + 1,
                        cell.at(Region::Center, Region::West),
                        center,
                        Edge::plain(brush),
                    );
                }
            },
            Tx::Build { start, edge } => {
                if edge.1 != Brush::EastWest(ch) {
                    let taken = edge.1 is EastWest && level_weight(edge.1->EastWest_0) is Some && takes_up(
                        ch,
                        level_weight(edge.1->EastWest_0)->0,
                    );
                    if taken {
                        lemma_taken(later, tx, prev, cell, row, width);
                        assert(takes(ch, edge.1));
                        assert(edge_whole(later, (start, center, edge), row, width + 1));
                        lemma_with_edge_whole(graph, later, row, width + 1, start, center, edge);
                    } else {
                        let halved = west_half(graph, cell, west_arm(ch));
                        if west_arm(ch) is Some {
                            let brush = Brush::EastWest(level(west_arm(ch)->0));
                            lemma_half(
                                later,
                                cell,
                                (Region::Center, Region::West),
                                (Region::Center, Region::Center),
                                brush,
                            );
                            lemma_with_edge_whole(
                                graph,
                                later,
                                row,
                                width + 1,
                                cell.at(Region::Center, Region::West),
                                center,
                                Edge::plain(brush),
                            );
                        }
                        assert(!inlet(later, edge.1, row, width));
                        lemma_closed_whole(halved, tx, prev, later, row, width, row, width + 1);
                    }
                }
            },
        }
    }
}

/// The run in building, ended in the east of the cell before the new cell,
/// leaves a whole graph whole, if its stroke has no way into the new cell.
pub proof fn lemma_closed_whole(
    g: GraphView,
    tx: Tx,
    prev: Node,
    later: Seq<Seq<char>>,
    row: int,
    width: int,
    far: int,
    wide: int,
)
    requires
        tx is Build,
        graph_whole(g, later, far, wide),
        behind(row, width, far, wide),
        building_whole(later, tx),
        building_true(later, tx, prev, row, width),
        !inlet(later, tx->edge.1, row, width),
    ensures
        graph_whole(g.with_edge(tx->start, prev.at(Region::Center, Region::East), tx->edge), later, far, wide),
{
    let start = tx->start;
    let edge = tx->edge;
    let last = prev.at(Region::Center, Region::East);
    lemma_closing(later, tx, prev, row, width);
    lemma_kinds_apart(painted(later, row, start.visual.column as int));
    assert(back(edge.1, row, width - 1, -1) == (row, width));
    assert(edge_whole(later, (start, last, edge), far, wide));
    lemma_with_edge_whole(g, later, far, wide, start, last, edge);
}

/// Whether the graph, the pending runs and the run in building of a scan
/// are whole.
pub open spec fn whole_kept(s: Scan, page: Seq<Seq<char>>, row: int, width: int) -> bool {
    &&& graph_whole(s.graph, page, row, width)
    &&& ports_whole(page, s.ports)
    &&& building_whole(page, s.tx)
}

/// The stroke that the glyph of the new cell draws starts in that cell,
/// unless a run went straight through the cell or the stroke is that of the
/// run in building: a run that could have come out of the cell before would
/// have gone on.
proof fn lemma_starts_fresh(s: Scan, page: Seq<Seq<char>>, later: Seq<Seq<char>>, row: int, width: int)
    requires
        grown(page, later, row, width),
        at_new_cell(later, s.location, row, width),
        runs_kept(s, page, row, width),
        seeds_kept(s, page, row, width),
        !(Sweep { graph: s.graph, ports: Seq::empty(), met: Met::nothing() }).take_all(
            s.ports,
            s.location,
        ).met.carried,
    ensures
        starts_fresh(later, s.tx, s.location, row, width),
{
    let cell = s.location;
    let ch = cell.character;
    let first = Sweep { graph: s.graph, ports: Seq::empty(), met: Met::nothing() };
    lemma_sweep_keeps(first, s.ports, cell);
    lemma_painted_grown(page, later, row, width);
    if Brush::of_glyph(ch) is Some {
        let brush = Brush::of_glyph(ch)->0;
        let q = back(brush, row, width, 1);
        lemma_kinds_apart(painted(page, q.0, q.1));
        assert(painted(later, q.0, q.1) == painted(page, q.0, q.1));
        if outlet(later, brush, q.0, q.1) {
            assert(plain_stroke(brush));
            if painted(page, q.0, q.1) == brush.glyph() {
                assert(back(brush, q.0, q.1, 0) == q);
                assert(run_back(page, brush, q.0, q.1, 0));
                if !(brush is EastWest) {
                    assert(unpassed(brush, q.0, q.1, row, width));
                    assert(tipped(s.ports, brush, q.0, q.1, q.0, q.1));
                    let i = choose|i: int| 0 <= i < s.ports.len() && tip(#[trigger] s.ports[i], brush, q.0, q.1, q.0, q.1);
                    assert(s.ports[i].fate(cell) is Continues);
                }
            } else {
                assert(fed_by(page, brush, q.0, q.1));
                if !(brush is EastWest) {
                    assert(unpassed(brush, q.0, q.1, row, width));
                    assert(seeded(s.ports, brush, q.0, q.1));
                    let i = choose|i: int|
                        0 <= i < s.ports.len() && (#[trigger] s.ports[i]).edge.1 == brush
                            && s.ports[i].end.visual.line == q.0 && s.ports[i].end.visual.column == q.1;
                    assert(s.ports[i].fate(cell) is Continues);
                }
            }
        }
    }
}

/// Resolving the new cell of the row keeps the graph, the pending runs and
/// the run in building whole.
pub proof fn lemma_step_whole(s: Scan, page: Seq<Seq<char>>, later: Seq<Seq<char>>, row: int, width: int)
    requires
        held_true(s, page, row, width),
        grown(page, later, row, width),
        at_new_cell(later, s.location, row, width),
        runs_kept(s, page, row, width),
        seeds_kept(s, page, row, width),
        whole_kept(s, page, row, width),
    ensures
        whole_kept(s.step(), later, row, width + 1),
{
    let cell = s.location;
    let ch = cell.character;
    let prev = s.previous_location;
    let t = s.step();
    lemma_graph_whole_later(s.graph, page, later, row, width);
    lemma_building_later(page, later, s.tx, prev, row, width);
    if s.tx is Build {
        lemma_start_later(page, later, row, width, s.tx->start, s.tx->edge.1);
    }
    let first = Sweep { graph: s.graph, ports: Seq::empty(), met: Met::nothing() };
    lemma_take_all_whole(first, s.ports, cell, page, later, row, width);
    lemma_sweep_keeps(first, s.ports, cell);
    let swept = first.take_all(s.ports, cell);
    lemma_kinds_apart(ch);
    lemma_new_cell_holds(later, cell, row, width);
    lemma_kinds_apart(painted(later, row, width));
    let turn = if swept.met.carried {
        Turn { graph: swept.graph, ports: swept.ports, tx: Tx::Initial, closing: s.tx }
    } else {
        swept.settle(s.tx, cell, prev)
    };
    if swept.met.carried {
        let i = choose|i: int| 0 <= i < s.ports.len() && (#[trigger] s.ports[i]).fate(cell) is Continues;
        assert(s.ports[i].edge.1.glyph() == ch);
        assert(port_whole(page, s.ports[i]));
        assert(Brush::of_glyph(ch) == Some(s.ports[i].edge.1));
        if s.tx is Build {
            assert(!inlet(later, s.tx->edge.1, row, width));
        }
    } else {
        lemma_starts_fresh(s, page, later, row, width);
        lemma_settle_runs_whole(swept, s.tx, cell, prev, later, row, width);
        lemma_settle_graph_whole(swept, s.tx, cell, prev, later, row, width);
    }
    assert(t.graph == closed(turn.graph, turn.closing, prev));
    if turn.closing is Build {
        lemma_closed_whole(turn.graph, s.tx, prev, later, row, width, row, width + 1);
    }
}

/// A line break keeps all whole: the scan goes on in a new row.
proof fn lemma_break_whole(t: Scan, page: Seq<Seq<char>>, row: int, width: int)
    requires
        whole_kept(t, page, row, width),
        page.len() == row,
        row >= 1,
    ensures
        whole_kept(t, page.push(Seq::empty()), row + 1, 0),
{
    let turned = page.push(Seq::<char>::empty());
    assert forall|l: int, c: int| #[trigger] painted(turned, l, c) == painted(page, l, c) by {
        if 1 <= l <= row {
            assert(turned[l - 1] == page[l - 1]);
        }
    }
    assert forall|i: int| 0 <= i < t.graph.edges.len() implies edge_whole(
        turned,
        #[trigger] t.graph.edges[i],
        row + 1,
        0,
    ) by {
        let e = t.graph.edges[i];
        assert(edge_whole(page, e, row, width));
        lemma_same_page(page, turned, e.0, e.2.1);
        lemma_same_page(page, turned, e.1, e.2.1);
    }
    assert forall|i: int| 0 <= i < t.ports.len() implies port_whole(turned, #[trigger] t.ports[i]) by {
        let p = t.ports[i];
        assert(port_whole(page, p));
        lemma_same_page(page, turned, p.start, p.edge.1);
        lemma_same_page(page, turned, p.end, p.edge.1);
    }
    if t.tx is Build {
        lemma_same_page(page, turned, t.tx->start, t.tx->edge.1);
    }
}

/// On two pages that hold the same character in every cell, the same runs
/// start and end soundly, and the stroke has the same ways into a cell.
proof fn lemma_same_page(page: Seq<Seq<char>>, other: Seq<Seq<char>>, n: Node, brush: Brush)
    requires
        forall|l: int, c: int| #[trigger] painted(other, l, c) == painted(page, l, c),
    ensures
        start_sound(other, n, brush) == start_sound(page, n, brush),
        forall|row: int, width: int| #[trigger]
            end_sound(other, n, brush, row, width) == end_sound(page, n, brush, row, width),
        stroke_at(other, n.visual.line as int, n.visual.column as int) == stroke_at(
            page,
            n.visual.line as int,
            n.visual.column as int,
        ),
        inlet(
            other,
            brush,
            back(brush, n.visual.line as int, n.visual.column as int, -1).0,
            back(brush, n.visual.line as int, n.visual.column as int, -1).1,
        ) == inlet(
            page,
            brush,
            back(brush, n.visual.line as int, n.visual.column as int, -1).0,
            back(brush, n.visual.line as int, n.visual.column as int, -1).1,
        ),
{
    let l = n.visual.line as int;
    let c = n.visual.column as int;
    assert(painted(other, l, c) == painted(page, l, c));
    assert(painted(other, back(brush, l, c, 1).0, back(brush, l, c, 1).1) == painted(
        page,
        back(brush, l, c, 1).0,
        back(brush, l, c, 1).1,
    ));
    assert(painted(other, back(brush, l, c, -1).0, back(brush, l, c, -1).1) == painted(
        page,
        back(brush, l, c, -1).0,
        back(brush, l, c, -1).1,
    ));
}

/// Taking one more character keeps the graph, the pending runs and the run
/// in building whole.
pub proof fn lemma_fed_whole(s: Scan, page: Seq<Seq<char>>, n: nat, c: char, mark: bool)
    requires
        s.tracks(page, n),
        runs_kept(s, page, page.len() as int, page.last().len() as int),
        seeds_kept(s, page, page.len() as int, page.last().len() as int),
        whole_kept(s, page, page.len() as int, page.last().len() as int),
        n + 3 <= usize::MAX,
        mark ==> !is_glyph(c) && c != '\n',
    ensures
        whole_kept(
            s.fed(c, mark),
            page_with(page, kept(c, mark)),
            page_with(page, kept(c, mark)).len() as int,
            page_with(page, kept(c, mark)).last().len() as int,
        ),
{
    let row = page.len() as int;
    let width = page.last().len() as int;
    let after = s.fed(c, mark);
    let turned = page_with(page, kept(c, mark));
    if mark {
        assert(after.graph == s.graph && after.ports == s.ports && after.tx == s.tx);
        assert(turned == page);
    } else {
        let held = s.holding(c);
        let later = if c == '\n' {
            page
        } else {
            turned
        };
        assert(held.graph == s.graph && held.ports == s.ports && held.tx == s.tx);
        assert(grown(page, later, row, width));
        assert(at_new_cell(later, held.location, row, width));
        lemma_same_runs(s, held, page, row, width);
        lemma_step_whole(held, page, later, row, width);
        let t = held.step();
        assert(after.graph == t.graph && after.ports == t.ports && after.tx == t.tx);
        if c == '\n' {
            lemma_break_whole(t, page, row, width + 1);
        }
    }
}

/// Whether the runs are kept depends on the graph, the pending runs and
/// the run in building alone.
proof fn lemma_same_runs(s: Scan, t: Scan, page: Seq<Seq<char>>, row: int, width: int)
    requires
        runs_kept(s, page, row, width),
        seeds_kept(s, page, row, width),
        t.graph == s.graph,
        t.ports == s.ports,
        t.tx == s.tx,
    ensures
        runs_kept(t, page, row, width),
        seeds_kept(t, page, row, width),
{
    assert forall|brush: Brush, l: int, c: int, k: int| #[trigger] run_back(page, brush, l, c, k) implies held_spans(
        t,
        row,
        width,
        l,
        c,
        back(brush, l, c, k).0,
        back(brush, l, c, k).1,
    ) by {
        assert(held_spans(s, row, width, l, c, back(brush, l, c, k).0, back(brush, l, c, k).1));
    }
}

/// The scan of a text keeps the graph, the pending runs and the run in
/// building whole.
pub proof fn lemma_scanned_whole(text: Seq<char>)
    requires
        marks_apart(text),
        text.len() + 3 <= usize::MAX,
    ensures
        whole_kept(
            Scan::scanned(text),
            page_of(text),
            page_of(text).len() as int,
            page_of(text).last().len() as int,
        ),
    decreases text.len(),
{
    let page = page_of(text);
    if text.len() == 0 {
        assert(page =~= seq![Seq::<char>::empty()]);
    } else {
        let front = text.drop_last();
        let c = text.last();
        assert forall|i: int| 0 <= i < front.len() && combining_mark(#[trigger] front[i]) implies !is_glyph(front[i])
            && front[i] != '\n' by {
            assert(front[i] == text[i]);
        }
        lemma_scanned(front);
        lemma_scanned_runs(front);
        lemma_scanned_seeds(front);
        lemma_scanned_whole(front);
        assert(text[text.len() - 1] == c);
        lemma_fed_whole(Scan::scanned(front), page_of(front), front.len(), c, combining_mark(c));
        lemma_page_grows(text);
    }
}

/// A whole graph is whole for every scan that is further on.
proof fn lemma_graph_whole_on(g: GraphView, page: Seq<Seq<char>>, row: int, width: int, far: int, wide: int)
    requires
        graph_whole(g, page, row, width),
        forall|l: int, c: int| behind(l, c, row, width) ==> #[trigger] behind(l, c, far, wide),
    ensures
        graph_whole(g, page, far, wide),
{
    assert forall|i: int| 0 <= i < g.edges.len() implies edge_whole(page, #[trigger] g.edges[i], far, wide) by {
        let e = g.edges[i];
        assert(edge_whole(page, e, row, width));
        if weighty(page, e) {
            let n = back(e.2.1, e.1.visual.line as int, e.1.visual.column as int, -1);
            if behind(n.0, n.1, row, width) {
                assert(behind(n.0, n.1, far, wide));
            }
        }
    }
}

/// Pending runs that all end leave a whole graph whole.
proof fn lemma_all_end_whole(sweep: Sweep, ports: Seq<Port>, cell: Node, page: Seq<Seq<char>>, far: int)
    requires
        graph_whole(sweep.graph, page, far, 0),
        ports_whole(page, ports),
        ports_true(page, ports),
        far > page.len() + 1,
        forall|i: int| 0 <= i < ports.len() ==> (#[trigger] ports[i]).fate(cell) is Ends,
    ensures
        graph_whole(sweep.take_all(ports, cell).graph, page, far, 0),
    decreases ports.len(),
{
    if ports.len() > 0 {
        let front = ports.drop_last();
        let last = ports.last();
        assert forall|i: int| 0 <= i < front.len() implies port_whole(page, #[trigger] front[i]) && port_true(
            page,
            front[i],
        ) && front[i].fate(cell) is Ends by {
            assert(front[i] == ports[i]);
        }
        lemma_all_end_whole(sweep, front, cell, page, far);
        assert(last == ports[ports.len() - 1]);
        assert(port_whole(page, last) && port_true(page, last));
        lemma_kinds_apart(painted(page, last.start.visual.line as int, last.start.visual.column as int));
        assert(edge_whole(page, (last.start, last.end, last.edge), far, 0));
        lemma_with_edge_whole(sweep.take_all(front, cell).graph, page, far, 0, last.start, last.end, last.edge);
    }
}

/// The graph that a text stands for is whole.
pub proof fn lemma_parsed_whole(text: Seq<char>)
    requires
        marks_apart(text),
        text.len() + 3 <= usize::MAX,
    ensures
        graph_whole(parsed(text), page_of(text), page_of(text).len() as int + 2, 0),
{
    let page = page_of(text);
    let row = page.len() as int;
    let width = page.last().len() as int;
    let far = row + 2;
    lemma_scanned(text);
    lemma_scanned_whole(text);
    let s = Scan::scanned(text);
    let e = s.at_end();
    let cell = e.location;
    let prev = e.previous_location;
    lemma_graph_whole_on(s.graph, page, row, width, far, 0);
    let first = Sweep { graph: e.graph, ports: Seq::empty(), met: Met::nothing() };
    assert forall|i: int| 0 <= i < e.ports.len() implies (#[trigger] e.ports[i]).fate(cell) is Ends by {
        assert(port_true(page, e.ports[i]));
    }
    assert forall|i: int| 0 <= i < e.ports.len() implies (#[trigger] e.ports[i]).end.visual.line + 1
        < cell.visual.line by {
        assert(port_true(page, e.ports[i]));
    }
    lemma_all_end(first, e.ports, cell);
    lemma_all_end_whole(first, e.ports, cell, page, far);
    let swept = first.take_all(e.ports, cell);
    lemma_kinds_apart(cell.character);
    lemma_kinds_are_glyphs(cell.character);
    if e.tx is Build {
        lemma_kinds_apart(' ');
        assert(painted(page, row, width) == ' ');
        assert(!inlet(page, e.tx->edge.1, row, width));
        lemma_closed_whole(swept.graph, e.tx, prev, page, row, width, far, 0);
    }
}

/// A whole segment that covers a cell of a stroke is drawn with that
/// stroke, and runs along it: it starts some steps back from the cell and ends
/// some steps on, and every cell between its two ends holds the glyph of the
/// stroke.
proof fn lemma_lies_along(page: Seq<Seq<char>>, e: (Node, Node, Edge), far: int, wide: int, l: int, c: int)
    requires
        edge_true(page, e),
        edge_whole(page, e, far, wide),
        stroke_at(page, l, c),
        edge_covers(e, l, c),
    ensures
        weighty(page, e),
        Brush::of_glyph(painted(page, l, c)) == Some(e.2.1),
        exists|k: int, m: int|
            0 <= k && 0 <= m && (e.0.visual.line as int, e.0.visual.column as int) == back(e.2.1, l, c, k) && (
            e.1.visual.line as int, e.1.visual.column as int) == back(e.2.1, l, c, -m) && #[trigger] between_hold(
                page,
                e.2.1,
                l,
                c,
                k,
                m,
            ),
{
    let brush = e.2.1;
    let v = e.0.visual;
    let u = e.1.visual;
    lemma_kinds_apart(painted(page, l, c));
    lemma_kinds_apart(painted(page, v.line as int, v.column as int));
    lemma_kinds_apart(painted(page, u.line as int, u.column as int));
    assert(weighty(page, e));
    if inside(v, u, brush, l, c) {
        assert(shows(page, l, c, brush.glyph()));
    }
    assert(painted(page, l, c) == brush.glyph());
    let k = match brush {
        Brush::EastWest(_) => c - v.column,
        _ => l - v.line,
    };
    let m = match brush {
        Brush::EastWest(_) => u.column - c,
        _ => u.line - l,
    };
    assert forall|j: int| -m < j < k implies painted(
        page,
        (#[trigger] back(brush, l, c, j)).0,
        back(brush, l, c, j).1,
    ) == brush.glyph() by {
        let b = back(brush, l, c, j);
        if j != 0 {
            assert(inside(v, u, brush, b.0, b.1));
            assert(shows(page, b.0, b.1, brush.glyph()));
        }
    }
    assert(between_hold(page, brush, l, c, k, m));
}

/// Whether the cell at line `l` and column `c`, and every cell less than
/// `k` steps back and less than `m` steps on from it along the stroke, holds
/// the glyph of the stroke.
pub open spec fn between_hold(page: Seq<Seq<char>>, brush: Brush, l: int, c: int, k: int, m: int) -> bool {
    &&& painted(page, l, c) == brush.glyph()
    &&& forall|j: int|
        -m < j < k ==> painted(page, (#[trigger] back(brush, l, c, j)).0, back(brush, l, c, j).1) == brush.glyph()
}

/// Two whole segments that cover one cell of a stroke start in the same
/// cell and the same region, and end in the same cell and the same region.
pub proof fn lemma_same_ends(
    page: Seq<Seq<char>>,
    e: (Node, Node, Edge),
    f: (Node, Node, Edge),
    far: int,
    wide: int,
    l: int,
    c: int,
)
    requires
        edge_true(page, e),
        edge_true(page, f),
        edge_whole(page, e, far, wide),
        edge_whole(page, f, far, wide),
        stroke_at(page, l, c),
        edge_covers(e, l, c),
        edge_covers(f, l, c),
    ensures
        e.2.1 == f.2.1,
        e.0.visual == f.0.visual,
        e.0.region == f.0.region,
        e.0.character == f.0.character,
        e.1.visual == f.1.visual,
        e.1.region == f.1.region,
        e.1.character == f.1.character,
{
    let brush = e.2.1;
    lemma_lies_along(page, e, far, wide, l, c);
    lemma_lies_along(page, f, far, wide, l, c);
    let (ke, me) = choose|k: int, m: int|
        0 <= k && 0 <= m && (e.0.visual.line as int, e.0.visual.column as int) == back(brush, l, c, k) && (
        e.1.visual.line as int, e.1.visual.column as int) == back(brush, l, c, -m) && #[trigger] between_hold(
            page,
            brush,
            l,
            c,
            k,
            m,
        );
    let (kf, mf) = choose|k: int, m: int|
        0 <= k && 0 <= m && (f.0.visual.line as int, f.0.visual.column as int) == back(brush, l, c, k) && (
        f.1.visual.line as int, f.1.visual.column as int) == back(brush, l, c, -m) && #[trigger] between_hold(
            page,
            brush,
            l,
            c,
            k,
            m,
        );
    lemma_kinds_apart(brush.glyph());
    lemma_kinds_apart(painted(page, e.0.visual.line as int, e.0.visual.column as int));
    lemma_kinds_apart(painted(page, f.0.visual.line as int, f.0.visual.column as int));
    lemma_kinds_apart(painted(page, e.1.visual.line as int, e.1.visual.column as int));
    lemma_kinds_apart(painted(page, f.1.visual.line as int, f.1.visual.column as int));
    assert(ke == kf) by {
        if ke <= kf {
            lemma_starts_first(page, brush, l, c, ke, kf, mf, e.0, f.0);
        } else {
            lemma_starts_first(page, brush, l, c, kf, ke, me, f.0, e.0);
        }
    }
    assert(me == mf) by {
        if me <= mf {
            lemma_ends_last(page, brush, l, c, me, mf, kf, e.1, f.1, far, wide);
        } else {
            lemma_ends_last(page, brush, l, c, mf, me, ke, f.1, e.1, far, wide);
        }
    }
}

/// Of two runs of one stroke through one cell, neither starts further back
/// than the other: a run cannot start in a cell that the other passes
/// through.
proof fn lemma_starts_first(
    page: Seq<Seq<char>>,
    brush: Brush,
    l: int,
    c: int,
    near: int,
    far: int,
    m: int,
    a: Node,
    b: Node,
)
    requires
        plain_stroke(brush),
        0 <= near <= far,
        0 <= m,
        (a.visual.line as int, a.visual.column as int) == back(brush, l, c, near),
        (b.visual.line as int, b.visual.column as int) == back(brush, l, c, far),
        between_hold(page, brush, l, c, far, m),
        start_sound(page, a, brush),
        start_sound(page, b, brush),
    ensures
        near == far,
{
    if near < far {
        lemma_kinds_apart(brush.glyph());
        let at = back(brush, l, c, near);
        assert(back(brush, l, c, 0) == (l, c));
        assert(painted(page, at.0, at.1) == brush.glyph());
        let before = back(brush, l, c, near + 1);
        assert(back(brush, at.0, at.1, 1) == before);
        if near + 1 < far {
            assert(painted(page, before.0, before.1) == brush.glyph());
        }
    }
}

/// Of two runs of one stroke through one cell, neither ends further on than
/// the other: a run cannot end in a cell that the other passes through.
proof fn lemma_ends_last(
    page: Seq<Seq<char>>,
    brush: Brush,
    l: int,
    c: int,
    near: int,
    far: int,
    k: int,
    a: Node,
    b: Node,
    row: int,
    width: int,
)
    requires
        plain_stroke(brush),
        0 <= near <= far,
        0 <= k,
        (a.visual.line as int, a.visual.column as int) == back(brush, l, c, -near),
        (b.visual.line as int, b.visual.column as int) == back(brush, l, c, -far),
        between_hold(page, brush, l, c, k, far),
        end_sound(page, a, brush, row, width),
        end_sound(page, b, brush, row, width),
    ensures
        near == far,
{
    if near < far {
        lemma_kinds_apart(brush.glyph());
        let at = back(brush, l, c, -near);
        assert(back(brush, l, c, 0) == (l, c));
        assert(painted(page, at.0, at.1) == brush.glyph());
        let after = back(brush, l, c, -(near + 1));
        assert(back(brush, at.0, at.1, -1) == after);
        if near + 1 < far {
            assert(painted(page, after.0, after.1) == brush.glyph());
        }
    }
}

/// Whether the anchor `n` lies where the text has its cell: `sites` holds,
/// for the cells of the page, their place in the text.
pub open spec fn sited(sites: Map<(int, int), LineColumn>, n: Node) -> bool {
    sites.contains_key((n.visual.line as int, n.visual.column as int)) && sites[(
        n.visual.line as int,
        n.visual.column as int,
    )] == n.source
}

/// Whether both anchors of every segment of a graph lie where the text has
/// their cells.
pub open spec fn graph_sited(g: GraphView, sites: Map<(int, int), LineColumn>) -> bool {
    forall|i: int| 0 <= i < g.edges.len() ==> sited(sites, (#[trigger] g.edges[i]).0) && sited(sites, g.edges[i].1)
}

/// Whether both anchors of each of `ports` lie where the text has their
/// cells.
pub open spec fn ports_sited(ports: Seq<Port>, sites: Map<(int, int), LineColumn>) -> bool {
    forall|i: int| 0 <= i < ports.len() ==> sited(sites, (#[trigger] ports[i]).start) && sited(sites, ports[i].end)
}

/// Whether the start of the run in building, if there is one, and the cell
/// before lie where the text has their cells.
pub open spec fn building_sited(tx: Tx, prev: Node, sites: Map<(int, int), LineColumn>) -> bool {
    tx matches Tx::Build { start, .. } ==> sited(sites, start) && sited(sites, prev)
}

/// A segment between sited anchors leaves a sited graph sited.
proof fn lemma_with_edge_sited(g: GraphView, sites: Map<(int, int), LineColumn>, a: Node, b: Node, w: Edge)
    requires
        graph_sited(g, sites),
        sited(sites, a),
        sited(sites, b),
    ensures
        graph_sited(g.with_edge(a, b, w), sites),
{
    let h = g.with_edge(a, b, w);
    assert forall|i: int| 0 <= i < h.edges.len() implies sited(sites, (#[trigger] h.edges[i]).0) && sited(
        sites,
        h.edges[i].1,
    ) by {
        if i < g.edges.len() {
            assert(sited(sites, g.edges[i].0) && sited(sites, g.edges[i].1));
        }
    }
}

/// One pending run that takes a sited cell leaves the graph and the
/// pending runs sited.
proof fn lemma_take_sited(sweep: Sweep, port: Port, cell: Node, sites: Map<(int, int), LineColumn>)
    requires
        graph_sited(sweep.graph, sites),
        ports_sited(sweep.ports, sites),
        sited(sites, port.start),
        sited(sites, port.end),
        sited(sites, cell),
    ensures
        graph_sited(sweep.take(port, cell).graph, sites),
        ports_sited(sweep.take(port, cell).ports, sites),
{
    let center = cell.at(Region::Center, Region::Center);
    lemma_with_edge_sited(sweep.graph, sites, port.start, center, port.edge);
    lemma_with_edge_sited(sweep.graph, sites, port.start, port.end, port.edge);
}

/// The pending runs that take a sited cell in turn leave the graph and the
/// pending runs sited.
proof fn lemma_take_all_sited(sweep: Sweep, ports: Seq<Port>, cell: Node, sites: Map<(int, int), LineColumn>)
    requires
        graph_sited(sweep.graph, sites),
        ports_sited(sweep.ports, sites),
        ports_sited(ports, sites),
        sited(sites, cell),
    ensures
        graph_sited(sweep.take_all(ports, cell).graph, sites),
        ports_sited(sweep.take_all(ports, cell).ports, sites),
    decreases ports.len(),
{
    if ports.len() > 0 {
        let front = ports.drop_last();
        assert forall|i: int| 0 <= i < front.len() implies sited(sites, (#[trigger] front[i]).start) && sited(
            sites,
            front[i].end,
        ) by {
            assert(front[i] == ports[i]);
        }
        lemma_take_all_sited(sweep, front, cell, sites);
        assert(ports.last() == ports[ports.len() - 1]);
        lemma_take_sited(sweep.take_all(front, cell), ports.last(), cell, sites);
    }
}

/// The glyph of a sited cell that settles leaves the graph, the pending
/// runs and the run in building sited.
proof fn lemma_settle_sited(sweep: Sweep, tx: Tx, cell: Node, prev: Node, sites: Map<(int, int), LineColumn>)
    requires
        graph_sited(sweep.graph, sites),
        ports_sited(sweep.ports, sites),
        building_sited(tx, prev, sites),
        sited(sites, cell),
    ensures
        graph_sited(sweep.settle(tx, cell, prev).graph, sites),
        ports_sited(sweep.settle(tx, cell, prev).ports, sites),
        sweep.settle(tx, cell, prev).tx matches Tx::Build { start, .. } ==> sited(sites, start),
        sweep.settle(tx, cell, prev).closing is Build ==> sweep.settle(tx, cell, prev).closing == tx,
{
    let ch = cell.character;
    let center = cell.at(Region::Center, Region::Center);
    let graph = if sweep.met.north {
        sweep.graph
    } else {
        north_half(sweep.graph, cell, crown(ch))
    };
    assert(graph_sited(graph, sites)) by {
        if !sweep.met.north && crown(ch) is Some {
            lemma_with_edge_sited(
                sweep.graph,
                sites,
                cell.at(Region::North, Region::Center),
                center,
                Edge::plain(Brush::NorthSouth(upright(crown(ch)->0))),
            );
        }
    }
    if Brush::of_glyph(ch) is Some && !(Brush::of_glyph(ch)->0 is EastWest) {
    } else if falling_half(ch) is Some && rising_half(ch) is Some {
        let falling = Edge::plain(Brush::NorthWestSouthEast(falling_half(ch)->0));
        let rising = Edge::plain(Brush::NorthEastSouthWest(rising_half(ch)->0));
        let first = if sweep.met.falling {
            graph
        } else {
            graph.with_edge(cell.at(Region::North, Region::West), center, falling)
        };
        lemma_with_edge_sited(graph, sites, cell.at(Region::North, Region::West), center, falling);
        lemma_with_edge_sited(first, sites, cell.at(Region::North, Region::East), center, rising);
    } else if west_arm(ch) is None && (south_arm(ch) is Some || east_arm(ch) is Some) {
    } else {
        match tx {
            Tx::Initial => {
                if lone_west(ch) is Some {
                    lemma_with_edge_sited(
                        graph,
                        sites,
                        cell.at(Region::Center, Region::West),
                        center,
                        Edge::plain(Brush::EastWest(level(lone_west(ch)->0))),
                    );
                }
            },
            Tx::Build { start, edge } => {
                lemma_with_edge_sited(graph, sites, start, center, edge);
                let halved = west_half(graph, cell, west_arm(ch));
                if west_arm(ch) is Some {
                    lemma_with_edge_sited(
                        graph,
                        sites,
                        cell.at(Region::Center, Region::West),
                        center,
                        Edge::plain(Brush::EastWest(level(west_arm(ch)->0))),
                    );
                }
                lemma_with_edge_sited(halved, sites, start, prev.at(Region::Center, Region::East), edge);
            },
        }
    }
}

/// Resolving a sited cell leaves the graph, the pending runs and the run in
/// building sited.
proof fn lemma_step_sited(s: Scan, sites: Map<(int, int), LineColumn>)
    requires
        graph_sited(s.graph, sites),
        ports_sited(s.ports, sites),
        building_sited(s.tx, s.previous_location, sites),
        sited(sites, s.location),
    ensures
        graph_sited(s.step().graph, sites),
        ports_sited(s.step().ports, sites),
        s.step().tx matches Tx::Build { start, .. } ==> sited(sites, start),
{
    let cell = s.location;
    let prev = s.previous_location;
    let first = Sweep { graph: s.graph, ports: Seq::empty(), met: Met::nothing() };
    lemma_take_all_sited(first, s.ports, cell, sites);
    let swept = first.take_all(s.ports, cell);
    let turn = if swept.met.carried {
        Turn { graph: swept.graph, ports: swept.ports, tx: Tx::Initial, closing: s.tx }
    } else {
        swept.settle(s.tx, cell, prev)
    };
    if !swept.met.carried {
        lemma_settle_sited(swept, s.tx, cell, prev, sites);
    }
    if turn.closing is Build {
        lemma_with_edge_sited(turn.graph, sites, s.tx->start, prev.at(Region::Center, Region::East), s.tx->edge);
    }
}

/// The places in the text of the cells that a text lays out.
pub open spec fn sites_of(text: Seq<char>) -> Map<(int, int), LineColumn>
    decreases text.len(),
{
    if text.len() == 0 {
        Map::empty()
    } else if combining_mark(text.last()) {
        sites_of(text.drop_last())
    } else {
        let at = Scan::scanned(text.drop_last()).location;
        sites_of(text.drop_last()).insert((at.visual.line as int, at.visual.column as int), at.source)
    }
}

/// Whether all that a scan holds lies where the text has its cells.
pub open spec fn sites_kept(s: Scan, sites: Map<(int, int), LineColumn>) -> bool {
    &&& graph_sited(s.graph, sites)
    &&& ports_sited(s.ports, sites)
    &&& building_sited(s.tx, s.previous_location, sites)
}

/// What is true to the page and sited stays sited when the place of a cell
/// that is not on the page is put down.
proof fn lemma_sited_on(
    s: Scan,
    page: Seq<Seq<char>>,
    sites: Map<(int, int), LineColumn>,
    l: int,
    c: int,
    source: LineColumn,
)
    requires
        sites_kept(s, sites),
        held_true(s, page, page.len() as int, page.last().len() as int),
        page.len() >= 1,
        l > page.len() || (l == page.len() && c >= page.last().len()),
    ensures
        sites_kept(s, sites.insert((l, c), source)),
{
    let on = sites.insert((l, c), source);
    assert forall|i: int| 0 <= i < s.graph.edges.len() implies sited(on, (#[trigger] s.graph.edges[i]).0) && sited(
        on,
        s.graph.edges[i].1,
    ) by {
        assert(edge_true(page, s.graph.edges[i]));
    }
    assert forall|i: int| 0 <= i < s.ports.len() implies sited(on, (#[trigger] s.ports[i]).start) && sited(
        on,
        s.ports[i].end,
    ) by {
        assert(port_true(page, s.ports[i]));
    }
}

/// Taking one more character keeps all sited.
proof fn lemma_fed_sited(s: Scan, page: Seq<Seq<char>>, n: nat, c: char, mark: bool, sites: Map<(int, int), LineColumn>)
    requires
        s.tracks(page, n),
        sites_kept(s, sites),
        n + 3 <= usize::MAX,
    ensures
        mark ==> sites_kept(s.fed(c, mark), sites),
        !mark ==> sites_kept(
            s.fed(c, mark),
            sites.insert((s.location.visual.line as int, s.location.visual.column as int), s.location.source),
        ),
{
    if !mark {
        let held = s.holding(c);
        let cell = held.location;
        let on = sites.insert((cell.visual.line as int, cell.visual.column as int), cell.source);
        lemma_sited_on(s, page, sites, cell.visual.line as int, cell.visual.column as int, cell.source);
        assert(sites_kept(held, on));
        lemma_step_sited(held, on);
    }
}

/// The scan of a text keeps all sited.
proof fn lemma_scanned_sited(text: Seq<char>)
    requires
        marks_apart(text),
        text.len() + 3 <= usize::MAX,
    ensures
        sites_kept(Scan::scanned(text), sites_of(text)),
    decreases text.len(),
{
    if text.len() > 0 {
        let front = text.drop_last();
        let c = text.last();
        assert forall|i: int| 0 <= i < front.len() && combining_mark(#[trigger] front[i]) implies !is_glyph(front[i])
            && front[i] != '\n' by {
            assert(front[i] == text[i]);
        }
        lemma_scanned(front);
        lemma_scanned_sited(front);
        lemma_fed_sited(Scan::scanned(front), page_of(front), front.len(), c, combining_mark(c), sites_of(front));
    }
}

/// Two anchors of the graph that a text stands for that sit in one cell lie
/// in one place of the text.
pub proof fn lemma_parsed_sited(text: Seq<char>)
    requires
        marks_apart(text),
        text.len() + 3 <= usize::MAX,
    ensures
        exists|sites: Map<(int, int), LineColumn>| #[trigger] graph_sited(parsed(text), sites),
{
    let page = page_of(text);
    lemma_scanned(text);
    lemma_scanned_sited(text);
    let s = Scan::scanned(text);
    let e = s.at_end();
    let cell = e.location;
    let sites = sites_of(text);
    lemma_sited_on(s, page, sites, cell.visual.line as int, cell.visual.column as int, cell.source);
    let on = sites.insert((cell.visual.line as int, cell.visual.column as int), cell.source);
    assert(sites_kept(e, on));
    lemma_step_sited(e, on);
    assert(graph_sited(parsed(text), on));
}

} // verus!
