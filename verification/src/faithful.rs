//! A scan is true to the page that its text lays out.
//!
//! What the scan holds after each character (the graph, the pending runs and
//! the horizontal run in building) is true to the page of the text so far,
//! and covers every glyph on it.
use crate::clean::{kept, pieces, sieved};
use crate::glyph::{
    combining_mark, crown, east_arm, falling_half, is_glyph, is_level, level, level_weight, lone_west,
    north_arm, rising_half, south_arm, takes_up, upright, west_arm, Weight,
};
use crate::page::{
    along, extends, inside, lemma_graph_later, lemma_run_later, lemma_shows_later, lemma_with_edge_true,
    region_leads, run_spans, run_true, shows, sits,
};
use crate::position::{LineColumn, Node, Region};
use crate::scan::{
    closed, descent, dropped, north_half, parsed, queued, west_half, Fate, Met, Port, Scan, Sweep, Turn, Tx,
};
use crate::stroke::{Brush, Edge};
use vstd::prelude::*;

verus! {

/// Whether a pending run is true to the page: it is a run of a glyph that
/// is true to the page, and its last cell is its first or holds that glyph.
pub open spec fn port_true(page: Seq<Seq<char>>, port: Port) -> bool {
    &&& run_true(page, port.start, port.end, port.edge.1)
    &&& is_glyph(port.edge.1.glyph())
    &&& port.end.visual == port.start.visual || port.end.character == port.edge.1.glyph()
}

/// Whether each of `ports` is true to the page.
pub open spec fn ports_true(page: Seq<Seq<char>>, ports: Seq<Port>) -> bool {
    forall|i: int| 0 <= i < ports.len() ==> port_true(page, #[trigger] ports[i])
}

/// Whether each of `ports` starts and ends before `bound` in the text.
pub open spec fn ports_before(ports: Seq<Port>, bound: LineColumn) -> bool {
    forall|i: int|
        0 <= i < ports.len() ==> (#[trigger] ports[i]).start.source.before(bound) && ports[i].end.source.before(
            bound,
        )
}

/// Whether none of `ports` starts or ends after `bound` in the text.
pub open spec fn ports_upto(ports: Seq<Port>, bound: LineColumn) -> bool {
    forall|i: int|
        0 <= i < ports.len() ==> !bound.before((#[trigger] ports[i]).start.source) && !bound.before(
            ports[i].end.source,
        )
}

/// Whether a pending run covers both the cell at line `l` and column `c`
/// and the cell at line `m` and column `d`: each is an end of the run or lies
/// inside it.
pub open spec fn port_spans(port: Port, l: int, c: int, m: int, d: int) -> bool {
    run_spans(port.start.visual, port.end.visual, port.edge.1, l, c, m, d)
}

/// Whether one of `ports` covers both the cell at line `l` and column `c` and
/// the cell at line `m` and column `d`.
pub open spec fn ports_span(ports: Seq<Port>, l: int, c: int, m: int, d: int) -> bool {
    exists|i: int| 0 <= i < ports.len() && port_spans(#[trigger] ports[i], l, c, m, d)
}

/// Whether the cell that the scan resolves is true to the page: if it holds
/// a glyph, the page shows that glyph there.
pub open spec fn cell_true(page: Seq<Seq<char>>, cell: Node) -> bool {
    is_glyph(cell.character) ==> sits(page, cell)
}

impl Sweep {
    /// Whether the sweep is true to the page while the pending runs take
    /// `cell`.
    pub open spec fn true_to(self, page: Seq<Seq<char>>, cell: Node) -> bool {
        &&& self.graph.true_to(page)
        &&& ports_true(page, self.ports)
        &&& ports_upto(self.ports, cell.source)
        &&& self.met.carried ==> ports_span(
            self.ports,
            cell.visual.line as int,
            cell.visual.column as int,
            cell.visual.line as int,
            cell.visual.column as int,
        )
        &&& (self.met.north || self.met.falling || self.met.rising) ==> self.graph.covers(
            cell.visual.line as int,
            cell.visual.column as int,
        )
    }

    /// Whether a segment of the graph or a pending run covers both the cell
    /// at line `l` and column `c` and the cell at line `m` and column `d`.
    pub open spec fn spans(self, l: int, c: int, m: int, d: int) -> bool {
        self.graph.spans(l, c, m, d) || ports_span(self.ports, l, c, m, d)
    }
}

/// A run that is true to the page, queued, leaves the pending runs true to
/// the page; what they covered they still cover, and they cover the run.
proof fn lemma_queued(page: Seq<Seq<char>>, ports: Seq<Port>, port: Port, bound: LineColumn)
    requires
        ports_true(page, ports),
        ports_upto(ports, bound),
        port_true(page, port),
        !bound.before(port.start.source),
        !bound.before(port.end.source),
    ensures
        ports_true(page, queued(ports, port)),
        ports_upto(queued(ports, port), bound),
        forall|l: int, c: int, m: int, d: int|
            ports_span(ports, l, c, m, d) ==> #[trigger] ports_span(queued(ports, port), l, c, m, d),
        forall|l: int, c: int, m: int, d: int|
            port_spans(port, l, c, m, d) ==> #[trigger] ports_span(queued(ports, port), l, c, m, d),
{
    let q = queued(ports, port);
    assert forall|l: int, c: int, m: int, d: int| ports_span(ports, l, c, m, d) implies #[trigger] ports_span(
        q,
        l,
        c,
        m,
        d,
    ) by {
        let i = choose|i: int| 0 <= i < ports.len() && port_spans(#[trigger] ports[i], l, c, m, d);
        assert(q[i] == ports[i]);
    }
    assert forall|l: int, c: int, m: int, d: int| port_spans(port, l, c, m, d) implies #[trigger] ports_span(
        q,
        l,
        c,
        m,
        d,
    ) by {
        if ports.contains(port) {
            let i = choose|i: int| 0 <= i < ports.len() && ports[i] == port;
            assert(port_spans(q[i], l, c, m, d));
        } else {
            assert(port_spans(q[q.len() - 1], l, c, m, d));
        }
    }
}

/// The run that a junction sends down from its own cell is true to the page.
pub proof fn lemma_descent(page: Seq<Seq<char>>, cell: Node, w: Weight)
    requires
        sits(page, cell),
    ensures
        port_true(page, descent(cell, w)),
        descent(cell, w).start.source == cell.source,
        descent(cell, w).end.source == cell.source,
{
}

/// The south arm of a glyph, sent down, leaves the pending runs true to the
/// page; what they covered they still cover, and they cover the cell of the
/// glyph if it has such an arm.
proof fn lemma_dropped(page: Seq<Seq<char>>, ports: Seq<Port>, cell: Node)
    requires
        ports_true(page, ports),
        ports_upto(ports, cell.source),
        cell_true(page, cell),
    ensures
        ports_true(page, dropped(ports, cell)),
        ports_upto(dropped(ports, cell), cell.source),
        forall|l: int, c: int, m: int, d: int|
            ports_span(ports, l, c, m, d) ==> #[trigger] ports_span(dropped(ports, cell), l, c, m, d),
        south_arm(cell.character) is Some ==> ports_span(
            dropped(ports, cell),
            cell.visual.line as int,
            cell.visual.column as int,
            cell.visual.line as int,
            cell.visual.column as int,
        ),
{
    let l = cell.visual.line as int;
    let c = cell.visual.column as int;
    match south_arm(cell.character) {
        Some(w) => {
            lemma_descent(page, cell, w);
            lemma_queued(page, ports, descent(cell, w), cell.source);
            assert(port_spans(descent(cell, w), l, c, l, c));
        },
        None => {},
    }
}

/// A run that goes on into `cell`, or ends in its centre, is true to the
/// page from its start to `cell`, and covers what it covered before.
pub proof fn lemma_reaches(page: Seq<Seq<char>>, port: Port, cell: Node, target: Node)
    requires
        port_true(page, port),
        sits(page, cell),
        target.visual == cell.visual,
        target.character == cell.character,
        target.source == cell.source,
        port.start.source.before(cell.source),
        port.fate(cell) is Continues || port.fate(cell) is Crosses || port.fate(cell) is Arrives,
    ensures
        run_true(page, port.start, target, port.edge.1),
        forall|l: int, c: int|
            along(port.start.visual, port.end.visual, port.edge.1, l, c) ==> #[trigger] along(
                port.start.visual,
                target.visual,
                port.edge.1,
                l,
                c,
            ),
{
    let v = port.start.visual;
    let e = port.end.visual;
    let u = target.visual;
    let brush = port.edge.1;
    assert(e.line + 1 == u.line);
    assert forall|l: int, c: int| #[trigger] inside(v, u, brush, l, c) implies shows(page, l, c, brush.glyph()) by {
        if inside(v, e, brush, l, c) {
        } else {
            assert(l == e.line && c == e.column);
            assert(e != v);
        }
    }
}

/// One pending run that takes the cell leaves the sweep true to the page;
/// what the sweep or the run covered, the sweep still covers.
pub proof fn lemma_take(sweep: Sweep, port: Port, cell: Node, page: Seq<Seq<char>>)
    requires
        sweep.true_to(page, cell),
        port_true(page, port),
        port.start.source.before(cell.source),
        port.end.source.before(cell.source),
        cell_true(page, cell),
    ensures
        sweep.take(port, cell).true_to(page, cell),
        forall|l: int, c: int, m: int, d: int|
            sweep.spans(l, c, m, d) ==> #[trigger] sweep.take(port, cell).spans(l, c, m, d),
        forall|l: int, c: int, m: int, d: int|
            port_spans(port, l, c, m, d) ==> #[trigger] sweep.take(port, cell).spans(l, c, m, d),
{
    let after = sweep.take(port, cell);
    let center = cell.at(Region::Center, Region::Center);
    let ch = cell.character;
    let here_l = cell.visual.line as int;
    let here_c = cell.visual.column as int;
    match port.fate(cell) {
        Fate::Continues => {
            assert(ch == port.edge.1.glyph());
            let landing = port.edge.1.landing();
            let target = cell.at(landing.0, landing.1);
            let longer = Port { end: target, ..port };
            lemma_reaches(page, port, cell, target);
            assert(port_true(page, longer));
            lemma_queued(page, sweep.ports, longer, cell.source);
            assert(port_spans(longer, here_l, here_c, here_l, here_c));
            assert forall|l: int, c: int, m: int, d: int| port_spans(port, l, c, m, d) implies #[trigger] after.spans(
                l,
                c,
                m,
                d,
            ) by {
                assert(along(port.start.visual, target.visual, port.edge.1, l, c));
                assert(along(port.start.visual, target.visual, port.edge.1, m, d));
                assert(port_spans(longer, l, c, m, d));
            }
        },
        Fate::Crosses => {
            assert(is_glyph(ch));
            lemma_reaches(page, port, cell, center);
            lemma_with_edge_true(sweep.graph, page, port.start, center, port.edge);
            assert(run_spans(port.start.visual, center.visual, port.edge.1, here_l, here_c, here_l, here_c));
            assert forall|l: int, c: int, m: int, d: int| port_spans(port, l, c, m, d) implies #[trigger] after.spans(
                l,
                c,
                m,
                d,
            ) by {
                assert(along(port.start.visual, center.visual, port.edge.1, l, c));
                assert(along(port.start.visual, center.visual, port.edge.1, m, d));
                assert(run_spans(port.start.visual, center.visual, port.edge.1, l, c, m, d));
            }
        },
        Fate::Arrives => {
            assert(is_glyph(ch));
            lemma_reaches(page, port, cell, center);
            lemma_with_edge_true(sweep.graph, page, port.start, center, port.edge);
            lemma_dropped(page, sweep.ports, cell);
            assert(run_spans(port.start.visual, center.visual, port.edge.1, here_l, here_c, here_l, here_c));
            assert forall|l: int, c: int, m: int, d: int| port_spans(port, l, c, m, d) implies #[trigger] after.spans(
                l,
                c,
                m,
                d,
            ) by {
                assert(along(port.start.visual, center.visual, port.edge.1, l, c));
                assert(along(port.start.visual, center.visual, port.edge.1, m, d));
                assert(run_spans(port.start.visual, center.visual, port.edge.1, l, c, m, d));
            }
        },
        Fate::Waits => {
            lemma_queued(page, sweep.ports, port, cell.source);
        },
        Fate::Ends => {
            lemma_with_edge_true(sweep.graph, page, port.start, port.end, port.edge);
        },
    }
}

/// The pending runs that take the cell in turn leave the sweep true to the
/// page; what the sweep or the runs covered, the sweep still covers.
pub proof fn lemma_take_all(sweep: Sweep, ports: Seq<Port>, cell: Node, page: Seq<Seq<char>>)
    requires
        sweep.true_to(page, cell),
        ports_true(page, ports),
        ports_before(ports, cell.source),
        cell_true(page, cell),
    ensures
        sweep.take_all(ports, cell).true_to(page, cell),
        forall|l: int, c: int, m: int, d: int|
            sweep.spans(l, c, m, d) ==> #[trigger] sweep.take_all(ports, cell).spans(l, c, m, d),
        forall|l: int, c: int, m: int, d: int|
            ports_span(ports, l, c, m, d) ==> #[trigger] sweep.take_all(ports, cell).spans(l, c, m, d),
    decreases ports.len(),
{
    if ports.len() > 0 {
        let front = ports.drop_last();
        let last = ports.last();
        assert forall|i: int| 0 <= i < front.len() implies port_true(page, #[trigger] front[i]) by {
            assert(front[i] == ports[i]);
        }
        assert forall|i: int| 0 <= i < front.len() implies (#[trigger] front[i]).start.source.before(cell.source)
            && front[i].end.source.before(cell.source) by {
            assert(front[i] == ports[i]);
        }
        lemma_take_all(sweep, front, cell, page);
        let mid = sweep.take_all(front, cell);
        assert(last == ports[ports.len() - 1]);
        lemma_take(mid, last, cell, page);
        let after = mid.take(last, cell);
        assert forall|l: int, c: int, m: int, d: int| sweep.spans(l, c, m, d) implies #[trigger] after.spans(
            l,
            c,
            m,
            d,
        ) by {
            assert(mid.spans(l, c, m, d));
        }
        assert forall|l: int, c: int, m: int, d: int| ports_span(ports, l, c, m, d) implies #[trigger] after.spans(
            l,
            c,
            m,
            d,
        ) by {
            let i = choose|i: int| 0 <= i < ports.len() && port_spans(#[trigger] ports[i], l, c, m, d);
            if i < front.len() {
                assert(front[i] == ports[i]);
                assert(ports_span(front, l, c, m, d));
                assert(mid.spans(l, c, m, d));
            } else {
                assert(port_spans(last, l, c, m, d));
            }
        }
    }
}

/// Whether the horizontal run in building is true to the page. `row` is the
/// row that the scan is in and `width` the number of its cells that the scan
/// has passed; `prev` is the last of them.
///
/// The run starts in that row, every cell after its first up to `prev` holds
/// its glyph, and `prev` is the cell before the next one.
pub open spec fn building_true(page: Seq<Seq<char>>, tx: Tx, prev: Node, row: int, width: int) -> bool {
    tx matches Tx::Build { start, edge } ==> {
        &&& edge.1 is EastWest
        &&& is_glyph(edge.1.glyph())
        &&& sits(page, start)
        &&& start.visual.line == row
        &&& start.visual.column < width
        &&& forall|c: int| start.visual.column < c < width ==> #[trigger] shows(page, row, c, edge.1.glyph())
        &&& prev.visual.line == row
        &&& prev.visual.column == width - 1
        &&& sits(page, prev)
        &&& start.region == (Region::Center, Region::West) || start.region == (Region::Center, Region::Center)
        &&& (prev.visual == start.visual && prev.source == start.source && prev.character == start.character) || (
        prev.character == edge.1.glyph() && start.source.before(prev.source))
    }
}

/// Whether the run in building covers both the cell at line `l` and column
/// `c` and the cell at line `m` and column `d`.
pub open spec fn building_spans(tx: Tx, row: int, width: int, l: int, c: int, m: int, d: int) -> bool {
    tx matches Tx::Build { start, .. } && l == row && m == row && start.visual.column <= c < width
        && start.visual.column <= d < width
}

/// Whether the run in building starts before `bound` in the text.
pub open spec fn building_before(tx: Tx, bound: LineColumn) -> bool {
    tx matches Tx::Build { start, .. } ==> start.source.before(bound)
}

/// Whether the cell that the scan resolves is the next cell of its row, if
/// it holds a glyph.
pub open spec fn placed(cell: Node, row: int, width: int) -> bool {
    is_glyph(cell.character) ==> cell.visual.line == row && cell.visual.column == width
}

/// Every glyph is a stroke, a crossing or a junction with an arm.
pub proof fn lemma_glyph_kinds(c: char)
    requires
        is_glyph(c),
    ensures
        Brush::of_glyph(c) is Some || falling_half(c) is Some || north_arm(c) is Some || south_arm(c) is Some
            || west_arm(c) is Some || east_arm(c) is Some,
{
}

/// Only glyphs are strokes, crossings or junctions.
pub proof fn lemma_kinds_are_glyphs(c: char)
    ensures
        Brush::of_glyph(c) is Some ==> is_glyph(c) && Brush::of_glyph(c)->0.glyph() == c,
        falling_half(c) is Some ==> is_glyph(c) && rising_half(c) is Some && is_glyph(falling_half(c)->0) && is_glyph(
            rising_half(c)->0,
        ),
        rising_half(c) is Some ==> falling_half(c) is Some,
        north_arm(c) is Some ==> is_glyph(c),
        south_arm(c) is Some ==> is_glyph(c),
        west_arm(c) is Some ==> is_glyph(c),
        east_arm(c) is Some ==> is_glyph(c),
        crown(c) is Some ==> is_glyph(c),
        lone_west(c) is Some ==> is_glyph(c),
        crown(c) is Some <==> north_arm(c) is Some,
        lone_west(c) is Some <==> west_arm(c) is Some,
        forall|w: Weight| is_glyph(#[trigger] upright(w)) && is_glyph(#[trigger] level(w)),
{
}

/// A run from one region of a glyph's cell to another is true to the page.
pub proof fn lemma_half(page: Seq<Seq<char>>, cell: Node, from: (Region, Region), to: (Region, Region), brush: Brush)
    requires
        sits(page, cell),
        region_leads(from, to),
    ensures
        run_true(page, cell.at(from.0, from.1), cell.at(to.0, to.1), brush),
        run_spans(
            cell.at(from.0, from.1).visual,
            cell.at(to.0, to.1).visual,
            brush,
            cell.visual.line as int,
            cell.visual.column as int,
            cell.visual.line as int,
            cell.visual.column as int,
        ),
{
}

/// The run in building, ended in the east of the cell before, is true to
/// the page and covers every cell that the run covered.
pub proof fn lemma_closing(page: Seq<Seq<char>>, tx: Tx, prev: Node, row: int, width: int)
    requires
        building_true(page, tx, prev, row, width),
        tx is Build,
    ensures
        run_true(page, tx->start, prev.at(Region::Center, Region::East), tx->edge.1),
        forall|l: int, c: int, m: int, d: int| #[trigger]
            building_spans(tx, row, width, l, c, m, d) ==> run_spans(
                tx->start.visual,
                prev.at(Region::Center, Region::East).visual,
                tx->edge.1,
                l,
                c,
                m,
                d,
            ),
{
    let start = tx->start;
    let brush = tx->edge.1;
    let end = prev.at(Region::Center, Region::East);
    assert forall|l: int, c: int| #[trigger] inside(start.visual, end.visual, brush, l, c) implies shows(
        page,
        l,
        c,
        brush.glyph(),
    ) by {
        assert(shows(page, row, c, brush.glyph()));
    }
}

/// The run in building, ended in the centre of the cell that takes it up,
/// is true to the page and covers every cell that the run covered.
pub proof fn lemma_taken(page: Seq<Seq<char>>, tx: Tx, prev: Node, cell: Node, row: int, width: int)
    requires
        building_true(page, tx, prev, row, width),
        tx is Build,
        sits(page, cell),
        cell.visual.line == row,
        cell.visual.column == width,
        tx->start.source.before(cell.source),
    ensures
        run_true(page, tx->start, cell.at(Region::Center, Region::Center), tx->edge.1),
        forall|l: int, c: int, m: int, d: int| #[trigger]
            building_spans(tx, row, width, l, c, m, d) ==> run_spans(
                tx->start.visual,
                cell.at(Region::Center, Region::Center).visual,
                tx->edge.1,
                l,
                c,
                m,
                d,
            ),
        run_spans(
            tx->start.visual,
            cell.at(Region::Center, Region::Center).visual,
            tx->edge.1,
            cell.visual.line as int,
            cell.visual.column as int,
            cell.visual.line as int,
            cell.visual.column as int,
        ),
{
    let start = tx->start;
    let brush = tx->edge.1;
    assert forall|l: int, c: int| #[trigger]
        inside(start.visual, cell.visual, brush, l, c) implies shows(page, l, c, brush.glyph()) by {
        assert(shows(page, row, c, brush.glyph()));
    }
}

/// What is true of a turn once the glyph of the cell has settled.
pub open spec fn turn_true(
    turn: Turn,
    tx: Tx,
    page: Seq<Seq<char>>,
    cell: Node,
    row: int,
    width: int,
) -> bool {
    &&& turn.graph.true_to(page)
    &&& ports_true(page, turn.ports)
    &&& ports_upto(turn.ports, cell.source)
    &&& turn.closing is Build ==> turn.closing == tx
    &&& turn.tx is Build ==> is_glyph(cell.character)
    &&& building_true(page, turn.tx, cell, row, width + 1)
    &&& turn.tx matches Tx::Build { start, .. } ==> !cell.source.before(start.source)
}

/// Whether a turn covers both the cell at line `l` and column `c` and the
/// cell at line `m` and column `d`: by a segment of its graph, by a pending
/// run, by the run in building, or by the run that is still to be closed.
pub open spec fn turn_spans(turn: Turn, row: int, width: int, l: int, c: int, m: int, d: int) -> bool {
    ||| turn.graph.spans(l, c, m, d)
    ||| ports_span(turn.ports, l, c, m, d)
    ||| building_spans(turn.tx, row, width + 1, l, c, m, d)
    ||| building_spans(turn.closing, row, width, l, c, m, d)
}

/// The glyph of a cell that settles leaves the graph, the pending runs and
/// the run in building true to the page; what was covered stays covered, and
/// so is the cell, if it holds a glyph.
pub proof fn lemma_settle(
    sweep: Sweep,
    tx: Tx,
    cell: Node,
    prev: Node,
    page: Seq<Seq<char>>,
    row: int,
    width: int,
)
    requires
        sweep.true_to(page, cell),
        !sweep.met.carried,
        cell_true(page, cell),
        placed(cell, row, width),
        building_true(page, tx, prev, row, width),
        building_before(tx, cell.source),
    ensures
        turn_true(sweep.settle(tx, cell, prev), tx, page, cell, row, width),
        forall|l: int, c: int, m: int, d: int|
            sweep.spans(l, c, m, d) ==> #[trigger] turn_spans(sweep.settle(tx, cell, prev), row, width, l, c, m, d),
        forall|l: int, c: int, m: int, d: int|
            building_spans(tx, row, width, l, c, m, d) ==> #[trigger] turn_spans(
                sweep.settle(tx, cell, prev),
                row,
                width,
                l,
                c,
                m,
                d,
            ),
        is_glyph(cell.character) ==> turn_spans(
            sweep.settle(tx, cell, prev),
            row,
            width,
            cell.visual.line as int,
            cell.visual.column as int,
            cell.visual.line as int,
            cell.visual.column as int,
        ),
{
    let ch = cell.character;
    let center = cell.at(Region::Center, Region::Center);
    let turn = sweep.settle(tx, cell, prev);
    let here_l = cell.visual.line as int;
    let here_c = cell.visual.column as int;
    lemma_kinds_are_glyphs(ch);
    if is_glyph(ch) {
        lemma_glyph_kinds(ch);
    }
    let graph = if sweep.met.north {
        sweep.graph
    } else {
        north_half(sweep.graph, cell, crown(ch))
    };
    // The upper half.
    assert(graph.true_to(page) && (forall|l: int, c: int, m: int, d: int|
        sweep.graph.spans(l, c, m, d) ==> #[trigger] graph.spans(l, c, m, d)) && (north_arm(ch) is Some
        ==> graph.covers(here_l, here_c))) by {
        if !sweep.met.north && crown(ch) is Some {
            let brush = Brush::NorthSouth(upright(crown(ch)->0));
            lemma_half(page, cell, (Region::North, Region::Center), (Region::Center, Region::Center), brush);
            lemma_with_edge_true(
                sweep.graph,
                page,
                cell.at(Region::North, Region::Center),
                center,
                Edge::plain(brush),
            );
        }
    }
    if Brush::of_glyph(ch) is Some && !(Brush::of_glyph(ch)->0 is EastWest) {
        let brush = Brush::of_glyph(ch)->0;
        let port = Port {
            start: cell.at(brush.takeoff().0, brush.takeoff().1),
            end: cell.at(brush.landing().0, brush.landing().1),
            edge: Edge::plain(brush),
        };
        lemma_half(page, cell, brush.takeoff(), brush.landing(), brush);
        lemma_queued(page, sweep.ports, port, cell.source);
        assert(port_spans(port, here_l, here_c, here_l, here_c));
    } else if falling_half(ch) is Some && rising_half(ch) is Some {
        let fb = Brush::NorthWestSouthEast(falling_half(ch)->0);
        let rb = Brush::NorthEastSouthWest(rising_half(ch)->0);
        let falling = Edge::plain(fb);
        let rising = Edge::plain(rb);
        lemma_half(page, cell, (Region::North, Region::West), (Region::Center, Region::Center), fb);
        lemma_half(page, cell, (Region::North, Region::East), (Region::Center, Region::Center), rb);
        lemma_half(page, cell, (Region::Center, Region::Center), (Region::South, Region::East), fb);
        lemma_half(page, cell, (Region::Center, Region::Center), (Region::South, Region::West), rb);
        let first = if sweep.met.falling {
            graph
        } else {
            graph.with_edge(cell.at(Region::North, Region::West), center, falling)
        };
        if !sweep.met.falling {
            lemma_with_edge_true(graph, page, cell.at(Region::North, Region::West), center, falling);
        }
        let second = if sweep.met.rising {
            first
        } else {
            first.with_edge(cell.at(Region::North, Region::East), center, rising)
        };
        if !sweep.met.rising {
            lemma_with_edge_true(first, page, cell.at(Region::North, Region::East), center, rising);
        }
        let down = Port { start: center, end: cell.at(Region::South, Region::East), edge: falling };
        let back = Port { start: center, end: cell.at(Region::South, Region::West), edge: rising };
        lemma_queued(page, sweep.ports, down, cell.source);
        lemma_queued(page, queued(sweep.ports, down), back, cell.source);
        assert(port_spans(back, here_l, here_c, here_l, here_c));
        assert forall|l: int, c: int, m: int, d: int| sweep.spans(l, c, m, d) implies #[trigger] turn_spans(
            turn,
            row,
            width,
            l,
            c,
            m,
            d,
        ) by {
            if sweep.graph.spans(l, c, m, d) {
                assert(graph.spans(l, c, m, d));
                assert(first.spans(l, c, m, d));
                assert(second.spans(l, c, m, d));
            } else {
                assert(ports_span(queued(sweep.ports, down), l, c, m, d));
            }
        }
    } else if west_arm(ch) is None && (south_arm(ch) is Some || east_arm(ch) is Some) {
        lemma_dropped(page, sweep.ports, cell);
    } else {
        match tx {
            Tx::Initial => {
                if is_level(ch) {
                } else {
                    lemma_dropped(page, sweep.ports, cell);
                    if lone_west(ch) is Some {
                        let brush = Brush::EastWest(level(lone_west(ch)->0));
                        lemma_half(page, cell, (Region::Center, Region::West), (Region::Center, Region::Center), brush);
                        lemma_with_edge_true(graph, page, cell.at(Region::Center, Region::West), center, Edge::plain(brush));
                    }
                    let halved = west_half(graph, cell, lone_west(ch));
                    assert forall|l: int, c: int, m: int, d: int| sweep.spans(l, c, m, d) implies #[trigger] turn_spans(
                        turn,
                        row,
                        width,
                        l,
                        c,
                        m,
                        d,
                    ) by {
                        if sweep.graph.spans(l, c, m, d) {
                            assert(graph.spans(l, c, m, d));
                            assert(halved.spans(l, c, m, d));
                        }
                    }
                    if is_glyph(ch) {
                        if west_arm(ch) is Some {
                            assert(halved.covers(here_l, here_c));
                        } else {
                            assert(north_arm(ch) is Some);
                            assert(graph.covers(here_l, here_c));
                            assert(halved.covers(here_l, here_c));
                        }
                    }
                }
            },
            Tx::Build { start, edge } => {
                if edge.1 == Brush::EastWest(ch) {
                    assert(is_glyph(ch));
                    assert forall|c: int| start.visual.column < c < width + 1 implies #[trigger] shows(
                        page,
                        row,
                        c,
                        edge.1.glyph(),
                    ) by {
                        if c < width {
                            assert(shows(page, row, c, edge.1.glyph()));
                        }
                    }
                } else {
                    let taken = edge.1 is EastWest && level_weight(edge.1->EastWest_0) is Some && takes_up(
                        ch,
                        level_weight(edge.1->EastWest_0)->0,
                    );
                    lemma_dropped(page, sweep.ports, cell);
                    if taken {
                        lemma_taken(page, tx, prev, cell, row, width);
                        lemma_with_edge_true(graph, page, start, center, edge);
                        let ended = graph.with_edge(start, center, edge);
                        assert forall|l: int, c: int, m: int, d: int| sweep.spans(l, c, m, d) implies #[trigger] turn_spans(
                            turn,
                            row,
                            width,
                            l,
                            c,
                            m,
                            d,
                        ) by {
                            if sweep.graph.spans(l, c, m, d) {
                                assert(graph.spans(l, c, m, d));
                                assert(ended.spans(l, c, m, d));
                            }
                        }
                        assert forall|l: int, c: int, m: int, d: int|
                            building_spans(tx, row, width, l, c, m, d) implies #[trigger] turn_spans(
                            turn,
                            row,
                            width,
                            l,
                            c,
                            m,
                            d,
                        ) by {
                            assert(run_spans(start.visual, center.visual, edge.1, l, c, m, d));
                            assert(ended.spans(l, c, m, d));
                        }
                        assert(ended.covers(here_l, here_c));
                    } else {
                        let halved = west_half(graph, cell, west_arm(ch));
                        if west_arm(ch) is Some {
                            let brush = Brush::EastWest(level(west_arm(ch)->0));
                            lemma_half(
                                page,
                                cell,
                                (Region::Center, Region::West),
                                (Region::Center, Region::Center),
                                brush,
                            );
                            lemma_with_edge_true(
                                graph,
                                page,
                                cell.at(Region::Center, Region::West),
                                center,
                                Edge::plain(brush),
                            );
                        }
                        lemma_closing(page, tx, prev, row, width);
                        let last = prev.at(Region::Center, Region::East);
                        lemma_with_edge_true(halved, page, start, last, edge);
                        let ended = halved.with_edge(start, last, edge);
                        assert forall|l: int, c: int, m: int, d: int| sweep.spans(l, c, m, d) implies #[trigger] turn_spans(
                            turn,
                            row,
                            width,
                            l,
                            c,
                            m,
                            d,
                        ) by {
                            if sweep.graph.spans(l, c, m, d) {
                                assert(graph.spans(l, c, m, d));
                                assert(halved.spans(l, c, m, d));
                                assert(ended.spans(l, c, m, d));
                            }
                        }
                        assert forall|l: int, c: int, m: int, d: int|
                            building_spans(tx, row, width, l, c, m, d) implies #[trigger] turn_spans(
                            turn,
                            row,
                            width,
                            l,
                            c,
                            m,
                            d,
                        ) by {
                            assert(run_spans(start.visual, last.visual, edge.1, l, c, m, d));
                            assert(ended.spans(l, c, m, d));
                        }
                        if is_glyph(ch) {
                            if west_arm(ch) is Some {
                                assert(halved.covers(here_l, here_c));
                                assert(ended.covers(here_l, here_c));
                            } else if north_arm(ch) is Some {
                                assert(graph.covers(here_l, here_c));
                                assert(halved.covers(here_l, here_c));
                                assert(ended.covers(here_l, here_c));
                            } else {
                                assert(is_level(ch));
                            }
                        }
                    }
                }
            },
        }
    }
}

/// Pending runs that are true to a page are true to every page that holds
/// it.
pub proof fn lemma_ports_true_later(page: Seq<Seq<char>>, later: Seq<Seq<char>>, ports: Seq<Port>)
    requires
        extends(page, later),
        ports_true(page, ports),
    ensures
        ports_true(later, ports),
{
    assert forall|i: int| 0 <= i < ports.len() implies port_true(later, #[trigger] ports[i]) by {
        assert(port_true(page, ports[i]));
        lemma_run_later(page, later, ports[i].start, ports[i].end, ports[i].edge.1);
    }
}

/// A run in building that is true to a page is true to every page that
/// holds it.
pub proof fn lemma_building_later(
    page: Seq<Seq<char>>,
    later: Seq<Seq<char>>,
    tx: Tx,
    prev: Node,
    row: int,
    width: int,
)
    requires
        extends(page, later),
        building_true(page, tx, prev, row, width),
    ensures
        building_true(later, tx, prev, row, width),
{
    match tx {
        Tx::Build { start, edge } => {
            lemma_shows_later(page, later, start.visual.line as int, start.visual.column as int, start.character);
            lemma_shows_later(page, later, prev.visual.line as int, prev.visual.column as int, prev.character);
            assert forall|c: int| start.visual.column < c < width implies #[trigger] shows(
                later,
                row,
                c,
                edge.1.glyph(),
            ) by {
                assert(shows(page, row, c, edge.1.glyph()));
                lemma_shows_later(page, later, row, c, edge.1.glyph());
            }
        },
        Tx::Initial => {},
    }
}

/// Whether the graph, the pending runs and the run in building of a scan
/// are true to the page, each of them made before `location` in the text.
/// `row` is the row that the scan is in and `width` the number of its cells
/// that the scan has passed.
pub open spec fn held_true(s: Scan, page: Seq<Seq<char>>, row: int, width: int) -> bool {
    &&& s.graph.true_to(page)
    &&& ports_true(page, s.ports)
    &&& ports_before(s.ports, s.location.source)
    &&& building_true(page, s.tx, s.previous_location, row, width)
    &&& building_before(s.tx, s.location.source)
}

/// Whether a segment of the graph, a pending run or the run in building of
/// a scan covers both the cell at line `l` and column `c` and the cell at
/// line `m` and column `d`.
pub open spec fn held_spans(s: Scan, row: int, width: int, l: int, c: int, m: int, d: int) -> bool {
    s.graph.spans(l, c, m, d) || ports_span(s.ports, l, c, m, d) || building_spans(s.tx, row, width, l, c, m, d)
}

/// Whether the graph, a pending run or the run in building of a scan covers
/// the cell at line `l` and column `c`.
pub open spec fn held_covers(s: Scan, row: int, width: int, l: int, c: int) -> bool {
    held_spans(s, row, width, l, c, l, c)
}

/// Resolving a cell leaves the scan true to the page, with the cell now
/// passed. What was covered stays covered, and so is the cell, if it holds a
/// glyph. Only a glyph leaves a run in building.
pub proof fn lemma_step(s: Scan, page: Seq<Seq<char>>, later: Seq<Seq<char>>, row: int, width: int)
    requires
        held_true(s, page, row, width),
        extends(page, later),
        cell_true(later, s.location),
        placed(s.location, row, width),
    ensures
        s.step().graph.true_to(later),
        ports_true(later, s.step().ports),
        ports_upto(s.step().ports, s.location.source),
        building_true(later, s.step().tx, s.location, row, width + 1),
        s.step().tx matches Tx::Build { start, .. } ==> !s.location.source.before(start.source),
        s.step().tx is Build ==> is_glyph(s.location.character),
        s.step().location == s.location,
        forall|l: int, c: int, m: int, d: int|
            held_spans(s, row, width, l, c, m, d) ==> #[trigger] held_spans(s.step(), row, width + 1, l, c, m, d),
        is_glyph(s.location.character) ==> held_covers(
            s.step(),
            row,
            width + 1,
            s.location.visual.line as int,
            s.location.visual.column as int,
        ),
{
    let cell = s.location;
    let prev = s.previous_location;
    lemma_graph_later(s.graph, page, later);
    lemma_ports_true_later(page, later, s.ports);
    lemma_building_later(page, later, s.tx, prev, row, width);
    let first = Sweep { graph: s.graph, ports: Seq::empty(), met: Met::nothing() };
    lemma_take_all(first, s.ports, cell, later);
    let swept = first.take_all(s.ports, cell);
    let turn = if swept.met.carried {
        Turn { graph: swept.graph, ports: swept.ports, tx: Tx::Initial, closing: s.tx }
    } else {
        swept.settle(s.tx, cell, prev)
    };
    if !swept.met.carried {
        lemma_settle(swept, s.tx, cell, prev, later, row, width);
    }
    assert(turn_true(turn, s.tx, later, cell, row, width));
    let after = s.step();
    assert(after.graph == closed(turn.graph, turn.closing, prev));
    if turn.closing is Build {
        lemma_closing(later, s.tx, prev, row, width);
        lemma_with_edge_true(turn.graph, later, s.tx->start, prev.at(Region::Center, Region::East), s.tx->edge);
    }
    assert forall|l: int, c: int, m: int, d: int| held_spans(s, row, width, l, c, m, d) implies #[trigger] held_spans(
        after,
        row,
        width + 1,
        l,
        c,
        m,
        d,
    ) by {
        if s.graph.spans(l, c, m, d) {
            assert(first.spans(l, c, m, d));
            assert(swept.spans(l, c, m, d));
        } else if ports_span(s.ports, l, c, m, d) {
            assert(swept.spans(l, c, m, d));
        }
        if swept.spans(l, c, m, d) {
            assert(turn_spans(turn, row, width, l, c, m, d));
        } else {
            assert(building_spans(s.tx, row, width, l, c, m, d));
            assert(turn_spans(turn, row, width, l, c, m, d));
        }
        if turn.graph.spans(l, c, m, d) {
            assert(after.graph.spans(l, c, m, d));
        } else if building_spans(turn.closing, row, width, l, c, m, d) {
            assert(run_spans(
                s.tx->start.visual,
                prev.at(Region::Center, Region::East).visual,
                s.tx->edge.1,
                l,
                c,
                m,
                d,
            ));
            assert(after.graph.spans(l, c, m, d));
        }
    }
    if is_glyph(cell.character) {
        let l = cell.visual.line as int;
        let c = cell.visual.column as int;
        assert(turn_spans(turn, row, width, l, c, l, c));
        if turn.graph.spans(l, c, l, c) {
            assert(after.graph.spans(l, c, l, c));
        }
        assert(!building_spans(turn.closing, row, width, l, c, l, c));
    }
}

/// The page after one more character of the text; `k` is what is kept of
/// the character.
pub open spec fn page_with(page: Seq<Seq<char>>, k: Option<char>) -> Seq<Seq<char>> {
    match k {
        None => page,
        Some(c) => if c == '\n' {
            page.push(Seq::empty())
        } else {
            page.update(page.len() - 1, page.last().push(c))
        },
    }
}

/// Whether the cell at line `l` and column `c` of `page` holds a glyph.
pub open spec fn glyph_at(page: Seq<Seq<char>>, l: int, c: int) -> bool {
    1 <= l <= page.len() && 0 <= c < page[l - 1].len() && is_glyph(page[l - 1][c])
}

impl Scan {
    /// Whether the scan is true to the page of the `n` characters that it
    /// has taken: it stands at the end of the last row, what it holds is true
    /// to the page, and every glyph on the page is covered.
    pub open spec fn tracks(self, page: Seq<Seq<char>>, n: nat) -> bool {
        &&& page.len() >= 1
        &&& page.len() <= n + 1
        &&& page.last().len() <= n
        &&& self.location.visual.line == page.len()
        &&& self.location.visual.column == page.last().len()
        &&& self.location.source.line <= n + 1
        &&& self.location.source.column <= n
        &&& held_true(self, page, page.len() as int, page.last().len() as int)
        &&& forall|l: int, c: int| #[trigger]
            glyph_at(page, l, c) ==> held_covers(self, page.len() as int, page.last().len() as int, l, c)
    }
}

/// What does not start or end after a place starts and ends before every
/// later place.
proof fn lemma_ports_before_later(ports: Seq<Port>, bound: LineColumn, later: LineColumn)
    requires
        ports_upto(ports, bound),
        bound.before(later),
    ensures
        ports_before(ports, later),
{
    assert forall|i: int| 0 <= i < ports.len() implies (#[trigger] ports[i]).start.source.before(later)
        && ports[i].end.source.before(later) by {
        assert(!bound.before(ports[i].start.source));
    }
}

/// What starts and ends before a place does not start or end after it.
proof fn lemma_ports_upto(ports: Seq<Port>, bound: LineColumn)
    requires
        ports_before(ports, bound),
    ensures
        ports_upto(ports, bound),
{
    assert forall|i: int| 0 <= i < ports.len() implies !bound.before((#[trigger] ports[i]).start.source)
        && !bound.before(ports[i].end.source) by {
        assert(ports[i].start.source.before(bound));
    }
}

/// Taking one more character leaves the scan true to the page with that
/// character on it.
pub proof fn lemma_fed(s: Scan, page: Seq<Seq<char>>, n: nat, c: char, mark: bool)
    requires
        s.tracks(page, n),
        n + 3 <= usize::MAX,
        mark ==> !is_glyph(c) && c != '\n',
    ensures
        s.fed(c, mark).tracks(page_with(page, kept(c, mark)), n + 1),
{
    let row = page.len() as int;
    let width = page.last().len() as int;
    let after = s.fed(c, mark);
    let turned = page_with(page, kept(c, mark));
    if mark {
        lemma_ports_upto(s.ports, s.location.source);
        lemma_ports_before_later(s.ports, s.location.source, after.location.source);
    } else {
        let held = s.holding(c);
        let cell = held.location;
        let later = if c == '\n' {
            page
        } else {
            turned
        };
        assert(extends(page, later));
        assert(extends(later, turned));
        assert(cell_true(later, cell));
        lemma_step(held, page, later, row, width);
        let t = held.step();
        lemma_ports_before_later(t.ports, cell.source, after.location.source);
        lemma_graph_later(t.graph, later, turned);
        lemma_ports_true_later(later, turned, t.ports);
        assert(after.graph == t.graph);
        assert(after.ports == t.ports);
        assert(after.tx == t.tx);
        assert(after.previous_location == cell);
        assert forall|l: int, cc: int| #[trigger] glyph_at(turned, l, cc) implies held_covers(
            after,
            turned.len() as int,
            turned.last().len() as int,
            l,
            cc,
        ) by {
            if l == row && cc == width {
                assert(c != '\n');
                assert(is_glyph(c));
                assert(held_covers(t, row, width + 1, l, cc));
            } else {
                assert(glyph_at(page, l, cc));
                assert(held_covers(s, row, width, l, cc));
                assert(held_spans(held, row, width, l, cc, l, cc));
                assert(held_spans(t, row, width + 1, l, cc, l, cc));
            }
        }
    }
}

/// Whether no glyph and no line break of a text is a combining mark.
pub open spec fn marks_apart(text: Seq<char>) -> bool {
    forall|i: int| 0 <= i < text.len() && combining_mark(#[trigger] text[i]) ==> !is_glyph(text[i]) && text[i] != '\n'
}

/// The page that a text lays out: what is kept of its characters, cut into
/// rows at the line breaks.
pub open spec fn page_of(text: Seq<char>) -> Seq<Seq<char>> {
    pieces(sieved(text))
}

/// The scan of a text is true to the page that the text lays out.
pub proof fn lemma_scanned(text: Seq<char>)
    requires
        marks_apart(text),
        text.len() + 3 <= usize::MAX,
    ensures
        Scan::scanned(text).tracks(page_of(text), text.len()),
    decreases text.len(),
{
    if text.len() == 0 {
        let s = Scan::start();
        let page = page_of(text);
        assert(page =~= seq![Seq::<char>::empty()]);
    } else {
        let front = text.drop_last();
        let c = text.last();
        assert forall|i: int| 0 <= i < front.len() && combining_mark(#[trigger] front[i]) implies !is_glyph(front[i])
            && front[i] != '\n' by {
            assert(front[i] == text[i]);
        }
        lemma_scanned(front);
        assert(text[text.len() - 1] == c);
        lemma_fed(Scan::scanned(front), page_of(front), front.len(), c, combining_mark(c));
        lemma_page_grows(text);
    }
}

/// The page of a text is the page of the text before its last character,
/// with what is kept of that character.
pub proof fn lemma_page_grows(text: Seq<char>)
    requires
        text.len() > 0,
    ensures
        page_of(text) == page_with(page_of(text.drop_last()), kept(text.last(), combining_mark(text.last()))),
        page_of(text).len() >= 1,
{
    let front = text.drop_last();
    let c = text.last();
    match kept(c, combining_mark(c)) {
        Some(k) => {
            assert(sieved(text) == sieved(front).push(k));
            assert(sieved(front).push(k).drop_last() =~= sieved(front));
        },
        None => {},
    }
    lemma_page_rows(front);
}

/// A page has at least one row.
pub proof fn lemma_page_rows(text: Seq<char>)
    ensures
        page_of(text).len() >= 1,
    decreases text.len(),
{
    if text.len() > 0 {
        lemma_page_rows(text.drop_last());
        let front = text.drop_last();
        let c = text.last();
        match kept(c, combining_mark(c)) {
            Some(k) => {
                assert(sieved(text) == sieved(front).push(k));
                assert(sieved(front).push(k).drop_last() =~= sieved(front));
            },
            None => {},
        }
    }
}

/// Pending runs that all ended more than a row above the cell leave no
/// pending run behind, and meet nothing in the cell.
pub proof fn lemma_all_end(sweep: Sweep, ports: Seq<Port>, cell: Node)
    requires
        forall|i: int| 0 <= i < ports.len() ==> (#[trigger] ports[i]).end.visual.line + 1 < cell.visual.line,
    ensures
        sweep.take_all(ports, cell).ports == sweep.ports,
        sweep.take_all(ports, cell).met == sweep.met,
    decreases ports.len(),
{
    if ports.len() > 0 {
        let front = ports.drop_last();
        assert forall|i: int| 0 <= i < front.len() implies (#[trigger] front[i]).end.visual.line + 1
            < cell.visual.line by {
            assert(front[i] == ports[i]);
        }
        lemma_all_end(sweep, front, cell);
        assert(ports.last() == ports[ports.len() - 1]);
        assert(ports.last().fate(cell) is Ends);
    }
}

/// The graph that a text stands for is true to the page that the text lays
/// out, and covers every glyph on it.
pub proof fn lemma_parsed(text: Seq<char>)
    requires
        marks_apart(text),
        text.len() + 3 <= usize::MAX,
    ensures
        parsed(text).true_to(page_of(text)),
        forall|l: int, c: int| #[trigger] glyph_at(page_of(text), l, c) ==> parsed(text).covers(l, c),
        Scan::scanned(text).at_end().step().ports.len() == 0,
        Scan::scanned(text).at_end().step().tx is Initial,
{
    let page = page_of(text);
    let row = page.len() as int;
    let width = page.last().len() as int;
    lemma_scanned(text);
    let s = Scan::scanned(text);
    let e = s.at_end();
    let cell = e.location;
    assert(!is_glyph(cell.character));
    assert forall|i: int| 0 <= i < e.ports.len() implies (#[trigger] e.ports[i]).start.source.before(cell.source)
        && e.ports[i].end.source.before(cell.source) by {
        assert(s.ports[i].start.source.before(s.location.source));
    }
    assert(extends(page, page));
    lemma_step(e, page, page, row, width);
    let t = e.step();
    let first = Sweep { graph: e.graph, ports: Seq::empty(), met: Met::nothing() };
    assert forall|i: int| 0 <= i < e.ports.len() implies (#[trigger] e.ports[i]).end.visual.line + 1
        < cell.visual.line by {
        assert(port_true(page, e.ports[i]));
    }
    lemma_all_end(first, e.ports, cell);
    let swept = first.take_all(e.ports, cell);
    assert(swept.ports =~= Seq::<Port>::empty());
    assert(t.ports =~= Seq::<Port>::empty());
    assert forall|l: int, c: int| #[trigger] glyph_at(page, l, c) implies parsed(text).covers(l, c) by {
        assert(held_covers(s, row, width, l, c));
        assert(held_spans(e, row, width, l, c, l, c));
        assert(held_spans(t, row, width + 1, l, c, l, c));
        assert(!ports_span(t.ports, l, c, l, c));
    }
}

} // verus!
