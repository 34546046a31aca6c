//! Runs of one stroke lie whole on one segment.
//!
//! Where cells that follow one another along a stroke all hold its glyph,
//! the scan keeps them on one run: the run that ends in the last of them while
//! the next cell is still to come, and one segment of the graph after that.
use crate::clean::kept;
use crate::faithful::{
    building_spans, cell_true, held_spans, held_true, lemma_kinds_are_glyphs, lemma_page_grows, lemma_parsed,
    lemma_ports_true_later, lemma_scanned, lemma_step, marks_apart, page_of, page_with, port_spans, port_true,
    ports_span,
};
use crate::glyph::{
    combining_mark, east_arm, falling_half, is_glyph, is_level, level, rising_half, south_arm, upright,
};
use crate::page::{along, extends, shows};
use crate::position::{Node, Region};
use crate::scan::{descent, dropped, opened, parsed, queued, Met, Port, Scan, Sweep, Turn, Tx};
use crate::stroke::{Brush, Edge};
use vstd::prelude::*;

verus! {

/// The cell `k` steps back along a stroke from the cell at line `l` and
/// column `c`: up for a vertical stroke, west for a horizontal one, up and
/// west for a falling diagonal, up and east for a rising one.
pub open spec fn back(brush: Brush, l: int, c: int, k: int) -> (int, int) {
    match brush {
        Brush::NorthSouth(_) => (l - k, c),
        Brush::EastWest(_) => (l, c - k),
        Brush::NorthWestSouthEast(_) => (l - k, c - k),
        Brush::NorthEastSouthWest(_) => (l - k, c + k),
    }
}

/// Whether a stroke is the one that its own glyph draws.
pub open spec fn plain_stroke(brush: Brush) -> bool {
    Brush::of_glyph(brush.glyph()) == Some(brush)
}

/// Whether the cell at line `l` and column `c` and the `k` cells before it
/// along the stroke all hold the glyph of the stroke.
pub open spec fn run_back(page: Seq<Seq<char>>, brush: Brush, l: int, c: int, k: int) -> bool {
    &&& k >= 0
    &&& plain_stroke(brush)
    &&& forall|j: int|
        0 <= j <= k ==> shows(page, (#[trigger] back(brush, l, c, j)).0, back(brush, l, c, j).1, brush.glyph())
}

/// Whether the cell after the cell at line `l` and column `c` along the
/// stroke is still to come: it lies in a row below `row`, or in that row at
/// column `width` or east of it.
pub open spec fn unpassed(brush: Brush, l: int, c: int, row: int, width: int) -> bool {
    back(brush, l, c, -1).0 > row || (back(brush, l, c, -1).0 == row && back(brush, l, c, -1).1 >= width)
}

/// Whether a pending run of `brush` ends in the cell at line `l` and column
/// `c` and covers the cell at line `m` and column `d`.
pub open spec fn tip(port: Port, brush: Brush, l: int, c: int, m: int, d: int) -> bool {
    &&& port.edge.1 == brush
    &&& port.end.visual.line == l
    &&& port.end.visual.column == c
    &&& along(port.start.visual, port.end.visual, brush, m, d)
}

/// Whether one of `ports` is a run of `brush` that ends in the cell at line
/// `l` and column `c` and covers the cell at line `m` and column `d`.
pub open spec fn tipped(ports: Seq<Port>, brush: Brush, l: int, c: int, m: int, d: int) -> bool {
    exists|i: int| 0 <= i < ports.len() && tip(#[trigger] ports[i], brush, l, c, m, d)
}

/// Whether each of `ports` is drawn with the stroke of its own glyph, and
/// none with a horizontal one.
pub open spec fn ports_plain(ports: Seq<Port>) -> bool {
    forall|i: int| 0 <= i < ports.len() ==> plain_stroke((#[trigger] ports[i]).edge.1) && !(ports[i].edge.1 is EastWest)
}

/// Whether a scan keeps the runs of the page whole. `row` is the row that
/// the scan is in and `width` the number of its cells that the scan has
/// passed.
///
/// Every run of the page lies on one segment, one pending run or the run in
/// building. While the cell after a vertical or diagonal run is still to come,
/// a pending run of its stroke ends in its last cell; while a horizontal run
/// ends in the cell before the next one, it is the run in building.
pub open spec fn runs_kept(s: Scan, page: Seq<Seq<char>>, row: int, width: int) -> bool {
    &&& ports_plain(s.ports)
    &&& forall|brush: Brush, l: int, c: int, k: int| #[trigger]
        run_back(page, brush, l, c, k) ==> held_spans(
            s,
            row,
            width,
            l,
            c,
            back(brush, l, c, k).0,
            back(brush, l, c, k).1,
        )
    &&& forall|brush: Brush, l: int, c: int, k: int| #[trigger]
        run_back(page, brush, l, c, k) && !(brush is EastWest) && unpassed(brush, l, c, row, width) ==> tipped(
            s.ports,
            brush,
            l,
            c,
            back(brush, l, c, k).0,
            back(brush, l, c, k).1,
        )
    &&& forall|brush: Brush, k: int| #[trigger]
        run_back(page, brush, row, width - 1, k) && brush is EastWest ==> s.tx is Build && s.tx->edge.1 == brush
            && s.tx->start.visual.column <= width - 1 - k
}

/// The pending run that a stroke opens in its own cell.
pub open spec fn through(cell: Node, brush: Brush) -> Port {
    Port {
        start: cell.at(brush.takeoff().0, brush.takeoff().1),
        end: cell.at(brush.landing().0, brush.landing().1),
        edge: Edge::plain(brush),
    }
}

/// A pending run with its end moved into `cell`.
pub open spec fn reached(port: Port, cell: Node) -> Port {
    Port { end: cell.at(port.edge.1.landing().0, port.edge.1.landing().1), ..port }
}

/// What one pending run that takes the cell leaves of the pending runs: all
/// that were there, the run itself if it waits, and the run with its end in
/// the cell if it continues.
proof fn lemma_take_keeps(sweep: Sweep, port: Port, cell: Node)
    ensures
        forall|p: Port| sweep.ports.contains(p) ==> #[trigger] sweep.take(port, cell).ports.contains(p),
        port.fate(cell) is Waits ==> sweep.take(port, cell).ports.contains(port),
        port.fate(cell) is Continues ==> sweep.take(port, cell).ports.contains(reached(port, cell)) && sweep.take(
            port,
            cell,
        ).met.carried,
        sweep.met.carried ==> sweep.take(port, cell).met.carried,
        sweep.take(port, cell).met.carried && !sweep.met.carried ==> port.fate(cell) is Continues,
        ports_plain(sweep.ports) && plain_stroke(port.edge.1) && !(port.edge.1 is EastWest) ==> ports_plain(
            sweep.take(port, cell).ports,
        ),
{
    let after = sweep.take(port, cell);
    lemma_queued_keeps(sweep.ports, port);
    lemma_queued_keeps(sweep.ports, reached(port, cell));
    lemma_dropped_keeps(sweep.ports, cell);
}

/// A queue holds what it held and what was queued.
proof fn lemma_queued_keeps(ports: Seq<Port>, port: Port)
    ensures
        forall|p: Port| ports.contains(p) ==> #[trigger] queued(ports, port).contains(p),
        queued(ports, port).contains(port),
        ports_plain(ports) && plain_stroke(port.edge.1) && !(port.edge.1 is EastWest) ==> ports_plain(
            queued(ports, port),
        ),
{
    let q = queued(ports, port);
    assert forall|p: Port| ports.contains(p) implies #[trigger] q.contains(p) by {
        let i = choose|i: int| 0 <= i < ports.len() && ports[i] == p;
        assert(q[i] == p);
    }
    if !ports.contains(port) {
        assert(q[q.len() - 1] == port);
    }
}

/// The pending runs, after a glyph sent its south arm down, hold what they
/// held.
proof fn lemma_dropped_keeps(ports: Seq<Port>, cell: Node)
    ensures
        forall|p: Port| ports.contains(p) ==> #[trigger] dropped(ports, cell).contains(p),
        ports_plain(ports) ==> ports_plain(dropped(ports, cell)),
{
    match south_arm(cell.character) {
        Some(w) => {
            lemma_queued_keeps(ports, descent(cell, w));
        },
        None => {},
    }
}

/// What the pending runs that take the cell in turn leave of the pending
/// runs: each that waits, and each that continues with its end in the cell.
/// A run went straight through the cell just when one continued.
pub proof fn lemma_sweep_keeps(sweep: Sweep, ports: Seq<Port>, cell: Node)
    ensures
        forall|p: Port| sweep.ports.contains(p) ==> #[trigger] sweep.take_all(ports, cell).ports.contains(p),
        forall|i: int|
            0 <= i < ports.len() && (#[trigger] ports[i]).fate(cell) is Waits ==> sweep.take_all(
                ports,
                cell,
            ).ports.contains(ports[i]),
        forall|i: int|
            0 <= i < ports.len() && (#[trigger] ports[i]).fate(cell) is Continues ==> sweep.take_all(
                ports,
                cell,
            ).ports.contains(reached(ports[i], cell)) && sweep.take_all(ports, cell).met.carried,
        sweep.met.carried ==> sweep.take_all(ports, cell).met.carried,
        sweep.take_all(ports, cell).met.carried && !sweep.met.carried ==> exists|i: int|
            0 <= i < ports.len() && (#[trigger] ports[i]).fate(cell) is Continues,
        ports_plain(sweep.ports) && ports_plain(ports) ==> ports_plain(sweep.take_all(ports, cell).ports),
    decreases ports.len(),
{
    if ports.len() > 0 {
        let front = ports.drop_last();
        let last = ports.last();
        lemma_sweep_keeps(sweep, front, cell);
        let mid = sweep.take_all(front, cell);
        lemma_take_keeps(mid, last, cell);
        let after = mid.take(last, cell);
        assert(last == ports[ports.len() - 1]);
        assert forall|i: int| 0 <= i < ports.len() && (#[trigger] ports[i]).fate(cell) is Waits implies after.ports.contains(
            ports[i],
        ) by {
            if i < front.len() {
                assert(front[i] == ports[i]);
                assert(mid.ports.contains(ports[i]));
            }
        }
        assert forall|i: int|
            0 <= i < ports.len() && (#[trigger] ports[i]).fate(cell) is Continues implies after.ports.contains(
            reached(ports[i], cell),
        ) && after.met.carried by {
            if i < front.len() {
                assert(front[i] == ports[i]);
                assert(mid.ports.contains(reached(ports[i], cell)));
            }
        }
        if after.met.carried && !sweep.met.carried {
            if mid.met.carried {
                let i = choose|i: int| 0 <= i < front.len() && (#[trigger] front[i]).fate(cell) is Continues;
                assert(front[i] == ports[i]);
            } else {
                assert(ports[ports.len() - 1].fate(cell) is Continues);
            }
        }
        if ports_plain(sweep.ports) && ports_plain(ports) {
            assert forall|i: int| 0 <= i < front.len() implies plain_stroke((#[trigger] front[i]).edge.1) && !(
            front[i].edge.1 is EastWest) by {
                assert(front[i] == ports[i]);
            }
        }
    }
}

/// What the glyph of a cell that settles leaves of the pending runs and of
/// the run in building: the pending runs that were there; for a vertical or
/// diagonal stroke, a pending run of that stroke through the cell; for a
/// horizontal stroke, a run in building of that stroke, the one that was in
/// building if it was of that stroke.
pub proof fn lemma_settle_keeps(sweep: Sweep, tx: Tx, cell: Node, prev: Node)
    ensures
        forall|p: Port| sweep.ports.contains(p) ==> #[trigger] sweep.settle(tx, cell, prev).ports.contains(p),
        ports_plain(sweep.ports) ==> ports_plain(sweep.settle(tx, cell, prev).ports),
        Brush::of_glyph(cell.character) is Some && !(Brush::of_glyph(cell.character)->0 is EastWest)
            ==> sweep.settle(tx, cell, prev).ports.contains(through(cell, Brush::of_glyph(cell.character)->0)),
        is_level(cell.character) ==> sweep.settle(tx, cell, prev).tx is Build && sweep.settle(
            tx,
            cell,
            prev,
        ).tx->edge.1 == Brush::EastWest(cell.character),
        is_level(cell.character) && tx is Build && tx->edge.1 == Brush::EastWest(cell.character) ==> sweep.settle(
            tx,
            cell,
            prev,
        ).tx == tx,
{
    let ch = cell.character;
    let center = cell.at(Region::Center, Region::Center);
    lemma_dropped_keeps(sweep.ports, cell);
    if Brush::of_glyph(ch) is Some && !(Brush::of_glyph(ch)->0 is EastWest) {
        let brush = Brush::of_glyph(ch)->0;
        lemma_queued_keeps(sweep.ports, through(cell, brush));
    } else if falling_half(ch) is Some && rising_half(ch) is Some {
        let falling = Edge::plain(Brush::NorthWestSouthEast(falling_half(ch)->0));
        let rising = Edge::plain(Brush::NorthEastSouthWest(rising_half(ch)->0));
        let down = Port { start: center, end: cell.at(Region::South, Region::East), edge: falling };
        let past = Port { start: center, end: cell.at(Region::South, Region::West), edge: rising };
        lemma_queued_keeps(sweep.ports, down);
        lemma_queued_keeps(queued(sweep.ports, down), past);
        assert forall|p: Port| sweep.ports.contains(p) implies #[trigger] sweep.settle(tx, cell, prev).ports.contains(
            p,
        ) by {
            assert(queued(sweep.ports, down).contains(p));
        }
    }
}

/// Whether `later` is `page`, or `page` with one more cell at the end of its
/// last row: the cell in row `row` and column `width`.
pub open spec fn grown(page: Seq<Seq<char>>, later: Seq<Seq<char>>, row: int, width: int) -> bool {
    &&& extends(page, later)
    &&& page.len() == row
    &&& later.len() == row
    &&& row >= 1
    &&& page[row - 1].len() == width
    &&& forall|r: int| 0 <= r < row - 1 ==> (#[trigger] later[r]).len() == page[r].len()
    &&& later[row - 1].len() <= width + 1
}

/// A cell of the grown page, other than the new one, is a cell of the page.
proof fn lemma_shown_before(
    page: Seq<Seq<char>>,
    later: Seq<Seq<char>>,
    row: int,
    width: int,
    l: int,
    c: int,
    ch: char,
)
    requires
        grown(page, later, row, width),
        shows(later, l, c, ch),
        l != row || c != width,
    ensures
        shows(page, l, c, ch),
        l < row || c < width,
{
    if l < row {
        assert(later[l - 1].len() == page[l - 1].len());
    }
    assert(page[l - 1][c] == later[l - 1][c]);
}

/// A run of the grown page that does not end in the new cell is a run of
/// the page.
proof fn lemma_run_before(
    page: Seq<Seq<char>>,
    later: Seq<Seq<char>>,
    row: int,
    width: int,
    brush: Brush,
    l: int,
    c: int,
    k: int,
)
    requires
        grown(page, later, row, width),
        run_back(later, brush, l, c, k),
        l != row || c != width,
    ensures
        run_back(page, brush, l, c, k),
        l < row || c < width,
{
    assert(back(brush, l, c, 0) == (l, c));
    lemma_shown_before(page, later, row, width, l, c, brush.glyph());
    assert forall|j: int| 0 <= j <= k implies shows(
        page,
        (#[trigger] back(brush, l, c, j)).0,
        back(brush, l, c, j).1,
        brush.glyph(),
    ) by {
        let b = back(brush, l, c, j);
        assert(shows(later, b.0, b.1, brush.glyph()));
        lemma_shown_before(page, later, row, width, b.0, b.1, brush.glyph());
    }
}

/// A run that ends in a cell, less that cell, is a run that ends in the cell
/// before.
proof fn lemma_run_shorter(page: Seq<Seq<char>>, brush: Brush, l: int, c: int, k: int)
    requires
        run_back(page, brush, l, c, k),
        k >= 1,
    ensures
        run_back(page, brush, back(brush, l, c, 1).0, back(brush, l, c, 1).1, k - 1),
        back(brush, back(brush, l, c, 1).0, back(brush, l, c, 1).1, k - 1) == back(brush, l, c, k),
        back(brush, back(brush, l, c, 1).0, back(brush, l, c, 1).1, -1) == (l, c),
{
    let q = back(brush, l, c, 1);
    assert forall|j: int| 0 <= j <= k - 1 implies shows(
        page,
        (#[trigger] back(brush, q.0, q.1, j)).0,
        back(brush, q.0, q.1, j).1,
        brush.glyph(),
    ) by {
        assert(back(brush, q.0, q.1, j) == back(brush, l, c, j + 1));
    }
}

/// Resolving the next cell of the row keeps the runs whole.
pub proof fn lemma_step_runs(s: Scan, page: Seq<Seq<char>>, later: Seq<Seq<char>>, row: int, width: int)
    requires
        held_true(s, page, row, width),
        grown(page, later, row, width),
        cell_true(later, s.location),
        s.location.visual.line == row,
        s.location.visual.column == width,
        forall|ch: char| shows(later, row, width, ch) ==> ch == s.location.character,
        runs_kept(s, page, row, width),
    ensures
        runs_kept(s.step(), later, row, width + 1),
{
    let cell = s.location;
    let ch = cell.character;
    let prev = s.previous_location;
    let t = s.step();
    lemma_step(s, page, later, row, width);
    let first = Sweep { graph: s.graph, ports: Seq::empty(), met: Met::nothing() };
    let swept = first.take_all(s.ports, cell);
    lemma_sweep_keeps(first, s.ports, cell);
    let turn = if swept.met.carried {
        Turn { graph: swept.graph, ports: swept.ports, tx: Tx::Initial, closing: s.tx }
    } else {
        swept.settle(s.tx, cell, prev)
    };
    lemma_settle_keeps(swept, s.tx, cell, prev);
    assert(t.ports == turn.ports);
    assert(t.tx == turn.tx);
    assert(ports_plain(t.ports));
    lemma_ports_true_later(page, later, s.ports);
    // A run that went straight through the cell is a run of the glyph of the cell.
    let carrier = if swept.met.carried {
        choose|i: int| 0 <= i < s.ports.len() && (#[trigger] s.ports[i]).fate(cell) is Continues
    } else {
        0
    };
    if swept.met.carried {
        assert(s.ports[carrier].fate(cell) is Continues);
        assert(s.ports[carrier].edge.1.glyph() == ch);
        assert(t.ports.contains(reached(s.ports[carrier], cell)));
    }
    assert forall|brush: Brush, l: int, c: int, k: int| #[trigger] run_back(later, brush, l, c, k) implies held_spans(
        t,
        row,
        width + 1,
        l,
        c,
        back(brush, l, c, k).0,
        back(brush, l, c, k).1,
    ) && (!(brush is EastWest) && unpassed(brush, l, c, row, width + 1) ==> tipped(
        t.ports,
        brush,
        l,
        c,
        back(brush, l, c, k).0,
        back(brush, l, c, k).1,
    )) by {
        let far = back(brush, l, c, k);
        assert(back(brush, l, c, 0) == (l, c));
        assert(shows(later, l, c, brush.glyph()));
        if l == row && c == width {
            assert(brush.glyph() == ch);
            assert(is_glyph(ch));
            assert(Brush::of_glyph(ch) == Some(brush));
            if brush is EastWest {
                assert(is_level(ch));
                // No pending run is drawn with a horizontal stroke: none went through.
                assert(!swept.met.carried);
                if k >= 1 {
                    lemma_run_shorter(later, brush, l, c, k);
                    lemma_run_before(page, later, row, width, brush, row, width - 1, k - 1);
                    assert(s.tx is Build && s.tx->edge.1 == brush);
                    assert(t.tx == s.tx);
                    assert(building_spans(t.tx, row, width + 1, l, c, far.0, far.1));
                } else {
                    assert(held_spans(t, row, width + 1, l, c, l, c));
                }
            } else {
                if k >= 1 {
                    lemma_run_shorter(later, brush, l, c, k);
                    let q = back(brush, l, c, 1);
                    lemma_run_before(page, later, row, width, brush, q.0, q.1, k - 1);
                    assert(unpassed(brush, q.0, q.1, row, width));
                    assert(tipped(s.ports, brush, q.0, q.1, far.0, far.1));
                    let i = choose|i: int| 0 <= i < s.ports.len() && tip(#[trigger] s.ports[i], brush, q.0, q.1, far.0, far.1);
                    let port = s.ports[i];
                    assert(port.fate(cell) is Continues);
                    let longer = reached(port, cell);
                    assert(t.ports.contains(longer));
                    lemma_longer(later, port, cell, far.0, far.1);
                    let j = choose|j: int| 0 <= j < t.ports.len() && t.ports[j] == longer;
                    assert(tip(t.ports[j], brush, l, c, far.0, far.1));
                    assert(port_spans(t.ports[j], l, c, far.0, far.1));
                } else if swept.met.carried {
                    let port = s.ports[carrier];
                    let longer = reached(port, cell);
                    assert(port.edge.1 == brush);
                    let j = choose|j: int| 0 <= j < t.ports.len() && t.ports[j] == longer;
                    assert(tip(t.ports[j], brush, l, c, l, c));
                    assert(port_spans(t.ports[j], l, c, l, c));
                } else {
                    let port = through(cell, brush);
                    assert(t.ports.contains(port));
                    let j = choose|j: int| 0 <= j < t.ports.len() && t.ports[j] == port;
                    assert(tip(t.ports[j], brush, l, c, l, c));
                    assert(port_spans(t.ports[j], l, c, l, c));
                }
            }
        } else {
            lemma_run_before(page, later, row, width, brush, l, c, k);
            assert(held_spans(s, row, width, l, c, far.0, far.1));
            if !(brush is EastWest) && unpassed(brush, l, c, row, width + 1) {
                assert(unpassed(brush, l, c, row, width));
                assert(tipped(s.ports, brush, l, c, far.0, far.1));
                let i = choose|i: int| 0 <= i < s.ports.len() && tip(#[trigger] s.ports[i], brush, l, c, far.0, far.1);
                let port = s.ports[i];
                assert(port.fate(cell) is Waits);
                assert(t.ports.contains(port));
                let j = choose|j: int| 0 <= j < t.ports.len() && t.ports[j] == port;
                assert(tip(t.ports[j], brush, l, c, far.0, far.1));
            }
        }
    }
    assert forall|brush: Brush, k: int| #[trigger] run_back(later, brush, row, width, k) && brush is EastWest implies t.tx
        is Build && t.tx->edge.1 == brush && t.tx->start.visual.column <= width - k by {
        assert(back(brush, row, width, 0) == (row, width));
        assert(shows(later, row, width, brush.glyph()));
        assert(brush.glyph() == ch);
        assert(is_level(ch));
        assert(Brush::of_glyph(ch) == Some(brush));
        assert(!swept.met.carried);
        if k >= 1 {
            lemma_run_shorter(later, brush, row, width, k);
            lemma_run_before(page, later, row, width, brush, row, width - 1, k - 1);
            assert(s.tx is Build && s.tx->edge.1 == brush);
            assert(t.tx == s.tx);
        }
    }
}

/// A run that continues into a cell covers, with its end in that cell, what
/// it covered before.
proof fn lemma_longer(page: Seq<Seq<char>>, port: Port, cell: Node, m: int, d: int)
    requires
        port_true(page, port),
        port.fate(cell) is Continues,
        along(port.start.visual, port.end.visual, port.edge.1, m, d),
    ensures
        along(port.start.visual, reached(port, cell).end.visual, port.edge.1, m, d),
        reached(port, cell).end.visual == cell.visual,
{
}

/// A line break keeps the runs whole: the scan goes on in a new row, of
/// which it has passed no cell.
proof fn lemma_break_runs(t: Scan, page: Seq<Seq<char>>, row: int, width: int)
    requires
        runs_kept(t, page, row, width),
        t.tx is Initial,
        page.len() == row,
        row >= 1,
    ensures
        runs_kept(t, page.push(Seq::empty()), row + 1, 0),
{
    let turned = page.push(Seq::<char>::empty());
    assert forall|brush: Brush, l: int, c: int, k: int| #[trigger] run_back(turned, brush, l, c, k) implies run_back(
        page,
        brush,
        l,
        c,
        k,
    ) by {
        assert forall|j: int| 0 <= j <= k implies shows(
            page,
            (#[trigger] back(brush, l, c, j)).0,
            back(brush, l, c, j).1,
            brush.glyph(),
        ) by {
            let b = back(brush, l, c, j);
            assert(shows(turned, b.0, b.1, brush.glyph()));
            assert(turned[b.0 - 1] == page[b.0 - 1]);
        }
    }
    assert forall|brush: Brush, k: int| #[trigger] run_back(turned, brush, row + 1, 0 - 1, k) && brush is EastWest implies t.tx
        is Build by {
        assert(back(brush, row + 1, 0 - 1, 0) == (row + 1, 0 - 1));
        assert(shows(turned, row + 1, 0 - 1, brush.glyph()));
    }
}

/// Taking one more character keeps the runs whole.
pub proof fn lemma_fed_runs(s: Scan, page: Seq<Seq<char>>, n: nat, c: char, mark: bool)
    requires
        s.tracks(page, n),
        runs_kept(s, page, page.len() as int, page.last().len() as int),
        n + 3 <= usize::MAX,
        mark ==> !is_glyph(c) && c != '\n',
    ensures
        runs_kept(
            s.fed(c, mark),
            page_with(page, kept(c, mark)),
            page_with(page, kept(c, mark)).len() as int,
            page_with(page, kept(c, mark)).last().len() as int,
        ),
{
    let row = page.len() as int;
    let width = page.last().len() as int;
    let after = s.fed(c, mark);
    let turned = page_with(page, kept(c, mark));
    if mark {
        assert(after.graph == s.graph && after.ports == s.ports && after.tx == s.tx);
        assert(turned == page);
        lemma_same_hold(s, after, page, row, width);
    } else {
        let held = s.holding(c);
        let later = if c == '\n' {
            page
        } else {
            turned
        };
        lemma_same_hold(s, held, page, row, width);
        assert(extends(page, later));
        assert(grown(page, later, row, width));
        lemma_step(held, page, later, row, width);
        lemma_step_runs(held, page, later, row, width);
        let t = held.step();
        assert(after.graph == t.graph && after.ports == t.ports && after.tx == t.tx);
        if c == '\n' {
            lemma_break_runs(t, page, row, width + 1);
            lemma_same_hold(t, after, turned, row + 1, 0);
        } else {
            lemma_same_hold(t, after, turned, row, width + 1);
        }
    }
}

/// Whether runs are kept whole depends on the graph, the pending runs and
/// the run in building alone.
proof fn lemma_same_hold(s: Scan, t: Scan, page: Seq<Seq<char>>, row: int, width: int)
    requires
        runs_kept(s, page, row, width),
        t.graph == s.graph,
        t.ports == s.ports,
        t.tx == s.tx,
    ensures
        runs_kept(t, page, row, width),
{
    assert forall|brush: Brush, l: int, c: int, k: int| #[trigger] run_back(page, brush, l, c, k) implies held_spans(
        t,
        row,
        width,
        l,
        c,
        back(brush, l, c, k).0,
        back(brush, l, c, k).1,
    ) by {
        assert(held_spans(s, row, width, l, c, back(brush, l, c, k).0, back(brush, l, c, k).1));
    }
}

/// The scan of a text keeps the runs of the page of the text whole.
pub proof fn lemma_scanned_runs(text: Seq<char>)
    requires
        marks_apart(text),
        text.len() + 3 <= usize::MAX,
    ensures
        runs_kept(
            Scan::scanned(text),
            page_of(text),
            page_of(text).len() as int,
            page_of(text).last().len() as int,
        ),
    decreases text.len(),
{
    let page = page_of(text);
    if text.len() == 0 {
        assert(page =~= seq![Seq::<char>::empty()]);
        assert forall|brush: Brush, l: int, c: int, k: int| #[trigger] run_back(page, brush, l, c, k) implies false by {
            assert(back(brush, l, c, 0) == (l, c));
            assert(shows(page, l, c, brush.glyph()));
        }
        assert forall|brush: Brush, k: int| #[trigger] run_back(page, brush, 1, 0 - 1, k) implies false by {
            assert(back(brush, 1, 0 - 1, 0) == (1int, 0 - 1));
        }
    } else {
        let front = text.drop_last();
        let c = text.last();
        assert forall|i: int| 0 <= i < front.len() && combining_mark(#[trigger] front[i]) implies !is_glyph(front[i])
            && front[i] != '\n' by {
            assert(front[i] == text[i]);
        }
        lemma_scanned(front);
        lemma_scanned_runs(front);
        assert(text[text.len() - 1] == c);
        lemma_fed_runs(Scan::scanned(front), page_of(front), front.len(), c, combining_mark(c));
        lemma_page_grows(text);
    }
}

/// The graph that a text stands for holds every run of the page of the text
/// whole: the first and the last cell of a run lie on one segment.
pub proof fn lemma_parsed_runs(text: Seq<char>, brush: Brush, l: int, c: int, k: int)
    requires
        marks_apart(text),
        text.len() + 3 <= usize::MAX,
        run_back(page_of(text), brush, l, c, k),
    ensures
        parsed(text).spans(l, c, back(brush, l, c, k).0, back(brush, l, c, k).1),
{
    let page = page_of(text);
    let row = page.len() as int;
    let width = page.last().len() as int;
    let far = back(brush, l, c, k);
    lemma_scanned(text);
    lemma_scanned_runs(text);
    lemma_parsed(text);
    let s = Scan::scanned(text);
    let e = s.at_end();
    assert(held_spans(s, row, width, l, c, far.0, far.1));
    assert(held_spans(e, row, width, l, c, far.0, far.1));
    assert forall|i: int| 0 <= i < e.ports.len() implies (#[trigger] e.ports[i]).start.source.before(
        e.location.source,
    ) && e.ports[i].end.source.before(e.location.source) by {
        assert(s.ports[i].start.source.before(s.location.source));
    }
    assert(extends(page, page));
    lemma_step(e, page, page, row, width);
    let t = e.step();
    assert(held_spans(t, row, width + 1, l, c, far.0, far.1));
    assert(t.ports =~= Seq::<Port>::empty());
    assert(!ports_span(t.ports, l, c, far.0, far.1));
}

/// Whether a junction or a crossing opens a run of `brush` from its cell: its
/// south arm, its east arm or its lower half is drawn with the glyph of the
/// stroke.
pub open spec fn feeds(ch: char, brush: Brush) -> bool {
    match brush {
        Brush::NorthSouth(g) => south_arm(ch) is Some && upright(south_arm(ch)->0) == g,
        Brush::EastWest(g) => east_arm(ch) is Some && level(east_arm(ch)->0) == g,
        Brush::NorthWestSouthEast(g) => falling_half(ch) == Some(g),
        Brush::NorthEastSouthWest(g) => rising_half(ch) == Some(g),
    }
}

/// Whether the cell at line `l` and column `c` of the page holds a junction
/// or a crossing that opens a run of `brush`.
pub open spec fn fed_by(page: Seq<Seq<char>>, brush: Brush, l: int, c: int) -> bool {
    1 <= l <= page.len() && 0 <= c < page[l - 1].len() && feeds(page[l - 1][c], brush)
}

/// Whether one of `ports` is a run of `brush` that ends in the cell at line
/// `l` and column `c`.
pub open spec fn seeded(ports: Seq<Port>, brush: Brush, l: int, c: int) -> bool {
    exists|i: int|
        0 <= i < ports.len() && (#[trigger] ports[i]).edge.1 == brush && ports[i].end.visual.line == l
            && ports[i].end.visual.column == c
}

/// Whether the run in building, if there is one, is drawn with the
/// horizontal stroke of its own glyph.
pub open spec fn building_plain(tx: Tx) -> bool {
    tx matches Tx::Build { edge, .. } ==> plain_stroke(edge.1) && edge.1 is EastWest
}

/// The run that the lower half of a crossing opens, falling or rising.
pub open spec fn lower_half(cell: Node, brush: Brush) -> Port {
    Port { start: cell.at(Region::Center, Region::Center), end: cell.at(brush.landing().0, brush.landing().1), edge: Edge::plain(brush) }
}

/// Whether a scan keeps the runs that junctions and crossings open. While
/// the cell after a junction or a crossing along a vertical or diagonal stroke
/// that it opens is still to come, a pending run of that stroke ends in its
/// cell; while a junction that opens a horizontal stroke is the cell before
/// the next one, the run in building is the one that it opened.
pub open spec fn seeds_kept(s: Scan, page: Seq<Seq<char>>, row: int, width: int) -> bool {
    &&& ports_plain(s.ports)
    &&& building_plain(s.tx)
    &&& forall|brush: Brush, l: int, c: int| #[trigger]
        fed_by(page, brush, l, c) && !(brush is EastWest) && unpassed(brush, l, c, row, width) ==> seeded(
            s.ports,
            brush,
            l,
            c,
        )
    &&& forall|brush: Brush| #[trigger]
        fed_by(page, brush, row, width - 1) && brush is EastWest ==> s.tx is Build && s.tx->edge.1 == brush
            && s.tx->start.visual.column == width - 1
}

/// What the glyph of a junction or a crossing that settles leaves: the run
/// that its south arm or each of its lower halves opens is pending, and the
/// run that its east arm opens is in building.
pub proof fn lemma_settle_seeds(sweep: Sweep, tx: Tx, cell: Node, prev: Node)
    requires
        building_plain(tx),
    ensures
        building_plain(sweep.settle(tx, cell, prev).tx),
        south_arm(cell.character) is Some ==> sweep.settle(tx, cell, prev).ports.contains(
            descent(cell, south_arm(cell.character)->0),
        ),
        falling_half(cell.character) is Some && rising_half(cell.character) is Some ==> sweep.settle(
            tx,
            cell,
            prev,
        ).ports.contains(lower_half(cell, Brush::NorthWestSouthEast(falling_half(cell.character)->0)))
            && sweep.settle(tx, cell, prev).ports.contains(
            lower_half(cell, Brush::NorthEastSouthWest(rising_half(cell.character)->0)),
        ),
        east_arm(cell.character) is Some ==> sweep.settle(tx, cell, prev).tx == opened(cell),
{
    let ch = cell.character;
    let center = cell.at(Region::Center, Region::Center);
    lemma_kinds_are_glyphs(ch);
    lemma_dropped_keeps(sweep.ports, cell);
    if south_arm(ch) is Some {
        lemma_queued_keeps(sweep.ports, descent(cell, south_arm(ch)->0));
    }
    if falling_half(ch) is Some && rising_half(ch) is Some {
        let down = lower_half(cell, Brush::NorthWestSouthEast(falling_half(ch)->0));
        let past = lower_half(cell, Brush::NorthEastSouthWest(rising_half(ch)->0));
        lemma_queued_keeps(sweep.ports, down);
        lemma_queued_keeps(queued(sweep.ports, down), past);
    }
}

/// Resolving the next cell of the row keeps the runs that junctions and
/// crossings open.
pub proof fn lemma_step_seeds(s: Scan, page: Seq<Seq<char>>, later: Seq<Seq<char>>, row: int, width: int)
    requires
        grown(page, later, row, width),
        s.location.visual.line == row,
        s.location.visual.column == width,
        forall|ch: char| shows(later, row, width, ch) ==> ch == s.location.character,
        seeds_kept(s, page, row, width),
    ensures
        seeds_kept(s.step(), later, row, width + 1),
{
    let cell = s.location;
    let ch = cell.character;
    let prev = s.previous_location;
    let t = s.step();
    let first = Sweep { graph: s.graph, ports: Seq::empty(), met: Met::nothing() };
    let swept = first.take_all(s.ports, cell);
    lemma_sweep_keeps(first, s.ports, cell);
    let turn = if swept.met.carried {
        Turn { graph: swept.graph, ports: swept.ports, tx: Tx::Initial, closing: s.tx }
    } else {
        swept.settle(s.tx, cell, prev)
    };
    lemma_settle_keeps(swept, s.tx, cell, prev);
    lemma_settle_seeds(swept, s.tx, cell, prev);
    assert(t.ports == turn.ports);
    assert(t.tx == turn.tx);
    lemma_kinds_are_glyphs(ch);
    // The glyph of a run that went straight through the cell is a stroke.
    if swept.met.carried {
        let i = choose|i: int| 0 <= i < s.ports.len() && (#[trigger] s.ports[i]).fate(cell) is Continues;
        assert(s.ports[i].edge.1.glyph() == ch);
        assert(Brush::of_glyph(ch) is Some);
    }
    assert forall|brush: Brush, l: int, c: int| #[trigger]
        fed_by(later, brush, l, c) && !(brush is EastWest) && unpassed(brush, l, c, row, width + 1) implies seeded(
        t.ports,
        brush,
        l,
        c,
    ) by {
        if l == row && c == width {
            lemma_new_cell(later, row, width, ch, brush);
            assert(!swept.met.carried);
            let port = if brush is NorthSouth {
                descent(cell, south_arm(ch)->0)
            } else {
                lower_half(cell, brush)
            };
            assert(t.ports.contains(port));
            let j = choose|j: int| 0 <= j < t.ports.len() && t.ports[j] == port;
            assert(t.ports[j].edge.1 == brush);
        } else {
            assert(fed_by(page, brush, l, c)) by {
                if l < row {
                    assert(later[l - 1].len() == page[l - 1].len());
                }
                assert(page[l - 1][c] == later[l - 1][c]);
            }
            assert(unpassed(brush, l, c, row, width));
            assert(seeded(s.ports, brush, l, c));
            let i = choose|i: int|
                0 <= i < s.ports.len() && (#[trigger] s.ports[i]).edge.1 == brush && s.ports[i].end.visual.line == l
                    && s.ports[i].end.visual.column == c;
            let port = s.ports[i];
            assert(port.fate(cell) is Waits);
            assert(t.ports.contains(port));
            let j = choose|j: int| 0 <= j < t.ports.len() && t.ports[j] == port;
            assert(t.ports[j].edge.1 == brush);
        }
    }
    assert forall|brush: Brush| #[trigger] fed_by(later, brush, row, width) && brush is EastWest implies t.tx is Build
        && t.tx->edge.1 == brush && t.tx->start.visual.column == width by {
        lemma_new_cell(later, row, width, ch, brush);
        assert(!swept.met.carried);
    }
}

/// The junction or crossing in the new cell of the grown page is the glyph
/// that the scan resolves; it is no stroke.
proof fn lemma_new_cell(later: Seq<Seq<char>>, row: int, width: int, ch: char, brush: Brush)
    requires
        fed_by(later, brush, row, width),
        forall|x: char| shows(later, row, width, x) ==> x == ch,
    ensures
        feeds(ch, brush),
        is_glyph(ch),
        Brush::of_glyph(ch) is None,
{
    let x = later[row - 1][width];
    lemma_kinds_are_glyphs(x);
    assert(shows(later, row, width, x));
}

/// A line break keeps the runs that junctions and crossings open.
proof fn lemma_break_seeds(t: Scan, page: Seq<Seq<char>>, row: int, width: int)
    requires
        seeds_kept(t, page, row, width),
        t.tx is Initial,
        page.len() == row,
        row >= 1,
    ensures
        seeds_kept(t, page.push(Seq::empty()), row + 1, 0),
{
    let turned = page.push(Seq::<char>::empty());
    assert forall|brush: Brush, l: int, c: int| #[trigger] fed_by(turned, brush, l, c) implies fed_by(
        page,
        brush,
        l,
        c,
    ) by {
        assert(turned[l - 1] == page[l - 1]);
    }
}

/// Taking one more character keeps the runs that junctions and crossings
/// open.
pub proof fn lemma_fed_seeds(s: Scan, page: Seq<Seq<char>>, n: nat, c: char, mark: bool)
    requires
        s.tracks(page, n),
        seeds_kept(s, page, page.len() as int, page.last().len() as int),
        n + 3 <= usize::MAX,
        mark ==> !is_glyph(c) && c != '\n',
    ensures
        seeds_kept(
            s.fed(c, mark),
            page_with(page, kept(c, mark)),
            page_with(page, kept(c, mark)).len() as int,
            page_with(page, kept(c, mark)).last().len() as int,
        ),
{
    let row = page.len() as int;
    let width = page.last().len() as int;
    let after = s.fed(c, mark);
    let turned = page_with(page, kept(c, mark));
    if mark {
        assert(after.graph == s.graph && after.ports == s.ports && after.tx == s.tx);
        assert(turned == page);
    } else {
        let held = s.holding(c);
        let later = if c == '\n' {
            page
        } else {
            turned
        };
        assert(held.graph == s.graph && held.ports == s.ports && held.tx == s.tx);
        assert(seeds_kept(held, page, row, width));
        assert(grown(page, later, row, width));
        lemma_step(held, page, later, row, width);
        lemma_step_seeds(held, page, later, row, width);
        let t = held.step();
        assert(after.graph == t.graph && after.ports == t.ports && after.tx == t.tx);
        if c == '\n' {
            lemma_break_seeds(t, page, row, width + 1);
        }
    }
}

/// The scan of a text keeps the runs that junctions and crossings open.
pub proof fn lemma_scanned_seeds(text: Seq<char>)
    requires
        marks_apart(text),
        text.len() + 3 <= usize::MAX,
    ensures
        seeds_kept(
            Scan::scanned(text),
            page_of(text),
            page_of(text).len() as int,
            page_of(text).last().len() as int,
        ),
    decreases text.len(),
{
    let page = page_of(text);
    if text.len() == 0 {
        assert(page =~= seq![Seq::<char>::empty()]);
    } else {
        let front = text.drop_last();
        let c = text.last();
        assert forall|i: int| 0 <= i < front.len() && combining_mark(#[trigger] front[i]) implies !is_glyph(front[i])
            && front[i] != '\n' by {
            assert(front[i] == text[i]);
        }
        lemma_scanned(front);
        lemma_scanned_seeds(front);
        assert(text[text.len() - 1] == c);
        lemma_fed_seeds(Scan::scanned(front), page_of(front), front.len(), c, combining_mark(c));
        lemma_page_grows(text);
    }
}

} // verus!
