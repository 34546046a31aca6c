//! The scan that turns text into a graph, one character cell at a time.
//!
//! Horizontal runs are built within a row ([`Tx`]). Vertical and diagonal
//! runs span rows: each is kept as a pending [`Port`] until a later row
//! breaks it. [`State::next`] resolves one cell: it first lets every pending
//! run take the cell, then, unless a run went straight through it, lets the
//! glyph of the cell close, open or join runs of its own.
use crate::clean::normalized;
use crate::faithful::{glyph_at, marks_apart, page_of};
use crate::glyph::{
    combining_mark, crown, crown_weight, east, east_arm, falling_half, falling_part, horizontal_glyph,
    horizontal_weight, is_glyph, is_horizontal, is_level, is_mark, level, level_weight, lone_west,
    lone_west_weight, north, north_arm, rising_half, rising_part, south, south_arm, takes_run, takes_up,
    upright, upright_weight, vertical_glyph, vertical_weight, west, west_arm, Weight,
};
use crate::graph::{Graph, GraphView};
use crate::laws::{
    law_end_ends_all, law_round_trip, law_runs_are_whole, law_scan_is_true, law_strokes_are_single,
};
use crate::page::{edge_covers, lemma_on_page};
use crate::position::{LineColumn, Node, Region};
use crate::render::trimmed;
use crate::runs::{back, run_back};
use crate::single::stroke_at;
use crate::stroke::{Brush, Edge};
use vstd::prelude::*;
use vstd::std_specs::cmp::PartialEqSpecImpl;

verus! {

/// Why a text could not be scanned. No text is refused: the type is there
/// for a scan that may come to refuse one.
#[derive(Debug)]
pub enum Error {
    TODO,
}

/// The horizontal run that is being built in the current row, if any.
#[derive(Debug, Copy, Clone)]
pub enum Tx {
    Initial,
    Build { start: Node, edge: Edge },
}

/// A vertical or diagonal run that later rows may still continue.
#[derive(Debug, Copy, Clone, Eq)]
pub struct Port {
    pub start: Node,
    pub end: Node,
    pub edge: Edge,
}

impl PartialEq for Port {
    fn eq(&self, other: &Self) -> (r: bool) {
        self.start == other.start && self.end == other.end && self.edge == other.edge
    }
}

impl PartialEqSpecImpl for Port {
    open spec fn obeys_eq_spec() -> bool {
        true
    }

    open spec fn eq_spec(&self, other: &Self) -> bool {
        *self == *other
    }
}

/// What becomes of a pending run in the cell that the scan has reached.
#[derive(Debug, Copy, Clone, PartialEq, Eq, Structural)]
pub enum Fate {
    /// The cell holds the run's own glyph where the run expects it.
    Continues,
    /// A diagonal ends in the centre of a crossing glyph.
    Crosses,
    /// A vertical run ends in a junction whose north arm has its weight.
    Arrives,
    /// The cell does not concern the run, which stays pending.
    Waits,
    /// The run ended more than a row above: it is broken.
    Ends,
}

/// What the pending runs have done to the cell so far.
#[derive(Debug, Copy, Clone, PartialEq, Eq, Structural)]
pub struct Met {
    /// A run continued through the cell.
    pub carried: bool,
    /// A vertical run arrived in it from the north.
    pub north: bool,
    /// A falling diagonal arrived in its centre.
    pub falling: bool,
    /// A rising diagonal arrived in its centre.
    pub rising: bool,
}

/// The state of a scan.
pub struct State {
    /// The segments that are finished.
    pub graph: Graph,
    /// The vertical and diagonal runs that later rows may continue, none of
    /// them twice.
    pub ports: Vec<Port>,
    /// The cell that is resolved next, with its character.
    pub location: Node,
    /// The last cell that was resolved.
    pub previous_location: Node,
    /// The horizontal run in building.
    pub tx: Tx,
}

/// The state of a scan, as contracts see it.
pub ghost struct Scan {
    pub graph: GraphView,
    pub ports: Seq<Port>,
    pub location: Node,
    pub previous_location: Node,
    pub tx: Tx,
}

/// The graph and the pending runs while the runs take a cell in turn.
pub ghost struct Sweep {
    pub graph: GraphView,
    pub ports: Seq<Port>,
    pub met: Met,
}

/// What the glyph of a cell leaves behind: the graph, the pending runs, the
/// horizontal run now in building, and the one that the cell closed without
/// ending it itself, which ends in the cell before.
pub ghost struct Turn {
    pub graph: GraphView,
    pub ports: Seq<Port>,
    pub tx: Tx,
    pub closing: Tx,
}

/// `ports` with `port` last, unless it is pending already.
pub open spec fn queued(ports: Seq<Port>, port: Port) -> Seq<Port> {
    if ports.contains(port) {
        ports
    } else {
        ports.push(port)
    }
}

/// The vertical run that a junction with a south arm of weight `w` sends down.
pub open spec fn descent(cell: Node, w: Weight) -> Port {
    Port {
        start: cell.at(Region::Center, Region::Center),
        end: cell.at(Region::South, Region::Center),
        edge: Edge::plain(Brush::NorthSouth(upright(w))),
    }
}

/// `ports` after the glyph of `cell` sent its south arm down, if it has one.
pub open spec fn dropped(ports: Seq<Port>, cell: Node) -> Seq<Port> {
    match south_arm(cell.character) {
        Some(w) => queued(ports, descent(cell, w)),
        None => ports,
    }
}

/// The horizontal run that the east arm of the glyph of `cell` opens.
pub open spec fn opened(cell: Node) -> Tx {
    match east_arm(cell.character) {
        Some(w) => Tx::Build {
            start: cell.at(Region::Center, Region::Center),
            edge: Edge::plain(Brush::EastWest(level(w))),
        },
        None => Tx::Initial,
    }
}

/// `graph` with the west half of `cell` drawn in weight `w`, if there is one.
pub open spec fn west_half(graph: GraphView, cell: Node, w: Option<Weight>) -> GraphView {
    match w {
        Some(w) => graph.with_edge(
            cell.at(Region::Center, Region::West),
            cell.at(Region::Center, Region::Center),
            Edge::plain(Brush::EastWest(level(w))),
        ),
        None => graph,
    }
}

/// `graph` with the upper half of `cell` drawn in weight `w`, if there is one.
pub open spec fn north_half(graph: GraphView, cell: Node, w: Option<Weight>) -> GraphView {
    match w {
        Some(w) => graph.with_edge(
            cell.at(Region::North, Region::Center),
            cell.at(Region::Center, Region::Center),
            Edge::plain(Brush::NorthSouth(upright(w))),
        ),
        None => graph,
    }
}

/// `graph` with the run `tx`, if it is one, ended in the east of `last`.
pub open spec fn closed(graph: GraphView, tx: Tx, last: Node) -> GraphView {
    match tx {
        Tx::Build { start, edge } => graph.with_edge(start, last.at(Region::Center, Region::East), edge),
        Tx::Initial => graph,
    }
}

impl Met {
    /// Nothing has happened to the cell.
    pub open spec fn nothing() -> Met {
        Met { carried: false, north: false, falling: false, rising: false }
    }
}

impl Port {
    /// Whether `cell` lies in the row below the run's end and holds its glyph
    /// in the column where the run goes on.
    pub open spec fn continues_in(self, cell: Node) -> bool {
        let c = cell.character;
        let from = self.end.visual.column;
        let to = cell.visual.column;
        match self.edge.1 {
            Brush::NorthSouth(b) => from == to && b == c,
            Brush::EastWest(_) => false,
            Brush::NorthWestSouthEast(b) => from + 1 == to && b == c,
            Brush::NorthEastSouthWest(b) => from == to + 1 && b == c,
        }
    }

    /// Whether the run is a diagonal and `cell` holds, where the run goes
    /// on, a crossing glyph made of that diagonal.
    pub open spec fn crosses_in(self, cell: Node) -> bool {
        let c = cell.character;
        let from = self.end.visual.column;
        let to = cell.visual.column;
        match self.edge.1 {
            Brush::NorthWestSouthEast(b) => from + 1 == to && falling_half(c) == Some(b),
            Brush::NorthEastSouthWest(b) => from == to + 1 && rising_half(c) == Some(b),
            _ => false,
        }
    }

    /// Whether the run is vertical and `cell` holds, in its column, a junction
    /// whose north arm has the weight of the run.
    pub open spec fn arrives_in(self, cell: Node) -> bool {
        match self.edge.1 {
            Brush::NorthSouth(b) => self.end.visual.column == cell.visual.column && upright_weight(b)
                is Some && north_arm(cell.character) == upright_weight(b),
            _ => false,
        }
    }

    /// What becomes of the run in `cell`.
    pub open spec fn fate(self, cell: Node) -> Fate {
        if self.end.visual.line + 1 == cell.visual.line {
            if self.continues_in(cell) {
                Fate::Continues
            } else if self.crosses_in(cell) {
                Fate::Crosses
            } else if self.arrives_in(cell) {
                Fate::Arrives
            } else {
                Fate::Waits
            }
        } else if self.end.visual.line + 1 >= cell.visual.line {
            Fate::Waits
        } else {
            Fate::Ends
        }
    }

    /// What becomes of the run in `cell`.
    pub fn resolve(&self, cell: &Node) -> (f: Fate)
        ensures
            f == self.fate(*cell),
    {
        let c = cell.character;
        let from = self.end.visual.column;
        let to = cell.visual.column;
        let above = self.end.visual.line;
        let here = cell.visual.line;
        if above >= here {
            Fate::Waits
        } else if here - above > 1 {
            Fate::Ends
        } else {
            let same = from == to;
            let east = from < to && to - from == 1;
            let west = to < from && from - to == 1;
            match self.edge.1 {
                Brush::NorthSouth(b) => {
                    if same && b == c {
                        Fate::Continues
                    } else {
                        match vertical_weight(b) {
                            Some(w) => match north(c) {
                                Some(n) => if same && n == w {
                                    Fate::Arrives
                                } else {
                                    Fate::Waits
                                },
                                None => Fate::Waits,
                            },
                            None => Fate::Waits,
                        }
                    }
                },
                Brush::EastWest(_) => Fate::Waits,
                Brush::NorthWestSouthEast(b) => {
                    if east && b == c {
                        Fate::Continues
                    } else {
                        match falling_part(c) {
                            Some(h) => if east && h == b {
                                Fate::Crosses
                            } else {
                                Fate::Waits
                            },
                            None => Fate::Waits,
                        }
                    }
                },
                Brush::NorthEastSouthWest(b) => {
                    if west && b == c {
                        Fate::Continues
                    } else {
                        match rising_part(c) {
                            Some(h) => if west && h == b {
                                Fate::Crosses
                            } else {
                                Fate::Waits
                            },
                            None => Fate::Waits,
                        }
                    }
                },
            }
        }
    }
}

impl Sweep {
    /// The sweep after `port` has taken `cell`.
    ///
    /// A run that continues is queued again with its end in `cell`. One that
    /// crosses or arrives becomes a segment that ends in the centre of `cell`;
    /// a junction that a run arrives in sends its south arm down. A run that
    /// waits is queued again as it is, and one that ends becomes a segment
    /// between its two anchors.
    pub open spec fn take(self, port: Port, cell: Node) -> Sweep {
        let center = cell.at(Region::Center, Region::Center);
        match port.fate(cell) {
            Fate::Continues => {
                let landing = port.edge.1.landing();
                Sweep {
                    ports: queued(self.ports, Port { end: cell.at(landing.0, landing.1), ..port }),
                    met: Met { carried: true, ..self.met },
                    ..self
                }
            },
            Fate::Crosses => Sweep {
                graph: self.graph.with_edge(port.start, center, port.edge),
                met: if port.edge.1 is NorthWestSouthEast {
                    Met { falling: true, ..self.met }
                } else {
                    Met { rising: true, ..self.met }
                },
                ..self
            },
            Fate::Arrives => Sweep {
                graph: self.graph.with_edge(port.start, center, port.edge),
                ports: dropped(self.ports, cell),
                met: Met { north: true, ..self.met },
            },
            Fate::Waits => Sweep { ports: queued(self.ports, port), ..self },
            Fate::Ends => Sweep { graph: self.graph.with_edge(port.start, port.end, port.edge), ..self },
        }
    }

    /// The sweep after each of `ports` has taken `cell`, in order.
    pub open spec fn take_all(self, ports: Seq<Port>, cell: Node) -> Sweep
        decreases ports.len(),
    {
        if ports.len() == 0 {
            self
        } else {
            self.take_all(ports.drop_last(), cell).take(ports.last(), cell)
        }
    }

    /// What the glyph of `cell` does once the pending runs have taken the
    /// cell and none went straight through it. `tx` is the horizontal run in
    /// building, `prev` the cell before.
    ///
    /// The upper half of a junction is drawn unless a run arrived from the
    /// north. Then: a vertical or diagonal stroke opens a pending run; a
    /// crossing draws its upper halves, unless diagonals arrived in them, and
    /// opens both lower ones; a junction without a west arm sends its south
    /// arm down and opens a run to the east. Each of these closes `tx` in the
    /// cell before. Any other glyph is taken by the run in building, or, when
    /// there is none, starts from nothing.
    pub open spec fn settle(self, tx: Tx, cell: Node, prev: Node) -> Turn {
        let c = cell.character;
        let center = cell.at(Region::Center, Region::Center);
        let graph = if self.met.north {
            self.graph
        } else {
            north_half(self.graph, cell, crown(c))
        };
        if Brush::of_glyph(c) is Some && !(Brush::of_glyph(c)->0 is EastWest) {
            let brush = Brush::of_glyph(c)->0;
            let port = Port {
                start: cell.at(brush.takeoff().0, brush.takeoff().1),
                end: cell.at(brush.landing().0, brush.landing().1),
                edge: Edge::plain(brush),
            };
            Turn { graph, ports: queued(self.ports, port), tx: Tx::Initial, closing: tx }
        } else if falling_half(c) is Some && rising_half(c) is Some {
            let falling = Edge::plain(Brush::NorthWestSouthEast(falling_half(c)->0));
            let rising = Edge::plain(Brush::NorthEastSouthWest(rising_half(c)->0));
            let first = if self.met.falling {
                graph
            } else {
                graph.with_edge(cell.at(Region::North, Region::West), center, falling)
            };
            let second = if self.met.rising {
                first
            } else {
                first.with_edge(cell.at(Region::North, Region::East), center, rising)
            };
            let down = Port { start: center, end: cell.at(Region::South, Region::East), edge: falling };
            let back = Port { start: center, end: cell.at(Region::South, Region::West), edge: rising };
            Turn { graph: second, ports: queued(queued(self.ports, down), back), tx: Tx::Initial, closing: tx }
        } else if west_arm(c) is None && (south_arm(c) is Some || east_arm(c) is Some) {
            Turn { graph, ports: dropped(self.ports, cell), tx: opened(cell), closing: tx }
        } else {
            match tx {
                Tx::Initial => Self::start_run(graph, self.ports, cell),
                Tx::Build { start, edge } => Self::meet_run(graph, self.ports, start, edge, cell, prev),
            }
        }
    }

    /// What a glyph with a west arm, a horizontal stroke or an unknown
    /// character does when no run is in building.
    ///
    /// A horizontal stroke starts a run in the west of its cell. A junction
    /// draws its west half, sends its south arm down and opens a run to the
    /// east. Any other character does nothing.
    pub open spec fn start_run(graph: GraphView, ports: Seq<Port>, cell: Node) -> Turn {
        let c = cell.character;
        if is_level(c) {
            Turn {
                graph,
                ports,
                tx: Tx::Build { start: cell.at(Region::Center, Region::West), edge: Edge::plain(Brush::EastWest(c)) },
                closing: Tx::Initial,
            }
        } else {
            Turn {
                graph: west_half(graph, cell, lone_west(c)),
                ports: dropped(ports, cell),
                tx: opened(cell),
                closing: Tx::Initial,
            }
        }
    }

    /// What a glyph with a west arm, a horizontal stroke or an unknown
    /// character does to the run from `start` that is in building.
    ///
    /// The run's own glyph continues it. A junction that takes the run up
    /// ends it in its centre. Before anything else the run ends in the east of
    /// the cell before, and a junction then draws its west half by itself. In
    /// both cases the glyph sends its south arm down and opens the next run: a
    /// junction from its centre, a horizontal stroke from its west.
    pub open spec fn meet_run(
        graph: GraphView,
        ports: Seq<Port>,
        start: Node,
        edge: Edge,
        cell: Node,
        prev: Node,
    ) -> Turn {
        let c = cell.character;
        if edge.1 == Brush::EastWest(c) {
            Turn { graph, ports, tx: Tx::Build { start, edge }, closing: Tx::Initial }
        } else {
            let taken = edge.1 is EastWest && level_weight(edge.1->EastWest_0) is Some && takes_up(
                c,
                level_weight(edge.1->EastWest_0)->0,
            );
            let ended = if taken {
                graph.with_edge(start, cell.at(Region::Center, Region::Center), edge)
            } else {
                west_half(graph, cell, west_arm(c)).with_edge(
                    start,
                    prev.at(Region::Center, Region::East),
                    edge,
                )
            };
            let next = if opened(cell) is Build {
                opened(cell)
            } else if is_level(c) {
                Tx::Build { start: cell.at(Region::Center, Region::West), edge: Edge::plain(Brush::EastWest(c)) }
            } else {
                Tx::Initial
            };
            Turn { graph: ended, ports: dropped(ports, cell), tx: next, closing: Tx::Initial }
        }
    }
}

impl Scan {
    /// The state before any character: the first cell of the first line.
    pub open spec fn start() -> Scan {
        let origin = LineColumn { line: 1, column: 0 };
        let nowhere = LineColumn { line: 0, column: 0 };
        Scan {
            graph: GraphView::empty(),
            ports: Seq::empty(),
            location: Node {
                character: '\u{0}',
                source: origin,
                visual: origin,
                region: (Region::Center, Region::Center),
            },
            previous_location: Node {
                character: '\u{0}',
                source: nowhere,
                visual: nowhere,
                region: (Region::Center, Region::Center),
            },
            tx: Tx::Initial,
        }
    }

    /// The state after the cell at `location` was resolved.
    ///
    /// First every pending run takes the cell. If one went straight through
    /// it, the horizontal run in building is closed. Otherwise the glyph of
    /// the cell settles. A run that was closed ends in the east of the cell
    /// before.
    pub open spec fn step(self) -> Scan {
        let cell = self.location;
        let swept = Sweep { graph: self.graph, ports: Seq::empty(), met: Met::nothing() }.take_all(
            self.ports,
            cell,
        );
        let turn = if swept.met.carried {
            Turn { graph: swept.graph, ports: swept.ports, tx: Tx::Initial, closing: self.tx }
        } else {
            swept.settle(self.tx, cell, self.previous_location)
        };
        Scan {
            graph: closed(turn.graph, turn.closing, self.previous_location),
            ports: turn.ports,
            tx: turn.tx,
            ..self
        }
    }
}

impl Scan {
    /// The state with the character `c` in the cell at `location`.
    pub open spec fn holding(self, c: char) -> Scan {
        Scan { location: Node { character: c, ..self.location }, ..self }
    }

    /// The state with `location` one column further in the row; the cell
    /// that was there is now the cell before.
    pub open spec fn moved_on(self) -> Scan {
        let at = self.location;
        Scan {
            previous_location: at,
            location: Node {
                visual: LineColumn { line: at.visual.line, column: (at.visual.column + 1) as usize },
                ..at
            },
            ..self
        }
    }

    /// The state with the source position moved past the character `c`: to
    /// the start of the next line after a line break, one column on otherwise.
    /// A line break starts a new visual line too.
    pub open spec fn counted(self, c: char) -> Scan {
        let at = self.location;
        if c == '\n' {
            Scan {
                location: Node {
                    visual: LineColumn { line: (at.visual.line + 1) as usize, column: 0 },
                    source: LineColumn { line: (at.source.line + 1) as usize, column: 0 },
                    ..at
                },
                ..self
            }
        } else {
            Scan {
                location: Node {
                    source: LineColumn { line: at.source.line, column: (at.source.column + 1) as usize },
                    ..at
                },
                ..self
            }
        }
    }

    /// The state after the next character of the text, `c`. `mark` says
    /// whether `c` is a combining mark: a mark fills no cell and is only
    /// counted, any other character fills the cell at `location`, which is
    /// resolved.
    pub open spec fn fed(self, c: char, mark: bool) -> Scan {
        if mark {
            self.counted(c)
        } else {
            self.holding(c).step().moved_on().counted(c)
        }
    }

    /// The state after all of `text`.
    pub open spec fn scanned(text: Seq<char>) -> Scan
        decreases text.len(),
    {
        if text.len() == 0 {
            Scan::start()
        } else {
            Scan::scanned(text.drop_last()).fed(text.last(), combining_mark(text.last()))
        }
    }

    /// The state with `location` past the end of any text.
    pub open spec fn at_end(self) -> Scan {
        let beyond = LineColumn { line: usize::MAX, column: 0 };
        Scan {
            location: Node {
                character: '\n',
                visual: beyond,
                source: beyond,
                region: (Region::Center, Region::Center),
            },
            ..self
        }
    }
}

/// The graph that a text stands for.
pub open spec fn parsed(text: Seq<char>) -> GraphView {
    Scan::scanned(text).at_end().step().graph
}

impl View for State {
    type V = Scan;

    open spec fn view(&self) -> Scan {
        Scan {
            graph: self.graph@,
            ports: self.ports@,
            location: self.location,
            previous_location: self.previous_location,
            tx: self.tx,
        }
    }
}

impl State {
    /// The state before any character.
    pub fn start() -> (s: State)
        ensures
            s@ == Scan::start(),
    {
        State {
            graph: Graph::new(),
            ports: Vec::new(),
            location: Node {
                character: '\u{0}',
                source: LineColumn { line: 1, column: 0 },
                visual: LineColumn { line: 1, column: 0 },
                region: (Region::Center, Region::Center),
            },
            previous_location: Node {
                character: '\u{0}',
                source: LineColumn { line: 0, column: 0 },
                visual: LineColumn { line: 0, column: 0 },
                region: (Region::Center, Region::Center),
            },
            tx: Tx::Initial,
        }
    }

    /// Queues a pending run, unless the same run is pending already.
    fn queue(&mut self, port: Port)
        ensures
            final(self).ports@ == queued(old(self).ports@, port),
            final(self).graph == old(self).graph,
            final(self).location == old(self).location,
            final(self).previous_location == old(self).previous_location,
            final(self).tx == old(self).tx,
    {
        let mut found = false;
        let mut i: usize = 0;
        while i < self.ports.len()
            invariant
                i <= self.ports.len(),
                *self == *old(self),
                found <==> exists|j: int| 0 <= j < i && self.ports@[j] == port,
            decreases self.ports.len() - i,
        {
            if self.ports[i] == port {
                found = true;
            }
            i += 1;
        }
        if !found {
            self.ports.push(port);
        }
    }

    /// Sends the south arm of the glyph at `location` down, if it has one.
    fn drop_south(&mut self)
        ensures
            final(self).ports@ == dropped(old(self).ports@, old(self).location),
            final(self).graph == old(self).graph,
            final(self).location == old(self).location,
            final(self).previous_location == old(self).previous_location,
            final(self).tx == old(self).tx,
    {
        let cell = self.location;
        if let Some(w) = south(cell.character) {
            self.queue(
                Port {
                    start: cell.in_region(Region::Center, Region::Center),
                    end: cell.in_region(Region::South, Region::Center),
                    edge: Edge::of(Brush::NorthSouth(vertical_glyph(w))),
                },
            );
        }
    }

    /// The horizontal run that the east arm of the glyph at `location` opens.
    fn open_east(&self) -> (tx: Tx)
        ensures
            tx == opened(self.location),
    {
        match east(self.location.character) {
            Some(w) => Tx::Build {
                start: self.location.in_region(Region::Center, Region::Center),
                edge: Edge::of(Brush::EastWest(horizontal_glyph(w))),
            },
            None => Tx::Initial,
        }
    }

    /// The horizontal run that the stroke at `location` starts.
    fn open_west(&self) -> (tx: Tx)
        ensures
            tx == (Tx::Build {
                start: self.location.at(Region::Center, Region::West),
                edge: Edge::plain(Brush::EastWest(self.location.character)),
            }),
    {
        Tx::Build {
            start: self.location.in_region(Region::Center, Region::West),
            edge: Edge::of(Brush::EastWest(self.location.character)),
        }
    }

    /// Draws the west half of the glyph at `location` in weight `w`, if there
    /// is one.
    fn draw_west(&mut self, w: Option<Weight>)
        ensures
            final(self).graph@ == west_half(old(self).graph@, old(self).location, w),
            final(self).ports == old(self).ports,
            final(self).location == old(self).location,
            final(self).previous_location == old(self).previous_location,
            final(self).tx == old(self).tx,
    {
        if let Some(w) = w {
            let cell = self.location;
            self.graph.add_edge(
                cell.in_region(Region::Center, Region::West),
                cell.in_region(Region::Center, Region::Center),
                Edge::of(Brush::EastWest(horizontal_glyph(w))),
            );
        }
    }

    /// Lets one pending run take the cell at `location`.
    fn take(&mut self, met: &mut Met, port: Port)
        ensures
            (Sweep { graph: final(self).graph@, ports: final(self).ports@, met: *final(met) }) == (Sweep {
                graph: old(self).graph@,
                ports: old(self).ports@,
                met: *old(met),
            }).take(port, old(self).location),
            final(self).location == old(self).location,
            final(self).previous_location == old(self).previous_location,
            final(self).tx == old(self).tx,
    {
        let cell = self.location;
        let center = cell.in_region(Region::Center, Region::Center);
        match port.resolve(&cell) {
            Fate::Continues => {
                let landing = port.edge.1.end_region();
                self.queue(Port { start: port.start, end: cell.in_region(landing.0, landing.1), edge: port.edge });
                met.carried = true;
            },
            Fate::Crosses => {
                self.graph.add_edge(port.start, center, port.edge);
                match port.edge.1 {
                    Brush::NorthWestSouthEast(_) => {
                        met.falling = true;
                    },
                    _ => {
                        met.rising = true;
                    },
                }
            },
            Fate::Arrives => {
                self.graph.add_edge(port.start, center, port.edge);
                self.drop_south();
                met.north = true;
            },
            Fate::Waits => {
                self.queue(port);
            },
            Fate::Ends => {
                self.graph.add_edge(port.start, port.end, port.edge);
            },
        }
    }

    /// Lets the glyph at `location` start from nothing.
    fn start_run(&mut self)
        ensures
            (Turn {
                graph: final(self).graph@,
                ports: final(self).ports@,
                tx: final(self).tx,
                closing: Tx::Initial,
            }) == Sweep::start_run(old(self).graph@, old(self).ports@, old(self).location),
            final(self).location == old(self).location,
            final(self).previous_location == old(self).previous_location,
    {
        let c = self.location.character;
        if is_horizontal(c) {
            self.tx = self.open_west();
        } else {
            self.draw_west(lone_west_weight(c));
            self.drop_south();
            self.tx = self.open_east();
        }
    }

    /// Lets the glyph at `location` meet the run from `start` that is in
    /// building.
    fn meet_run(&mut self, start: Node, edge: Edge)
        requires
            old(self).tx == (Tx::Build { start, edge }),
        ensures
            (Turn {
                graph: final(self).graph@,
                ports: final(self).ports@,
                tx: final(self).tx,
                closing: Tx::Initial,
            }) == Sweep::meet_run(
                old(self).graph@,
                old(self).ports@,
                start,
                edge,
                old(self).location,
                old(self).previous_location,
            ),
            final(self).location == old(self).location,
            final(self).previous_location == old(self).previous_location,
    {
        let cell = self.location;
        let c = cell.character;
        let run = match edge.1 {
            Brush::EastWest(b) => Some(b),
            _ => None,
        };
        if run == Some(c) {
            return ;
        }
        let taken = match run {
            Some(b) => match horizontal_weight(b) {
                Some(w) => takes_run(c, w),
                None => false,
            },
            None => false,
        };
        if taken {
            self.graph.add_edge(start, cell.in_region(Region::Center, Region::Center), edge);
        } else {
            self.draw_west(west(c));
            self.graph.add_edge(start, self.previous_location.in_region(Region::Center, Region::East), edge);
        }
        self.drop_south();
        let next = self.open_east();
        self.tx = match next {
            Tx::Build { .. } => next,
            Tx::Initial => if is_horizontal(c) {
                self.open_west()
            } else {
                Tx::Initial
            },
        };
    }

    /// Lets the glyph at `location` settle, after the pending runs have taken
    /// the cell and none went straight through it. Returns the run that the
    /// glyph closed without ending it.
    fn settle(&mut self, met: &Met) -> (closing: Tx)
        ensures
            (Turn { graph: final(self).graph@, ports: final(self).ports@, tx: final(self).tx, closing }) == (Sweep {
                graph: old(self).graph@,
                ports: old(self).ports@,
                met: *met,
            }).settle(old(self).tx, old(self).location, old(self).previous_location),
            final(self).location == old(self).location,
            final(self).previous_location == old(self).previous_location,
    {
        let cell = self.location;
        let c = cell.character;
        let center = cell.in_region(Region::Center, Region::Center);
        let before = self.tx;
        if !met.north {
            if let Some(w) = crown_weight(c) {
                self.graph.add_edge(
                    cell.in_region(Region::North, Region::Center),
                    center,
                    Edge::of(Brush::NorthSouth(vertical_glyph(w))),
                );
            }
        }
        let stroke = match Brush::from_glyph(c) {
            Some(Brush::EastWest(_)) => None,
            other => other,
        };
        if let Some(brush) = stroke {
            let takeoff = brush.start_region();
            let landing = brush.end_region();
            self.queue(
                Port {
                    start: cell.in_region(takeoff.0, takeoff.1),
                    end: cell.in_region(landing.0, landing.1),
                    edge: Edge::of(brush),
                },
            );
            self.tx = Tx::Initial;
            return before;
        }
        if let Some(f) = falling_part(c) {
            if let Some(r) = rising_part(c) {
                let falling = Edge::of(Brush::NorthWestSouthEast(f));
                let rising = Edge::of(Brush::NorthEastSouthWest(r));
                if !met.falling {
                    self.graph.add_edge(cell.in_region(Region::North, Region::West), center, falling);
                }
                self.queue(Port { start: center, end: cell.in_region(Region::South, Region::East), edge: falling });
                if !met.rising {
                    self.graph.add_edge(cell.in_region(Region::North, Region::East), center, rising);
                }
                self.queue(Port { start: center, end: cell.in_region(Region::South, Region::West), edge: rising });
                self.tx = Tx::Initial;
                return before;
            }
        }
        if west(c).is_none() && (south(c).is_some() || east(c).is_some()) {
            self.drop_south();
            self.tx = self.open_east();
            return before;
        }
        match before {
            Tx::Initial => {
                self.start_run();
            },
            Tx::Build { start, edge } => {
                self.meet_run(start, edge);
            },
        }
        Tx::Initial
    }

    /// Resolves the cell at `location`: its character is
    /// `location.character`, the cell before it `previous_location`.
    pub fn next(&mut self)
        ensures
            final(self)@ == old(self)@.step(),
    {
        let mut pending: Vec<Port> = Vec::new();
        std::mem::swap(&mut self.ports, &mut pending);
        let mut met = Met { carried: false, north: false, falling: false, rising: false };
        let ghost first = Sweep { graph: old(self).graph@, ports: Seq::empty(), met: Met::nothing() };
        let mut i: usize = 0;
        while i < pending.len()
            invariant
                i <= pending.len(),
                pending@ == old(self).ports@,
                self.location == old(self).location,
                self.previous_location == old(self).previous_location,
                self.tx == old(self).tx,
                first == (Sweep { graph: old(self).graph@, ports: Seq::empty(), met: Met::nothing() }),
                (Sweep { graph: self.graph@, ports: self.ports@, met }) == first.take_all(
                    pending@.take(i as int),
                    self.location,
                ),
            decreases pending.len() - i,
        {
            proof {
                assert(pending@.take(i + 1).drop_last() =~= pending@.take(i as int));
            }
            self.take(&mut met, pending[i]);
            i += 1;
        }
        proof {
            assert(pending@.take(i as int) =~= pending@);
        }
        let closing = if met.carried {
            let before = self.tx;
            self.tx = Tx::Initial;
            before
        } else {
            self.settle(&met)
        };
        if let Tx::Build { start, edge } = closing {
            self.graph.add_edge(start, self.previous_location.in_region(Region::Center, Region::East), edge);
        }
    }

    /// Takes the next character of the text. `mark` says whether it is a
    /// combining mark.
    pub fn feed(&mut self, c: char, mark: bool)
        requires
            old(self).location.visual.line < usize::MAX,
            old(self).location.visual.column < usize::MAX,
            old(self).location.source.line < usize::MAX,
            old(self).location.source.column < usize::MAX,
        ensures
            final(self)@ == old(self)@.fed(c, mark),
    {
        if !mark {
            self.location.character = c;
            self.next();
            self.previous_location = self.location;
            self.location.visual.column += 1;
        }
        if c == '\n' {
            self.location.visual.line += 1;
            self.location.visual.column = 0;
            self.location.source.line += 1;
            self.location.source.column = 0;
        } else {
            self.location.source.column += 1;
        }
    }

    /// Resolves the cell past the end of the text, which breaks every run
    /// that ended at least two rows above it and closes the run in building.
    pub fn finish(&mut self)
        ensures
            final(self)@ == old(self)@.step(),
    {
        self.next();
    }
}

impl Graph {
    /// Scans `input` into the graph that it stands for.
    ///
    /// No text is refused. The graph is true to the page that the text lays
    /// out: every anchor sits in a cell that holds its glyph, every segment
    /// is straight and passes only through cells that hold the glyph of its
    /// stroke, and every glyph on the page is an anchor's or lies on a
    /// segment. Where cells that follow one another along a stroke all hold
    /// its glyph, the first and the last of them lie on one segment, and no
    /// cell that holds a stroke lies on two segments. The drawing of the
    /// graph is the cleaned text, without the white space at its end.
    ///
    /// The text must be one that fits in memory: no longer than `isize::MAX`
    /// characters, so that its lines and columns can be counted.
    pub fn from_str(input: &str) -> (r: Result<Graph, Error>)
        requires
            input@.len() <= isize::MAX,
        ensures
            r is Ok,
            r->Ok_0@ == parsed(input@),
            r->Ok_0@.on_page(),
            r->Ok_0@.true_to(page_of(input@)),
            forall|l: int, c: int| #[trigger] glyph_at(page_of(input@), l, c) ==> r->Ok_0@.covers(l, c),
            forall|brush: Brush, l: int, c: int, k: int| #[trigger]
                run_back(page_of(input@), brush, l, c, k) ==> r->Ok_0@.spans(
                    l,
                    c,
                    back(brush, l, c, k).0,
                    back(brush, l, c, k).1,
                ),
            forall|i: int, j: int, l: int, c: int|
                stroke_at(page_of(input@), l, c) && 0 <= i < r->Ok_0@.edges.len() && 0 <= j < r->Ok_0@.edges.len()
                    && #[trigger] edge_covers(r->Ok_0@.edges[i], l, c) && #[trigger] edge_covers(
                    r->Ok_0@.edges[j],
                    l,
                    c,
                ) ==> i == j,
            r->Ok_0@.text() == trimmed(normalized(input@)),
    {
        let mut state = State::start();
        for c in it: input.chars()
            invariant
                it.seq() == input@,
                input@.len() <= isize::MAX,
                state@ == Scan::scanned(input@.take(it.index() as int)),
                marks_apart(input@.take(it.index() as int)),
                state.location.visual.line <= it.index() + 1,
                state.location.visual.column <= it.index(),
                state.location.source.line <= it.index() + 1,
                state.location.source.column <= it.index(),
        {
            proof {
                assert(input@.take(it.index() + 1).drop_last() =~= input@.take(it.index() as int));
            }
            let mark = is_mark(c);
            state.feed(c, mark);
            proof {
                let taken = input@.take(it.index() + 1);
                assert forall|i: int| 0 <= i < taken.len() && combining_mark(#[trigger] taken[i]) implies !is_glyph(
                    taken[i],
                ) && taken[i] != '\n' by {
                    if i < it.index() {
                        assert(taken[i] == input@.take(it.index() as int)[i]);
                    }
                }
            }
        }
        proof {
            assert(input@.take(input@.len() as int) =~= input@);
            law_scan_is_true(input@);
            lemma_on_page(parsed(input@), page_of(input@));
            law_round_trip(input@);
            law_end_ends_all(input@);
            assert forall|brush: Brush, l: int, c: int, k: int| #[trigger]
                run_back(page_of(input@), brush, l, c, k) implies parsed(input@).spans(
                l,
                c,
                back(brush, l, c, k).0,
                back(brush, l, c, k).1,
            ) by {
                law_runs_are_whole(input@, brush, l, c, k);
            }
            assert forall|i: int, j: int, l: int, c: int|
                stroke_at(page_of(input@), l, c) && 0 <= i < parsed(input@).edges.len() && 0 <= j < parsed(
                    input@,
                ).edges.len() && #[trigger] edge_covers(parsed(input@).edges[i], l, c) && #[trigger] edge_covers(
                    parsed(input@).edges[j],
                    l,
                    c,
                ) implies i == j by {
                law_strokes_are_single(input@, i, j, l, c);
            }
        }
        state.location = Node {
            character: '\n',
            visual: LineColumn { line: usize::MAX, column: 0 },
            source: LineColumn { line: usize::MAX, column: 0 },
            region: (Region::Center, Region::Center),
        };
        state.finish();
        assert(state.ports@.len() == 0 && state.tx is Initial);
        Ok(state.graph)
    }
}

} // verus!
