use dottools::{Brush, Edge, LineColumn, Node, Port, Region, State};

#[test]
fn next() {
    let state = &mut State::start();
    state.location.character = '╢';
    state.next();
    state.previous_location = state.location;
    state.location.visual.line += 1;
    state.location.source.line += 1;
    state.next();
    assert_eq!(
        &state.ports[..],
        &[Port {
            start: Node {
                character: '╢',
                source: LineColumn { line: 2, column: 0 },
                visual: LineColumn { line: 2, column: 0 },
                region: (Region::Center, Region::Center),
            },
            end: Node {
                character: '╢',
                source: LineColumn { line: 2, column: 0 },
                visual: LineColumn { line: 2, column: 0 },
                region: (Region::South, Region::Center),
            },
            edge: Edge(None, Brush::NorthSouth('║'), None),
        }][..],
    );
}

fn scan(text: &str) -> State {
    let mut state = State::start();
    for c in text.chars() {
        let mark = ('\u{300}'..='\u{36f}').contains(&c);
        state.feed(c, mark);
    }
    state
}

#[test]
fn a_scan_starts_in_the_first_cell_with_nothing() {
    let state = State::start();
    assert_eq!(state.location.source, LineColumn { line: 1, column: 0 });
    assert_eq!(state.location.visual, LineColumn { line: 1, column: 0 });
    assert!(state.ports.is_empty());
    assert!(state.graph.all_edges().is_empty());
    assert!(matches!(state.tx, dottools::Tx::Initial));
}

#[test]
fn a_mark_moves_the_source_position_only() {
    let state = scan("─\u{301}│");
    assert_eq!(state.location.source, LineColumn { line: 1, column: 3 });
    assert_eq!(state.location.visual, LineColumn { line: 1, column: 2 });
    let state = scan("─\u{301}\n\u{301}");
    assert_eq!(state.location.source, LineColumn { line: 2, column: 1 });
    assert_eq!(state.location.visual, LineColumn { line: 2, column: 0 });
}

#[test]
fn a_stroke_down_stays_pending_until_two_rows_below() {
    let state = scan("│\n");
    assert_eq!(state.ports.len(), 1);
    assert!(state.graph.all_edges().is_empty());
    let state = scan("│\n \n");
    assert_eq!(state.ports.len(), 1);
    let state = scan("│\n \n ");
    assert!(state.ports.is_empty());
    assert_eq!(state.graph.all_edges().len(), 1);
}

#[test]
fn a_junction_sends_its_south_arm_down_once() {
    for text in ["─┐", "┐", "│\n┤", "═╗", "━┓"] {
        let state = scan(text);
        let last = state.previous_location;
        let down: Vec<&Port> = state.ports.iter().filter(|p| p.start.source == last.source).collect();
        assert_eq!(down.len(), 1, "{:?}", text);
        assert_eq!(down[0].start.region, (Region::Center, Region::Center));
        assert_eq!(down[0].end.region, (Region::South, Region::Center));
    }
}

#[test]
fn the_end_of_the_text_ends_every_run() {
    for text in ["│", "─", "╳", "┌─┐\n│ │", "╲\n ╲", "═╗\n ║\n"] {
        let mut state = scan(text);
        state.location = Node {
            character: '\n',
            source: LineColumn { line: usize::MAX, column: 0 },
            visual: LineColumn { line: usize::MAX, column: 0 },
            region: (Region::Center, Region::Center),
        };
        state.finish();
        assert!(state.ports.is_empty(), "{:?}", text);
        assert!(matches!(state.tx, dottools::Tx::Initial), "{:?}", text);
        let finished = state.graph.all_edges();
        assert_eq!(finished, dottools::Graph::from_str(text).unwrap().all_edges());
        assert!(!finished.is_empty());
    }
}
