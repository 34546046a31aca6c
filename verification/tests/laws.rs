use dottools::{clean_string, Brush, Graph, LineColumn};

fn round_trips(input: &str) {
    let g = Graph::from_str(input).unwrap();
    assert_eq!(g.to_string(), clean_string(input).trim_end(), "input {:?}", input);
}

#[test]
fn the_empty_text_round_trips() {
    round_trips("");
    assert_eq!(Graph::from_str("").unwrap().to_string(), "");
    assert!(Graph::from_str("").unwrap().all_edges().is_empty());
}

#[test]
fn white_space_round_trips_to_nothing() {
    for input in [" ", "\n", " \n \n", "\t\r\n  ", "\u{3000}\u{a0}"] {
        round_trips(input);
        assert_eq!(Graph::from_str(input).unwrap().to_string(), "");
    }
}

#[test]
fn text_without_glyphs_round_trips_to_nothing() {
    for input in ["hello", "a\nb\nc", "1 + 2 * 3", "\u{0}\u{1}\u{7f}"] {
        round_trips(input);
        assert_eq!(Graph::from_str(input).unwrap().to_string(), "");
    }
}

#[test]
fn drawings_round_trip() {
    for input in [
        "-",
        "=─",
        "│\n│\n│\n",
        "┌─┐\n│ │\n└─┘\n",
        "╳",
        " ╲ ╱\n  ╳\n ╱ ╲",
        "  ┌──\n ─╲┼╱┐\n  │╳ │\n  └──┘\n   ┏━━\n ━╲╋╱┓\n  ┃╳ ┃\n  ┗━━┛",
        "   +--\n -\\+/+\n  |X |\n  +--+\n   ╔══\n ═╲╬╱╗\n  ║╳ ║\n  ╚══╝\n   ╱╲\n   ╲╱\n",
        "a ─ b\n\n\n  │ c",
        "┣╊╥╴╸╼╾\n┣╊╥╴╸╼╾",
    ] {
        round_trips(input);
    }
}

#[test]
fn every_glyph_round_trips_alone_and_beside_every_other() {
    let mut glyphs: Vec<char> = ('\u{2500}'..='\u{257f}').collect();
    glyphs.extend(['|', '-', '=', '/', '\\', 'X']);
    for a in &glyphs {
        round_trips(&a.to_string());
        for b in &glyphs {
            round_trips(&format!("{}{}", a, b));
            round_trips(&format!("{}\n{}", a, b));
            round_trips(&format!(" {}\n{}", a, b));
            round_trips(&format!("{}\n {}", a, b));
        }
    }
}

#[test]
fn combining_marks_take_no_column() {
    let marked = Graph::from_str("─\u{301}─\n│\u{300}\u{301}").unwrap();
    let plain = Graph::from_str("──\n│").unwrap();
    assert_eq!(marked.to_string(), "──\n│");
    assert_eq!(marked.to_string(), plain.to_string());
    let visual = |g: &Graph| g.nodes().iter().map(|n| n.visual).collect::<Vec<_>>();
    assert_eq!(visual(&marked), visual(&plain));
    assert_ne!(marked.nodes(), plain.nodes());
    round_trips("─\u{301}─\n│\u{300}\u{301}");
}

#[test]
fn drawing_a_graph_twice_gives_the_same_text() {
    let g = Graph::from_str(" ╲ ╱\n  ╳\n ╱ ╲\n┌─┬\n").unwrap();
    let first = g.to_string();
    let second = g.to_string();
    assert_eq!(first, second);
    assert_eq!(first, " ╲ ╱\n  ╳\n ╱ ╲\n┌─┬");
}

#[test]
fn scanning_a_text_twice_gives_the_same_graph() {
    let input = "┌─┐\n│╳│\n└─┘ =- |/\\X";
    let first = Graph::from_str(input).unwrap();
    let second = Graph::from_str(input).unwrap();
    assert_eq!(first.nodes(), second.nodes());
    assert_eq!(first.all_edges(), second.all_edges());
    assert!(!first.all_edges().is_empty());
}

fn page(text: &str) -> Vec<Vec<char>> {
    clean_string(text).split('\n').map(|line| line.chars().collect()).collect()
}

fn glyph_at(page: &[Vec<char>], at: LineColumn) -> Option<char> {
    page.get(at.line.checked_sub(1)?)?.get(at.column).copied()
}

#[test]
fn anchors_sit_on_their_glyphs_and_segments_are_straight() {
    let text = "  ┌──\n ─╲┼╱┐\n  │╳ │\n  └──┘\n   ╱╲\n   ╲╱\n ══╗ X\n   ║/ \\";
    let page = page(text);
    let g = Graph::from_str(text).unwrap();
    for n in g.nodes() {
        assert_eq!(glyph_at(&page, n.visual), Some(n.character));
    }
    for (a, b, edge) in g.all_edges() {
        assert!(g.nodes().contains(&a) && g.nodes().contains(&b));
        let (v, u) = (a.visual, b.visual);
        assert!(a.source <= b.source);
        match edge.1 {
            _ if v == u => {}
            Brush::NorthSouth(_) => assert!(v.column == u.column && v.line < u.line),
            Brush::EastWest(_) => assert!(v.line == u.line && v.column < u.column),
            Brush::NorthWestSouthEast(_) => assert!(v.line < u.line && u.column - v.column == u.line - v.line),
            Brush::NorthEastSouthWest(_) => assert!(v.line < u.line && v.column - u.column == u.line - v.line),
        }
    }
}

#[test]
fn every_glyph_is_an_anchor_or_lies_on_a_segment() {
    let text = "┌─────┐\n│ ╲ ╱ │\n│  ╳  ║\n└──═══╝\n|\n|\n|  ---";
    let page = page(text);
    let g = Graph::from_str(text).unwrap();
    let mut covered = vec![];
    for n in g.nodes() {
        covered.push((n.visual.line, n.visual.column));
    }
    for (a, b, edge) in g.all_edges() {
        let (v, u) = (a.visual, b.visual);
        match edge.1 {
            Brush::NorthSouth(_) => (v.line + 1..u.line).for_each(|l| covered.push((l, v.column))),
            Brush::EastWest(_) => (v.column + 1..u.column).for_each(|c| covered.push((v.line, c))),
            Brush::NorthWestSouthEast(_) => {
                (v.line + 1..u.line).for_each(|l| covered.push((l, v.column + (l - v.line))))
            }
            Brush::NorthEastSouthWest(_) => {
                (v.line + 1..u.line).for_each(|l| covered.push((l, v.column - (l - v.line))))
            }
        }
    }
    let mut glyphs = 0;
    for (r, row) in page.iter().enumerate() {
        for (c, ch) in row.iter().enumerate() {
            if *ch != ' ' {
                glyphs += 1;
                assert!(covered.contains(&(r + 1, c)), "{:?} at line {} column {}", ch, r + 1, c);
            }
        }
    }
    assert_eq!(glyphs, 27);
}

/// The cells that a segment covers: its two ends and what lies between.
fn cells(a: LineColumn, b: LineColumn, brush: Brush) -> Vec<(usize, usize)> {
    let mut out = vec![(a.line, a.column)];
    match brush {
        Brush::NorthSouth(_) => (a.line + 1..b.line).for_each(|l| out.push((l, a.column))),
        Brush::EastWest(_) => (a.column + 1..b.column).for_each(|c| out.push((a.line, c))),
        Brush::NorthWestSouthEast(_) => (a.line + 1..b.line).for_each(|l| out.push((l, a.column + (l - a.line)))),
        Brush::NorthEastSouthWest(_) => (a.line + 1..b.line).for_each(|l| out.push((l, a.column - (l - a.line)))),
    }
    out.push((b.line, b.column));
    out
}

#[test]
fn a_run_of_one_stroke_lies_whole_on_one_segment() {
    let text = "──── ━━━\n│ ╲    ╱\n│  ╲  ╱\n│   ╲╱\n=====--\n|\n|";
    let g = Graph::from_str(text).unwrap();
    let runs = [
        ((1, 0), (1, 3)),
        ((1, 5), (1, 7)),
        ((2, 0), (4, 0)),
        ((2, 2), (4, 4)),
        ((2, 7), (4, 5)),
        ((5, 0), (5, 4)),
        ((5, 5), (5, 6)),
        ((6, 0), (7, 0)),
    ];
    for (first, last) in runs {
        let holding: Vec<_> = g
            .all_edges()
            .into_iter()
            .filter(|(a, b, edge)| {
                let covered = cells(a.visual, b.visual, edge.1);
                covered.contains(&first) && covered.contains(&last)
            })
            .collect();
        assert_eq!(holding.len(), 1, "the run from {:?} to {:?}", first, last);
    }
    assert_eq!(g.all_edges().len(), runs.len());
}
