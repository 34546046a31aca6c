use dottools::{clean_string, Brush, Edge, Graph, LineColumn, Node, Region};

fn parses_to(input: &str, mut expected: Vec<(Node, Node, Edge)>) {
    let g = Graph::from_str(input).unwrap();
    let output = g.to_string();
    let mut v = g.all_edges();
    v.sort_by_key(|e| (e.0.source, e.1.source));
    expected.sort_by_key(|e| (e.0.source, e.1.source));
    assert_eq!(&v[..], &expected[..]);
    assert_eq!(clean_string(input.trim_end()), output);
}

#[test]
fn diagonal_backslash() {
    let input = "╲\n ╲\n  ╲";
    parses_to(
        input,
        vec![(
            Node {
                character: '╲',
                source: LineColumn { line: 1, column: 0 },
                visual: LineColumn { line: 1, column: 0 },
                region: (Region::North, Region::West),
            },
            Node {
                character: '╲',
                source: LineColumn { line: 3, column: 2 },
                visual: LineColumn { line: 3, column: 2 },
                region: (Region::South, Region::East),
            },
            Edge(None, Brush::NorthWestSouthEast('╲'), None),
        )],
    );
}

#[test]
fn diagonal_forwardslash() {
    let input = "  /\n /\n/";
    parses_to(
        input,
        vec![(
            Node {
                character: '/',
                source: LineColumn { line: 1, column: 2 },
                visual: LineColumn { line: 1, column: 2 },
                region: (Region::North, Region::East),
            },
            Node {
                character: '/',
                source: LineColumn { line: 3, column: 0 },
                visual: LineColumn { line: 3, column: 0 },
                region: (Region::South, Region::West),
            },
            Edge(None, Brush::NorthEastSouthWest('/'), None),
        )],
    );
}
