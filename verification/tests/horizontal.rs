use dottools::{clean_string, Brush, Edge, Graph, LineColumn, Node, Region};

fn parses_to(input: &str, mut expected: Vec<(Node, Node, Edge)>) {
    let g = Graph::from_str(input).unwrap();
    let output = g.to_string();
    let mut v = g.all_edges();
    v.sort_by_key(|e| (e.0.source, e.1.source));
    expected.sort_by_key(|e| (e.0.source, e.1.source));
    assert_eq!(&v[..], &expected[..]);
    assert_eq!(clean_string(input.trim_end()), output);
}

#[test]
fn horizontal_short() {
    let input = "-";
    parses_to(
        input,
        vec![(
            Node {
                character: '-',
                source: LineColumn { line: 1, column: 0 },
                visual: LineColumn { line: 1, column: 0 },
                region: (Region::Center, Region::West),
            },
            Node {
                character: '-',
                source: LineColumn { line: 1, column: 0 },
                visual: LineColumn { line: 1, column: 0 },
                region: (Region::Center, Region::East),
            },
            Edge(None, Brush::EastWest('-'), None),
        )],
    );
}

#[test]
fn horizontal_single_line() {
    let input = "─────";
    parses_to(
        input,
        vec![(
            Node {
                character: '─',
                source: LineColumn { line: 1, column: 0 },
                visual: LineColumn { line: 1, column: 0 },
                region: (Region::Center, Region::West),
            },
            Node {
                character: '─',
                source: LineColumn { line: 1, column: 4 },
                visual: LineColumn { line: 1, column: 4 },
                region: (Region::Center, Region::East),
            },
            Edge(None, Brush::EastWest('─'), None),
        )],
    );
}

#[test]
fn horizontal_multi_edge() {
    let input = "──  ───";
    parses_to(
        input,
        vec![
            (
                Node {
                    character: '─',
                    source: LineColumn { line: 1, column: 0 },
                    visual: LineColumn { line: 1, column: 0 },
                    region: (Region::Center, Region::West),
                },
                Node {
                    character: '─',
                    source: LineColumn { line: 1, column: 1 },
                    visual: LineColumn { line: 1, column: 1 },
                    region: (Region::Center, Region::East),
                },
                Edge(None, Brush::EastWest('─'), None),
            ),
            (
                Node {
                    character: '─',
                    source: LineColumn { line: 1, column: 4 },
                    visual: LineColumn { line: 1, column: 4 },
                    region: (Region::Center, Region::West),
                },
                Node {
                    character: '─',
                    source: LineColumn { line: 1, column: 6 },
                    visual: LineColumn { line: 1, column: 6 },
                    region: (Region::Center, Region::East),
                },
                Edge(None, Brush::EastWest('─'), None),
            )
        ],
    );
}

#[test]
fn horizontal_mixed_edge() {
    let input = "=─";
    parses_to(
        input,
        vec![
            (
                Node {
                    character: '=',
                    source: LineColumn { line: 1, column: 0 },
                    visual: LineColumn { line: 1, column: 0 },
                    region: (Region::Center, Region::West),
                },
                Node {
                    character: '=',
                    source: LineColumn { line: 1, column: 0 },
                    visual: LineColumn { line: 1, column: 0 },
                    region: (Region::Center, Region::East),
                },
                Edge(None, Brush::EastWest('='), None),
            ),
            (
                Node {
                    character: '─',
                    source: LineColumn { line: 1, column: 1 },
                    visual: LineColumn { line: 1, column: 1 },
                    region: (Region::Center, Region::West),
                },
                Node {
                    character: '─',
                    source: LineColumn { line: 1, column: 1 },
                    visual: LineColumn { line: 1, column: 1 },
                    region: (Region::Center, Region::East),
                },
                Edge(None, Brush::EastWest('─'), None),
            )
        ],
    );
}

#[test]
fn horizontal_mixed_edge_multi() {
    let input = "=╼";
    parses_to(
        input,
        vec![
            (
                Node {
                    character: '=',
                    source: LineColumn { line: 1, column: 0 },
                    visual: LineColumn { line: 1, column: 0 },
                    region: (Region::Center, Region::West),
                },
                Node {
                    character: '=',
                    source: LineColumn { line: 1, column: 0 },
                    visual: LineColumn { line: 1, column: 0 },
                    region: (Region::Center, Region::East),
                },
                Edge(None, Brush::EastWest('='), None),
            ),
            (
                Node {
                    character: '╼',
                    source: LineColumn { line: 1, column: 1 },
                    visual: LineColumn { line: 1, column: 1 },
                    region: (Region::Center, Region::West),
                },
                Node {
                    character: '╼',
                    source: LineColumn { line: 1, column: 1 },
                    visual: LineColumn { line: 1, column: 1 },
                    region: (Region::Center, Region::Center),
                },
                Edge(None, Brush::EastWest('─'), None),
            ),
            (
                Node {
                    character: '╼',
                    source: LineColumn { line: 1, column: 1 },
                    visual: LineColumn { line: 1, column: 1 },
                    region: (Region::Center, Region::Center),
                },
                Node {
                    character: '╼',
                    source: LineColumn { line: 1, column: 1 },
                    visual: LineColumn { line: 1, column: 1 },
                    region: (Region::Center, Region::East),
                },
                Edge(None, Brush::EastWest('━'), None),
            )
        ],
    );
}

#[test]
fn horizontal_mixed_edge_half() {
    let input = "=╴";
    parses_to(
        input,
        vec![
            (
                Node {
                    character: '=',
                    source: LineColumn { line: 1, column: 0 },
                    visual: LineColumn { line: 1, column: 0 },
                    region: (Region::Center, Region::West),
                },
                Node {
                    character: '=',
                    source: LineColumn { line: 1, column: 0 },
                    visual: LineColumn { line: 1, column: 0 },
                    region: (Region::Center, Region::East),
                },
                Edge(None, Brush::EastWest('='), None),
            ),
            (
                Node {
                    character: '╴',
                    source: LineColumn { line: 1, column: 1 },
                    visual: LineColumn { line: 1, column: 1 },
                    region: (Region::Center, Region::West),
                },
                Node {
                    character: '╴',
                    source: LineColumn { line: 1, column: 1 },
                    visual: LineColumn { line: 1, column: 1 },
                    region: (Region::Center, Region::Center),
                },
                Edge(None, Brush::EastWest('─'), None),
            )
        ],
    );
}

#[test]
fn horizontal_mixed_edge_orientation() {
    let input = "=┐";
    parses_to(
        input,
        vec![
            (
                Node {
                    character: '=',
                    source: LineColumn { line: 1, column: 0 },
                    visual: LineColumn { line: 1, column: 0 },
                    region: (Region::Center, Region::West),
                },
                Node {
                    character: '=',
                    source: LineColumn { line: 1, column: 0 },
                    visual: LineColumn { line: 1, column: 0 },
                    region: (Region::Center, Region::East),
                },
                Edge(None, Brush::EastWest('='), None),
            ),
            (
                Node {
                    character: '┐',
                    source: LineColumn { line: 1, column: 1 },
                    visual: LineColumn { line: 1, column: 1 },
                    region: (Region::Center, Region::West),
                },
                Node {
                    character: '┐',
                    source: LineColumn { line: 1, column: 1 },
                    visual: LineColumn { line: 1, column: 1 },
                    region: (Region::Center, Region::Center),
                },
                Edge(None, Brush::EastWest('─'), None),
            ),
            (
                Node {
                    character: '┐',
                    source: LineColumn { line: 1, column: 1 },
                    visual: LineColumn { line: 1, column: 1 },
                    region: (Region::Center, Region::Center),
                },
                Node {
                    character: '┐',
                    source: LineColumn { line: 1, column: 1 },
                    visual: LineColumn { line: 1, column: 1 },
                    region: (Region::South, Region::Center),
                },
                Edge(None, Brush::NorthSouth('│'), None),
            )
        ],
    );
}

#[test]
fn horizontal_multi_line() {
    let input = "──\n───";
    parses_to(
        input,
        vec![
            (
                Node {
                    character: '─',
                    source: LineColumn { line: 1, column: 0 },
                    visual: LineColumn { line: 1, column: 0 },
                    region: (Region::Center, Region::West),
                },
                Node {
                    character: '─',
                    source: LineColumn { line: 1, column: 1 },
                    visual: LineColumn { line: 1, column: 1 },
                    region: (Region::Center, Region::East),
                },
                Edge(None, Brush::EastWest('─'), None),
            ),
            (
                Node {
                    character: '─',
                    source: LineColumn { line: 2, column: 0 },
                    visual: LineColumn { line: 2, column: 0 },
                    region: (Region::Center, Region::West),
                },
                Node {
                    character: '─',
                    source: LineColumn { line: 2, column: 2 },
                    visual: LineColumn { line: 2, column: 2 },
                    region: (Region::Center, Region::East),
                },
                Edge(None, Brush::EastWest('─'), None),
            )
        ],
    );
}
