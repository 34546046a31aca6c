use dottools::{clean_string, Brush, Edge, Graph, LineColumn, Node, Region};

fn parses_to(input: &str, mut expected: Vec<(Node, Node, Edge)>) {
    let g = Graph::from_str(input).unwrap();
    let output = g.to_string();
    let mut v = g.all_edges();
    v.sort_by_key(|e| (e.0.source, e.1.source));
    expected.sort_by_key(|e| (e.0.source, e.1.source));
    assert_eq!(&v[..], &expected[..]);
    assert_eq!(clean_string(input.trim_end()), output);
}

#[test]
fn node_simple_cross() {
    let input = "
             │
            ─┼─
             │
            ";
    parses_to(
        input,
        vec![
            (
                Node {
                    character: '│',
                    source: LineColumn {
                        line: 2,
                        column: 13
                    },
                    visual: LineColumn {
                        line: 2,
                        column: 13
                    },
                    region: (Region::North, Region::Center),
                },
                Node {
                    character: '┼',
                    source: LineColumn {
                        line: 3,
                        column: 13
                    },
                    visual: LineColumn {
                        line: 3,
                        column: 13
                    },
                    region: (Region::Center, Region::Center),
                },
                Edge(None, Brush::NorthSouth('│'), None),
            ),
            (
                Node {
                    character: '─',
                    source: LineColumn {
                        line: 3,
                        column: 12
                    },
                    visual: LineColumn {
                        line: 3,
                        column: 12
                    },
                    region: (Region::Center, Region::West),
                },
                Node {
                    character: '┼',
                    source: LineColumn {
                        line: 3,
                        column: 13
                    },
                    visual: LineColumn {
                        line: 3,
                        column: 13
                    },
                    region: (Region::Center, Region::Center),
                },
                Edge(None, Brush::EastWest('─'), None),
            ),
            (
                Node {
                    character: '┼',
                    source: LineColumn {
                        line: 3,
                        column: 13
                    },
                    visual: LineColumn {
                        line: 3,
                        column: 13
                    },
                    region: (Region::Center, Region::Center),
                },
                Node {
                    character: '─',
                    source: LineColumn {
                        line: 3,
                        column: 14
                    },
                    visual: LineColumn {
                        line: 3,
                        column: 14
                    },
                    region: (Region::Center, Region::East),
                },
                Edge(None, Brush::EastWest('─'), None),
            ),
            (
                Node {
                    character: '┼',
                    source: LineColumn {
                        line: 3,
                        column: 13
                    },
                    visual: LineColumn {
                        line: 3,
                        column: 13
                    },
                    region: (Region::Center, Region::Center),
                },
                Node {
                    character: '│',
                    source: LineColumn {
                        line: 4,
                        column: 13
                    },
                    visual: LineColumn {
                        line: 4,
                        column: 13
                    },
                    region: (Region::South, Region::Center),
                },
                Edge(None, Brush::NorthSouth('│'), None),
            )
        ],
    );
}

#[test]
fn node_diagonal_cross_bare() {
    let input = "╳";
    parses_to(
        input,
        vec![
            (
                Node {
                    character: '╳',
                    source: LineColumn { line: 1, column: 0 },
                    visual: LineColumn { line: 1, column: 0 },
                    region: (Region::North, Region::West),
                },
                Node {
                    character: '╳',
                    source: LineColumn { line: 1, column: 0 },
                    visual: LineColumn { line: 1, column: 0 },
                    region: (Region::Center, Region::Center),
                },
                Edge(None, Brush::NorthWestSouthEast('╲'), None),
            ),
            (
                Node {
                    character: '╳',
                    source: LineColumn { line: 1, column: 0 },
                    visual: LineColumn { line: 1, column: 0 },
                    region: (Region::North, Region::East),
                },
                Node {
                    character: '╳',
                    source: LineColumn { line: 1, column: 0 },
                    visual: LineColumn { line: 1, column: 0 },
                    region: (Region::Center, Region::Center),
                },
                Edge(None, Brush::NorthEastSouthWest('╱'), None),
            ),
            (
                Node {
                    character: '╳',
                    source: LineColumn { line: 1, column: 0 },
                    visual: LineColumn { line: 1, column: 0 },
                    region: (Region::Center, Region::Center),
                },
                Node {
                    character: '╳',
                    source: LineColumn { line: 1, column: 0 },
                    visual: LineColumn { line: 1, column: 0 },
                    region: (Region::South, Region::East),
                },
                Edge(None, Brush::NorthWestSouthEast('╲'), None),
            ),
            (
                Node {
                    character: '╳',
                    source: LineColumn { line: 1, column: 0 },
                    visual: LineColumn { line: 1, column: 0 },
                    region: (Region::Center, Region::Center),
                },
                Node {
                    character: '╳',
                    source: LineColumn { line: 1, column: 0 },
                    visual: LineColumn { line: 1, column: 0 },
                    region: (Region::South, Region::West),
                },
                Edge(None, Brush::NorthEastSouthWest('╱'), None),
            ),
        ],
    );
}

#[test]
fn node_diagonal_cross() {
    let input = "
            ╲ ╱
             ╳
            ╱ ╲
            ";
    parses_to(
        input,
        vec![
            (
                Node {
                    character: '╲',
                    source: LineColumn {
                        line: 2,
                        column: 12
                    },
                    visual: LineColumn {
                        line: 2,
                        column: 12
                    },
                    region: (Region::North, Region::West),
                },
                Node {
                    character: '╳',
                    source: LineColumn {
                        line: 3,
                        column: 13
                    },
                    visual: LineColumn {
                        line: 3,
                        column: 13
                    },
                    region: (Region::Center, Region::Center),
                },
                Edge(None, Brush::NorthWestSouthEast('╲'), None),
            ),
            (
                Node {
                    character: '╱',
                    source: LineColumn {
                        line: 2,
                        column: 14
                    },
                    visual: LineColumn {
                        line: 2,
                        column: 14
                    },
                    region: (Region::North, Region::East),
                },
                Node {
                    character: '╳',
                    source: LineColumn {
                        line: 3,
                        column: 13
                    },
                    visual: LineColumn {
                        line: 3,
                        column: 13
                    },
                    region: (Region::Center, Region::Center),
                },
                Edge(None, Brush::NorthEastSouthWest('╱'), None),
            ),
            (
                Node {
                    character: '╳',
                    source: LineColumn {
                        line: 3,
                        column: 13
                    },
                    visual: LineColumn {
                        line: 3,
                        column: 13
                    },
                    region: (Region::Center, Region::Center),
                },
                Node {
                    character: '╱',
                    source: LineColumn {
                        line: 4,
                        column: 12
                    },
                    visual: LineColumn {
                        line: 4,
                        column: 12
                    },
                    region: (Region::South, Region::West),
                },
                Edge(None, Brush::NorthEastSouthWest('╱'), None),
            ),
            (
                Node {
                    character: '╳',
                    source: LineColumn {
                        line: 3,
                        column: 13
                    },
                    visual: LineColumn {
                        line: 3,
                        column: 13
                    },
                    region: (Region::Center, Region::Center),
                },
                Node {
                    character: '╲',
                    source: LineColumn {
                        line: 4,
                        column: 14
                    },
                    visual: LineColumn {
                        line: 4,
                        column: 14
                    },
                    region: (Region::South, Region::East),
                },
                Edge(None, Brush::NorthWestSouthEast('╲'), None),
            )
        ],
    );
}

#[test]
fn node_diagonal_cross_truncated() {
    let input = " X\n/ \\";
    parses_to(
        input,
        vec![
            (
                Node {
                    character: 'X',
                    source: LineColumn { line: 1, column: 1 },
                    visual: LineColumn { line: 1, column: 1 },
                    region: (Region::North, Region::West),
                },
                Node {
                    character: 'X',
                    source: LineColumn { line: 1, column: 1 },
                    visual: LineColumn { line: 1, column: 1 },
                    region: (Region::Center, Region::Center),
                },
                Edge(None, Brush::NorthWestSouthEast('\\'), None),
            ),
            (
                Node {
                    character: 'X',
                    source: LineColumn { line: 1, column: 1 },
                    visual: LineColumn { line: 1, column: 1 },
                    region: (Region::North, Region::East),
                },
                Node {
                    character: 'X',
                    source: LineColumn { line: 1, column: 1 },
                    visual: LineColumn { line: 1, column: 1 },
                    region: (Region::Center, Region::Center),
                },
                Edge(None, Brush::NorthEastSouthWest('/'), None),
            ),
            (
                Node {
                    character: 'X',
                    source: LineColumn { line: 1, column: 1 },
                    visual: LineColumn { line: 1, column: 1 },
                    region: (Region::Center, Region::Center),
                },
                Node {
                    character: '/',
                    source: LineColumn { line: 2, column: 0 },
                    visual: LineColumn { line: 2, column: 0 },
                    region: (Region::South, Region::West),
                },
                Edge(None, Brush::NorthEastSouthWest('/'), None),
            ),
            (
                Node {
                    character: 'X',
                    source: LineColumn { line: 1, column: 1 },
                    visual: LineColumn { line: 1, column: 1 },
                    region: (Region::Center, Region::Center),
                },
                Node {
                    character: '\\',
                    source: LineColumn { line: 2, column: 2 },
                    visual: LineColumn { line: 2, column: 2 },
                    region: (Region::South, Region::East),
                },
                Edge(None, Brush::NorthWestSouthEast('\\'), None),
            )
        ],
    );
}

#[test]
fn node_corners() {
    let input = "
            ┌─┐
            │ │
            └─┘
            ";
    parses_to(
        input,
        vec![
            (
                Node {
                    character: '┌',
                    source: LineColumn {
                        line: 2,
                        column: 12
                    },
                    visual: LineColumn {
                        line: 2,
                        column: 12
                    },
                    region: (Region::Center, Region::Center),
                },
                Node {
                    character: '┐',
                    source: LineColumn {
                        line: 2,
                        column: 14
                    },
                    visual: LineColumn {
                        line: 2,
                        column: 14
                    },
                    region: (Region::Center, Region::Center),
                },
                Edge(None, Brush::EastWest('─'), None),
            ),
            (
                Node {
                    character: '┌',
                    source: LineColumn {
                        line: 2,
                        column: 12
                    },
                    visual: LineColumn {
                        line: 2,
                        column: 12
                    },
                    region: (Region::Center, Region::Center),
                },
                Node {
                    character: '└',
                    source: LineColumn {
                        line: 4,
                        column: 12
                    },
                    visual: LineColumn {
                        line: 4,
                        column: 12
                    },
                    region: (Region::Center, Region::Center),
                },
                Edge(None, Brush::NorthSouth('│'), None),
            ),
            (
                Node {
                    character: '┐',
                    source: LineColumn {
                        line: 2,
                        column: 14
                    },
                    visual: LineColumn {
                        line: 2,
                        column: 14
                    },
                    region: (Region::Center, Region::Center),
                },
                Node {
                    character: '┘',
                    source: LineColumn {
                        line: 4,
                        column: 14
                    },
                    visual: LineColumn {
                        line: 4,
                        column: 14
                    },
                    region: (Region::Center, Region::Center),
                },
                Edge(None, Brush::NorthSouth('│'), None),
            ),
            (
                Node {
                    character: '└',
                    source: LineColumn {
                        line: 4,
                        column: 12
                    },
                    visual: LineColumn {
                        line: 4,
                        column: 12
                    },
                    region: (Region::Center, Region::Center),
                },
                Node {
                    character: '┘',
                    source: LineColumn {
                        line: 4,
                        column: 14
                    },
                    visual: LineColumn {
                        line: 4,
                        column: 14
                    },
                    region: (Region::Center, Region::Center),
                },
                Edge(None, Brush::EastWest('─'), None),
            )
        ],
    );
}

#[test]
fn node_mixed_brush_corners() {
    let input = "
            ┍━┑
            │ │
            ╘═╛
            ";
    parses_to(
        input,
        vec![
            (
                Node {
                    character: '┍',
                    source: LineColumn {
                        line: 2,
                        column: 12
                    },
                    visual: LineColumn {
                        line: 2,
                        column: 12
                    },
                    region: (Region::Center, Region::Center),
                },
                Node {
                    character: '┑',
                    source: LineColumn {
                        line: 2,
                        column: 14
                    },
                    visual: LineColumn {
                        line: 2,
                        column: 14
                    },
                    region: (Region::Center, Region::Center),
                },
                Edge(None, Brush::EastWest('━'), None),
            ),
            (
                Node {
                    character: '┍',
                    source: LineColumn {
                        line: 2,
                        column: 12
                    },
                    visual: LineColumn {
                        line: 2,
                        column: 12
                    },
                    region: (Region::Center, Region::Center),
                },
                Node {
                    character: '╘',
                    source: LineColumn {
                        line: 4,
                        column: 12
                    },
                    visual: LineColumn {
                        line: 4,
                        column: 12
                    },
                    region: (Region::Center, Region::Center),
                },
                Edge(None, Brush::NorthSouth('│'), None),
            ),
            (
                Node {
                    character: '┑',
                    source: LineColumn {
                        line: 2,
                        column: 14
                    },
                    visual: LineColumn {
                        line: 2,
                        column: 14
                    },
                    region: (Region::Center, Region::Center),
                },
                Node {
                    character: '╛',
                    source: LineColumn {
                        line: 4,
                        column: 14
                    },
                    visual: LineColumn {
                        line: 4,
                        column: 14
                    },
                    region: (Region::Center, Region::Center),
                },
                Edge(None, Brush::NorthSouth('│'), None),
            ),
            (
                Node {
                    character: '╘',
                    source: LineColumn {
                        line: 4,
                        column: 12
                    },
                    visual: LineColumn {
                        line: 4,
                        column: 12
                    },
                    region: (Region::Center, Region::Center),
                },
                Node {
                    character: '╛',
                    source: LineColumn {
                        line: 4,
                        column: 14
                    },
                    visual: LineColumn {
                        line: 4,
                        column: 14
                    },
                    region: (Region::Center, Region::Center),
                },
                Edge(None, Brush::EastWest('═'), None),
            )
        ],
    );
}

#[test]
fn node_rounded_corners() {
    let input = "
            ╭─╮
            │ │
            ╰─╯
            ";
    parses_to(
        input,
        vec![
            (
                Node {
                    character: '╭',
                    source: LineColumn {
                        line: 2,
                        column: 12
                    },
                    visual: LineColumn {
                        line: 2,
                        column: 12
                    },
                    region: (Region::Center, Region::Center),
                },
                Node {
                    character: '╮',
                    source: LineColumn {
                        line: 2,
                        column: 14
                    },
                    visual: LineColumn {
                        line: 2,
                        column: 14
                    },
                    region: (Region::Center, Region::Center),
                },
                Edge(None, Brush::EastWest('─'), None),
            ),
            (
                Node {
                    character: '╭',
                    source: LineColumn {
                        line: 2,
                        column: 12
                    },
                    visual: LineColumn {
                        line: 2,
                        column: 12
                    },
                    region: (Region::Center, Region::Center),
                },
                Node {
                    character: '╰',
                    source: LineColumn {
                        line: 4,
                        column: 12
                    },
                    visual: LineColumn {
                        line: 4,
                        column: 12
                    },
                    region: (Region::Center, Region::Center),
                },
                Edge(None, Brush::NorthSouth('│'), None),
            ),
            (
                Node {
                    character: '╮',
                    source: LineColumn {
                        line: 2,
                        column: 14
                    },
                    visual: LineColumn {
                        line: 2,
                        column: 14
                    },
                    region: (Region::Center, Region::Center),
                },
                Node {
                    character: '╯',
                    source: LineColumn {
                        line: 4,
                        column: 14
                    },
                    visual: LineColumn {
                        line: 4,
                        column: 14
                    },
                    region: (Region::Center, Region::Center),
                },
                Edge(None, Brush::NorthSouth('│'), None),
            ),
            (
                Node {
                    character: '╰',
                    source: LineColumn {
                        line: 4,
                        column: 12
                    },
                    visual: LineColumn {
                        line: 4,
                        column: 12
                    },
                    region: (Region::Center, Region::Center),
                },
                Node {
                    character: '╯',
                    source: LineColumn {
                        line: 4,
                        column: 14
                    },
                    visual: LineColumn {
                        line: 4,
                        column: 14
                    },
                    region: (Region::Center, Region::Center),
                },
                Edge(None, Brush::EastWest('─'), None),
            )
        ],
    );
}

#[test]
fn node_t_crossing() {
    let input = "
             │
             ├─┬─
             │ │
            ─┴─┤
               │
            ";
    parses_to(
        input,
        vec![
            (
                Node {
                    character: '│',
                    source: LineColumn {
                        line: 2,
                        column: 13
                    },
                    visual: LineColumn {
                        line: 2,
                        column: 13
                    },
                    region: (Region::North, Region::Center),
                },
                Node {
                    character: '├',
                    source: LineColumn {
                        line: 3,
                        column: 13
                    },
                    visual: LineColumn {
                        line: 3,
                        column: 13
                    },
                    region: (Region::Center, Region::Center),
                },
                Edge(None, Brush::NorthSouth('│'), None),
            ),
            (
                Node {
                    character: '├',
                    source: LineColumn {
                        line: 3,
                        column: 13
                    },
                    visual: LineColumn {
                        line: 3,
                        column: 13
                    },
                    region: (Region::Center, Region::Center),
                },
                Node {
                    character: '┬',
                    source: LineColumn {
                        line: 3,
                        column: 15
                    },
                    visual: LineColumn {
                        line: 3,
                        column: 15
                    },
                    region: (Region::Center, Region::Center),
                },
                Edge(None, Brush::EastWest('─'), None),
            ),
            (
                Node {
                    character: '├',
                    source: LineColumn {
                        line: 3,
                        column: 13
                    },
                    visual: LineColumn {
                        line: 3,
                        column: 13
                    },
                    region: (Region::Center, Region::Center),
                },
                Node {
                    character: '┴',
                    source: LineColumn {
                        line: 5,
                        column: 13
                    },
                    visual: LineColumn {
                        line: 5,
                        column: 13
                    },
                    region: (Region::Center, Region::Center),
                },
                Edge(None, Brush::NorthSouth('│'), None),
            ),
            (
                Node {
                    character: '┬',
                    source: LineColumn {
                        line: 3,
                        column: 15
                    },
                    visual: LineColumn {
                        line: 3,
                        column: 15
                    },
                    region: (Region::Center, Region::Center),
                },
                Node {
                    character: '─',
                    source: LineColumn {
                        line: 3,
                        column: 16
                    },
                    visual: LineColumn {
                        line: 3,
                        column: 16
                    },
                    region: (Region::Center, Region::East),
                },
                Edge(None, Brush::EastWest('─'), None),
            ),
            (
                Node {
                    character: '┬',
                    source: LineColumn {
                        line: 3,
                        column: 15
                    },
                    visual: LineColumn {
                        line: 3,
                        column: 15
                    },
                    region: (Region::Center, Region::Center),
                },
                Node {
                    character: '┤',
                    source: LineColumn {
                        line: 5,
                        column: 15
                    },
                    visual: LineColumn {
                        line: 5,
                        column: 15
                    },
                    region: (Region::Center, Region::Center),
                },
                Edge(None, Brush::NorthSouth('│'), None),
            ),
            (
                Node {
                    character: '─',
                    source: LineColumn {
                        line: 5,
                        column: 12
                    },
                    visual: LineColumn {
                        line: 5,
                        column: 12
                    },
                    region: (Region::Center, Region::West),
                },
                Node {
                    character: '┴',
                    source: LineColumn {
                        line: 5,
                        column: 13
                    },
                    visual: LineColumn {
                        line: 5,
                        column: 13
                    },
                    region: (Region::Center, Region::Center),
                },
                Edge(None, Brush::EastWest('─'), None),
            ),
            (
                Node {
                    character: '┴',
                    source: LineColumn {
                        line: 5,
                        column: 13
                    },
                    visual: LineColumn {
                        line: 5,
                        column: 13
                    },
                    region: (Region::Center, Region::Center),
                },
                Node {
                    character: '┤',
                    source: LineColumn {
                        line: 5,
                        column: 15
                    },
                    visual: LineColumn {
                        line: 5,
                        column: 15
                    },
                    region: (Region::Center, Region::Center),
                },
                Edge(None, Brush::EastWest('─'), None),
            ),
            (
                Node {
                    character: '┤',
                    source: LineColumn {
                        line: 5,
                        column: 15
                    },
                    visual: LineColumn {
                        line: 5,
                        column: 15
                    },
                    region: (Region::Center, Region::Center),
                },
                Node {
                    character: '│',
                    source: LineColumn {
                        line: 6,
                        column: 15
                    },
                    visual: LineColumn {
                        line: 6,
                        column: 15
                    },
                    region: (Region::South, Region::Center),
                },
                Edge(None, Brush::NorthSouth('│'), None),
            )
        ],
    );
}

#[test]
fn node_mixed_brush_t_crossing() {
    let input = "
             │
             ┢━┱─
             ┃ ┃
            ─┺━┩
               │
            ";
    parses_to(
        input,
        vec![
            (
                Node {
                    character: '│',
                    source: LineColumn {
                        line: 2,
                        column: 13
                    },
                    visual: LineColumn {
                        line: 2,
                        column: 13
                    },
                    region: (Region::North, Region::Center),
                },
                Node {
                    character: '┢',
                    source: LineColumn {
                        line: 3,
                        column: 13
                    },
                    visual: LineColumn {
                        line: 3,
                        column: 13
                    },
                    region: (Region::Center, Region::Center),
                },
                Edge(None, Brush::NorthSouth('│'), None),
            ),
            (
                Node {
                    character: '┢',
                    source: LineColumn {
                        line: 3,
                        column: 13
                    },
                    visual: LineColumn {
                        line: 3,
                        column: 13
                    },
                    region: (Region::Center, Region::Center),
                },
                Node {
                    character: '┱',
                    source: LineColumn {
                        line: 3,
                        column: 15
                    },
                    visual: LineColumn {
                        line: 3,
                        column: 15
                    },
                    region: (Region::Center, Region::Center),
                },
                Edge(None, Brush::EastWest('━'), None),
            ),
            (
                Node {
                    character: '┢',
                    source: LineColumn {
                        line: 3,
                        column: 13
                    },
                    visual: LineColumn {
                        line: 3,
                        column: 13
                    },
                    region: (Region::Center, Region::Center),
                },
                Node {
                    character: '┺',
                    source: LineColumn {
                        line: 5,
                        column: 13
                    },
                    visual: LineColumn {
                        line: 5,
                        column: 13
                    },
                    region: (Region::Center, Region::Center),
                },
                Edge(None, Brush::NorthSouth('┃'), None),
            ),
            (
                Node {
                    character: '┱',
                    source: LineColumn {
                        line: 3,
                        column: 15
                    },
                    visual: LineColumn {
                        line: 3,
                        column: 15
                    },
                    region: (Region::Center, Region::Center),
                },
                Node {
                    character: '─',
                    source: LineColumn {
                        line: 3,
                        column: 16
                    },
                    visual: LineColumn {
                        line: 3,
                        column: 16
                    },
                    region: (Region::Center, Region::East),
                },
                Edge(None, Brush::EastWest('─'), None),
            ),
            (
                Node {
                    character: '┱',
                    source: LineColumn {
                        line: 3,
                        column: 15
                    },
                    visual: LineColumn {
                        line: 3,
                        column: 15
                    },
                    region: (Region::Center, Region::Center),
                },
                Node {
                    character: '┩',
                    source: LineColumn {
                        line: 5,
                        column: 15
                    },
                    visual: LineColumn {
                        line: 5,
                        column: 15
                    },
                    region: (Region::Center, Region::Center),
                },
                Edge(None, Brush::NorthSouth('┃'), None),
            ),
            (
                Node {
                    character: '─',
                    source: LineColumn {
                        line: 5,
                        column: 12
                    },
                    visual: LineColumn {
                        line: 5,
                        column: 12
                    },
                    region: (Region::Center, Region::West),
                },
                Node {
                    character: '┺',
                    source: LineColumn {
                        line: 5,
                        column: 13
                    },
                    visual: LineColumn {
                        line: 5,
                        column: 13
                    },
                    region: (Region::Center, Region::Center),
                },
                Edge(None, Brush::EastWest('─'), None),
            ),
            (
                Node {
                    character: '┺',
                    source: LineColumn {
                        line: 5,
                        column: 13
                    },
                    visual: LineColumn {
                        line: 5,
                        column: 13
                    },
                    region: (Region::Center, Region::Center),
                },
                Node {
                    character: '┩',
                    source: LineColumn {
                        line: 5,
                        column: 15
                    },
                    visual: LineColumn {
                        line: 5,
                        column: 15
                    },
                    region: (Region::Center, Region::Center),
                },
                Edge(None, Brush::EastWest('━'), None),
            ),
            (
                Node {
                    character: '┩',
                    source: LineColumn {
                        line: 5,
                        column: 15
                    },
                    visual: LineColumn {
                        line: 5,
                        column: 15
                    },
                    region: (Region::Center, Region::Center),
                },
                Node {
                    character: '│',
                    source: LineColumn {
                        line: 6,
                        column: 15
                    },
                    visual: LineColumn {
                        line: 6,
                        column: 15
                    },
                    region: (Region::South, Region::Center),
                },
                Edge(None, Brush::NorthSouth('│'), None),
            )
        ],
    );
}
