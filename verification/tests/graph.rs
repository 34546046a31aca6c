use dottools::{Brush, Edge, Graph, LineColumn, Node, Region};

fn anchor(character: char, line: usize, column: usize, region: (Region, Region)) -> Node {
    Node { character, source: LineColumn { line, column }, visual: LineColumn { line, column }, region }
}

#[test]
fn a_new_graph_is_empty() {
    let g = Graph::new();
    assert!(g.nodes().is_empty());
    assert!(g.all_edges().is_empty());
}

#[test]
fn a_segment_is_filed_once_with_its_first_anchor_first() {
    let a = anchor('-', 1, 0, (Region::Center, Region::West));
    let b = anchor('-', 1, 3, (Region::Center, Region::East));
    let light = Edge(None, Brush::EastWest('-'), None);
    let heavy = Edge(None, Brush::EastWest('='), None);
    let mut g = Graph::new();
    g.add_edge(b, a, light);
    assert_eq!(g.nodes(), vec![b, a]);
    assert_eq!(g.all_edges(), vec![(a, b, light)]);
    g.add_edge(a, b, heavy);
    assert_eq!(g.nodes(), vec![b, a]);
    assert_eq!(g.all_edges(), vec![(a, b, heavy)]);
}
