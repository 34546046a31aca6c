//! The graph of anchors and segments.
use crate::position::{LineColumn, Node, Region};
use crate::stroke::Edge;
use petgraph::graphmap::GraphMap;
use petgraph::Undirected;
use std::collections::hash_map::RandomState;
use std::hash::BuildHasher;
use vstd::prelude::*;

verus! {

/// An anchor as the graph stores it: source line and column, visual line and
/// column, character, and the codes of the two regions.
pub type NodeKey = (usize, usize, usize, usize, char, u8, u8);

/// A segment as the graph stores it.
pub type EdgeKey = (NodeKey, NodeKey, Edge);

/// `petgraph::graphmap::GraphMap`: a graph that keeps its nodes and its edges
/// in the order in which they were put in. Nothing is known of a value of it
/// but what [`held_nodes`] and [`held_edges`] name.
#[verifier::external_type_specification]
#[verifier::external_body]
#[verifier::reject_recursive_types(N)]
#[verifier::reject_recursive_types(E)]
#[verifier::reject_recursive_types(Ty)]
#[verifier::reject_recursive_types(S)]
pub struct ExGraphMap<N, E, Ty, S: BuildHasher>(GraphMap<N, E, Ty, S>);

/// `petgraph::Undirected`: the marker of a graph whose edges have no
/// direction.
#[verifier::external_type_specification]
#[verifier::external_body]
pub struct ExUndirected(Undirected);

/// The nodes that a `GraphMap` holds, in the order in which it hands them out.
pub uninterp spec fn held_nodes(g: GraphMap<NodeKey, Edge, Undirected, RandomState>) -> Seq<NodeKey>;

/// The edges that a `GraphMap` holds, in the order in which it hands them out.
pub uninterp spec fn held_edges(g: GraphMap<NodeKey, Edge, Undirected, RandomState>) -> Seq<EdgeKey>;

/// The order of the stored anchors: field by field, from the left.
pub open spec fn key_le(a: NodeKey, b: NodeKey) -> bool {
    if a.0 != b.0 {
        a.0 < b.0
    } else if a.1 != b.1 {
        a.1 < b.1
    } else if a.2 != b.2 {
        a.2 < b.2
    } else if a.3 != b.3 {
        a.3 < b.3
    } else if a.4 != b.4 {
        a.4 < b.4
    } else if a.5 != b.5 {
        a.5 < b.5
    } else {
        a.6 <= b.6
    }
}

/// The two ends of a segment in the order in which it is filed: the smaller
/// one first.
pub open spec fn filed(a: NodeKey, b: NodeKey) -> (NodeKey, NodeKey) {
    if key_le(a, b) {
        (a, b)
    } else {
        (b, a)
    }
}

/// Whether `edges` holds a segment between `p` and `q`, in this order.
pub open spec fn joins<N>(edges: Seq<(N, N, Edge)>, p: N, q: N) -> bool {
    exists|i: int| 0 <= i < edges.len() && (#[trigger] edges[i]).0 == p && edges[i].1 == q
}

/// `edges` after a segment from `p` to `q` was put in: one that is there
/// already keeps its place and takes the new label, a new one goes last.
pub open spec fn edges_with<N>(edges: Seq<(N, N, Edge)>, p: N, q: N, w: Edge) -> Seq<(N, N, Edge)> {
    if joins(edges, p, q) {
        Seq::new(edges.len(), |i: int| if edges[i].0 == p && edges[i].1 == q { (p, q, w) } else { edges[i] })
    } else {
        edges.push((p, q, w))
    }
}

/// `nodes` with `n` last, unless it is there already.
pub open spec fn nodes_with<N>(nodes: Seq<N>, n: N) -> Seq<N> {
    if nodes.contains(n) {
        nodes
    } else {
        nodes.push(n)
    }
}

/// `GraphMap::new`: a graph without nodes or edges.
#[verifier::external_body]
fn graph_new() -> (g: GraphMap<NodeKey, Edge, Undirected, RandomState>)
    ensures
        held_nodes(g) == Seq::<NodeKey>::empty(),
        held_edges(g) == Seq::<EdgeKey>::empty(),
{
    GraphMap::new()
}

/// `GraphMap::add_edge` on an undirected graph. The edge is filed under its
/// smaller end first. Where the graph has an edge between the two already, only
/// that edge's label changes; otherwise the edge goes last, and so does each
/// end that the graph has not seen, `a` before `b`. The call does not panic.
#[verifier::external_body]
fn graph_add_edge(g: &mut GraphMap<NodeKey, Edge, Undirected, RandomState>, a: NodeKey, b: NodeKey, w: Edge)
    ensures
        held_edges(*final(g)) == edges_with(held_edges(*old(g)), filed(a, b).0, filed(a, b).1, w),
        held_nodes(*final(g)) == if joins(held_edges(*old(g)), filed(a, b).0, filed(a, b).1) {
            held_nodes(*old(g))
        } else {
            nodes_with(nodes_with(held_nodes(*old(g)), a), b)
        },
    no_unwind
{
    g.add_edge(a, b, w);
}

/// `GraphMap::nodes`, collected.
#[verifier::external_body]
fn graph_nodes(g: &GraphMap<NodeKey, Edge, Undirected, RandomState>) -> (v: Vec<NodeKey>)
    ensures
        v@ == held_nodes(*g),
{
    g.nodes().collect()
}

/// `GraphMap::all_edges`, collected, each label copied.
#[verifier::external_body]
fn graph_all_edges(g: &GraphMap<NodeKey, Edge, Undirected, RandomState>) -> (v: Vec<EdgeKey>)
    ensures
        v@ == held_edges(*g),
{
    g.all_edges().map(|(a, b, w)| (a, b, *w)).collect()
}

/// The code under which a region is stored. The codes order the rows of a cell
/// from north to south and its sides from west to east.
pub open spec fn region_code(r: Region) -> u8 {
    match r {
        Region::North => 0,
        Region::West => 1,
        Region::Center => 2,
        Region::East => 3,
        Region::South => 4,
    }
}

/// The region that a code stands for.
pub open spec fn code_region(c: u8) -> Region {
    if c == 0 {
        Region::North
    } else if c == 1 {
        Region::West
    } else if c == 2 {
        Region::Center
    } else if c == 3 {
        Region::East
    } else {
        Region::South
    }
}

/// An anchor as the graph stores it.
pub open spec fn key_of(n: Node) -> NodeKey {
    (
        n.source.line,
        n.source.column,
        n.visual.line,
        n.visual.column,
        n.character,
        region_code(n.region.0),
        region_code(n.region.1),
    )
}

/// The anchor that a stored key stands for.
pub open spec fn node_of(k: NodeKey) -> Node {
    Node {
        character: k.4,
        source: LineColumn { line: k.0, column: k.1 },
        visual: LineColumn { line: k.2, column: k.3 },
        region: (code_region(k.5), code_region(k.6)),
    }
}

/// A stored segment with its ends as anchors.
pub open spec fn edge_of(e: EdgeKey) -> (Node, Node, Edge) {
    (node_of(e.0), node_of(e.1), e.2)
}

/// What a graph holds: its anchors and its segments, each in the order in
/// which they were first put in.
pub ghost struct GraphView {
    pub nodes: Seq<Node>,
    pub edges: Seq<(Node, Node, Edge)>,
}

impl GraphView {
    /// The graph that holds nothing.
    pub open spec fn empty() -> GraphView {
        GraphView { nodes: Seq::empty(), edges: Seq::empty() }
    }

    /// Whether `a` is filed before `b`: by source position, then by visual
    /// position, character and region.
    pub open spec fn files_first(a: Node, b: Node) -> bool {
        key_le(key_of(a), key_of(b))
    }

    /// The graph after a segment between `a` and `b` was put in.
    ///
    /// A segment is filed with its smaller end first. If the graph has a
    /// segment between the two anchors already, that segment takes the new
    /// label and nothing else changes. Otherwise the segment goes last, and so
    /// does each of `a` and `b`, in this order, that the graph has not seen.
    pub open spec fn with_edge(self, a: Node, b: Node, w: Edge) -> GraphView {
        let (p, q) = if Self::files_first(a, b) { (a, b) } else { (b, a) };
        GraphView {
            nodes: if joins(self.edges, p, q) {
                self.nodes
            } else {
                nodes_with(nodes_with(self.nodes, a), b)
            },
            edges: edges_with(self.edges, p, q, w),
        }
    }
}

/// A graph of anchors and the segments between them.
pub struct Graph {
    inner: GraphMap<NodeKey, Edge, Undirected, RandomState>,
}

/// The code under which a region is stored.
fn region_to_code(r: Region) -> (c: u8)
    ensures
        c == region_code(r),
        code_region(c) == r,
{
    match r {
        Region::North => 0,
        Region::West => 1,
        Region::Center => 2,
        Region::East => 3,
        Region::South => 4,
    }
}

/// The region that a code stands for.
fn region_from_code(c: u8) -> (r: Region)
    ensures
        r == code_region(c),
{
    if c == 0 {
        Region::North
    } else if c == 1 {
        Region::West
    } else if c == 2 {
        Region::Center
    } else if c == 3 {
        Region::East
    } else {
        Region::South
    }
}

/// An anchor as the graph stores it.
fn node_to_key(n: Node) -> (k: NodeKey)
    ensures
        k == key_of(n),
        node_of(k) == n,
{
    (
        n.source.line,
        n.source.column,
        n.visual.line,
        n.visual.column,
        n.character,
        region_to_code(n.region.0),
        region_to_code(n.region.1),
    )
}

/// The anchor that a stored key stands for.
fn node_from_key(k: NodeKey) -> (n: Node)
    ensures
        n == node_of(k),
{
    Node {
        character: k.4,
        source: LineColumn { line: k.0, column: k.1 },
        visual: LineColumn { line: k.2, column: k.3 },
        region: (region_from_code(k.5), region_from_code(k.6)),
    }
}

/// Whether a key is one that an anchor is stored under.
pub open spec fn key_sound(k: NodeKey) -> bool {
    key_of(node_of(k)) == k
}

/// Whether every stored key stands for an anchor.
pub open spec fn keys_sound(nodes: Seq<NodeKey>, edges: Seq<EdgeKey>) -> bool {
    &&& forall|i: int| 0 <= i < nodes.len() ==> key_sound(#[trigger] nodes[i])
    &&& forall|i: int| 0 <= i < edges.len() ==> key_sound((#[trigger] edges[i]).0) && key_sound(edges[i].1)
}

/// The stored nodes as anchors.
pub open spec fn anchors(nodes: Seq<NodeKey>) -> Seq<Node> {
    nodes.map_values(|k: NodeKey| node_of(k))
}

/// The stored edges as segments.
pub open spec fn segments(edges: Seq<EdgeKey>) -> Seq<(Node, Node, Edge)> {
    edges.map_values(|e: EdgeKey| edge_of(e))
}

/// Stored edges join two keys just when the segments that they stand for
/// join the anchors of the keys.
proof fn lemma_joins(edges: Seq<EdgeKey>, p: NodeKey, q: NodeKey)
    requires
        keys_sound(Seq::empty(), edges),
        key_sound(p),
        key_sound(q),
    ensures
        joins(edges, p, q) <==> joins(segments(edges), node_of(p), node_of(q)),
{
    let s = segments(edges);
    if joins(edges, p, q) {
        let i = choose|i: int| 0 <= i < edges.len() && (#[trigger] edges[i]).0 == p && edges[i].1 == q;
        assert(s[i].0 == node_of(p) && s[i].1 == node_of(q));
    }
    if joins(s, node_of(p), node_of(q)) {
        let i = choose|i: int| 0 <= i < s.len() && (#[trigger] s[i]).0 == node_of(p) && s[i].1 == node_of(q);
        assert(key_sound(edges[i].0) && key_sound(edges[i].1));
        assert(edges[i].0 == p && edges[i].1 == q);
    }
}

/// Putting a key into the stored nodes puts its anchor into the anchors.
proof fn lemma_node_put(nodes: Seq<NodeKey>, k: NodeKey)
    requires
        keys_sound(nodes, Seq::empty()),
        key_sound(k),
    ensures
        keys_sound(nodes_with(nodes, k), Seq::empty()),
        anchors(nodes_with(nodes, k)) == nodes_with(anchors(nodes), node_of(k)),
{
    let a = anchors(nodes);
    if nodes.contains(k) {
        let i = choose|i: int| 0 <= i < nodes.len() && nodes[i] == k;
        assert(a[i] == node_of(k));
    }
    if a.contains(node_of(k)) {
        let i = choose|i: int| 0 <= i < a.len() && a[i] == node_of(k);
        assert(key_sound(nodes[i]));
        assert(nodes[i] == k);
    }
    assert(anchors(nodes_with(nodes, k)) =~= nodes_with(anchors(nodes), node_of(k)));
}

/// What `GraphMap::add_edge` does to the stored keys is what
/// [`GraphView::with_edge`] does to the anchors and segments that they stand
/// for.
proof fn lemma_edge_put(nodes: Seq<NodeKey>, edges: Seq<EdgeKey>, a: NodeKey, b: NodeKey, w: Edge)
    requires
        keys_sound(nodes, edges),
        key_sound(a),
        key_sound(b),
    ensures
        ({
            let (p, q) = filed(a, b);
            let edges2 = edges_with(edges, p, q, w);
            let nodes2 = if joins(edges, p, q) {
                nodes
            } else {
                nodes_with(nodes_with(nodes, a), b)
            };
            let before = GraphView { nodes: anchors(nodes), edges: segments(edges) };
            &&& keys_sound(nodes2, edges2)
            &&& GraphView { nodes: anchors(nodes2), edges: segments(edges2) } == before.with_edge(
                node_of(a),
                node_of(b),
                w,
            )
        }),
{
    let (p, q) = filed(a, b);
    lemma_joins(edges, p, q);
    lemma_node_put(nodes, a);
    lemma_node_put(nodes_with(nodes, a), b);
    let edges2 = edges_with(edges, p, q, w);
    assert(segments(edges2) =~= edges_with(segments(edges), node_of(p), node_of(q), w)) by {
        if joins(edges, p, q) {
            assert forall|i: int| 0 <= i < edges.len() implies (edges[i].0 == p && edges[i].1 == q) == (
            segments(edges)[i].0 == node_of(p) && segments(edges)[i].1 == node_of(q)) by {
                assert(key_sound(edges[i].0) && key_sound(edges[i].1));
            }
        }
    }
}

impl View for Graph {
    type V = GraphView;

    closed spec fn view(&self) -> GraphView {
        GraphView {
            nodes: anchors(held_nodes(self.inner)),
            edges: segments(held_edges(self.inner)),
        }
    }
}

impl Graph {
    /// Every key that the map holds stands for an anchor.
    #[verifier::type_invariant]
    spec fn well_formed(self) -> bool {
        keys_sound(held_nodes(self.inner), held_edges(self.inner))
    }

    /// A graph that holds nothing.
    pub fn new() -> (g: Graph)
        ensures
            g@ == GraphView::empty(),
    {
        let g = Graph { inner: graph_new() };
        proof {
            assert(g@.nodes =~= Seq::<Node>::empty());
            assert(g@.edges =~= Seq::<(Node, Node, Edge)>::empty());
        }
        g
    }

    /// The anchors, in the order in which the graph first saw them.
    pub fn nodes(&self) -> (v: Vec<Node>)
        ensures
            v@ == self@.nodes,
    {
        let keys = graph_nodes(&self.inner);
        let mut v: Vec<Node> = Vec::new();
        let mut i: usize = 0;
        while i < keys.len()
            invariant
                i <= keys.len(),
                keys@ == held_nodes(self.inner),
                v@ == self@.nodes.take(i as int),
            decreases keys.len() - i,
        {
            v.push(node_from_key(keys[i]));
            proof {
                assert(self@.nodes.take(i + 1) =~= self@.nodes.take(i as int).push(self@.nodes[i as int]));
            }
            i += 1;
        }
        proof {
            assert(self@.nodes.take(i as int) =~= self@.nodes);
        }
        v
    }

    /// The segments, each with its two anchors and its label, in the order in
    /// which the graph first saw them. The anchor that is filed first comes
    /// first.
    pub fn all_edges(&self) -> (v: Vec<(Node, Node, Edge)>)
        ensures
            v@ == self@.edges,
    {
        let keys = graph_all_edges(&self.inner);
        let mut v: Vec<(Node, Node, Edge)> = Vec::new();
        let mut i: usize = 0;
        while i < keys.len()
            invariant
                i <= keys.len(),
                keys@ == held_edges(self.inner),
                v@ == self@.edges.take(i as int),
            decreases keys.len() - i,
        {
            let e = keys[i];
            v.push((node_from_key(e.0), node_from_key(e.1), e.2));
            proof {
                assert(self@.edges.take(i + 1) =~= self@.edges.take(i as int).push(self@.edges[i as int]));
            }
            i += 1;
        }
        proof {
            assert(self@.edges.take(i as int) =~= self@.edges);
        }
        v
    }

    /// Puts a segment between `a` and `b` into the graph.
    pub fn add_edge(&mut self, a: Node, b: Node, w: Edge)
        ensures
            final(self)@ == old(self)@.with_edge(a, b, w),
    {
        let ka = node_to_key(a);
        let kb = node_to_key(b);
        proof {
            use_type_invariant(&*self);
            lemma_edge_put(held_nodes(self.inner), held_edges(self.inner), ka, kb, w);
        }
        graph_add_edge(&mut self.inner, ka, kb, w);
    }
}

} // verus!
