//! The graph data model: identifiers, nodes, edges, and the graph
//! aggregate with its mutation contract. The node table keeps its
//! keys unique; the identifier-only insertion path is "ensure
//! exists", the full-node path is "set/replace".
use vstd::prelude::*;
use vstd::string::StringExecFns;
use crate::matrix::{AdjMatrix, mat_view, mat_width, mat_zeros};

verus! {

/// An immutable value distinguishing nodes: a non-negative whole
/// number or a text label. The two variants never compare equal.
#[derive(Debug, Clone, PartialEq, Eq, Hash)]
pub enum NodeIdentifier {
    Int(usize),
    Text(String),
}

/// An immutable value distinguishing edges, mirroring the shape of
/// `NodeIdentifier`.
#[derive(Debug, Clone, PartialEq, Eq, Hash)]
pub enum EdgeIdentifier {
    Int(usize),
    Test(String),
}

/// A node's full state: its identifier and its adjacency data, an
/// ordered sequence of (neighbor identifier, edge identifier) pairs.
#[derive(Debug, Clone, PartialEq, Eq)]
pub struct Node {
    pub identifier: NodeIdentifier,
    pub edges: Vec<(NodeIdentifier, EdgeIdentifier)>,
}

/// An unordered pair of node identifiers denoting an undirected
/// connection; the edge list stores it as inserted.
#[derive(Debug, Clone, PartialEq, Eq)]
pub struct Edge {
    pub source: NodeIdentifier,
    pub target: NodeIdentifier,
}

/// What may be handed to the insertion API: a bare identifier
/// ("ensure exists") or a fully formed node ("set/replace").
#[derive(Debug, Clone)]
pub enum NodeLike {
    IdentifierOnly(NodeIdentifier),
    FullNode(Node),
}

/// The aggregate: adjacency matrix, node table and edge list.
/// Incremental insertion updates the node table and edge list but
/// never touches the matrix; only the generator and the decoder
/// populate it.
pub struct Graph {
    pub adjacency_matrix: AdjMatrix,
    pub nodes: Vec<Node>,
    pub edges: Vec<Edge>,
}

// ---------------------------------------------------------------
// Mathematical models
// ---------------------------------------------------------------

/// Model of a `NodeIdentifier`.
pub enum IdV {
    Int(usize),
    Text(Seq<char>),
}

/// Model of an `EdgeIdentifier`.
pub enum EdgeIdV {
    Int(usize),
    Test(Seq<char>),
}

/// Model of a `Node`.
#[verifier::ext_equal]
pub struct NodeV {
    pub identifier: IdV,
    pub edges: Seq<(IdV, EdgeIdV)>,
}

/// Model of an `Edge`.
pub struct EdgeV {
    pub source: IdV,
    pub target: IdV,
}

/// Model of a `Graph`: the matrix rows, the matrix width, the node
/// table and the edge list.
#[verifier::ext_equal]
pub struct GraphV {
    pub matrix: Seq<Seq<usize>>,
    pub width: nat,
    pub nodes: Seq<NodeV>,
    pub edges: Seq<EdgeV>,
}

impl View for NodeIdentifier {
    type V = IdV;

    open spec fn view(&self) -> IdV {
        match self {
            NodeIdentifier::Int(n) => IdV::Int(*n),
            NodeIdentifier::Text(s) => IdV::Text(s@),
        }
    }
}

impl View for EdgeIdentifier {
    type V = EdgeIdV;

    open spec fn view(&self) -> EdgeIdV {
        match self {
            EdgeIdentifier::Int(n) => EdgeIdV::Int(*n),
            EdgeIdentifier::Test(s) => EdgeIdV::Test(s@),
        }
    }
}

impl View for Node {
    type V = NodeV;

    open spec fn view(&self) -> NodeV {
        NodeV {
            identifier: self.identifier@,
            edges: self.edges@.map_values(
                |p: (NodeIdentifier, EdgeIdentifier)| (p.0@, p.1@),
            ),
        }
    }
}

impl View for Edge {
    type V = EdgeV;

    open spec fn view(&self) -> EdgeV {
        EdgeV { source: self.source@, target: self.target@ }
    }
}

/// Model of a `NodeLike`.
pub enum NodeLikeV {
    IdentifierOnly(IdV),
    FullNode(NodeV),
}

impl View for NodeLike {
    type V = NodeLikeV;

    open spec fn view(&self) -> NodeLikeV {
        match self {
            NodeLike::IdentifierOnly(id) => NodeLikeV::IdentifierOnly(id@),
            NodeLike::FullNode(n) => NodeLikeV::FullNode(n@),
        }
    }
}

impl View for Graph {
    type V = GraphV;

    open spec fn view(&self) -> GraphV {
        GraphV {
            matrix: mat_view(self.adjacency_matrix),
            width: mat_width(self.adjacency_matrix),
            nodes: self.nodes@.map_values(|n: Node| n@),
            edges: self.edges@.map_values(|e: Edge| e@),
        }
    }
}

// ---------------------------------------------------------------
// Well-formedness
// ---------------------------------------------------------------

/// No two entries of the node table carry the same identifier.
pub open spec fn unique_ids(ns: Seq<NodeV>) -> bool {
    forall|i: int, j: int|
        0 <= i < j < ns.len() ==> ns[i].identifier != ns[j].identifier
}

impl GraphV {
    /// The matrix is square and the node-table keys are unique.
    pub open spec fn wf(self) -> bool {
        &&& self.matrix.len() == self.width
        &&& forall|r: int|
            0 <= r < self.matrix.len() ==> (#[trigger] self.matrix[r]).len() == self.width
        &&& unique_ids(self.nodes)
    }
}

impl Graph {
    /// The graph's invariant: see `GraphV::wf`.
    pub open spec fn wf(self) -> bool {
        self@.wf()
    }
}

// ---------------------------------------------------------------
// Effects of insertion, as functions of the model
// ---------------------------------------------------------------

/// Whether the node table holds the identifier.
pub open spec fn contains_id(ns: Seq<NodeV>, id: IdV) -> bool {
    exists|i: int| 0 <= i < ns.len() && ns[i].identifier == id
}

/// The identifier-only insertion path: a fresh node with empty
/// adjacency data is appended only if the identifier is absent.
pub open spec fn ensure_spec(ns: Seq<NodeV>, id: IdV) -> Seq<NodeV> {
    if contains_id(ns, id) {
        ns
    } else {
        ns.push(NodeV { identifier: id, edges: Seq::empty() })
    }
}

/// The full-node insertion path: the first entry with the same
/// identifier is replaced; if none exists, the node is appended.
pub open spec fn put_spec(ns: Seq<NodeV>, n: NodeV) -> Seq<NodeV>
    decreases ns.len(),
{
    if ns.len() == 0 {
        seq![n]
    } else if ns[0].identifier == n.identifier {
        seq![n] + ns.drop_first()
    } else {
        seq![ns[0]] + put_spec(ns.drop_first(), n)
    }
}

/// The effect of inserting one `NodeLike`.
pub open spec fn add_like_spec(ns: Seq<NodeV>, l: NodeLikeV) -> Seq<NodeV> {
    match l {
        NodeLikeV::IdentifierOnly(id) => ensure_spec(ns, id),
        NodeLikeV::FullNode(n) => put_spec(ns, n),
    }
}

/// The effect of inserting a sequence of `NodeLike`s, in order.
pub open spec fn add_all_spec(ns: Seq<NodeV>, ls: Seq<NodeLikeV>) -> Seq<NodeV>
    decreases ls.len(),
{
    if ls.len() == 0 {
        ns
    } else {
        add_all_spec(add_like_spec(ns, ls[0]), ls.drop_first())
    }
}

/// Both endpoints of every edge, in edge-list order.
pub open spec fn endpoints(es: Seq<EdgeV>) -> Seq<IdV>
    decreases es.len(),
{
    if es.len() == 0 {
        Seq::empty()
    } else {
        seq![es[0].source, es[0].target] + endpoints(es.drop_first())
    }
}

/// The effect of running every identifier through the
/// identifier-only insertion path, in order.
pub open spec fn ensure_all_spec(ns: Seq<NodeV>, ids: Seq<IdV>) -> Seq<NodeV>
    decreases ids.len(),
{
    if ids.len() == 0 {
        ns
    } else {
        ensure_all_spec(ensure_spec(ns, ids[0]), ids.drop_first())
    }
}

// ---------------------------------------------------------------
// Executable equality and copies
// ---------------------------------------------------------------

impl NodeIdentifier {
    /// Structural, variant-aware equality: an `Int` never equals a
    /// `Text`.
    pub fn eq_id(&self, other: &NodeIdentifier) -> (r: bool)
        ensures
            r == (self@ == other@),
    {
        match (self, other) {
            (NodeIdentifier::Int(a), NodeIdentifier::Int(b)) => *a == *b,
            (NodeIdentifier::Text(a), NodeIdentifier::Text(b)) => a.eq(b),
            _ => false,
        }
    }

    /// A copy with the same value.
    pub fn duplicate(&self) -> (r: NodeIdentifier)
        ensures
            r@ == self@,
    {
        match self {
            NodeIdentifier::Int(n) => NodeIdentifier::Int(*n),
            NodeIdentifier::Text(s) => NodeIdentifier::Text(s.clone()),
        }
    }
}

impl EdgeIdentifier {
    /// A copy with the same value.
    pub fn duplicate(&self) -> (r: EdgeIdentifier)
        ensures
            r@ == self@,
    {
        match self {
            EdgeIdentifier::Int(n) => EdgeIdentifier::Int(*n),
            EdgeIdentifier::Test(s) => EdgeIdentifier::Test(s.clone()),
        }
    }
}

impl Node {
    /// A copy with the same value.
    pub fn duplicate(&self) -> (r: Node)
        ensures
            r@ == self@,
    {
        let mut edges: Vec<(NodeIdentifier, EdgeIdentifier)> = Vec::new();
        let mut i: usize = 0;
        while i < self.edges.len()
            invariant
                i <= self.edges.len(),
                edges@.len() == i,
                forall|k: int|
                    0 <= k < i ==> (#[trigger] edges@[k]).0@ == self.edges@[k].0@
                        && edges@[k].1@ == self.edges@[k].1@,
            decreases self.edges.len() - i,
        {
            let pair = (self.edges[i].0.duplicate(), self.edges[i].1.duplicate());
            edges.push(pair);
            i += 1;
        }
        let r = Node { identifier: self.identifier.duplicate(), edges };
        proof {
            assert(r@.edges =~= self@.edges);
        }
        r
    }

    /// Leaves both nodes as they are: it takes shared references and
    /// writes nothing.
    pub fn add_edge_to(&self, _target: &Node) {
    }
}

impl Edge {
    /// A copy with the same value.
    pub fn duplicate(&self) -> (r: Edge)
        ensures
            r@ == self@,
    {
        Edge {
            source: self.source.duplicate(),
            target: self.target.duplicate(),
        }
    }
}

// ---------------------------------------------------------------
// Conversions
// ---------------------------------------------------------------

impl From<usize> for Node {
    /// A fresh node with an integer identifier and no adjacency data.
    fn from(identifier: usize) -> (r: Node)
        ensures
            r@.identifier == IdV::Int(identifier),
            r@.edges.len() == 0,
    {
        Node { identifier: NodeIdentifier::Int(identifier), edges: Vec::new() }
    }
}

impl vstd::std_specs::convert::FromSpecImpl<usize> for Node {
    open spec fn obeys_from_spec() -> bool {
        false
    }

    open spec fn from_spec(v: usize) -> Node {
        vstd::pervasive::arbitrary()
    }
}

impl From<String> for Node {
    /// A fresh node with a text identifier and no adjacency data.
    fn from(identifier: String) -> (r: Node)
        ensures
            r@.identifier == IdV::Text(identifier@),
            r@.edges.len() == 0,
    {
        Node { identifier: NodeIdentifier::Text(identifier), edges: Vec::new() }
    }
}

impl vstd::std_specs::convert::FromSpecImpl<String> for Node {
    open spec fn obeys_from_spec() -> bool {
        false
    }

    open spec fn from_spec(v: String) -> Node {
        vstd::pervasive::arbitrary()
    }
}

impl<'a> From<&'a str> for Node {
    /// A fresh node with a text identifier and no adjacency data.
    fn from(identifier: &'a str) -> (r: Node)
        ensures
            r@.identifier == IdV::Text(identifier@),
            r@.edges.len() == 0,
    {
        Node {
            identifier: NodeIdentifier::Text(String::from_str(identifier)),
            edges: Vec::new(),
        }
    }
}

impl<'a> vstd::std_specs::convert::FromSpecImpl<&'a str> for Node {
    open spec fn obeys_from_spec() -> bool {
        false
    }

    open spec fn from_spec(v: &'a str) -> Node {
        vstd::pervasive::arbitrary()
    }
}

impl From<(Node, Node)> for Edge {
    /// The edge between the two nodes' identifiers, source first.
    fn from(tuple: (Node, Node)) -> (r: Edge)
        ensures
            r@.source == tuple.0@.identifier,
            r@.target == tuple.1@.identifier,
    {
        Edge {
            source: tuple.0.identifier.duplicate(),
            target: tuple.1.identifier.duplicate(),
        }
    }
}

impl vstd::std_specs::convert::FromSpecImpl<(Node, Node)> for Edge {
    open spec fn obeys_from_spec() -> bool {
        false
    }

    open spec fn from_spec(v: (Node, Node)) -> Edge {
        vstd::pervasive::arbitrary()
    }
}

// ---------------------------------------------------------------
// Construction
// ---------------------------------------------------------------

impl Default for Graph {
    /// An empty graph: no nodes, no edges, a 0-by-0 matrix.
    fn default() -> (g: Graph)
        ensures
            g@.matrix.len() == 0,
            g@.width == 0,
            g@.nodes.len() == 0,
            g@.edges.len() == 0,
            g.wf(),
    {
        Graph {
            adjacency_matrix: mat_zeros(0, 0),
            nodes: Vec::new(),
            edges: Vec::new(),
        }
    }
}

impl Graph {
    /// An empty graph: no nodes, no edges, a 0-by-0 matrix.
    pub fn new() -> (g: Graph)
        ensures
            g@.matrix.len() == 0,
            g@.width == 0,
            g@.nodes.len() == 0,
            g@.edges.len() == 0,
            g.wf(),
    {
        Graph::default()
    }
}

// ---------------------------------------------------------------
// Lemmas about the insertion effects
// ---------------------------------------------------------------

/// Replacing through `put_spec` when the identifier sits first at
/// index `i` is the same as updating index `i`.
proof fn lemma_put_spec_update(ns: Seq<NodeV>, n: NodeV, i: int)
    requires
        0 <= i < ns.len(),
        ns[i].identifier == n.identifier,
        forall|k: int| 0 <= k < i ==> ns[k].identifier != n.identifier,
    ensures
        put_spec(ns, n) == ns.update(i, n),
    decreases i,
{
    if i == 0 {
        assert(seq![n] + ns.drop_first() =~= ns.update(0, n));
    } else {
        let rest = ns.drop_first();
        assert(forall|k: int| 0 <= k < i - 1 ==> rest[k].identifier != n.identifier);
        lemma_put_spec_update(rest, n, i - 1);
        assert(seq![ns[0]] + rest.update(i - 1, n) =~= ns.update(i, n));
    }
}

/// Replacing through `put_spec` when the identifier is absent is the
/// same as appending.
proof fn lemma_put_spec_absent(ns: Seq<NodeV>, n: NodeV)
    requires
        forall|k: int| 0 <= k < ns.len() ==> ns[k].identifier != n.identifier,
    ensures
        put_spec(ns, n) == ns.push(n),
    decreases ns.len(),
{
    if ns.len() == 0 {
        assert(seq![n] =~= ns.push(n));
    } else {
        let rest = ns.drop_first();
        lemma_put_spec_absent(rest, n);
        assert(seq![ns[0]] + rest.push(n) =~= ns.push(n));
    }
}

/// Inserting a sequence and then one more is inserting the extended
/// sequence.
proof fn lemma_add_all_snoc(ns: Seq<NodeV>, ls: Seq<NodeLikeV>, x: NodeLikeV)
    ensures
        add_all_spec(ns, ls.push(x)) == add_like_spec(add_all_spec(ns, ls), x),
    decreases ls.len(),
{
    if ls.len() == 0 {
        assert(ls.push(x).drop_first() =~= Seq::<NodeLikeV>::empty());
        assert(ls.push(x)[0] == x);
        assert(add_all_spec(add_like_spec(ns, x), Seq::<NodeLikeV>::empty())
            == add_like_spec(ns, x));
        assert(add_all_spec(ns, ls) == ns);
    } else {
        assert(ls.push(x).drop_first() =~= ls.drop_first().push(x));
        assert(ls.push(x)[0] == ls[0]);
        lemma_add_all_snoc(add_like_spec(ns, ls[0]), ls.drop_first(), x);
    }
}

/// Ensuring a sequence of identifiers and then one more is ensuring
/// the extended sequence.
proof fn lemma_ensure_all_snoc(ns: Seq<NodeV>, ids: Seq<IdV>, x: IdV)
    ensures
        ensure_all_spec(ns, ids.push(x)) == ensure_spec(ensure_all_spec(ns, ids), x),
    decreases ids.len(),
{
    if ids.len() == 0 {
        assert(ids.push(x).drop_first() =~= Seq::<IdV>::empty());
        assert(ids.push(x)[0] == x);
        assert(ensure_all_spec(ensure_spec(ns, x), Seq::<IdV>::empty())
            == ensure_spec(ns, x));
        assert(ensure_all_spec(ns, ids) == ns);
    } else {
        assert(ids.push(x).drop_first() =~= ids.drop_first().push(x));
        assert(ids.push(x)[0] == ids[0]);
        lemma_ensure_all_snoc(ensure_spec(ns, ids[0]), ids.drop_first(), x);
    }
}

/// The endpoints of an extended edge list are the endpoints so far
/// followed by the new edge's endpoints.
proof fn lemma_endpoints_snoc(es: Seq<EdgeV>, e: EdgeV)
    ensures
        endpoints(es.push(e)) == endpoints(es) + seq![e.source, e.target],
    decreases es.len(),
{
    if es.len() == 0 {
        assert(es.push(e).drop_first() =~= Seq::<EdgeV>::empty());
        assert(es.push(e)[0] == e);
        assert(endpoints(Seq::<EdgeV>::empty()) == Seq::<IdV>::empty());
        assert(endpoints(es) == Seq::<IdV>::empty());
        assert(endpoints(es.push(e)) =~= endpoints(es) + seq![e.source, e.target]);
    } else {
        assert(es.push(e).drop_first() =~= es.drop_first().push(e));
        assert(es.push(e)[0] == es[0]);
        lemma_endpoints_snoc(es.drop_first(), e);
        assert(endpoints(es.push(e)) =~= endpoints(es) + seq![e.source, e.target]);
    }
}

// ---------------------------------------------------------------
// The mutation operations
// ---------------------------------------------------------------

impl Graph {
    /// The index of the first node stored under the identifier, if
    /// any.
    fn find_node(&self, identifier: &NodeIdentifier) -> (r: Option<usize>)
        ensures
            match r {
                Some(i) => i < self@.nodes.len() && self@.nodes[i as int].identifier
                    == identifier@ && forall|k: int|
                    0 <= k < i ==> self@.nodes[k].identifier != identifier@,
                None => !contains_id(self@.nodes, identifier@),
            },
    {
        let mut i: usize = 0;
        while i < self.nodes.len()
            invariant
                i <= self@.nodes.len(),
                forall|k: int| 0 <= k < i ==> self@.nodes[k].identifier != identifier@,
            decreases self@.nodes.len() - i,
        {
            if self.nodes[i].identifier.eq_id(identifier) {
                return Some(i);
            }
            i += 1;
        }
        None
    }

    /// The identifier-only insertion path: "ensure exists". Inserts a
    /// fresh node with empty adjacency data only if the identifier is
    /// absent; a present node, and its adjacency data, is left
    /// untouched. Idempotent under repeated calls.
    pub fn ensure_node(&mut self, identifier: NodeIdentifier)
        ensures
            final(self)@.nodes == ensure_spec(old(self)@.nodes, identifier@),
            final(self)@.matrix == old(self)@.matrix,
            final(self)@.width == old(self)@.width,
            final(self)@.edges == old(self)@.edges,
            old(self).wf() ==> final(self).wf(),
    {
        match self.find_node(&identifier) {
            Some(_) => {},
            None => {
                let fresh = Node { identifier, edges: Vec::new() };
                proof {
                    assert(fresh@.edges =~= Seq::<(IdV, EdgeIdV)>::empty());
                }
                self.nodes.push(fresh);
                proof {
                    assert(self@.nodes =~= ensure_spec(old(self)@.nodes, fresh@.identifier));
                }
            },
        }
    }

    /// The full-node insertion path: "set/replace". Inserts
    /// unconditionally, overwriting any node stored under the same
    /// identifier and discarding its prior adjacency data:
    /// last-write-wins.
    pub fn put_node(&mut self, node: Node)
        ensures
            final(self)@.nodes == put_spec(old(self)@.nodes, node@),
            final(self)@.matrix == old(self)@.matrix,
            final(self)@.width == old(self)@.width,
            final(self)@.edges == old(self)@.edges,
            old(self).wf() ==> final(self).wf(),
    {
        match self.find_node(&node.identifier) {
            Some(i) => {
                self.nodes.remove(i);
                self.nodes.insert(i, node);
                proof {
                    lemma_put_spec_update(old(self)@.nodes, node@, i as int);
                    assert(self@.nodes =~= old(self)@.nodes.update(i as int, node@));
                    if old(self).wf() {
                        assert(unique_ids(self@.nodes));
                    }
                }
            },
            None => {
                self.nodes.push(node);
                proof {
                    lemma_put_spec_absent(old(self)@.nodes, node@);
                    assert(self@.nodes =~= old(self)@.nodes.push(node@));
                }
            },
        }
    }

    /// Adds one node-like value: a bare identifier takes the
    /// identifier-only path, a full node the full-node path.
    pub fn add_node(&mut self, node: NodeLike)
        ensures
            final(self)@.nodes == add_like_spec(old(self)@.nodes, node@),
            final(self)@.matrix == old(self)@.matrix,
            final(self)@.width == old(self)@.width,
            final(self)@.edges == old(self)@.edges,
            old(self).wf() ==> final(self).wf(),
    {
        match node {
            NodeLike::IdentifierOnly(identifier) => self.ensure_node(identifier),
            NodeLike::FullNode(n) => self.put_node(n),
        }
    }

    /// Adds every element in order; later elements can overwrite the
    /// effects of earlier ones. Cannot fail.
    pub fn add_nodes_from(&mut self, nodes: Vec<NodeLike>)
        ensures
            final(self)@.nodes == add_all_spec(
                old(self)@.nodes,
                nodes@.map_values(|l: NodeLike| l@),
            ),
            final(self)@.matrix == old(self)@.matrix,
            final(self)@.width == old(self)@.width,
            final(self)@.edges == old(self)@.edges,
            old(self).wf() ==> final(self).wf(),
    {
        let ghost lv = nodes@.map_values(|l: NodeLike| l@);
        let mut i: usize = 0;
        while i < nodes.len()
            invariant
                i <= nodes@.len(),
                lv == nodes@.map_values(|l: NodeLike| l@),
                self@.nodes == add_all_spec(old(self)@.nodes, lv.take(i as int)),
                self@.matrix == old(self)@.matrix,
                self@.width == old(self)@.width,
                self@.edges == old(self)@.edges,
                old(self).wf() ==> self.wf(),
            decreases nodes@.len() - i,
        {
            self.add_node(nodes[i].duplicate());
            proof {
                lemma_add_all_snoc(old(self)@.nodes, lv.take(i as int), lv[i as int]);
                assert(lv.take(i as int).push(lv[i as int]) =~= lv.take(i as int + 1));
            }
            i += 1;
        }
        proof {
            assert(lv.take(nodes@.len() as int) =~= lv);
        }
    }

    /// Appends every edge to the edge list, then runs both endpoints
    /// of every edge through the identifier-only insertion path, so
    /// that every endpoint has a node entry. Cannot fail.
    pub fn add_edges_from(&mut self, edges: Vec<Edge>)
        ensures
            final(self)@.edges == old(self)@.edges + edges@.map_values(|e: Edge| e@),
            final(self)@.nodes == ensure_all_spec(
                old(self)@.nodes,
                endpoints(edges@.map_values(|e: Edge| e@)),
            ),
            final(self)@.matrix == old(self)@.matrix,
            final(self)@.width == old(self)@.width,
            old(self).wf() ==> final(self).wf(),
    {
        let ghost ev = edges@.map_values(|e: Edge| e@);
        let mut i: usize = 0;
        while i < edges.len()
            invariant
                i <= edges@.len(),
                ev == edges@.map_values(|e: Edge| e@),
                self@.edges == old(self)@.edges + ev.take(i as int),
                self@.nodes == old(self)@.nodes,
                self@.matrix == old(self)@.matrix,
                self@.width == old(self)@.width,
            decreases edges@.len() - i,
        {
            let ghost prev = self@.edges;
            let d = edges[i].duplicate();
            let ghost dv = d@;
            self.edges.push(d);
            proof {
                assert(self@.edges =~= prev.push(dv));
                assert(dv == ev[i as int]);
                assert(ev.take(i as int).push(ev[i as int]) =~= ev.take(i as int + 1));
                assert(prev.push(dv) =~= old(self)@.edges + ev.take(i as int + 1));
            }
            i += 1;
        }
        proof {
            assert(ev.take(edges@.len() as int) =~= ev);
        }
        let mut j: usize = 0;
        while j < edges.len()
            invariant
                j <= edges@.len(),
                ev == edges@.map_values(|e: Edge| e@),
                self@.nodes == ensure_all_spec(
                    old(self)@.nodes,
                    endpoints(ev.take(j as int)),
                ),
                self@.edges == old(self)@.edges + ev,
                self@.matrix == old(self)@.matrix,
                self@.width == old(self)@.width,
                old(self).wf() ==> self.wf(),
            decreases edges@.len() - j,
        {
            let ghost before = self@.nodes;
            self.ensure_node(edges[j].source.duplicate());
            self.ensure_node(edges[j].target.duplicate());
            proof {
                let e = ev[j as int];
                lemma_endpoints_snoc(ev.take(j as int), e);
                assert(ev.take(j as int).push(e) =~= ev.take(j as int + 1));
                let ids = endpoints(ev.take(j as int));
                lemma_ensure_all_snoc(old(self)@.nodes, ids, e.source);
                lemma_ensure_all_snoc(old(self)@.nodes, ids.push(e.source), e.target);
                assert(ids.push(e.source).push(e.target) =~= endpoints(
                    ev.take(j as int + 1),
                ));
            }
            j += 1;
        }
        proof {
            assert(ev.take(edges@.len() as int) =~= ev);
        }
    }
}

impl NodeLike {
    /// A copy with the same value.
    pub fn duplicate(&self) -> (r: NodeLike)
        ensures
            r@ == self@,
    {
        match self {
            NodeLike::IdentifierOnly(id) => NodeLike::IdentifierOnly(id.duplicate()),
            NodeLike::FullNode(n) => NodeLike::FullNode(n.duplicate()),
        }
    }
}

// ---------------------------------------------------------------
// Laws of the insertion contract
// ---------------------------------------------------------------

/// The first node stored under the identifier, if any.
pub open spec fn lookup_spec(ns: Seq<NodeV>, id: IdV) -> Option<NodeV>
    decreases ns.len(),
{
    if ns.len() == 0 {
        None
    } else if ns[0].identifier == id {
        Some(ns[0])
    } else {
        lookup_spec(ns.drop_first(), id)
    }
}

/// Idempotence of the identifier-only path: ensuring an identifier a
/// second time changes nothing, so the node count stays the same.
pub proof fn lemma_ensure_idempotent(ns: Seq<NodeV>, id: IdV)
    ensures
        ensure_spec(ensure_spec(ns, id), id) == ensure_spec(ns, id),
{
    if !contains_id(ns, id) {
        let ns1 = ns.push(NodeV { identifier: id, edges: Seq::empty() });
        assert(ns1[ns.len() as int].identifier == id);
        assert(contains_id(ns1, id));
    }
}

/// Last-write-wins of the full-node path: after inserting a node,
/// the table holds exactly that node, with exactly its adjacency
/// data, under its identifier; the count grows only if the
/// identifier was absent.
pub proof fn lemma_put_overwrites(ns: Seq<NodeV>, n: NodeV)
    ensures
        lookup_spec(put_spec(ns, n), n.identifier) == Some(n),
        put_spec(ns, n).len() == if contains_id(ns, n.identifier) {
            ns.len()
        } else {
            ns.len() + 1
        },
    decreases ns.len(),
{
    if ns.len() == 0 {
    } else if ns[0].identifier == n.identifier {
        let put = seq![n] + ns.drop_first();
        assert(put[0] == n);
        assert(put.drop_first() =~= ns.drop_first());
    } else {
        let rest = ns.drop_first();
        lemma_put_overwrites(rest, n);
        let put = seq![ns[0]] + put_spec(rest, n);
        assert(put[0] == ns[0]);
        assert(put.drop_first() =~= put_spec(rest, n));
        assert(contains_id(ns, n.identifier) == contains_id(rest, n.identifier)) by {
            if contains_id(ns, n.identifier) {
                let i = choose|i: int|
                    0 <= i < ns.len() && ns[i].identifier == n.identifier;
                assert(rest[i - 1].identifier == n.identifier);
            }
            if contains_id(rest, n.identifier) {
                let i = choose|i: int|
                    0 <= i < rest.len() && rest[i].identifier == n.identifier;
                assert(ns[i + 1].identifier == n.identifier);
            }
        }
    }
}

} // verus!
