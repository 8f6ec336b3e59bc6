//! The pool graph of the route ranking: token mints are nodes, each pool an
//! edge in both directions. Pools are filtered and capped per token pair
//! before they enter the graph, and candidate routes are read off the
//! graph's simple paths, one route per combination of pools.

use vstd::prelude::*;
use petgraph::algo::all_simple_paths;
use petgraph::graph::{Graph, NodeIndex};
use petgraph::visit::EdgeRef;
use petgraph::Directed;
use std::hash::RandomState;
use crate::pool::{DexProtocol, Pool, PoolId, PoolStatus, PoolType, PubkeyBytes, bytes_lt};
use crate::quote_service::RouteStep;

verus! {

/// A pool as a graph edge, with what route scoring needs. The TVL is the
/// pool's, an IEEE-754 `f64` kept as its bit pattern.
#[derive(Debug, Clone, Copy)]
pub struct GraphEdge {
    pub pool_id: PoolId,
    pub pool_pubkey: PubkeyBytes,
    pub protocol: DexProtocol,
    pub pool_type: PoolType,
    pub tvl_bits: Option<u64>,
    pub fee_rate: u32,
}

impl GraphEdge {
    /// The edge of `pool`.
    pub fn from_pool(pool: &Pool) -> (r: Self)
        ensures
            r == edge_of(*pool),
    {
        GraphEdge {
            pool_id: pool.metadata.id,
            pool_pubkey: pool.metadata.pubkey,
            protocol: pool.metadata.protocol,
            pool_type: pool.metadata.pool_type,
            tvl_bits: pool.tvl_bits,
            fee_rate: pool.fee_rate,
        }
    }
}

/// The edge of `pool`.
pub open spec fn edge_of(pool: Pool) -> GraphEdge {
    GraphEdge {
        pool_id: pool.metadata.id,
        pool_pubkey: pool.metadata.pubkey,
        protocol: pool.metadata.protocol,
        pool_type: pool.metadata.pool_type,
        tvl_bits: pool.tvl_bits,
        fee_rate: pool.fee_rate,
    }
}

/// The node weights of a pool graph, by node index.
pub uninterp spec fn builder_nodes(g: Graph<PubkeyBytes, GraphEdge, Directed, u32>) -> Seq<PubkeyBytes>;

/// The edges of a pool graph, by edge index: source node, target node, weight.
pub uninterp spec fn builder_edges(g: Graph<PubkeyBytes, GraphEdge, Directed, u32>) -> Seq<(usize, usize, GraphEdge)>;

/// The node paths that `petgraph::algo::all_simple_paths` yields, in order,
/// on a graph with `node_count` nodes and the edges `edges`, from `from` to
/// `to` with exactly `intermediate` nodes in between.
pub uninterp spec fn simple_node_paths(
    edges: Seq<(usize, usize, GraphEdge)>,
    node_count: nat,
    from: usize,
    to: usize,
    intermediate: usize,
) -> Seq<Seq<usize>>;

/// Calls `Graph::new`: a graph without nodes or edges.
#[verifier::external_body]
fn builder_graph_new() -> (g: Graph<PubkeyBytes, GraphEdge, Directed, u32>)
    ensures
        builder_nodes(g) == Seq::<PubkeyBytes>::empty(),
        builder_edges(g) == Seq::<(usize, usize, GraphEdge)>::empty(),
{
    Graph::new()
}

/// Calls `Graph::add_node`: appends a node and returns its index. It panics
/// once the `u32` index space is exhausted, which `requires` rules out.
#[verifier::external_body]
fn builder_add_node(g: &mut Graph<PubkeyBytes, GraphEdge, Directed, u32>, weight: PubkeyBytes) -> (r: usize)
    requires
        builder_nodes(*old(g)).len() < u32::MAX,
    ensures
        r == builder_nodes(*old(g)).len(),
        builder_nodes(*final(g)) == builder_nodes(*old(g)).push(weight),
        builder_edges(*final(g)) == builder_edges(*old(g)),
{
    g.add_node(weight).index()
}

/// Calls `Graph::add_edge`: appends a directed edge. It panics when an
/// endpoint does not exist or the `u32` index space is exhausted, which
/// `requires` rules out.
#[verifier::external_body]
fn builder_add_edge(g: &mut Graph<PubkeyBytes, GraphEdge, Directed, u32>, a: usize, b: usize, weight: GraphEdge)
    requires
        a < builder_nodes(*old(g)).len(),
        b < builder_nodes(*old(g)).len(),
        builder_edges(*old(g)).len() < u32::MAX,
    ensures
        builder_nodes(*final(g)) == builder_nodes(*old(g)),
        builder_edges(*final(g)) == builder_edges(*old(g)).push((a, b, weight)),
{
    g.add_edge(NodeIndex::new(a), NodeIndex::new(b), weight);
}

/// Reads the weight of node `i` by indexing the graph.
#[verifier::external_body]
fn builder_node_at(g: &Graph<PubkeyBytes, GraphEdge, Directed, u32>, i: usize) -> (r: PubkeyBytes)
    requires
        i < builder_nodes(*g).len(),
    ensures
        r == builder_nodes(*g)[i as int],
{
    g[NodeIndex::new(i)]
}

/// Reads edge `i` through `Graph::raw_edges`: source, target and weight.
#[verifier::external_body]
fn builder_edge_at(g: &Graph<PubkeyBytes, GraphEdge, Directed, u32>, i: usize) -> (r: (usize, usize, GraphEdge))
    requires
        i < builder_edges(*g).len(),
    ensures
        r == builder_edges(*g)[i as int],
{
    let e = &g.raw_edges()[i];
    (e.source().index(), e.target().index(), e.weight)
}

/// Calls `Graph::node_count`.
#[verifier::external_body]
fn builder_node_count(g: &Graph<PubkeyBytes, GraphEdge, Directed, u32>) -> (r: usize)
    ensures
        r == builder_nodes(*g).len(),
{
    g.node_count()
}

/// Calls `Graph::edge_count`.
#[verifier::external_body]
fn builder_edge_count(g: &Graph<PubkeyBytes, GraphEdge, Directed, u32>) -> (r: usize)
    ensures
        r == builder_edges(*g).len(),
{
    g.edge_count()
}

/// Indices of the edges leaving `n` among the first `k` edges, most recently added first.
pub open spec fn edges_leaving(edges: Seq<(usize, usize, GraphEdge)>, n: usize, k: nat) -> Seq<int>
    decreases k,
{
    if k == 0 || k > edges.len() {
        Seq::empty()
    } else if edges[k - 1].0 == n {
        seq![k - 1] + edges_leaving(edges, n, (k - 1) as nat)
    } else {
        edges_leaving(edges, n, (k - 1) as nat)
    }
}

/// Calls `Graph::edges`: the indices of the edges leaving node `n`, which
/// petgraph lists most recently added first.
#[verifier::external_body]
fn builder_outgoing(g: &Graph<PubkeyBytes, GraphEdge, Directed, u32>, n: usize) -> (r: Vec<usize>)
    requires
        n < builder_nodes(*g).len(),
    ensures
        r@.len() == edges_leaving(builder_edges(*g), n, builder_edges(*g).len()).len(),
        forall|j: int| 0 <= j < r@.len() ==>
            #[trigger] r@[j] == edges_leaving(builder_edges(*g), n, builder_edges(*g).len())[j],
{
    g.edges(NodeIndex::new(n)).map(|e| e.id().index()).collect()
}

/// Whether `p` is a simple path of `hops` edges from `from` to `to` in a
/// graph with `node_count` nodes and the edges `edges`.
pub open spec fn is_simple_node_path(
    edges: Seq<(usize, usize, GraphEdge)>,
    node_count: nat,
    from: usize,
    to: usize,
    hops: nat,
    p: Seq<usize>,
) -> bool {
    &&& p.len() == hops + 1
    &&& p[0] == from
    &&& p.last() == to
    &&& p.no_duplicates()
    &&& forall|i: int| 0 <= i < p.len() ==> #[trigger] p[i] < node_count
    &&& forall|i: int| 0 <= i < hops ==> joined(edges, #[trigger] p[i], p[i + 1])
}

/// Whether an edge leads from `a` to `b`.
pub open spec fn joined(edges: Seq<(usize, usize, GraphEdge)>, a: usize, b: usize) -> bool {
    exists|e: int| 0 <= e < edges.len() && #[trigger] edges[e].0 == a && edges[e].1 == b
}

/// Calls `petgraph::algo::all_simple_paths` with exactly `intermediate`
/// nodes between `from` and `to`: its paths, in order, are named
/// `simple_node_paths`. As its documentation says, each is a simple path
/// (no node twice) from `from` to `to` along the graph's edges, here of
/// `intermediate + 1` edges, and every such path is among them. How many
/// times a path comes when parallel edges join its nodes is not stated.
#[verifier::external_body]
fn builder_simple_paths(
    g: &Graph<PubkeyBytes, GraphEdge, Directed, u32>,
    from: usize,
    to: usize,
    intermediate: usize,
) -> (r: Vec<Vec<usize>>)
    requires
        from < builder_nodes(*g).len(),
        to < builder_nodes(*g).len(),
        intermediate < 4,
    ensures
        r@.len() == simple_node_paths(builder_edges(*g), builder_nodes(*g).len(), from, to, intermediate).len(),
        forall|i: int| 0 <= i < r@.len() ==> #[trigger] r@[i]@
            == simple_node_paths(builder_edges(*g), builder_nodes(*g).len(), from, to, intermediate)[i],
        forall|i: int| 0 <= i < r@.len() ==> is_simple_node_path(builder_edges(*g), builder_nodes(*g).len(),
            from, to, (intermediate + 1) as nat, #[trigger] r@[i]@),
        forall|p: Seq<usize>| #[trigger] is_simple_node_path(builder_edges(*g), builder_nodes(*g).len(), from, to,
            (intermediate + 1) as nat, p) ==> exists|i: int| 0 <= i < r@.len() && #[trigger] r@[i]@ == p,
{
    all_simple_paths::<Vec<NodeIndex>, _, RandomState>(
        g,
        NodeIndex::new(from),
        NodeIndex::new(to),
        intermediate,
        Some(intermediate),
    )
    .map(|path| path.into_iter().map(|n| n.index()).collect())
    .collect()
}

/// The (source, target, pool id) keys of `edges`.
pub open spec fn edge_keys(edges: Seq<(usize, usize, GraphEdge)>) -> Seq<(usize, usize, PoolId)> {
    edges.map_values(|e: (usize, usize, GraphEdge)| (e.0, e.1, e.2.pool_id))
}

/// A directed multigraph of tokens and pools.
pub struct GraphBuilder {
    pub graph: Graph<PubkeyBytes, GraphEdge, Directed, u32>,
    /// Node index of each token mint.
    pub mint_to_node: Vec<(PubkeyBytes, usize)>,
    /// (source, target, pool id) of every edge, so that none is added twice.
    inserted_edges: Vec<(usize, usize, PoolId)>,
    /// How many pools of each token pair (sorted mints) are in the graph.
    pair_counts: Vec<(PubkeyBytes, PubkeyBytes, usize)>,
    /// `pair_counts` as a map.
    counts: Ghost<Map<(PubkeyBytes, PubkeyBytes), nat>>,
}

impl GraphBuilder {
    pub closed spec fn nodes(&self) -> Seq<PubkeyBytes> {
        builder_nodes(self.graph)
    }

    pub closed spec fn edges(&self) -> Seq<(usize, usize, GraphEdge)> {
        builder_edges(self.graph)
    }

    /// How many pools of each token pair are in the graph.
    pub closed spec fn pair_counts(&self) -> Map<(PubkeyBytes, PubkeyBytes), nat> {
        self.counts@
    }

    /// The recorded (first mint, second mint, pool count) of each token pair.
    pub closed spec fn pair_count_entries(&self) -> Seq<(PubkeyBytes, PubkeyBytes, usize)> {
        self.pair_counts@
    }

    /// The graph is well formed (`wf_core`), its pair counts are recorded,
    /// no pair counts more than `TOP_N_PER_PAIR` pools, and no two nodes are
    /// joined one way by more edges than their pair counts.
    pub closed spec fn wf(&self) -> bool {
        &&& self.wf_core()
        &&& counts_match(self.pair_counts@, self.counts@)
        &&& caps_hold(self.nodes(), self.edges(), self.counts@)
    }

    /// One node per distinct mint, recorded under its index; edges between
    /// existing nodes, their keys all recorded.
    closed spec fn wf_core(&self) -> bool {
        &&& self.mint_to_node@.len() == self.nodes().len()
        &&& forall|j: int| 0 <= j < self.mint_to_node@.len() ==>
            (#[trigger] self.mint_to_node@[j]).0 == self.nodes()[j] && self.mint_to_node@[j].1 == j
        &&& self.nodes().no_duplicates()
        &&& forall|e: int| 0 <= e < self.edges().len() ==>
            (#[trigger] self.edges()[e]).0 < self.nodes().len() && self.edges()[e].1 < self.nodes().len()
        &&& self.inserted_edges@ == edge_keys(self.edges())
        &&& edge_keys(self.edges()).no_duplicates()
    }

    /// An empty graph.
    pub fn new() -> (r: Self)
        ensures
            r.wf(),
            r.nodes() == Seq::<PubkeyBytes>::empty(),
            r.edges() == Seq::<(usize, usize, GraphEdge)>::empty(),
            r.pair_counts() == Map::<(PubkeyBytes, PubkeyBytes), nat>::empty(),
    {
        let r = GraphBuilder {
            graph: builder_graph_new(),
            mint_to_node: Vec::new(),
            inserted_edges: Vec::new(),
            pair_counts: Vec::new(),
            counts: Ghost(Map::empty()),
        };
        proof {
            assert(edge_keys(r.edges()) =~= Seq::<(usize, usize, PoolId)>::empty());
            reveal(caps_hold);
            assert forall|x: usize, y: usize| x < r.nodes().len() && y < r.nodes().len() && x != y implies
                #[trigger] count_edges(r.edges(), x, y) <= count_of(r.counts@, pair_key(r.nodes()[x as int], r.nodes()[y as int])) by {
            }
        }
        r
    }

    /// The node of `mint`, if it has one.
    pub fn node_of(&self, mint: &PubkeyBytes) -> (r: Option<usize>)
        requires
            self.wf(),
        ensures
            r is Some <==> self.nodes().contains(*mint),
            r matches Some(i) ==> i < self.nodes().len() && self.nodes()[i as int] == *mint,
    {
        let mut j: usize = 0;
        while j < self.mint_to_node.len()
            invariant
                self.wf(),
                j <= self.mint_to_node@.len(),
                forall|i: int| 0 <= i < j ==> self.nodes()[i] != *mint,
            decreases self.mint_to_node@.len() - j,
        {
            if self.mint_to_node[j].0 == *mint {
                proof {
                    assert(self.mint_to_node@[j as int].0 == self.nodes()[j as int]);
                    assert(self.mint_to_node@[j as int].0.0 =~= mint.0);
                    assert(self.nodes().contains(*mint));
                }
                return Some(self.mint_to_node[j].1);
            }
            proof {
                assert(self.mint_to_node@[j as int].0 == self.nodes()[j as int]);
            }
            j = j + 1;
        }
        proof {
            if self.nodes().contains(*mint) {
                let i = choose|i: int| 0 <= i < self.nodes().len() && self.nodes()[i] == *mint;
                assert(self.nodes()[i] != *mint);
            }
        }
        None
    }

    /// The node of `mint`, added if it has none.
    pub fn get_or_add_node(&mut self, mint: PubkeyBytes) -> (r: usize)
        requires
            old(self).wf(),
            old(self).nodes().len() < u32::MAX,
        ensures
            final(self).wf(),
            final(self).edges() == old(self).edges(),
            final(self).pair_counts() == old(self).pair_counts(),
            final(self).pair_count_entries() == old(self).pair_count_entries(),
            final(self).nodes() == if old(self).nodes().contains(mint) {
                old(self).nodes()
            } else {
                old(self).nodes().push(mint)
            },
            r < final(self).nodes().len(),
            final(self).nodes()[r as int] == mint,
    {
        match self.node_of(&mint) {
            Some(i) => i,
            None => {
                let ghost old_nodes = self.nodes();
                let ghost old_map = self.mint_to_node@;
                let i = builder_add_node(&mut self.graph, mint);
                self.mint_to_node.push((mint, i));
                proof {
                    lemma_caps_add_node(old_nodes, self.edges(), self.counts@, mint);
                    assert forall|j: int| 0 <= j < self.mint_to_node@.len() implies
                        (#[trigger] self.mint_to_node@[j]).0 == self.nodes()[j] && self.mint_to_node@[j].1 == j by {
                        if j < old_map.len() {
                            assert(self.mint_to_node@[j] == old_map[j]);
                        }
                    }
                    assert(self.nodes().no_duplicates()) by {
                        assert forall|a: int, b: int| 0 <= a < self.nodes().len() && 0 <= b < self.nodes().len()
                            && a != b implies self.nodes()[a] != self.nodes()[b] by {
                            if a < old_nodes.len() && b < old_nodes.len() {
                            } else if a < old_nodes.len() {
                                assert(old_nodes.contains(old_nodes[a]));
                            } else {
                                assert(old_nodes.contains(old_nodes[b]));
                            }
                        }
                    }
                }
                i
            },
        }
    }

    /// The number of token nodes.
    pub fn token_count(&self) -> (r: usize)
        ensures
            r == self.nodes().len(),
    {
        builder_node_count(&self.graph)
    }

    /// The number of directed edges.
    pub fn edge_count(&self) -> (r: usize)
        ensures
            r == self.edges().len(),
    {
        builder_edge_count(&self.graph)
    }

    /// The weight of the first edge of pool `pool_id`, if any.
    pub fn get_pool_edge(&self, pool_id: PoolId) -> (r: Option<GraphEdge>)
        ensures
            match r {
                Some(w) => exists|e: int| 0 <= e < self.edges().len() && self.edges()[e].2 == w
                    && w.pool_id == pool_id
                    && forall|f: int| 0 <= f < e ==> (#[trigger] self.edges()[f]).2.pool_id != pool_id,
                None => forall|e: int| 0 <= e < self.edges().len() ==> (#[trigger] self.edges()[e]).2.pool_id != pool_id,
            },
    {
        let n = builder_edge_count(&self.graph);
        let mut e: usize = 0;
        while e < n
            invariant
                n == self.edges().len(),
                e <= n,
                forall|f: int| 0 <= f < e ==> (#[trigger] self.edges()[f]).2.pool_id != pool_id,
            decreases n - e,
        {
            let (_, _, w) = builder_edge_at(&self.graph, e);
            if w.pool_id == pool_id {
                return Some(w);
            }
            e = e + 1;
        }
        None
    }
}


/// The most pools of one token pair that enter the graph.
pub const TOP_N_PER_PAIR: usize = 5;

/// Whether `k` is the all-zero key of an unset mint.
pub open spec fn is_zero_key(k: PubkeyBytes) -> bool {
    forall|i: int| 0 <= i < 32 ==> #[trigger] k.0@[i] == 0u8
}

/// Whether `pool` may enter the graph: active, with both mints set and different.
pub open spec fn graph_eligible(pool: Pool) -> bool {
    &&& pool.metadata.status == PoolStatus::Active
    &&& !is_zero_key(pool.metadata.token_a.mint)
    &&& !is_zero_key(pool.metadata.token_b.mint)
    &&& pool.metadata.token_a.mint != pool.metadata.token_b.mint
}

/// The pair key of two mints: the one sorting first, then the other.
pub open spec fn pair_key(a: PubkeyBytes, b: PubkeyBytes) -> (PubkeyBytes, PubkeyBytes) {
    if bytes_lt(a.bytes(), b.bytes(), 0) { (a, b) } else { (b, a) }
}

/// `nodes` with `m` appended when it is not there.
pub open spec fn add_key(nodes: Seq<PubkeyBytes>, m: PubkeyBytes) -> Seq<PubkeyBytes> {
    if nodes.contains(m) { nodes } else { nodes.push(m) }
}

/// `edges` with the edge `(a, b, w)` appended when no edge from `a` to `b`
/// of the same pool is there.
pub open spec fn add_edge_once(edges: Seq<(usize, usize, GraphEdge)>, a: usize, b: usize, w: GraphEdge)
    -> Seq<(usize, usize, GraphEdge)> {
    if edge_keys(edges).contains((a, b, w.pool_id)) { edges } else { edges.push((a, b, w)) }
}

/// How many pools of pair `k` are in the graph, by `counts`.
pub open spec fn count_of(counts: Map<(PubkeyBytes, PubkeyBytes), nat>, k: (PubkeyBytes, PubkeyBytes)) -> nat {
    if counts.dom().contains(k) { counts[k] } else { 0 }
}

/// What adding `pool` does to the nodes, edges and per-pair pool counts: an
/// eligible pool whose pair has fewer than `TOP_N_PER_PAIR` pools gets its
/// mints' nodes and an edge each way (each only if not there); the pair's
/// count grows when an edge was added.
pub open spec fn insert_step(
    nodes: Seq<PubkeyBytes>,
    edges: Seq<(usize, usize, GraphEdge)>,
    counts: Map<(PubkeyBytes, PubkeyBytes), nat>,
    pool: Pool,
) -> (Seq<PubkeyBytes>, Seq<(usize, usize, GraphEdge)>, Map<(PubkeyBytes, PubkeyBytes), nat>) {
    let a = pool.metadata.token_a.mint;
    let b = pool.metadata.token_b.mint;
    let key = pair_key(a, b);
    if !graph_eligible(pool) || count_of(counts, key) >= TOP_N_PER_PAIR {
        (nodes, edges, counts)
    } else {
        let n1 = add_key(add_key(nodes, a), b);
        let na = n1.index_of(a) as usize;
        let nb = n1.index_of(b) as usize;
        let e1 = add_edge_once(edges, na, nb, edge_of(pool));
        let e2 = add_edge_once(e1, nb, na, edge_of(pool));
        let c = if e2.len() > edges.len() { counts.insert(key, count_of(counts, key) + 1) } else { counts };
        (n1, e2, c)
    }
}

/// The nodes, edges and per-pair counts after adding the pools
/// `pools[ranked[0]]`, `pools[ranked[1]]`, ... in turn to a graph with
/// nodes `nodes`, edges `edges` and per-pair pool counts `counts`.
pub open spec fn insert_all(
    nodes: Seq<PubkeyBytes>,
    edges: Seq<(usize, usize, GraphEdge)>,
    counts: Map<(PubkeyBytes, PubkeyBytes), nat>,
    pools: Seq<Pool>,
    ranked: Seq<usize>,
) -> (Seq<PubkeyBytes>, Seq<(usize, usize, GraphEdge)>, Map<(PubkeyBytes, PubkeyBytes), nat>)
    decreases ranked.len(),
{
    if ranked.len() == 0 {
        (nodes, edges, counts)
    } else {
        let prev = insert_all(nodes, edges, counts, pools, ranked.drop_last());
        insert_step(prev.0, prev.1, prev.2, pools[ranked.last() as int])
    }
}

/// In a sequence without duplicates, the index of an element is where it is.
proof fn lemma_index_of_unique(s: Seq<PubkeyBytes>, m: PubkeyBytes, r: int)
    requires
        s.no_duplicates(),
        0 <= r < s.len(),
        s[r] == m,
    ensures
        s.index_of(m) == r,
{
    assert(s.contains(m));
    let i = s.index_of(m);
    assert(0 <= i < s.len() && s[i] == m);
}

/// Whether the pair counts `v` (distinct pairs) hold the counts `m`.
spec fn counts_match(v: Seq<(PubkeyBytes, PubkeyBytes, usize)>, m: Map<(PubkeyBytes, PubkeyBytes), nat>) -> bool {
    &&& forall|i: int, j: int| 0 <= i < j < v.len() ==> (v[i].0, v[i].1) != (v[j].0, v[j].1)
    &&& forall|j: int| 0 <= j < v.len() ==> #[trigger] m.dom().contains((v[j].0, v[j].1))
        && m[(v[j].0, v[j].1)] == v[j].2 && v[j].2 <= TOP_N_PER_PAIR
    &&& forall|k: (PubkeyBytes, PubkeyBytes)| #[trigger] m.dom().contains(k) ==>
        exists|j: int| 0 <= j < v.len() && (v[j].0, v[j].1) == k
}

/// Whether two keys are the same key (byte-wise equality).
fn same_key(a: &PubkeyBytes, b: &PubkeyBytes) -> (r: bool)
    ensures
        r == (*a == *b),
{
    let r = *a == *b;
    proof {
        if r {
            assert(a.0 =~= b.0);
        }
    }
    r
}

impl GraphBuilder {
    /// Whether an edge from `a` to `b` of pool `id` is in the graph.
    fn has_edge_key(&self, a: usize, b: usize, id: PoolId) -> (r: bool)
        requires
            self.wf_core(),
        ensures
            r == edge_keys(self.edges()).contains((a, b, id)),
    {
        let mut j: usize = 0;
        while j < self.inserted_edges.len()
            invariant
                self.wf_core(),
                j <= self.inserted_edges@.len(),
                forall|i: int| 0 <= i < j ==> self.inserted_edges@[i] != (a, b, id),
            decreases self.inserted_edges@.len() - j,
        {
            let (x, y, z) = self.inserted_edges[j];
            if x == a && y == b && z == id {
                proof {
                    assert(edge_keys(self.edges())[j as int] == (a, b, id));
                }
                return true;
            }
            j = j + 1;
        }
        proof {
            if edge_keys(self.edges()).contains((a, b, id)) {
                let i = choose|i: int| 0 <= i < edge_keys(self.edges()).len() && edge_keys(self.edges())[i] == (a, b, id);
                assert(self.inserted_edges@[i] == (a, b, id));
            }
        }
        false
    }

    /// Adds the edge `(a, b, w)` unless an edge from `a` to `b` of the same
    /// pool is there; whether it was added.
    fn add_edge_once(&mut self, a: usize, b: usize, w: GraphEdge) -> (r: bool)
        requires
            old(self).wf_core(),
            a < old(self).nodes().len(),
            b < old(self).nodes().len(),
            old(self).edges().len() < u32::MAX,
        ensures
            final(self).wf_core(),
            final(self).pair_counts@ == old(self).pair_counts@,
            final(self).counts == old(self).counts,
            final(self).nodes() == old(self).nodes(),
            final(self).edges() == add_edge_once(old(self).edges(), a, b, w),
            r == (final(self).edges().len() > old(self).edges().len()),
    {
        if self.has_edge_key(a, b, w.pool_id) {
            return false;
        }
        let ghost old_edges = self.edges();
        builder_add_edge(&mut self.graph, a, b, w);
        self.inserted_edges.push((a, b, w.pool_id));
        proof {
            assert(edge_keys(self.edges()) =~= edge_keys(old_edges).push((a, b, w.pool_id)));
            assert(edge_keys(self.edges()).no_duplicates()) by {
                let k = edge_keys(self.edges());
                let k0 = edge_keys(old_edges);
                assert forall|x: int, y: int| 0 <= x < k.len() && 0 <= y < k.len() && x != y implies k[x] != k[y] by {
                    if x < k0.len() && y < k0.len() {
                        assert(k[x] == k0[x] && k[y] == k0[y]);
                    } else if x < k0.len() {
                        assert(k[x] == k0[x]);
                        assert(k0.contains(k0[x]));
                    } else {
                        assert(k[y] == k0[y]);
                        assert(k0.contains(k0[y]));
                    }
                }
            }
            assert forall|e: int| 0 <= e < self.edges().len() implies
                (#[trigger] self.edges()[e]).0 < self.nodes().len() && self.edges()[e].1 < self.nodes().len() by {
                if e < old_edges.len() {
                    assert(self.edges()[e] == old_edges[e]);
                }
            }
        }
        true
    }

    /// Adds the pools `pools[ranked[0]]`, `pools[ranked[1]]`, ... in turn
    /// (the caller ranks them by TVL, highest first, after dropping those
    /// under its TVL floor): an inactive pool, one with an unset mint or
    /// the same mint on both sides is skipped, as is one whose token pair
    /// already has `TOP_N_PER_PAIR` pools in the graph; the others get
    /// their mints' nodes and an edge each way, an edge that is already
    /// there not added twice (see `insert_all`).
    pub fn insert_ranked_pools(&mut self, pools: &[Pool], ranked: &[usize])
        requires
            old(self).wf(),
            forall|i: int| 0 <= i < ranked@.len() ==> #[trigger] ranked@[i] < pools@.len(),
            old(self).nodes().len() + 2 * ranked@.len() < u32::MAX,
            old(self).edges().len() + 2 * ranked@.len() < u32::MAX,
        ensures
            final(self).wf(),
            final(self).nodes()
                == insert_all(old(self).nodes(), old(self).edges(), old(self).pair_counts(), pools@, ranked@).0,
            final(self).edges()
                == insert_all(old(self).nodes(), old(self).edges(), old(self).pair_counts(), pools@, ranked@).1,
            final(self).pair_counts()
                == insert_all(old(self).nodes(), old(self).edges(), old(self).pair_counts(), pools@, ranked@).2,
            final(self).nodes().len() <= old(self).nodes().len() + 2 * ranked@.len(),
            final(self).edges().len() <= old(self).edges().len() + 2 * ranked@.len(),
    {
        let ghost nodes0 = self.nodes();
        let ghost edges0 = self.edges();
        let ghost counts0 = self.counts@;
        let mut i: usize = 0;
        proof {
            assert(ranked@.take(0) =~= Seq::<usize>::empty());
        }
        while i < ranked.len()
            invariant
                self.wf(),
                i <= ranked@.len(),
                forall|j: int| 0 <= j < ranked@.len() ==> #[trigger] ranked@[j] < pools@.len(),
                nodes0.len() + 2 * ranked@.len() < u32::MAX,
                edges0.len() + 2 * ranked@.len() < u32::MAX,
                self.nodes().len() <= nodes0.len() + 2 * i,
                self.edges().len() <= edges0.len() + 2 * i,
                self.nodes() == insert_all(nodes0, edges0, counts0, pools@, ranked@.take(i as int)).0,
                self.edges() == insert_all(nodes0, edges0, counts0, pools@, ranked@.take(i as int)).1,
                self.counts@ == insert_all(nodes0, edges0, counts0, pools@, ranked@.take(i as int)).2,
            decreases ranked@.len() - i,
        {
            let ghost prev = insert_all(nodes0, edges0, counts0, pools@, ranked@.take(i as int));
            proof {
                assert(ranked@.take(i + 1).drop_last() =~= ranked@.take(i as int));
                assert(ranked@.take(i + 1).last() == ranked@[i as int]);
                reveal(caps_hold);
                lemma_step_ok(prev, pools@[ranked@[i as int] as int]);
            }
            let pool = &pools[ranked[i]];
            let a = pool.metadata.token_a.mint;
            let b = pool.metadata.token_b.mint;
            let zero = PubkeyBytes([0u8; 32]);
            let eligible = match pool.metadata.status {
                PoolStatus::Active => true,
                _ => false,
            } && !same_key(&a, &zero) && !same_key(&b, &zero) && !same_key(&a, &b);
            proof {
                assert(is_zero_key(a) <==> a == zero) by {
                    if is_zero_key(a) {
                        assert(a.0 =~= zero.0);
                    }
                }
                assert(is_zero_key(b) <==> b == zero) by {
                    if is_zero_key(b) {
                        assert(b.0 =~= zero.0);
                    }
                }
                assert(eligible == graph_eligible(*pool));
            }
            if eligible {
                let key_a_first = a.is_less_than(&b);
                let (k0, k1) = if key_a_first { (a, b) } else { (b, a) };
                proof {
                    assert((k0, k1) == pair_key(a, b));
                }
                // Look the pair up.
                let mut slot: usize = 0;
                let mut found = false;
                while slot < self.pair_counts.len()
                    invariant_except_break
                        !found,
                    invariant
                        slot <= self.pair_counts@.len(),
                        forall|j: int| 0 <= j < slot ==> (self.pair_counts@[j].0, self.pair_counts@[j].1) != (k0, k1),
                    ensures
                        found ==> slot < self.pair_counts@.len()
                            && (self.pair_counts@[slot as int].0, self.pair_counts@[slot as int].1) == (k0, k1),
                        !found ==> slot == self.pair_counts@.len()
                            && forall|j: int| 0 <= j < self.pair_counts@.len() ==>
                                (self.pair_counts@[j].0, self.pair_counts@[j].1) != (k0, k1),
                    decreases self.pair_counts@.len() - slot,
                {
                    if same_key(&self.pair_counts[slot].0, &k0) && same_key(&self.pair_counts[slot].1, &k1) {
                        found = true;
                        break;
                    }
                    slot = slot + 1;
                }
                let count: usize = if found { self.pair_counts[slot].2 } else { 0 };
                proof {
                    if !found {
                        if prev.2.dom().contains((k0, k1)) {
                            let j = choose|j: int| 0 <= j < self.pair_counts@.len()
                                && (self.pair_counts@[j].0, self.pair_counts@[j].1) == (k0, k1);
                        }
                    } else {
                        assert(prev.2.dom().contains((self.pair_counts@[slot as int].0, self.pair_counts@[slot as int].1)));
                    }
                    assert(count == count_of(prev.2, (k0, k1)));
                }
                if count < TOP_N_PER_PAIR {
                    let na = self.get_or_add_node(a);
                    let nb = self.get_or_add_node(b);
                    let ghost n1 = self.nodes();
                    proof {
                        assert(n1 == add_key(add_key(prev.0, a), b));
                        lemma_index_of_unique(n1, a, na as int);
                        lemma_index_of_unique(n1, b, nb as int);
                    }
                    let w = GraphEdge::from_pool(pool);
                    let added_ab = self.add_edge_once(na, nb, w);
                    let added_ba = self.add_edge_once(nb, na, w);
                    if added_ab || added_ba {
                        let ghost v0 = self.pair_counts@;
                        if found {
                            self.pair_counts.set(slot, (k0, k1, count + 1));
                        } else {
                            self.pair_counts.push((k0, k1, 1));
                        }
                        let ghost m = prev.2.insert((k0, k1), count_of(prev.2, (k0, k1)) + 1);
                        proof {
                            let v = self.pair_counts@;
                            assert forall|x: int, y: int| 0 <= x < y < v.len() implies (v[x].0, v[x].1) != (v[y].0, v[y].1) by {
                                if x < v0.len() && y < v0.len() {
                                    assert(v[x] == v0[x] || x == slot);
                                    assert(v[y] == v0[y] || y == slot);
                                }
                            }
                            assert forall|j: int| 0 <= j < v.len() implies #[trigger] m.dom().contains((v[j].0, v[j].1))
                                && m[(v[j].0, v[j].1)] == v[j].2 && v[j].2 <= TOP_N_PER_PAIR by {
                                if found && j == slot {
                                    assert(v[j] == (k0, k1, (count + 1) as usize));
                                } else if !found && j == v0.len() {
                                    assert(v[j] == (k0, k1, 1usize));
                                } else {
                                    assert(v[j] == v0[j]);
                                    assert((v0[j].0, v0[j].1) != (k0, k1));
                                    assert(prev.2.dom().contains((v0[j].0, v0[j].1)));
                                }
                            }
                            assert forall|k: (PubkeyBytes, PubkeyBytes)| #[trigger] m.dom().contains(k) implies
                                exists|j: int| 0 <= j < v.len() && (v[j].0, v[j].1) == k by {
                                if k == (k0, k1) {
                                    if found {
                                        assert((v[slot as int].0, v[slot as int].1) == k);
                                    } else {
                                        assert((v[v0.len() as int].0, v[v0.len() as int].1) == k);
                                    }
                                } else {
                                    let j = choose|j: int| 0 <= j < v0.len() && (v0[j].0, v0[j].1) == k;
                                    assert(v[j] == v0[j]);
                                }
                            }
                        }
                        self.counts = Ghost(m);
                    }
                }
            }
            proof {
                reveal(caps_hold);
                let next = insert_step(prev.0, prev.1, prev.2, pools@[ranked@[i as int] as int]);
                assert(next == insert_all(nodes0, edges0, counts0, pools@, ranked@.take(i + 1)));
                assert(self.nodes() == next.0);
                assert(self.edges() == next.1);
                assert(self.counts@ == next.2);
            }
            i = i + 1;
        }
        proof {
            assert(ranked@.take(i as int) =~= ranked@);
        }
    }
}


/// The number of edges of `edges` from `x` to `y`.
pub open spec fn count_edges(edges: Seq<(usize, usize, GraphEdge)>, x: usize, y: usize) -> nat
    decreases edges.len(),
{
    if edges.len() == 0 {
        0
    } else {
        count_edges(edges.drop_last(), x, y) + if edges.last().0 == x && edges.last().1 == y { 1nat } else { 0nat }
    }
}

proof fn lemma_count_edges_push(edges: Seq<(usize, usize, GraphEdge)>, t: (usize, usize, GraphEdge), x: usize, y: usize)
    ensures
        count_edges(edges.push(t), x, y) == count_edges(edges, x, y) + if t.0 == x && t.1 == y { 1nat } else { 0nat },
{
    assert(edges.push(t).drop_last() =~= edges);
}

proof fn lemma_count_edges_outside(edges: Seq<(usize, usize, GraphEdge)>, x: usize, y: usize)
    requires
        forall|e: int| 0 <= e < edges.len() ==> !((#[trigger] edges[e]).0 == x && edges[e].1 == y),
    ensures
        count_edges(edges, x, y) == 0,
    decreases edges.len(),
{
    if edges.len() > 0 {
        assert forall|e: int| 0 <= e < edges.drop_last().len() implies
            !((#[trigger] edges.drop_last()[e]).0 == x && edges.drop_last()[e].1 == y) by {
            assert(edges.drop_last()[e] == edges[e]);
        }
        lemma_count_edges_outside(edges.drop_last(), x, y);
    }
}

/// The pair key does not depend on the order of two different mints.
proof fn lemma_pair_key_symmetric(a: PubkeyBytes, b: PubkeyBytes)
    requires
        a != b,
    ensures
        pair_key(a, b) == pair_key(b, a),
{
    crate::pool::lemma_bytes_lt_trichotomy(a.bytes(), b.bytes(), 0);
    assert(a.bytes().subrange(0, 32) =~= a.bytes());
    assert(b.bytes().subrange(0, 32) =~= b.bytes());
    if a.bytes() == b.bytes() {
        assert(a.0 =~= b.0);
    }
}

/// What holds of every graph built from scratch: distinct nodes, each edge
/// between two different existing nodes, per-pair counts of at most
/// `TOP_N_PER_PAIR`, and no more edges from one node to another than the
/// count of their pair.
spec fn built_ok(r: (Seq<PubkeyBytes>, Seq<(usize, usize, GraphEdge)>, Map<(PubkeyBytes, PubkeyBytes), nat>)) -> bool {
    &&& r.0.no_duplicates()
    &&& forall|e: int| 0 <= e < r.1.len() ==> (#[trigger] r.1[e]).0 < r.0.len() && r.1[e].1 < r.0.len()
        && r.1[e].0 != r.1[e].1
    &&& forall|k: (PubkeyBytes, PubkeyBytes)| #[trigger] count_of(r.2, k) <= TOP_N_PER_PAIR
    &&& forall|x: usize, y: usize| x < r.0.len() && y < r.0.len() && x != y ==>
        #[trigger] count_edges(r.1, x, y) <= count_of(r.2, pair_key(r.0[x as int], r.0[y as int]))
}

proof fn lemma_step_ok(
    r: (Seq<PubkeyBytes>, Seq<(usize, usize, GraphEdge)>, Map<(PubkeyBytes, PubkeyBytes), nat>),
    pool: Pool,
)
    requires
        built_ok(r),
        r.0.len() + 2 <= usize::MAX,
    ensures
        built_ok(insert_step(r.0, r.1, r.2, pool)),
        insert_step(r.0, r.1, r.2, pool).0.len() <= r.0.len() + 2,
{
    let a = pool.metadata.token_a.mint;
    let b = pool.metadata.token_b.mint;
    let key = pair_key(a, b);
    if graph_eligible(pool) && count_of(r.2, key) < TOP_N_PER_PAIR {
        let n0 = r.0;
        let n1 = add_key(add_key(n0, a), b);
        let na = n1.index_of(a) as usize;
        let nb = n1.index_of(b) as usize;
        let w = edge_of(pool);
        let e0 = r.1;
        let e1 = add_edge_once(e0, na, nb, w);
        let e2 = add_edge_once(e1, nb, na, w);
        let c = if e2.len() > e0.len() { r.2.insert(key, count_of(r.2, key) + 1) } else { r.2 };
        let out = insert_step(r.0, r.1, r.2, pool);
        assert(out == (n1, e2, c));
        // The nodes grow by the missing mints and stay distinct.
        let n_a = add_key(n0, a);
        assert(n_a.no_duplicates()) by {
            if !n0.contains(a) {
                assert forall|x: int, y: int| 0 <= x < n_a.len() && 0 <= y < n_a.len() && x != y
                    implies n_a[x] != n_a[y] by {
                    if x < n0.len() && y == n0.len() {
                        assert(n0.contains(n0[x]));
                    } else if y < n0.len() && x == n0.len() {
                        assert(n0.contains(n0[y]));
                    }
                }
            }
        }
        assert(n1.no_duplicates()) by {
            if !n_a.contains(b) {
                assert forall|x: int, y: int| 0 <= x < n1.len() && 0 <= y < n1.len() && x != y
                    implies n1[x] != n1[y] by {
                    if x < n_a.len() && y == n_a.len() {
                        assert(n_a.contains(n_a[x]));
                    } else if y < n_a.len() && x == n_a.len() {
                        assert(n_a.contains(n_a[y]));
                    }
                }
            }
        }
        assert(n1.contains(a)) by {
            if n0.contains(a) {
                let i = choose|i: int| 0 <= i < n0.len() && n0[i] == a;
                assert(n1[i] == a);
            } else {
                assert(n1[n0.len() as int] == a);
            }
        }
        assert(n1.contains(b)) by {
            if n_a.contains(b) {
                let i = choose|i: int| 0 <= i < n_a.len() && n_a[i] == b;
                assert(n1[i] == b);
            } else {
                assert(n1[n_a.len() as int] == b);
            }
        }
        assert(0 <= n1.index_of(a) < n1.len() && n1[n1.index_of(a)] == a);
        assert(0 <= n1.index_of(b) < n1.len() && n1[n1.index_of(b)] == b);
        assert(n1.len() <= n0.len() + 2);
        assert(na as int == n1.index_of(a));
        assert(nb as int == n1.index_of(b));
        assert(na != nb);
        assert forall|x: int| 0 <= x < n0.len() implies #[trigger] n1[x] == n0[x] by {
            assert(n_a[x] == n0[x]);
        }
        lemma_pair_key_symmetric(a, b);
        // Edges.
        assert forall|e: int| 0 <= e < e2.len() implies (#[trigger] e2[e]).0 < n1.len() && e2[e].1 < n1.len()
            && e2[e].0 != e2[e].1 by {
            if e < e0.len() {
                assert(e1[e] == e0[e]);
                assert(e2[e] == e0[e]);
            } else if e < e1.len() {
                assert(e2[e] == e1[e]);
            }
        }
        assert forall|k: (PubkeyBytes, PubkeyBytes)| #[trigger] count_of(c, k) <= TOP_N_PER_PAIR by {
            assert(count_of(r.2, k) <= TOP_N_PER_PAIR);
        }
        assert forall|x: usize, y: usize| x < n1.len() && y < n1.len() && x != y implies
            #[trigger] count_edges(e2, x, y) <= count_of(c, pair_key(n1[x as int], n1[y as int])) by {
            let add1: nat = if e1.len() > e0.len() && na == x && nb == y { 1 } else { 0 };
            let add2: nat = if e2.len() > e1.len() && nb == x && na == y { 1 } else { 0 };
            if e1.len() > e0.len() {
                lemma_count_edges_push(e0, (na, nb, w), x, y);
            }
            if e2.len() > e1.len() {
                lemma_count_edges_push(e1, (nb, na, w), x, y);
            }
            assert(count_edges(e2, x, y) == count_edges(e0, x, y) + add1 + add2);
            if x < n0.len() && y < n0.len() {
                assert(count_edges(e0, x, y) <= count_of(r.2, pair_key(n0[x as int], n0[y as int])));
            } else {
                lemma_count_edges_outside(e0, x, y);
            }
            if add1 + add2 > 0 {
                assert(pair_key(n1[x as int], n1[y as int]) == key);
            }
            if x < n0.len() && y < n0.len() && pair_key(n1[x as int], n1[y as int]) != key {
                assert(count_of(c, pair_key(n1[x as int], n1[y as int])) == count_of(r.2, pair_key(n0[x as int], n0[y as int])));
            }
        }
    }
}

/// `built_ok` of the nodes, edges and pair counts of a graph.
#[verifier::opaque]
spec fn caps_hold(
    nodes: Seq<PubkeyBytes>,
    edges: Seq<(usize, usize, GraphEdge)>,
    counts: Map<(PubkeyBytes, PubkeyBytes), nat>,
) -> bool {
    built_ok((nodes, edges, counts))
}

/// A new node with no edges keeps the caps.
proof fn lemma_caps_add_node(
    n: Seq<PubkeyBytes>,
    e: Seq<(usize, usize, GraphEdge)>,
    c: Map<(PubkeyBytes, PubkeyBytes), nat>,
    m: PubkeyBytes,
)
    requires
        caps_hold(n, e, c),
        !n.contains(m),
    ensures
        caps_hold(n.push(m), e, c),
{
    reveal(caps_hold);
    let n1 = n.push(m);
    assert(caps_hold(n, e, c));
    assert(built_ok((n, e, c)));
    assert forall|k: int| 0 <= k < e.len() implies (#[trigger] e[k]).0 < n.len() && e[k].1 < n.len()
        && e[k].0 != e[k].1 by {
        assert((n, e, c).1[k] == e[k]);
    }
    assert(n1.no_duplicates()) by {
        assert forall|x: int, y: int| 0 <= x < n1.len() && 0 <= y < n1.len() && x != y implies n1[x] != n1[y] by {
            if x < n.len() && y == n.len() {
                assert(n.contains(n[x]));
            } else if y < n.len() && x == n.len() {
                assert(n.contains(n[y]));
            }
        }
    }
    assert forall|x: usize, y: usize| x < n1.len() && y < n1.len() && x != y implies
        #[trigger] count_edges(e, x, y) <= count_of(c, pair_key(n1[x as int], n1[y as int])) by {
        if x < n.len() && y < n.len() {
            assert(n1[x as int] == n[x as int] && n1[y as int] == n[y as int]);
            assert(built_ok((n, e, c)));
            assert(count_edges((n, e, c).1, x, y) <= count_of((n, e, c).2, pair_key(n[x as int], n[y as int])));
        } else {
            lemma_count_edges_outside(e, x, y);
        }
    }
    let r1 = (n1, e, c);
    assert forall|k: int| 0 <= k < r1.1.len() implies (#[trigger] r1.1[k]).0 < r1.0.len() && r1.1[k].1 < r1.0.len()
        && r1.1[k].0 != r1.1[k].1 by {
        assert(r1.1[k] == e[k]);
    }
    assert forall|k: (PubkeyBytes, PubkeyBytes)| #[trigger] count_of(r1.2, k) <= TOP_N_PER_PAIR by {
        assert(count_of((n, e, c).2, k) <= TOP_N_PER_PAIR);
    }
    assert(built_ok(r1));
}

/// Adding pools keeps the caps.
proof fn lemma_insert_all_ok(r: (Seq<PubkeyBytes>, Seq<(usize, usize, GraphEdge)>, Map<(PubkeyBytes, PubkeyBytes), nat>),
    pools: Seq<Pool>, ranked: Seq<usize>)
    requires
        built_ok(r),
        r.0.len() + 2 * ranked.len() <= usize::MAX,
    ensures
        built_ok(insert_all(r.0, r.1, r.2, pools, ranked)),
        insert_all(r.0, r.1, r.2, pools, ranked).0.len() <= r.0.len() + 2 * ranked.len(),
    decreases ranked.len(),
{
    if ranked.len() > 0 {
        lemma_insert_all_ok(r, pools, ranked.drop_last());
        let prev = insert_all(r.0, r.1, r.2, pools, ranked.drop_last());
        lemma_step_ok(prev, pools[ranked.last() as int]);
    }
}

/// A graph has at most `TOP_N_PER_PAIR` edges from one token to another:
/// each token pair keeps at most that many pools, however many times pools
/// were added.
pub proof fn lemma_top_pools_per_pair(g: &GraphBuilder, x: usize, y: usize)
    requires
        g.wf(),
    ensures
        count_edges(g.edges(), x, y) <= TOP_N_PER_PAIR,
{
    reveal(caps_hold);
    let r = (g.nodes(), g.edges(), g.pair_counts());
    assert(built_ok(r));
    if x < r.0.len() && y < r.0.len() && x != y {
        assert(count_edges(r.1, x, y) <= count_of(r.2, pair_key(r.0[x as int], r.0[y as int])));
    } else {
        lemma_count_edges_outside(r.1, x, y);
    }
}

/// Whether adding `pool` to the graph `r` would change nothing: it is not
/// eligible, its pair is full, or both its mints have nodes and both its
/// edges are there.
spec fn settled(
    r: (Seq<PubkeyBytes>, Seq<(usize, usize, GraphEdge)>, Map<(PubkeyBytes, PubkeyBytes), nat>),
    pool: Pool,
) -> bool {
    let a = pool.metadata.token_a.mint;
    let b = pool.metadata.token_b.mint;
    let na = r.0.index_of(a) as usize;
    let nb = r.0.index_of(b) as usize;
    ||| !graph_eligible(pool)
    ||| count_of(r.2, pair_key(a, b)) >= TOP_N_PER_PAIR
    ||| r.0.contains(a) && r.0.contains(b)
        && edge_keys(r.1).contains((na, nb, edge_of(pool).pool_id))
        && edge_keys(r.1).contains((nb, na, edge_of(pool).pool_id))
}

proof fn lemma_edge_keys_push(edges: Seq<(usize, usize, GraphEdge)>, t: (usize, usize, GraphEdge))
    ensures
        edge_keys(edges.push(t)) == edge_keys(edges).push((t.0, t.1, t.2.pool_id)),
{
    assert(edge_keys(edges.push(t)) =~= edge_keys(edges).push((t.0, t.1, t.2.pool_id)));
}

/// `add_edge_once` keeps the edges it is given as a prefix and ends with the key it adds.
proof fn lemma_add_edge_once_keys(edges: Seq<(usize, usize, GraphEdge)>, a: usize, b: usize, w: GraphEdge)
    ensures
        edge_keys(add_edge_once(edges, a, b, w)).contains((a, b, w.pool_id)),
        add_edge_once(edges, a, b, w).len() >= edges.len(),
        forall|k: int| 0 <= k < edges.len() ==> #[trigger] add_edge_once(edges, a, b, w)[k] == edges[k],
        forall|t: (usize, usize, PoolId)| edge_keys(edges).contains(t) ==>
            #[trigger] edge_keys(add_edge_once(edges, a, b, w)).contains(t),
{
    if !edge_keys(edges).contains((a, b, w.pool_id)) {
        lemma_edge_keys_push(edges, (a, b, w));
        let k1 = edge_keys(edges.push((a, b, w)));
        assert(k1[edges.len() as int] == (a, b, w.pool_id));
        assert forall|t: (usize, usize, PoolId)| edge_keys(edges).contains(t) implies
            #[trigger] edge_keys(add_edge_once(edges, a, b, w)).contains(t) by {
            let i = choose|i: int| 0 <= i < edge_keys(edges).len() && edge_keys(edges)[i] == t;
            assert(k1[i] == t);
        }
    }
}

/// After a step with `pool`, adding it again changes nothing.
proof fn lemma_step_settles(
    r: (Seq<PubkeyBytes>, Seq<(usize, usize, GraphEdge)>, Map<(PubkeyBytes, PubkeyBytes), nat>),
    pool: Pool,
)
    requires
        built_ok(r),
        r.0.len() + 2 <= usize::MAX,
    ensures
        settled(insert_step(r.0, r.1, r.2, pool), pool),
{
    lemma_step_ok(r, pool);
    let a = pool.metadata.token_a.mint;
    let b = pool.metadata.token_b.mint;
    let key = pair_key(a, b);
    if graph_eligible(pool) && count_of(r.2, key) < TOP_N_PER_PAIR {
        let n0 = r.0;
        let n_a = add_key(n0, a);
        let n1 = add_key(n_a, b);
        let na = n1.index_of(a) as usize;
        let nb = n1.index_of(b) as usize;
        let w = edge_of(pool);
        let e1 = add_edge_once(r.1, na, nb, w);
        let e2 = add_edge_once(e1, nb, na, w);
        assert(n1.contains(a)) by {
            if n0.contains(a) {
                let i = choose|i: int| 0 <= i < n0.len() && n0[i] == a;
                assert(n_a[i] == a);
                assert(n1[i] == a);
            } else {
                assert(n_a[n0.len() as int] == a);
                assert(n1[n0.len() as int] == a);
            }
        }
        assert(n1.contains(b)) by {
            if n_a.contains(b) {
                let i = choose|i: int| 0 <= i < n_a.len() && n_a[i] == b;
                assert(n1[i] == b);
            } else {
                assert(n1[n_a.len() as int] == b);
            }
        }
        lemma_add_edge_once_keys(r.1, na, nb, w);
        lemma_add_edge_once_keys(e1, nb, na, w);
        assert(insert_step(r.0, r.1, r.2, pool).0 == n1);
        assert(insert_step(r.0, r.1, r.2, pool).1 == e2);
    }
}

/// A step keeps every pool settled that was settled before it.
proof fn lemma_step_keeps_settled(
    r: (Seq<PubkeyBytes>, Seq<(usize, usize, GraphEdge)>, Map<(PubkeyBytes, PubkeyBytes), nat>),
    pool: Pool,
    q: Pool,
)
    requires
        built_ok(r),
        r.0.len() + 2 <= usize::MAX,
        settled(r, q),
    ensures
        settled(insert_step(r.0, r.1, r.2, pool), q),
{
    lemma_step_ok(r, pool);
    let a = pool.metadata.token_a.mint;
    let b = pool.metadata.token_b.mint;
    let key = pair_key(a, b);
    if graph_eligible(pool) && count_of(r.2, key) < TOP_N_PER_PAIR {
        let n0 = r.0;
        let n_a = add_key(n0, a);
        let n1 = add_key(n_a, b);
        let na = n1.index_of(a) as usize;
        let nb = n1.index_of(b) as usize;
        let w = edge_of(pool);
        let e1 = add_edge_once(r.1, na, nb, w);
        let e2 = add_edge_once(e1, nb, na, w);
        let c = if e2.len() > r.1.len() { r.2.insert(key, count_of(r.2, key) + 1) } else { r.2 };
        let out = insert_step(r.0, r.1, r.2, pool);
        assert(out == (n1, e2, c));
        lemma_add_edge_once_keys(r.1, na, nb, w);
        lemma_add_edge_once_keys(e1, nb, na, w);
        let qa = q.metadata.token_a.mint;
        let qb = q.metadata.token_b.mint;
        let qkey = pair_key(qa, qb);
        assert(count_of(c, qkey) >= count_of(r.2, qkey));
        if graph_eligible(q) && count_of(r.2, qkey) < TOP_N_PER_PAIR {
            let ia = n0.index_of(qa);
            let ib = n0.index_of(qb);
            assert(0 <= ia < n0.len() && n0[ia] == qa);
            assert(0 <= ib < n0.len() && n0[ib] == qb);
            assert forall|x: int| 0 <= x < n0.len() implies #[trigger] n1[x] == n0[x] by {
                assert(n_a[x] == n0[x]);
            }
            assert(n1[ia] == qa && n1[ib] == qb);
            lemma_index_of_unique(n1, qa, ia);
            lemma_index_of_unique(n1, qb, ib);
        }
    }
}

/// A settled pool's step changes nothing.
proof fn lemma_settled_step_noop(
    r: (Seq<PubkeyBytes>, Seq<(usize, usize, GraphEdge)>, Map<(PubkeyBytes, PubkeyBytes), nat>),
    pool: Pool,
)
    requires
        settled(r, pool),
    ensures
        insert_step(r.0, r.1, r.2, pool) == r,
{
    let a = pool.metadata.token_a.mint;
    let b = pool.metadata.token_b.mint;
    if graph_eligible(pool) && count_of(r.2, pair_key(a, b)) < TOP_N_PER_PAIR {
        assert(add_key(r.0, a) == r.0);
        assert(add_key(r.0, b) == r.0);
    }
}

/// After adding the pools of `ranked`, every one of them is settled.
proof fn lemma_first_pass(
    r: (Seq<PubkeyBytes>, Seq<(usize, usize, GraphEdge)>, Map<(PubkeyBytes, PubkeyBytes), nat>),
    pools: Seq<Pool>,
    ranked: Seq<usize>,
)
    requires
        built_ok(r),
        r.0.len() + 2 * ranked.len() <= usize::MAX,
    ensures
        forall|k: int| 0 <= k < ranked.len() ==>
            settled(insert_all(r.0, r.1, r.2, pools, ranked), #[trigger] pools[ranked[k] as int]),
    decreases ranked.len(),
{
    if ranked.len() > 0 {
        let init = ranked.drop_last();
        lemma_first_pass(r, pools, init);
        lemma_insert_all_ok(r, pools, init);
        let prev = insert_all(r.0, r.1, r.2, pools, init);
        let last = pools[ranked.last() as int];
        lemma_step_settles(prev, last);
        assert forall|k: int| 0 <= k < ranked.len() implies
            settled(insert_all(r.0, r.1, r.2, pools, ranked), #[trigger] pools[ranked[k] as int]) by {
            if k < init.len() {
                assert(init[k] == ranked[k]);
                lemma_step_keeps_settled(prev, last, pools[ranked[k] as int]);
            }
        }
    }
}

/// Adding pools that are all settled changes nothing.
proof fn lemma_second_pass(
    r: (Seq<PubkeyBytes>, Seq<(usize, usize, GraphEdge)>, Map<(PubkeyBytes, PubkeyBytes), nat>),
    pools: Seq<Pool>,
    ranked: Seq<usize>,
)
    requires
        forall|k: int| 0 <= k < ranked.len() ==> settled(r, #[trigger] pools[ranked[k] as int]),
    ensures
        insert_all(r.0, r.1, r.2, pools, ranked) == r,
    decreases ranked.len(),
{
    if ranked.len() > 0 {
        let init = ranked.drop_last();
        assert forall|k: int| 0 <= k < init.len() implies settled(r, #[trigger] pools[init[k] as int]) by {
            assert(init[k] == ranked[k]);
            assert(settled(r, pools[ranked[k] as int]));
        }
        lemma_second_pass(r, pools, init);
        assert(settled(r, pools[ranked[ranked.len() - 1] as int]));
        lemma_settled_step_noop(r, pools[ranked.last() as int]);
    }
}

/// Adding the same ranked pools to a graph a second time changes nothing:
/// every pool added the first time has its edges there, and every pool
/// left out has its pair full or may not enter the graph at all.
pub proof fn lemma_second_build_changes_nothing(g: &GraphBuilder, pools: Seq<Pool>, ranked: Seq<usize>)
    requires
        g.wf(),
        g.nodes().len() + 2 * ranked.len() < u32::MAX,
    ensures
        ({
            let once = insert_all(g.nodes(), g.edges(), g.pair_counts(), pools, ranked);
            insert_all(once.0, once.1, once.2, pools, ranked) == once
        }),
{
    reveal(caps_hold);
    let r = (g.nodes(), g.edges(), g.pair_counts());
    assert(built_ok(r));
    lemma_first_pass(r, pools, ranked);
    let once = insert_all(r.0, r.1, r.2, pools, ranked);
    lemma_second_pass(once, pools, ranked);
}

/// No two edges of a graph join the same two nodes in the same direction
/// for the same pool.
pub proof fn lemma_no_duplicate_edges(g: &GraphBuilder)
    requires
        g.wf(),
    ensures
        edge_keys(g.edges()).no_duplicates(),
{
}


/// The pools of the edges `ids` that lead to `v`, each pool once (its first
/// edge), in order.
pub open spec fn hop_pool_ids(edges: Seq<(usize, usize, GraphEdge)>, ids: Seq<int>, v: usize) -> Seq<PoolId>
    decreases ids.len(),
{
    if ids.len() == 0 {
        Seq::empty()
    } else {
        let prev = hop_pool_ids(edges, ids.drop_last(), v);
        let e = ids.last();
        if edges[e].1 == v && !prev.contains(edges[e].2.pool_id) {
            prev.push(edges[e].2.pool_id)
        } else {
            prev
        }
    }
}

/// The steps of a hop from node `u` to node `v`: one per pool joining them,
/// in the order petgraph lists the edges leaving `u`.
pub open spec fn hop_step_seq(nodes: Seq<PubkeyBytes>, edges: Seq<(usize, usize, GraphEdge)>, u: usize, v: usize)
    -> Seq<RouteStep> {
    hop_pool_ids(edges, edges_leaving(edges, u, edges.len()), v).map_values(
        |id: PoolId| RouteStep { pool_id: id, input_mint: nodes[u as int], output_mint: nodes[v as int] })
}

/// Every route of `cands` extended by every step of `steps`, route by route.
pub open spec fn extend_routes(cands: Seq<Seq<RouteStep>>, steps: Seq<RouteStep>) -> Seq<Seq<RouteStep>>
    decreases cands.len(),
{
    if cands.len() == 0 {
        Seq::empty()
    } else {
        extend_routes(cands.drop_last(), steps) + steps.map_values(|st: RouteStep| cands.last().push(st))
    }
}

/// The routes along the first `k` hops of the node path `path`: every
/// combination of one pool per hop.
pub open spec fn path_routes(nodes: Seq<PubkeyBytes>, edges: Seq<(usize, usize, GraphEdge)>, path: Seq<usize>, k: nat)
    -> Seq<Seq<RouteStep>>
    decreases k,
{
    if k == 0 {
        seq![Seq::<RouteStep>::empty()]
    } else {
        extend_routes(path_routes(nodes, edges, path, (k - 1) as nat),
            hop_step_seq(nodes, edges, path[k - 1], path[k as int]))
    }
}

/// The views of a list of routes.
pub open spec fn step_seqs(v: Seq<Vec<RouteStep>>) -> Seq<Seq<RouteStep>> {
    v.map_values(|r: Vec<RouteStep>| r@)
}

/// The edges leaving `n` are edges from `n`.
proof fn lemma_edges_leaving(edges: Seq<(usize, usize, GraphEdge)>, n: usize, k: nat)
    requires
        k <= edges.len(),
    ensures
        forall|j: int| 0 <= j < edges_leaving(edges, n, k).len() ==>
            0 <= #[trigger] edges_leaving(edges, n, k)[j] < k && edges[edges_leaving(edges, n, k)[j]].0 == n,
    decreases k,
{
    if k > 0 {
        lemma_edges_leaving(edges, n, (k - 1) as nat);
        let prev = edges_leaving(edges, n, (k - 1) as nat);
        if edges[k - 1].0 == n {
            assert forall|j: int| 0 <= j < edges_leaving(edges, n, k).len() implies
                0 <= #[trigger] edges_leaving(edges, n, k)[j] < k && edges[edges_leaving(edges, n, k)[j]].0 == n by {
                if j > 0 {
                    assert(edges_leaving(edges, n, k)[j] == prev[j - 1]);
                }
            }
        }
    }
}

/// Whether `id` is in `ids`.
fn has_pool_id(ids: &Vec<PoolId>, id: PoolId) -> (r: bool)
    ensures
        r == ids@.contains(id),
{
    let mut j: usize = 0;
    while j < ids.len()
        invariant
            j <= ids@.len(),
            forall|i: int| 0 <= i < j ==> ids@[i] != id,
        decreases ids@.len() - j,
    {
        if ids[j] == id {
            return true;
        }
        j = j + 1;
    }
    false
}

/// A copy of a route.
fn copy_steps(r: &Vec<RouteStep>) -> (out: Vec<RouteStep>)
    ensures
        out@ == r@,
{
    let mut out: Vec<RouteStep> = Vec::new();
    let mut i: usize = 0;
    while i < r.len()
        invariant
            i <= r@.len(),
            out@ == r@.take(i as int),
        decreases r@.len() - i,
    {
        out.push(r[i]);
        proof {
            assert(r@.take(i + 1) =~= r@.take(i as int).push(r@[i as int]));
        }
        i = i + 1;
    }
    proof {
        assert(r@.take(i as int) =~= r@);
    }
    out
}

impl GraphBuilder {
    /// The steps of the hop from node `u` to node `v` (see `hop_step_seq`).
    fn hop_steps(&self, u: usize, v: usize) -> (r: Vec<RouteStep>)
        requires
            self.wf(),
            u < self.nodes().len(),
            v < self.nodes().len(),
        ensures
            r@ == hop_step_seq(self.nodes(), self.edges(), u, v),
    {
        let ids = builder_outgoing(&self.graph, u);
        let input_mint = builder_node_at(&self.graph, u);
        let output_mint = builder_node_at(&self.graph, v);
        let ghost edges = self.edges();
        let ghost out = edges_leaving(edges, u, edges.len());
        proof {
            lemma_edges_leaving(edges, u, edges.len());
        }
        let mut seen: Vec<PoolId> = Vec::new();
        let mut steps: Vec<RouteStep> = Vec::new();
        let mut j: usize = 0;
        proof {
            assert(out.take(0) =~= Seq::<int>::empty());
            assert(steps@ =~= seen@.map_values(|id: PoolId| RouteStep { pool_id: id, input_mint, output_mint }));
        }
        while j < ids.len()
            invariant
                j <= ids@.len(),
                ids@.len() == out.len(),
                forall|x: int| 0 <= x < ids@.len() ==> #[trigger] ids@[x] == out[x],
                forall|x: int| 0 <= x < out.len() ==> 0 <= #[trigger] out[x] < edges.len() && edges[out[x]].0 == u,
                edges == self.edges(),
                seen@ == hop_pool_ids(edges, out.take(j as int), v),
                steps@ == seen@.map_values(|id: PoolId| RouteStep { pool_id: id, input_mint, output_mint }),
            decreases ids@.len() - j,
        {
            let e = ids[j];
            let (_, t, w) = builder_edge_at(&self.graph, e);
            proof {
                assert(out.take(j + 1).drop_last() =~= out.take(j as int));
                assert(out.take(j + 1).last() == out[j as int]);
            }
            if t == v && !has_pool_id(&seen, w.pool_id) {
                let ghost s0 = seen@;
                seen.push(w.pool_id);
                steps.push(RouteStep { pool_id: w.pool_id, input_mint, output_mint });
                proof {
                    assert(steps@ =~= seen@.map_values(|id: PoolId| RouteStep { pool_id: id, input_mint, output_mint }));
                }
            }
            j = j + 1;
        }
        proof {
            assert(out.take(j as int) =~= out);
        }
        steps
    }

    /// The routes along the node path `path`: every combination of one pool
    /// per hop (see `path_routes`).
    fn expand_node_path(&self, path: &Vec<usize>) -> (r: Vec<Vec<RouteStep>>)
        requires
            self.wf(),
            path@.len() >= 1,
            forall|i: int| 0 <= i < path@.len() ==> #[trigger] path@[i] < self.nodes().len(),
        ensures
            step_seqs(r@) == path_routes(self.nodes(), self.edges(), path@, (path@.len() - 1) as nat),
    {
        let mut cands: Vec<Vec<RouteStep>> = Vec::new();
        cands.push(Vec::new());
        proof {
            assert(step_seqs(cands@) =~= seq![Seq::<RouteStep>::empty()]);
        }
        let mut k: usize = 1;
        while k < path.len()
            invariant
                self.wf(),
                1 <= k <= path@.len(),
                forall|i: int| 0 <= i < path@.len() ==> #[trigger] path@[i] < self.nodes().len(),
                step_seqs(cands@) == path_routes(self.nodes(), self.edges(), path@, (k - 1) as nat),
            decreases path@.len() - k,
        {
            let steps = self.hop_steps(path[k - 1], path[k]);
            let mut next: Vec<Vec<RouteStep>> = Vec::new();
            let mut ci: usize = 0;
            proof {
                assert(step_seqs(cands@).take(0) =~= Seq::<Seq<RouteStep>>::empty());
                assert(step_seqs(next@) =~= Seq::<Seq<RouteStep>>::empty());
            }
            while ci < cands.len()
                invariant
                    ci <= cands@.len(),
                    step_seqs(next@) == extend_routes(step_seqs(cands@).take(ci as int), steps@),
                decreases cands@.len() - ci,
            {
                let mut si: usize = 0;
                let ghost base = step_seqs(next@);
                let ghost c = cands@[ci as int]@;
                proof {
                    assert(steps@.take(0).map_values(|st: RouteStep| c.push(st)) =~= Seq::<Seq<RouteStep>>::empty());
                    assert(base + Seq::<Seq<RouteStep>>::empty() =~= base);
                }
                while si < steps.len()
                    invariant
                        si <= steps@.len(),
                        ci < cands@.len(),
                        c == cands@[ci as int]@,
                        step_seqs(next@) == base + steps@.take(si as int).map_values(|st: RouteStep| c.push(st)),
                    decreases steps@.len() - si,
                {
                    let mut nc = copy_steps(&cands[ci]);
                    nc.push(steps[si]);
                    let ghost n0 = next@;
                    next.push(nc);
                    proof {
                        assert(step_seqs(next@) =~= step_seqs(n0).push(c.push(steps@[si as int])));
                        assert(steps@.take(si + 1).map_values(|st: RouteStep| c.push(st))
                            =~= steps@.take(si as int).map_values(|st: RouteStep| c.push(st)).push(c.push(steps@[si as int])));
                    }
                    si = si + 1;
                }
                proof {
                    assert(steps@.take(si as int) =~= steps@);
                    let cs = step_seqs(cands@);
                    assert(cs.take(ci + 1).drop_last() =~= cs.take(ci as int));
                    assert(cs.take(ci + 1).last() == c);
                }
                ci = ci + 1;
            }
            proof {
                assert(step_seqs(cands@).take(ci as int) =~= step_seqs(cands@));
            }
            cands = next;
            k = k + 1;
        }
        cands
    }
}


/// The pools of a route, in order.
pub open spec fn fingerprint(r: Seq<RouteStep>) -> Seq<PoolId> {
    r.map_values(|st: RouteStep| st.pool_id)
}

/// The pool sequences of routes.
pub open spec fn fingerprints(rs: Seq<Seq<RouteStep>>) -> Seq<Seq<PoolId>> {
    rs.map_values(|r: Seq<RouteStep>| fingerprint(r))
}

/// `rs` without every route whose pools repeat those of an earlier route.
pub open spec fn dedup_routes(rs: Seq<Seq<RouteStep>>) -> Seq<Seq<RouteStep>>
    decreases rs.len(),
{
    if rs.len() == 0 {
        Seq::empty()
    } else {
        let prev = dedup_routes(rs.drop_last());
        if fingerprints(prev).contains(fingerprint(rs.last())) { prev } else { prev.push(rs.last()) }
    }
}

/// The routes along each of the node paths `paths`, path after path.
pub open spec fn flatten_paths(nodes: Seq<PubkeyBytes>, edges: Seq<(usize, usize, GraphEdge)>, paths: Seq<Seq<usize>>)
    -> Seq<Seq<RouteStep>>
    decreases paths.len(),
{
    if paths.len() == 0 {
        Seq::empty()
    } else {
        flatten_paths(nodes, edges, paths.drop_last()) + routes_of_path(nodes, edges, paths.last())
    }
}

/// The routes along the whole node path `p`.
pub open spec fn routes_of_path(nodes: Seq<PubkeyBytes>, edges: Seq<(usize, usize, GraphEdge)>, p: Seq<usize>)
    -> Seq<Seq<RouteStep>> {
    path_routes(nodes, edges, p, (p.len() - 1) as nat)
}

/// The simple node paths from `start` to `end` that petgraph yields with
/// fewer than `k` tokens in between: first those with none, then those with
/// one, and so on, each batch in petgraph's order.
pub open spec fn paths_up_to(
    edges: Seq<(usize, usize, GraphEdge)>,
    node_count: nat,
    start: usize,
    end: usize,
    k: nat,
) -> Seq<Seq<usize>>
    decreases k,
{
    if k == 0 {
        Seq::empty()
    } else {
        paths_up_to(edges, node_count, start, end, (k - 1) as nat)
            + simple_node_paths(edges, node_count, start, end, (k - 1) as usize)
    }
}

/// The candidate routes from node `start` to node `end` of 1 to `max_hops`
/// pools: the routes along the simple node paths of `paths_up_to`, in that
/// order, each combination of pools once.
pub open spec fn candidate_route_seq(
    nodes: Seq<PubkeyBytes>,
    edges: Seq<(usize, usize, GraphEdge)>,
    start: usize,
    end: usize,
    max_hops: nat,
) -> Seq<Seq<RouteStep>> {
    dedup_routes(flatten_paths(nodes, edges, paths_up_to(edges, nodes.len(), start, end, max_hops)))
}

/// Whether `p` is a simple node path from `start` to `end` of 1 to
/// `max_hops` edges.
pub open spec fn short_simple_path(
    edges: Seq<(usize, usize, GraphEdge)>,
    node_count: nat,
    start: usize,
    end: usize,
    max_hops: nat,
    p: Seq<usize>,
) -> bool {
    &&& 1 <= p.len() - 1 <= max_hops
    &&& is_simple_node_path(edges, node_count, start, end, (p.len() - 1) as nat, p)
}

/// The hop count of a route search: the requested one clamped to `1..=4`.
pub open spec fn clamp_hops(max_hops: usize) -> usize {
    if max_hops < 1 { 1 } else if max_hops > 4 { 4 } else { max_hops }
}

/// Whether the id lists `a` and `b` are equal.
fn same_ids(a: &Vec<PoolId>, b: &Vec<PoolId>) -> (r: bool)
    ensures
        r == (a@ == b@),
{
    if a.len() != b.len() {
        return false;
    }
    let mut i: usize = 0;
    while i < a.len()
        invariant
            a@.len() == b@.len(),
            i <= a@.len(),
            forall|j: int| 0 <= j < i ==> a@[j] == b@[j],
        decreases a@.len() - i,
    {
        if a[i] != b[i] {
            return false;
        }
        i = i + 1;
    }
    proof {
        assert(a@ =~= b@);
    }
    true
}

/// Whether `fp` is among `seen`.
fn has_fingerprint(seen: &Vec<Vec<PoolId>>, fp: &Vec<PoolId>) -> (r: bool)
    ensures
        r == seen@.map_values(|v: Vec<PoolId>| v@).contains(fp@),
{
    let ghost views = seen@.map_values(|v: Vec<PoolId>| v@);
    let mut j: usize = 0;
    while j < seen.len()
        invariant
            j <= seen@.len(),
            views == seen@.map_values(|v: Vec<PoolId>| v@),
            forall|i: int| 0 <= i < j ==> views[i] != fp@,
        decreases seen@.len() - j,
    {
        if same_ids(&seen[j], fp) {
            proof {
                assert(views[j as int] == fp@);
            }
            return true;
        }
        j = j + 1;
    }
    false
}

/// The pools of the route `r`.
fn fingerprint_of(r: &Vec<RouteStep>) -> (f: Vec<PoolId>)
    ensures
        f@ == fingerprint(r@),
{
    let mut f: Vec<PoolId> = Vec::new();
    let mut i: usize = 0;
    while i < r.len()
        invariant
            i <= r@.len(),
            f@ == fingerprint(r@.take(i as int)),
        decreases r@.len() - i,
    {
        f.push(r[i].pool_id);
        proof {
            assert(fingerprint(r@.take(i + 1)) =~= fingerprint(r@.take(i as int)).push(r@[i as int].pool_id));
        }
        i = i + 1;
    }
    proof {
        assert(r@.take(i as int) =~= r@);
    }
    f
}

proof fn lemma_dedup_push(rs: Seq<Seq<RouteStep>>, r: Seq<RouteStep>)
    ensures
        dedup_routes(rs.push(r)) == if fingerprints(dedup_routes(rs)).contains(fingerprint(r)) {
            dedup_routes(rs)
        } else {
            dedup_routes(rs).push(r)
        },
{
    assert(rs.push(r).drop_last() =~= rs);
}

impl GraphBuilder {
    /// The candidate routes from `input_mint` to `output_mint` of 1 up to
    /// `max_hops` pools (clamped to `1..=4`): along every simple path of
    /// tokens that petgraph's `all_simple_paths` yields, the shortest paths
    /// first, every combination of one pool per hop, each combination of
    /// pools once, in that order (see `candidate_route_seq`). Every route
    /// along a simple path of at most that many hops has its pools among
    /// them. `None` when a mint has no node or no route is found.
    pub fn candidate_routes(&self, input_mint: &PubkeyBytes, output_mint: &PubkeyBytes, max_hops: usize)
        -> (r: Option<Vec<Vec<RouteStep>>>)
        requires
            self.wf(),
        ensures
            !self.nodes().contains(*input_mint) || !self.nodes().contains(*output_mint) ==> r is None,
            self.nodes().contains(*input_mint) && self.nodes().contains(*output_mint) ==> {
                let start = self.nodes().index_of(*input_mint) as usize;
                let end = self.nodes().index_of(*output_mint) as usize;
                let rs = candidate_route_seq(self.nodes(), self.edges(), start, end, clamp_hops(max_hops) as nat);
                &&& (r is None <==> rs.len() == 0)
                &&& r matches Some(v) ==> step_seqs(v@) == rs
                &&& forall|p: Seq<usize>, y: int|
                    short_simple_path(self.edges(), self.nodes().len(), start, end, clamp_hops(max_hops) as nat, p)
                    && 0 <= y < routes_of_path(self.nodes(), self.edges(), p).len()
                    ==> fingerprints(rs).contains(fingerprint(#[trigger] routes_of_path(self.nodes(), self.edges(), p)[y]))
            },
            r matches Some(v) ==> forall|i: int| 0 <= i < v@.len() ==>
                1 <= (#[trigger] v@[i]@).len() <= clamp_hops(max_hops)
                && route_follows(self.nodes(), self.edges(), *input_mint, *output_mint, v@[i]@.len(), v@[i]@),
            r matches Some(v) ==> forall|i: int, j: int| 0 <= i < j < v@.len() ==>
                fingerprint(#[trigger] v@[i]@) != fingerprint(#[trigger] v@[j]@),
    {
        let start = match self.node_of(input_mint) {
            Some(i) => i,
            None => return None,
        };
        let end = match self.node_of(output_mint) {
            Some(i) => i,
            None => return None,
        };
        proof {
            lemma_index_of_unique(self.nodes(), *input_mint, start as int);
            lemma_index_of_unique(self.nodes(), *output_mint, end as int);
        }
        let clamped = if max_hops < 1 { 1 } else if max_hops > 4 { 4 } else { max_hops };
        let ghost nodes = self.nodes();
        let ghost edges = self.edges();
        let ghost nc = nodes.len();
        let mut seen: Vec<Vec<PoolId>> = Vec::new();
        let mut all: Vec<Vec<RouteStep>> = Vec::new();
        proof {
            assert(step_seqs(all@) =~= Seq::<Seq<RouteStep>>::empty());
            assert(seen@.map_values(|v: Vec<PoolId>| v@) =~= Seq::<Seq<PoolId>>::empty());
            assert(fingerprints(Seq::<Seq<RouteStep>>::empty()) =~= Seq::<Seq<PoolId>>::empty());
        }
        let mut h: usize = 0;
        while h < clamped
            invariant
                self.wf(),
                nodes == self.nodes(),
                edges == self.edges(),
                nc == nodes.len(),
                start < nc,
                end < nc,
                h <= clamped,
                clamped == clamp_hops(max_hops),
                step_seqs(all@) == dedup_routes(flatten_paths(nodes, edges, paths_up_to(edges, nc, start, end, h as nat))),
                seen@.map_values(|v: Vec<PoolId>| v@) == fingerprints(step_seqs(all@)),
                forall|i: int| 0 <= i < paths_up_to(edges, nc, start, end, h as nat).len() ==>
                    short_simple_path(edges, nc, start, end, h as nat,
                        #[trigger] paths_up_to(edges, nc, start, end, h as nat)[i]),
                forall|p: Seq<usize>| #[trigger] short_simple_path(edges, nc, start, end, h as nat, p) ==>
                    paths_up_to(edges, nc, start, end, h as nat).contains(p),
            decreases clamped - h,
        {
            let ghost pu = paths_up_to(edges, nc, start, end, h as nat);
            let paths = builder_simple_paths(&self.graph, start, end, h);
            let ghost ps = simple_node_paths(edges, nc, start, end, h);
            proof {
                assert(pu + ps.take(0) =~= pu);
            }
            let mut pi: usize = 0;
            while pi < paths.len()
                invariant
                    self.wf(),
                    nodes == self.nodes(),
                    edges == self.edges(),
                    nc == nodes.len(),
                    pi <= paths@.len(),
                    paths@.len() == ps.len(),
                    forall|i: int| 0 <= i < paths@.len() ==> #[trigger] paths@[i]@ == ps[i],
                    forall|i: int| 0 <= i < paths@.len() ==> is_simple_node_path(edges, nc,
                        start, end, (h + 1) as nat, #[trigger] paths@[i]@),
                    step_seqs(all@) == dedup_routes(flatten_paths(nodes, edges, pu + ps.take(pi as int))),
                    seen@.map_values(|v: Vec<PoolId>| v@) == fingerprints(step_seqs(all@)),
                decreases paths@.len() - pi,
            {
                proof {
                    let p = paths@[pi as int]@;
                    assert(is_simple_node_path(edges, nc, start, end, (h + 1) as nat, p));
                    assert forall|i: int| 0 <= i < p.len() implies #[trigger] p[i] < self.nodes().len() by {}
                }
                let expanded = self.expand_node_path(&paths[pi]);
                let ghost flat0 = flatten_paths(nodes, edges, pu + ps.take(pi as int));
                let mut ei: usize = 0;
                proof {
                    assert(flat0 + step_seqs(expanded@).take(0) =~= flat0);
                }
                while ei < expanded.len()
                    invariant
                        ei <= expanded@.len(),
                        step_seqs(all@) == dedup_routes(flat0 + step_seqs(expanded@).take(ei as int)),
                        seen@.map_values(|v: Vec<PoolId>| v@) == fingerprints(step_seqs(all@)),
                    decreases expanded@.len() - ei,
                {
                    let fp = fingerprint_of(&expanded[ei]);
                    let ghost x = flat0 + step_seqs(expanded@).take(ei as int);
                    let ghost rt = expanded@[ei as int]@;
                    proof {
                        assert(flat0 + step_seqs(expanded@).take(ei + 1) =~= x.push(rt));
                        lemma_dedup_push(x, rt);
                    }
                    if !has_fingerprint(&seen, &fp) {
                        let ghost a0 = all@;
                        let ghost s0 = seen@;
                        seen.push(fp);
                        all.push(copy_steps(&expanded[ei]));
                        proof {
                            assert(step_seqs(all@) =~= step_seqs(a0).push(rt));
                            assert(seen@.map_values(|v: Vec<PoolId>| v@) =~= s0.map_values(|v: Vec<PoolId>| v@).push(fingerprint(rt)));
                            assert(fingerprints(step_seqs(all@)) =~= fingerprints(step_seqs(a0)).push(fingerprint(rt)));
                        }
                    }
                    ei = ei + 1;
                }
                proof {
                    assert(step_seqs(expanded@).take(ei as int) =~= step_seqs(expanded@));
                    assert((pu + ps.take(pi + 1)).drop_last() =~= pu + ps.take(pi as int));
                    assert((pu + ps.take(pi + 1)).last() == paths@[pi as int]@);
                }
                pi = pi + 1;
            }
            proof {
                assert(ps.take(pi as int) =~= ps);
                let pu1 = paths_up_to(edges, nc, start, end, (h + 1) as nat);
                assert(pu1 == pu + ps);
                assert forall|i: int| 0 <= i < pu1.len() implies
                    short_simple_path(edges, nc, start, end, (h + 1) as nat, #[trigger] pu1[i]) by {
                    if i < pu.len() {
                        assert(pu1[i] == pu[i]);
                        assert(short_simple_path(edges, nc, start, end, h as nat, pu[i]));
                    } else {
                        assert(pu1[i] == ps[i - pu.len()]);
                        assert(paths@[i - pu.len()]@ == ps[i - pu.len()]);
                    }
                }
                assert forall|p: Seq<usize>| #[trigger] short_simple_path(edges, nc, start, end, (h + 1) as nat, p)
                    implies pu1.contains(p) by {
                    if p.len() - 1 <= h {
                        assert(short_simple_path(edges, nc, start, end, h as nat, p));
                        let i = choose|i: int| 0 <= i < pu.len() && pu[i] == p;
                        assert(pu1[i] == p);
                    } else {
                        assert(is_simple_node_path(edges, nc, start, end, (h + 1) as nat, p));
                        let i = choose|i: int| 0 <= i < paths@.len() && #[trigger] paths@[i]@ == p;
                        assert(pu1[pu.len() + i] == p);
                    }
                }
            }
            h = h + 1;
        }
        proof {
            let pu = paths_up_to(edges, nc, start, end, h as nat);
            let rs = candidate_route_seq(nodes, edges, start, end, clamp_hops(max_hops) as nat);
            assert(rs == step_seqs(all@));
            lemma_candidates_follow(nodes, edges, pu, start, end, h as nat);
            let d = step_seqs(all@);
            assert forall|i: int| 0 <= i < all@.len() implies
                1 <= (#[trigger] all@[i]@).len() <= clamp_hops(max_hops)
                && route_follows(nodes, edges, *input_mint, *output_mint, all@[i]@.len(), all@[i]@) by {
                assert(d[i] == all@[i]@);
            }
            assert forall|i: int, j: int| 0 <= i < j < all@.len() implies
                fingerprint(#[trigger] all@[i]@) != fingerprint(#[trigger] all@[j]@) by {
                assert(d[i] == all@[i]@);
                assert(d[j] == all@[j]@);
            }
            assert forall|p: Seq<usize>, y: int|
                short_simple_path(edges, nc, start, end, clamp_hops(max_hops) as nat, p)
                && 0 <= y < routes_of_path(nodes, edges, p).len()
                implies fingerprints(rs).contains(fingerprint(#[trigger] routes_of_path(nodes, edges, p)[y])) by {
                assert(pu.contains(p));
                let x = choose|x: int| 0 <= x < pu.len() && pu[x] == p;
                lemma_flatten_contains(nodes, edges, pu, x, y);
                lemma_dedup_covers(flatten_paths(nodes, edges, pu), routes_of_path(nodes, edges, p)[y]);
            }
        }
        if all.len() == 0 {
            None
        } else {
            Some(all)
        }
    }
}


/// Whether some edge of pool `st.pool_id` leads from the node of
/// `st.input_mint` to the node of `st.output_mint`.
pub open spec fn step_joins(nodes: Seq<PubkeyBytes>, edges: Seq<(usize, usize, GraphEdge)>, st: RouteStep) -> bool {
    exists|e: int| 0 <= e < edges.len() && #[trigger] edges[e].2.pool_id == st.pool_id
        && nodes[edges[e].0 as int] == st.input_mint && nodes[edges[e].1 as int] == st.output_mint
}

/// Whether `rt` is a route of `hops` pools from `from` to `to`: each step
/// through a pool joining its two mints, each step starting where the
/// previous one ended.
pub open spec fn route_follows(
    nodes: Seq<PubkeyBytes>,
    edges: Seq<(usize, usize, GraphEdge)>,
    from: PubkeyBytes,
    to: PubkeyBytes,
    hops: nat,
    rt: Seq<RouteStep>,
) -> bool {
    &&& rt.len() == hops
    &&& rt[0].input_mint == from
    &&& rt.last().output_mint == to
    &&& forall|j: int| 0 <= j < hops - 1 ==> #[trigger] rt[j].output_mint == rt[j + 1].input_mint
    &&& forall|j: int| 0 <= j < hops ==> step_joins(nodes, edges, #[trigger] rt[j])
}

proof fn lemma_hop_pool_ids_member(edges: Seq<(usize, usize, GraphEdge)>, ids: Seq<int>, v: usize, m: int)
    requires
        0 <= m < hop_pool_ids(edges, ids, v).len(),
    ensures
        exists|x: int| 0 <= x < ids.len() && edges[#[trigger] ids[x]].1 == v
            && edges[ids[x]].2.pool_id == hop_pool_ids(edges, ids, v)[m],
    decreases ids.len(),
{
    let prev = hop_pool_ids(edges, ids.drop_last(), v);
    if m < prev.len() {
        lemma_hop_pool_ids_member(edges, ids.drop_last(), v, m);
        let x = choose|x: int| 0 <= x < ids.drop_last().len() && edges[#[trigger] ids.drop_last()[x]].1 == v
            && edges[ids.drop_last()[x]].2.pool_id == prev[m];
        assert(ids[x] == ids.drop_last()[x]);
    } else {
        assert(ids[ids.len() - 1] == ids.last());
    }
}

proof fn lemma_hop_step_member(nodes: Seq<PubkeyBytes>, edges: Seq<(usize, usize, GraphEdge)>, u: usize, v: usize, m: int)
    requires
        0 <= m < hop_step_seq(nodes, edges, u, v).len(),
    ensures
        hop_step_seq(nodes, edges, u, v)[m].input_mint == nodes[u as int],
        hop_step_seq(nodes, edges, u, v)[m].output_mint == nodes[v as int],
        step_joins(nodes, edges, hop_step_seq(nodes, edges, u, v)[m]),
{
    let ids = edges_leaving(edges, u, edges.len());
    lemma_edges_leaving(edges, u, edges.len());
    lemma_hop_pool_ids_member(edges, ids, v, m);
    let x = choose|x: int| 0 <= x < ids.len() && edges[#[trigger] ids[x]].1 == v
        && edges[ids[x]].2.pool_id == hop_pool_ids(edges, ids, v)[m];
    let e = ids[x];
    assert(edges[e].2.pool_id == hop_step_seq(nodes, edges, u, v)[m].pool_id);
}

proof fn lemma_extend_member(cands: Seq<Seq<RouteStep>>, steps: Seq<RouteStep>, i: int)
    requires
        0 <= i < extend_routes(cands, steps).len(),
    ensures
        exists|ci: int, si: int| 0 <= ci < cands.len() && 0 <= si < steps.len()
            && extend_routes(cands, steps)[i] == cands[ci].push(steps[si]),
    decreases cands.len(),
{
    let prev = extend_routes(cands.drop_last(), steps);
    if i < prev.len() {
        lemma_extend_member(cands.drop_last(), steps, i);
        let (ci, si) = choose|ci: int, si: int| 0 <= ci < cands.drop_last().len() && 0 <= si < steps.len()
            && prev[i] == cands.drop_last()[ci].push(steps[si]);
        assert(cands[ci] == cands.drop_last()[ci]);
    } else {
        let si = i - prev.len();
        assert(extend_routes(cands, steps)[i] == cands.last().push(steps[si]));
        assert(cands[cands.len() - 1] == cands.last());
    }
}

/// Each route along the first `k` hops of a node path has `k` steps, step
/// `j` going from the `j`-th node's mint to the next one's through a pool
/// joining them.
proof fn lemma_path_routes_shape(nodes: Seq<PubkeyBytes>, edges: Seq<(usize, usize, GraphEdge)>, p: Seq<usize>, k: nat)
    requires
        k < p.len(),
    ensures
        forall|i: int| 0 <= i < path_routes(nodes, edges, p, k).len() ==> {
            let rt = #[trigger] path_routes(nodes, edges, p, k)[i];
            &&& rt.len() == k
            &&& forall|j: int| 0 <= j < k ==> (#[trigger] rt[j]).input_mint == nodes[p[j] as int]
                && rt[j].output_mint == nodes[p[j + 1] as int] && step_joins(nodes, edges, rt[j])
        },
    decreases k,
{
    if k > 0 {
        lemma_path_routes_shape(nodes, edges, p, (k - 1) as nat);
        let cands = path_routes(nodes, edges, p, (k - 1) as nat);
        let steps = hop_step_seq(nodes, edges, p[k - 1], p[k as int]);
        assert forall|i: int| 0 <= i < path_routes(nodes, edges, p, k).len() implies {
            let rt = #[trigger] path_routes(nodes, edges, p, k)[i];
            &&& rt.len() == k
            &&& forall|j: int| 0 <= j < k ==> (#[trigger] rt[j]).input_mint == nodes[p[j] as int]
                && rt[j].output_mint == nodes[p[j + 1] as int] && step_joins(nodes, edges, rt[j])
        } by {
            lemma_extend_member(cands, steps, i);
            let (ci, si) = choose|ci: int, si: int| 0 <= ci < cands.len() && 0 <= si < steps.len()
                && extend_routes(cands, steps)[i] == cands[ci].push(steps[si]);
            lemma_hop_step_member(nodes, edges, p[k - 1], p[k as int], si);
            let rt = path_routes(nodes, edges, p, k)[i];
            let c = cands[ci];
            assert forall|j: int| 0 <= j < k implies (#[trigger] rt[j]).input_mint == nodes[p[j] as int]
                && rt[j].output_mint == nodes[p[j + 1] as int] && step_joins(nodes, edges, rt[j]) by {
                if j < k - 1 {
                    assert(rt[j] == c[j]);
                } else {
                    assert(rt[j] == steps[si]);
                }
            }
        }
    }
}

proof fn lemma_flatten_member(nodes: Seq<PubkeyBytes>, edges: Seq<(usize, usize, GraphEdge)>, paths: Seq<Seq<usize>>, i: int)
    requires
        0 <= i < flatten_paths(nodes, edges, paths).len(),
    ensures
        exists|x: int, y: int| 0 <= x < paths.len() && 0 <= y < routes_of_path(nodes, edges, paths[x]).len()
            && flatten_paths(nodes, edges, paths)[i] == #[trigger] routes_of_path(nodes, edges, paths[x])[y],
    decreases paths.len(),
{
    let prev = flatten_paths(nodes, edges, paths.drop_last());
    if i < prev.len() {
        lemma_flatten_member(nodes, edges, paths.drop_last(), i);
        let (x, y) = choose|x: int, y: int| 0 <= x < paths.drop_last().len()
            && 0 <= y < routes_of_path(nodes, edges, paths.drop_last()[x]).len()
            && prev[i] == #[trigger] routes_of_path(nodes, edges, paths.drop_last()[x])[y];
        assert(paths[x] == paths.drop_last()[x]);
        assert(flatten_paths(nodes, edges, paths)[i] == prev[i]);
    } else {
        let y = i - prev.len();
        assert(paths[paths.len() - 1] == paths.last());
        assert(flatten_paths(nodes, edges, paths)[i] == routes_of_path(nodes, edges, paths[paths.len() - 1])[y]);
    }
}

proof fn lemma_dedup_facts(rs: Seq<Seq<RouteStep>>)
    ensures
        forall|i: int| 0 <= i < dedup_routes(rs).len() ==> exists|j: int| 0 <= j < rs.len()
            && #[trigger] dedup_routes(rs)[i] == rs[j],
        forall|i: int, j: int| 0 <= i < j < dedup_routes(rs).len() ==>
            fingerprint(#[trigger] dedup_routes(rs)[i]) != fingerprint(#[trigger] dedup_routes(rs)[j]),
    decreases rs.len(),
{
    if rs.len() > 0 {
        let init = rs.drop_last();
        lemma_dedup_facts(init);
        let prev = dedup_routes(init);
        let d = dedup_routes(rs);
        assert forall|i: int| 0 <= i < d.len() implies exists|j: int| 0 <= j < rs.len() && #[trigger] d[i] == rs[j] by {
            if i < prev.len() {
                let j = choose|j: int| 0 <= j < init.len() && prev[i] == init[j];
                assert(rs[j] == init[j]);
            } else {
                assert(d[i] == rs[rs.len() - 1]);
            }
        }
        if !fingerprints(prev).contains(fingerprint(rs.last())) {
            assert forall|i: int, j: int| 0 <= i < j < d.len() implies
                fingerprint(#[trigger] d[i]) != fingerprint(#[trigger] d[j]) by {
                if j == prev.len() {
                    assert(fingerprints(prev)[i] == fingerprint(prev[i]));
                }
            }
        }
    }
}

/// The candidate routes along simple node paths from `start` to `end` of
/// 1 to `max_hops` edges are routes of as many pools as their path has
/// edges, from the mint of `start` to that of `end`, no two with the same pools.
proof fn lemma_candidates_follow(
    nodes: Seq<PubkeyBytes>,
    edges: Seq<(usize, usize, GraphEdge)>,
    paths: Seq<Seq<usize>>,
    start: usize,
    end: usize,
    max_hops: nat,
)
    requires
        forall|i: int| 0 <= i < paths.len() ==> short_simple_path(edges, nodes.len(), start, end, max_hops, #[trigger] paths[i]),
    ensures
        forall|i: int| 0 <= i < dedup_routes(flatten_paths(nodes, edges, paths)).len() ==> {
            let rt = #[trigger] dedup_routes(flatten_paths(nodes, edges, paths))[i];
            &&& 1 <= rt.len() <= max_hops
            &&& route_follows(nodes, edges, nodes[start as int], nodes[end as int], rt.len(), rt)
        },
        forall|i: int, j: int| 0 <= i < j < dedup_routes(flatten_paths(nodes, edges, paths)).len() ==>
            fingerprint(#[trigger] dedup_routes(flatten_paths(nodes, edges, paths))[i])
                != fingerprint(#[trigger] dedup_routes(flatten_paths(nodes, edges, paths))[j]),
{
    let flat = flatten_paths(nodes, edges, paths);
    let d = dedup_routes(flat);
    lemma_dedup_facts(flat);
    assert forall|i: int| 0 <= i < d.len() implies {
        let rt = #[trigger] d[i];
        &&& 1 <= rt.len() <= max_hops
        &&& route_follows(nodes, edges, nodes[start as int], nodes[end as int], rt.len(), rt)
    } by {
        let j = choose|j: int| 0 <= j < flat.len() && d[i] == flat[j];
        lemma_flatten_member(nodes, edges, paths, j);
        let (x, y) = choose|x: int, y: int| 0 <= x < paths.len() && 0 <= y < routes_of_path(nodes, edges, paths[x]).len()
            && flat[j] == #[trigger] routes_of_path(nodes, edges, paths[x])[y];
        let p = paths[x];
        assert(short_simple_path(edges, nodes.len(), start, end, max_hops, p));
        let hops = (p.len() - 1) as nat;
        lemma_path_routes_shape(nodes, edges, p, hops);
        let rt = d[i];
        assert(rt == path_routes(nodes, edges, p, hops)[y]);
        assert(rt.len() == hops);
        assert(rt[0].input_mint == nodes[p[0] as int]);
        assert(rt[hops - 1].output_mint == nodes[p[hops as int] as int]);
        assert(p[hops as int] == p.last());
        assert forall|q: int| 0 <= q < hops - 1 implies #[trigger] rt[q].output_mint == rt[q + 1].input_mint by {
            assert(rt[q].output_mint == nodes[p[q + 1] as int]);
            assert(rt[q + 1].input_mint == nodes[p[q + 1] as int]);
        }
        assert forall|q: int| 0 <= q < hops implies step_joins(nodes, edges, #[trigger] rt[q]) by {
            assert(rt[q].input_mint == nodes[p[q] as int]);
        }
    }
}

/// The flattened routes hold every route of every path.
proof fn lemma_flatten_contains(nodes: Seq<PubkeyBytes>, edges: Seq<(usize, usize, GraphEdge)>, paths: Seq<Seq<usize>>,
    x: int, y: int)
    requires
        0 <= x < paths.len(),
        0 <= y < routes_of_path(nodes, edges, paths[x]).len(),
    ensures
        flatten_paths(nodes, edges, paths).contains(routes_of_path(nodes, edges, paths[x])[y]),
    decreases paths.len(),
{
    let prev = flatten_paths(nodes, edges, paths.drop_last());
    let flat = flatten_paths(nodes, edges, paths);
    if x < paths.len() - 1 {
        assert(paths.drop_last()[x] == paths[x]);
        lemma_flatten_contains(nodes, edges, paths.drop_last(), x, y);
        let k = choose|k: int| 0 <= k < prev.len() && prev[k] == routes_of_path(nodes, edges, paths[x])[y];
        assert(flat[k] == prev[k]);
    } else {
        assert(paths.last() == paths[x]);
        assert(flat[prev.len() + y] == routes_of_path(nodes, edges, paths[x])[y]);
    }
}

/// Dropping repeated pool combinations keeps every combination once.
proof fn lemma_dedup_covers(rs: Seq<Seq<RouteStep>>, rt: Seq<RouteStep>)
    requires
        rs.contains(rt),
    ensures
        fingerprints(dedup_routes(rs)).contains(fingerprint(rt)),
    decreases rs.len(),
{
    let init = rs.drop_last();
    let prev = dedup_routes(init);
    let d = dedup_routes(rs);
    if init.contains(rt) {
        lemma_dedup_covers(init, rt);
        let k = choose|k: int| 0 <= k < fingerprints(prev).len() && fingerprints(prev)[k] == fingerprint(rt);
        if !fingerprints(prev).contains(fingerprint(rs.last())) {
            assert(d == prev.push(rs.last()));
            assert(fingerprints(d)[k] == fingerprints(prev)[k]);
        }
    } else {
        let k = choose|k: int| 0 <= k < rs.len() && rs[k] == rt;
        if k < init.len() {
            assert(init[k] == rt);
        }
        assert(rs.last() == rt);
        if !fingerprints(prev).contains(fingerprint(rt)) {
            assert(d == prev.push(rt));
            assert(fingerprints(d)[prev.len() as int] == fingerprint(rt));
        }
    }
}

} // verus!
