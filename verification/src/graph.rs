use vstd::prelude::*;
use petgraph::algo::dijkstra;
use petgraph::graph::{Graph, NodeIndex};
use petgraph::visit::{EdgeRef, Reversed};
use petgraph::Directed;
use vstd::string::StringSliceAdditionalSpecFns;
use vstd::utf8::encode_utf8;
use crate::types::{PoolEdge, MAX_SUPPORTED_HOPS};

verus! {

#[verifier::external_type_specification]
#[verifier::external_body]
#[verifier::reject_recursive_types(N)]
#[verifier::reject_recursive_types(E)]
#[verifier::reject_recursive_types(Ty)]
#[verifier::reject_recursive_types(Ix)]
pub struct ExGraph<N, E, Ty, Ix>(Graph<N, E, Ty, Ix>);

#[verifier::external_type_specification]
#[verifier::external_body]
pub struct ExDirected(Directed);

/// The node weights of a token graph, by node index.
pub uninterp spec fn graph_nodes(g: Graph<String, PoolEdge, Directed, u32>) -> Seq<String>;

/// The edges of a token graph, by edge index: source node, target node, weight.
pub uninterp spec fn graph_edges(g: Graph<String, PoolEdge, Directed, u32>) -> Seq<(usize, usize, PoolEdge)>;

/// Indices of the edges leaving `n` among the first `k` edges, most recently added first.
pub open spec fn out_edge_ids(edges: Seq<(usize, usize, PoolEdge)>, n: usize, k: nat) -> Seq<int>
    decreases k,
{
    if k == 0 || k > edges.len() {
        Seq::empty()
    } else if edges[k - 1].0 == n {
        seq![k - 1] + out_edge_ids(edges, n, (k - 1) as nat)
    } else {
        out_edge_ids(edges, n, (k - 1) as nat)
    }
}

/// Whether a walk of exactly `len` edges leads from `from` to `to`.
pub open spec fn has_walk(edges: Seq<(usize, usize, PoolEdge)>, from: usize, to: usize, len: nat) -> bool
    decreases len,
{
    if len == 0 {
        from == to
    } else {
        exists|e: int| 0 <= e < edges.len() && edges[e].0 == from && has_walk(edges, edges[e].1, to, (len - 1) as nat)
    }
}

/// Length of a shortest walk from `from` to `to`, if `to` is reachable.
pub open spec fn hop_distance(edges: Seq<(usize, usize, PoolEdge)>, from: usize, to: usize) -> Option<nat> {
    if exists|d: nat| has_walk(edges, from, to, d) {
        Some(choose|d: nat| has_walk(edges, from, to, d) && forall|d2: nat| d2 < d ==> !has_walk(edges, from, to, d2))
    } else {
        None
    }
}

/// An empty directed graph; the capacities are only allocation hints.
/// Calls `Graph::with_capacity`, which starts with no node and no edge.
#[verifier::external_body]
fn graph_with_capacity(nodes: usize, edges: usize) -> (g: Graph<String, PoolEdge, Directed, u32>)
    ensures
        graph_nodes(g) == Seq::<String>::empty(),
        graph_edges(g) == Seq::<(usize, usize, PoolEdge)>::empty(),
{
    Graph::with_capacity(nodes, edges)
}

/// Calls `Graph::add_node`: appends a node and returns its index. It panics
/// once the `u32` index space is exhausted, which `requires` rules out.
#[verifier::external_body]
fn graph_add_node(g: &mut Graph<String, PoolEdge, Directed, u32>, weight: String) -> (r: usize)
    requires
        graph_nodes(*old(g)).len() < u32::MAX,
    ensures
        r == graph_nodes(*old(g)).len(),
        graph_nodes(*final(g)) == graph_nodes(*old(g)).push(weight),
        graph_edges(*final(g)) == graph_edges(*old(g)),
{
    g.add_node(weight).index()
}

/// Calls `Graph::add_edge`: appends a directed edge. It panics when an
/// endpoint does not exist or the `u32` index space is exhausted, which
/// `requires` rules out.
#[verifier::external_body]
fn graph_add_edge(g: &mut Graph<String, PoolEdge, Directed, u32>, a: usize, b: usize, weight: PoolEdge)
    requires
        a < graph_nodes(*old(g)).len(),
        b < graph_nodes(*old(g)).len(),
        graph_edges(*old(g)).len() < u32::MAX,
    ensures
        graph_nodes(*final(g)) == graph_nodes(*old(g)),
        graph_edges(*final(g)) == graph_edges(*old(g)).push((a, b, weight)),
{
    g.add_edge(NodeIndex::new(a), NodeIndex::new(b), weight);
}

/// Calls `Graph::node_count`. With `u32` indices petgraph refuses a node
/// whose index would be `u32::MAX`, so no graph holds more nodes than that.
#[verifier::external_body]
fn graph_node_count(g: &Graph<String, PoolEdge, Directed, u32>) -> (r: usize)
    ensures
        r == graph_nodes(*g).len(),
        r <= 0xffff_ffff,
{
    g.node_count()
}

/// Calls `Graph::edge_count`.
#[verifier::external_body]
fn graph_edge_count(g: &Graph<String, PoolEdge, Directed, u32>) -> (r: usize)
    ensures
        r == graph_edges(*g).len(),
{
    g.edge_count()
}

/// Calls `Graph::node_weight`: the weight of node `i`, if it exists. The
/// index is converted to `u32` first, so it must fit in one.
#[verifier::external_body]
fn graph_node_weight(g: &Graph<String, PoolEdge, Directed, u32>, i: usize) -> (r: Option<&String>)
    requires
        i <= 0xffff_ffff,
    ensures
        match r {
            Some(w) => i < graph_nodes(*g).len() && *w == graph_nodes(*g)[i as int],
            None => i >= graph_nodes(*g).len(),
        },
{
    g.node_weight(NodeIndex::new(i))
}

/// Reads edge `i` through `Graph::raw_edges`: source, target and weight;
/// the endpoints are `u32` node indices.
#[verifier::external_body]
fn graph_edge_at(g: &Graph<String, PoolEdge, Directed, u32>, i: usize) -> (r: (usize, usize, &PoolEdge))
    requires
        i < graph_edges(*g).len(),
    ensures
        r.0 <= 0xffff_ffff,
        r.1 <= 0xffff_ffff,
        r.0 == graph_edges(*g)[i as int].0,
        r.1 == graph_edges(*g)[i as int].1,
        *r.2 == graph_edges(*g)[i as int].2,
{
    let e = &g.raw_edges()[i];
    (e.source().index(), e.target().index(), &e.weight)
}

/// Calls `Graph::edges`: the indices of the edges leaving node `n`, which
/// petgraph lists most recently added first.
#[verifier::external_body]
fn graph_outgoing(g: &Graph<String, PoolEdge, Directed, u32>, n: usize) -> (r: Vec<usize>)
    requires
        n < graph_nodes(*g).len(),
    ensures
        r@.len() == out_edge_ids(graph_edges(*g), n, graph_edges(*g).len()).len(),
        forall|j: int| 0 <= j < r@.len() ==>
            #[trigger] r@[j] == out_edge_ids(graph_edges(*g), n, graph_edges(*g).len())[j],
{
    g.edges(NodeIndex::new(n)).map(|e| e.id().index()).collect()
}

/// Calls `petgraph::algo::dijkstra` on the reversed graph from `target`
/// with unit edge costs: for every node, the length of a shortest walk from
/// it to `target`, or `None` when `target` cannot be reached.
#[verifier::external_body]
fn graph_hops_to(g: &Graph<String, PoolEdge, Directed, u32>, target: usize) -> (r: Vec<Option<usize>>)
    requires
        target < graph_nodes(*g).len(),
    ensures
        r@.len() == graph_nodes(*g).len(),
        forall|v: int| 0 <= v < r@.len() ==> match #[trigger] r@[v] {
            Some(d) => hop_distance(graph_edges(*g), v as usize, target) == Some(d as nat),
            None => hop_distance(graph_edges(*g), v as usize, target) is None,
        },
{
    let scores = dijkstra(Reversed(g), NodeIndex::new(target), None, |_| 1usize);
    (0..g.node_count()).map(|v| scores.get(&NodeIndex::<u32>::new(v)).copied()).collect()
}


/// Tokens are nodes, pools are edges (one in each direction).
pub struct RouteGraph {
    pub graph: Graph<String, PoolEdge, Directed, u32>,
    /// Node index of each token mint.
    pub mint_to_node: Vec<(String, usize)>,
    /// Pools left out because both of their sides are the same mint.
    pub dropped_self_loop_pools: usize,
}

/// Node index recorded for mint `m`: the first entry for it.
pub open spec fn lookup_mint(map: Seq<(String, usize)>, m: Seq<char>) -> Option<usize>
    decreases map.len(),
{
    if map.len() == 0 {
        None
    } else if map[0].0@ == m {
        Some(map[0].1)
    } else {
        lookup_mint(map.drop_first(), m)
    }
}

proof fn lemma_lookup_mint_skip(map: Seq<(String, usize)>, m: Seq<char>, i: int)
    requires
        0 <= i <= map.len(),
        forall|j: int| 0 <= j < i ==> map[j].0@ != m,
    ensures
        lookup_mint(map, m) == lookup_mint(map.subrange(i, map.len() as int), m),
    decreases i,
{
    if i == 0 {
        assert(map.subrange(0, map.len() as int) =~= map);
    } else {
        lemma_lookup_mint_skip(map.drop_first(), m, i - 1);
        assert(map.drop_first().subrange(i - 1, map.len() - 1) =~= map.subrange(i, map.len() as int));
    }
}

/// Pools whose two sides are different mints, in order.
pub open spec fn kept_pools(pools: Seq<PoolEdge>) -> Seq<PoolEdge>
    decreases pools.len(),
{
    if pools.len() == 0 {
        Seq::empty()
    } else if pools.last().token_a.mint@ == pools.last().token_b.mint@ {
        kept_pools(pools.drop_last())
    } else {
        kept_pools(pools.drop_last()).push(pools.last())
    }
}

/// The mints of `nodes`.
pub open spec fn node_mints(nodes: Seq<String>) -> Seq<Seq<char>> {
    nodes.map_values(|n: String| n@)
}

/// `s` with `m` appended when it is not yet there.
pub open spec fn add_mint(s: Seq<Seq<char>>, m: Seq<char>) -> Seq<Seq<char>> {
    if s.contains(m) { s } else { s.push(m) }
}

/// The distinct mints of `kept` in order of first appearance, token a
/// before token b of each pool.
pub open spec fn mint_order(kept: Seq<PoolEdge>) -> Seq<Seq<char>>
    decreases kept.len(),
{
    if kept.len() == 0 {
        Seq::empty()
    } else {
        add_mint(add_mint(mint_order(kept.drop_last()), kept.last().token_a.mint@), kept.last().token_b.mint@)
    }
}

/// Whether mint `m` is a side of one of `pools`.
pub open spec fn has_mint(pools: Seq<PoolEdge>, m: Seq<char>) -> bool {
    exists|k: int| 0 <= k < pools.len() && (#[trigger] pools[k].token_a.mint@ == m || pools[k].token_b.mint@ == m)
}

/// Node layout of a graph built from `kept`: one node per distinct mint,
/// recorded in `map` under its index, and for the k-th kept pool the edges
/// 2k (token a to token b) and 2k+1 (back).
pub open spec fn built_core(
    nodes: Seq<String>,
    edges: Seq<(usize, usize, PoolEdge)>,
    map: Seq<(String, usize)>,
    kept: Seq<PoolEdge>,
) -> bool {
    &&& map.len() == nodes.len()
    &&& forall|j: int| 0 <= j < map.len() ==> #[trigger] map[j].0@ == nodes[j]@ && map[j].1 == j
    &&& forall|i: int, j: int| 0 <= i < j < nodes.len() ==> nodes[i]@ != nodes[j]@
    &&& edges.len() == 2 * kept.len()
    &&& forall|k: int| 0 <= k < kept.len() ==> {
        let fwd = #[trigger] edges[2 * k];
        let back = edges[2 * k + 1];
        &&& fwd.2 == kept[k] && back.2 == kept[k]
        &&& fwd.0 < nodes.len() && fwd.1 < nodes.len()
        &&& back.0 == fwd.1 && back.1 == fwd.0
        &&& nodes[fwd.0 as int]@ == kept[k].token_a.mint@
        &&& nodes[fwd.1 as int]@ == kept[k].token_b.mint@
    }
}

/// The shape `RouteGraph::new` gives a graph built from `kept`: the layout
/// above, with every node the mint of some kept pool.
pub open spec fn built_from(
    nodes: Seq<String>,
    edges: Seq<(usize, usize, PoolEdge)>,
    map: Seq<(String, usize)>,
    kept: Seq<PoolEdge>,
) -> bool {
    &&& built_core(nodes, edges, map, kept)
    &&& forall|i: int| 0 <= i < nodes.len() ==> has_mint(kept, #[trigger] nodes[i]@)
}

/// Node `i` is a side of kept pool `src[i]`.
pub open spec fn sourced(nodes: Seq<String>, kept: Seq<PoolEdge>, src: Seq<int>) -> bool {
    &&& src.len() == nodes.len()
    &&& forall|i: int| 0 <= i < nodes.len() ==> 0 <= #[trigger] src[i] < kept.len()
        && (kept[src[i]].token_a.mint@ == nodes[i]@ || kept[src[i]].token_b.mint@ == nodes[i]@)
}

impl RouteGraph {
    pub open spec fn nodes(&self) -> Seq<String> {
        graph_nodes(self.graph)
    }

    pub open spec fn edges(&self) -> Seq<(usize, usize, PoolEdge)> {
        graph_edges(self.graph)
    }

    /// Node of `mint`, adding one (and its map entry) if it has none.
    fn node_for(
        graph: &mut Graph<String, PoolEdge, Directed, u32>,
        map: &mut Vec<(String, usize)>,
        mint: &String,
        Ghost(kept): Ghost<Seq<PoolEdge>>,
    ) -> (r: usize)
        requires
            built_core(graph_nodes(*old(graph)), graph_edges(*old(graph)), old(map)@, kept),
            graph_nodes(*old(graph)).len() < u32::MAX,
        ensures
            built_core(graph_nodes(*final(graph)), graph_edges(*final(graph)), final(map)@, kept),
            graph_edges(*final(graph)) == graph_edges(*old(graph)),
            r < graph_nodes(*final(graph)).len(),
            graph_nodes(*final(graph))[r as int]@ == mint@,
            graph_nodes(*final(graph)) == graph_nodes(*old(graph))
                || graph_nodes(*final(graph)) == graph_nodes(*old(graph)).push(*mint),
            node_mints(graph_nodes(*final(graph))) == add_mint(node_mints(graph_nodes(*old(graph))), mint@),
    {
        let mut j: usize = 0;
        while j < map.len()
            invariant
                j <= map@.len(),
                built_core(graph_nodes(*graph), graph_edges(*graph), map@, kept),
                forall|i: int| 0 <= i < j ==> map@[i].0@ != mint@,
            decreases map@.len() - j,
        {
            if map[j].0 == *mint {
                proof {
                    assert(node_mints(graph_nodes(*graph))[j as int] == mint@);
                    assert(node_mints(graph_nodes(*graph)).contains(mint@));
                }
                return map[j].1;
            }
            j = j + 1;
        }
        let ghost old_nodes = graph_nodes(*graph);
        proof {
            assert(!node_mints(old_nodes).contains(mint@)) by {
                if node_mints(old_nodes).contains(mint@) {
                    let i = choose|i: int| 0 <= i < node_mints(old_nodes).len() && node_mints(old_nodes)[i] == mint@;
                    assert(map@[i].0@ == old_nodes[i]@);
                }
            }
        }
        let idx = graph_add_node(graph, mint.clone());
        let ghost old_map = map@;
        map.push((mint.clone(), idx));
        proof {
            assert(node_mints(graph_nodes(*graph)) =~= node_mints(old_nodes).push(mint@));
            let nodes = graph_nodes(*graph);
            assert(nodes[idx as int] == *mint);
            assert forall|j: int| 0 <= j < map@.len() implies #[trigger] map@[j].0@ == nodes[j]@ && map@[j].1 == j by {
                if j < old_map.len() {
                    assert(map@[j] == old_map[j]);
                    assert(nodes[j] == old_nodes[j]);
                }
            }
            assert forall|i: int, k: int| 0 <= i < k < nodes.len() implies nodes[i]@ != nodes[k]@ by {
                if k == idx {
                    assert(map@[i].0@ == nodes[i]@);
                }
            }
            assert forall|k: int| 0 <= k < kept.len() implies {
                let fwd = #[trigger] graph_edges(*graph)[2 * k];
                nodes[fwd.0 as int]@ == kept[k].token_a.mint@ && nodes[fwd.1 as int]@ == kept[k].token_b.mint@
            } by {
                let fwd = graph_edges(*graph)[2 * k];
                assert(nodes[fwd.0 as int] == old_nodes[fwd.0 as int]);
                assert(nodes[fwd.1 as int] == old_nodes[fwd.1 as int]);
            }
        }
        idx
    }

    /// Builds the token graph of `pools`, leaving out pools whose two sides
    /// are the same mint.
    pub fn new(pools: &[PoolEdge]) -> (r: Self)
        requires
            pools@.len() < 0x7fff_fffe,
        ensures
            built_from(r.nodes(), r.edges(), r.mint_to_node@, kept_pools(pools@)),
            node_mints(r.nodes()) == mint_order(kept_pools(pools@)),
            r.dropped_self_loop_pools == pools@.len() - kept_pools(pools@).len(),
    {
        let edge_capacity = pools.len() * 2;
        let mut graph = graph_with_capacity(pools.len(), edge_capacity);
        let mut mint_to_node: Vec<(String, usize)> = Vec::new();
        let mut dropped_self_loop_pools: usize = 0;
        let ghost mut src: Seq<int> = Seq::empty();
        let mut p: usize = 0;
        while p < pools.len()
            invariant
                p <= pools@.len() < 0x7fff_fffe,
                built_core(graph_nodes(graph), graph_edges(graph), mint_to_node@,
                    kept_pools(pools@.subrange(0, p as int))),
                sourced(graph_nodes(graph), kept_pools(pools@.subrange(0, p as int)), src),
                dropped_self_loop_pools == p - kept_pools(pools@.subrange(0, p as int)).len(),
                kept_pools(pools@.subrange(0, p as int)).len() <= p,
                graph_nodes(graph).len() <= 2 * kept_pools(pools@.subrange(0, p as int)).len(),
                node_mints(graph_nodes(graph)) == mint_order(kept_pools(pools@.subrange(0, p as int))),
            decreases pools@.len() - p,
        {
            let pool = &pools[p];
            let ghost prefix = pools@.subrange(0, p as int);
            let ghost next = pools@.subrange(0, p + 1);
            proof {
                assert(next.drop_last() =~= prefix);
                assert(next.last() == *pool);
            }
            if pool.token_a.mint == pool.token_b.mint {
                dropped_self_loop_pools = dropped_self_loop_pools + 1;
                proof {
                    assert(kept_pools(next) == kept_pools(prefix));
                }
            } else {
                let ghost kept = kept_pools(prefix);
                let ghost kept2 = kept_pools(next);
                let ghost kl = kept.len() as int;
                proof {
                    assert(kept2 =~= kept.push(*pool));
                    let nodes = graph_nodes(graph);
                    let edges = graph_edges(graph);
                    assert forall|k: int| 0 <= k < kept.len() implies {
                        let fwd = #[trigger] edges[2 * k];
                        let back = edges[2 * k + 1];
                        &&& fwd.2 == kept2[k] && back.2 == kept2[k]
                        &&& fwd.0 < nodes.len() && fwd.1 < nodes.len()
                        &&& back.0 == fwd.1 && back.1 == fwd.0
                        &&& nodes[fwd.0 as int]@ == kept2[k].token_a.mint@
                        &&& nodes[fwd.1 as int]@ == kept2[k].token_b.mint@
                    } by {
                        assert(kept2[k] == kept[k]);
                    }
                    assert(built_core(nodes, edges, mint_to_node@, kept2.drop_last()));
                    assert(kept2.drop_last() =~= kept);
                    assert(kept2.last() == *pool);
                    assert(mint_order(kept2) == add_mint(add_mint(mint_order(kept), pool.token_a.mint@),
                        pool.token_b.mint@));
                }
                let ghost nodes0 = graph_nodes(graph);
                let node_a = Self::node_for(&mut graph, &mut mint_to_node, &pool.token_a.mint, Ghost(kept2.drop_last()));
                let ghost nodes1 = graph_nodes(graph);
                let node_b = Self::node_for(&mut graph, &mut mint_to_node, &pool.token_b.mint, Ghost(kept2.drop_last()));
                let ghost nodes2 = graph_nodes(graph);
                proof {
                    let src1 = if nodes1 == nodes0 { src } else { src.push(kl) };
                    let src2 = if nodes2 == nodes1 { src1 } else { src1.push(kl) };
                    assert(sourced(nodes2, kept2, src2)) by {
                        assert forall|i: int| 0 <= i < nodes2.len() implies 0 <= #[trigger] src2[i] < kept2.len()
                            && (kept2[src2[i]].token_a.mint@ == nodes2[i]@ || kept2[src2[i]].token_b.mint@ == nodes2[i]@) by {
                            if i < nodes0.len() {
                                assert(src2[i] == src[i]);
                                assert(nodes2[i] == nodes0[i]);
                                assert(kept2[src[i]] == kept[src[i]]);
                            } else if i < nodes1.len() {
                                assert(src2[i] == kl);
                                assert(nodes2[i] == nodes1[i]);
                            } else {
                                assert(src2[i] == kl);
                            }
                        }
                    }
                    src = src2;
                }
                let ghost edges0 = graph_edges(graph);
                graph_add_edge(&mut graph, node_a, node_b, pool.duplicate());
                graph_add_edge(&mut graph, node_b, node_a, pool.duplicate());
                proof {
                    let nodes = graph_nodes(graph);
                    let edges = graph_edges(graph);
                    assert(kept2.drop_last() =~= kept);
                    assert(edges.len() == 2 * kept2.len());
                    assert(edges[2 * kl] == (node_a, node_b, *pool));
                    assert(edges[2 * kl + 1] == (node_b, node_a, *pool));
                    assert(nodes[node_a as int]@ == pool.token_a.mint@);
                    assert forall|k: int| 0 <= k < kept2.len() implies {
                        let fwd = #[trigger] edges[2 * k];
                        let back = edges[2 * k + 1];
                        &&& fwd.2 == kept2[k] && back.2 == kept2[k]
                        &&& fwd.0 < nodes.len() && fwd.1 < nodes.len()
                        &&& back.0 == fwd.1 && back.1 == fwd.0
                        &&& nodes[fwd.0 as int]@ == kept2[k].token_a.mint@
                        &&& nodes[fwd.1 as int]@ == kept2[k].token_b.mint@
                    } by {
                        if k < kl {
                            assert(edges[2 * k] == edges0[2 * k]);
                            assert(edges[2 * k + 1] == edges0[2 * k + 1]);
                        }
                    }
                    assert(built_core(nodes, edges, mint_to_node@, kept2));
                }
            }
            p = p + 1;
        }
        proof {
            assert(pools@.subrange(0, pools@.len() as int) =~= pools@);
            let kept = kept_pools(pools@);
            let nodes = graph_nodes(graph);
            assert forall|i: int| 0 <= i < nodes.len() implies has_mint(kept, #[trigger] nodes[i]@) by {
                let k = src[i];
                if kept[k].token_a.mint@ == nodes[i]@ {
                    assert(kept[k].token_a.mint@ == nodes[i]@);
                } else {
                    assert(kept[k].token_b.mint@ == nodes[i]@);
                }
            }
        }
        RouteGraph { graph, mint_to_node, dropped_self_loop_pools }
    }
}


/// Size counters of a token graph.
#[derive(Debug, Clone, Copy, PartialEq, Eq, Structural)]
pub struct GraphStats {
    pub token_count: usize,
    pub unique_pool_count: usize,
    pub directed_edge_count: usize,
    pub dropped_self_loop_pools: usize,
}

/// Counts of inconsistencies between a token graph and its mint map.
#[derive(Debug, Clone, Copy, PartialEq, Eq, Structural)]
pub struct GraphValidationReport {
    pub is_valid: bool,
    pub missing_node_mappings: usize,
    pub mismatched_node_weights: usize,
    pub stale_node_mappings: usize,
    pub invalid_edge_endpoints: usize,
    pub missing_reverse_edges: usize,
}

/// The distinct pool addresses carried by `edges`.
pub open spec fn pool_address_set(edges: Seq<(usize, usize, PoolEdge)>) -> Set<Seq<char>> {
    Set::new(|a: Seq<char>| exists|e: int| 0 <= e < edges.len() && #[trigger] edges[e].2.address@ == a)
}

/// Whether some string of `s` has view `a`.
pub open spec fn has_view(s: Seq<String>, a: Seq<char>) -> bool {
    exists|i: int| 0 <= i < s.len() && #[trigger] s[i]@ == a
}

/// Whether one of the first `n` edges carries pool address `a`.
pub open spec fn prefix_has_address(edges: Seq<(usize, usize, PoolEdge)>, n: int, a: Seq<char>) -> bool {
    exists|x: int| 0 <= x < n && #[trigger] edges[x].2.address@ == a
}

/// Whether the endpoints of `e` are the two mints of its pool, in either direction.
pub open spec fn endpoints_match(nodes: Seq<String>, e: (usize, usize, PoolEdge)) -> bool {
    &&& e.0 < nodes.len() && e.1 < nodes.len()
    &&& (nodes[e.0 as int]@ == e.2.token_a.mint@ && nodes[e.1 as int]@ == e.2.token_b.mint@)
        || (nodes[e.0 as int]@ == e.2.token_b.mint@ && nodes[e.1 as int]@ == e.2.token_a.mint@)
}

/// Whether edge `e` has a reverse edge carrying the same pool address.
pub open spec fn has_reverse(nodes: Seq<String>, edges: Seq<(usize, usize, PoolEdge)>, e: int) -> bool {
    &&& edges[e].1 < nodes.len()
    &&& exists|e2: int| 0 <= e2 < edges.len() && #[trigger] edges[e2].0 == edges[e].1
        && edges[e2].1 == edges[e].0 && edges[e2].2.address@ == edges[e].2.address@
}

pub open spec fn missing_at(nodes: Seq<String>, map: Seq<(String, usize)>, i: int) -> bool {
    lookup_mint(map, nodes[i]@) is None
}

pub open spec fn count_missing(nodes: Seq<String>, map: Seq<(String, usize)>, n: nat) -> nat
    decreases n,
{
    if n == 0 {
        0
    } else {
        count_missing(nodes, map, (n - 1) as nat) + if missing_at(nodes, map, n - 1) { 1nat } else { 0nat }
    }
}

proof fn lemma_count_missing_bounds(nodes: Seq<String>, map: Seq<(String, usize)>, n: nat)
    ensures
        count_missing(nodes, map, n) <= n,
        (forall|i: int| 0 <= i < n ==> !#[trigger] missing_at(nodes, map, i)) ==> count_missing(nodes, map, n) == 0,
    decreases n,
{
    if n > 0 {
        lemma_count_missing_bounds(nodes, map, (n - 1) as nat);
    }
}

/// Nodes whose mint has no map entry.
pub open spec fn missing_mappings(nodes: Seq<String>, map: Seq<(String, usize)>) -> nat {
    count_missing(nodes, map, nodes.len())
}

pub open spec fn mismatched_at(nodes: Seq<String>, map: Seq<(String, usize)>, i: int) -> bool {
    lookup_mint(map, nodes[i]@) matches Some(j) && j != i
}

pub open spec fn count_mismatched(nodes: Seq<String>, map: Seq<(String, usize)>, n: nat) -> nat
    decreases n,
{
    if n == 0 {
        0
    } else {
        count_mismatched(nodes, map, (n - 1) as nat) + if mismatched_at(nodes, map, n - 1) { 1nat } else { 0nat }
    }
}

proof fn lemma_count_mismatched_bounds(nodes: Seq<String>, map: Seq<(String, usize)>, n: nat)
    ensures
        count_mismatched(nodes, map, n) <= n,
        (forall|i: int| 0 <= i < n ==> !#[trigger] mismatched_at(nodes, map, i)) ==> count_mismatched(nodes, map, n) == 0,
    decreases n,
{
    if n > 0 {
        lemma_count_mismatched_bounds(nodes, map, (n - 1) as nat);
    }
}

/// Nodes whose mint maps to another node.
pub open spec fn mismatched_mappings(nodes: Seq<String>, map: Seq<(String, usize)>) -> nat {
    count_mismatched(nodes, map, nodes.len())
}

pub open spec fn stale_at(nodes: Seq<String>, map: Seq<(String, usize)>, i: int) -> bool {
    !(map[i].1 < nodes.len() && nodes[map[i].1 as int]@ == map[i].0@)
}

pub open spec fn count_stale(nodes: Seq<String>, map: Seq<(String, usize)>, n: nat) -> nat
    decreases n,
{
    if n == 0 {
        0
    } else {
        count_stale(nodes, map, (n - 1) as nat) + if stale_at(nodes, map, n - 1) { 1nat } else { 0nat }
    }
}

proof fn lemma_count_stale_bounds(nodes: Seq<String>, map: Seq<(String, usize)>, n: nat)
    ensures
        count_stale(nodes, map, n) <= n,
        (forall|i: int| 0 <= i < n ==> !#[trigger] stale_at(nodes, map, i)) ==> count_stale(nodes, map, n) == 0,
    decreases n,
{
    if n > 0 {
        lemma_count_stale_bounds(nodes, map, (n - 1) as nat);
    }
}

/// Map entries that do not name a node carrying their mint.
pub open spec fn stale_mappings(nodes: Seq<String>, map: Seq<(String, usize)>) -> nat {
    count_stale(nodes, map, map.len())
}

pub open spec fn invalid_at(nodes: Seq<String>, edges: Seq<(usize, usize, PoolEdge)>, i: int) -> bool {
    !endpoints_match(nodes, edges[i])
}

pub open spec fn count_invalid(nodes: Seq<String>, edges: Seq<(usize, usize, PoolEdge)>, n: nat) -> nat
    decreases n,
{
    if n == 0 {
        0
    } else {
        count_invalid(nodes, edges, (n - 1) as nat) + if invalid_at(nodes, edges, n - 1) { 1nat } else { 0nat }
    }
}

proof fn lemma_count_invalid_bounds(nodes: Seq<String>, edges: Seq<(usize, usize, PoolEdge)>, n: nat)
    ensures
        count_invalid(nodes, edges, n) <= n,
        (forall|i: int| 0 <= i < n ==> !#[trigger] invalid_at(nodes, edges, i)) ==> count_invalid(nodes, edges, n) == 0,
    decreases n,
{
    if n > 0 {
        lemma_count_invalid_bounds(nodes, edges, (n - 1) as nat);
    }
}

/// Edges that do not join the two mints of their pool.
pub open spec fn invalid_endpoints(nodes: Seq<String>, edges: Seq<(usize, usize, PoolEdge)>) -> nat {
    count_invalid(nodes, edges, edges.len())
}

pub open spec fn unreversed_at(nodes: Seq<String>, edges: Seq<(usize, usize, PoolEdge)>, i: int) -> bool {
    !has_reverse(nodes, edges, i)
}

pub open spec fn count_unreversed(nodes: Seq<String>, edges: Seq<(usize, usize, PoolEdge)>, n: nat) -> nat
    decreases n,
{
    if n == 0 {
        0
    } else {
        count_unreversed(nodes, edges, (n - 1) as nat) + if unreversed_at(nodes, edges, n - 1) { 1nat } else { 0nat }
    }
}

proof fn lemma_count_unreversed_bounds(nodes: Seq<String>, edges: Seq<(usize, usize, PoolEdge)>, n: nat)
    ensures
        count_unreversed(nodes, edges, n) <= n,
        (forall|i: int| 0 <= i < n ==> !#[trigger] unreversed_at(nodes, edges, i)) ==> count_unreversed(nodes, edges, n) == 0,
    decreases n,
{
    if n > 0 {
        lemma_count_unreversed_bounds(nodes, edges, (n - 1) as nat);
    }
}

/// Edges without a reverse edge for the same pool.
pub open spec fn missing_reverses(nodes: Seq<String>, edges: Seq<(usize, usize, PoolEdge)>) -> nat {
    count_unreversed(nodes, edges, edges.len())
}

proof fn lemma_out_edge_ids(edges: Seq<(usize, usize, PoolEdge)>, n: usize, k: nat)
    requires
        k <= edges.len(),
    ensures
        forall|j: int| 0 <= j < out_edge_ids(edges, n, k).len() ==>
            #[trigger] out_edge_ids(edges, n, k)[j] < k && edges[out_edge_ids(edges, n, k)[j] as int].0 == n,
        forall|x: int| 0 <= x < k && #[trigger] edges[x].0 == n ==>
            exists|j: int| 0 <= j < out_edge_ids(edges, n, k).len() && out_edge_ids(edges, n, k)[j] == x,
    decreases k,
{
    if k > 0 {
        lemma_out_edge_ids(edges, n, (k - 1) as nat);
        let prev = out_edge_ids(edges, n, (k - 1) as nat);
        let cur = out_edge_ids(edges, n, k);
        if edges[k - 1].0 == n {
            assert(cur == seq![k - 1] + prev);
            assert forall|x: int| 0 <= x < k && #[trigger] edges[x].0 == n implies
                exists|j: int| 0 <= j < cur.len() && cur[j] == x by {
                if x == k - 1 {
                    assert(cur[0] == x);
                } else {
                    let j = choose|j: int| 0 <= j < prev.len() && prev[j] == x;
                    assert(cur[j + 1] == prev[j]);
                }
            }
        } else {
            assert(cur == prev);
        }
    }
}

impl RouteGraph {
    /// Node index recorded for `mint`.
    fn lookup_node(&self, mint: &String) -> (r: Option<usize>)
        ensures
            r == lookup_mint(self.mint_to_node@, mint@),
    {
        let mut j: usize = 0;
        while j < self.mint_to_node.len()
            invariant
                j <= self.mint_to_node@.len(),
                forall|i: int| 0 <= i < j ==> self.mint_to_node@[i].0@ != mint@,
            decreases self.mint_to_node@.len() - j,
        {
            if self.mint_to_node[j].0 == *mint {
                proof {
                    let m = self.mint_to_node@;
                    lemma_lookup_mint_skip(m, mint@, j as int);
                    assert(m.subrange(j as int, m.len() as int)[0] == m[j as int]);
                }
                return Some(self.mint_to_node[j].1);
            }
            j = j + 1;
        }
        proof {
            let m = self.mint_to_node@;
            lemma_lookup_mint_skip(m, mint@, m.len() as int);
            assert(m.subrange(m.len() as int, m.len() as int) =~= Seq::<(String, usize)>::empty());
        }
        None
    }

    /// Token, pool and edge counts of the graph.
    pub fn stats(&self) -> (r: GraphStats)
        ensures
            r.token_count == self.nodes().len(),
            r.directed_edge_count == self.edges().len(),
            r.dropped_self_loop_pools == self.dropped_self_loop_pools,
            r.unique_pool_count == pool_address_set(self.edges()).len(),
    {
        let n_edges = graph_edge_count(&self.graph);
        let ghost edges = self.edges();
        let mut seen: Vec<String> = Vec::new();
        let mut e: usize = 0;
        while e < n_edges
            invariant
                n_edges == edges.len(),
                edges == self.edges(),
                e <= n_edges,
                forall|i: int, j: int| 0 <= i < j < seen@.len() ==> seen@[i]@ != seen@[j]@,
                forall|a: Seq<char>| #![trigger has_view(seen@, a)] #![trigger prefix_has_address(edges, e as int, a)]
                    has_view(seen@, a) <==> prefix_has_address(edges, e as int, a),
            decreases n_edges - e,
        {
            let (_, _, pool) = graph_edge_at(&self.graph, e);
            let mut found = false;
            let mut i: usize = 0;
            while i < seen.len()
                invariant
                    i <= seen@.len(),
                    found <==> exists|j: int| 0 <= j < i && seen@[j]@ == pool.address@,
                decreases seen@.len() - i,
            {
                if seen[i] == pool.address {
                    found = true;
                }
                i = i + 1;
            }
            let ghost before = seen@;
            if !found {
                seen.push(pool.address.clone());
            }
            proof {
                assert(edges[e as int].2.address@ == pool.address@);
                assert forall|a: Seq<char>| #![trigger has_view(seen@, a)] #![trigger prefix_has_address(edges, e + 1, a)]
                    has_view(seen@, a) <==> prefix_has_address(edges, e + 1, a) by {
                    if prefix_has_address(edges, e + 1, a) {
                        let x = choose|x: int| 0 <= x < e + 1 && #[trigger] edges[x].2.address@ == a;
                        if x < e {
                            assert(prefix_has_address(edges, e as int, a));
                            assert(has_view(before, a));
                            let i = choose|i: int| 0 <= i < before.len() && #[trigger] before[i]@ == a;
                            assert(seen@[i] == before[i]);
                        } else if !found {
                            assert(seen@[before.len() as int]@ == a);
                        } else {
                            let j = choose|j: int| 0 <= j < before.len() && before[j]@ == pool.address@;
                            assert(seen@[j]@ == a);
                        }
                    }
                    if has_view(seen@, a) {
                        let i = choose|i: int| 0 <= i < seen@.len() && #[trigger] seen@[i]@ == a;
                        if i < before.len() {
                            assert(seen@[i] == before[i]);
                            assert(has_view(before, a));
                            assert(prefix_has_address(edges, e as int, a));
                            let x = choose|x: int| 0 <= x < e && #[trigger] edges[x].2.address@ == a;
                            assert(edges[x].2.address@ == a);
                        } else {
                            assert(edges[e as int].2.address@ == a);
                        }
                    }
                }
            }
            e = e + 1;
        }
        proof {
            let views = seen@.map_values(|s: String| s@);
            assert(views.no_duplicates()) by {
                assert forall|i: int, j: int| 0 <= i < views.len() && 0 <= j < views.len() && i != j
                    implies views[i] != views[j] by {
                    if i < j {
                        assert(seen@[i]@ != seen@[j]@);
                    } else {
                        assert(seen@[j]@ != seen@[i]@);
                    }
                }
            }
            views.unique_seq_to_set();
            assert(views.to_set() =~= pool_address_set(edges)) by {
                assert forall|a: Seq<char>| views.to_set().contains(a) <==> pool_address_set(edges).contains(a) by {
                    if views.to_set().contains(a) {
                        let i = choose|i: int| 0 <= i < views.len() && views[i] == a;
                        assert(seen@[i]@ == a);
                        assert(has_view(seen@, a));
                        assert(prefix_has_address(edges, edges.len() as int, a));
                    }
                    if pool_address_set(edges).contains(a) {
                        assert(prefix_has_address(edges, edges.len() as int, a));
                        assert(has_view(seen@, a));
                        let i = choose|i: int| 0 <= i < seen@.len() && #[trigger] seen@[i]@ == a;
                        assert(views[i] == a);
                    }
                }
            }
        }
        GraphStats {
            token_count: graph_node_count(&self.graph),
            unique_pool_count: seen.len(),
            directed_edge_count: n_edges,
            dropped_self_loop_pools: self.dropped_self_loop_pools,
        }
    }
}


impl RouteGraph {
    /// Whether an edge leaves node `from` towards node `to` with pool address `address`.
    fn has_edge_with_address(&self, from: usize, to: usize, address: &String) -> (r: bool)
        requires
            from < self.nodes().len(),
        ensures
            r == exists|e2: int| 0 <= e2 < self.edges().len() && #[trigger] self.edges()[e2].0 == from
                && self.edges()[e2].1 == to && self.edges()[e2].2.address@ == address@,
    {
        let ids = graph_outgoing(&self.graph, from);
        let ghost edges = self.edges();
        let ghost out = out_edge_ids(edges, from, edges.len());
        proof {
            lemma_out_edge_ids(edges, from, edges.len());
        }
        let mut j: usize = 0;
        while j < ids.len()
            invariant
                j <= ids@.len(),
                ids@.len() == out.len(),
                forall|k: int| 0 <= k < ids@.len() ==> #[trigger] ids@[k] == out[k],
                forall|k: int| 0 <= k < out.len() ==> #[trigger] out[k] < edges.len() && edges[out[k]].0 == from,
                forall|k: int| 0 <= k < j ==> !(edges[out[k]].1 == to && edges[out[k]].2.address@ == address@),
                edges == self.edges(),
            decreases ids@.len() - j,
        {
            let (_, target, pool) = graph_edge_at(&self.graph, ids[j]);
            if target == to && pool.address == *address {
                proof {
                    let e2 = out[j as int];
                    assert(edges[e2].0 == from);
                }
                return true;
            }
            j = j + 1;
        }
        proof {
            if exists|e2: int| 0 <= e2 < edges.len() && #[trigger] edges[e2].0 == from
                && edges[e2].1 == to && edges[e2].2.address@ == address@ {
                let e2 = choose|e2: int| 0 <= e2 < edges.len() && #[trigger] edges[e2].0 == from
                    && edges[e2].1 == to && edges[e2].2.address@ == address@;
                let k = choose|k: int| 0 <= k < out.len() && out[k] == e2;
                assert(!(edges[out[k]].1 == to && edges[out[k]].2.address@ == address@));
            }
        }
        false
    }

    /// Checks that the graph and its mint map agree and that every edge has
    /// a reverse edge for the same pool; counts each kind of mismatch.
    pub fn validate(&self) -> (r: GraphValidationReport)
        ensures
            r.missing_node_mappings == missing_mappings(self.nodes(), self.mint_to_node@),
            r.mismatched_node_weights == mismatched_mappings(self.nodes(), self.mint_to_node@),
            r.stale_node_mappings == stale_mappings(self.nodes(), self.mint_to_node@),
            r.invalid_edge_endpoints == invalid_endpoints(self.nodes(), self.edges()),
            r.missing_reverse_edges == missing_reverses(self.nodes(), self.edges()),
            r.is_valid == (r.missing_node_mappings == 0 && r.mismatched_node_weights == 0
                && r.stale_node_mappings == 0 && r.invalid_edge_endpoints == 0
                && r.missing_reverse_edges == 0),
    {
        let ghost nodes = self.nodes();
        let ghost edges = self.edges();
        let ghost map = self.mint_to_node@;

        let n_nodes = graph_node_count(&self.graph);
        let mut missing_node_mappings: usize = 0;
        let mut mismatched_node_weights: usize = 0;
        let mut i: usize = 0;
        while i < n_nodes
            invariant
                n_nodes == nodes.len(),
                n_nodes <= 0xffff_ffff,
                nodes == self.nodes(),
                map == self.mint_to_node@,
                i <= n_nodes,
                missing_node_mappings == count_missing(nodes, map, i as nat),
                mismatched_node_weights == count_mismatched(nodes, map, i as nat),
            decreases n_nodes - i,
        {
            proof {
                lemma_count_missing_bounds(nodes, map, i as nat);
                lemma_count_mismatched_bounds(nodes, map, i as nat);
            }
            let ghost before_missing = missing_node_mappings;
            let ghost before_mismatch = mismatched_node_weights;
            match graph_node_weight(&self.graph, i) {
                Some(mint) => {
                    let found = self.lookup_node(mint);
                    proof {
                        assert(found == lookup_mint(map, nodes[i as int]@));
                    }
                    match found {
                        Some(mapped) => {
                            if mapped != i {
                                mismatched_node_weights = mismatched_node_weights + 1;
                            }
                        },
                        None => {
                            missing_node_mappings = missing_node_mappings + 1;
                        },
                    }
                },
                None => {},
            }
            proof {
                assert(count_missing(nodes, map, (i + 1) as nat) == count_missing(nodes, map, i as nat)
                    + if missing_at(nodes, map, i as int) { 1nat } else { 0nat });
                assert(count_mismatched(nodes, map, (i + 1) as nat) == count_mismatched(nodes, map, i as nat)
                    + if mismatched_at(nodes, map, i as int) { 1nat } else { 0nat });
            }
            i = i + 1;
        }

        let mut stale_node_mappings: usize = 0;
        let mut j: usize = 0;
        while j < self.mint_to_node.len()
            invariant
                n_nodes == nodes.len(),
                n_nodes <= 0xffff_ffff,
                nodes == self.nodes(),
                map == self.mint_to_node@,
                j <= map.len(),
                stale_node_mappings == count_stale(nodes, map, j as nat),
            decreases map.len() - j,
        {
            proof {
                lemma_count_stale_bounds(nodes, map, j as nat);
            }
            let entry = &self.mint_to_node[j];
            let ok = if entry.1 < n_nodes {
                match graph_node_weight(&self.graph, entry.1) {
                    Some(node_mint) => *node_mint == entry.0,
                    None => false,
                }
            } else {
                false
            };
            proof {
                assert(*entry == map[j as int]);
                assert(ok == !stale_at(nodes, map, j as int));
                assert(count_stale(nodes, map, (j + 1) as nat) == count_stale(nodes, map, j as nat)
                    + if stale_at(nodes, map, j as int) { 1nat } else { 0nat });
            }
            if !ok {
                stale_node_mappings = stale_node_mappings + 1;
            }
            j = j + 1;
        }

        let n_edges = graph_edge_count(&self.graph);
        let mut invalid_edge_endpoints: usize = 0;
        let mut missing_reverse_edges: usize = 0;
        let mut e: usize = 0;
        while e < n_edges
            invariant
                n_nodes == nodes.len(),
                n_edges == edges.len(),
                nodes == self.nodes(),
                edges == self.edges(),
                e <= n_edges,
                invalid_edge_endpoints == count_invalid(nodes, edges, e as nat),
                missing_reverse_edges == count_unreversed(nodes, edges, e as nat),
            decreases n_edges - e,
        {
            proof {
                lemma_count_invalid_bounds(nodes, edges, e as nat);
                lemma_count_unreversed_bounds(nodes, edges, e as nat);
            }
            let (source, target, pool) = graph_edge_at(&self.graph, e);
            let matches = match (graph_node_weight(&self.graph, source), graph_node_weight(&self.graph, target)) {
                (Some(source_mint), Some(target_mint)) => {
                    (*source_mint == pool.token_a.mint && *target_mint == pool.token_b.mint)
                        || (*source_mint == pool.token_b.mint && *target_mint == pool.token_a.mint)
                },
                _ => false,
            };
            if !matches {
                invalid_edge_endpoints = invalid_edge_endpoints + 1;
            }
            let has_reverse_edge = if target < n_nodes {
                self.has_edge_with_address(target, source, &pool.address)
            } else {
                false
            };
            proof {
                assert(matches == !invalid_at(nodes, edges, e as int));
                assert(has_reverse_edge == !unreversed_at(nodes, edges, e as int));
                assert(count_invalid(nodes, edges, (e + 1) as nat) == count_invalid(nodes, edges, e as nat)
                    + if invalid_at(nodes, edges, e as int) { 1nat } else { 0nat });
                assert(count_unreversed(nodes, edges, (e + 1) as nat) == count_unreversed(nodes, edges, e as nat)
                    + if unreversed_at(nodes, edges, e as int) { 1nat } else { 0nat });
            }
            if !has_reverse_edge {
                missing_reverse_edges = missing_reverse_edges + 1;
            }
            e = e + 1;
        }

        GraphValidationReport {
            is_valid: missing_node_mappings == 0 && mismatched_node_weights == 0
                && stale_node_mappings == 0 && invalid_edge_endpoints == 0
                && missing_reverse_edges == 0,
            missing_node_mappings,
            mismatched_node_weights,
            stale_node_mappings,
            invalid_edge_endpoints,
            missing_reverse_edges,
        }
    }
}

/// The number of pools of `pools` with the same mint on both sides.
pub open spec fn self_loop_count(pools: Seq<PoolEdge>) -> nat
    decreases pools.len(),
{
    if pools.len() == 0 {
        0
    } else {
        self_loop_count(pools.drop_last())
            + if pools.last().token_a.mint@ == pools.last().token_b.mint@ { 1nat } else { 0nat }
    }
}

proof fn lemma_kept_and_dropped(pools: Seq<PoolEdge>)
    ensures
        kept_pools(pools).len() + self_loop_count(pools) == pools.len(),
    decreases pools.len(),
{
    if pools.len() > 0 {
        lemma_kept_and_dropped(pools.drop_last());
    }
}

/// A graph as `RouteGraph::new` builds it from `pools` is valid (every
/// count of `validate` is zero), has dropped exactly the pools with the same
/// mint on both sides, holds two directed edges for each other pool, and
/// one node for each distinct mint of those pools.
pub proof fn lemma_new_graph_shape(pools: Seq<PoolEdge>, g: RouteGraph)
    requires
        built_from(g.nodes(), g.edges(), g.mint_to_node@, kept_pools(pools)),
        node_mints(g.nodes()) == mint_order(kept_pools(pools)),
        g.dropped_self_loop_pools == pools.len() - kept_pools(pools).len(),
    ensures
        missing_mappings(g.nodes(), g.mint_to_node@) == 0,
        mismatched_mappings(g.nodes(), g.mint_to_node@) == 0,
        stale_mappings(g.nodes(), g.mint_to_node@) == 0,
        invalid_endpoints(g.nodes(), g.edges()) == 0,
        missing_reverses(g.nodes(), g.edges()) == 0,
        g.dropped_self_loop_pools == self_loop_count(pools),
        g.edges().len() == 2 * (pools.len() - self_loop_count(pools)),
        forall|i: int, j: int| 0 <= i < j < g.nodes().len() ==> g.nodes()[i]@ != g.nodes()[j]@,
        forall|m: Seq<char>| node_mints(g.nodes()).contains(m) <==> has_mint(kept_pools(pools), m),
{
    let kept = kept_pools(pools);
    let nodes = g.nodes();
    lemma_built_graph_is_valid(nodes, g.edges(), g.mint_to_node@, kept);
    lemma_kept_and_dropped(pools);
    assert forall|m: Seq<char>| node_mints(nodes).contains(m) <==> has_mint(kept, m) by {
        if node_mints(nodes).contains(m) {
            let i = choose|i: int| 0 <= i < node_mints(nodes).len() && node_mints(nodes)[i] == m;
            assert(nodes[i]@ == m);
            assert(has_mint(kept, nodes[i]@));
        }
        if has_mint(kept, m) {
            let k = choose|k: int| 0 <= k < kept.len() && (#[trigger] kept[k].token_a.mint@ == m || kept[k].token_b.mint@ == m);
            let fwd = g.edges()[2 * k];
            if kept[k].token_a.mint@ == m {
                assert(node_mints(nodes)[fwd.0 as int] == m);
            } else {
                assert(node_mints(nodes)[fwd.1 as int] == m);
            }
        }
    }
}

/// A graph built by `RouteGraph::new` passes `validate`: every node's mint
/// maps back to it, every map entry names its node, every edge joins the two
/// mints of its pool, and every edge has a reverse edge for the same pool.
pub proof fn lemma_built_graph_is_valid(
    nodes: Seq<String>,
    edges: Seq<(usize, usize, PoolEdge)>,
    map: Seq<(String, usize)>,
    kept: Seq<PoolEdge>,
)
    requires
        built_from(nodes, edges, map, kept),
    ensures
        missing_mappings(nodes, map) == 0,
        mismatched_mappings(nodes, map) == 0,
        stale_mappings(nodes, map) == 0,
        invalid_endpoints(nodes, edges) == 0,
        missing_reverses(nodes, edges) == 0,
{
    assert forall|i: int| 0 <= i < nodes.len() implies
        !#[trigger] missing_at(nodes, map, i) && !mismatched_at(nodes, map, i) by {
        assert forall|j: int| 0 <= j < i implies map[j].0@ != nodes[i]@ by {
            assert(map[j].0@ == nodes[j]@);
        }
        lemma_lookup_mint_skip(map, nodes[i]@, i);
        assert(map.subrange(i, map.len() as int)[0] == map[i]);
        assert(map[i].0@ == nodes[i]@ && map[i].1 == i);
        assert(lookup_mint(map, nodes[i]@) == Some(i as usize));
    }
    assert forall|i: int| 0 <= i < nodes.len() implies !#[trigger] mismatched_at(nodes, map, i) by {
        assert(!missing_at(nodes, map, i));
    }
    lemma_count_missing_bounds(nodes, map, nodes.len());
    lemma_count_mismatched_bounds(nodes, map, nodes.len());
    assert forall|j: int| 0 <= j < map.len() implies !#[trigger] stale_at(nodes, map, j) by {
        assert(map[j].0@ == nodes[j]@ && map[j].1 == j);
    }
    lemma_count_stale_bounds(nodes, map, map.len());
    assert forall|e: int| 0 <= e < edges.len() implies
        !#[trigger] invalid_at(nodes, edges, e) && !unreversed_at(nodes, edges, e) by {
        let k = e / 2;
        assert(0 <= k < kept.len());
        assert(edges[2 * k].2 == kept[k]);
        if e == 2 * k {
            assert(edges[2 * k + 1].0 == edges[e].1);
            assert(has_reverse(nodes, edges, e));
        } else {
            assert(e == 2 * k + 1);
            assert(edges[2 * k].0 == edges[e].1);
            assert(has_reverse(nodes, edges, e));
        }
    }
    assert forall|e: int| 0 <= e < edges.len() implies !#[trigger] unreversed_at(nodes, edges, e) by {
        assert(!invalid_at(nodes, edges, e));
    }
    lemma_count_invalid_bounds(nodes, edges, edges.len());
    lemma_count_unreversed_bounds(nodes, edges, edges.len());
}


/// Whether `r` follows the walk `path` through the edges `eids` of the graph.
pub open spec fn walk_of(
    edges: Seq<(usize, usize, PoolEdge)>,
    path: Seq<usize>,
    eids: Seq<int>,
    r: Seq<PoolEdge>,
) -> bool {
    &&& path.len() == r.len() + 1
    &&& eids.len() == r.len()
    &&& forall|i: int| 0 <= i < r.len() ==> 0 <= #[trigger] eids[i] < edges.len()
        && edges[eids[i]] == (path[i], path[i + 1], r[i])
}

/// Whether `r` is a route the search may return: the pools along a walk of
/// one to `max_hops` edges from `start` to `target` that visits no node twice.
pub open spec fn is_simple_route(
    edges: Seq<(usize, usize, PoolEdge)>,
    start: usize,
    target: usize,
    max_hops: nat,
    r: Seq<PoolEdge>,
) -> bool {
    &&& 1 <= r.len() <= max_hops
    &&& exists|path: Seq<usize>, eids: Seq<int>| #[trigger] walk_of(edges, path, eids, r)
        && path[0] == start && path.last() == target && path.no_duplicates()
}

/// Byte-wise lexicographic strict order, a proper prefix sorting first.
pub open spec fn bytes_before(a: Seq<u8>, b: Seq<u8>) -> bool
    decreases a.len(),
{
    if a.len() == 0 {
        b.len() > 0
    } else if b.len() == 0 {
        false
    } else if a[0] != b[0] {
        a[0] < b[0]
    } else {
        bytes_before(a.drop_first(), b.drop_first())
    }
}

/// Whether `a` sorts before `b` as strings (`String`'s order).
fn string_before(a: &String, b: &String) -> (r: bool)
    ensures
        r == bytes_before(encode_utf8(a@), encode_utf8(b@)),
{
    let sa = a.as_str();
    let sb = b.as_str();
    let x = sa.as_bytes();
    let y = sb.as_bytes();
    assert(x@ == encode_utf8(a@));
    assert(y@ == encode_utf8(b@));
    let mut i: usize = 0;
    proof {
        assert(x@.subrange(0, x@.len() as int) =~= x@);
        assert(y@.subrange(0, y@.len() as int) =~= y@);
        assert(x@.subrange(0, 0) =~= y@.subrange(0, 0));
    }
    while i < x.len() && i < y.len()
        invariant
            x@ == encode_utf8(a@),
            y@ == encode_utf8(b@),
            i <= x@.len(),
            i <= y@.len(),
            x@.subrange(0, i as int) == y@.subrange(0, i as int),
            bytes_before(x@, y@) == bytes_before(x@.subrange(i as int, x@.len() as int), y@.subrange(i as int, y@.len() as int)),
        decreases x@.len() - i,
    {
        let xa = x[i];
        let yb = y[i];
        proof {
            let xs = x@.subrange(i as int, x@.len() as int);
            let ys = y@.subrange(i as int, y@.len() as int);
            assert(xs[0] == xa && ys[0] == yb);
            assert(xs.drop_first() =~= x@.subrange(i + 1, x@.len() as int));
            assert(ys.drop_first() =~= y@.subrange(i + 1, y@.len() as int));
        }
        if xa != yb {
            proof {
                let xs = x@.subrange(i as int, x@.len() as int);
                let ys = y@.subrange(i as int, y@.len() as int);
                assert(bytes_before(xs, ys) == (xa < yb));
            }
            return xa < yb;
        }
        proof {
            assert(x@.subrange(0, i + 1) =~= x@.subrange(0, i as int).push(xa));
            assert(y@.subrange(0, i + 1) =~= y@.subrange(0, i as int).push(yb));
        }
        i = i + 1;
    }
    proof {
        let xs = x@.subrange(i as int, x@.len() as int);
        let ys = y@.subrange(i as int, y@.len() as int);
        if i == x@.len() {
            assert(xs.len() == 0);
        } else {
            assert(ys.len() == 0);
        }
    }
    i == x.len() && i < y.len()
}

/// The views of a list of routes.
pub open spec fn route_views(routes: Seq<Vec<PoolEdge>>) -> Seq<Seq<PoolEdge>> {
    routes.map_values(|r: Vec<PoolEdge>| r@)
}

/// The first `n` routes of `s`, or all of them when there are fewer.
pub open spec fn first_n(s: Seq<Seq<PoolEdge>>, n: int) -> Seq<Seq<PoolEdge>> {
    if s.len() <= n { s } else { s.take(n) }
}

/// The order in which the search tries two hops, given the hops each leaves
/// to the target and their pools: fewer hops left first, then larger TVL,
/// then lower fee, then pool address.
pub open spec fn hop_order(la: nat, lb: nat, pa: PoolEdge, pb: PoolEdge) -> bool {
    if la != lb {
        la < lb
    } else if pa.tvl_bits != pb.tvl_bits {
        pa.tvl_bits > pb.tvl_bits
    } else if pa.fee_rate_bits != pb.fee_rate_bits {
        pa.fee_rate_bits < pb.fee_rate_bits
    } else {
        bytes_before(encode_utf8(pa.address@), encode_utf8(pb.address@))
    }
}

/// The hops left to `target` after taking edge `e`.
pub open spec fn hops_left(edges: Seq<(usize, usize, PoolEdge)>, target: usize, e: int) -> nat {
    match hop_distance(edges, edges[e].1, target) {
        Some(d) => d,
        None => 0,
    }
}

/// Whether the search tries edge `a` before edge `b`.
pub open spec fn edge_before(edges: Seq<(usize, usize, PoolEdge)>, target: usize, a: int, b: int) -> bool {
    hop_order(hops_left(edges, target, a), hops_left(edges, target, b), edges[a].2, edges[b].2)
}

/// Where a stable insertion puts edge `e` into `s`, looking from index `p`:
/// before the first edge that `e` is tried before.
pub open spec fn insert_pos(edges: Seq<(usize, usize, PoolEdge)>, target: usize, s: Seq<int>, e: int, p: int) -> int
    decreases s.len() - p,
{
    if p < 0 || p >= s.len() {
        s.len() as int
    } else if edge_before(edges, target, e, s[p]) {
        p
    } else {
        insert_pos(edges, target, s, e, p + 1)
    }
}

/// The edges `xs` in the order the search tries them (a stable sort).
pub open spec fn sorted_hops(edges: Seq<(usize, usize, PoolEdge)>, target: usize, xs: Seq<int>) -> Seq<int>
    decreases xs.len(),
{
    if xs.len() == 0 {
        Seq::empty()
    } else {
        let s = sorted_hops(edges, target, xs.drop_last());
        s.insert(insert_pos(edges, target, s, xs.last(), 0), xs.last())
    }
}

/// Whether the search takes edge `e` from `node` after visiting `visited`
/// with `used` pools: it leaves `node` towards an existing unvisited node
/// from which `target` is reachable within the budget `max`.
pub open spec fn hop_taken(
    node_count: nat,
    edges: Seq<(usize, usize, PoolEdge)>,
    target: usize,
    max: nat,
    node: usize,
    visited: Seq<usize>,
    used: nat,
    e: int,
) -> bool {
    &&& 0 <= e < edges.len()
    &&& edges[e].0 == node
    &&& edges[e].1 < node_count
    &&& !visited.contains(edges[e].1)
    &&& hop_distance(edges, edges[e].1, target) matches Some(d) && used + 1 + d <= max
}

/// The edges of `ids` that the search takes, in order.
pub open spec fn taken_hops(
    node_count: nat,
    edges: Seq<(usize, usize, PoolEdge)>,
    target: usize,
    max: nat,
    node: usize,
    visited: Seq<usize>,
    used: nat,
    ids: Seq<int>,
) -> Seq<int>
    decreases ids.len(),
{
    if ids.len() == 0 {
        Seq::empty()
    } else {
        let f = taken_hops(node_count, edges, target, max, node, visited, used, ids.drop_last());
        if hop_taken(node_count, edges, target, max, node, visited, used, ids.last()) {
            f.push(ids.last())
        } else {
            f
        }
    }
}

/// The edges the search takes from `node`, in the order it tries them.
pub open spec fn hop_sequence(
    node_count: nat,
    edges: Seq<(usize, usize, PoolEdge)>,
    target: usize,
    max: nat,
    node: usize,
    visited: Seq<usize>,
    used: nat,
) -> Seq<int> {
    sorted_hops(edges, target, taken_hops(node_count, edges, target, max, node, visited, used,
        out_edge_ids(edges, node, edges.len())))
}

/// The routes a depth-first search finds, in order, from the walk that
/// visited `visited` carrying the pools `route`: the route itself when it
/// reached `target`, else the routes through each hop taken, in turn.
pub open spec fn dfs_routes(
    node_count: nat,
    edges: Seq<(usize, usize, PoolEdge)>,
    target: usize,
    max: nat,
    visited: Seq<usize>,
    route: Seq<PoolEdge>,
) -> Seq<Seq<PoolEdge>>
    decreases max - route.len(), 1int, 0int,
{
    if visited.last() == target && route.len() > 0 {
        seq![route]
    } else if route.len() >= max {
        Seq::empty()
    } else {
        dfs_hops(node_count, edges, target, max, visited, route,
            hop_sequence(node_count, edges, target, max, visited.last(), visited, route.len()), 0)
    }
}

/// The routes found through the hops `hops[i..]` from the walk (`visited`, `route`).
pub open spec fn dfs_hops(
    node_count: nat,
    edges: Seq<(usize, usize, PoolEdge)>,
    target: usize,
    max: nat,
    visited: Seq<usize>,
    route: Seq<PoolEdge>,
    hops: Seq<int>,
    i: int,
) -> Seq<Seq<PoolEdge>>
    decreases max - route.len(), 0int, hops.len() - i,
{
    if route.len() >= max || i < 0 || i >= hops.len() {
        Seq::empty()
    } else {
        let e = hops[i];
        dfs_routes(node_count, edges, target, max, visited.push(edges[e].1), route.push(edges[e].2))
            + dfs_hops(node_count, edges, target, max, visited, route, hops, i + 1)
    }
}

/// The routes a search from `start` to `target` within `max` pools finds,
/// in order: none when `target` is not within `max` hops.
pub open spec fn search_results(
    node_count: nat,
    edges: Seq<(usize, usize, PoolEdge)>,
    start: usize,
    target: usize,
    max: nat,
) -> Seq<Seq<PoolEdge>> {
    if max > 0 && (hop_distance(edges, start, target) matches Some(d) && d <= max) {
        dfs_routes(node_count, edges, target, max, seq![start], Seq::empty())
    } else {
        Seq::empty()
    }
}

/// Cutting a list at `n` after appending more is cutting it at `n` once.
proof fn lemma_first_n_append(a: Seq<Seq<PoolEdge>>, b: Seq<Seq<PoolEdge>>, c: Seq<Seq<PoolEdge>>, n: int)
    requires
        a.len() <= n,
    ensures
        first_n(first_n(a + b, n) + c, n) == first_n(a + (b + c), n),
{
    assert(a + b + c =~= a + (b + c));
    if (a + b).len() > n {
        assert((a + b).take(n) + c =~= (a + b).take(n) + c);
        assert(((a + b).take(n) + c).take(n) =~= (a + (b + c)).take(n));
    }
}

/// A list that already holds `n` routes keeps them whatever is appended.
proof fn lemma_first_n_full(a: Seq<Seq<PoolEdge>>, b: Seq<Seq<PoolEdge>>, n: int)
    requires
        a.len() == n,
    ensures
        first_n(a + b, n) == a,
{
    assert((a + b).take(n) =~= a);
    assert(a + Seq::<Seq<PoolEdge>>::empty() =~= a);
}

/// Searching through hop `k` and then the later hops is searching through
/// hops `k..`.
proof fn lemma_dfs_step(
    nc: nat,
    edges: Seq<(usize, usize, PoolEdge)>,
    target: usize,
    max: nat,
    visited: Seq<usize>,
    route: Seq<PoolEdge>,
    hops: Seq<int>,
    k: int,
    before: Seq<Seq<PoolEdge>>,
    after: Seq<Seq<PoolEdge>>,
    n: int,
)
    requires
        route.len() < max,
        0 <= k < hops.len(),
        before.len() <= n,
        after == first_n(before + dfs_routes(nc, edges, target, max, visited.push(edges[hops[k]].1),
            route.push(edges[hops[k]].2)), n),
    ensures
        first_n(after + dfs_hops(nc, edges, target, max, visited, route, hops, k + 1), n)
            == first_n(before + dfs_hops(nc, edges, target, max, visited, route, hops, k), n),
{
    let d = dfs_routes(nc, edges, target, max, visited.push(edges[hops[k]].1), route.push(edges[hops[k]].2));
    let rest = dfs_hops(nc, edges, target, max, visited, route, hops, k + 1);
    assert(dfs_hops(nc, edges, target, max, visited, route, hops, k) == d + rest);
    lemma_first_n_append(before, d, rest, n);
}

/// The insertion position is the first place whose edge `e` is tried before.
proof fn lemma_insert_pos(edges: Seq<(usize, usize, PoolEdge)>, target: usize, s: Seq<int>, e: int, pos: int, p: int)
    requires
        0 <= p <= pos <= s.len(),
        forall|q: int| p <= q < pos ==> !edge_before(edges, target, e, #[trigger] s[q]),
        pos == s.len() || edge_before(edges, target, e, s[pos]),
    ensures
        insert_pos(edges, target, s, e, p) == pos,
    decreases pos - p,
{
    if p < pos {
        lemma_insert_pos(edges, target, s, e, pos, p + 1);
    }
}

/// Whether some candidate uses edge `e`.
spec fn has_candidate(cands: Seq<Candidate>, e: int) -> bool {
    exists|i: int| 0 <= i < cands.len() && cands[i].edge_id == e
}

/// A next hop of the search: edge, node it leads to, and a lower bound on
/// the hops still needed from there.
#[derive(Clone, Copy)]
struct Candidate {
    edge_id: usize,
    next: usize,
    lower_bound: usize,
}

impl RouteGraph {
    /// Order of candidate hops: fewest remaining hops first, then larger TVL,
    /// then lower fee, then pool address.
    fn candidate_before(&self, a: &Candidate, b: &Candidate) -> (r: bool)
        requires
            a.edge_id < self.edges().len(),
            b.edge_id < self.edges().len(),
        ensures
            r == hop_order(a.lower_bound as nat, b.lower_bound as nat, self.edges()[a.edge_id as int].2,
                self.edges()[b.edge_id as int].2),
    {
        if a.lower_bound != b.lower_bound {
            return a.lower_bound < b.lower_bound;
        }
        let (_, _, pa) = graph_edge_at(&self.graph, a.edge_id);
        let (_, _, pb) = graph_edge_at(&self.graph, b.edge_id);
        if pa.tvl_bits != pb.tvl_bits {
            return pa.tvl_bits > pb.tvl_bits;
        }
        if pa.fee_rate_bits != pb.fee_rate_bits {
            return pa.fee_rate_bits < pb.fee_rate_bits;
        }
        string_before(&pa.address, &pb.address)
    }

    /// Whether edge `e` leaves `node` towards an unvisited node from which the
    /// target is reachable within the hops left.
    pub closed spec fn hop_wanted(
        &self,
        node: usize,
        visited: Seq<usize>,
        used: usize,
        max: usize,
        remaining: Seq<Option<usize>>,
        e: int,
    ) -> bool {
        &&& 0 <= e < self.edges().len()
        &&& self.edges()[e].0 == node
        &&& self.edges()[e].1 < self.nodes().len()
        &&& !visited.contains(self.edges()[e].1)
        &&& remaining[self.edges()[e].1 as int] matches Some(d) && used + 1 + d <= max
    }

    /// Whether `c` is a usable hop from `node` on a walk that has visited `visited`.
    pub closed spec fn hop_ok(&self, node: usize, visited: Seq<usize>, c: Candidate) -> bool {
        &&& c.edge_id < self.edges().len()
        &&& self.edges()[c.edge_id as int].0 == node
        &&& self.edges()[c.edge_id as int].1 == c.next
        &&& c.next < self.nodes().len()
        &&& !visited.contains(c.next)
    }

    /// The usable hops leaving `node`, in search order (stable).
    #[verifier::rlimit(80)]
    fn candidates(
        &self,
        node: usize,
        visited: &Vec<usize>,
        used_hops: usize,
        max_hops: usize,
        remaining: &Vec<Option<usize>>,
        Ghost(target): Ghost<usize>,
    ) -> (r: Vec<Candidate>)
        requires
            node < self.nodes().len(),
            remaining@.len() == self.nodes().len(),
            distances_to(self.edges(), remaining@, target),
            used_hops < max_hops <= 4,
        ensures
            forall|j: int| 0 <= j < r@.len() ==> #[trigger] self.hop_ok(node, visited@, r@[j]),
            forall|e: int| #[trigger] self.hop_wanted(node, visited@, used_hops, max_hops, remaining@, e)
                ==> has_candidate(r@, e),
            cand_ids(r@) == hop_sequence(self.nodes().len(), self.edges(), target, max_hops as nat, node, visited@,
                used_hops as nat),
            forall|j: int| 0 <= j < r@.len() ==>
                (#[trigger] r@[j]).lower_bound == hops_left(self.edges(), target, r@[j].edge_id as int),
    {
        let ids = graph_outgoing(&self.graph, node);
        let ghost edges = self.edges();
        let ghost nc = self.nodes().len();
        let ghost out = out_edge_ids(edges, node, edges.len());
        proof {
            lemma_out_edge_ids(edges, node, edges.len());
        }
        let mut sorted: Vec<Candidate> = Vec::new();
        let mut k: usize = 0;
        proof {
            assert(out.take(0) =~= Seq::<int>::empty());
            assert(cand_ids(sorted@) =~= Seq::<int>::empty());
        }
        while k < ids.len()
            invariant
                k <= ids@.len(),
                ids@.len() == out.len(),
                forall|j: int| 0 <= j < ids@.len() ==> #[trigger] ids@[j] == out[j],
                forall|j: int| 0 <= j < out.len() ==> #[trigger] out[j] < edges.len() && edges[out[j]].0 == node,
                edges == self.edges(),
                nc == self.nodes().len(),
                node < self.nodes().len(),
                remaining@.len() == self.nodes().len(),
                distances_to(edges, remaining@, target),
                used_hops < max_hops <= 4,
                forall|j: int| 0 <= j < sorted@.len() ==> #[trigger] self.hop_ok(node, visited@, sorted@[j]),
                forall|j: int| 0 <= j < k && #[trigger] self.hop_wanted(node, visited@, used_hops, max_hops, remaining@, out[j])
                    ==> has_candidate(sorted@, out[j]),
                cand_ids(sorted@) == sorted_hops(edges, target,
                    taken_hops(nc, edges, target, max_hops as nat, node, visited@, used_hops as nat, out.take(k as int))),
                forall|j: int| 0 <= j < sorted@.len() ==>
                    (#[trigger] sorted@[j]).lower_bound == hops_left(edges, target, sorted@[j].edge_id as int),
            decreases ids@.len() - k,
        {
            let id = ids[k];
            let (_, next, _) = graph_edge_at(&self.graph, id);
            let mut keep = next < remaining.len();
            if keep {
                let mut v: usize = 0;
                while v < visited.len()
                    invariant
                        v <= visited@.len(),
                        keep <==> forall|x: int| 0 <= x < v ==> visited@[x] != next,
                    decreases visited@.len() - v,
                {
                    if visited[v] == next {
                        keep = false;
                    }
                    v = v + 1;
                }
                proof {
                    if !keep {
                        let x = choose|x: int| 0 <= x < visited@.len() && !(visited@[x] != next);
                        assert(visited@.contains(next));
                    }
                }
            }
            let mut lower_bound: usize = 0;
            if keep {
                match remaining[next] {
                    Some(d) => {
                        lower_bound = d;
                    },
                    None => {
                        keep = false;
                    },
                }
            }
            if keep && lower_bound > max_hops - used_hops - 1 {
                keep = false;
            }
            proof {
                assert(keep <==> self.hop_wanted(node, visited@, used_hops, max_hops, remaining@, out[k as int]));
                self.lemma_wanted_is_taken(node, visited@, used_hops, max_hops, remaining@, target, out[k as int]);
            }
            let ghost before = sorted@;
            proof {
                lemma_taken_step(nc, edges, target, max_hops as nat, node, visited@, used_hops as nat, out, k as int);
            }
            if keep {
                let c = Candidate { edge_id: id, next, lower_bound };
                proof {
                    assert(self.hop_ok(node, visited@, c));
                    lemma_sorted_push(edges, target,
                        taken_hops(nc, edges, target, max_hops as nat, node, visited@, used_hops as nat, out.take(k as int)),
                        out[k as int]);
                }
                self.insert_candidate(&mut sorted, c, node, Ghost(visited@), Ghost(target));
                proof {
                    assert forall|j: int| 0 <= j < k + 1 && #[trigger] self.hop_wanted(node, visited@, used_hops, max_hops, remaining@, out[j])
                        implies has_candidate(sorted@, out[j]) by {
                        if j < k {
                            assert(has_candidate(before, out[j]));
                        }
                    }
                }
            }
            k = k + 1;
        }
        proof {
            assert forall|e: int| #[trigger] self.hop_wanted(node, visited@, used_hops, max_hops, remaining@, e)
                implies has_candidate(sorted@, e) by {
                let j = choose|j: int| 0 <= j < out.len() && out[j] == e;
                assert(ids@[j] == out[j]);
            }
            assert(out.take(k as int) =~= out);
        }
        sorted
    }
}

impl RouteGraph {
    /// With exact hop distances, the hops the search wants are the hops it takes.
    proof fn lemma_wanted_is_taken(
        &self,
        node: usize,
        visited: Seq<usize>,
        used: usize,
        max: usize,
        remaining: Seq<Option<usize>>,
        target: usize,
        e: int,
    )
        requires
            remaining.len() == self.nodes().len(),
            distances_to(self.edges(), remaining, target),
        ensures
            self.hop_wanted(node, visited, used, max, remaining, e)
                <==> hop_taken(self.nodes().len(), self.edges(), target, max as nat, node, visited, used as nat, e),
    {
        if 0 <= e < self.edges().len() && self.edges()[e].1 < self.nodes().len() {
            let v = self.edges()[e].1 as int;
            assert(match remaining[v] {
                Some(d) => hop_distance(self.edges(), v as usize, target) == Some(d as nat),
                None => hop_distance(self.edges(), v as usize, target) is None,
            });
        }
    }

    /// Inserts `c` after every candidate that is not tried after it.
    fn insert_candidate(
        &self,
        sorted: &mut Vec<Candidate>,
        c: Candidate,
        node: usize,
        Ghost(visited): Ghost<Seq<usize>>,
        Ghost(target): Ghost<usize>,
    )
        requires
            self.hop_ok(node, visited, c),
            c.lower_bound == hops_left(self.edges(), target, c.edge_id as int),
            forall|j: int| 0 <= j < old(sorted)@.len() ==> #[trigger] self.hop_ok(node, visited, old(sorted)@[j]),
            forall|j: int| 0 <= j < old(sorted)@.len() ==>
                (#[trigger] old(sorted)@[j]).lower_bound == hops_left(self.edges(), target, old(sorted)@[j].edge_id as int),
        ensures
            forall|j: int| 0 <= j < final(sorted)@.len() ==> #[trigger] self.hop_ok(node, visited, final(sorted)@[j]),
            forall|j: int| 0 <= j < final(sorted)@.len() ==>
                (#[trigger] final(sorted)@[j]).lower_bound == hops_left(self.edges(), target, final(sorted)@[j].edge_id as int),
            cand_ids(final(sorted)@) == cand_ids(old(sorted)@).insert(
                insert_pos(self.edges(), target, cand_ids(old(sorted)@), c.edge_id as int, 0), c.edge_id as int),
            has_candidate(final(sorted)@, c.edge_id as int),
            forall|e: int| has_candidate(old(sorted)@, e) ==> has_candidate(final(sorted)@, e),
    {
        let ghost edges = self.edges();
        let ghost before = sorted@;
        let mut pos: usize = 0;
        while pos < sorted.len()
            invariant
                pos <= sorted@.len(),
                sorted@ == before,
                forall|j: int| 0 <= j < sorted@.len() ==> #[trigger] self.hop_ok(node, visited, sorted@[j]),
                forall|j: int| 0 <= j < sorted@.len() ==>
                    (#[trigger] sorted@[j]).lower_bound == hops_left(edges, target, sorted@[j].edge_id as int),
                c.lower_bound == hops_left(edges, target, c.edge_id as int),
                edges == self.edges(),
                c.edge_id < edges.len(),
                forall|q: int| 0 <= q < pos ==> !edge_before(edges, target, c.edge_id as int,
                    #[trigger] cand_ids(before)[q]),
            ensures
                pos <= before.len(),
                pos == before.len() || edge_before(edges, target, c.edge_id as int, cand_ids(before)[pos as int]),
                forall|q: int| 0 <= q < pos ==> !edge_before(edges, target, c.edge_id as int,
                    #[trigger] cand_ids(before)[q]),
            decreases sorted@.len() - pos,
        {
            proof {
                assert(self.hop_ok(node, visited, sorted@[pos as int]));
                assert(cand_ids(before)[pos as int] == sorted@[pos as int].edge_id);
            }
            if self.candidate_before(&c, &sorted[pos]) {
                break;
            }
            pos = pos + 1;
        }
        proof {
            if pos < before.len() {
                assert(self.hop_ok(node, visited, before[pos as int]));
            }
            lemma_insert_pos(edges, target, cand_ids(before), c.edge_id as int, pos as int, 0);
        }
        sorted.insert(pos, c);
        proof {
            assert forall|j: int| 0 <= j < sorted@.len() implies #[trigger] self.hop_ok(node, visited, sorted@[j]) by {
                if j < pos {
                    assert(sorted@[j] == before[j]);
                } else if j > pos {
                    assert(sorted@[j] == before[j - 1]);
                }
            }
            assert forall|j: int| 0 <= j < sorted@.len() implies
                (#[trigger] sorted@[j]).lower_bound == hops_left(edges, target, sorted@[j].edge_id as int) by {
                if j < pos {
                    assert(sorted@[j] == before[j]);
                } else if j > pos {
                    assert(sorted@[j] == before[j - 1]);
                }
            }
            assert(cand_ids(sorted@) =~= cand_ids(before).insert(pos as int, c.edge_id as int));
            assert(sorted@[pos as int].edge_id == c.edge_id);
            assert forall|e: int| has_candidate(before, e) implies has_candidate(sorted@, e) by {
                let i = choose|i: int| 0 <= i < before.len() && before[i].edge_id == e;
                if i < pos {
                    assert(sorted@[i] == before[i]);
                } else {
                    assert(sorted@[i + 1] == before[i]);
                }
            }
        }
    }
}

/// One more listed edge: the taken hops grow by it when it is taken.
proof fn lemma_taken_step(
    nc: nat,
    edges: Seq<(usize, usize, PoolEdge)>,
    target: usize,
    max: nat,
    node: usize,
    visited: Seq<usize>,
    used: nat,
    out: Seq<int>,
    k: int,
)
    requires
        0 <= k < out.len(),
    ensures
        taken_hops(nc, edges, target, max, node, visited, used, out.take(k + 1)) == if hop_taken(nc, edges, target, max,
            node, visited, used, out[k]) {
            taken_hops(nc, edges, target, max, node, visited, used, out.take(k)).push(out[k])
        } else {
            taken_hops(nc, edges, target, max, node, visited, used, out.take(k))
        },
{
    assert(out.take(k + 1).drop_last() =~= out.take(k));
}

/// Sorting one more edge inserts it where the stable insertion puts it.
proof fn lemma_sorted_push(edges: Seq<(usize, usize, PoolEdge)>, target: usize, xs: Seq<int>, x: int)
    ensures
        sorted_hops(edges, target, xs.push(x)) == sorted_hops(edges, target, xs).insert(
            insert_pos(edges, target, sorted_hops(edges, target, xs), x, 0), x),
{
    assert(xs.push(x).drop_last() =~= xs);
}

/// The edge ids of candidates.
spec fn cand_ids(cs: Seq<Candidate>) -> Seq<int> {
    cs.map_values(|c: Candidate| c.edge_id as int)
}

/// A copy of a route.
pub(crate) fn copy_route(route: &Vec<PoolEdge>) -> (r: Vec<PoolEdge>)
    ensures
        r@ == route@,
{
    let mut out: Vec<PoolEdge> = Vec::new();
    let mut i: usize = 0;
    while i < route.len()
        invariant
            i <= route@.len(),
            out@ == route@.subrange(0, i as int),
        decreases route@.len() - i,
    {
        out.push(route[i].duplicate());
        proof {
            assert(route@.subrange(0, i + 1) =~= route@.subrange(0, i as int).push(route@[i as int]));
        }
        i = i + 1;
    }
    proof {
        assert(route@.subrange(0, route@.len() as int) =~= route@);
    }
    out
}


/// Whether the walk `path` through `eids`, carrying the pools `r`, is a
/// route the search is meant to return: one to `max` pools from `start` to
/// `target` through existing nodes, none visited twice.
pub open spec fn is_wanted_route(
    nodes: Seq<String>,
    edges: Seq<(usize, usize, PoolEdge)>,
    start: usize,
    target: usize,
    max: nat,
    path: Seq<usize>,
    eids: Seq<int>,
    r: Seq<PoolEdge>,
) -> bool {
    &&& walk_of(edges, path, eids, r)
    &&& path[0] == start && path.last() == target
    &&& path.no_duplicates()
    &&& 1 <= r.len() <= max
    &&& forall|i: int| 0 <= i < path.len() ==> #[trigger] path[i] < nodes.len()
}

/// Whether the walk (`path`, `eids`, `r`) continues the walk (`visited`, `eids0`, `route`).
pub open spec fn extends_state(
    visited: Seq<usize>,
    eids0: Seq<int>,
    route: Seq<PoolEdge>,
    path: Seq<usize>,
    eids: Seq<int>,
    r: Seq<PoolEdge>,
) -> bool {
    &&& route.len() <= r.len()
    &&& visited.len() <= path.len()
    &&& eids0.len() <= eids.len()
    &&& path.subrange(0, visited.len() as int) == visited
    &&& eids.subrange(0, eids0.len() as int) == eids0
    &&& r.subrange(0, route.len() as int) == route
}

/// The hop budget a search uses: the requested one, capped at the supported maximum.
pub open spec fn hop_cap(max_hops: usize) -> nat {
    if max_hops < MAX_SUPPORTED_HOPS { max_hops as nat } else { MAX_SUPPORTED_HOPS as nat }
}

/// The number of routes a search may return.
pub open spec fn limit_count(limit: Option<usize>) -> int {
    match limit {
        Some(l) => l as int,
        None => usize::MAX as int,
    }
}

/// Whether every wanted route from `start` to `target` of at most `cap`
/// pools is among `routes`.
pub open spec fn finds_all_wanted(
    nodes: Seq<String>,
    edges: Seq<(usize, usize, PoolEdge)>,
    start: usize,
    target: usize,
    cap: nat,
    routes: Seq<Vec<PoolEdge>>,
) -> bool {
    forall|path: Seq<usize>, eids: Seq<int>, r: Seq<PoolEdge>|
        #[trigger] is_wanted_route(nodes, edges, start, target, cap, path, eids, r) ==> found_in(routes, r)
}

/// When `target` is not within `cap` hops of `start`, there is no wanted
/// route to find.
proof fn lemma_unreachable_finds_all(
    nodes: Seq<String>,
    edges: Seq<(usize, usize, PoolEdge)>,
    start: usize,
    target: usize,
    cap: nat,
    routes: Seq<Vec<PoolEdge>>,
)
    requires
        !(hop_distance(edges, start, target) matches Some(d) && d <= cap),
    ensures
        finds_all_wanted(nodes, edges, start, target, cap, routes),
{
    assert forall|path: Seq<usize>, eids: Seq<int>, r: Seq<PoolEdge>|
        #[trigger] is_wanted_route(nodes, edges, start, target, cap, path, eids, r) implies found_in(routes, r) by {
        lemma_walk_reaches(edges, path, eids, r, 0);
        lemma_distance_at_most(edges, start, target, r.len());
    }
}

/// Every wanted route continues the empty walk at its start.
proof fn lemma_wanted_route_extends_start(
    nodes: Seq<String>,
    edges: Seq<(usize, usize, PoolEdge)>,
    start: usize,
    target: usize,
    cap: nat,
    path: Seq<usize>,
    eids: Seq<int>,
    r: Seq<PoolEdge>,
)
    requires
        is_wanted_route(nodes, edges, start, target, cap, path, eids, r),
    ensures
        extends_state(seq![start], Seq::<int>::empty(), Seq::<PoolEdge>::empty(), path, eids, r),
{
    assert(path.subrange(0, 1) =~= seq![start]);
    assert(eids.subrange(0, 0) =~= Seq::<int>::empty());
    assert(r.subrange(0, 0) =~= Seq::<PoolEdge>::empty());
}

/// Whether `r` is one of `routes`.
pub open spec fn found_in(routes: Seq<Vec<PoolEdge>>, r: Seq<PoolEdge>) -> bool {
    exists|j: int| 0 <= j < routes.len() && routes[j]@ == r
}

/// Whether `remaining` gives, for every node, its hop distance to `target`.
pub open spec fn distances_to(edges: Seq<(usize, usize, PoolEdge)>, remaining: Seq<Option<usize>>, target: usize) -> bool {
    forall|v: int| 0 <= v < remaining.len() ==> match #[trigger] remaining[v] {
        Some(d) => hop_distance(edges, v as usize, target) == Some(d as nat),
        None => hop_distance(edges, v as usize, target) is None,
    }
}

/// The rest of a walk from its `i`-th node reaches its last node.
proof fn lemma_walk_reaches(edges: Seq<(usize, usize, PoolEdge)>, path: Seq<usize>, eids: Seq<int>, r: Seq<PoolEdge>, i: int)
    requires
        walk_of(edges, path, eids, r),
        0 <= i <= r.len(),
    ensures
        has_walk(edges, path[i], path.last(), (r.len() - i) as nat),
    decreases r.len() - i,
{
    if i < r.len() {
        lemma_walk_reaches(edges, path, eids, r, i + 1);
        let e = eids[i];
        assert(edges[e].0 == path[i] && edges[e].1 == path[i + 1]);
        assert(has_walk(edges, edges[e].1, path.last(), (r.len() - i - 1) as nat));
    }
}

/// A node with a walk of length `k` to `to` has a hop distance of at most `k`.
proof fn lemma_distance_at_most(edges: Seq<(usize, usize, PoolEdge)>, from: usize, to: usize, k: nat)
    requires
        has_walk(edges, from, to, k),
    ensures
        hop_distance(edges, from, to) matches Some(d) && d <= k,
    decreases k,
{
    if exists|d2: nat| d2 < k && has_walk(edges, from, to, d2) {
        let d2 = choose|d2: nat| d2 < k && has_walk(edges, from, to, d2);
        lemma_distance_at_most(edges, from, to, d2);
    } else {
        assert(has_walk(edges, from, to, k) && forall|d2: nat| d2 < k ==> !has_walk(edges, from, to, d2));
        let d = choose|d: nat| has_walk(edges, from, to, d) && forall|d2: nat| d2 < d ==> !has_walk(edges, from, to, d2);
        if d > k {
            assert(!has_walk(edges, from, to, k));
        }
    }
}

proof fn lemma_found_grows(routes: Seq<Vec<PoolEdge>>, more: Seq<Vec<PoolEdge>>, r: Seq<PoolEdge>)
    requires
        found_in(routes, r),
        routes.len() <= more.len(),
        more.subrange(0, routes.len() as int) == routes,
    ensures
        found_in(more, r),
{
    let j = choose|j: int| 0 <= j < routes.len() && routes[j]@ == r;
    assert(more[j] == more.subrange(0, routes.len() as int)[j]);
}

/// A wanted walk that continues a walk of the same length is that walk.
proof fn lemma_same_length_completion(
    visited: Seq<usize>, eids0: Seq<int>, route: Seq<PoolEdge>,
    path: Seq<usize>, eids: Seq<int>, r: Seq<PoolEdge>,
    edges: Seq<(usize, usize, PoolEdge)>,
)
    requires
        walk_of(edges, visited, eids0, route),
        walk_of(edges, path, eids, r),
        extends_state(visited, eids0, route, path, eids, r),
        r.len() == route.len(),
    ensures
        path == visited,
        r == route,
{
    assert(path =~= path.subrange(0, visited.len() as int));
    assert(r =~= r.subrange(0, route.len() as int));
}

impl RouteGraph {
    /// The edge a wanted walk takes after the walk it continues is a hop the
    /// search keeps.
    proof fn lemma_next_hop_wanted(
        &self,
        target: usize,
        start: usize,
        max: usize,
        remaining: Seq<Option<usize>>,
        visited: Seq<usize>,
        eids0: Seq<int>,
        route: Seq<PoolEdge>,
        path: Seq<usize>,
        eids: Seq<int>,
        r: Seq<PoolEdge>,
    )
        requires
            walk_of(self.edges(), visited, eids0, route),
            is_wanted_route(self.nodes(), self.edges(), start, target, max as nat, path, eids, r),
            extends_state(visited, eids0, route, path, eids, r),
            r.len() > route.len(),
            remaining.len() == self.nodes().len(),
            distances_to(self.edges(), remaining, target),
        ensures
            self.hop_wanted(visited.last(), visited, route.len() as usize, max, remaining, eids[route.len() as int]),
            self.edges()[eids[route.len() as int]] == (visited.last(), path[route.len() as int + 1], r[route.len() as int]),
    {
        let edges = self.edges();
        let i = route.len() as int;
        let e = eids[i];
        let next = path[i + 1];
        assert(visited.last() == path[i]) by {
            assert(visited[i] == path.subrange(0, visited.len() as int)[i]);
        }
        assert(edges[e] == (path[i], path[i + 1], r[i]));
        assert(next < self.nodes().len());
        assert(!visited.contains(next)) by {
            if visited.contains(next) {
                let x = choose|x: int| 0 <= x < visited.len() && visited[x] == next;
                assert(path[x] == path.subrange(0, visited.len() as int)[x]);
                assert(path[x] == path[i + 1]);
            }
        }
        lemma_walk_reaches(edges, path, eids, r, i + 1);
        lemma_distance_at_most(edges, next, target, (r.len() - i - 1) as nat);
        assert(remaining[next as int] matches Some(d) && route.len() + 1 + d <= max);
    }
}

impl RouteGraph {
    /// Depth-first search from the end of `route` (whose walk is `visited`),
    /// appending each route that reaches `target`, children in candidate
    /// order, until `route_limit` routes are found.
    #[verifier::rlimit(60)]
    fn search(
        &self,
        node: usize,
        target: usize,
        route: &mut Vec<PoolEdge>,
        visited: &mut Vec<usize>,
        Ghost(eids): Ghost<Seq<int>>,
        Ghost(start): Ghost<usize>,
        max_hops: usize,
        route_limit: usize,
        remaining: &Vec<Option<usize>>,
        routes: &mut Vec<Vec<PoolEdge>>,
    )
        requires
            max_hops <= 4,
            old(route)@.len() <= max_hops,
            node < self.nodes().len(),
            remaining@.len() == self.nodes().len(),
            distances_to(self.edges(), remaining@, target),
            walk_of(self.edges(), old(visited)@, eids, old(route)@),
            old(visited)@[0] == start,
            old(visited)@.last() == node,
            old(visited)@.no_duplicates(),
            old(routes)@.len() <= route_limit,
            forall|j: int| 0 <= j < old(routes)@.len() ==>
                is_simple_route(self.edges(), start, target, max_hops as nat, #[trigger] old(routes)@[j]@),
        ensures
            final(route)@ == old(route)@,
            final(visited)@ == old(visited)@,
            final(routes)@.len() <= route_limit,
            forall|j: int| 0 <= j < final(routes)@.len() ==>
                is_simple_route(self.edges(), start, target, max_hops as nat, #[trigger] final(routes)@[j]@),
            old(routes)@.len() <= final(routes)@.len(),
            final(routes)@.subrange(0, old(routes)@.len() as int) == old(routes)@,
            final(routes)@.len() < route_limit ==> forall|path: Seq<usize>, eids2: Seq<int>, r: Seq<PoolEdge>|
                #[trigger] is_wanted_route(self.nodes(), self.edges(), start, target, max_hops as nat, path, eids2, r)
                && extends_state(old(visited)@, eids, old(route)@, path, eids2, r) ==> found_in(final(routes)@, r),
            route_views(final(routes)@) == first_n(route_views(old(routes)@) + dfs_routes(self.nodes().len(),
                self.edges(), target, max_hops as nat, old(visited)@, old(route)@), route_limit as int),
        decreases max_hops - old(route)@.len(),
    {
        let ghost routes0 = routes@;
        let ghost all = dfs_routes(self.nodes().len(), self.edges(), target, max_hops as nat, visited@, route@);
        if routes.len() >= route_limit {
            proof {
                assert(routes@.subrange(0, routes0.len() as int) =~= routes0);
                lemma_first_n_full(route_views(routes0), all, route_limit as int);
            }
            return;
        }
        if node == target && route.len() > 0 {
            let found = copy_route(route);
            routes.push(found);
            proof {
                assert(walk_of(self.edges(), visited@, eids, found@));
                assert forall|j: int| 0 <= j < routes@.len() implies
                    is_simple_route(self.edges(), start, target, max_hops as nat, #[trigger] routes@[j]@) by {
                    if j < routes0.len() {
                        assert(routes@[j] == routes0[j]);
                    }
                }
                assert(routes@.subrange(0, routes0.len() as int) =~= routes0);
                assert forall|path: Seq<usize>, eids2: Seq<int>, r: Seq<PoolEdge>|
                    #[trigger] is_wanted_route(self.nodes(), self.edges(), start, target, max_hops as nat, path, eids2, r)
                    && extends_state(visited@, eids, route@, path, eids2, r) implies found_in(routes@, r) by {
                    if r.len() > route@.len() {
                        // The walk would visit the target twice.
                        let i = route@.len() as int;
                        assert(path[i] == path.subrange(0, visited@.len() as int)[i]);
                        assert(path[i] == target);
                        assert(path.last() == target);
                        assert(path[path.len() - 1] == path[i]);
                    }
                    lemma_same_length_completion(visited@, eids, route@, path, eids2, r, self.edges());
                    assert(routes@[routes0.len() as int]@ == r);
                }
                assert(all == seq![route@]);
                assert(route_views(routes@) =~= route_views(routes0) + all);
            }
            return;
        }
        if route.len() >= max_hops {
            proof {
                assert(routes@.subrange(0, routes0.len() as int) =~= routes0);
                assert forall|path: Seq<usize>, eids2: Seq<int>, r: Seq<PoolEdge>|
                    #[trigger] is_wanted_route(self.nodes(), self.edges(), start, target, max_hops as nat, path, eids2, r)
                    && extends_state(visited@, eids, route@, path, eids2, r) implies found_in(routes@, r) by {
                    lemma_same_length_completion(visited@, eids, route@, path, eids2, r, self.edges());
                }
                assert(all == Seq::<Seq<PoolEdge>>::empty());
                assert(route_views(routes0) + all =~= route_views(routes0));
            }
            return;
        }
        let cands = self.candidates(node, visited, route.len(), max_hops, remaining, Ghost(target));
        let ghost route0 = route@;
        let ghost visited0 = visited@;
        let ghost hops = hop_sequence(self.nodes().len(), self.edges(), target, max_hops as nat, node, visited0,
            route0.len());
        let mut k: usize = 0;
        proof {
            assert(all == dfs_hops(self.nodes().len(), self.edges(), target, max_hops as nat, visited0, route0, hops, 0));
        }
        while k < cands.len()
            invariant
                k <= cands@.len(),
                cand_ids(cands@) == hops,
                all == dfs_hops(self.nodes().len(), self.edges(), target, max_hops as nat, visited0, route0, hops, 0),
                first_n(route_views(routes@) + dfs_hops(self.nodes().len(), self.edges(), target, max_hops as nat,
                    visited0, route0, hops, k as int), route_limit as int)
                    == first_n(route_views(routes0) + all, route_limit as int),
                forall|j: int| 0 <= j < cands@.len() ==> #[trigger] self.hop_ok(node, visited0, cands@[j]),
                forall|e: int| #[trigger] self.hop_wanted(node, visited0, route0.len() as usize, max_hops, remaining@, e)
                    ==> has_candidate(cands@, e),
                route@ == route0,
                route0 == old(route)@,
                visited@ == visited0,
                visited0 == old(visited)@,
                route0.len() < max_hops <= 4,
                node < self.nodes().len(),
                node != target || route0.len() == 0,
                remaining@.len() == self.nodes().len(),
                distances_to(self.edges(), remaining@, target),
                walk_of(self.edges(), visited0, eids, route0),
                visited0[0] == start,
                visited0.last() == node,
                visited0.no_duplicates(),
                routes@.len() <= route_limit,
                routes0 == old(routes)@,
                routes0.len() <= routes@.len(),
                routes@.subrange(0, routes0.len() as int) == routes0,
                forall|j: int| 0 <= j < routes@.len() ==>
                    is_simple_route(self.edges(), start, target, max_hops as nat, #[trigger] routes@[j]@),
                routes@.len() < route_limit ==> forall|path: Seq<usize>, eids2: Seq<int>, r: Seq<PoolEdge>|
                    #[trigger] is_wanted_route(self.nodes(), self.edges(), start, target, max_hops as nat, path, eids2, r)
                    && extends_state(visited0, eids, route0, path, eids2, r)
                    && r.len() > route0.len()
                    && (exists|j: int| 0 <= j < k && cands@[j].edge_id == eids2[route0.len() as int])
                    ==> found_in(routes@, r),
            decreases cands@.len() - k,
        {
            let c = cands[k];
            proof {
                assert(self.hop_ok(node, visited0, c));
            }
            let (_, _, pool) = graph_edge_at(&self.graph, c.edge_id);
            route.push(pool.duplicate());
            visited.push(c.next);
            let ghost eids2 = eids.push(c.edge_id as int);
            let ghost routes_before = routes@;
            proof {
                let edges = self.edges();
                assert forall|i: int| 0 <= i < route@.len() implies 0 <= #[trigger] eids2[i] < edges.len()
                    && edges[eids2[i]] == (visited@[i], visited@[i + 1], route@[i]) by {
                    if i < route0.len() {
                        assert(eids2[i] == eids[i]);
                        assert(visited@[i] == visited0[i]);
                        assert(visited@[i + 1] == visited0[i + 1]);
                        assert(route@[i] == route0[i]);
                    } else {
                        assert(visited@[i] == visited0.last());
                    }
                }
                assert(walk_of(edges, visited@, eids2, route@));
                assert(visited@.no_duplicates()) by {
                    assert forall|a: int, b: int| 0 <= a < visited@.len() && 0 <= b < visited@.len() && a != b
                        implies visited@[a] != visited@[b] by {
                        if a < visited0.len() && b < visited0.len() {
                            assert(visited@[a] == visited0[a]);
                            assert(visited@[b] == visited0[b]);
                        } else if a < visited0.len() {
                            assert(visited@[a] == visited0[a]);
                            assert(visited0.contains(visited0[a]));
                        } else {
                            assert(visited@[b] == visited0[b]);
                            assert(visited0.contains(visited0[b]));
                        }
                    }
                }
            }
            let ghost visited1 = visited@;
            let ghost route1 = route@;
            self.search(c.next, target, route, visited, Ghost(eids2), Ghost(start), max_hops, route_limit, remaining, routes);
            route.pop();
            visited.pop();
            proof {
                assert(hops[k as int] == c.edge_id);
                assert(visited1 == visited0.push(self.edges()[hops[k as int]].1));
                assert(route1 == route0.push(self.edges()[hops[k as int]].2));
                lemma_dfs_step(self.nodes().len(), self.edges(), target, max_hops as nat, visited0, route0, hops, k as int,
                    route_views(routes_before), route_views(routes@), route_limit as int);
                assert(route@ =~= route0);
                assert(visited@ =~= visited0);
                assert(routes@.subrange(0, routes0.len() as int) =~= routes0) by {
                    assert forall|j: int| 0 <= j < routes0.len() implies routes@[j] == routes0[j] by {
                        assert(routes@[j] == routes@.subrange(0, routes_before.len() as int)[j]);
                        assert(routes_before[j] == routes_before.subrange(0, routes0.len() as int)[j]);
                    }
                }
                if routes@.len() < route_limit {
                    assert forall|path: Seq<usize>, eids3: Seq<int>, r: Seq<PoolEdge>|
                        #[trigger] is_wanted_route(self.nodes(), self.edges(), start, target, max_hops as nat, path, eids3, r)
                        && extends_state(visited0, eids, route0, path, eids3, r)
                        && r.len() > route0.len()
                        && (exists|j: int| 0 <= j < k + 1 && cands@[j].edge_id == eids3[route0.len() as int])
                        implies found_in(routes@, r) by {
                        let i = route0.len() as int;
                        if cands@[k as int].edge_id == eids3[i] {
                            self.lemma_next_hop_wanted(target, start, max_hops, remaining@, visited0, eids, route0,
                                path, eids3, r);
                            assert(self.edges()[eids3[i]].1 == c.next);
                            assert(path[i + 1] == c.next);
                            assert(extends_state(visited1, eids2, route1, path, eids3, r)) by {
                                assert(path.subrange(0, visited1.len() as int) =~= visited1) by {
                                    assert forall|x: int| 0 <= x < visited1.len() implies path[x] == visited1[x] by {
                                        if x < visited0.len() {
                                            assert(path[x] == path.subrange(0, visited0.len() as int)[x]);
                                        }
                                    }
                                }
                                assert(eids3.subrange(0, eids2.len() as int) =~= eids2) by {
                                    assert forall|x: int| 0 <= x < eids2.len() implies eids3[x] == eids2[x] by {
                                        if x < eids.len() {
                                            assert(eids3[x] == eids3.subrange(0, eids.len() as int)[x]);
                                        }
                                    }
                                }
                                assert(r.subrange(0, route1.len() as int) =~= route1) by {
                                    assert forall|x: int| 0 <= x < route1.len() implies r[x] == route1[x] by {
                                        if x < route0.len() {
                                            assert(r[x] == r.subrange(0, route0.len() as int)[x]);
                                        } else {
                                            assert(self.edges()[eids3[i]].2 == r[i]);
                                        }
                                    }
                                }
                            }
                        } else {
                            let j = choose|j: int| 0 <= j < k + 1 && cands@[j].edge_id == eids3[i];
                            assert(j < k);
                            assert(routes_before.len() <= routes@.len());
                            assert(found_in(routes_before, r));
                            lemma_found_grows(routes_before, routes@, r);
                        }
                    }
                }
            }
            k = k + 1;
        }
        proof {
            assert(dfs_hops(self.nodes().len(), self.edges(), target, max_hops as nat, visited0, route0, hops,
                k as int) == Seq::<Seq<PoolEdge>>::empty());
            assert(route_views(routes@) + Seq::<Seq<PoolEdge>>::empty() =~= route_views(routes@));
            assert forall|path: Seq<usize>, eids2: Seq<int>, r: Seq<PoolEdge>|
                #[trigger] is_wanted_route(self.nodes(), self.edges(), start, target, max_hops as nat, path, eids2, r)
                && extends_state(visited0, eids, route0, path, eids2, r) && routes@.len() < route_limit
                implies found_in(routes@, r) by {
                if r.len() == route0.len() {
                    lemma_same_length_completion(visited0, eids, route0, path, eids2, r, self.edges());
                    assert(path.last() == node);
                } else {
                    self.lemma_next_hop_wanted(target, start, max_hops, remaining@, visited0, eids, route0,
                        path, eids2, r);
                    let e = eids2[route0.len() as int];
                    assert(has_candidate(cands@, e));
                    let j = choose|j: int| 0 <= j < cands@.len() && cands@[j].edge_id == e;
                    assert(exists|j: int| 0 <= j < cands@.len() && cands@[j].edge_id == e);
                }
            }
        }
    }

    /// Finds simple routes (no token visited twice) from `source_mint` to
    /// `target_mint` of at most `max_hops` pools (capped at the supported
    /// maximum), at most `limit` of them, searching depth-first and pruning
    /// branches that cannot reach the target within the hop budget.
    pub fn find_routes(
        &self,
        source_mint: &str,
        target_mint: &str,
        max_hops: usize,
        limit: Option<usize>,
    ) -> (routes: Vec<Vec<PoolEdge>>)
        ensures
            routes@.len() <= match limit { Some(l) => l, None => usize::MAX },
            max_hops == 0 || limit == Some(0usize) ==> routes@.len() == 0,
            lookup_mint(self.mint_to_node@, source_mint@) is None
                || lookup_mint(self.mint_to_node@, target_mint@) is None ==> routes@.len() == 0,
            routes@.len() > 0 ==> {
                let start = lookup_mint(self.mint_to_node@, source_mint@)->0;
                let target = lookup_mint(self.mint_to_node@, target_mint@)->0;
                &&& start < self.nodes().len() && target < self.nodes().len()
                &&& hop_distance(self.edges(), start, target) matches Some(d) && d <= hop_cap(max_hops)
                &&& forall|j: int| 0 <= j < routes@.len() ==>
                    is_simple_route(self.edges(), start, target, hop_cap(max_hops), #[trigger] routes@[j]@)
            },
            routes@.len() < limit_count(limit) ==> match (lookup_mint(self.mint_to_node@, source_mint@),
                lookup_mint(self.mint_to_node@, target_mint@)) {
                (Some(start), Some(target)) => start < self.nodes().len() && target < self.nodes().len()
                    ==> finds_all_wanted(self.nodes(), self.edges(), start, target, hop_cap(max_hops), routes@),
                _ => true,
            },
            route_views(routes@) == match (lookup_mint(self.mint_to_node@, source_mint@),
                lookup_mint(self.mint_to_node@, target_mint@)) {
                (Some(start), Some(target)) => if start < self.nodes().len() && target < self.nodes().len() {
                    first_n(search_results(self.nodes().len(), self.edges(), start, target, hop_cap(max_hops)),
                        limit_count(limit))
                } else {
                    Seq::empty()
                },
                _ => Seq::empty(),
            },
            one_edge_per_pool_and_node(self.edges()) ==> route_views(routes@).no_duplicates(),
    {
        let mut routes: Vec<Vec<PoolEdge>> = Vec::new();
        let ghost requested = max_hops;
        let max_hops = if max_hops < MAX_SUPPORTED_HOPS { max_hops } else { MAX_SUPPORTED_HOPS };
        let route_limit = match limit {
            Some(l) => l,
            None => usize::MAX,
        };
        assert(max_hops as nat == hop_cap(requested));
        proof {
            assert(route_views(routes@) =~= Seq::<Seq<PoolEdge>>::empty());
        }
        if max_hops == 0 || route_limit == 0 {
            proof {
                let m = lookup_mint(self.mint_to_node@, source_mint@);
                let t = lookup_mint(self.mint_to_node@, target_mint@);
                if m is Some && t is Some {
                    let x = search_results(self.nodes().len(), self.edges(), m->0, t->0, hop_cap(requested));
                    if route_limit == 0 && x.len() > 0 {
                        assert(x.take(0) =~= Seq::<Seq<PoolEdge>>::empty());
                    }
                }
            }
            return routes;
        }
        let start = match self.lookup_node(&source_mint.to_owned()) {
            Some(n) => n,
            None => return routes,
        };
        let target = match self.lookup_node(&target_mint.to_owned()) {
            Some(n) => n,
            None => return routes,
        };
        let node_count = graph_node_count(&self.graph);
        if start >= node_count || target >= node_count {
            return routes;
        }
        let found = self.routes_between(start, target, max_hops, route_limit);
        proof {
            if one_edge_per_pool_and_node(self.edges()) {
                lemma_search_results_distinct(self.nodes().len(), self.edges(), start, target, max_hops as nat,
                    route_limit as int);
            }
        }
        found
    }

    /// The depth-first search of `find_routes` between two existing nodes.
    #[verifier::rlimit(50)]
    fn routes_between(&self, start: usize, target: usize, max_hops: usize, route_limit: usize)
        -> (routes: Vec<Vec<PoolEdge>>)
        requires
            start < self.nodes().len(),
            target < self.nodes().len(),
            1 <= max_hops <= MAX_SUPPORTED_HOPS,
        ensures
            routes@.len() <= route_limit,
            routes@.len() > 0 ==> (hop_distance(self.edges(), start, target) matches Some(d) && d <= max_hops),
            forall|j: int| 0 <= j < routes@.len() ==>
                is_simple_route(self.edges(), start, target, max_hops as nat, #[trigger] routes@[j]@),
            routes@.len() < route_limit ==>
                finds_all_wanted(self.nodes(), self.edges(), start, target, max_hops as nat, routes@),
            route_views(routes@) == first_n(search_results(self.nodes().len(), self.edges(), start, target,
                max_hops as nat), route_limit as int),
    {
        let mut routes: Vec<Vec<PoolEdge>> = Vec::new();
        let remaining = graph_hops_to(&self.graph, target);
        proof {
            assert(route_views(routes@) =~= Seq::<Seq<PoolEdge>>::empty());
            assert(remaining@[start as int] == remaining@[start as int]);
        }
        let start_distance = match remaining[start] {
            Some(d) => d,
            None => {
                proof {
                    lemma_unreachable_finds_all(self.nodes(), self.edges(), start, target, max_hops as nat, routes@);
                }
                return routes;
            },
        };
        if start_distance > max_hops {
            proof {
                lemma_unreachable_finds_all(self.nodes(), self.edges(), start, target, max_hops as nat, routes@);
            }
            return routes;
        }
        let mut route: Vec<PoolEdge> = Vec::new();
        let mut visited: Vec<usize> = Vec::new();
        visited.push(start);
        proof {
            assert(visited@ =~= seq![start]);
            assert(visited@.no_duplicates());
            assert(walk_of(self.edges(), visited@, Seq::<int>::empty(), route@));
        }
        let ghost visited0 = visited@;
        self.search(start, target, &mut route, &mut visited, Ghost(Seq::<int>::empty()), Ghost(start),
            max_hops, route_limit, &remaining, &mut routes);
        proof {
            assert(route_views(Seq::<Vec<PoolEdge>>::empty()) + search_results(self.nodes().len(), self.edges(), start,
                target, max_hops as nat) =~= search_results(self.nodes().len(), self.edges(), start, target,
                max_hops as nat));
            assert forall|path: Seq<usize>, eids: Seq<int>, r: Seq<PoolEdge>|
                #[trigger] is_wanted_route(self.nodes(), self.edges(), start, target, max_hops as nat, path, eids, r)
                && routes@.len() < route_limit implies found_in(routes@, r) by {
                lemma_wanted_route_extends_start(self.nodes(), self.edges(), start, target, max_hops as nat, path, eids, r);
            }
        }
        routes
    }
}

/// Whether no two edges leave one node for the same pool, which holds
/// when no pool is listed twice.
pub open spec fn one_edge_per_pool_and_node(edges: Seq<(usize, usize, PoolEdge)>) -> bool {
    forall|a: int, b: int| 0 <= a < b < edges.len() && #[trigger] edges[a].0 == #[trigger] edges[b].0
        ==> edges[a].2 != edges[b].2
}

proof fn lemma_out_edge_ids_distinct(edges: Seq<(usize, usize, PoolEdge)>, n: usize, k: nat)
    requires
        k <= edges.len(),
    ensures
        out_edge_ids(edges, n, k).no_duplicates(),
    decreases k,
{
    if k > 0 {
        lemma_out_edge_ids_distinct(edges, n, (k - 1) as nat);
        lemma_out_edge_ids(edges, n, (k - 1) as nat);
        let prev = out_edge_ids(edges, n, (k - 1) as nat);
        if edges[k - 1].0 == n {
            let cur = out_edge_ids(edges, n, k);
            assert(cur == seq![k - 1] + prev);
            assert forall|x: int, y: int| 0 <= x < cur.len() && 0 <= y < cur.len() && x != y implies cur[x] != cur[y] by {
                if x > 0 && y > 0 {
                    assert(cur[x] == prev[x - 1] && cur[y] == prev[y - 1]);
                } else if x == 0 {
                    assert(cur[y] == prev[y - 1]);
                    assert(prev[y - 1] < k - 1);
                } else {
                    assert(cur[x] == prev[x - 1]);
                    assert(prev[x - 1] < k - 1);
                }
            }
        }
    }
}

proof fn lemma_taken_hops_subset(
    nc: nat,
    edges: Seq<(usize, usize, PoolEdge)>,
    target: usize,
    max: nat,
    node: usize,
    visited: Seq<usize>,
    used: nat,
    ids: Seq<int>,
)
    requires
        ids.no_duplicates(),
    ensures
        ({
            let t = taken_hops(nc, edges, target, max, node, visited, used, ids);
            &&& t.no_duplicates()
            &&& forall|j: int| 0 <= j < t.len() ==> ids.contains(#[trigger] t[j])
                && hop_taken(nc, edges, target, max, node, visited, used, t[j])
        }),
    decreases ids.len(),
{
    if ids.len() > 0 {
        let init = ids.drop_last();
        assert(init.no_duplicates()) by {
            assert forall|x: int, y: int| 0 <= x < init.len() && 0 <= y < init.len() && x != y implies init[x] != init[y] by {
                assert(init[x] == ids[x] && init[y] == ids[y]);
            }
        }
        lemma_taken_hops_subset(nc, edges, target, max, node, visited, used, init);
        let prev = taken_hops(nc, edges, target, max, node, visited, used, init);
        let t = taken_hops(nc, edges, target, max, node, visited, used, ids);
        assert forall|j: int| 0 <= j < prev.len() implies ids.contains(#[trigger] prev[j]) by {
            let k = choose|k: int| 0 <= k < init.len() && init[k] == prev[j];
            assert(ids[k] == init[k]);
        }
        if hop_taken(nc, edges, target, max, node, visited, used, ids.last()) {
            assert(t == prev.push(ids.last()));
            assert forall|j: int| 0 <= j < prev.len() implies prev[j] != ids.last() by {
                let k = choose|k: int| 0 <= k < init.len() && init[k] == prev[j];
                assert(ids[k] == init[k]);
                assert(ids[ids.len() - 1] == ids.last());
            }
            assert forall|x: int, y: int| 0 <= x < t.len() && 0 <= y < t.len() && x != y implies t[x] != t[y] by {
                if x < prev.len() && y < prev.len() {
                    assert(t[x] == prev[x] && t[y] == prev[y]);
                } else if x < prev.len() {
                    assert(t[x] == prev[x]);
                } else {
                    assert(t[y] == prev[y]);
                }
            }
            assert forall|j: int| 0 <= j < t.len() implies ids.contains(#[trigger] t[j])
                && hop_taken(nc, edges, target, max, node, visited, used, t[j]) by {
                if j < prev.len() {
                    assert(t[j] == prev[j]);
                } else {
                    assert(ids[ids.len() - 1] == ids.last());
                }
            }
        }
    }
}

proof fn lemma_insert_pos_bound(edges: Seq<(usize, usize, PoolEdge)>, target: usize, s: Seq<int>, e: int, p: int)
    requires
        0 <= p <= s.len(),
    ensures
        p <= insert_pos(edges, target, s, e, p) <= s.len(),
    decreases s.len() - p,
{
    if p < s.len() && !edge_before(edges, target, e, s[p]) {
        lemma_insert_pos_bound(edges, target, s, e, p + 1);
    }
}

#[verifier::rlimit(60)]
proof fn lemma_sorted_hops_members(edges: Seq<(usize, usize, PoolEdge)>, target: usize, xs: Seq<int>)
    requires
        xs.no_duplicates(),
    ensures
        sorted_hops(edges, target, xs).no_duplicates(),
        forall|e: int| #[trigger] sorted_hops(edges, target, xs).contains(e) <==> xs.contains(e),
    decreases xs.len(),
{
    if xs.len() > 0 {
        let init = xs.drop_last();
        assert(init.no_duplicates()) by {
            assert forall|x: int, y: int| 0 <= x < init.len() && 0 <= y < init.len() && x != y implies init[x] != init[y] by {
                assert(init[x] == xs[x] && init[y] == xs[y]);
            }
        }
        lemma_sorted_hops_members(edges, target, init);
        let sp = sorted_hops(edges, target, init);
        let x = xs.last();
        let pos = insert_pos(edges, target, sp, x, 0);
        lemma_insert_pos_bound(edges, target, sp, x, 0);
        let s = sorted_hops(edges, target, xs);
        assert(s == sp.insert(pos, x));
        assert(!init.contains(x)) by {
            if init.contains(x) {
                let k = choose|k: int| 0 <= k < init.len() && init[k] == x;
                assert(xs[k] == x && xs[xs.len() - 1] == x);
            }
        }
        assert(!sp.contains(x));
        assert forall|e: int| #[trigger] s.contains(e) <==> xs.contains(e) by {
            if s.contains(e) {
                let k = choose|k: int| 0 <= k < s.len() && s[k] == e;
                if k < pos {
                    assert(sp[k] == e);
                    assert(sp.contains(e));
                    let m = choose|m: int| 0 <= m < init.len() && init[m] == e;
                    assert(xs[m] == e);
                } else if k > pos {
                    assert(sp[k - 1] == e);
                    assert(sp.contains(e));
                    let m = choose|m: int| 0 <= m < init.len() && init[m] == e;
                    assert(xs[m] == e);
                } else {
                    assert(xs[xs.len() - 1] == e);
                }
            }
            if xs.contains(e) {
                let k = choose|k: int| 0 <= k < xs.len() && xs[k] == e;
                if k < init.len() {
                    assert(init[k] == e);
                    assert(sp.contains(e));
                    let m = choose|m: int| 0 <= m < sp.len() && sp[m] == e;
                    if m < pos {
                        assert(s[m] == e);
                    } else {
                        assert(s[m + 1] == e);
                    }
                } else {
                    assert(s[pos] == e);
                }
            }
        }
        assert forall|a: int, b: int| 0 <= a < s.len() && 0 <= b < s.len() && a != b implies s[a] != s[b] by {
            if a != pos && b != pos {
                let a0 = if a < pos { a } else { a - 1 };
                let b0 = if b < pos { b } else { b - 1 };
                assert(s[a] == sp[a0] && s[b] == sp[b0]);
            } else if a == pos {
                let b0 = if b < pos { b } else { b - 1 };
                assert(s[b] == sp[b0]);
            } else {
                let a0 = if a < pos { a } else { a - 1 };
                assert(s[a] == sp[a0]);
            }
        }
    }
}

/// The hops the search tries from `node` are distinct edges leaving `node`.
proof fn lemma_hop_sequence_facts(
    nc: nat,
    edges: Seq<(usize, usize, PoolEdge)>,
    target: usize,
    max: nat,
    node: usize,
    visited: Seq<usize>,
    used: nat,
)
    ensures
        ({
            let hs = hop_sequence(nc, edges, target, max, node, visited, used);
            &&& hs.no_duplicates()
            &&& forall|j: int| 0 <= j < hs.len() ==> 0 <= #[trigger] hs[j] < edges.len() && edges[hs[j]].0 == node
        }),
{
    let out = out_edge_ids(edges, node, edges.len());
    lemma_out_edge_ids_distinct(edges, node, edges.len());
    lemma_taken_hops_subset(nc, edges, target, max, node, visited, used, out);
    let t = taken_hops(nc, edges, target, max, node, visited, used, out);
    lemma_sorted_hops_members(edges, target, t);
    let hs = hop_sequence(nc, edges, target, max, node, visited, used);
    assert forall|j: int| 0 <= j < hs.len() implies 0 <= #[trigger] hs[j] < edges.len() && edges[hs[j]].0 == node by {
        assert(hs.contains(hs[j]));
        assert(t.contains(hs[j]));
        let k = choose|k: int| 0 <= k < t.len() && t[k] == hs[j];
        assert(hop_taken(nc, edges, target, max, node, visited, used, t[k]));
    }
}

/// Every route the search finds from the walk (`visited`, `route`) extends
/// `route`, and no route is found twice when no two edges leave one node
/// for the same pool.
proof fn lemma_dfs_routes_distinct(
    nc: nat,
    edges: Seq<(usize, usize, PoolEdge)>,
    target: usize,
    max: nat,
    visited: Seq<usize>,
    route: Seq<PoolEdge>,
)
    requires
        one_edge_per_pool_and_node(edges),
    ensures
        ({
            let rs = dfs_routes(nc, edges, target, max, visited, route);
            &&& rs.no_duplicates()
            &&& forall|j: int| 0 <= j < rs.len() ==> (#[trigger] rs[j]).len() >= route.len()
                && rs[j].subrange(0, route.len() as int) == route
        }),
    decreases max - route.len(), 1int, 0int,
{
    if visited.last() == target && route.len() > 0 {
        let rs = dfs_routes(nc, edges, target, max, visited, route);
        assert(rs == seq![route]);
        assert(route.subrange(0, route.len() as int) =~= route);
    } else if route.len() >= max {
    } else {
        let hs = hop_sequence(nc, edges, target, max, visited.last(), visited, route.len());
        lemma_hop_sequence_facts(nc, edges, target, max, visited.last(), visited, route.len());
        lemma_dfs_hops_distinct(nc, edges, target, max, visited, route, hs, 0);
        let rs = dfs_hops(nc, edges, target, max, visited, route, hs, 0);
        assert forall|j: int| 0 <= j < rs.len() implies (#[trigger] rs[j]).len() >= route.len()
            && rs[j].subrange(0, route.len() as int) == route by {
            assert(rs[j].len() > route.len());
        }
    }
}

/// The routes found through the hops `hops[i..]` all extend `route` by one
/// pool of those hops first, and none is found twice.
#[verifier::rlimit(60)]
proof fn lemma_dfs_hops_distinct(
    nc: nat,
    edges: Seq<(usize, usize, PoolEdge)>,
    target: usize,
    max: nat,
    visited: Seq<usize>,
    route: Seq<PoolEdge>,
    hops: Seq<int>,
    i: int,
)
    requires
        one_edge_per_pool_and_node(edges),
        hops.no_duplicates(),
        forall|j: int| 0 <= j < hops.len() ==> 0 <= #[trigger] hops[j] < edges.len() && edges[hops[j]].0 == visited.last(),
    ensures
        ({
            let rs = dfs_hops(nc, edges, target, max, visited, route, hops, i);
            &&& rs.no_duplicates()
            &&& forall|j: int| 0 <= j < rs.len() ==> (#[trigger] rs[j]).len() > route.len()
                && rs[j].subrange(0, route.len() as int) == route
                && exists|k: int| i <= k < hops.len() && rs[j][route.len() as int] == edges[hops[k]].2
        }),
    decreases max - route.len(), 0int, hops.len() - i,
{
    if route.len() >= max || i < 0 || i >= hops.len() {
    } else {
        let e = hops[i];
        let w = edges[e].2;
        let r1 = route.push(w);
        lemma_dfs_routes_distinct(nc, edges, target, max, visited.push(edges[e].1), r1);
        lemma_dfs_hops_distinct(nc, edges, target, max, visited, route, hops, i + 1);
        let a = dfs_routes(nc, edges, target, max, visited.push(edges[e].1), r1);
        let b = dfs_hops(nc, edges, target, max, visited, route, hops, i + 1);
        let rs = dfs_hops(nc, edges, target, max, visited, route, hops, i);
        assert(rs == a + b);
        assert forall|j: int| 0 <= j < a.len() implies (#[trigger] a[j]).len() > route.len()
            && a[j].subrange(0, route.len() as int) == route && a[j][route.len() as int] == w by {
            assert(a[j].subrange(0, r1.len() as int) == r1);
            assert(a[j][route.len() as int] == a[j].subrange(0, r1.len() as int)[route.len() as int]);
            assert(a[j].subrange(0, route.len() as int) =~= r1.subrange(0, route.len() as int));
            assert(r1.subrange(0, route.len() as int) =~= route);
        }
        assert forall|j: int| 0 <= j < rs.len() implies (#[trigger] rs[j]).len() > route.len()
            && rs[j].subrange(0, route.len() as int) == route
            && exists|k: int| i <= k < hops.len() && rs[j][route.len() as int] == edges[hops[k]].2 by {
            if j < a.len() {
                assert(rs[j] == a[j]);
                assert(rs[j][route.len() as int] == edges[hops[i]].2);
            } else {
                assert(rs[j] == b[j - a.len()]);
            }
        }
        assert forall|x: int, y: int| 0 <= x < rs.len() && 0 <= y < rs.len() && x != y implies rs[x] != rs[y] by {
            if x < a.len() && y < a.len() {
                assert(rs[x] == a[x] && rs[y] == a[y]);
            } else if x >= a.len() && y >= a.len() {
                assert(rs[x] == b[x - a.len()] && rs[y] == b[y - a.len()]);
            } else {
                let (xa, yb) = if x < a.len() { (x, y) } else { (y, x) };
                assert(rs[xa] == a[xa]);
                assert(rs[yb] == b[yb - a.len()]);
                let k = choose|k: int| i + 1 <= k < hops.len() && b[yb - a.len()][route.len() as int] == edges[hops[k]].2;
                assert(hops[k] != hops[i]);
                assert(edges[hops[k]].0 == edges[hops[i]].0);
                if hops[i] < hops[k] {
                    assert(edges[hops[i]].2 != edges[hops[k]].2);
                } else {
                    assert(edges[hops[k]].2 != edges[hops[i]].2);
                }
            }
        }
    }
}

/// When no two edges leave one node for the same pool, the search finds no
/// route twice.
pub proof fn lemma_search_results_distinct(nc: nat, edges: Seq<(usize, usize, PoolEdge)>, start: usize, target: usize,
    max: nat, n: int)
    requires
        one_edge_per_pool_and_node(edges),
        0 <= n,
    ensures
        first_n(search_results(nc, edges, start, target, max), n).no_duplicates(),
{
    let s = search_results(nc, edges, start, target, max);
    if max > 0 && (hop_distance(edges, start, target) matches Some(d) && d <= max) {
        lemma_dfs_routes_distinct(nc, edges, target, max, seq![start], Seq::empty());
    }
    assert(s.no_duplicates());
    if s.len() > n {
        let t = s.take(n);
        assert forall|x: int, y: int| 0 <= x < t.len() && 0 <= y < t.len() && x != y implies t[x] != t[y] by {
            assert(t[x] == s[x] && t[y] == s[y]);
        }
    }
}

} // verus!
