use vstd::prelude::*;
use vstd::string::StringSliceAdditionalSpecFns;
use crate::adapters::{address_from_str, address_text_key};
use crate::decimal::{parse_u128, parse_u128_spec};
use crate::graph::{
    RouteGraph, GraphStats, GraphValidationReport, built_from, kept_pools, lookup_mint,
    is_simple_route, pool_address_set, lemma_built_graph_is_valid, copy_route, finds_all_wanted,
    route_views, first_n, search_results, node_mints, mint_order,
};
use crate::pool::PubkeyBytes;
use crate::simulation::SimulatedQuoteEngine;
use crate::types::{
    DexProtocol, PoolEdge, PoolType, MAX_SUPPORTED_HOPS, dex_label, pool_type_label,
    dex_label_spec, pool_type_label_spec,
};

verus! {

/// Mainnet RPC endpoint used when none is given.
pub const DEFAULT_RPC_URL: &'static str = "https://api.mainnet-beta.solana.com";

/// Routing state shared by the request handlers.
pub struct AppState {
    pub pools: Vec<PoolEdge>,
    pub graph: RouteGraph,
    pub stats: GraphStats,
    pub validation: GraphValidationReport,
    pub simulated_engine: SimulatedQuoteEngine,
}

impl AppState {
    /// Builds the routing graph of `pools`, its stats and its validation report.
    pub fn from_pools_with_rpc(pools: Vec<PoolEdge>, rpc_url: &str) -> (r: Self)
        requires
            pools@.len() < 0x7fff_fffe,
        ensures
            r.pools@ == pools@,
            built_from(r.graph.nodes(), r.graph.edges(), r.graph.mint_to_node@, kept_pools(pools@)),
            node_mints(r.graph.nodes()) == mint_order(kept_pools(pools@)),
            r.graph.dropped_self_loop_pools == pools@.len() - kept_pools(pools@).len(),
            r.stats.token_count == r.graph.nodes().len(),
            r.stats.directed_edge_count == r.graph.edges().len(),
            r.stats.dropped_self_loop_pools == r.graph.dropped_self_loop_pools,
            r.stats.unique_pool_count == pool_address_set(r.graph.edges()).len(),
            r.validation == (GraphValidationReport {
                is_valid: true,
                missing_node_mappings: 0,
                mismatched_node_weights: 0,
                stale_node_mappings: 0,
                invalid_edge_endpoints: 0,
                missing_reverse_edges: 0,
            }),
            r.simulated_engine.url() == rpc_url@,
    {
        let graph = RouteGraph::new(pools.as_slice());
        let stats = graph.stats();
        let validation = graph.validate();
        proof {
            lemma_built_graph_is_valid(graph.nodes(), graph.edges(), graph.mint_to_node@, kept_pools(pools@));
        }
        let simulated_engine = SimulatedQuoteEngine::new(rpc_url);
        AppState { pools, graph, stats, validation, simulated_engine }
    }

    /// Same as [`AppState::from_pools_with_rpc`] with the mainnet endpoint.
    pub fn from_pools(pools: Vec<PoolEdge>) -> (r: Self)
        requires
            pools@.len() < 0x7fff_fffe,
        ensures
            r.pools@ == pools@,
            built_from(r.graph.nodes(), r.graph.edges(), r.graph.mint_to_node@, kept_pools(pools@)),
            r.validation.is_valid,
            r.simulated_engine.url() == DEFAULT_RPC_URL@,
    {
        Self::from_pools_with_rpc(pools, DEFAULT_RPC_URL)
    }
}

/// Number of the first `n` pools that belong to `dex`.
pub open spec fn dex_count(pools: Seq<PoolEdge>, dex: DexProtocol, n: nat) -> nat
    decreases n,
{
    if n == 0 || n > pools.len() {
        0
    } else {
        dex_count(pools, dex, (n - 1) as nat) + if pools[n - 1].dex == dex { 1nat } else { 0nat }
    }
}

/// Number of the first `n` pools of type `pool_type`.
pub open spec fn type_count(pools: Seq<PoolEdge>, pool_type: PoolType, n: nat) -> nat
    decreases n,
{
    if n == 0 || n > pools.len() {
        0
    } else {
        type_count(pools, pool_type, (n - 1) as nat) + if pools[n - 1].pool_type == pool_type { 1nat } else { 0nat }
    }
}

/// The entries of a label-to-count map, in label order, without zero counts.
pub open spec fn nonzero(entries: Seq<(Seq<char>, nat)>) -> Seq<(Seq<char>, nat)>
    decreases entries.len(),
{
    if entries.len() == 0 {
        Seq::empty()
    } else if entries.last().1 == 0 {
        nonzero(entries.drop_last())
    } else {
        nonzero(entries.drop_last()).push(entries.last())
    }
}

/// Graph statistics with pool counts per DEX and per pool type, as
/// label-ordered maps (entries with a zero count left out).
pub struct GraphStatsResponse {
    pub graph: GraphStats,
    pub validation: GraphValidationReport,
    pub dex_pool_counts: Vec<(&'static str, usize)>,
    pub pool_type_counts: Vec<(&'static str, usize)>,
}

/// The entries of `v` as (label, count) values.
pub open spec fn entries_view(v: Seq<(&'static str, usize)>) -> Seq<(Seq<char>, nat)> {
    v.map_values(|e: (&'static str, usize)| (e.0@, e.1 as nat))
}

proof fn lemma_count_bounds(pools: Seq<PoolEdge>, n: nat)
    requires
        n <= pools.len(),
    ensures
        dex_count(pools, DexProtocol::Whirlpool, n) + dex_count(pools, DexProtocol::Raydium, n)
            + dex_count(pools, DexProtocol::Meteora, n) == n,
        type_count(pools, PoolType::Amm, n) + type_count(pools, PoolType::ConcentratedLiquidity, n)
            + type_count(pools, PoolType::Dlmm, n) == n,
    decreases n,
{
    if n > 0 {
        lemma_count_bounds(pools, (n - 1) as nat);
    }
}

/// Appends `(label, count)` when the count is not zero.
fn push_nonzero(v: &mut Vec<(&'static str, usize)>, label: &'static str, count: usize)
    ensures
        entries_view(final(v)@) == if count == 0 {
            entries_view(old(v)@)
        } else {
            entries_view(old(v)@).push((label@, count as nat))
        },
{
    let ghost before = v@;
    if count > 0 {
        v.push((label, count));
        proof {
            assert(entries_view(v@) =~= entries_view(before).push((label@, count as nat)));
        }
    }
}

/// The graph statistics of `state` with its pools counted per DEX and per pool type.
pub fn build_graph_stats_response(state: &AppState) -> (r: GraphStatsResponse)
    ensures
        r.graph == state.stats,
        r.validation == state.validation,
        entries_view(r.dex_pool_counts@) == nonzero(seq![
            (dex_label_spec(DexProtocol::Meteora), dex_count(state.pools@, DexProtocol::Meteora, state.pools@.len())),
            (dex_label_spec(DexProtocol::Raydium), dex_count(state.pools@, DexProtocol::Raydium, state.pools@.len())),
            (dex_label_spec(DexProtocol::Whirlpool), dex_count(state.pools@, DexProtocol::Whirlpool, state.pools@.len())),
        ]),
        entries_view(r.pool_type_counts@) == nonzero(seq![
            (pool_type_label_spec(PoolType::Amm), type_count(state.pools@, PoolType::Amm, state.pools@.len())),
            (pool_type_label_spec(PoolType::ConcentratedLiquidity),
                type_count(state.pools@, PoolType::ConcentratedLiquidity, state.pools@.len())),
            (pool_type_label_spec(PoolType::Dlmm), type_count(state.pools@, PoolType::Dlmm, state.pools@.len())),
        ]),
{
    let ghost pools = state.pools@;
    let mut whirlpool: usize = 0;
    let mut raydium: usize = 0;
    let mut meteora: usize = 0;
    let mut amm: usize = 0;
    let mut clmm: usize = 0;
    let mut dlmm: usize = 0;
    let mut i: usize = 0;
    while i < state.pools.len()
        invariant
            pools == state.pools@,
            i <= pools.len(),
            whirlpool == dex_count(pools, DexProtocol::Whirlpool, i as nat),
            raydium == dex_count(pools, DexProtocol::Raydium, i as nat),
            meteora == dex_count(pools, DexProtocol::Meteora, i as nat),
            amm == type_count(pools, PoolType::Amm, i as nat),
            clmm == type_count(pools, PoolType::ConcentratedLiquidity, i as nat),
            dlmm == type_count(pools, PoolType::Dlmm, i as nat),
        decreases pools.len() - i,
    {
        proof {
            lemma_count_bounds(pools, i as nat);
        }
        let pool = &state.pools[i];
        match pool.dex {
            DexProtocol::Whirlpool => whirlpool = whirlpool + 1,
            DexProtocol::Raydium => raydium = raydium + 1,
            DexProtocol::Meteora => meteora = meteora + 1,
        }
        match pool.pool_type {
            PoolType::Amm => amm = amm + 1,
            PoolType::ConcentratedLiquidity => clmm = clmm + 1,
            PoolType::Dlmm => dlmm = dlmm + 1,
        }
        i = i + 1;
    }
    let mut dex_pool_counts: Vec<(&'static str, usize)> = Vec::new();
    push_nonzero(&mut dex_pool_counts, dex_label(DexProtocol::Meteora), meteora);
    push_nonzero(&mut dex_pool_counts, dex_label(DexProtocol::Raydium), raydium);
    push_nonzero(&mut dex_pool_counts, dex_label(DexProtocol::Whirlpool), whirlpool);
    let mut pool_type_counts: Vec<(&'static str, usize)> = Vec::new();
    push_nonzero(&mut pool_type_counts, pool_type_label(PoolType::Amm), amm);
    push_nonzero(&mut pool_type_counts, pool_type_label(PoolType::ConcentratedLiquidity), clmm);
    push_nonzero(&mut pool_type_counts, pool_type_label(PoolType::Dlmm), dlmm);
    proof {
        let d = seq![
            (dex_label_spec(DexProtocol::Meteora), meteora as nat),
            (dex_label_spec(DexProtocol::Raydium), raydium as nat),
            (dex_label_spec(DexProtocol::Whirlpool), whirlpool as nat),
        ];
        assert(d.drop_last() =~= seq![d[0], d[1]]);
        assert(d.drop_last().drop_last() =~= seq![d[0]]);
        assert(d.drop_last().drop_last().drop_last() =~= Seq::<(Seq<char>, nat)>::empty());
        reveal_with_fuel(nonzero, 4);
        let t = seq![
            (pool_type_label_spec(PoolType::Amm), amm as nat),
            (pool_type_label_spec(PoolType::ConcentratedLiquidity), clmm as nat),
            (pool_type_label_spec(PoolType::Dlmm), dlmm as nat),
        ];
        assert(t.drop_last() =~= seq![t[0], t[1]]);
        assert(t.drop_last().drop_last() =~= seq![t[0]]);
        assert(t.drop_last().drop_last().drop_last() =~= Seq::<(Seq<char>, nat)>::empty());
        assert(entries_view(Seq::<(&'static str, usize)>::empty()) =~= Seq::<(Seq<char>, nat)>::empty());
    }
    GraphStatsResponse {
        graph: state.stats,
        validation: state.validation,
        dex_pool_counts,
        pool_type_counts,
    }
}

/// The hop budget of a search: the requested one, capped at the supported maximum.
pub open spec fn effective_hops(max_hops: usize) -> usize {
    if max_hops < MAX_SUPPORTED_HOPS { max_hops } else { MAX_SUPPORTED_HOPS }
}

/// The route count of a search: the requested one, clamped to `1..=100`.
pub open spec fn clamped_limit(limit: usize) -> usize {
    if limit < 1 { 1 } else if limit > 100 { 100 } else { limit }
}

/// The routes of `routes` of exactly `h` pools, in order.
pub open spec fn routes_of_len(routes: Seq<Seq<PoolEdge>>, h: nat) -> Seq<Seq<PoolEdge>>
    decreases routes.len(),
{
    if routes.len() == 0 {
        Seq::empty()
    } else {
        let kept = routes_of_len(routes.drop_last(), h);
        if routes.last().len() == h { kept.push(routes.last()) } else { kept }
    }
}

/// The routes that the graph search of a query finds, in order, with the
/// effective hop budget and route count.
pub open spec fn searched_routes(
    state: &AppState,
    source_mint: Seq<char>,
    target_mint: Seq<char>,
    effective: usize,
    lim: usize,
) -> Seq<Seq<PoolEdge>> {
    match (lookup_mint(state.graph.mint_to_node@, source_mint), lookup_mint(state.graph.mint_to_node@, target_mint)) {
        (Some(start), Some(target)) => if start < state.graph.nodes().len() && target < state.graph.nodes().len() {
            first_n(search_results(state.graph.nodes().len(), state.graph.edges(), start, target, effective as nat),
                lim as int)
        } else {
            Seq::empty()
        },
        _ => Seq::empty(),
    }
}

/// What the route search of a query guarantees of the routes it found, with
/// the effective hop budget and route count: the budget capped at the
/// supported maximum, the count clamped to `1..=100`; at most that many
/// routes, each of exactly `exact_hops` pools when given, each a simple
/// route between the two mints' nodes within the budget; and, without
/// `exact_hops`, when fewer than the count were found, every such route.
pub open spec fn candidate_routes_ok(
    state: &AppState,
    source_mint: Seq<char>,
    target_mint: Seq<char>,
    max_hops: usize,
    exact_hops: Option<usize>,
    limit: usize,
    routes: Seq<Vec<PoolEdge>>,
    effective: usize,
    lim: usize,
) -> bool {
    let start = lookup_mint(state.graph.mint_to_node@, source_mint)->0;
    let target = lookup_mint(state.graph.mint_to_node@, target_mint)->0;
    &&& effective == effective_hops(max_hops)
    &&& lim == clamped_limit(limit)
    &&& routes.len() <= lim
    &&& exact_hops matches Some(h) ==> forall|j: int| 0 <= j < routes.len() ==> #[trigger] routes[j]@.len() == h
    &&& routes.len() > 0 ==> {
        &&& lookup_mint(state.graph.mint_to_node@, source_mint) is Some
        &&& lookup_mint(state.graph.mint_to_node@, target_mint) is Some
        &&& forall|j: int| 0 <= j < routes.len() ==>
            is_simple_route(state.graph.edges(), start, target, effective as nat, #[trigger] routes[j]@)
    }
    &&& exact_hops is None && routes.len() < lim
        && lookup_mint(state.graph.mint_to_node@, source_mint) is Some
        && lookup_mint(state.graph.mint_to_node@, target_mint) is Some
        && start < state.graph.nodes().len() && target < state.graph.nodes().len()
        ==> finds_all_wanted(state.graph.nodes(), state.graph.edges(), start, target, effective as nat, routes)
    &&& route_views(routes) == match exact_hops {
        None => searched_routes(state, source_mint, target_mint, effective, lim),
        Some(h) => routes_of_len(searched_routes(state, source_mint, target_mint, effective, lim), h as nat),
    }
}

/// Route search of a `/routes` query: `None` when both mints are the same;
/// else the routes found with the hop budget capped at the supported maximum
/// and the route count clamped to `1..=100`, kept to exactly `exact_hops`
/// pools when that is given, with the effective budget and count.
pub fn find_candidate_routes(
    state: &AppState,
    source_mint: &str,
    target_mint: &str,
    max_hops: usize,
    exact_hops: Option<usize>,
    limit: usize,
) -> (r: Option<(Vec<Vec<PoolEdge>>, usize, usize)>)
    ensures
        r is None <==> source_mint@ == target_mint@,
        r matches Some((routes, effective, lim)) ==>
            candidate_routes_ok(state, source_mint@, target_mint@, max_hops, exact_hops, limit, routes@, effective, lim),
{
    if source_mint.to_owned() == target_mint.to_owned() {
        return None;
    }
    let effective = if max_hops < MAX_SUPPORTED_HOPS { max_hops } else { MAX_SUPPORTED_HOPS };
    let lim = if limit < 1 { 1 } else if limit > 100 { 100 } else { limit };
    let found = state.graph.find_routes(source_mint, target_mint, effective, Some(lim));
    let routes = match exact_hops {
        None => found,
        Some(h) => {
            let ghost start = lookup_mint(state.graph.mint_to_node@, source_mint@)->0;
            let ghost target = lookup_mint(state.graph.mint_to_node@, target_mint@)->0;
            let mut kept: Vec<Vec<PoolEdge>> = Vec::new();
            let mut j: usize = 0;
            proof {
                assert(route_views(found@).take(0) =~= Seq::<Seq<PoolEdge>>::empty());
                assert(route_views(kept@) =~= Seq::<Seq<PoolEdge>>::empty());
            }
            while j < found.len()
                invariant
                    j <= found@.len(),
                    kept@.len() <= j,
                    route_views(kept@) == routes_of_len(route_views(found@).take(j as int), h as nat),
                    forall|k: int| 0 <= k < kept@.len() ==> #[trigger] kept@[k]@.len() == h,
                    found@.len() > 0 ==> forall|k: int| 0 <= k < found@.len() ==>
                        is_simple_route(state.graph.edges(), start, target, effective as nat, #[trigger] found@[k]@),
                    found@.len() > 0 ==> forall|k: int| 0 <= k < kept@.len() ==>
                        is_simple_route(state.graph.edges(), start, target, effective as nat, #[trigger] kept@[k]@),
                decreases found@.len() - j,
            {
                proof {
                    assert(route_views(found@).take(j + 1).drop_last() =~= route_views(found@).take(j as int));
                    assert(route_views(found@).take(j + 1).last() == found@[j as int]@);
                }
                let ghost kept0 = kept@;
                if found[j].len() == h {
                    let ghost before = kept@;
                    kept.push(copy_route(&found[j]));
                    proof {
                        assert(route_views(kept@) =~= route_views(before).push(found@[j as int]@));
                    }
                    proof {
                        assert forall|k: int| 0 <= k < kept@.len() implies #[trigger] kept@[k]@.len() == h by {
                            if k < before.len() {
                                assert(kept@[k] == before[k]);
                            }
                        }
                        if found@.len() > 0 {
                            assert forall|k: int| 0 <= k < kept@.len() implies
                                is_simple_route(state.graph.edges(), start, target, effective as nat, #[trigger] kept@[k]@) by {
                                if k < before.len() {
                                    assert(kept@[k] == before[k]);
                                } else {
                                    assert(kept@[k]@ == found@[j as int]@);
                                }
                            }
                        }
                    }
                }
                j = j + 1;
            }
            proof {
                assert(route_views(found@).take(j as int) =~= route_views(found@));
            }
            kept
        },
    };
    Some((routes, effective, lim))
}

/// Why a request is refused.
#[derive(Debug, Clone, Copy, PartialEq, Eq, Structural)]
pub enum RequestError {
    InvalidInputMint,
    InvalidOutputMint,
    /// The amount is not a `u128`.
    InvalidAmount,
    ZeroAmount,
    /// No pool has been loaded yet.
    PoolsNotLoaded,
    /// The source and target mints are the same.
    SameMints,
    /// No route joins the two mints.
    NoRoutes,
}

/// A checked quote request: the two mints' addresses and the input amount.
#[derive(Debug, Clone, Copy)]
pub struct RouteRequest {
    pub input_mint: PubkeyBytes,
    pub output_mint: PubkeyBytes,
    pub amount: u128,
}

/// What checking a quote request gives, the checks in order: the input
/// mint's address, the output mint's, the amount text (a `u128`), the amount
/// not zero, pools loaded.
pub open spec fn route_request_is(
    input_mint: Seq<u8>,
    output_mint: Seq<u8>,
    amount: Seq<u8>,
    pools_loaded: bool,
    r: Result<RouteRequest, RequestError>,
) -> bool {
    if address_text_key(input_mint) is None {
        r == Err::<RouteRequest, RequestError>(RequestError::InvalidInputMint)
    } else if address_text_key(output_mint) is None {
        r == Err::<RouteRequest, RequestError>(RequestError::InvalidOutputMint)
    } else if parse_u128_spec(amount) is None {
        r == Err::<RouteRequest, RequestError>(RequestError::InvalidAmount)
    } else if parse_u128_spec(amount) == Some(0u128) {
        r == Err::<RouteRequest, RequestError>(RequestError::ZeroAmount)
    } else if !pools_loaded {
        r == Err::<RouteRequest, RequestError>(RequestError::PoolsNotLoaded)
    } else {
        r matches Ok(req) && {
            &&& Some(req.input_mint.bytes()) == address_text_key(input_mint)
            &&& Some(req.output_mint.bytes()) == address_text_key(output_mint)
            &&& Some(req.amount) == parse_u128_spec(amount)
        }
    }
}

/// Checks the parameters of a quote request (see `route_request_is`).
pub fn check_route_request(input_mint: &str, output_mint: &str, amount: &str, pools_loaded: bool)
    -> (r: Result<RouteRequest, RequestError>)
    ensures
        route_request_is(input_mint.spec_bytes(), output_mint.spec_bytes(), amount.spec_bytes(), pools_loaded, r),
{
    let input = match address_from_str(input_mint) {
        Some(k) => k,
        None => return Err(RequestError::InvalidInputMint),
    };
    let output = match address_from_str(output_mint) {
        Some(k) => k,
        None => return Err(RequestError::InvalidOutputMint),
    };
    let value = match parse_u128(amount.as_bytes()) {
        Some(v) => v,
        None => return Err(RequestError::InvalidAmount),
    };
    if value == 0 {
        return Err(RequestError::ZeroAmount);
    }
    if !pools_loaded {
        return Err(RequestError::PoolsNotLoaded);
    }
    Ok(RouteRequest { input_mint: input, output_mint: output, amount: value })
}

/// The hop budget of a route listing when none is given.
pub const DEFAULT_LISTING_HOPS: usize = 3;

/// The number of routes of a route listing when none is given, and the
/// least number it keeps.
pub const DEFAULT_LISTING_ROUTES: usize = 200;

/// A checked route-listing request.
#[derive(Debug, Clone, Copy)]
pub struct RoutesRequest {
    pub input_mint: PubkeyBytes,
    pub output_mint: PubkeyBytes,
    /// Hop budget of the search.
    pub max_hops: usize,
    /// Number of routes to search for.
    pub max_routes: usize,
    /// Number of routes kept after ranking: `max_routes`, but at least
    /// `DEFAULT_LISTING_ROUTES`.
    pub keep: usize,
}

/// Checks the parameters of a route-listing request: the two mints'
/// addresses, then that pools are loaded; fills in the defaults.
pub fn check_routes_request(
    input_mint: &str,
    output_mint: &str,
    max_hops: Option<usize>,
    max_routes: Option<usize>,
    pools_loaded: bool,
) -> (r: Result<RoutesRequest, RequestError>)
    ensures
        address_text_key(input_mint.spec_bytes()) is None ==> r == Err::<RoutesRequest, RequestError>(RequestError::InvalidInputMint),
        address_text_key(input_mint.spec_bytes()) is Some && address_text_key(output_mint.spec_bytes()) is None
            ==> r == Err::<RoutesRequest, RequestError>(RequestError::InvalidOutputMint),
        address_text_key(input_mint.spec_bytes()) is Some && address_text_key(output_mint.spec_bytes()) is Some
            ==> if !pools_loaded {
                r == Err::<RoutesRequest, RequestError>(RequestError::PoolsNotLoaded)
            } else {
                r matches Ok(req) && {
                    let routes = match max_routes { Some(n) => n, None => DEFAULT_LISTING_ROUTES };
                    &&& Some(req.input_mint.bytes()) == address_text_key(input_mint.spec_bytes())
                    &&& Some(req.output_mint.bytes()) == address_text_key(output_mint.spec_bytes())
                    &&& req.max_hops == match max_hops { Some(h) => h, None => DEFAULT_LISTING_HOPS }
                    &&& req.max_routes == routes
                    &&& req.keep == if routes > DEFAULT_LISTING_ROUTES { routes } else { DEFAULT_LISTING_ROUTES }
                }
            },
{
    let input = match address_from_str(input_mint) {
        Some(k) => k,
        None => return Err(RequestError::InvalidInputMint),
    };
    let output = match address_from_str(output_mint) {
        Some(k) => k,
        None => return Err(RequestError::InvalidOutputMint),
    };
    if !pools_loaded {
        return Err(RequestError::PoolsNotLoaded);
    }
    let hops = match max_hops {
        Some(h) => h,
        None => DEFAULT_LISTING_HOPS,
    };
    let routes = match max_routes {
        Some(n) => n,
        None => DEFAULT_LISTING_ROUTES,
    };
    let keep = if routes > DEFAULT_LISTING_ROUTES { routes } else { DEFAULT_LISTING_ROUTES };
    Ok(RoutesRequest { input_mint: input, output_mint: output, max_hops: hops, max_routes: routes, keep })
}

/// The candidate routes of a `/quote` request: refused for a zero amount,
/// for equal mints, and when no route joins them; else the routes of
/// `find_candidate_routes` with the effective hop budget.
pub fn quote_candidates(
    state: &AppState,
    source_mint: &str,
    target_mint: &str,
    amount_in: u64,
    max_hops: usize,
    exact_hops: Option<usize>,
    limit: usize,
) -> (r: Result<(Vec<Vec<PoolEdge>>, usize), RequestError>)
    ensures
        amount_in == 0 ==> r == Err::<(Vec<Vec<PoolEdge>>, usize), RequestError>(RequestError::ZeroAmount),
        amount_in != 0 && source_mint@ == target_mint@
            ==> r == Err::<(Vec<Vec<PoolEdge>>, usize), RequestError>(RequestError::SameMints),
        r matches Err(e) ==> e == RequestError::ZeroAmount || e == RequestError::SameMints || e == RequestError::NoRoutes,
        r matches Ok((routes, effective)) ==> amount_in != 0 && routes@.len() > 0
            && candidate_routes_ok(state, source_mint@, target_mint@, max_hops, exact_hops, limit, routes@, effective,
                clamped_limit(limit)),
        r matches Err(RequestError::NoRoutes) ==> amount_in != 0 && source_mint@ != target_mint@
            && candidate_routes_ok(state, source_mint@, target_mint@, max_hops, exact_hops, limit, Seq::empty(),
                effective_hops(max_hops), clamped_limit(limit)),
{
    if amount_in == 0 {
        return Err(RequestError::ZeroAmount);
    }
    match find_candidate_routes(state, source_mint, target_mint, max_hops, exact_hops, limit) {
        None => Err(RequestError::SameMints),
        Some((routes, effective, lim)) => {
            if routes.len() == 0 {
                proof {
                    assert(routes@ =~= Seq::<Vec<PoolEdge>>::empty());
                }
                Err(RequestError::NoRoutes)
            } else {
                Ok((routes, effective))
            }
        },
    }
}

/// The hop budget of a route query is the smaller of the requested budget
/// and the supported maximum: never above either, and equal to the request
/// whenever the request is supported; the route count is the requested one
/// clamped to `1..=100`. So, when fewer routes than the count
/// were found, every simple route of at most that many pools between the
/// two mints is among them.
pub proof fn lemma_query_hop_budget(
    state: &AppState,
    source_mint: Seq<char>,
    target_mint: Seq<char>,
    max_hops: usize,
    limit: usize,
    routes: Seq<Vec<PoolEdge>>,
    effective: usize,
    lim: usize,
)
    requires
        candidate_routes_ok(state, source_mint, target_mint, max_hops, None, limit, routes, effective, lim),
    ensures
        effective <= max_hops,
        effective <= MAX_SUPPORTED_HOPS,
        max_hops <= MAX_SUPPORTED_HOPS ==> effective == max_hops,
        max_hops >= MAX_SUPPORTED_HOPS ==> effective == MAX_SUPPORTED_HOPS,
        1 <= lim <= 100,
        1 <= limit <= 100 ==> lim == limit,
        ({
            let start = lookup_mint(state.graph.mint_to_node@, source_mint)->0;
            let target = lookup_mint(state.graph.mint_to_node@, target_mint)->0;
            routes.len() < lim
                && lookup_mint(state.graph.mint_to_node@, source_mint) is Some
                && lookup_mint(state.graph.mint_to_node@, target_mint) is Some
                && start < state.graph.nodes().len() && target < state.graph.nodes().len()
                ==> finds_all_wanted(state.graph.nodes(), state.graph.edges(), start, target,
                    (if max_hops < 4 { max_hops } else { 4usize }) as nat, routes)
        }),
{
}

} // verus!
