use petgraph::graph::NodeIndex;
use swexa::api::{
    build_graph_stats_response, check_route_request, check_routes_request, find_candidate_routes,
    quote_candidates, AppState, RequestError,
};
use swexa::simulation::SimulatedQuoteEngine;
use swexa::graph::RouteGraph;
use swexa::types::{
    default_limit, default_max_hops, dex_display_name, dex_label, pool_type_display_name,
    pool_type_label, DexProtocol, PoolEdge, PoolType,
    TokenMint, MAX_SUPPORTED_HOPS,
};

fn token(mint: &str) -> TokenMint {
    TokenMint { mint: mint.to_string(), symbol: mint.to_string(), decimals: 9 }
}

fn pool(address: &str, a: &str, b: &str, tvl: f64) -> PoolEdge {
    PoolEdge {
        address: address.to_string(),
        dex: DexProtocol::Raydium,
        token_a: token(a),
        token_b: token(b),
        fee_rate_bits: 0.003f64.to_bits(),
        tvl_bits: tvl.to_bits(),
        pool_type: PoolType::Amm,
    }
}

fn node(graph: &RouteGraph, mint: &str) -> usize {
    graph.mint_to_node.iter().find(|(m, _)| m == mint).unwrap().1
}

#[test]
fn graph_validation_passes_for_bidirectional_graph() {
    let pools = vec![pool("ab", "A", "B", 1_000.0), pool("bc", "B", "C", 2_000.0)];
    let graph = RouteGraph::new(&pools);

    let stats = graph.stats();
    let validation = graph.validate();

    assert_eq!(stats.token_count, 3);
    assert_eq!(stats.unique_pool_count, 2);
    assert_eq!(stats.directed_edge_count, 4);
    assert!(validation.is_valid);
    assert_eq!(validation.missing_reverse_edges, 0);
}

#[test]
fn graph_validation_catches_invalid_edge_endpoint() {
    let pools = vec![pool("ab", "A", "B", 1_000.0)];
    let mut graph = RouteGraph::new(&pools);
    let a = node(&graph, "A");
    let b = node(&graph, "B");
    graph.graph.add_edge(NodeIndex::new(a), NodeIndex::new(b), pool("xy", "X", "Y", 1_000.0));

    let validation = graph.validate();

    assert!(!validation.is_valid);
    assert_eq!(validation.invalid_edge_endpoints, 1);
}

#[test]
fn graph_drops_self_loop_pools() {
    let pools = vec![pool("aa", "A", "A", 1_000.0), pool("ab", "A", "B", 1_000.0)];
    let graph = RouteGraph::new(&pools);

    let stats = graph.stats();

    assert_eq!(stats.dropped_self_loop_pools, 1);
    assert_eq!(stats.unique_pool_count, 1);
    assert_eq!(stats.directed_edge_count, 2);
}

#[test]
fn find_routes_supports_four_hops() {
    let pools = vec![
        pool("ab", "A", "B", 2_000.0),
        pool("bc", "B", "C", 2_000.0),
        pool("cd", "C", "D", 2_000.0),
        pool("de", "D", "E", 2_000.0),
        pool("ac", "A", "C", 10_000.0),
        pool("ce", "C", "E", 10_000.0),
    ];
    let graph = RouteGraph::new(&pools);

    let routes = graph.find_routes("A", "E", MAX_SUPPORTED_HOPS, None);

    assert!(routes.iter().any(|route| route.len() == 4));
    assert!(routes.iter().any(|route| route.len() == 2));
}

#[test]
fn route_limit_is_respected() {
    let pools = vec![
        pool("ab", "A", "B", 2_000.0),
        pool("ac", "A", "C", 3_000.0),
        pool("bd", "B", "D", 2_000.0),
        pool("cd", "C", "D", 2_000.0),
        pool("de", "D", "E", 2_000.0),
        pool("be", "B", "E", 5_000.0),
        pool("ce", "C", "E", 5_000.0),
    ];
    let graph = RouteGraph::new(&pools);

    let routes = graph.find_routes("A", "E", MAX_SUPPORTED_HOPS, Some(2));

    assert_eq!(routes.len(), 2);
}

#[test]
fn routes_are_simple_paths_in_search_order() {
    let pools = vec![
        pool("ab", "A", "B", 2_000.0),
        pool("ac", "A", "C", 3_000.0),
        pool("bd", "B", "D", 2_000.0),
        pool("cd", "C", "D", 2_000.0),
        pool("de", "D", "E", 2_000.0),
        pool("be", "B", "E", 5_000.0),
        pool("ce", "C", "E", 5_000.0),
    ];
    let graph = RouteGraph::new(&pools);
    let routes = graph.find_routes("A", "E", MAX_SUPPORTED_HOPS, None);
    let names: Vec<Vec<&str>> = routes
        .iter()
        .map(|r| r.iter().map(|p| p.address.as_str()).collect())
        .collect();
    assert_eq!(
        names,
        vec![
            vec!["ac", "ce"],
            vec!["ac", "cd", "de"],
            vec!["ac", "cd", "bd", "be"],
            vec!["ab", "be"],
            vec!["ab", "bd", "de"],
            vec!["ab", "bd", "cd", "ce"],
        ]
    );
    assert!(graph.find_routes("A", "E", 1, None).is_empty());
    assert!(graph.find_routes("A", "E", 0, None).is_empty());
    assert!(graph.find_routes("A", "Z", 4, None).is_empty());
    assert!(graph.find_routes("A", "E", 4, Some(0)).is_empty());
}

#[test]
fn defaults_and_labels() {
    assert_eq!(default_max_hops(), 4);
    assert_eq!(default_limit(), 20);
    assert_eq!(dex_label(DexProtocol::Whirlpool), "whirlpool");
    assert_eq!(dex_label(DexProtocol::Meteora), "meteora");
    assert_eq!(pool_type_label(PoolType::ConcentratedLiquidity), "clmm");
    assert_eq!(pool_type_label(PoolType::Amm), "amm");
}

#[test]
fn app_state_and_candidate_routes() {
    let mut pools = vec![
        pool("ab", "A", "B", 2_000.0),
        pool("bc", "B", "C", 2_000.0),
        pool("cd", "C", "D", 2_000.0),
        pool("de", "D", "E", 2_000.0),
        pool("ae", "A", "E", 1_000.0),
    ];
    pools[4].dex = DexProtocol::Whirlpool;
    pools[4].pool_type = PoolType::ConcentratedLiquidity;
    let state = AppState::from_pools_with_rpc(pools, "http://localhost:8899");
    assert!(state.validation.is_valid);
    assert_eq!(state.simulated_engine.rpc_url(), "http://localhost:8899");

    assert!(find_candidate_routes(&state, "A", "A", 4, None, 10).is_none());
    let (routes, effective, limit) = find_candidate_routes(&state, "A", "E", 9, None, 0).unwrap();
    assert_eq!((effective, limit), (4, 1));
    assert_eq!(routes.len(), 1);
    let (routes, _, limit) = find_candidate_routes(&state, "A", "E", 4, Some(4), 500).unwrap();
    assert_eq!(limit, 100);
    assert_eq!(routes.len(), 1);
    assert_eq!(routes[0].len(), 4);

    let response = build_graph_stats_response(&state);
    assert_eq!(response.dex_pool_counts, vec![("raydium", 4), ("whirlpool", 1)]);
    assert_eq!(response.pool_type_counts, vec![("amm", 4), ("clmm", 1)]);
    assert_eq!(response.graph.token_count, 5);
}

#[test]
fn simulated_engine_keeps_its_endpoint() {
    let engine = SimulatedQuoteEngine::new("http://localhost:8899");
    assert_eq!(engine.rpc_url(), "http://localhost:8899");
}

#[test]
fn every_simple_route_is_found_below_the_limit() {
    // A diamond A-B-D, A-C-D plus a direct A-D pool: three simple routes.
    let pools = vec![
        pool("ab", "A", "B", 1.0),
        pool("bd", "B", "D", 1.0),
        pool("ac", "A", "C", 1.0),
        pool("cd", "C", "D", 1.0),
        pool("ad", "A", "D", 1.0),
    ];
    let graph = RouteGraph::new(&pools);
    let routes = graph.find_routes("A", "D", 2, Some(10));
    let mut found: Vec<Vec<String>> =
        routes.iter().map(|r| r.iter().map(|p| p.address.clone()).collect()).collect();
    found.sort();
    assert_eq!(found, vec![vec!["ab".to_string(), "bd".to_string()], vec!["ac".to_string(), "cd".to_string()], vec!["ad".to_string()]]);
}

#[test]
fn route_request_checks_come_in_order() {
    let sol = "So11111111111111111111111111111111111111112";
    let usdc = "EPjFWdd5AufqSSqeM2qN1xzybapC8G4wEGGkZwyTDt1v";
    assert_eq!(check_route_request("bad", usdc, "1", true).unwrap_err(), RequestError::InvalidInputMint);
    assert_eq!(check_route_request(sol, "bad", "1", true).unwrap_err(), RequestError::InvalidOutputMint);
    assert_eq!(check_route_request(sol, usdc, "1.5", true).unwrap_err(), RequestError::InvalidAmount);
    assert_eq!(check_route_request(sol, usdc, "0", true).unwrap_err(), RequestError::ZeroAmount);
    assert_eq!(check_route_request(sol, usdc, "5", false).unwrap_err(), RequestError::PoolsNotLoaded);
    let req = check_route_request(sol, usdc, "340282366920938463463374607431768211455", true).unwrap();
    assert_eq!(req.amount, u128::MAX);
    assert_eq!(req.input_mint.0[0], 6);
}

#[test]
fn routes_request_fills_in_defaults() {
    let sol = "So11111111111111111111111111111111111111112";
    let usdc = "EPjFWdd5AufqSSqeM2qN1xzybapC8G4wEGGkZwyTDt1v";
    let req = check_routes_request(sol, usdc, None, None, true).unwrap();
    assert_eq!((req.max_hops, req.max_routes, req.keep), (3, 200, 200));
    let req = check_routes_request(sol, usdc, Some(2), Some(50), true).unwrap();
    assert_eq!((req.max_hops, req.max_routes, req.keep), (2, 50, 200));
    let req = check_routes_request(sol, usdc, None, Some(500), true).unwrap();
    assert_eq!(req.keep, 500);
    assert_eq!(check_routes_request(sol, usdc, None, None, false).unwrap_err(), RequestError::PoolsNotLoaded);
    assert_eq!(check_routes_request(usdc, "x", None, None, true).unwrap_err(), RequestError::InvalidOutputMint);
}

#[test]
fn quote_candidates_refuses_bad_requests() {
    let pools = vec![pool("ab", "A", "B", 1.0), pool("cd", "C", "D", 1.0)];
    let state = AppState::from_pools(pools);
    assert_eq!(quote_candidates(&state, "A", "B", 0, 4, None, 20).unwrap_err(), RequestError::ZeroAmount);
    assert_eq!(quote_candidates(&state, "A", "A", 10, 4, None, 20).unwrap_err(), RequestError::SameMints);
    assert_eq!(quote_candidates(&state, "A", "D", 10, 4, None, 20).unwrap_err(), RequestError::NoRoutes);
    let (routes, effective) = quote_candidates(&state, "A", "B", 10, 9, None, 20).unwrap();
    assert_eq!((routes.len(), effective), (1, MAX_SUPPORTED_HOPS));
}

#[test]
fn routes_come_in_search_order() {
    let pools = vec![
        pool("ab-small", "A", "B", 1_000.0),
        pool("ab-large", "A", "B", 5_000.0),
        pool("ac", "A", "C", 9_000.0),
        pool("cb", "C", "B", 9_000.0),
    ];
    let graph = RouteGraph::new(&pools);
    let routes = graph.find_routes("A", "B", 2, None);
    let addresses: Vec<Vec<&str>> =
        routes.iter().map(|r| r.iter().map(|p| p.address.as_str()).collect()).collect();
    // Direct hops first (fewest hops left), the larger TVL first; then the detour.
    assert_eq!(addresses, vec![vec!["ab-large"], vec!["ab-small"], vec!["ac", "cb"]]);
    let first_two = graph.find_routes("A", "B", 2, Some(2));
    assert_eq!(first_two.len(), 2);
    assert_eq!(first_two[1][0].address, "ab-small");
}

#[test]
fn graph_nodes_follow_first_appearance() {
    let pools = vec![pool("cb", "C", "B", 1.0), pool("aa", "A", "A", 1.0), pool("ab", "A", "B", 1.0)];
    let graph = RouteGraph::new(&pools);
    let order: Vec<&str> = graph.mint_to_node.iter().map(|(m, _)| m.as_str()).collect();
    assert_eq!(order, vec!["C", "B", "A"]);
    assert_eq!(graph.dropped_self_loop_pools, 1);
}

#[test]
fn display_names_of_dexes_and_pool_types() {
    assert_eq!(dex_display_name(DexProtocol::Whirlpool), "Whirlpool");
    assert_eq!(dex_display_name(DexProtocol::Raydium), "Raydium");
    assert_eq!(dex_display_name(DexProtocol::Meteora), "Meteora");
    assert_eq!(pool_type_display_name(PoolType::Amm), "AMM");
    assert_eq!(pool_type_display_name(PoolType::ConcentratedLiquidity), "CLMM");
    assert_eq!(pool_type_display_name(PoolType::Dlmm), "DLMM");
}

#[test]
fn found_routes_are_distinct_when_no_pool_is_listed_twice() {
    let pools = vec![pool("ab1", "A", "B", 2.0), pool("ab2", "A", "B", 1.0), pool("ac", "A", "C", 1.0), pool("cb", "C", "B", 1.0)];
    let graph = RouteGraph::new(&pools);
    let routes = graph.find_routes("A", "B", 3, None);
    let addresses: Vec<Vec<String>> =
        routes.iter().map(|r| r.iter().map(|p| p.address.clone()).collect()).collect();
    assert_eq!(addresses.len(), 3);
    for i in 0..addresses.len() {
        for j in (i + 1)..addresses.len() {
            assert_ne!(addresses[i], addresses[j]);
        }
    }
}
