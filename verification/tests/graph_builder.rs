use swexa::graph_builder::{GraphBuilder, GraphEdge, TOP_N_PER_PAIR};
use swexa::pool::{CpmmState, DexProtocol, Pool, PoolData, PoolMetadata, PoolStatus, PoolToken, PoolType, PubkeyBytes};

fn mint(byte: u8) -> PubkeyBytes {
    PubkeyBytes([byte; 32])
}

fn token(m: PubkeyBytes) -> PoolToken {
    PoolToken { mint: m, name: "T".to_string(), symbol: "T".to_string(), decimals: 6, vault: None }
}

fn pool(id: u32, a: PubkeyBytes, b: PubkeyBytes) -> Pool {
    Pool {
        metadata: PoolMetadata {
            id,
            pubkey: PubkeyBytes([id as u8 + 100; 32]),
            protocol: DexProtocol::Raydium,
            pool_type: PoolType::Cpmm,
            status: PoolStatus::Active,
            token_a: token(a),
            token_b: token(b),
        },
        data: PoolData::Cpmm(CpmmState { reserve_a: 1_000, reserve_b: 1_000 }),
        fee_rate: 2_500,
        tvl_bits: Some((100_000.0 - id as f64).to_bits()),
        last_updated_slot: None,
    }
}

fn build(pools: &[Pool]) -> GraphBuilder {
    let mut builder = GraphBuilder::new();
    let ranked: Vec<usize> = (0..pools.len()).collect();
    builder.insert_ranked_pools(pools, &ranked);
    builder
}

#[test]
fn each_pool_becomes_an_edge_each_way() {
    let builder = build(&[pool(1, mint(1), mint(2)), pool(2, mint(2), mint(3))]);
    assert_eq!(builder.token_count(), 3);
    assert_eq!(builder.edge_count(), 4);
    let edge: GraphEdge = builder.get_pool_edge(2).unwrap();
    assert_eq!(edge.pool_pubkey, PubkeyBytes([102; 32]));
    assert_eq!(edge.fee_rate, 2_500);
    assert!(builder.get_pool_edge(9).is_none());
}

#[test]
fn inactive_unset_and_self_referencing_pools_are_skipped() {
    let mut inactive = pool(1, mint(1), mint(2));
    inactive.metadata.status = PoolStatus::Disabled;
    let unset = pool(2, mint(0), mint(2));
    let same = pool(3, mint(4), mint(4));
    let builder = build(&[inactive, unset, same]);
    assert_eq!(builder.token_count(), 0);
    assert_eq!(builder.edge_count(), 0);
}

#[test]
fn at_most_five_pools_per_pair_in_rank_order() {
    let pools: Vec<Pool> = (1..=7).map(|id| if id % 2 == 0 { pool(id, mint(1), mint(2)) } else { pool(id, mint(2), mint(1)) }).collect();
    let builder = build(&pools);
    assert_eq!(TOP_N_PER_PAIR, 5);
    assert_eq!(builder.edge_count(), 2 * TOP_N_PER_PAIR);
    assert!(builder.get_pool_edge(5).is_some());
    assert!(builder.get_pool_edge(6).is_none());
    assert!(builder.get_pool_edge(7).is_none());
}

#[test]
fn a_pool_added_twice_gets_its_edges_once() {
    let p = pool(1, mint(1), mint(2));
    let builder = build(&[p.clone(), p]);
    assert_eq!(builder.edge_count(), 2);
}

#[test]
fn candidate_routes_combine_parallel_pools() {
    let builder = build(&[
        pool(1, mint(1), mint(2)),
        pool(2, mint(1), mint(2)),
        pool(3, mint(2), mint(3)),
        pool(4, mint(1), mint(3)),
    ]);
    let up_to_two = builder.candidate_routes(&mint(1), &mint(3), 2).unwrap();
    assert_eq!(up_to_two.len(), 3);
    // The direct route comes first, then the two-hop ones.
    assert_eq!(up_to_two[0].len(), 1);
    assert_eq!(up_to_two[0][0].pool_id, 4);
    let two_hops: Vec<&Vec<_>> = up_to_two.iter().filter(|r| r.len() == 2).collect();
    assert_eq!(two_hops.len(), 2);
    for route in &two_hops {
        assert_eq!(route[0].input_mint, mint(1));
        assert_eq!(route[0].output_mint, mint(2));
        assert_eq!(route[1].input_mint, mint(2));
        assert_eq!(route[1].output_mint, mint(3));
        assert_eq!(route[1].pool_id, 3);
    }
    assert_ne!(two_hops[0][0].pool_id, two_hops[1][0].pool_id);

    let direct = builder.candidate_routes(&mint(1), &mint(3), 0).unwrap();
    assert_eq!(direct.len(), 1);
    assert_eq!(direct[0][0].pool_id, 4);
}

#[test]
fn candidate_routes_need_both_mints() {
    let builder = build(&[pool(1, mint(1), mint(2))]);
    assert!(builder.candidate_routes(&mint(1), &mint(9), 1).is_none());
    assert_eq!(builder.candidate_routes(&mint(1), &mint(2), 3).unwrap().len(), 1);
    assert_eq!(builder.candidate_routes(&mint(2), &mint(1), 1).unwrap().len(), 1);
}

#[test]
fn building_twice_from_the_same_pools_changes_nothing() {
    let pools: Vec<Pool> = (1..=6).map(|id| pool(id, mint(1), mint(2))).collect();
    let ranked: Vec<usize> = (0..pools.len()).collect();
    let mut builder = GraphBuilder::new();
    builder.insert_ranked_pools(&pools, &ranked);
    assert_eq!(builder.edge_count(), 10);
    assert_eq!(builder.token_count(), 2);
    builder.insert_ranked_pools(&pools, &ranked);
    assert_eq!(builder.edge_count(), 10);
    assert_eq!(builder.token_count(), 2);
    assert!(builder.get_pool_edge(6).is_none());
}

#[test]
fn a_full_pair_takes_no_pool_in_a_later_build() {
    let first: Vec<Pool> = (1..=5).map(|id| pool(id, mint(1), mint(2))).collect();
    let later = vec![pool(9, mint(2), mint(1)), pool(10, mint(2), mint(3))];
    let mut builder = GraphBuilder::new();
    builder.insert_ranked_pools(&first, &[0, 1, 2, 3, 4]);
    builder.insert_ranked_pools(&later, &[0, 1]);
    assert!(builder.get_pool_edge(9).is_none());
    assert!(builder.get_pool_edge(10).is_some());
    assert_eq!(builder.edge_count(), 12);
}

#[test]
fn a_single_pool_gives_a_one_hop_route_under_a_larger_hop_budget() {
    let builder = build(&[pool(7, mint(1), mint(2))]);
    for max_hops in [2, 4] {
        let routes = builder.candidate_routes(&mint(1), &mint(2), max_hops).unwrap();
        assert_eq!(routes.len(), 1);
        assert_eq!(routes[0].len(), 1);
        assert_eq!(routes[0][0].pool_id, 7);
    }
}
