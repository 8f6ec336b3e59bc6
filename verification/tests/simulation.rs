use swexa::base58::parse_pool_address;
use swexa::engine::account_resolver::{derive_simulated_ata, AccountCache};
use swexa::error::EngineError;
use swexa::engine::quote::{QuoteEngine, RouteQuote};
use swexa::error::QuoteError;
use swexa::pool::PubkeyBytes;
use swexa::simulation::{
    choose_best_quote, parse_mint_address, plan_route_simulation, rank_simulated_quotes, should_try_split,
    sorted_unique_keys, AccountFetcher, QuoteMethod, SimulatedQuoteEngine, SimulatedRouteQuote,
    SimulationQuote, FETCH_BATCH_SIZE,
};
use swexa::types::{DexProtocol, PoolEdge, PoolType, TokenMint};

fn quote(route_index: usize, amount_out: u64, simulated: bool) -> SimulatedRouteQuote {
    SimulatedRouteQuote {
        route_index,
        amount_in: 1_000,
        amount_out,
        hops: 1,
        simulated,
        fallback_reason: if simulated { None } else { Some("simulation failed".to_string()) },
    }
}

fn route_quote(out: u64) -> RouteQuote {
    RouteQuote { amount_in: 1_000, estimated_amount_out: out, price_impact_bps: 3 }
}

fn edge(address: &str) -> PoolEdge {
    PoolEdge {
        address: address.to_string(),
        dex: DexProtocol::Raydium,
        token_a: TokenMint { mint: "A".to_string(), symbol: "A".to_string(), decimals: 9 },
        token_b: TokenMint { mint: "B".to_string(), symbol: "B".to_string(), decimals: 9 },
        fee_rate_bits: 0.003f64.to_bits(),
        tvl_bits: 1_000.0f64.to_bits(),
        pool_type: PoolType::Amm,
    }
}

#[test]
fn select_best_takes_the_largest_output() {
    let quotes = vec![Some(route_quote(500)), None, Some(route_quote(900)), Some(route_quote(100))];
    let best = QuoteEngine::select_best(&quotes).unwrap();
    assert_eq!(best.best_route_index, 2);
    assert_eq!(best.quote.estimated_amount_out, 900);
}

#[test]
fn select_best_prefers_the_last_of_equal_outputs() {
    let quotes = vec![Some(route_quote(700)), Some(route_quote(700)), None];
    assert_eq!(QuoteEngine::select_best(&quotes).unwrap().best_route_index, 1);
}

#[test]
fn select_best_without_quotes_is_none() {
    assert!(QuoteEngine::select_best(&[None, None]).is_none());
    assert!(QuoteEngine::select_best(&[]).is_none());
}

#[test]
fn ranking_drops_empty_outputs_and_sorts_stably() {
    let ranked = rank_simulated_quotes(vec![
        quote(0, 10, true),
        quote(1, 0, true),
        quote(2, 30, false),
        quote(3, 10, false),
        quote(4, 30, true),
    ]);
    let order: Vec<usize> = ranked.iter().map(|q| q.route_index).collect();
    assert_eq!(order, vec![2, 4, 0, 3]);
}

#[test]
fn best_single_route_wins_without_a_better_split() {
    let ranked = rank_simulated_quotes(vec![quote(0, 50, true), quote(1, 80, false)]);
    let (best, method) = choose_best_quote(&ranked, 1_000, Some((0, 80))).unwrap();
    assert_eq!(best.route_index, 1);
    assert_eq!(method, QuoteMethod::HeuristicFallback);
    assert_eq!(method.label(), "heuristic-fallback");
}

#[test]
fn a_better_split_wins() {
    let ranked = rank_simulated_quotes(vec![quote(0, 50, true), quote(1, 80, true)]);
    let (best, method) = choose_best_quote(&ranked, 20_000, Some((1, 95))).unwrap();
    assert_eq!(method, QuoteMethod::SimulatedSplit);
    assert_eq!(method.label(), "simulated-split");
    assert_eq!((best.route_index, best.amount_in, best.amount_out, best.hops), (1, 20_000, 95, 0));
    assert!(best.simulated && best.fallback_reason.is_none());
}

#[test]
fn no_ranked_route_is_an_error() {
    assert_eq!(choose_best_quote(&Vec::new(), 1_000, None).unwrap_err(), QuoteError::AllSimulationsFailed);
    let (_, method) = choose_best_quote(&vec![quote(3, 7, true)], 1_000, None).unwrap();
    assert_eq!(method.label(), "simulated");
}

#[test]
fn splits_need_two_routes_and_enough_volume() {
    assert!(should_try_split(2, 10_000));
    assert!(!should_try_split(1, 10_000));
    assert!(!should_try_split(3, 9_999));
}

#[test]
fn simulated_engine_errors_on_empty_routes() {
    let engine = SimulatedQuoteEngine::new("http://localhost:8899");
    let routes: Vec<Vec<PoolEdge>> = vec![];
    assert_eq!(engine.plan_account_fetch(&routes).unwrap_err(), QuoteError::NoCandidateRoutes);
}

#[test]
fn account_fetch_plan_dedups_pool_addresses() {
    let engine = SimulatedQuoteEngine::new("http://localhost:8899");
    let token = "TokenkegQfeZyiNwAJbNbGKPFXCWuBvf9Ss623VQ5DA";
    let routes = vec![vec![edge(token), edge("not-base58!")], vec![edge(token)]];
    let keys = engine.plan_account_fetch(&routes).unwrap();
    assert_eq!(keys.len(), 1);
    assert_eq!(keys[0].0[0], 6);
}

#[test]
fn sorted_unique_keys_orders_and_dedups() {
    let keys = vec![PubkeyBytes([3u8; 32]), PubkeyBytes([1u8; 32]), PubkeyBytes([3u8; 32]), PubkeyBytes([2u8; 32])];
    let out = sorted_unique_keys(&keys);
    let firsts: Vec<u8> = out.iter().map(|k| k.0[0]).collect();
    assert_eq!(firsts, vec![1, 2, 3]);
}

#[test]
fn fetch_batches_hold_at_most_one_hundred_keys() {
    let mut keys = Vec::new();
    for i in 0..250u32 {
        let mut b = [0u8; 32];
        b[0] = (i / 256) as u8;
        b[1] = (i % 256) as u8;
        keys.push(PubkeyBytes(b));
        keys.push(PubkeyBytes(b));
    }
    let batches = AccountFetcher::batches(&keys);
    let sizes: Vec<usize> = batches.iter().map(|b| b.len()).collect();
    assert_eq!(sizes, vec![FETCH_BATCH_SIZE, FETCH_BATCH_SIZE, 50]);
    assert!(AccountFetcher::batches(&[]).is_empty());
}

#[test]
fn collect_found_keeps_answered_keys_in_order() {
    let batch = vec![PubkeyBytes([1u8; 32]), PubkeyBytes([2u8; 32]), PubkeyBytes([3u8; 32])];
    let found = AccountFetcher::collect_found(&batch, vec![Some(vec![9]), None, Some(vec![7, 7])]);
    assert_eq!(found.len(), 2);
    assert_eq!(found[0].0, PubkeyBytes([1u8; 32]));
    assert_eq!(found[1], (PubkeyBytes([3u8; 32]), vec![7, 7]));
}

#[test]
fn simulation_quote_counts_only_gains() {
    assert_eq!(SimulationQuote::from_balances(500, 500).amount_out, 0);
    assert_eq!(SimulationQuote::from_balances(100, 350), SimulationQuote { amount_out: 250, final_target_balance: 350 });
    assert_eq!(SimulationQuote::from_balances(400, 300).amount_out, 0);
}

#[test]
fn derive_simulated_ata_is_deterministic() {
    let wallet = PubkeyBytes([42u8; 32]);
    let ata1 = derive_simulated_ata(&wallet, "SOL_MINT");
    let ata2 = derive_simulated_ata(&wallet, "SOL_MINT");
    assert_eq!(ata1, ata2);
}

#[test]
fn derive_simulated_ata_differs_by_mint() {
    let wallet = PubkeyBytes([42u8; 32]);
    let ata_sol = derive_simulated_ata(&wallet, "SOL_MINT");
    let ata_usdc = derive_simulated_ata(&wallet, "USDC_MINT");
    assert_ne!(ata_sol, ata_usdc);
}

#[test]
fn derive_simulated_ata_keeps_the_wallet_prefix() {
    let wallet = PubkeyBytes([42u8; 32]);
    let ata = derive_simulated_ata(&wallet, "SOL_MINT");
    assert_eq!(&ata.0[16..32], &[42u8; 16]);
}

#[test]
fn parse_mint_address_handles_non_base58() {
    let addr = parse_mint_address("SOL_TEST_MINT").unwrap();
    let addr2 = parse_mint_address("SOL_TEST_MINT").unwrap();
    assert_eq!(addr, addr2);
}

#[test]
fn parse_mint_address_decodes_base58_mints() {
    let token = parse_mint_address("TokenkegQfeZyiNwAJbNbGKPFXCWuBvf9Ss623VQ5DA").unwrap();
    assert_eq!(token.0[..4], [6, 221, 246, 225]);
    assert_ne!(parse_mint_address("11111111").unwrap(), PubkeyBytes([0u8; 32]));
}

fn amm_pool(address: &str, a: &str, b: &str) -> PoolEdge {
    let mut p = edge(address);
    p.token_a.mint = a.to_string();
    p.token_b.mint = b.to_string();
    p
}

fn amm_data() -> Vec<u8> {
    let mut data = vec![0u8; 264];
    data[200..232].copy_from_slice(&[13u8; 32]);
    data[232..264].copy_from_slice(&[14u8; 32]);
    data
}

#[test]
fn route_plan_chains_the_hop_accounts() {
    let ab = "11111111111111111111111111111112";
    let bc = "11111111111111111111111111111113";
    let route = vec![amm_pool(ab, "A", "B"), amm_pool(bc, "C", "B")];
    let payer = PubkeyBytes([8u8; 32]);
    let mut cache = AccountCache::new();
    cache.insert(parse_pool_address(ab).unwrap(), amm_data());
    cache.insert(parse_pool_address(bc).unwrap(), amm_data());
    let plan = plan_route_simulation(&route, "A", &payer, 5_000, &cache).unwrap();

    let ata = |m: &str| derive_simulated_ata(&payer, m);
    assert_eq!(plan.path_accounts, vec![ata("A"), ata("B"), ata("C")]);
    assert_eq!(plan.target_account, ata("C"));
    let created: Vec<(PubkeyBytes, u64)> = plan.token_accounts.iter().map(|a| (a.address, a.amount)).collect();
    assert_eq!(created, vec![(ata("A"), 5_000), (ata("C"), 0), (ata("B"), 0)]);
    assert_eq!(plan.token_accounts[0].mint, parse_mint_address("A").unwrap());

    assert_eq!(plan.instructions.len(), 2);
    // First hop swaps the whole input A -> B, the second what reached B, B -> C.
    assert_eq!(plan.instructions[0].data[1..9], 5_000u64.to_le_bytes());
    assert_eq!(plan.instructions[1].data[1..9], 0u64.to_le_bytes());
}

#[test]
fn route_plan_rejects_a_broken_route_and_missing_state() {
    let payer = PubkeyBytes([8u8; 32]);
    let cache = AccountCache::new();
    let broken = vec![amm_pool("11111111111111111111111111111112", "A", "B"), amm_pool("11111111111111111111111111111113", "X", "Y")];
    assert_eq!(plan_route_simulation(&broken, "A", &payer, 1, &cache).err(), Some(EngineError::MintNotInPool));
    let route = vec![amm_pool("11111111111111111111111111111112", "A", "B")];
    assert_eq!(plan_route_simulation(&route, "A", &payer, 1, &cache).err(), Some(EngineError::PoolAccountNotCached));
    let empty = plan_route_simulation(&[], "A", &payer, 9, &cache).unwrap();
    assert_eq!(empty.token_accounts.len(), 2);
    assert!(empty.instructions.is_empty());
}

#[test]
fn quoted_routes_are_listed_by_output_impact_hops_then_index() {
    let impact = |out: u64, bps: u64| Some(RouteQuote { amount_in: 1_000, estimated_amount_out: out, price_impact_bps: bps });
    let quotes = vec![impact(500, 3), None, impact(900, 9), impact(500, 1), impact(500, 3), impact(500, 3)];
    let hops = vec![2, 1, 3, 2, 1, 2];
    let order = QuoteEngine::quoted_route_order(&quotes, &hops);
    assert_eq!(order, vec![2, 3, 4, 0, 5]);
    assert!(QuoteEngine::quoted_route_order(&[None], &[1]).is_empty());
}

#[test]
fn top_by_output_keeps_the_largest_outputs_stably() {
    let outputs = vec![10u128, 30, 20, 30, 5];
    assert_eq!(QuoteEngine::top_by_output(&outputs, 3), vec![1, 3, 2]);
    assert_eq!(QuoteEngine::top_by_output(&outputs, 10), vec![1, 3, 2, 0, 4]);
    assert!(QuoteEngine::top_by_output(&outputs, 0).is_empty());
}
