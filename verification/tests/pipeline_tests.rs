use arb_paths::{
    calculate_arb, compute_routes, default_policies, filter_markets, generate_swap_paths,
    get_markets_arb, ArbError, Dex, DexLabel, LiquidityPolicy, Market, MarketMap, TokenInArb,
};

fn tok(address: &str) -> TokenInArb {
    TokenInArb { address: address.to_string(), symbol: address.to_string() }
}

fn market(id: &str, label: DexLabel, a: &str, b: &str, fee: u64, liquidity: Option<u64>) -> Market {
    Market {
        id: id.to_string(),
        dex_label: label,
        token_mint_a: a.to_string(),
        token_mint_b: b.to_string(),
        fee,
        liquidity,
    }
}

fn dex(label: DexLabel, pair: &str, markets: Vec<Market>) -> Dex {
    Dex { label, pair_to_markets: vec![(pair.to_string(), markets)] }
}

fn universe() -> Vec<TokenInArb> {
    vec![tok("BASE"), tok("X"), tok("Y")]
}

#[test]
fn scenario_a_single_pool_yields_no_paths() {
    let dexs = vec![dex(
        DexLabel::Raydium,
        "BASE/X",
        vec![market("P", DexLabel::Raydium, "BASE", "X", 25, Some(5000))],
    )];
    let map = get_markets_arb(dexs, universe());
    assert_eq!(map.len(), 1);
    let (included, paths) = calculate_arb(map, universe()).unwrap();
    assert_eq!(included.entries.len(), 1);
    assert_eq!(included.entries[0].id, "P");
    assert!(paths.is_empty());
}

#[test]
fn scenario_b_two_pools_give_two_one_hop_paths() {
    let dexs = vec![dex(
        DexLabel::Raydium,
        "BASE/X",
        vec![
            market("P1", DexLabel::Raydium, "BASE", "X", 25, Some(5000)),
            market("P2", DexLabel::Raydium, "BASE", "X", 30, Some(6000)),
        ],
    )];
    let map = get_markets_arb(dexs, universe());
    let (included, paths) = calculate_arb(map, universe()).unwrap();
    assert_eq!(included.entries.len(), 2);
    assert_eq!(paths.len(), 2);
    for p in &paths {
        assert_eq!(p.hops, 1);
        assert_eq!(p.paths.len(), 2);
        assert_eq!(p.paths[0].token_in, "BASE");
        assert_eq!(p.paths[1].token_out, "BASE");
        assert_eq!(p.paths[0].token_out, p.paths[1].token_in);
        assert_ne!(p.paths[0].pool_address, p.paths[1].pool_address);
    }
    assert_eq!(paths[0].id_paths, vec![0, 3]);
    assert_eq!(paths[0].paths[0].pool_address, "P1");
    assert_eq!(paths[0].paths[1].pool_address, "P2");
    assert_eq!(paths[1].id_paths, vec![2, 1]);
    assert_eq!(paths[1].paths[0].pool_address, "P2");
    assert_eq!(paths[1].paths[1].pool_address, "P1");
}

#[test]
fn scenario_c_three_pools_give_two_hop_paths() {
    let dexs = vec![dex(
        DexLabel::Raydium,
        "TRIANGLE",
        vec![
            market("P1", DexLabel::Raydium, "BASE", "X", 25, Some(5000)),
            market("P2", DexLabel::Raydium, "X", "Y", 25, Some(5000)),
            market("P3", DexLabel::Raydium, "Y", "BASE", 25, Some(5000)),
        ],
    )];
    let map = get_markets_arb(dexs, universe());
    let (included, paths) = calculate_arb(map, universe()).unwrap();
    assert_eq!(included.entries.len(), 3);
    assert_eq!(paths.len(), 2);
    for p in &paths {
        assert_eq!(p.hops, 2);
        assert_eq!(p.paths.len(), 3);
        assert_eq!(p.paths[0].token_in, "BASE");
        assert_eq!(p.paths[2].token_out, "BASE");
        assert_eq!(p.paths[0].token_out, p.paths[1].token_in);
        assert_eq!(p.paths[1].token_out, p.paths[2].token_in);
        assert_ne!(p.paths[0].pool_address, p.paths[1].pool_address);
        assert_ne!(p.paths[0].pool_address, p.paths[2].pool_address);
        assert_ne!(p.paths[1].pool_address, p.paths[2].pool_address);
    }
    assert_eq!(paths[0].id_paths, vec![0, 2, 4]);
    assert_eq!(paths[1].id_paths, vec![5, 3, 1]);
}

#[test]
fn scenario_d_missing_liquidity_aborts() {
    let dexs = vec![dex(
        DexLabel::Raydium,
        "BASE/X",
        vec![market("P", DexLabel::Raydium, "BASE", "X", 25, None)],
    )];
    let map = get_markets_arb(dexs, universe());
    let r = calculate_arb(map, universe());
    assert_eq!(r, Err(ArbError::MissingLiquidityData));
}

#[test]
fn whirlpool_missing_liquidity_aborts() {
    let map = MarketMap {
        entries: vec![market("W", DexLabel::OrcaWhirlpools, "BASE", "X", 30, None)],
    };
    let r = filter_markets(&map, &default_policies());
    assert_eq!(r, Err(ArbError::MissingLiquidityData));
}

#[test]
fn empty_token_universe_aborts() {
    let map = MarketMap {
        entries: vec![market("P", DexLabel::Raydium, "BASE", "X", 25, Some(5000))],
    };
    assert_eq!(calculate_arb(map, Vec::new()), Err(ArbError::EmptyTokenUniverse));
    assert_eq!(generate_swap_paths(Vec::new(), Vec::new()), Err(ArbError::EmptyTokenUniverse));
}

#[test]
fn unsupported_venue_label_aborts() {
    let map = MarketMap {
        entries: vec![market("P", DexLabel::Raydium, "BASE", "X", 25, Some(5000))],
    };
    let policies = vec![(DexLabel::Orca, LiquidityPolicy::AlwaysExclude)];
    let r = filter_markets(&map, &policies);
    assert_eq!(r, Err(ArbError::UnsupportedVenueLabel));
}

#[test]
fn all_markets_excluded_means_no_routes() {
    let dexs = vec![dex(
        DexLabel::Orca,
        "BASE/X",
        vec![market("P", DexLabel::Orca, "BASE", "X", 25, Some(5000))],
    )];
    let map = get_markets_arb(dexs, universe());
    let r = calculate_arb(map, universe());
    assert_eq!(r, Err(ArbError::NoRoutesGenerated));
}

#[test]
fn filter_applies_per_venue_thresholds() {
    let map = MarketMap {
        entries: vec![
            market("W1", DexLabel::OrcaWhirlpools, "BASE", "X", 30, Some(2000000000)),
            market("W2", DexLabel::OrcaWhirlpools, "BASE", "X", 30, Some(1999999999)),
            market("R1", DexLabel::Raydium, "BASE", "X", 25, Some(2000)),
            market("R2", DexLabel::Raydium, "BASE", "X", 25, Some(1999)),
            market("O1", DexLabel::Orca, "BASE", "X", 25, Some(5000)),
            market("C1", DexLabel::RaydiumClmm, "BASE", "X", 25, Some(5000)),
        ],
    };
    let total = map.entries.len();
    let (included, excluded) = filter_markets(&map, &default_policies()).unwrap();
    let kept: Vec<&str> = included.entries.iter().map(|m| m.id.as_str()).collect();
    assert_eq!(kept, vec!["W1", "R1"]);
    assert_eq!(excluded, vec!["W2", "R2", "O1", "C1"]);
    assert_eq!(included.entries.len() + excluded.len(), total);
}

#[test]
fn aggregator_keeps_only_universe_pairs() {
    let dexs = vec![dex(
        DexLabel::Raydium,
        "MIXED",
        vec![
            market("IN", DexLabel::Raydium, "BASE", "X", 25, Some(5000)),
            market("OUT1", DexLabel::Raydium, "BASE", "Z", 25, Some(5000)),
            market("OUT2", DexLabel::Raydium, "Z", "X", 25, Some(5000)),
        ],
    )];
    let map = get_markets_arb(dexs, universe());
    assert_eq!(map.entries.len(), 1);
    assert_eq!(map.entries[0].id, "IN");
}

#[test]
fn aggregator_later_listing_wins() {
    let dexs = vec![
        dex(
            DexLabel::Raydium,
            "BASE/X",
            vec![
                market("P", DexLabel::Raydium, "BASE", "X", 25, Some(5000)),
                market("Q", DexLabel::Raydium, "BASE", "X", 25, Some(5000)),
            ],
        ),
        dex(
            DexLabel::OrcaWhirlpools,
            "BASE/X",
            vec![market("P", DexLabel::OrcaWhirlpools, "BASE", "X", 40, Some(9000))],
        ),
    ];
    let map = get_markets_arb(dexs, universe());
    assert_eq!(map.entries.len(), 2);
    assert_eq!(map.entries[0].id, "P");
    assert_eq!(map.entries[0].dex_label, DexLabel::OrcaWhirlpools);
    assert_eq!(map.entries[0].fee, 40);
    assert_eq!(map.entries[1].id, "Q");
}

#[test]
fn compute_routes_builds_both_directions() {
    let map = MarketMap {
        entries: vec![market("P", DexLabel::Raydium, "BASE", "X", 25, Some(5000))],
    };
    let routes = compute_routes(map);
    assert_eq!(routes.len(), 2);
    assert_eq!(routes[0].id, 0);
    assert_eq!(routes[1].id, 1);
    assert!(routes[0].token_0to1);
    assert!(!routes[1].token_0to1);
    assert_eq!(routes[0].token_in, "BASE");
    assert_eq!(routes[0].token_out, "X");
    assert_eq!(routes[1].token_in, "X");
    assert_eq!(routes[1].token_out, "BASE");
    assert_eq!(routes[0].pool_address, "P");
    assert_eq!(routes[1].pool_address, "P");
    assert_eq!(routes[0].fee, 25);
    assert_eq!(routes[1].fee, 25);
    assert_eq!(routes[0].dex, DexLabel::Raydium);
}

#[test]
fn pipeline_is_deterministic_across_runs() {
    let build = || {
        let dexs = vec![dex(
            DexLabel::Raydium,
            "TRIANGLE",
            vec![
                market("P1", DexLabel::Raydium, "BASE", "X", 25, Some(5000)),
                market("P2", DexLabel::Raydium, "X", "Y", 25, Some(5000)),
                market("P3", DexLabel::Raydium, "Y", "BASE", 25, Some(5000)),
                market("P4", DexLabel::Raydium, "BASE", "X", 30, Some(7000)),
            ],
        )];
        get_markets_arb(dexs, universe())
    };
    let first = calculate_arb(build(), universe()).unwrap();
    let second = calculate_arb(build(), universe()).unwrap();
    assert_eq!(first.0, second.0);
    assert_eq!(first.1, second.1);
}

#[test]
fn generate_swap_paths_skips_shared_pool() {
    let map = MarketMap {
        entries: vec![market("P", DexLabel::Raydium, "BASE", "X", 25, Some(5000))],
    };
    let routes = compute_routes(map);
    let paths = generate_swap_paths(routes, universe()).unwrap();
    assert!(paths.is_empty());
}
