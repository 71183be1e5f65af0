//! Data model for the path-discovery pipeline: tokens, markets, routes,
//! swap paths, liquidity policies and the pipeline's error taxonomy.
use vstd::prelude::*;

verus! {

/// Label of the venue (DEX protocol) a pool belongs to.
#[derive(Clone, Copy, Debug, PartialEq, Eq, Structural)]
pub enum DexLabel {
    Orca,
    OrcaWhirlpools,
    RaydiumClmm,
    Raydium,
}

/// Liquidity policy of one venue: either every pool of the venue is
/// excluded outright, or a pool is included iff its reported liquidity
/// reaches the given minimum.
#[derive(Clone, Copy, Debug, PartialEq, Eq, Structural)]
pub enum LiquidityPolicy {
    AlwaysExclude,
    MinLiquidity(u64),
}

/// The errors a pipeline stage can surface; the stage aborts whole,
/// no partial result is returned alongside an error.
#[derive(Clone, Copy, Debug, PartialEq, Eq, Structural)]
pub enum ArbError {
    /// A market's venue requires a liquidity figure but the market has none.
    MissingLiquidityData,
    /// A market's venue label has no entry in the policy table.
    UnsupportedVenueLabel,
    /// The token-of-interest list is empty, so no base token can anchor a cycle.
    EmptyTokenUniverse,
    /// The included markets yield zero routes.
    NoRoutesGenerated,
}

/// A token of interest; only the address takes part in path discovery,
/// the symbol is carried for the caller.
#[derive(Debug, PartialEq, Eq)]
pub struct TokenInArb {
    pub address: String,
    pub symbol: String,
}

/// One liquidity pool: its address (`id`, the identity key), venue,
/// the two token mints it trades, its fee, and an optional liquidity
/// figure (absent on venues that report none).
#[derive(Debug, PartialEq, Eq)]
pub struct Market {
    pub id: String,
    pub dex_label: DexLabel,
    pub token_mint_a: String,
    pub token_mint_b: String,
    pub fee: u64,
    pub liquidity: Option<u64>,
}

impl Clone for Market {
    fn clone(&self) -> (r: Self)
        ensures
            r == *self,
    {
        Market {
            id: self.id.clone(),
            dex_label: self.dex_label,
            token_mint_a: self.token_mint_a.clone(),
            token_mint_b: self.token_mint_b.clone(),
            fee: self.fee,
            liquidity: self.liquidity,
        }
    }
}

/// One venue's listing: its label and, per trading-pair key, the pools
/// listed for that pair (a pair may carry several pools at different fees).
#[derive(Debug)]
pub struct Dex {
    pub label: DexLabel,
    pub pair_to_markets: Vec<(String, Vec<Market>)>,
}

/// A keyed collection of markets, keyed by pool address. It replaces a
/// hash map so that insertion order stays observable and deterministic;
/// `market_map_wf` states the map invariant: pool addresses are unique.
#[derive(Debug, PartialEq, Eq)]
pub struct MarketMap {
    pub entries: Vec<Market>,
}

impl Clone for MarketMap {
    fn clone(&self) -> (r: Self)
        ensures
            r.entries@ == self.entries@,
    {
        let mut entries: Vec<Market> = Vec::new();
        let n = self.entries.len();
        let mut i: usize = 0;
        while i < n
            invariant
                n == self.entries@.len(),
                0 <= i <= n,
                entries@ == self.entries@.take(i as int),
            decreases n - i,
        {
            entries.push(self.entries[i].clone());
            proof {
                assert(entries@ =~= self.entries@.take(i + 1));
            }
            i = i + 1;
        }
        proof {
            assert(self.entries@.take(n as int) =~= self.entries@);
        }
        MarketMap { entries }
    }
}

/// The map invariant: no two entries share a pool address.
pub open spec fn market_map_wf(ms: Seq<Market>) -> bool {
    forall|i: int, j: int| 0 <= i < j < ms.len() ==> ms[i].id@ != ms[j].id@
}

/// A directed edge derived from a market: one of the pool's two swap
/// directions.
#[derive(Debug, PartialEq, Eq)]
pub struct Route {
    pub id: u32,
    pub dex: DexLabel,
    pub pool_address: String,
    pub token_0to1: bool,
    pub token_in: String,
    pub token_out: String,
    pub fee: u64,
}

impl Clone for Route {
    fn clone(&self) -> (r: Self)
        ensures
            r == *self,
    {
        Route {
            id: self.id,
            dex: self.dex,
            pool_address: self.pool_address.clone(),
            token_0to1: self.token_0to1,
            token_in: self.token_in.clone(),
            token_out: self.token_out.clone(),
            fee: self.fee,
        }
    }
}

/// An ordered cycle of routes anchored at the base token, with its hop
/// count (`paths.len() - 1`) and the parallel list of route ids.
#[derive(Debug, PartialEq, Eq)]
pub struct SwapPath {
    pub hops: usize,
    pub paths: Vec<Route>,
    pub id_paths: Vec<u32>,
}

/// Mathematical model of a `SwapPath`: the same fields with the route
/// list and id list as sequences.
pub ghost struct SwapPathV {
    pub hops: usize,
    pub paths: Seq<Route>,
    pub id_paths: Seq<u32>,
}

impl View for SwapPath {
    type V = SwapPathV;

    open spec fn view(&self) -> SwapPathV {
        SwapPathV { hops: self.hops, paths: self.paths@, id_paths: self.id_paths@ }
    }
}

/// The views of a sequence of swap paths, element by element.
pub open spec fn views_of_paths(ps: Seq<SwapPath>) -> Seq<SwapPathV> {
    ps.map_values(|p: SwapPath| p@)
}

/// Taking a view commutes with appending one path.
pub proof fn lemma_views_of_paths_push(ps: Seq<SwapPath>, p: SwapPath)
    ensures
        views_of_paths(ps.push(p)) == views_of_paths(ps).push(p@),
{
    assert(views_of_paths(ps.push(p)) =~= views_of_paths(ps).push(p@));
}

} // verus!
