//! Discovery of cyclic trading opportunities across DEX liquidity pools.
//!
//! Given a universe of pools and a base token, the pipeline aggregates
//! per-venue listings into one keyed collection, filters it by per-venue
//! liquidity policy, expands each included market into its two directed
//! routes, and enumerates every closed path of one or two hops that
//! starts and ends at the base token.

pub mod aggregate;
pub mod filter;
pub mod paths;
pub mod pipeline;
pub mod routes;
pub mod types;

pub use aggregate::get_markets_arb;
pub use filter::{default_policies, filter_markets};
pub use paths::generate_swap_paths;
pub use pipeline::calculate_arb;
pub use routes::compute_routes;
pub use types::{
    ArbError, Dex, DexLabel, LiquidityPolicy, Market, MarketMap, Route, SwapPath, TokenInArb,
};
