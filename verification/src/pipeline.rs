//! The full discovery pass: filter the aggregated collection under the
//! default policy table, expand the included markets into routes, and
//! enumerate the 1-hop and 2-hop cycles anchored at the base token.
//! Each stage consumes the prior stage's whole output; any stage error
//! aborts the pass, no partial result is returned.
use vstd::prelude::*;

use crate::filter::{default_policies, default_policies_spec, filter_markets, filter_spec,
    lemma_filter_partition, lemma_first_undecided};
use crate::paths::{generate_swap_paths, paths_spec};
use crate::routes::{MAX_ROUTED_MARKETS, compute_routes, routes_spec};
use crate::types::{ArbError, DexLabel, LiquidityPolicy, Market, MarketMap, SwapPath, SwapPathV,
    TokenInArb, views_of_paths};

verus! {

/// The whole pass as a function of its inputs: the error of the first
/// stage that aborts, or the included markets together with every
/// generated swap path.
pub open spec fn calculate_arb_spec(
    ms: Seq<Market>,
    tokens: Seq<TokenInArb>,
    policies: Seq<(DexLabel, LiquidityPolicy)>,
) -> Result<(Seq<Market>, Seq<SwapPathV>), ArbError> {
    if tokens.len() == 0 {
        Result::Err(ArbError::EmptyTokenUniverse)
    } else {
        match filter_spec(ms, policies) {
            Result::Err(e) => Result::Err(e),
            Result::Ok(p) => {
                let routes = routes_spec(p.0);
                if routes.len() == 0 {
                    Result::Err(ArbError::NoRoutesGenerated)
                } else {
                    Result::Ok((p.0, paths_spec(routes, tokens[0].address@)))
                }
            },
        }
    }
}

/// The pass is a pure function of its inputs: two runs on equal inputs
/// yield equal included-market collections and equal swap-path lists.
pub proof fn lemma_pipeline_deterministic(
    ms1: Seq<Market>,
    tokens1: Seq<TokenInArb>,
    policies1: Seq<(DexLabel, LiquidityPolicy)>,
    ms2: Seq<Market>,
    tokens2: Seq<TokenInArb>,
    policies2: Seq<(DexLabel, LiquidityPolicy)>,
)
    requires
        ms1 == ms2,
        tokens1 == tokens2,
        policies1 == policies2,
    ensures
        calculate_arb_spec(ms1, tokens1, policies1) == calculate_arb_spec(ms2, tokens2, policies2),
{
}

/// Run the pass over the aggregated collection under the default policy
/// table: the result is pinned to `calculate_arb_spec`, so it is the
/// same on every run over the same input.
pub fn calculate_arb(markets_arb: MarketMap, tokens: Vec<TokenInArb>) -> (r: Result<
    (MarketMap, Vec<SwapPath>),
    ArbError,
>)
    requires
        markets_arb.entries@.len() <= MAX_ROUTED_MARKETS,
    ensures
        ({
            let s = calculate_arb_spec(markets_arb.entries@, tokens@, default_policies_spec());
            match r {
                Result::Ok(p) => s == Result::<(Seq<Market>, Seq<SwapPathV>), ArbError>::Ok(
                    (p.0.entries@, views_of_paths(p.1@)),
                ),
                Result::Err(e) => s == Result::<(Seq<Market>, Seq<SwapPathV>), ArbError>::Err(e),
            }
        }),
{
    if tokens.is_empty() {
        return Err(ArbError::EmptyTokenUniverse);
    }
    let policies = default_policies();
    match filter_markets(&markets_arb, &policies) {
        Err(e) => Err(e),
        Ok((sorted_markets_arb, _excluded_markets_arb)) => {
            proof {
                lemma_first_undecided(markets_arb.entries@, policies@);
                lemma_filter_partition(markets_arb.entries@, policies@);
            }
            let all_routes = compute_routes(sorted_markets_arb.clone());
            if all_routes.is_empty() {
                return Err(ArbError::NoRoutesGenerated);
            }
            match generate_swap_paths(all_routes, tokens) {
                Ok(all_paths) => Ok((sorted_markets_arb, all_paths)),
                Err(e) => Err(e),
            }
        },
    }
}

} // verus!
