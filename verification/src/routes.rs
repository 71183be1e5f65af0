//! Route building: expand each included market into its two directed
//! edges, one per swap direction, with ids that are stable for a given
//! collection because they follow the collection's order.
use vstd::prelude::*;

use crate::types::{Market, MarketMap, Route};

verus! {

/// Largest number of markets the route builder accepts: two route ids
/// per market must fit in `u32`.
pub const MAX_ROUTED_MARKETS: usize = 0x7fffffff;

/// The forward edge of a market: token A in, token B out.
pub open spec fn route_0to1(m: Market, rid: u32) -> Route {
    Route {
        id: rid,
        dex: m.dex_label,
        pool_address: m.id,
        token_0to1: true,
        token_in: m.token_mint_a,
        token_out: m.token_mint_b,
        fee: m.fee,
    }
}

/// The reverse edge of a market: token B in, token A out.
pub open spec fn route_1to0(m: Market, rid: u32) -> Route {
    Route {
        id: rid,
        dex: m.dex_label,
        pool_address: m.id,
        token_0to1: false,
        token_in: m.token_mint_b,
        token_out: m.token_mint_a,
        fee: m.fee,
    }
}

/// The full route list: for the market at index i, its forward edge at
/// position 2i with id 2i, and its reverse edge at 2i+1 with id 2i+1.
pub open spec fn routes_spec(ms: Seq<Market>) -> Seq<Route>
    decreases ms.len(),
{
    if ms.len() == 0 {
        Seq::empty()
    } else {
        routes_spec(ms.drop_last()) + seq![
            route_0to1(ms.last(), (2 * (ms.len() - 1)) as u32),
            route_1to0(ms.last(), (2 * (ms.len() - 1) + 1) as u32),
        ]
    }
}

/// Exactly two routes per market, reverses of each other: they share
/// the market's pool address and fee, swap the (tokenIn, tokenOut)
/// pair, carry opposite direction flags and consecutive ids.
pub proof fn lemma_routes_per_market(ms: Seq<Market>)
    requires
        ms.len() <= MAX_ROUTED_MARKETS,
    ensures
        routes_spec(ms).len() == 2 * ms.len(),
        forall|i: int| 0 <= i < ms.len() ==> {
            let r0 = #[trigger] routes_spec(ms)[2 * i];
            let r1 = routes_spec(ms)[2 * i + 1];
            &&& r0 == route_0to1(ms[i], (2 * i) as u32)
            &&& r1 == route_1to0(ms[i], (2 * i + 1) as u32)
            &&& r0.pool_address == ms[i].id && r1.pool_address == ms[i].id
            &&& r0.fee == ms[i].fee && r1.fee == ms[i].fee
            &&& r0.token_in == r1.token_out && r0.token_out == r1.token_in
            &&& r0.token_0to1 && !r1.token_0to1
            &&& r0.id == 2 * i && r1.id == 2 * i + 1
        },
    decreases ms.len(),
{
    if ms.len() == 0 {
    } else {
        let t = ms.drop_last();
        lemma_routes_per_market(t);
        assert(forall|j: int| 0 <= j < t.len() ==> t[j] == ms[j]);
        assert(ms.last() == ms[ms.len() - 1]);
    }
}

/// Expand every market of the collection into its two directed edges.
/// The result is pinned to `routes_spec`, so ids are stable for a given
/// collection across runs.
pub fn compute_routes(markets_arb: MarketMap) -> (r: Vec<Route>)
    requires
        markets_arb.entries@.len() <= MAX_ROUTED_MARKETS,
    ensures
        r@ == routes_spec(markets_arb.entries@),
{
    let ms = &markets_arb.entries;
    let n = ms.len();
    let mut all_routes: Vec<Route> = Vec::new();
    let mut counter: u32 = 0;
    let mut i: usize = 0;
    while i < n
        invariant
            n == ms@.len(),
            n <= MAX_ROUTED_MARKETS,
            ms == &markets_arb.entries,
            0 <= i <= n,
            counter == 2 * i,
            all_routes@ == routes_spec(ms@.take(i as int)),
        decreases n - i,
    {
        let m = &ms[i];
        let route_0to1_exec = Route {
            id: counter,
            dex: m.dex_label,
            pool_address: m.id.clone(),
            token_0to1: true,
            token_in: m.token_mint_a.clone(),
            token_out: m.token_mint_b.clone(),
            fee: m.fee,
        };
        let route_1to0_exec = Route {
            id: counter + 1,
            dex: m.dex_label,
            pool_address: m.id.clone(),
            token_0to1: false,
            token_in: m.token_mint_b.clone(),
            token_out: m.token_mint_a.clone(),
            fee: m.fee,
        };
        all_routes.push(route_0to1_exec);
        all_routes.push(route_1to0_exec);
        counter = counter + 2;
        proof {
            assert(ms@.take(i + 1).drop_last() =~= ms@.take(i as int));
            assert(ms@.take(i + 1).last() == ms@[i as int]);
            assert(all_routes@ =~= routes_spec(ms@.take(i + 1)));
        }
        i = i + 1;
    }
    proof {
        assert(ms@.take(n as int) =~= ms@);
    }
    all_routes
}

} // verus!
