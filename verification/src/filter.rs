//! Market filtering: partition the aggregated collection into included
//! and excluded markets under a per-venue liquidity policy table. A
//! market whose venue requires a liquidity figure it does not carry, or
//! whose venue has no policy, aborts the stage with an error.
use vstd::prelude::*;

use crate::types::{ArbError, DexLabel, LiquidityPolicy, Market, MarketMap, market_map_wf};

verus! {

/// Minimum liquidity for a whirlpool-style pool, in fixed point with
/// six implied decimals.
pub const WHIRLPOOL_MIN_LIQUIDITY: u64 = 2000000000;

/// Minimum liquidity for a classic pool.
pub const CLASSIC_MIN_LIQUIDITY: u64 = 2000;

/// The policy of the first table entry carrying the given label, if any.
pub open spec fn lookup_policy(
    policies: Seq<(DexLabel, LiquidityPolicy)>,
    label: DexLabel,
) -> Option<LiquidityPolicy>
    decreases policies.len(),
{
    if policies.len() == 0 {
        None
    } else if policies[0].0 == label {
        Some(policies[0].1)
    } else {
        lookup_policy(policies.drop_first(), label)
    }
}

/// What the filter decides for one market: include (`Ok(true)`),
/// exclude (`Ok(false)`), or abort the stage (`Err`).
pub open spec fn market_decision(
    m: Market,
    policies: Seq<(DexLabel, LiquidityPolicy)>,
) -> Result<bool, ArbError> {
    match lookup_policy(policies, m.dex_label) {
        Option::None => Result::Err(ArbError::UnsupportedVenueLabel),
        Option::Some(LiquidityPolicy::AlwaysExclude) => Result::Ok(false),
        Option::Some(LiquidityPolicy::MinLiquidity(min)) => match m.liquidity {
            Option::None => Result::Err(ArbError::MissingLiquidityData),
            Option::Some(l) => Result::Ok(l >= min),
        },
    }
}

/// Every market of the collection gets a decision, none aborts.
pub open spec fn all_decided(ms: Seq<Market>, policies: Seq<(DexLabel, LiquidityPolicy)>) -> bool {
    forall|i: int| 0 <= i < ms.len() ==> market_decision(ms[i], policies) is Ok
}

/// Index of the first market whose decision aborts, or the length when
/// every market is decided.
pub open spec fn first_undecided(ms: Seq<Market>, policies: Seq<(DexLabel, LiquidityPolicy)>) -> int
    decreases ms.len(),
{
    if ms.len() == 0 {
        0
    } else if market_decision(ms[0], policies) is Err {
        0
    } else {
        1 + first_undecided(ms.drop_first(), policies)
    }
}

/// The markets the filter includes, in input order.
pub open spec fn included_spec(
    ms: Seq<Market>,
    policies: Seq<(DexLabel, LiquidityPolicy)>,
) -> Seq<Market>
    decreases ms.len(),
{
    if ms.len() == 0 {
        Seq::empty()
    } else {
        let prev = included_spec(ms.drop_last(), policies);
        if market_decision(ms.last(), policies) == Result::<bool, ArbError>::Ok(true) {
            prev.push(ms.last())
        } else {
            prev
        }
    }
}

/// The pool addresses the filter excludes, in input order.
pub open spec fn excluded_spec(
    ms: Seq<Market>,
    policies: Seq<(DexLabel, LiquidityPolicy)>,
) -> Seq<Seq<char>>
    decreases ms.len(),
{
    if ms.len() == 0 {
        Seq::empty()
    } else {
        let prev = excluded_spec(ms.drop_last(), policies);
        if market_decision(ms.last(), policies) == Result::<bool, ArbError>::Ok(false) {
            prev.push(ms.last().id@)
        } else {
            prev
        }
    }
}

/// The whole filter stage: either the partition of the collection, or
/// the error of the first market that could not be decided.
pub open spec fn filter_spec(
    ms: Seq<Market>,
    policies: Seq<(DexLabel, LiquidityPolicy)>,
) -> Result<(Seq<Market>, Seq<Seq<char>>), ArbError> {
    let k = first_undecided(ms, policies);
    if k == ms.len() {
        Result::Ok((included_spec(ms, policies), excluded_spec(ms, policies)))
    } else {
        Result::Err(market_decision(ms[k], policies)->Err_0)
    }
}

/// What `first_undecided` finds: the length exactly when every market
/// is decided, else the first aborting index.
pub proof fn lemma_first_undecided(ms: Seq<Market>, policies: Seq<(DexLabel, LiquidityPolicy)>)
    ensures
        0 <= first_undecided(ms, policies) <= ms.len(),
        first_undecided(ms, policies) == ms.len() <==> all_decided(ms, policies),
        first_undecided(ms, policies) < ms.len() ==> {
            let k = first_undecided(ms, policies);
            &&& market_decision(ms[k], policies) is Err
            &&& forall|j: int| 0 <= j < k ==> market_decision(ms[j], policies) is Ok
        },
    decreases ms.len(),
{
    if ms.len() == 0 {
    } else if market_decision(ms[0], policies) is Err {
    } else {
        let t = ms.drop_first();
        lemma_first_undecided(t, policies);
        assert(forall|j: int| 0 <= j < t.len() ==> t[j] == ms[j + 1]);
        let k = first_undecided(ms, policies);
        if k < ms.len() {
            assert(ms[k] == t[k - 1]);
            assert forall|j: int| 0 <= j < k implies market_decision(ms[j], policies) is Ok by {
                if j > 0 {
                    assert(t[j - 1] == ms[j]);
                }
            }
        } else {
            assert forall|j: int| 0 <= j < ms.len() implies market_decision(ms[j], policies)
                is Ok by {
                if j > 0 {
                    assert(t[j - 1] == ms[j]);
                }
            }
        }
    }
}

/// The filter is a partition: a market stands in the included part iff
/// it is an input market whose decision is to include it, the excluded
/// part mirrors that for exclusion, and together they cover the whole
/// input, so that included plus excluded counts equal the input count.
pub proof fn lemma_filter_partition(ms: Seq<Market>, policies: Seq<(DexLabel, LiquidityPolicy)>)
    requires
        all_decided(ms, policies),
    ensures
        included_spec(ms, policies).len() + excluded_spec(ms, policies).len() == ms.len(),
        forall|m: Market| #[trigger] included_spec(ms, policies).contains(m) <==> exists|i: int|
            0 <= i < ms.len() && ms[i] == m && market_decision(m, policies) == Result::<
                bool,
                ArbError,
            >::Ok(true),
    decreases ms.len(),
{
    if ms.len() == 0 {
    } else {
        let t = ms.drop_last();
        assert(all_decided(t, policies)) by {
            assert(forall|j: int| 0 <= j < t.len() ==> t[j] == ms[j]);
        }
        lemma_filter_partition(t, policies);
        assert(market_decision(ms.last(), policies) is Ok) by {
            assert(ms.last() == ms[ms.len() - 1]);
        }
        assert forall|m: Market| #[trigger] included_spec(ms, policies).contains(m) implies exists|
            i: int,
        |
            0 <= i < ms.len() && ms[i] == m && market_decision(m, policies) == Result::<
                bool,
                ArbError,
            >::Ok(true) by {
            let inc = included_spec(ms, policies);
            let j = choose|j: int| 0 <= j < inc.len() && inc[j] == m;
            if j < included_spec(t, policies).len() {
                assert(included_spec(t, policies).contains(m));
                let i = choose|i: int|
                    0 <= i < t.len() && t[i] == m && market_decision(m, policies) == Result::<
                        bool,
                        ArbError,
                    >::Ok(true);
                assert(ms[i] == m);
            } else {
                assert(m == ms.last());
                assert(ms[ms.len() - 1] == m);
            }
        }
        assert forall|m: Market|
            (exists|i: int|
                0 <= i < ms.len() && ms[i] == m && market_decision(m, policies) == Result::<
                    bool,
                    ArbError,
                >::Ok(true)) implies #[trigger] included_spec(ms, policies).contains(m) by {
            let i = choose|i: int|
                0 <= i < ms.len() && ms[i] == m && market_decision(m, policies) == Result::<
                    bool,
                    ArbError,
                >::Ok(true);
            let inc = included_spec(ms, policies);
            if i < ms.len() - 1 {
                assert(t[i] == m);
                assert(included_spec(t, policies).contains(m));
                let j = choose|j: int|
                    0 <= j < included_spec(t, policies).len() && included_spec(t, policies)[j]
                        == m;
                assert(inc[j] == m);
            } else {
                assert(ms.last() == m);
                assert(inc.last() == m);
            }
        }
    }
}

/// Included markets keep the map invariant: distinct pool addresses.
pub proof fn lemma_included_wf(ms: Seq<Market>, policies: Seq<(DexLabel, LiquidityPolicy)>)
    requires
        market_map_wf(ms),
    ensures
        market_map_wf(included_spec(ms, policies)),
        forall|m: Market| #[trigger] included_spec(ms, policies).contains(m) ==> ms.contains(m),
    decreases ms.len(),
{
    if ms.len() == 0 {
    } else {
        let t = ms.drop_last();
        assert(market_map_wf(t)) by {
            assert(forall|j: int| 0 <= j < t.len() ==> t[j] == ms[j]);
        }
        lemma_included_wf(t, policies);
        let prev = included_spec(t, policies);
        assert(forall|m: Market| #[trigger] t.contains(m) ==> ms.contains(m));
        assert(ms.contains(ms.last()));
        assert forall|m: Market| #[trigger] included_spec(ms, policies).contains(m) implies
            ms.contains(m) by {
            let inc = included_spec(ms, policies);
            let j = choose|j: int| 0 <= j < inc.len() && inc[j] == m;
            if j < prev.len() {
                assert(prev.contains(m));
            } else {
                assert(m == ms.last());
            }
        }
        if market_decision(ms.last(), policies) == Result::<bool, ArbError>::Ok(true) {
            let inc = included_spec(ms, policies);
            assert forall|i: int, j: int| 0 <= i < j < inc.len() implies inc[i].id@
                != inc[j].id@ by {
                if j == inc.len() - 1 {
                    assert(prev.contains(prev[i]));
                    assert(ms.contains(prev[i]));
                    let a = choose|a: int| 0 <= a < ms.len() && ms[a] == prev[i];
                    assert(ms.contains(ms.last()));
                    if a < ms.len() - 1 {
                        assert(ms[a].id@ != ms[ms.len() - 1].id@);
                    } else {
                        assert(t.contains(prev[i]));
                        let b = choose|b: int| 0 <= b < t.len() && t[b] == prev[i];
                        assert(ms[b].id@ != ms[ms.len() - 1].id@);
                    }
                }
            }
        }
    }
}

/// The default policy table, one row per venue.
pub open spec fn default_policies_spec() -> Seq<(DexLabel, LiquidityPolicy)> {
    seq![
        (DexLabel::Orca, LiquidityPolicy::AlwaysExclude),
        (DexLabel::OrcaWhirlpools, LiquidityPolicy::MinLiquidity(WHIRLPOOL_MIN_LIQUIDITY)),
        (DexLabel::RaydiumClmm, LiquidityPolicy::AlwaysExclude),
        (DexLabel::Raydium, LiquidityPolicy::MinLiquidity(CLASSIC_MIN_LIQUIDITY)),
    ]
}

/// The default policy table: venues without a reliable liquidity figure
/// are always excluded; whirlpool-style and classic pools are included
/// from their venue's minimum liquidity upward.
pub fn default_policies() -> (r: Vec<(DexLabel, LiquidityPolicy)>)
    ensures
        r@ == default_policies_spec(),
{
    let mut v: Vec<(DexLabel, LiquidityPolicy)> = Vec::new();
    v.push((DexLabel::Orca, LiquidityPolicy::AlwaysExclude));
    v.push((DexLabel::OrcaWhirlpools, LiquidityPolicy::MinLiquidity(WHIRLPOOL_MIN_LIQUIDITY)));
    v.push((DexLabel::RaydiumClmm, LiquidityPolicy::AlwaysExclude));
    v.push((DexLabel::Raydium, LiquidityPolicy::MinLiquidity(CLASSIC_MIN_LIQUIDITY)));
    proof {
        assert(v@ =~= default_policies_spec());
    }
    v
}

/// Look the market's venue up in the policy table.
fn lookup_policy_exec(
    policies: &Vec<(DexLabel, LiquidityPolicy)>,
    label: DexLabel,
) -> (r: Option<LiquidityPolicy>)
    ensures
        r == lookup_policy(policies@, label),
{
    let n = policies.len();
    let mut i: usize = 0;
    proof {
        assert(policies@.skip(0) =~= policies@);
    }
    while i < n
        invariant
            n == policies@.len(),
            0 <= i <= n,
            lookup_policy(policies@.skip(i as int), label) == lookup_policy(policies@, label),
        decreases n - i,
    {
        proof {
            assert(policies@.skip(i as int)[0] == policies@[i as int]);
            assert(policies@.skip(i as int).drop_first() =~= policies@.skip(i + 1));
        }
        if policies[i].0 == label {
            return Some(policies[i].1);
        }
        i = i + 1;
    }
    proof {
        assert(policies@.skip(n as int) =~= Seq::<(DexLabel, LiquidityPolicy)>::empty());
    }
    None
}

/// Decide one market under the policy table.
fn decide_market(m: &Market, policies: &Vec<(DexLabel, LiquidityPolicy)>) -> (r: Result<
    bool,
    ArbError,
>)
    ensures
        r == market_decision(*m, policies@),
{
    match lookup_policy_exec(policies, m.dex_label) {
        None => Err(ArbError::UnsupportedVenueLabel),
        Some(LiquidityPolicy::AlwaysExclude) => Ok(false),
        Some(LiquidityPolicy::MinLiquidity(min)) => match m.liquidity {
            None => Err(ArbError::MissingLiquidityData),
            Some(l) => Ok(l >= min),
        },
    }
}

/// Partition the collection under the policy table into the included
/// markets and the excluded pool addresses, or abort with the error of
/// the first market that has no liquidity figure its venue requires
/// (`MissingLiquidityData`) or no policy row (`UnsupportedVenueLabel`).
pub fn filter_markets(
    markets_arb: &MarketMap,
    policies: &Vec<(DexLabel, LiquidityPolicy)>,
) -> (r: Result<(MarketMap, Vec<String>), ArbError>)
    ensures
        match r {
            Result::Ok(p) => filter_spec(markets_arb.entries@, policies@) == Result::<
                (Seq<Market>, Seq<Seq<char>>),
                ArbError,
            >::Ok((p.0.entries@, p.1@.map_values(|s: String| s@))) && (market_map_wf(
                markets_arb.entries@,
            ) ==> market_map_wf(p.0.entries@)),
            Result::Err(e) => filter_spec(markets_arb.entries@, policies@) == Result::<
                (Seq<Market>, Seq<Seq<char>>),
                ArbError,
            >::Err(e),
        },
{
    let ms = &markets_arb.entries;
    let n = ms.len();
    let mut included = MarketMap::new();
    let mut excluded: Vec<String> = Vec::new();
    let mut i: usize = 0;
    while i < n
        invariant
            n == ms@.len(),
            ms == &markets_arb.entries,
            0 <= i <= n,
            forall|j: int| 0 <= j < i ==> market_decision(ms@[j], policies@) is Ok,
            included.entries@ == included_spec(ms@.take(i as int), policies@),
            excluded@.map_values(|s: String| s@) == excluded_spec(ms@.take(i as int), policies@),
        decreases n - i,
    {
        let d = decide_market(&ms[i], policies);
        proof {
            assert(ms@.take(i + 1).drop_last() =~= ms@.take(i as int));
            assert(ms@.take(i + 1).last() == ms@[i as int]);
        }
        match d {
            Err(e) => {
                proof {
                    lemma_first_undecided(ms@, policies@);
                    let k = first_undecided(ms@, policies@);
                    assert(k <= i) by {
                        if k > i {
                            assert(market_decision(ms@[i as int], policies@) is Ok);
                        }
                    }
                    assert(k == i);
                }
                return Err(e);
            },
            Ok(true) => {
                let m = ms[i].clone();
                included.entries.push(m);
            },
            Ok(false) => {
                let id = ms[i].id.clone();
                excluded.push(id);
                proof {
                    assert(excluded@.map_values(|s: String| s@) =~= excluded_spec(
                        ms@.take(i + 1),
                        policies@,
                    ));
                }
            },
        }
        i = i + 1;
    }
    proof {
        assert(ms@.take(n as int) =~= ms@);
        lemma_first_undecided(ms@, policies@);
        if market_map_wf(ms@) {
            lemma_included_wf(ms@, policies@);
        }
    }
    Ok((included, excluded))
}

} // verus!
