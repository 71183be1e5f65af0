//! Market aggregation: merge per-venue pool listings into one keyed
//! collection, keeping only pools whose two tokens are both of interest.
//! When two listings share a pool address the later one wins.
use vstd::prelude::*;

use crate::types::{Dex, Market, MarketMap, TokenInArb, market_map_wf};

verus! {

/// The token universe holds the given address.
pub open spec fn token_listed(tokens: Seq<TokenInArb>, addr: Seq<char>) -> bool {
    exists|i: int| 0 <= i < tokens.len() && tokens[i].address@ == addr
}

/// Both mints of the market are in the token universe.
pub open spec fn market_in_universe(m: Market, tokens: Seq<TokenInArb>) -> bool {
    token_listed(tokens, m.token_mint_a@) && token_listed(tokens, m.token_mint_b@)
}

/// Index of the first market with the given pool address, or -1.
pub open spec fn first_id_index(ms: Seq<Market>, id: Seq<char>) -> int
    decreases ms.len(),
{
    if ms.len() == 0 {
        -1
    } else if ms[0].id@ == id {
        0
    } else {
        let r = first_id_index(ms.drop_first(), id);
        if r < 0 {
            -1
        } else {
            r + 1
        }
    }
}

/// What `first_id_index` finds: the first match when there is one, -1 otherwise.
pub proof fn lemma_first_id_index(ms: Seq<Market>, id: Seq<char>)
    ensures
        first_id_index(ms, id) == -1 ==> forall|j: int| 0 <= j < ms.len() ==> ms[j].id@ != id,
        first_id_index(ms, id) != -1 ==> {
            let k = first_id_index(ms, id);
            &&& 0 <= k < ms.len()
            &&& ms[k].id@ == id
            &&& forall|j: int| 0 <= j < k ==> ms[j].id@ != id
        },
    decreases ms.len(),
{
    if ms.len() == 0 {
    } else if ms[0].id@ == id {
    } else {
        let t = ms.drop_first();
        lemma_first_id_index(t, id);
        let r = first_id_index(t, id);
        if r < 0 {
            assert forall|j: int| 0 <= j < ms.len() implies ms[j].id@ != id by {
                if j > 0 {
                    assert(t[j - 1] == ms[j]);
                    assert(t[j - 1].id@ != id);
                }
            }
        } else {
            assert(ms[r + 1] == t[r]);
            assert forall|j: int| 0 <= j < r + 1 implies ms[j].id@ != id by {
                if j > 0 {
                    assert(t[j - 1] == ms[j]);
                    assert(t[j - 1].id@ != id);
                }
            }
        }
    }
}

/// Insert with last-write-wins semantics: replace the entry that already
/// carries the pool address, or append at the end.
pub open spec fn upsert(ms: Seq<Market>, m: Market) -> Seq<Market> {
    let k = first_id_index(ms, m.id@);
    if k >= 0 {
        ms.update(k, m)
    } else {
        ms.push(m)
    }
}

/// All markets listed by a sequence of (pair key, pools) entries, in order.
pub open spec fn pairs_markets(pairs: Seq<(String, Vec<Market>)>) -> Seq<Market>
    decreases pairs.len(),
{
    if pairs.len() == 0 {
        Seq::empty()
    } else {
        pairs_markets(pairs.drop_last()) + pairs.last().1@
    }
}

/// All markets listed by a sequence of venues, in order.
pub open spec fn dexs_markets(dexs: Seq<Dex>) -> Seq<Market>
    decreases dexs.len(),
{
    if dexs.len() == 0 {
        Seq::empty()
    } else {
        dexs_markets(dexs.drop_last()) + pairs_markets(dexs.last().pair_to_markets@)
    }
}

/// The aggregated collection: walk the flattened listings in order,
/// keep the markets whose tokens are both of interest, and let a later
/// listing of a pool address overwrite an earlier one.
pub open spec fn aggregate_spec(ms: Seq<Market>, tokens: Seq<TokenInArb>) -> Seq<Market>
    decreases ms.len(),
{
    if ms.len() == 0 {
        Seq::empty()
    } else {
        let prev = aggregate_spec(ms.drop_last(), tokens);
        if market_in_universe(ms.last(), tokens) {
            upsert(prev, ms.last())
        } else {
            prev
        }
    }
}

/// An upsert keeps pool addresses unique and adds no market from
/// outside the inserted one and the old entries.
proof fn lemma_upsert(ms: Seq<Market>, m: Market)
    requires
        market_map_wf(ms),
    ensures
        market_map_wf(upsert(ms, m)),
        forall|x: Market| #[trigger] upsert(ms, m).contains(x) ==> ms.contains(x) || x == m,
{
    lemma_first_id_index(ms, m.id@);
}

/// The aggregated collection has pairwise-distinct pool addresses, and
/// every market in it comes from the input listings and trades two
/// tokens of the universe.
pub proof fn lemma_aggregate_spec(ms: Seq<Market>, tokens: Seq<TokenInArb>)
    ensures
        market_map_wf(aggregate_spec(ms, tokens)),
        forall|x: Market| #[trigger] aggregate_spec(ms, tokens).contains(x)
            ==> ms.contains(x) && market_in_universe(x, tokens),
    decreases ms.len(),
{
    if ms.len() == 0 {
    } else {
        let prev = aggregate_spec(ms.drop_last(), tokens);
        lemma_aggregate_spec(ms.drop_last(), tokens);
        assert(forall|x: Market| #[trigger] ms.drop_last().contains(x) ==> ms.contains(x));
        assert(ms.contains(ms.last()));
        if market_in_universe(ms.last(), tokens) {
            lemma_upsert(prev, ms.last());
        }
    }
}

/// Whether `addr` equals the address of some token of `tokens`.
fn token_listed_exec(tokens: &Vec<TokenInArb>, addr: &String) -> (r: bool)
    ensures
        r == token_listed(tokens@, addr@),
{
    let n = tokens.len();
    let mut i: usize = 0;
    while i < n
        invariant
            n == tokens@.len(),
            0 <= i <= n,
            forall|j: int| 0 <= j < i ==> tokens@[j].address@ != addr@,
        decreases n - i,
    {
        if tokens[i].address == *addr {
            return true;
        }
        i = i + 1;
    }
    false
}

impl MarketMap {
    /// The empty collection.
    pub fn new() -> (r: MarketMap)
        ensures
            r.entries@ == Seq::<Market>::empty(),
    {
        MarketMap { entries: Vec::new() }
    }

    /// Number of markets held.
    pub fn len(&self) -> (r: usize)
        ensures
            r == self.entries@.len(),
    {
        self.entries.len()
    }

    /// Insert a market under its pool address, replacing the entry that
    /// already carries that address if there is one.
    pub fn upsert(&mut self, m: Market)
        ensures
            final(self).entries@ == upsert(old(self).entries@, m),
    {
        let n = self.entries.len();
        let mut i: usize = 0;
        while i < n
            invariant
                n == self.entries@.len(),
                0 <= i <= n,
                *self == *old(self),
                forall|j: int| 0 <= j < i ==> self.entries@[j].id@ != m.id@,
            decreases n - i,
        {
            if self.entries[i].id == m.id {
                proof {
                    lemma_first_id_index(self.entries@, m.id@);
                }
                self.entries[i] = m;
                return ;
            }
            i = i + 1;
        }
        proof {
            lemma_first_id_index(self.entries@, m.id@);
        }
        self.entries.push(m);
    }
}

/// Flatten the venue listings into one market list, in listing order.
fn flatten_listings(dexs: &Vec<Dex>) -> (r: Vec<Market>)
    ensures
        r@ == dexs_markets(dexs@),
{
    let mut all: Vec<Market> = Vec::new();
    let nd = dexs.len();
    let mut di: usize = 0;
    while di < nd
        invariant
            nd == dexs@.len(),
            0 <= di <= nd,
            all@ == dexs_markets(dexs@.take(di as int)),
        decreases nd - di,
    {
        let pairs = &dexs[di].pair_to_markets;
        let np = pairs.len();
        let mut pi: usize = 0;
        while pi < np
            invariant
                nd == dexs@.len(),
                0 <= di < nd,
                pairs == &dexs@[di as int].pair_to_markets,
                np == pairs@.len(),
                0 <= pi <= np,
                all@ == dexs_markets(dexs@.take(di as int)) + pairs_markets(
                    pairs@.take(pi as int),
                ),
            decreases np - pi,
        {
            let pool_list = &pairs[pi].1;
            let nm = pool_list.len();
            let mut mi: usize = 0;
            while mi < nm
                invariant
                    nd == dexs@.len(),
                    0 <= di < nd,
                    pairs == &dexs@[di as int].pair_to_markets,
                    np == pairs@.len(),
                    0 <= pi < np,
                    pool_list == &pairs@[pi as int].1,
                    nm == pool_list@.len(),
                    0 <= mi <= nm,
                    all@ == dexs_markets(dexs@.take(di as int)) + pairs_markets(
                        pairs@.take(pi as int),
                    ) + pool_list@.take(mi as int),
                decreases nm - mi,
            {
                let m = pool_list[mi].clone();
                all.push(m);
                proof {
                    assert(pool_list@.take(mi + 1) =~= pool_list@.take(mi as int).push(
                        pool_list@[mi as int],
                    ));
                    assert(all@ == dexs_markets(dexs@.take(di as int)) + pairs_markets(
                        pairs@.take(pi as int),
                    ) + pool_list@.take(mi + 1));
                }
                mi = mi + 1;
            }
            proof {
                assert(pairs@.take(pi + 1).drop_last() =~= pairs@.take(pi as int));
                assert(pairs@.take(pi + 1).last() == pairs@[pi as int]);
                assert(pool_list@.take(nm as int) =~= pool_list@);
                assert(pairs_markets(pairs@.take(pi + 1)) == pairs_markets(pairs@.take(pi as int))
                    + pool_list@);
            }
            pi = pi + 1;
        }
        proof {
            assert(dexs@.take(di + 1).drop_last() =~= dexs@.take(di as int));
            assert(dexs@.take(di + 1).last() == dexs@[di as int]);
            assert(pairs@.take(np as int) =~= pairs@);
            assert(dexs_markets(dexs@.take(di + 1)) == dexs_markets(dexs@.take(di as int))
                + pairs_markets(pairs@));
        }
        di = di + 1;
    }
    proof {
        assert(dexs@.take(nd as int) =~= dexs@);
    }
    all
}

/// Merge the venue listings into one collection keyed by pool address,
/// restricted to pools whose two tokens are both of interest; of two
/// listings sharing a pool address the later one wins. The result's
/// pool addresses are unique, and every kept market comes from the
/// listings and trades tokens of the universe.
pub fn get_markets_arb(dexs: Vec<Dex>, tokens: Vec<TokenInArb>) -> (r: MarketMap)
    ensures
        r.entries@ == aggregate_spec(dexs_markets(dexs@), tokens@),
        market_map_wf(r.entries@),
        forall|x: Market| #[trigger] r.entries@.contains(x) ==> dexs_markets(dexs@).contains(x)
            && market_in_universe(x, tokens@),
{
    let all = flatten_listings(&dexs);
    let mut map = MarketMap::new();
    let n = all.len();
    let mut i: usize = 0;
    while i < n
        invariant
            n == all@.len(),
            0 <= i <= n,
            map.entries@ == aggregate_spec(all@.take(i as int), tokens@),
        decreases n - i,
    {
        let eligible = {
            let a = token_listed_exec(&tokens, &all[i].token_mint_a);
            let b = token_listed_exec(&tokens, &all[i].token_mint_b);
            a && b
        };
        if eligible {
            let m = all[i].clone();
            map.upsert(m);
        }
        proof {
            assert(all@.take(i + 1).drop_last() =~= all@.take(i as int));
            assert(all@.take(i + 1).last() == all@[i as int]);
        }
        i = i + 1;
    }
    proof {
        assert(all@.take(n as int) =~= all@);
        lemma_aggregate_spec(all@, tokens@);
    }
    map
}

} // verus!
