//! Path generation: enumerate every closed path of one or two hops that
//! starts and ends at the base token, never reusing a pool within one
//! path. A "1-hop" path holds two routes (out and back), a "2-hop" path
//! three; the hop count is the number of intermediate legs.
use vstd::prelude::*;

use crate::types::{ArbError, Route, SwapPath, SwapPathV, TokenInArb, views_of_paths,
    lemma_views_of_paths_push};

verus! {

/// `r2` closes a 1-hop cycle opened by `r1`: it returns to base,
/// continues `r1`'s output token, and uses a different pool.
pub open spec fn one_hop_ok(r1: Route, r2: Route, base: Seq<char>) -> bool {
    &&& r2.token_out@ == base
    &&& r1.token_out@ == r2.token_in@
    &&& r1.pool_address@ != r2.pool_address@
}

/// `r` can stand second in a 2-hop cycle opened by `r1`: it continues
/// `r1`'s output token on another pool and does not return to base yet.
pub open spec fn mid_hop_ok(r1: Route, r: Route, base: Seq<char>) -> bool {
    &&& r.token_in@ == r1.token_out@
    &&& r1.pool_address@ != r.pool_address@
    &&& r.token_out@ != base
}

/// `r` closes the 2-hop cycle opened by `r1` and continued by `r2`.
pub open spec fn last_hop_ok(r1: Route, r2: Route, r: Route, base: Seq<char>) -> bool {
    &&& r.token_in@ == r2.token_out@
    &&& r2.pool_address@ != r.pool_address@
    &&& r1.pool_address@ != r.pool_address@
    &&& r.token_out@ == base
}

/// The 1-hop path out through `r1` and back through `r2`.
pub open spec fn mk_path1(r1: Route, r2: Route) -> SwapPathV {
    SwapPathV { hops: 1, paths: seq![r1, r2], id_paths: seq![r1.id, r2.id] }
}

/// The 2-hop path through `r1`, `r2` and `r3`.
pub open spec fn mk_path2(r1: Route, r2: Route, r3: Route) -> SwapPathV {
    SwapPathV { hops: 2, paths: seq![r1, r2, r3], id_paths: seq![r1.id, r2.id, r3.id] }
}

/// All 1-hop paths opened by `r1` and closed by a route of `cand`, in
/// candidate order.
pub open spec fn one_hop_with(r1: Route, cand: Seq<Route>, base: Seq<char>) -> Seq<SwapPathV>
    decreases cand.len(),
{
    if cand.len() == 0 {
        Seq::empty()
    } else {
        let prev = one_hop_with(r1, cand.drop_last(), base);
        if one_hop_ok(r1, cand.last(), base) {
            prev.push(mk_path1(r1, cand.last()))
        } else {
            prev
        }
    }
}

/// All 1-hop paths opened by a route of `prefix` that starts at base,
/// closed by any route of `all`.
pub open spec fn one_hop_paths(prefix: Seq<Route>, all: Seq<Route>, base: Seq<char>) -> Seq<
    SwapPathV,
>
    decreases prefix.len(),
{
    if prefix.len() == 0 {
        Seq::empty()
    } else {
        let prev = one_hop_paths(prefix.drop_last(), all, base);
        if prefix.last().token_in@ == base {
            prev + one_hop_with(prefix.last(), all, base)
        } else {
            prev
        }
    }
}

/// All 2-hop paths through `r1` then `r2`, closed by a route of `cand`.
pub open spec fn two_hop_with2(r1: Route, r2: Route, cand: Seq<Route>, base: Seq<char>) -> Seq<
    SwapPathV,
>
    decreases cand.len(),
{
    if cand.len() == 0 {
        Seq::empty()
    } else {
        let prev = two_hop_with2(r1, r2, cand.drop_last(), base);
        if last_hop_ok(r1, r2, cand.last(), base) {
            prev.push(mk_path2(r1, r2, cand.last()))
        } else {
            prev
        }
    }
}

/// All 2-hop paths opened by `r1`, continued by a route of `cand` and
/// closed by a route of `all`.
pub open spec fn two_hop_with1(r1: Route, cand: Seq<Route>, all: Seq<Route>, base: Seq<char>) -> Seq<
    SwapPathV,
>
    decreases cand.len(),
{
    if cand.len() == 0 {
        Seq::empty()
    } else {
        let prev = two_hop_with1(r1, cand.drop_last(), all, base);
        if mid_hop_ok(r1, cand.last(), base) {
            prev + two_hop_with2(r1, cand.last(), all, base)
        } else {
            prev
        }
    }
}

/// All 2-hop paths opened by a route of `prefix` that starts at base.
pub open spec fn two_hop_paths(prefix: Seq<Route>, all: Seq<Route>, base: Seq<char>) -> Seq<
    SwapPathV,
>
    decreases prefix.len(),
{
    if prefix.len() == 0 {
        Seq::empty()
    } else {
        let prev = two_hop_paths(prefix.drop_last(), all, base);
        if prefix.last().token_in@ == base {
            prev + two_hop_with1(prefix.last(), all, all, base)
        } else {
            prev
        }
    }
}

/// Every generated swap path: the 1-hop paths first, then the 2-hop
/// paths, each group in route order.
pub open spec fn paths_spec(all: Seq<Route>, base: Seq<char>) -> Seq<SwapPathV> {
    one_hop_paths(all, all, base) + two_hop_paths(all, all, base)
}

/// What a well-formed swap path anchored at `base` is: at least two
/// legs, the first leg starts at base and the last returns to it, each
/// leg continues the previous leg's output token, no pool address
/// repeats, the hop count is one less than the leg count, and the id
/// list mirrors the legs.
pub open spec fn path_wf(p: SwapPathV, base: Seq<char>) -> bool {
    &&& p.paths.len() >= 2
    &&& p.paths[0].token_in@ == base
    &&& p.paths[p.paths.len() - 1].token_out@ == base
    &&& forall|i: int| 0 <= i < p.paths.len() - 1 ==> p.paths[i].token_out@ == p.paths[i
        + 1].token_in@
    &&& forall|i: int, j: int| 0 <= i < j < p.paths.len() ==> p.paths[i].pool_address@
        != p.paths[j].pool_address@
    &&& p.hops == p.paths.len() - 1
    &&& p.id_paths == p.paths.map_values(|r: Route| r.id)
}

proof fn lemma_mk_path1_wf(r1: Route, r2: Route, base: Seq<char>)
    requires
        r1.token_in@ == base,
        one_hop_ok(r1, r2, base),
    ensures
        path_wf(mk_path1(r1, r2), base),
{
    let p = mk_path1(r1, r2);
    assert(p.id_paths =~= p.paths.map_values(|r: Route| r.id));
}

proof fn lemma_mk_path2_wf(r1: Route, r2: Route, r3: Route, base: Seq<char>)
    requires
        r1.token_in@ == base,
        mid_hop_ok(r1, r2, base),
        last_hop_ok(r1, r2, r3, base),
    ensures
        path_wf(mk_path2(r1, r2, r3), base),
{
    let p = mk_path2(r1, r2, r3);
    assert(p.id_paths =~= p.paths.map_values(|r: Route| r.id));
}

proof fn lemma_one_hop_with_wf(r1: Route, cand: Seq<Route>, base: Seq<char>)
    requires
        r1.token_in@ == base,
    ensures
        forall|k: int| 0 <= k < one_hop_with(r1, cand, base).len() ==> path_wf(
            #[trigger] one_hop_with(r1, cand, base)[k],
            base,
        ),
    decreases cand.len(),
{
    if cand.len() == 0 {
    } else {
        lemma_one_hop_with_wf(r1, cand.drop_last(), base);
        let cur = one_hop_with(r1, cand, base);
        let prev = one_hop_with(r1, cand.drop_last(), base);
        if one_hop_ok(r1, cand.last(), base) {
            lemma_mk_path1_wf(r1, cand.last(), base);
        }
        assert forall|k: int| 0 <= k < cur.len() implies path_wf(cur[k], base) by {
            if k < prev.len() {
                assert(cur[k] == prev[k]);
            }
        }
    }
}

proof fn lemma_one_hop_paths_wf(prefix: Seq<Route>, all: Seq<Route>, base: Seq<char>)
    ensures
        forall|k: int| 0 <= k < one_hop_paths(prefix, all, base).len() ==> path_wf(
            #[trigger] one_hop_paths(prefix, all, base)[k],
            base,
        ),
    decreases prefix.len(),
{
    if prefix.len() == 0 {
    } else {
        lemma_one_hop_paths_wf(prefix.drop_last(), all, base);
        let cur = one_hop_paths(prefix, all, base);
        let prev = one_hop_paths(prefix.drop_last(), all, base);
        if prefix.last().token_in@ == base {
            lemma_one_hop_with_wf(prefix.last(), all, base);
            let rest = one_hop_with(prefix.last(), all, base);
            assert forall|k: int| 0 <= k < cur.len() implies path_wf(cur[k], base) by {
                if k < prev.len() {
                    assert(cur[k] == prev[k]);
                } else {
                    assert(cur[k] == rest[k - prev.len()]);
                }
            }
        }
    }
}

proof fn lemma_two_hop_with2_wf(r1: Route, r2: Route, cand: Seq<Route>, base: Seq<char>)
    requires
        r1.token_in@ == base,
        mid_hop_ok(r1, r2, base),
    ensures
        forall|k: int| 0 <= k < two_hop_with2(r1, r2, cand, base).len() ==> path_wf(
            #[trigger] two_hop_with2(r1, r2, cand, base)[k],
            base,
        ),
    decreases cand.len(),
{
    if cand.len() == 0 {
    } else {
        lemma_two_hop_with2_wf(r1, r2, cand.drop_last(), base);
        let cur = two_hop_with2(r1, r2, cand, base);
        let prev = two_hop_with2(r1, r2, cand.drop_last(), base);
        if last_hop_ok(r1, r2, cand.last(), base) {
            lemma_mk_path2_wf(r1, r2, cand.last(), base);
        }
        assert forall|k: int| 0 <= k < cur.len() implies path_wf(cur[k], base) by {
            if k < prev.len() {
                assert(cur[k] == prev[k]);
            }
        }
    }
}

proof fn lemma_two_hop_with1_wf(r1: Route, cand: Seq<Route>, all: Seq<Route>, base: Seq<char>)
    requires
        r1.token_in@ == base,
    ensures
        forall|k: int| 0 <= k < two_hop_with1(r1, cand, all, base).len() ==> path_wf(
            #[trigger] two_hop_with1(r1, cand, all, base)[k],
            base,
        ),
    decreases cand.len(),
{
    if cand.len() == 0 {
    } else {
        lemma_two_hop_with1_wf(r1, cand.drop_last(), all, base);
        let cur = two_hop_with1(r1, cand, all, base);
        let prev = two_hop_with1(r1, cand.drop_last(), all, base);
        if mid_hop_ok(r1, cand.last(), base) {
            lemma_two_hop_with2_wf(r1, cand.last(), all, base);
            let rest = two_hop_with2(r1, cand.last(), all, base);
            assert forall|k: int| 0 <= k < cur.len() implies path_wf(cur[k], base) by {
                if k < prev.len() {
                    assert(cur[k] == prev[k]);
                } else {
                    assert(cur[k] == rest[k - prev.len()]);
                }
            }
        }
    }
}

proof fn lemma_two_hop_paths_wf(prefix: Seq<Route>, all: Seq<Route>, base: Seq<char>)
    ensures
        forall|k: int| 0 <= k < two_hop_paths(prefix, all, base).len() ==> path_wf(
            #[trigger] two_hop_paths(prefix, all, base)[k],
            base,
        ),
    decreases prefix.len(),
{
    if prefix.len() == 0 {
    } else {
        lemma_two_hop_paths_wf(prefix.drop_last(), all, base);
        let cur = two_hop_paths(prefix, all, base);
        let prev = two_hop_paths(prefix.drop_last(), all, base);
        if prefix.last().token_in@ == base {
            lemma_two_hop_with1_wf(prefix.last(), all, all, base);
            let rest = two_hop_with1(prefix.last(), all, all, base);
            assert forall|k: int| 0 <= k < cur.len() implies path_wf(cur[k], base) by {
                if k < prev.len() {
                    assert(cur[k] == prev[k]);
                } else {
                    assert(cur[k] == rest[k - prev.len()]);
                }
            }
        }
    }
}

/// Every generated path is well formed: it starts and ends at the base
/// token, each leg continues the previous one, no pool repeats within
/// it, its hop count is its leg count minus one, and its id list
/// mirrors its legs.
pub proof fn lemma_swap_paths_wf(all: Seq<Route>, base: Seq<char>)
    ensures
        forall|k: int| 0 <= k < paths_spec(all, base).len() ==> path_wf(
            #[trigger] paths_spec(all, base)[k],
            base,
        ),
{
    lemma_one_hop_paths_wf(all, all, base);
    lemma_two_hop_paths_wf(all, all, base);
}

proof fn lemma_contains_concat_left<T>(s: Seq<T>, t: Seq<T>, x: T)
    requires
        s.contains(x),
    ensures
        (s + t).contains(x),
{
    let i = choose|i: int| 0 <= i < s.len() && s[i] == x;
    assert((s + t)[i] == x);
}

proof fn lemma_contains_concat_right<T>(s: Seq<T>, t: Seq<T>, x: T)
    requires
        t.contains(x),
    ensures
        (s + t).contains(x),
{
    let i = choose|i: int| 0 <= i < t.len() && t[i] == x;
    assert((s + t)[s.len() + i] == x);
}

proof fn lemma_one_hop_with_complete(r1: Route, cand: Seq<Route>, base: Seq<char>, j: int)
    requires
        0 <= j < cand.len(),
        one_hop_ok(r1, cand[j], base),
    ensures
        one_hop_with(r1, cand, base).contains(mk_path1(r1, cand[j])),
    decreases cand.len(),
{
    let cur = one_hop_with(r1, cand, base);
    let prev = one_hop_with(r1, cand.drop_last(), base);
    if j == cand.len() - 1 {
        assert(cand.last() == cand[j]);
        assert(cur[cur.len() - 1] == mk_path1(r1, cand[j]));
    } else {
        assert(cand.drop_last()[j] == cand[j]);
        lemma_one_hop_with_complete(r1, cand.drop_last(), base, j);
        let i = choose|i: int| 0 <= i < prev.len() && prev[i] == mk_path1(r1, cand[j]);
        assert(cur[i] == mk_path1(r1, cand[j]));
    }
}

proof fn lemma_one_hop_paths_complete(
    prefix: Seq<Route>,
    all: Seq<Route>,
    base: Seq<char>,
    i: int,
    j: int,
)
    requires
        0 <= i < prefix.len(),
        0 <= j < all.len(),
        prefix[i].token_in@ == base,
        one_hop_ok(prefix[i], all[j], base),
    ensures
        one_hop_paths(prefix, all, base).contains(mk_path1(prefix[i], all[j])),
    decreases prefix.len(),
{
    let prev = one_hop_paths(prefix.drop_last(), all, base);
    if i == prefix.len() - 1 {
        assert(prefix.last() == prefix[i]);
        lemma_one_hop_with_complete(prefix[i], all, base, j);
        lemma_contains_concat_right(prev, one_hop_with(prefix[i], all, base), mk_path1(
            prefix[i],
            all[j],
        ));
    } else {
        assert(prefix.drop_last()[i] == prefix[i]);
        lemma_one_hop_paths_complete(prefix.drop_last(), all, base, i, j);
        if prefix.last().token_in@ == base {
            lemma_contains_concat_left(prev, one_hop_with(prefix.last(), all, base), mk_path1(
                prefix[i],
                all[j],
            ));
        }
    }
}

/// Completeness of the 1-hop search: for any routes `all[i]` and
/// `all[j]` such that `all[i]` leaves the base token and `all[j]`
/// closes the cycle on another pool, the path through them is among the
/// generated paths.
pub proof fn lemma_one_hop_path_found(all: Seq<Route>, base: Seq<char>, i: int, j: int)
    requires
        0 <= i < all.len(),
        0 <= j < all.len(),
        all[i].token_in@ == base,
        one_hop_ok(all[i], all[j], base),
    ensures
        paths_spec(all, base).contains(mk_path1(all[i], all[j])),
{
    lemma_one_hop_paths_complete(all, all, base, i, j);
    lemma_contains_concat_left(
        one_hop_paths(all, all, base),
        two_hop_paths(all, all, base),
        mk_path1(all[i], all[j]),
    );
}

proof fn lemma_two_hop_with2_complete(
    r1: Route,
    r2: Route,
    cand: Seq<Route>,
    base: Seq<char>,
    k: int,
)
    requires
        0 <= k < cand.len(),
        last_hop_ok(r1, r2, cand[k], base),
    ensures
        two_hop_with2(r1, r2, cand, base).contains(mk_path2(r1, r2, cand[k])),
    decreases cand.len(),
{
    let cur = two_hop_with2(r1, r2, cand, base);
    let prev = two_hop_with2(r1, r2, cand.drop_last(), base);
    if k == cand.len() - 1 {
        assert(cand.last() == cand[k]);
        assert(cur[cur.len() - 1] == mk_path2(r1, r2, cand[k]));
    } else {
        assert(cand.drop_last()[k] == cand[k]);
        lemma_two_hop_with2_complete(r1, r2, cand.drop_last(), base, k);
        let i = choose|i: int| 0 <= i < prev.len() && prev[i] == mk_path2(r1, r2, cand[k]);
        assert(cur[i] == mk_path2(r1, r2, cand[k]));
    }
}

proof fn lemma_two_hop_with1_complete(
    r1: Route,
    cand: Seq<Route>,
    all: Seq<Route>,
    base: Seq<char>,
    j: int,
    k: int,
)
    requires
        0 <= j < cand.len(),
        0 <= k < all.len(),
        mid_hop_ok(r1, cand[j], base),
        last_hop_ok(r1, cand[j], all[k], base),
    ensures
        two_hop_with1(r1, cand, all, base).contains(mk_path2(r1, cand[j], all[k])),
    decreases cand.len(),
{
    let prev = two_hop_with1(r1, cand.drop_last(), all, base);
    if j == cand.len() - 1 {
        assert(cand.last() == cand[j]);
        lemma_two_hop_with2_complete(r1, cand[j], all, base, k);
        lemma_contains_concat_right(prev, two_hop_with2(r1, cand[j], all, base), mk_path2(
            r1,
            cand[j],
            all[k],
        ));
    } else {
        assert(cand.drop_last()[j] == cand[j]);
        lemma_two_hop_with1_complete(r1, cand.drop_last(), all, base, j, k);
        if mid_hop_ok(r1, cand.last(), base) {
            lemma_contains_concat_left(prev, two_hop_with2(r1, cand.last(), all, base), mk_path2(
                r1,
                cand[j],
                all[k],
            ));
        }
    }
}

proof fn lemma_two_hop_paths_complete(
    prefix: Seq<Route>,
    all: Seq<Route>,
    base: Seq<char>,
    i: int,
    j: int,
    k: int,
)
    requires
        0 <= i < prefix.len(),
        0 <= j < all.len(),
        0 <= k < all.len(),
        prefix[i].token_in@ == base,
        mid_hop_ok(prefix[i], all[j], base),
        last_hop_ok(prefix[i], all[j], all[k], base),
    ensures
        two_hop_paths(prefix, all, base).contains(mk_path2(prefix[i], all[j], all[k])),
    decreases prefix.len(),
{
    let prev = two_hop_paths(prefix.drop_last(), all, base);
    if i == prefix.len() - 1 {
        assert(prefix.last() == prefix[i]);
        lemma_two_hop_with1_complete(prefix[i], all, all, base, j, k);
        lemma_contains_concat_right(prev, two_hop_with1(prefix[i], all, all, base), mk_path2(
            prefix[i],
            all[j],
            all[k],
        ));
    } else {
        assert(prefix.drop_last()[i] == prefix[i]);
        lemma_two_hop_paths_complete(prefix.drop_last(), all, base, i, j, k);
        if prefix.last().token_in@ == base {
            lemma_contains_concat_left(prev, two_hop_with1(prefix.last(), all, all, base), mk_path2(
                prefix[i],
                all[j],
                all[k],
            ));
        }
    }
}

/// Completeness of the 2-hop search: for any routes `all[i]`, `all[j]`
/// and `all[k]` that leave the base token, continue on a second pool
/// without returning, and close the cycle on a third pool, the path
/// through them is among the generated paths.
pub proof fn lemma_two_hop_path_found(all: Seq<Route>, base: Seq<char>, i: int, j: int, k: int)
    requires
        0 <= i < all.len(),
        0 <= j < all.len(),
        0 <= k < all.len(),
        all[i].token_in@ == base,
        mid_hop_ok(all[i], all[j], base),
        last_hop_ok(all[i], all[j], all[k], base),
    ensures
        paths_spec(all, base).contains(mk_path2(all[i], all[j], all[k])),
{
    lemma_two_hop_paths_complete(all, all, base, i, j, k);
    lemma_contains_concat_right(
        one_hop_paths(all, all, base),
        two_hop_paths(all, all, base),
        mk_path2(all[i], all[j], all[k]),
    );
}

/// Build the swap path holding the given legs, in order.
fn build_path(hops: usize, legs: Vec<Route>) -> (r: SwapPath)
    ensures
        r@.hops == hops,
        r@.paths == legs@,
        r@.id_paths == legs@.map_values(|x: Route| x.id),
{
    let mut ids: Vec<u32> = Vec::new();
    let n = legs.len();
    let mut i: usize = 0;
    while i < n
        invariant
            n == legs@.len(),
            0 <= i <= n,
            ids@ == legs@.take(i as int).map_values(|x: Route| x.id),
        decreases n - i,
    {
        ids.push(legs[i].id);
        proof {
            assert(ids@ =~= legs@.take(i + 1).map_values(|x: Route| x.id));
        }
        i = i + 1;
    }
    proof {
        assert(legs@.take(n as int) =~= legs@);
    }
    SwapPath { hops, paths: legs, id_paths: ids }
}

/// Enumerate every 1-hop and 2-hop cycle over the routes, anchored at
/// the first token of the universe; with an empty universe no base
/// token exists and the stage aborts with `EmptyTokenUniverse`.
pub fn generate_swap_paths(all_routes: Vec<Route>, tokens: Vec<TokenInArb>) -> (r: Result<
    Vec<SwapPath>,
    ArbError,
>)
    ensures
        match r {
            Result::Ok(ps) => tokens@.len() > 0 && views_of_paths(ps@) == paths_spec(
                all_routes@,
                tokens@[0].address@,
            ),
            Result::Err(e) => tokens@.len() == 0 && e == ArbError::EmptyTokenUniverse,
        },
{
    if tokens.is_empty() {
        return Err(ArbError::EmptyTokenUniverse);
    }
    let ghost all = all_routes@;
    let ghost base = tokens@[0].address@;
    let mut out: Vec<SwapPath> = Vec::new();
    let n = all_routes.len();

    // 1-hop cycles: base -> token -> base.
    let mut i: usize = 0;
    proof {
        assert(all.take(0) =~= Seq::<Route>::empty());
    }
    while i < n
        invariant
            n == all.len(),
            all == all_routes@,
            tokens@.len() > 0,
            base == tokens@[0].address@,
            0 <= i <= n,
            views_of_paths(out@) == one_hop_paths(all.take(i as int), all, base),
        decreases n - i,
    {
        if all_routes[i].token_in == tokens[0].address {
            let mut j: usize = 0;
            proof {
                assert(all.take(0) =~= Seq::<Route>::empty());
            }
            while j < n
                invariant
                    n == all.len(),
                    all == all_routes@,
                    tokens@.len() > 0,
                    base == tokens@[0].address@,
                    0 <= i < n,
                    0 <= j <= n,
                    all[i as int].token_in@ == base,
                    views_of_paths(out@) == one_hop_paths(all.take(i as int), all, base)
                        + one_hop_with(all[i as int], all.take(j as int), base),
                decreases n - j,
            {
                let close = all_routes[j].token_out == tokens[0].address && all_routes[i].token_out
                    == all_routes[j].token_in && !(all_routes[i].pool_address
                    == all_routes[j].pool_address);
                proof {
                    assert(all.take(j + 1).drop_last() =~= all.take(j as int));
                    assert(all.take(j + 1).last() == all[j as int]);
                }
                if close {
                    let mut legs: Vec<Route> = Vec::new();
                    legs.push(all_routes[i].clone());
                    legs.push(all_routes[j].clone());
                    let sp = build_path(1, legs);
                    proof {
                        assert(sp@.paths =~= seq![all[i as int], all[j as int]]);
                        assert(sp@.id_paths =~= seq![all[i as int].id, all[j as int].id]);
                        assert(sp@ == mk_path1(all[i as int], all[j as int]));
                        lemma_views_of_paths_push(out@, sp);
                        assert(views_of_paths(out@).push(sp@) =~= one_hop_paths(
                            all.take(i as int),
                            all,
                            base,
                        ) + one_hop_with(all[i as int], all.take(j as int), base).push(sp@));
                    }
                    out.push(sp);
                }
                j = j + 1;
            }
            proof {
                assert(all.take(n as int) =~= all);
            }
        }
        proof {
            assert(all.take(i + 1).drop_last() =~= all.take(i as int));
            assert(all.take(i + 1).last() == all[i as int]);
        }
        i = i + 1;
    }
    proof {
        assert(all.take(n as int) =~= all);
    }
    let ghost oh = one_hop_paths(all, all, base);

    // 2-hop cycles: base -> token1 -> token2 -> base.
    let mut i: usize = 0;
    proof {
        assert(all.take(0) =~= Seq::<Route>::empty());
        assert(oh + two_hop_paths(all.take(0), all, base) =~= oh);
    }
    while i < n
        invariant
            n == all.len(),
            all == all_routes@,
            tokens@.len() > 0,
            base == tokens@[0].address@,
            oh == one_hop_paths(all, all, base),
            0 <= i <= n,
            views_of_paths(out@) == oh + two_hop_paths(all.take(i as int), all, base),
        decreases n - i,
    {
        if all_routes[i].token_in == tokens[0].address {
            let mut j: usize = 0;
            proof {
                assert(all.take(0) =~= Seq::<Route>::empty());
                assert(oh + two_hop_paths(all.take(i as int), all, base) + two_hop_with1(
                    all[i as int],
                    all.take(0),
                    all,
                    base,
                ) =~= oh + two_hop_paths(all.take(i as int), all, base));
            }
            while j < n
                invariant
                    n == all.len(),
                    all == all_routes@,
                    tokens@.len() > 0,
                    base == tokens@[0].address@,
                    oh == one_hop_paths(all, all, base),
                    0 <= i < n,
                    0 <= j <= n,
                    all[i as int].token_in@ == base,
                    views_of_paths(out@) == oh + two_hop_paths(all.take(i as int), all, base)
                        + two_hop_with1(all[i as int], all.take(j as int), all, base),
                decreases n - j,
            {
                proof {
                    assert(all.take(j + 1).drop_last() =~= all.take(j as int));
                    assert(all.take(j + 1).last() == all[j as int]);
                }
                let continues = all_routes[j].token_in == all_routes[i].token_out
                    && !(all_routes[i].pool_address == all_routes[j].pool_address) && !(
                all_routes[j].token_out == tokens[0].address);
                if continues {
                    let mut k: usize = 0;
                    proof {
                        assert(all.take(0) =~= Seq::<Route>::empty());
                        assert(oh + two_hop_paths(all.take(i as int), all, base) + two_hop_with1(
                            all[i as int],
                            all.take(j as int),
                            all,
                            base,
                        ) + two_hop_with2(all[i as int], all[j as int], all.take(0), base) =~= oh
                            + two_hop_paths(all.take(i as int), all, base) + two_hop_with1(
                            all[i as int],
                            all.take(j as int),
                            all,
                            base,
                        ));
                    }
                    while k < n
                        invariant
                            n == all.len(),
                            all == all_routes@,
                            tokens@.len() > 0,
                            base == tokens@[0].address@,
                            oh == one_hop_paths(all, all, base),
                            0 <= i < n,
                            0 <= j < n,
                            0 <= k <= n,
                            all[i as int].token_in@ == base,
                            mid_hop_ok(all[i as int], all[j as int], base),
                            views_of_paths(out@) == oh + two_hop_paths(all.take(i as int), all, base)
                                + two_hop_with1(all[i as int], all.take(j as int), all, base)
                                + two_hop_with2(all[i as int], all[j as int], all.take(k as int), base),
                        decreases n - k,
                    {
                        proof {
                            assert(all.take(k + 1).drop_last() =~= all.take(k as int));
                            assert(all.take(k + 1).last() == all[k as int]);
                        }
                        let closes = all_routes[k].token_in == all_routes[j].token_out && !(
                        all_routes[j].pool_address == all_routes[k].pool_address) && !(
                        all_routes[i].pool_address == all_routes[k].pool_address)
                            && all_routes[k].token_out == tokens[0].address;
                        if closes {
                            let mut legs: Vec<Route> = Vec::new();
                            legs.push(all_routes[i].clone());
                            legs.push(all_routes[j].clone());
                            legs.push(all_routes[k].clone());
                            let sp = build_path(2, legs);
                            proof {
                                assert(sp@.paths =~= seq![
                                    all[i as int],
                                    all[j as int],
                                    all[k as int],
                                ]);
                                assert(sp@.id_paths =~= seq![
                                    all[i as int].id,
                                    all[j as int].id,
                                    all[k as int].id,
                                ]);
                                assert(sp@ == mk_path2(all[i as int], all[j as int], all[k as int]));
                                lemma_views_of_paths_push(out@, sp);
                                assert(views_of_paths(out@).push(sp@) =~= oh + two_hop_paths(
                                    all.take(i as int),
                                    all,
                                    base,
                                ) + two_hop_with1(all[i as int], all.take(j as int), all, base)
                                    + two_hop_with2(
                                    all[i as int],
                                    all[j as int],
                                    all.take(k as int),
                                    base,
                                ).push(sp@));
                            }
                            out.push(sp);
                        }
                        k = k + 1;
                    }
                    proof {
                        assert(all.take(n as int) =~= all);
                        assert(oh + two_hop_paths(all.take(i as int), all, base) + (two_hop_with1(
                            all[i as int],
                            all.take(j as int),
                            all,
                            base,
                        ) + two_hop_with2(all[i as int], all[j as int], all, base)) =~= oh
                            + two_hop_paths(all.take(i as int), all, base) + two_hop_with1(
                            all[i as int],
                            all.take(j as int),
                            all,
                            base,
                        ) + two_hop_with2(all[i as int], all[j as int], all, base));
                    }
                }
                j = j + 1;
            }
            proof {
                assert(all.take(n as int) =~= all);
            }
        }
        proof {
            assert(all.take(i + 1).drop_last() =~= all.take(i as int));
            assert(all.take(i + 1).last() == all[i as int]);
            if all[i as int].token_in@ == base {
                assert(oh + (two_hop_paths(all.take(i as int), all, base) + two_hop_with1(
                    all[i as int],
                    all,
                    all,
                    base,
                )) =~= oh + two_hop_paths(all.take(i as int), all, base) + two_hop_with1(
                    all[i as int],
                    all,
                    all,
                    base,
                ));
            }
        }
        i = i + 1;
    }
    proof {
        assert(all.take(n as int) =~= all);
    }
    Ok(out)
}

} // verus!
