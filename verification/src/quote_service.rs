//! Planning a quote: the pools that the selected candidate routes pass through.

use vstd::prelude::*;
use crate::pool::{Pool, PoolId, PubkeyBytes, same_pool};

verus! {

/// One hop of a candidate route: the pool, by id, and the mints it swaps.
#[derive(Debug, Clone, Copy)]
pub struct RouteStep {
    pub pool_id: PoolId,
    pub input_mint: PubkeyBytes,
    pub output_mint: PubkeyBytes,
}

/// Whether some step of some route goes through pool `id`.
pub open spec fn routes_use(routes: Seq<Vec<RouteStep>>, id: PoolId) -> bool {
    exists|i: int, j: int| 0 <= i < routes.len() && 0 <= j < routes[i]@.len() && #[trigger] routes[i]@[j].pool_id == id
}

/// Whether `k` is the last index of `pools` holding a pool with id `id`.
pub open spec fn last_with_id(pools: Seq<Pool>, id: PoolId, k: int) -> bool {
    &&& 0 <= k < pools.len()
    &&& pools[k].metadata.id == id
    &&& forall|m: int| k < m < pools.len() ==> #[trigger] pools[m].metadata.id != id
}

/// Whether some pool of `pools` has id `id`.
pub open spec fn has_pool_id(pools: Seq<Pool>, id: PoolId) -> bool {
    exists|k: int| 0 <= k < pools.len() && #[trigger] pools[k].metadata.id == id
}

/// Index of the last pool with id `id`, if any.
fn find_last_with_id(pools: &[Pool], id: PoolId) -> (r: Option<usize>)
    ensures
        match r {
            Some(k) => last_with_id(pools@, id, k as int),
            None => !has_pool_id(pools@, id),
        },
{
    let mut k: usize = pools.len();
    while k > 0
        invariant
            k <= pools@.len(),
            forall|m: int| k <= m < pools@.len() ==> #[trigger] pools@[m].metadata.id != id,
        decreases k,
    {
        if pools[k - 1].metadata.id == id {
            return Some(k - 1);
        }
        k = k - 1;
    }
    None
}

/// The distinct pool ids that `routes` go through, in increasing order.
fn used_pool_ids(routes: &[Vec<RouteStep>]) -> (r: Vec<PoolId>)
    ensures
        forall|a: int, b: int| 0 <= a < b < r@.len() ==> #[trigger] r@[a] < #[trigger] r@[b],
        forall|id: PoolId| r@.contains(id) <==> routes_use(routes@, id),
{
    let mut ids: Vec<PoolId> = Vec::new();
    let mut i: usize = 0;
    while i < routes.len()
        invariant
            i <= routes@.len(),
            forall|a: int, b: int| 0 <= a < b < ids@.len() ==> #[trigger] ids@[a] < #[trigger] ids@[b],
            forall|id: PoolId| ids@.contains(id) <==> exists|x: int, y: int|
                0 <= x < i && 0 <= y < routes@[x]@.len() && #[trigger] routes@[x]@[y].pool_id == id,
        decreases routes@.len() - i,
    {
        let route = &routes[i];
        let mut j: usize = 0;
        while j < route.len()
            invariant
                i < routes@.len(),
                route@ == routes@[i as int]@,
                j <= route@.len(),
                forall|a: int, b: int| 0 <= a < b < ids@.len() ==> #[trigger] ids@[a] < #[trigger] ids@[b],
                forall|id: PoolId| ids@.contains(id) <==> (exists|x: int, y: int|
                    0 <= x < i && 0 <= y < routes@[x]@.len() && #[trigger] routes@[x]@[y].pool_id == id)
                    || (exists|y: int| 0 <= y < j && #[trigger] route@[y].pool_id == id),
            decreases route@.len() - j,
        {
            let id = route[j].pool_id;
            let mut pos: usize = 0;
            while pos < ids.len() && ids[pos] < id
                invariant
                    pos <= ids@.len(),
                    forall|m: int| 0 <= m < pos ==> #[trigger] ids@[m] < id,
                decreases ids@.len() - pos,
            {
                pos = pos + 1;
            }
            let ghost before = ids@;
            if pos == ids.len() || ids[pos] != id {
                ids.insert(pos, id);
                proof {
                    assert forall|a: int, b: int| 0 <= a < b < ids@.len() implies #[trigger] ids@[a] < #[trigger] ids@[b] by {
                        if b < pos {
                            assert(ids@[a] == before[a] && ids@[b] == before[b]);
                        } else if b == pos {
                            assert(ids@[a] == before[a]);
                        } else if a == pos {
                            assert(ids@[b] == before[b - 1]);
                            assert(before[pos as int] > id);
                            if b - 1 > pos {
                                assert(before[pos as int] < before[b - 1]);
                            }
                        } else if a < pos {
                            assert(ids@[a] == before[a] && ids@[b] == before[b - 1]);
                            if b - 1 >= pos {
                                assert(before[pos as int] > id);
                                if b - 1 > pos {
                                    assert(before[pos as int] < before[b - 1]);
                                }
                            }
                        } else {
                            assert(ids@[a] == before[a - 1] && ids@[b] == before[b - 1]);
                        }
                    }
                }
            }
            proof {
                assert forall|x: PoolId| ids@.contains(x) <==> (exists|p: int, q: int|
                    0 <= p < i && 0 <= q < routes@[p]@.len() && #[trigger] routes@[p]@[q].pool_id == x)
                    || (exists|q: int| 0 <= q < j + 1 && #[trigger] route@[q].pool_id == x) by {
                    if ids@.contains(x) {
                        let m = choose|m: int| 0 <= m < ids@.len() && ids@[m] == x;
                        if x != id {
                            if m < pos {
                                assert(before[m] == ids@[m]);
                            } else if ids@.len() > before.len() {
                                assert(before[m - 1] == ids@[m]);
                            } else {
                                assert(before[m] == ids@[m]);
                            }
                            assert(before.contains(x));
                        } else {
                            assert(route@[j as int].pool_id == x);
                        }
                    }
                    if x == id {
                        if ids@.len() > before.len() {
                            assert(ids@[pos as int] == id);
                        } else {
                            assert(ids@[pos as int] == id);
                        }
                    } else if (exists|p: int, q: int|
                        0 <= p < i && 0 <= q < routes@[p]@.len() && #[trigger] routes@[p]@[q].pool_id == x)
                        || (exists|q: int| 0 <= q < j + 1 && #[trigger] route@[q].pool_id == x) {
                        if exists|q: int| 0 <= q < j + 1 && #[trigger] route@[q].pool_id == x {
                            let q = choose|q: int| 0 <= q < j + 1 && #[trigger] route@[q].pool_id == x;
                            assert(q < j);
                        }
                        assert(before.contains(x));
                        let m = choose|m: int| 0 <= m < before.len() && before[m] == x;
                        if ids@.len() > before.len() {
                            if m < pos {
                                assert(ids@[m] == before[m]);
                            } else {
                                assert(ids@[m + 1] == before[m]);
                            }
                        } else {
                            assert(ids@[m] == before[m]);
                        }
                    }
                }
            }
            j = j + 1;
        }
        proof {
            assert forall|x: PoolId| ids@.contains(x) <==> exists|p: int, q: int|
                0 <= p < i + 1 && 0 <= q < routes@[p]@.len() && #[trigger] routes@[p]@[q].pool_id == x by {
                if exists|q: int| 0 <= q < route@.len() && #[trigger] route@[q].pool_id == x {
                    let q = choose|q: int| 0 <= q < route@.len() && #[trigger] route@[q].pool_id == x;
                    assert(routes@[i as int]@[q].pool_id == x);
                }
                if exists|p: int, q: int| 0 <= p < i + 1 && 0 <= q < routes@[p]@.len() && #[trigger] routes@[p]@[q].pool_id == x {
                    let (p, q) = choose|p: int, q: int| 0 <= p < i + 1 && 0 <= q < routes@[p]@.len()
                        && #[trigger] routes@[p]@[q].pool_id == x;
                    if p == i {
                        assert(route@[q].pool_id == x);
                    }
                }
            }
        }
        i = i + 1;
    }
    ids
}

/// The pools that the candidate routes (given by their steps) go through,
/// each once, by increasing id; of pools sharing an id, the last one.
pub fn candidate_pool_subset(pools: &[Pool], routes: &[Vec<RouteStep>]) -> (r: Vec<Pool>)
    ensures
        forall|a: int, b: int| 0 <= a < b < r@.len() ==>
            (#[trigger] r@[a]).metadata.id < (#[trigger] r@[b]).metadata.id,
        forall|j: int| 0 <= j < r@.len() ==> routes_use(routes@, (#[trigger] r@[j]).metadata.id)
            && exists|k: int| last_with_id(pools@, r@[j].metadata.id, k) && same_pool(r@[j], pools@[k]),
        forall|id: PoolId| routes_use(routes@, id) && has_pool_id(pools@, id)
            ==> exists|j: int| 0 <= j < r@.len() && (#[trigger] r@[j]).metadata.id == id,
{
    let ids = used_pool_ids(routes);
    let mut out: Vec<Pool> = Vec::new();
    let mut i: usize = 0;
    while i < ids.len()
        invariant
            i <= ids@.len(),
            forall|a: int, b: int| 0 <= a < b < ids@.len() ==> #[trigger] ids@[a] < #[trigger] ids@[b],
            forall|id: PoolId| ids@.contains(id) <==> routes_use(routes@, id),
            forall|j: int| 0 <= j < out@.len() ==> exists|m: int| 0 <= m < i && (#[trigger] out@[j]).metadata.id == ids@[m],
            forall|a: int, b: int| 0 <= a < b < out@.len() ==>
                (#[trigger] out@[a]).metadata.id < (#[trigger] out@[b]).metadata.id,
            forall|j: int| 0 <= j < out@.len() ==> routes_use(routes@, (#[trigger] out@[j]).metadata.id)
                && exists|k: int| last_with_id(pools@, out@[j].metadata.id, k) && same_pool(out@[j], pools@[k]),
            forall|m: int| 0 <= m < i && has_pool_id(pools@, #[trigger] ids@[m])
                ==> exists|j: int| 0 <= j < out@.len() && (#[trigger] out@[j]).metadata.id == ids@[m],
        decreases ids@.len() - i,
    {
        let id = ids[i];
        proof {
            assert(ids@.contains(id));
        }
        match find_last_with_id(pools, id) {
            Some(k) => {
                let ghost before = out@;
                let p = pools[k].duplicate();
                out.push(p);
                proof {
                    assert(out@[before.len() as int] == p);
                    assert forall|j: int| 0 <= j < out@.len() implies exists|m: int| 0 <= m < i + 1
                        && (#[trigger] out@[j]).metadata.id == ids@[m] by {
                        if j < before.len() {
                            assert(out@[j] == before[j]);
                        } else {
                            assert(out@[j].metadata.id == ids@[i as int]);
                        }
                    }
                    assert forall|a: int, b: int| 0 <= a < b < out@.len() implies
                        (#[trigger] out@[a]).metadata.id < (#[trigger] out@[b]).metadata.id by {
                        assert(out@[a] == before[a]);
                        if b < before.len() {
                            assert(out@[b] == before[b]);
                        } else {
                            let m = choose|m: int| 0 <= m < i && before[a].metadata.id == ids@[m];
                        }
                    }
                    assert forall|j: int| 0 <= j < out@.len() implies routes_use(routes@, (#[trigger] out@[j]).metadata.id)
                        && exists|k2: int| last_with_id(pools@, out@[j].metadata.id, k2) && same_pool(out@[j], pools@[k2]) by {
                        if j < before.len() {
                            assert(out@[j] == before[j]);
                        } else {
                            assert(last_with_id(pools@, id, k as int));
                        }
                    }
                    assert forall|m: int| 0 <= m < i + 1 && has_pool_id(pools@, #[trigger] ids@[m])
                        implies exists|j: int| 0 <= j < out@.len() && (#[trigger] out@[j]).metadata.id == ids@[m] by {
                        if m < i {
                            let j = choose|j: int| 0 <= j < before.len() && (#[trigger] before[j]).metadata.id == ids@[m];
                            assert(out@[j] == before[j]);
                        } else {
                            assert(out@[before.len() as int].metadata.id == ids@[m]);
                        }
                    }
                }
            },
            None => {},
        }
        i = i + 1;
    }
    proof {
        assert forall|x: PoolId| routes_use(routes@, x) && has_pool_id(pools@, x)
            implies exists|j: int| 0 <= j < out@.len() && (#[trigger] out@[j]).metadata.id == x by {
            assert(ids@.contains(x));
            let m = choose|m: int| 0 <= m < ids@.len() && ids@[m] == x;
            assert(has_pool_id(pools@, ids@[m]));
        }
    }
    out
}

} // verus!
