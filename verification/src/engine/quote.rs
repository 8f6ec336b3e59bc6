use vstd::prelude::*;

verus! {

/// The estimated result of sending `amount_in` along one route.
#[derive(Debug, Clone, Copy, PartialEq, Eq, Structural)]
pub struct RouteQuote {
    pub amount_in: u64,
    pub estimated_amount_out: u64,
    pub price_impact_bps: u64,
}

/// The route with the best estimated output, by its index among the
/// candidate routes.
#[derive(Debug, Clone, Copy, PartialEq, Eq, Structural)]
pub struct BestRouteQuote {
    pub best_route_index: usize,
    pub quote: RouteQuote,
}

/// Ranks candidate routes by the output estimated from pool metadata.
pub struct QuoteEngine;

/// Whether `b` is the choice among `quotes` (one optional quote per route):
/// a quoted route with the largest estimated output, the last such one when
/// several tie.
pub open spec fn is_best_quote(quotes: Seq<Option<RouteQuote>>, b: BestRouteQuote) -> bool {
    &&& b.best_route_index < quotes.len()
    &&& quotes[b.best_route_index as int] == Some(b.quote)
    &&& forall|j: int| 0 <= j < quotes.len() && #[trigger] quotes[j] is Some
        ==> quotes[j]->0.estimated_amount_out <= b.quote.estimated_amount_out
    &&& forall|j: int| b.best_route_index < j < quotes.len() && #[trigger] quotes[j] is Some
        ==> quotes[j]->0.estimated_amount_out < b.quote.estimated_amount_out
}

impl QuoteEngine {
    /// Picks, among the quotes of the candidate routes (`None` for a route
    /// that could not be quoted), the one with the largest estimated output;
    /// of equal outputs the last wins. `None` when no route was quoted.
    pub fn select_best(quotes: &[Option<RouteQuote>]) -> (r: Option<BestRouteQuote>)
        ensures
            r is None <==> forall|j: int| 0 <= j < quotes@.len() ==> #[trigger] quotes@[j] is None,
            r matches Some(b) ==> is_best_quote(quotes@, b),
    {
        let mut best: Option<BestRouteQuote> = None;
        let mut i: usize = 0;
        while i < quotes.len()
            invariant
                i <= quotes@.len(),
                best is None <==> forall|j: int| 0 <= j < i ==> #[trigger] quotes@[j] is None,
                best matches Some(b) ==> {
                    &&& b.best_route_index < i
                    &&& quotes@[b.best_route_index as int] == Some(b.quote)
                    &&& forall|j: int| 0 <= j < i && #[trigger] quotes@[j] is Some
                        ==> quotes@[j]->0.estimated_amount_out <= b.quote.estimated_amount_out
                    &&& forall|j: int| b.best_route_index < j < i && #[trigger] quotes@[j] is Some
                        ==> quotes@[j]->0.estimated_amount_out < b.quote.estimated_amount_out
                },
            decreases quotes@.len() - i,
        {
            if let Some(q) = quotes[i] {
                let take = match best {
                    None => true,
                    Some(b) => q.estimated_amount_out >= b.quote.estimated_amount_out,
                };
                if take {
                    best = Some(BestRouteQuote { best_route_index: i, quote: q });
                }
            }
            i = i + 1;
        }
        best
    }
}

/// Whether quoted route `a` is listed before quoted route `b`: the larger
/// estimated output first, then the smaller price impact, then fewer hops
/// (`hops[i]` being the hop count of route `i`), then the lower index.
pub open spec fn listed_before(quotes: Seq<Option<RouteQuote>>, hops: Seq<usize>, a: int, b: int) -> bool {
    let qa = quotes[a]->0;
    let qb = quotes[b]->0;
    ||| qa.estimated_amount_out > qb.estimated_amount_out
    ||| qa.estimated_amount_out == qb.estimated_amount_out && qa.price_impact_bps < qb.price_impact_bps
    ||| qa.estimated_amount_out == qb.estimated_amount_out && qa.price_impact_bps == qb.price_impact_bps
        && hops[a] < hops[b]
    ||| qa.estimated_amount_out == qb.estimated_amount_out && qa.price_impact_bps == qb.price_impact_bps
        && hops[a] == hops[b] && a < b
}

impl QuoteEngine {
    /// Whether quoted route `a` is listed before quoted route `b` (see `listed_before`).
    fn lists_before(quotes: &[Option<RouteQuote>], hops: &[usize], a: usize, b: usize) -> (r: bool)
        requires
            a < quotes@.len(),
            b < quotes@.len(),
            quotes@.len() == hops@.len(),
            quotes@[a as int] is Some,
            quotes@[b as int] is Some,
        ensures
            r == listed_before(quotes@, hops@, a as int, b as int),
    {
        let qa = match quotes[a] {
            Some(q) => q,
            None => return false,
        };
        let qb = match quotes[b] {
            Some(q) => q,
            None => return false,
        };
        if qa.estimated_amount_out != qb.estimated_amount_out {
            qa.estimated_amount_out > qb.estimated_amount_out
        } else if qa.price_impact_bps != qb.price_impact_bps {
            qa.price_impact_bps < qb.price_impact_bps
        } else if hops[a] != hops[b] {
            hops[a] < hops[b]
        } else {
            a < b
        }
    }

    /// The indices of the quoted routes (`quotes[i]` is `Some`), in listing
    /// order: the larger estimated output first, then the smaller price
    /// impact, then fewer hops, then the lower index.
    pub fn quoted_route_order(quotes: &[Option<RouteQuote>], hops: &[usize]) -> (r: Vec<usize>)
        requires
            quotes@.len() == hops@.len(),
        ensures
            forall|j: int| 0 <= j < quotes@.len() ==>
                (#[trigger] quotes@[j] is Some <==> r@.contains(j as usize)),
            forall|k: int| 0 <= k < r@.len() ==> #[trigger] r@[k] < quotes@.len(),
            forall|k: int, m: int| 0 <= k < m < r@.len() ==>
                listed_before(quotes@, hops@, #[trigger] r@[k] as int, #[trigger] r@[m] as int),
    {
        let mut order: Vec<usize> = Vec::new();
        let mut i: usize = 0;
        while i < quotes.len()
            invariant
                i <= quotes@.len(),
                quotes@.len() == hops@.len(),
                forall|j: int| 0 <= j < i ==> (#[trigger] quotes@[j] is Some <==> order@.contains(j as usize)),
                forall|k: int| 0 <= k < order@.len() ==> #[trigger] order@[k] < i && quotes@[order@[k] as int] is Some,
                forall|k: int, m: int| 0 <= k < m < order@.len() ==>
                    listed_before(quotes@, hops@, #[trigger] order@[k] as int, #[trigger] order@[m] as int),
            decreases quotes@.len() - i,
        {
            if quotes[i].is_some() {
                let mut pos: usize = 0;
                while pos < order.len() && !Self::lists_before(quotes, hops, i, order[pos])
                    invariant
                        pos <= order@.len(),
                        i < quotes@.len(),
                        quotes@.len() == hops@.len(),
                        quotes@[i as int] is Some,
                        forall|k: int| 0 <= k < order@.len() ==> #[trigger] order@[k] < i && quotes@[order@[k] as int] is Some,
                        forall|k: int| 0 <= k < pos ==> !listed_before(quotes@, hops@, i as int, #[trigger] order@[k] as int),
                    decreases order@.len() - pos,
                {
                    pos = pos + 1;
                }
                let ghost o0 = order@;
                order.insert(pos, i);
                proof {
                    assert(order@ =~= o0.subrange(0, pos as int).push(i) + o0.subrange(pos as int, o0.len() as int));
                    assert forall|k: int| 0 <= k < order@.len() implies
                        #[trigger] order@[k] < i + 1 && quotes@[order@[k] as int] is Some by {
                        if k < pos {
                            assert(order@[k] == o0[k]);
                        } else if k > pos {
                            assert(order@[k] == o0[k - 1]);
                        }
                    }
                    assert forall|k: int, m: int| 0 <= k < m < order@.len() implies
                        listed_before(quotes@, hops@, #[trigger] order@[k] as int, #[trigger] order@[m] as int) by {
                        if k < pos && m < pos {
                            assert(order@[k] == o0[k] && order@[m] == o0[m]);
                        } else if k < pos && m == pos {
                            assert(order@[k] == o0[k]);
                            assert(!listed_before(quotes@, hops@, i as int, o0[k] as int));
                        } else if k < pos && m > pos {
                            assert(order@[k] == o0[k] && order@[m] == o0[m - 1]);
                        } else if k == pos {
                            assert(order@[m] == o0[m - 1]);
                            assert(listed_before(quotes@, hops@, i as int, o0[pos as int] as int));
                            if m - 1 > pos {
                                assert(listed_before(quotes@, hops@, o0[pos as int] as int, o0[m - 1] as int));
                            }
                        } else {
                            assert(order@[k] == o0[k - 1] && order@[m] == o0[m - 1]);
                        }
                    }
                    assert forall|j: int| 0 <= j < i + 1 implies
                        (#[trigger] quotes@[j] is Some <==> order@.contains(j as usize)) by {
                        if j < i {
                            if o0.contains(j as usize) {
                                let k = choose|k: int| 0 <= k < o0.len() && o0[k] == j as usize;
                                if k < pos {
                                    assert(order@[k] == o0[k]);
                                } else {
                                    assert(order@[k + 1] == o0[k]);
                                }
                            }
                            if order@.contains(j as usize) {
                                let k = choose|k: int| 0 <= k < order@.len() && order@[k] == j as usize;
                                if k < pos {
                                    assert(order@[k] == o0[k]);
                                } else if k > pos {
                                    assert(order@[k] == o0[k - 1]);
                                }
                            }
                        } else {
                            assert(order@[pos as int] == i);
                        }
                    }
                }
            } else {
                proof {
                    assert(!order@.contains(i));
                }
            }
            i = i + 1;
        }
        order
    }
}

/// Whether route `a` ranks before route `b` by output (`outputs[i]` being
/// route `i`'s): the larger output first, the lower index on ties.
pub open spec fn output_before(outputs: Seq<u128>, a: int, b: int) -> bool {
    outputs[a] > outputs[b] || (outputs[a] == outputs[b] && a < b)
}

impl QuoteEngine {
    /// The indices of the `top_k` routes with the largest outputs
    /// (`outputs[i]` being route `i`'s), largest first, the lower index
    /// first on ties; all of them when there are fewer.
    pub fn top_by_output(outputs: &[u128], top_k: usize) -> (r: Vec<usize>)
        ensures
            r@.len() == if outputs@.len() < top_k { outputs@.len() as int } else { top_k as int },
            forall|k: int| 0 <= k < r@.len() ==> #[trigger] r@[k] < outputs@.len(),
            forall|k: int, m: int| 0 <= k < m < r@.len() ==>
                output_before(outputs@, #[trigger] r@[k] as int, #[trigger] r@[m] as int),
            forall|j: int, k: int| 0 <= j < outputs@.len() && !r@.contains(j as usize) && 0 <= k < r@.len() ==>
                #[trigger] output_before(outputs@, r@[k] as int, j),
    {
        let mut order: Vec<usize> = Vec::new();
        let mut i: usize = 0;
        while i < outputs.len()
            invariant
                i <= outputs@.len(),
                order@.len() == i,
                forall|j: int| 0 <= j < i ==> #[trigger] order@.contains(j as usize),
                forall|k: int| 0 <= k < order@.len() ==> #[trigger] order@[k] < i,
                forall|k: int, m: int| 0 <= k < m < order@.len() ==>
                    output_before(outputs@, #[trigger] order@[k] as int, #[trigger] order@[m] as int),
            decreases outputs@.len() - i,
        {
            let mut pos: usize = 0;
            while pos < order.len() && outputs[order[pos]] >= outputs[i]
                invariant
                    pos <= order@.len(),
                    i < outputs@.len(),
                    forall|k: int| 0 <= k < order@.len() ==> #[trigger] order@[k] < i,
                    forall|k: int| 0 <= k < pos ==> outputs@[#[trigger] order@[k] as int] >= outputs@[i as int],
                decreases order@.len() - pos,
            {
                pos = pos + 1;
            }
            let ghost o0 = order@;
            order.insert(pos, i);
            proof {
                assert(order@ =~= o0.subrange(0, pos as int).push(i) + o0.subrange(pos as int, o0.len() as int));
                assert forall|k: int| 0 <= k < order@.len() implies #[trigger] order@[k] < i + 1 by {
                    if k < pos {
                        assert(order@[k] == o0[k]);
                    } else if k > pos {
                        assert(order@[k] == o0[k - 1]);
                    }
                }
                assert forall|k: int, m: int| 0 <= k < m < order@.len() implies
                    output_before(outputs@, #[trigger] order@[k] as int, #[trigger] order@[m] as int) by {
                    if k < pos && m < pos {
                        assert(order@[k] == o0[k] && order@[m] == o0[m]);
                    } else if k < pos && m == pos {
                        assert(order@[k] == o0[k]);
                    } else if k < pos && m > pos {
                        assert(order@[k] == o0[k] && order@[m] == o0[m - 1]);
                    } else if k == pos {
                        assert(order@[m] == o0[m - 1]);
                        assert(outputs@[o0[pos as int] as int] < outputs@[i as int]);
                        if m - 1 > pos {
                            assert(output_before(outputs@, o0[pos as int] as int, o0[m - 1] as int));
                        }
                    } else {
                        assert(order@[k] == o0[k - 1] && order@[m] == o0[m - 1]);
                    }
                }
                assert forall|j: int| 0 <= j < i + 1 implies #[trigger] order@.contains(j as usize) by {
                    if j < i {
                        assert(o0.contains(j as usize));
                        let k = choose|k: int| 0 <= k < o0.len() && o0[k] == j as usize;
                        if k < pos {
                            assert(order@[k] == o0[k]);
                        } else {
                            assert(order@[k + 1] == o0[k]);
                        }
                    } else {
                        assert(order@[pos as int] == i);
                    }
                }
            }
            i = i + 1;
        }
        let ghost full = order@;
        if order.len() > top_k {
            order.truncate(top_k);
        }
        proof {
            assert(order@ == if full.len() > top_k { full.take(top_k as int) } else { full });
            assert forall|j: int, k: int| 0 <= j < outputs@.len() && !order@.contains(j as usize) && 0 <= k < order@.len()
                implies #[trigger] output_before(outputs@, order@[k] as int, j) by {
                assert(full.contains(j as usize));
                let m = choose|m: int| 0 <= m < full.len() && full[m] == j as usize;
                if m < order@.len() {
                    assert(order@[m] == full[m]);
                }
                assert(order@[k] == full[k]);
            }
        }
        order
    }
}

} // verus!
