//! Bookkeeping around route simulation: ranking the per-route results,
//! choosing between the best single route and a split, and planning which
//! accounts to fetch.

use vstd::prelude::*;
use vstd::utf8::encode_utf8;
use vstd::string::StringSliceAdditionalSpecFns;
use crate::base58::{all_digits, is_decoding_of, lemma_decoding_unique};
use crate::engine::account_resolver::required_accounts_for_pool;
use crate::error::{EngineError, QuoteError};
use crate::base58::{AddressError, bs58_decode_opt};
use crate::engine::account_resolver::{
    key_from_vec, AccountCache, derive_simulated_ata, resolve_swap_accounts, resolves_to, simulated_ata_bytes,
};
use crate::engine::instruction_builder::{
    build_swap_instruction, builds_to, output_mint_for_hop, resolve_direction, SwapAccounts, SwapDirection,
    SwapInstruction,
};
use crate::engine::instruction_builder::{le_bytes, push_le, is_address, address_bytes};
use std::collections::hash_map::DefaultHasher;
use std::hash::Hasher;
use vstd::std_specs::hash::DefaultHasherAdditionalSpecFns;
use crate::pool::{PubkeyBytes, bytes_lt, lemma_bytes_lt_trichotomy, lemma_bytes_lt_transitive};
use crate::types::PoolEdge;

verus! {

/// The result of simulating (or, failing that, estimating) one route.
#[derive(Debug, Clone)]
pub struct SimulatedRouteQuote {
    pub route_index: usize,
    pub amount_in: u64,
    pub amount_out: u64,
    pub hops: usize,
    /// Whether the amount comes from a simulation rather than the estimator.
    pub simulated: bool,
    /// Why the simulation failed, when it did.
    pub fallback_reason: Option<String>,
}

impl SimulatedRouteQuote {
    /// A field-by-field copy.
    pub fn duplicate(&self) -> (r: Self)
        ensures
            r == *self,
    {
        let fallback_reason = match &self.fallback_reason {
            Some(s) => Some(s.clone()),
            None => None,
        };
        SimulatedRouteQuote {
            route_index: self.route_index,
            amount_in: self.amount_in,
            amount_out: self.amount_out,
            hops: self.hops,
            simulated: self.simulated,
            fallback_reason,
        }
    }
}

/// `q` inserted into `sorted` after every quote whose output is at least
/// as large as its own.
pub open spec fn insert_by_output(sorted: Seq<SimulatedRouteQuote>, q: SimulatedRouteQuote) -> Seq<SimulatedRouteQuote>
    decreases sorted.len(),
{
    if sorted.len() == 0 {
        seq![q]
    } else if sorted[0].amount_out < q.amount_out {
        seq![q] + sorted
    } else {
        seq![sorted[0]] + insert_by_output(sorted.drop_first(), q)
    }
}

/// The quotes with a positive output, ordered by output from largest to
/// smallest, quotes of equal output in their original order.
pub open spec fn ranked_quotes(quotes: Seq<SimulatedRouteQuote>) -> Seq<SimulatedRouteQuote>
    decreases quotes.len(),
{
    if quotes.len() == 0 {
        Seq::empty()
    } else {
        let rest = ranked_quotes(quotes.drop_last());
        if quotes.last().amount_out > 0 {
            insert_by_output(rest, quotes.last())
        } else {
            rest
        }
    }
}

/// Whether the outputs of `s` never increase.
pub open spec fn by_output_desc(s: Seq<SimulatedRouteQuote>) -> bool {
    forall|i: int, j: int| #![trigger s[i], s[j]] 0 <= i < j < s.len() ==> s[j].amount_out <= s[i].amount_out
}

proof fn lemma_insert_split(sorted: Seq<SimulatedRouteQuote>, q: SimulatedRouteQuote, pos: int)
    requires
        0 <= pos <= sorted.len(),
        forall|k: int| 0 <= k < pos ==> q.amount_out <= #[trigger] sorted[k].amount_out,
        pos < sorted.len() ==> sorted[pos].amount_out < q.amount_out,
    ensures
        insert_by_output(sorted, q) == sorted.subrange(0, pos).push(q) + sorted.subrange(pos, sorted.len() as int),
    decreases pos,
{
    if pos == 0 {
        if sorted.len() == 0 {
            assert(seq![q] =~= Seq::<SimulatedRouteQuote>::empty().push(q) + sorted);
        } else {
            assert(seq![q] + sorted =~= sorted.subrange(0, 0).push(q) + sorted.subrange(0, sorted.len() as int));
        }
    } else {
        let tail = sorted.drop_first();
        assert forall|k: int| 0 <= k < pos - 1 implies q.amount_out <= #[trigger] tail[k].amount_out by {
            assert(tail[k] == sorted[k + 1]);
        }
        lemma_insert_split(tail, q, pos - 1);
        assert(seq![sorted[0]] + (tail.subrange(0, pos - 1).push(q) + tail.subrange(pos - 1, tail.len() as int))
            =~= sorted.subrange(0, pos).push(q) + sorted.subrange(pos, sorted.len() as int));
    }
}

proof fn lemma_insert_keeps_order(sorted: Seq<SimulatedRouteQuote>, q: SimulatedRouteQuote)
    requires
        by_output_desc(sorted),
    ensures
        by_output_desc(insert_by_output(sorted, q)),
        insert_by_output(sorted, q).len() == sorted.len() + 1,
        forall|k: int| 0 <= k < insert_by_output(sorted, q).len() ==>
            #[trigger] insert_by_output(sorted, q)[k] == q || sorted.contains(insert_by_output(sorted, q)[k]),
    decreases sorted.len(),
{
    if sorted.len() > 0 && sorted[0].amount_out >= q.amount_out {
        let tail = sorted.drop_first();
        assert(by_output_desc(tail)) by {
            assert forall|i: int, j: int| 0 <= i < j < tail.len() implies #[trigger] tail[j].amount_out <= #[trigger] tail[i].amount_out by {
                assert(tail[i] == sorted[i + 1] && tail[j] == sorted[j + 1]);
            }
        }
        lemma_insert_keeps_order(tail, q);
        let ins = insert_by_output(tail, q);
        let r = seq![sorted[0]] + ins;
        assert forall|k: int| 0 <= k < ins.len() implies sorted[0].amount_out >= #[trigger] ins[k].amount_out by {
            if ins[k] != q {
                let m = choose|m: int| 0 <= m < tail.len() && tail[m] == ins[k];
                assert(tail[m] == sorted[m + 1]);
            }
        }
        assert forall|i: int, j: int| 0 <= i < j < r.len() implies #[trigger] r[j].amount_out <= #[trigger] r[i].amount_out by {
            if i > 0 {
                assert(r[i] == ins[i - 1] && r[j] == ins[j - 1]);
            } else {
                assert(r[j] == ins[j - 1]);
            }
        }
        assert forall|k: int| 0 <= k < r.len() implies #[trigger] r[k] == q || sorted.contains(r[k]) by {
            if k == 0 {
                assert(sorted[0] == r[0]);
            } else {
                assert(r[k] == ins[k - 1]);
                if ins[k - 1] != q {
                    let m = choose|m: int| 0 <= m < tail.len() && tail[m] == ins[k - 1];
                    assert(tail[m] == sorted[m + 1]);
                }
            }
        }
    } else if sorted.len() > 0 {
        let r = seq![q] + sorted;
        assert forall|i: int, j: int| 0 <= i < j < r.len() implies #[trigger] r[j].amount_out <= #[trigger] r[i].amount_out by {
            if i > 0 {
                assert(r[i] == sorted[i - 1] && r[j] == sorted[j - 1]);
            } else {
                assert(r[j] == sorted[j - 1]);
                assert(sorted[0].amount_out >= sorted[j - 1].amount_out || j - 1 == 0);
            }
        }
        assert forall|k: int| 0 <= k < r.len() implies #[trigger] r[k] == q || sorted.contains(r[k]) by {
            if k > 0 {
                assert(r[k] == sorted[k - 1]);
            }
        }
    }
}

/// Ranked quotes are ordered by output, largest first, and all have a
/// positive output drawn from the input.
pub proof fn lemma_ranked_quotes_ordered(quotes: Seq<SimulatedRouteQuote>)
    ensures
        by_output_desc(ranked_quotes(quotes)),
        forall|k: int| 0 <= k < ranked_quotes(quotes).len() ==>
            (#[trigger] ranked_quotes(quotes)[k]).amount_out > 0 && quotes.contains(ranked_quotes(quotes)[k]),
    decreases quotes.len(),
{
    if quotes.len() > 0 {
        let init = quotes.drop_last();
        lemma_ranked_quotes_ordered(init);
        let rest = ranked_quotes(init);
        assert forall|k: int| 0 <= k < rest.len() implies quotes.contains(#[trigger] rest[k]) by {
            let m = choose|m: int| 0 <= m < init.len() && init[m] == rest[k];
            assert(quotes[m] == init[m]);
        }
        if quotes.last().amount_out > 0 {
            lemma_insert_keeps_order(rest, quotes.last());
            let r = insert_by_output(rest, quotes.last());
            assert forall|k: int| 0 <= k < r.len() implies (#[trigger] r[k]).amount_out > 0 && quotes.contains(r[k]) by {
                if r[k] == quotes.last() {
                    assert(quotes[quotes.len() - 1] == r[k]);
                } else {
                    let m = choose|m: int| 0 <= m < rest.len() && rest[m] == r[k];
                    assert(rest[m].amount_out > 0);
                }
            }
        }
    }
}

/// Drops the quotes without output and orders the rest by output, largest
/// first; quotes of equal output keep their order.
pub fn rank_simulated_quotes(quotes: Vec<SimulatedRouteQuote>) -> (r: Vec<SimulatedRouteQuote>)
    ensures
        r@ == ranked_quotes(quotes@),
        by_output_desc(r@),
{
    let ghost original = quotes@;
    let mut quotes = quotes;
    let mut reversed: Vec<SimulatedRouteQuote> = Vec::new();
    while quotes.len() > 0
        invariant
            quotes@ + reversed@.reverse() == original,
        decreases quotes@.len(),
    {
        let ghost before = quotes@;
        let ghost rev_before = reversed@;
        match quotes.pop() {
            Some(q) => {
                reversed.push(q);
                proof {
                    assert(reversed@.reverse() =~= seq![q] + rev_before.reverse());
                    assert(quotes@ + reversed@.reverse() =~= before.drop_last() + (seq![before.last()] + rev_before.reverse()));
                    assert(before == before.drop_last().push(before.last()));
                    assert(before.drop_last() + (seq![before.last()] + rev_before.reverse()) =~= before + rev_before.reverse());
                }
            },
            None => {},
        }
    }
    proof {
        assert(quotes@ =~= Seq::<SimulatedRouteQuote>::empty());
        assert(reversed@.reverse() =~= original);
    }
    let mut ranked: Vec<SimulatedRouteQuote> = Vec::new();
    let ghost mut done: Seq<SimulatedRouteQuote> = Seq::empty();
    proof {
        lemma_ranked_quotes_ordered(done);
    }
    while reversed.len() > 0
        invariant
            done + reversed@.reverse() == original,
            ranked@ == ranked_quotes(done),
            by_output_desc(ranked@),
        decreases reversed@.len(),
    {
        let ghost rev_before = reversed@;
        match reversed.pop() {
            Some(q) => {
                proof {
                    assert(rev_before.reverse() =~= seq![q] + reversed@.reverse());
                    assert(done + rev_before.reverse() =~= done.push(q) + reversed@.reverse());
                    assert(done.push(q).drop_last() =~= done);
                }
                if q.amount_out > 0 {
                    let mut pos: usize = 0;
                    while pos < ranked.len() && ranked[pos].amount_out >= q.amount_out
                        invariant
                            pos <= ranked@.len(),
                            forall|k: int| 0 <= k < pos ==> q.amount_out <= #[trigger] ranked@[k].amount_out,
                        decreases ranked@.len() - pos,
                    {
                        pos = pos + 1;
                    }
                    proof {
                        lemma_insert_split(ranked@, q, pos as int);
                        lemma_insert_keeps_order(ranked@, q);
                    }
                    let ghost r0 = ranked@;
                    ranked.insert(pos, q);
                    proof {
                        assert(ranked@ =~= r0.subrange(0, pos as int).push(q) + r0.subrange(pos as int, r0.len() as int));
                    }
                }
                proof {
                    done = done.push(q);
                }
            },
            None => {},
        }
    }
    proof {
        assert(reversed@.reverse() =~= Seq::<SimulatedRouteQuote>::empty());
        assert(done =~= original);
    }
    ranked
}

/// Whether some key of `keys` has the bytes `b`.
pub open spec fn has_key(keys: Seq<PubkeyBytes>, b: Seq<u8>) -> bool {
    exists|j: int| 0 <= j < keys.len() && #[trigger] keys[j].bytes() == b
}

/// Whether the keys strictly increase in byte order (so none occurs twice).
pub open spec fn strictly_increasing(keys: Seq<PubkeyBytes>) -> bool {
    forall|i: int, j: int| #![trigger keys[i], keys[j]]
        0 <= i < j < keys.len() ==> bytes_lt(keys[i].bytes(), keys[j].bytes(), 0)
}

proof fn lemma_key_order(a: PubkeyBytes, b: PubkeyBytes)
    ensures
        bytes_lt(a.bytes(), b.bytes(), 0) || bytes_lt(b.bytes(), a.bytes(), 0) || a.bytes() == b.bytes(),
        bytes_lt(a.bytes(), b.bytes(), 0) ==> a.bytes() != b.bytes() && !bytes_lt(b.bytes(), a.bytes(), 0),
{
    lemma_bytes_lt_trichotomy(a.bytes(), b.bytes(), 0);
    assert(a.bytes().subrange(0, 32) =~= a.bytes());
    assert(b.bytes().subrange(0, 32) =~= b.bytes());
}

/// The distinct keys of `keys`, in increasing byte order.
pub fn sorted_unique_keys(keys: &[PubkeyBytes]) -> (r: Vec<PubkeyBytes>)
    ensures
        strictly_increasing(r@),
        forall|b: Seq<u8>| has_key(r@, b) <==> has_key(keys@, b),
{
    let mut out: Vec<PubkeyBytes> = Vec::new();
    let mut i: usize = 0;
    while i < keys.len()
        invariant
            i <= keys@.len(),
            strictly_increasing(out@),
            forall|b: Seq<u8>| has_key(out@, b) <==> has_key(keys@.subrange(0, i as int), b),
        decreases keys@.len() - i,
    {
        let k = keys[i];
        let ghost before = out@;
        let mut pos: usize = 0;
        while pos < out.len() && out[pos].is_less_than(&k)
            invariant
                out@ == before,
                pos <= out@.len(),
                forall|m: int| 0 <= m < pos ==> bytes_lt((#[trigger] out@[m]).bytes(), k.bytes(), 0),
            decreases out@.len() - pos,
        {
            pos = pos + 1;
        }
        let dup = pos < out.len() && out[pos] == k;
        proof {
            assert forall|b: Seq<u8>| has_key(before, b) == has_key(keys@.subrange(0, i as int), b) by {}
        }
        if !dup {
            out.insert(pos, k);
            proof {
                if pos < before.len() {
                    lemma_key_order(before[pos as int], k);
                }
                assert forall|m: int| pos <= m < before.len() implies bytes_lt(k.bytes(), (#[trigger] before[m]).bytes(), 0) by {
                    if m > pos {
                        lemma_bytes_lt_transitive(k.bytes(), before[pos as int].bytes(), before[m].bytes(), 0);
                    }
                }
                assert forall|x: int, y: int| #![trigger out@[x], out@[y]]
                    0 <= x < y < out@.len() implies bytes_lt(out@[x].bytes(), out@[y].bytes(), 0) by {
                    if y < pos {
                        assert(out@[x] == before[x] && out@[y] == before[y]);
                    } else if y == pos {
                        assert(out@[x] == before[x]);
                    } else if x == pos {
                        assert(out@[y] == before[y - 1]);
                        if y - 1 > pos {
                            assert(bytes_lt(before[pos as int].bytes(), before[y - 1].bytes(), 0));
                            lemma_bytes_lt_transitive(k.bytes(), before[pos as int].bytes(), before[y - 1].bytes(), 0);
                        }
                    } else if x < pos {
                        assert(out@[x] == before[x] && out@[y] == before[y - 1]);
                        if y - 1 >= pos {
                            lemma_bytes_lt_transitive(before[x].bytes(), k.bytes(), before[y - 1].bytes(), 0);
                        }
                    } else {
                        assert(out@[x] == before[x - 1] && out@[y] == before[y - 1]);
                    }
                }
            }
        }
        proof {
            let done = keys@.subrange(0, i as int);
            let next = keys@.subrange(0, i + 1);
            assert(out@ == if dup { before } else { before.insert(pos as int, k) });
            assert forall|j: int| 0 <= j < before.len() implies #[trigger] before[j] == if !dup && j >= pos { out@[j + 1] } else { out@[j] } by {}
            assert forall|b: Seq<u8>| has_key(out@, b) <==> has_key(next, b) by {
                if has_key(out@, b) {
                    let j = choose|j: int| 0 <= j < out@.len() && #[trigger] out@[j].bytes() == b;
                    if !dup && j == pos {
                        assert(next[i as int] == k);
                    } else {
                        let jj = if !dup && j > pos { j - 1 } else { j };
                        assert(before[jj] == out@[j]);
                        assert(has_key(before, b));
                        let m = choose|m: int| 0 <= m < done.len() && #[trigger] done[m].bytes() == b;
                        assert(next[m] == done[m]);
                    }
                }
                if has_key(next, b) {
                    let m = choose|m: int| 0 <= m < next.len() && #[trigger] next[m].bytes() == b;
                    if m == i {
                        if dup {
                            assert(out@[pos as int].bytes() == k.bytes());
                        } else {
                            assert(out@[pos as int] == k);
                        }
                    } else {
                        assert(done[m] == next[m]);
                        assert(has_key(done, b));
                        assert(has_key(before, b));
                        let j = choose|j: int| 0 <= j < before.len() && #[trigger] before[j].bytes() == b;
                        assert(before[j].bytes() == b);
                        if !dup && j >= pos {
                            assert(out@[j + 1] == before[j]);
                        } else {
                            assert(out@[j] == before[j]);
                        }
                    }
                }
            }
        }
        i = i + 1;
    }
    proof {
        assert(keys@.subrange(0, keys@.len() as int) =~= keys@);
    }
    out
}

/// Whether `b` is the account address that the text of `pool`'s address
/// decodes to.
pub open spec fn pool_key(pool: PoolEdge, b: Seq<u8>) -> bool {
    let s = encode_utf8(pool.address@);
    b.len() == 32 && all_digits(s) && is_decoding_of(s, b)
}

/// Whether `b` is the address of some pool of some route.
pub open spec fn routes_pool_key(routes: Seq<Vec<PoolEdge>>, b: Seq<u8>) -> bool {
    exists|i: int, j: int| 0 <= i < routes.len() && 0 <= j < routes[i]@.len() && #[trigger] pool_key(routes[i]@[j], b)
}

spec fn keys_before(routes: Seq<Vec<PoolEdge>>, i: int, b: Seq<u8>) -> bool {
    exists|x: int, y: int| 0 <= x < i && 0 <= y < routes[x]@.len() && #[trigger] pool_key(routes[x]@[y], b)
}

spec fn keys_in_prefix(route: Seq<PoolEdge>, j: int, b: Seq<u8>) -> bool {
    exists|y: int| 0 <= y < j && #[trigger] pool_key(route[y], b)
}

/// What the required accounts of one pool say about its key.
proof fn lemma_pool_key_of(pool: PoolEdge, r: Result<Vec<PubkeyBytes>, EngineError>)
    requires
        match r {
            Ok(v) => v@.len() == 1 && crate::engine::account_resolver::pool_address_result(encode_utf8(pool.address@), Ok(v@[0])),
            Err(EngineError::InvalidPoolAddress(e)) => crate::engine::account_resolver::pool_address_result(encode_utf8(pool.address@), Err(e)),
            Err(_) => false,
        },
    ensures
        forall|b: Seq<u8>| #[trigger] pool_key(pool, b) <==> (r matches Ok(v) && b == v@[0].bytes()),
{
    let s = encode_utf8(pool.address@);
    assert forall|b: Seq<u8>| #[trigger] pool_key(pool, b) <==> (r matches Ok(v) && b == v@[0].bytes()) by {
        match r {
            Ok(v) => {
                if pool_key(pool, b) {
                    lemma_decoding_unique(s, b, v@[0].bytes());
                }
            },
            Err(EngineError::InvalidPoolAddress(AddressError::InvalidCharacter { byte })) => {
                if pool_key(pool, b) {
                    let i = choose|i: int| 0 <= i < s.len() && s[i] == byte && crate::base58::digit_spec(byte) is None
                        && #[trigger] all_digits(s.subrange(0, i));
                    assert(crate::base58::digit_spec(s[i]) is Some);
                }
            },
            Err(EngineError::InvalidPoolAddress(AddressError::InvalidLength { len })) => {
                if pool_key(pool, b) {
                    let out = choose|out: Seq<u8>| out.len() == len && is_decoding_of(s, out);
                    lemma_decoding_unique(s, b, out);
                }
            },
            Err(_) => {},
        }
    }
}

/// The quote engine that simulates candidate routes against chain state
/// fetched from an RPC endpoint.
pub struct SimulatedQuoteEngine {
    rpc_url: String,
}

impl SimulatedQuoteEngine {
    pub closed spec fn url(&self) -> Seq<char> {
        self.rpc_url@
    }

    pub fn new(rpc_url: &str) -> (r: Self)
        ensures
            r.url() == rpc_url@,
    {
        SimulatedQuoteEngine { rpc_url: rpc_url.to_owned() }
    }

    /// The RPC endpoint.
    pub fn rpc_url(&self) -> (r: &str)
        ensures
            r@ == self.url(),
    {
        self.rpc_url.as_str()
    }

    /// The accounts to fetch before simulating `routes`: the distinct
    /// addresses of their pools, in byte order; pools whose address does not
    /// decode are left out. An error when there is no route.
    pub fn plan_account_fetch(&self, routes: &[Vec<PoolEdge>]) -> (r: Result<Vec<PubkeyBytes>, QuoteError>)
        ensures
            r is Err <==> routes@.len() == 0,
            r matches Err(e) ==> e == QuoteError::NoCandidateRoutes,
            r matches Ok(keys) ==> strictly_increasing(keys@)
                && forall|b: Seq<u8>| has_key(keys@, b) <==> routes_pool_key(routes@, b),
    {
        if routes.len() == 0 {
            return Err(QuoteError::NoCandidateRoutes);
        }
        let mut all: Vec<PubkeyBytes> = Vec::new();
        let mut i: usize = 0;
        while i < routes.len()
            invariant
                i <= routes@.len(),
                forall|b: Seq<u8>| has_key(all@, b) <==> keys_before(routes@, i as int, b),
            decreases routes@.len() - i,
        {
            let route = &routes[i];
            let mut j: usize = 0;
            while j < route.len()
                invariant
                    i < routes@.len(),
                    route@ == routes@[i as int]@,
                    j <= route@.len(),
                    forall|b: Seq<u8>| has_key(all@, b) <==> keys_before(routes@, i as int, b) || keys_in_prefix(route@, j as int, b),
                decreases route@.len() - j,
            {
                let ghost before = all@;
                let res = required_accounts_for_pool(&route[j]);
                proof {
                    lemma_pool_key_of(route@[j as int], res);
                }
                if let Ok(keys) = res {
                    all.push(keys[0]);
                }
                proof {
                    assert forall|b: Seq<u8>| has_key(all@, b) <==> keys_before(routes@, i as int, b) || keys_in_prefix(route@, j + 1, b) by {
                        if has_key(all@, b) {
                            let m = choose|m: int| 0 <= m < all@.len() && #[trigger] all@[m].bytes() == b;
                            if m < before.len() {
                                assert(before[m] == all@[m]);
                                assert(has_key(before, b));
                                if keys_in_prefix(route@, j as int, b) {
                                    let y = choose|y: int| 0 <= y < j && #[trigger] pool_key(route@[y], b);
                                    assert(pool_key(route@[y], b));
                                }
                            } else {
                                assert(pool_key(route@[j as int], b));
                            }
                        }
                        if keys_in_prefix(route@, j + 1, b) && !keys_in_prefix(route@, j as int, b) {
                            let y = choose|y: int| 0 <= y < j + 1 && #[trigger] pool_key(route@[y], b);
                            assert(y == j);
                            assert(all@[before.len() as int].bytes() == b);
                        }
                        if keys_in_prefix(route@, j as int, b) {
                            let y = choose|y: int| 0 <= y < j && #[trigger] pool_key(route@[y], b);
                            assert(pool_key(route@[y], b));
                            assert(has_key(before, b));
                            let m = choose|m: int| 0 <= m < before.len() && #[trigger] before[m].bytes() == b;
                            assert(all@[m] == before[m]);
                        }
                        if keys_before(routes@, i as int, b) {
                            assert(has_key(before, b));
                            let m = choose|m: int| 0 <= m < before.len() && #[trigger] before[m].bytes() == b;
                            assert(all@[m] == before[m]);
                        }
                    }
                }
                j = j + 1;
            }
            proof {
                assert forall|b: Seq<u8>| keys_before(routes@, i + 1, b)
                    <==> keys_before(routes@, i as int, b) || keys_in_prefix(route@, route@.len() as int, b) by {
                    if keys_before(routes@, i + 1, b) && !keys_before(routes@, i as int, b) {
                        let (x, y) = choose|x: int, y: int| 0 <= x < i + 1 && 0 <= y < routes@[x]@.len()
                            && #[trigger] pool_key(routes@[x]@[y], b);
                        assert(x == i);
                        assert(pool_key(route@[y], b));
                    }
                    if keys_in_prefix(route@, route@.len() as int, b) {
                        let y = choose|y: int| 0 <= y < route@.len() && #[trigger] pool_key(route@[y], b);
                        assert(pool_key(routes@[i as int]@[y], b));
                    }
                    if keys_before(routes@, i as int, b) {
                        let (x, y) = choose|x: int, y: int| 0 <= x < i && 0 <= y < routes@[x]@.len()
                            && #[trigger] pool_key(routes@[x]@[y], b);
                        assert(pool_key(routes@[x]@[y], b));
                    }
                }
            }
            i = i + 1;
        }
        let keys = sorted_unique_keys(all.as_slice());
        proof {
            assert forall|b: Seq<u8>| has_key(keys@, b) <==> routes_pool_key(routes@, b) by {
                if routes_pool_key(routes@, b) {
                    let (x, y) = choose|x: int, y: int| 0 <= x < routes@.len() && 0 <= y < routes@[x]@.len()
                        && #[trigger] pool_key(routes@[x]@[y], b);
                    assert(keys_before(routes@, routes@.len() as int, b));
                }
                if keys_before(routes@, routes@.len() as int, b) {
                    let (x, y) = choose|x: int, y: int| 0 <= x < routes@.len() && 0 <= y < routes@[x]@.len()
                        && #[trigger] pool_key(routes@[x]@[y], b);
                    assert(routes_pool_key(routes@, b));
                }
            }
        }
        Ok(keys)
    }
}

/// The number of accounts fetched per RPC request.
pub const FETCH_BATCH_SIZE: usize = 100;

/// The keys of `batches`, batch after batch.
pub open spec fn joined(batches: Seq<Vec<PubkeyBytes>>) -> Seq<PubkeyBytes>
    decreases batches.len(),
{
    if batches.len() == 0 {
        Seq::empty()
    } else {
        joined(batches.drop_last()) + batches.last()@
    }
}

/// Fetches accounts from an RPC endpoint in batches.
pub struct AccountFetcher;

impl AccountFetcher {
    /// The distinct keys of `keys` in byte order, cut into batches of
    /// `FETCH_BATCH_SIZE` (the last one possibly shorter).
    pub fn batches(keys: &[PubkeyBytes]) -> (r: Vec<Vec<PubkeyBytes>>)
        ensures
            strictly_increasing(joined(r@)),
            forall|b: Seq<u8>| has_key(joined(r@), b) <==> has_key(keys@, b),
            forall|i: int| 0 <= i < r@.len() ==> 1 <= (#[trigger] r@[i])@.len() <= FETCH_BATCH_SIZE,
            forall|i: int| 0 <= i < r@.len() - 1 ==> (#[trigger] r@[i])@.len() == FETCH_BATCH_SIZE,
    {
        let unique = sorted_unique_keys(keys);
        let mut out: Vec<Vec<PubkeyBytes>> = Vec::new();
        let mut start: usize = 0;
        while start < unique.len()
            invariant
                start <= unique@.len(),
                start == 0 || start < unique@.len(),
                strictly_increasing(unique@),
                forall|b: Seq<u8>| has_key(unique@, b) <==> has_key(keys@, b),
                joined(out@) == unique@.subrange(0, start as int),
                forall|i: int| 0 <= i < out@.len() ==> (#[trigger] out@[i])@.len() == FETCH_BATCH_SIZE,
            decreases unique@.len() - start,
        {
            let end = if unique.len() - start > FETCH_BATCH_SIZE { start + FETCH_BATCH_SIZE } else { unique.len() };
            let mut batch: Vec<PubkeyBytes> = Vec::new();
            let mut k: usize = start;
            while k < end
                invariant
                    start <= k <= end <= unique@.len(),
                    batch@ == unique@.subrange(start as int, k as int),
                decreases end - k,
            {
                batch.push(unique[k]);
                proof {
                    assert(unique@.subrange(start as int, k + 1) =~= unique@.subrange(start as int, k as int).push(unique@[k as int]));
                }
                k = k + 1;
            }
            let ghost before = out@;
            out.push(batch);
            proof {
                assert(out@.drop_last() =~= before);
                assert(joined(out@) =~= unique@.subrange(0, end as int));
                if end < unique@.len() {
                    assert(out@[out@.len() - 1]@.len() == FETCH_BATCH_SIZE);
                }
            }
            if end < unique.len() {
                start = end;
            } else {
                proof {
                    assert(joined(out@) =~= unique@);
                    assert forall|i: int| 0 <= i < out@.len() implies 1 <= (#[trigger] out@[i])@.len() <= FETCH_BATCH_SIZE by {
                        if i < before.len() {
                            assert(out@[i] == before[i]);
                        }
                    }
                    assert forall|i: int| 0 <= i < out@.len() - 1 implies (#[trigger] out@[i])@.len() == FETCH_BATCH_SIZE by {
                        assert(out@[i] == before[i]);
                    }
                }
                return out;
            }
        }
        proof {
            assert(unique@.len() == 0);
            assert(joined(out@) =~= unique@);
            assert(out@.len() == 0) by {
                if out@.len() > 0 {
                    assert(joined(out@).len() >= out@.last()@.len());
                }
            }
        }
        out
    }

    /// The accounts an RPC batch reply found, each with its key: `found[i]`
    /// answers `batch[i]`, and keys without an account are left out.
    pub fn collect_found(batch: &[PubkeyBytes], found: Vec<Option<Vec<u8>>>) -> (r: Vec<(PubkeyBytes, Vec<u8>)>)
        ensures
            r@ == found_accounts(batch@, found@, if batch@.len() < found@.len() { batch@.len() as int } else { found@.len() as int }),
    {
        let n = if batch.len() < found.len() { batch.len() } else { found.len() };
        let ghost all = found@;
        let mut found = found;
        proof {
            assert(found@ =~= all.subrange(0, found@.len() as int));
        }
        while found.len() > n
            invariant
                n <= found@.len() <= all.len(),
                found@ == all.subrange(0, found@.len() as int),
            decreases found@.len(),
        {
            let ghost f0 = found@;
            found.pop();
            proof {
                assert(found@ =~= all.subrange(0, found@.len() as int));
            }
        }
        let mut rev: Vec<(PubkeyBytes, Vec<u8>)> = Vec::new();
        while found.len() > 0
            invariant
                found@.len() <= n <= batch@.len(),
                n <= all.len(),
                found@ == all.subrange(0, found@.len() as int),
                found_accounts(batch@, all, n as int)
                    == found_accounts(batch@, all, found@.len() as int) + rev@.reverse(),
            decreases found@.len(),
        {
            let ghost len = found@.len();
            let ghost rev0 = rev@;
            match found.pop() {
                Some(slot) => {
                    let idx = found.len();
                    proof {
                        assert(slot == all[idx as int]);
                    }
                    if let Some(data) = slot {
                        rev.push((batch[idx], data));
                        proof {
                            assert(rev@.reverse() =~= seq![(batch@[idx as int], data)] + rev0.reverse());
                        }
                    }
                    proof {
                        assert(found@ =~= all.subrange(0, found@.len() as int));
                    }
                },
                None => {},
            }
        }
        let mut out: Vec<(PubkeyBytes, Vec<u8>)> = Vec::new();
        while rev.len() > 0
            invariant
                found_accounts(batch@, all, n as int) == out@ + rev@.reverse(),
            decreases rev@.len(),
        {
            let ghost rev0 = rev@;
            match rev.pop() {
                Some(p) => {
                    proof {
                        assert(rev0.reverse() =~= seq![p] + rev@.reverse());
                    }
                    out.push(p);
                    proof {
                        assert(out@ + rev@.reverse() =~= out@.drop_last() + rev0.reverse());
                    }
                },
                None => {},
            }
        }
        proof {
            assert(rev@.reverse() =~= Seq::<(PubkeyBytes, Vec<u8>)>::empty());
            assert(out@ + rev@.reverse() =~= out@);
        }
        out
    }
}

/// The accounts found among the first `n` answers.
pub open spec fn found_accounts(batch: Seq<PubkeyBytes>, found: Seq<Option<Vec<u8>>>, n: int) -> Seq<(PubkeyBytes, Vec<u8>)>
    decreases n,
{
    if n <= 0 {
        Seq::empty()
    } else {
        let rest = found_accounts(batch, found, n - 1);
        match found[n - 1] {
            Some(data) => rest.push((batch[n - 1], data)),
            None => rest,
        }
    }
}

/// How a best quote was obtained.
#[derive(Debug, Clone, Copy, PartialEq, Eq, Structural)]
pub enum QuoteMethod {
    /// The best single route, simulated.
    Simulated,
    /// The best single route, whose simulation failed and was estimated.
    HeuristicFallback,
    /// Several routes sharing the volume.
    SimulatedSplit,
}

impl QuoteMethod {
    /// The method's name in responses.
    pub fn label(&self) -> (r: &'static str)
        ensures
            r@ == match *self {
                QuoteMethod::Simulated => "simulated"@,
                QuoteMethod::HeuristicFallback => "heuristic-fallback"@,
                QuoteMethod::SimulatedSplit => "simulated-split"@,
            },
    {
        match self {
            QuoteMethod::Simulated => "simulated",
            QuoteMethod::HeuristicFallback => "heuristic-fallback",
            QuoteMethod::SimulatedSplit => "simulated-split",
        }
    }
}

/// The smallest input for which splitting the volume is tried.
pub const MIN_SPLIT_AMOUNT: u64 = 10_000;

/// Whether splitting the volume is worth trying: at least two ranked routes
/// and an input of at least `MIN_SPLIT_AMOUNT`.
pub fn should_try_split(ranked_count: usize, amount_in: u64) -> (r: bool)
    ensures
        r == (ranked_count >= 2 && amount_in >= MIN_SPLIT_AMOUNT),
{
    ranked_count >= 2 && amount_in >= MIN_SPLIT_AMOUNT
}

/// The overall best quote given the ranked single-route quotes and the best
/// split found, if any (`split` = index of the split's first route and its
/// total output): the split when it beats the best single route, else that
/// route. An error when no route has output.
pub fn choose_best_quote(ranked: &Vec<SimulatedRouteQuote>, amount_in: u64, split: Option<(usize, u64)>)
    -> (r: Result<(SimulatedRouteQuote, QuoteMethod), QuoteError>)
    ensures
        r is Err <==> ranked@.len() == 0,
        r matches Err(e) ==> e == QuoteError::AllSimulationsFailed,
        r matches Ok((best, method)) ==> match split {
            Some((index, total)) if total > ranked@[0].amount_out => {
                &&& method == QuoteMethod::SimulatedSplit
                &&& best == (SimulatedRouteQuote {
                    route_index: index, amount_in, amount_out: total, hops: 0, simulated: true, fallback_reason: None,
                })
            },
            _ => {
                &&& best == ranked@[0]
                &&& method == if ranked@[0].simulated { QuoteMethod::Simulated } else { QuoteMethod::HeuristicFallback }
            },
        },
{
    if ranked.len() == 0 {
        return Err(QuoteError::AllSimulationsFailed);
    }
    let best_single = &ranked[0];
    if let Some((index, total)) = split {
        if total > best_single.amount_out {
            let combined = SimulatedRouteQuote {
                route_index: index,
                amount_in,
                amount_out: total,
                hops: 0,
                simulated: true,
                fallback_reason: None,
            };
            return Ok((combined, QuoteMethod::SimulatedSplit));
        }
    }
    let method = if best_single.simulated { QuoteMethod::Simulated } else { QuoteMethod::HeuristicFallback };
    Ok((best_single.duplicate(), method))
}

/// The result of simulating a transaction: how much the target token
/// account gained, and its final balance.
#[derive(Debug, Clone, Copy, PartialEq, Eq, Structural)]
pub struct SimulationQuote {
    pub amount_out: u64,
    pub final_target_balance: u64,
}

impl SimulationQuote {
    /// The quote for a target account whose balance went from `initial` to
    /// `final_balance`; a balance that fell counts as no output.
    pub fn from_balances(initial: u64, final_balance: u64) -> (r: Self)
        ensures
            r.final_target_balance == final_balance,
            r.amount_out == if final_balance >= initial { final_balance - initial } else { 0 },
    {
        SimulationQuote { amount_out: final_balance.saturating_sub(initial), final_target_balance: final_balance }
    }
}

/// The bytes of the text `mint_salt`, hashed last when deriving a stand-in
/// mint address.
pub open spec fn mint_salt() -> Seq<u8> {
    seq![109u8, 105u8, 110u8, 116u8, 95u8, 115u8, 97u8, 108u8, 116u8]
}

/// The stand-in address of a mint text `mint` that is not a base58
/// address: four `DefaultHasher` outputs, as little-endian bytes, after
/// hashing in turn the text, its bytes, its length and the salt.
pub open spec fn hashed_mint_bytes(mint: Seq<u8>) -> Seq<u8> {
    let w1 = seq![mint, seq![0xffu8]];
    let w2 = w1.push(le_bytes(mint.len(), 8)).push(mint);
    let w3 = w2.push(le_bytes(mint.len(), 8));
    let w4 = w3.push(mint_salt()).push(seq![0xffu8]);
    le_bytes(DefaultHasher::spec_finish(w1) as nat, 8)
        + le_bytes(DefaultHasher::spec_finish(w2) as nat, 8)
        + le_bytes(DefaultHasher::spec_finish(w3) as nat, 8)
        + le_bytes(DefaultHasher::spec_finish(w4) as nat, 8)
}

/// The mint address of `mint_str`: the address it decodes to when it is a
/// base58 address, else a deterministic stand-in derived by hashing it (so
/// that simulations can run on made-up mints). Never fails.
pub fn parse_mint_address(mint_str: &str) -> (r: Result<PubkeyBytes, QuoteError>)
    ensures
        r matches Ok(pk) && if is_address(mint_str.spec_bytes()) {
            pk.bytes() == address_bytes(mint_str.spec_bytes())
        } else {
            pk.bytes() == hashed_mint_bytes(mint_str.spec_bytes())
        },
{
    let ghost text = mint_str.spec_bytes();
    if let Some(bytes) = bs58_decode_opt(mint_str) {
        if bytes.len() == 32 {
            proof {
                let chosen = address_bytes(text);
                lemma_decoding_unique(text, bytes@, chosen);
            }
            return Ok(key_from_vec(&bytes));
        }
        proof {
            if is_address(text) {
                let chosen = address_bytes(text);
                lemma_decoding_unique(text, bytes@, chosen);
            }
        }
    }
    let mint = mint_str.as_bytes();
    let mut end: Vec<u8> = Vec::new();
    end.push(0xffu8);
    let mut len_prefix: Vec<u8> = Vec::new();
    push_le(&mut len_prefix, mint.len() as u128, 8);
    let salt: [u8; 9] = [109u8, 105u8, 110u8, 116u8, 95u8, 115u8, 97u8, 108u8, 116u8];
    let mut h = DefaultHasher::new();
    h.write(mint);
    h.write(end.as_slice());
    let ghost w1 = h@;
    let h1 = h.finish();
    h.write(len_prefix.as_slice());
    h.write(mint);
    let ghost w2 = h@;
    let h2 = h.finish();
    h.write(len_prefix.as_slice());
    let ghost w3 = h@;
    let h3 = h.finish();
    h.write(salt.as_slice());
    h.write(end.as_slice());
    let ghost w4 = h@;
    let h4 = h.finish();
    let mut out: Vec<u8> = Vec::new();
    push_le(&mut out, h1 as u128, 8);
    push_le(&mut out, h2 as u128, 8);
    push_le(&mut out, h3 as u128, 8);
    push_le(&mut out, h4 as u128, 8);
    proof {
        assert(end@ =~= seq![0xffu8]);
        assert(salt@ =~= mint_salt());
        let s1 = seq![text, seq![0xffu8]];
        assert(w1 =~= s1);
        assert(w2 =~= s1.push(le_bytes(text.len(), 8)).push(text));
        assert(w3 =~= w2.push(le_bytes(text.len(), 8)));
        assert(w4 =~= w3.push(mint_salt()).push(seq![0xffu8]));
        assert(out@ =~= hashed_mint_bytes(text));
    }
    Ok(key_from_vec(&out))
}

/// The mint reached by swapping the mint `m` through `pool`, if `m` is one
/// of its tokens.
pub open spec fn next_mint(pool: PoolEdge, m: Seq<char>) -> Option<Seq<char>> {
    if pool.token_a.mint@ == m {
        Some(pool.token_b.mint@)
    } else if pool.token_b.mint@ == m {
        Some(pool.token_a.mint@)
    } else {
        None
    }
}

/// The mints along `route` from `source`, source first, if every pool
/// trades the mint reached before it.
pub open spec fn mint_path(route: Seq<PoolEdge>, source: Seq<char>) -> Option<Seq<Seq<char>>>
    decreases route.len(),
{
    if route.len() == 0 {
        Some(seq![source])
    } else {
        match mint_path(route.drop_last(), source) {
            Some(p) => match next_mint(route.last(), p.last()) {
                Some(n) => Some(p.push(n)),
                None => None,
            },
            None => None,
        }
    }
}

/// The simulated token account of `payer` for the mint text `m`.
pub open spec fn ata_of(payer: PubkeyBytes, m: Seq<char>) -> Seq<u8> {
    simulated_ata_bytes(payer.bytes(), encode_utf8(m))
}

/// The mint address that the mint text `m` stands for.
pub open spec fn mint_key_of(m: Seq<char>) -> Seq<u8> {
    let t = encode_utf8(m);
    if is_address(t) { address_bytes(t) } else { hashed_mint_bytes(t) }
}

/// A token account that a route simulation creates.
#[derive(Debug, Clone, Copy)]
pub struct PlannedTokenAccount {
    pub address: PubkeyBytes,
    pub mint: PubkeyBytes,
    /// Starting balance.
    pub amount: u64,
}

/// Whether `a` is the account of `payer` for the mint text `m` holding `amount`.
pub open spec fn planned_is(a: PlannedTokenAccount, payer: PubkeyBytes, m: Seq<char>, amount: u64) -> bool {
    &&& a.address.bytes() == ata_of(payer, m)
    &&& a.mint.bytes() == mint_key_of(m)
    &&& a.amount == amount
}

/// What a route simulation runs besides the chain state: the token account
/// of each mint along the route (source first), the accounts to create
/// (source with the input, target, then the intermediate ones, all empty
/// but the source), and the swap instructions of the hops in order.
pub struct RoutePlan {
    pub path_accounts: Vec<PubkeyBytes>,
    pub target_account: PubkeyBytes,
    pub token_accounts: Vec<PlannedTokenAccount>,
    pub instructions: Vec<SwapInstruction>,
}

/// The direction of a swap through `pool` from the mint `m`.
pub open spec fn hop_direction(pool: PoolEdge, m: Seq<char>) -> SwapDirection {
    if pool.token_a.mint@ == m { SwapDirection::AtoB } else { SwapDirection::BtoA }
}

/// The instructions of `ixs`, one hop after another.
pub open spec fn concat_instructions(ixs: Seq<Vec<SwapInstruction>>) -> Seq<SwapInstruction>
    decreases ixs.len(),
{
    if ixs.len() == 0 {
        Seq::empty()
    } else {
        concat_instructions(ixs.drop_last()) + ixs.last()@
    }
}

/// Whether hop `k` of `route` resolves to `acc` and encodes to `ixs`: from
/// the account of the mint reached before it to that of the next mint, the
/// whole input in the first hop and what the previous hop left in the others.
pub open spec fn hop_planned(
    route: Seq<PoolEdge>,
    path: Seq<Seq<char>>,
    payer: PubkeyBytes,
    accounts: Seq<PubkeyBytes>,
    amount_in: u64,
    cache: AccountCache,
    k: int,
    acc: SwapAccounts,
    ixs: Vec<SwapInstruction>,
) -> bool {
    &&& resolves_to(route[k], payer, accounts[k], accounts[k + 1], cache, Ok(acc))
    &&& builds_to(route[k], hop_direction(route[k], path[k]), if k == 0 { amount_in } else { 0 }, 0, acc, Ok(ixs))
}

/// The mint address of the mint text `m`.
fn mint_key(m: &str) -> (r: PubkeyBytes)
    ensures
        r.bytes() == mint_key_of(m@),
{
    proof {
        assert(m.spec_bytes() == encode_utf8(m@));
    }
    match parse_mint_address(m) {
        Ok(k) => k,
        Err(_) => PubkeyBytes([0u8; 32]),
    }
}


proof fn lemma_mint_path_prefix_none(route: Seq<PoolEdge>, source: Seq<char>, i: int)
    requires
        0 <= i <= route.len(),
        mint_path(route.subrange(0, i), source) is None,
    ensures
        mint_path(route, source) is None,
    decreases route.len() - i,
{
    if i < route.len() {
        assert(route.subrange(0, i + 1).drop_last() =~= route.subrange(0, i));
        lemma_mint_path_prefix_none(route, source, i + 1);
    } else {
        assert(route.subrange(0, i) =~= route);
    }
}

/// Each mint of a route's mint path is the one its pool leads to.
proof fn lemma_mint_path_steps(route: Seq<PoolEdge>, source: Seq<char>)
    ensures
        mint_path(route, source) matches Some(p) ==> {
            &&& p.len() == route.len() + 1
            &&& p[0] == source
            &&& forall|k: int| 0 <= k < route.len() ==> next_mint(#[trigger] route[k], p[k]) == Some(p[k + 1])
        },
    decreases route.len(),
{
    if route.len() > 0 {
        let init = route.drop_last();
        lemma_mint_path_steps(init, source);
        if let Some(p) = mint_path(route, source) {
            let q = mint_path(init, source)->0;
            assert(p == q.push(p.last()));
            assert forall|k: int| 0 <= k < route.len() implies next_mint(#[trigger] route[k], p[k]) == Some(p[k + 1]) by {
                if k < route.len() - 1 {
                    assert(init[k] == route[k]);
                    assert(p[k] == q[k] && p[k + 1] == q[k + 1]);
                }
            }
        }
    }
}

/// Whether hop `k` of `route` fails with `e`: its accounts cannot be
/// resolved (error `e`), or they can and its instruction cannot be built
/// (error `e`).
pub open spec fn hop_fails(
    route: Seq<PoolEdge>,
    path: Seq<Seq<char>>,
    payer: PubkeyBytes,
    accounts: Seq<PubkeyBytes>,
    amount_in: u64,
    cache: AccountCache,
    k: int,
    e: EngineError,
) -> bool {
    ||| resolves_to(route[k], payer, accounts[k], accounts[k + 1], cache, Err(e))
    ||| exists|acc: SwapAccounts| #[trigger] resolves_to(route[k], payer, accounts[k], accounts[k + 1], cache, Ok(acc))
        && builds_to(route[k], hop_direction(route[k], path[k]), if k == 0 { amount_in } else { 0 }, 0, acc, Err(e))
}

/// Whether planning `route` stops at hop `k` with error `e`: the hops
/// before it are planned (with the accounts `accs` and instructions `ixs`)
/// and hop `k` fails, `accounts` being the payer's token accounts of the
/// route's mints.
pub open spec fn fails_at(
    route: Seq<PoolEdge>,
    path: Seq<Seq<char>>,
    payer: PubkeyBytes,
    accounts: Seq<PubkeyBytes>,
    amount_in: u64,
    cache: AccountCache,
    k: int,
    accs: Seq<SwapAccounts>,
    ixs: Seq<Vec<SwapInstruction>>,
    e: EngineError,
) -> bool {
    &&& 0 <= k < route.len()
    &&& accounts.len() == route.len() + 1
    &&& forall|x: int| 0 <= x <= route.len() ==> (#[trigger] accounts[x]).bytes() == ata_of(payer, path[x])
    &&& forall|x: int| 0 <= x < k ==> #[trigger] hop_planned(route, path, payer, accounts, amount_in, cache, x,
        accs[x], ixs[x])
    &&& hop_fails(route, path, payer, accounts, amount_in, cache, k, e)
}

/// Plans the simulation of sending `amount_in` of `source_mint` along
/// `route` from `payer`'s simulated token accounts. Fails with
/// `MintNotInPool` when the route does not trade the mint it reaches, else
/// with the error of the first hop whose accounts or instruction cannot be
/// produced.
pub fn plan_route_simulation(
    route: &[PoolEdge],
    source_mint: &str,
    payer: &PubkeyBytes,
    amount_in: u64,
    cache: &AccountCache,
) -> (r: Result<RoutePlan, EngineError>)
    ensures
        mint_path(route@, source_mint@) is None <==> r == Err::<RoutePlan, EngineError>(EngineError::MintNotInPool),
        r matches Ok(plan) ==> mint_path(route@, source_mint@) matches Some(path) && {
            let n = route@.len() as int;
            &&& plan.path_accounts@.len() == n + 1
            &&& forall|k: int| 0 <= k <= n ==> (#[trigger] plan.path_accounts@[k]).bytes() == ata_of(*payer, path[k])
            &&& plan.target_account == plan.path_accounts@[n]
            &&& plan.token_accounts@.len() == if n == 0 { 2 } else { n + 1 }
            &&& planned_is(plan.token_accounts@[0], *payer, path[0], amount_in)
            &&& planned_is(plan.token_accounts@[1], *payer, path[n], 0)
            &&& forall|i: int| 2 <= i < plan.token_accounts@.len() ==> planned_is(#[trigger] plan.token_accounts@[i], *payer, path[i - 1], 0)
            &&& exists|accs: Seq<SwapAccounts>, ixs: Seq<Vec<SwapInstruction>>| {
                &&& accs.len() == n && ixs.len() == n
                &&& forall|k: int| 0 <= k < n ==> #[trigger] hop_planned(route@, path, *payer, plan.path_accounts@,
                    amount_in, *cache, k, accs[k], ixs[k])
                &&& plan.instructions@ == concat_instructions(ixs)
            }
        },
        r matches Err(e) ==> e == EngineError::MintNotInPool || (mint_path(route@, source_mint@) matches Some(path)
            && exists|k: int, accounts: Seq<PubkeyBytes>, accs: Seq<SwapAccounts>, ixs: Seq<Vec<SwapInstruction>>|
                #[trigger] fails_at(route@, path, *payer, accounts, amount_in, *cache, k, accs, ixs, e)),
{
    let n = route.len();
    // The mints along the route.
    let mut path: Vec<String> = Vec::new();
    path.push(source_mint.to_owned());
    let mut i: usize = 0;
    while i < n
        invariant
            n == route@.len(),
            i <= n,
            path@.len() == i + 1,
            mint_path(route@.subrange(0, i as int), source_mint@) matches Some(p)
                && p.len() == i + 1 && forall|k: int| 0 <= k <= i ==> (#[trigger] path@[k])@ == p[k],
        decreases n - i,
    {
        proof {
            assert(route@.subrange(0, i + 1).drop_last() =~= route@.subrange(0, i as int));
        }
        let last = path[i].as_str();
        match output_mint_for_hop(&route[i], last) {
            Ok(m) => {
                path.push(m.to_owned());
            },
            Err(e) => {
                proof {
                    assert(mint_path(route@.subrange(0, i + 1), source_mint@) is None);
                    lemma_mint_path_prefix_none(route@, source_mint@, i + 1);
                }
                return Err(e);
            },
        }
        i = i + 1;
    }
    proof {
        assert(route@.subrange(0, n as int) =~= route@);
        lemma_mint_path_steps(route@, source_mint@);
    }
    let ghost mpath = mint_path(route@, source_mint@)->0;
    let count = path.len();
    // The simulated token account of each mint.
    let mut atas: Vec<PubkeyBytes> = Vec::new();
    let mut j: usize = 0;
    while j < count
        invariant
            n == route@.len(),
            count == n + 1,
            path@.len() == n + 1,
            forall|k: int| 0 <= k <= n ==> (#[trigger] path@[k])@ == mpath[k],
            j <= n + 1,
            atas@.len() == j,
            forall|k: int| 0 <= k < j ==> (#[trigger] atas@[k]).bytes() == ata_of(*payer, mpath[k]),
        decreases n + 1 - j,
    {
        let m = path[j].as_str();
        proof {
            assert(m.spec_bytes() == encode_utf8(m@));
        }
        atas.push(derive_simulated_ata(payer, m));
        j = j + 1;
    }
    // The token accounts to create: source, target, then the intermediate ones.
    let mut token_accounts: Vec<PlannedTokenAccount> = Vec::new();
    token_accounts.push(PlannedTokenAccount { address: atas[0], mint: mint_key(path[0].as_str()), amount: amount_in });
    token_accounts.push(PlannedTokenAccount { address: atas[n], mint: mint_key(path[n].as_str()), amount: 0 });
    let mut k: usize = 1;
    while k < n
        invariant
            n == route@.len(),
            path@.len() == n + 1,
            atas@.len() == n + 1,
            forall|x: int| 0 <= x <= n ==> (#[trigger] path@[x])@ == mpath[x],
            forall|x: int| 0 <= x <= n ==> (#[trigger] atas@[x]).bytes() == ata_of(*payer, mpath[x]),
            1 <= k <= if n == 0 { 1 } else { n },
            token_accounts@.len() == k + 1,
            planned_is(token_accounts@[0], *payer, mpath[0], amount_in),
            planned_is(token_accounts@[1], *payer, mpath[n as int], 0),
            forall|x: int| 2 <= x < token_accounts@.len() ==> planned_is(#[trigger] token_accounts@[x], *payer, mpath[x - 1], 0),
        decreases n - k,
    {
        token_accounts.push(PlannedTokenAccount { address: atas[k], mint: mint_key(path[k].as_str()), amount: 0 });
        k = k + 1;
    }
    assert(token_accounts@.len() == if n == 0 { 2 } else { n + 1 });
    // The instructions of the hops.
    let mut instructions: Vec<SwapInstruction> = Vec::new();
    let ghost mut accs: Seq<SwapAccounts> = Seq::empty();
    let ghost mut hop_ixs: Seq<Vec<SwapInstruction>> = Seq::empty();
    let mut h: usize = 0;
    while h < n
        invariant
            n == route@.len(),
            path@.len() == n + 1,
            atas@.len() == n + 1,
            forall|x: int| 0 <= x <= n ==> (#[trigger] path@[x])@ == mpath[x],
            mint_path(route@, source_mint@) == Some(mpath),
            mpath.len() == n + 1,
            forall|x: int| 0 <= x <= n ==> (#[trigger] atas@[x]).bytes() == ata_of(*payer, mpath[x]),
            h <= n,
            accs.len() == h,
            hop_ixs.len() == h,
            forall|x: int| 0 <= x < h ==> #[trigger] hop_planned(route@, mpath, *payer, atas@, amount_in, *cache, x,
                accs[x], hop_ixs[x]),
            instructions@ == concat_instructions(hop_ixs),
        decreases n - h,
    {
        let pool = &route[h];
        let hop_mint = path[h].as_str();
        proof {
            lemma_mint_path_steps(route@, source_mint@);
            assert(next_mint(route@[h as int], mpath[h as int]) == Some(mpath[h + 1]));
        }
        let direction = match resolve_direction(pool, hop_mint) {
            Ok(d) => d,
            Err(e) => return Err(e),
        };
        let amount: u64 = if h == 0 { amount_in } else { 0 };
        let acc = match resolve_swap_accounts(pool, hop_mint, payer, &atas[h], &atas[h + 1], cache) {
            Ok(a) => a,
            Err(e) => {
                proof {
                    assert(e != EngineError::MintNotInPool);
                    assert(hop_fails(route@, mpath, *payer, atas@, amount_in, *cache, h as int, e));
                    assert(fails_at(route@, mpath, *payer, atas@, amount_in, *cache, h as int, accs, hop_ixs, e));
                }
                return Err(e);
            },
        };
        let mut ixs = match build_swap_instruction(pool, direction, amount, 0, &acc) {
            Ok(v) => v,
            Err(e) => {
                proof {
                    assert(e != EngineError::MintNotInPool);
                    assert(direction == hop_direction(route@[h as int], mpath[h as int]));
                    assert(builds_to(route@[h as int], hop_direction(route@[h as int], mpath[h as int]),
                        if h == 0 { amount_in } else { 0 }, 0, acc, Err(e)));
                    assert(hop_fails(route@, mpath, *payer, atas@, amount_in, *cache, h as int, e));
                    assert(fails_at(route@, mpath, *payer, atas@, amount_in, *cache, h as int, accs, hop_ixs, e));
                }
                return Err(e);
            },
        };
        let ghost hop = ixs;
        instructions.append(&mut ixs);
        proof {
            assert(direction == hop_direction(route@[h as int], mpath[h as int]));
            assert(hop_planned(route@, mpath, *payer, atas@, amount_in, *cache, h as int, acc, hop));
            let old_ixs = hop_ixs;
            let old_accs = accs;
            accs = accs.push(acc);
            hop_ixs = hop_ixs.push(hop);
            assert(hop_ixs.drop_last() =~= old_ixs);
            assert forall|x: int| 0 <= x < h + 1 implies #[trigger] hop_planned(route@, mpath, *payer, atas@, amount_in,
                *cache, x, accs[x], hop_ixs[x]) by {
                if x < h {
                    assert(accs[x] == old_accs[x]);
                    assert(hop_ixs[x] == old_ixs[x]);
                }
            }
        }
        h = h + 1;
    }
    let target = atas[n];
    let plan = RoutePlan { path_accounts: atas, target_account: target, token_accounts, instructions };
    proof {
        assert(accs.len() == n && hop_ixs.len() == n);
        assert(forall|x: int| 0 <= x < n ==> #[trigger] hop_planned(route@, mpath, *payer, plan.path_accounts@,
            amount_in, *cache, x, accs[x], hop_ixs[x]));
        assert(plan.instructions@ == concat_instructions(hop_ixs));
    }
    Ok(plan)
}

} // verus!
