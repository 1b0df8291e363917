//! Request classification, candidate selection and retry policy.

use vstd::prelude::*;
use crate::block::{has_number, BlockIndex, SavedBlock};
use crate::connection::Connection;
use crate::consensus::{SyncedConn, SyncedConnections};
use crate::strutil::str_eq;

verus! {

/// Every 64th routing decision probes the next tier so that a recovered
/// slower tier is noticed under sustained load.
pub const PROBE_INTERVAL: u64 = 64;

/// What kind of work a JSON-RPC method asks of the proxy.
#[derive(Clone, Copy, PartialEq, Eq, Structural, Debug)]
pub enum MethodClass {
    Subscribe,
    Unsubscribe,
    Write,
    Read,
}

/// The router's error taxonomy.
#[derive(Clone, Copy, PartialEq, Eq, Structural, Debug)]
pub enum Web3ProxyError {
    /// The request could not be parsed.
    InvalidRequest,
    /// The method name is not known.
    MethodNotFound,
    /// The params are malformed for the method.
    InvalidParams,
    NotSynced,
    NoBackendsAvailable,
    RateLimited,
    UpstreamTimeout,
    UpstreamTransport,
    Internal,
}

/// How a method name is classified.
pub open spec fn spec_classify(m: Seq<char>) -> MethodClass {
    if m == "eth_subscribe"@ {
        MethodClass::Subscribe
    } else if m == "eth_unsubscribe"@ {
        MethodClass::Unsubscribe
    } else if m == "eth_sendRawTransaction"@ {
        MethodClass::Write
    } else {
        MethodClass::Read
    }
}

/// Classifies a method name: subscription control, write fanout, or read.
pub fn classify(method: &str) -> (r: MethodClass)
    ensures
        r == spec_classify(method@),
{
    if str_eq(method, "eth_subscribe") {
        MethodClass::Subscribe
    } else if str_eq(method, "eth_unsubscribe") {
        MethodClass::Unsubscribe
    } else if str_eq(method, "eth_sendRawTransaction") {
        MethodClass::Write
    } else {
        MethodClass::Read
    }
}

/// A snapshot entry can serve the request: when the request targets a
/// historical block, the connection must still retain it.
pub open spec fn can_serve(conns: Seq<Connection>, need_block: Option<u64>) -> spec_fn(
    SyncedConn,
) -> bool {
    |e: SyncedConn|
        match need_block {
            Option::None => true,
            Option::Some(num) => e.conn < conns.len() && conns[e.conn as int].spec_has_block(num),
        }
}

/// Filters the snapshot's connections down to those able to serve a
/// request for the given block, keeping snapshot order.
pub fn select_candidates(
    snap: &SyncedConnections,
    conns: &Vec<Connection>,
    need_block: Option<u64>,
) -> (r: Vec<SyncedConn>)
    ensures
        r@ == snap.conns@.filter(can_serve(conns@, need_block)),
{
    let mut r: Vec<SyncedConn> = Vec::new();
    let n = snap.conns.len();
    proof {
        reveal(Seq::filter);
        assert(snap.conns@.take(0).filter(can_serve(conns@, need_block)) =~= Seq::<
            SyncedConn,
        >::empty());
    }
    for i in 0..n
        invariant
            n == snap.conns@.len(),
            r@ == snap.conns@.take(i as int).filter(can_serve(conns@, need_block)),
    {
        let e = snap.conns[i];
        let ok = match need_block {
            Option::None => true,
            Option::Some(num) => {
                if e.conn < conns.len() {
                    conns[e.conn].has_block(num)
                } else {
                    false
                }
            },
        };
        if ok {
            r.push(e);
        }
        proof {
            broadcast use Seq::lemma_filter_push;

            assert(can_serve(conns@, need_block)(snap.conns@[i as int]) == ok);
            assert(snap.conns@.take(i + 1) =~= snap.conns@.take(i as int).push(
                snap.conns@[i as int],
            ));
            assert(snap.conns@.take(i + 1).filter(can_serve(conns@, need_block))
                == snap.conns@.take(i as int).push(snap.conns@[i as int]).filter(
                can_serve(conns@, need_block),
            ));
        }
    }
    proof {
        assert(snap.conns@.take(n as int) =~= snap.conns@);
    }
    r
}

/// Rolling state of the router's fairness machinery.
pub struct RouterState {
    /// Routing decisions made so far.
    pub decisions: u64,
    /// Round-robin cursor for breaking exact ties.
    pub rr: u64,
}

impl RouterState {
    pub fn new() -> (r: RouterState)
        ensures
            r.decisions == 0,
            r.rr == 0,
    {
        RouterState { decisions: 0, rr: 0 }
    }
}

/// In-flight load the router reads of a snapshot entry; an entry whose
/// pool index is stale counts as fully loaded.
pub open spec fn spec_load(conns: Seq<Connection>, e: SyncedConn) -> u64 {
    if e.conn < conns.len() {
        conns[e.conn as int].in_flight
    } else {
        u64::MAX
    }
}

/// Ranked exactly alike: same tier and same recent latency.
pub open spec fn same_rank(a: SyncedConn, b: SyncedConn) -> bool {
    a.tier == b.tier && a.latency_us == b.latency_us
}

/// `g` delimits the leading run of candidates ranked exactly like the
/// head of the list.
pub open spec fn spec_lead_group(cands: Seq<SyncedConn>, g: int) -> bool {
    &&& 1 <= g <= cands.len()
    &&& forall|m: int| 0 <= m < g ==> same_rank(#[trigger] cands[m], cands[0])
    &&& g < cands.len() ==> !same_rank(cands[g], cands[0])
}

/// Position of group index `x` in a scan that starts round-robin at
/// `start` and wraps.
pub open spec fn spec_rot_pos(x: int, start: int, g: int) -> int {
    if x >= start {
        x - start
    } else {
        x + g - start
    }
}

/// Group index scanned at rotated position `p`.
pub open spec fn spec_rot_idx(p: int, start: int, g: int) -> int {
    if p < g - start {
        start + p
    } else {
        p - (g - start)
    }
}

/// Whether this routing decision probes a higher tier: every
/// `PROBE_INTERVAL`th decision does, when a candidate above tier 0
/// exists, so higher tiers are never starved.
pub open spec fn spec_probe_turn(decisions: u64, cands: Seq<SyncedConn>) -> bool {
    decisions % PROBE_INTERVAL == 0 && (exists|j: int|
        0 <= j < cands.len() && (#[trigger] cands[j]).tier >= 1)
}

/// Picks the candidate to try first. Candidates come in snapshot order
/// (tier, then latency). Normally the winner lies in the leading run of
/// equally ranked candidates, carries the fewest in-flight requests
/// there, and exact load ties go to the round-robin cursor's next turn;
/// on a probe turn the first candidate of a tier above 0 is chosen
/// instead.
#[verifier::loop_isolation(false)]
pub fn pick_candidate(state: &mut RouterState, cands: &Vec<SyncedConn>, conns: &Vec<Connection>) -> (r:
    Option<usize>)
    requires
        old(state).decisions < u64::MAX,
        old(state).rr < u64::MAX,
    ensures
        final(state).decisions == old(state).decisions + 1,
        (r is Some) <==> cands@.len() > 0,
        r matches Some(i) ==> i < cands@.len(),
        spec_probe_turn(old(state).decisions, cands@) ==> (r matches Some(i)
            && cands@[i as int].tier >= 1),
        (cands@.len() == 0 || spec_probe_turn(old(state).decisions, cands@)) ==> final(state).rr
            == old(state).rr,
        (cands@.len() > 0 && !spec_probe_turn(old(state).decisions, cands@)) ==> final(state).rr
            == old(state).rr + 1,
        (cands@.len() > 0 && !spec_probe_turn(old(state).decisions, cands@)) ==> (r matches Some(
            i,
        ) && (exists|g: int|
            {
                let start = old(state).rr as int % g;
                &&& #[trigger] spec_lead_group(cands@, g)
                &&& i < g
                &&& (forall|j: int|
                    0 <= j < g ==> spec_load(conns@, cands@[i as int]) <= spec_load(
                        conns@,
                        #[trigger] cands@[j],
                    ))
                &&& (forall|j: int|
                    0 <= j < g && spec_load(conns@, #[trigger] cands@[j]) == spec_load(
                        conns@,
                        cands@[i as int],
                    ) ==> spec_rot_pos(i as int, start, g) <= spec_rot_pos(j, start, g))
            })),
{
    state.decisions = state.decisions + 1;
    if cands.len() == 0 {
        return None;
    }
    if (state.decisions - 1) % PROBE_INTERVAL == 0 {
        let n = cands.len();
        for j in 0..n
            invariant
                n == cands@.len(),
                forall|t: int| 0 <= t < j ==> (#[trigger] cands@[t]).tier < 1,
        {
            if cands[j].tier >= 1 {
                return Some(j);
            }
        }
    }
    let t0 = cands[0].tier;
    let l0 = cands[0].latency_us;
    let mut group_end: usize = 1;
    let n = cands.len();
    while group_end < n && cands[group_end].tier == t0 && cands[group_end].latency_us == l0
        invariant
            1 <= group_end <= n,
            n == cands@.len(),
            forall|m: int| 0 <= m < group_end ==> same_rank(#[trigger] cands@[m], cands@[0]),
        decreases n - group_end,
    {
        group_end = group_end + 1;
    }
    proof {
        assert(spec_lead_group(cands@, group_end as int));
    }
    // Rotate the scan's starting point through the group of exactly
    // equally ranked candidates, so exact load ties are broken
    // round-robin.
    let start = (state.rr % (group_end as u64)) as usize;
    let ghost gi: int = group_end as int;
    let ghost st: int = start as int;
    let mut best: usize = start;
    let mut best_in_flight: u64 = u64::MAX;
    for j in 0..group_end
        invariant
            group_end <= cands@.len(),
            start < group_end,
            st == start as int,
            gi == group_end as int,
            best < group_end,
            j == 0 ==> best == start && best_in_flight == u64::MAX,
            j >= 1 ==> {
                &&& best_in_flight == spec_load(conns@, cands@[best as int])
                &&& spec_rot_pos(best as int, st, gi) < j
                &&& (forall|p: int|
                    0 <= p < j ==> best_in_flight <= spec_load(
                        conns@,
                        cands@[#[trigger] spec_rot_idx(p, st, gi)],
                    ))
                &&& (forall|p: int|
                    0 <= p < j && spec_load(conns@, cands@[#[trigger] spec_rot_idx(p, st, gi)])
                        == best_in_flight ==> spec_rot_pos(best as int, st, gi) <= p)
            },
    {
        let idx = if j < group_end - start {
            start + j
        } else {
            j - (group_end - start)
        };
        proof {
            assert(idx as int == spec_rot_idx(j as int, st, gi));
            assert(spec_rot_pos(idx as int, st, gi) == j as int);
        }
        let e = cands[idx];
        let infl = if e.conn < conns.len() {
            conns[e.conn].in_flight
        } else {
            u64::MAX
        };
        proof {
            assert(infl == spec_load(conns@, cands@[idx as int]));
        }
        if infl < best_in_flight {
            best = idx;
            best_in_flight = infl;
        } else {
            proof {
                if j == 0 {
                    assert(best == start && idx == start);
                    assert(best_in_flight == u64::MAX);
                    assert(infl == u64::MAX);
                    assert(best_in_flight == spec_load(conns@, cands@[best as int]));
                }
            }
        }
    }
    state.rr = state.rr + 1;
    proof {
        assert forall|jj: int| 0 <= jj < gi implies spec_load(conns@, cands@[best as int])
            <= spec_load(conns@, #[trigger] cands@[jj]) by {
            let p = spec_rot_pos(jj, st, gi);
            assert(0 <= p < gi);
            assert(spec_rot_idx(p, st, gi) == jj);
        }
        assert forall|jj: int|
            0 <= jj < gi && spec_load(conns@, #[trigger] cands@[jj]) == spec_load(
                conns@,
                cands@[best as int],
            ) implies spec_rot_pos(best as int, st, gi) <= spec_rot_pos(jj, st, gi) by {
            let p = spec_rot_pos(jj, st, gi);
            assert(0 <= p < gi);
            assert(spec_rot_idx(p, st, gi) == jj);
        }
        assert(st == old(state).rr as int % gi);
    }
    Some(best)
}

/// Gate for a read request: with no published snapshot the proxy is not
/// synced; with a snapshot but no candidate able to serve the requested
/// block, no backend is available. Otherwise the candidates to try, in
/// snapshot order.
pub fn plan_read(
    snap: &SyncedConnections,
    conns: &Vec<Connection>,
    need_block: Option<u64>,
) -> (r: Result<Vec<SyncedConn>, Web3ProxyError>)
    ensures
        snap.conns@.len() == 0 ==> r == Result::<Vec<SyncedConn>, Web3ProxyError>::Err(
            Web3ProxyError::NotSynced,
        ),
        snap.conns@.len() > 0 && snap.conns@.filter(can_serve(conns@, need_block)).len() == 0
            ==> r == Result::<Vec<SyncedConn>, Web3ProxyError>::Err(
            Web3ProxyError::NoBackendsAvailable,
        ),
        r matches Ok(cands) ==> cands@ == snap.conns@.filter(can_serve(conns@, need_block))
            && cands@.len() > 0,
        (r is Ok) <==> snap.conns@.filter(can_serve(conns@, need_block)).len() > 0,
{
    if snap.conns.len() == 0 {
        proof {
            reveal(Seq::filter);
            assert(snap.conns@.filter(can_serve(conns@, need_block)).len() == 0);
        }
        return Err(Web3ProxyError::NotSynced);
    }
    let cands = select_candidates(snap, conns, need_block);
    if cands.len() == 0 {
        Err(Web3ProxyError::NoBackendsAvailable)
    } else {
        Ok(cands)
    }
}

/// The JSON-RPC error code each router error surfaces as.
pub fn error_code(e: Web3ProxyError) -> (r: i64)
    ensures
        e is InvalidRequest ==> r == -32600,
        e is MethodNotFound ==> r == -32601,
        e is InvalidParams ==> r == -32602,
        e is NotSynced ==> r == -32000,
        e is NoBackendsAvailable ==> r == -32000,
        e is RateLimited ==> r == -32005,
        e is UpstreamTimeout ==> r == -32000,
        e is UpstreamTransport ==> r == -32000,
        e is Internal ==> r == -32603,
{
    match e {
        Web3ProxyError::InvalidRequest => -32600,
        Web3ProxyError::MethodNotFound => -32601,
        Web3ProxyError::InvalidParams => -32602,
        Web3ProxyError::NotSynced => -32000,
        Web3ProxyError::NoBackendsAvailable => -32000,
        Web3ProxyError::RateLimited => -32005,
        Web3ProxyError::UpstreamTimeout => -32000,
        Web3ProxyError::UpstreamTransport => -32000,
        Web3ProxyError::Internal => -32603,
    }
}

/// A block reference as a request names it, after parsing.
#[derive(Clone, Copy, PartialEq, Eq, Structural, Debug)]
pub enum BlockTag {
    Latest,
    Earliest,
    Pending,
    Number(u64),
    Hash(u64),
}

/// The hash of the one stored block at a height, when exactly one fork
/// is known there; ambiguous or unknown heights resolve to nothing.
pub open spec fn spec_unique_fork(idx: BlockIndex, n: u64) -> Option<u64> {
    let forks = idx.spec_blocks().filter(has_number(n));
    if forks.len() == 1 {
        Some(forks[0].hash)
    } else {
        None
    }
}

/// What a numeric tag resolves to: the synced head when the number is
/// the head's, otherwise the unique stored fork at that height.
pub open spec fn spec_resolve_number(head: Option<SavedBlock>, n: u64, idx: BlockIndex) -> Option<
    u64,
> {
    match head {
        Option::Some(b) => if b.number == n {
            Some(b.hash)
        } else {
            spec_unique_fork(idx, n)
        },
        Option::None => spec_unique_fork(idx, n),
    }
}

fn unique_fork(index: &BlockIndex, n: u64) -> (r: Option<u64>)
    ensures
        r == spec_unique_fork(*index, n),
{
    let forks = index.forks_at_number(n);
    if forks.len() == 1 {
        Some(forks[0].hash)
    } else {
        None
    }
}

/// Resolves a block tag to a concrete hash: `latest` through the synced
/// head, numbers through the head or the block index, `earliest` through
/// the index's genesis entry. `pending` and any block the proxy does not
/// know resolve to nothing, and such requests stay uncacheable.
pub fn resolve_block_tag(tag: &BlockTag, head: &Option<SavedBlock>, index: &BlockIndex) -> (r:
    Option<u64>)
    ensures
        (*tag) is Pending ==> r is None,
        tag matches BlockTag::Hash(h) ==> r == Some(*h),
        (*tag) is Latest ==> r == (match *head {
            Option::Some(b) => Some(b.hash),
            Option::None => None::<u64>,
        }),
        tag matches BlockTag::Number(n) ==> r == spec_resolve_number(*head, *n, *index),
        (*tag) is Earliest ==> r == spec_unique_fork(*index, 0),
{
    match tag {
        BlockTag::Pending => None,
        BlockTag::Hash(h) => Some(*h),
        BlockTag::Latest => match head {
            Option::Some(b) => Some(b.hash),
            Option::None => None,
        },
        BlockTag::Number(n) => match head {
            Option::Some(b) => {
                if b.number == *n {
                    Some(b.hash)
                } else {
                    unique_fork(index, *n)
                }
            },
            Option::None => unique_fork(index, *n),
        },
        BlockTag::Earliest => unique_fork(index, 0),
    }
}

/// How many local retries one connection gives a recoverable fault
/// before the failure counts against it.
pub const LOCAL_RETRIES: u64 = 2;

/// Base of the jittered backoff between local retries, milliseconds.
pub const LOCAL_RETRY_BACKOFF_MS: u64 = 50;

/// Per-connection retry policy for one attempt: transport and server
/// faults are retried locally up to `LOCAL_RETRIES` times (with the
/// jittered backoff applied by the caller); upstream JSON-RPC errors
/// and successes never are, and a passed deadline ends the attempt.
pub fn retry_locally(outcome: &TryOutcome, attempt: u64) -> (r: bool)
    ensures
        r == ((*outcome) is Transport && attempt < LOCAL_RETRIES),
{
    match outcome {
        TryOutcome::Transport => attempt < LOCAL_RETRIES,
        _ => false,
    }
}

/// What one attempt against an upstream produced.
pub enum TryOutcome {
    /// A well-formed response; its bytes.
    Success(Vec<u8>),
    /// A JSON-RPC error object from the upstream; its bytes. Upstream
    /// errors are authoritative.
    JsonRpcError(Vec<u8>),
    /// The transport failed or the upstream answered with a server fault.
    Transport,
    /// The per-try deadline passed.
    Timeout,
}

/// What the router does next after one attempt.
pub enum RouteAction {
    /// Reply to the client with these result bytes.
    Respond(Vec<u8>),
    /// Reply to the client with the upstream's error bytes, verbatim.
    RespondUpstreamError(Vec<u8>),
    /// Move on to the next candidate.
    TryNext,
    /// No candidates left: fail with this error.
    Fail(Web3ProxyError),
}

/// Retry policy for one attempt: success and upstream JSON-RPC errors
/// end the request immediately (the latter verbatim and never retried);
/// transport faults and timeouts move to the next candidate while one
/// remains, and otherwise surface as the matching router error.
pub fn dispatch_step(outcome: TryOutcome, remaining: usize) -> (r: RouteAction)
    ensures
        outcome matches TryOutcome::Success(bytes) ==> (r matches RouteAction::Respond(b) && b@
            == bytes@),
        outcome matches TryOutcome::JsonRpcError(bytes) ==> (r matches
            RouteAction::RespondUpstreamError(b) && b@ == bytes@),
        outcome is Transport && remaining > 0 ==> r is TryNext,
        outcome is Transport && remaining == 0 ==> r == RouteAction::Fail(
            Web3ProxyError::UpstreamTransport,
        ),
        outcome is Timeout && remaining > 0 ==> r is TryNext,
        outcome is Timeout && remaining == 0 ==> r == RouteAction::Fail(
            Web3ProxyError::UpstreamTimeout,
        ),
{
    match outcome {
        TryOutcome::Success(bytes) => RouteAction::Respond(bytes),
        TryOutcome::JsonRpcError(bytes) => RouteAction::RespondUpstreamError(bytes),
        TryOutcome::Transport => {
            if remaining > 0 {
                RouteAction::TryNext
            } else {
                RouteAction::Fail(Web3ProxyError::UpstreamTransport)
            }
        },
        TryOutcome::Timeout => {
            if remaining > 0 {
                RouteAction::TryNext
            } else {
                RouteAction::Fail(Web3ProxyError::UpstreamTimeout)
            }
        },
    }
}

} // verus!
