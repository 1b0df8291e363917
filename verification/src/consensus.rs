//! Consensus over upstream head blocks: which connections agree on the
//! same head, and the atomically published `SyncedConnections` snapshot.

use vstd::prelude::*;
use crate::block::SavedBlock;
use vstd::multiset::Multiset;
use crate::connection::{Connection, Health};

verus! {

/// What a snapshot remembers of one synced connection: its index in the
/// pool and the fields the router ranks by, captured at publication time.
#[derive(Clone, Copy, PartialEq, Eq, Structural, Debug)]
pub struct SyncedConn {
    /// Index of the connection in the pool.
    pub conn: usize,
    pub tier: u64,
    pub latency_us: u64,
    pub soft_limit: u64,
    /// Hash of the head this connection reported when the snapshot was built.
    pub head_hash: u64,
}

/// Ranking used for the snapshot's connection list: tier first, then
/// recent latency.
pub open spec fn entry_le(a: SyncedConn, b: SyncedConn) -> bool {
    a.tier < b.tier || (a.tier == b.tier && a.latency_us <= b.latency_us)
}

pub open spec fn entries_sorted(es: Seq<SyncedConn>) -> bool {
    forall|a: int, b: int| 0 <= a < b < es.len() ==> entry_le(es[a], es[b])
}

/// A collection of connections that are all on the same head block,
/// published atomically and never mutated afterwards.
#[derive(Clone, Debug)]
pub struct SyncedConnections {
    pub head_block: Option<SavedBlock>,
    pub conns: Vec<SyncedConn>,
}

impl SyncedConnections {
    /// Every listed connection reported exactly the snapshot's head hash;
    /// a snapshot without a head lists no connections.
    pub open spec fn coherent(self) -> bool {
        match self.head_block {
            Option::None => self.conns@.len() == 0,
            Option::Some(b) => forall|k: int|
                0 <= k < self.conns@.len() ==> (#[trigger] self.conns@[k]).head_hash == b.hash,
        }
    }

    pub open spec fn wf(self) -> bool {
        self.coherent() && entries_sorted(self.conns@)
    }

    /// The empty snapshot: not synced.
    pub fn empty() -> (r: SyncedConnections)
        ensures
            r.wf(),
            r.head_block is None,
            r.conns@.len() == 0,
    {
        SyncedConnections { head_block: None, conns: Vec::new() }
    }
}

/// Law: in every well-formed snapshot, each listed connection's reported
/// head hash equals the snapshot head's hash.
pub proof fn lemma_snapshot_coherence(s: SyncedConnections, k: int)
    requires
        s.wf(),
        0 <= k < s.conns@.len(),
    ensures
        s.head_block is Some,
        s.conns@[k].head_hash == s.head_block->Some_0.hash,
{
}

/// The head a connection reported; meaningful only when `head is Some`.
pub open spec fn spec_head(c: Connection) -> SavedBlock {
    c.head->Some_0
}

/// Connection `i` contributes a vote for head hash `h`.
pub open spec fn votes_for(s: Seq<Connection>, i: int, h: u64) -> bool {
    &&& 0 <= i < s.len()
    &&& s[i].spec_votes()
    &&& spec_head(s[i]).hash == h
}

/// Number of healthy connections whose head hash is `h`.
pub open spec fn count_votes(s: Seq<Connection>, h: u64) -> nat
    decreases s.len(),
{
    if s.len() == 0 {
        0
    } else {
        count_votes(s.drop_last(), h) + (if s.last().spec_votes() && spec_head(s.last()).hash
            == h {
            1nat
        } else {
            0nat
        })
    }
}

/// Total soft limit of the contributors to head hash `h`.
pub open spec fn weight_votes(s: Seq<Connection>, h: u64) -> int
    decreases s.len(),
{
    if s.len() == 0 {
        0
    } else {
        weight_votes(s.drop_last(), h) + (if s.last().spec_votes() && spec_head(s.last()).hash
            == h {
            s.last().soft_limit as int
        } else {
            0
        })
    }
}

/// `min_synced_rpcs == 0` still requires one healthy contributor.
pub open spec fn spec_threshold(min_synced_rpcs: usize) -> nat {
    if min_synced_rpcs == 0 {
        1nat
    } else {
        min_synced_rpcs as nat
    }
}

/// A head hash passes the consensus thresholds.
pub open spec fn eligible(s: Seq<Connection>, h: u64, min_synced_rpcs: usize, min_sum_soft_limit: u64) -> bool {
    &&& count_votes(s, h) >= spec_threshold(min_synced_rpcs)
    &&& weight_votes(s, h) >= min_sum_soft_limit
}

/// Deterministic candidate order: highest block number, then highest
/// total weight, then lexicographically smallest hash.
pub open spec fn cand_beats(num_a: u64, w_a: int, h_a: u64, num_b: u64, w_b: int, h_b: u64) -> bool {
    ||| num_a > num_b
    ||| (num_a == num_b && w_a > w_b)
    ||| (num_a == num_b && w_a == w_b && h_a < h_b)
}

/// Connections that agree on a head hash agree on the whole head block:
/// a hash identifies one block.
pub open spec fn heads_consistent(s: Seq<Connection>) -> bool {
    forall|i: int, j: int|
        0 <= i < s.len() && 0 <= j < s.len() && s[i].head is Some && s[j].head is Some
            && (#[trigger] spec_head(s[i])).hash == (#[trigger] spec_head(s[j])).hash ==> spec_head(
            s[i],
        ) == spec_head(s[j])
}

/// The snapshot entry that connection `i` would contribute.
pub open spec fn entry_of(s: Seq<Connection>, i: int) -> SyncedConn {
    SyncedConn {
        conn: i as usize,
        tier: s[i].tier,
        latency_us: s[i].latency_us,
        soft_limit: s[i].soft_limit,
        head_hash: spec_head(s[i]).hash,
    }
}

/// The entries of all contributors to winning hash `w`, in pool order.
pub open spec fn synced_entries(s: Seq<Connection>, w: u64) -> Seq<SyncedConn>
    decreases s.len(),
{
    if s.len() == 0 {
        Seq::empty()
    } else {
        let rest = synced_entries(s.drop_last(), w);
        if s.last().spec_votes() && spec_head(s.last()).hash == w {
            rest.push(entry_of(s, s.len() - 1))
        } else {
            rest
        }
    }
}

/// Facts about the contributor entries: each entry records a real
/// contributor of `w`, and every contributor is listed.
pub proof fn lemma_synced_entries_props(s: Seq<Connection>, w: u64)
    requires
        s.len() <= usize::MAX,
    ensures
        forall|k: int|
            0 <= k < synced_entries(s, w).len() ==> {
                let e = #[trigger] synced_entries(s, w)[k];
                votes_for(s, e.conn as int, w) && e == entry_of(s, e.conn as int) && e.head_hash
                    == w
            },
        forall|i: int| votes_for(s, i, w) ==> synced_entries(s, w).contains(entry_of(s, i)),
    decreases s.len(),
{
    if s.len() > 0 {
        lemma_synced_entries_props(s.drop_last(), w);
        let rest = synced_entries(s.drop_last(), w);
        assert forall|k: int| 0 <= k < synced_entries(s, w).len() implies {
            let e = #[trigger] synced_entries(s, w)[k];
            votes_for(s, e.conn as int, w) && e == entry_of(s, e.conn as int) && e.head_hash == w
        } by {
            if k < rest.len() {
                let e = rest[k];
                assert(votes_for(s.drop_last(), e.conn as int, w));
                assert(entry_of(s.drop_last(), e.conn as int) == entry_of(s, e.conn as int));
            } else {
                assert(synced_entries(s, w)[k] == entry_of(s, s.len() - 1));
            }
        }
        assert forall|i: int| votes_for(s, i, w) implies synced_entries(s, w).contains(
            entry_of(s, i),
        ) by {
            if i == s.len() - 1 {
                assert(synced_entries(s, w).last() == entry_of(s, i));
                assert(synced_entries(s, w)[synced_entries(s, w).len() - 1] == entry_of(s, i));
            } else {
                assert(votes_for(s.drop_last(), i, w));
                assert(rest.contains(entry_of(s.drop_last(), i)));
                let k = choose|k: int| 0 <= k < rest.len() && rest[k] == entry_of(s.drop_last(), i);
                assert(entry_of(s.drop_last(), i) == entry_of(s, i));
                assert(synced_entries(s, w)[k] == entry_of(s, i));
            }
        }
    }
}

/// There is a contributor exactly when the count is positive.
pub proof fn lemma_count_votes_pos(s: Seq<Connection>, h: u64)
    ensures
        count_votes(s, h) > 0 <==> exists|i: int| votes_for(s, i, h),
    decreases s.len(),
{
    if s.len() > 0 {
        lemma_count_votes_pos(s.drop_last(), h);
        if s.last().spec_votes() && spec_head(s.last()).hash == h {
            assert(votes_for(s, s.len() - 1, h));
        } else {
            if count_votes(s, h) > 0 {
                let i = choose|i: int| votes_for(s.drop_last(), i, h);
                assert(votes_for(s, i, h));
            }
            if exists|i: int| votes_for(s, i, h) {
                let i = choose|i: int| votes_for(s, i, h);
                assert(i < s.len() - 1);
                assert(votes_for(s.drop_last(), i, h));
            }
        }
    }
}

/// Comparison used to rank snapshot entries.
fn entry_le_exec(a: &SyncedConn, b: &SyncedConn) -> (r: bool)
    ensures
        r == entry_le(*a, *b),
{
    a.tier < b.tier || (a.tier == b.tier && a.latency_us <= b.latency_us)
}

/// Sorts snapshot entries by `(tier, latency)`, keeping exactly the same
/// entries.
fn sort_entries(v: Vec<SyncedConn>) -> (r: Vec<SyncedConn>)
    ensures
        entries_sorted(r@),
        r@.to_multiset() == v@.to_multiset(),
{
    broadcast use vstd::seq_lib::group_to_multiset_ensures;

    let mut src = v;
    let mut out: Vec<SyncedConn> = Vec::new();
    proof {
        assert(out@.to_multiset().add(src@.to_multiset()) =~= v@.to_multiset());
    }
    while src.len() > 0
        invariant
            out@.to_multiset().add(src@.to_multiset()) == v@.to_multiset(),
            entries_sorted(out@),
            forall|a: int, b: int|
                0 <= a < out@.len() && 0 <= b < src@.len() ==> entry_le(out@[a], src@[b]),
        decreases src@.len(),
    {
        let len = src.len();
        let mut m: usize = 0;
        for t in 1..len
            invariant
                m < t <= len,
                len == src@.len(),
                forall|u: int| 0 <= u < t ==> entry_le(src@[m as int], src@[u]),
        {
            if !entry_le_exec(&src[m], &src[t]) {
                m = t;
            }
        }
        let ghost old_out = out@;
        let ghost old_src = src@;
        let x = src.remove(m);
        out.push(x);
        proof {
            broadcast use vstd::multiset::group_multiset_axioms;

            vstd::seq_lib::to_multiset_remove(old_src, m as int);
            vstd::seq_lib::to_multiset_build(old_out, x);
            assert(src@ == old_src.remove(m as int));
            assert(old_src[m as int] == x);
            assert(out@ == old_out.push(x));
            assert(src@.to_multiset() == old_src.to_multiset().remove(x));
            assert(out@.to_multiset() =~= old_out.to_multiset().insert(x));
            vstd::seq_lib::to_multiset_contains(old_src, x);
            assert(old_src.contains(x));
            assert(old_src.to_multiset().count(x) > 0);
            assert(out@.to_multiset().add(src@.to_multiset()) =~= v@.to_multiset()) by {
                assert forall|y: SyncedConn|
                    out@.to_multiset().add(src@.to_multiset()).count(y) == v@.to_multiset().count(
                        y,
                    ) by {
                    assert(old_out.to_multiset().add(old_src.to_multiset()).count(y)
                        == v@.to_multiset().count(y));
                }
            }
            assert forall|a: int, b: int|
                0 <= a < out@.len() && 0 <= b < src@.len() implies entry_le(out@[a], src@[b]) by {
                if a < old_out.len() {
                    if b < m {
                        assert(src@[b] == old_src[b]);
                    } else {
                        assert(src@[b] == old_src[b + 1]);
                    }
                } else {
                    assert(out@[a] == x);
                    if b < m {
                        assert(src@[b] == old_src[b]);
                        assert(entry_le(x, old_src[b]));
                    } else {
                        assert(src@[b] == old_src[b + 1]);
                        assert(entry_le(x, old_src[b + 1]));
                    }
                }
            }
            assert forall|a: int, b: int| 0 <= a < b < out@.len() implies entry_le(
                out@[a],
                out@[b],
            ) by {
                if b == out@.len() - 1 {
                    assert(out@[b] == x);
                    assert(entry_le(old_out[a], old_src[m as int]));
                } else {
                    assert(out@[a] == old_out[a] && out@[b] == old_out[b]);
                }
            }
        }
    }
    proof {
        broadcast use vstd::multiset::group_multiset_axioms;

        assert(out@.to_multiset() =~= v@.to_multiset()) by {
            assert forall|y: SyncedConn|
                out@.to_multiset().count(y) == v@.to_multiset().count(y) by {
                vstd::seq_lib::to_multiset_contains(src@, y);
                assert(!src@.contains(y));
                assert(src@.to_multiset().count(y) == 0);
                assert(out@.to_multiset().add(src@.to_multiset()).count(y) == v@.to_multiset().count(y));
            }
        }
    }
    out
}

/// Counts the contributors to head hash `h` and sums their soft limits.
fn tally_votes(conns: &Vec<Connection>, h: u64) -> (r: (u64, u64))
    requires
        forall|i: int| 0 <= i < conns@.len() ==> (#[trigger] conns@[i]).wf(),
        conns@.len() <= 0xffff_ffff,
    ensures
        r.0 == count_votes(conns@, h),
        r.1 == weight_votes(conns@, h),
{
    let mut count: u64 = 0;
    let mut weight: u64 = 0;
    let n = conns.len();
    proof {
        assert(conns@.take(0) =~= Seq::<Connection>::empty());
    }
    for j in 0..n
        invariant
            n == conns@.len() <= 0xffff_ffff,
            forall|i: int| 0 <= i < conns@.len() ==> (#[trigger] conns@[i]).wf(),
            count == count_votes(conns@.take(j as int), h),
            weight == weight_votes(conns@.take(j as int), h),
            count <= j,
    {
        proof {
            assert(conns@.take(j + 1).drop_last() =~= conns@.take(j as int));
            assert(conns@.take(j + 1).last() == conns@[j as int]);
            lemma_weight_bound(conns@.take(j as int), h);
            assert(j * 0xffff_ffff + 0xffff_ffff <= 0xffff_ffff * 0xffff_ffff)
                by (nonlinear_arith)
                requires
                    0 <= j < 0xffff_ffff,
            ;
            assert(0xffff_ffff * 0xffff_ffff <= u64::MAX);
        }
        if conns[j].health == Health::Healthy {
            match &conns[j].head {
                Option::Some(b) => {
                    if b.hash == h {
                        count = count + 1;
                        weight = weight + conns[j].soft_limit;
                    }
                },
                Option::None => {},
            }
        }
    }
    proof {
        assert(conns@.take(n as int) =~= conns@);
    }
    (count, weight)
}

/// One distinct head hash seen during a snapshot build, with the block
/// number its first reporter gave.
#[derive(Clone, Copy, PartialEq, Eq, Structural, Debug)]
struct Candidate {
    hash: u64,
    number: u64,
}

spec fn cand_contains(cs: Seq<Candidate>, h: u64) -> bool {
    exists|k: int| 0 <= k < cs.len() && cs[k].hash == h
}

/// Collects the distinct head hashes reported by healthy connections,
/// each with the block number its first reporter gave. The ghost result
/// holds, for each candidate, the index of one contributor.
#[verifier::loop_isolation(false)]
fn collect_candidates(conns: &Vec<Connection>) -> (r: (Vec<Candidate>, Ghost<Seq<int>>))
    ensures
        r.1@.len() == r.0@.len(),
        forall|k: int|
            0 <= k < r.0@.len() ==> votes_for(conns@, r.1@[k], (#[trigger] r.0@[k]).hash)
                && spec_head(conns@[r.1@[k]]).number == r.0@[k].number,
        forall|i2: int, h: u64| #[trigger] votes_for(conns@, i2, h) ==> cand_contains(r.0@, h),
{
    let n = conns.len();
    let mut cands: Vec<Candidate> = Vec::new();
    let ghost mut wits: Seq<int> = Seq::empty();
    for i in 0..n
        invariant
            n == conns@.len(),
            wits.len() == cands@.len(),
            forall|k: int|
                0 <= k < cands@.len() ==> votes_for(conns@, wits[k], (#[trigger] cands@[k]).hash)
                    && spec_head(conns@[wits[k]]).number == cands@[k].number,
            forall|i2: int, h: u64|
                0 <= i2 < i && #[trigger] votes_for(conns@, i2, h) ==> cand_contains(cands@, h),
    {
        let healthy = conns[i].health == Health::Healthy;
        let head_i = conns[i].head;
        if healthy {
            match head_i {
                Option::Some(b) => {
                    let mut found = false;
                    let clen = cands.len();
                    for k in 0..clen
                        invariant
                            clen == cands@.len(),
                            found <==> exists|k2: int| 0 <= k2 < k && cands@[k2].hash == b.hash,
                    {
                        if cands[k].hash == b.hash {
                            found = true;
                        }
                    }
                    let ghost old_cands = cands@;
                    if !found {
                        cands.push(Candidate { hash: b.hash, number: b.number });
                        proof {
                            wits = wits.push(i as int);
                            assert(cands@[cands@.len() - 1] == Candidate {
                                hash: b.hash,
                                number: b.number,
                            });
                            assert(votes_for(conns@, i as int, b.hash));
                            assert(spec_head(conns@[i as int]).number == b.number);
                            assert forall|k: int| 0 <= k < cands@.len() implies votes_for(
                                conns@,
                                wits[k],
                                (#[trigger] cands@[k]).hash,
                            ) && spec_head(conns@[wits[k]]).number == cands@[k].number by {
                                if k < old_cands.len() {
                                    assert(cands@[k] == old_cands[k]);
                                } else {
                                    assert(wits[k] == i as int);
                                }
                            }
                        }
                    }
                    proof {
                        assert forall|i2: int, h: u64|
                            0 <= i2 < i + 1 && #[trigger] votes_for(conns@, i2, h) implies
                        cand_contains(cands@, h) by {
                            if i2 == i {
                                assert(h == b.hash);
                                if found {
                                    let k2 = choose|k2: int|
                                        0 <= k2 < old_cands.len() && old_cands[k2].hash == b.hash;
                                    assert(cands@[k2].hash == h);
                                } else {
                                    assert(cands@[cands@.len() - 1].hash == h);
                                }
                            } else {
                                let k2 = choose|k2: int|
                                    0 <= k2 < old_cands.len() && old_cands[k2].hash == h;
                                assert(cands@[k2].hash == h);
                            }
                        }
                    }
                },
                Option::None => {},
            }
        }
    }
    (cands, Ghost(wits))
}

/// What it means for a snapshot to be the consensus view of a pool:
/// the winning head is an eligible voted head that no other eligible
/// candidate beats, and the snapshot lists exactly its contributors.
pub open spec fn is_consensus_of(
    snap: SyncedConnections,
    s: Seq<Connection>,
    min_synced_rpcs: usize,
    min_sum_soft_limit: u64,
) -> bool {
    &&& snap.wf()
    &&& ((snap.head_block is Some) <==> (exists|h: u64, i: int|
        #[trigger] votes_for(s, i, h) && eligible(s, h, min_synced_rpcs, min_sum_soft_limit)))
    &&& (snap.head_block is None ==> snap.conns@.len() == 0)
    &&& (snap.head_block matches Some(b) ==> {
        &&& exists|i: int| #[trigger] votes_for(s, i, b.hash) && s[i].head == Some(b)
        &&& eligible(s, b.hash, min_synced_rpcs, min_sum_soft_limit)
        &&& forall|h: u64, i: int|
            #[trigger] votes_for(s, i, h) && eligible(s, h, min_synced_rpcs, min_sum_soft_limit)
                ==> !cand_beats(
                spec_head(s[i]).number,
                weight_votes(s, h),
                h,
                b.number,
                weight_votes(s, b.hash),
                b.hash,
            )
        &&& snap.conns@.to_multiset() == synced_entries(s, b.hash).to_multiset()
    })
}

/// Builds the consensus snapshot from the pool, as of one debounced round
/// of head updates.
///
/// The winning head is the eligible hash with the highest block number,
/// breaking ties by highest total soft limit and then by smallest hash;
/// the snapshot lists exactly the winner's contributors, sorted by
/// `(tier, latency)`. When no hash passes the thresholds the snapshot is
/// empty and the proxy is not synced.
#[verifier::loop_isolation(false)]
#[verifier::rlimit(100)]
pub fn build_snapshot(
    conns: &Vec<Connection>,
    min_synced_rpcs: usize,
    min_sum_soft_limit: u64,
) -> (snap: SyncedConnections)
    requires
        heads_consistent(conns@),
        conns@.len() <= 0xffff_ffff,
        forall|i: int| 0 <= i < conns@.len() ==> (#[trigger] conns@[i]).wf(),
    ensures
        snap.wf(),
        is_consensus_of(snap, conns@, min_synced_rpcs, min_sum_soft_limit),
{
    let n = conns.len();
    let cw = collect_candidates(conns);
    let cands = cw.0;
    let ghost wits: Seq<int> = cw.1@;
    let thr: u64 = if min_synced_rpcs == 0 {
        1
    } else {
        min_synced_rpcs as u64
    };
    let mut best: Option<Candidate> = None;
    let mut best_weight: u64 = 0;
    let ghost mut best_wit: int = 0;
    let clen = cands.len();
    for k in 0..clen
        invariant
            clen == cands@.len(),
            thr == spec_threshold(min_synced_rpcs),
            best is None ==> forall|k2: int|
                0 <= k2 < k ==> !eligible(
                    conns@,
                    (#[trigger] cands@[k2]).hash,
                    min_synced_rpcs,
                    min_sum_soft_limit,
                ),
            best matches Some(bc) ==> {
                &&& votes_for(conns@, best_wit, bc.hash)
                &&& spec_head(conns@[best_wit]).number == bc.number
                &&& eligible(conns@, bc.hash, min_synced_rpcs, min_sum_soft_limit)
                &&& best_weight == weight_votes(conns@, bc.hash)
                &&& forall|k2: int|
                    0 <= k2 < k && eligible(
                        conns@,
                        (#[trigger] cands@[k2]).hash,
                        min_synced_rpcs,
                        min_sum_soft_limit,
                    ) ==> !cand_beats(
                        cands@[k2].number,
                        weight_votes(conns@, cands@[k2].hash),
                        cands@[k2].hash,
                        bc.number,
                        weight_votes(conns@, bc.hash),
                        bc.hash,
                    )
            },
    {
        let cand = cands[k];
        let tw = tally_votes(conns, cand.hash);
        let elig = tw.0 >= thr && tw.1 >= min_sum_soft_limit;
        proof {
            assert(elig == eligible(conns@, cand.hash, min_synced_rpcs, min_sum_soft_limit));
        }
        if elig {
            let replace = match &best {
                Option::None => true,
                Option::Some(bc) => (cand.number > bc.number || (cand.number == bc.number && (tw.1
                    > best_weight || (tw.1 == best_weight && cand.hash < bc.hash)))),
            };
            let ghost old_best = best;
            let ghost old_best_weight = best_weight;
            if replace {
                best = Some(cand);
                best_weight = tw.1;
                proof {
                    best_wit = wits[k as int];
                }
            }
            proof {
                let bc = best->Some_0;
                assert forall|k2: int|
                    0 <= k2 < k + 1 && eligible(
                        conns@,
                        (#[trigger] cands@[k2]).hash,
                        min_synced_rpcs,
                        min_sum_soft_limit,
                    ) implies !cand_beats(
                    cands@[k2].number,
                    weight_votes(conns@, cands@[k2].hash),
                    cands@[k2].hash,
                    bc.number,
                    weight_votes(conns@, bc.hash),
                    bc.hash,
                ) by {
                    if replace {
                        if k2 < k && old_best is Some {
                            let ob = old_best->Some_0;
                            assert(!cand_beats(
                                cands@[k2].number,
                                weight_votes(conns@, cands@[k2].hash),
                                cands@[k2].hash,
                                ob.number,
                                weight_votes(conns@, ob.hash),
                                ob.hash,
                            ));
                            assert(cand_beats(
                                cand.number,
                                weight_votes(conns@, cand.hash),
                                cand.hash,
                                ob.number,
                                weight_votes(conns@, ob.hash),
                                ob.hash,
                            ));
                        }
                    }
                }
            }
        }
    }
    match best {
        Option::None => {
            proof {
                assert forall|h: u64, i: int|
                    #[trigger] votes_for(conns@, i, h) implies !eligible(
                    conns@,
                    h,
                    min_synced_rpcs,
                    min_sum_soft_limit,
                ) by {
                    let k2 = choose|k2: int| 0 <= k2 < cands@.len() && cands@[k2].hash == h;
                    assert(!eligible(
                        conns@,
                        cands@[k2].hash,
                        min_synced_rpcs,
                        min_sum_soft_limit,
                    ));
                }
            }
            SyncedConnections::empty()
        },
        Option::Some(bc) => {
            let mut head: Option<SavedBlock> = None;
            for i in 0..n
                invariant
                    n == conns@.len(),
                    head is None ==> forall|j: int| 0 <= j < i ==> !votes_for(conns@, j, bc.hash),
                    head matches Some(hb) ==> (exists|j: int|
                        #[trigger] votes_for(conns@, j, bc.hash) && conns@[j].head == Some(hb)),
            {
                if head.is_none() {
                    let healthy = conns[i].health == Health::Healthy;
                    let head_i = conns[i].head;
                    if healthy {
                        match head_i {
                            Option::Some(b) => {
                                if b.hash == bc.hash {
                                    head = Some(b);
                                    proof {
                                        assert(votes_for(conns@, i as int, bc.hash));
                                    }
                                }
                            },
                            Option::None => {},
                        }
                    }
                }
            }
            proof {
                lemma_count_votes_pos(conns@, bc.hash);
                if head is None {
                    let i0 = choose|i0: int| votes_for(conns@, i0, bc.hash);
                    assert(false);
                }
            }
            let hb = match head {
                Option::Some(x) => x,
                Option::None => SavedBlock { hash: 0, number: 0, parent_hash: 0, received_at: 0 },
            };
            let mut entries: Vec<SyncedConn> = Vec::new();
            proof {
                assert(synced_entries(conns@.take(0), bc.hash) =~= Seq::<SyncedConn>::empty());
            }
            for i in 0..n
                invariant
                    n == conns@.len(),
                    entries@ == synced_entries(conns@.take(i as int), bc.hash),
            {
                let healthy = conns[i].health == Health::Healthy;
                let head_i = conns[i].head;
                if healthy {
                    match head_i {
                        Option::Some(b) => {
                            if b.hash == bc.hash {
                                entries.push(
                                    SyncedConn {
                                        conn: i,
                                        tier: conns[i].tier,
                                        latency_us: conns[i].latency_us,
                                        soft_limit: conns[i].soft_limit,
                                        head_hash: b.hash,
                                    },
                                );
                            }
                        },
                        Option::None => {},
                    }
                }
                proof {
                    assert(conns@.take(i + 1).drop_last() =~= conns@.take(i as int));
                    assert(conns@.take(i + 1).last() == conns@[i as int]);
                    if conns@[i as int].spec_votes() && spec_head(conns@[i as int]).hash
                        == bc.hash {
                        assert(entry_of(conns@.take(i + 1), i as int) == entry_of(
                            conns@,
                            i as int,
                        ));
                        assert(synced_entries(conns@.take(i + 1), bc.hash) == synced_entries(
                            conns@.take(i as int),
                            bc.hash,
                        ).push(entry_of(conns@.take(i + 1), i as int)));
                    }
                }
            }
            proof {
                assert(conns@.take(n as int) =~= conns@);
            }
            let sorted = sort_entries(entries);
            let snap = SyncedConnections { head_block: Some(hb), conns: sorted };
            proof {
                lemma_synced_entries_props(conns@, bc.hash);
                assert(hb.hash == bc.hash);
                assert forall|k: int| 0 <= k < snap.conns@.len() implies (
                #[trigger] snap.conns@[k]).head_hash == hb.hash by {
                    vstd::seq_lib::to_multiset_contains(snap.conns@, snap.conns@[k]);
                    assert(snap.conns@.contains(snap.conns@[k]));
                    assert(snap.conns@.to_multiset().count(snap.conns@[k]) > 0);
                    vstd::seq_lib::to_multiset_contains(
                        synced_entries(conns@, bc.hash),
                        snap.conns@[k],
                    );
                    assert(synced_entries(conns@, bc.hash).contains(snap.conns@[k]));
                }
                assert(snap.coherent());
                let ghost i3 = best_wit;
                let ghost ih = choose|j: int|
                    votes_for(conns@, j, bc.hash) && conns@[j].head == Some(hb);
                assert(spec_head(conns@[i3]) == spec_head(conns@[ih]));
                assert(hb.number == bc.number);
                assert forall|h: u64, i: int|
                    #[trigger] votes_for(conns@, i, h) && eligible(
                        conns@,
                        h,
                        min_synced_rpcs,
                        min_sum_soft_limit,
                    ) implies !cand_beats(
                    spec_head(conns@[i]).number,
                    weight_votes(conns@, h),
                    h,
                    hb.number,
                    weight_votes(conns@, hb.hash),
                    hb.hash,
                ) by {
                    let k2 = choose|k2: int| 0 <= k2 < cands@.len() && cands@[k2].hash == h;
                    let i2 = wits[k2];
                    assert(votes_for(conns@, i2, cands@[k2].hash));
                    assert(spec_head(conns@[i]) == spec_head(conns@[i2]));
                    assert(spec_head(conns@[i]).number == cands@[k2].number);
                    assert(!cand_beats(
                        cands@[k2].number,
                        weight_votes(conns@, cands@[k2].hash),
                        cands@[k2].hash,
                        bc.number,
                        weight_votes(conns@, bc.hash),
                        bc.hash,
                    ));
                }
                assert(votes_for(conns@, ih, hb.hash) && conns@[ih].head == Some(hb));
            }
            snap
        },
    }
}


/// The pool of upstream connections together with the currently
/// published consensus snapshot.
pub struct Web3Connections {
    pub conns: Vec<Connection>,
    pub synced_connections: SyncedConnections,
    pub min_synced_rpcs: usize,
    pub min_sum_soft_limit: u64,
}

impl Web3Connections {
    pub open spec fn wf(self) -> bool {
        &&& self.conns@.len() <= 0xffff_ffff
        &&& forall|i: int| 0 <= i < self.conns@.len() ==> (#[trigger] self.conns@[i]).wf()
        &&& heads_consistent(self.conns@)
        &&& is_consensus_of(
            self.synced_connections,
            self.conns@,
            self.min_synced_rpcs,
            self.min_sum_soft_limit,
        )
    }

    /// A fresh pool: nothing synced yet.
    pub fn new(conns: Vec<Connection>, min_synced_rpcs: usize, min_sum_soft_limit: u64) -> (r:
        Web3Connections)
        requires
            conns@.len() <= 0xffff_ffff,
            forall|i: int| 0 <= i < conns@.len() ==> (#[trigger] conns@[i]).wf(),
            heads_consistent(conns@),
        ensures
            r.wf(),
            r.conns == conns,
            r.min_synced_rpcs == min_synced_rpcs,
            r.min_sum_soft_limit == min_sum_soft_limit,
    {
        let snap = build_snapshot(&conns, min_synced_rpcs, min_sum_soft_limit);
        Web3Connections { conns, synced_connections: snap, min_synced_rpcs, min_sum_soft_limit }
    }

    /// Head block of the published snapshot.
    pub fn head_block(&self) -> (r: Option<SavedBlock>)
        ensures
            r == self.synced_connections.head_block,
    {
        self.synced_connections.head_block
    }

    /// Hash of the published head, when synced.
    pub fn head_block_hash(&self) -> (r: Option<u64>)
        ensures
            r is Some <==> self.synced_connections.head_block is Some,
            self.synced_connections.head_block matches Some(b) ==> r == Some(b.hash),
    {
        match self.synced_connections.head_block {
            Option::Some(b) => Some(b.hash),
            Option::None => None,
        }
    }

    /// Number of the published head, when synced.
    pub fn head_block_num(&self) -> (r: Option<u64>)
        ensures
            r is Some <==> self.synced_connections.head_block is Some,
            self.synced_connections.head_block matches Some(b) ==> r == Some(b.number),
    {
        match self.synced_connections.head_block {
            Option::Some(b) => Some(b.number),
            Option::None => None,
        }
    }

    /// Whether any connection is synced on the consensus head.
    pub fn synced(&self) -> (r: bool)
        ensures
            r == (self.synced_connections.conns@.len() != 0),
    {
        self.synced_connections.conns.len() != 0
    }

    pub fn num_synced_rpcs(&self) -> (r: usize)
        ensures
            r == self.synced_connections.conns@.len(),
    {
        self.synced_connections.conns.len()
    }

    /// A connection reported a new head: record the observation and
    /// republish the snapshot atomically.
    pub fn on_head_update(&mut self, idx: usize, b: SavedBlock)
        requires
            old(self).wf(),
            idx < old(self).conns@.len(),
            forall|j: int|
                0 <= j < old(self).conns@.len() && (#[trigger] old(self).conns@[j]).head is Some
                    && spec_head(old(self).conns@[j]).hash == b.hash ==> spec_head(
                    old(self).conns@[j],
                ) == b,
        ensures
            final(self).wf(),
            final(self).conns@.len() == old(self).conns@.len(),
            final(self).conns@[idx as int].head == Some(b),
            final(self).conns@[idx as int].health == Health::Healthy,
            forall|j: int|
                0 <= j < old(self).conns@.len() && j != idx ==> final(self).conns@[j] == old(
                    self,
                ).conns@[j],
            final(self).min_synced_rpcs == old(self).min_synced_rpcs,
            final(self).min_sum_soft_limit == old(self).min_sum_soft_limit,
            is_consensus_of(
                final(self).synced_connections,
                final(self).conns@,
                old(self).min_synced_rpcs,
                old(self).min_sum_soft_limit,
            ),
    {
        let c = &mut self.conns[idx];
        c.on_head_observation(b);
        proof {
            assert forall|i: int, j: int|
                0 <= i < self.conns@.len() && 0 <= j < self.conns@.len()
                    && self.conns@[i].head is Some && self.conns@[j].head is Some && (
                #[trigger] spec_head(self.conns@[i])).hash == (#[trigger] spec_head(
                    self.conns@[j],
                )).hash implies spec_head(self.conns@[i]) == spec_head(self.conns@[j]) by {
                if i == idx || j == idx {
                    assert(spec_head(self.conns@[idx as int]) == b);
                }
            }
        }
        let snap = build_snapshot(&self.conns, self.min_synced_rpcs, self.min_sum_soft_limit);
        self.synced_connections = snap;
    }
}

/// Weight is bounded by the number of connections times the largest
/// allowed soft limit.
proof fn lemma_weight_bound(s: Seq<Connection>, h: u64)
    requires
        forall|i: int| 0 <= i < s.len() ==> (#[trigger] s[i]).wf(),
    ensures
        0 <= weight_votes(s, h) <= s.len() * 0xffff_ffff,
    decreases s.len(),
{
    if s.len() == 0 {
    } else {
        lemma_weight_bound(s.drop_last(), h);
        assert((s.len() - 1) * 0xffff_ffff + 0xffff_ffff == s.len() * 0xffff_ffff)
            by (nonlinear_arith);
    }
}

} // verus!
