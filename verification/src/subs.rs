//! Fanning one upstream subscription out to many client sinks.

use vstd::prelude::*;

verus! {

/// Bound on each client's pending-event queue; beyond it the oldest
/// pending message is dropped rather than blocking the producer.
pub const SUBSCRIPTION_QUEUE_CAP: usize = 1024;

/// The kinds of upstream subscription streams. Two subscriptions are
/// equivalent, and share one upstream stream, exactly when their kinds
/// (including the log filter) are equal.
#[derive(Clone, Copy, PartialEq, Eq, Structural, Debug)]
pub enum SubKind {
    NewHeads,
    Logs { filter: u64 },
    NewPendingTransactions,
    Syncing,
}

/// Saturating counter bump.
pub open spec fn sat_inc(x: u64) -> u64 {
    if x == u64::MAX {
        x
    } else {
        (x + 1) as u64
    }
}

/// One client attached to a subscription: its pending events and, as
/// ghost bookkeeping, the full history of events fanned out to it.
pub struct ClientSink {
    pub client: u64,
    /// The opaque id handed to the client; unique across the process.
    pub sub_id: u64,
    /// Events delivered to this sink and not yet taken by the client.
    pub queue: Vec<u64>,
    /// How many pending events were discarded because the client was slow.
    pub dropped: u64,
    /// Every event ever fanned out to this sink, in upstream order.
    pub history: Ghost<Seq<u64>>,
}

impl ClientSink {
    /// The pending queue is always a contiguous suffix of the history:
    /// events reach the client in upstream order, and what backpressure
    /// discards is a contiguous run of oldest pending events.
    pub open spec fn wf(self) -> bool {
        &&& self.queue@.len() <= SUBSCRIPTION_QUEUE_CAP
        &&& self.queue@.len() <= self.history@.len()
        &&& self.queue@ == self.history@.skip(self.history@.len() - self.queue@.len())
    }

    /// The client takes its next pending event, oldest first.
    pub fn take_next(&mut self) -> (r: Option<u64>)
        requires
            old(self).wf(),
        ensures
            final(self).wf(),
            (r is Some) <==> old(self).queue@.len() > 0,
            r matches Some(ev) ==> ev == old(self).queue@[0] && final(self).queue@ == old(
                self,
            ).queue@.drop_first(),
            r is None ==> *final(self) == *old(self),
            final(self).history == old(self).history,
            final(self).client == old(self).client,
            final(self).sub_id == old(self).sub_id,
            final(self).dropped == old(self).dropped,
    {
        if self.queue.len() == 0 {
            return None;
        }
        let ev = self.queue.remove(0);
        proof {
            assert(self.queue@ =~= old(self).queue@.drop_first());
            assert(self.queue@ =~= self.history@.skip(
                self.history@.len() - self.queue@.len(),
            ));
        }
        Some(ev)
    }
}

/// Law: subscription ordering — each pending event a sink holds is the
/// corresponding entry of the upstream history, so a client sees events
/// in upstream order, with any backpressure drops contiguous and never
/// reordered.
pub proof fn lemma_subscription_ordering(s: ClientSink, i: int)
    requires
        s.wf(),
        0 <= i < s.queue@.len(),
    ensures
        s.queue@[i] == s.history@[s.history@.len() - s.queue@.len() + i],
{
}

/// The sink a new subscriber starts with: empty queue, no drops, no
/// history yet.
pub open spec fn fresh_sink(s: ClientSink, client: u64, sub_id: u64) -> bool {
    &&& s.client == client
    &&& s.sub_id == sub_id
    &&& s.queue@.len() == 0
    &&& s.dropped == 0
    &&& s.history@.len() == 0
}

/// One shared upstream subscription and the sinks attached to it.
pub struct Subscription {
    /// Id of the upstream handle.
    pub id: u64,
    pub kind: SubKind,
    /// Pool index of the connection carrying the upstream stream.
    pub conn: usize,
    pub sinks: Vec<ClientSink>,
}

impl Subscription {
    pub open spec fn wf(self) -> bool {
        forall|j: int| 0 <= j < self.sinks@.len() ==> (#[trigger] self.sinks@[j]).wf()
    }
}

/// The subscription after one sink is detached: the same stream, with
/// exactly the sink at `a` gone.
pub open spec fn sink_detached(o: Subscription, f: Subscription, a: int) -> bool {
    &&& f.kind == o.kind
    &&& f.id == o.id
    &&& f.conn == o.conn
    &&& f.sinks@ == o.sinks@.remove(a)
}

/// Fans upstream subscription streams out to clients. At most one
/// upstream subscription exists per kind.
pub struct SubscriptionHub {
    pub subs: Vec<Subscription>,
    /// Next opaque id to hand out; ids are never reused.
    pub next_id: u64,
    pub slow_client_drops: u64,
    /// Upstream `eth_subscribe` calls ever issued.
    pub upstream_opens: u64,
    /// Upstream subscriptions ever cancelled.
    pub upstream_cancels: u64,
}

impl SubscriptionHub {
    pub open spec fn spec_has_kind(self, kind: SubKind) -> bool {
        exists|i: int| 0 <= i < self.subs@.len() && (#[trigger] self.subs@[i]).kind == kind
    }

    pub open spec fn wf(self) -> bool {
        &&& forall|i: int, j: int|
            0 <= i < j < self.subs@.len() ==> (#[trigger] self.subs@[i]).kind != (
            #[trigger] self.subs@[j]).kind
        &&& forall|i: int| 0 <= i < self.subs@.len() ==> (#[trigger] self.subs@[i]).wf()
        &&& forall|i: int, a: int|
            0 <= i < self.subs@.len() && 0 <= a < self.subs@[i].sinks@.len() ==> (
            #[trigger] self.subs@[i].sinks@[a]).sub_id < self.next_id
        &&& forall|i: int, a: int, j: int, b: int|
            0 <= i < self.subs@.len() && 0 <= a < self.subs@[i].sinks@.len() && 0 <= j
                < self.subs@.len() && 0 <= b < self.subs@[j].sinks@.len() && (i != j || a != b)
                ==> (#[trigger] self.subs@[i].sinks@[a]).sub_id != (
            #[trigger] self.subs@[j].sinks@[b]).sub_id
    }

    pub fn new() -> (r: SubscriptionHub)
        ensures
            r.wf(),
            r.subs@.len() == 0,
            r.next_id == 1,
            r.slow_client_drops == 0,
            r.upstream_opens == 0,
            r.upstream_cancels == 0,
    {
        SubscriptionHub {
            subs: Vec::new(),
            next_id: 1,
            slow_client_drops: 0,
            upstream_opens: 0,
            upstream_cancels: 0,
        }
    }

    /// A client subscribes. The new opaque id is returned at once; the
    /// second component says whether a new upstream subscription had to
    /// be opened — exactly when no equivalent one existed.
    #[verifier::loop_isolation(false)]
    pub fn subscribe(&mut self, client: u64, kind: SubKind, conn: usize) -> (r: (u64, bool))
        requires
            old(self).wf(),
            old(self).next_id < u64::MAX,
            old(self).upstream_opens < u64::MAX,
        ensures
            final(self).wf(),
            r.0 == old(self).next_id,
            final(self).next_id == old(self).next_id + 1,
            r.1 == !old(self).spec_has_kind(kind),
            final(self).spec_has_kind(kind),
            r.1 ==> final(self).upstream_opens == old(self).upstream_opens + 1,
            !r.1 ==> final(self).upstream_opens == old(self).upstream_opens,
            final(self).slow_client_drops == old(self).slow_client_drops,
            final(self).upstream_cancels == old(self).upstream_cancels,
            r.1 ==> final(self).subs@.len() == old(self).subs@.len() + 1 && (forall|j: int|
                0 <= j < old(self).subs@.len() ==> final(self).subs@[j] == old(self).subs@[j])
                && final(self).subs@.last().kind == kind && final(self).subs@.last().conn == conn
                && final(self).subs@.last().sinks@.len() == 1 && fresh_sink(
                final(self).subs@.last().sinks@[0],
                client,
                r.0,
            ),
            !r.1 ==> final(self).subs@.len() == old(self).subs@.len() && (forall|j: int|
                0 <= j < old(self).subs@.len() ==> {
                    let o = #[trigger] old(self).subs@[j];
                    let f = final(self).subs@[j];
                    if o.kind == kind {
                        f.kind == o.kind && f.id == o.id && f.conn == o.conn && f.sinks@.len()
                            == o.sinks@.len() + 1 && f.sinks@.take(o.sinks@.len() as int)
                            == o.sinks@ && fresh_sink(f.sinks@.last(), client, r.0)
                    } else {
                        f == o
                    }
                }),
    {
        let id = self.next_id;
        self.next_id = self.next_id + 1;
        let sink = ClientSink {
            client,
            sub_id: id,
            queue: Vec::new(),
            dropped: 0,
            history: Ghost(Seq::empty()),
        };
        let n = self.subs.len();
        let mut at: Option<usize> = None;
        for i in 0..n
            invariant
                at is None ==> forall|j: int| 0 <= j < i ==> (#[trigger] self.subs@[j]).kind
                    != kind,
                at matches Some(x) ==> x < n && self.subs@[x as int].kind == kind,
        {
            if at.is_none() && self.subs[i].kind == kind {
                at = Some(i);
            }
        }
        match at {
            Option::Some(i) => {
                let mut sub = self.subs.remove(i);
                let ghost old_sub = sub;
                sub.sinks.push(sink);
                let ghost removed = self.subs@;
                self.subs.insert(i, sub);
                proof {
                    let so = old(self).subs@;
                    let sn = self.subs@;
                    assert(sn.len() == so.len());
                    assert forall|j: int| 0 <= j < sn.len() && j != i implies #[trigger] sn[j]
                        == so[j] by {
                        if j < i {
                            assert(removed[j] == so[j]);
                        } else {
                            assert(removed[j - 1] == so[j]);
                        }
                    }
                    assert(sn[i as int].kind == so[i as int].kind);
                    assert(sn[i as int].sinks@ == so[i as int].sinks@.push(sink));
                    assert(sink.wf()) by {
                        assert(sink.queue@ =~= sink.history@.skip(0));
                    }
                    assert forall|x: int| 0 <= x < sn.len() implies (#[trigger] sn[x]).wf() by {
                        if x == i {
                            assert forall|a: int| 0 <= a < sn[x].sinks@.len() implies (
                            #[trigger] sn[x].sinks@[a]).wf() by {
                                if a < so[x].sinks@.len() {
                                    assert(sn[x].sinks@[a] == so[x].sinks@[a]);
                                } else {
                                    assert(sn[x].sinks@[a] == sink);
                                }
                            }
                        }
                    }
                    assert forall|x: int, a: int|
                        0 <= x < sn.len() && 0 <= a < sn[x].sinks@.len() implies (
                    #[trigger] sn[x].sinks@[a]).sub_id < self.next_id by {
                        if x == i && a == sn[x].sinks@.len() - 1 {
                            assert(sn[x].sinks@[a] == sink);
                        } else if x == i {
                            assert(sn[x].sinks@[a] == so[x].sinks@[a]);
                        }
                    }
                    assert forall|x: int, a: int, y: int, b: int|
                        0 <= x < sn.len() && 0 <= a < sn[x].sinks@.len() && 0 <= y < sn.len() && 0
                            <= b < sn[y].sinks@.len() && (x != y || a != b) implies (
                    #[trigger] sn[x].sinks@[a]).sub_id != (#[trigger] sn[y].sinks@[b]).sub_id by {
                        let ax = if x == i && a == sn[x].sinks@.len() - 1 {
                            sink
                        } else {
                            so[x].sinks@[a]
                        };
                        let ay = if y == i && b == sn[y].sinks@.len() - 1 {
                            sink
                        } else {
                            so[y].sinks@[b]
                        };
                        assert(sn[x].sinks@[a] == ax);
                        assert(sn[y].sinks@[b] == ay);
                    }
                }
                (id, false)
            },
            Option::None => {
                let mut sinks: Vec<ClientSink> = Vec::new();
                sinks.push(sink);
                self.subs.push(Subscription { id, kind, conn, sinks });
                self.upstream_opens = self.upstream_opens + 1;
                proof {
                    let so = old(self).subs@;
                    let sn = self.subs@;
                    assert(sn.last().kind == kind);
                    assert(sink.wf()) by {
                        assert(sink.queue@ =~= sink.history@.skip(0));
                    }
                    assert(sinks@ == Seq::empty().push(sink));
                    assert forall|x: int| 0 <= x < sn.len() implies (#[trigger] sn[x]).wf() by {
                        if x < so.len() {
                            assert(sn[x] == so[x]);
                        } else {
                            assert(sn[x].sinks@[0] == sink);
                        }
                    }
                    assert forall|x: int, a: int|
                        0 <= x < sn.len() && 0 <= a < sn[x].sinks@.len() implies (
                    #[trigger] sn[x].sinks@[a]).sub_id < self.next_id by {
                        if x < so.len() {
                            assert(sn[x] == so[x]);
                        } else {
                            assert(sn[x].sinks@[a] == sink);
                        }
                    }
                    assert forall|x: int, a: int, y: int, b: int|
                        0 <= x < sn.len() && 0 <= a < sn[x].sinks@.len() && 0 <= y < sn.len() && 0
                            <= b < sn[y].sinks@.len() && (x != y || a != b) implies (
                    #[trigger] sn[x].sinks@[a]).sub_id != (#[trigger] sn[y].sinks@[b]).sub_id by {
                        if x < so.len() {
                            assert(sn[x] == so[x]);
                        } else {
                            assert(sn[x].sinks@[a] == sink);
                        }
                        if y < so.len() {
                            assert(sn[y] == so[y]);
                        } else {
                            assert(sn[y].sinks@[b] == sink);
                        }
                    }
                }
                (id, true)
            },
        }
    }

    /// One upstream event arrives on the subscription of the given kind:
    /// every attached sink receives it in order; a sink already holding
    /// `SUBSCRIPTION_QUEUE_CAP` pending events drops its oldest one
    /// instead of blocking anyone.
    #[verifier::loop_isolation(false)]
    pub fn on_event(&mut self, kind: SubKind, ev: u64)
        requires
            old(self).wf(),
        ensures
            final(self).wf(),
            final(self).subs@.len() == old(self).subs@.len(),
            final(self).next_id == old(self).next_id,
            final(self).upstream_opens == old(self).upstream_opens,
            final(self).upstream_cancels == old(self).upstream_cancels,
            forall|i: int|
                0 <= i < old(self).subs@.len() && (#[trigger] old(self).subs@[i]).kind != kind
                    ==> final(self).subs@[i] == old(self).subs@[i],
            forall|i: int|
                0 <= i < old(self).subs@.len() && (#[trigger] old(self).subs@[i]).kind == kind
                    ==> {
                    let o = old(self).subs@[i];
                    let f = final(self).subs@[i];
                    &&& f.kind == o.kind
                    &&& f.id == o.id
                    &&& f.conn == o.conn
                    &&& f.sinks@.len() == o.sinks@.len()
                    &&& forall|a: int|
                        0 <= a < o.sinks@.len() ==> sink_got_event(
                            #[trigger] o.sinks@[a],
                            f.sinks@[a],
                            ev,
                        )
                },
    {
        let n = self.subs.len();
        let mut at: Option<usize> = None;
        for i in 0..n
            invariant
                at is None ==> forall|j: int| 0 <= j < i ==> (#[trigger] self.subs@[j]).kind
                    != kind,
                at matches Some(x) ==> x < n && self.subs@[x as int].kind == kind,
        {
            if at.is_none() && self.subs[i].kind == kind {
                at = Some(i);
            }
        }
        match at {
            Option::None => {},
            Option::Some(i) => {
                let mut sub = self.subs.remove(i);
                let ghost osub = sub;
                let ghost after_rm = self.subs@;
                let m = sub.sinks.len();
                for a in 0..m
                    invariant
                        m == sub.sinks@.len(),
                        sub.sinks@.len() == osub.sinks@.len(),
                        sub.id == osub.id,
                        sub.kind == osub.kind,
                        sub.conn == osub.conn,
                        forall|b: int|
                            0 <= b < a ==> sink_got_event(
                                #[trigger] osub.sinks@[b],
                                sub.sinks@[b],
                                ev,
                            ),
                        forall|b: int| a <= b < m ==> sub.sinks@[b] == osub.sinks@[b],
                        self.subs@ == after_rm,
                        self.next_id == old(self).next_id,
                        self.upstream_opens == old(self).upstream_opens,
                        self.upstream_cancels == old(self).upstream_cancels,
                {
                    let mut sink = sub.sinks.remove(a);
                    let ghost osink = sink;
                    if sink.queue.len() >= SUBSCRIPTION_QUEUE_CAP {
                        sink.queue.remove(0);
                        sink.dropped = if sink.dropped < u64::MAX {
                            sink.dropped + 1
                        } else {
                            sink.dropped
                        };
                        self.slow_client_drops = if self.slow_client_drops < u64::MAX {
                            self.slow_client_drops + 1
                        } else {
                            self.slow_client_drops
                        };
                    }
                    sink.queue.push(ev);
                    proof {
                        sink.history@ = osink.history@.push(ev);
                    }
                    let ghost removed_sinks = sub.sinks@;
                    sub.sinks.insert(a, sink);
                    proof {
                        assert forall|b: int| a + 1 <= b < m implies #[trigger] sub.sinks@[b]
                            == osub.sinks@[b] by {
                            assert(sub.sinks@[b] == removed_sinks[b - 1]);
                        }
                        assert forall|b: int| 0 <= b < a implies sink_got_event(
                            osub.sinks@[b],
                            #[trigger] sub.sinks@[b],
                            ev,
                        ) by {
                            assert(sub.sinks@[b] == removed_sinks[b]);
                        }
                        assert(sink_got_event(osub.sinks@[a as int], sub.sinks@[a as int], ev))
                            by {
                            lemma_sink_event(osink, sub.sinks@[a as int], ev);
                        }
                    }
                }
                let ghost removed = self.subs@;
                self.subs.insert(i, sub);
                proof {
                    let so = old(self).subs@;
                    let sn = self.subs@;
                    assert forall|j: int| 0 <= j < sn.len() && j != i implies #[trigger] sn[j]
                        == so[j] by {
                        if j < i {
                            assert(removed[j] == so[j]);
                        } else {
                            assert(removed[j - 1] == so[j]);
                        }
                    }
                    assert(osub == so[i as int]);
                    assert(sn[i as int] == sub);
                    assert forall|b: int| 0 <= b < so[i as int].sinks@.len() implies
                    sink_got_event(#[trigger] so[i as int].sinks@[b], sn[i as int].sinks@[b], ev)
                        by {}
                    assert forall|x: int| 0 <= x < sn.len() implies (#[trigger] sn[x]).wf() by {
                        if x == i {
                            assert forall|b: int| 0 <= b < sn[x].sinks@.len() implies (
                            #[trigger] sn[x].sinks@[b]).wf() by {
                                lemma_sink_event(so[x].sinks@[b], sn[x].sinks@[b], ev);
                            }
                        }
                    }
                    assert forall|x: int, a: int|
                        0 <= x < sn.len() && 0 <= a < sn[x].sinks@.len() implies (
                    #[trigger] sn[x].sinks@[a]).sub_id < self.next_id by {
                        if x == i {
                            assert(sink_got_event(so[x].sinks@[a], sn[x].sinks@[a], ev));
                        }
                    }
                    assert forall|x: int, a: int, y: int, b: int|
                        0 <= x < sn.len() && 0 <= a < sn[x].sinks@.len() && 0 <= y < sn.len() && 0
                            <= b < sn[y].sinks@.len() && (x != y || a != b) implies (
                    #[trigger] sn[x].sinks@[a]).sub_id != (#[trigger] sn[y].sinks@[b]).sub_id by {
                        if x == i {
                            assert(sink_got_event(so[x].sinks@[a], sn[x].sinks@[a], ev));
                        }
                        if y == i {
                            assert(sink_got_event(so[y].sinks@[b], sn[y].sinks@[b], ev));
                        }
                    }
                }
            },
        }
    }

    /// A client unsubscribes. The first result says whether the id was
    /// found; the second whether detaching the client emptied the fanout
    /// set, in which case — and only then — the upstream subscription is
    /// cancelled.
    #[verifier::loop_isolation(false)]
    pub fn unsubscribe(&mut self, client: u64, id: u64) -> (r: (bool, bool))
        requires
            old(self).wf(),
            old(self).upstream_cancels < u64::MAX,
        ensures
            final(self).wf(),
            final(self).next_id == old(self).next_id,
            final(self).upstream_opens == old(self).upstream_opens,
            r.0 == (exists|i: int, a: int|
                0 <= i < old(self).subs@.len() && 0 <= a < old(self).subs@[i].sinks@.len() && (
                #[trigger] old(self).subs@[i].sinks@[a]).client == client && old(
                    self,
                ).subs@[i].sinks@[a].sub_id == id),
            !r.0 ==> *final(self) == *old(self),
            r.1 ==> final(self).upstream_cancels == old(self).upstream_cancels + 1,
            !r.1 ==> final(self).upstream_cancels == old(self).upstream_cancels,
            r.1 ==> final(self).subs@.len() == old(self).subs@.len() - 1,
            r.0 && !r.1 ==> final(self).subs@.len() == old(self).subs@.len(),
            r.1 ==> (exists|i: int|
                0 <= i < old(self).subs@.len() && (#[trigger] old(self).subs@[i]).sinks@.len()
                    == 1 && old(self).subs@[i].sinks@[0].client == client && old(
                    self,
                ).subs@[i].sinks@[0].sub_id == id && final(self).subs@ == old(self).subs@.remove(
                    i,
                )),
            r.0 && !r.1 ==> (exists|i: int, a: int|
                0 <= i < old(self).subs@.len() && 0 <= a < old(self).subs@[i].sinks@.len() && (
                #[trigger] old(self).subs@[i].sinks@[a]).client == client
                    && old(self).subs@[i].sinks@[a].sub_id == id
                    && old(self).subs@[i].sinks@.len() > 1
                    && sink_detached(old(self).subs@[i], final(self).subs@[i], a)
                    && (forall|j: int|
                    0 <= j < old(self).subs@.len() && j != i ==> final(self).subs@[j] == old(
                        self,
                    ).subs@[j])),
            r.0 ==> (exists|i: int, a: int|
                0 <= i < old(self).subs@.len() && 0 <= a < old(self).subs@[i].sinks@.len() && (
                #[trigger] old(self).subs@[i].sinks@[a]).client == client && old(
                    self,
                ).subs@[i].sinks@[a].sub_id == id && (r.1 <==> old(self).subs@[i].sinks@.len()
                    == 1)),
    {
        let n = self.subs.len();
        let mut si: Option<usize> = None;
        let mut sa: usize = 0;
        for i in 0..n
            invariant
                si is None ==> forall|j: int, b: int|
                    0 <= j < i && 0 <= b < self.subs@[j].sinks@.len() ==> !((#[trigger] self.subs@[j].sinks@[b]).client
                        == client && self.subs@[j].sinks@[b].sub_id == id),
                si matches Some(x) ==> x < n && sa < self.subs@[x as int].sinks@.len()
                    && self.subs@[x as int].sinks@[sa as int].client == client
                    && self.subs@[x as int].sinks@[sa as int].sub_id == id,
        {
            if si.is_none() {
                let m = self.subs[i].sinks.len();
                for a in 0..m
                    invariant
                        m == self.subs@[i as int].sinks@.len(),
                        si is None ==> forall|b: int|
                            0 <= b < a ==> !((#[trigger] self.subs@[i as int].sinks@[b]).client
                                == client && self.subs@[i as int].sinks@[b].sub_id == id),
                        si matches Some(x) ==> x < n && sa < self.subs@[x as int].sinks@.len()
                            && self.subs@[x as int].sinks@[sa as int].client == client
                            && self.subs@[x as int].sinks@[sa as int].sub_id == id,
                        si is None ==> forall|j: int, b: int|
                            0 <= j < i && 0 <= b < self.subs@[j].sinks@.len() ==> !((
                            #[trigger] self.subs@[j].sinks@[b]).client == client
                                && self.subs@[j].sinks@[b].sub_id == id),
                {
                    if si.is_none() && self.subs[i].sinks[a].client == client
                        && self.subs[i].sinks[a].sub_id == id {
                        si = Some(i);
                        sa = a;
                    }
                }
            }
        }
        match si {
            Option::None => (false, false),
            Option::Some(i) => {
                let mut sub = self.subs.remove(i);
                let ghost osub = sub;
                let last = sub.sinks.len() == 1;
                sub.sinks.remove(sa);
                let ghost removed = self.subs@;
                if last {
                    self.upstream_cancels = self.upstream_cancels + 1;
                    proof {
                        assert forall|j: int|
                            0 <= j < self.subs@.len() implies #[trigger] self.subs@[j] == (if j
                                < i {
                                old(self).subs@[j]
                            } else {
                                old(self).subs@[j + 1]
                            }) by {}
                    }
                    (true, true)
                } else {
                    self.subs.insert(i, sub);
                    proof {
                        assert forall|j: int|
                            0 <= j < self.subs@.len() && j != i implies self.subs@[j] == old(
                            self,
                        ).subs@[j] by {
                            if j < i {
                                assert(removed[j] == old(self).subs@[j]);
                            } else {
                                assert(removed[j - 1] == old(self).subs@[j]);
                            }
                        }
                        assert forall|b: int|
                            0 <= b < self.subs@[i as int].sinks@.len() implies
                            #[trigger] self.subs@[i as int].sinks@[b] == (if b < sa {
                                osub.sinks@[b]
                            } else {
                                osub.sinks@[b + 1]
                            }) by {}
                    }
                    (true, false)
                }
            },
        }
    }

    /// The upstream stream of the given kind was lost. With a Healthy
    /// replacement connection the subscription is re-opened there and
    /// every client stays attached; with none, the subscription is
    /// removed and the caller owes each of its clients a terminal error
    /// frame. Returns whether the subscription was removed.
    #[verifier::loop_isolation(false)]
    pub fn on_upstream_loss(&mut self, kind: SubKind, replacement: Option<usize>) -> (r: bool)
        requires
            old(self).wf(),
        ensures
            final(self).wf(),
            final(self).next_id == old(self).next_id,
            final(self).upstream_opens == old(self).upstream_opens,
            final(self).upstream_cancels == old(self).upstream_cancels,
            r == (old(self).spec_has_kind(kind) && replacement is None),
            !old(self).spec_has_kind(kind) ==> *final(self) == *old(self),
            replacement matches Some(c) ==> final(self).subs@.len() == old(self).subs@.len()
                && (forall|j: int|
                0 <= j < old(self).subs@.len() ==> {
                    let o = #[trigger] old(self).subs@[j];
                    if o.kind == kind {
                        final(self).subs@[j] == (Subscription { conn: c, ..o })
                    } else {
                        final(self).subs@[j] == o
                    }
                }),
            old(self).spec_has_kind(kind) && replacement is None ==> final(self).subs@.len()
                == old(self).subs@.len() - 1 && !final(self).spec_has_kind(kind) && (exists|i: int|
                0 <= i < old(self).subs@.len() && (#[trigger] old(self).subs@[i]).kind == kind
                    && final(self).subs@ == old(self).subs@.remove(i)),
    {
        let n = self.subs.len();
        let mut at: Option<usize> = None;
        for i in 0..n
            invariant
                at is None ==> forall|j: int| 0 <= j < i ==> (#[trigger] self.subs@[j]).kind
                    != kind,
                at matches Some(x) ==> x < n && self.subs@[x as int].kind == kind,
        {
            if at.is_none() && self.subs[i].kind == kind {
                at = Some(i);
            }
        }
        match at {
            Option::None => false,
            Option::Some(i) => {
                match replacement {
                    Option::Some(c) => {
                        let mut sub = self.subs.remove(i);
                        let ghost osub = sub;
                        sub.conn = c;
                        let ghost removed = self.subs@;
                        self.subs.insert(i, sub);
                        proof {
                            let so = old(self).subs@;
                            let sn = self.subs@;
                            assert forall|j: int|
                                0 <= j < sn.len() && j != i implies #[trigger] sn[j] == so[j] by {
                                if j < i {
                                    assert(removed[j] == so[j]);
                                } else {
                                    assert(removed[j - 1] == so[j]);
                                }
                            }
                            assert(sn[i as int] == (Subscription { conn: c, ..so[i as int] }));
                            assert forall|j: int| 0 <= j < so.len() && (#[trigger] so[j]).kind
                                == kind implies j == i by {}
                        }
                        false
                    },
                    Option::None => {
                        self.subs.remove(i);
                        proof {
                            let so = old(self).subs@;
                            let sn = self.subs@;
                            assert forall|j: int|
                                0 <= j < sn.len() implies #[trigger] sn[j] == (if j < i {
                                    so[j]
                                } else {
                                    so[j + 1]
                                }) by {}
                            assert forall|j: int| 0 <= j < sn.len() implies (
                            #[trigger] sn[j]).kind != kind by {
                                if j < i {
                                    assert(so[j].kind != kind);
                                } else {
                                    assert(sn[j] == so[j + 1]);
                                }
                            }
                        }
                        true
                    },
                }
            },
        }
    }
}

/// How one sink changes when an event is fanned out to it.
pub open spec fn sink_got_event(o: ClientSink, f: ClientSink, ev: u64) -> bool {
    &&& f.client == o.client
    &&& f.sub_id == o.sub_id
    &&& f.history@ == o.history@.push(ev)
    &&& (o.queue@.len() < SUBSCRIPTION_QUEUE_CAP ==> f.queue@ == o.queue@.push(ev) && f.dropped
        == o.dropped)
    &&& (o.queue@.len() >= SUBSCRIPTION_QUEUE_CAP ==> f.queue@ == o.queue@.drop_first().push(ev)
        && f.dropped == sat_inc(o.dropped))
}

/// Fanning an event out preserves the suffix shape of a sink's queue.
proof fn lemma_sink_event(o: ClientSink, f: ClientSink, ev: u64)
    requires
        o.wf(),
        sink_got_event(o, f, ev),
    ensures
        f.wf(),
{
    let h = o.history@;
    if o.queue@.len() < SUBSCRIPTION_QUEUE_CAP {
        assert(f.queue@ =~= f.history@.skip(f.history@.len() - f.queue@.len()));
    } else {
        assert(f.queue@ =~= f.history@.skip(f.history@.len() - f.queue@.len()));
    }
}

} // verus!
