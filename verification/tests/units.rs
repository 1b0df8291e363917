use web3_proxy::block::{detect_reorg, BlockIndex, SavedBlock};
use web3_proxy::cache::{Fingerprint, FlightOutcome, ResponseCache};
use web3_proxy::connection::{reconnect_backoff_ms, Connection, Health, TokenBucket, Transport};
use web3_proxy::consensus::Web3Connections;
use web3_proxy::router::{
    classify, dispatch_step, error_code, pick_candidate, plan_read, resolve_block_tag,
    retry_locally, select_candidates, BlockTag, MethodClass, RouteAction, RouterState,
    TryOutcome, Web3ProxyError,
};
use web3_proxy::strutil::str_eq;
use web3_proxy::subs::{SubKind, SubscriptionHub, SUBSCRIPTION_QUEUE_CAP};
use web3_proxy::supervisor::DrainTally;
use web3_proxy::ws::{error_response_id, render_redirect_url, ws_step, WsIncoming, WsStep};

fn conn(name: &str, soft: u64, tier: u64) -> Connection {
    Connection::new(String::from(name), Transport::Http, soft, tier)
}

fn block(hash: u64, number: u64, parent: u64) -> SavedBlock {
    SavedBlock { hash, number, parent_hash: parent, received_at: 0 }
}

#[test]
fn classify_methods() {
    assert_eq!(classify("eth_subscribe"), MethodClass::Subscribe);
    assert_eq!(classify("eth_unsubscribe"), MethodClass::Unsubscribe);
    assert_eq!(classify("eth_sendRawTransaction"), MethodClass::Write);
    assert_eq!(classify("eth_getBalance"), MethodClass::Read);
    assert_eq!(classify("eth_getBlockByNumber"), MethodClass::Read);
}

#[test]
fn str_eq_exact() {
    assert!(str_eq("", ""));
    assert!(str_eq("abc", "abc"));
    assert!(!str_eq("abc", "abd"));
    assert!(!str_eq("abc", "abcd"));
}

#[test]
fn health_transitions() {
    let mut c = conn("a", 100, 0);
    assert_eq!(c.health, Health::Initializing);

    // First successful head observation: Healthy.
    c.on_head_observation(block(0x1, 1, 0x0));
    assert_eq!(c.health, Health::Healthy);

    // Three consecutive failures: Unhealthy.
    c.on_request_failure();
    c.on_request_failure();
    assert_eq!(c.health, Health::Healthy);
    c.on_request_failure();
    assert_eq!(c.health, Health::Unhealthy);

    // A healthy head observation recovers.
    c.on_head_observation(block(0x2, 2, 0x1));
    assert_eq!(c.health, Health::Healthy);

    // Lagging far behind the consensus head, by blocks.
    c.check_lag(100, 5, 0, 1000);
    assert_eq!(c.health, Health::Lagging);
    c.on_head_observation(block(0x64, 100, 0x63));
    assert_eq!(c.health, Health::Healthy);
    c.check_lag(103, 5, 0, 1000);
    assert_eq!(c.health, Health::Healthy);
    // Lagging by time: the head was seen too long ago.
    c.check_lag(103, 5, 10_000, 4);
    assert_eq!(c.health, Health::Lagging);
}

#[test]
fn latency_ewma_formula() {
    let mut c = conn("a", 100, 0);
    assert_eq!(c.latency_us, 0);
    c.on_request_success(800);
    assert_eq!(c.latency_us, 100); // (0 * 7 + 800) / 8
    c.on_request_success(100);
    assert_eq!(c.latency_us, 100); // (100 * 7 + 100) / 8
    c.on_request_success(900);
    assert_eq!(c.latency_us, 200); // (100 * 7 + 900) / 8
}

#[test]
fn token_bucket_refill() {
    // 2 requests per second of burst; the third in the same instant is
    // rejected, and half a second refills one whole token.
    let mut b = TokenBucket::new(2, 0);
    assert!(b.try_acquire(0));
    assert!(b.try_acquire(0));
    assert!(!b.try_acquire(0));
    assert!(!b.try_acquire(100));
    assert!(b.try_acquire(600)); // 500 ms at 2/s earned a full token by now
    assert!(!b.try_acquire(600));
    // A long idle period fills the bucket back to capacity, not beyond.
    assert!(b.try_acquire(1_000_000));
    assert!(b.try_acquire(1_000_000));
    assert!(!b.try_acquire(1_000_000));
}

#[test]
fn has_block_respects_history_limit() {
    let mut c = conn("a", 100, 0);
    assert!(!c.has_block(1));
    c.on_head_observation(block(0xff, 100, 0xfe));
    assert!(c.has_block(100));
    assert!(c.has_block(1)); // archive: no block-data-limit
    assert!(!c.has_block(101));
    c.block_data_limit = Some(10);
    assert!(c.has_block(90));
    assert!(!c.has_block(89));
}

#[test]
fn block_index_dedup_forks_and_bound() {
    let mut idx = BlockIndex::new(3);
    idx.insert(block(0xa, 1, 0x0));
    idx.insert(block(0xa, 1, 0x0)); // idempotent on hash
    assert_eq!(idx.blocks.len(), 1);
    idx.insert(block(0xb, 2, 0xa));
    idx.insert(block(0xc, 2, 0xa)); // a fork at height 2
    let forks: Vec<u64> = idx.forks_at_number(2).iter().map(|b| b.hash).collect();
    assert_eq!(forks, vec![0xb, 0xc]);
    assert_eq!(idx.get_by_hash(0xa).map(|b| b.number), Some(1));
    // Capacity 3: a fourth hash evicts the oldest.
    idx.insert(block(0xd, 3, 0xb));
    assert_eq!(idx.blocks.len(), 3);
    assert!(idx.get_by_hash(0xa).is_none());
    assert!(idx.get_by_hash(0xd).is_some());
}

#[test]
fn reorg_detection_rule() {
    let prev = block(0xabc, 5, 0xaaa);
    assert!(detect_reorg(&prev, &block(0xdef, 5, 0xaaa))); // same height, other hash
    assert!(detect_reorg(&prev, &block(0xdef, 4, 0x999))); // lower height
    assert!(!detect_reorg(&prev, &block(0xdef, 6, 0xabc))); // extends the chain
    assert!(!detect_reorg(&prev, &block(0xabc, 5, 0xaaa))); // same head again
}

#[test]
fn cache_byte_bound_and_lru() {
    // Budget of 10 bytes: inserting 4+4+4 evicts the least recently used.
    let mut cache = ResponseCache::new(10, vec![]);
    let fps: Vec<Fingerprint> = (0..3)
        .map(|i| Fingerprint {
            method: String::from("eth_getBalance"),
            params: format!("[{}]", i),
            block: Some(0x1),
        })
        .collect();
    for fp in fps.iter() {
        assert!(matches!(cache.begin_request(fp), FlightOutcome::Leader));
        cache.complete_success(fp, b"xxxx".to_vec(), Some(0x1));
    }
    let total: usize = cache.entries.iter().map(|e| e.payload.len()).sum();
    assert!(total <= 10);
    assert_eq!(cache.entries.len(), 2);
    // The first fingerprint was least recently used and is gone.
    assert!(matches!(cache.begin_request(&fps[0]), FlightOutcome::Leader));
    // An entry larger than the whole budget is never stored.
    let big = Fingerprint {
        method: String::from("eth_getBalance"),
        params: String::from("[big]"),
        block: Some(0x1),
    };
    assert!(matches!(cache.begin_request(&big), FlightOutcome::Leader));
    cache.complete_success(&big, vec![0u8; 64], Some(0x1));
    assert!(cache.entries.iter().all(|e| e.payload.len() <= 10));
}

#[test]
fn cache_never_stores_writes_or_unpinned_reads() {
    let mut cache = ResponseCache::new(1 << 20, vec![]);
    let write = Fingerprint {
        method: String::from("eth_sendRawTransaction"),
        params: String::from("[0xsigned]"),
        block: Some(0x1),
    };
    for _ in 0..5 {
        if matches!(cache.begin_request(&write), FlightOutcome::Leader) {
            cache.complete_success(&write, b"0xhash".to_vec(), Some(0x1));
        }
    }
    assert_eq!(cache.entries.len(), 0);

    // A read whose block tag could not be resolved is not cached either.
    let pending = Fingerprint {
        method: String::from("eth_getBalance"),
        params: String::from("[\"0xaddr\",\"pending\"]"),
        block: None,
    };
    assert!(matches!(cache.begin_request(&pending), FlightOutcome::Leader));
    cache.complete_success(&pending, b"1".to_vec(), None);
    assert_eq!(cache.entries.len(), 0);
}

#[test]
fn cache_error_not_cached() {
    let mut cache = ResponseCache::new(1 << 20, vec![]);
    let fp = Fingerprint {
        method: String::from("eth_getBalance"),
        params: String::from("[]"),
        block: Some(0x2),
    };
    assert!(matches!(cache.begin_request(&fp), FlightOutcome::Leader));
    cache.complete_error(&fp);
    assert_eq!(cache.entries.len(), 0);
    // The flight is over: the next caller leads again.
    assert!(matches!(cache.begin_request(&fp), FlightOutcome::Leader));
}

#[test]
fn router_errors_per_outcome() {
    match dispatch_step(TryOutcome::Success(b"ok".to_vec()), 3) {
        RouteAction::Respond(b) => assert_eq!(b, b"ok".to_vec()),
        _ => panic!("success must respond"),
    }
    match dispatch_step(TryOutcome::JsonRpcError(b"{\"code\":-32000}".to_vec()), 3) {
        RouteAction::RespondUpstreamError(b) => assert_eq!(b, b"{\"code\":-32000}".to_vec()),
        _ => panic!("upstream errors are authoritative and returned verbatim"),
    }
    assert!(matches!(dispatch_step(TryOutcome::Transport, 1), RouteAction::TryNext));
    assert!(matches!(
        dispatch_step(TryOutcome::Transport, 0),
        RouteAction::Fail(Web3ProxyError::UpstreamTransport)
    ));
    assert!(matches!(dispatch_step(TryOutcome::Timeout, 2), RouteAction::TryNext));
    assert!(matches!(
        dispatch_step(TryOutcome::Timeout, 0),
        RouteAction::Fail(Web3ProxyError::UpstreamTimeout)
    ));
}

#[test]
fn candidate_selection_by_block() {
    let mut pool = Web3Connections::new(vec![conn("a", 100, 0), conn("b", 100, 1)], 1, 1);
    pool.on_head_update(0, block(0xaa, 50, 0x0));
    pool.on_head_update(1, block(0xaa, 50, 0x0));
    pool.conns[1].block_data_limit = Some(5);
    let snap = &pool.synced_connections;

    let all = select_candidates(snap, &pool.conns, None);
    assert_eq!(all.len(), 2);
    // Block 10 is beyond b's retained history: only a can serve it.
    let old_block = select_candidates(snap, &pool.conns, Some(10));
    assert_eq!(old_block.len(), 1);
    assert_eq!(old_block[0].conn, 0);
}

#[test]
fn tier_probe_every_64th_decision() {
    let mut pool = Web3Connections::new(vec![conn("a", 100, 0), conn("b", 100, 1)], 1, 1);
    pool.on_head_update(0, block(0xaa, 1, 0x0));
    pool.on_head_update(1, block(0xaa, 1, 0x0));
    let cands = select_candidates(&pool.synced_connections, &pool.conns, None);
    assert_eq!(cands.len(), 2);

    let mut state = RouterState::new();
    let mut probed_tier1 = 0;
    for _ in 0..64 {
        let i = pick_candidate(&mut state, &cands, &pool.conns).unwrap();
        if cands[i].tier >= 1 {
            probed_tier1 += 1;
        }
    }
    // Under 64 decisions at least one went to a tier >= 1 connection.
    assert!(probed_tier1 >= 1);
    assert_eq!(state.decisions, 64);
}

#[test]
fn pick_prefers_fewer_in_flight() {
    let mut pool = Web3Connections::new(vec![conn("a", 100, 0), conn("b", 100, 0)], 1, 1);
    pool.on_head_update(0, block(0xaa, 1, 0x0));
    pool.on_head_update(1, block(0xaa, 1, 0x0));
    pool.conns[0].in_flight = 9;
    pool.conns[1].in_flight = 2;
    let cands = select_candidates(&pool.synced_connections, &pool.conns, None);
    assert_eq!(cands.len(), 2);
    let mut state = RouterState::new();
    state.decisions = 1; // not a probe turn
    let i = pick_candidate(&mut state, &cands, &pool.conns).unwrap();
    assert_eq!(cands[i].conn, 1);
}

#[test]
fn consensus_prefers_higher_number_then_weight_then_hash() {
    // Higher block number wins regardless of weight.
    let mut pool = Web3Connections::new(vec![conn("a", 1000, 0), conn("b", 1, 0)], 1, 1);
    pool.on_head_update(0, block(0xaa, 5, 0x0));
    pool.on_head_update(1, block(0xbb, 6, 0xaa));
    assert_eq!(pool.head_block_hash(), Some(0xbb));

    // Same number: the heavier candidate wins.
    let mut pool = Web3Connections::new(
        vec![conn("a", 10, 0), conn("b", 10, 0), conn("c", 30, 0)],
        1,
        1,
    );
    pool.on_head_update(0, block(0xaa, 5, 0x0));
    pool.on_head_update(1, block(0xaa, 5, 0x0));
    pool.on_head_update(2, block(0xbb, 5, 0x0));
    assert_eq!(pool.head_block_hash(), Some(0xbb));

    // Same number and weight: the smaller hash wins, deterministically.
    let mut pool = Web3Connections::new(vec![conn("a", 10, 0), conn("b", 10, 0)], 1, 1);
    pool.on_head_update(0, block(0xcc, 5, 0x0));
    pool.on_head_update(1, block(0xdd, 5, 0x0));
    assert_eq!(pool.head_block_hash(), Some(0xcc));
}

#[test]
fn not_synced_without_quorum() {
    let mut pool = Web3Connections::new(vec![conn("a", 100, 0), conn("b", 100, 0)], 2, 1);
    pool.on_head_update(0, block(0xaa, 1, 0x0));
    assert!(!pool.synced());
    assert_eq!(pool.num_synced_rpcs(), 0);
    assert_eq!(pool.head_block(), None);
    pool.on_head_update(1, block(0xaa, 1, 0x0));
    assert!(pool.synced());
    assert_eq!(pool.num_synced_rpcs(), 2);
}

#[test]
fn min_sum_soft_limit_gates_consensus() {
    let mut pool = Web3Connections::new(vec![conn("a", 100, 0), conn("b", 100, 0)], 1, 250);
    pool.on_head_update(0, block(0xaa, 1, 0x0));
    pool.on_head_update(1, block(0xaa, 1, 0x0));
    assert!(!pool.synced()); // 200 < 250
    let mut pool = Web3Connections::new(vec![conn("a", 150, 0), conn("b", 150, 0)], 1, 250);
    pool.on_head_update(0, block(0xaa, 1, 0x0));
    pool.on_head_update(1, block(0xaa, 1, 0x0));
    assert!(pool.synced());
}

#[test]
fn snapshot_sorted_by_tier_then_latency() {
    let mut pool = Web3Connections::new(
        vec![conn("slow0", 10, 1), conn("fast0", 10, 0), conn("quick0", 10, 0)],
        1,
        1,
    );
    pool.conns[1].latency_us = 900;
    pool.conns[2].latency_us = 100;
    pool.on_head_update(0, block(0xaa, 1, 0x0));
    pool.on_head_update(1, block(0xaa, 1, 0x0));
    pool.on_head_update(2, block(0xaa, 1, 0x0));
    let order: Vec<usize> = pool.synced_connections.conns.iter().map(|e| e.conn).collect();
    assert_eq!(order, vec![2, 1, 0]);
}

#[test]
fn subscription_backpressure_drops_oldest_contiguously() {
    let mut hub = SubscriptionHub::new();
    let (_id, opened) = hub.subscribe(1, SubKind::Logs { filter: 42 }, 0);
    assert!(opened);
    let n = (SUBSCRIPTION_QUEUE_CAP + 3) as u64;
    for ev in 0..n {
        hub.on_event(SubKind::Logs { filter: 42 }, ev);
    }
    let sink = &hub.subs[0].sinks[0];
    assert_eq!(sink.queue.len(), SUBSCRIPTION_QUEUE_CAP);
    assert_eq!(sink.dropped, 3);
    assert_eq!(hub.slow_client_drops, 3);
    // What remains is the contiguous tail of the stream, in order.
    assert_eq!(sink.queue[0], 3);
    assert_eq!(*sink.queue.last().unwrap(), n - 1);
    for w in sink.queue.windows(2) {
        assert_eq!(w[1], w[0] + 1);
    }
}

#[test]
fn subscriptions_distinct_filters_are_distinct_streams() {
    let mut hub = SubscriptionHub::new();
    let (_a, o1) = hub.subscribe(1, SubKind::Logs { filter: 1 }, 0);
    let (_b, o2) = hub.subscribe(1, SubKind::Logs { filter: 2 }, 0);
    assert!(o1 && o2);
    assert_eq!(hub.upstream_opens, 2);
    hub.on_event(SubKind::Logs { filter: 1 }, 0x11);
    assert_eq!(hub.subs[0].sinks[0].queue.len(), 1);
    assert_eq!(hub.subs[1].sinks[0].queue.len(), 0);
}

#[test]
fn ws_frame_steps() {
    assert!(matches!(ws_step(WsIncoming::Text), WsStep::HandlePayload));
    assert!(matches!(ws_step(WsIncoming::Binary), WsStep::HandlePayload));
    match ws_step(WsIncoming::Ping(vec![1, 2, 3])) {
        WsStep::ReplyPong(x) => assert_eq!(x, vec![1, 2, 3]),
        _ => panic!("pings are answered with pongs"),
    }
    assert!(matches!(ws_step(WsIncoming::Pong(vec![])), WsStep::Ignore));
    assert!(matches!(ws_step(WsIncoming::Close), WsStep::Stop));
}

#[test]
fn fabricated_error_id() {
    assert_eq!(error_response_id(Some(String::from("7"))), "7");
    assert_eq!(error_response_id(None), "null");
}

#[test]
fn saved_block_age() {
    let b = SavedBlock { hash: 1, number: 1, parent_hash: 0, received_at: 40 };
    assert_eq!(b.age(100), 60);
    assert_eq!(b.age(40), 0);
}

#[test]
fn render_user_redirect_template() {
    let render = |t: &str| -> String {
        render_redirect_url(t, "42", "req-7").into_iter().collect()
    };
    assert_eq!(render("example.com/{{rpc_key_id}}"), "example.com/42");
    assert_eq!(render("example.com/{{authorized_request}}"), "example.com/req-7");
    assert_eq!(
        render("{{rpc_key_id}}/{{authorized_request}}/{{rpc_key_id}}"),
        "42/req-7/42"
    );
    assert_eq!(render("no placeholder"), "no placeholder");
    assert_eq!(render("{{rpc_key_i}}"), "{{rpc_key_i}}"); // incomplete: left alone
    assert_eq!(render("{{authorized_request}"), "{{authorized_request}"); // unclosed
}

#[test]
fn shutdown_exit_code() {
    let mut t = DrainTally::new();
    t.record(true);
    t.record(true);
    assert_eq!(t.exit_code(), 0);
    t.record(false);
    assert_eq!(t.drained, 3);
    assert_eq!(t.errors, 1);
    assert_ne!(t.exit_code(), 0);
}

#[test]
fn read_gate_errors() {
    // No snapshot at all: NotSynced.
    let pool = Web3Connections::new(vec![conn("a", 100, 0)], 1, 1);
    assert_eq!(
        plan_read(&pool.synced_connections, &pool.conns, None),
        Err(Web3ProxyError::NotSynced)
    );

    // Synced, but nobody retains the requested historical block.
    let mut pool = Web3Connections::new(vec![conn("a", 100, 0)], 1, 1);
    pool.on_head_update(0, block(0xaa, 100, 0x0));
    pool.conns[0].block_data_limit = Some(5);
    assert_eq!(
        plan_read(&pool.synced_connections, &pool.conns, Some(10)),
        Err(Web3ProxyError::NoBackendsAvailable)
    );
    let ok = plan_read(&pool.synced_connections, &pool.conns, Some(97)).unwrap();
    assert_eq!(ok.len(), 1);
}

#[test]
fn json_rpc_error_codes() {
    assert_eq!(error_code(Web3ProxyError::InvalidRequest), -32600);
    assert_eq!(error_code(Web3ProxyError::MethodNotFound), -32601);
    assert_eq!(error_code(Web3ProxyError::InvalidParams), -32602);
    assert_eq!(error_code(Web3ProxyError::NotSynced), -32000);
    assert_eq!(error_code(Web3ProxyError::NoBackendsAvailable), -32000);
    assert_eq!(error_code(Web3ProxyError::RateLimited), -32005);
    assert_eq!(error_code(Web3ProxyError::UpstreamTimeout), -32000);
    assert_eq!(error_code(Web3ProxyError::UpstreamTransport), -32000);
    assert_eq!(error_code(Web3ProxyError::Internal), -32603);
}

#[test]
fn reconnect_backoff_schedule() {
    assert_eq!(reconnect_backoff_ms(0), 1_000);
    assert_eq!(reconnect_backoff_ms(1), 2_000);
    assert_eq!(reconnect_backoff_ms(5), 32_000);
    assert_eq!(reconnect_backoff_ms(6), 60_000);
    assert_eq!(reconnect_backoff_ms(50), 60_000);
}

#[test]
fn upstream_loss_reopen_or_terminate() {
    let mut hub = SubscriptionHub::new();
    let (_id, _) = hub.subscribe(1, SubKind::NewHeads, 0);
    hub.on_event(SubKind::NewHeads, 0x5);

    // A replacement exists: the stream moves, clients stay attached.
    let removed = hub.on_upstream_loss(SubKind::NewHeads, Some(3));
    assert!(!removed);
    assert_eq!(hub.subs[0].conn, 3);
    assert_eq!(hub.subs[0].sinks[0].queue, vec![0x5]);

    // The re-open failed too: the subscription is removed; the caller
    // sends each client a terminal error frame.
    let removed = hub.on_upstream_loss(SubKind::NewHeads, None);
    assert!(removed);
    assert!(hub.subs.is_empty());
}

#[test]
fn block_tag_resolution() {
    let mut idx = BlockIndex::new(16);
    idx.insert(block(0x9e, 0, 0x0)); // genesis
    idx.insert(block(0xaa, 7, 0x9e));
    idx.insert(block(0xbb, 8, 0xaa));
    idx.insert(block(0xcc, 8, 0xaa)); // fork: height 8 is ambiguous
    let head = Some(block(0xbb, 8, 0xaa));

    assert_eq!(resolve_block_tag(&BlockTag::Latest, &head, &idx), Some(0xbb));
    assert_eq!(resolve_block_tag(&BlockTag::Latest, &None, &idx), None);
    assert_eq!(resolve_block_tag(&BlockTag::Pending, &head, &idx), None);
    assert_eq!(resolve_block_tag(&BlockTag::Hash(0x77), &head, &idx), Some(0x77));
    assert_eq!(resolve_block_tag(&BlockTag::Earliest, &head, &idx), Some(0x9e));
    // A number matching the head resolves to the head's hash.
    assert_eq!(resolve_block_tag(&BlockTag::Number(8), &head, &idx), Some(0xbb));
    // A historical number with exactly one known fork resolves there.
    assert_eq!(resolve_block_tag(&BlockTag::Number(7), &head, &idx), Some(0xaa));
    // An unknown number cannot be resolved: the request stays uncacheable.
    assert_eq!(resolve_block_tag(&BlockTag::Number(5), &head, &idx), None);
}

#[test]
fn block_index_protects_live_heads() {
    let mut idx = BlockIndex::new(2);
    idx.insert(block(0xa, 1, 0x0));
    idx.insert(block(0xb, 2, 0xa));
    // 0xa is a live connection's head: a full insert evicts 0xb instead.
    let live = vec![0xa];
    idx.insert_protecting(block(0xc, 3, 0xb), &live);
    assert!(idx.get_by_hash(0xa).is_some());
    assert!(idx.get_by_hash(0xc).is_some());
    assert!(idx.get_by_hash(0xb).is_none());
    // With every stored hash live, nothing is evicted and the new block
    // is not stored.
    let live_all = vec![0xa, 0xc];
    idx.insert_protecting(block(0xd, 4, 0xc), &live_all);
    assert!(idx.get_by_hash(0xa).is_some());
    assert!(idx.get_by_hash(0xc).is_some());
    assert!(idx.get_by_hash(0xd).is_none());
}

#[test]
fn local_retry_policy() {
    assert!(retry_locally(&TryOutcome::Transport, 0));
    assert!(retry_locally(&TryOutcome::Transport, 1));
    assert!(!retry_locally(&TryOutcome::Transport, 2));
    assert!(!retry_locally(&TryOutcome::Timeout, 0));
    assert!(!retry_locally(&TryOutcome::JsonRpcError(b"{}".to_vec()), 0));
    assert!(!retry_locally(&TryOutcome::Success(b"ok".to_vec()), 0));
}

#[test]
fn round_robin_breaks_exact_ties() {
    // Two equally ranked, equally loaded candidates: successive non-probe
    // decisions alternate between them via the round-robin cursor.
    let mut pool = Web3Connections::new(vec![conn("a", 100, 0), conn("b", 100, 0)], 1, 1);
    pool.on_head_update(0, block(0xaa, 1, 0x0));
    pool.on_head_update(1, block(0xaa, 1, 0x0));
    let cands = select_candidates(&pool.synced_connections, &pool.conns, None);
    assert_eq!(cands.len(), 2);
    let mut state = RouterState::new();
    state.decisions = 1; // keep clear of probe turns
    let first = pick_candidate(&mut state, &cands, &pool.conns).unwrap();
    state.decisions = 1;
    let second = pick_candidate(&mut state, &cands, &pool.conns).unwrap();
    assert_ne!(first, second);
}

#[test]
fn configured_nondeterministic_method_never_cached() {
    // The configuration table names a read as non-deterministic: it is
    // never cached even with a resolved block tag.
    let table = vec![String::from("eth_gasPrice")];
    let mut cache = ResponseCache::new(1 << 20, table);
    let fp = Fingerprint {
        method: String::from("eth_gasPrice"),
        params: String::from("[]"),
        block: Some(0x1),
    };
    assert!(matches!(cache.begin_request(&fp), FlightOutcome::Leader));
    cache.complete_success(&fp, b"0x3b9aca00".to_vec(), Some(0x1));
    assert_eq!(cache.entries.len(), 0);
    // An unlisted read with the same shape is cached as usual.
    let other = Fingerprint {
        method: String::from("eth_getBalance"),
        params: String::from("[]"),
        block: Some(0x1),
    };
    assert!(matches!(cache.begin_request(&other), FlightOutcome::Leader));
    cache.complete_success(&other, b"1".to_vec(), Some(0x1));
    assert_eq!(cache.entries.len(), 1);
}
