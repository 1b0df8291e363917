use web3_proxy::block::{detect_reorg, BlockIndex, SavedBlock};
use web3_proxy::cache::{Fingerprint, FlightOutcome, ResponseCache};
use web3_proxy::connection::{Connection, Transport};
use web3_proxy::consensus::Web3Connections;
use web3_proxy::relay::{combine_relay_outcomes, RelayOutcome};
use web3_proxy::subs::{SubKind, SubscriptionHub};

fn conn(name: &str, soft: u64, tier: u64) -> Connection {
    Connection::new(String::from(name), Transport::Http, soft, tier)
}

fn block(hash: u64, number: u64, parent: u64) -> SavedBlock {
    SavedBlock { hash, number, parent_hash: parent, received_at: 0 }
}

fn balance_fp(block: Option<u64>) -> Fingerprint {
    Fingerprint {
        method: String::from("eth_getBalance"),
        params: String::from("[\"0xaddr\",\"0x1\"]"),
        block,
    }
}

#[test]
fn basic_read_passthrough() {
    // One healthy upstream at head (num=1, hash=0xabc). The "latest" tag
    // resolves to that hash; the first read builds upstream, the second
    // identical read is served from the cache with no new upstream call.
    let mut pool = Web3Connections::new(vec![conn("a", 100, 0)], 1, 1);
    pool.on_head_update(0, block(0xabc, 1, 0xaaa));
    assert!(pool.synced());
    assert_eq!(pool.head_block_num(), Some(1));
    assert_eq!(pool.head_block_hash(), Some(0xabc));

    let fp = Fingerprint {
        method: String::from("eth_getBlockByNumber"),
        params: String::from("[\"0x1\",true]"),
        block: pool.head_block_hash(),
    };
    let mut cache = ResponseCache::new(1 << 20, vec![]);
    let first = cache.begin_request(&fp);
    assert!(matches!(first, FlightOutcome::Leader));
    assert_eq!(cache.upstream_builds, 1);
    cache.complete_success(&fp, b"block-1".to_vec(), Some(0xabc));

    let second = cache.begin_request(&fp);
    match second {
        FlightOutcome::Hit(bytes) => assert_eq!(bytes, b"block-1".to_vec()),
        _ => panic!("second identical request must hit the cache"),
    }
    assert_eq!(cache.upstream_builds, 1);
}

#[test]
fn consensus_gating() {
    // A and B at (1, 0xabc), C at (1, 0xdef), min_synced_rpcs = 2: the
    // snapshot head is 0xabc with conns = [A, B]; C is never a candidate.
    let mut pool = Web3Connections::new(
        vec![conn("a", 100, 0), conn("b", 100, 0), conn("c", 100, 0)],
        2,
        1,
    );
    pool.on_head_update(0, block(0xabc, 1, 0xaaa));
    pool.on_head_update(1, block(0xabc, 1, 0xaaa));
    pool.on_head_update(2, block(0xdef, 1, 0xaaa));

    assert!(pool.synced());
    assert_eq!(pool.head_block_hash(), Some(0xabc));
    assert_eq!(pool.num_synced_rpcs(), 2);
    for e in pool.synced_connections.conns.iter() {
        assert_eq!(e.head_hash, 0xabc);
        assert!(e.conn == 0 || e.conn == 1);
    }
}

#[test]
fn single_flight_under_burst() {
    // 100 concurrent callers for the same uncached read: one leader, one
    // upstream build, everyone sees identical bytes, one cache entry.
    let fp = balance_fp(Some(0x1abc));
    let mut cache = ResponseCache::new(1 << 20, vec![]);

    let mut leaders = 0;
    let mut waiters = 0;
    for _ in 0..100 {
        match cache.begin_request(&fp) {
            FlightOutcome::Leader => leaders += 1,
            FlightOutcome::Waiter => waiters += 1,
            FlightOutcome::Hit(_) => panic!("nothing is cached yet"),
        }
    }
    assert_eq!(leaders, 1);
    assert_eq!(waiters, 99);
    assert_eq!(cache.upstream_builds, 1);

    cache.complete_success(&fp, b"0x0de0b6b3a7640000".to_vec(), Some(0x1abc));
    assert_eq!(cache.entries.len(), 1);
    for _ in 0..100 {
        match cache.begin_request(&fp) {
            FlightOutcome::Hit(bytes) => assert_eq!(bytes, b"0x0de0b6b3a7640000".to_vec()),
            _ => panic!("all callers must observe the cached bytes"),
        }
    }
    assert_eq!(cache.upstream_builds, 1);
    assert_eq!(cache.entries.len(), 1);
}

#[test]
fn reorg_eviction() {
    // A cache entry pinned to 0xabc survives a head advance that keeps
    // 0xabc canonical, and is evicted once 0xabc is orphaned.
    let mut index = BlockIndex::new(16);
    let b1 = block(0xabc, 1, 0xaaa);
    index.insert(b1);

    let mut cache = ResponseCache::new(1 << 20, vec![]);
    let fp = balance_fp(Some(0xabc));
    assert!(matches!(cache.begin_request(&fp), FlightOutcome::Leader));
    cache.complete_success(&fp, b"pinned".to_vec(), Some(0xabc));
    assert_eq!(cache.entries.len(), 1);

    // Head advances to (2, 0xa2) with parent 0xabc: no reorg, entry stays.
    let b2 = block(0xa2, 2, 0xabc);
    assert!(!detect_reorg(&b1, &b2));
    index.insert(b2);
    assert!(matches!(cache.begin_request(&fp), FlightOutcome::Hit(_)));

    // An alternative head (2, 0xb2) with another parent wins consensus:
    // 0xabc is orphaned and the pinned entry goes.
    let b2b = block(0xb2, 2, 0x0f0f);
    assert!(detect_reorg(&b2, &b2b));
    index.mark_orphaned(0xabc);
    assert!(index.is_orphaned(0xabc));
    cache.evict_orphaned(0xabc);
    assert_eq!(cache.entries.len(), 0);
    assert!(matches!(cache.begin_request(&fp), FlightOutcome::Leader));
}

#[test]
fn write_fanout() {
    // Two relays both accept; the client gets the hash of the first, and
    // both outcomes are available for stats.
    let outcomes = vec![
        RelayOutcome::Accepted { tx_hash: 0x3a5 },
        RelayOutcome::Accepted { tx_hash: 0x3a5 },
    ];
    let r = combine_relay_outcomes(&outcomes);
    assert_eq!(r, Ok(0x3a5));
    assert_eq!(outcomes.len(), 2);

    // One relay fails fast, the other accepts: the success wins even
    // when a failure stands before it in dispatch order.
    let mixed = vec![
        RelayOutcome::Failed { code: 7 },
        RelayOutcome::Accepted { tx_hash: 0x3a5 },
    ];
    assert_eq!(combine_relay_outcomes(&mixed), Ok(0x3a5));

    let failures = vec![
        RelayOutcome::Failed { code: 7 },
        RelayOutcome::Failed { code: 9 },
    ];
    assert_eq!(combine_relay_outcomes(&failures), Err(vec![7, 9]));
}

#[test]
fn subscription_fanout() {
    // Two clients subscribe to newHeads: exactly one upstream subscribe.
    // Both receive B1 in order. The first unsubscribe leaves the upstream
    // open; the second cancels it.
    let mut hub = SubscriptionHub::new();
    let (id1, opened1) = hub.subscribe(1, SubKind::NewHeads, 0);
    let (id2, opened2) = hub.subscribe(2, SubKind::NewHeads, 0);
    assert!(opened1);
    assert!(!opened2);
    assert_ne!(id1, id2);
    assert_eq!(hub.upstream_opens, 1);

    hub.on_event(SubKind::NewHeads, 0xb1);
    let mut got = Vec::new();
    for sub in hub.subs.iter_mut() {
        for sink in sub.sinks.iter_mut() {
            got.push((sink.client, sink.take_next()));
        }
    }
    got.sort();
    assert_eq!(got, vec![(1, Some(0xb1)), (2, Some(0xb1))]);

    let (found1, cancelled1) = hub.unsubscribe(1, id1);
    assert!(found1);
    assert!(!cancelled1);
    assert_eq!(hub.upstream_cancels, 0);

    let (found2, cancelled2) = hub.unsubscribe(2, id2);
    assert!(found2);
    assert!(cancelled2);
    assert_eq!(hub.upstream_cancels, 1);
}
