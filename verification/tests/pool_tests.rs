//! Tests for the subscription pool: deduplication, reference counting,
//! capacity, routing, and conditional-order scheduling over it.

use backend::cond::{CondAction, Condition, PairPrice, QueueElem, Source, release_handles,
    scheduler_pass};
use backend::market::{Order, OrderRequest};
use backend::model::{L2Book, Level, ResponsePattern, Subscribe, Subscription, WSMethod,
    WSResponse};
use backend::pool::{AcquireStep, ConnectionPool, TopicHandle};
use backend::px::Px;

fn l2_topic(coin: &str) -> Subscription {
    Subscription::new(Subscribe::L2Book { coin: coin.to_string() })
}

fn book(coin: &str, asks: &[(&str, &str)], bids: &[(&str, &str)]) -> WSResponse {
    let mk = |rows: &[(&str, &str)]| {
        rows.iter()
            .map(|(px, sz)| Level { px: px.to_string(), sz: sz.to_string(), n: 1 })
            .collect::<Vec<_>>()
    };
    WSResponse::L2Book(L2Book { coin: coin.to_string(), levels: vec![mk(asks), mk(bids)], time: 7 })
}

/// Acquire the topic, opening a connection if the pool asks for one, and
/// return the handle plus whether a subscribe frame was emitted.
fn acquire(pool: &mut ConnectionPool, topic: &Subscription) -> (TopicHandle, bool) {
    match pool.acquire_step(topic) {
        AcquireStep::Attached(h) => (h, false),
        AcquireStep::Subscribed(h, frame) => {
            assert!(matches!(frame, WSMethod::Subscribe(_)));
            (h, true)
        }
        AcquireStep::NeedsConnection => {
            let (h, frame) = pool.register_connection(topic);
            assert!(matches!(frame, WSMethod::Subscribe(_)));
            (h, true)
        }
        AcquireStep::CounterSaturated => panic!("reference counter saturated"),
    }
}

#[test]
fn concurrent_acquires_share_one_entry() {
    // three acquires of the same topic yield one subscribe
    // frame, one routing entry, and a reference count of three.
    let mut pool = ConnectionPool::new();
    let topic = l2_topic("BTC");
    let (_h1, sent1) = acquire(&mut pool, &topic);
    let (_h2, sent2) = acquire(&mut pool, &topic);
    let (_h3, sent3) = acquire(&mut pool, &topic);
    assert!(sent1);
    assert!(!sent2);
    assert!(!sent3);
    assert_eq!(pool.conns.len(), 1);
    assert_eq!(pool.conns[0].entries.len(), 1);
    assert_eq!(pool.conns[0].subscription_count, 1);
    assert_eq!(pool.conns[0].entries[0].refs, 3);
}

#[test]
fn unsubscribe_sent_only_on_last_cancel() {
    // of three cancels, only the third sends the unsubscribe.
    let mut pool = ConnectionPool::new();
    let topic = l2_topic("BTC");
    let (h1, _) = acquire(&mut pool, &topic);
    let (h2, _) = acquire(&mut pool, &topic);
    let (h3, _) = acquire(&mut pool, &topic);
    assert!(pool.cancel(&h1).is_none());
    assert!(pool.cancel(&h2).is_none());
    let last = pool.cancel(&h3);
    match last {
        Some(WSMethod::Unsubscribe(sub)) => {
            assert_eq!(sub.subscription, Subscribe::L2Book { coin: "BTC".to_string() });
        }
        other => panic!("expected the unsubscribe frame, got {:?}", other),
    }
    assert_eq!(pool.conns[0].entries.len(), 0);
    assert_eq!(pool.conns[0].subscription_count, 0);
}

#[test]
fn cancel_of_stale_handle_is_a_no_op() {
    let mut pool = ConnectionPool::new();
    let topic = l2_topic("BTC");
    let (h, _) = acquire(&mut pool, &topic);
    assert!(pool.cancel(&h).is_some());
    // firing the same handle again neither panics nor sends a second frame
    assert!(pool.cancel(&h).is_none());
    let stale = TopicHandle { conn: 9, key: ResponsePattern::L2Book("X".to_string()) };
    assert!(pool.cancel(&stale).is_none());
}

#[test]
fn capacity_overflow_opens_new_connection() {
    // the 1001st distinct topic cannot share the full
    // connection and a second connection is created for it.
    let mut pool = ConnectionPool::new();
    for i in 0..1000u32 {
        let topic = l2_topic(&format!("C{}", i));
        acquire(&mut pool, &topic);
    }
    assert_eq!(pool.conns.len(), 1);
    assert_eq!(pool.conns[0].subscription_count, 1000);
    let topic = l2_topic("OVERFLOW");
    assert!(matches!(pool.acquire_step(&topic), AcquireStep::NeedsConnection));
    let (_h, _frame) = pool.register_connection(&topic);
    assert_eq!(pool.conns.len(), 2);
    assert_eq!(pool.conns[0].subscription_count, 1000);
    assert_eq!(pool.conns[1].subscription_count, 1);
}

#[test]
fn routing_is_last_value_wins() {
    let mut pool = ConnectionPool::new();
    let topic = l2_topic("BTC");
    let (h, _) = acquire(&mut pool, &topic);
    let key = h.key.clone();
    assert!(pool.lookup_latest(&key).is_none());
    assert!(pool.route_inbound(0, book("BTC", &[("10", "1")], &[("9", "1")])));
    assert!(pool.route_inbound(0, book("BTC", &[("11", "1")], &[("8", "1")])));
    match pool.lookup_latest(&key) {
        Some(WSResponse::L2Book(b)) => assert_eq!(b.levels[0][0].px, "11"),
        other => panic!("expected the second book, got {:?}", other),
    }
    // a message for an unrouted coin is dropped without error
    assert!(!pool.route_inbound(0, book("ETH", &[("5", "1")], &[("4", "1")])));
}

fn pair_entry(pool: &mut ConnectionPool, left: &str, right: &str, is_less: bool, price: Px)
    -> QueueElem {
    let (hl, _) = acquire(pool, &l2_topic(left));
    let (hr, _) = acquire(pool, &l2_topic(right));
    QueueElem {
        source: Source::Hyperliquid,
        agent: "agent-key".to_string(),
        action: CondAction::HLOrder(Order {
            orders: vec![OrderRequest {
                asset: 0,
                is_buy: true,
                limit_px: Px::new(1, 1),
                sz: Px::new(1, 1),
                reduce_only: false,
                order_type: backend::market::OrderType::Limit(backend::market::Limit {
                    tif: backend::market::Tif::Ioc,
                }),
                cloid: None,
            }],
        }),
        condition: Condition::PairPrice(PairPrice {
            is_less,
            price,
            left_symbol: left.to_string(),
            right_symbol: right.to_string(),
        }),
        vault_address: None,
        handles: vec![hl, hr],
    }
}

#[test]
fn unavailable_data_keeps_entry_pending() {
    // both legs are subscribed but no book has arrived, so the
    // pass neither triggers nor removes the entry.
    let mut pool = ConnectionPool::new();
    let entry = pair_entry(&mut pool, "BTC", "ETH", true, Px::new(3, 1));
    let mut queue = vec![entry];
    let triggered = scheduler_pass(&mut queue, &pool);
    assert_eq!(triggered.len(), 0);
    assert_eq!(queue.len(), 1);
    // an evaluation failure (left leg not routed at all) also keeps it
    let mut pool2 = ConnectionPool::new();
    let (hr, _) = acquire(&mut pool2, &l2_topic("ETH"));
    let entry2 = QueueElem {
        handles: vec![hr],
        ..pair_entry(&mut ConnectionPool::new(), "BTC", "ETH", true, Px::new(3, 1))
    };
    let mut queue2 = vec![entry2];
    let triggered2 = scheduler_pass(&mut queue2, &pool2);
    assert_eq!(triggered2.len(), 0);
    assert_eq!(queue2.len(), 1);
}

#[test]
fn scheduler_removes_exactly_the_triggered_entries() {
    let mut pool = ConnectionPool::new();
    // BTC best bid (level 0 max) is 10; ETH best ask (level 1 min) is 5,
    // so the ratio is exactly 2.
    let e0 = pair_entry(&mut pool, "BTC", "ETH", true, Px::new(3, 1)); // 2 < 3: triggers
    let e1 = pair_entry(&mut pool, "BTC", "ETH", true, Px::new(1, 1)); // 2 < 1: stays
    let e2 = pair_entry(&mut pool, "BTC", "ETH", false, Px::new(1, 1)); // 2 > 1: triggers
    pool.route_inbound(0, book("BTC", &[("10", "2"), ("9", "1")], &[("12", "1")]));
    pool.route_inbound(0, book("ETH", &[("4", "1")], &[("5", "3"), ("6", "2")]));
    let mut queue = vec![e0, e1, e2];
    let triggered = scheduler_pass(&mut queue, &pool);
    // removal walks indices in reverse, so the higher-indexed entry is
    // handed out first
    assert_eq!(triggered.len(), 2);
    assert!(matches!(triggered[0].condition, Condition::PairPrice(ref pp) if !pp.is_less));
    assert!(matches!(triggered[1].condition, Condition::PairPrice(ref pp) if pp.is_less));
    assert_eq!(queue.len(), 1);
    assert!(matches!(queue[0].condition, Condition::PairPrice(ref pp) if pp.price == Px::new(1, 1)
        && pp.is_less));
}

#[test]
fn shared_subscription_survives_first_release() {
    // two entries share both legs; after the first executes the
    // streams stay open, after the second each leg's unsubscribe is sent.
    let mut pool = ConnectionPool::new();
    let e0 = pair_entry(&mut pool, "BTC", "ETH", true, Px::new(3, 1));
    let e1 = pair_entry(&mut pool, "BTC", "ETH", true, Px::new(4, 1));
    assert_eq!(pool.conns[0].entries[0].refs, 2);
    assert_eq!(pool.conns[0].entries[1].refs, 2);
    let frames0 = release_handles(&mut pool, &e0.handles);
    assert_eq!(frames0.len(), 0);
    // the subscription is still routable for the remaining entry
    assert!(pool.route_inbound(0, book("BTC", &[("10", "1")], &[("9", "1")])));
    assert_eq!(pool.conns[0].entries.len(), 2);
    let frames1 = release_handles(&mut pool, &e1.handles);
    assert_eq!(frames1.len(), 2);
    assert!(frames1.iter().all(|f| matches!(f, WSMethod::Unsubscribe(_))));
    assert_eq!(pool.conns[0].entries.len(), 0);
}

#[test]
fn key_derivation_routes_messages_back_to_their_topic() {
    let topic = l2_topic("BTC");
    let key_from_topic = ResponsePattern::of_topic(&topic);
    let key_from_msg = ResponsePattern::from(&book("BTC", &[("1", "1")], &[("1", "1")]));
    assert_eq!(key_from_topic, key_from_msg);
    assert_eq!(key_from_topic, ResponsePattern::L2Book("BTC".to_string()));
}
