//! Tests for exact candle pairing and the pairs-candle stream machine.

use backend::candle::{CandleSnapshot, PairsCandle, pair_candle};
use backend::model::{Candle, Subscribe, Subscription, WSResponse};
use backend::px::Px;

fn candle(symbol: &str, close: Px) -> Candle {
    Candle {
        open_time: 100,
        close_time: 160,
        symbol: symbol.to_string(),
        interval: "1h".to_string(),
        open_price: close,
        close_price: close,
        high_price: close,
        low_price: close,
        volume: Px::new(7, 1),
        num_trade: 3,
    }
}

#[test]
fn paired_close_is_the_exact_quotient() {
    // the paired close equals c_left / c_right by division and
    // the label is left/right; every other price field divides likewise.
    let mut left = candle("BTC", Px::new(10, 1));
    left.open_price = Px::new(20, 1);
    left.high_price = Px::new(30, 1);
    left.low_price = Px::new(5, 1);
    let mut right = candle("ETH", Px::new(4, 1));
    right.open_price = Px::new(10, 1);
    right.high_price = Px::new(10, 1);
    right.low_price = Px::new(2, 1);
    right.num_trade = 2;
    let pair = left.pair(&right).unwrap();
    assert_eq!(pair.close_price, Px::new(10, 4));
    assert!(pair.close_price.same_value(Px::new(5, 2)));
    // division, not multiplication
    assert!(!pair.close_price.same_value(Px::new(40, 1)));
    assert!(pair.open_price.same_value(Px::new(2, 1)));
    assert!(pair.high_price.same_value(Px::new(3, 1)));
    assert!(pair.low_price.same_value(Px::new(5, 2)));
    assert_eq!(pair.symbol, "BTC/ETH");
    assert_eq!(pair.interval, "1h");
    assert_eq!(pair.open_time, 100);
    assert_eq!(pair.close_time, 160);
    assert_eq!(pair.volume, Px::new(0, 1));
    assert_eq!(pair.num_trade, 5);
}

#[test]
fn pairing_fails_only_out_of_range() {
    let left = candle("BTC", Px::new(10, 1));
    let zero = candle("ETH", Px::new(0, 1));
    assert!(left.pair(&zero).is_none());
    let huge = candle("ETH", Px { num: u64::MAX, den: u64::MAX });
    assert!(candle("BTC", Px { num: u64::MAX, den: 1 }).pair(&huge).is_none());
    assert!(left.pair(&candle("ETH", Px::new(1, 1))).is_some());
}

#[test]
fn pairs_stream_emits_once_both_legs_are_cached() {
    let mut pairs = PairsCandle::new("BTC", "ETH");
    // only one leg cached: nothing to emit
    assert!(pairs.on_message(WSResponse::Candle(candle("BTC", Px::new(10, 1)))).is_none());
    // an unrelated symbol changes nothing
    assert!(pairs.on_message(WSResponse::Candle(candle("SOL", Px::new(1, 1)))).is_none());
    // the second leg completes the pair
    let pair = pairs.on_message(WSResponse::Candle(candle("ETH", Px::new(4, 1)))).unwrap();
    assert_eq!(pair.symbol, "BTC/ETH");
    assert!(pair.close_price.same_value(Px::new(5, 2)));
    // a fresher left leg replaces the cache and re-emits
    let pair2 = pairs.on_message(WSResponse::Candle(candle("BTC", Px::new(12, 1)))).unwrap();
    assert!(pair2.close_price.same_value(Px::new(3, 1)));
    // the emission is the full pair of the cached legs, not just its close
    assert!(pair2.open_price.same_value(Px::new(3, 1)));
    assert!(pair2.high_price.same_value(Px::new(3, 1)));
    assert!(pair2.low_price.same_value(Px::new(3, 1)));
    assert_eq!(pair2.volume, Px::new(0, 1));
    assert_eq!(pair2.num_trade, 6);
    // an unrelated symbol still re-emits from the cache, as the stream loop does
    assert!(pairs.on_message(WSResponse::Candle(candle("SOL", Px::new(1, 1)))).is_some());
    // acknowledgements are not candles and emit nothing
    let ack = WSResponse::SubscriptionResponse(Subscription::new(Subscribe::Candle {
        coin: "BTC".to_string(),
        interval: "1h".to_string(),
    }));
    assert!(pairs.on_message(ack).is_none());
}

fn snapshot(symbol: &str, close: Px) -> CandleSnapshot {
    CandleSnapshot {
        t: 1,
        t_: 2,
        i: "1h".to_string(),
        s: symbol.to_string(),
        o: close,
        c: close,
        h: close,
        l: close,
        v: Px::new(9, 1),
        n: 4,
    }
}

#[test]
fn snapshot_pairing_divides_and_labels_the_ratio() {
    let left = snapshot("BTC", Px::new(9, 1));
    let right = snapshot("ETH", Px::new(3, 1));
    let pair = pair_candle(left, right).unwrap();
    assert_eq!(pair.s, "BTC/ETH");
    assert!(pair.c.same_value(Px::new(3, 1)));
    assert!(pair.o.same_value(Px::new(3, 1)));
    assert_eq!(pair.v, Px::new(0, 1));
    assert_eq!(pair.n, 8);
    assert_eq!(pair.t, 1);
    assert_eq!(pair.t_, 2);
    assert_eq!(pair.i, "1h");
    let zero = snapshot("ETH", Px::new(0, 1));
    assert!(pair_candle(snapshot("BTC", Px::new(9, 1)), zero).is_err());
}
