//! Tests for TWAP validation, slicing and order construction.

use backend::market::{AssetContext, Ctx, Limit, Meta, OrderType, Tif, UniverseEntry,
    extract_asset_ctx, twap_market_data};
use backend::px::Px;
use backend::twap::{TwapError, TwapOrderRequest, TwapRun, slice_count, validate_twap};

fn request(runtime: u64, frequency: u64) -> TwapOrderRequest {
    TwapOrderRequest {
        asset: 3,
        is_buy: true,
        runtime,
        reduce_only: false,
        sz: Px::new(10, 1),
        randomize: false,
        frequency,
    }
}

#[test]
fn slice_count_follows_the_minute_formula() {
    // floor(runtime / 60) * 2 + 1
    assert_eq!(slice_count(120), 5);
    assert_eq!(slice_count(59), 1);
    assert_eq!(slice_count(61), 3);
    assert_eq!(slice_count(2), 1);
    assert_eq!(slice_count(86400), 2881);
}

#[test]
fn frequency_bounds_are_checked_first() {
    // frequency 0 and 3601 are rejected as frequency errors,
    // runtime 1 and 86401 as runtime errors.
    assert_eq!(validate_twap(&request(120, 0)), Err(TwapError::FrequencyOutOfBounds));
    assert_eq!(validate_twap(&request(120, 3601)), Err(TwapError::FrequencyOutOfBounds));
    assert_eq!(validate_twap(&request(1, 30)), Err(TwapError::RuntimeOutOfBounds));
    assert_eq!(validate_twap(&request(86401, 30)), Err(TwapError::RuntimeOutOfBounds));
    // an invalid frequency wins even when the runtime is also invalid
    assert_eq!(validate_twap(&request(1, 0)), Err(TwapError::FrequencyOutOfBounds));
    assert_eq!(validate_twap(&request(120, 30)), Ok(()));
    assert_eq!(validate_twap(&request(2, 1)), Ok(()));
    assert_eq!(validate_twap(&request(86400, 3600)), Ok(()));
}

#[test]
fn rejection_messages_name_the_bound() {
    assert_eq!(TwapError::FrequencyOutOfBounds.message(), "frequency out of bounds");
    assert_eq!(TwapError::RuntimeOutOfBounds.message(), "runtime out of bounds");
}

#[test]
fn start_splits_the_size_exactly() {
    let run = TwapRun::start(&request(120, 30)).unwrap();
    assert_eq!(run.count, 5);
    // 10 / 5: exactly two units per slice
    assert_eq!(run.slice_sz, Px::new(10, 5));
    assert!(run.slice_sz.same_value(Px::new(2, 1)));
    assert_eq!(run.placed, 0);
    assert!(!run.finished());
    assert!(TwapRun::start(&request(120, 0)).is_err());
}

#[test]
fn slices_price_above_mark_for_buys_and_below_for_sells() {
    let mut run = TwapRun::start(&request(59, 30)).unwrap();
    assert_eq!(run.count, 1);
    let order = run.next_order(Px::new(200, 1), 2).unwrap();
    // 3% above the mark: 200 * 103 / 100 = 206
    assert!(order.limit_px.same_value(Px::new(206, 1)));
    assert!(order.is_buy);
    assert_eq!(order.order_type, OrderType::Limit(Limit { tif: Tif::Ioc }));
    assert_eq!(order.cloid, None);
    // 10 over one slice rounded to 2 decimals stays 10
    assert!(order.sz.same_value(Px::new(10, 1)));
    assert!(run.finished());
    assert!(!run.should_sleep());

    let mut sell = TwapRun::start(&TwapOrderRequest { is_buy: false, ..request(120, 30) })
        .unwrap();
    let sell_order = sell.next_order(Px::new(200, 1), 2).unwrap();
    // 3% below the mark: 200 * 97 / 100 = 194
    assert!(sell_order.limit_px.same_value(Px::new(194, 1)));
    assert!(!sell_order.is_buy);
    // four slices remain, so the job sleeps before the next one
    assert!(sell.should_sleep());
    assert!(!sell.finished());
}

#[test]
fn slice_size_is_rounded_down_to_the_asset_precision() {
    // 10 over 3 slices with two decimals: floor(10/3 * 100) / 100 = 3.33
    let mut run = TwapRun::start(&request(61, 30)).unwrap();
    assert_eq!(run.count, 3);
    let order = run.next_order(Px::new(100, 1), 2).unwrap();
    assert_eq!(order.sz, Px::new(333, 100));
}

#[test]
fn market_data_lookup_mirrors_the_contexts_layout() {
    let ctxs = vec![
        AssetContext::Meta(Meta {
            universe: vec![
                UniverseEntry { name: "BTC".to_string(), sz_decimals: 5, max_leverage: 50 },
                UniverseEntry { name: "ETH".to_string(), sz_decimals: 4, max_leverage: 50 },
            ],
        }),
        AssetContext::Ctx(vec![
            Ctx {
                mark_px: Px::new(97000, 1),
                oracle_px: Px::new(97001, 1),
                prev_day_px: Px::new(96000, 1),
            },
            Ctx {
                mark_px: Px::new(3000, 1),
                oracle_px: Px::new(3001, 1),
                prev_day_px: Px::new(2900, 1),
            },
        ]),
    ];
    let (mark, decimals) = twap_market_data(&ctxs, 1).unwrap();
    assert_eq!(mark, Px::new(3000, 1));
    assert_eq!(decimals, 4);
    assert!(twap_market_data(&ctxs, 2).is_err());
    assert!(twap_market_data(&vec![], 0).is_err());

    // name lookup ignores ASCII case
    let (ctx, entry) = extract_asset_ctx(&ctxs, "eth").unwrap();
    assert_eq!(ctx.mark_px, Px::new(3000, 1));
    assert_eq!(entry.name, "ETH");
    assert_eq!(entry.sz_decimals, 4);
    assert!(extract_asset_ctx(&ctxs, "DOGE").is_err());
}
