//! Tests for exact decimal parsing, URL splitting, symbol normalisation,
//! configuration formatting, errors, and risk filtering.

use backend::config::{Config, u64_dec};
use backend::error::Error;
use backend::market::{OrderRequest, OrderType, Limit, SpotMeta, SpotUniverseEntry, Tif,
    TokenMeta, filter_orders_by_risk, order_within_risk, second_token_symbol};
use backend::net::{ascii_uppercase, coin_from_symbol, parse_http_url};
use backend::px::{Px, parse_px};

#[test]
fn decimal_strings_parse_exactly() {
    assert_eq!(parse_px("123.45"), Some(Px::new(12345, 100)));
    assert_eq!(parse_px("0.5"), Some(Px::new(5, 10)));
    assert_eq!(parse_px(".5"), Some(Px::new(5, 10)));
    assert_eq!(parse_px("42"), Some(Px::new(42, 1)));
    assert_eq!(parse_px("97000."), Some(Px::new(97000, 1)));
    assert_eq!(parse_px(""), None);
    assert_eq!(parse_px("."), None);
    assert_eq!(parse_px("1.2.3"), None);
    assert_eq!(parse_px("12a"), None);
    assert_eq!(parse_px("-1"), None);
    // the numerator must fit a machine word
    assert_eq!(parse_px("99999999999999999999999"), None);
}

#[test]
fn rational_comparisons_are_exact() {
    let a = Px::new(1, 3);
    let b = Px::new(333333333333, 1000000000000);
    // floating point would call these equal at low precision; the exact
    // comparison knows 1/3 is larger
    assert!(b.lt(a));
    assert!(a.gt(b));
    assert!(!a.same_value(b));
    assert!(Px::new(2, 4).same_value(Px::new(1, 2)));
    assert_eq!(Px::new(1, 2).checked_div(Px::new(0, 1)), None);
    assert_eq!(Px::new(1, 2).checked_mul(Px::new(2, 3)), Some(Px::new(2, 6)));
}

#[test]
fn urls_split_into_host_port_and_path() {
    let (host, port, path) = parse_http_url("http://example.com:8080/api/items").unwrap();
    assert_eq!(host, "example.com");
    assert_eq!(port, 8080);
    assert_eq!(path, "/api/items");
    let (host2, port2, path2) = parse_http_url("http://localhost").unwrap();
    assert_eq!(host2, "localhost");
    assert_eq!(port2, 80);
    assert_eq!(path2, "/");
    let (host3, port3, path3) = parse_http_url("http://h:99/").unwrap();
    assert_eq!((host3.as_str(), port3, path3.as_str()), ("h", 99, "/"));
    assert!(parse_http_url("https://example.com").is_err());
    assert!(parse_http_url("example.com").is_err());
    assert!(parse_http_url("http://h:/x").is_err());
    assert!(parse_http_url("http://h:abc").is_err());
    assert!(parse_http_url("http://h:70000").is_err());
}

#[test]
fn symbols_normalise_to_the_coin_name() {
    assert_eq!(coin_from_symbol("btc-usd"), "BTC");
    assert_eq!(coin_from_symbol("eth"), "ETH");
    assert_eq!(coin_from_symbol("SOL-PERP-X"), "SOL");
    assert_eq!(coin_from_symbol(""), "");
    // only ASCII letters are uppercased; everything else passes through
    assert_eq!(ascii_uppercase("abc-Xyz9\u{fc}"), "ABC-XYZ9\u{fc}");
    assert_eq!(ascii_uppercase("az"), "AZ");
    assert_eq!(ascii_uppercase(""), "");
}

#[test]
fn listener_addresses_format_as_host_and_port() {
    let mut config = Config {
        server_host: "0.0.0.0".to_string(),
        server_port: 8000,
        ws_host: "127.0.0.1".to_string(),
        ws_port: 9001,
        level: "info".to_string(),
        redis_url: "redis://localhost".to_string(),
        cookie_key: "0123456789012345678901234567890123456789012345678901234567890123".to_string(),
    };
    assert_eq!(config.server_url(), "0.0.0.0:8000");
    assert_eq!(config.ws_url(), "127.0.0.1:9001");
    config.set_port(8080);
    assert_eq!(config.server_url(), "0.0.0.0:8080");
    assert_eq!(u64_dec(0), "0");
    assert_eq!(u64_dec(65535), "65535");
    assert_eq!(u64_dec(10), "10");
}

#[test]
fn bad_requests_map_to_client_errors() {
    let bad = Error::BadRequestError("no".to_string());
    assert_eq!(bad.status_code(), 400);
    assert_eq!(bad.message(), "no");
    let other = Error::UnexpectedError("boom".to_string());
    assert_eq!(other.status_code(), 500);
    assert_eq!(other.message(), "boom");
    assert_eq!(Error::IOError("io".to_string()).status_code(), 500);
    assert_eq!(Error::HyperliquidError("hl".to_string()).status_code(), 500);
    assert_eq!(Error::FloatParsingFailed("f".to_string()).status_code(), 500);
}

fn spot_meta() -> SpotMeta {
    SpotMeta {
        universe: vec![
            SpotUniverseEntry { index: 0, tokens: vec![10, 11] },
            SpotUniverseEntry { index: 1, tokens: vec![12] },
        ],
        tokens: vec![
            TokenMeta { index: 10, name: "PURR".to_string() },
            TokenMeta { index: 11, name: "USDC".to_string() },
        ],
    }
}

#[test]
fn quote_token_lookup_follows_the_spot_metadata() {
    assert_eq!(second_token_symbol(&spot_meta(), 0).unwrap(), "USDC");
    // unknown market index
    assert!(second_token_symbol(&spot_meta(), 9).is_err());
    // market without a second token
    assert!(second_token_symbol(&spot_meta(), 1).is_err());
    // second token index unknown
    let mut meta = spot_meta();
    meta.tokens.pop();
    assert!(second_token_symbol(&meta, 0).is_err());
}

fn order(is_buy: bool, px: Px, sz: Px) -> OrderRequest {
    OrderRequest {
        asset: 0,
        is_buy,
        limit_px: px,
        sz,
        reduce_only: false,
        order_type: OrderType::Limit(Limit { tif: Tif::Ioc }),
        cloid: None,
    }
}

#[test]
fn risky_buy_orders_are_filtered_out() {
    // 100 * 3 = 300 notional against a threshold of 250
    assert_eq!(
        order_within_risk(Px::new(100, 1), Px::new(3, 1), None, Px::new(250, 1)),
        Ok(false)
    );
    assert_eq!(
        order_within_risk(Px::new(100, 1), Px::new(2, 1), None, Px::new(250, 1)),
        Ok(true)
    );
    // quoting through another token: 100 * 2 * 2 = 400
    assert_eq!(
        order_within_risk(Px::new(100, 1), Px::new(2, 1), Some(Px::new(2, 1)), Px::new(250, 1)),
        Ok(false)
    );
    let orders = vec![
        order(true, Px::new(100, 1), Px::new(3, 1)),
        order(false, Px::new(100, 1), Px::new(9, 1)),
        order(true, Px::new(100, 1), Px::new(2, 1)),
    ];
    let quotes = vec![None, None, None];
    let kept = filter_orders_by_risk(orders, &quotes, Px::new(250, 1)).unwrap();
    assert_eq!(kept.len(), 2);
    assert!(!kept[0].is_buy);
    assert!(kept[1].is_buy && kept[1].sz == Px::new(2, 1));
}
