//! Exchange-facing request types and venue metadata lookups.
//!
//! Prices and sizes are exact rationals ([`Px`]); the process edge turns them
//! into the venue's decimal-string encoding when a request leaves the
//! process.

use crate::error::Error;
use crate::error::bad_request;
use crate::px::Px;
use vstd::prelude::*;

verus! {

/// Time-in-force of a limit order.
#[derive(Clone, Copy, Debug, PartialEq, Eq, Structural)]
pub enum Tif {
    /// Add liquidity only.
    Alo,
    /// Immediate or cancel.
    Ioc,
    /// Good till cancelled.
    Gtc,
}

/// Limit order parameters.
#[derive(Clone, Copy, Debug, PartialEq, Eq, Structural)]
pub struct Limit {
    pub tif: Tif,
}

/// How an order rests or executes.
#[derive(Clone, Copy, Debug, PartialEq, Eq, Structural)]
pub enum OrderType {
    Limit(Limit),
}

/// One order to place on the venue.
#[derive(Clone, Debug, PartialEq)]
pub struct OrderRequest {
    /// Asset identifier to trade.
    pub asset: u32,
    /// Direction of the order.
    pub is_buy: bool,
    /// Limit price.
    pub limit_px: Px,
    /// Order size.
    pub sz: Px,
    /// Whether the order may only reduce an existing position.
    pub reduce_only: bool,
    /// Resting/execution behaviour.
    pub order_type: OrderType,
    /// Optional client order id.
    pub cloid: Option<u128>,
}

/// Wrapper around one or more order submissions.
#[derive(Clone, Debug, PartialEq)]
pub struct Order {
    /// Batch of orders to place via the exchange endpoint.
    pub orders: Vec<OrderRequest>,
}

/// One cancellation request.
#[derive(Clone, Copy, Debug, PartialEq, Eq, Structural)]
pub struct CancelRequest {
    /// Asset the order rests on.
    pub asset: u32,
    /// Order id to cancel.
    pub oid: u64,
}

/// Batch cancellation payload.
#[derive(Clone, Debug, PartialEq)]
pub struct Cancel {
    /// Batch of cancel requests to forward to the venue.
    pub cancels: Vec<CancelRequest>,
}

/// Payload for creating a new sub-account.
#[derive(Clone, Debug, PartialEq)]
pub struct CreateSubAccount {
    /// Human-readable label for the new sub-account.
    pub name: String,
}

/// Parameters for updating account-wide leverage settings.
#[derive(Clone, Copy, Debug, PartialEq, Eq, Structural)]
pub struct UpdateLeverage {
    /// Asset identifier to apply leverage to.
    pub asset: u32,
    /// Whether leverage should be cross or isolated.
    pub is_cross: bool,
    /// Desired leverage multiplier.
    pub leverage: u32,
}

/// Payload for adjusting isolated margin on a particular asset.
#[derive(Clone, Copy, Debug, PartialEq, Eq, Structural)]
pub struct UpdateIsolatedMargin {
    /// Asset identifier to adjust.
    pub asset: u32,
    /// Direction flag for the margin update.
    pub is_buy: bool,
    /// Net total leverage impact requested.
    pub ntli: i64,
}

/// Parameters required to compute user delta exposure.
#[derive(Clone, Debug, PartialEq)]
pub struct DeltaCalculationRequest {
    /// Symbol to evaluate delta exposure for.
    pub symbol: String,
    /// Human-readable time range determining how far back to look.
    pub range: String,
}

/// Per-asset metadata entry of the venue's universe.
#[derive(Clone, Debug, PartialEq)]
pub struct UniverseEntry {
    /// Asset name.
    pub name: String,
    /// Number of decimals allowed in order sizes.
    pub sz_decimals: u32,
    /// Maximum leverage offered.
    pub max_leverage: u32,
}

/// Venue metadata: the list of tradable assets.
#[derive(Clone, Debug, PartialEq)]
pub struct Meta {
    pub universe: Vec<UniverseEntry>,
}

/// Per-asset market context.
#[derive(Clone, Debug, PartialEq)]
pub struct Ctx {
    /// The venue's reference price for the asset.
    pub mark_px: Px,
    /// The venue's oracle price for the asset.
    pub oracle_px: Px,
    /// Previous day's price.
    pub prev_day_px: Px,
}

/// One element of the venue's contexts response: metadata first, then the
/// per-asset contexts.
#[derive(Clone, Debug, PartialEq)]
pub enum AssetContext {
    Meta(Meta),
    Ctx(Vec<Ctx>),
}

/// The venue's reference data a TWAP slice needs: the asset's mark price and
/// its size precision. Mirrors the contexts response layout: metadata at
/// position zero, per-asset contexts at position one.
pub fn twap_market_data(ctxs: &Vec<AssetContext>, asset: u32) -> (r: Result<(Px, u32), Error>)
    ensures
        r is Ok <==> ctxs@.len() >= 2 && ctxs@[0] is Meta && ctxs@[1] is Ctx && (asset as int)
            < ctxs@[1]->Ctx_0@.len() && (asset as int) < ctxs@[0]->Meta_0.universe@.len(),
        r is Ok ==> r->Ok_0.0 == ctxs@[1]->Ctx_0@[asset as int].mark_px && r->Ok_0.1
            == ctxs@[0]->Meta_0.universe@[asset as int].sz_decimals,
    {
    if ctxs.len() < 2 {
        return Err(bad_request("Failed to get asset contexts"));
    }
    let metas = &ctxs[0];
    let contexts = &ctxs[1];
    let meta = match metas {
        AssetContext::Meta(m) => m,
        _ => {
            return Err(bad_request("Failed to get universe"));
        },
    };
    let asset_ctxs = match contexts {
        AssetContext::Ctx(c) => c,
        _ => {
            return Err(bad_request("Failed to get asset contexts"));
        },
    };
    let idx = asset as usize;
    if idx >= asset_ctxs.len() {
        return Err(bad_request("Failed to get mark price"));
    }
    if idx >= meta.universe.len() {
        return Err(bad_request("Failed to get sz_decimals"));
    }
    Ok((asset_ctxs[idx].mark_px, meta.universe[idx].sz_decimals))
}

/// Two names are the same asset when they agree up to ASCII case.
pub open spec fn names_match(a: Seq<char>, b: Seq<char>) -> bool {
    a.map_values(|c: char| crate::net::spec_to_ascii_upper(c)) == b.map_values(
        |c: char| crate::net::spec_to_ascii_upper(c),
    )
}

/// First universe entry whose name matches the coin, ignoring ASCII case.
pub open spec fn spec_find_asset(us: Seq<UniverseEntry>, coin: Seq<char>) -> Option<int>
    decreases us.len(),
{
    if us.len() == 0 {
        None
    } else if names_match(us[0].name@, coin) {
        Some(0)
    } else {
        match spec_find_asset(us.drop_first(), coin) {
            Some(i) => Some(i + 1),
            None => None,
        }
    }
}

/// The first matching name characterises the spec search.
proof fn lemma_find_asset_at(us: Seq<UniverseEntry>, coin: Seq<char>, j: int)
    requires
        0 <= j < us.len(),
        names_match(us[j].name@, coin),
        forall|k: int| 0 <= k < j ==> !names_match((#[trigger] us[k]).name@, coin),
    ensures
        spec_find_asset(us, coin) == Some(j),
    decreases j,
{
    if j > 0 {
        lemma_find_asset_at(us.drop_first(), coin, j - 1);
    }
}

/// A scan without a match finds nothing.
proof fn lemma_find_asset_none(us: Seq<UniverseEntry>, coin: Seq<char>)
    requires
        forall|k: int| 0 <= k < us.len() ==> !names_match((#[trigger] us[k]).name@, coin),
    ensures
        spec_find_asset(us, coin) is None,
    decreases us.len(),
{
    if us.len() > 0 {
        lemma_find_asset_none(us.drop_first(), coin);
    }
}

/// The context and universe entry of the asset named `coin`, matched against
/// the universe ignoring ASCII case, out of a contexts response laid out as
/// metadata first, per-asset contexts second.
pub fn extract_asset_ctx<'a>(ctxs: &'a Vec<AssetContext>, coin: &str) -> (r: Result<
    (&'a Ctx, &'a UniverseEntry),
    Error,
>)
    ensures
        r is Ok <==> ctxs@.len() >= 2 && ctxs@[0] is Meta && ctxs@[1] is Ctx && ({
            match spec_find_asset(ctxs@[0]->Meta_0.universe@, coin@) {
                Some(i) => i < ctxs@[1]->Ctx_0@.len(),
                None => false,
            }
        }),
        r is Ok ==> ({
            let i = spec_find_asset(ctxs@[0]->Meta_0.universe@, coin@)->0;
            *r->Ok_0.0 == ctxs@[1]->Ctx_0@[i] && *r->Ok_0.1 == ctxs@[0]->Meta_0.universe@[i]
        }),
        r is Err ==> r->Err_0 is BadRequestError,
{
    if ctxs.len() < 2 {
        return Err(bad_request("Missing asset contexts"));
    }
    let meta = match &ctxs[0] {
        AssetContext::Meta(m) => m,
        _ => {
            return Err(bad_request("Unexpected meta shape"));
        },
    };
    let asset_ctxs = match &ctxs[1] {
        AssetContext::Ctx(c) => c,
        _ => {
            return Err(bad_request("Unexpected ctx shape"));
        },
    };
    let coin_upper = crate::net::ascii_uppercase(coin);
    let us = &meta.universe;
    let mut i: usize = 0;
    let mut found: Option<usize> = None;
    while i < us.len()
        invariant
            0 <= i <= us@.len(),
            coin_upper@ == coin@.map_values(|c: char| crate::net::spec_to_ascii_upper(c)),
            match found {
                Some(j) => 0 <= j < us@.len() && i == us@.len() && names_match(
                    us@[j as int].name@,
                    coin@,
                ) && (forall|k: int|
                    0 <= k < j ==> !names_match((#[trigger] us@[k]).name@, coin@)),
                None => forall|k: int| 0 <= k < i ==> !names_match(
                    (#[trigger] us@[k]).name@,
                    coin@,
                ),
            },
        decreases us.len() - i,
    {
        let name_upper = crate::net::ascii_uppercase(us[i].name.as_str());
        if name_upper == coin_upper {
            found = Some(i);
            i = us.len();
        } else {
            i += 1;
        }
    }
    match found {
        Some(j) => {
            proof {
                lemma_find_asset_at(us@, coin@, j as int);
            }
            if j >= asset_ctxs.len() {
                return Err(bad_request("Asset context missing"));
            }
            Ok((&asset_ctxs[j], &us[j]))
        },
        None => {
            proof {
                lemma_find_asset_none(us@, coin@);
            }
            Err(bad_request("Unknown symbol"))
        },
    }
}

/// One spot market of the venue's spot metadata: its index and the token
/// indices of its pair.
#[derive(Clone, Debug, PartialEq)]
pub struct SpotUniverseEntry {
    pub index: u64,
    pub tokens: Vec<u64>,
}

/// One token of the venue's spot metadata.
#[derive(Clone, Debug, PartialEq)]
pub struct TokenMeta {
    pub index: u64,
    pub name: String,
}

/// The venue's spot metadata.
#[derive(Clone, Debug, PartialEq)]
pub struct SpotMeta {
    pub universe: Vec<SpotUniverseEntry>,
    pub tokens: Vec<TokenMeta>,
}

/// First spot market with the given index.
pub open spec fn spec_find_universe(us: Seq<SpotUniverseEntry>, asset: u64) -> Option<int>
    decreases us.len(),
{
    if us.len() == 0 {
        None
    } else if us[0].index == asset {
        Some(0)
    } else {
        match spec_find_universe(us.drop_first(), asset) {
            Some(i) => Some(i + 1),
            None => None,
        }
    }
}

/// First token with the given index.
pub open spec fn spec_find_token(ts: Seq<TokenMeta>, index: u64) -> Option<int>
    decreases ts.len(),
{
    if ts.len() == 0 {
        None
    } else if ts[0].index == index {
        Some(0)
    } else {
        match spec_find_token(ts.drop_first(), index) {
            Some(i) => Some(i + 1),
            None => None,
        }
    }
}

/// The first occurrence characterises the spec search.
proof fn lemma_find_universe_at(us: Seq<SpotUniverseEntry>, asset: u64, j: int)
    requires
        0 <= j < us.len(),
        us[j].index == asset,
        forall|k: int| 0 <= k < j ==> (#[trigger] us[k]).index != asset,
    ensures
        spec_find_universe(us, asset) == Some(j),
    decreases j,
{
    if j > 0 {
        lemma_find_universe_at(us.drop_first(), asset, j - 1);
    }
}

/// A search over a fully scanned list without a match returns nothing.
proof fn lemma_find_universe_none(us: Seq<SpotUniverseEntry>, asset: u64)
    requires
        forall|k: int| 0 <= k < us.len() ==> (#[trigger] us[k]).index != asset,
    ensures
        spec_find_universe(us, asset) is None,
    decreases us.len(),
{
    if us.len() > 0 {
        lemma_find_universe_none(us.drop_first(), asset);
    }
}

/// The first occurrence characterises the spec search.
proof fn lemma_find_token_at(ts: Seq<TokenMeta>, index: u64, j: int)
    requires
        0 <= j < ts.len(),
        ts[j].index == index,
        forall|k: int| 0 <= k < j ==> (#[trigger] ts[k]).index != index,
    ensures
        spec_find_token(ts, index) == Some(j),
    decreases j,
{
    if j > 0 {
        lemma_find_token_at(ts.drop_first(), index, j - 1);
    }
}

/// A search over a fully scanned list without a match returns nothing.
proof fn lemma_find_token_none(ts: Seq<TokenMeta>, index: u64)
    requires
        forall|k: int| 0 <= k < ts.len() ==> (#[trigger] ts[k]).index != index,
    ensures
        spec_find_token(ts, index) is None,
    decreases ts.len(),
{
    if ts.len() > 0 {
        lemma_find_token_none(ts.drop_first(), index);
    }
}

/// The name of the quote token of an asset's spot pair: the spot market with
/// the asset's index names at least two tokens, and the second one's
/// metadata carries the name.
pub fn second_token_symbol(spot_meta: &SpotMeta, asset: u32) -> (r: Result<String, Error>)
    ensures
        ({
            match spec_find_universe(spot_meta.universe@, asset as u64) {
                None => r is Err,
                Some(ui) => {
                    let u = spot_meta.universe@[ui];
                    if u.tokens@.len() < 2 {
                        r is Err
                    } else {
                        match spec_find_token(spot_meta.tokens@, u.tokens@[1]) {
                            None => r is Err,
                            Some(ti) => r is Ok && r->Ok_0@ == spot_meta.tokens@[ti].name@,
                        }
                    }
                },
            }
        }),
        r is Err ==> r->Err_0 is BadRequestError,
{
    let us = &spot_meta.universe;
    let mut i: usize = 0;
    let mut found: Option<usize> = None;
    while i < us.len()
        invariant
            0 <= i <= us@.len(),
            match found {
                Some(j) => 0 <= j < us@.len() && i == us@.len() && us@[j as int].index == asset
                    as u64 && (forall|k: int| 0 <= k < j ==> (#[trigger] us@[k]).index != asset
                    as u64),
                None => forall|k: int| 0 <= k < i ==> (#[trigger] us@[k]).index != asset as u64,
            },
        decreases us.len() - i,
    {
        if us[i].index == asset as u64 {
            found = Some(i);
            i = us.len();
        } else {
            i += 1;
        }
    }
    let ui = match found {
        Some(j) => {
            proof {
                lemma_find_universe_at(us@, asset as u64, j as int);
            }
            j
        },
        None => {
            proof {
                lemma_find_universe_none(us@, asset as u64);
            }
            return Err(bad_request("There are no matches for this index"));
        },
    };
    let entry = &us[ui];
    if entry.tokens.len() < 2 {
        return Err(bad_request("Can't take token name from universe"));
    }
    let second = entry.tokens[1];
    let ts = &spot_meta.tokens;
    let mut i2: usize = 0;
    let mut tfound: Option<usize> = None;
    while i2 < ts.len()
        invariant
            0 <= i2 <= ts@.len(),
            match tfound {
                Some(j) => 0 <= j < ts@.len() && i2 == ts@.len() && ts@[j as int].index == second
                    && (forall|k: int| 0 <= k < j ==> (#[trigger] ts@[k]).index != second),
                None => forall|k: int| 0 <= k < i2 ==> (#[trigger] ts@[k]).index != second,
            },
        decreases ts.len() - i2,
    {
        if ts[i2].index == second {
            tfound = Some(i2);
            i2 = ts.len();
        } else {
            i2 += 1;
        }
    }
    match tfound {
        Some(j) => {
            proof {
                lemma_find_token_at(ts@, second, j as int);
            }
            Ok(ts[j].name.clone())
        },
        None => {
            proof {
                lemma_find_token_none(ts@, second);
            }
            Err(bad_request("There is no token with this index"))
        },
    }
}

/// The exact notional of a buy order: price times size, times the quote
/// asset's own price when the pair is not quoted in the account currency.
pub open spec fn spec_notional(limit_px: Px, sz: Px, quote_px: Option<Px>) -> Px {
    match quote_px {
        Some(q) => crate::px::spec_mul(crate::px::spec_mul(limit_px, sz), q),
        None => crate::px::spec_mul(limit_px, sz),
    }
}

/// All products in the notional stay within `u64`.
pub open spec fn notional_fits(limit_px: Px, sz: Px, quote_px: Option<Px>) -> bool {
    crate::px::mul_fits(limit_px, sz) && match quote_px {
        Some(q) => crate::px::mul_fits(crate::px::spec_mul(limit_px, sz), q),
        None => true,
    }
}

/// Whether a buy order's exact notional stays within the risk threshold.
pub fn order_within_risk(limit_px: Px, sz: Px, quote_px: Option<Px>, risk: Px) -> (r: Result<
    bool,
    Error,
>)
    requires
        limit_px.wf(),
        sz.wf(),
        risk.wf(),
        match quote_px {
            Some(q) => q.wf(),
            None => true,
        },
    ensures
        r is Ok <==> notional_fits(limit_px, sz, quote_px),
        r is Ok ==> r->Ok_0 == !crate::px::rat_lt(risk, spec_notional(limit_px, sz, quote_px)),
{
    let base = match limit_px.checked_mul(sz) {
        Some(v) => v,
        None => {
            return Err(bad_request("order notional out of range"));
        },
    };
    let notional = match quote_px {
        Some(q) => match base.checked_mul(q) {
            Some(v) => v,
            None => {
                return Err(bad_request("order notional out of range"));
            },
        },
        None => base,
    };
    Ok(!risk.lt(notional))
}

/// The buy orders whose notional exceeds the risk threshold, removed; orders
/// that only sell pass through unexamined. The quote price list pairs with
/// the orders positionally (`None` marks a pair already quoted in the
/// account currency).
pub open spec fn spec_filter_risk(
    orders: Seq<OrderRequest>,
    quotes: Seq<Option<Px>>,
    risk: Px,
) -> Seq<OrderRequest>
    decreases orders.len(),
{
    if orders.len() == 0 {
        Seq::empty()
    } else {
        let rest = spec_filter_risk(orders.drop_first(), quotes.drop_first(), risk);
        let o = orders[0];
        if !o.is_buy || !crate::px::rat_lt(risk, spec_notional(o.limit_px, o.sz, quotes[0])) {
            seq![o] + rest
        } else {
            rest
        }
    }
}

/// Filter a batch of orders by their exact notional risk. Fails when a buy
/// order's notional cannot be computed within range, as the original
/// submission then cannot be assessed.
pub fn filter_orders_by_risk(orders: Vec<OrderRequest>, quotes: &Vec<Option<Px>>, risk: Px) -> (r:
    Result<Vec<OrderRequest>, Error>)
    requires
        risk.wf(),
        quotes@.len() == orders@.len(),
        forall|i: int|
            0 <= i < orders@.len() ==> (#[trigger] orders@[i]).limit_px.wf()
                && orders@[i].sz.wf(),
        forall|i: int|
            0 <= i < quotes@.len() ==> match #[trigger] quotes@[i] {
                Some(q) => q.wf(),
                None => true,
            },
    ensures
        r is Ok <==> (forall|i: int|
            0 <= i < orders@.len() && (#[trigger] orders@[i]).is_buy ==> notional_fits(
                orders@[i].limit_px,
                orders@[i].sz,
                quotes@[i],
            )),
        r is Ok ==> r->Ok_0@ == spec_filter_risk(orders@, quotes@, risk),
{
    let mut filtered: Vec<OrderRequest> = Vec::new();
    let mut i: usize = 0;
    let n = orders.len();
    while i < n
        invariant
            0 <= i <= n,
            n == orders@.len(),
            quotes@.len() == orders@.len(),
            risk.wf(),
            forall|t: int|
                0 <= t < orders@.len() ==> (#[trigger] orders@[t]).limit_px.wf()
                    && orders@[t].sz.wf(),
            forall|t: int|
                0 <= t < quotes@.len() ==> match #[trigger] quotes@[t] {
                    Some(q) => q.wf(),
                    None => true,
                },
            forall|t: int|
                0 <= t < i && (#[trigger] orders@[t]).is_buy ==> notional_fits(
                    orders@[t].limit_px,
                    orders@[t].sz,
                    quotes@[t],
                ),
            filtered@ == spec_filter_risk(orders@.take(i as int), quotes@.take(i as int), risk),
        decreases n - i,
    {
        proof {
            lemma_filter_risk_push(orders@, quotes@, risk, i as int);
        }
        let o = &orders[i];
        if o.is_buy {
            let quote = match &quotes[i] {
                Some(q) => Some(*q),
                None => None,
            };
            let within = match order_within_risk(o.limit_px, o.sz, quote, risk) {
                Ok(v) => v,
                Err(e) => {
                    return Err(e);
                },
            };
            if within {
                filtered.push(o.clone_order());
            }
        } else {
            filtered.push(o.clone_order());
        }
        i += 1;
    }
    proof {
        assert(orders@.take(n as int) =~= orders@);
        assert(quotes@.take(n as int) =~= quotes@);
    }
    Ok(filtered)
}

/// Unfolding the risk filter one order at a time, from the front.
proof fn lemma_filter_risk_push(orders: Seq<OrderRequest>, quotes: Seq<Option<Px>>, risk: Px, i: int)
    requires
        0 <= i < orders.len(),
        quotes.len() == orders.len(),
    ensures
        spec_filter_risk(orders.take(i + 1), quotes.take(i + 1), risk) == spec_filter_risk(
            orders.take(i),
            quotes.take(i),
            risk,
        ) + (if !orders[i].is_buy || !crate::px::rat_lt(
            risk,
            spec_notional(orders[i].limit_px, orders[i].sz, quotes[i]),
        ) {
            seq![orders[i]]
        } else {
            Seq::<OrderRequest>::empty()
        }),
    decreases i,
{
    let a = orders.take(i + 1);
    let qa = quotes.take(i + 1);
    let b = orders.take(i);
    let qb = quotes.take(i);
    if i == 0 {
        assert(a.drop_first() =~= b);
        assert(qa.drop_first() =~= qb);
        assert(b =~= Seq::<OrderRequest>::empty());
        assert(spec_filter_risk(a.drop_first(), qa.drop_first(), risk) == spec_filter_risk(
            b,
            qb,
            risk,
        ));
        assert(spec_filter_risk(b, qb, risk) =~= Seq::<OrderRequest>::empty());
        if !orders[0].is_buy || !crate::px::rat_lt(
            risk,
            spec_notional(orders[0].limit_px, orders[0].sz, quotes[0]),
        ) {
            assert(spec_filter_risk(a, qa, risk) =~= seq![orders[0]]);
        } else {
            assert(spec_filter_risk(a, qa, risk) =~= Seq::<OrderRequest>::empty());
        }
    } else {
        assert(a.drop_first() =~= orders.drop_first().take(i));
        assert(qa.drop_first() =~= quotes.drop_first().take(i));
        assert(b.drop_first() =~= orders.drop_first().take(i - 1));
        assert(qb.drop_first() =~= quotes.drop_first().take(i - 1));
        assert(a[0] == orders[0] && b[0] == orders[0]);
        assert(qa[0] == quotes[0] && qb[0] == quotes[0]);
        lemma_filter_risk_push(orders.drop_first(), quotes.drop_first(), risk, i - 1);
        assert(orders.drop_first()[i - 1] == orders[i]);
        assert(quotes.drop_first()[i - 1] == quotes[i]);
        if !orders[0].is_buy || !crate::px::rat_lt(
            risk,
            spec_notional(orders[0].limit_px, orders[0].sz, quotes[0]),
        ) {
            assert(spec_filter_risk(a, qa, risk) =~= seq![orders[0]] + spec_filter_risk(
                orders.drop_first().take(i),
                quotes.drop_first().take(i),
                risk,
            ));
            assert(spec_filter_risk(b, qb, risk) =~= seq![orders[0]] + spec_filter_risk(
                orders.drop_first().take(i - 1),
                quotes.drop_first().take(i - 1),
                risk,
            ));
            assert(spec_filter_risk(a, qa, risk) =~= spec_filter_risk(b, qb, risk) + (if !orders[i].is_buy
                || !crate::px::rat_lt(
                risk,
                spec_notional(orders[i].limit_px, orders[i].sz, quotes[i]),
            ) {
                seq![orders[i]]
            } else {
                Seq::<OrderRequest>::empty()
            }));
        } else {
            assert(spec_filter_risk(a, qa, risk) =~= spec_filter_risk(b, qb, risk) + (if !orders[i].is_buy
                || !crate::px::rat_lt(
                risk,
                spec_notional(orders[i].limit_px, orders[i].sz, quotes[i]),
            ) {
                seq![orders[i]]
            } else {
                Seq::<OrderRequest>::empty()
            }));
        }
    }
}

impl OrderRequest {
    /// A structurally equal copy.
    pub fn clone_order(&self) -> (r: Self)
        ensures
            r == *self,
    {
        OrderRequest {
            asset: self.asset,
            is_buy: self.is_buy,
            limit_px: self.limit_px,
            sz: self.sz,
            reduce_only: self.reduce_only,
            order_type: self.order_type,
            cloid: self.cloid,
        }
    }
}

} // verus!
