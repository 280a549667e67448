//! Wire-level data model: subscription topics, control methods, inbound
//! stream payloads, and the routing key derived from both.
//!
//! A topic is a (symbol, stream-kind) pair. Inbound frames are routed back to
//! subscribers by a [`ResponsePattern`] key, which the same derivation yields
//! from a topic at subscribe time and from a decoded message at delivery
//! time.

use crate::px::Px;
use vstd::prelude::*;

verus! {

/// Individual stream subscriptions understood by the venue.
#[derive(Clone, Debug, PartialEq)]
pub enum Subscribe {
    /// Stream candle updates for a given coin and interval.
    Candle { coin: String, interval: String },
    /// Stream level-2 book updates for a coin.
    L2Book { coin: String },
}

/// Mathematical image of [`Subscribe`].
pub enum SubscribeV {
    Candle { coin: Seq<char>, interval: Seq<char> },
    L2Book { coin: Seq<char> },
}

impl View for Subscribe {
    type V = SubscribeV;

    open spec fn view(&self) -> SubscribeV {
        match self {
            Subscribe::Candle { coin, interval } => SubscribeV::Candle {
                coin: coin@,
                interval: interval@,
            },
            Subscribe::L2Book { coin } => SubscribeV::L2Book { coin: coin@ },
        }
    }
}

impl Subscribe {
    /// A structurally equal copy.
    pub fn duplicate(&self) -> (r: Self)
        ensures
            r@ == self@,
    {
        match self {
            Subscribe::Candle { coin, interval } => Subscribe::Candle {
                coin: coin.clone(),
                interval: interval.clone(),
            },
            Subscribe::L2Book { coin } => Subscribe::L2Book { coin: coin.clone() },
        }
    }
}

/// Wrapper around a subscription request.
#[derive(Clone, Debug, PartialEq)]
pub struct Subscription {
    /// Underlying subscription descriptor forwarded to the venue.
    pub subscription: Subscribe,
}

/// Mathematical image of [`Subscription`].
pub struct SubscriptionV {
    pub subscription: SubscribeV,
}

impl View for Subscription {
    type V = SubscriptionV;

    open spec fn view(&self) -> SubscriptionV {
        SubscriptionV { subscription: self.subscription@ }
    }
}

impl Subscription {
    /// Convenience constructor used by stream handlers.
    pub fn new(subscription: Subscribe) -> (r: Self)
        ensures
            r@.subscription == subscription@,
    {
        Self { subscription }
    }

    /// A structurally equal copy.
    pub fn duplicate(&self) -> (r: Self)
        ensures
            r@ == self@,
    {
        Self { subscription: self.subscription.duplicate() }
    }
}

/// Methods supported by the venue's control channel.
#[derive(Clone, Debug, PartialEq)]
pub enum WSMethod {
    /// Keep-alive ping sent from client to server.
    Ping,
    /// Subscribe to a stream.
    Subscribe(Subscription),
    /// Unsubscribe from a stream.
    Unsubscribe(Subscription),
}

/// Mathematical image of [`WSMethod`].
pub enum WSMethodV {
    Ping,
    Subscribe(SubscriptionV),
    Unsubscribe(SubscriptionV),
}

impl View for WSMethod {
    type V = WSMethodV;

    open spec fn view(&self) -> WSMethodV {
        match self {
            WSMethod::Ping => WSMethodV::Ping,
            WSMethod::Subscribe(s) => WSMethodV::Subscribe(s@),
            WSMethod::Unsubscribe(s) => WSMethodV::Unsubscribe(s@),
        }
    }
}

/// Individual book level as delivered by the venue, prices encoded as
/// decimal strings.
#[derive(Clone, Debug, PartialEq)]
pub struct Level {
    /// Price of the book level.
    pub px: String,
    /// Size resting at the level.
    pub sz: String,
    /// Number of individual orders aggregated into the level.
    pub n: u64,
}

/// Mathematical image of [`Level`].
pub struct LevelV {
    pub px: Seq<char>,
    pub sz: Seq<char>,
    pub n: u64,
}

impl View for Level {
    type V = LevelV;

    open spec fn view(&self) -> LevelV {
        LevelV { px: self.px@, sz: self.sz@, n: self.n }
    }
}

/// Order book snapshot: `levels[0]` holds the asks, `levels[1]` the bids.
#[derive(Clone, Debug, PartialEq)]
pub struct L2Book {
    /// Symbol identifier for the book update.
    pub coin: String,
    /// Two-dimensional array of book levels split by side.
    pub levels: Vec<Vec<Level>>,
    /// Server timestamp of the book snapshot.
    pub time: u64,
}

/// Mathematical image of [`L2Book`].
pub struct L2BookV {
    pub coin: Seq<char>,
    pub levels: Seq<Seq<LevelV>>,
    pub time: u64,
}

impl View for L2Book {
    type V = L2BookV;

    open spec fn view(&self) -> L2BookV {
        L2BookV {
            coin: self.coin@,
            levels: self.levels@.map_values(|row: Vec<Level>| row@.map_values(|l: Level| l@)),
            time: self.time,
        }
    }
}

/// Candle update with exact rational prices.
#[derive(Clone, Debug, PartialEq)]
pub struct Candle {
    /// Opening timestamp for the interval.
    pub open_time: i64,
    /// Closing timestamp for the interval.
    pub close_time: i64,
    /// Symbol identifier returned by the venue.
    pub symbol: String,
    /// Interval label (e.g. `1h`).
    pub interval: String,
    /// Opening price.
    pub open_price: Px,
    /// Closing price for the interval.
    pub close_price: Px,
    /// High price reached during the interval.
    pub high_price: Px,
    /// Low price reached during the interval.
    pub low_price: Px,
    /// Total traded volume.
    pub volume: Px,
    /// Number of trades observed.
    pub num_trade: i64,
}

/// Mathematical image of [`Candle`].
pub struct CandleV {
    pub open_time: i64,
    pub close_time: i64,
    pub symbol: Seq<char>,
    pub interval: Seq<char>,
    pub open_price: Px,
    pub close_price: Px,
    pub high_price: Px,
    pub low_price: Px,
    pub volume: Px,
    pub num_trade: i64,
}

impl View for Candle {
    type V = CandleV;

    open spec fn view(&self) -> CandleV {
        CandleV {
            open_time: self.open_time,
            close_time: self.close_time,
            symbol: self.symbol@,
            interval: self.interval@,
            open_price: self.open_price,
            close_price: self.close_price,
            high_price: self.high_price,
            low_price: self.low_price,
            volume: self.volume,
            num_trade: self.num_trade,
        }
    }
}

/// Payloads emitted by the venue's streams.
#[derive(Clone, Debug, PartialEq)]
pub enum WSResponse {
    /// Confirmation payload acknowledging a subscription change.
    SubscriptionResponse(Subscription),
    /// Candle update.
    Candle(Candle),
    /// Level-2 order book snapshot.
    L2Book(L2Book),
}

/// Mathematical image of [`WSResponse`].
pub enum WSResponseV {
    SubscriptionResponse(SubscriptionV),
    Candle(CandleV),
    L2Book(L2BookV),
}

impl View for WSResponse {
    type V = WSResponseV;

    open spec fn view(&self) -> WSResponseV {
        match self {
            WSResponse::SubscriptionResponse(s) => WSResponseV::SubscriptionResponse(s@),
            WSResponse::Candle(c) => WSResponseV::Candle(c@),
            WSResponse::L2Book(b) => WSResponseV::L2Book(b@),
        }
    }
}

/// Key describing which subscribers should receive an inbound message.
#[derive(Clone, Debug, PartialEq, Eq, Hash)]
pub enum ResponsePattern {
    L2Book(String),
    Candle(String),
    SubscriptionResponse(String),
}

/// Mathematical image of [`ResponsePattern`].
pub enum KeyV {
    L2Book(Seq<char>),
    Candle(Seq<char>),
    SubscriptionResponse(Seq<char>),
}

impl View for ResponsePattern {
    type V = KeyV;

    open spec fn view(&self) -> KeyV {
        match self {
            ResponsePattern::L2Book(coin) => KeyV::L2Book(coin@),
            ResponsePattern::Candle(symbol) => KeyV::Candle(symbol@),
            ResponsePattern::SubscriptionResponse(coin) => KeyV::SubscriptionResponse(coin@),
        }
    }
}

/// The routing key an inbound message is dispatched by.
pub open spec fn key_of_msg(m: WSResponseV) -> KeyV {
    match m {
        WSResponseV::L2Book(book) => KeyV::L2Book(book.coin),
        WSResponseV::Candle(candle) => KeyV::Candle(candle.symbol),
        WSResponseV::SubscriptionResponse(sub) => match sub.subscription {
            SubscribeV::Candle { coin, interval: _ } => KeyV::SubscriptionResponse(coin),
            SubscribeV::L2Book { coin } => KeyV::SubscriptionResponse(coin),
        },
    }
}

/// The routing key a topic's data frames will carry.
pub open spec fn key_of_topic(t: SubscribeV) -> KeyV {
    match t {
        SubscribeV::Candle { coin, interval: _ } => KeyV::Candle(coin),
        SubscribeV::L2Book { coin } => KeyV::L2Book(coin),
    }
}

/// A data message belongs to a topic when its symbol and stream kind match.
pub open spec fn msg_matches_topic(m: WSResponseV, t: SubscribeV) -> bool {
    match (m, t) {
        (WSResponseV::L2Book(book), SubscribeV::L2Book { coin }) => book.coin == coin,
        (
            WSResponseV::Candle(candle),
            SubscribeV::Candle { coin, interval: _ },
        ) => candle.symbol == coin,
        _ => false,
    }
}

/// The same derivation keys a topic and every data message that belongs to
/// it, so routing by message key is routing by topic.
pub proof fn lemma_key_derivation_agrees(m: WSResponseV, t: SubscribeV)
    requires
        msg_matches_topic(m, t),
    ensures
        key_of_msg(m) == key_of_topic(t),
{
}

impl ResponsePattern {
    /// Deduce the pattern key that will wake any listeners awaiting this
    /// response.
    pub fn from(value: &WSResponse) -> (r: ResponsePattern)
        ensures
            r@ == key_of_msg(value@),
    {
        match value {
            WSResponse::L2Book(price) => ResponsePattern::L2Book(price.coin.clone()),
            WSResponse::Candle(candle) => ResponsePattern::Candle(candle.symbol.clone()),
            WSResponse::SubscriptionResponse(subscription) => match &subscription.subscription {
                Subscribe::Candle { coin, interval: _ } => ResponsePattern::SubscriptionResponse(
                    coin.clone(),
                ),
                Subscribe::L2Book { coin } => ResponsePattern::SubscriptionResponse(coin.clone()),
            },
        }
    }

    /// The pattern key under which a topic's data frames will arrive.
    pub fn of_topic(topic: &Subscription) -> (r: ResponsePattern)
        ensures
            r@ == key_of_topic(topic@.subscription),
    {
        match &topic.subscription {
            Subscribe::Candle { coin, interval: _ } => ResponsePattern::Candle(coin.clone()),
            Subscribe::L2Book { coin } => ResponsePattern::L2Book(coin.clone()),
        }
    }

    /// Exact equality of the denoted keys.
    pub fn key_eq(&self, other: &ResponsePattern) -> (r: bool)
        ensures
            r == (self@ == other@),
    {
        match (self, other) {
            (ResponsePattern::L2Book(a), ResponsePattern::L2Book(b)) => *a == *b,
            (ResponsePattern::Candle(a), ResponsePattern::Candle(b)) => *a == *b,
            (
                ResponsePattern::SubscriptionResponse(a),
                ResponsePattern::SubscriptionResponse(b),
            ) => *a == *b,
            _ => false,
        }
    }

    /// A structurally equal copy.
    pub fn duplicate(&self) -> (r: Self)
        ensures
            r@ == self@,
    {
        match self {
            ResponsePattern::L2Book(coin) => ResponsePattern::L2Book(coin.clone()),
            ResponsePattern::Candle(symbol) => ResponsePattern::Candle(symbol.clone()),
            ResponsePattern::SubscriptionResponse(coin) => ResponsePattern::SubscriptionResponse(
                coin.clone(),
            ),
        }
    }
}

/// Client-initiated stream requests supported by the gateway.
#[derive(Clone, Debug, PartialEq)]
pub enum WSRequest {
    /// Client wants a candle ratio stream for the given base/quote symbols.
    PairsCandle { symbol_left: String, symbol_right: String },
    /// Client wants the order book depth stream for a single symbol.
    Price { symbol: String },
}

} // verus!
