//! Synthetic pair candles: combining two coins' candle streams into the
//! ratio series the charts draw.
//!
//! Every price field of the pair is the exact quotient of the two legs'
//! fields; the close of the paired candle is `c_left / c_right` by division,
//! never multiplication.

use crate::error::Error;
use crate::error::bad_request;
use crate::model::Candle;
use crate::model::CandleV;
use crate::model::WSResponse;
use crate::px::Px;
use crate::px::div_fits;
use crate::px::rat_eq;
use crate::px::spec_div;
use vstd::prelude::*;

verus! {

/// All price fields are valid rationals.
pub open spec fn candle_wf(c: CandleV) -> bool {
    c.open_price.wf() && c.close_price.wf() && c.high_price.wf() && c.low_price.wf()
        && c.volume.wf()
}

/// Two candles can be paired exactly: each price quotient fits and the trade
/// counts can be added.
pub open spec fn pair_fits(a: CandleV, b: CandleV) -> bool {
    &&& div_fits(a.open_price, b.open_price)
    &&& div_fits(a.close_price, b.close_price)
    &&& div_fits(a.high_price, b.high_price)
    &&& div_fits(a.low_price, b.low_price)
    &&& i64::MIN <= a.num_trade + b.num_trade <= i64::MAX
}

/// The exact pair of two candles: times and interval from the left leg,
/// the `left/right` label, every price field divided exactly, volume reset,
/// and trade counts added. Meaningful where the pair fits.
pub open spec fn spec_pair(a: CandleV, b: CandleV) -> CandleV {
    CandleV {
        open_time: a.open_time,
        close_time: a.close_time,
        symbol: a.symbol + seq!['/'] + b.symbol,
        interval: a.interval,
        open_price: spec_div(a.open_price, b.open_price),
        close_price: spec_div(a.close_price, b.close_price),
        high_price: spec_div(a.high_price, b.high_price),
        low_price: spec_div(a.low_price, b.low_price),
        volume: Px { num: 0, den: 1 },
        num_trade: (a.num_trade + b.num_trade) as i64,
    }
}

impl Candle {
    /// Combine two candle streams into a synthetic pair candle: exactly
    /// [`spec_pair`] of the two legs. In particular the paired close equals
    /// `c_left / c_right` as rationals — division, not multiplication.
    pub fn pair(&self, right: &Self) -> (r: Option<Candle>)
        requires
            candle_wf(self@),
            candle_wf(right@),
        ensures
            r is Some <==> pair_fits(self@, right@),
            r is Some ==> r->0@ == spec_pair(self@, right@) && candle_wf(r->0@) && rat_eq(
                r->0@.close_price,
                spec_div(self@.close_price, right@.close_price),
            ),
    {
        let open_price = match self.open_price.checked_div(right.open_price) {
            Some(v) => v,
            None => {
                return None;
            },
        };
        let close_price = match self.close_price.checked_div(right.close_price) {
            Some(v) => v,
            None => {
                return None;
            },
        };
        let high_price = match self.high_price.checked_div(right.high_price) {
            Some(v) => v,
            None => {
                return None;
            },
        };
        let low_price = match self.low_price.checked_div(right.low_price) {
            Some(v) => v,
            None => {
                return None;
            },
        };
        let num_trade = match self.num_trade.checked_add(right.num_trade) {
            Some(v) => v,
            None => {
                return None;
            },
        };
        let symbol = self.symbol.clone().concat("/").concat(right.symbol.as_str());
        proof {
            reveal_strlit("/");
            assert("/"@ =~= seq!['/']);
        }
        let out = Candle {
            open_time: self.open_time,
            close_time: self.close_time,
            symbol,
            interval: self.interval.clone(),
            open_price,
            close_price,
            high_price,
            low_price,
            volume: Px { num: 0, den: 1 },
            num_trade,
        };
        proof {
            assert(out@.symbol =~= self@.symbol + seq!['/'] + right@.symbol);
            assert(out@ == spec_pair(self@, right@));
        }
        Some(out)
    }
}

/// The view of a cached candle slot.
pub open spec fn slot_view(x: Option<Candle>) -> Option<CandleV> {
    match x {
        Some(c) => Some(c@),
        None => None,
    }
}

/// Maintains the two legs' most recent candles and emits their pair.
pub struct PairsCandle {
    /// Symbol providing the numerator side.
    pub symbol_left: String,
    /// Symbol providing the denominator side.
    pub symbol_right: String,
    /// Most recent candle observed for the left symbol.
    pub left: Option<Candle>,
    /// Most recent candle observed for the right symbol.
    pub right: Option<Candle>,
}

impl PairsCandle {
    /// A pairer for the two symbols, with nothing observed yet.
    pub fn new(symbol_left: &str, symbol_right: &str) -> (r: Self)
        ensures
            r.symbol_left@ == symbol_left@,
            r.symbol_right@ == symbol_right@,
            r.left is None,
            r.right is None,
    {
        PairsCandle {
            symbol_left: symbol_left.to_owned(),
            symbol_right: symbol_right.to_owned(),
            left: None,
            right: None,
        }
    }

    /// Process one inbound stream message: a candle matching the left or
    /// right symbol replaces that leg's cache (left takes precedence when
    /// the symbols coincide); after any candle, if both legs are cached and
    /// their pair fits, the paired candle is emitted. Subscription
    /// acknowledgements and book updates change nothing.
    pub fn on_message(&mut self, msg: WSResponse) -> (r: Option<Candle>)
        requires
            match msg {
                WSResponse::Candle(c) => candle_wf(c@),
                _ => true,
            },
            match old(self).left {
                Some(c) => candle_wf(c@),
                None => true,
            },
            match old(self).right {
                Some(c) => candle_wf(c@),
                None => true,
            },
        ensures
            final(self).symbol_left@ == old(self).symbol_left@,
            final(self).symbol_right@ == old(self).symbol_right@,
            match msg {
                WSResponse::Candle(c) => {
                    &&& slot_view(final(self).left) == if c@.symbol == old(self).symbol_left@ {
                        Some(c@)
                    } else {
                        slot_view(old(self).left)
                    }
                    &&& slot_view(final(self).right) == if c@.symbol != old(self).symbol_left@
                        && c@.symbol == old(self).symbol_right@ {
                        Some(c@)
                    } else {
                        slot_view(old(self).right)
                    }
                    &&& match (final(self).left, final(self).right) {
                        (Some(l), Some(rr)) => if pair_fits(l@, rr@) {
                            r is Some && r->0@ == spec_pair(l@, rr@)
                        } else {
                            r is None
                        },
                        _ => r is None,
                    }
                },
                _ => final(self).left == old(self).left && final(self).right == old(self).right
                    && r is None,
            },
    {
        match msg {
            WSResponse::Candle(candle) => {
                if candle.symbol == self.symbol_left {
                    self.left = Some(candle);
                } else if candle.symbol == self.symbol_right {
                    self.right = Some(candle);
                }
                match (&self.left, &self.right) {
                    (Some(l), Some(rr)) => l.pair(rr),
                    _ => None,
                }
            },
            _ => None,
        }
    }
}

/// A candle snapshot row as served by the venue's history endpoint.
#[derive(Clone, Debug, PartialEq)]
pub struct CandleSnapshot {
    /// Opening timestamp for the interval.
    pub t: u64,
    /// Closing timestamp for the interval.
    pub t_: u64,
    /// Interval label.
    pub i: String,
    /// Symbol identifier.
    pub s: String,
    /// Opening price.
    pub o: Px,
    /// Closing price.
    pub c: Px,
    /// High price.
    pub h: Px,
    /// Low price.
    pub l: Px,
    /// Traded volume.
    pub v: Px,
    /// Number of trades.
    pub n: u64,
}

/// All price fields of a snapshot are valid rationals.
pub open spec fn snapshot_wf(c: CandleSnapshot) -> bool {
    c.o.wf() && c.c.wf() && c.h.wf() && c.l.wf() && c.v.wf()
}

/// Two snapshots can be paired exactly.
pub open spec fn snapshot_pair_fits(a: CandleSnapshot, b: CandleSnapshot) -> bool {
    &&& div_fits(a.o, b.o)
    &&& div_fits(a.c, b.c)
    &&& div_fits(a.h, b.h)
    &&& div_fits(a.l, b.l)
    &&& a.n + b.n <= u64::MAX
}

/// Derive a synthetic snapshot representing the ratio between two snapshots:
/// prices are divided exactly, the symbol label is `left/right`, volume is
/// reset, and trade counts are added.
pub fn pair_candle(left_candle: CandleSnapshot, right_candle: CandleSnapshot) -> (r: Result<
    CandleSnapshot,
    Error,
>)
    requires
        snapshot_wf(left_candle),
        snapshot_wf(right_candle),
    ensures
        r is Ok <==> snapshot_pair_fits(left_candle, right_candle),
        r is Ok ==> ({
            let p = r->Ok_0;
            &&& snapshot_wf(p)
            &&& p.t == left_candle.t
            &&& p.t_ == left_candle.t_
            &&& p.i@ == left_candle.i@
            &&& p.s@ == left_candle.s@ + seq!['/'] + right_candle.s@
            &&& p.o == spec_div(left_candle.o, right_candle.o)
            &&& p.c == spec_div(left_candle.c, right_candle.c)
            &&& p.h == spec_div(left_candle.h, right_candle.h)
            &&& p.l == spec_div(left_candle.l, right_candle.l)
            &&& p.v == (Px { num: 0, den: 1 })
            &&& p.n == left_candle.n + right_candle.n
        }),
        r is Err ==> r->Err_0 is BadRequestError,
{
    let o = match left_candle.o.checked_div(right_candle.o) {
        Some(v) => v,
        None => {
            return Err(bad_request("candle pair out of range"));
        },
    };
    let c = match left_candle.c.checked_div(right_candle.c) {
        Some(v) => v,
        None => {
            return Err(bad_request("candle pair out of range"));
        },
    };
    let h = match left_candle.h.checked_div(right_candle.h) {
        Some(v) => v,
        None => {
            return Err(bad_request("candle pair out of range"));
        },
    };
    let l = match left_candle.l.checked_div(right_candle.l) {
        Some(v) => v,
        None => {
            return Err(bad_request("candle pair out of range"));
        },
    };
    let n = match left_candle.n.checked_add(right_candle.n) {
        Some(v) => v,
        None => {
            return Err(bad_request("candle pair out of range"));
        },
    };
    let s = left_candle.s.clone().concat("/").concat(right_candle.s.as_str());
    proof {
        reveal_strlit("/");
        assert("/"@ =~= seq!['/']);
    }
    Ok(
        CandleSnapshot {
            t: left_candle.t,
            t_: left_candle.t_,
            i: left_candle.i.clone(),
            s,
            o,
            c,
            h,
            l,
            v: Px { num: 0, den: 1 },
            n,
        },
    )
}

} // verus!
