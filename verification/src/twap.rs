//! Time-weighted (TWAP) order slicing.
//!
//! A submission is validated synchronously — frequency must lie in 1..=3600
//! seconds and runtime in 2..=86400 seconds — and then runs as a background
//! job: the total size is split over `floor(runtime / 60) * 2 + 1` slices,
//! each placed as an immediate-or-cancel limit order priced off the current
//! mark price with a fixed slippage allowance, sleeping `frequency` seconds
//! after every slice except the last. The job decides; the surrounding
//! process fetches market data, places orders and sleeps.

use crate::error::Error;
use crate::error::bad_request;
use crate::market::Limit;
use crate::market::OrderRequest;
use crate::market::OrderType;
use crate::market::Tif;
use crate::px::Px;
use crate::px::pow10;
use crate::px::rat_eq;
use vstd::prelude::*;
use vstd::string::StringExecFns;

verus! {

/// Slippage allowance on each slice's limit price, in percent: buys are
/// priced above the mark, sells below, to make immediate fills likely.
pub const SLIPPAGE_PCT: u64 = 3;

/// TWAP execution configuration submitted by a client.
#[derive(Clone, Copy, Debug, PartialEq, Eq, Structural)]
pub struct TwapOrderRequest {
    /// Asset identifier to trade.
    pub asset: u32,
    /// Direction of the TWAP execution.
    pub is_buy: bool,
    /// Total runtime (in seconds) to spread the execution over.
    pub runtime: u64,
    /// Whether to submit orders with reduce-only semantics.
    pub reduce_only: bool,
    /// Total size to execute.
    pub sz: Px,
    /// Whether to randomize order submission intervals.
    pub randomize: bool,
    /// Frequency (in seconds) between slices.
    pub frequency: u64,
}

/// Envelope carrying the TWAP order request.
#[derive(Clone, Copy, Debug, PartialEq, Eq, Structural)]
pub struct Twap {
    /// Nested TWAP order configuration.
    pub twap: TwapOrderRequest,
}

/// Why a TWAP submission was rejected.
#[derive(Clone, Copy, Debug, PartialEq, Eq, Structural)]
pub enum TwapError {
    /// The slice frequency lies outside 1..=3600 seconds.
    FrequencyOutOfBounds,
    /// The total runtime lies outside 2..=86400 seconds.
    RuntimeOutOfBounds,
    /// The total size cannot be split exactly over the slices.
    SizeOutOfRange,
}

impl TwapError {
    /// The rejection reason reported to the submitter.
    pub fn message(&self) -> (r: String)
        ensures
            self is FrequencyOutOfBounds ==> r@ == "frequency out of bounds"@,
            self is RuntimeOutOfBounds ==> r@ == "runtime out of bounds"@,
            self is SizeOutOfRange ==> r@ == "size out of range"@,
    {
        match self {
            TwapError::FrequencyOutOfBounds => String::from_str("frequency out of bounds"),
            TwapError::RuntimeOutOfBounds => String::from_str("runtime out of bounds"),
            TwapError::SizeOutOfRange => String::from_str("size out of range"),
        }
    }
}

/// The slice frequency must lie in 1..=3600 seconds (one second to an hour).
pub open spec fn frequency_in_bounds(frequency: u64) -> bool {
    1 <= frequency <= 3600
}

/// The runtime must lie in 2..=86400 seconds (two seconds to a day).
pub open spec fn runtime_in_bounds(runtime: u64) -> bool {
    2 <= runtime <= 86400
}

/// Synchronous validation of a TWAP submission: the frequency bound is
/// checked first, then the runtime bound.
pub fn validate_twap(req: &TwapOrderRequest) -> (r: Result<(), TwapError>)
    ensures
        r is Ok <==> frequency_in_bounds(req.frequency) && runtime_in_bounds(req.runtime),
        !frequency_in_bounds(req.frequency) ==> r == Err::<(), TwapError>(
            TwapError::FrequencyOutOfBounds,
        ),
        frequency_in_bounds(req.frequency) && !runtime_in_bounds(req.runtime) ==> r == Err::<
            (),
            TwapError,
        >(TwapError::RuntimeOutOfBounds),
{
    if req.frequency < 1 || req.frequency > 3600 {
        return Err(TwapError::FrequencyOutOfBounds);
    }
    if req.runtime < 2 || req.runtime > 86400 {
        return Err(TwapError::RuntimeOutOfBounds);
    }
    Ok(())
}

/// How many slices a runtime is split into: two per full minute, plus one.
pub open spec fn spec_slice_count(runtime: u64) -> int {
    runtime as int / 60 * 2 + 1
}

/// Number of slices for a runtime; always at least one.
pub fn slice_count(runtime: u64) -> (r: u64)
    ensures
        r == spec_slice_count(runtime),
        r >= 1,
{
    runtime / 60 * 2 + 1
}

/// A running TWAP job: what remains constant, and how many slices have been
/// placed so far.
#[derive(Clone, Copy, Debug, PartialEq, Eq, Structural)]
pub struct TwapRun {
    /// Asset identifier to trade.
    pub asset: u32,
    /// Direction of the execution.
    pub is_buy: bool,
    /// Whether slices are reduce-only.
    pub reduce_only: bool,
    /// Exact size of each slice.
    pub slice_sz: Px,
    /// Total number of slices.
    pub count: u64,
    /// Seconds to sleep between slices.
    pub frequency: u64,
    /// Slices placed so far.
    pub placed: u64,
}

impl TwapRun {
    /// A job is well-formed when its slice size is a valid rational and it
    /// has not placed more slices than exist.
    pub open spec fn wf(self) -> bool {
        self.slice_sz.wf() && self.placed <= self.count && self.count >= 1
    }

    /// Accept or reject a submission. On acceptance the job's slice size is
    /// exactly the total size divided by the slice count.
    pub fn start(req: &TwapOrderRequest) -> (r: Result<TwapRun, TwapError>)
        requires
            req.sz.wf(),
        ensures
            r is Ok <==> frequency_in_bounds(req.frequency) && runtime_in_bounds(req.runtime)
                && req.sz.den * spec_slice_count(req.runtime) <= u64::MAX,
            !frequency_in_bounds(req.frequency) ==> r == Err::<TwapRun, TwapError>(
                TwapError::FrequencyOutOfBounds,
            ),
            frequency_in_bounds(req.frequency) && !runtime_in_bounds(req.runtime) ==> r == Err::<
                TwapRun,
                TwapError,
            >(TwapError::RuntimeOutOfBounds),
            r is Ok ==> ({
                let run = r->Ok_0;
                &&& run.wf()
                &&& run.asset == req.asset
                &&& run.is_buy == req.is_buy
                &&& run.reduce_only == req.reduce_only
                &&& run.frequency == req.frequency
                &&& run.count == spec_slice_count(req.runtime)
                &&& run.placed == 0
                &&& run.slice_sz.num == req.sz.num
                &&& run.slice_sz.den == req.sz.den * spec_slice_count(req.runtime)
            }),
    {
        if let Err(e) = validate_twap(req) {
            return Err(e);
        }
        let count = slice_count(req.runtime);
        let slice_sz = match req.sz.checked_div_int(count) {
            Some(s) => s,
            None => {
                return Err(TwapError::SizeOutOfRange);
            },
        };
        Ok(
            TwapRun {
                asset: req.asset,
                is_buy: req.is_buy,
                reduce_only: req.reduce_only,
                slice_sz,
                count,
                frequency: req.frequency,
                placed: 0,
            },
        )
    }

    /// All slices have been placed.
    pub fn finished(&self) -> (r: bool)
        ensures
            r == (self.placed == self.count),
    {
        self.placed == self.count
    }

    /// Build the next slice order from the current mark price and the
    /// asset's size precision: a limit order offset from the mark by the
    /// slippage allowance — above it for buys, below it for sells — with the
    /// slice size rounded down to the allowed precision, immediate-or-cancel.
    /// A failure aborts the job (the caller places no further slices);
    /// already-placed slices stand.
    pub fn next_order(&mut self, mark_px: Px, sz_decimals: u32) -> (r: Result<OrderRequest, Error>)
        requires
            old(self).wf(),
            old(self).placed < old(self).count,
            mark_px.wf(),
        ensures
            final(self).wf(),
            r is Ok <==> mark_px.num * (if old(self).is_buy {
                (100 + SLIPPAGE_PCT) as int
            } else {
                (100 - SLIPPAGE_PCT) as int
            }) <= u64::MAX && mark_px.den * 100 <= u64::MAX && pow10(sz_decimals as nat) <= u64::MAX
                && (old(self).slice_sz.num * pow10(sz_decimals as nat)) as int / (
            old(self).slice_sz.den as int) <= u64::MAX,
            r is Err ==> *final(self) == *old(self),
            r is Ok ==> ({
                let o = r->Ok_0;
                &&& *final(self) == (TwapRun { placed: (old(self).placed + 1) as u64, ..*old(self) })
                &&& o.asset == old(self).asset
                &&& o.is_buy == old(self).is_buy
                &&& o.reduce_only == old(self).reduce_only
                &&& o.order_type == OrderType::Limit(Limit { tif: Tif::Ioc })
                &&& o.cloid is None
                &&& o.limit_px.wf()
                &&& rat_eq(
                    o.limit_px,
                    Px {
                        num: (mark_px.num * if old(self).is_buy {
                            (100 + SLIPPAGE_PCT) as int
                        } else {
                            (100 - SLIPPAGE_PCT) as int
                        }) as u64,
                        den: (mark_px.den * 100) as u64,
                    },
                )
                &&& o.limit_px.num == mark_px.num * (if old(self).is_buy {
                    (100 + SLIPPAGE_PCT) as int
                } else {
                    (100 - SLIPPAGE_PCT) as int
                })
                &&& o.limit_px.den == mark_px.den * 100
                &&& o.sz.den == pow10(sz_decimals as nat)
                &&& o.sz.num == (old(self).slice_sz.num * pow10(sz_decimals as nat)) as int
                    / (old(self).slice_sz.den as int)
            }),
    {
        let factor = if self.is_buy {
            Px::new(100 + SLIPPAGE_PCT, 100)
        } else {
            Px::new(100 - SLIPPAGE_PCT, 100)
        };
        let limit_px = match mark_px.checked_mul(factor) {
            Some(px) => px,
            None => {
                return Err(bad_request("limit price out of range"));
            },
        };
        let sz = match round_size_down(self.slice_sz, sz_decimals) {
            Some(s) => s,
            None => {
                return Err(bad_request("slice size out of range"));
            },
        };
        self.placed = self.placed + 1;
        Ok(
            OrderRequest {
                asset: self.asset,
                is_buy: self.is_buy,
                limit_px,
                sz,
                reduce_only: self.reduce_only,
                order_type: OrderType::Limit(Limit { tif: Tif::Ioc }),
                cloid: None,
            },
        )
    }

    /// The job sleeps `frequency` seconds after every slice except the last.
    pub fn should_sleep(&self) -> (r: bool)
        ensures
            r == (self.placed < self.count),
    {
        self.placed < self.count
    }
}

/// `sz` rounded down to `decimals` decimal places: the numerator becomes
/// `floor(num * 10^decimals / den)` over the denominator `10^decimals`.
pub fn round_size_down(sz: Px, decimals: u32) -> (r: Option<Px>)
    requires
        sz.wf(),
    ensures
        r is Some ==> ({
            let p = pow10(decimals as nat);
            &&& r->0.wf()
            &&& p <= u64::MAX
            &&& r->0.den == p
            &&& r->0.num == (sz.num * p) as int / (sz.den as int)
        }),
        r is None ==> pow10(decimals as nat) > u64::MAX || (sz.num * pow10(decimals as nat)) as int
            / (sz.den as int) > u64::MAX,
{
    let mut p: u64 = 1;
    let mut k: u32 = 0;
    while k < decimals
        invariant
            k <= decimals,
            p == pow10(k as nat),
        decreases decimals - k,
    {
        p = match p.checked_mul(10) {
            Some(v) => v,
            None => {
                proof {
                    crate::px::lemma_pow10_mono((k + 1) as nat, decimals as nat);
                }
                return None;
            },
        };
        k += 1;
    }
    proof {
        crate::px::lemma_u64_mul_fits_u128(sz.num, p);
    }
    let scaled: u128 = (sz.num as u128) * (p as u128);
    let num_wide: u128 = scaled / (sz.den as u128);
    if num_wide > u64::MAX as u128 {
        return None;
    }
    let num = num_wide as u64;
    proof {
        crate::px::lemma_pow10_pos(decimals as nat);
    }
    Some(Px { num, den: p })
}

} // verus!
