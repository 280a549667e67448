//! Conditional orders: the trigger queue and the scheduler that drives it.
//!
//! Each queued entry owns handles into the subscription pool and a ratio
//! predicate over two symbols' cached best book prices. A scheduler pass
//! evaluates every entry against the pool's cached data, removes exactly the
//! triggered ones (walking indices in reverse so earlier removals cannot
//! shift later ones), and hands them back for execution. Entries whose data
//! is unavailable or whose evaluation fails stay pending and are retried on
//! the next pass. After execution an entry's handles are released one by
//! one; the pool sends the upstream unsubscribe only when the last interested
//! entry lets go.

use crate::error::Error;
use crate::error::bad_request;
use crate::market::Order;
use crate::model::KeyV;
use crate::model::Level;
use crate::model::ResponsePattern;
use crate::model::WSMethod;
use crate::model::WSResponse;
use crate::model::WSResponseV;
use crate::pool::ConnectionPool;
use crate::pool::HandleV;
use crate::pool::PoolV;
use crate::pool::TopicHandle;
use crate::pool::find_entry;
use crate::pool::key_present;
use crate::pool::pool_wf;
use crate::px::Px;
use crate::px::div_fits;
use crate::px::parse_px;
use crate::px::rat_lt;
use crate::px::spec_div;
use crate::px::spec_parse_px;
use vstd::prelude::*;

verus! {

/// Sources that can power a conditional order.
#[derive(Clone, Copy, Debug, PartialEq, Eq, Structural)]
pub enum Source {
    /// The venue's websocket feeds maintained by this gateway.
    Hyperliquid,
}

/// Ratio-based condition comparing two cached book prices.
#[derive(Clone, Debug, PartialEq)]
pub struct PairPrice {
    /// Whether the trigger compares `left/right` with `< price` or `> price`.
    pub is_less: bool,
    /// Ratio threshold to compare against.
    pub price: Px,
    /// Symbol providing the numerator side of the comparison.
    pub left_symbol: String,
    /// Symbol providing the denominator side of the comparison.
    pub right_symbol: String,
}

/// Available trigger predicates for conditional orders.
#[derive(Clone, Debug, PartialEq)]
pub enum Condition {
    /// Trigger based on the price ratio of two symbols.
    PairPrice(PairPrice),
}

/// Actions executed when a [`Condition`] evaluates to true.
#[derive(Clone, Debug, PartialEq)]
pub enum CondAction {
    /// Submit an order batch when the condition triggers.
    HLOrder(Order),
}

/// Queued conditional order awaiting execution by the background worker.
#[derive(Clone, Debug, PartialEq)]
pub struct QueueElem {
    /// Origin of the condition data.
    pub source: Source,
    /// Credential authorised to execute the resulting action.
    pub agent: String,
    /// Action to perform once `condition` evaluates to true.
    pub action: CondAction,
    /// Condition tracked by the background worker.
    pub condition: Condition,
    /// Vault routing for the executed order, if set.
    pub vault_address: Option<String>,
    /// Subscription handles this entry owns.
    pub handles: Vec<TopicHandle>,
}

/// What evaluating a predicate against the cached data concluded.
pub enum CheckOutcome {
    /// The predicate holds; the entry is due for execution.
    Triggered,
    /// The predicate does not hold (including: no data cached yet).
    NotTriggered,
    /// Evaluation failed (no connection, malformed data, out-of-range
    /// arithmetic); the entry stays pending and is retried.
    Failed,
}

/// What reading one side's best price from the cached book concluded.
pub enum PriceOutcome {
    /// The key is routed but no message has been cached yet.
    Unavailable,
    /// No routing entry, no such level, nothing parses, or the cached
    /// message is not a book.
    Failure,
    /// The best price of the level.
    Price(Px),
}

/// The prices of the levels whose price and size fields both parse as exact
/// decimals, in book order.
pub open spec fn parsed_prices(row: Seq<crate::model::LevelV>) -> Seq<Px>
    decreases row.len(),
{
    if row.len() == 0 {
        Seq::empty()
    } else {
        let rest = parsed_prices(row.drop_first());
        match (spec_parse_px(row[0].px), spec_parse_px(row[0].sz)) {
            (Some(p), Some(_)) => seq![p] + rest,
            _ => rest,
        }
    }
}

/// The running best of a price list: the maximum keeps the latest of equal
/// prices, the minimum keeps the earliest.
pub open spec fn spec_best_from(prices: Seq<Px>, i: int, cur: Px, take_max: bool) -> Px
    decreases prices.len() - i,
{
    if i < 0 || i >= prices.len() {
        cur
    } else {
        let nxt = if take_max {
            if rat_lt(prices[i], cur) {
                cur
            } else {
                prices[i]
            }
        } else {
            if rat_lt(prices[i], cur) {
                prices[i]
            } else {
                cur
            }
        };
        spec_best_from(prices, i + 1, nxt, take_max)
    }
}

/// The best price of a non-empty list: its maximum for the ask side's top of
/// book, its minimum otherwise.
pub open spec fn spec_best(prices: Seq<Px>, take_max: bool) -> Px {
    spec_best_from(prices, 1, prices[0], take_max)
}

/// The best price of level `level_index` of the book cached for `symbol`:
/// level zero contributes its maximum price, any other level its minimum.
pub open spec fn spec_book_price(p: PoolV, symbol: Seq<char>, level_index: int) -> PriceOutcome {
    match find_entry(p, KeyV::L2Book(symbol)) {
        None => PriceOutcome::Failure,
        Some(e) => match e.latest {
            None => PriceOutcome::Unavailable,
            Some(WSResponseV::L2Book(book)) => if !(0 <= level_index < book.levels.len()) {
                PriceOutcome::Failure
            } else {
                let prices = parsed_prices(book.levels[level_index]);
                if prices.len() == 0 {
                    PriceOutcome::Failure
                } else {
                    PriceOutcome::Price(spec_best(prices, level_index == 0))
                }
            },
            Some(_) => PriceOutcome::Failure,
        },
    }
}

/// Evaluating a pair-price predicate: the left symbol's best bid over the
/// right symbol's best ask, compared with the threshold. A missing cached
/// value on either side means "not yet triggered"; a failure on either side,
/// or a quotient that cannot be formed, means the evaluation failed.
pub open spec fn spec_pair_check(pp: PairPrice, p: PoolV) -> CheckOutcome {
    let left = spec_book_price(p, pp.left_symbol@, 0);
    let right = spec_book_price(p, pp.right_symbol@, 1);
    match (left, right) {
        (PriceOutcome::Failure, _) => CheckOutcome::Failed,
        (_, PriceOutcome::Failure) => CheckOutcome::Failed,
        (PriceOutcome::Unavailable, _) => CheckOutcome::NotTriggered,
        (_, PriceOutcome::Unavailable) => CheckOutcome::NotTriggered,
        (PriceOutcome::Price(l), PriceOutcome::Price(r)) => if !div_fits(l, r) {
            CheckOutcome::Failed
        } else {
            let q = spec_div(l, r);
            if pp.is_less {
                if rat_lt(q, pp.price) {
                    CheckOutcome::Triggered
                } else {
                    CheckOutcome::NotTriggered
                }
            } else {
                if rat_lt(pp.price, q) {
                    CheckOutcome::Triggered
                } else {
                    CheckOutcome::NotTriggered
                }
            }
        },
    }
}

/// What evaluating a queued entry's condition concludes.
pub open spec fn elem_outcome(e: QueueElem, p: PoolV) -> CheckOutcome {
    match e.condition {
        Condition::PairPrice(pp) => spec_pair_check(pp, p),
    }
}

/// The threshold of a queued entry's condition is a valid rational.
pub open spec fn elem_wf(e: QueueElem) -> bool {
    match e.condition {
        Condition::PairPrice(pp) => pp.price.wf(),
    }
}

/// Trait implemented by condition types to determine whether they have been
/// satisfied.
pub trait Check {
    /// The outcome this condition's evaluation is specified to reach.
    spec fn trigger_outcome(&self, p: PoolV) -> CheckOutcome;

    /// The condition's own well-formedness.
    spec fn cond_wf(&self) -> bool;

    /// Evaluate the condition, returning `Ok(true)` when it has been
    /// satisfied, `Ok(false)` when not (or no data has arrived yet), and an
    /// error when it cannot be evaluated.
    fn check(&self, pool: &ConnectionPool) -> (r: Result<bool, Error>)
        requires
            pool_wf(pool@),
            self.cond_wf(),
        ensures
            r is Err <==> self.trigger_outcome(pool@) is Failed,
            (r is Ok && r->Ok_0 == true) <==> self.trigger_outcome(pool@) is Triggered,
            (r is Ok && r->Ok_0 == false) <==> self.trigger_outcome(pool@) is NotTriggered,
    ;
}

impl PairPrice {
    /// Retrieve the best price from the cached book for a symbol and level
    /// index: the maximum price of level zero, the minimum of deeper levels.
    /// `Ok(None)` means the stream is routed but nothing is cached yet.
    fn get_price_from_book(&self, pool: &ConnectionPool, symbol: &String, level_index: usize) -> (r:
        Result<Option<Px>, Error>)
        requires
            pool_wf(pool@),
        ensures
            match spec_book_price(pool@, symbol@, level_index as int) {
                PriceOutcome::Failure => r is Err,
                PriceOutcome::Unavailable => r == Ok::<Option<Px>, Error>(None),
                PriceOutcome::Price(px) => r == Ok::<Option<Px>, Error>(Some(px)) && px.wf(),
            },
    {
        let key = ResponsePattern::L2Book(symbol.clone());
        let cached = match pool.lookup_latest(&key) {
            Some(m) => m,
            None => {
                proof {
                    crate::pool::lemma_find_count(pool@, key@);
                }
                if find_key_cached(pool, &key) {
                    return Ok(None);
                } else {
                    return Err(bad_request("There are no connections for symbol"));
                }
            },
        };
        let book = match cached {
            WSResponse::L2Book(b) => b,
            _ => {
                return Err(bad_request("Book is not L2Book"));
            },
        };
        if level_index >= book.levels.len() {
            return Err(bad_request("Book doesn't contain level"));
        }
        let row = &book.levels[level_index];
        let ghost rowv = book@.levels[level_index as int];
        proof {
            assert(rowv =~= row@.map_values(|l: Level| l@));
        }
        let mut prices: Vec<Px> = Vec::new();
        let mut i: usize = 0;
        while i < row.len()
            invariant
                0 <= i <= row.len(),
                rowv == row@.map_values(|l: Level| l@),
                prices@ == parsed_prices(rowv.take(i as int)),
                forall|j: int| 0 <= j < prices@.len() ==> (#[trigger] prices@[j]).wf(),
            decreases row.len() - i,
        {
            proof {
                lemma_parsed_prices_push(rowv, i as int);
            }
            let l = &row[i];
            match (parse_px(l.px.as_str()), parse_px(l.sz.as_str())) {
                (Some(p), Some(_)) => {
                    prices.push(p);
                },
                _ => {},
            }
            i += 1;
        }
        proof {
            assert(rowv.take(rowv.len() as int) =~= rowv);
        }
        if prices.len() == 0 {
            return Err(bad_request("Level doesn't have any items"));
        }
        let take_max = level_index == 0;
        let mut best = prices[0];
        let mut i: usize = 1;
        while i < prices.len()
            invariant
                1 <= i <= prices@.len(),
                prices@.len() >= 1,
                forall|j: int| 0 <= j < prices@.len() ==> (#[trigger] prices@[j]).wf(),
                best.wf(),
                spec_best(prices@, take_max) == spec_best_from(prices@, i as int, best, take_max),
            decreases prices.len() - i,
        {
            let px = prices[i];
            if take_max {
                if !px.lt(best) {
                    best = px;
                }
            } else {
                if px.lt(best) {
                    best = px;
                }
            }
            i += 1;
        }
        Ok(Some(best))
    }
}

/// Unfolding `parsed_prices` one level at a time, from the front.
proof fn lemma_parsed_prices_push(row: Seq<crate::model::LevelV>, i: int)
    requires
        0 <= i < row.len(),
    ensures
        parsed_prices(row.take(i + 1)) == parsed_prices(row.take(i)) + (match (
            spec_parse_px(row[i].px),
            spec_parse_px(row[i].sz),
        ) {
            (Some(p), Some(_)) => seq![p],
            _ => Seq::<Px>::empty(),
        }),
    decreases i,
{
    let a = row.take(i + 1);
    let b = row.take(i);
    if i == 0 {
        assert(a.drop_first() =~= Seq::<crate::model::LevelV>::empty());
        assert(b =~= Seq::<crate::model::LevelV>::empty());
        match (spec_parse_px(row[0].px), spec_parse_px(row[0].sz)) {
            (Some(p), Some(_)) => {
                assert(parsed_prices(a) =~= seq![p]);
            },
            _ => {
                assert(parsed_prices(a) =~= Seq::<Px>::empty());
            },
        }
    } else {
        assert(a.drop_first() =~= row.drop_first().take(i));
        assert(b.drop_first() =~= row.drop_first().take(i - 1));
        assert(a[0] == row[0]);
        assert(b[0] == row[0]);
        lemma_parsed_prices_push(row.drop_first(), i - 1);
        assert(row.drop_first()[i - 1] == row[i]);
        match (spec_parse_px(row[0].px), spec_parse_px(row[0].sz)) {
            (Some(p), Some(_)) => {
                assert(parsed_prices(a) =~= seq![p] + parsed_prices(row.drop_first().take(i)));
                assert(parsed_prices(b) =~= seq![p] + parsed_prices(row.drop_first().take(i - 1)));
                match (spec_parse_px(row[i].px), spec_parse_px(row[i].sz)) {
                    (Some(q), Some(_)) => {
                        assert(parsed_prices(a) =~= parsed_prices(b) + seq![q]);
                    },
                    _ => {
                        assert(parsed_prices(a) =~= parsed_prices(b));
                        assert(parsed_prices(a) =~= parsed_prices(b) + Seq::<Px>::empty());
                    },
                }
            },
            _ => {
                match (spec_parse_px(row[i].px), spec_parse_px(row[i].sz)) {
                    (Some(q), Some(_)) => {
                        assert(parsed_prices(a) =~= parsed_prices(b) + seq![q]);
                    },
                    _ => {
                        assert(parsed_prices(a) =~= parsed_prices(b) + Seq::<Px>::empty());
                    },
                }
            },
        }
    }
}

/// Whether `key` is routed anywhere in the pool.
fn find_key_cached(pool: &ConnectionPool, key: &ResponsePattern) -> (r: bool)
    requires
        pool_wf(pool@),
    ensures
        r == key_present(pool@, key@),
{
    proof {
        crate::pool::lemma_find_count(pool@, key@);
    }
    match pool.find_key_position(key) {
        Some(pos) => {
            proof {
                crate::pool::lemma_pool_index_count(pool@, key@, pos.0 as int, pos.1 as int);
            }
            true
        },
        None => false,
    }
}

impl Check for PairPrice {
    open spec fn trigger_outcome(&self, p: PoolV) -> CheckOutcome {
        spec_pair_check(*self, p)
    }

    open spec fn cond_wf(&self) -> bool {
        self.price.wf()
    }

    /// Compare the cached book prices for both legs to determine whether the
    /// configured ratio threshold has been met.
    fn check(&self, pool: &ConnectionPool) -> (r: Result<bool, Error>) {
        let left_price = match self.get_price_from_book(pool, &self.left_symbol, 0) {
            Ok(v) => v,
            Err(e) => {
                return Err(e);
            },
        };
        let right_price = match self.get_price_from_book(pool, &self.right_symbol, 1) {
            Ok(v) => v,
            Err(e) => {
                return Err(e);
            },
        };
        let (left_price, right_price) = match (left_price, right_price) {
            (Some(l), Some(r)) => (l, r),
            _ => {
                return Ok(false);
            },
        };
        let ratio = match left_price.checked_div(right_price) {
            Some(q) => q,
            None => {
                return Err(bad_request("price ratio out of range"));
            },
        };
        let comparison_result = if self.is_less {
            ratio.lt(self.price)
        } else {
            ratio.gt(self.price)
        };
        Ok(comparison_result)
    }
}

/// The entry survives this pass: its predicate is not currently triggered.
pub open spec fn keep_pred(p: PoolV) -> spec_fn(QueueElem) -> bool {
    |e: QueueElem| !(elem_outcome(e, p) is Triggered)
}

/// The entry's predicate is triggered on this pass.
pub open spec fn trig_pred(p: PoolV) -> spec_fn(QueueElem) -> bool {
    |e: QueueElem| elem_outcome(e, p) is Triggered
}

/// A filter over elements that all satisfy the predicate keeps the sequence.
proof fn lemma_filter_all_holds<A>(s: Seq<A>, pred: spec_fn(A) -> bool)
    requires
        forall|i: int| 0 <= i < s.len() ==> pred(#[trigger] s[i]),
    ensures
        s.filter(pred) == s,
    decreases s.len(),
{
    reveal(Seq::filter);
    if s.len() > 0 {
        lemma_filter_all_holds(s.drop_last(), pred);
    }
}

/// Filtering a one-element sequence.
proof fn lemma_filter_singleton<A>(x: A, pred: spec_fn(A) -> bool)
    ensures
        seq![x].filter(pred) == if pred(x) {
            seq![x]
        } else {
            Seq::<A>::empty()
        },
{
    reveal_with_fuel(Seq::filter, 2);
    assert(seq![x].drop_last() =~= Seq::<A>::empty());
    if pred(x) {
        assert(seq![x].filter(pred) =~= seq![x]);
    } else {
        assert(seq![x].filter(pred) =~= Seq::<A>::empty());
    }
}

impl QueueElem {
    /// Evaluate the stored condition against the latest cached data.
    pub fn check(&self, pool: &ConnectionPool) -> (r: Result<bool, Error>)
        requires
            pool_wf(pool@),
            elem_wf(*self),
        ensures
            r is Err <==> elem_outcome(*self, pool@) is Failed,
            (r is Ok && r->Ok_0 == true) <==> elem_outcome(*self, pool@) is Triggered,
            (r is Ok && r->Ok_0 == false) <==> elem_outcome(*self, pool@) is NotTriggered,
    {
        match &self.condition {
            Condition::PairPrice(pair_price) => pair_price.check(pool),
        }
    }
}

/// One scheduler pass over the queue: every entry is evaluated against the
/// pool's cached data; exactly the triggered entries are removed — walking
/// the collected indices in reverse so earlier removals cannot shift later
/// ones — and returned for execution, most recently indexed first, exactly
/// as they are removed. Entries whose data is unavailable or whose
/// evaluation failed stay pending.
#[verifier::rlimit(100)]
pub fn scheduler_pass(queue: &mut Vec<QueueElem>, pool: &ConnectionPool) -> (triggered: Vec<
    QueueElem,
>)
    requires
        pool_wf(pool@),
        forall|i: int| 0 <= i < old(queue)@.len() ==> elem_wf(#[trigger] old(queue)@[i]),
    ensures
        final(queue)@ == old(queue)@.filter(keep_pred(pool@)),
        triggered@ == old(queue)@.filter(trig_pred(pool@)).reverse(),
{
    let ghost o = old(queue)@;
    let mut idxs: Vec<usize> = Vec::new();
    let mut i: usize = 0;
    while i < queue.len()
        invariant
            pool_wf(pool@),
            forall|t: int| 0 <= t < o.len() ==> elem_wf(#[trigger] o[t]),
            queue@ == o,
            0 <= i <= o.len(),
            forall|a: int, b: int| 0 <= a < b < idxs@.len() ==> idxs@[a] < idxs@[b],
            forall|a: int|
                0 <= a < idxs@.len() ==> (#[trigger] idxs@[a]) < i && (elem_outcome(
                    o[idxs@[a] as int],
                    pool@,
                ) is Triggered),
            forall|t: int|
                0 <= t < i ==> ((elem_outcome(#[trigger] o[t], pool@) is Triggered) <==> exists|
                    a: int,
                |
                    0 <= a < idxs@.len() && #[trigger] idxs@[a] == t),
        decreases o.len() - i,
    {
        let due = match queue[i].check(pool) {
            Ok(flag) => flag,
            Err(_) => false,
        };
        if due {
            let ghost idxs_pre = idxs@;
            idxs.push(i);
            proof {
                assert(forall|a: int| 0 <= a < idxs@.len() - 1 ==> idxs@[a] == idxs_pre[a]);
                assert(idxs@[idxs@.len() - 1] == i);
            }
        }
        i += 1;
    }
    let ghost m = idxs@.len();
    let mut triggered: Vec<QueueElem> = Vec::new();
    let mut j: usize = idxs.len();
    proof {
        assert(o.take(o.len() as int) =~= o);
        assert(o.skip(o.len() as int) =~= Seq::<QueueElem>::empty());
        reveal(Seq::filter);
        assert(queue@ == o.take(o.len() as int) + o.skip(o.len() as int).filter(
            keep_pred(pool@),
        ));
        assert(triggered@ =~= o.skip(o.len() as int).filter(trig_pred(pool@)).reverse());
    }
    while j > 0
        invariant
            0 <= j <= m,
            m == idxs@.len(),
            forall|a: int, b: int| 0 <= a < b < idxs@.len() ==> idxs@[a] < idxs@[b],
            forall|a: int|
                0 <= a < idxs@.len() ==> (#[trigger] idxs@[a]) < o.len() && (elem_outcome(
                    o[idxs@[a] as int],
                    pool@,
                ) is Triggered),
            forall|t: int|
                0 <= t < o.len() ==> ((elem_outcome(#[trigger] o[t], pool@) is Triggered) <==> exists|
                    a: int,
                |
                    0 <= a < idxs@.len() && #[trigger] idxs@[a] == t),
            ({
                let b: int = if j == m {
                    o.len() as int
                } else {
                    idxs@[j as int] as int
                };
                queue@ == o.take(b) + o.skip(b).filter(keep_pred(pool@)) && triggered@ == o.skip(
                    b,
                ).filter(trig_pred(pool@)).reverse()
            }),
        decreases j,
    {
        let ghost b1: int = if j == m {
            o.len() as int
        } else {
            idxs@[j as int] as int
        };
        j -= 1;
        let idx = idxs[j];
        proof {
            assert(idx < b1);
            assert(o.take(b1).len() == b1);
            assert(queue@.len() >= b1);
            assert(queue@[idx as int] == o.take(b1)[idx as int]);
            assert(queue@[idx as int] == o[idx as int]);
        }
        let e = queue.remove(idx);
        triggered.push(e);
        proof {
            let keep = keep_pred(pool@);
            let trig = trig_pred(pool@);
            let b2 = idx as int;
            let s1 = seq![o[b2]];
            let mid = o.subrange(b2 + 1, b1);
            let suf = o.skip(b1);
            assert forall|t: int| b2 < t < b1 implies !(elem_outcome(
                #[trigger] o[t],
                pool@,
            ) is Triggered) by {
                if elem_outcome(o[t], pool@) is Triggered {
                    let a = choose|a: int| 0 <= a < idxs@.len() && #[trigger] idxs@[a] == t;
                    if a <= j as int {
                        assert(a < j ==> idxs@[a] < idxs@[j as int]);
                        assert(false);
                    } else {
                        assert(j as int + 1 <= a < m);
                        assert(j as int + 1 < m ==> idxs@[j as int + 1] <= idxs@[a] || j as int + 1
                            == a);
                        assert(j as int + 1 == m ==> false);
                        assert(idxs@[j as int + 1] <= idxs@[a]);
                        assert(b1 <= t);
                        assert(false);
                    }
                }
            }
            assert(o.skip(b2) =~= s1 + mid + suf);
            Seq::<QueueElem>::filter_distributes_over_add(s1 + mid, suf, keep);
            Seq::<QueueElem>::filter_distributes_over_add(s1, mid, keep);
            Seq::<QueueElem>::filter_distributes_over_add(s1 + mid, suf, trig);
            Seq::<QueueElem>::filter_distributes_over_add(s1, mid, trig);
            lemma_filter_singleton(o[b2], keep);
            lemma_filter_singleton(o[b2], trig);
            assert(elem_outcome(o[b2], pool@) is Triggered);
            lemma_filter_all_holds(mid, keep);
            assert forall|t: int| 0 <= t < mid.len() implies !trig(#[trigger] mid[t]) by {
                assert(mid[t] == o[b2 + 1 + t]);
            }
            mid.lemma_all_neg_filter_empty(trig);
            assert(mid.filter(trig) =~= Seq::<QueueElem>::empty());
            assert(o.skip(b2).filter(keep) =~= mid + suf.filter(keep));
            assert(o.skip(b2).filter(trig) =~= s1 + suf.filter(trig));
            // the queue after this removal
            assert(queue@ =~= o.take(b1).remove(b2) + suf.filter(keep));
            assert(o.take(b1).remove(b2) =~= o.take(b2) + mid);
            assert(queue@ =~= o.take(b2) + o.skip(b2).filter(keep));
            // the triggered entries collected so far
            assert((s1 + suf.filter(trig)).reverse() =~= suf.filter(trig).reverse().push(o[b2]));
            assert(triggered@ =~= o.skip(b2).filter(trig).reverse());
        }
    }
    proof {
        let keep = keep_pred(pool@);
        let trig = trig_pred(pool@);
        if m == 0 {
            assert forall|t: int| 0 <= t < o.len() implies keep(#[trigger] o[t]) by {}
            lemma_filter_all_holds(o, keep);
            assert forall|t: int| 0 <= t < o.len() implies !trig(#[trigger] o[t]) by {}
            o.lemma_all_neg_filter_empty(trig);
            assert(o.filter(trig) =~= Seq::<QueueElem>::empty());
            assert(o.take(o.len() as int) =~= o);
            assert(queue@ == o.filter(keep));
            assert(triggered@ =~= o.filter(trig).reverse());
        } else {
            let b: int = idxs@[0] as int;
            let pre = o.take(b);
            let suf = o.skip(b);
            assert forall|t: int| 0 <= t < pre.len() implies keep(#[trigger] pre[t]) by {
                assert(pre[t] == o[t]);
                if elem_outcome(o[t], pool@) is Triggered {
                    let a = choose|a: int| 0 <= a < idxs@.len() && #[trigger] idxs@[a] == t;
                    assert(a > 0 ==> idxs@[0] < idxs@[a]);
                    assert(false);
                }
            }
            assert(o =~= pre + suf);
            Seq::<QueueElem>::filter_distributes_over_add(pre, suf, keep);
            Seq::<QueueElem>::filter_distributes_over_add(pre, suf, trig);
            lemma_filter_all_holds(pre, keep);
            assert forall|t: int| 0 <= t < pre.len() implies !trig(#[trigger] pre[t]) by {}
            pre.lemma_all_neg_filter_empty(trig);
            assert(pre.filter(trig) =~= Seq::<QueueElem>::empty());
            assert(o.filter(keep) =~= pre + suf.filter(keep));
            assert(o.filter(trig) =~= suf.filter(trig));
            assert(queue@ == o.filter(keep));
            assert(triggered@ == o.filter(trig).reverse());
        }
    }
    triggered
}

/// One cancel fired through a handle: it acts only when the handle still
/// points at a connection routing its key, exactly as
/// [`ConnectionPool::cancel`] does.
pub open spec fn spec_cancel_step(p: PoolV, h: HandleV) -> (PoolV, Option<
    crate::model::WSMethodV,
>) {
    if 0 <= h.conn < p.conns.len() && crate::pool::count_in_entries(
        p.conns[h.conn].entries,
        h.key,
    ) >= 1 {
        crate::pool::spec_cancel(p, h.key)
    } else {
        (p, None)
    }
}

/// Releasing the handles from position `i` on, one at a time, in order; the
/// second component collects the unsubscribe frames that must be sent.
pub open spec fn spec_release(p: PoolV, hs: Seq<HandleV>, i: int) -> (PoolV, Seq<
    crate::model::WSMethodV,
>)
    decreases hs.len() - i,
{
    if i < 0 || i >= hs.len() {
        (p, Seq::empty())
    } else {
        let step = spec_cancel_step(p, hs[i]);
        let rest = spec_release(step.0, hs, i + 1);
        (
            rest.0,
            (match step.1 {
                Some(f) => seq![f],
                None => Seq::empty(),
            }) + rest.1,
        )
    }
}

/// After an entry executes (or is cancelled), release every handle it owns:
/// each release lowers the shared reference count, and the returned frames
/// are exactly the unsubscribe frames the pool emitted for keys whose last
/// handle was let go. They must be sent upstream by the caller.
pub fn release_handles(pool: &mut ConnectionPool, handles: &Vec<TopicHandle>) -> (frames: Vec<
    WSMethod,
>)
    requires
        pool_wf(old(pool)@),
    ensures
        pool_wf(final(pool)@),
        final(pool)@ == spec_release(old(pool)@, handles@.map_values(|h: TopicHandle| h@), 0).0,
        frames@.map_values(|f: WSMethod| f@) == spec_release(
            old(pool)@,
            handles@.map_values(|h: TopicHandle| h@),
            0,
        ).1,
{
    let ghost p0 = pool@;
    let ghost hs = handles@.map_values(|h: TopicHandle| h@);
    let mut frames: Vec<WSMethod> = Vec::new();
    let mut i: usize = 0;
    while i < handles.len()
        invariant
            pool_wf(pool@),
            0 <= i <= hs.len(),
            hs == handles@.map_values(|h: TopicHandle| h@),
            hs.len() == handles@.len(),
            spec_release(p0, hs, 0).0 == spec_release(pool@, hs, i as int).0,
            spec_release(p0, hs, 0).1 == frames@.map_values(|f: WSMethod| f@) + spec_release(
                pool@,
                hs,
                i as int,
            ).1,
        decreases handles.len() - i,
    {
        let ghost p_before = pool@;
        let h = &handles[i];
        proof {
            assert(hs[i as int] == h@);
        }
        let frame = pool.cancel(h);
        proof {
            assert(pool@ == spec_cancel_step(p_before, hs[i as int]).0);
            assert(crate::pool::frame_view(frame) == spec_cancel_step(p_before, hs[i as int]).1);
        }
        match frame {
            Some(f) => {
                let ghost frames_pre = frames@;
                frames.push(f);
                proof {
                    assert(frames@.map_values(|f2: WSMethod| f2@) =~= frames_pre.map_values(
                        |f2: WSMethod| f2@,
                    ).push(f@));
                }
            },
            None => {},
        }
        proof {
            assert(spec_release(p_before, hs, i as int).1 == (match spec_cancel_step(
                p_before,
                hs[i as int],
            ).1 {
                Some(fv) => seq![fv],
                None => Seq::<crate::model::WSMethodV>::empty(),
            }) + spec_release(pool@, hs, i as int + 1).1);
            assert(spec_release(p0, hs, 0).1 =~= frames@.map_values(|f2: WSMethod| f2@)
                + spec_release(pool@, hs, i as int + 1).1);
        }
        i += 1;
    }
    frames
}

/// A predicate one of whose legs is routed but has no cached data yet is
/// never triggered, whatever the other leg yields (no data on the other side
/// means not triggered; a failure there means the evaluation failed): missing
/// market data is treated as "not yet", never as a trigger.
pub proof fn lemma_unavailable_never_triggers(pp: PairPrice, p: PoolV)
    requires
        spec_book_price(p, pp.left_symbol@, 0) is Unavailable || spec_book_price(
            p,
            pp.right_symbol@,
            1,
        ) is Unavailable,
    ensures
        !(spec_pair_check(pp, p) is Triggered),
{
}

/// An entry whose predicate data is unavailable, or whose evaluation failed,
/// is neither handed out for execution nor removed from the queue by a
/// scheduler pass: it stays pending, to be retried on the next pass.
pub proof fn lemma_pending_entry_kept(q: Seq<QueueElem>, p: PoolV, i: int)
    requires
        0 <= i < q.len(),
        !(elem_outcome(q[i], p) is Triggered),
    ensures
        q.filter(keep_pred(p)).contains(q[i]),
        !q.filter(trig_pred(p)).contains(q[i]),
{
    q.lemma_filter_contains(keep_pred(p), i);
    if q.filter(trig_pred(p)).contains(q[i]) {
        let j = choose|j: int|
            0 <= j < q.filter(trig_pred(p)).len() && q.filter(trig_pred(p))[j] == q[i];
        q.lemma_filter_pred(trig_pred(p), j);
        assert(false);
    }
}

/// Two conditional entries that reference the same symbol each hold one
/// handle on its subscription. After the first entry executes and releases
/// its handle, the subscription stays routed (the reference count falls to
/// one and no frame is sent); only when the second entry also releases is
/// the entry torn down and the one upstream unsubscribe frame emitted.
pub proof fn lemma_shared_subscription_release(p: PoolV, k: KeyV)
    requires
        pool_wf(p),
        crate::pool::refs_of(p, k) == 2,
    ensures
        ({
            let first = crate::pool::spec_cancel(p, k);
            let second = crate::pool::spec_cancel(first.0, k);
            &&& first.1 is None
            &&& pool_wf(first.0)
            &&& key_present(first.0, k)
            &&& crate::pool::refs_of(first.0, k) == 1
            &&& second.1 == Some(
                crate::model::WSMethodV::Unsubscribe(find_entry(p, k)->0.topic),
            )
            &&& !key_present(second.0, k)
        }),
{
    crate::pool::lemma_cancel(p, k);
    let first = crate::pool::spec_cancel(p, k);
    crate::pool::lemma_find_count(p, k);
    crate::pool::lemma_find_count(first.0, k);
    crate::pool::lemma_cancel(first.0, k);
    let second = crate::pool::spec_cancel(first.0, k);
    crate::pool::lemma_find_count(second.0, k);
}

} // verus!
