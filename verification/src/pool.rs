//! Pooled upstream connections with deduplicated, reference-counted topic
//! subscriptions and last-value fan-out delivery.
//!
//! Each upstream connection owns a routing table from [`ResponsePattern`]
//! keys to fan-out entries and never carries more than
//! [`SUBSCRIPTION_CAPACITY`] distinct subscriptions. A key appears at most
//! once across the whole pool: a second caller asking for the same topic is
//! attached to the existing entry (its reference count grows) instead of
//! causing a duplicate upstream subscribe frame. The upstream unsubscribe
//! frame is emitted only when the last handle for a key cancels.
//!
//! The pool decides; the surrounding process acts. Every operation returns
//! the control frame (if any) that must be sent on the wire, and a caller
//! that is told [`AcquireStep::NeedsConnection`] opens the socket itself and
//! then registers it. A failed socket connect therefore never leaves a
//! half-registered connection behind.

use crate::error::Error;
use crate::model::KeyV;
use crate::model::ResponsePattern;
use crate::model::Subscription;
use crate::model::SubscriptionV;
use crate::model::WSMethod;
use crate::model::WSMethodV;
use crate::model::WSResponse;
use crate::model::WSResponseV;
use crate::model::key_of_msg;
use crate::model::key_of_topic;
use vstd::prelude::*;

verus! {

/// Ceiling on distinct subscriptions per upstream connection.
pub const SUBSCRIPTION_CAPACITY: u32 = 1000;

/// One fan-out sink: the routing key, the topic that created it, the number
/// of live handles attached to it, and the most recently observed message.
pub struct FanoutEntry {
    pub key: ResponsePattern,
    pub topic: Subscription,
    pub refs: u64,
    pub latest: Option<WSResponse>,
}

/// Mathematical image of [`FanoutEntry`]; the reference count is unbounded.
pub struct EntryV {
    pub key: KeyV,
    pub topic: SubscriptionV,
    pub refs: nat,
    pub latest: Option<WSResponseV>,
}

impl View for FanoutEntry {
    type V = EntryV;

    open spec fn view(&self) -> EntryV {
        EntryV {
            key: self.key@,
            topic: self.topic@,
            refs: self.refs as nat,
            latest: match self.latest {
                Some(m) => Some(m@),
                None => None,
            },
        }
    }
}

/// One upstream socket session: a subscription counter and the routing table.
pub struct UpstreamConnection {
    pub subscription_count: u32,
    pub entries: Vec<FanoutEntry>,
}

/// Mathematical image of [`UpstreamConnection`].
pub struct ConnV {
    pub count: nat,
    pub entries: Seq<EntryV>,
}

impl View for UpstreamConnection {
    type V = ConnV;

    open spec fn view(&self) -> ConnV {
        ConnV {
            count: self.subscription_count as nat,
            entries: self.entries@.map_values(|e: FanoutEntry| e@),
        }
    }
}

/// Registry of upstream connections; the unit callers acquire streams from.
pub struct ConnectionPool {
    pub conns: Vec<UpstreamConnection>,
}

/// Mathematical image of [`ConnectionPool`].
pub struct PoolV {
    pub conns: Seq<ConnV>,
}

impl View for ConnectionPool {
    type V = PoolV;

    open spec fn view(&self) -> PoolV {
        PoolV { conns: self.conns@.map_values(|c: UpstreamConnection| c@) }
    }
}

/// A caller's handle into one fan-out entry: which connection it lives on
/// and the routing key it reads.
#[derive(Clone, Debug, PartialEq, Eq, Hash)]
pub struct TopicHandle {
    pub conn: usize,
    pub key: ResponsePattern,
}

/// Mathematical image of [`TopicHandle`].
pub struct HandleV {
    pub conn: int,
    pub key: KeyV,
}

impl View for TopicHandle {
    type V = HandleV;

    open spec fn view(&self) -> HandleV {
        HandleV { conn: self.conn as int, key: self.key@ }
    }
}

// ---------------------------------------------------------------------------
// Well-formedness
// ---------------------------------------------------------------------------

/// A live entry has at least one handle, is keyed by its own topic, and
/// caches only messages that carry its own key.
pub open spec fn entry_wf(e: EntryV) -> bool {
    &&& e.refs >= 1
    &&& e.key == key_of_topic(e.topic.subscription)
    &&& match e.latest {
        Some(m) => key_of_msg(m) == e.key,
        None => true,
    }
}

/// The counter tracks the table exactly, stays within capacity, and keys are
/// distinct within the connection.
pub open spec fn conn_wf(c: ConnV) -> bool {
    &&& c.count == c.entries.len()
    &&& c.count <= SUBSCRIPTION_CAPACITY
    &&& forall|i: int| 0 <= i < c.entries.len() ==> entry_wf(#[trigger] c.entries[i])
    &&& forall|i: int, j: int|
        0 <= i < j < c.entries.len() ==> (#[trigger] c.entries[i]).key != (
        #[trigger] c.entries[j]).key
}

/// All connections are well-formed and no key appears on two connections.
pub open spec fn pool_wf(p: PoolV) -> bool {
    &&& forall|ci: int| 0 <= ci < p.conns.len() ==> conn_wf(#[trigger] p.conns[ci])
    &&& forall|c1: int, c2: int, i1: int, i2: int|
        0 <= c1 < p.conns.len() && 0 <= c2 < p.conns.len() && c1 != c2 && 0 <= i1
            < p.conns[c1].entries.len() && 0 <= i2 < p.conns[c2].entries.len() ==> (
        #[trigger] p.conns[c1].entries[i1]).key != (#[trigger] p.conns[c2].entries[i2]).key
}

// ---------------------------------------------------------------------------
// Counting and lookup
// ---------------------------------------------------------------------------

/// How many entries of the table carry key `k`.
pub open spec fn count_in_entries(es: Seq<EntryV>, k: KeyV) -> nat
    decreases es.len(),
{
    if es.len() == 0 {
        0
    } else {
        (if es[0].key == k {
            1nat
        } else {
            0nat
        }) + count_in_entries(es.drop_first(), k)
    }
}

/// How many entries across the pool carry key `k`.
pub open spec fn count_of(p: PoolV, k: KeyV) -> nat
    decreases p.conns.len(),
{
    if p.conns.len() == 0 {
        0
    } else {
        count_in_entries(p.conns[0].entries, k) + count_of(
            PoolV { conns: p.conns.drop_first() },
            k,
        )
    }
}

/// A key is present when some entry carries it.
pub open spec fn key_present(p: PoolV, k: KeyV) -> bool {
    count_of(p, k) >= 1
}

/// First entry of the table carrying key `k`.
pub open spec fn find_in_entries(es: Seq<EntryV>, k: KeyV) -> Option<EntryV>
    decreases es.len(),
{
    if es.len() == 0 {
        None
    } else if es[0].key == k {
        Some(es[0])
    } else {
        find_in_entries(es.drop_first(), k)
    }
}

/// First entry across the pool carrying key `k`.
pub open spec fn find_entry(p: PoolV, k: KeyV) -> Option<EntryV>
    decreases p.conns.len(),
{
    if p.conns.len() == 0 {
        None
    } else {
        match find_in_entries(p.conns[0].entries, k) {
            Some(e) => Some(e),
            None => find_entry(PoolV { conns: p.conns.drop_first() }, k),
        }
    }
}

/// Reference count held for key `k`, zero when absent.
pub open spec fn refs_of(p: PoolV, k: KeyV) -> nat {
    match find_entry(p, k) {
        Some(e) => e.refs,
        None => 0,
    }
}

/// A search succeeds exactly when the count is positive.
pub proof fn lemma_find_count_entries(es: Seq<EntryV>, k: KeyV)
    ensures
        find_in_entries(es, k) is Some <==> count_in_entries(es, k) >= 1,
    decreases es.len(),
{
    if es.len() > 0 {
        lemma_find_count_entries(es.drop_first(), k);
    }
}

/// A pool search succeeds exactly when the key is present.
pub proof fn lemma_find_count(p: PoolV, k: KeyV)
    ensures
        find_entry(p, k) is Some <==> key_present(p, k),
    decreases p.conns.len(),
{
    if p.conns.len() > 0 {
        lemma_find_count_entries(p.conns[0].entries, k);
        lemma_find_count(PoolV { conns: p.conns.drop_first() }, k);
    }
}

/// An entry at a valid index makes the count positive.
proof fn lemma_index_count_entries(es: Seq<EntryV>, k: KeyV, i: int)
    requires
        0 <= i < es.len(),
        es[i].key == k,
    ensures
        count_in_entries(es, k) >= 1,
    decreases i,
{
    if i > 0 {
        lemma_index_count_entries(es.drop_first(), k, i - 1);
    }
}

/// A positive count exhibits an index carrying the key.
proof fn lemma_count_index_entries(es: Seq<EntryV>, k: KeyV)
    requires
        count_in_entries(es, k) >= 1,
    ensures
        exists|i: int| 0 <= i < es.len() && (#[trigger] es[i]).key == k,
    decreases es.len(),
{
    if es.len() > 0 {
        if es[0].key == k {
        } else {
            lemma_count_index_entries(es.drop_first(), k);
            let j = choose|j: int|
                0 <= j < es.drop_first().len() && (#[trigger] es.drop_first()[j]).key == k;
            assert(es[j + 1].key == k);
        }
    }
}

/// In a table with distinct keys, at most one entry carries `k`.
proof fn lemma_unique_count_entries(es: Seq<EntryV>, k: KeyV)
    requires
        forall|i: int, j: int|
            0 <= i < j < es.len() ==> (#[trigger] es[i]).key != (#[trigger] es[j]).key,
    ensures
        count_in_entries(es, k) <= 1,
    decreases es.len(),
{
    if es.len() > 0 {
        let rest = es.drop_first();
        assert(forall|i: int, j: int|
            0 <= i < j < rest.len() ==> (#[trigger] rest[i]).key != (#[trigger] rest[j]).key);
        lemma_unique_count_entries(rest, k);
        if es[0].key == k {
            if count_in_entries(rest, k) >= 1 {
                lemma_count_index_entries(rest, k);
                let j = choose|j: int| 0 <= j < rest.len() && (#[trigger] rest[j]).key == k;
                assert(es[j + 1].key == k);
                assert(false);
            }
        }
    }
}

/// In a well-formed pool, a key marks at most one entry.
pub proof fn lemma_wf_count_at_most_one(p: PoolV, k: KeyV)
    requires
        pool_wf(p),
    ensures
        count_of(p, k) <= 1,
    decreases p.conns.len(),
{
    if p.conns.len() > 0 {
        let rest = PoolV { conns: p.conns.drop_first() };
        assert(conn_wf(p.conns[0]));
        lemma_unique_count_entries(p.conns[0].entries, k);
        assert(pool_wf(rest)) by {
            assert(forall|ci: int|
                0 <= ci < rest.conns.len() ==> conn_wf(#[trigger] rest.conns[ci])) by {
                assert(forall|ci: int| 0 <= ci < rest.conns.len() ==> rest.conns[ci] == p.conns[ci
                    + 1]);
            }
            assert(forall|c1: int, c2: int, i1: int, i2: int|
                0 <= c1 < rest.conns.len() && 0 <= c2 < rest.conns.len() && c1 != c2 && 0 <= i1
                    < rest.conns[c1].entries.len() && 0 <= i2 < rest.conns[c2].entries.len() ==> (
            #[trigger] rest.conns[c1].entries[i1]).key != (
            #[trigger] rest.conns[c2].entries[i2]).key) by {
                assert(forall|ci: int| 0 <= ci < rest.conns.len() ==> rest.conns[ci] == p.conns[ci
                    + 1]);
            }
        }
        lemma_wf_count_at_most_one(rest, k);
        if count_in_entries(p.conns[0].entries, k) >= 1 && count_of(rest, k) >= 1 {
            lemma_count_index_entries(p.conns[0].entries, k);
            lemma_count_pool_index(rest, k);
            let (cj, j) = choose|cj: int, j: int|
                0 <= cj < rest.conns.len() && 0 <= j < rest.conns[cj].entries.len() && (
                #[trigger] rest.conns[cj].entries[j]).key == k;
            let i = choose|i: int|
                0 <= i < p.conns[0].entries.len() && (#[trigger] p.conns[0].entries[i]).key == k;
            assert(p.conns[cj + 1].entries[j].key == k);
            assert(false);
        }
    }
}

/// A positive pool count exhibits a connection and an index carrying the key.
proof fn lemma_count_pool_index(p: PoolV, k: KeyV)
    requires
        count_of(p, k) >= 1,
    ensures
        exists|ci: int, i: int|
            0 <= ci < p.conns.len() && 0 <= i < p.conns[ci].entries.len() && (
            #[trigger] p.conns[ci].entries[i]).key == k,
    decreases p.conns.len(),
{
    if p.conns.len() > 0 {
        let rest = PoolV { conns: p.conns.drop_first() };
        if count_in_entries(p.conns[0].entries, k) >= 1 {
            lemma_count_index_entries(p.conns[0].entries, k);
            let i = choose|i: int|
                0 <= i < p.conns[0].entries.len() && (#[trigger] p.conns[0].entries[i]).key == k;
            assert(p.conns[0].entries[i].key == k);
        } else {
            lemma_count_pool_index(rest, k);
            let (cj, j) = choose|cj: int, j: int|
                0 <= cj < rest.conns.len() && 0 <= j < rest.conns[cj].entries.len() && (
                #[trigger] rest.conns[cj].entries[j]).key == k;
            assert(p.conns[cj + 1].entries[j].key == k);
        }
    }
}

// ---------------------------------------------------------------------------
// Transitions
// ---------------------------------------------------------------------------

/// One more handle on the entry carrying `k`.
pub open spec fn bump_entry(e: EntryV, k: KeyV) -> EntryV {
    if e.key == k {
        EntryV { key: e.key, topic: e.topic, refs: e.refs + 1, latest: e.latest }
    } else {
        e
    }
}

/// One handle fewer on the entry carrying `k`.
pub open spec fn drop_entry(e: EntryV, k: KeyV) -> EntryV {
    if e.key == k {
        EntryV { key: e.key, topic: e.topic, refs: (e.refs - 1) as nat, latest: e.latest }
    } else {
        e
    }
}

/// Last-value delivery of `m` into the entry keyed by the message.
pub open spec fn deliver_entry(e: EntryV, m: WSResponseV) -> EntryV {
    if e.key == key_of_msg(m) {
        EntryV { key: e.key, topic: e.topic, refs: e.refs, latest: Some(m) }
    } else {
        e
    }
}

pub open spec fn bump_conn(c: ConnV, k: KeyV) -> ConnV {
    ConnV { count: c.count, entries: c.entries.map_values(|e: EntryV| bump_entry(e, k)) }
}

pub open spec fn drop_conn(c: ConnV, k: KeyV) -> ConnV {
    ConnV { count: c.count, entries: c.entries.map_values(|e: EntryV| drop_entry(e, k)) }
}

/// The pool after attaching one more handle to the entry carrying `k`.
pub open spec fn bump_refs(p: PoolV, k: KeyV) -> PoolV {
    PoolV { conns: p.conns.map_values(|c: ConnV| bump_conn(c, k)) }
}

/// The pool after releasing one handle of the entry carrying `k`.
pub open spec fn drop_refs(p: PoolV, k: KeyV) -> PoolV {
    PoolV { conns: p.conns.map_values(|c: ConnV| drop_conn(c, k)) }
}

/// The routing table without the entries carrying `k`.
pub open spec fn remove_in_entries(es: Seq<EntryV>, k: KeyV) -> Seq<EntryV>
    decreases es.len(),
{
    if es.len() == 0 {
        Seq::empty()
    } else if es[0].key == k {
        remove_in_entries(es.drop_first(), k)
    } else {
        seq![es[0]] + remove_in_entries(es.drop_first(), k)
    }
}

pub open spec fn remove_conn(c: ConnV, k: KeyV) -> ConnV {
    ConnV {
        count: remove_in_entries(c.entries, k).len(),
        entries: remove_in_entries(c.entries, k),
    }
}

/// The pool after tearing down the entry carrying `k`.
pub open spec fn remove_key(p: PoolV, k: KeyV) -> PoolV {
    PoolV { conns: p.conns.map_values(|c: ConnV| remove_conn(c, k)) }
}

/// A fresh fan-out entry for topic `t`: one handle, nothing observed yet.
pub open spec fn new_entry(t: SubscriptionV) -> EntryV {
    EntryV { key: key_of_topic(t.subscription), topic: t, refs: 1, latest: None }
}

/// The pool with `e` appended to connection `ci`'s routing table.
pub open spec fn add_entry_at(p: PoolV, ci: int, e: EntryV) -> PoolV {
    PoolV {
        conns: p.conns.update(
            ci,
            ConnV { count: p.conns[ci].count + 1, entries: p.conns[ci].entries.push(e) },
        ),
    }
}

/// The pool with a freshly opened connection holding only `e`.
pub open spec fn add_conn(p: PoolV, e: EntryV) -> PoolV {
    PoolV { conns: p.conns.push(ConnV { count: 1, entries: seq![e] }) }
}

/// Index of the first connection with spare capacity, scanning from `i`.
pub open spec fn first_free_from(cs: Seq<ConnV>, i: int) -> Option<int>
    decreases cs.len() - i,
{
    if i < 0 || i >= cs.len() {
        None
    } else if cs[i].count < SUBSCRIPTION_CAPACITY {
        Some(i)
    } else {
        first_free_from(cs, i + 1)
    }
}

pub open spec fn first_free(p: PoolV) -> Option<int> {
    first_free_from(p.conns, 0)
}

/// Acquiring a stream for topic `t`: attach to the existing entry if the key
/// is already routed, otherwise subscribe on the first connection with spare
/// capacity, otherwise open a new connection. The second component is the
/// control frame that must be sent upstream.
pub open spec fn spec_acquire(p: PoolV, t: SubscriptionV) -> (PoolV, Option<WSMethodV>) {
    let k = key_of_topic(t.subscription);
    if key_present(p, k) {
        (bump_refs(p, k), None)
    } else {
        match first_free(p) {
            Some(ci) => (add_entry_at(p, ci, new_entry(t)), Some(WSMethodV::Subscribe(t))),
            None => (add_conn(p, new_entry(t)), Some(WSMethodV::Subscribe(t))),
        }
    }
}

/// Cancelling one handle of the entry carrying `k`: the entry survives while
/// other handles remain; the last cancellation removes it and emits the one
/// unsubscribe frame.
pub open spec fn spec_cancel(p: PoolV, k: KeyV) -> (PoolV, Option<WSMethodV>) {
    match find_entry(p, k) {
        None => (p, None),
        Some(e) => if e.refs > 1 {
            (drop_refs(p, k), None)
        } else {
            (remove_key(p, k), Some(WSMethodV::Unsubscribe(e.topic)))
        },
    }
}

/// Routing an inbound message on connection `ci`: last-value-wins delivery
/// into the entry keyed by the message; unroutable messages are dropped.
pub open spec fn spec_route(p: PoolV, ci: int, m: WSResponseV) -> PoolV {
    PoolV {
        conns: p.conns.update(
            ci,
            ConnV {
                count: p.conns[ci].count,
                entries: p.conns[ci].entries.map_values(|e: EntryV| deliver_entry(e, m)),
            },
        ),
    }
}

// ---------------------------------------------------------------------------
// How the transitions move the counts and lookups
// ---------------------------------------------------------------------------

/// A key-preserving pointwise map leaves counts unchanged.
proof fn lemma_count_map(es: Seq<EntryV>, k: KeyV, f: spec_fn(EntryV) -> EntryV)
    requires
        forall|e: EntryV| (#[trigger] f(e)).key == e.key,
    ensures
        count_in_entries(es.map_values(f), k) == count_in_entries(es, k),
    decreases es.len(),
{
    if es.len() > 0 {
        assert(es.map_values(f).drop_first() =~= es.drop_first().map_values(f));
        lemma_count_map(es.drop_first(), k, f);
    }
}

/// A key-preserving pointwise map maps the search result.
proof fn lemma_find_map(es: Seq<EntryV>, k: KeyV, f: spec_fn(EntryV) -> EntryV)
    requires
        forall|e: EntryV| (#[trigger] f(e)).key == e.key,
    ensures
        find_in_entries(es.map_values(f), k) == match find_in_entries(es, k) {
            Some(e) => Some(f(e)),
            None => None::<EntryV>,
        },
    decreases es.len(),
{
    if es.len() > 0 {
        assert(es.map_values(f).drop_first() =~= es.drop_first().map_values(f));
        lemma_find_map(es.drop_first(), k, f);
    }
}

/// A connection-wise map whose entry maps preserve keys leaves pool counts
/// unchanged and maps the pool search result.
proof fn lemma_pool_map(p: PoolV, k: KeyV, g: spec_fn(ConnV) -> ConnV, f: spec_fn(EntryV) -> EntryV)
    requires
        forall|e: EntryV| (#[trigger] f(e)).key == e.key,
        forall|c: ConnV| (#[trigger] g(c)).entries == c.entries.map_values(f),
    ensures
        count_of(PoolV { conns: p.conns.map_values(g) }, k) == count_of(p, k),
        find_entry(PoolV { conns: p.conns.map_values(g) }, k) == match find_entry(p, k) {
            Some(e) => Some(f(e)),
            None => None::<EntryV>,
        },
    decreases p.conns.len(),
{
    if p.conns.len() > 0 {
        let q = PoolV { conns: p.conns.map_values(g) };
        assert(q.conns[0] == g(p.conns[0]));
        lemma_count_map(p.conns[0].entries, k, f);
        lemma_find_map(p.conns[0].entries, k, f);
        let rest = PoolV { conns: p.conns.drop_first() };
        assert(q.conns.drop_first() =~= rest.conns.map_values(g));
        lemma_pool_map(rest, k, g, f);
    }
}

/// Appending an entry adds its key's indicator to the count and, when the key
/// was absent, makes the new entry the search result.
proof fn lemma_count_push(es: Seq<EntryV>, e: EntryV, k: KeyV)
    ensures
        count_in_entries(es.push(e), k) == count_in_entries(es, k) + if e.key == k {
            1nat
        } else {
            0nat
        },
        find_in_entries(es.push(e), k) == match find_in_entries(es, k) {
            Some(x) => Some(x),
            None => if e.key == k {
                Some(e)
            } else {
                None::<EntryV>
            },
        },
    decreases es.len(),
{
    if es.len() == 0 {
        assert(es.push(e)[0] == e);
        assert(es.push(e).drop_first() =~= es);
    } else {
        assert(es.push(e)[0] == es[0]);
        assert(es.push(e).drop_first() =~= es.drop_first().push(e));
        lemma_count_push(es.drop_first(), e, k);
        assert(count_in_entries(es.push(e), k) == (if es[0].key == k { 1nat } else { 0nat })
            + count_in_entries(es.drop_first().push(e), k));
        assert(count_in_entries(es, k) == (if es[0].key == k { 1nat } else { 0nat })
            + count_in_entries(es.drop_first(), k));
        assert(count_in_entries(es.push(e), k) == count_in_entries(es, k) + if e.key == k { 1nat } else { 0nat });
        assert(find_in_entries(es.push(e), k) == match find_in_entries(es, k) {
            Some(x) => Some(x),
            None => if e.key == k { Some(e) } else { None::<EntryV> },
        });
    }
}

/// Updating one connection shifts pool counts by the difference at that
/// connection.
proof fn lemma_count_update(cs: Seq<ConnV>, ci: int, c2: ConnV, k: KeyV)
    requires
        0 <= ci < cs.len(),
    ensures
        count_of(PoolV { conns: cs.update(ci, c2) }, k) + count_in_entries(cs[ci].entries, k)
            == count_of(PoolV { conns: cs }, k) + count_in_entries(c2.entries, k),
    decreases ci,
{
    let q = PoolV { conns: cs.update(ci, c2) };
    if ci == 0 {
        assert(q.conns.drop_first() =~= cs.drop_first());
    } else {
        assert(q.conns.drop_first() =~= cs.drop_first().update(ci - 1, c2));
        lemma_count_update(cs.drop_first(), ci - 1, c2, k);
    }
}

/// Appending a connection adds its count.
proof fn lemma_count_push_conn(cs: Seq<ConnV>, c: ConnV, k: KeyV)
    ensures
        count_of(PoolV { conns: cs.push(c) }, k) == count_of(PoolV { conns: cs }, k)
            + count_in_entries(c.entries, k),
    decreases cs.len(),
{
    if cs.len() == 0 {
        assert(cs.push(c)[0] == c);
        assert(cs.push(c).drop_first() =~= cs);
    } else {
        assert(cs.push(c)[0] == cs[0]);
        assert(cs.push(c).drop_first() =~= cs.drop_first().push(c));
        lemma_count_push_conn(cs.drop_first(), c, k);
        assert(count_of(PoolV { conns: cs.push(c) }, k) == count_in_entries(cs[0].entries, k)
            + count_of(PoolV { conns: cs.drop_first().push(c) }, k));
    }
}

/// When `k` is absent, the fresh entry added at `ci` is what a search finds;
/// other keys find what they found before.
proof fn lemma_find_update(cs: Seq<ConnV>, ci: int, c2: ConnV, k: KeyV)
    requires
        0 <= ci < cs.len(),
        find_in_entries(c2.entries, k) == find_in_entries(cs[ci].entries, k),
    ensures
        find_entry(PoolV { conns: cs.update(ci, c2) }, k) == find_entry(PoolV { conns: cs }, k),
    decreases ci,
{
    let q = PoolV { conns: cs.update(ci, c2) };
    if ci == 0 {
        assert(q.conns.drop_first() =~= cs.drop_first());
    } else {
        assert(q.conns.drop_first() =~= cs.drop_first().update(ci - 1, c2));
        lemma_find_update(cs.drop_first(), ci - 1, c2, k);
    }
}

/// Searching a pool extended by one connection.
proof fn lemma_find_push_conn(cs: Seq<ConnV>, c: ConnV, k: KeyV)
    ensures
        find_entry(PoolV { conns: cs.push(c) }, k) == match find_entry(PoolV { conns: cs }, k) {
            Some(e) => Some(e),
            None => find_in_entries(c.entries, k),
        },
    decreases cs.len(),
{
    if cs.len() == 0 {
        assert(cs.push(c)[0] == c);
        assert(cs.push(c).drop_first() =~= cs);
    } else {
        assert(cs.push(c)[0] == cs[0]);
        assert(cs.push(c).drop_first() =~= cs.drop_first().push(c));
        lemma_find_push_conn(cs.drop_first(), c, k);
    }
}

/// Removal empties the removed key, keeps every other key's count and search
/// result, keeps table size in step, and returns entries of the original
/// table in their original relative order.
#[verifier::rlimit(50)]
proof fn lemma_remove_entries(es: Seq<EntryV>, k: KeyV)
    ensures
        count_in_entries(remove_in_entries(es, k), k) == 0,
        remove_in_entries(es, k).len() + count_in_entries(es, k) == es.len(),
        forall|k2: KeyV|
            k2 != k ==> count_in_entries(#[trigger] remove_in_entries(es, k), k2)
                == count_in_entries(es, k2),
        forall|k2: KeyV|
            k2 != k ==> find_in_entries(#[trigger] remove_in_entries(es, k), k2)
                == find_in_entries(es, k2),
        forall|i: int|
            0 <= i < remove_in_entries(es, k).len() ==> exists|j: int|
                0 <= j < es.len() && es[j] == #[trigger] remove_in_entries(es, k)[i],
        (forall|i: int, j: int|
            0 <= i < j < es.len() ==> (#[trigger] es[i]).key != (#[trigger] es[j]).key) ==> (
        forall|i: int, j: int|
            0 <= i < j < remove_in_entries(es, k).len() ==> (#[trigger] remove_in_entries(
                es,
                k,
            )[i]).key != (#[trigger] remove_in_entries(es, k)[j]).key),
    decreases es.len(),
{
    if es.len() == 0 {
    } else {
        let rest = es.drop_first();
        lemma_remove_entries(rest, k);
        let r = remove_in_entries(es, k);
        let rr = remove_in_entries(rest, k);
        assert(forall|i: int|
            0 <= i < rr.len() ==> exists|j: int| 0 <= j < rest.len() && rest[j] == #[trigger] rr[i]);
        if es[0].key == k {
            assert(forall|i: int|
                0 <= i < r.len() ==> exists|j: int| 0 <= j < es.len() && es[j] == #[trigger] r[i])
                by {
                assert(forall|i: int| 0 <= i < r.len() ==> r[i] == rr[i]);
                assert(forall|j: int| 0 <= j < rest.len() ==> rest[j] == es[j + 1]);
            }
            assert forall|k2: KeyV| k2 != k implies count_in_entries(
                remove_in_entries(es, k),
                k2,
            ) == count_in_entries(es, k2) by {
                assert(count_in_entries(rr, k2) == count_in_entries(rest, k2));
            }
            assert forall|k2: KeyV| k2 != k implies find_in_entries(remove_in_entries(es, k), k2)
                == find_in_entries(es, k2) by {
                assert(find_in_entries(rr, k2) == find_in_entries(rest, k2));
            }
        } else {
            assert(r =~= seq![es[0]] + rr);
            assert(r[0] == es[0]);
            assert(forall|i: int| 1 <= i < r.len() ==> r[i] == rr[i - 1]);
            assert(forall|i: int|
                0 <= i < r.len() ==> exists|j: int| 0 <= j < es.len() && es[j] == #[trigger] r[i])
                by {
                assert(forall|j: int| 0 <= j < rest.len() ==> rest[j] == es[j + 1]);
                assert(forall|i: int|
                    1 <= i < r.len() ==> exists|j: int|
                        0 <= j < rest.len() && rest[j] == #[trigger] r[i]);
            }
            assert(r.drop_first() =~= rr);
            assert forall|k2: KeyV| k2 != k implies count_in_entries(
                remove_in_entries(es, k),
                k2,
            ) == count_in_entries(es, k2) by {
                assert(count_in_entries(rr, k2) == count_in_entries(rest, k2));
                assert(count_in_entries(r, k2) == (if r[0].key == k2 {
                    1nat
                } else {
                    0nat
                }) + count_in_entries(rr, k2));
            }
            assert forall|k2: KeyV| k2 != k implies find_in_entries(remove_in_entries(es, k), k2)
                == find_in_entries(es, k2) by {
                assert(find_in_entries(rr, k2) == find_in_entries(rest, k2));
                assert(find_in_entries(r, k2) == if r[0].key == k2 {
                    Some(r[0])
                } else {
                    find_in_entries(rr, k2)
                });
            }
            if forall|i: int, j: int|
                0 <= i < j < es.len() ==> (#[trigger] es[i]).key != (#[trigger] es[j]).key {
                assert(forall|i: int, j: int|
                    0 <= i < j < rest.len() ==> (#[trigger] rest[i]).key != (
                    #[trigger] rest[j]).key) by {
                    assert(forall|j: int| 0 <= j < rest.len() ==> rest[j] == es[j + 1]);
                }
                assert(forall|i: int, j: int|
                    0 <= i < j < r.len() ==> (#[trigger] r[i]).key != (#[trigger] r[j]).key) by {
                    assert(forall|i: int, j: int|
                        0 <= i < j < rr.len() ==> (#[trigger] rr[i]).key != (#[trigger] rr[j]).key);
                    assert(forall|j: int|
                        1 <= j < r.len() ==> exists|j2: int|
                            0 <= j2 < rest.len() && rest[j2] == #[trigger] r[j]);
                    assert(forall|j2: int| 0 <= j2 < rest.len() ==> es[0].key != (
                    #[trigger] rest[j2]).key);
                }
            }
        }
    }
}

/// Counting and searching a one-entry table.
proof fn lemma_singleton(e: EntryV, k: KeyV)
    ensures
        count_in_entries(seq![e], k) == if e.key == k {
            1nat
        } else {
            0nat
        },
        find_in_entries(seq![e], k) == if e.key == k {
            Some(e)
        } else {
            None::<EntryV>
        },
{
    reveal_with_fuel(count_in_entries, 2);
    reveal_with_fuel(find_in_entries, 2);
    assert(seq![e].drop_first() =~= Seq::<EntryV>::empty());
}

/// An entry at a valid pool position makes the pool count positive.
pub proof fn lemma_pool_index_count(p: PoolV, k: KeyV, ci: int, i: int)
    requires
        0 <= ci < p.conns.len(),
        0 <= i < p.conns[ci].entries.len(),
        p.conns[ci].entries[i].key == k,
    ensures
        count_of(p, k) >= 1,
    decreases ci,
{
    if ci == 0 {
        lemma_index_count_entries(p.conns[0].entries, k, i);
    } else {
        let rest = PoolV { conns: p.conns.drop_first() };
        lemma_pool_index_count(rest, k, ci - 1, i);
    }
}

/// An absent key marks no entry anywhere in the pool.
proof fn lemma_absent_no_index(p: PoolV, k: KeyV)
    requires
        count_of(p, k) == 0,
    ensures
        forall|ci: int, i: int|
            0 <= ci < p.conns.len() && 0 <= i < p.conns[ci].entries.len() ==> (
            #[trigger] p.conns[ci].entries[i]).key != k,
{
    assert forall|ci: int, i: int|
        0 <= ci < p.conns.len() && 0 <= i < p.conns[ci].entries.len() implies (
    #[trigger] p.conns[ci].entries[i]).key != k by {
        if p.conns[ci].entries[i].key == k {
            lemma_pool_index_count(p, k, ci, i);
        }
    }
}

/// What a table search returns stands in the table.
proof fn lemma_find_at_index_entries(es: Seq<EntryV>, k: KeyV)
    requires
        find_in_entries(es, k) is Some,
    ensures
        find_in_entries(es, k)->0.key == k,
        exists|i: int|
            0 <= i < es.len() && #[trigger] es[i] == find_in_entries(es, k)->0,
    decreases es.len(),
{
    if es.len() > 0 {
        if es[0].key == k {
            assert(es[0] == find_in_entries(es, k)->0);
        } else {
            lemma_find_at_index_entries(es.drop_first(), k);
            let i = choose|i: int|
                0 <= i < es.drop_first().len() && #[trigger] es.drop_first()[i] == find_in_entries(
                    es.drop_first(),
                    k,
                )->0;
            assert(es[i + 1] == find_in_entries(es, k)->0);
        }
    }
}

/// What a pool search returns stands in the pool.
proof fn lemma_find_at_index(p: PoolV, k: KeyV)
    requires
        find_entry(p, k) is Some,
    ensures
        find_entry(p, k)->0.key == k,
        exists|ci: int, i: int|
            0 <= ci < p.conns.len() && 0 <= i < p.conns[ci].entries.len() && #[trigger] p.conns[ci].entries[i]
                == find_entry(p, k)->0,
    decreases p.conns.len(),
{
    if p.conns.len() > 0 {
        if find_in_entries(p.conns[0].entries, k) is Some {
            lemma_find_at_index_entries(p.conns[0].entries, k);
            let i = choose|i: int|
                0 <= i < p.conns[0].entries.len() && #[trigger] p.conns[0].entries[i]
                    == find_in_entries(p.conns[0].entries, k)->0;
            assert(p.conns[0].entries[i] == find_entry(p, k)->0);
        } else {
            let rest = PoolV { conns: p.conns.drop_first() };
            lemma_find_at_index(rest, k);
            let (cj, j) = choose|cj: int, j: int|
                0 <= cj < rest.conns.len() && 0 <= j < rest.conns[cj].entries.len()
                    && #[trigger] rest.conns[cj].entries[j] == find_entry(rest, k)->0;
            assert(p.conns[cj + 1].entries[j] == find_entry(p, k)->0);
        }
    }
}

/// In a well-formed pool, any entry carrying `k` is the one the search finds.
pub proof fn lemma_wf_find_unique(p: PoolV, k: KeyV, ci: int, i: int)
    requires
        pool_wf(p),
        0 <= ci < p.conns.len(),
        0 <= i < p.conns[ci].entries.len(),
        p.conns[ci].entries[i].key == k,
    ensures
        find_entry(p, k) == Some(p.conns[ci].entries[i]),
{
    lemma_pool_index_count(p, k, ci, i);
    lemma_find_count(p, k);
    lemma_find_at_index(p, k);
    let (cj, j) = choose|cj: int, j: int|
        0 <= cj < p.conns.len() && 0 <= j < p.conns[cj].entries.len()
            && #[trigger] p.conns[cj].entries[j] == find_entry(p, k)->0;
    if cj != ci {
        assert(p.conns[cj].entries[j].key != p.conns[ci].entries[i].key);
        assert(false);
    } else if j != i {
        assert(conn_wf(p.conns[ci]));
        assert(p.conns[ci].entries[j].key != p.conns[ci].entries[i].key);
        assert(false);
    }
}

/// Pool-level effect of tearing down key `k`: the key is gone, every other
/// key keeps its count and search result.
proof fn lemma_pool_remove(p: PoolV, k: KeyV)
    ensures
        count_of(remove_key(p, k), k) == 0,
        forall|k2: KeyV|
            k2 != k ==> count_of(#[trigger] remove_key(p, k), k2) == count_of(p, k2),
        forall|k2: KeyV|
            k2 != k ==> find_entry(#[trigger] remove_key(p, k), k2) == find_entry(p, k2),
    decreases p.conns.len(),
{
    let q = remove_key(p, k);
    if p.conns.len() == 0 {
        assert(q.conns =~= Seq::<ConnV>::empty());
    } else {
        let rest = PoolV { conns: p.conns.drop_first() };
        lemma_pool_remove(rest, k);
        lemma_remove_entries(p.conns[0].entries, k);
        assert(q.conns[0] == remove_conn(p.conns[0], k));
        assert(q.conns.drop_first() =~= remove_key(rest, k).conns);
        assert forall|k2: KeyV| k2 != k implies count_of(q, k2) == count_of(p, k2) by {
            assert(count_of(remove_key(rest, k), k2) == count_of(rest, k2));
        }
        assert forall|k2: KeyV| k2 != k implies find_entry(q, k2) == find_entry(p, k2) by {
            assert(find_entry(remove_key(rest, k), k2) == find_entry(rest, k2));
        }
    }
}

/// Effects of the reference-count maps on the whole pool.
proof fn lemma_bump_pool(p: PoolV, k: KeyV)
    ensures
        forall|k2: KeyV| count_of(#[trigger] bump_refs(p, k), k2) == count_of(p, k2),
        forall|k2: KeyV|
            find_entry(#[trigger] bump_refs(p, k), k2) == match find_entry(p, k2) {
                Some(e) => Some(bump_entry(e, k)),
                None => None::<EntryV>,
            },
{
    let f = |e: EntryV| bump_entry(e, k);
    let g = |c: ConnV| bump_conn(c, k);
    assert forall|c: ConnV| (#[trigger] g(c)).entries == c.entries.map_values(f) by {
        assert(bump_conn(c, k).entries =~= c.entries.map_values(f));
    }
    assert(bump_refs(p, k).conns =~= p.conns.map_values(g)) by {
        assert forall|i: int| 0 <= i < p.conns.len() implies p.conns.map_values(
            |c: ConnV| bump_conn(c, k),
        )[i] == p.conns.map_values(g)[i] by {
            assert(bump_conn(p.conns[i], k).entries =~= p.conns[i].entries.map_values(f));
        }
    }
    assert forall|k2: KeyV| count_of(#[trigger] bump_refs(p, k), k2) == count_of(p, k2) by {
        lemma_pool_map(p, k2, g, f);
    }
    assert forall|k2: KeyV|
        find_entry(#[trigger] bump_refs(p, k), k2) == (match find_entry(p, k2) {
            Some(e) => Some(bump_entry(e, k)),
            None => None::<EntryV>,
        }) by {
        lemma_pool_map(p, k2, g, f);
    }
}

/// Effects of releasing one handle on the whole pool.
proof fn lemma_drop_pool(p: PoolV, k: KeyV)
    ensures
        forall|k2: KeyV| count_of(#[trigger] drop_refs(p, k), k2) == count_of(p, k2),
        forall|k2: KeyV|
            find_entry(#[trigger] drop_refs(p, k), k2) == match find_entry(p, k2) {
                Some(e) => Some(drop_entry(e, k)),
                None => None::<EntryV>,
            },
{
    let f = |e: EntryV| drop_entry(e, k);
    let g = |c: ConnV| drop_conn(c, k);
    assert forall|c: ConnV| (#[trigger] g(c)).entries == c.entries.map_values(f) by {
        assert(drop_conn(c, k).entries =~= c.entries.map_values(f));
    }
    assert(drop_refs(p, k).conns =~= p.conns.map_values(g)) by {
        assert forall|i: int| 0 <= i < p.conns.len() implies p.conns.map_values(
            |c: ConnV| drop_conn(c, k),
        )[i] == p.conns.map_values(g)[i] by {
            assert(drop_conn(p.conns[i], k).entries =~= p.conns[i].entries.map_values(f));
        }
    }
    assert forall|k2: KeyV| count_of(#[trigger] drop_refs(p, k), k2) == count_of(p, k2) by {
        lemma_pool_map(p, k2, g, f);
    }
    assert forall|k2: KeyV|
        find_entry(#[trigger] drop_refs(p, k), k2) == (match find_entry(p, k2) {
            Some(e) => Some(drop_entry(e, k)),
            None => None::<EntryV>,
        }) by {
        lemma_pool_map(p, k2, g, f);
    }
}

/// The first-free scan returns a valid index with spare capacity, and only
/// after passing full connections; `None` means every connection is full.
proof fn lemma_first_free_props(cs: Seq<ConnV>, i: int)
    requires
        0 <= i <= cs.len(),
    ensures
        match first_free_from(cs, i) {
            Some(ci) => i <= ci < cs.len() && cs[ci].count < SUBSCRIPTION_CAPACITY && forall|j: int|
                i <= j < ci ==> (#[trigger] cs[j]).count >= SUBSCRIPTION_CAPACITY,
            None => forall|j: int| i <= j < cs.len() ==> (#[trigger] cs[j]).count
                >= SUBSCRIPTION_CAPACITY,
        },
    decreases cs.len() - i,
{
    if i < cs.len() && cs[i].count >= SUBSCRIPTION_CAPACITY {
        lemma_first_free_props(cs, i + 1);
    }
}

/// Well-formedness survives attaching a handle.
proof fn lemma_bump_wf(p: PoolV, k: KeyV)
    requires
        pool_wf(p),
        refs_of(p, k) >= 1 || !key_present(p, k),
    ensures
        pool_wf(bump_refs(p, k)),
{
    let q = bump_refs(p, k);
    assert forall|ci: int| 0 <= ci < q.conns.len() implies conn_wf(#[trigger] q.conns[ci]) by {
        assert(q.conns[ci] == bump_conn(p.conns[ci], k));
        assert(conn_wf(p.conns[ci]));
        assert forall|i: int| 0 <= i < q.conns[ci].entries.len() implies entry_wf(
            #[trigger] q.conns[ci].entries[i],
        ) by {
            assert(q.conns[ci].entries[i] == bump_entry(p.conns[ci].entries[i], k));
            assert(entry_wf(p.conns[ci].entries[i]));
        }
        assert forall|i: int, j: int| 0 <= i < j < q.conns[ci].entries.len() implies (
        #[trigger] q.conns[ci].entries[i]).key != (#[trigger] q.conns[ci].entries[j]).key by {
            assert(q.conns[ci].entries[i] == bump_entry(p.conns[ci].entries[i], k));
            assert(q.conns[ci].entries[j] == bump_entry(p.conns[ci].entries[j], k));
        }
    }
    assert forall|c1: int, c2: int, i1: int, i2: int|
        0 <= c1 < q.conns.len() && 0 <= c2 < q.conns.len() && c1 != c2 && 0 <= i1
            < q.conns[c1].entries.len() && 0 <= i2 < q.conns[c2].entries.len() implies (
    #[trigger] q.conns[c1].entries[i1]).key != (#[trigger] q.conns[c2].entries[i2]).key by {
        assert(q.conns[c1] == bump_conn(p.conns[c1], k));
        assert(q.conns[c2] == bump_conn(p.conns[c2], k));
        assert(q.conns[c1].entries[i1] == bump_entry(p.conns[c1].entries[i1], k));
        assert(q.conns[c2].entries[i2] == bump_entry(p.conns[c2].entries[i2], k));
    }
}

/// Well-formedness survives releasing a handle, provided every entry keyed
/// `k` keeps at least one handle.
proof fn lemma_drop_wf(p: PoolV, k: KeyV)
    requires
        pool_wf(p),
        refs_of(p, k) >= 2 || !key_present(p, k),
    ensures
        pool_wf(drop_refs(p, k)),
{
    let q = drop_refs(p, k);
    assert forall|ci: int| 0 <= ci < q.conns.len() implies conn_wf(#[trigger] q.conns[ci]) by {
        assert(q.conns[ci] == drop_conn(p.conns[ci], k));
        assert(conn_wf(p.conns[ci]));
        assert forall|i: int| 0 <= i < q.conns[ci].entries.len() implies entry_wf(
            #[trigger] q.conns[ci].entries[i],
        ) by {
            assert(q.conns[ci].entries[i] == drop_entry(p.conns[ci].entries[i], k));
            assert(entry_wf(p.conns[ci].entries[i]));
            if p.conns[ci].entries[i].key == k {
                lemma_wf_find_unique(p, k, ci, i);
                lemma_pool_index_count(p, k, ci, i);
            }
        }
        assert forall|i: int, j: int| 0 <= i < j < q.conns[ci].entries.len() implies (
        #[trigger] q.conns[ci].entries[i]).key != (#[trigger] q.conns[ci].entries[j]).key by {
            assert(q.conns[ci].entries[i] == drop_entry(p.conns[ci].entries[i], k));
            assert(q.conns[ci].entries[j] == drop_entry(p.conns[ci].entries[j], k));
        }
    }
    assert forall|c1: int, c2: int, i1: int, i2: int|
        0 <= c1 < q.conns.len() && 0 <= c2 < q.conns.len() && c1 != c2 && 0 <= i1
            < q.conns[c1].entries.len() && 0 <= i2 < q.conns[c2].entries.len() implies (
    #[trigger] q.conns[c1].entries[i1]).key != (#[trigger] q.conns[c2].entries[i2]).key by {
        assert(q.conns[c1] == drop_conn(p.conns[c1], k));
        assert(q.conns[c2] == drop_conn(p.conns[c2], k));
        assert(q.conns[c1].entries[i1] == drop_entry(p.conns[c1].entries[i1], k));
        assert(q.conns[c2].entries[i2] == drop_entry(p.conns[c2].entries[i2], k));
    }
}

/// Well-formedness survives tearing a key down.
proof fn lemma_remove_wf(p: PoolV, k: KeyV)
    requires
        pool_wf(p),
    ensures
        pool_wf(remove_key(p, k)),
{
    let q = remove_key(p, k);
    assert forall|ci: int| 0 <= ci < q.conns.len() implies conn_wf(#[trigger] q.conns[ci]) by {
        assert(q.conns[ci] == remove_conn(p.conns[ci], k));
        assert(conn_wf(p.conns[ci]));
        lemma_remove_entries(p.conns[ci].entries, k);
        assert forall|i: int| 0 <= i < q.conns[ci].entries.len() implies entry_wf(
            #[trigger] q.conns[ci].entries[i],
        ) by {
            let j = choose|j: int|
                0 <= j < p.conns[ci].entries.len() && p.conns[ci].entries[j] == #[trigger] q.conns[ci].entries[i];
            assert(entry_wf(p.conns[ci].entries[j]));
        }
    }
    assert forall|c1: int, c2: int, i1: int, i2: int|
        0 <= c1 < q.conns.len() && 0 <= c2 < q.conns.len() && c1 != c2 && 0 <= i1
            < q.conns[c1].entries.len() && 0 <= i2 < q.conns[c2].entries.len() implies (
    #[trigger] q.conns[c1].entries[i1]).key != (#[trigger] q.conns[c2].entries[i2]).key by {
        assert(q.conns[c1] == remove_conn(p.conns[c1], k));
        assert(q.conns[c2] == remove_conn(p.conns[c2], k));
        lemma_remove_entries(p.conns[c1].entries, k);
        lemma_remove_entries(p.conns[c2].entries, k);
        let j1 = choose|j: int|
            0 <= j < p.conns[c1].entries.len() && p.conns[c1].entries[j]
                == q.conns[c1].entries[i1];
        let j2 = choose|j: int|
            0 <= j < p.conns[c2].entries.len() && p.conns[c2].entries[j]
                == q.conns[c2].entries[i2];
        assert(p.conns[c1].entries[j1].key != p.conns[c2].entries[j2].key);
    }
}

/// Well-formedness survives adding a fresh entry to a connection with spare
/// capacity.
proof fn lemma_add_entry_wf(p: PoolV, ci: int, t: SubscriptionV)
    requires
        pool_wf(p),
        !key_present(p, key_of_topic(t.subscription)),
        0 <= ci < p.conns.len(),
        p.conns[ci].count < SUBSCRIPTION_CAPACITY,
    ensures
        pool_wf(add_entry_at(p, ci, new_entry(t))),
{
    let k = key_of_topic(t.subscription);
    let q = add_entry_at(p, ci, new_entry(t));
    lemma_absent_no_index(p, k);
    assert forall|cj: int| 0 <= cj < q.conns.len() implies conn_wf(#[trigger] q.conns[cj]) by {
        if cj == ci {
            let es = p.conns[ci].entries;
            let qs = q.conns[ci].entries;
            assert(qs == es.push(new_entry(t)));
            assert(conn_wf(p.conns[ci]));
            assert forall|i: int| 0 <= i < qs.len() implies entry_wf(#[trigger] qs[i]) by {
                if i < es.len() {
                    assert(qs[i] == es[i]);
                } else {
                    assert(qs[i] == new_entry(t));
                }
            }
            assert forall|i: int, j: int| 0 <= i < j < qs.len() implies (#[trigger] qs[i]).key != (
            #[trigger] qs[j]).key by {
                if j < es.len() {
                    assert(qs[i] == es[i] && qs[j] == es[j]);
                } else {
                    assert(qs[i] == es[i] && qs[j] == new_entry(t));
                }
            }
        } else {
            assert(q.conns[cj] == p.conns[cj]);
        }
    }
    assert forall|c1: int, c2: int, i1: int, i2: int|
        0 <= c1 < q.conns.len() && 0 <= c2 < q.conns.len() && c1 != c2 && 0 <= i1
            < q.conns[c1].entries.len() && 0 <= i2 < q.conns[c2].entries.len() implies (
    #[trigger] q.conns[c1].entries[i1]).key != (#[trigger] q.conns[c2].entries[i2]).key by {
        if c1 == ci && i1 == p.conns[ci].entries.len() {
            assert(q.conns[c1].entries[i1] == new_entry(t));
            assert(q.conns[c2].entries[i2] == p.conns[c2].entries[i2]);
        } else if c2 == ci && i2 == p.conns[ci].entries.len() {
            assert(q.conns[c2].entries[i2] == new_entry(t));
            assert(q.conns[c1].entries[i1] == p.conns[c1].entries[i1]);
        } else {
            assert(q.conns[c1].entries[i1] == p.conns[c1].entries[i1]);
            assert(q.conns[c2].entries[i2] == p.conns[c2].entries[i2]);
        }
    }
}

/// Well-formedness survives opening a connection for a fresh entry.
proof fn lemma_add_conn_wf(p: PoolV, t: SubscriptionV)
    requires
        pool_wf(p),
        !key_present(p, key_of_topic(t.subscription)),
    ensures
        pool_wf(add_conn(p, new_entry(t))),
{
    let k = key_of_topic(t.subscription);
    let q = add_conn(p, new_entry(t));
    lemma_absent_no_index(p, k);
    let c = ConnV { count: 1, entries: seq![new_entry(t)] };
    assert(q.conns[p.conns.len() as int] == c);
    assert(conn_wf(c)) by {
        assert(c.entries[0] == new_entry(t));
    }
    assert forall|cj: int| 0 <= cj < q.conns.len() implies conn_wf(#[trigger] q.conns[cj]) by {
        if cj < p.conns.len() {
            assert(q.conns[cj] == p.conns[cj]);
        }
    }
    assert forall|c1: int, c2: int, i1: int, i2: int|
        0 <= c1 < q.conns.len() && 0 <= c2 < q.conns.len() && c1 != c2 && 0 <= i1
            < q.conns[c1].entries.len() && 0 <= i2 < q.conns[c2].entries.len() implies (
    #[trigger] q.conns[c1].entries[i1]).key != (#[trigger] q.conns[c2].entries[i2]).key by {
        if c1 == p.conns.len() {
            assert(q.conns[c1].entries[i1] == new_entry(t));
            assert(q.conns[c2].entries[i2] == p.conns[c2].entries[i2]);
        } else if c2 == p.conns.len() {
            assert(q.conns[c2].entries[i2] == new_entry(t));
            assert(q.conns[c1].entries[i1] == p.conns[c1].entries[i1]);
        } else {
            assert(q.conns[c1].entries[i1] == p.conns[c1].entries[i1]);
            assert(q.conns[c2].entries[i2] == p.conns[c2].entries[i2]);
        }
    }
}

/// What one acquire does: it keeps the pool well-formed, emits a subscribe
/// frame exactly when the key was not yet routed, raises the key's reference
/// count by one, ends with exactly one routing entry for the key, and touches
/// no other key.
pub proof fn lemma_acquire(p: PoolV, t: SubscriptionV)
    requires
        pool_wf(p),
    ensures
        ({
            let k = key_of_topic(t.subscription);
            let q = spec_acquire(p, t).0;
            let frame = spec_acquire(p, t).1;
            &&& pool_wf(q)
            &&& count_of(q, k) == 1
            &&& refs_of(q, k) == refs_of(p, k) + 1
            &&& (frame is None <==> key_present(p, k))
            &&& (frame is Some ==> frame->0 == WSMethodV::Subscribe(t))
            &&& forall|k2: KeyV| k2 != k ==> count_of(q, k2) == count_of(p, k2)
            &&& forall|k2: KeyV| k2 != k ==> refs_of(q, k2) == refs_of(p, k2)
            &&& forall|k2: KeyV|
                k2 != k ==> find_entry(q, k2) == find_entry(p, k2)
        }),
{
    let k = key_of_topic(t.subscription);
    lemma_find_count(p, k);
    if key_present(p, k) {
        let e = find_entry(p, k)->0;
        lemma_find_at_index(p, k);
        let (ci, i) = choose|ci: int, i: int|
            0 <= ci < p.conns.len() && 0 <= i < p.conns[ci].entries.len()
                && #[trigger] p.conns[ci].entries[i] == find_entry(p, k)->0;
        assert(entry_wf(p.conns[ci].entries[i]));
        lemma_bump_wf(p, k);
        lemma_bump_pool(p, k);
        lemma_wf_count_at_most_one(p, k);
        assert forall|k2: KeyV| k2 != k implies find_entry(spec_acquire(p, t).0, k2) == find_entry(
            p,
            k2,
        ) by {
            if find_entry(p, k2) is Some {
                lemma_find_at_index(p, k2);
            }
        }
        assert forall|k2: KeyV| k2 != k implies refs_of(spec_acquire(p, t).0, k2) == refs_of(
            p,
            k2,
        ) by {}
    } else {
        match first_free(p) {
            Some(ci) => {
                lemma_first_free_props(p.conns, 0);
                lemma_add_entry_wf(p, ci, t);
                let q = add_entry_at(p, ci, new_entry(t));
                let es = p.conns[ci].entries;
                lemma_count_push(es, new_entry(t), k);
                lemma_count_update(p.conns, ci, q.conns[ci], k);
                assert(count_in_entries(es, k) == 0) by {
                    if count_in_entries(es, k) >= 1 {
                        lemma_count_index_entries(es, k);
                        let i = choose|i: int| 0 <= i < es.len() && (#[trigger] es[i]).key == k;
                        lemma_pool_index_count(p, k, ci, i);
                    }
                }
                assert(count_of(q, k) == 1);
                assert(q.conns[ci].entries[es.len() as int] == new_entry(t));
                lemma_wf_find_unique(q, k, ci, es.len() as int);
                assert(refs_of(q, k) == 1);
                assert forall|k2: KeyV| k2 != k implies count_of(q, k2) == count_of(p, k2) by {
                    lemma_count_push(es, new_entry(t), k2);
                    lemma_count_update(p.conns, ci, q.conns[ci], k2);
                }
                assert forall|k2: KeyV| k2 != k implies find_entry(q, k2) == find_entry(p, k2) by {
                    lemma_count_push(es, new_entry(t), k2);
                    lemma_find_count_entries(es, k2);
                    lemma_find_update(p.conns, ci, q.conns[ci], k2);
                }
            },
            None => {
                lemma_add_conn_wf(p, t);
                let q = add_conn(p, new_entry(t));
                let c = ConnV { count: 1, entries: seq![new_entry(t)] };
                lemma_singleton(new_entry(t), k);
                lemma_count_push_conn(p.conns, c, k);
                assert(count_of(q, k) == 1);
                assert(q.conns[p.conns.len() as int].entries[0] == new_entry(t));
                lemma_wf_find_unique(q, k, p.conns.len() as int, 0);
                assert(refs_of(q, k) == 1);
                assert forall|k2: KeyV| k2 != k implies count_of(q, k2) == count_of(p, k2) by {
                    lemma_singleton(new_entry(t), k2);
                    lemma_count_push_conn(p.conns, c, k2);
                }
                assert forall|k2: KeyV| k2 != k implies find_entry(q, k2) == find_entry(p, k2) by {
                    lemma_singleton(new_entry(t), k2);
                    lemma_find_push_conn(p.conns, c, k2);
                }
            },
        }
    }
}

/// What one cancel does: it keeps the pool well-formed, lowers the key's
/// reference count by one, emits the unsubscribe frame exactly when the last
/// handle cancels (and then removes the routing entry), and touches no other
/// key.
pub proof fn lemma_cancel(p: PoolV, k: KeyV)
    requires
        pool_wf(p),
    ensures
        ({
            let q = spec_cancel(p, k).0;
            let frame = spec_cancel(p, k).1;
            &&& pool_wf(q)
            &&& refs_of(q, k) == if refs_of(p, k) >= 1 {
                (refs_of(p, k) - 1) as nat
            } else {
                0nat
            }
            &&& count_of(q, k) == if refs_of(p, k) > 1 {
                count_of(p, k)
            } else {
                0nat
            }
            &&& (frame is Some <==> refs_of(p, k) == 1)
            &&& (refs_of(p, k) == 1 ==> frame->0 == WSMethodV::Unsubscribe(
                find_entry(p, k)->0.topic,
            ))
            &&& (refs_of(p, k) >= 2 ==> find_entry(q, k) is Some && find_entry(q, k)->0.topic
                == find_entry(p, k)->0.topic)
            &&& forall|k2: KeyV| k2 != k ==> count_of(q, k2) == count_of(p, k2)
            &&& forall|k2: KeyV| k2 != k ==> refs_of(q, k2) == refs_of(p, k2)
            &&& forall|k2: KeyV|
                k2 != k ==> find_entry(q, k2) == find_entry(p, k2)
        }),
{
    lemma_find_count(p, k);
    match find_entry(p, k) {
        None => {
            assert(count_of(p, k) == 0);
        },
        Some(e) => {
            lemma_find_at_index(p, k);
            let (ci, i) = choose|ci: int, i: int|
                0 <= ci < p.conns.len() && 0 <= i < p.conns[ci].entries.len()
                    && #[trigger] p.conns[ci].entries[i] == find_entry(p, k)->0;
            assert(entry_wf(p.conns[ci].entries[i]));
            if e.refs > 1 {
                lemma_drop_wf(p, k);
                lemma_drop_pool(p, k);
                lemma_wf_count_at_most_one(p, k);
                assert forall|k2: KeyV| k2 != k implies find_entry(spec_cancel(p, k).0, k2)
                    == find_entry(p, k2) by {
                    if find_entry(p, k2) is Some {
                        lemma_find_at_index(p, k2);
                    }
                }
            } else {
                lemma_remove_wf(p, k);
                lemma_pool_remove(p, k);
                lemma_find_count(remove_key(p, k), k);
            }
        },
    }
}

// ---------------------------------------------------------------------------
// Laws
// ---------------------------------------------------------------------------

/// The pool after `n` acquires of the same topic, with the control frames
/// each acquire emitted.
pub open spec fn spec_acquire_n(p: PoolV, t: SubscriptionV, n: nat) -> (PoolV, Seq<
    Option<WSMethodV>,
>)
    decreases n,
{
    if n == 0 {
        (p, Seq::empty())
    } else {
        let prev = spec_acquire_n(p, t, (n - 1) as nat);
        let step = spec_acquire(prev.0, t);
        (step.0, prev.1.push(step.1))
    }
}

/// The pool after `n` cancels of the same key, with the control frames each
/// cancel emitted.
pub open spec fn spec_cancel_n(p: PoolV, k: KeyV, n: nat) -> (PoolV, Seq<Option<WSMethodV>>)
    decreases n,
{
    if n == 0 {
        (p, Seq::empty())
    } else {
        let prev = spec_cancel_n(p, k, (n - 1) as nat);
        let step = spec_cancel(prev.0, k);
        (step.0, prev.1.push(step.1))
    }
}

/// However many callers acquire the same topic, the upstream connection
/// receives exactly one subscribe frame for its key — the first call's — and
/// the pool ends with exactly one routing entry for it, whose reference
/// count equals the number of callers.
pub proof fn lemma_n_acquires_one_subscribe(p: PoolV, t: SubscriptionV, n: nat)
    requires
        pool_wf(p),
        !key_present(p, key_of_topic(t.subscription)),
        n >= 1,
    ensures
        ({
            let k = key_of_topic(t.subscription);
            let q = spec_acquire_n(p, t, n).0;
            let frames = spec_acquire_n(p, t, n).1;
            &&& pool_wf(q)
            &&& count_of(q, k) == 1
            &&& refs_of(q, k) == n
            &&& frames.len() == n
            &&& frames[0] == Some(WSMethodV::Subscribe(t))
            &&& forall|i: int| 1 <= i < n ==> frames[i] is None
        }),
    decreases n,
{
    let k = key_of_topic(t.subscription);
    lemma_find_count(p, k);
    if n == 1 {
        lemma_acquire(p, t);
        assert(spec_acquire_n(p, t, 0) == (p, Seq::<Option<WSMethodV>>::empty()));
        assert(spec_acquire_n(p, t, 1).1 == Seq::<Option<WSMethodV>>::empty().push(
            spec_acquire(p, t).1,
        ));
        assert(refs_of(p, k) == 0);
    } else {
        lemma_n_acquires_one_subscribe(p, t, (n - 1) as nat);
        let prev = spec_acquire_n(p, t, (n - 1) as nat);
        lemma_acquire(prev.0, t);
        assert(key_present(prev.0, k));
        assert(forall|i: int| 1 <= i < n - 1 ==> prev.1[i] is None);
        assert(spec_acquire_n(p, t, n).1 == prev.1.push(spec_acquire(prev.0, t).1));
    }
}

/// However many handles share one key, cancelling them one at a time sends
/// exactly one upstream unsubscribe frame, and sends it only on the last
/// cancellation; every earlier cancellation leaves the entry routed.
pub proof fn lemma_n_cancels_one_unsubscribe(p: PoolV, k: KeyV, n: nat)
    requires
        pool_wf(p),
        key_present(p, k),
        refs_of(p, k) == n,
    ensures
        ({
            let q = spec_cancel_n(p, k, n).0;
            let frames = spec_cancel_n(p, k, n).1;
            &&& pool_wf(q)
            &&& count_of(q, k) == 0
            &&& refs_of(q, k) == 0
            &&& frames.len() == n
            &&& (forall|i: int| 0 <= i < n - 1 ==> frames[i] is None)
            &&& frames[n - 1] == Some(
                WSMethodV::Unsubscribe(find_entry(p, k)->0.topic),
            )
        }),
    decreases n,
{
    lemma_find_count(p, k);
    lemma_find_at_index(p, k);
    let (ci, i) = choose|ci: int, i: int|
        0 <= ci < p.conns.len() && 0 <= i < p.conns[ci].entries.len()
            && #[trigger] p.conns[ci].entries[i] == find_entry(p, k)->0;
    assert(entry_wf(p.conns[ci].entries[i]));
    assert(n >= 1);
    if n == 1 {
        lemma_cancel(p, k);
        assert(spec_cancel_n(p, k, 0) == (p, Seq::<Option<WSMethodV>>::empty()));
        assert(spec_cancel_n(p, k, 1).1 == Seq::<Option<WSMethodV>>::empty().push(
            spec_cancel(p, k).1,
        ));
    } else {
        lemma_cancels_keep_entry(p, k, (n - 1) as nat);
        let prev = spec_cancel_n(p, k, (n - 1) as nat);
        lemma_cancel(prev.0, k);
        lemma_find_count(prev.0, k);
        assert(spec_cancel_n(p, k, n).1 == prev.1.push(spec_cancel(prev.0, k).1));
    }
}

/// Cancelling fewer handles than exist leaves the entry routed with its
/// topic, and no unsubscribe frame has been sent yet.
pub proof fn lemma_cancels_keep_entry(p: PoolV, k: KeyV, i: nat)
    requires
        pool_wf(p),
        key_present(p, k),
        i < refs_of(p, k),
    ensures
        ({
            let q = spec_cancel_n(p, k, i).0;
            let frames = spec_cancel_n(p, k, i).1;
            &&& pool_wf(q)
            &&& count_of(q, k) == count_of(p, k)
            &&& refs_of(q, k) == refs_of(p, k) - i
            &&& find_entry(q, k) is Some
            &&& find_entry(q, k)->0.topic == find_entry(p, k)->0.topic
            &&& frames.len() == i
            &&& forall|j: int| 0 <= j < i ==> frames[j] is None
        }),
    decreases i,
{
    lemma_find_count(p, k);
    if i == 0 {
    } else {
        lemma_cancels_keep_entry(p, k, (i - 1) as nat);
        let prev = spec_cancel_n(p, k, (i - 1) as nat);
        lemma_cancel(prev.0, k);
        lemma_find_count(prev.0, k);
        lemma_find_count(spec_cancel_n(p, k, i).0, k);
        lemma_find_at_index(prev.0, k);
        let (ci, ei) = choose|ci: int, ei: int|
            0 <= ci < prev.0.conns.len() && 0 <= ei < prev.0.conns[ci].entries.len()
                && #[trigger] prev.0.conns[ci].entries[ei] == find_entry(prev.0, k)->0;
        assert(entry_wf(prev.0.conns[ci].entries[ei]));
        lemma_drop_pool(prev.0, k);
        assert(spec_cancel_n(p, k, i).1 == prev.1.push(spec_cancel(prev.0, k).1));
    }
}

/// While every connection is full, acquiring a fresh topic opens a new
/// connection: the pool that has `k` connections of 1000 subscriptions each
/// serves the (1000 k + 1)-th distinct topic from connection `k + 1`.
pub proof fn lemma_full_pool_opens_connection(p: PoolV, t: SubscriptionV)
    requires
        pool_wf(p),
        !key_present(p, key_of_topic(t.subscription)),
        forall|ci: int|
            0 <= ci < p.conns.len() ==> (#[trigger] p.conns[ci]).count == SUBSCRIPTION_CAPACITY,
    ensures
        spec_acquire(p, t).0.conns.len() == p.conns.len() + 1,
        spec_acquire(p, t).0.conns[p.conns.len() as int].count == 1,
{
    lemma_find_count(p, key_of_topic(t.subscription));
    lemma_first_free_props(p.conns, 0);
    assert(first_free(p) is None);
}

/// A well-formed pool never exceeds the subscription ceiling on any
/// connection; `lemma_acquire` and `lemma_cancel` show every transition
/// keeps the pool well-formed.
pub proof fn lemma_capacity_bound(p: PoolV, ci: int)
    requires
        pool_wf(p),
        0 <= ci < p.conns.len(),
    ensures
        p.conns[ci].count <= SUBSCRIPTION_CAPACITY,
{
}

// ---------------------------------------------------------------------------
// Executable pool
// ---------------------------------------------------------------------------

/// Removing an absent key changes nothing.
proof fn lemma_remove_absent(es: Seq<EntryV>, k: KeyV)
    requires
        count_in_entries(es, k) == 0,
    ensures
        remove_in_entries(es, k) =~= es,
    decreases es.len(),
{
    if es.len() > 0 {
        lemma_remove_absent(es.drop_first(), k);
        assert(remove_in_entries(es, k) =~= seq![es[0]] + es.drop_first());
    }
}

/// With distinct keys, tearing key `k` out of the table is removing the one
/// index that carries it.
proof fn lemma_remove_at_index(es: Seq<EntryV>, k: KeyV, i: int)
    requires
        0 <= i < es.len(),
        es[i].key == k,
        forall|a: int, b: int|
            0 <= a < b < es.len() ==> (#[trigger] es[a]).key != (#[trigger] es[b]).key,
    ensures
        remove_in_entries(es, k) =~= es.remove(i),
    decreases i,
{
    let rest = es.drop_first();
    if i == 0 {
        assert(count_in_entries(rest, k) == 0) by {
            if count_in_entries(rest, k) >= 1 {
                lemma_count_index_entries(rest, k);
                let j = choose|j: int| 0 <= j < rest.len() && (#[trigger] rest[j]).key == k;
                assert(es[j + 1].key == k);
                assert(false);
            }
        }
        lemma_remove_absent(rest, k);
        assert(es.remove(0) =~= rest);
    } else {
        assert(forall|a: int, b: int|
            0 <= a < b < rest.len() ==> (#[trigger] rest[a]).key != (#[trigger] rest[b]).key) by {
            assert(forall|j: int| 0 <= j < rest.len() ==> rest[j] == es[j + 1]);
        }
        assert(rest[i - 1].key == k);
        lemma_remove_at_index(rest, k, i - 1);
        assert(es[0].key != k);
        assert(remove_in_entries(es, k) =~= seq![es[0]] + rest.remove(i - 1));
        assert(es.remove(i) =~= seq![es[0]] + rest.remove(i - 1));
    }
}

/// The view of an `Option` control frame.
pub open spec fn frame_view(r: Option<WSMethod>) -> Option<WSMethodV> {
    match r {
        Some(m) => Some(m@),
        None => None,
    }
}

/// Index of the entry carrying `key` in one connection's table, if any;
/// `None` means the key is not routed on this connection.
fn find_entry_index(conn: &UpstreamConnection, key: &ResponsePattern) -> (r: Option<usize>)
    ensures
        match r {
            Some(ei) => 0 <= ei < conn@.entries.len() && conn@.entries[ei as int].key == key@,
            None => count_in_entries(conn@.entries, key@) == 0,
        },
{
    let mut ei: usize = 0;
    while ei < conn.entries.len()
        invariant
            0 <= ei <= conn.entries.len(),
            forall|i: int| 0 <= i < ei ==> (#[trigger] conn@.entries[i]).key != key@,
        decreases conn.entries.len() - ei,
    {
        if conn.entries[ei].key.key_eq(key) {
            return Some(ei);
        }
        ei += 1;
    }
    proof {
        if count_in_entries(conn@.entries, key@) >= 1 {
            lemma_count_index_entries(conn@.entries, key@);
            let i = choose|i: int|
                0 <= i < conn@.entries.len() && (#[trigger] conn@.entries[i]).key == key@;
            assert(false);
        }
    }
    None
}

/// What one call to [`ConnectionPool::acquire_step`] decided.
pub enum AcquireStep {
    /// The key was already routed: the caller shares the existing entry, and
    /// no frame goes upstream.
    Attached(TopicHandle),
    /// A fresh entry was placed on an existing connection; send the frame.
    Subscribed(TopicHandle, WSMethod),
    /// Every connection is full: open a socket, then call
    /// [`ConnectionPool::register_connection`].
    NeedsConnection,
    /// The entry's reference counter is at its integer ceiling; the pool was
    /// left unchanged.
    CounterSaturated,
}

impl ConnectionPool {
    /// An empty pool.
    pub fn new() -> (r: Self)
        ensures
            pool_wf(r@),
            r@.conns.len() == 0,
    {
        let r = ConnectionPool { conns: Vec::new() };
        proof {
            assert(r@.conns =~= Seq::<ConnV>::empty());
        }
        r
    }

    /// Position of the entry carrying `key`, if any; `None` means the key is
    /// routed nowhere in the pool.
    pub fn find_key_position(&self, key: &ResponsePattern) -> (r: Option<(usize, usize)>)
        ensures
            match r {
                Some(pos) => 0 <= pos.0 < self@.conns.len() && 0 <= pos.1
                    < self@.conns[pos.0 as int].entries.len() && self@.conns[pos.0 as int].entries[pos.1 as int].key
                    == key@,
                None => count_of(self@, key@) == 0,
            },
    {
        let mut ci: usize = 0;
        while ci < self.conns.len()
            invariant
                0 <= ci <= self.conns.len(),
                self.conns@.len() == self@.conns.len(),
                forall|cj: int, i: int|
                    0 <= cj < ci && 0 <= i < self@.conns[cj].entries.len() ==> (
                    #[trigger] self@.conns[cj].entries[i]).key != key@,
            decreases self.conns.len() - ci,
        {
            let conn = &self.conns[ci];
            let mut ei: usize = 0;
            while ei < conn.entries.len()
                invariant
                    0 <= ei <= conn.entries.len(),
                    conn@ == self@.conns[ci as int],
                    ci < self@.conns.len(),
                    forall|i: int|
                        0 <= i < ei ==> (#[trigger] conn@.entries[i]).key != key@,
                decreases conn.entries.len() - ei,
            {
                if conn.entries[ei].key.key_eq(key) {
                    proof {
                        assert(self@.conns[ci as int].entries[ei as int].key == key@);
                    }
                    return Some((ci, ei));
                }
                ei += 1;
            }
            ci += 1;
        }
        proof {
            if count_of(self@, key@) >= 1 {
                lemma_count_pool_index(self@, key@);
                let (cj, i) = choose|cj: int, i: int|
                    0 <= cj < self@.conns.len() && 0 <= i < self@.conns[cj].entries.len() && (
                    #[trigger] self@.conns[cj].entries[i]).key == key@;
                assert(false);
            }
        }
        None
    }

    /// Serve a subscription request as far as the pool alone can: attach to
    /// an existing entry, or subscribe on a connection with spare capacity.
    /// The returned frame, if any, must be sent on that connection's socket.
    pub fn acquire_step(&mut self, topic: &Subscription) -> (r: AcquireStep)
        requires
            pool_wf(old(self)@),
        ensures
            pool_wf(final(self)@),
            ({
                let k = key_of_topic(topic@.subscription);
                match r {
                    AcquireStep::Attached(h) => key_present(old(self)@, k) && refs_of(
                        old(self)@,
                        k,
                    ) < u64::MAX && final(self)@ == spec_acquire(old(self)@, topic@).0
                        && spec_acquire(old(self)@, topic@).1 is None && h@.key == k && 0 <= h@.conn
                        < final(self)@.conns.len() && count_in_entries(
                        final(self)@.conns[h@.conn].entries,
                        k,
                    ) >= 1,
                    AcquireStep::Subscribed(h, frame) => !key_present(old(self)@, k)
                        && first_free(old(self)@) is Some && final(self)@ == spec_acquire(
                        old(self)@,
                        topic@,
                    ).0 && Some(frame@) == spec_acquire(old(self)@, topic@).1 && h@.key == k && 0
                        <= h@.conn < final(self)@.conns.len() && count_in_entries(
                        final(self)@.conns[h@.conn].entries,
                        k,
                    ) >= 1,
                    AcquireStep::NeedsConnection => !key_present(old(self)@, k) && first_free(
                        old(self)@,
                    ) is None && final(self)@ == old(self)@,
                    AcquireStep::CounterSaturated => key_present(old(self)@, k) && refs_of(
                        old(self)@,
                        k,
                    ) == u64::MAX && final(self)@ == old(self)@,
                }
            }),
    {
        let key = ResponsePattern::of_topic(topic);
        let ghost pv = self@;
        let ghost k = key_of_topic(topic@.subscription);
        match self.find_key_position(&key) {
            Some((ci, ei)) => {
                proof {
                    lemma_pool_index_count(pv, k, ci as int, ei as int);
                    lemma_wf_find_unique(pv, k, ci as int, ei as int);
                }
                let refs = self.conns[ci].entries[ei].refs;
                if refs == u64::MAX {
                    return AcquireStep::CounterSaturated;
                }
                self.conns[ci].entries[ei].refs = refs + 1;
                proof {
                    lemma_bump_wf(pv, k);
                    assert forall|cj: int| 0 <= cj < self@.conns.len() implies self@.conns[cj]
                        == bump_conn(pv.conns[cj], k) by {
                        if cj == ci as int {
                            assert(self@.conns[cj].entries =~= pv.conns[cj].entries.map_values(
                                |e: EntryV| bump_entry(e, k),
                            ));
                        } else {
                            assert forall|i: int|
                                0 <= i < pv.conns[cj].entries.len() implies bump_entry(
                                #[trigger] pv.conns[cj].entries[i],
                                k,
                            ) == pv.conns[cj].entries[i] by {
                                assert(pv.conns[cj].entries[i].key != pv.conns[ci as int].entries[ei as int].key);
                            }
                            assert(self@.conns[cj].entries =~= pv.conns[cj].entries.map_values(
                                |e: EntryV| bump_entry(e, k),
                            ));
                        }
                    }
                    assert(self@.conns =~= bump_refs(pv, k).conns);
                    assert(self@ == spec_acquire(pv, topic@).0);
                    assert(self@.conns[ci as int].entries[ei as int].key == k);
                    lemma_index_count_entries(self@.conns[ci as int].entries, k, ei as int);
                }
                AcquireStep::Attached(TopicHandle { conn: ci, key })
            },
            None => {
                let ghost absent_proof = 0int;
                proof {
                    lemma_find_count(pv, k);
                }
                let mut ci: usize = 0;
                let n = self.conns.len();
                while ci < n
                    invariant
                        0 <= ci <= n,
                        n == self.conns@.len(),
                        self == old(self),
                        pool_wf(self@),
                        count_of(self@, k) == 0,
                        self@ == pv,
                        key@ == k,
                        key@ == key_of_topic(topic@.subscription),
                        forall|j: int|
                            0 <= j < ci ==> (#[trigger] self@.conns[j]).count
                                >= SUBSCRIPTION_CAPACITY,
                    decreases n - ci,
                {
                    if self.conns[ci].subscription_count < SUBSCRIPTION_CAPACITY {
                        proof {
                            lemma_first_free_props(pv.conns, 0);
                            match first_free(pv) {
                                Some(fi) => {
                                    if fi < ci as int {
                                        assert(pv.conns[fi].count >= SUBSCRIPTION_CAPACITY);
                                        assert(false);
                                    }
                                    if fi > ci as int {
                                        assert(pv.conns[ci as int].count
                                            >= SUBSCRIPTION_CAPACITY);
                                        assert(false);
                                    }
                                },
                                None => {
                                    assert(pv.conns[ci as int].count >= SUBSCRIPTION_CAPACITY);
                                    assert(false);
                                },
                            }
                            assert(first_free(pv) == Some(ci as int));
                        }
                        let entry = FanoutEntry {
                            key: key.duplicate(),
                            topic: topic.duplicate(),
                            refs: 1,
                            latest: None,
                        };
                        proof {
                            assert(entry@ == new_entry(topic@));
                        }
                        let count = self.conns[ci].subscription_count;
                        self.conns[ci].entries.push(entry);
                        self.conns[ci].subscription_count = count + 1;
                        proof {
                            lemma_add_entry_wf(pv, ci as int, topic@);
                            let q = add_entry_at(pv, ci as int, new_entry(topic@));
                            assert(self@.conns[ci as int].entries =~= q.conns[ci as int].entries);
                            assert(self@.conns[ci as int] == q.conns[ci as int]);
                            assert(self@.conns =~= q.conns);
                            assert(self@ == spec_acquire(pv, topic@).0);
                            let ei = pv.conns[ci as int].entries.len() as int;
                            assert(self@.conns[ci as int].entries[ei].key == k);
                            lemma_index_count_entries(self@.conns[ci as int].entries, k, ei);
                        }
                        let frame = WSMethod::Subscribe(topic.duplicate());
                        return AcquireStep::Subscribed(
                            TopicHandle { conn: ci, key },
                            frame,
                        );
                    }
                    ci += 1;
                }
                proof {
                    lemma_first_free_props(pv.conns, 0);
                    if first_free(pv) is Some {
                        let fi = first_free(pv)->0;
                        assert(pv.conns[fi].count >= SUBSCRIPTION_CAPACITY);
                        assert(false);
                    }
                }
                AcquireStep::NeedsConnection
            },
        }
    }

    /// Register a connection the caller has just opened, seeded with the
    /// topic that needed it. The returned frame must be sent on its socket.
    pub fn register_connection(&mut self, topic: &Subscription) -> (r: (TopicHandle, WSMethod))
        requires
            pool_wf(old(self)@),
            !key_present(old(self)@, key_of_topic(topic@.subscription)),
        ensures
            pool_wf(final(self)@),
            final(self)@ == add_conn(old(self)@, new_entry(topic@)),
            final(self)@ == spec_acquire(old(self)@, topic@).0 || first_free(old(self)@) is Some,
            r.0@.key == key_of_topic(topic@.subscription),
            r.0@.conn == old(self)@.conns.len(),
            count_in_entries(final(self)@.conns[r.0@.conn].entries, r.0@.key) >= 1,
            r.1@ == WSMethodV::Subscribe(topic@),
    {
        let ghost pv = self@;
        let ghost k = key_of_topic(topic@.subscription);
        let key = ResponsePattern::of_topic(topic);
        let handle_conn = self.conns.len();
        let entry = FanoutEntry {
            key: key.duplicate(),
            topic: topic.duplicate(),
            refs: 1,
            latest: None,
        };
        proof {
            assert(entry@ == new_entry(topic@));
        }
        let mut entries: Vec<FanoutEntry> = Vec::new();
        entries.push(entry);
        let conn = UpstreamConnection { subscription_count: 1, entries };
        proof {
            assert(conn@.entries =~= seq![new_entry(topic@)]);
        }
        self.conns.push(conn);
        proof {
            lemma_add_conn_wf(pv, topic@);
            let q = add_conn(pv, new_entry(topic@));
            assert(self@.conns =~= q.conns);
            assert(self@ == q);
            if first_free(pv) is None {
                lemma_find_count(pv, k);
                assert(self@ == spec_acquire(pv, topic@).0);
            }
            assert(self@.conns[pv.conns.len() as int].entries[0].key == k);
            lemma_index_count_entries(self@.conns[pv.conns.len() as int].entries, k, 0);
        }
        let frame = WSMethod::Subscribe(topic.duplicate());
        (TopicHandle { conn: handle_conn, key }, frame)
    }

    /// Fire a handle's cancel signal: the last handle for a key tears the
    /// entry down and yields the unsubscribe frame to send upstream; earlier
    /// handles just lower the reference count. A stale handle is a no-op.
    pub fn cancel(&mut self, h: &TopicHandle) -> (r: Option<WSMethod>)
        requires
            pool_wf(old(self)@),
        ensures
            pool_wf(final(self)@),
            ({
                if h@.conn < old(self)@.conns.len() && count_in_entries(
                    old(self)@.conns[h@.conn].entries,
                    h@.key,
                ) >= 1 {
                    final(self)@ == spec_cancel(old(self)@, h@.key).0 && frame_view(r)
                        == spec_cancel(old(self)@, h@.key).1
                } else {
                    final(self)@ == old(self)@ && r is None
                }
            }),
    {
        let ghost pv = self@;
        let ghost k = h@.key;
        if h.conn >= self.conns.len() {
            return None;
        }
        let ci = h.conn;
        let found = find_entry_index(&self.conns[ci], &h.key);
        proof {
            assert(self@.conns[ci as int] == self.conns@[ci as int]@);
        }
        match found {
            None => { None },
            Some(ei) => {
                proof {
                    lemma_pool_index_count(pv, k, ci as int, ei as int);
                    lemma_index_count_entries(pv.conns[ci as int].entries, k, ei as int);
                    lemma_wf_find_unique(pv, k, ci as int, ei as int);
                    assert(entry_wf(pv.conns[ci as int].entries[ei as int]));
                }
                let refs = self.conns[ci].entries[ei].refs;
                if refs > 1 {
                    self.conns[ci].entries[ei].refs = refs - 1;
                    proof {
                        lemma_drop_wf(pv, k);
                        assert forall|cj: int| 0 <= cj < self@.conns.len() implies self@.conns[cj]
                            == drop_conn(pv.conns[cj], k) by {
                            if cj == ci as int {
                                assert(self@.conns[cj].entries
                                    =~= pv.conns[cj].entries.map_values(
                                    |e: EntryV| drop_entry(e, k),
                                ));
                            } else {
                                assert forall|i: int|
                                    0 <= i < pv.conns[cj].entries.len() implies drop_entry(
                                    #[trigger] pv.conns[cj].entries[i],
                                    k,
                                ) == pv.conns[cj].entries[i] by {
                                    assert(pv.conns[cj].entries[i].key != pv.conns[ci as int].entries[ei as int].key);
                                }
                                assert(self@.conns[cj].entries =~= pv.conns[cj].entries.map_values(
                                    |e: EntryV| drop_entry(e, k),
                                ));
                            }
                        }
                        assert(self@.conns =~= drop_refs(pv, k).conns);
                        assert(self@ == spec_cancel(pv, k).0);
                    }
                    None
                } else {
                    let removed = self.conns[ci].entries.remove(ei);
                    let count = self.conns[ci].subscription_count;
                    proof {
                        assert(conn_wf(pv.conns[ci as int]));
                        assert(count >= 1);
                    }
                    self.conns[ci].subscription_count = count - 1;
                    proof {
                        lemma_remove_wf(pv, k);
                        assert forall|cj: int| 0 <= cj < self@.conns.len() implies self@.conns[cj]
                            == remove_conn(pv.conns[cj], k) by {
                            if cj == ci as int {
                                lemma_remove_at_index(pv.conns[cj].entries, k, ei as int);
                                lemma_remove_entries(pv.conns[cj].entries, k);
                                lemma_unique_count_entries(pv.conns[cj].entries, k);
                                lemma_index_count_entries(pv.conns[cj].entries, k, ei as int);
                                assert(self@.conns[cj].entries =~= remove_in_entries(
                                    pv.conns[cj].entries,
                                    k,
                                ));
                            } else {
                                assert(count_in_entries(pv.conns[cj].entries, k) == 0) by {
                                    if count_in_entries(pv.conns[cj].entries, k) >= 1 {
                                        lemma_count_index_entries(pv.conns[cj].entries, k);
                                        let i = choose|i: int|
                                            0 <= i < pv.conns[cj].entries.len() && (
                                            #[trigger] pv.conns[cj].entries[i]).key == k;
                                        assert(pv.conns[cj].entries[i].key != pv.conns[ci as int].entries[ei as int].key);
                                        assert(false);
                                    }
                                }
                                lemma_remove_absent(pv.conns[cj].entries, k);
                                lemma_remove_entries(pv.conns[cj].entries, k);
                                assert(self@.conns[cj].entries =~= remove_in_entries(
                                    pv.conns[cj].entries,
                                    k,
                                ));
                            }
                        }
                        assert(self@.conns =~= remove_key(pv, k).conns);
                        assert(self@ == spec_cancel(pv, k).0);
                    }
                    Some(WSMethod::Unsubscribe(removed.topic))
                }
            },
        }
    }

    /// Route an inbound message on connection `ci`: if its key is in the
    /// routing table, the entry caches it (last value wins); otherwise the
    /// message is dropped without error.
    pub fn route_inbound(&mut self, ci: usize, msg: WSResponse) -> (delivered: bool)
        requires
            pool_wf(old(self)@),
            ci < old(self)@.conns.len(),
        ensures
            pool_wf(final(self)@),
            final(self)@ == spec_route(old(self)@, ci as int, msg@),
            delivered == (count_in_entries(old(self)@.conns[ci as int].entries, key_of_msg(msg@))
                >= 1),
    {
        let ghost pv = self@;
        let ghost k = key_of_msg(msg@);
        let key = ResponsePattern::from(&msg);
        let found = find_entry_index(&self.conns[ci], &key);
        proof {
            assert(self@.conns[ci as int] == self.conns@[ci as int]@);
        }
        match found {
            None => {
                proof {
                    assert(count_in_entries(pv.conns[ci as int].entries, k) == 0);
                    let q = spec_route(pv, ci as int, msg@);
                    assert forall|i: int|
                        0 <= i < pv.conns[ci as int].entries.len() implies deliver_entry(
                        #[trigger] pv.conns[ci as int].entries[i],
                        msg@,
                    ) == pv.conns[ci as int].entries[i] by {
                        if pv.conns[ci as int].entries[i].key == k {
                            lemma_index_count_entries(pv.conns[ci as int].entries, k, i);
                        }
                    }
                    assert(q.conns[ci as int].entries =~= pv.conns[ci as int].entries);
                    assert(q.conns[ci as int] == pv.conns[ci as int]);
                    assert(q.conns =~= pv.conns);
                    assert(self@ == q);
                }
                false
            },
            Some(ei) => {
                proof {
                    lemma_pool_index_count(pv, k, ci as int, ei as int);
                    lemma_index_count_entries(pv.conns[ci as int].entries, k, ei as int);
                }
                self.conns[ci].entries[ei].latest = Some(msg);
                proof {
                    let q = spec_route(pv, ci as int, msg@);
                    assert(conn_wf(pv.conns[ci as int]));
                    assert forall|i: int|
                        0 <= i < pv.conns[ci as int].entries.len() implies self@.conns[ci as int].entries[i]
                        == deliver_entry(#[trigger] pv.conns[ci as int].entries[i], msg@) by {
                        if i != ei as int {
                            assert(pv.conns[ci as int].entries[i].key != pv.conns[ci as int].entries[ei as int].key);
                        }
                    }
                    assert(self@.conns[ci as int].entries =~= q.conns[ci as int].entries);
                    assert(self@.conns[ci as int] == q.conns[ci as int]);
                    assert(self@.conns =~= q.conns);
                    assert(self@ == q);
                    assert(pool_wf(self@)) by {
                        assert forall|cj: int| 0 <= cj < self@.conns.len() implies conn_wf(
                            #[trigger] self@.conns[cj],
                        ) by {
                            if cj == ci as int {
                                assert(conn_wf(pv.conns[cj]));
                                assert forall|i: int|
                                    0 <= i < self@.conns[cj].entries.len() implies entry_wf(
                                    #[trigger] self@.conns[cj].entries[i],
                                ) by {
                                    assert(self@.conns[cj].entries[i] == deliver_entry(
                                        pv.conns[cj].entries[i],
                                        msg@,
                                    ));
                                    assert(entry_wf(pv.conns[cj].entries[i]));
                                }
                            }
                        }
                        assert forall|c1: int, c2: int, i1: int, i2: int|
                            0 <= c1 < self@.conns.len() && 0 <= c2 < self@.conns.len() && c1 != c2
                                && 0 <= i1 < self@.conns[c1].entries.len() && 0 <= i2
                                < self@.conns[c2].entries.len() implies (
                        #[trigger] self@.conns[c1].entries[i1]).key != (
                        #[trigger] self@.conns[c2].entries[i2]).key by {
                            if c1 == ci as int {
                                assert(self@.conns[c1].entries[i1] == deliver_entry(
                                    pv.conns[c1].entries[i1],
                                    msg@,
                                ));
                            }
                            if c2 == ci as int {
                                assert(self@.conns[c2].entries[i2] == deliver_entry(
                                    pv.conns[c2].entries[i2],
                                    msg@,
                                ));
                            }
                        }
                    }
                }
                true
            },
        }
    }

    /// The most recent message cached for `key`, if the key is routed and a
    /// message has arrived.
    pub fn lookup_latest(&self, key: &ResponsePattern) -> (r: Option<&WSResponse>)
        requires
            pool_wf(self@),
        ensures
            match find_entry(self@, key@) {
                Some(e) => match e.latest {
                    Some(m) => r is Some && r->0@ == m,
                    None => r is None,
                },
                None => r is None,
            },
    {
        proof {
            lemma_find_count(self@, key@);
        }
        match self.find_key_position(key) {
            Some((ci, ei)) => {
                proof {
                    lemma_wf_find_unique(self@, key@, ci as int, ei as int);
                }
                match &self.conns[ci].entries[ei].latest {
                    Some(m) => Some(m),
                    None => None,
                }
            },
            None => None,
        }
    }
}

} // verus!
