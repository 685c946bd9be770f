//! The per-connection client core: request admission under a concurrency
//! cap, id assignment, correlation of out-of-order responses through a
//! pending table, subscription demultiplexing into bounded queues with a
//! deterministic drop-oldest overflow policy, per-call deadlines, and
//! teardown on connection close.
//!
//! The core is a state machine: every operation is a verified function
//! whose effect equals a spec-level transition on the mathematical model
//! [`CoreV`]. The surrounding runtime performs the transport work (sending
//! frames, sleeping, draining the inbound stream) and feeds each decoded
//! event into exactly one of these operations.

use vstd::prelude::*;

use crate::json::{bytes_eq, encode_u64, jval_of, jvals_of, lemma_val_of_dec_digits, spec_dec_digits, JVal, Json};
use crate::response::{Id, IdV};

verus! {

/// How request ids are generated.
#[derive(Debug, Clone, Copy, PartialEq, Eq, Structural)]
pub enum IdKind {
    /// Numeric ids: `0`, `1`, `2`, ...
    Number,
    /// String ids: `"0"`, `"1"`, `"2"`, ...
    Str,
}

/// Construction-time limits and policies of the core. There is no runtime
/// mutation: the configuration is fixed when the core is built.
#[derive(Debug, Clone, Copy, PartialEq, Eq, Structural)]
pub struct CoreConfig {
    /// The request-id policy.
    pub id_kind: IdKind,
    /// The admission cap: the transport never sees more in-flight calls.
    pub max_concurrent_requests: usize,
    /// The bound of each subscription queue.
    pub max_buffer_capacity_per_subscription: usize,
    /// The per-call deadline, in milliseconds.
    pub request_timeout_ms: u64,
}

/// One in-flight call: its key (the id counter value), the id on the
/// wire, and its deadline.
pub struct PendingCall {
    /// The counter value this call was admitted under.
    pub key: u64,
    /// The request id sent on the wire.
    pub id: Id,
    /// The wall-clock deadline, in milliseconds.
    pub deadline_ms: u64,
}

/// One open subscription: its key and its bounded queue of decoded
/// notification payloads.
pub struct Subscription {
    /// The subscription key.
    pub sub_key: u64,
    /// The queue of decoded payloads, oldest first.
    pub queue: Vec<Json>,
}

/// The model of one in-flight call.
pub struct PendV {
    /// The counter value.
    pub key: u64,
    /// The request id on the wire.
    pub id: IdV,
    /// The deadline, in milliseconds.
    pub deadline_ms: u64,
}

/// The model of one open subscription.
pub struct SubV {
    /// The subscription key.
    pub key: u64,
    /// The queued payloads, oldest first.
    pub queue: Seq<JVal>,
}

/// The mathematical model of the core.
pub struct CoreV {
    /// The configuration.
    pub config: CoreConfig,
    /// The next id counter value.
    pub next_key: u64,
    /// The pending table, in admission order.
    pub pending: Seq<PendV>,
    /// The open subscriptions, in creation order.
    pub subs: Seq<SubV>,
}

/// The per-connection core state.
pub struct ClientCore {
    /// The configuration.
    pub config: CoreConfig,
    /// The next id counter value.
    pub next_key: u64,
    /// The pending table, in admission order.
    pub pending: Vec<PendingCall>,
    /// The open subscriptions, in creation order.
    pub subs: Vec<Subscription>,
}

impl View for ClientCore {
    type V = CoreV;

    open spec fn view(&self) -> CoreV {
        CoreV {
            config: self.config,
            next_key: self.next_key,
            pending: Seq::new(
                self.pending@.len(),
                |i: int| PendV {
                    key: self.pending@[i].key,
                    id: self.pending@[i].id@,
                    deadline_ms: self.pending@[i].deadline_ms,
                },
            ),
            subs: Seq::new(
                self.subs@.len(),
                |i: int| SubV { key: self.subs@[i].sub_key, queue: jvals_of(self.subs@[i].queue@) },
            ),
        }
    }
}

/// The id generated for counter value `k` under an id policy.
pub open spec fn id_of_kind(kind: IdKind, k: u64) -> IdV {
    match kind {
        IdKind::Number => IdV::Number(k),
        IdKind::Str => IdV::Str(spec_dec_digits(k as nat)),
    }
}

/// Distinct counter values give distinct ids.
pub proof fn lemma_id_of_kind_injective(kind: IdKind, k1: u64, k2: u64)
    requires
        id_of_kind(kind, k1) == id_of_kind(kind, k2),
    ensures
        k1 == k2,
{
    match kind {
        IdKind::Number => {},
        IdKind::Str => {
            lemma_val_of_dec_digits(k1 as nat);
            lemma_val_of_dec_digits(k2 as nat);
        },
    }
}

/// The deadline for a call admitted at `now`, saturating at the largest
/// representable time.
pub open spec fn deadline_of(now_ms: u64, timeout_ms: u64) -> u64 {
    if now_ms + timeout_ms <= u64::MAX {
        (now_ms + timeout_ms) as u64
    } else {
        u64::MAX
    }
}

/// A healthy core: the pending table respects the admission cap, holds
/// distinct keys below the counter, each under the configured id policy;
/// subscription keys are distinct and every queue respects its bound,
/// which is at least one.
pub open spec fn wf_core(m: CoreV) -> bool {
    &&& m.pending.len() <= m.config.max_concurrent_requests
    &&& (forall|i: int| 0 <= i < m.pending.len() ==> (#[trigger] m.pending[i]).key < m.next_key)
    &&& (forall|i: int|
        0 <= i < m.pending.len() ==> (#[trigger] m.pending[i]).id == id_of_kind(
            m.config.id_kind,
            m.pending[i].key,
        ))
    &&& (forall|i: int, j: int|
        0 <= i < j < m.pending.len() ==> (#[trigger] m.pending[i]).key != (
        #[trigger] m.pending[j]).key)
    &&& m.config.max_buffer_capacity_per_subscription >= 1
    &&& (forall|i: int, j: int|
        0 <= i < j < m.subs.len() ==> (#[trigger] m.subs[i]).key != (#[trigger] m.subs[j]).key)
    &&& (forall|i: int|
        0 <= i < m.subs.len() ==> (#[trigger] m.subs[i]).queue.len()
            <= m.config.max_buffer_capacity_per_subscription)
}

/// The first pending entry carrying this wire id, or `-1`.
pub open spec fn find_pending(pending: Seq<PendV>, id: IdV) -> int
    decreases pending.len(),
{
    if pending.len() == 0 {
        -1
    } else if pending[0].id == id {
        0
    } else {
        let r = find_pending(pending.drop_first(), id);
        if r < 0 {
            -1
        } else {
            r + 1
        }
    }
}

/// The first pending entry carrying this key, or `-1`.
pub open spec fn find_pending_key(pending: Seq<PendV>, key: u64) -> int
    decreases pending.len(),
{
    if pending.len() == 0 {
        -1
    } else if pending[0].key == key {
        0
    } else {
        let r = find_pending_key(pending.drop_first(), key);
        if r < 0 {
            -1
        } else {
            r + 1
        }
    }
}

/// The first subscription carrying this key, or `-1`.
pub open spec fn find_sub(subs: Seq<SubV>, key: u64) -> int
    decreases subs.len(),
{
    if subs.len() == 0 {
        -1
    } else if subs[0].key == key {
        0
    } else {
        let r = find_sub(subs.drop_first(), key);
        if r < 0 {
            -1
        } else {
            r + 1
        }
    }
}

/// What the pending search returns: `-1` exactly when no entry matches,
/// else the first matching index.
pub proof fn lemma_find_pending_char(pending: Seq<PendV>, id: IdV)
    ensures
        ({
            let r = find_pending(pending, id);
            &&& (r == -1 <==> (forall|i: int|
                0 <= i < pending.len() ==> (#[trigger] pending[i]).id != id))
            &&& (r != -1 ==> 0 <= r < pending.len() && pending[r].id == id && (forall|i: int|
                0 <= i < r ==> (#[trigger] pending[i]).id != id))
        }),
    decreases pending.len(),
{
    if pending.len() > 0 && pending[0].id != id {
        lemma_find_pending_char(pending.drop_first(), id);
        let rr = find_pending(pending.drop_first(), id);
        assert forall|i: int| 1 <= i < pending.len() implies pending.drop_first()[i - 1]
            == pending[i] by {}
        if rr < 0 {
            assert forall|i: int| 0 <= i < pending.len() implies (#[trigger] pending[i]).id
                != id by {
                if i >= 1 {
                    assert(pending.drop_first()[i - 1].id != id);
                }
            }
        }
    }
}

/// What the key search returns.
pub proof fn lemma_find_pending_key_char(pending: Seq<PendV>, key: u64)
    ensures
        ({
            let r = find_pending_key(pending, key);
            &&& (r == -1 <==> (forall|i: int|
                0 <= i < pending.len() ==> (#[trigger] pending[i]).key != key))
            &&& (r != -1 ==> 0 <= r < pending.len() && pending[r].key == key && (forall|i: int|
                0 <= i < r ==> (#[trigger] pending[i]).key != key))
        }),
    decreases pending.len(),
{
    if pending.len() > 0 && pending[0].key != key {
        lemma_find_pending_key_char(pending.drop_first(), key);
        let rr = find_pending_key(pending.drop_first(), key);
        assert forall|i: int| 1 <= i < pending.len() implies pending.drop_first()[i - 1]
            == pending[i] by {}
        if rr < 0 {
            assert forall|i: int| 0 <= i < pending.len() implies (#[trigger] pending[i]).key
                != key by {
                if i >= 1 {
                    assert(pending.drop_first()[i - 1].key != key);
                }
            }
        }
    }
}

/// What the subscription search returns.
pub proof fn lemma_find_sub_char(subs: Seq<SubV>, key: u64)
    ensures
        ({
            let r = find_sub(subs, key);
            &&& (r == -1 <==> (forall|i: int| 0 <= i < subs.len() ==> (#[trigger] subs[i]).key
                != key))
            &&& (r != -1 ==> 0 <= r < subs.len() && subs[r].key == key && (forall|i: int|
                0 <= i < r ==> (#[trigger] subs[i]).key != key))
        }),
    decreases subs.len(),
{
    if subs.len() > 0 && subs[0].key != key {
        lemma_find_sub_char(subs.drop_first(), key);
        let rr = find_sub(subs.drop_first(), key);
        assert forall|i: int| 1 <= i < subs.len() implies subs.drop_first()[i - 1] == subs[i] by {}
        if rr < 0 {
            assert forall|i: int| 0 <= i < subs.len() implies (#[trigger] subs[i]).key != key by {
                if i >= 1 {
                    assert(subs.drop_first()[i - 1].key != key);
                }
            }
        }
    }
}

/// Why a timeout check did, or did not, resolve a call.
#[derive(Debug, Clone, Copy, PartialEq, Eq, Structural)]
pub enum TimeoutOutcome {
    /// The call was pending and past its deadline: removed, terminal.
    TimedOut,
    /// The call is pending but its deadline has not elapsed.
    NotDue,
    /// No such call is pending.
    Unknown,
}

/// What happened to an inbound subscription notification.
#[derive(Debug, Clone, Copy, PartialEq, Eq, Structural)]
pub enum NotifOutcome {
    /// Appended to the subscription's queue.
    Enqueued,
    /// The queue was full: the oldest payload was dropped, then appended.
    DroppedOldest,
    /// No subscription with this key is open: the payload is dropped.
    UnknownSub,
}

/// Admission: under the cap (and with ids left), a call is admitted with a
/// fresh key, the id the policy gives it, and deadline `now + timeout`;
/// otherwise nothing changes and nothing reaches the transport.
pub open spec fn step_begin(m: CoreV, now_ms: u64) -> (CoreV, Option<(u64, IdV)>) {
    if m.pending.len() < m.config.max_concurrent_requests && m.next_key < u64::MAX {
        let id = id_of_kind(m.config.id_kind, m.next_key);
        let pv = PendV {
            key: m.next_key,
            id: id,
            deadline_ms: deadline_of(now_ms, m.config.request_timeout_ms),
        };
        (
            CoreV {
                config: m.config,
                next_key: (m.next_key + 1) as u64,
                pending: m.pending.push(pv),
                subs: m.subs,
            },
            Option::Some((m.next_key, id)),
        )
    } else {
        (m, Option::None)
    }
}

/// Correlation: a response resolves the single pending call carrying its
/// id and frees the slot; an unmatched id (including any second response
/// for an already resolved call) changes nothing.
pub open spec fn step_response(m: CoreV, id: IdV) -> (CoreV, Option<u64>) {
    let i = find_pending(m.pending, id);
    if i < 0 {
        (m, Option::None)
    } else {
        (
            CoreV {
                config: m.config,
                next_key: m.next_key,
                pending: m.pending.remove(i),
                subs: m.subs,
            },
            Option::Some(m.pending[i].key),
        )
    }
}

/// Timeout: a pending call past its deadline is removed and terminal; one
/// not yet due, or unknown, leaves the state unchanged.
pub open spec fn step_timeout(m: CoreV, key: u64, now_ms: u64) -> (CoreV, TimeoutOutcome) {
    let i = find_pending_key(m.pending, key);
    if i < 0 {
        (m, TimeoutOutcome::Unknown)
    } else if now_ms >= m.pending[i].deadline_ms {
        (
            CoreV {
                config: m.config,
                next_key: m.next_key,
                pending: m.pending.remove(i),
                subs: m.subs,
            },
            TimeoutOutcome::TimedOut,
        )
    } else {
        (m, TimeoutOutcome::NotDue)
    }
}

/// Cancellation: the caller lost interest; the pending entry and its
/// admission slot are released even though no response ever arrived.
pub open spec fn step_cancel(m: CoreV, key: u64) -> (CoreV, bool) {
    let i = find_pending_key(m.pending, key);
    if i < 0 {
        (m, false)
    } else {
        (
            CoreV {
                config: m.config,
                next_key: m.next_key,
                pending: m.pending.remove(i),
                subs: m.subs,
            },
            true,
        )
    }
}

/// Subscribing opens an empty bounded queue under a fresh key.
pub open spec fn step_subscribe(m: CoreV, key: u64) -> (CoreV, bool) {
    if find_sub(m.subs, key) >= 0 {
        (m, false)
    } else {
        (
            CoreV {
                config: m.config,
                next_key: m.next_key,
                pending: m.pending,
                subs: m.subs.push(SubV { key: key, queue: Seq::empty() }),
            },
            true,
        )
    }
}

/// Unsubscribing destroys the subscription and its queue.
pub open spec fn step_unsubscribe(m: CoreV, key: u64) -> (CoreV, bool) {
    let i = find_sub(m.subs, key);
    if i < 0 {
        (m, false)
    } else {
        (
            CoreV {
                config: m.config,
                next_key: m.next_key,
                pending: m.pending,
                subs: m.subs.remove(i),
            },
            true,
        )
    }
}

/// Demultiplexing: a notification for an open subscription is appended in
/// arrival order; a full queue drops its oldest payload first (the
/// deterministic overflow policy); an unknown subscription drops the
/// payload without blocking the dispatcher.
pub open spec fn step_notification(m: CoreV, key: u64, v: JVal) -> (CoreV, NotifOutcome) {
    let i = find_sub(m.subs, key);
    if i < 0 {
        (m, NotifOutcome::UnknownSub)
    } else {
        let q = m.subs[i].queue;
        if q.len() < m.config.max_buffer_capacity_per_subscription {
            (
                CoreV {
                    config: m.config,
                    next_key: m.next_key,
                    pending: m.pending,
                    subs: m.subs.update(i, SubV { key: key, queue: q.push(v) }),
                },
                NotifOutcome::Enqueued,
            )
        } else {
            (
                CoreV {
                    config: m.config,
                    next_key: m.next_key,
                    pending: m.pending,
                    subs: m.subs.update(i, SubV { key: key, queue: q.drop_first().push(v) }),
                },
                NotifOutcome::DroppedOldest,
            )
        }
    }
}

/// Consuming: the subscription's consumer takes the oldest payload.
pub open spec fn step_next_notification(m: CoreV, key: u64) -> (CoreV, Option<JVal>) {
    let i = find_sub(m.subs, key);
    if i < 0 {
        (m, Option::None)
    } else {
        let q = m.subs[i].queue;
        if q.len() == 0 {
            (m, Option::None)
        } else {
            (
                CoreV {
                    config: m.config,
                    next_key: m.next_key,
                    pending: m.pending,
                    subs: m.subs.update(i, SubV { key: key, queue: q.drop_first() }),
                },
                Option::Some(q[0]),
            )
        }
    }
}

/// The keys of a pending table, in admission order.
pub open spec fn pending_keys(pending: Seq<PendV>) -> Seq<u64> {
    Seq::new(pending.len(), |i: int| pending[i].key)
}

/// The keys of the open subscriptions, in creation order.
pub open spec fn sub_keys(subs: Seq<SubV>) -> Seq<u64> {
    Seq::new(subs.len(), |i: int| subs[i].key)
}

/// Teardown: closing the transport resolves every pending call and every
/// open subscription; nothing is left pending.
pub open spec fn step_close(m: CoreV) -> (CoreV, Seq<u64>, Seq<u64>) {
    (
        CoreV { config: m.config, next_key: m.next_key, pending: Seq::empty(), subs: Seq::empty() },
        pending_keys(m.pending),
        sub_keys(m.subs),
    )
}

/// The decimal digits of `k`, as bytes.
pub fn u64_to_dec(k: u64) -> (r: Vec<u8>)
    ensures
        r@ == spec_dec_digits(k as nat),
{
    let mut out: Vec<u8> = Vec::new();
    encode_u64(k, &mut out);
    proof {
        assert(out@ =~= spec_dec_digits(k as nat));
    }
    out
}

/// The wire id for counter value `k` under an id policy.
pub fn make_id(kind: IdKind, k: u64) -> (r: Id)
    ensures
        r@ == id_of_kind(kind, k),
{
    match kind {
        IdKind::Number => Id::Number(k),
        IdKind::Str => Id::Str(u64_to_dec(k)),
    }
}

/// Whether two ids are the same id.
pub fn id_eq(a: &Id, b: &Id) -> (r: bool)
    ensures
        r == (a@ == b@),
{
    match (a, b) {
        (Id::Null, Id::Null) => true,
        (Id::Number(x), Id::Number(y)) => x == y,
        (Id::Str(x), Id::Str(y)) => bytes_eq(x.as_slice(), y.as_slice()),
        _ => false,
    }
}

impl ClientCore {
    /// A fresh core for one connection: nothing pending, nothing open.
    pub fn new(config: CoreConfig) -> (c: ClientCore)
        requires
            config.max_buffer_capacity_per_subscription >= 1,
        ensures
            c@ == (CoreV {
                config,
                next_key: 0,
                pending: Seq::<PendV>::empty(),
                subs: Seq::<SubV>::empty(),
            }),
            wf_core(c@),
    {
        let c = ClientCore { config, next_key: 0, pending: Vec::new(), subs: Vec::new() };
        proof {
            assert(c@.pending =~= Seq::<PendV>::empty());
            assert(c@.subs =~= Seq::<SubV>::empty());
        }
        c
    }

    /// The number of in-flight calls.
    pub fn in_flight(&self) -> (r: usize)
        ensures
            r == self@.pending.len(),
    {
        self.pending.len()
    }

    /// Admission: under the cap, the call is admitted and its key and wire
    /// id are handed back for sending; at the cap, nothing changes and the
    /// caller must wait for a slot — the transport never sees the call.
    pub fn try_begin_call(&mut self, now_ms: u64) -> (r: Option<(u64, Id)>)
        requires
            wf_core(old(self)@),
        ensures
            wf_core(final(self)@),
            final(self)@ == step_begin(old(self)@, now_ms).0,
            match r {
                Option::Some((k, id)) => step_begin(old(self)@, now_ms).1 == Option::Some(
                    (k, id@),
                ),
                Option::None => step_begin(old(self)@, now_ms).1 is None,
            },
    {
        if self.pending.len() < self.config.max_concurrent_requests && self.next_key < u64::MAX {
            let key = self.next_key;
            let id = make_id(self.config.id_kind, key);
            let stored = id.deep_clone();
            let deadline: u64 = if now_ms <= u64::MAX - self.config.request_timeout_ms {
                now_ms + self.config.request_timeout_ms
            } else {
                u64::MAX
            };
            let ghost pre: CoreV = self@;
            self.pending.push(PendingCall { key, id: stored, deadline_ms: deadline });
            self.next_key = key + 1;
            proof {
                let pv = PendV {
                    key,
                    id: id_of_kind(pre.config.id_kind, key),
                    deadline_ms: deadline_of(now_ms, pre.config.request_timeout_ms),
                };
                assert(self@.pending =~= pre.pending.push(pv));
                assert(self@ == step_begin(pre, now_ms).0);
                assert forall|i: int, j: int|
                    0 <= i < j < self@.pending.len() implies (#[trigger] self@.pending[i]).key != (
                #[trigger] self@.pending[j]).key by {
                    if j + 1 == self@.pending.len() {
                        assert(pre.pending[i].key < pre.next_key);
                    }
                }
            }
            Some((key, id))
        } else {
            None
        }
    }

    /// Correlation: resolves the single pending call carrying this wire
    /// id, freeing its slot, and hands back its key; an unmatched id —
    /// including any second response for an already resolved call — is
    /// dropped with no observable effect.
    #[verifier::loop_isolation(false)]
    pub fn on_response(&mut self, rid: &Id) -> (r: Option<u64>)
        requires
            wf_core(old(self)@),
        ensures
            wf_core(final(self)@),
            final(self)@ == step_response(old(self)@, rid@).0,
            r == step_response(old(self)@, rid@).1,
    {
        let ghost pre: CoreV = self@;
        proof {
            lemma_find_pending_char(pre.pending, rid@);
        }
        let mut k: usize = 0;
        while k < self.pending.len()
            invariant
                wf_core(pre),
                self@ == pre,
                k <= pre.pending.len(),
                forall|i: int| 0 <= i < k as int ==> (#[trigger] pre.pending[i]).id != rid@,
            decreases self.pending.len() - k,
        {
            if id_eq(&self.pending[k].id, rid) {
                proof {
                    assert(pre.pending[k as int].id == rid@);
                    assert(find_pending(pre.pending, rid@) == k as int);
                }
                let entry = self.pending.remove(k);
                proof {
                    assert(self@.pending =~= pre.pending.remove(k as int));
                    assert(self@ == step_response(pre, rid@).0);
                    assert forall|i: int|
                        0 <= i < self@.pending.len() implies (#[trigger] self@.pending[i]).key
                        < self@.next_key && self@.pending[i].id == id_of_kind(
                        self@.config.id_kind,
                        self@.pending[i].key,
                    ) by {
                        if i < k as int {
                            assert(self@.pending[i] == pre.pending[i]);
                        } else {
                            assert(self@.pending[i] == pre.pending[i + 1]);
                        }
                    }
                    assert forall|i: int, j: int|
                        0 <= i < j < self@.pending.len() implies (
                    #[trigger] self@.pending[i]).key != (#[trigger] self@.pending[j]).key by {
                        let i0: int = if i < k as int {
                            i
                        } else {
                            i + 1
                        };
                        let j0: int = if j < k as int {
                            j
                        } else {
                            j + 1
                        };
                        assert(self@.pending[i] == pre.pending[i0]);
                        assert(self@.pending[j] == pre.pending[j0]);
                    }
                }
                return Some(entry.key);
            }
            k = k + 1;
        }
        proof {
            assert(find_pending(pre.pending, rid@) == -1);
        }
        None
    }

    /// Timeout: a pending call whose deadline has elapsed is removed and
    /// resolved as timed out, terminal; a call not yet due, or unknown,
    /// is left exactly as it was.
    #[verifier::loop_isolation(false)]
    pub fn on_timeout(&mut self, key: u64, now_ms: u64) -> (r: TimeoutOutcome)
        requires
            wf_core(old(self)@),
        ensures
            wf_core(final(self)@),
            final(self)@ == step_timeout(old(self)@, key, now_ms).0,
            r == step_timeout(old(self)@, key, now_ms).1,
    {
        let ghost pre: CoreV = self@;
        proof {
            lemma_find_pending_key_char(pre.pending, key);
        }
        let mut k: usize = 0;
        while k < self.pending.len()
            invariant
                wf_core(pre),
                self@ == pre,
                k <= pre.pending.len(),
                forall|i: int| 0 <= i < k as int ==> (#[trigger] pre.pending[i]).key != key,
            decreases self.pending.len() - k,
        {
            if self.pending[k].key == key {
                proof {
                    assert(pre.pending[k as int].key == key);
                    assert(find_pending_key(pre.pending, key) == k as int);
                }
                if now_ms >= self.pending[k].deadline_ms {
                    self.pending.remove(k);
                    proof {
                        assert(self@.pending =~= pre.pending.remove(k as int));
                        assert(self@ == step_timeout(pre, key, now_ms).0);
                        assert forall|i: int|
                            0 <= i < self@.pending.len() implies (#[trigger] self@.pending[i]).key
                            < self@.next_key && self@.pending[i].id == id_of_kind(
                            self@.config.id_kind,
                            self@.pending[i].key,
                        ) by {
                            if i < k as int {
                                assert(self@.pending[i] == pre.pending[i]);
                            } else {
                                assert(self@.pending[i] == pre.pending[i + 1]);
                            }
                        }
                        assert forall|i: int, j: int|
                            0 <= i < j < self@.pending.len() implies (
                        #[trigger] self@.pending[i]).key != (#[trigger] self@.pending[j]).key by {
                            let i0: int = if i < k as int {
                                i
                            } else {
                                i + 1
                            };
                            let j0: int = if j < k as int {
                                j
                            } else {
                                j + 1
                            };
                            assert(self@.pending[i] == pre.pending[i0]);
                            assert(self@.pending[j] == pre.pending[j0]);
                        }
                    }
                    return TimeoutOutcome::TimedOut;
                } else {
                    return TimeoutOutcome::NotDue;
                }
            }
            k = k + 1;
        }
        proof {
            assert(find_pending_key(pre.pending, key) == -1);
        }
        TimeoutOutcome::Unknown
    }

    /// Cancellation: the caller lost interest; the pending entry and its
    /// admission slot are released even though no response ever arrived.
    #[verifier::loop_isolation(false)]
    pub fn cancel(&mut self, key: u64) -> (r: bool)
        requires
            wf_core(old(self)@),
        ensures
            wf_core(final(self)@),
            final(self)@ == step_cancel(old(self)@, key).0,
            r == step_cancel(old(self)@, key).1,
    {
        let ghost pre: CoreV = self@;
        proof {
            lemma_find_pending_key_char(pre.pending, key);
        }
        let mut k: usize = 0;
        while k < self.pending.len()
            invariant
                wf_core(pre),
                self@ == pre,
                k <= pre.pending.len(),
                forall|i: int| 0 <= i < k as int ==> (#[trigger] pre.pending[i]).key != key,
            decreases self.pending.len() - k,
        {
            if self.pending[k].key == key {
                proof {
                    assert(pre.pending[k as int].key == key);
                    assert(find_pending_key(pre.pending, key) == k as int);
                }
                self.pending.remove(k);
                proof {
                    assert(self@.pending =~= pre.pending.remove(k as int));
                    assert(self@ == step_cancel(pre, key).0);
                    assert forall|i: int|
                        0 <= i < self@.pending.len() implies (#[trigger] self@.pending[i]).key
                        < self@.next_key && self@.pending[i].id == id_of_kind(
                        self@.config.id_kind,
                        self@.pending[i].key,
                    ) by {
                        if i < k as int {
                            assert(self@.pending[i] == pre.pending[i]);
                        } else {
                            assert(self@.pending[i] == pre.pending[i + 1]);
                        }
                    }
                    assert forall|i: int, j: int|
                        0 <= i < j < self@.pending.len() implies (
                    #[trigger] self@.pending[i]).key != (#[trigger] self@.pending[j]).key by {
                        let i0: int = if i < k as int {
                            i
                        } else {
                            i + 1
                        };
                        let j0: int = if j < k as int {
                            j
                        } else {
                            j + 1
                        };
                        assert(self@.pending[i] == pre.pending[i0]);
                        assert(self@.pending[j] == pre.pending[j0]);
                    }
                }
                return true;
            }
            k = k + 1;
        }
        proof {
            assert(find_pending_key(pre.pending, key) == -1);
        }
        false
    }
}

impl ClientCore {
    /// Opens a subscription under a fresh key with an empty bounded queue.
    /// A key already open is refused.
    #[verifier::loop_isolation(false)]
    pub fn subscribe(&mut self, sub_key: u64) -> (r: bool)
        requires
            wf_core(old(self)@),
        ensures
            wf_core(final(self)@),
            final(self)@ == step_subscribe(old(self)@, sub_key).0,
            r == step_subscribe(old(self)@, sub_key).1,
    {
        let ghost pre: CoreV = self@;
        proof {
            lemma_find_sub_char(pre.subs, sub_key);
        }
        let mut k: usize = 0;
        while k < self.subs.len()
            invariant
                self@ == pre,
                k <= pre.subs.len(),
                forall|i: int| 0 <= i < k as int ==> (#[trigger] pre.subs[i]).key != sub_key,
            decreases self.subs.len() - k,
        {
            if self.subs[k].sub_key == sub_key {
                proof {
                    assert(pre.subs[k as int].key == sub_key);
                    assert(find_sub(pre.subs, sub_key) == k as int);
                }
                return false;
            }
            k = k + 1;
        }
        proof {
            assert(find_sub(pre.subs, sub_key) == -1);
        }
        self.subs.push(Subscription { sub_key, queue: Vec::new() });
        proof {
            assert(jvals_of(Seq::<Json>::empty()) =~= Seq::<JVal>::empty());
            assert(self@.subs =~= pre.subs.push(SubV { key: sub_key, queue: Seq::empty() }));
        }
        true
    }

    /// Destroys a subscription and its queue.
    #[verifier::loop_isolation(false)]
    pub fn unsubscribe(&mut self, sub_key: u64) -> (r: bool)
        requires
            wf_core(old(self)@),
        ensures
            wf_core(final(self)@),
            final(self)@ == step_unsubscribe(old(self)@, sub_key).0,
            r == step_unsubscribe(old(self)@, sub_key).1,
    {
        let ghost pre: CoreV = self@;
        proof {
            lemma_find_sub_char(pre.subs, sub_key);
        }
        let mut k: usize = 0;
        while k < self.subs.len()
            invariant
                self@ == pre,
                k <= pre.subs.len(),
                forall|i: int| 0 <= i < k as int ==> (#[trigger] pre.subs[i]).key != sub_key,
            decreases self.subs.len() - k,
        {
            if self.subs[k].sub_key == sub_key {
                proof {
                    assert(pre.subs[k as int].key == sub_key);
                    assert(find_sub(pre.subs, sub_key) == k as int);
                }
                self.subs.remove(k);
                proof {
                    assert(self@.subs =~= pre.subs.remove(k as int));
                    assert(self@ == step_unsubscribe(pre, sub_key).0);
                    assert forall|i: int, j: int|
                        0 <= i < j < self@.subs.len() implies (#[trigger] self@.subs[i]).key != (
                    #[trigger] self@.subs[j]).key by {
                        let i0: int = if i < k as int {
                            i
                        } else {
                            i + 1
                        };
                        let j0: int = if j < k as int {
                            j
                        } else {
                            j + 1
                        };
                        assert(self@.subs[i] == pre.subs[i0]);
                        assert(self@.subs[j] == pre.subs[j0]);
                    }
                    assert forall|i: int|
                        0 <= i < self@.subs.len() implies (#[trigger] self@.subs[i]).queue.len()
                        <= self@.config.max_buffer_capacity_per_subscription by {
                        if i < k as int {
                            assert(self@.subs[i] == pre.subs[i]);
                        } else {
                            assert(self@.subs[i] == pre.subs[i + 1]);
                        }
                    }
                }
                return true;
            }
            k = k + 1;
        }
        proof {
            assert(find_sub(pre.subs, sub_key) == -1);
        }
        false
    }

    /// Demultiplexes one inbound notification: appended in arrival order
    /// to its subscription's queue; a full queue deterministically drops
    /// its oldest payload first; an unknown subscription id drops the
    /// payload — the dispatcher never blocks.
    #[verifier::loop_isolation(false)]
    pub fn on_notification(&mut self, sub_key: u64, payload: Json) -> (r: NotifOutcome)
        requires
            wf_core(old(self)@),
        ensures
            wf_core(final(self)@),
            final(self)@ == step_notification(old(self)@, sub_key, jval_of(payload)).0,
            r == step_notification(old(self)@, sub_key, jval_of(payload)).1,
    {
        let ghost pre: CoreV = self@;
        let ghost pv: JVal = jval_of(payload);
        proof {
            lemma_find_sub_char(pre.subs, sub_key);
        }
        let mut k: usize = 0;
        while k < self.subs.len()
            invariant
                self@ == pre,
                k <= pre.subs.len(),
                forall|i: int| 0 <= i < k as int ==> (#[trigger] pre.subs[i]).key != sub_key,
            decreases self.subs.len() - k,
        {
            if self.subs[k].sub_key == sub_key {
                proof {
                    assert(pre.subs[k as int].key == sub_key);
                    assert(find_sub(pre.subs, sub_key) == k as int);
                }
                let mut entry = self.subs.remove(k);
                let ghost q: Seq<JVal> = pre.subs[k as int].queue;
                let full = entry.queue.len() >= self.config.max_buffer_capacity_per_subscription;
                if full {
                    entry.queue.remove(0);
                }
                entry.queue.push(payload);
                let ghost q2: Seq<JVal> = if q.len()
                    < pre.config.max_buffer_capacity_per_subscription {
                    q.push(pv)
                } else {
                    q.drop_first().push(pv)
                };
                proof {
                    assert(jvals_of(entry.queue@) =~= q2);
                }
                self.subs.insert(k, entry);
                proof {
                    assert(self@.subs =~= pre.subs.update(
                        k as int,
                        SubV { key: sub_key, queue: q2 },
                    ));
                    assert(self@ == step_notification(pre, sub_key, pv).0);
                    assert forall|i: int, j: int|
                        0 <= i < j < self@.subs.len() implies (#[trigger] self@.subs[i]).key != (
                    #[trigger] self@.subs[j]).key by {
                        assert(pre.subs[i].key != pre.subs[j].key);
                    }
                }
                if full {
                    return NotifOutcome::DroppedOldest;
                } else {
                    return NotifOutcome::Enqueued;
                }
            }
            k = k + 1;
        }
        proof {
            assert(find_sub(pre.subs, sub_key) == -1);
        }
        NotifOutcome::UnknownSub
    }

    /// Hands the subscription's consumer the oldest queued payload, in
    /// arrival order.
    #[verifier::loop_isolation(false)]
    pub fn next_notification(&mut self, sub_key: u64) -> (r: Option<Json>)
        requires
            wf_core(old(self)@),
        ensures
            wf_core(final(self)@),
            final(self)@ == step_next_notification(old(self)@, sub_key).0,
            match r {
                Option::Some(j) => step_next_notification(old(self)@, sub_key).1 == Option::Some(
                    jval_of(j),
                ),
                Option::None => step_next_notification(old(self)@, sub_key).1 is None,
            },
    {
        let ghost pre: CoreV = self@;
        proof {
            lemma_find_sub_char(pre.subs, sub_key);
        }
        let mut k: usize = 0;
        while k < self.subs.len()
            invariant
                self@ == pre,
                k <= pre.subs.len(),
                forall|i: int| 0 <= i < k as int ==> (#[trigger] pre.subs[i]).key != sub_key,
            decreases self.subs.len() - k,
        {
            if self.subs[k].sub_key == sub_key {
                proof {
                    assert(pre.subs[k as int].key == sub_key);
                    assert(find_sub(pre.subs, sub_key) == k as int);
                }
                if self.subs[k].queue.len() == 0 {
                    proof {
                        assert(pre.subs[k as int].queue.len() == 0);
                    }
                    return None;
                }
                let mut entry = self.subs.remove(k);
                let ghost q: Seq<JVal> = pre.subs[k as int].queue;
                let head = entry.queue.remove(0);
                proof {
                    assert(jvals_of(entry.queue@) =~= q.drop_first());
                    assert(jval_of(head) == q[0]);
                }
                self.subs.insert(k, entry);
                proof {
                    assert(self@.subs =~= pre.subs.update(
                        k as int,
                        SubV { key: sub_key, queue: q.drop_first() },
                    ));
                    assert(self@ == step_next_notification(pre, sub_key).0);
                    assert forall|i: int, j: int|
                        0 <= i < j < self@.subs.len() implies (#[trigger] self@.subs[i]).key != (
                    #[trigger] self@.subs[j]).key by {
                        assert(pre.subs[i].key != pre.subs[j].key);
                    }
                }
                return Some(head);
            }
            k = k + 1;
        }
        proof {
            assert(find_sub(pre.subs, sub_key) == -1);
        }
        None
    }

    /// Teardown on transport closure: every pending call and every open
    /// subscription is resolved as closed; their keys are handed back, in
    /// order, so the runtime can fail each waiter; nothing is left
    /// pending.
    #[verifier::loop_isolation(false)]
    pub fn on_close(&mut self) -> (r: (Vec<u64>, Vec<u64>))
        requires
            wf_core(old(self)@),
        ensures
            wf_core(final(self)@),
            final(self)@ == step_close(old(self)@).0,
            r.0@ == step_close(old(self)@).1,
            r.1@ == step_close(old(self)@).2,
    {
        let ghost pre: CoreV = self@;
        let mut call_keys: Vec<u64> = Vec::new();
        let mut k: usize = 0;
        while k < self.pending.len()
            invariant
                self@ == pre,
                k <= pre.pending.len(),
                call_keys@.len() == k as int,
                forall|i: int| 0 <= i < k as int ==> call_keys@[i] == (
                #[trigger] pre.pending[i]).key,
            decreases self.pending.len() - k,
        {
            call_keys.push(self.pending[k].key);
            k = k + 1;
        }
        let mut sub_ks: Vec<u64> = Vec::new();
        let mut t: usize = 0;
        while t < self.subs.len()
            invariant
                self@ == pre,
                t <= pre.subs.len(),
                sub_ks@.len() == t as int,
                forall|i: int| 0 <= i < t as int ==> sub_ks@[i] == (#[trigger] pre.subs[i]).key,
            decreases self.subs.len() - t,
        {
            sub_ks.push(self.subs[t].sub_key);
            t = t + 1;
        }
        self.pending = Vec::new();
        self.subs = Vec::new();
        proof {
            assert(self@.pending =~= Seq::<PendV>::empty());
            assert(self@.subs =~= Seq::<SubV>::empty());
            assert(call_keys@ =~= pending_keys(pre.pending));
            assert(sub_ks@ =~= sub_keys(pre.subs));
        }
        (call_keys, sub_ks)
    }
}

/// LAW (admission cap): with cap `N` and `N` calls in flight, a further
/// call is not admitted and changes nothing — it never reaches the
/// transport; below the cap (with ids left) it is admitted; and admission
/// never pushes the table beyond the cap.
pub proof fn lemma_admission_cap(m: CoreV, now_ms: u64)
    requires
        wf_core(m),
    ensures
        m.pending.len() >= m.config.max_concurrent_requests ==> step_begin(m, now_ms) == (
            m,
            Option::<(u64, IdV)>::None,
        ),
        m.pending.len() < m.config.max_concurrent_requests && m.next_key < u64::MAX ==> step_begin(
            m,
            now_ms,
        ).1 is Some,
        step_begin(m, now_ms).0.pending.len() <= m.config.max_concurrent_requests,
{
}

/// LAW (admission resumes): at the cap, resolving any in-flight call
/// frees its slot, and the next call is admitted.
pub proof fn lemma_admission_after_resolve(m: CoreV, id: IdV, now_ms: u64)
    requires
        wf_core(m),
        find_pending(m.pending, id) >= 0,
        m.next_key < u64::MAX,
    ensures
        step_begin(step_response(m, id).0, now_ms).1 is Some,
{
    lemma_find_pending_char(m.pending, id);
}

/// LAW (timeout is terminal and clean): a call resolved as timed out
/// leaves the pending table without it, and a response for its id
/// arriving afterwards has no observable effect — the call is never
/// resurrected.
pub proof fn lemma_timeout_terminal(m: CoreV, key: u64, now_ms: u64)
    requires
        wf_core(m),
        step_timeout(m, key, now_ms).1 == TimeoutOutcome::TimedOut,
    ensures
        find_pending_key(step_timeout(m, key, now_ms).0.pending, key) == -1,
        step_response(step_timeout(m, key, now_ms).0, id_of_kind(m.config.id_kind, key)) == (
            step_timeout(m, key, now_ms).0,
            Option::<u64>::None,
        ),
{
    lemma_find_pending_key_char(m.pending, key);
    let i = find_pending_key(m.pending, key);
    let m1 = step_timeout(m, key, now_ms).0;
    assert forall|t: int| 0 <= t < m1.pending.len() implies (#[trigger] m1.pending[t]).key
        != key by {
        if t < i {
            assert(m1.pending[t] == m.pending[t]);
        } else {
            assert(m1.pending[t] == m.pending[t + 1]);
        }
    }
    lemma_find_pending_key_char(m1.pending, key);
    let id = id_of_kind(m.config.id_kind, key);
    assert forall|t: int| 0 <= t < m1.pending.len() implies (#[trigger] m1.pending[t]).id
        != id by {
        let t0: int = if t < i {
            t
        } else {
            t + 1
        };
        assert(m1.pending[t] == m.pending[t0]);
        assert(m.pending[t0].id == id_of_kind(m.config.id_kind, m.pending[t0].key));
        if m1.pending[t].id == id {
            lemma_id_of_kind_injective(m.config.id_kind, m.pending[t0].key, key);
        }
    }
    lemma_find_pending_char(m1.pending, id);
}

/// LAW (delivery order): notifications for one subscription are enqueued
/// in arrival order — two arrivals that both fit leave the queue with the
/// first before the second, behind what was already queued.
pub proof fn lemma_notification_order(m: CoreV, key: u64, v1: JVal, v2: JVal)
    requires
        wf_core(m),
        find_sub(m.subs, key) >= 0,
        m.subs[find_sub(m.subs, key)].queue.len() + 2
            <= m.config.max_buffer_capacity_per_subscription,
    ensures
        ({
            let i = find_sub(m.subs, key);
            let r1 = step_notification(m, key, v1);
            let r2 = step_notification(r1.0, key, v2);
            &&& r1.1 == NotifOutcome::Enqueued
            &&& r2.1 == NotifOutcome::Enqueued
            &&& find_sub(r2.0.subs, key) == i
            &&& r2.0.subs[i].queue == m.subs[i].queue.push(v1).push(v2)
        }),
{
    let i = find_sub(m.subs, key);
    lemma_find_sub_char(m.subs, key);
    let m1 = step_notification(m, key, v1).0;
    assert(m1.subs.len() == m.subs.len());
    assert forall|t: int| 0 <= t < m1.subs.len() implies (#[trigger] m1.subs[t]).key
        == m.subs[t].key by {}
    assert forall|t: int| 0 <= t < i implies (#[trigger] m1.subs[t]).key != key by {
        assert(m.subs[t].key != key);
    }
    assert(m1.subs[i].key == key);
    lemma_find_sub_char(m1.subs, key);
    assert(find_sub(m1.subs, key) == i);
    let m2 = step_notification(m1, key, v2).0;
    assert(m2.subs.len() == m.subs.len());
    assert forall|t: int| 0 <= t < i implies (#[trigger] m2.subs[t]).key != key by {
        assert(m.subs[t].key != key);
    }
    assert(m2.subs.len() == m.subs.len() && m2.subs[i].key == key);
    assert forall|t: int| 0 <= t < m2.subs.len() implies (#[trigger] m2.subs[t]).key
        == m1.subs[t].key by {}
    lemma_find_sub_char(m2.subs, key);
    assert(find_sub(m2.subs, key) == i);
}

/// LAW (deterministic overflow): a notification arriving at a full queue
/// deterministically drops the oldest payload and appends the new one —
/// never silent growth, never a blocked dispatcher.
pub proof fn lemma_notification_overflow(m: CoreV, key: u64, v: JVal)
    requires
        wf_core(m),
        find_sub(m.subs, key) >= 0,
        m.subs[find_sub(m.subs, key)].queue.len() == m.config.max_buffer_capacity_per_subscription,
    ensures
        ({
            let i = find_sub(m.subs, key);
            let r = step_notification(m, key, v);
            &&& r.1 == NotifOutcome::DroppedOldest
            &&& r.0.subs[i].queue == m.subs[i].queue.drop_first().push(v)
            &&& r.0.subs[i].queue.len() == m.config.max_buffer_capacity_per_subscription
        }),
{
    let i = find_sub(m.subs, key);
    lemma_find_sub_char(m.subs, key);
}

/// LAW (closure resolves everything): closing the transport with `N`
/// calls and `M` subscriptions outstanding resolves exactly those `N + M`
/// waiters, by key and in order, and leaves nothing pending.
pub proof fn lemma_close_resolves_all(m: CoreV)
    ensures
        step_close(m).0.pending.len() == 0,
        step_close(m).0.subs.len() == 0,
        step_close(m).1.len() == m.pending.len(),
        step_close(m).2.len() == m.subs.len(),
        forall|i: int| 0 <= i < m.pending.len() ==> step_close(m).1[i] == (
        #[trigger] m.pending[i]).key,
        forall|i: int| 0 <= i < m.subs.len() ==> step_close(m).2[i] == (#[trigger] m.subs[i]).key,
{
}

} // verus!
