//! Sticky routing and concurrency tracking.
//!
//! The tracker binds API-key identities to credentials, reserves concurrency
//! slots atomically, and reclaims zombie streams and expired bindings.  The
//! active-stream table is the source of truth; the per-credential counters
//! are derived bookkeeping, and the well-formedness predicate
//! [`StickyTracker::wf`] states that they agree at all times.
//!
//! Time is a plain millisecond count handed in by the caller, so every
//! operation is a deterministic function of its arguments.

use vstd::prelude::*;

use crate::outside::jitter_retry_millis;

verus! {

pub type StreamId = u64;

/// Hard timeout for reservations that never saw an upstream response:
/// two minutes, in milliseconds.
pub const RESERVATION_TIMEOUT_MILLIS: u64 = 120000;

/// The identity that sticky routing binds to a credential.
#[derive(Debug, Clone)]
pub struct RequestIdentity {
    pub api_key: String,
    pub session_id: Option<String>,
}

/// A credential offered to `try_acquire`, in priority order.
#[derive(Debug, Clone)]
pub struct AvailableCredential {
    pub id: u64,
    pub supports_opus: bool,
}

/// Monotone counters describing the tracker's decisions so far.
#[derive(Debug, Clone, Copy, PartialEq, Eq, Structural)]
pub struct StickyStats {
    pub hits: u64,
    pub assignments: u64,
    pub unbinds: u64,
    pub queue_jumps: u64,
    pub rejections_429: u64,
}

/// What `try_acquire` decided: a reserved slot, or backpressure with an
/// advisory retry delay drawn from [5000, 10000) milliseconds.
#[derive(Debug, Clone)]
pub enum AcquireResult {
    Acquired { credential_id: u64, stream_id: StreamId },
    AllFull { retry_after_millis: u64 },
}

#[derive(Debug, Clone)]
pub struct StickySnapshot {
    pub credentials: Vec<CredentialSnapshot>,
    pub stats: StickyStats,
    pub active_stream_count: usize,
}

#[derive(Debug, Clone)]
pub struct CredentialSnapshot {
    pub id: u64,
    pub active_count: u64,
    pub bound_keys: Vec<String>,
}

#[derive(Debug, Clone)]
pub struct StreamSnapshot {
    pub stream_id: StreamId,
    pub credential_id: u64,
    pub api_key: String,
    pub session_id: Option<String>,
    pub activated: bool,
    pub started_at_secs_ago: u64,
}

/// The ghost image of one active stream, used by every contract.
pub struct StreamModel {
    pub stream_id: StreamId,
    pub credential_id: u64,
    pub api_key: Seq<char>,
    pub activated: bool,
    pub last_touch_at: u64,
    pub session_id: Option<Seq<char>>,
}

struct StickyBinding {
    api_key: String,
    credential_id: u64,
    last_request_at: u64,
}

struct KeyCount {
    api_key: String,
    count: u32,
}

struct CredEntry {
    credential_id: u64,
    active_count: u64,
    per_key: Vec<KeyCount>,
}

struct ActiveStream {
    stream_id: StreamId,
    credential_id: u64,
    api_key: String,
    activated: bool,
    last_touch_at: u64,
    session_id: Option<String>,
}

impl ActiveStream {
    spec fn model(self) -> StreamModel {
        StreamModel {
            stream_id: self.stream_id,
            credential_id: self.credential_id,
            api_key: self.api_key@,
            activated: self.activated,
            last_touch_at: self.last_touch_at,
            session_id: match self.session_id {
                Some(s) => Some(s@),
                None => None,
            },
        }
    }
}

pub struct StickyTracker {
    bindings: Vec<StickyBinding>,
    concurrency: Vec<CredEntry>,
    active_streams: Vec<ActiveStream>,
    stats: StickyStats,
    next_stream_id: u64,
    max_concurrent_per_credential: u32,
    max_concurrent_per_key: u32,
    sticky_expiry_minutes: u32,
    zombie_stream_timeout_minutes: u32,
}

// ---------------------------------------------------------------------------
// Specification model
// ---------------------------------------------------------------------------

/// Saturating increment, mirroring `u64::saturating_add(_, 1)`.
pub open spec fn sat_inc(x: u64) -> u64 {
    if x == u64::MAX {
        x
    } else {
        (x + 1) as u64
    }
}

/// Saturating addition on `u64`.
pub open spec fn sat_add(x: u64, n: u64) -> u64 {
    if x + n > u64::MAX {
        u64::MAX
    } else {
        (x + n) as u64
    }
}

pub open spec fn stream_matches(m: StreamModel, c: u64, k: Seq<char>) -> bool {
    m.credential_id == c && m.api_key == k
}

/// Number of active streams held by credential `c` for key `k`.
pub open spec fn count_streams(ms: Seq<StreamModel>, c: u64, k: Seq<char>) -> nat
    decreases ms.len(),
{
    if ms.len() == 0 {
        0
    } else {
        count_streams(ms.drop_last(), c, k) + if stream_matches(ms.last(), c, k) {
            1nat
        } else {
            0nat
        }
    }
}

/// Number of active streams held by credential `c`, over all keys.
pub open spec fn count_cred(ms: Seq<StreamModel>, c: u64) -> nat
    decreases ms.len(),
{
    if ms.len() == 0 {
        0
    } else {
        count_cred(ms.drop_last(), c) + if ms.last().credential_id == c {
            1nat
        } else {
            0nat
        }
    }
}

/// Number of active streams whose key is `k`, over all credentials.
pub open spec fn count_key(ms: Seq<StreamModel>, k: Seq<char>) -> nat
    decreases ms.len(),
{
    if ms.len() == 0 {
        0
    } else {
        count_key(ms.drop_last(), k) + if ms.last().api_key == k {
            1nat
        } else {
            0nat
        }
    }
}

/// The streams after `activate` or `touch` hits stream `sid`: its clock is
/// refreshed, its activation flag is or-ed with `set_active`, and every
/// other stream is untouched.
pub open spec fn touch_model(ms: Seq<StreamModel>, sid: StreamId, now: u64, set_active: bool) -> Seq<
    StreamModel,
> {
    ms.map_values(
        |m: StreamModel|
            if m.stream_id == sid {
                StreamModel {
                    stream_id: m.stream_id,
                    credential_id: m.credential_id,
                    api_key: m.api_key,
                    activated: m.activated || set_active,
                    last_touch_at: now,
                    session_id: m.session_id,
                }
            } else {
                m
            },
    )
}

/// The first binding for key `k`, if one exists.
spec fn find_binding(bs: Seq<StickyBinding>, k: Seq<char>) -> Option<StickyBinding>
    decreases bs.len(),
{
    if bs.len() == 0 {
        None
    } else if bs.first().api_key@ == k {
        Some(bs.first())
    } else {
        find_binding(bs.drop_first(), k)
    }
}

spec fn has_cred_entry(cc: Seq<CredEntry>, c: u64) -> bool {
    exists|j: int| 0 <= j < cc.len() && cc[j].credential_id == c
}

spec fn has_key_count(pk: Seq<KeyCount>, k: Seq<char>) -> bool {
    exists|p: int| 0 <= p < pk.len() && pk[p].api_key@ == k
}

impl StickyTracker {
    /// The active-stream table, as the model all contracts speak of.
    pub closed spec fn model(self) -> Seq<StreamModel> {
        self.active_streams@.map_values(|s: ActiveStream| s.model())
    }

    /// Streams a credential holds right now, over all keys.
    pub open spec fn active_of(self, c: u64) -> nat {
        count_cred(self.model(), c)
    }

    /// Streams a credential holds right now for one key.
    pub open spec fn key_count_of(self, c: u64, k: Seq<char>) -> nat {
        count_streams(self.model(), c, k)
    }

    /// Streams held under key `k` on any credential.
    pub open spec fn key_total_of(self, k: Seq<char>) -> nat {
        count_key(self.model(), k)
    }

    /// Total number of outstanding streams (reservations included).
    pub open spec fn total_streams(self) -> nat {
        self.model().len()
    }

    /// Whether a stream with this id is outstanding.
    pub open spec fn has_stream(self, sid: StreamId) -> bool {
        exists|i: int| 0 <= i < self.model().len() && self.model()[i].stream_id == sid
    }

    /// The model record of the stream with id `sid`.
    pub open spec fn stream_at(self, sid: StreamId) -> StreamModel {
        self.model()[choose|i: int|
            0 <= i < self.model().len() && self.model()[i].stream_id == sid]
    }

    /// The credential the key is currently bound to, with the binding's
    /// refresh time, as `(credential_id, last_request_at)`.
    pub closed spec fn binding_of(self, k: Seq<char>) -> Option<(u64, u64)> {
        match find_binding(self.bindings@, k) {
            Some(b) => Some((b.credential_id, b.last_request_at)),
            None => None,
        }
    }

    pub closed spec fn bindings_len(self) -> nat {
        self.bindings@.len()
    }

    pub closed spec fn spec_stats(self) -> StickyStats {
        self.stats
    }

    pub closed spec fn spec_next_stream_id(self) -> u64 {
        self.next_stream_id
    }

    pub closed spec fn spec_max_per_credential(self) -> u32 {
        self.max_concurrent_per_credential
    }

    pub closed spec fn spec_max_per_key(self) -> u32 {
        self.max_concurrent_per_key
    }

    pub closed spec fn spec_sticky_expiry_minutes(self) -> u32 {
        self.sticky_expiry_minutes
    }

    pub closed spec fn spec_zombie_timeout_minutes(self) -> u32 {
        self.zombie_stream_timeout_minutes
    }

    /// Configuration fields that no operation changes.
    pub open spec fn same_config(self, other: Self) -> bool {
        self.spec_max_per_credential() == other.spec_max_per_credential()
            && self.spec_max_per_key() == other.spec_max_per_key()
            && self.spec_sticky_expiry_minutes() == other.spec_sticky_expiry_minutes()
            && self.spec_zombie_timeout_minutes() == other.spec_zombie_timeout_minutes()
    }

    /// Every binding is unchanged between the two states.
    pub open spec fn same_bindings(self, other: Self) -> bool {
        forall|k: Seq<char>| self.binding_of(k) == #[trigger] other.binding_of(k)
    }

    /// Every binding but the one for `k0` is unchanged.
    pub open spec fn same_bindings_except(self, other: Self, k0: Seq<char>) -> bool {
        forall|k: Seq<char>| k != k0 ==> self.binding_of(k) == #[trigger] other.binding_of(k)
    }

    /// Well-formedness: ids are unique, stream ids stay below the allocator,
    /// and the derived counters agree with the active-stream table.
    pub closed spec fn wf(self) -> bool {
        let ms = self.model();
        let cc = self.concurrency@;
        let bs = self.bindings@;
        &&& forall|i: int, j: int| 0 <= i < j < ms.len() ==> ms[i].stream_id < ms[j].stream_id
        &&& forall|i: int| 0 <= i < ms.len() ==> #[trigger] ms[i].stream_id < self.next_stream_id
        &&& self.next_stream_id >= 1
        &&& forall|i: int, j: int| 0 <= i < j < bs.len() ==> bs[i].api_key@ != bs[j].api_key@
        &&& forall|i: int, j: int|
            0 <= i < j < cc.len() ==> cc[i].credential_id != cc[j].credential_id
        &&& forall|i: int|
            0 <= i < cc.len() ==> #[trigger] cc[i].active_count == count_cred(
                ms,
                cc[i].credential_id,
            )
        &&& forall|i: int| 0 <= i < cc.len() ==> #[trigger] cc[i].per_key@.len() > 0
        &&& forall|i: int, p: int|
            0 <= i < cc.len() && 0 <= p < cc[i].per_key@.len() ==> #[trigger] cc[i].per_key@[p].count
                == count_streams(ms, cc[i].credential_id, cc[i].per_key@[p].api_key@)
        &&& forall|i: int, p: int|
            0 <= i < cc.len() && 0 <= p < cc[i].per_key@.len() ==> #[trigger] cc[i].per_key@[p].count
                > 0
        &&& forall|i: int, p: int, q: int|
            0 <= i < cc.len() && 0 <= p < q < cc[i].per_key@.len() ==> cc[i].per_key@[p].api_key@
                != cc[i].per_key@[q].api_key@
        &&& forall|c: u64| !has_cred_entry(cc, c) ==> #[trigger] count_cred(ms, c) == 0
        &&& forall|i: int, k: Seq<char>|
            0 <= i < cc.len() && !has_key_count(cc[i].per_key@, k) ==> #[trigger] count_streams(
                ms,
                cc[i].credential_id,
                k,
            ) == 0
    }
}

// ---------------------------------------------------------------------------
// Counting lemmas
// ---------------------------------------------------------------------------

proof fn lemma_count_push(ms: Seq<StreamModel>, m: StreamModel, c: u64, k: Seq<char>)
    ensures
        count_streams(ms.push(m), c, k) == count_streams(ms, c, k) + if stream_matches(m, c, k) {
            1nat
        } else {
            0nat
        },
        count_cred(ms.push(m), c) == count_cred(ms, c) + if m.credential_id == c {
            1nat
        } else {
            0nat
        },
        count_key(ms.push(m), k) == count_key(ms, k) + if m.api_key == k {
            1nat
        } else {
            0nat
        },
{
    assert(ms.push(m).drop_last() =~= ms);
    assert(ms.push(m).last() == m);
}

proof fn lemma_count_remove(ms: Seq<StreamModel>, i: int, c: u64, k: Seq<char>)
    requires
        0 <= i < ms.len(),
    ensures
        count_streams(ms.remove(i), c, k) == count_streams(ms, c, k) - if stream_matches(
            ms[i],
            c,
            k,
        ) {
            1nat
        } else {
            0nat
        },
        count_cred(ms.remove(i), c) == count_cred(ms, c) - if ms[i].credential_id == c {
            1nat
        } else {
            0nat
        },
        count_key(ms.remove(i), k) == count_key(ms, k) - if ms[i].api_key == k {
            1nat
        } else {
            0nat
        },
    decreases ms.len(),
{
    if i == ms.len() - 1 {
        assert(ms.remove(i) =~= ms.drop_last());
    } else {
        let inner = ms.drop_last();
        lemma_count_remove(inner, i, c, k);
        assert(ms.remove(i) =~= inner.remove(i).push(ms.last()));
        lemma_count_push(inner.remove(i), ms.last(), c, k);
        assert(inner[i] == ms[i]);
    }
}

/// Refreshing or activating one stream changes no count.
proof fn lemma_count_touch(ms: Seq<StreamModel>, sid: StreamId, now: u64, set_active: bool, c: u64, k: Seq<char>)
    ensures
        count_streams(touch_model(ms, sid, now, set_active), c, k) == count_streams(ms, c, k),
        count_cred(touch_model(ms, sid, now, set_active), c) == count_cred(ms, c),
        count_key(touch_model(ms, sid, now, set_active), k) == count_key(ms, k),
    decreases ms.len(),
{
    if ms.len() > 0 {
        lemma_count_touch(ms.drop_last(), sid, now, set_active, c, k);
        assert(touch_model(ms, sid, now, set_active).drop_last() =~= touch_model(
            ms.drop_last(),
            sid,
            now,
            set_active,
        ));
    }
}

/// A positive count names a witness, and a zero count rules every index out.
proof fn lemma_count_witness(ms: Seq<StreamModel>, c: u64, k: Seq<char>)
    ensures
        count_streams(ms, c, k) > 0 <==> exists|i: int|
            0 <= i < ms.len() && stream_matches(ms[i], c, k),
        count_cred(ms, c) > 0 <==> exists|i: int| 0 <= i < ms.len() && ms[i].credential_id == c,
        count_key(ms, k) > 0 <==> exists|i: int| 0 <= i < ms.len() && ms[i].api_key == k,
    decreases ms.len(),
{
    if ms.len() > 0 {
        lemma_count_witness(ms.drop_last(), c, k);
        let inner = ms.drop_last();
        if count_streams(ms, c, k) > 0 && !stream_matches(ms.last(), c, k) {
            let i = choose|i: int| 0 <= i < inner.len() && stream_matches(inner[i], c, k);
            assert(stream_matches(ms[i], c, k));
        }
        if stream_matches(ms.last(), c, k) {
            assert(stream_matches(ms[ms.len() - 1], c, k));
        }
        if exists|i: int| 0 <= i < ms.len() && stream_matches(ms[i], c, k) {
            let i = choose|i: int| 0 <= i < ms.len() && stream_matches(ms[i], c, k);
            if i < ms.len() - 1 {
                assert(stream_matches(inner[i], c, k));
            }
        }
        if count_cred(ms, c) > 0 && ms.last().credential_id != c {
            let i = choose|i: int| 0 <= i < inner.len() && inner[i].credential_id == c;
            assert(ms[i].credential_id == c);
        }
        if ms.last().credential_id == c {
            assert(ms[ms.len() - 1].credential_id == c);
        }
        if exists|i: int| 0 <= i < ms.len() && ms[i].credential_id == c {
            let i = choose|i: int| 0 <= i < ms.len() && ms[i].credential_id == c;
            if i < ms.len() - 1 {
                assert(inner[i].credential_id == c);
            }
        }
        if count_key(ms, k) > 0 && ms.last().api_key != k {
            let i = choose|i: int| 0 <= i < inner.len() && inner[i].api_key == k;
            assert(ms[i].api_key == k);
        }
        if ms.last().api_key == k {
            assert(ms[ms.len() - 1].api_key == k);
        }
        if exists|i: int| 0 <= i < ms.len() && ms[i].api_key == k {
            let i = choose|i: int| 0 <= i < ms.len() && ms[i].api_key == k;
            if i < ms.len() - 1 {
                assert(inner[i].api_key == k);
            }
        }
    }
}

/// Per-key counts never exceed the per-credential count, which never
/// exceeds the table's length.
proof fn lemma_count_bounds(ms: Seq<StreamModel>, c: u64, k: Seq<char>)
    ensures
        count_streams(ms, c, k) <= count_cred(ms, c) <= ms.len(),
        count_streams(ms, c, k) <= count_key(ms, k) <= ms.len(),
    decreases ms.len(),
{
    if ms.len() > 0 {
        lemma_count_bounds(ms.drop_last(), c, k);
    }
}

/// The recursive binding search agrees with an index-level description.
proof fn lemma_find_binding_at(bs: Seq<StickyBinding>, k: Seq<char>, i: int)
    requires
        0 <= i < bs.len(),
        bs[i].api_key@ == k,
        forall|j: int| 0 <= j < i ==> bs[j].api_key@ != k,
    ensures
        find_binding(bs, k) == Some(bs[i]),
    decreases bs.len(),
{
    if i > 0 {
        lemma_find_binding_at(bs.drop_first(), k, i - 1);
    }
}

proof fn lemma_find_binding_none(bs: Seq<StickyBinding>, k: Seq<char>)
    requires
        forall|j: int| 0 <= j < bs.len() ==> bs[j].api_key@ != k,
    ensures
        find_binding(bs, k) == None::<StickyBinding>,
    decreases bs.len(),
{
    if bs.len() > 0 {
        lemma_find_binding_none(bs.drop_first(), k);
    }
}

/// Characterises the result of the binding search by indices.
proof fn lemma_find_binding_char(bs: Seq<StickyBinding>, k: Seq<char>)
    ensures
        match find_binding(bs, k) {
            Some(b) => exists|i: int|
                0 <= i < bs.len() && bs[i] == b && bs[i].api_key@ == k && (forall|j: int|
                    0 <= j < i ==> bs[j].api_key@ != k),
            None => forall|j: int| 0 <= j < bs.len() ==> bs[j].api_key@ != k,
        },
    decreases bs.len(),
{
    if bs.len() > 0 {
        if bs.first().api_key@ == k {
            assert(bs[0] == bs.first());
        } else {
            lemma_find_binding_char(bs.drop_first(), k);
            let inner = bs.drop_first();
            match find_binding(inner, k) {
                Some(b) => {
                    let i = choose|i: int|
                        0 <= i < inner.len() && inner[i] == b && inner[i].api_key@ == k && (
                        forall|j: int| 0 <= j < i ==> inner[j].api_key@ != k);
                    assert(bs[i + 1] == b);
                    assert(forall|j: int| 0 <= j < i + 1 ==> bs[j].api_key@ != k) by {
                        assert forall|j: int| 0 <= j < i + 1 implies bs[j].api_key@ != k by {
                            if j > 0 {
                                assert(inner[j - 1].api_key@ != k);
                            }
                        }
                    }
                },
                None => {
                    assert forall|j: int| 0 <= j < bs.len() implies bs[j].api_key@ != k by {
                        if j > 0 {
                            assert(inner[j - 1].api_key@ != k);
                        }
                    }
                },
            }
        }
    }
}

/// Removing an entry whose key differs from `k` leaves the search for `k`
/// unchanged.
proof fn lemma_binding_same_after_remove(bs: Seq<StickyBinding>, bi: int, k: Seq<char>)
    requires
        0 <= bi < bs.len(),
        bs[bi].api_key@ != k,
    ensures
        find_binding(bs.remove(bi), k) == find_binding(bs, k),
{
    let bs2 = bs.remove(bi);
    lemma_find_binding_char(bs, k);
    match find_binding(bs, k) {
        None => {
            assert forall|j: int| 0 <= j < bs2.len() implies bs2[j].api_key@ != k by {
                if j < bi {
                    assert(bs2[j] == bs[j]);
                } else {
                    assert(bs2[j] == bs[j + 1]);
                }
            }
            lemma_find_binding_none(bs2, k);
        },
        Some(b) => {
            let i = choose|i: int|
                0 <= i < bs.len() && bs[i] == b && bs[i].api_key@ == k && (forall|j: int|
                    0 <= j < i ==> bs[j].api_key@ != k);
            assert(i != bi);
            let i2 = if i < bi {
                i
            } else {
                i - 1
            };
            assert(bs2[i2] == bs[i]);
            assert forall|j: int| 0 <= j < i2 implies bs2[j].api_key@ != k by {
                if j < bi {
                    assert(bs2[j] == bs[j]);
                } else {
                    assert(bs2[j] == bs[j + 1]);
                }
            }
            lemma_find_binding_at(bs2, k, i2);
        },
    }
}

/// Replacing an entry by one with the same key, different from `k`, leaves
/// the search for `k` unchanged.
proof fn lemma_binding_same_after_update(bs: Seq<StickyBinding>, bi: int, b2: StickyBinding, k: Seq<char>)
    requires
        0 <= bi < bs.len(),
        bs[bi].api_key@ == b2.api_key@,
        b2.api_key@ != k,
    ensures
        find_binding(bs.update(bi, b2), k) == find_binding(bs, k),
{
    let bs2 = bs.update(bi, b2);
    lemma_find_binding_char(bs, k);
    match find_binding(bs, k) {
        None => {
            assert forall|j: int| 0 <= j < bs2.len() implies bs2[j].api_key@ != k by {
                if j != bi {
                    assert(bs2[j] == bs[j]);
                }
            }
            lemma_find_binding_none(bs2, k);
        },
        Some(b) => {
            let i = choose|i: int|
                0 <= i < bs.len() && bs[i] == b && bs[i].api_key@ == k && (forall|j: int|
                    0 <= j < i ==> bs[j].api_key@ != k);
            assert(i != bi);
            assert(bs2[i] == bs[i]);
            assert forall|j: int| 0 <= j < i implies bs2[j].api_key@ != k by {
                if j != bi {
                    assert(bs2[j] == bs[j]);
                }
            }
            lemma_find_binding_at(bs2, k, i);
        },
    }
}

/// Appending an entry whose key differs from `k` leaves the search for `k`
/// unchanged.
proof fn lemma_binding_same_after_push(bs: Seq<StickyBinding>, b2: StickyBinding, k: Seq<char>)
    requires
        b2.api_key@ != k,
    ensures
        find_binding(bs.push(b2), k) == find_binding(bs, k),
{
    let bs2 = bs.push(b2);
    lemma_find_binding_char(bs, k);
    match find_binding(bs, k) {
        None => {
            assert forall|j: int| 0 <= j < bs2.len() implies bs2[j].api_key@ != k by {
                if j < bs.len() {
                    assert(bs2[j] == bs[j]);
                } else {
                    assert(bs2[j] == b2);
                }
            }
            lemma_find_binding_none(bs2, k);
        },
        Some(b) => {
            let i = choose|i: int|
                0 <= i < bs.len() && bs[i] == b && bs[i].api_key@ == k && (forall|j: int|
                    0 <= j < i ==> bs[j].api_key@ != k);
            assert(bs2[i] == bs[i]);
            assert forall|j: int| 0 <= j < i implies bs2[j].api_key@ != k by {
                assert(bs2[j] == bs[j]);
            }
            lemma_find_binding_at(bs2, k, i);
        },
    }
}

// ---------------------------------------------------------------------------
// Acquisition predicates
// ---------------------------------------------------------------------------

pub open spec fn opt_view(o: Option<String>) -> Option<Seq<char>> {
    match o {
        Some(s) => Some(s@),
        None => None,
    }
}

pub open spec fn avail_contains(avail: Seq<AvailableCredential>, c: u64) -> bool {
    exists|i: int| 0 <= i < avail.len() && avail[i].id == c
}

/// Credential `avail[i]` still has a free slot.
pub open spec fn eligible_at(t: StickyTracker, avail: Seq<AvailableCredential>, i: int) -> bool {
    0 <= i < avail.len() && t.active_of(avail[i].id) < t.spec_max_per_credential()
}

/// Credential `avail[i]` has more than half of its slots free.
pub open spec fn preferred_at(t: StickyTracker, avail: Seq<AvailableCredential>, i: int) -> bool {
    eligible_at(t, avail, i) && 2 * t.active_of(avail[i].id) < t.spec_max_per_credential()
}

/// Index `i` is the one global selection settles on: taken from the
/// preferred bucket when that bucket is inhabited, otherwise from the
/// fallback bucket; lowest active count first, ties broken by position.
pub open spec fn best_choice(t: StickyTracker, avail: Seq<AvailableCredential>, i: int) -> bool {
    if exists|j: int| preferred_at(t, avail, j) {
        preferred_at(t, avail, i) && forall|j: int|
            preferred_at(t, avail, j) ==> (t.active_of(avail[i].id) < t.active_of(avail[j].id) || (
            t.active_of(avail[i].id) == t.active_of(avail[j].id) && i <= j))
    } else {
        eligible_at(t, avail, i) && forall|j: int|
            eligible_at(t, avail, j) ==> (t.active_of(avail[i].id) < t.active_of(avail[j].id) || (
            t.active_of(avail[i].id) == t.active_of(avail[j].id) && i <= j))
    }
}

/// The key's binding points at an available credential with a free slot:
/// the request is served there and counted as a hit.
pub open spec fn sticky_hit(t: StickyTracker, avail: Seq<AvailableCredential>, k: Seq<char>) -> bool {
    match t.binding_of(k) {
        Some((c, _)) => avail_contains(avail, c) && t.active_of(c) < t.spec_max_per_credential(),
        None => false,
    }
}

/// The bound credential is full, but this key already holds a stream on it
/// and stays under its own cap: one more stream is allowed.
pub open spec fn sticky_queue_jump(
    t: StickyTracker,
    avail: Seq<AvailableCredential>,
    k: Seq<char>,
) -> bool {
    match t.binding_of(k) {
        Some((c, _)) => avail_contains(avail, c) && t.active_of(c) >= t.spec_max_per_credential()
            && 0 < t.key_count_of(c, k) < t.spec_max_per_key(),
        None => false,
    }
}

/// The binding is dropped before global selection: its credential is gone
/// from the offered list, or it is full and this key holds nothing on it.
pub open spec fn sticky_unbind(t: StickyTracker, avail: Seq<AvailableCredential>, k: Seq<char>) -> bool {
    match t.binding_of(k) {
        Some((c, _)) => !avail_contains(avail, c) || (t.active_of(c)
            >= t.spec_max_per_credential() && t.key_count_of(c, k) == 0),
        None => false,
    }
}

/// The request reaches global selection.
pub open spec fn falls_through(t: StickyTracker, avail: Seq<AvailableCredential>, k: Seq<char>) -> bool {
    !sticky_hit(t, avail, k) && !sticky_queue_jump(t, avail, k)
}

/// A stream the background sweeper reclaims: activated and idle past the
/// zombie timeout, or a reservation older than the hard two-minute limit.
pub open spec fn is_zombie(m: StreamModel, now: u64, zombie_timeout_minutes: u32) -> bool {
    if m.activated {
        m.last_touch_at + zombie_timeout_minutes * 60000 < now
    } else {
        m.last_touch_at + RESERVATION_TIMEOUT_MILLIS < now
    }
}

/// The stream table with every zombie removed, order kept.
pub open spec fn drop_zombies(ms: Seq<StreamModel>, now: u64, zt: u32) -> Seq<StreamModel>
    decreases ms.len(),
{
    if ms.len() == 0 {
        ms
    } else {
        let rest = drop_zombies(ms.drop_last(), now, zt);
        if is_zombie(ms.last(), now, zt) {
            rest
        } else {
            rest.push(ms.last())
        }
    }
}

/// A binding older than the sticky expiry.
pub open spec fn binding_expired(last_request_at: u64, now: u64, expiry_minutes: u32) -> bool {
    last_request_at + expiry_minutes * 60000 < now
}

/// An expired binding may only go once no active stream references its key.
spec fn binding_removable(b: StickyBinding, now: u64, em: u32, ms: Seq<StreamModel>) -> bool {
    binding_expired(b.last_request_at, now, em) && count_key(ms, b.api_key@) == 0
}

/// The binding table with every removable binding dropped, order kept.
spec fn keep_bindings(bs: Seq<StickyBinding>, now: u64, em: u32, ms: Seq<StreamModel>) -> Seq<
    StickyBinding,
>
    decreases bs.len(),
{
    if bs.len() == 0 {
        bs
    } else {
        let rest = keep_bindings(bs.drop_last(), now, em, ms);
        if binding_removable(bs.last(), now, em, ms) {
            rest
        } else {
            rest.push(bs.last())
        }
    }
}

proof fn lemma_keep_bindings_step(bs: Seq<StickyBinding>, j: int, now: u64, em: u32, ms: Seq<StreamModel>)
    requires
        0 <= j < bs.len(),
    ensures
        keep_bindings(bs.take(j + 1), now, em, ms) == if binding_removable(bs[j], now, em, ms) {
            keep_bindings(bs.take(j), now, em, ms)
        } else {
            keep_bindings(bs.take(j), now, em, ms).push(bs[j])
        },
{
    assert(bs.take(j + 1).drop_last() =~= bs.take(j));
    assert(bs.take(j + 1).last() == bs[j]);
}

/// The kept bindings are exactly the non-removable entries of the old
/// table, and distinct keys stay distinct.
proof fn lemma_keep_bindings_props(bs: Seq<StickyBinding>, now: u64, em: u32, ms: Seq<StreamModel>)
    requires
        forall|j1: int, j2: int| 0 <= j1 < j2 < bs.len() ==> bs[j1].api_key@ != bs[j2].api_key@,
    ensures
        keep_bindings(bs, now, em, ms).len() <= bs.len(),
        forall|i: int|
            0 <= i < keep_bindings(bs, now, em, ms).len() ==> exists|j: int|
                0 <= j < bs.len() && bs[j] == #[trigger] keep_bindings(bs, now, em, ms)[i]
                    && !binding_removable(bs[j], now, em, ms),
        forall|j: int|
            0 <= j < bs.len() && !binding_removable(#[trigger] bs[j], now, em, ms) ==> exists|i: int|
                0 <= i < keep_bindings(bs, now, em, ms).len() && keep_bindings(bs, now, em, ms)[i]
                    == bs[j],
        forall|i1: int, i2: int|
            0 <= i1 < i2 < keep_bindings(bs, now, em, ms).len() ==> keep_bindings(
                bs,
                now,
                em,
                ms,
            )[i1].api_key@ != keep_bindings(bs, now, em, ms)[i2].api_key@,
    decreases bs.len(),
{
    if bs.len() > 0 {
        let inner = bs.drop_last();
        lemma_keep_bindings_props(inner, now, em, ms);
        let kin = keep_bindings(inner, now, em, ms);
        let kp = keep_bindings(bs, now, em, ms);
        assert forall|j: int| 0 <= j < inner.len() implies inner[j] == bs[j] by {}
        if binding_removable(bs.last(), now, em, ms) {
            assert(kp == kin);
            assert forall|j: int|
                0 <= j < bs.len() && !binding_removable(#[trigger] bs[j], now, em, ms)
                implies exists|i: int| 0 <= i < kp.len() && kp[i] == bs[j] by {
                assert(j < bs.len() - 1);
                assert(inner[j] == bs[j]);
            }
        } else {
            assert(kp == kin.push(bs.last()));
            assert forall|i: int| 0 <= i < kp.len() implies exists|j: int|
                0 <= j < bs.len() && bs[j] == #[trigger] kp[i] && !binding_removable(
                bs[j],
                now,
                em,
                ms,
            ) by {
                if i < kin.len() {
                    assert(kp[i] == kin[i]);
                    let j = choose|j: int|
                        0 <= j < inner.len() && inner[j] == kin[i] && !binding_removable(
                            inner[j],
                            now,
                            em,
                            ms,
                        );
                    assert(bs[j] == kp[i]);
                } else {
                    assert(kp[i] == bs[bs.len() - 1]);
                }
            }
            assert forall|j: int|
                0 <= j < bs.len() && !binding_removable(#[trigger] bs[j], now, em, ms)
                implies exists|i: int| 0 <= i < kp.len() && kp[i] == bs[j] by {
                if j < bs.len() - 1 {
                    assert(inner[j] == bs[j]);
                    let i = choose|i: int| 0 <= i < kin.len() && kin[i] == inner[j];
                    assert(kp[i] == bs[j]);
                } else {
                    assert(kp[kp.len() - 1] == bs[j]);
                }
            }
            assert forall|i1: int, i2: int| 0 <= i1 < i2 < kp.len() implies kp[i1].api_key@
                != kp[i2].api_key@ by {
                if i2 < kin.len() {
                    assert(kp[i1] == kin[i1] && kp[i2] == kin[i2]);
                } else {
                    assert(kp[i2] == bs.last());
                    assert(kp[i1] == kin[i1]);
                    let j = choose|j: int|
                        0 <= j < inner.len() && inner[j] == kin[i1] && !binding_removable(
                            inner[j],
                            now,
                            em,
                            ms,
                        );
                    assert(bs[j].api_key@ != bs[bs.len() - 1].api_key@);
                }
            }
        }
    }
}

/// How the binding search answers after the sweep, for every key.
#[verifier::rlimit(60)]
proof fn lemma_find_kept(bs: Seq<StickyBinding>, now: u64, em: u32, ms: Seq<StreamModel>, k: Seq<char>)
    requires
        forall|j1: int, j2: int| 0 <= j1 < j2 < bs.len() ==> bs[j1].api_key@ != bs[j2].api_key@,
    ensures
        find_binding(keep_bindings(bs, now, em, ms), k) == (match find_binding(bs, k) {
            Some(b) => if binding_removable(b, now, em, ms) {
                None
            } else {
                Some(b)
            },
            None => None::<StickyBinding>,
        }),
{
    lemma_keep_bindings_props(bs, now, em, ms);
    lemma_find_binding_char(bs, k);
    let kp = keep_bindings(bs, now, em, ms);
    match find_binding(bs, k) {
        None => {
            assert forall|i: int| 0 <= i < kp.len() implies kp[i].api_key@ != k by {
                let j = choose|j: int|
                    0 <= j < bs.len() && bs[j] == kp[i] && !binding_removable(bs[j], now, em, ms);
                assert(bs[j].api_key@ != k);
            }
            lemma_find_binding_none(kp, k);
        },
        Some(b) => {
            let jb = choose|jb: int|
                0 <= jb < bs.len() && bs[jb] == b && bs[jb].api_key@ == k && (forall|j: int|
                    0 <= j < jb ==> bs[j].api_key@ != k);
            if binding_removable(b, now, em, ms) {
                assert forall|i: int| 0 <= i < kp.len() implies kp[i].api_key@ != k by {
                    if kp[i].api_key@ == k {
                        let j = choose|j: int|
                            0 <= j < bs.len() && bs[j] == kp[i] && !binding_removable(
                                bs[j],
                                now,
                                em,
                                ms,
                            );
                        assert(j == jb) by {
                            if j != jb {
                                assert(bs[j].api_key@ != bs[jb].api_key@);
                            }
                        }
                        assert(false);
                    }
                }
                lemma_find_binding_none(kp, k);
            } else {
                let ib = choose|ib: int| 0 <= ib < kp.len() && kp[ib] == bs[jb];
                assert forall|i: int| 0 <= i < ib implies kp[i].api_key@ != k by {
                    if kp[i].api_key@ == k {
                        assert(kp[i].api_key@ != kp[ib].api_key@);
                    }
                }
                lemma_find_binding_at(kp, k, ib);
            }
        },
    }
}

/// One row of `stream_snapshots` faithfully mirrors one model stream.
pub open spec fn stream_snapshot_matches(m: StreamModel, s: StreamSnapshot, now: u64) -> bool {
    &&& s.stream_id == m.stream_id
    &&& s.credential_id == m.credential_id
    &&& s.api_key@ == m.api_key
    &&& opt_view(s.session_id) == m.session_id
    &&& s.activated == m.activated
    &&& s.started_at_secs_ago == if now >= m.last_touch_at {
        ((now - m.last_touch_at) / 1000) as u64
    } else {
        0u64
    }
}

/// One step of the zombie filter.
proof fn lemma_drop_zombies_step(ms: Seq<StreamModel>, j: int, now: u64, zt: u32)
    requires
        0 <= j < ms.len(),
    ensures
        drop_zombies(ms.take(j + 1), now, zt) == if is_zombie(ms[j], now, zt) {
            drop_zombies(ms.take(j), now, zt)
        } else {
            drop_zombies(ms.take(j), now, zt).push(ms[j])
        },
{
    assert(ms.take(j + 1).drop_last() =~= ms.take(j));
    assert(ms.take(j + 1).last() == ms[j]);
}

/// Global selection looks only at the stream table and the per-credential
/// cap, so two states agreeing on those make the same choice.
proof fn lemma_selection_state_agnostic(
    a: StickyTracker,
    b: StickyTracker,
    avail: Seq<AvailableCredential>,
)
    requires
        a.model() == b.model(),
        a.spec_max_per_credential() == b.spec_max_per_credential(),
    ensures
        forall|i: int| #[trigger] eligible_at(a, avail, i) == eligible_at(b, avail, i),
        forall|i: int| #[trigger] preferred_at(a, avail, i) == preferred_at(b, avail, i),
        forall|i: int| #[trigger] best_choice(a, avail, i) == best_choice(b, avail, i),
{
    assert forall|c: u64| #[trigger] a.active_of(c) == b.active_of(c) by {}
    assert forall|i: int| #[trigger] eligible_at(a, avail, i) == eligible_at(b, avail, i) by {}
    assert forall|i: int| #[trigger] preferred_at(a, avail, i) == preferred_at(b, avail, i) by {}
    assert forall|i: int| #[trigger] best_choice(a, avail, i) == best_choice(b, avail, i) by {
        let has_pref_a = exists|j: int| preferred_at(a, avail, j);
        let has_pref_b = exists|j: int| preferred_at(b, avail, j);
        assert(has_pref_a == has_pref_b) by {
            if has_pref_a {
                let w = choose|w: int| preferred_at(a, avail, w);
                assert(preferred_at(b, avail, w));
            }
            if has_pref_b {
                let w = choose|w: int| preferred_at(b, avail, w);
                assert(preferred_at(a, avail, w));
            }
        }
        if best_choice(a, avail, i) {
            if has_pref_a {
                assert forall|j: int| preferred_at(b, avail, j) implies (b.active_of(avail[i].id)
                    < b.active_of(avail[j].id) || (b.active_of(avail[i].id) == b.active_of(
                    avail[j].id,
                ) && i <= j)) by {
                    assert(preferred_at(a, avail, j));
                }
            } else {
                assert forall|j: int| eligible_at(b, avail, j) implies (b.active_of(avail[i].id)
                    < b.active_of(avail[j].id) || (b.active_of(avail[i].id) == b.active_of(
                    avail[j].id,
                ) && i <= j)) by {
                    assert(eligible_at(a, avail, j));
                }
            }
        }
        if best_choice(b, avail, i) {
            if has_pref_b {
                assert forall|j: int| preferred_at(a, avail, j) implies (a.active_of(avail[i].id)
                    < a.active_of(avail[j].id) || (a.active_of(avail[i].id) == a.active_of(
                    avail[j].id,
                ) && i <= j)) by {
                    assert(preferred_at(b, avail, j));
                }
            } else {
                assert forall|j: int| eligible_at(a, avail, j) implies (a.active_of(avail[i].id)
                    < a.active_of(avail[j].id) || (a.active_of(avail[i].id) == a.active_of(
                    avail[j].id,
                ) && i <= j)) by {
                    assert(eligible_at(b, avail, j));
                }
            }
        }
    }
}

/// Credential `c` appears in the snapshot rows.
pub open spec fn listed(cs: Seq<CredentialSnapshot>, c: u64) -> bool {
    exists|j: int| 0 <= j < cs.len() && cs[j].id == c
}

proof fn lemma_listed_insert(cs: Seq<CredentialSnapshot>, pos: int, e: CredentialSnapshot, c: u64)
    requires
        0 <= pos <= cs.len(),
        listed(cs, c) || e.id == c,
    ensures
        listed(cs.insert(pos, e), c),
{
    if e.id == c {
        assert(cs.insert(pos, e)[pos] == e);
    } else {
        let j = choose|j: int| 0 <= j < cs.len() && cs[j].id == c;
        if j < pos {
            assert(cs.insert(pos, e)[j] == cs[j]);
        } else {
            assert(cs.insert(pos, e)[j + 1] == cs[j]);
        }
    }
}

// ---------------------------------------------------------------------------
// Executable operations
// ---------------------------------------------------------------------------

/// Whether the offered list names credential `c`.
fn contains_credential(available: &Vec<AvailableCredential>, c: u64) -> (r: bool)
    ensures
        r == avail_contains(available@, c),
{
    let n = available.len();
    let mut i: usize = 0;
    while i < n
        invariant
            n == available@.len(),
            i <= n,
            forall|j: int| 0 <= j < i ==> available@[j].id != c,
        decreases n - i,
    {
        if available[i].id == c {
            return true;
        }
        i = i + 1;
    }
    false
}

impl StickyTracker {
    pub fn new(
        max_concurrent_per_credential: u32,
        max_concurrent_per_key: u32,
        sticky_expiry_minutes: u32,
        zombie_stream_timeout_minutes: u32,
    ) -> (t: Self)
        ensures
            t.wf(),
            t.model() == Seq::<StreamModel>::empty(),
            forall|k: Seq<char>| #[trigger] t.binding_of(k) == None::<(u64, u64)>,
            t.bindings_len() == 0,
            t.spec_stats() == (StickyStats {
                hits: 0,
                assignments: 0,
                unbinds: 0,
                queue_jumps: 0,
                rejections_429: 0,
            }),
            t.spec_next_stream_id() == 1,
            t.spec_max_per_credential() == max_concurrent_per_credential,
            t.spec_max_per_key() == max_concurrent_per_key,
            t.spec_sticky_expiry_minutes() == sticky_expiry_minutes,
            t.spec_zombie_timeout_minutes() == zombie_stream_timeout_minutes,
    {
        let t = StickyTracker {
            bindings: Vec::new(),
            concurrency: Vec::new(),
            active_streams: Vec::new(),
            stats: StickyStats { hits: 0, assignments: 0, unbinds: 0, queue_jumps: 0, rejections_429: 0 },
            next_stream_id: 1,
            max_concurrent_per_credential,
            max_concurrent_per_key,
            sticky_expiry_minutes,
            zombie_stream_timeout_minutes,
        };
        proof {
            assert(t.model() =~= Seq::<StreamModel>::empty());
            assert forall|k: Seq<char>| #[trigger] t.binding_of(k) == None::<(u64, u64)> by {
                lemma_find_binding_none(t.bindings@, k);
            }
            assert forall|c: u64| #[trigger] count_cred(t.model(), c) == 0 by {}
        }
        t
    }

    /// Index of the binding for `key`, agreeing with the spec-level search.
    fn find_binding_index(&self, key: &String) -> (r: Option<usize>)
        ensures
            match r {
                Some(i) => i < self.bindings@.len() && self.bindings@[i as int].api_key@ == key@
                    && find_binding(self.bindings@, key@) == Some(self.bindings@[i as int]),
                None => find_binding(self.bindings@, key@) == None::<StickyBinding>,
            },
    {
        let n = self.bindings.len();
        let mut i: usize = 0;
        while i < n
            invariant
                n == self.bindings@.len(),
                i <= n,
                forall|j: int| 0 <= j < i ==> self.bindings@[j].api_key@ != key@,
            decreases n - i,
        {
            if self.bindings[i].api_key == *key {
                proof {
                    lemma_find_binding_at(self.bindings@, key@, i as int);
                }
                return Some(i);
            }
            i = i + 1;
        }
        proof {
            lemma_find_binding_none(self.bindings@, key@);
        }
        None
    }

    /// Index of the stream with id `sid` in the table.
    fn find_stream_index(&self, sid: StreamId) -> (r: Option<usize>)
        ensures
            match r {
                Some(i) => i < self.model().len() && self.model()[i as int].stream_id == sid,
                None => !self.has_stream(sid),
            },
    {
        let n = self.active_streams.len();
        let mut i: usize = 0;
        while i < n
            invariant
                n == self.active_streams@.len(),
                i <= n,
                forall|j: int| 0 <= j < i ==> self.model()[j].stream_id != sid,
            decreases n - i,
        {
            if self.active_streams[i].stream_id == sid {
                proof {
                    assert(self.model()[i as int].stream_id == sid);
                }
                return Some(i);
            }
            i = i + 1;
        }
        None
    }

    /// Index of the concurrency entry for credential `c`.
    fn find_cred_index(&self, c: u64) -> (r: Option<usize>)
        ensures
            match r {
                Some(i) => i < self.concurrency@.len() && self.concurrency@[i as int].credential_id
                    == c,
                None => !has_cred_entry(self.concurrency@, c),
            },
    {
        let n = self.concurrency.len();
        let mut i: usize = 0;
        while i < n
            invariant
                n == self.concurrency@.len(),
                i <= n,
                forall|j: int| 0 <= j < i ==> self.concurrency@[j].credential_id != c,
            decreases n - i,
        {
            if self.concurrency[i].credential_id == c {
                return Some(i);
            }
            i = i + 1;
        }
        None
    }

    /// Marks the stream as activated and refreshes its clock.  Counters are
    /// untouched: the slot was already counted at reservation.
    pub fn activate_stream(&mut self, stream_id: StreamId, now: u64)
        requires
            old(self).wf(),
        ensures
            final(self).wf(),
            final(self).model() == touch_model(old(self).model(), stream_id, now, true),
            final(self).same_bindings(*old(self)),
            final(self).spec_stats() == old(self).spec_stats(),
            final(self).spec_next_stream_id() == old(self).spec_next_stream_id(),
            final(self).same_config(*old(self)),
    {
        self.touch_inner(stream_id, now, true);
    }

    /// Refreshes the stream's clock without changing its activation flag.
    pub fn touch_stream(&mut self, stream_id: StreamId, now: u64)
        requires
            old(self).wf(),
        ensures
            final(self).wf(),
            final(self).model() == touch_model(old(self).model(), stream_id, now, false),
            final(self).same_bindings(*old(self)),
            final(self).spec_stats() == old(self).spec_stats(),
            final(self).spec_next_stream_id() == old(self).spec_next_stream_id(),
            final(self).same_config(*old(self)),
    {
        self.touch_inner(stream_id, now, false);
    }

    fn touch_inner(&mut self, stream_id: StreamId, now: u64, set_active: bool)
        requires
            old(self).wf(),
        ensures
            final(self).wf(),
            final(self).model() == touch_model(old(self).model(), stream_id, now, set_active),
            final(self).same_bindings(*old(self)),
            final(self).spec_stats() == old(self).spec_stats(),
            final(self).spec_next_stream_id() == old(self).spec_next_stream_id(),
            final(self).same_config(*old(self)),
    {
        let ghost pre = *self;
        let idx = self.find_stream_index(stream_id);
        match idx {
            None => {
                proof {
                    assert(touch_model(pre.model(), stream_id, now, set_active) =~= pre.model());
                }
            },
            Some(i) => {
                let mut s = self.active_streams.remove(i);
                s.last_touch_at = now;
                if set_active {
                    s.activated = true;
                }
                self.active_streams.insert(i, s);
                proof {
                    assert(final(self).model() =~= touch_model(
                        pre.model(),
                        stream_id,
                        now,
                        set_active,
                    )) by {
                        assert forall|j: int|
                            0 <= j < self.model().len() implies self.model()[j] == touch_model(
                            pre.model(),
                            stream_id,
                            now,
                            set_active,
                        )[j] by {
                            if j != i {
                                assert(pre.model()[j].stream_id != stream_id);
                            }
                        }
                    }
                    assert(final(self).wf()) by {
                        let ms2 = self.model();
                        let ms = pre.model();
                        assert(ms2.len() == ms.len());
                        assert forall|j: int| 0 <= j < ms2.len() implies (#[trigger] ms2[j]).stream_id
                            == ms[j].stream_id && ms2[j].credential_id == ms[j].credential_id
                            && ms2[j].api_key == ms[j].api_key by {}
                        assert forall|c: u64, k: Seq<char>|
                            #[trigger] count_streams(ms2, c, k) == count_streams(ms, c, k) by {
                            lemma_count_touch(ms, stream_id, now, set_active, c, k);
                        }
                        assert forall|c: u64| #[trigger] count_cred(ms2, c) == count_cred(
                            ms,
                            c,
                        ) by {
                            lemma_count_touch(ms, stream_id, now, set_active, c, Seq::empty());
                        }
                    }
                }
            },
        }
    }

    /// Removes a reservation that never saw an upstream response and
    /// releases its concurrency credit.
    pub fn cancel_reservation(&mut self, stream_id: StreamId)
        requires
            old(self).wf(),
        ensures
            final(self).wf(),
            final(self).same_bindings(*old(self)),
            final(self).spec_stats() == old(self).spec_stats(),
            final(self).spec_next_stream_id() == old(self).spec_next_stream_id(),
            final(self).same_config(*old(self)),
            !final(self).has_stream(stream_id),
            !old(self).has_stream(stream_id) ==> final(self).model() == old(self).model(),
            old(self).has_stream(stream_id) ==> exists|i: int|
                0 <= i < old(self).model().len() && old(self).model()[i].stream_id == stream_id
                    && final(self).model() == old(self).model().remove(i),
            old(self).has_stream(stream_id) ==> final(self).total_streams() + 1 == old(
                self,
            ).total_streams(),
            old(self).has_stream(stream_id) ==> forall|c: u64|
                #[trigger] final(self).active_of(c) + (if old(self).stream_at(
                    stream_id,
                ).credential_id == c {
                    1int
                } else {
                    0int
                }) == old(self).active_of(c),
            old(self).has_stream(stream_id) ==> forall|c: u64, k: Seq<char>|
                #[trigger] final(self).key_count_of(c, k) + (if old(self).stream_at(
                    stream_id,
                ).credential_id == c && old(self).stream_at(stream_id).api_key == k {
                    1int
                } else {
                    0int
                }) == old(self).key_count_of(c, k),
    {
        self.remove_stream_inner(stream_id);
    }

    /// Removes the stream and decrements the owning credential's counters,
    /// whether or not it was ever activated.  Removing a stream id that is
    /// no longer outstanding changes nothing, so the release paired with a
    /// reservation takes effect exactly once.
    pub fn deactivate_stream(&mut self, stream_id: StreamId)
        requires
            old(self).wf(),
        ensures
            final(self).wf(),
            final(self).same_bindings(*old(self)),
            final(self).spec_stats() == old(self).spec_stats(),
            final(self).spec_next_stream_id() == old(self).spec_next_stream_id(),
            final(self).same_config(*old(self)),
            !final(self).has_stream(stream_id),
            !old(self).has_stream(stream_id) ==> final(self).model() == old(self).model(),
            old(self).has_stream(stream_id) ==> exists|i: int|
                0 <= i < old(self).model().len() && old(self).model()[i].stream_id == stream_id
                    && final(self).model() == old(self).model().remove(i),
            old(self).has_stream(stream_id) ==> final(self).total_streams() + 1 == old(
                self,
            ).total_streams(),
            old(self).has_stream(stream_id) ==> forall|c: u64|
                #[trigger] final(self).active_of(c) + (if old(self).stream_at(
                    stream_id,
                ).credential_id == c {
                    1int
                } else {
                    0int
                }) == old(self).active_of(c),
            old(self).has_stream(stream_id) ==> forall|c: u64, k: Seq<char>|
                #[trigger] final(self).key_count_of(c, k) + (if old(self).stream_at(
                    stream_id,
                ).credential_id == c && old(self).stream_at(stream_id).api_key == k {
                    1int
                } else {
                    0int
                }) == old(self).key_count_of(c, k),
    {
        self.remove_stream_inner(stream_id);
    }

    fn remove_stream_inner(&mut self, stream_id: StreamId)
        requires
            old(self).wf(),
        ensures
            final(self).wf(),
            final(self).same_bindings(*old(self)),
            final(self).bindings@ == old(self).bindings@,
            final(self).spec_stats() == old(self).spec_stats(),
            final(self).spec_next_stream_id() == old(self).spec_next_stream_id(),
            final(self).same_config(*old(self)),
            !final(self).has_stream(stream_id),
            !old(self).has_stream(stream_id) ==> final(self).model() == old(self).model(),
            old(self).has_stream(stream_id) ==> exists|i: int|
                0 <= i < old(self).model().len() && old(self).model()[i].stream_id == stream_id
                    && final(self).model() == old(self).model().remove(i),
            old(self).has_stream(stream_id) ==> final(self).total_streams() + 1 == old(
                self,
            ).total_streams(),
            old(self).has_stream(stream_id) ==> forall|c: u64|
                #[trigger] final(self).active_of(c) + (if old(self).stream_at(
                    stream_id,
                ).credential_id == c {
                    1int
                } else {
                    0int
                }) == old(self).active_of(c),
            old(self).has_stream(stream_id) ==> forall|c: u64, k: Seq<char>|
                #[trigger] final(self).key_count_of(c, k) + (if old(self).stream_at(
                    stream_id,
                ).credential_id == c && old(self).stream_at(stream_id).api_key == k {
                    1int
                } else {
                    0int
                }) == old(self).key_count_of(c, k),
    {
        let ghost pre = *self;
        let idx = self.find_stream_index(stream_id);
        match idx {
            None => {},
            Some(i) => {
                let s = self.active_streams.remove(i);
                let ghost m0 = pre.model()[i as int];
                proof {
                    assert(self.model() =~= pre.model().remove(i as int));
                    assert(pre.stream_at(stream_id) == m0) by {
                        let w = choose|w: int|
                            0 <= w < pre.model().len() && pre.model()[w].stream_id == stream_id;
                        assert(pre.model()[w].stream_id == stream_id);
                        if w != i as int {
                            assert(false);
                        }
                    }
                    assert forall|c: u64, k: Seq<char>|
                        #[trigger] count_streams(self.model(), c, k) + (if stream_matches(m0, c, k) {
                            1int
                        } else {
                            0int
                        }) == count_streams(pre.model(), c, k) by {
                        lemma_count_remove(pre.model(), i as int, c, k);
                    }
                    assert forall|c: u64|
                        #[trigger] count_cred(self.model(), c) + (if m0.credential_id == c {
                            1int
                        } else {
                            0int
                        }) == count_cred(pre.model(), c) by {
                        lemma_count_remove(pre.model(), i as int, c, Seq::empty());
                    }
                }
                self.decrement_concurrency_for(Ghost(pre), Ghost(i as int), s.credential_id, &s.api_key);
                proof {
                    assert(!final(self).has_stream(stream_id)) by {
                        if exists|j: int|
                            0 <= j < self.model().len() && self.model()[j].stream_id == stream_id {
                            let j = choose|j: int|
                                0 <= j < self.model().len() && self.model()[j].stream_id
                                    == stream_id;
                            let ms = pre.model();
                            if j < i as int {
                                assert(ms[j].stream_id == stream_id);
                                assert(ms[j].stream_id < ms[i as int].stream_id);
                                assert(false);
                            } else {
                                assert(ms[j + 1].stream_id == stream_id);
                                assert(ms[i as int].stream_id < ms[j + 1].stream_id);
                                assert(false);
                            }
                        }
                    }
                }
            },
        }
    }

    /// Decrements the concurrency bookkeeping after the stream at index `i`
    /// of `pre`'s table, owned by credential `c0` under key `key`, has been
    /// removed from the table.
    fn decrement_concurrency_for(
        &mut self,
        Ghost(pre): Ghost<StickyTracker>,
        Ghost(i): Ghost<int>,
        c0: u64,
        key: &String,
    )
        requires
            pre.wf(),
            0 <= i < pre.model().len(),
            pre.model()[i].credential_id == c0,
            pre.model()[i].api_key == key@,
            old(self).active_streams@ == pre.active_streams@.remove(i),
            old(self).concurrency@ == pre.concurrency@,
            old(self).bindings@ == pre.bindings@,
            old(self).stats == pre.stats,
            old(self).next_stream_id == pre.next_stream_id,
            old(self).max_concurrent_per_credential == pre.max_concurrent_per_credential,
            old(self).max_concurrent_per_key == pre.max_concurrent_per_key,
            old(self).sticky_expiry_minutes == pre.sticky_expiry_minutes,
            old(self).zombie_stream_timeout_minutes == pre.zombie_stream_timeout_minutes,
        ensures
            final(self).wf(),
            final(self).active_streams@ == old(self).active_streams@,
            final(self).bindings@ == old(self).bindings@,
            final(self).stats == old(self).stats,
            final(self).next_stream_id == old(self).next_stream_id,
            final(self).max_concurrent_per_credential == old(self).max_concurrent_per_credential,
            final(self).max_concurrent_per_key == old(self).max_concurrent_per_key,
            final(self).sticky_expiry_minutes == old(self).sticky_expiry_minutes,
            final(self).zombie_stream_timeout_minutes == old(self).zombie_stream_timeout_minutes,
    {
        let ghost ms = pre.model();
        let ghost ms2 = old(self).model();
        proof {
            assert(ms2 =~= ms.remove(i));
            assert forall|c: u64, k: Seq<char>|
                #[trigger] count_streams(ms2, c, k) + (if stream_matches(ms[i], c, k) {
                    1int
                } else {
                    0int
                }) == count_streams(ms, c, k) by {
                lemma_count_remove(ms, i, c, k);
            }
            assert forall|c: u64|
                #[trigger] count_cred(ms2, c) + (if ms[i].credential_id == c {
                    1int
                } else {
                    0int
                }) == count_cred(ms, c) by {
                lemma_count_remove(ms, i, c, Seq::empty());
            }
        }
        let ci = match self.find_cred_index(c0) {
            Some(ci) => ci,
            None => {
                proof {
                    assert(count_cred(ms, c0) == 0);
                    assert(false);
                }
                return ;
            },
        };
        let mut entry = self.concurrency.remove(ci);
        let ghost cc = pre.concurrency@;
        proof {
            assert(cc[ci as int].active_count == count_cred(ms, c0));
            assert(count_cred(ms, c0) >= 1);
        }
        if entry.active_count > 0 {
            entry.active_count = entry.active_count - 1;
        }
        // find and decrement the per-key count
        let pk_n = entry.per_key.len();
        let mut p: usize = 0;
        let mut found = false;
        while p < pk_n && !found
            invariant
                pk_n == entry.per_key@.len(),
                p <= pk_n,
                forall|q: int| 0 <= q < p ==> entry.per_key@[q].api_key@ != key@,
                found ==> p < pk_n && entry.per_key@[p as int].api_key@ == key@,
            decreases pk_n - p + (if found { 0int } else { 1int }),
        {
            if entry.per_key[p].api_key == *key {
                found = true;
            } else {
                p = p + 1;
            }
        }
        let ghost pk = cc[ci as int].per_key@;
        if !found {
            proof {
                assert(!has_key_count(pk, key@));
                assert(count_streams(ms, c0, key@) == 0);
                assert(count_streams(ms, c0, key@) >= 1) by {
                    lemma_count_witness(ms, c0, key@);
                    assert(stream_matches(ms[i], c0, key@));
                }
                assert(false);
            }
            return ;
        }
        let kc = entry.per_key.remove(p);
        proof {
            assert(pk[p as int].count == count_streams(ms, c0, key@));
        }
        if kc.count > 1 {
            entry.per_key.insert(p, KeyCount { api_key: kc.api_key, count: kc.count - 1 });
        }
        // keep or drop the whole entry
        let keep = entry.active_count > 0 || entry.per_key.len() > 0;
        if keep {
            self.concurrency.insert(ci, entry);
        }
        proof {
            let cc2 = self.concurrency@;
            let pk2 = if kc.count > 1 {
                pk.update(p as int, KeyCount { api_key: pk[p as int].api_key, count: (pk[p as int].count - 1) as u32 })
            } else {
                pk.remove(p as int)
            };
            let e2 = CredEntry {
                credential_id: c0,
                active_count: (cc[ci as int].active_count - 1) as u64,
                per_key: cc[ci as int].per_key,
            };
            assert(entry.credential_id == c0);
            assert(entry.active_count == cc[ci as int].active_count - 1);
            assert(entry.per_key@ =~= pk2) by {
                if kc.count > 1 {
                    assert(entry.per_key@ =~= pk.remove(p as int).insert(
                        p as int,
                        KeyCount { api_key: pk[p as int].api_key, count: (pk[p as int].count - 1) as u32 },
                    ));
                }
            }
            if keep {
                assert(cc2 =~= cc.update(ci as int, entry)) by {
                    assert(cc2 =~= cc.remove(ci as int).insert(ci as int, entry));
                }
            } else {
                assert(cc2 =~= cc.remove(ci as int));
            }
            // old per-key keys survive in pk2, except possibly `key`
            assert forall|k: Seq<char>| k != key@ && has_key_count(pk, k) implies has_key_count(
                pk2,
                k,
            ) by {
                let q = choose|q: int| 0 <= q < pk.len() && pk[q].api_key@ == k;
                assert(q != p as int);
                if kc.count > 1 {
                    assert(pk2[q].api_key@ == k);
                } else {
                    if q < p as int {
                        assert(pk2[q].api_key@ == k);
                    } else {
                        assert(pk2[q - 1].api_key@ == k);
                    }
                }
            }
            // and every pk2 key came from pk
            assert forall|k: Seq<char>| has_key_count(pk2, k) implies has_key_count(pk, k) by {
                let q = choose|q: int| 0 <= q < pk2.len() && pk2[q].api_key@ == k;
                if kc.count > 1 {
                    assert(pk[q].api_key@ == k);
                } else {
                    if q < p as int {
                        assert(pk[q].api_key@ == k);
                    } else {
                        assert(pk[q + 1].api_key@ == k);
                    }
                }
            }
            // a kept entry is never empty
            if keep && entry.per_key@.len() == 0 {
                assert(entry.active_count > 0);
                assert(count_cred(ms2, c0) > 0);
                let w = choose|w: int| 0 <= w < ms2.len() && ms2[w].credential_id == c0;
                assert(exists|w: int| 0 <= w < ms2.len() && ms2[w].credential_id == c0) by {
                    lemma_count_witness(ms2, c0, key@);
                }
                let k2 = ms2[w].api_key;
                assert(count_streams(ms2, c0, k2) > 0) by {
                    lemma_count_witness(ms2, c0, k2);
                    assert(stream_matches(ms2[w], c0, k2));
                }
                assert(count_streams(ms, c0, k2) > 0);
                assert(has_key_count(pk, k2)) by {
                    if !has_key_count(pk, k2) {
                        assert(count_streams(ms, c0, k2) == 0);
                    }
                }
                if k2 == key@ {
                    assert(pk[p as int].count == count_streams(ms, c0, key@));
                    assert(kc.count == 1 && pk.len() == 1);
                    assert(count_streams(ms, c0, key@) == 1);
                    assert(count_streams(ms2, c0, key@) == 0);
                    assert(false);
                } else {
                    assert(has_key_count(pk2, k2));
                    assert(false);
                }
            }
            // absent credentials hold no streams
            assert forall|c: u64| !has_cred_entry(cc2, c) implies #[trigger] count_cred(ms2, c)
                == 0 by {
                if c == c0 {
                    if keep {
                        assert(cc2[ci as int].credential_id == c0);
                        assert(false);
                    } else {
                        assert(count_cred(ms2, c0) == 0);
                    }
                } else {
                    if has_cred_entry(cc, c) {
                        let j = choose|j: int| 0 <= j < cc.len() && cc[j].credential_id == c;
                        assert(j != ci as int);
                        if keep {
                            assert(cc2[j].credential_id == c);
                        } else {
                            if j < ci as int {
                                assert(cc2[j].credential_id == c);
                            } else {
                                assert(cc2[j - 1].credential_id == c);
                            }
                        }
                        assert(false);
                    }
                    assert(count_cred(ms, c) == 0);
                }
            }
            // per-entry accuracy, positivity, uniqueness, and absent keys
            assert forall|j: int| 0 <= j < cc2.len() implies #[trigger] cc2[j].active_count
                == count_cred(ms2, cc2[j].credential_id) && cc2[j].per_key@.len() > 0 by {
                if keep {
                    if j == ci as int {
                        assert(cc2[j] == entry);
                    } else {
                        assert(cc2[j] == cc[j]);
                        assert(cc[j].credential_id != c0);
                    }
                } else {
                    if j < ci as int {
                        assert(cc2[j] == cc[j]);
                        assert(cc[j].credential_id != c0);
                    } else {
                        assert(cc2[j] == cc[j + 1]);
                        assert(cc[j + 1].credential_id != c0);
                    }
                }
            }
            assert forall|j: int, q: int|
                0 <= j < cc2.len() && 0 <= q < cc2[j].per_key@.len()
                    implies #[trigger] cc2[j].per_key@[q].count == count_streams(
                    ms2,
                    cc2[j].credential_id,
                    cc2[j].per_key@[q].api_key@,
                ) && cc2[j].per_key@[q].count > 0 by {
                let old_j = if keep {
                    j
                } else {
                    if j < ci as int {
                        j
                    } else {
                        j + 1
                    }
                };
                if keep && j == ci as int {
                    assert(cc2[j] == entry);
                    if kc.count > 1 {
                        if q == p as int {
                            assert(pk2[q].count == pk[p as int].count - 1);
                            assert(pk2[q].api_key@ == key@);
                        } else {
                            assert(pk2[q] == pk[q]);
                            assert(pk[q].api_key@ != key@);
                            assert(!stream_matches(ms[i], c0, pk[q].api_key@));
                        }
                    } else {
                        let oq = if q < p as int {
                            q
                        } else {
                            q + 1
                        };
                        assert(pk2[q] == pk[oq]);
                        assert(pk[oq].api_key@ != key@);
                        assert(!stream_matches(ms[i], c0, pk[oq].api_key@));
                    }
                } else {
                    assert(cc2[j] == cc[old_j]);
                    assert(cc[old_j].credential_id != c0);
                    assert(!stream_matches(ms[i], cc[old_j].credential_id, cc[old_j].per_key@[q].api_key@));
                }
            }
            assert forall|j: int, q1: int, q2: int|
                0 <= j < cc2.len() && 0 <= q1 < q2 < cc2[j].per_key@.len()
                    implies cc2[j].per_key@[q1].api_key@ != cc2[j].per_key@[q2].api_key@ by {
                if keep && j == ci as int {
                    if kc.count > 1 {
                        assert(pk2[q1].api_key@ == pk[q1].api_key@);
                        assert(pk2[q2].api_key@ == pk[q2].api_key@);
                    } else {
                        let o1 = if q1 < p as int {
                            q1
                        } else {
                            q1 + 1
                        };
                        let o2 = if q2 < p as int {
                            q2
                        } else {
                            q2 + 1
                        };
                        assert(pk2[q1].api_key@ == pk[o1].api_key@);
                        assert(pk2[q2].api_key@ == pk[o2].api_key@);
                    }
                } else {
                    let old_j = if keep {
                        j
                    } else {
                        if j < ci as int {
                            j
                        } else {
                            j + 1
                        }
                    };
                    assert(cc2[j] == cc[old_j]);
                }
            }
            assert forall|j1: int, j2: int|
                0 <= j1 < j2 < cc2.len() implies cc2[j1].credential_id != cc2[j2].credential_id by {
                if keep {
                    assert(cc2[j1] == cc.update(ci as int, entry)[j1]);
                } else {
                    let o1 = if j1 < ci as int {
                        j1
                    } else {
                        j1 + 1
                    };
                    let o2 = if j2 < ci as int {
                        j2
                    } else {
                        j2 + 1
                    };
                    assert(cc2[j1] == cc[o1]);
                    assert(cc2[j2] == cc[o2]);
                }
            }
            assert forall|j: int, k: Seq<char>|
                0 <= j < cc2.len() && !has_key_count(cc2[j].per_key@, k)
                    implies #[trigger] count_streams(ms2, cc2[j].credential_id, k) == 0 by {
                if keep && j == ci as int {
                    assert(cc2[j] == entry);
                    if k == key@ {
                        if kc.count > 1 {
                            assert(pk2[p as int].api_key@ == key@);
                            assert(has_key_count(pk2, key@));
                            assert(false);
                        } else {
                            assert(pk[p as int].count == 1);
                            assert(count_streams(ms, c0, key@) == 1);
                            assert(stream_matches(ms[i], c0, key@));
                            assert(count_streams(ms2, c0, key@) == 0);
                        }
                    } else {
                        assert(!has_key_count(pk, k)) by {
                            if has_key_count(pk, k) {
                                assert(has_key_count(pk2, k));
                            }
                        }
                        assert(count_streams(ms, c0, k) == 0);
                        assert(count_streams(ms2, c0, k) <= count_streams(ms, c0, k));
                    }
                } else {
                    let old_j = if keep {
                        j
                    } else {
                        if j < ci as int {
                            j
                        } else {
                            j + 1
                        }
                    };
                    assert(cc2[j] == cc[old_j]);
                    assert(count_streams(ms, cc[old_j].credential_id, k) == 0);
                    assert(cc[old_j].credential_id != c0);
                    assert(!stream_matches(ms[i], cc[old_j].credential_id, k));
                }
            }
            // stream ids stay unique and below the allocator
            assert forall|a: int, b: int| 0 <= a < b < ms2.len() implies ms2[a].stream_id
                < ms2[b].stream_id by {
                let oa = if a < i {
                    a
                } else {
                    a + 1
                };
                let ob = if b < i {
                    b
                } else {
                    b + 1
                };
                assert(ms2[a] == ms[oa]);
                assert(ms2[b] == ms[ob]);
            }
            assert forall|a: int| 0 <= a < ms2.len() implies (#[trigger] ms2[a]).stream_id
                < self.next_stream_id by {
                let oa = if a < i {
                    a
                } else {
                    a + 1
                };
                assert(ms2[a] == ms[oa]);
            }
        }
    }

    /// The number of streams credential `c` holds right now.
    fn active_count_lookup(&self, c: u64) -> (r: u64)
        requires
            self.wf(),
        ensures
            r == self.active_of(c),
    {
        match self.find_cred_index(c) {
            Some(i) => self.concurrency[i].active_count,
            None => 0,
        }
    }

    /// The number of streams credential `c` holds for `key`.
    fn key_count_lookup(&self, c: u64, key: &String) -> (r: u32)
        requires
            self.wf(),
        ensures
            r == self.key_count_of(c, key@),
    {
        match self.find_cred_index(c) {
            None => {
                proof {
                    lemma_count_bounds(self.model(), c, key@);
                }
                0
            },
            Some(i) => {
                let entry = &self.concurrency[i];
                let n = entry.per_key.len();
                let mut p: usize = 0;
                while p < n
                    invariant
                        self.wf(),
                        i < self.concurrency@.len(),
                        self.concurrency@[i as int].credential_id == c,
                        entry == self.concurrency@[i as int],
                        n == entry.per_key@.len(),
                        p <= n,
                        forall|q: int| 0 <= q < p ==> entry.per_key@[q].api_key@ != key@,
                    decreases n - p,
                {
                    if entry.per_key[p].api_key == *key {
                        return entry.per_key[p].count;
                    }
                    p = p + 1;
                }
                proof {
                    assert(!has_key_count(entry.per_key@, key@));
                }
                0
            },
        }
    }

    /// Removes the binding for `key` when it points at `credential_id`.
    fn remove_binding_if_matches(&mut self, key: &String, credential_id: u64) -> (r: bool)
        requires
            old(self).wf(),
        ensures
            final(self).wf(),
            final(self).model() == old(self).model(),
            final(self).concurrency@ == old(self).concurrency@,
            final(self).spec_stats() == old(self).spec_stats(),
            final(self).spec_next_stream_id() == old(self).spec_next_stream_id(),
            final(self).same_config(*old(self)),
            r == match old(self).binding_of(key@) {
                Some((c, _)) => c == credential_id,
                None => false,
            },
            r ==> final(self).binding_of(key@) == None::<(u64, u64)>,
            !r ==> final(self).binding_of(key@) == old(self).binding_of(key@),
            final(self).same_bindings_except(*old(self), key@),
    {
        let ghost pre = *self;
        match self.find_binding_index(key) {
            None => false,
            Some(bi) => {
                if self.bindings[bi].credential_id == credential_id {
                    self.bindings.remove(bi);
                    proof {
                        let bs = pre.bindings@;
                        let bs2 = self.bindings@;
                        assert(bs2 =~= bs.remove(bi as int));
                        assert(find_binding(bs2, key@) == None::<StickyBinding>) by {
                            assert forall|j: int| 0 <= j < bs2.len() implies bs2[j].api_key@
                                != key@ by {
                                if j < bi as int {
                                    assert(bs2[j] == bs[j]);
                                } else {
                                    assert(bs2[j] == bs[j + 1]);
                                }
                            }
                            lemma_find_binding_none(bs2, key@);
                        }
                        assert forall|k: Seq<char>| k != key@ implies pre.binding_of(k)
                            == #[trigger] self.binding_of(k) by {
                            lemma_binding_same_after_remove(bs, bi as int, k);
                        }
                    }
                    true
                } else {
                    false
                }
            },
        }
    }

    /// Refreshes the binding's clock when it still points at the same
    /// credential.
    fn touch_binding(&mut self, key: &String, credential_id: u64, now: u64)
        requires
            old(self).wf(),
        ensures
            final(self).wf(),
            final(self).model() == old(self).model(),
            final(self).concurrency@ == old(self).concurrency@,
            final(self).spec_stats() == old(self).spec_stats(),
            final(self).spec_next_stream_id() == old(self).spec_next_stream_id(),
            final(self).same_config(*old(self)),
            final(self).binding_of(key@) == match old(self).binding_of(key@) {
                Some((c, t)) => if c == credential_id {
                    Some((c, now))
                } else {
                    Some((c, t))
                },
                None => None::<(u64, u64)>,
            },
            final(self).same_bindings_except(*old(self), key@),
    {
        let ghost pre = *self;
        match self.find_binding_index(key) {
            None => {},
            Some(bi) => {
                if self.bindings[bi].credential_id == credential_id {
                    let mut b = self.bindings.remove(bi);
                    b.last_request_at = now;
                    self.bindings.insert(bi, b);
                    proof {
                        let bs = pre.bindings@;
                        let bs2 = self.bindings@;
                        assert(bs2 =~= bs.update(
                            bi as int,
                            StickyBinding {
                                api_key: bs[bi as int].api_key,
                                credential_id: bs[bi as int].credential_id,
                                last_request_at: now,
                            },
                        ));
                        assert(find_binding(bs2, key@) == Some(bs2[bi as int])) by {
                            assert forall|j: int| 0 <= j < bi as int implies bs2[j].api_key@
                                != key@ by {
                                assert(bs2[j] == bs[j]);
                            }
                            lemma_find_binding_at(bs2, key@, bi as int);
                        }
                        assert forall|k: Seq<char>| k != key@ implies pre.binding_of(k)
                            == #[trigger] self.binding_of(k) by {
                            lemma_binding_same_after_update(bs, bi as int, bs2[bi as int], k);
                        }
                    }
                }
            },
        }
    }

    /// Creates or overwrites the binding for `key`.
    fn set_binding(&mut self, key: &String, credential_id: u64, now: u64)
        requires
            old(self).wf(),
        ensures
            final(self).wf(),
            final(self).model() == old(self).model(),
            final(self).concurrency@ == old(self).concurrency@,
            final(self).spec_stats() == old(self).spec_stats(),
            final(self).spec_next_stream_id() == old(self).spec_next_stream_id(),
            final(self).same_config(*old(self)),
            final(self).binding_of(key@) == Some((credential_id, now)),
            final(self).same_bindings_except(*old(self), key@),
    {
        let ghost pre = *self;
        match self.find_binding_index(key) {
            Some(bi) => {
                let b = self.bindings.remove(bi);
                self.bindings.insert(
                    bi,
                    StickyBinding { api_key: b.api_key, credential_id, last_request_at: now },
                );
                proof {
                    let bs = pre.bindings@;
                    let bs2 = self.bindings@;
                    assert(bs2 =~= bs.update(
                        bi as int,
                        StickyBinding {
                            api_key: bs[bi as int].api_key,
                            credential_id,
                            last_request_at: now,
                        },
                    ));
                    assert(find_binding(bs2, key@) == Some(bs2[bi as int])) by {
                        assert forall|j: int| 0 <= j < bi as int implies bs2[j].api_key@
                            != key@ by {
                            assert(bs2[j] == bs[j]);
                        }
                        lemma_find_binding_at(bs2, key@, bi as int);
                    }
                    assert forall|k: Seq<char>| k != key@ implies pre.binding_of(k)
                        == #[trigger] self.binding_of(k) by {
                        lemma_binding_same_after_update(bs, bi as int, bs2[bi as int], k);
                    }
                }
            },
            None => {
                self.bindings.push(
                    StickyBinding { api_key: key.clone(), credential_id, last_request_at: now },
                );
                proof {
                    let bs = pre.bindings@;
                    let bs2 = self.bindings@;
                    assert(bs2 =~= bs.push(bs2[bs.len() as int]));
                    lemma_find_binding_char(bs, key@);
                    assert(find_binding(bs2, key@) == Some(bs2[bs.len() as int])) by {
                        assert forall|j: int| 0 <= j < bs.len() implies bs2[j].api_key@ != key@ by {
                            assert(bs2[j] == bs[j]);
                        }
                        lemma_find_binding_at(bs2, key@, bs.len() as int);
                    }
                    assert forall|k: Seq<char>| k != key@ implies pre.binding_of(k)
                        == #[trigger] self.binding_of(k) by {
                        lemma_binding_same_after_push(bs, bs2[bs.len() as int], k);
                    }
                }
            },
        }
    }

    /// Reserves a slot on `credential_id` for `identity`: allocates the next
    /// stream id, inserts the not-yet-activated stream with its clock at
    /// `now`, and counts it against the credential and the key.
    fn reserve_stream(&mut self, credential_id: u64, identity: &RequestIdentity, now: u64) -> (sid:
        StreamId)
        requires
            old(self).wf(),
            old(self).spec_next_stream_id() < u64::MAX,
            old(self).total_streams() < u64::MAX,
            old(self).key_count_of(credential_id, identity.api_key@) < u32::MAX,
        ensures
            final(self).wf(),
            sid == old(self).spec_next_stream_id(),
            final(self).spec_next_stream_id() == sid + 1,
            final(self).model() == old(self).model().push(
                StreamModel {
                    stream_id: sid,
                    credential_id,
                    api_key: identity.api_key@,
                    activated: false,
                    last_touch_at: now,
                    session_id: opt_view(identity.session_id),
                },
            ),
            final(self).same_bindings(*old(self)),
            final(self).spec_stats() == old(self).spec_stats(),
            final(self).same_config(*old(self)),
    {
        let ghost pre = *self;
        let sid = self.next_stream_id;
        self.next_stream_id = sid + 1;
        let session = match &identity.session_id {
            Some(s) => Some(s.clone()),
            None => None,
        };
        self.active_streams.push(
            ActiveStream {
                stream_id: sid,
                credential_id,
                api_key: identity.api_key.clone(),
                activated: false,
                last_touch_at: now,
                session_id: session,
            },
        );
        let ghost m = StreamModel {
            stream_id: sid,
            credential_id,
            api_key: identity.api_key@,
            activated: false,
            last_touch_at: now,
            session_id: opt_view(identity.session_id),
        };
        let ghost ms = pre.model();
        let ghost ms2 = self.model();
        proof {
            assert(ms2 =~= ms.push(m));
            assert forall|c: u64, k: Seq<char>|
                #[trigger] count_streams(ms2, c, k) == count_streams(ms, c, k) + (
                if stream_matches(m, c, k) {
                    1int
                } else {
                    0int
                }) by {
                lemma_count_push(ms, m, c, k);
            }
            assert forall|c: u64|
                #[trigger] count_cred(ms2, c) == count_cred(ms, c) + (if m.credential_id == c {
                    1int
                } else {
                    0int
                }) by {
                lemma_count_push(ms, m, c, Seq::empty());
            }
            lemma_count_bounds(ms, credential_id, identity.api_key@);
        }
        self.increment_concurrency_for(Ghost(pre), Ghost(m), credential_id, &identity.api_key);
        sid
    }

    /// Counts a freshly pushed stream, whose model is `m`, against
    /// credential `c0` and key `key` in the concurrency bookkeeping.
    fn increment_concurrency_for(
        &mut self,
        Ghost(pre): Ghost<StickyTracker>,
        Ghost(m): Ghost<StreamModel>,
        c0: u64,
        key: &String,
    )
        requires
            pre.wf(),
            pre.spec_next_stream_id() < u64::MAX,
            pre.total_streams() < u64::MAX,
            pre.key_count_of(c0, key@) < u32::MAX,
            m.credential_id == c0,
            m.api_key == key@,
            m.stream_id == pre.spec_next_stream_id(),
            old(self).model() == pre.model().push(m),
            old(self).concurrency@ == pre.concurrency@,
            old(self).bindings@ == pre.bindings@,
            old(self).stats == pre.stats,
            old(self).next_stream_id == sat_inc(pre.next_stream_id),
            old(self).max_concurrent_per_credential == pre.max_concurrent_per_credential,
            old(self).max_concurrent_per_key == pre.max_concurrent_per_key,
            old(self).sticky_expiry_minutes == pre.sticky_expiry_minutes,
            old(self).zombie_stream_timeout_minutes == pre.zombie_stream_timeout_minutes,
        ensures
            final(self).wf(),
            final(self).active_streams@ == old(self).active_streams@,
            final(self).bindings@ == old(self).bindings@,
            final(self).stats == old(self).stats,
            final(self).next_stream_id == old(self).next_stream_id,
            final(self).max_concurrent_per_credential == old(self).max_concurrent_per_credential,
            final(self).max_concurrent_per_key == old(self).max_concurrent_per_key,
            final(self).sticky_expiry_minutes == old(self).sticky_expiry_minutes,
            final(self).zombie_stream_timeout_minutes == old(self).zombie_stream_timeout_minutes,
    {
        let ghost ms = pre.model();
        let ghost ms2 = old(self).model();
        let ghost cc = pre.concurrency@;
        proof {
            assert forall|c: u64, k: Seq<char>|
                #[trigger] count_streams(ms2, c, k) == count_streams(ms, c, k) + (
                if stream_matches(m, c, k) {
                    1int
                } else {
                    0int
                }) by {
                lemma_count_push(ms, m, c, k);
            }
            assert forall|c: u64|
                #[trigger] count_cred(ms2, c) == count_cred(ms, c) + (if m.credential_id == c {
                    1int
                } else {
                    0int
                }) by {
                lemma_count_push(ms, m, c, Seq::empty());
            }
            lemma_count_bounds(ms, c0, key@);
            assert forall|a: int, b: int| 0 <= a < b < ms2.len() implies ms2[a].stream_id
                < ms2[b].stream_id by {
                if b < ms.len() {
                    assert(ms2[a] == ms[a] && ms2[b] == ms[b]);
                } else {
                    assert(ms2[a] == ms[a] && ms2[b] == m);
                    assert(ms[a].stream_id < pre.next_stream_id);
                }
            }
            assert forall|a: int| 0 <= a < ms2.len() implies (#[trigger] ms2[a]).stream_id
                < self.next_stream_id by {
                if a < ms.len() {
                    assert(ms2[a] == ms[a]);
                } else {
                    assert(ms2[a] == m);
                }
            }
        }
        match self.find_cred_index(c0) {
            None => {
                proof {
                    assert(count_cred(ms, c0) == 0);
                    assert(count_streams(ms, c0, key@) == 0);
                }
                let mut pk: Vec<KeyCount> = Vec::new();
                pk.push(KeyCount { api_key: key.clone(), count: 1 });
                self.concurrency.push(CredEntry { credential_id: c0, active_count: 1, per_key: pk });
                proof {
                    let cc2 = self.concurrency@;
                    let e2 = cc2[cc.len() as int];
                    assert(cc2 =~= cc.push(e2));
                    assert(e2.credential_id == c0 && e2.active_count == 1 && e2.per_key@.len()
                        == 1);
                    assert(e2.per_key@[0].api_key@ == key@ && e2.per_key@[0].count == 1);
                    assert forall|j: int| 0 <= j < cc.len() implies (#[trigger] cc2[j]) == cc[j]
                        && cc[j].credential_id != c0 by {}
                    assert forall|c: u64| !has_cred_entry(cc2, c) implies #[trigger] count_cred(
                        ms2,
                        c,
                    ) == 0 by {
                        assert(cc2[cc.len() as int].credential_id == c0);
                        assert(c != c0);
                        if has_cred_entry(cc, c) {
                            let j = choose|j: int| 0 <= j < cc.len() && cc[j].credential_id == c;
                            assert(cc2[j].credential_id == c);
                            assert(false);
                        }
                    }
                    assert forall|jj: int, k: Seq<char>|
                        0 <= jj < cc2.len() && !has_key_count(cc2[jj].per_key@, k)
                            implies #[trigger] count_streams(ms2, cc2[jj].credential_id, k)
                            == 0 by {
                        if jj < cc.len() {
                            assert(cc2[jj] == cc[jj]);
                            assert(count_streams(ms, cc[jj].credential_id, k) == 0);
                        } else {
                            assert(cc2[jj] == e2);
                            assert(e2.per_key@[0].api_key@ == key@);
                            assert(k != key@);
                            assert(count_streams(ms, c0, k) == 0) by {
                                lemma_count_bounds(ms, c0, k);
                            }
                        }
                    }
                    assert(final(self).wf());
                }
            },
            Some(ci) => {
                let mut entry = self.concurrency.remove(ci);
                proof {
                    assert(entry == cc[ci as int]);
                    assert(entry.active_count == count_cred(ms, c0));
                    assert(count_cred(ms, c0) <= ms.len() < u64::MAX);
                }
                entry.active_count = entry.active_count + 1;
                let pk_n = entry.per_key.len();
                let mut p: usize = 0;
                let mut found = false;
                while p < pk_n && !found
                    invariant
                        pk_n == entry.per_key@.len(),
                        p <= pk_n,
                        entry.per_key@ == cc[ci as int].per_key@,
                        forall|q: int| 0 <= q < p ==> entry.per_key@[q].api_key@ != key@,
                        found ==> p < pk_n && entry.per_key@[p as int].api_key@ == key@,
                    decreases pk_n - p + (if found { 0int } else { 1int }),
                {
                    if entry.per_key[p].api_key == *key {
                        found = true;
                    } else {
                        p = p + 1;
                    }
                }
                if found {
                    let kc = entry.per_key.remove(p);
                    proof {
                        assert(cc[ci as int].per_key@[p as int] == kc);
                        assert(kc.count == count_streams(ms, c0, key@));
                        assert(kc.count < u32::MAX);
                    }
                    entry.per_key.insert(p, KeyCount { api_key: kc.api_key, count: kc.count + 1 });
                } else {
                    proof {
                        assert(!has_key_count(cc[ci as int].per_key@, key@));
                        assert(count_streams(ms, c0, key@) == 0);
                    }
                    entry.per_key.push(KeyCount { api_key: key.clone(), count: 1 });
                }
                let ghost pk = cc[ci as int].per_key@;
                let ghost pk2 = entry.per_key@;
                self.concurrency.insert(ci, entry);
                proof {
                    let cc2 = self.concurrency@;
                    assert(cc2 =~= cc.update(ci as int, entry)) by {
                        assert(cc2 =~= cc.remove(ci as int).insert(ci as int, entry));
                    }
                    assert forall|j: int| 0 <= j < cc.len() && j != ci as int
                        implies (#[trigger] cc2[j]) == cc[j] && cc[j].credential_id != c0 by {}
                    if found {
                        assert(pk2 =~= pk.update(
                            p as int,
                            KeyCount {
                                api_key: pk[p as int].api_key,
                                count: (pk[p as int].count + 1) as u32,
                            },
                        )) by {
                            assert(pk2 =~= pk.remove(p as int).insert(p as int, pk2[p as int]));
                        }
                    } else {
                        assert(pk2 =~= pk.push(pk2[pk.len() as int]));
                        assert(pk2[pk.len() as int].api_key@ == key@);
                        assert(pk2[pk.len() as int].count == 1);
                    }
                    assert forall|c: u64| !has_cred_entry(cc2, c) implies #[trigger] count_cred(
                        ms2,
                        c,
                    ) == 0 by {
                        assert(cc2[ci as int].credential_id == c0);
                        assert(c != c0);
                        if has_cred_entry(cc, c) {
                            let j = choose|j: int| 0 <= j < cc.len() && cc[j].credential_id == c;
                            assert(j != ci as int);
                            assert(cc2[j].credential_id == c);
                            assert(false);
                        }
                    }
                    assert forall|q1: int, q2: int| 0 <= q1 < q2 < pk2.len() implies pk2[q1].api_key@
                        != pk2[q2].api_key@ by {
                        if found {
                            assert(pk2[q1].api_key@ == pk[q1].api_key@);
                            assert(pk2[q2].api_key@ == pk[q2].api_key@);
                        } else {
                            if q2 < pk.len() {
                                assert(pk2[q1] == pk[q1] && pk2[q2] == pk[q2]);
                            } else {
                                assert(pk2[q1] == pk[q1]);
                                assert(pk2[q2].api_key@ == key@);
                            }
                        }
                    }
                    assert forall|q: int| 0 <= q < pk2.len() implies (#[trigger] pk2[q]).count
                        == count_streams(ms2, c0, pk2[q].api_key@) && pk2[q].count > 0 by {
                        if found {
                            if q == p as int {
                                assert(pk2[q].count == pk[p as int].count + 1);
                                assert(pk2[q].api_key@ == key@);
                            } else {
                                assert(pk2[q] == pk[q]);
                                assert(pk[q].api_key@ != key@);
                                assert(!stream_matches(m, c0, pk[q].api_key@));
                            }
                        } else {
                            if q < pk.len() {
                                assert(pk2[q] == pk[q]);
                                assert(pk[q].api_key@ != key@);
                                assert(!stream_matches(m, c0, pk[q].api_key@));
                            } else {
                                assert(pk2[q].api_key@ == key@ && pk2[q].count == 1);
                            }
                        }
                    }
                    assert forall|jj: int, k: Seq<char>|
                        0 <= jj < cc2.len() && !has_key_count(cc2[jj].per_key@, k)
                            implies #[trigger] count_streams(ms2, cc2[jj].credential_id, k)
                            == 0 by {
                        if jj != ci as int {
                            assert(cc2[jj] == cc[jj]);
                            assert(count_streams(ms, cc[jj].credential_id, k) == 0);
                            assert(cc[jj].credential_id != c0);
                        } else {
                            assert(cc2[jj].per_key@ == pk2);
                            assert(k != key@) by {
                                if found {
                                    assert(pk2[p as int].api_key@ == key@);
                                } else {
                                    assert(pk2[pk.len() as int].api_key@ == key@);
                                }
                            }
                            assert(!has_key_count(pk, k)) by {
                                if has_key_count(pk, k) {
                                    let q = choose|q: int|
                                        0 <= q < pk.len() && pk[q].api_key@ == k;
                                    if found {
                                        assert(pk2[q].api_key@ == k);
                                    } else {
                                        assert(pk2[q].api_key@ == k);
                                    }
                                    assert(has_key_count(pk2, k));
                                    assert(false);
                                }
                            }
                            assert(count_streams(ms, c0, k) == 0);
                            assert(!stream_matches(m, c0, k));
                        }
                    }
                    assert(final(self).wf());
                }
            },
        }
    }

    /// Two-bucket global selection: among offered credentials with a free
    /// slot, prefer those with more than half their capacity free; within a
    /// bucket take the lowest active count, ties broken by list position.
    fn select_best_credential(&self, available: &Vec<AvailableCredential>) -> (r: Option<u64>)
        requires
            self.wf(),
        ensures
            match r {
                Some(c) => exists|i: int|
                    #[trigger] best_choice(*self, available@, i) && available@[i].id == c,
                None => forall|i: int| !eligible_at(*self, available@, i),
            },
    {
        let n = available.len();
        let maxc = self.max_concurrent_per_credential;
        let half_bound: u64 = ((maxc as u64) + 1) / 2;
        let mut have_pref = false;
        let mut pref_id: u64 = 0;
        let mut pref_active: u64 = 0;
        let mut pref_idx: usize = 0;
        let mut have_fb = false;
        let mut fb_id: u64 = 0;
        let mut fb_active: u64 = 0;
        let mut fb_idx: usize = 0;
        let mut i: usize = 0;
        while i < n
            invariant
                self.wf(),
                n == available@.len(),
                i <= n,
                maxc == self.spec_max_per_credential(),
                half_bound == ((maxc as u64) + 1) / 2,
                !have_pref ==> forall|j: int| 0 <= j < i ==> !preferred_at(*self, available@, j),
                have_pref ==> pref_idx < i && preferred_at(*self, available@, pref_idx as int)
                    && available@[pref_idx as int].id == pref_id && pref_active == self.active_of(
                    pref_id,
                ),
                have_pref ==> forall|j: int|
                    0 <= j < i && preferred_at(*self, available@, j) ==> (pref_active
                        < self.active_of(available@[j].id) || (pref_active == self.active_of(
                        available@[j].id,
                    ) && pref_idx <= j)),
                !have_fb ==> forall|j: int|
                    0 <= j < i ==> !(eligible_at(*self, available@, j) && !preferred_at(
                        *self,
                        available@,
                        j,
                    )),
                have_fb ==> fb_idx < i && eligible_at(*self, available@, fb_idx as int)
                    && !preferred_at(*self, available@, fb_idx as int)
                    && available@[fb_idx as int].id == fb_id && fb_active == self.active_of(fb_id),
                have_fb ==> forall|j: int|
                    0 <= j < i && eligible_at(*self, available@, j) && !preferred_at(
                        *self,
                        available@,
                        j,
                    ) ==> (fb_active < self.active_of(available@[j].id) || (fb_active
                        == self.active_of(available@[j].id) && fb_idx <= j)),
            decreases n - i,
        {
            let cid = available[i].id;
            let active = self.active_count_lookup(cid);
            if active >= maxc as u64 {
                i = i + 1;
                continue ;
            }
            let over_half_free = active < half_bound;
            proof {
                assert(over_half_free <==> 2 * self.active_of(cid) < maxc);
            }
            if over_half_free {
                if !have_pref || active < pref_active {
                    have_pref = true;
                    pref_id = cid;
                    pref_active = active;
                    pref_idx = i;
                }
            } else {
                if !have_fb || active < fb_active {
                    have_fb = true;
                    fb_id = cid;
                    fb_active = active;
                    fb_idx = i;
                }
            }
            i = i + 1;
        }
        if have_pref {
            proof {
                assert(best_choice(*self, available@, pref_idx as int)) by {
                    assert(preferred_at(*self, available@, pref_idx as int));
                }
            }
            Some(pref_id)
        } else if have_fb {
            proof {
                assert(best_choice(*self, available@, fb_idx as int)) by {
                    assert forall|j: int| !preferred_at(*self, available@, j) by {}
                    assert(eligible_at(*self, available@, fb_idx as int));
                }
            }
            Some(fb_id)
        } else {
            proof {
                assert forall|j: int| !eligible_at(*self, available@, j) by {}
            }
            None
        }
    }

    /// One sticky acquisition, executed atomically over the whole tracker:
    /// reuse the binding when its credential has room, queue-jump when this
    /// key already holds a stream on the full bound credential, otherwise
    /// fall back to global selection, and report saturation with an
    /// advisory retry delay when every offered credential is full.
    ///
    /// No `Acquired` is ever returned while every offered credential is at
    /// `max_concurrent_per_credential` and the key holds no stream at all:
    /// the last clause states that a queue jump needs an existing stream.
    pub fn try_acquire(
        &mut self,
        identity: &RequestIdentity,
        available: &Vec<AvailableCredential>,
        now: u64,
    ) -> (r: AcquireResult)
        requires
            old(self).wf(),
            old(self).spec_next_stream_id() < u64::MAX,
            old(self).total_streams() < u64::MAX,
        ensures
            final(self).wf(),
            final(self).same_config(*old(self)),
            final(self).same_bindings_except(*old(self), identity.api_key@),
            (match r {
                AcquireResult::Acquired { credential_id, stream_id } => {
                    &&& stream_id == old(self).spec_next_stream_id()
                    &&& final(self).spec_next_stream_id() == stream_id + 1
                    &&& final(self).model() == old(self).model().push(
                        StreamModel {
                            stream_id,
                            credential_id,
                            api_key: identity.api_key@,
                            activated: false,
                            last_touch_at: now,
                            session_id: opt_view(identity.session_id),
                        },
                    )
                    &&& final(self).binding_of(identity.api_key@) == Some((credential_id, now))
                    &&& (sticky_hit(*old(self), available@, identity.api_key@) ==> {
                        &&& old(self).binding_of(identity.api_key@) matches Some((c, _))
                            && c == credential_id
                        &&& final(self).spec_stats() == (StickyStats {
                            hits: sat_inc(old(self).spec_stats().hits),
                            ..old(self).spec_stats()
                        })
                    })
                    &&& (sticky_queue_jump(*old(self), available@, identity.api_key@) ==> {
                        &&& old(self).binding_of(identity.api_key@) matches Some((c, _))
                            && c == credential_id
                        &&& final(self).spec_stats() == (StickyStats {
                            queue_jumps: sat_inc(old(self).spec_stats().queue_jumps),
                            ..old(self).spec_stats()
                        })
                    })
                    &&& (falls_through(*old(self), available@, identity.api_key@) ==> {
                        &&& (exists|i: int|
                            #[trigger] best_choice(*old(self), available@, i) && available@[i].id
                                == credential_id)
                        &&& final(self).spec_stats() == (StickyStats {
                            assignments: sat_inc(old(self).spec_stats().assignments),
                            unbinds: if sticky_unbind(*old(self), available@, identity.api_key@) {
                                sat_inc(old(self).spec_stats().unbinds)
                            } else {
                                old(self).spec_stats().unbinds
                            },
                            ..old(self).spec_stats()
                        })
                    })
                },
                AcquireResult::AllFull { retry_after_millis } => {
                    &&& 5000 <= retry_after_millis < 10000
                    &&& falls_through(*old(self), available@, identity.api_key@)
                    &&& (forall|i: int| !eligible_at(*old(self), available@, i))
                    &&& final(self).model() == old(self).model()
                    &&& final(self).spec_next_stream_id() == old(self).spec_next_stream_id()
                    &&& final(self).spec_stats() == (StickyStats {
                        rejections_429: sat_inc(old(self).spec_stats().rejections_429),
                        unbinds: if sticky_unbind(*old(self), available@, identity.api_key@) {
                            sat_inc(old(self).spec_stats().unbinds)
                        } else {
                            old(self).spec_stats().unbinds
                        },
                        ..old(self).spec_stats()
                    })
                    &&& final(self).binding_of(identity.api_key@) == (if sticky_unbind(
                        *old(self),
                        available@,
                        identity.api_key@,
                    ) {
                        None
                    } else {
                        old(self).binding_of(identity.api_key@)
                    })
                },
            }),
            (r matches AcquireResult::Acquired { .. } && (forall|i: int|
                0 <= i < available@.len() ==> #[trigger] old(self).active_of(available@[i].id)
                    >= old(self).spec_max_per_credential())) ==> old(self).key_total_of(
                identity.api_key@,
            ) > 0,
    {
        let ghost o = *old(self);
        let ghost k = identity.api_key@;
        let mut did_unbind = false;
        let bound = self.find_binding_index(&identity.api_key);
        match bound {
            None => {},
            Some(bi) => {
                let credential_id = self.bindings[bi].credential_id;
                let is_still_available = contains_credential(available, credential_id);
                if !is_still_available {
                    let removed = self.remove_binding_if_matches(&identity.api_key, credential_id);
                    if removed {
                        self.stats.unbinds = self.stats.unbinds.saturating_add(1);
                        did_unbind = true;
                    }
                } else {
                    let active = self.active_count_lookup(credential_id);
                    let per_key = self.key_count_lookup(credential_id, &identity.api_key);
                    let is_full = active >= self.max_concurrent_per_credential as u64;
                    if !is_full {
                        proof {
                            assert(sticky_hit(o, available@, k));
                            lemma_count_bounds(o.model(), credential_id, k);
                        }
                        let stream_id = self.reserve_stream(credential_id, identity, now);
                        self.touch_binding(&identity.api_key, credential_id, now);
                        self.stats.hits = self.stats.hits.saturating_add(1);
                        return AcquireResult::Acquired { credential_id, stream_id };
                    }
                    if per_key > 0 && per_key < self.max_concurrent_per_key {
                        proof {
                            assert(sticky_queue_jump(o, available@, k));
                            lemma_count_bounds(o.model(), credential_id, k);
                        }
                        let stream_id = self.reserve_stream(credential_id, identity, now);
                        self.touch_binding(&identity.api_key, credential_id, now);
                        self.stats.queue_jumps = self.stats.queue_jumps.saturating_add(1);
                        return AcquireResult::Acquired { credential_id, stream_id };
                    }
                    if per_key == 0 {
                        let removed = self.remove_binding_if_matches(
                            &identity.api_key,
                            credential_id,
                        );
                        if removed {
                            self.stats.unbinds = self.stats.unbinds.saturating_add(1);
                            did_unbind = true;
                        }
                    }
                }
            },
        }
        proof {
            assert(falls_through(o, available@, k));
            assert(did_unbind == sticky_unbind(o, available@, k));
        }
        let picked = self.select_best_credential(available);
        match picked {
            Some(credential_id) => {
                proof {
                    lemma_selection_state_agnostic(*self, o, available@);
                    let i = choose|i: int|
                        #[trigger] best_choice(*self, available@, i) && available@[i].id
                            == credential_id;
                    assert(eligible_at(*self, available@, i));
                    assert(best_choice(o, available@, i));
                    lemma_count_bounds(o.model(), credential_id, k);
                }
                let ghost m1 = *self;
                let stream_id = self.reserve_stream(credential_id, identity, now);
                let ghost m2 = *self;
                self.set_binding(&identity.api_key, credential_id, now);
                proof {
                    assert forall|kk: Seq<char>| kk != k implies self.binding_of(kk)
                        == #[trigger] o.binding_of(kk) by {
                        assert(m1.binding_of(kk) == o.binding_of(kk));
                        assert(m2.binding_of(kk) == m1.binding_of(kk));
                        assert(self.binding_of(kk) == m2.binding_of(kk));
                    }
                }
                self.stats.assignments = self.stats.assignments.saturating_add(1);
                AcquireResult::Acquired { credential_id, stream_id }
            },
            None => {
                proof {
                    lemma_selection_state_agnostic(*self, o, available@);
                    assert forall|i: int| !eligible_at(o, available@, i) by {
                        assert(!eligible_at(*self, available@, i));
                    }
                }
                self.stats.rejections_429 = self.stats.rejections_429.saturating_add(1);
                let retry_after_millis = jitter_retry_millis();
                AcquireResult::AllFull { retry_after_millis }
            },
        }
    }

    /// Reclaims zombie streams: activated streams idle past the zombie
    /// timeout, and reservations older than the hard two-minute limit.
    /// Returns how many were removed.
    pub fn cleanup_zombies(&mut self, now: u64) -> (r: usize)
        requires
            old(self).wf(),
        ensures
            final(self).wf(),
            final(self).same_bindings(*old(self)),
            final(self).spec_stats() == old(self).spec_stats(),
            final(self).spec_next_stream_id() == old(self).spec_next_stream_id(),
            final(self).same_config(*old(self)),
            final(self).model() == drop_zombies(
                old(self).model(),
                now,
                old(self).spec_zombie_timeout_minutes(),
            ),
            r + final(self).total_streams() == old(self).total_streams(),
    {
        let ghost o = *old(self);
        let ghost ms0 = o.model();
        let ghost zt = self.zombie_stream_timeout_minutes;
        let timeout: u64 = (self.zombie_stream_timeout_minutes as u64) * 60000;
        let n0 = self.active_streams.len();
        let mut i: usize = 0;
        let ghost mut j: int = 0;
        proof {
            assert(ms0.take(0) =~= Seq::<StreamModel>::empty());
            assert(ms0.skip(0) =~= ms0);
            assert(self.model() == drop_zombies(ms0.take(j), now, zt) + ms0.skip(j));
        }
        while i < self.active_streams.len()
            invariant
                self.wf(),
                self.bindings@ == o.bindings@,
                self.stats == o.stats,
                self.next_stream_id == o.next_stream_id,
                self.same_config(o),
                zt == o.spec_zombie_timeout_minutes(),
                timeout == (zt as int) * 60000,
                n0 == ms0.len(),
                0 <= j <= ms0.len(),
                i <= j,
                i == drop_zombies(ms0.take(j), now, zt).len(),
                self.model() == drop_zombies(ms0.take(j), now, zt) + ms0.skip(j),
            decreases ms0.len() - j,
        {
            proof {
                assert(j < ms0.len()) by {
                    if j == ms0.len() {
                        assert(ms0.take(j) =~= ms0);
                        assert(ms0.skip(j) =~= Seq::<StreamModel>::empty());
                        assert(self.model().len() == i);
                    }
                }
                assert(self.model()[i as int] == ms0.skip(j)[0]);
                assert(ms0.skip(j)[0] == ms0[j]);
                lemma_drop_zombies_step(ms0, j, now, zt);
            }
            let act = self.active_streams[i].activated;
            let lt = self.active_streams[i].last_touch_at;
            let eff = if act {
                timeout
            } else {
                RESERVATION_TIMEOUT_MILLIS
            };
            let zomb = lt < now && now - lt > eff;
            proof {
                assert(zomb == is_zombie(ms0[j], now, zt));
            }
            if zomb {
                let sid = self.active_streams[i].stream_id;
                let ghost mid = *self;
                self.remove_stream_inner(sid);
                proof {
                    assert(mid.has_stream(sid)) by {
                        assert(mid.model()[i as int].stream_id == sid);
                    }
                    let idx = choose|idx: int|
                        0 <= idx < mid.model().len() && mid.model()[idx].stream_id == sid
                            && self.model() == mid.model().remove(idx);
                    assert(idx == i as int) by {
                        if idx < i as int {
                            assert(mid.model()[idx].stream_id < mid.model()[i as int].stream_id);
                        }
                        if idx > i as int {
                            assert(mid.model()[i as int].stream_id < mid.model()[idx].stream_id);
                        }
                    }
                    j = j + 1;
                    assert(self.model() =~= drop_zombies(ms0.take(j), now, zt) + ms0.skip(j)) by {
                        assert(ms0.skip(j - 1).drop_first() =~= ms0.skip(j));
                        assert(mid.model().remove(i as int) =~= drop_zombies(
                            ms0.take(j - 1),
                            now,
                            zt,
                        ) + ms0.skip(j));
                        assert(drop_zombies(ms0.take(j), now, zt) == drop_zombies(
                            ms0.take(j - 1),
                            now,
                            zt,
                        ));
                    }
                }
            } else {
                i = i + 1;
                proof {
                    j = j + 1;
                    assert(drop_zombies(ms0.take(j), now, zt) =~= drop_zombies(
                        ms0.take(j - 1),
                        now,
                        zt,
                    ).push(ms0[j - 1]));
                    assert(self.model() =~= drop_zombies(ms0.take(j), now, zt) + ms0.skip(j)) by {
                        assert(ms0.skip(j - 1) =~= seq![ms0[j - 1]] + ms0.skip(j));
                    }
                }
            }
        }
        proof {
            assert(j == ms0.len()) by {
                if j < ms0.len() {
                    assert(self.model().len() == i);
                    assert(self.model().len() == drop_zombies(ms0.take(j), now, zt).len() + (
                    ms0.len() - j));
                }
            }
            assert(ms0.take(j) =~= ms0);
            assert(ms0.skip(j) =~= Seq::<StreamModel>::empty());
            assert(self.model() =~= drop_zombies(ms0, now, zt));
            assert(self.active_streams@.len() == self.model().len());
        }
        n0 - self.active_streams.len()
    }

    /// Whether any outstanding stream carries this key.
    fn key_in_use(&self, key: &String) -> (r: bool)
        ensures
            r == (self.key_total_of(key@) > 0),
    {
        let n = self.active_streams.len();
        let mut i: usize = 0;
        while i < n
            invariant
                n == self.active_streams@.len(),
                i <= n,
                forall|j: int| 0 <= j < i ==> self.model()[j].api_key != key@,
            decreases n - i,
        {
            if self.active_streams[i].api_key == *key {
                proof {
                    lemma_count_witness(self.model(), 0, key@);
                    assert(self.model()[i as int].api_key == key@);
                }
                return true;
            }
            i = i + 1;
        }
        proof {
            lemma_count_witness(self.model(), 0, key@);
        }
        false
    }

    /// Drops every binding older than the sticky expiry whose key has no
    /// outstanding stream, counting each drop as an unbind.  Returns how
    /// many bindings were removed.
    pub fn cleanup_expired_bindings(&mut self, now: u64) -> (r: usize)
        requires
            old(self).wf(),
        ensures
            final(self).wf(),
            final(self).model() == old(self).model(),
            final(self).spec_next_stream_id() == old(self).spec_next_stream_id(),
            final(self).same_config(*old(self)),
            final(self).spec_stats() == (StickyStats {
                unbinds: sat_add(old(self).spec_stats().unbinds, r as u64),
                ..old(self).spec_stats()
            }),
            r + final(self).bindings_len() == old(self).bindings_len(),
            forall|kk: Seq<char>|
                #[trigger] final(self).binding_of(kk) == (match old(self).binding_of(kk) {
                    Some((c, t)) => if binding_expired(
                        t,
                        now,
                        old(self).spec_sticky_expiry_minutes(),
                    ) && old(self).key_total_of(kk) == 0 {
                        None
                    } else {
                        Some((c, t))
                    },
                    None => None::<(u64, u64)>,
                }),
    {
        let ghost o = *old(self);
        let ghost bs0 = o.bindings@;
        let ghost em = self.sticky_expiry_minutes;
        let timeout: u64 = (self.sticky_expiry_minutes as u64) * 60000;
        let n0 = self.bindings.len();
        let mut i: usize = 0;
        let ghost mut j: int = 0;
        proof {
            assert(bs0.take(0) =~= Seq::<StickyBinding>::empty());
            assert(bs0.skip(0) =~= bs0);
            assert(self.bindings@ == keep_bindings(bs0.take(j), now, em, o.model()) + bs0.skip(j));
        }
        while i < self.bindings.len()
            invariant
                self.wf(),
                self.active_streams@ == o.active_streams@,
                self.concurrency@ == o.concurrency@,
                self.stats == o.stats,
                self.next_stream_id == o.next_stream_id,
                self.same_config(o),
                em == o.spec_sticky_expiry_minutes(),
                timeout == (em as int) * 60000,
                n0 == bs0.len(),
                0 <= j <= bs0.len(),
                i <= j,
                i == keep_bindings(bs0.take(j), now, em, o.model()).len(),
                self.bindings@ == keep_bindings(bs0.take(j), now, em, o.model()) + bs0.skip(j),
            decreases bs0.len() - j,
        {
            proof {
                assert(j < bs0.len()) by {
                    if j == bs0.len() {
                        assert(bs0.take(j) =~= bs0);
                        assert(bs0.skip(j) =~= Seq::<StickyBinding>::empty());
                        assert(self.bindings@.len() == i);
                    }
                }
                assert(self.bindings@[i as int] == bs0.skip(j)[0]);
                assert(bs0.skip(j)[0] == bs0[j]);
                lemma_keep_bindings_step(bs0, j, now, em, o.model());
            }
            let lt = self.bindings[i].last_request_at;
            let expired = lt < now && now - lt > timeout;
            let mut remove_it = false;
            if expired {
                let in_use = self.key_in_use(&self.bindings[i].api_key);
                remove_it = !in_use;
            }
            proof {
                assert(remove_it == binding_removable(bs0[j], now, em, o.model()));
            }
            if remove_it {
                let ghost mid = *self;
                self.bindings.remove(i);
                proof {
                    j = j + 1;
                    assert(self.bindings@ =~= keep_bindings(bs0.take(j), now, em, o.model())
                        + bs0.skip(j)) by {
                        assert(self.bindings@ =~= mid.bindings@.remove(i as int));
                        assert(bs0.skip(j - 1).drop_first() =~= bs0.skip(j));
                    }
                    assert(self.wf()) by {
                        assert forall|a: int, b: int| 0 <= a < b < self.bindings@.len()
                            implies self.bindings@[a].api_key@ != self.bindings@[b].api_key@ by {
                            let oa = if a < i as int {
                                a
                            } else {
                                a + 1
                            };
                            let ob = if b < i as int {
                                b
                            } else {
                                b + 1
                            };
                            assert(self.bindings@[a] == mid.bindings@[oa]);
                            assert(self.bindings@[b] == mid.bindings@[ob]);
                        }
                    }
                }
            } else {
                i = i + 1;
                proof {
                    j = j + 1;
                    assert(keep_bindings(bs0.take(j), now, em, o.model()) =~= keep_bindings(
                        bs0.take(j - 1),
                        now,
                        em,
                        o.model(),
                    ).push(bs0[j - 1]));
                    assert(self.bindings@ =~= keep_bindings(bs0.take(j), now, em, o.model())
                        + bs0.skip(j)) by {
                        assert(bs0.skip(j - 1) =~= seq![bs0[j - 1]] + bs0.skip(j));
                    }
                }
            }
        }
        proof {
            assert(j == bs0.len()) by {
                if j < bs0.len() {
                    assert(self.bindings@.len() == i);
                    assert(self.bindings@.len() == keep_bindings(
                        bs0.take(j),
                        now,
                        em,
                        o.model(),
                    ).len() + (bs0.len() - j));
                }
            }
            assert(bs0.take(j) =~= bs0);
            assert(bs0.skip(j) =~= Seq::<StickyBinding>::empty());
            assert(self.bindings@ =~= keep_bindings(bs0, now, em, o.model()));
        }
        let removed = n0 - self.bindings.len();
        self.stats.unbinds = self.stats.unbinds.saturating_add(removed as u64);
        proof {
            assert forall|kk: Seq<char>|
                #[trigger] self.binding_of(kk) == (match o.binding_of(kk) {
                    Some((c, t)) => if binding_expired(t, now, em) && o.key_total_of(kk) == 0 {
                        None
                    } else {
                        Some((c, t))
                    },
                    None => None::<(u64, u64)>,
                }) by {
                lemma_find_kept(bs0, now, em, o.model(), kk);
                lemma_find_binding_char(bs0, kk);
            }
        }
        removed
    }

    /// Whether some binding points at credential `c`.
    pub closed spec fn has_binding_to(self, c: u64) -> bool {
        exists|i: int| 0 <= i < self.bindings@.len() && self.bindings@[i].credential_id == c
    }

    /// The keys currently bound to credential `c`.
    fn keys_bound_to(&self, c: u64) -> (ks: Vec<String>)
        requires
            self.wf(),
        ensures
            forall|p: int|
                0 <= p < ks@.len() ==> (match #[trigger] self.binding_of(ks@[p]@) {
                    Some((cc, _)) => cc == c,
                    None => false,
                }),
    {
        let mut ks: Vec<String> = Vec::new();
        let n = self.bindings.len();
        let mut i: usize = 0;
        while i < n
            invariant
                self.wf(),
                n == self.bindings@.len(),
                i <= n,
                forall|p: int|
                    0 <= p < ks@.len() ==> (match #[trigger] self.binding_of(ks@[p]@) {
                        Some((cc, _)) => cc == c,
                        None => false,
                    }),
            decreases n - i,
        {
            if self.bindings[i].credential_id == c {
                proof {
                    assert forall|j: int| 0 <= j < i as int
                        implies self.bindings@[j].api_key@ != self.bindings@[i as int].api_key@ by {}
                    lemma_find_binding_at(self.bindings@, self.bindings@[i as int].api_key@, i as int);
                }
                ks.push(self.bindings[i].api_key.clone());
            }
            i = i + 1;
        }
        ks
    }

    /// A consistent view of per-credential activity, bindings, stats and
    /// the number of outstanding streams.  Credentials are listed by
    /// ascending id; one appears exactly when it holds a stream or a
    /// binding points at it.
    #[verifier::rlimit(80)]
    pub fn snapshot(&self) -> (snap: StickySnapshot)
        requires
            self.wf(),
        ensures
            snap.stats == self.spec_stats(),
            snap.active_stream_count == self.total_streams(),
            forall|j1: int, j2: int|
                0 <= j1 < j2 < snap.credentials@.len() ==> snap.credentials@[j1].id
                    < snap.credentials@[j2].id,
            forall|j: int|
                0 <= j < snap.credentials@.len() ==> (#[trigger] snap.credentials@[j]).active_count
                    == self.active_of(snap.credentials@[j].id),
            forall|j: int|
                0 <= j < snap.credentials@.len() ==> self.active_of(
                    (#[trigger] snap.credentials@[j]).id,
                ) > 0 || self.has_binding_to(snap.credentials@[j].id),
            forall|c: u64|
                #[trigger] self.active_of(c) > 0 ==> exists|j: int|
                    0 <= j < snap.credentials@.len() && snap.credentials@[j].id == c,
            forall|kk: Seq<char>|
                (match #[trigger] self.binding_of(kk) {
                    Some((c, _)) => exists|j: int|
                        0 <= j < snap.credentials@.len() && snap.credentials@[j].id == c,
                    None => true,
                }),
            forall|j: int, p: int|
                0 <= j < snap.credentials@.len() && 0 <= p
                    < snap.credentials@[j].bound_keys@.len() ==> (match self.binding_of(
                    #[trigger] snap.credentials@[j].bound_keys@[p]@,
                ) {
                    Some((cc, _)) => cc == snap.credentials@[j].id,
                    None => false,
                }),
    {
        let mut creds: Vec<CredentialSnapshot> = Vec::new();
        let cn = self.concurrency.len();
        let mut t: usize = 0;
        while t < cn
            invariant
                self.wf(),
                cn == self.concurrency@.len(),
                t <= cn,
                forall|j1: int, j2: int|
                    0 <= j1 < j2 < creds@.len() ==> creds@[j1].id < creds@[j2].id,
                forall|j: int|
                    0 <= j < creds@.len() ==> (#[trigger] creds@[j]).active_count == self.active_of(
                        creds@[j].id,
                    ),
                forall|j: int|
                    0 <= j < creds@.len() ==> self.active_of((#[trigger] creds@[j]).id) > 0
                        || self.has_binding_to(creds@[j].id),
                forall|u: int|
                    0 <= u < t ==> listed(creds@, #[trigger] self.concurrency@[u].credential_id),
                forall|j: int, p: int|
                    0 <= j < creds@.len() && 0 <= p < creds@[j].bound_keys@.len() ==> (
                    match self.binding_of(#[trigger] creds@[j].bound_keys@[p]@) {
                        Some((cc, _)) => cc == creds@[j].id,
                        None => false,
                    }),
            decreases cn - t,
        {
            let cid = self.concurrency[t].credential_id;
            let mut pos: usize = 0;
            let m = creds.len();
            while pos < m && creds[pos].id < cid
                invariant
                    m == creds@.len(),
                    pos <= m,
                    forall|j: int| 0 <= j < pos ==> creds@[j].id < cid,
                decreases m - pos,
            {
                pos = pos + 1;
            }
            let present = pos < m && creds[pos].id == cid;
            if !present {
                let ghost pre_creds = creds@;
                let active = self.concurrency[t].active_count;
                let keys = self.keys_bound_to(cid);
                proof {
                    assert(self.active_of(cid) > 0) by {
                        let e = self.concurrency@[t as int];
                        assert(e.per_key@.len() > 0);
                        assert(e.per_key@[0].count > 0);
                        lemma_count_bounds(self.model(), cid, e.per_key@[0].api_key@);
                    }
                }
                creds.insert(
                    pos,
                    CredentialSnapshot { id: cid, active_count: active, bound_keys: keys },
                );
                proof {
                    assert forall|j: int| 0 <= j < creds@.len() implies (#[trigger] creds@[j])
                        == (if j < pos as int {
                        pre_creds[j]
                    } else if j == pos as int {
                        creds@[pos as int]
                    } else {
                        pre_creds[j - 1]
                    }) by {}
                    assert forall|u: int| 0 <= u < t + 1 implies listed(
                        creds@,
                        #[trigger] self.concurrency@[u].credential_id,
                    ) by {
                        assert(creds@ =~= pre_creds.insert(
                            pos as int,
                            creds@[pos as int],
                        ));
                        lemma_listed_insert(
                            pre_creds,
                            pos as int,
                            creds@[pos as int],
                            self.concurrency@[u].credential_id,
                        );
                    }
                }
            } else {
                proof {
                    assert forall|u: int| 0 <= u < t + 1 implies listed(
                        creds@,
                        #[trigger] self.concurrency@[u].credential_id,
                    ) by {
                        if u == t as int {
                            assert(creds@[pos as int].id == self.concurrency@[u].credential_id);
                        }
                    }
                }
            }
            t = t + 1;
        }
        proof {
            assert forall|u: int| 0 <= u < self.concurrency@.len() implies listed(
                creds@,
                #[trigger] self.concurrency@[u].credential_id,
            ) by {
                assert(u < t as int);
            }
        }
        // bindings may point at credentials with no streams; add those
        let bn = self.bindings.len();
        let mut b: usize = 0;
        while b < bn
            invariant
                self.wf(),
                bn == self.bindings@.len(),
                b <= bn,
                forall|j1: int, j2: int|
                    0 <= j1 < j2 < creds@.len() ==> creds@[j1].id < creds@[j2].id,
                forall|j: int|
                    0 <= j < creds@.len() ==> (#[trigger] creds@[j]).active_count == self.active_of(
                        creds@[j].id,
                    ),
                forall|j: int|
                    0 <= j < creds@.len() ==> self.active_of((#[trigger] creds@[j]).id) > 0
                        || self.has_binding_to(creds@[j].id),
                forall|u: int|
                    0 <= u < self.concurrency@.len() ==> listed(
                        creds@,
                        #[trigger] self.concurrency@[u].credential_id,
                    ),
                forall|u: int|
                    0 <= u < b ==> listed(creds@, #[trigger] self.bindings@[u].credential_id),
                forall|j: int, p: int|
                    0 <= j < creds@.len() && 0 <= p < creds@[j].bound_keys@.len() ==> (
                    match self.binding_of(#[trigger] creds@[j].bound_keys@[p]@) {
                        Some((cc, _)) => cc == creds@[j].id,
                        None => false,
                    }),
            decreases bn - b,
        {
            let cid = self.bindings[b].credential_id;
            let mut pos: usize = 0;
            let m = creds.len();
            while pos < m && creds[pos].id < cid
                invariant
                    m == creds@.len(),
                    pos <= m,
                    forall|j: int| 0 <= j < pos ==> creds@[j].id < cid,
                decreases m - pos,
            {
                pos = pos + 1;
            }
            let present = pos < m && creds[pos].id == cid;
            if !present {
                let ghost pre_creds = creds@;
                let active = self.active_count_lookup(cid);
                let keys = self.keys_bound_to(cid);
                proof {
                    assert(self.has_binding_to(cid)) by {
                        assert(self.bindings@[b as int].credential_id == cid);
                    }
                }
                creds.insert(
                    pos,
                    CredentialSnapshot { id: cid, active_count: active, bound_keys: keys },
                );
                proof {
                    assert forall|j: int| 0 <= j < creds@.len() implies (#[trigger] creds@[j])
                        == (if j < pos as int {
                        pre_creds[j]
                    } else if j == pos as int {
                        creds@[pos as int]
                    } else {
                        pre_creds[j - 1]
                    }) by {}
                    assert(creds@ =~= pre_creds.insert(pos as int, creds@[pos as int]));
                    assert forall|u: int| 0 <= u < self.concurrency@.len() implies listed(
                        creds@,
                        #[trigger] self.concurrency@[u].credential_id,
                    ) by {
                        lemma_listed_insert(
                            pre_creds,
                            pos as int,
                            creds@[pos as int],
                            self.concurrency@[u].credential_id,
                        );
                    }
                    assert forall|u: int| 0 <= u < b + 1 implies listed(
                        creds@,
                        #[trigger] self.bindings@[u].credential_id,
                    ) by {
                        lemma_listed_insert(
                            pre_creds,
                            pos as int,
                            creds@[pos as int],
                            self.bindings@[u].credential_id,
                        );
                    }
                }
            } else {
                proof {
                    assert forall|u: int| 0 <= u < b + 1 implies listed(
                        creds@,
                        #[trigger] self.bindings@[u].credential_id,
                    ) by {
                        if u == b as int {
                            assert(creds@[pos as int].id == self.bindings@[u].credential_id);
                        }
                    }
                }
            }
            b = b + 1;
        }
        proof {
            assert forall|c: u64| #[trigger] self.active_of(c) > 0 implies exists|j: int|
                0 <= j < creds@.len() && creds@[j].id == c by {
                assert(has_cred_entry(self.concurrency@, c)) by {
                    if !has_cred_entry(self.concurrency@, c) {
                        assert(count_cred(self.model(), c) == 0);
                    }
                }
                let u = choose|u: int|
                    0 <= u < self.concurrency@.len() && self.concurrency@[u].credential_id == c;
                assert(listed(creds@, self.concurrency@[u].credential_id));
            }
            assert forall|kk: Seq<char>|
                (match #[trigger] self.binding_of(kk) {
                    Some((c, _)) => exists|j: int| 0 <= j < creds@.len() && creds@[j].id == c,
                    None => true,
                }) by {
                if self.binding_of(kk) is Some {
                    lemma_find_binding_char(self.bindings@, kk);
                    let u = choose|u: int|
                        0 <= u < self.bindings@.len() && self.bindings@[u].api_key@ == kk && (
                        forall|j: int| 0 <= j < u ==> self.bindings@[j].api_key@ != kk);
                    lemma_find_binding_at(self.bindings@, kk, u);
                    assert(listed(creds@, self.bindings@[u].credential_id));
                }
            }
        }
        StickySnapshot {
            credentials: creds,
            stats: self.stats.clone(),
            active_stream_count: self.active_streams.len(),
        }
    }

    /// One snapshot row per outstanding stream, ordered by stream id.
    pub fn stream_snapshots(&self, now: u64) -> (snaps: Vec<StreamSnapshot>)
        requires
            self.wf(),
        ensures
            snaps@.len() == self.total_streams(),
            forall|j1: int, j2: int|
                0 <= j1 < j2 < snaps@.len() ==> snaps@[j1].stream_id < snaps@[j2].stream_id,
            forall|j: int|
                0 <= j < snaps@.len() ==> stream_snapshot_matches(
                    self.model()[j],
                    #[trigger] snaps@[j],
                    now,
                ),
    {
        let mut snaps: Vec<StreamSnapshot> = Vec::new();
        let n = self.active_streams.len();
        let mut i: usize = 0;
        while i < n
            invariant
                self.wf(),
                n == self.active_streams@.len(),
                i <= n,
                snaps@.len() == i,
                forall|j: int|
                    0 <= j < i ==> stream_snapshot_matches(
                        self.model()[j],
                        #[trigger] snaps@[j],
                        now,
                    ),
            decreases n - i,
        {
            let s = &self.active_streams[i];
            let ago: u64 = if now >= s.last_touch_at {
                (now - s.last_touch_at) / 1000
            } else {
                0
            };
            snaps.push(
                StreamSnapshot {
                    stream_id: s.stream_id,
                    credential_id: s.credential_id,
                    api_key: s.api_key.clone(),
                    session_id: match &s.session_id {
                        Some(x) => Some(x.clone()),
                        None => None,
                    },
                    activated: s.activated,
                    started_at_secs_ago: ago,
                },
            );
            proof {
                assert(stream_snapshot_matches(self.model()[i as int], snaps@[i as int], now));
            }
            i = i + 1;
        }
        proof {
            assert forall|j1: int, j2: int| 0 <= j1 < j2 < snaps@.len()
                implies snaps@[j1].stream_id < snaps@[j2].stream_id by {
                assert(stream_snapshot_matches(self.model()[j1], snaps@[j1], now));
                assert(stream_snapshot_matches(self.model()[j2], snaps@[j2], now));
            }
        }
        snaps
    }

    /// The credential this key is bound to, if the binding is still fresh.
    pub fn get_bound_credential(&self, api_key: &str, now: u64) -> (r: Option<u64>)
        ensures
            r == match self.binding_of(api_key@) {
                Some((c, t)) => if now <= t + self.spec_sticky_expiry_minutes() * 60000 {
                    Some(c)
                } else {
                    None::<u64>
                },
                None => None::<u64>,
            },
    {
        let key = String::from_str(api_key);
        let timeout: u64 = (self.sticky_expiry_minutes as u64) * 60000;
        match self.find_binding_index(&key) {
            None => None,
            Some(i) => {
                let b_cred = self.bindings[i].credential_id;
                let b_at = self.bindings[i].last_request_at;
                if now >= b_at {
                    if now - b_at <= timeout {
                        Some(b_cred)
                    } else {
                        None
                    }
                } else {
                    Some(b_cred)
                }
            },
        }
    }
}

// ---------------------------------------------------------------------------
// Stream guard
// ---------------------------------------------------------------------------

/// An owned handle for one reserved stream.  `release` consumes the guard,
/// so the release paired with a reservation can happen only once: a second
/// release of the same guard does not typecheck, and `deactivate_stream`
/// on an id that is gone changes nothing.  Callers must not bypass the
/// guard by calling `deactivate_stream` themselves.
pub struct StreamGuard {
    stream_id: StreamId,
    activated: bool,
}

impl StreamGuard {
    pub closed spec fn spec_stream_id(self) -> StreamId {
        self.stream_id
    }

    pub closed spec fn spec_activated(self) -> bool {
        self.activated
    }

    /// Wraps the stream id handed out by `try_acquire`.
    pub fn new(stream_id: StreamId) -> (g: Self)
        ensures
            g.spec_stream_id() == stream_id,
            !g.spec_activated(),
    {
        StreamGuard { stream_id, activated: false }
    }

    pub fn stream_id(&self) -> (r: StreamId)
        ensures
            r == self.spec_stream_id(),
    {
        self.stream_id
    }

    /// Marks the stream as activated, once; later calls change nothing.
    pub fn activate(&mut self, tracker: &mut StickyTracker, now: u64)
        requires
            old(tracker).wf(),
        ensures
            final(tracker).wf(),
            final(self).spec_stream_id() == old(self).spec_stream_id(),
            final(self).spec_activated(),
            !old(self).spec_activated() ==> final(tracker).model() == touch_model(
                old(tracker).model(),
                old(self).spec_stream_id(),
                now,
                true,
            ),
            old(self).spec_activated() ==> *final(tracker) == *old(tracker),
            final(tracker).same_bindings(*old(tracker)),
            final(tracker).spec_stats() == old(tracker).spec_stats(),
            final(tracker).spec_next_stream_id() == old(tracker).spec_next_stream_id(),
            final(tracker).same_config(*old(tracker)),
    {
        if !self.activated {
            tracker.activate_stream(self.stream_id, now);
            self.activated = true;
        }
    }

    /// Refreshes the stream's clock.
    pub fn touch(&self, tracker: &mut StickyTracker, now: u64)
        requires
            old(tracker).wf(),
        ensures
            final(tracker).wf(),
            final(tracker).model() == touch_model(
                old(tracker).model(),
                self.spec_stream_id(),
                now,
                false,
            ),
            final(tracker).same_bindings(*old(tracker)),
            final(tracker).spec_stats() == old(tracker).spec_stats(),
            final(tracker).spec_next_stream_id() == old(tracker).spec_next_stream_id(),
            final(tracker).same_config(*old(tracker)),
    {
        tracker.touch_stream(self.stream_id, now);
    }

    /// Gives the concurrency credit back, exactly once: the stream is
    /// removed and both counters drop by one, whether or not the stream
    /// was ever activated.
    pub fn release(self, tracker: &mut StickyTracker)
        requires
            old(tracker).wf(),
        ensures
            final(tracker).wf(),
            final(tracker).same_bindings(*old(tracker)),
            final(tracker).spec_stats() == old(tracker).spec_stats(),
            final(tracker).spec_next_stream_id() == old(tracker).spec_next_stream_id(),
            final(tracker).same_config(*old(tracker)),
            !final(tracker).has_stream(self.spec_stream_id()),
            !old(tracker).has_stream(self.spec_stream_id()) ==> final(tracker).model() == old(
                tracker,
            ).model(),
            old(tracker).has_stream(self.spec_stream_id()) ==> final(tracker).total_streams() + 1
                == old(tracker).total_streams(),
            old(tracker).has_stream(self.spec_stream_id()) ==> forall|c: u64|
                #[trigger] final(tracker).active_of(c) + (if old(tracker).stream_at(
                    self.spec_stream_id(),
                ).credential_id == c {
                    1int
                } else {
                    0int
                }) == old(tracker).active_of(c),
            old(tracker).has_stream(self.spec_stream_id()) ==> forall|c: u64, k: Seq<char>|
                #[trigger] final(tracker).key_count_of(c, k) + (if old(tracker).stream_at(
                    self.spec_stream_id(),
                ).credential_id == c && old(tracker).stream_at(self.spec_stream_id()).api_key == k {
                    1int
                } else {
                    0int
                }) == old(tracker).key_count_of(c, k),
    {
        tracker.deactivate_stream(self.stream_id);
    }
}

// ---------------------------------------------------------------------------
// Counting laws
// ---------------------------------------------------------------------------

/// Sum of per-key stream counts of one credential, over a list of keys.
pub open spec fn sum_key_counts(ms: Seq<StreamModel>, c: u64, keys: Seq<Seq<char>>) -> nat
    decreases keys.len(),
{
    if keys.len() == 0 {
        0
    } else {
        count_streams(ms, c, keys.first()) + sum_key_counts(ms, c, keys.drop_first())
    }
}

/// Sum of per-credential stream counts over a list of credentials.
pub open spec fn sum_cred_counts(ms: Seq<StreamModel>, creds: Seq<u64>) -> nat
    decreases creds.len(),
{
    if creds.len() == 0 {
        0
    } else {
        count_cred(ms, creds.first()) + sum_cred_counts(ms, creds.drop_first())
    }
}

proof fn lemma_sum_key_drop_last(ms: Seq<StreamModel>, c: u64, keys: Seq<Seq<char>>)
    requires
        ms.len() > 0,
        forall|p: int, q: int| 0 <= p < q < keys.len() ==> keys[p] != keys[q],
    ensures
        sum_key_counts(ms, c, keys) == sum_key_counts(ms.drop_last(), c, keys) + (
        if ms.last().credential_id == c && keys.contains(ms.last().api_key) {
            1nat
        } else {
            0nat
        }),
    decreases keys.len(),
{
    if keys.len() > 0 {
        let rest = keys.drop_first();
        assert(forall|p: int, q: int| 0 <= p < q < rest.len() ==> rest[p] != rest[q]);
        lemma_sum_key_drop_last(ms, c, rest);
        if ms.last().credential_id == c {
            if ms.last().api_key == keys.first() {
                assert(!rest.contains(ms.last().api_key)) by {
                    if rest.contains(ms.last().api_key) {
                        let q = choose|q: int| 0 <= q < rest.len() && rest[q] == ms.last().api_key;
                        assert(keys[q + 1] == keys[0]);
                    }
                }
                assert(keys.contains(ms.last().api_key)) by {
                    assert(keys[0] == ms.last().api_key);
                }
            } else {
                assert(keys.contains(ms.last().api_key) == rest.contains(ms.last().api_key)) by {
                    if keys.contains(ms.last().api_key) {
                        let q = choose|q: int|
                            0 <= q < keys.len() && keys[q] == ms.last().api_key;
                        assert(q != 0);
                        assert(rest[q - 1] == ms.last().api_key);
                    }
                    if rest.contains(ms.last().api_key) {
                        let q = choose|q: int| 0 <= q < rest.len() && rest[q] == ms.last().api_key;
                        assert(keys[q + 1] == ms.last().api_key);
                    }
                }
            }
        }
    }
}

proof fn lemma_count_cred_is_sum(ms: Seq<StreamModel>, c: u64, keys: Seq<Seq<char>>)
    requires
        forall|p: int, q: int| 0 <= p < q < keys.len() ==> keys[p] != keys[q],
        forall|i: int|
            0 <= i < ms.len() && (#[trigger] ms[i]).credential_id == c ==> keys.contains(
                ms[i].api_key,
            ),
    ensures
        count_cred(ms, c) == sum_key_counts(ms, c, keys),
    decreases ms.len(),
{
    if ms.len() == 0 {
        assert(sum_key_counts(ms, c, keys) == 0) by {
            lemma_sum_key_counts_empty(ms, c, keys);
        }
    } else {
        let inner = ms.drop_last();
        assert forall|i: int|
            0 <= i < inner.len() && (#[trigger] inner[i]).credential_id == c implies keys.contains(
            inner[i].api_key,
        ) by {
            assert(ms[i] == inner[i]);
        }
        lemma_count_cred_is_sum(inner, c, keys);
        lemma_sum_key_drop_last(ms, c, keys);
        if ms.last().credential_id == c {
            assert(ms[ms.len() - 1].credential_id == c);
            assert(keys.contains(ms.last().api_key));
        }
    }
}

proof fn lemma_sum_key_counts_empty(ms: Seq<StreamModel>, c: u64, keys: Seq<Seq<char>>)
    requires
        ms.len() == 0,
    ensures
        sum_key_counts(ms, c, keys) == 0,
    decreases keys.len(),
{
    if keys.len() > 0 {
        lemma_sum_key_counts_empty(ms, c, keys.drop_first());
    }
}

proof fn lemma_sum_cred_drop_last(ms: Seq<StreamModel>, creds: Seq<u64>)
    requires
        ms.len() > 0,
        forall|p: int, q: int| 0 <= p < q < creds.len() ==> creds[p] != creds[q],
    ensures
        sum_cred_counts(ms, creds) == sum_cred_counts(ms.drop_last(), creds) + (
        if creds.contains(ms.last().credential_id) {
            1nat
        } else {
            0nat
        }),
    decreases creds.len(),
{
    if creds.len() > 0 {
        let rest = creds.drop_first();
        assert(forall|p: int, q: int| 0 <= p < q < rest.len() ==> rest[p] != rest[q]);
        lemma_sum_cred_drop_last(ms, rest);
        let lc = ms.last().credential_id;
        if lc == creds.first() {
            assert(!rest.contains(lc)) by {
                if rest.contains(lc) {
                    let q = choose|q: int| 0 <= q < rest.len() && rest[q] == lc;
                    assert(creds[q + 1] == creds[0]);
                }
            }
            assert(creds.contains(lc)) by {
                assert(creds[0] == lc);
            }
        } else {
            assert(creds.contains(lc) == rest.contains(lc)) by {
                if creds.contains(lc) {
                    let q = choose|q: int| 0 <= q < creds.len() && creds[q] == lc;
                    assert(q != 0);
                    assert(rest[q - 1] == lc);
                }
                if rest.contains(lc) {
                    let q = choose|q: int| 0 <= q < rest.len() && rest[q] == lc;
                    assert(creds[q + 1] == lc);
                }
            }
        }
    }
}

proof fn lemma_sum_cred_counts_empty(ms: Seq<StreamModel>, creds: Seq<u64>)
    requires
        ms.len() == 0,
    ensures
        sum_cred_counts(ms, creds) == 0,
    decreases creds.len(),
{
    if creds.len() > 0 {
        lemma_sum_cred_counts_empty(ms, creds.drop_first());
    }
}

/// For every credential and key, the per-key count equals the number of
/// outstanding streams carrying that pair, the per-credential count equals
/// the number of streams the credential holds, and — for any duplicate-free
/// list of keys covering every stream of the credential — the
/// per-credential count is the sum of the per-key counts.
pub proof fn lemma_counts_consistent(t: StickyTracker, c: u64, k: Seq<char>, keys: Seq<Seq<char>>)
    requires
        t.wf(),
        forall|p: int, q: int| 0 <= p < q < keys.len() ==> keys[p] != keys[q],
        forall|i: int|
            0 <= i < t.model().len() && (#[trigger] t.model()[i]).credential_id == c
                ==> keys.contains(t.model()[i].api_key),
    ensures
        t.key_count_of(c, k) == count_streams(t.model(), c, k),
        t.active_of(c) == count_cred(t.model(), c),
        t.active_of(c) == sum_key_counts(t.model(), c, keys),
{
    lemma_count_cred_is_sum(t.model(), c, keys);
}

/// The per-credential counts over any duplicate-free list of credentials
/// covering every stream sum to the total number of outstanding streams —
/// each of which is owed to exactly one live reservation or guard.
pub proof fn lemma_total_active_counts(t: StickyTracker, creds: Seq<u64>)
    requires
        t.wf(),
        forall|p: int, q: int| 0 <= p < q < creds.len() ==> creds[p] != creds[q],
        forall|i: int|
            0 <= i < t.model().len() ==> creds.contains((#[trigger] t.model()[i]).credential_id),
    ensures
        sum_cred_counts(t.model(), creds) == t.total_streams(),
{
    lemma_total_active_inner(t.model(), creds);
}

proof fn lemma_total_active_inner(ms: Seq<StreamModel>, creds: Seq<u64>)
    requires
        forall|p: int, q: int| 0 <= p < q < creds.len() ==> creds[p] != creds[q],
        forall|i: int| 0 <= i < ms.len() ==> creds.contains((#[trigger] ms[i]).credential_id),
    ensures
        sum_cred_counts(ms, creds) == ms.len(),
    decreases ms.len(),
{
    if ms.len() == 0 {
        lemma_sum_cred_counts_empty(ms, creds);
    } else {
        let inner = ms.drop_last();
        assert forall|i: int| 0 <= i < inner.len() implies creds.contains(
            (#[trigger] inner[i]).credential_id,
        ) by {
            assert(ms[i] == inner[i]);
        }
        lemma_total_active_inner(inner, creds);
        lemma_sum_cred_drop_last(ms, creds);
        assert(ms[ms.len() - 1] == ms.last());
        assert(creds.contains(ms.last().credential_id));
    }
}

} // verus!
