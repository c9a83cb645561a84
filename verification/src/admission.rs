//! Per-client admission control: a token bucket for every client identity.
//!
//! Time is a count of milliseconds handed in by the caller. Token levels are
//! kept in thousandths of a token, so a rate of `R` tokens per second is
//! exactly `R` thousandths per millisecond and no rounding ever happens.

use vstd::prelude::*;

verus! {

/// Outcome of an admission check.
#[derive(Clone, Copy, Debug, PartialEq, Eq, Structural)]
pub enum Decision {
    Allow,
    Reject,
}

/// Mathematical state of one client's bucket: the thousandths of a token it
/// held when it was last looked at, and the millisecond of that look.
pub struct Bucket {
    pub level: nat,
    pub last: nat,
}

/// Level of a bucket that holds `capacity` whole tokens.
pub open spec fn full_level(capacity: nat) -> nat {
    1000 * capacity
}

/// Level of bucket `b` at instant `now`: what it held plus what has dripped in
/// since, never above the full level. An instant before `b.last` adds nothing.
pub open spec fn level_at(b: Bucket, now: nat, capacity: nat, rate: nat) -> nat {
    let elapsed: nat = if now >= b.last { (now - b.last) as nat } else { 0 };
    let raw: nat = b.level + elapsed * rate;
    if raw >= full_level(capacity) { full_level(capacity) } else { raw }
}

/// A request at `now` is let through exactly when one whole token is there.
pub open spec fn allowed(b: Bucket, now: nat, capacity: nat, rate: nat) -> bool {
    level_at(b, now, capacity, rate) >= 1000
}

/// The decision that `allowed` stands for.
pub open spec fn decision(b: Bucket, now: nat, capacity: nat, rate: nat) -> Decision {
    if allowed(b, now, capacity, rate) { Decision::Allow } else { Decision::Reject }
}

/// Bucket `b` after a request at `now`: refilled, then one token poorer if the
/// request was let through.
pub open spec fn charged(b: Bucket, now: nat, capacity: nat, rate: nat) -> Bucket {
    let level: nat = level_at(b, now, capacity, rate);
    Bucket { level: if level >= 1000 { (level - 1000) as nat } else { level }, last: now }
}

/// The bucket a client is given on its first request: full.
pub open spec fn fresh(now: nat, capacity: nat) -> Bucket {
    Bucket { level: full_level(capacity), last: now }
}

/// A bucket is idle at `now` when it is back at the full level.
pub open spec fn is_idle(b: Bucket, now: nat, capacity: nat, rate: nat) -> bool {
    level_at(b, now, capacity, rate) == full_level(capacity)
}

/// What a reclamation pass at `now` leaves of the tracked buckets: those not idle, untouched.
pub open spec fn retained(m: Map<u128, Bucket>, now: nat, capacity: nat, rate: nat) -> Map<
    u128,
    Bucket,
> {
    Map::new(
        |id: u128| m.contains_key(id) && !is_idle(m[id], now, capacity, rate),
        |id: u128| m[id],
    )
}

/// The later of two instants.
pub open spec fn later(a: nat, b: nat) -> nat {
    if a >= b { a } else { b }
}

/// How many of `n` requests, the first at `start` and each `delta` after the
/// one before, a bucket in state `b` lets through.
pub open spec fn allowed_count(
    b: Bucket,
    start: nat,
    delta: nat,
    n: nat,
    capacity: nat,
    rate: nat,
) -> nat
    decreases n,
{
    if n == 0 {
        0
    } else {
        let first: nat = if allowed(b, start, capacity, rate) { 1 } else { 0 };
        first + allowed_count(
            charged(b, start, capacity, rate),
            start + delta,
            delta,
            (n - 1) as nat,
            capacity,
            rate,
        )
    }
}

/// Bucket `b` after `n` requests that all arrive at the instant `now`.
pub open spec fn after_burst(b: Bucket, now: nat, n: nat, capacity: nat, rate: nat) -> Bucket
    decreases n,
{
    if n == 0 {
        b
    } else {
        charged(after_burst(b, now, (n - 1) as nat, capacity, rate), now, capacity, rate)
    }
}

/// What one request can cost: of `n` requests spaced `delta` apart, no more
/// are let through than the tokens there at the first plus what drips in
/// between, counted in thousandths.
proof fn lemma_count_within_supply(
    b: Bucket,
    start: nat,
    delta: nat,
    n: nat,
    capacity: nat,
    rate: nat,
)
    requires
        n >= 1,
    ensures
        1000 * allowed_count(b, start, delta, n, capacity, rate) <= level_at(
            b,
            start,
            capacity,
            rate,
        ) + (rate * delta) * (n - 1),
    decreases n,
{
    let next = charged(b, start, capacity, rate);
    if n == 1 {
        assert(allowed_count(next, start + delta, delta, 0, capacity, rate) == 0);
        assert((rate * delta) * 0 == 0);
    } else {
        lemma_count_within_supply(next, start + delta, delta, (n - 1) as nat, capacity, rate);
        assert(level_at(next, start + delta, capacity, rate) <= next.level + delta * rate);
        assert(delta * rate + (rate * delta) * (n - 2) == (rate * delta) * (n - 1))
            by (nonlinear_arith);
    }
}

/// The token-bucket bound. Of `n` requests of one client, each `delta`
/// milliseconds after the one before, the number let through is at most the
/// capacity plus what the rate yields over the window that the requests span:
/// in thousandths, `1000 * count <= 1000 * B + R * W` with `W = delta * (n - 1)`
/// milliseconds. It holds from every bucket state, so also of every window
/// inside a longer run of requests.
pub proof fn lemma_token_bucket_bound(
    b: Bucket,
    start: nat,
    delta: nat,
    n: nat,
    capacity: nat,
    rate: nat,
)
    requires
        n >= 1,
    ensures
        1000 * allowed_count(b, start, delta, n, capacity, rate) <= full_level(capacity) + rate * (
        delta * (n - 1)),
{
    lemma_count_within_supply(b, start, delta, n, capacity, rate);
    assert((rate * delta) * (n - 1) == rate * (delta * (n - 1))) by (nonlinear_arith);
}

/// A burst. From a bucket that is full at `now`, as a new client's is, the
/// request that follows `k` others of the same instant finds
/// `capacity - k` tokens, or none once `k` has reached the capacity: so the
/// first `capacity` requests are let through and every later one of that
/// instant is turned away.
pub proof fn lemma_burst(b: Bucket, now: nat, k: nat, capacity: nat, rate: nat)
    requires
        is_idle(b, now, capacity, rate),
    ensures
        level_at(after_burst(b, now, k, capacity, rate), now, capacity, rate) == 1000 * (if k
            <= capacity {
            capacity - k
        } else {
            0
        }),
        allowed(after_burst(b, now, k, capacity, rate), now, capacity, rate) <==> k < capacity,
        decision(after_burst(b, now, k, capacity, rate), now, capacity, rate) == (if k
            < capacity {
            Decision::Allow
        } else {
            Decision::Reject
        }),
    decreases k,
{
    if k > 0 {
        lemma_burst(b, now, (k - 1) as nat, capacity, rate);
        let prev = after_burst(b, now, (k - 1) as nat, capacity, rate);
        let cur = charged(prev, now, capacity, rate);
        assert(cur.last == now);
        assert(0 * rate == 0);
        assert(level_at(cur, now, capacity, rate) == cur.level);
    }
}

/// A client's first bucket is full, hence idle, at the instant it is made.
pub proof fn lemma_fresh_is_idle(now: nat, capacity: nat, rate: nat)
    ensures
        is_idle(fresh(now, capacity), now, capacity, rate),
{
    assert(0 * rate == 0);
}

/// Forgetting an idle bucket changes nothing. If `b` was back at the full
/// level at `swept`, then at any instant from `swept` on a request decides
/// and leaves the bucket exactly as it would with a bucket made anew.
pub proof fn lemma_forgotten_like_fresh(
    b: Bucket,
    swept: nat,
    now: nat,
    capacity: nat,
    rate: nat,
)
    requires
        b.last <= swept <= now,
        is_idle(b, swept, capacity, rate),
    ensures
        is_idle(b, now, capacity, rate),
        level_at(b, now, capacity, rate) == level_at(fresh(now, capacity), now, capacity, rate),
        decision(b, now, capacity, rate) == decision(fresh(now, capacity), now, capacity, rate),
        charged(b, now, capacity, rate) == charged(fresh(now, capacity), now, capacity, rate),
{
    assert(0 * rate == 0);
    assert((swept - b.last) * rate <= (now - b.last) * rate) by (nonlinear_arith)
        requires
            b.last <= swept <= now,
    ;
}


/// The bucket that a request of `id` at `now` finds among the buckets `m`:
/// the one held for `id`, or a fresh full one where none is held.
pub open spec fn bucket_in(m: Map<u128, Bucket>, id: u128, now: nat, capacity: nat) -> Bucket {
    if m.contains_key(id) {
        m[id]
    } else {
        fresh(now, capacity)
    }
}

/// A reclamation pass cannot be observed. Whatever buckets `m` holds, a
/// request of any client at `now`, after a pass at `swept`, is decided as it
/// would have been without the pass, and leaves the same bucket behind.
pub proof fn lemma_reclaim_is_unobservable(
    m: Map<u128, Bucket>,
    id: u128,
    swept: nat,
    now: nat,
    capacity: nat,
    rate: nat,
)
    requires
        swept <= now,
        m.contains_key(id) ==> m[id].last <= swept,
    ensures
        decision(
            bucket_in(retained(m, swept, capacity, rate), id, now, capacity),
            now,
            capacity,
            rate,
        ) == decision(bucket_in(m, id, now, capacity), now, capacity, rate),
        charged(
            bucket_in(retained(m, swept, capacity, rate), id, now, capacity),
            now,
            capacity,
            rate,
        ) == charged(bucket_in(m, id, now, capacity), now, capacity, rate),
{
    if m.contains_key(id) && is_idle(m[id], swept, capacity, rate) {
        lemma_forgotten_like_fresh(m[id], swept, now, capacity, rate);
    }
}

#[derive(Clone, Copy, Debug)]
struct Entry {
    id: u128,
    level: u128,
    last: u64,
}

spec fn bucket(e: Entry) -> Bucket {
    Bucket { level: e.level as nat, last: e.last as nat }
}

spec fn distinct(s: Seq<Entry>) -> bool {
    forall|i: int, j: int| 0 <= i < j < s.len() ==> s[i].id != s[j].id
}

spec fn to_map(s: Seq<Entry>) -> Map<u128, Bucket>
    decreases s.len(),
{
    if s.len() == 0 {
        Map::empty()
    } else {
        to_map(s.drop_last()).insert(s.last().id, bucket(s.last()))
    }
}

proof fn lemma_absent(s: Seq<Entry>, id: u128)
    requires
        forall|j: int| 0 <= j < s.len() ==> s[j].id != id,
    ensures
        !to_map(s).contains_key(id),
    decreases s.len(),
{
    if s.len() > 0 {
        lemma_absent(s.drop_last(), id);
    }
}

proof fn lemma_present(s: Seq<Entry>, i: int)
    requires
        distinct(s),
        0 <= i < s.len(),
    ensures
        to_map(s).contains_key(s[i].id),
        to_map(s)[s[i].id] == bucket(s[i]),
    decreases s.len(),
{
    if i < s.len() - 1 {
        lemma_present(s.drop_last(), i);
    }
}

proof fn lemma_index_of(s: Seq<Entry>, id: u128) -> (j: int)
    requires
        distinct(s),
        to_map(s).contains_key(id),
    ensures
        0 <= j < s.len(),
        s[j].id == id,
        to_map(s)[id] == bucket(s[j]),
    decreases s.len(),
{
    if s.last().id == id {
        s.len() - 1
    } else {
        lemma_index_of(s.drop_last(), id)
    }
}

proof fn lemma_push(s: Seq<Entry>, e: Entry)
    ensures
        to_map(s.push(e)) == to_map(s).insert(e.id, bucket(e)),
{
    assert(s.push(e).drop_last() =~= s);
}

proof fn lemma_update(s: Seq<Entry>, i: int, e: Entry)
    requires
        distinct(s),
        0 <= i < s.len(),
        e.id == s[i].id,
    ensures
        to_map(s.update(i, e)) =~= to_map(s).insert(e.id, bucket(e)),
    decreases s.len(),
{
    let u = s.update(i, e);
    if i == s.len() - 1 {
        assert(u.drop_last() =~= s.drop_last());
    } else {
        lemma_update(s.drop_last(), i, e);
        assert(u.drop_last() =~= s.drop_last().update(i, e));
    }
}

proof fn lemma_size(s: Seq<Entry>)
    requires
        distinct(s),
    ensures
        to_map(s).dom().finite(),
        to_map(s).dom().len() == s.len(),
    decreases s.len(),
{
    if s.len() > 0 {
        lemma_size(s.drop_last());
        lemma_absent(s.drop_last(), s.last().id);
    }
}

fn find(entries: &Vec<Entry>, id: u128) -> (r: Option<usize>)
    ensures
        match r {
            Some(i) => i < entries@.len() && entries@[i as int].id == id,
            None => forall|j: int| 0 <= j < entries@.len() ==> entries@[j].id != id,
        },
{
    let mut i: usize = 0;
    while i < entries.len()
        invariant
            i <= entries@.len(),
            forall|j: int| 0 <= j < i ==> entries@[j].id != id,
        decreases entries@.len() - i,
    {
        if entries[i].id == id {
            return Some(i);
        }
        i += 1;
    }
    None
}

fn refill(level: u128, last: u64, now: u64, rate: u64, capacity: u64) -> (r: u128)
    requires
        level <= 1000 * capacity,
    ensures
        r == level_at(
            Bucket { level: level as nat, last: last as nat },
            now as nat,
            capacity as nat,
            rate as nat,
        ),
{
    let full: u128 = (capacity as u128) * 1000;
    let elapsed: u64 = if now >= last { now - last } else { 0 };
    assert((elapsed as int) * (rate as int) <= 0xFFFF_FFFF_FFFF_FFFF * 0xFFFF_FFFF_FFFF_FFFF)
        by (nonlinear_arith)
        requires
            0 <= elapsed <= 0xFFFF_FFFF_FFFF_FFFF,
            0 <= rate <= 0xFFFF_FFFF_FFFF_FFFF,
    ;
    let gain: u128 = (elapsed as u128) * (rate as u128);
    let room: u128 = full - level;
    if gain >= room { full } else { level + gain }
}

fn sweep(entries: &Vec<Entry>, now: u64, rate: u64, capacity: u64) -> (kept: Vec<Entry>)
    requires
        distinct(entries@),
        forall|i: int| 0 <= i < entries@.len() ==> entries@[i].level <= 1000 * capacity,
    ensures
        distinct(kept@),
        to_map(kept@) == retained(to_map(entries@), now as nat, capacity as nat, rate as nat),
        forall|k: int|
            0 <= k < kept@.len() ==> exists|j: int|
                0 <= j < entries@.len() && entries@[j] == #[trigger] kept@[k],
{
    let mut kept: Vec<Entry> = Vec::new();
    let full: u128 = (capacity as u128) * 1000;
    let mut i: usize = 0;
    while i < entries.len()
        invariant
            i <= entries@.len(),
            full == 1000 * capacity,
            distinct(entries@),
            distinct(kept@),
            forall|i: int| 0 <= i < entries@.len() ==> entries@[i].level <= 1000 * capacity,
            to_map(kept@) == retained(
                to_map(entries@.take(i as int)),
                now as nat,
                capacity as nat,
                rate as nat,
            ),
            forall|k: int|
                0 <= k < kept@.len() ==> exists|j: int|
                    0 <= j < entries@.len() && entries@[j] == #[trigger] kept@[k],
        decreases entries@.len() - i,
    {
        let e = entries[i];
        let level = refill(e.level, e.last, now, rate, capacity);
        proof {
            let seen = entries@.take(i as int);
            assert(entries@.take(i + 1) =~= seen.push(e));
            lemma_push(seen, e);
            lemma_absent(seen, e.id);
            if level != full {
                assert forall|k: int| 0 <= k < kept@.len() implies kept@[k].id != e.id by {
                    if kept@[k].id == e.id {
                        lemma_present(kept@, k);
                    }
                }
                lemma_push(kept@, e);
                assert(to_map(kept@).insert(e.id, bucket(e)) =~= retained(
                    to_map(seen).insert(e.id, bucket(e)),
                    now as nat,
                    capacity as nat,
                    rate as nat,
                ));
            } else {
                assert(to_map(kept@) =~= retained(
                    to_map(seen).insert(e.id, bucket(e)),
                    now as nat,
                    capacity as nat,
                    rate as nat,
                ));
            }
        }
        if level != full {
            kept.push(e);
        }
        i += 1;
    }
    proof {
        assert(entries@.take(i as int) =~= entries@);
    }
    kept
}

/// Tracks one token bucket per client identity and decides on each request.
pub struct AdmissionController {
    capacity: u64,
    rate: u64,
    clock: u64,
    entries: Vec<Entry>,
}

impl AdmissionController {
    /// Whole tokens a bucket holds when full.
    pub closed spec fn cap(&self) -> nat {
        self.capacity as nat
    }

    /// Tokens that drip into a bucket per second.
    pub closed spec fn pace(&self) -> nat {
        self.rate as nat
    }

    /// The latest instant the controller has been told of.
    pub closed spec fn clock(&self) -> nat {
        self.clock as nat
    }

    /// The buckets held, by client identity.
    pub closed spec fn buckets(&self) -> Map<u128, Bucket> {
        to_map(self.entries@)
    }

    /// Validity: no identity is held twice, no bucket is above the full level
    /// or was looked at after the controller's clock.
    pub closed spec fn wf(&self) -> bool {
        &&& distinct(self.entries@)
        &&& forall|i: int|
            0 <= i < self.entries@.len() ==> self.entries@[i].level <= 1000 * self.capacity
                && self.entries@[i].last <= self.clock
    }

    /// The bucket that a request of `id` at `now` finds: the tracked one, or a
    /// fresh full one for an identity not tracked.
    pub open spec fn bucket_of(&self, id: u128, now: nat) -> Bucket {
        bucket_in(self.buckets(), id, now, self.cap())
    }

    /// Every tracked bucket is within `[0, capacity]` tokens and was last
    /// looked at no later than the controller's clock.
    pub proof fn lemma_bucket_in_range(&self, id: u128)
        requires
            self.wf(),
            self.buckets().contains_key(id),
        ensures
            self.buckets()[id].level <= full_level(self.cap()),
            self.buckets()[id].last <= self.clock(),
    {
        let j = lemma_index_of(self.entries@, id);
    }

    /// A controller that tracks nobody yet.
    pub fn new(capacity: u64, rate: u64) -> (c: AdmissionController)
        ensures
            c.wf(),
            c.cap() == capacity,
            c.pace() == rate,
            c.clock() == 0,
            c.buckets() == Map::<u128, Bucket>::empty(),
    {
        AdmissionController { capacity, rate, clock: 0, entries: Vec::new() }
    }

    /// The controller this server runs with: bursts of 8, refilled at 2 per second.
    pub fn with_defaults() -> (c: AdmissionController)
        ensures
            c.wf(),
            c.cap() == 8,
            c.pace() == 2,
            c.clock() == 0,
            c.buckets() == Map::<u128, Bucket>::empty(),
    {
        AdmissionController::new(8, 2)
    }

    pub fn capacity(&self) -> (r: u64)
        ensures
            r == self.cap(),
    {
        self.capacity
    }

    pub fn rate(&self) -> (r: u64)
        ensures
            r == self.pace(),
    {
        self.rate
    }

    /// Number of identities tracked.
    pub fn len(&self) -> (n: usize)
        requires
            self.wf(),
        ensures
            self.buckets().dom().finite(),
            n == self.buckets().dom().len(),
    {
        proof {
            lemma_size(self.entries@);
        }
        self.entries.len()
    }

    /// Whether `identity` has a bucket at the moment.
    pub fn is_tracked(&self, identity: u128) -> (r: bool)
        requires
            self.wf(),
        ensures
            r == self.buckets().contains_key(identity),
    {
        match find(&self.entries, identity) {
            Some(i) => {
                proof {
                    lemma_present(self.entries@, i as int);
                }
                true
            },
            None => {
                proof {
                    lemma_absent(self.entries@, identity);
                }
                false
            },
        }
    }

    /// Decides on one request of `identity` arriving at millisecond `now`.
    ///
    /// The controller's clock never runs backwards: an instant earlier than
    /// one already seen counts as that later one. The bucket is refilled for
    /// the time gone by, then pays one token if it can.
    pub fn admit_at(&mut self, identity: u128, now: u64) -> (d: Decision)
        requires
            old(self).wf(),
        ensures
            final(self).wf(),
            final(self).cap() == old(self).cap(),
            final(self).pace() == old(self).pace(),
            final(self).clock() == later(old(self).clock(), now as nat),
            d == decision(
                old(self).bucket_of(identity, final(self).clock()),
                final(self).clock(),
                old(self).cap(),
                old(self).pace(),
            ),
            final(self).buckets() == old(self).buckets().insert(
                identity,
                charged(
                    old(self).bucket_of(identity, final(self).clock()),
                    final(self).clock(),
                    old(self).cap(),
                    old(self).pace(),
                ),
            ),
    {
        let t: u64 = if now > self.clock { now } else { self.clock };
        let full: u128 = (self.capacity as u128) * 1000;
        self.clock = t;
        match find(&self.entries, identity) {
            Some(i) => {
                let e = self.entries[i];
                proof {
                    lemma_present(self.entries@, i as int);
                }
                let level = refill(e.level, e.last, t, self.rate, self.capacity);
                let pays = level >= 1000;
                let left: u128 = if pays { level - 1000 } else { level };
                let next = Entry { id: identity, level: left, last: t };
                proof {
                    lemma_update(self.entries@, i as int, next);
                }
                self.entries.set(i, next);
                if pays { Decision::Allow } else { Decision::Reject }
            },
            None => {
                proof {
                    lemma_absent(self.entries@, identity);
                }
                let pays = full >= 1000;
                let left: u128 = if pays { full - 1000 } else { full };
                let next = Entry { id: identity, level: left, last: t };
                proof {
                    lemma_push(self.entries@, next);
                }
                self.entries.push(next);
                if pays { Decision::Allow } else { Decision::Reject }
            },
        }
    }

    /// Forgets every bucket that is back at the full level at millisecond
    /// `now`, leaves the others as they are, and returns how many are left.
    pub fn reclaim_idle(&mut self, now: u64) -> (remaining: usize)
        requires
            old(self).wf(),
        ensures
            final(self).wf(),
            final(self).cap() == old(self).cap(),
            final(self).pace() == old(self).pace(),
            final(self).clock() == later(old(self).clock(), now as nat),
            final(self).buckets() == retained(
                old(self).buckets(),
                final(self).clock(),
                old(self).cap(),
                old(self).pace(),
            ),
            final(self).buckets().dom().finite(),
            remaining == final(self).buckets().dom().len(),
    {
        let t: u64 = if now > self.clock { now } else { self.clock };
        self.clock = t;
        let kept = sweep(&self.entries, t, self.rate, self.capacity);
        self.entries = kept;
        proof {
            lemma_size(self.entries@);
        }
        self.entries.len()
    }
}

} // verus!
