//! Event fan-out: one stream of published events, copied to every subscriber.
//!
//! Each subscriber has an inbox of bounded depth. A subscriber that falls
//! behind never holds the publisher up and never grows without bound: when
//! its inbox is full the oldest event in it is dropped, and the subscriber is
//! told how many it missed before it is handed the next one.

use std::collections::VecDeque;
use vstd::prelude::*;

verus! {

/// What a subscriber gets when it asks for its next item.
#[derive(Debug, PartialEq, Eq)]
pub enum Delivery<E> {
    /// The oldest event still waiting.
    Event(E),
    /// This many events were dropped since the last delivery.
    Gap(u64),
    /// Nothing is waiting.
    Empty,
    /// The handle names no subscription.
    Closed,
}

/// Mathematical state of one subscription: its handle, the events that wait
/// for it, oldest first, and how many were dropped and not yet reported.
pub struct Inbox<E> {
    pub id: u64,
    pub pending: Seq<E>,
    pub missed: nat,
}

/// One more missed event; the count stops at the largest `u64`.
pub open spec fn bump(missed: nat) -> nat {
    if missed < u64::MAX { missed + 1 } else { missed }
}

/// Inbox `ib` after event `e` is published: `e` is appended, and if that
/// overfills the inbox its oldest event is dropped and counted as missed.
pub open spec fn deliver<E>(ib: Inbox<E>, e: E, depth: nat) -> Inbox<E> {
    let all = ib.pending.push(e);
    if all.len() > depth {
        Inbox { id: ib.id, pending: all.subrange(1, all.len() as int), missed: bump(ib.missed) }
    } else {
        Inbox { id: ib.id, pending: all, missed: ib.missed }
    }
}

/// Inbox `ib` after the events of `events` are published in order.
pub open spec fn deliver_all<E>(ib: Inbox<E>, events: Seq<E>, depth: nat) -> Inbox<E>
    decreases events.len(),
{
    if events.len() == 0 {
        ib
    } else {
        deliver(deliver_all(ib, events.drop_last(), depth), events.last(), depth)
    }
}

/// The registry after one event is published: every inbox has taken it.
pub open spec fn published<E>(reg: Seq<Inbox<E>>, e: E, depth: nat) -> Seq<Inbox<E>> {
    Seq::new(reg.len(), |i: int| deliver(reg[i], e, depth))
}

/// The registry after the events of `events` are published in order.
pub open spec fn published_all<E>(reg: Seq<Inbox<E>>, events: Seq<E>, depth: nat) -> Seq<
    Inbox<E>,
>
    decreases events.len(),
{
    if events.len() == 0 {
        reg
    } else {
        published(published_all(reg, events.drop_last(), depth), events.last(), depth)
    }
}

/// Whether handle `h` names a subscription of the registry.
pub open spec fn listed<E>(reg: Seq<Inbox<E>>, h: u64) -> bool {
    exists|i: int| 0 <= i < reg.len() && (#[trigger] reg[i]).id == h
}

/// Where in the registry the subscription of handle `h` stands.
pub open spec fn slot<E>(reg: Seq<Inbox<E>>, h: u64) -> int {
    choose|i: int| 0 <= i < reg.len() && (#[trigger] reg[i]).id == h
}

/// What the owner of inbox `ib` is handed next: first the report of a gap,
/// then the oldest waiting event.
pub open spec fn handed<E>(ib: Inbox<E>) -> Delivery<E> {
    if ib.missed > 0 {
        Delivery::Gap(ib.missed as u64)
    } else if ib.pending.len() > 0 {
        Delivery::Event(ib.pending[0])
    } else {
        Delivery::Empty
    }
}

/// Inbox `ib` after its owner was handed `handed(ib)`.
pub open spec fn drained<E>(ib: Inbox<E>) -> Inbox<E> {
    if ib.missed > 0 {
        Inbox { id: ib.id, pending: ib.pending, missed: 0 }
    } else if ib.pending.len() > 0 {
        Inbox {
            id: ib.id,
            pending: ib.pending.subrange(1, ib.pending.len() as int),
            missed: ib.missed,
        }
    } else {
        ib
    }
}

/// What asking for the next item of handle `h` gives, and the registry it
/// leaves: the owner of a known handle is handed `handed` of its inbox, which
/// is then `drained`; an unknown handle gets `Closed` and changes nothing.
pub open spec fn polled<E>(reg: Seq<Inbox<E>>, h: u64) -> (Delivery<E>, Seq<Inbox<E>>) {
    if listed(reg, h) {
        (handed(reg[slot(reg, h)]), reg.update(slot(reg, h), drained(reg[slot(reg, h)])))
    } else {
        (Delivery::Closed, reg)
    }
}

/// The registry without the subscription of handle `h`, the others in place.
pub open spec fn released<E>(reg: Seq<Inbox<E>>, h: u64) -> Seq<Inbox<E>> {
    if listed(reg, h) {
        reg.remove(slot(reg, h))
    } else {
        reg
    }
}

/// The sum `missed + dropped`, stopped at the largest `u64` as `bump` is.
pub open spec fn capped(missed: nat, dropped: nat) -> nat {
    if missed + dropped <= u64::MAX { missed + dropped } else { u64::MAX as nat }
}

/// How many of `total` events an inbox of depth `depth` cannot hold.
pub open spec fn overflow(total: nat, depth: nat) -> nat {
    if total > depth { (total - depth) as nat } else { 0 }
}

/// Nothing is lost in silence. After the events of `events` are published, an
/// inbox holds the newest of what it held plus `events`, in publication
/// order, as far as its depth goes, and has counted every event that did not
/// fit as missed. Where all fit, it holds them all.
pub proof fn lemma_deliver_all<E>(ib: Inbox<E>, events: Seq<E>, depth: nat)
    requires
        ib.pending.len() <= depth,
        ib.missed <= u64::MAX,
    ensures
        deliver_all(ib, events, depth).id == ib.id,
        deliver_all(ib, events, depth).pending == (ib.pending + events).subrange(
            overflow((ib.pending + events).len(), depth) as int,
            (ib.pending + events).len() as int,
        ),
        deliver_all(ib, events, depth).missed == capped(
            ib.missed,
            overflow((ib.pending + events).len(), depth),
        ),
        ib.pending.len() + events.len() <= depth ==> deliver_all(ib, events, depth).pending
            == ib.pending + events,
    decreases events.len(),
{
    let all = ib.pending + events;
    if events.len() == 0 {
        assert(all =~= ib.pending);
        assert(all.subrange(0, all.len() as int) =~= all);
    } else {
        let front = events.drop_last();
        lemma_deliver_all(ib, front, depth);
        let before = ib.pending + front;
        let mid = deliver_all(ib, front, depth);
        assert(all =~= before.push(events.last()));
        let d0 = overflow(before.len(), depth);
        let d1 = overflow(all.len(), depth);
        let grown = mid.pending.push(events.last());
        assert(grown =~= all.subrange(d0 as int, all.len() as int));
        if grown.len() > depth {
            assert(d1 == d0 + 1);
            assert(grown.subrange(1, grown.len() as int) =~= all.subrange(
                d1 as int,
                all.len() as int,
            ));
        } else {
            assert(d1 == d0);
        }
        if ib.pending.len() + events.len() <= depth {
            assert(all.subrange(0, all.len() as int) =~= all);
        }
    }
}

/// Publishing to the registry is publishing to each inbox by itself: after the
/// events of `events`, the inbox at place `i` is what `deliver_all` makes of
/// it, whatever the other inboxes hold. With `lemma_deliver_all`: every
/// subscription that stays for the whole run sees all of `events` in
/// publication order, but for those a reported gap stands for.
pub proof fn lemma_published_all<E>(reg: Seq<Inbox<E>>, events: Seq<E>, depth: nat, i: int)
    requires
        0 <= i < reg.len(),
    ensures
        published_all(reg, events, depth).len() == reg.len(),
        published_all(reg, events, depth)[i] == deliver_all(reg[i], events, depth),
    decreases events.len(),
{
    if events.len() > 0 {
        lemma_published_all(reg, events.drop_last(), depth, i);
    }
}

/// A subscription that leaves takes nothing from the others: publishing
/// after the inbox at place `p` is gone gives the other inboxes exactly what
/// they would have had with it still there.
pub proof fn lemma_leaving_spares_others<E>(reg: Seq<Inbox<E>>, p: int, e: E, depth: nat)
    requires
        0 <= p < reg.len(),
    ensures
        published(reg.remove(p), e, depth) == published(reg, e, depth).remove(p),
{
    assert(published(reg.remove(p), e, depth) =~= published(reg, e, depth).remove(p));
}

struct Subscription<E> {
    id: u64,
    queue: VecDeque<E>,
    missed: u64,
}

impl<E> Subscription<E> {
    spec fn inbox(&self) -> Inbox<E> {
        Inbox { id: self.id, pending: self.queue@, missed: self.missed as nat }
    }
}

spec fn inboxes<E>(subs: Seq<Subscription<E>>) -> Seq<Inbox<E>> {
    Seq::new(subs.len(), |i: int| subs[i].inbox())
}

spec fn ordered<E>(subs: Seq<Subscription<E>>) -> bool {
    forall|i: int, j: int| 0 <= i < j < subs.len() ==> subs[i].id < subs[j].id
}

proof fn lemma_slot<E>(subs: Seq<Subscription<E>>, i: int)
    requires
        ordered(subs),
        0 <= i < subs.len(),
    ensures
        listed(inboxes(subs), subs[i].id),
        slot(inboxes(subs), subs[i].id) == i,
{
    let reg = inboxes(subs);
    assert(reg[i].id == subs[i].id);
    let j = slot(reg, subs[i].id);
    assert(reg[j].id == subs[j].id);
}

proof fn lemma_no_slot<E>(subs: Seq<Subscription<E>>, h: u64)
    requires
        forall|j: int| 0 <= j < subs.len() ==> subs[j].id != h,
    ensures
        !listed(inboxes(subs), h),
{
    let reg = inboxes(subs);
    assert forall|i: int| 0 <= i < reg.len() implies (#[trigger] reg[i]).id != h by {
        assert(reg[i].id == subs[i].id);
    }
}

fn find<E>(subs: &Vec<Subscription<E>>, h: u64) -> (r: Option<usize>)
    ensures
        match r {
            Some(i) => i < subs@.len() && subs@[i as int].id == h,
            None => forall|j: int| 0 <= j < subs@.len() ==> subs@[j].id != h,
        },
{
    let mut i: usize = 0;
    while i < subs.len()
        invariant
            i <= subs@.len(),
            forall|j: int| 0 <= j < i ==> subs@[j].id != h,
        decreases subs@.len() - i,
    {
        if subs[i].id == h {
            return Some(i);
        }
        i += 1;
    }
    None
}

fn accept<E>(sub: &mut Subscription<E>, e: E, depth: usize)
    requires
        old(sub).queue@.len() <= depth,
    ensures
        final(sub).inbox() == deliver(old(sub).inbox(), e, depth as nat),
        final(sub).queue@.len() <= depth,
{
    sub.queue.push_back(e);
    if sub.queue.len() > depth {
        let _ = sub.queue.pop_front();
        if sub.missed < u64::MAX {
            sub.missed = sub.missed + 1;
        }
    }
}

fn take_next<E>(sub: &mut Subscription<E>) -> (d: Delivery<E>)
    ensures
        d == handed(old(sub).inbox()),
        final(sub).inbox() == drained(old(sub).inbox()),
        final(sub).queue@.len() <= old(sub).queue@.len(),
{
    if sub.missed > 0 {
        let n = sub.missed;
        sub.missed = 0;
        Delivery::Gap(n)
    } else {
        match sub.queue.pop_front() {
            Some(e) => Delivery::Event(e),
            None => Delivery::Empty,
        }
    }
}

fn spread<E: Copy>(subs: &mut Vec<Subscription<E>>, event: E, depth: usize)
    requires
        forall|j: int| 0 <= j < old(subs)@.len() ==> old(subs)@[j].queue@.len() <= depth,
    ensures
        final(subs)@.len() == old(subs)@.len(),
        forall|j: int|
            0 <= j < old(subs)@.len() ==> (#[trigger] final(subs)@[j]).inbox() == deliver(
                old(subs)@[j].inbox(),
                event,
                depth as nat,
            ) && final(subs)@[j].queue@.len() <= depth,
{
    let n = subs.len();
    let mut i: usize = 0;
    while i < n
        invariant
            i <= n,
            subs@.len() == n,
            old(subs)@.len() == n,
            forall|j: int|
                0 <= j < i ==> (#[trigger] subs@[j]).inbox() == deliver(
                    old(subs)@[j].inbox(),
                    event,
                    depth as nat,
                ),
            forall|j: int| i <= j < n ==> subs@[j] == old(subs)@[j],
            forall|j: int| 0 <= j < n ==> (#[trigger] subs@[j]).queue@.len() <= depth,
        decreases n - i,
    {
        accept(&mut subs[i], event, depth);
        i += 1;
    }
}

/// The registry of subscriptions and their inboxes.
pub struct Broadcaster<E> {
    depth: usize,
    next: u64,
    subs: Vec<Subscription<E>>,
}

impl<E> Broadcaster<E> {
    /// The inboxes, in the order in which their subscriptions were made.
    pub closed spec fn registry(&self) -> Seq<Inbox<E>> {
        inboxes(self.subs@)
    }

    /// How many events an inbox can hold.
    pub closed spec fn depth(&self) -> nat {
        self.depth as nat
    }

    /// How many handles have been given out; the next handle is this number.
    pub closed spec fn issued(&self) -> nat {
        self.next as nat
    }

    /// Validity: handles rise along the registry and lie below `issued`, and no
    /// inbox holds more than `depth` events.
    pub closed spec fn wf(&self) -> bool {
        &&& ordered(self.subs@)
        &&& forall|i: int|
            0 <= i < self.subs@.len() ==> self.subs@[i].id < self.next
                && self.subs@[i].queue@.len() <= self.depth
    }

    /// In a valid registry no handle stands twice, none was not yet given out,
    /// every inbox is within the depth and the range of its counter, and
    /// `slot` finds each inbox by its handle.
    pub proof fn lemma_registry_sound(&self, i: int, j: int)
        requires
            self.wf(),
            0 <= i < self.registry().len(),
            0 <= j < self.registry().len(),
        ensures
            self.registry()[i].id < self.issued(),
            self.registry()[i].pending.len() <= self.depth(),
            self.registry()[i].missed <= u64::MAX,
            i != j ==> self.registry()[i].id != self.registry()[j].id,
            listed(self.registry(), self.registry()[i].id),
            slot(self.registry(), self.registry()[i].id) == i,
    {
        lemma_slot(self.subs@, i);
    }

    /// A broadcaster without subscriptions, whose inboxes will hold `depth` events.
    pub fn new(depth: usize) -> (b: Broadcaster<E>)
        ensures
            b.wf(),
            b.depth() == depth,
            b.issued() == 0,
            b.registry() == Seq::<Inbox<E>>::empty(),
    {
        let b = Broadcaster { depth, next: 0, subs: Vec::new() };
        assert(b.registry() =~= Seq::<Inbox<E>>::empty());
        b
    }

    /// Number of subscriptions.
    pub fn subscriber_count(&self) -> (n: usize)
        ensures
            n == self.registry().len(),
    {
        self.subs.len()
    }

    /// Whether `handle` names a subscription.
    pub fn is_subscribed(&self, handle: u64) -> (r: bool)
        requires
            self.wf(),
        ensures
            r == listed(self.registry(), handle),
    {
        match find(&self.subs, handle) {
            Some(i) => {
                proof {
                    lemma_slot(self.subs@, i as int);
                }
                true
            },
            None => {
                proof {
                    lemma_no_slot(self.subs@, handle);
                }
                false
            },
        }
    }

    /// Registers a subscription with an empty inbox and returns its handle: it
    /// will see what is published from now on. No handle is given out twice;
    /// when all `u64::MAX` handles are used up, nothing changes and `None` is returned.
    pub fn subscribe(&mut self) -> (r: Option<u64>)
        requires
            old(self).wf(),
        ensures
            final(self).wf(),
            final(self).depth() == old(self).depth(),
            match r {
                Some(h) => {
                    &&& old(self).issued() < u64::MAX
                    &&& h == old(self).issued()
                    &&& !listed(old(self).registry(), h)
                    &&& final(self).issued() == old(self).issued() + 1
                    &&& final(self).registry() == old(self).registry().push(
                        Inbox { id: h, pending: Seq::empty(), missed: 0 },
                    )
                },
                None => {
                    &&& old(self).issued() == u64::MAX
                    &&& final(self).issued() == old(self).issued()
                    &&& final(self).registry() == old(self).registry()
                },
            },
    {
        if self.next == u64::MAX {
            return None;
        }
        let h = self.next;
        proof {
            lemma_no_slot(self.subs@, h);
        }
        self.subs.push(Subscription { id: h, queue: VecDeque::new(), missed: 0 });
        self.next = h + 1;
        assert(self.registry() =~= old(self).registry().push(
            Inbox { id: h, pending: Seq::empty(), missed: 0 },
        ));
        Some(h)
    }

    /// Ends the subscription of `handle` and says whether there was one. The
    /// others keep their place and their inboxes; a second call changes nothing.
    pub fn unsubscribe(&mut self, handle: u64) -> (r: bool)
        requires
            old(self).wf(),
        ensures
            final(self).wf(),
            final(self).depth() == old(self).depth(),
            final(self).issued() == old(self).issued(),
            r == listed(old(self).registry(), handle),
            !listed(final(self).registry(), handle),
            final(self).registry() == released(old(self).registry(), handle),
    {
        match find(&self.subs, handle) {
            Some(i) => {
                proof {
                    lemma_slot(self.subs@, i as int);
                }
                let _ = self.subs.remove(i);
                proof {
                    lemma_no_slot(self.subs@, handle);
                    assert(self.registry() =~= old(self).registry().remove(i as int));
                }
                true
            },
            None => {
                proof {
                    lemma_no_slot(self.subs@, handle);
                }
                false
            },
        }
    }

    /// Hands the subscriber of `handle` its next item and takes it out of the
    /// inbox: the report of a gap if events were dropped, else the oldest
    /// waiting event, else `Empty`. An unknown handle gets `Closed`. No other
    /// inbox changes.
    pub fn recv(&mut self, handle: u64) -> (d: Delivery<E>)
        requires
            old(self).wf(),
        ensures
            final(self).wf(),
            final(self).depth() == old(self).depth(),
            final(self).issued() == old(self).issued(),
            (d, final(self).registry()) == polled(old(self).registry(), handle),
    {
        match find(&self.subs, handle) {
            Some(i) => {
                proof {
                    lemma_slot(self.subs@, i as int);
                }
                let d = take_next(&mut self.subs[i]);
                proof {
                    assert(self.registry() =~= old(self).registry().update(
                        i as int,
                        drained(old(self).registry()[i as int]),
                    ));
                }
                d
            },
            None => {
                proof {
                    lemma_no_slot(self.subs@, handle);
                }
                Delivery::Closed
            },
        }
    }
}

impl<E: Copy> Broadcaster<E> {
    /// Publishes `event` to every subscription and returns how many there
    /// are. Each inbox takes a copy; one that is full drops its oldest event
    /// and counts it as missed. The call never waits for a subscriber.
    pub fn publish(&mut self, event: E) -> (n: usize)
        requires
            old(self).wf(),
        ensures
            final(self).wf(),
            final(self).depth() == old(self).depth(),
            final(self).issued() == old(self).issued(),
            final(self).registry() == published(old(self).registry(), event, old(self).depth()),
            n == old(self).registry().len(),
    {
        let depth = self.depth;
        spread(&mut self.subs, event, depth);
        proof {
            assert forall|j: int| 0 <= j < self.subs@.len() implies (#[trigger] self.subs@[j]).id
                == old(self).subs@[j].id by {
                assert(self.subs@[j].inbox().id == old(self).subs@[j].inbox().id);
            }
            assert(self.registry() =~= published(
                old(self).registry(),
                event,
                old(self).depth(),
            ));
        }
        self.subs.len()
    }
}

} // verus!
