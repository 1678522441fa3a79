//! The subscription bus: a registry of subscriber handles and the
//! notification fan-out over them.
//!
//! A notification pass snapshots the registered handles when it
//! begins, then yields, in registration order, each snapshotted handle
//! that is still registered at the moment it is reached. A subscriber
//! may therefore unsubscribe — itself included — in the middle of a
//! pass without corrupting it: handles already yielded lie before the
//! cursor, and [`lemma_unsubscribe_delivered_keeps_rest`] shows the
//! remaining recipients unchanged. Delivery itself is the caller's:
//! the bus hands out handles, and a sink that cannot accept an event
//! is simply skipped for that event, never retried.

use vstd::prelude::*;

verus! {

/// The handles a sequence keeps after a handle is dropped.
pub open spec fn remove_handle(subs: Seq<u64>, h: u64) -> Seq<u64>
    decreases subs.len(),
{
    if subs.len() == 0 {
        Seq::empty()
    } else if subs[0] == h {
        remove_handle(subs.drop_first(), h)
    } else {
        seq![subs[0]] + remove_handle(subs.drop_first(), h)
    }
}

/// The handles of `pending` that are registered in `subs`, in order.
pub open spec fn recipients(pending: Seq<u64>, subs: Seq<u64>) -> Seq<u64>
    decreases pending.len(),
{
    if pending.len() == 0 {
        Seq::empty()
    } else if subs.contains(pending[0]) {
        seq![pending[0]] + recipients(pending.drop_first(), subs)
    } else {
        recipients(pending.drop_first(), subs)
    }
}

/// Membership in a sequence with one element in front.
proof fn lemma_cons_contains(a: u64, r: Seq<u64>, x: u64)
    ensures
        (seq![a] + r).contains(x) <==> a == x || r.contains(x),
{
    if (seq![a] + r).contains(x) {
        let i = choose|i: int| 0 <= i < (seq![a] + r).len() && (seq![a] + r)[i] == x;
        if i > 0 {
            assert(r[i - 1] == x);
        }
    }
    if r.contains(x) {
        let i = choose|i: int| 0 <= i < r.len() && r[i] == x;
        assert((seq![a] + r)[i + 1] == x);
    }
    if a == x {
        assert((seq![a] + r)[0] == x);
    }
}

/// Membership after a removal: a handle is kept exactly when it was
/// registered and is not the one removed.
proof fn lemma_remove_membership(subs: Seq<u64>, h: u64, x: u64)
    ensures
        remove_handle(subs, h).contains(x) <==> subs.contains(x) && x != h,
    decreases subs.len(),
{
    if subs.len() > 0 {
        lemma_remove_membership(subs.drop_first(), h, x);
        assert(subs.contains(x) <==> subs[0] == x || subs.drop_first().contains(x)) by {
            if subs.contains(x) {
                let i = choose|i: int| 0 <= i < subs.len() && subs[i] == x;
                if i > 0 {
                    assert(subs.drop_first()[i - 1] == x);
                }
            }
            if subs.drop_first().contains(x) {
                let i = choose|i: int|
                    0 <= i < subs.drop_first().len() && subs.drop_first()[i] == x;
                assert(subs[i + 1] == x);
            }
            if subs[0] == x {
                assert(subs.contains(x));
            }
        }
        if subs[0] != h {
            lemma_cons_contains(subs[0], remove_handle(subs.drop_first(), h), x);
        }
    }
}

/// Unsubscribing a handle that has already been delivered — in
/// particular, a subscriber unsubscribing itself during its own
/// notification callback — leaves the recipients of the rest of the
/// pass exactly as they were: nobody else's notification is skipped.
pub proof fn lemma_unsubscribe_delivered_keeps_rest(pending: Seq<u64>, subs: Seq<u64>, h: u64)
    requires
        !pending.contains(h),
    ensures
        recipients(pending, remove_handle(subs, h)) == recipients(pending, subs),
    decreases pending.len(),
{
    if pending.len() > 0 {
        assert(pending.contains(pending[0]));
        assert(!pending.drop_first().contains(h)) by {
            if pending.drop_first().contains(h) {
                let i = choose|i: int|
                    0 <= i < pending.drop_first().len() && pending.drop_first()[i] == h;
                assert(pending[i + 1] == h);
            }
        }
        lemma_remove_membership(subs, h, pending[0]);
        lemma_unsubscribe_delivered_keeps_rest(pending.drop_first(), subs, h);
    }
}

/// An undisturbed pass reaches everyone: when every snapshotted handle
/// is still registered, the recipients are exactly the snapshot, in
/// order.
pub proof fn lemma_full_pass_notifies_all(pending: Seq<u64>, subs: Seq<u64>)
    requires
        forall|i: int| 0 <= i < pending.len() ==> subs.contains(#[trigger] pending[i]),
    ensures
        recipients(pending, subs) == pending,
    decreases pending.len(),
{
    if pending.len() > 0 {
        assert(subs.contains(pending[0]));
        assert(forall|i: int|
            0 <= i < pending.drop_first().len() ==> subs.contains(
                #[trigger] pending.drop_first()[i],
            )) by {
            assert(forall|i: int|
                0 <= i < pending.drop_first().len() ==> pending.drop_first()[i]
                    == #[trigger] pending[i + 1]);
        }
        lemma_full_pass_notifies_all(pending.drop_first(), subs);
        assert(seq![pending[0]] + pending.drop_first() =~= pending);
    }
}

/// A removal keeps distinct handles distinct.
proof fn lemma_remove_distinct(subs: Seq<u64>, h: u64)
    requires
        forall|i: int, j: int|
            0 <= i < j < subs.len() ==> #[trigger] subs[i] != #[trigger] subs[j],
    ensures
        forall|i: int, j: int|
            0 <= i < j < remove_handle(subs, h).len() ==> #[trigger] remove_handle(subs, h)[i]
                != #[trigger] remove_handle(subs, h)[j],
    decreases subs.len(),
{
    if subs.len() > 0 {
        let df = subs.drop_first();
        assert(forall|i: int, j: int|
            0 <= i < j < df.len() ==> #[trigger] df[i] != #[trigger] df[j]) by {
            assert(forall|i: int| 0 <= i < df.len() ==> df[i] == #[trigger] subs[i + 1]);
        }
        lemma_remove_distinct(df, h);
        if subs[0] != h {
            let rest = remove_handle(df, h);
            assert(!df.contains(subs[0])) by {
                if df.contains(subs[0]) {
                    let i = choose|i: int| 0 <= i < df.len() && df[i] == subs[0];
                    assert(subs[i + 1] == subs[0]);
                }
            }
            lemma_remove_membership(df, h, subs[0]);
            let whole = seq![subs[0]] + rest;
            assert forall|i: int, j: int| 0 <= i < j < whole.len() implies #[trigger] whole[i]
                != #[trigger] whole[j] by {
                if i == 0 {
                    assert(rest[j - 1] == whole[j]);
                    assert(rest.contains(rest[j - 1]));
                } else {
                    assert(whole[i] == rest[i - 1] && whole[j] == rest[j - 1]);
                }
            }
        }
    }
}

/// Registers and deregisters subscribers, identified by handles that
/// are never reused.
pub struct SubscriptionBus {
    next_handle: u64,
    subs: Vec<u64>,
}

impl SubscriptionBus {
    /// The registered handles, in registration order.
    pub closed spec fn subscribers(self) -> Seq<u64> {
        self.subs@
    }

    /// How many handles have ever been issued.
    pub closed spec fn issued(self) -> u64 {
        self.next_handle
    }

    /// Every registered handle was issued, and none is registered
    /// twice.
    pub closed spec fn wf(self) -> bool {
        &&& forall|i: int| 0 <= i < self.subs@.len() ==> #[trigger] self.subs@[i]
            < self.next_handle
        &&& forall|i: int, j: int|
            0 <= i < j < self.subs@.len() ==> #[trigger] self.subs@[i] != #[trigger] self.subs@[j]
    }

    /// A fresh bus with no subscribers.
    pub fn new() -> (b: SubscriptionBus)
        ensures
            b.wf(),
            b.subscribers() == Seq::<u64>::empty(),
            b.issued() == 0,
    {
        SubscriptionBus { next_handle: 0, subs: Vec::new() }
    }

    /// Register one subscriber. The handle is fresh: it was never
    /// registered before. `None` only once every handle is spent.
    pub fn subscribe(&mut self) -> (r: Option<u64>)
        requires
            old(self).wf(),
        ensures
            final(self).wf(),
            old(self).issued() < u64::MAX ==> r is Some,
            r matches Some(h) ==> h == old(self).issued() && !old(self).subscribers().contains(h)
                && final(self).subscribers() == old(self).subscribers().push(h)
                && final(self).issued() == old(self).issued() + 1,
            r is None ==> *final(self) == *old(self) && old(self).issued() == u64::MAX,
    {
        if self.next_handle == u64::MAX {
            return None;
        }
        let h = self.next_handle;
        self.next_handle = self.next_handle + 1;
        self.subs.push(h);
        Some(h)
    }

    /// Deregister one subscriber: every later notification pass skips
    /// it. Returns whether the handle was registered.
    pub fn unsubscribe(&mut self, h: u64) -> (found: bool)
        requires
            old(self).wf(),
        ensures
            final(self).wf(),
            final(self).subscribers() == remove_handle(old(self).subscribers(), h),
            final(self).issued() == old(self).issued(),
            found == old(self).subscribers().contains(h),
    {
        let ghost orig = self.subs@;
        let mut kept: Vec<u64> = Vec::new();
        let mut found = false;
        let mut i: usize = 0;
        proof {
            assert(orig.skip(0) =~= orig);
            assert(kept@ + remove_handle(orig, h) =~= remove_handle(orig, h));
        }
        while i < self.subs.len()
            invariant
                i <= self.subs.len(),
                orig == self.subs@,
                remove_handle(orig, h) == kept@ + remove_handle(orig.skip(i as int), h),
                found == exists|k: int| 0 <= k < i && orig[k] == h,
            decreases self.subs.len() - i,
        {
            proof {
                assert(orig.skip(i as int)[0] == orig[i as int]);
                assert(orig.skip(i as int).drop_first() =~= orig.skip(i as int + 1));
            }
            if self.subs[i] == h {
                found = true;
            } else {
                proof {
                    assert(kept@ + (seq![orig[i as int]] + remove_handle(
                        orig.skip(i as int + 1),
                        h,
                    )) =~= kept@.push(orig[i as int]) + remove_handle(orig.skip(i as int + 1), h));
                }
                kept.push(self.subs[i]);
            }
            i = i + 1;
        }
        proof {
            assert(orig.skip(i as int) =~= Seq::<u64>::empty());
            assert(kept@ + Seq::<u64>::empty() =~= kept@);
            if orig.contains(h) {
                let k = choose|k: int| 0 <= k < orig.len() && orig[k] == h;
            }
            lemma_remove_distinct(orig, h);
            assert forall|k: int| 0 <= k < kept@.len() implies #[trigger] kept@[k]
                < self.next_handle by {
                assert(remove_handle(orig, h)[k] == kept@[k]);
                assert(remove_handle(orig, h).contains(kept@[k]));
                lemma_remove_membership(orig, h, kept@[k]);
                let j = choose|j: int| 0 <= j < orig.len() && orig[j] == kept@[k];
            }
        }
        self.subs = kept;
        found
    }

    /// How many subscribers are registered.
    pub fn subscriber_count(&self) -> (n: usize)
        ensures
            n == self.subscribers().len(),
    {
        self.subs.len()
    }

    /// Whether a handle is currently registered.
    pub fn is_subscribed(&self, h: u64) -> (r: bool)
        ensures
            r == self.subscribers().contains(h),
    {
        let mut i: usize = 0;
        while i < self.subs.len()
            invariant
                i <= self.subs.len(),
                forall|k: int| 0 <= k < i ==> self.subs@[k] != h,
            decreases self.subs.len() - i,
        {
            if self.subs[i] == h {
                return true;
            }
            i = i + 1;
        }
        proof {
            if self.subs@.contains(h) {
                let k = choose|k: int| 0 <= k < self.subs@.len() && self.subs@[k] == h;
            }
        }
        false
    }

    /// The handle at one registration position.
    pub fn handle_at(&self, i: usize) -> (h: u64)
        requires
            i < self.subscribers().len(),
        ensures
            h == self.subscribers()[i as int],
    {
        self.subs[i]
    }
}

/// One notification fan-out in progress: the handles snapshotted at
/// its start, and how far delivery has come.
pub struct NotifyPass {
    pending: Vec<u64>,
    idx: usize,
}

impl NotifyPass {
    /// The snapshotted handles.
    pub closed spec fn pending(self) -> Seq<u64> {
        self.pending@
    }

    /// How many snapshotted handles have been passed, delivered or
    /// skipped.
    pub closed spec fn cursor(self) -> int {
        self.idx as int
    }

    /// The cursor never leaves the snapshot.
    pub open spec fn wf(self) -> bool {
        0 <= self.cursor() <= self.pending().len()
    }

    /// The handles this pass has yet to look at.
    pub open spec fn remaining(self) -> Seq<u64> {
        self.pending().skip(self.cursor())
    }

    /// Begin one fan-out: snapshot the currently registered handles.
    pub fn begin(bus: &SubscriptionBus) -> (p: NotifyPass)
        ensures
            p.wf(),
            p.pending() == bus.subscribers(),
            p.cursor() == 0,
    {
        NotifyPass { pending: bus_handles(bus), idx: 0 }
    }

    /// The next snapshotted handle that is still registered, or `None`
    /// once the pass is over. Handles deregistered since the snapshot
    /// are skipped, so the handles a whole pass yields, against a bus
    /// that stands still, are exactly `recipients(pending, subs)`.
    pub fn next_recipient(&mut self, bus: &SubscriptionBus) -> (r: Option<u64>)
        requires
            old(self).wf(),
        ensures
            final(self).wf(),
            final(self).pending() == old(self).pending(),
            old(self).cursor() <= final(self).cursor(),
            r matches Some(h) ==> recipients(old(self).remaining(), bus.subscribers()) == seq![h]
                + recipients(final(self).remaining(), bus.subscribers()) && bus.subscribers()
                .contains(h),
            r is None ==> recipients(old(self).remaining(), bus.subscribers())
                == Seq::<u64>::empty() && final(self).cursor() == final(self).pending().len(),
    {
        loop
            invariant
                old(self).pending() == self.pending@,
                old(self).cursor() <= self.idx <= self.pending@.len(),
                recipients(old(self).remaining(), bus.subscribers()) == recipients(
                    self.pending@.skip(self.idx as int),
                    bus.subscribers(),
                ),
            decreases self.pending@.len() - self.idx,
        {
            if self.idx >= self.pending.len() {
                proof {
                    assert(self.pending@.skip(self.idx as int) =~= Seq::<u64>::empty());
                }
                return None;
            }
            let h = self.pending[self.idx];
            let registered = bus.is_subscribed(h);
            proof {
                assert(self.pending@.skip(self.idx as int)[0] == self.pending@[self.idx as int]);
                assert(self.pending@.skip(self.idx as int).drop_first() =~= self.pending@.skip(
                    self.idx as int + 1,
                ));
            }
            self.idx = self.idx + 1;
            if registered {
                return Some(h);
            }
        }
    }
}

/// A copy of the registered handles, in registration order.
fn bus_handles(bus: &SubscriptionBus) -> (v: Vec<u64>)
    ensures
        v@ == bus.subscribers(),
{
    let mut v: Vec<u64> = Vec::new();
    let mut i: usize = 0;
    while i < bus.subscriber_count()
        invariant
            i <= bus.subscribers().len(),
            v@ == bus.subscribers().take(i as int),
        decreases bus.subscribers().len() - i,
    {
        v.push(bus.handle_at(i));
        proof {
            assert(bus.subscribers().take(i as int).push(bus.subscribers()[i as int])
                =~= bus.subscribers().take(i as int + 1));
        }
        i = i + 1;
    }
    proof {
        assert(bus.subscribers().take(bus.subscribers().len() as int) =~= bus.subscribers());
    }
    v
}

} // verus!
