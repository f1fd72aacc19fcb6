//! What dropping a handle sets off.
//!
//! Dropping the last handle to an allocation destroys it, and with it the
//! handles that its payload owns, each of which is dropped in turn; every
//! drop is counted and may start a collection. The work still to do is kept
//! as a stack of steps, the next one on top.
use vstd::prelude::*;
use crate::heap::{
    lemma_held_by_le_incoming, lemma_with_cell_incoming, lemma_with_cell_total_strong, Heap,
};
use crate::tally::{
    count_of, lemma_count_of_contains, lemma_count_of_drop_last, lemma_total_push, total,
};
use crate::trial::{lemma_collected, lemma_collected_total, lemma_same_garbage};
use crate::unsync::CollectCondition;

verus! {

/// One piece of work that a drop leaves to do.
pub enum Step {
    /// Give up one handle to the allocation at this address.
    Release(usize),
    /// Count one drop, and collect if the collect condition says so.
    Notify,
}

pub open spec fn release_hits(pending: Seq<Step>, t: usize) -> Seq<nat> {
    Seq::new(pending.len(), |i: int| if pending[i] == Step::Release(t) { 1nat } else { 0nat })
}

/// How many handles to `t` are waiting to be given up.
pub open spec fn releases(pending: Seq<Step>, t: usize) -> nat {
    total(release_hits(pending, t))
}

pub open spec fn notify_hits(pending: Seq<Step>) -> Seq<nat> {
    Seq::new(pending.len(), |i: int| if pending[i] == Step::Notify { 1nat } else { 0nat })
}

/// How many drops are waiting to be counted.
pub open spec fn notifies(pending: Seq<Step>) -> nat {
    total(notify_hits(pending))
}

/// The stack with one release for each of `refs` put on top, the one for
/// the first of them topmost.
pub open spec fn stacked(stack: Seq<Step>, refs: Seq<usize>) -> Seq<Step>
    decreases refs.len(),
{
    if refs.len() == 0 {
        stack
    } else {
        stacked(stack.push(Step::Release(refs.last())), refs.drop_last())
    }
}

impl<T> Heap<T> {
    /// The heap after one drop was counted and the collect condition asked.
    pub open spec fn notified<P: CollectCondition>(self, p: P) -> Heap<T> {
        let counted = self.tallied();
        if p.decides(counted.info()) {
            counted.collected()
        } else {
            counted
        }
    }

    /// The heap once all of `pending` is done, the last step first.
    ///
    /// Releasing a handle does nothing while a collection runs, nor where
    /// nothing is allocated or the count is zero. It destroys the allocation
    /// if the handle is the last one, and then releases what the payload
    /// owned; otherwise it lowers the count and makes the allocation a
    /// suspect. Either way the drop is counted afterwards.
    pub open spec fn settled<P: CollectCondition>(self, p: P, pending: Seq<Step>) -> Heap<T>
        decreases self.total_strong(), pending.len(),
        via Self::settled_decreases::<P>
    {
        if pending.len() == 0 {
            self
        } else {
            let rest = pending.drop_last();
            match pending.last() {
                Step::Notify => self.notified(p).settled(p, rest),
                Step::Release(a) => {
                    if self.collecting || !self.is_live(a) || self.get(a).strong == 0 {
                        self.settled(p, rest)
                    } else if self.get(a).strong == 1 {
                        self.removed(a).settled(
                            p,
                            stacked(rest.push(Step::Notify), self.get(a).refs),
                        )
                    } else {
                        self.decremented(a).marked_dirty(a).settled(p, rest.push(Step::Notify))
                    }
                },
            }
        }
    }

    /// Every step leaves fewer handles in existence, or as many and less to
    /// do.
    #[via_fn]
    proof fn settled_decreases<P: CollectCondition>(self, p: P, pending: Seq<Step>) {
        if pending.len() > 0 {
            match pending.last() {
                Step::Notify => {
                    lemma_notified_total(self, p);
                },
                Step::Release(a) => {
                    if self.is_live(a) && self.get(a).strong >= 1 {
                        lemma_removed_total(self, a);
                        lemma_decremented_total(self, a);
                    }
                },
            }
        }
    }

    /// The heap after a handle to `a` was dropped.
    pub open spec fn dropped<P: CollectCondition>(self, p: P, a: usize) -> Heap<T> {
        self.settled(p, seq![Step::Release(a)])
    }

    /// How many handles to `t` are held outside the heap once those in
    /// `pending` are given up.
    pub open spec fn spare(self, pending: Seq<Step>, t: usize) -> int {
        self.external(t) - releases(pending, t)
    }

    /// The heap is in order with `pending` still to do: every handle in
    /// `pending` is one of the handles that its target counts, and every drop
    /// to be counted is one that the statistics still hold as living.
    pub open spec fn carries(self, pending: Seq<Step>) -> bool {
        &&& !self.collecting
        &&& self.sound()
        &&& forall|t: usize| #[trigger] releases(pending, t) > 0 ==> self.is_live(t)
        &&& forall|t: usize| #[trigger] self.is_live(t) ==> self.spare(pending, t) >= 0
        &&& self.n_refs_living == self.total_strong() + self.reclaimed + notifies(pending)
        &&& self.n_refs_living + self.n_ref_drops <= usize::MAX
    }
}

/// On the way from the heap `h` with `pending` to do to the heap `g` with
/// `next` to do, every allocation with a handle to spare has stayed and has
/// as many to spare as before or more, every payload that is still there is
/// as it was, nothing was allocated, and the statistics have not grown.
pub open spec fn keeps<T>(h: Heap<T>, pending: Seq<Step>, g: Heap<T>, next: Seq<Step>) -> bool {
    &&& forall|t: usize|
        #![trigger g.is_live(t)]
        #![trigger h.is_live(t)]
        h.is_live(t) && h.spare(pending, t) >= 1 ==> g.is_live(t) && g.spare(next, t) >= h.spare(
            pending,
            t,
        )
    &&& forall|t: usize|
        #![trigger g.is_live(t)]
        g.is_live(t) ==> h.is_live(t) && g.get(t).same_payload(h.get(t))
    &&& g.n_refs_living + g.n_ref_drops <= h.n_refs_living + h.n_ref_drops
}

pub proof fn lemma_keeps_both<T>(
    h: Heap<T>,
    pending: Seq<Step>,
    g: Heap<T>,
    next: Seq<Step>,
    e: Heap<T>,
    last: Seq<Step>,
)
    requires
        keeps(h, pending, g, next),
        keeps(g, next, e, last),
    ensures
        keeps(h, pending, e, last),
{
    assert forall|t: usize| h.is_live(t) && h.spare(pending, t) >= 1 implies e.is_live(t) && e.spare(
        last,
        t,
    ) >= h.spare(pending, t) by {
        assert(g.is_live(t));
    }
    assert forall|t: usize| e.is_live(t) implies h.is_live(t) && e.get(t).same_payload(h.get(t)) by {
        assert(g.is_live(t));
    }
}

pub proof fn lemma_notified_total<T, P: CollectCondition>(h: Heap<T>, p: P)
    ensures
        h.notified(p).total_strong() <= h.total_strong(),
{
    lemma_same_garbage(h, h.tallied());
    lemma_collected_total(h.tallied());
}

pub proof fn lemma_removed_total<T>(h: Heap<T>, a: usize)
    requires
        h.is_live(a),
    ensures
        h.removed(a).total_strong() + h.get(a).strong == h.total_strong(),
{
    assert(h.removed(a).strongs() =~= h.with_cell(a, None).strongs());
    lemma_with_cell_total_strong(h, a, None);
}

pub proof fn lemma_decremented_total<T>(h: Heap<T>, a: usize)
    requires
        h.is_live(a),
        h.get(a).strong >= 1,
    ensures
        h.decremented(a).marked_dirty(a).total_strong() + 1 == h.total_strong(),
{
    let g = h.decremented(a);
    assert(g.marked_dirty(a).strongs() =~= g.strongs());
    lemma_with_cell_total_strong(h, a, g.cells[a as int]);
}

pub proof fn lemma_pending_push(pending: Seq<Step>, x: Step, t: usize)
    ensures
        releases(pending.push(x), t) == releases(pending, t) + if x == Step::Release(t) {
            1nat
        } else {
            0nat
        },
        notifies(pending.push(x)) == notifies(pending) + if x == Step::Notify {
            1nat
        } else {
            0nat
        },
{
    let r = if x == Step::Release(t) {
        1nat
    } else {
        0nat
    };
    let n = if x == Step::Notify {
        1nat
    } else {
        0nat
    };
    assert(release_hits(pending.push(x), t) =~= release_hits(pending, t).push(r));
    lemma_total_push(release_hits(pending, t), r);
    assert(notify_hits(pending.push(x)) =~= notify_hits(pending).push(n));
    lemma_total_push(notify_hits(pending), n);
}

pub proof fn lemma_pending_last(pending: Seq<Step>, t: usize)
    requires
        pending.len() > 0,
    ensures
        releases(pending, t) == releases(pending.drop_last(), t) + if pending.last()
            == Step::Release(t) {
            1nat
        } else {
            0nat
        },
        notifies(pending) == notifies(pending.drop_last()) + if pending.last() == Step::Notify {
            1nat
        } else {
            0nat
        },
{
    assert(pending.drop_last().push(pending.last()) =~= pending);
    lemma_pending_push(pending.drop_last(), pending.last(), t);
}

pub proof fn lemma_pending_empty(t: usize)
    ensures
        releases(Seq::<Step>::empty(), t) == 0,
        notifies(Seq::<Step>::empty()) == 0,
{
}

/// Stacking the releases for `refs` adds to the waiting handles what
/// `refs` holds, and no drop to be counted.
pub proof fn lemma_stacked(stack: Seq<Step>, refs: Seq<usize>, t: usize)
    ensures
        releases(stacked(stack, refs), t) == releases(stack, t) + count_of(refs, t),
        notifies(stacked(stack, refs)) == notifies(stack),
    decreases refs.len(),
{
    if refs.len() > 0 {
        let next = stack.push(Step::Release(refs.last()));
        lemma_stacked(next, refs.drop_last(), t);
        lemma_pending_push(stack, Step::Release(refs.last()), t);
        lemma_count_of_drop_last(refs, t);
    }
}

/// With nothing left to do, the heap is well formed.
pub proof fn lemma_carries_nothing<T>(h: Heap<T>)
    ensures
        h.carries(Seq::<Step>::empty()) <==> h.well_formed(),
{
    assert forall|t: usize| releases(Seq::<Step>::empty(), t) == 0 by {
        lemma_pending_empty(t);
    }
    lemma_pending_empty(0);
    if h.well_formed() {
        assert forall|t: usize| #[trigger] h.is_live(t) implies h.spare(Seq::<Step>::empty(), t)
            >= 0 by {}
    }
    if h.carries(Seq::<Step>::empty()) {
        assert forall|t: usize| #[trigger] h.is_live(t) implies h.incoming(t) <= h.get(t).strong by {
            assert(h.spare(Seq::<Step>::empty(), t) >= 0);
        }
    }
}

/// A well-formed heap carries the release of a handle that is held outside
/// it.
pub proof fn lemma_carries_one<T>(h: Heap<T>, a: usize)
    requires
        h.well_formed(),
        h.is_live(a),
        h.external(a) >= 1,
    ensures
        h.carries(seq![Step::Release(a)]),
        forall|t: usize|
            h.spare(seq![Step::Release(a)], t) == h.external(t) - if t == a {
                1int
            } else {
                0int
            },
{
    let one = seq![Step::Release(a)];
    assert(one =~= Seq::<Step>::empty().push(Step::Release(a)));
    assert forall|t: usize|
        releases(one, t) == if t == a {
            1nat
        } else {
            0nat
        } by {
        lemma_pending_push(Seq::<Step>::empty(), Step::Release(a), t);
    }
    lemma_pending_push(Seq::<Step>::empty(), Step::Release(a), a);
}

/// Counting a drop, and collecting if the condition says so, keeps the heap
/// in order with the rest of the work. What has a spare handle stays as it
/// is.
pub proof fn lemma_carries_notify<T, P: CollectCondition>(h: Heap<T>, p: P, pending: Seq<Step>)
    requires
        h.carries(pending),
        pending.len() > 0,
        pending.last() == Step::Notify,
    ensures
        h.notified(p).carries(pending.drop_last()),
        keeps(h, pending, h.notified(p), pending.drop_last()),
{
    let rest = pending.drop_last();
    let counted = h.tallied();
    let g = h.notified(p);
    assert forall|t: usize| releases(pending, t) == releases(rest, t) by {
        lemma_pending_last(pending, t);
    }
    lemma_pending_last(pending, 0);
    lemma_same_garbage(h, counted);
    assert forall|t: usize| #[trigger] counted.is_live(t) implies counted.spare(rest, t) >= 0 by {
        assert(h.is_live(t));
        assert(h.spare(pending, t) >= 0);
    }
    assert(counted.carries(rest)) by {
        assert forall|t: usize| #[trigger] releases(rest, t) > 0 implies counted.is_live(t) by {
            assert(releases(pending, t) > 0);
        }
    }
    if p.decides(counted.info()) {
        lemma_collected(counted);
        assert forall|t: usize| #[trigger] releases(rest, t) > 0 implies g.is_live(t) by {
            assert(releases(pending, t) > 0);
            assert(h.is_live(t));
            assert(h.spare(pending, t) >= 0);
            assert(!counted.is_garbage(t));
        }
        assert forall|t: usize| #[trigger] g.is_live(t) implies g.spare(rest, t) >= 0 by {
            assert(h.is_live(t));
            assert(h.spare(pending, t) >= 0);
        }
        assert forall|t: usize| h.is_live(t) && h.spare(pending, t) >= 1 implies g.is_live(t)
            && g.spare(rest, t) >= h.spare(pending, t) by {
            assert(!counted.is_garbage(t));
        }
        assert forall|t: usize| g.is_live(t) implies h.is_live(t) && g.get(t).same_payload(
            h.get(t),
        ) by {
            assert(counted.is_live(t));
        }
    }
}

/// Giving up a handle that is not the last one keeps the heap in order
/// with the rest of the work and the count of the drop. It changes the count
/// of its target and nothing else.
pub proof fn lemma_carries_release_more<T>(h: Heap<T>, pending: Seq<Step>, a: usize)
    requires
        h.carries(pending),
        pending.len() > 0,
        pending.last() == Step::Release(a),
        h.get(a).strong != 1,
    ensures
        h.is_live(a),
        h.get(a).strong >= 2,
        h.decremented(a).marked_dirty(a).carries(pending.drop_last().push(Step::Notify)),
        keeps(
            h,
            pending,
            h.decremented(a).marked_dirty(a),
            pending.drop_last().push(Step::Notify),
        ),
{
    let rest = pending.drop_last();
    let next = rest.push(Step::Notify);
    let lowered = h.decremented(a);
    let g = lowered.marked_dirty(a);
    lemma_pending_last(pending, a);
    assert(releases(pending, a) > 0);
    assert(h.is_live(a));
    assert(h.spare(pending, a) >= 0);
    lemma_same_garbage(Heap { suspects: h.suspects, ..g }, lowered);
    assert(g.strongs() =~= lowered.strongs());
    assert forall|t: usize| g.incoming(t) == h.incoming(t) by {
        assert(g.holders(t) =~= lowered.holders(t));
        lemma_with_cell_incoming(h, a, lowered.cells[a as int], t);
    }
    lemma_with_cell_total_strong(h, a, lowered.cells[a as int]);
    assert forall|t: usize|
        releases(next, t) + if t == a {
            1nat
        } else {
            0nat
        } == releases(pending, t) by {
        lemma_pending_last(pending, t);
        lemma_pending_push(rest, Step::Notify, t);
    }
    lemma_pending_push(rest, Step::Notify, a);
    assert forall|t: usize| #[trigger] g.is_live(t) implies g.get(t).strong >= 1 && g.incoming(t)
        <= g.get(t).strong && g.spare(next, t) >= 0 by {
        assert(h.is_live(t));
        assert(h.spare(pending, t) >= 0);
    }
    assert forall|b: usize, i: int|
        g.is_live(b) && 0 <= i < g.get(b).refs.len() implies g.is_live(
        #[trigger] g.get(b).refs[i],
    ) by {
        assert(h.is_live(b));
        assert(h.is_live(h.get(b).refs[i]));
    }
    assert forall|b: usize| #[trigger] g.suspects.contains(b) implies g.is_live(b) by {
        if b != a {
            assert(h.suspects.contains(b));
            assert(h.is_live(b));
        }
    }
    assert forall|t: usize| #[trigger] releases(next, t) > 0 implies g.is_live(t) by {
        assert(releases(pending, t) > 0);
        assert(h.is_live(t));
    }
    assert forall|t: usize| g.is_live(t) implies h.is_live(t) && g.get(t).same_payload(h.get(t)) by {
        assert(h.is_live(t));
    }
}

/// Giving up the last handle to an allocation destroys it, and keeps the
/// heap in order with the rest of the work, the count of the drop and the
/// release of what the payload owned. Nothing else changes.
pub proof fn lemma_carries_release_last<T>(h: Heap<T>, pending: Seq<Step>, a: usize)
    requires
        h.carries(pending),
        pending.len() > 0,
        pending.last() == Step::Release(a),
        h.get(a).strong == 1,
    ensures
        h.is_live(a),
        h.spare(pending, a) == 0,
        !h.removed(a).is_live(a),
        h.removed(a).carries(stacked(pending.drop_last().push(Step::Notify), h.get(a).refs)),
        keeps(
            h,
            pending,
            h.removed(a),
            stacked(pending.drop_last().push(Step::Notify), h.get(a).refs),
        ),
{
    let rest = pending.drop_last();
    let refs = h.get(a).refs;
    let next = stacked(rest.push(Step::Notify), refs);
    let g = h.removed(a);
    let bare = h.with_cell(a, None);
    lemma_pending_last(pending, a);
    assert(releases(pending, a) > 0);
    assert(h.is_live(a));
    assert(h.spare(pending, a) >= 0);
    lemma_same_garbage(Heap { suspects: h.suspects, ..g }, bare);
    assert(g.strongs() =~= bare.strongs());
    lemma_with_cell_total_strong(h, a, None);
    assert forall|t: usize| g.incoming(t) + count_of(refs, t) == h.incoming(t) by {
        assert(g.holders(t) =~= bare.holders(t));
        lemma_with_cell_incoming(h, a, None, t);
    }
    assert forall|t: usize|
        releases(next, t) + if t == a {
            1nat
        } else {
            0nat
        } == releases(pending, t) + count_of(refs, t) by {
        lemma_pending_last(pending, t);
        lemma_pending_push(rest, Step::Notify, t);
        lemma_stacked(rest.push(Step::Notify), refs, t);
    }
    lemma_stacked(rest.push(Step::Notify), refs, a);
    lemma_pending_push(rest, Step::Notify, a);
    // nothing refers to `a`: no payload, and no other waiting handle
    assert(h.incoming(a) == 0);
    assert forall|b: usize| #[trigger] h.is_live(b) implies !h.get(b).refs.contains(a) by {
        lemma_held_by_le_incoming(h, b, a);
        lemma_count_of_contains(h.get(b).refs, a);
    }
    assert(count_of(refs, a) == 0) by {
        lemma_count_of_contains(refs, a);
    }
    assert forall|t: usize| #[trigger] g.is_live(t) implies g.get(t).strong >= 1 && g.incoming(t)
        <= g.get(t).strong && g.spare(next, t) >= 0 by {
        assert(h.is_live(t));
        assert(h.spare(pending, t) >= 0);
    }
    assert forall|b: usize, i: int|
        g.is_live(b) && 0 <= i < g.get(b).refs.len() implies g.is_live(
        #[trigger] g.get(b).refs[i],
    ) by {
        assert(h.is_live(b));
        assert(h.is_live(h.get(b).refs[i]));
        assert(h.get(b).refs.contains(h.get(b).refs[i]));
    }
    assert forall|b: usize| #[trigger] g.suspects.contains(b) implies g.is_live(b) by {
        assert(h.suspects.contains(b));
        assert(h.is_live(b));
    }
    assert forall|t: usize| #[trigger] releases(next, t) > 0 implies g.is_live(t) by {
        if releases(pending, t) > 0 {
            assert(h.is_live(t));
        } else {
            lemma_count_of_contains(refs, t);
            let i = choose|i: int| 0 <= i < refs.len() && refs[i] == t;
            assert(h.is_live(h.get(a).refs[i]));
        }
    }
}

/// Skipping a release that finds nothing to release keeps the heap in
/// order. It does not arise in a heap that carries the release.
pub proof fn lemma_carries_release_none<T>(h: Heap<T>, pending: Seq<Step>, a: usize)
    requires
        h.carries(pending),
        pending.len() > 0,
        pending.last() == Step::Release(a),
    ensures
        h.is_live(a),
        h.get(a).strong >= 1,
{
    lemma_pending_last(pending, a);
    assert(releases(pending, a) > 0);
    assert(h.is_live(a));
}

/// Doing the work that a heap carries leaves a well-formed heap. An
/// allocation with a handle to spare stays, with its payload as it was and
/// with at least the handles that it had to spare; and nothing is allocated
/// on the way.
pub proof fn lemma_settled<T, P: CollectCondition>(h: Heap<T>, p: P, pending: Seq<Step>)
    requires
        h.carries(pending),
    ensures
        h.settled(p, pending).well_formed(),
        keeps(h, pending, h.settled(p, pending), Seq::<Step>::empty()),
    decreases h.total_strong(), pending.len(),
{
    let end = h.settled(p, pending);
    let none = Seq::<Step>::empty();
    if pending.len() == 0 {
        assert(pending =~= none);
        lemma_carries_nothing(h);
    } else {
        let rest = pending.drop_last();
        match pending.last() {
            Step::Notify => {
                let g = h.notified(p);
                assert(end == g.settled(p, rest));
                lemma_notified_total(h, p);
                lemma_carries_notify(h, p, pending);
                lemma_settled(g, p, rest);
                lemma_keeps_both(h, pending, g, rest, end, none);
            },
            Step::Release(a) => {
                lemma_carries_release_none(h, pending, a);
                if h.get(a).strong == 1 {
                    let g = h.removed(a);
                    let next = stacked(rest.push(Step::Notify), h.get(a).refs);
                    assert(end == g.settled(p, next));
                    lemma_removed_total(h, a);
                    lemma_carries_release_last(h, pending, a);
                    lemma_settled(g, p, next);
                    lemma_keeps_both(h, pending, g, next, end, none);
                } else {
                    let g = h.decremented(a).marked_dirty(a);
                    let next = rest.push(Step::Notify);
                    assert(end == g.settled(p, next));
                    lemma_decremented_total(h, a);
                    lemma_carries_release_more(h, pending, a);
                    lemma_settled(g, p, next);
                    lemma_keeps_both(h, pending, g, next, end, none);
                }
            },
        }
    }
}

/// What dropping one handle does, case by case: nothing while a collection
/// is running; where other handles are left, it lowers the count, makes the
/// allocation a suspect and counts the drop; where the handle is the last
/// one, it destroys the allocation, releases what its payload owned and
/// then counts the drop.
pub proof fn lemma_dropped_cases<T, P: CollectCondition>(h: Heap<T>, p: P, a: usize)
    ensures
        h.collecting ==> h.dropped(p, a) == h,
        !h.collecting && h.is_live(a) && h.get(a).strong >= 2 ==> h.dropped(p, a) == h.decremented(
            a,
        ).marked_dirty(a).notified(p),
        !h.collecting && h.is_live(a) && h.get(a).strong == 1 ==> h.dropped(p, a) == h.removed(
            a,
        ).settled(p, stacked(seq![Step::Notify], h.get(a).refs)),
        !h.collecting && h.is_live(a) && h.get(a).strong == 1 && h.get(a).refs.len() == 0
            ==> h.dropped(p, a) == h.removed(a).notified(p),
{
    reveal_with_fuel(Heap::settled, 3);
    let one = seq![Step::Release(a)];
    assert(one.drop_last() =~= Seq::<Step>::empty());
    assert(one.drop_last().push(Step::Notify) =~= seq![Step::Notify]);
    assert(seq![Step::Notify].drop_last() =~= Seq::<Step>::empty());
}

/// Dropping a handle that is held outside a well-formed heap leaves a
/// well-formed heap. An allocation to which another outside handle is left
/// stays, with its payload as it was and with no fewer outside handles than
/// were left to it. Dropping the last handle to an allocation destroys it.
pub proof fn lemma_dropped<T, P: CollectCondition>(h: Heap<T>, p: P, a: usize)
    requires
        h.well_formed(),
        h.is_live(a),
        h.external(a) >= 1,
    ensures
        h.dropped(p, a).well_formed(),
        forall|t: usize|
            #![trigger h.dropped(p, a).is_live(t)]
            #![trigger h.is_live(t)]
            h.is_live(t) && t != a && h.external(t) >= 1 ==> h.dropped(p, a).is_live(t) && h.dropped(
                p,
                a,
            ).external(t) >= h.external(t),
        h.external(a) >= 2 ==> h.dropped(p, a).is_live(a) && h.dropped(p, a).external(a)
            >= h.external(a) - 1,
        forall|t: usize|
            #[trigger] h.dropped(p, a).is_live(t) ==> h.is_live(t) && h.dropped(p, a).get(
                t,
            ).same_payload(h.get(t)),
        h.get(a).strong == 1 ==> !h.dropped(p, a).is_live(a),
        h.dropped(p, a).n_refs_living + h.dropped(p, a).n_ref_drops <= h.n_refs_living
            + h.n_ref_drops,
{
    let one = seq![Step::Release(a)];
    let none = Seq::<Step>::empty();
    let end = h.dropped(p, a);
    lemma_carries_one(h, a);
    lemma_settled(h, p, one);
    assert forall|t: usize| end.spare(none, t) == end.external(t) by {
        lemma_pending_empty(t);
    }
    assert forall|t: usize| h.is_live(t) && t != a && h.external(t) >= 1 implies #[trigger] end.is_live(
        t,
    ) && end.external(t) >= h.external(t) by {
        assert(h.spare(one, t) >= 1);
    }
    if h.external(a) >= 2 {
        assert(h.spare(one, a) >= 1);
    }
    if h.get(a).strong == 1 {
        let g = h.removed(a);
        let next = stacked(one.drop_last().push(Step::Notify), h.get(a).refs);
        lemma_dropped_cases(h, p, a);
        assert(one.drop_last().push(Step::Notify) =~= seq![Step::Notify]);
        lemma_carries_release_last(h, one, a);
        lemma_settled(g, p, next);
        if end.is_live(a) {
            assert(g.is_live(a));
        }
    }
}

} // verus!
