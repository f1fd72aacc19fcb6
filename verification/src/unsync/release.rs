//! What a drop sets off: the release of handles one after another, the
//! bookkeeping of suspects, and the count of drops that may start a
//! collection.
use vstd::prelude::*;
use super::{dirty_set, lemma_replace_box, targets, box_view, CollectCondition, Dumpster, Gc, GcBox};
use crate::cascade::{
    lemma_carries_notify, lemma_carries_nothing, lemma_carries_release_last,
    lemma_carries_release_more, lemma_carries_release_none, lemma_decremented_total,
    lemma_notified_total, lemma_pending_last, lemma_removed_total, stacked, Step,
};
use crate::trial::lemma_same_garbage;

verus! {

/// One piece of work that a drop leaves to do.
pub(super) enum Pending<T> {
    /// Give up this handle.
    Release(Gc<T>),
    /// Notify the dumpster of one drop.
    Notify,
}

pub(super) open spec fn step_view<T>(step: Pending<T>) -> Step {
    match step {
        Pending::Release(gc) => Step::Release(gc.addr),
        Pending::Notify => Step::Notify,
    }
}

pub(super) open spec fn steps<T>(pending: Seq<Pending<T>>) -> Seq<Step> {
    Seq::new(pending.len(), |i: int| step_view(pending[i]))
}

impl<T, P: CollectCondition> Dumpster<T, P> {
    /// Take the allocation at `addr`, which is no suspect, out of the heap
    /// and make its address available again.
    fn evict(&mut self, addr: usize) -> (gone: Option<GcBox<T>>)
        requires
            old(self).rep(),
            old(self)@.is_live(addr),
            !old(self)@.suspects.contains(addr),
        ensures
            final(self).rep(),
            gone == old(self).boxes@[addr as int],
            gone is Some,
            final(self)@ == old(self)@.with_cell(addr, None),
            final(self).collect_condition == old(self).collect_condition,
    {
        let gone = self.boxes[addr].take();
        self.vacant.push(addr);
        proof {
            assert(!dirty_set(old(self).boxes@).contains(addr));
            assert(self.boxes@ =~= old(self).boxes@.update(addr as int, None));
            assert(self@.cells =~= old(self)@.cells.update(addr as int, None));
            assert(self@.suspects =~= old(self)@.suspects);
            assert forall|i: int, j: int| 0 <= i < j < self.vacant@.len() implies self.vacant@[i]
                != self.vacant@[j] by {
                if j == old(self).vacant@.len() {
                    assert(old(self).boxes@[old(self).vacant@[i] as int] is None);
                }
            }
            assert forall|j: int| 0 <= j < self.vacant@.len() implies (#[trigger] self.vacant@[j])
                < self.boxes@.len() && self.boxes@[self.vacant@[j] as int] is None by {
                if j < old(self).vacant@.len() {
                    assert(old(self).boxes@[old(self).vacant@[j] as int] is None);
                }
            }
            assert forall|k: int| 0 <= k < self.to_collect@.len() implies (
            #[trigger] self.to_collect@[k]) != addr by {
                assert(old(self).boxes@[old(self).to_collect@[k] as int]->0.dirty is Some);
            }
        }
        gone
    }

    /// Lower the strong count at `addr` by one.
    fn decrement(&mut self, addr: usize)
        requires
            old(self).rep(),
            old(self)@.is_live(addr),
            old(self)@.get(addr).strong >= 2,
        ensures
            final(self).rep(),
            final(self)@ == old(self)@.decremented(addr),
            final(self).collect_condition == old(self).collect_condition,
    {
        match &mut self.boxes[addr] {
            Some(b) => {
                b.ref_count = b.ref_count - 1;
            },
            None => {},
        }
        proof {
            lemma_replace_box(old(self).boxes@, addr as int, self.boxes@[addr as int]->0);
            assert(self@.cells =~= old(self)@.decremented(addr).cells);
        }
    }

    /// Mark an allocation as "dirty," implying that it may need to be swept
    /// through later to find out if it has any references pointing to it.
    fn mark_dirty(&mut self, addr: usize)
        requires
            old(self).rep(),
            old(self)@.is_live(addr),
        ensures
            final(self).rep(),
            final(self)@ == old(self)@.marked_dirty(addr),
            final(self).collect_condition == old(self).collect_condition,
    {
        let n: usize = self.to_collect.len();
        let fresh: bool = match &mut self.boxes[addr] {
            Some(b) => {
                if b.dirty.is_none() {
                    b.dirty = Some(n);
                    true
                } else {
                    false
                }
            },
            None => false,
        };
        if fresh {
            self.to_collect.push(addr);
        }
        proof {
            let was = old(self).boxes@[addr as int]->0;
            let now = self.boxes@[addr as int]->0;
            assert(box_view(now) == box_view(was));
            assert(self.boxes@ =~= old(self).boxes@.update(addr as int, Some(now)));
            assert(self@.cells =~= old(self)@.cells);
            assert(self@.suspects =~= old(self)@.suspects.insert(addr));
            assert(self.to_collect@.len() == self.to_collect.len());
            if fresh {
                assert forall|k: int| 0 <= k < self.to_collect@.len() implies (
                #[trigger] self.to_collect@[k]) < self.boxes@.len()
                    && self.boxes@[self.to_collect@[k] as int] is Some
                    && self.boxes@[self.to_collect@[k] as int]->0.dirty == Some(k as usize) by {
                    if k < n {
                        assert(old(self).to_collect@[k] != addr);
                    }
                }
            }
        }
    }

    /// Mark an allocation as "cleaned," implying that the allocation is about
    /// to be destroyed and therefore should not be cleaned up later.
    fn mark_cleaned(&mut self, addr: usize)
        requires
            old(self).rep(),
            old(self)@.is_live(addr),
        ensures
            final(self).rep(),
            final(self)@ == old(self)@.marked_clean(addr),
            final(self).boxes@[addr as int] is Some,
            final(self).collect_condition == old(self).collect_condition,
    {
        let slot: Option<usize> = match &mut self.boxes[addr] {
            Some(b) => b.dirty.take(),
            None => None,
        };
        let ghost boxes = self.boxes@;
        match slot {
            Some(k) => {
                assert(old(self).boxes@[addr as int]->0.dirty == Some(k));
                let _ = self.to_collect.swap_remove(k);
                if k < self.to_collect.len() {
                    let moved: usize = self.to_collect[k];
                    proof {
                        assert(moved == old(self).to_collect@[old(self).to_collect@.len() - 1]);
                        assert(moved != addr);
                    }
                    match &mut self.boxes[moved] {
                        Some(b) => {
                            b.dirty = Some(k);
                        },
                        None => {},
                    }
                }
                proof {
                    assert forall|j: int| 0 <= j < self.to_collect@.len() implies (
                    #[trigger] self.to_collect@[j]) < self.boxes@.len()
                        && self.boxes@[self.to_collect@[j] as int] is Some
                        && self.boxes@[self.to_collect@[j] as int]->0.dirty == Some(j as usize) by {
                        if j == k {
                        } else {
                            assert(self.to_collect@[j] == old(self).to_collect@[j]);
                            assert(old(self).to_collect@[j] != old(self).to_collect@[old(self).to_collect@.len() - 1]);
                        }
                    }
                    assert forall|a: int|
                        0 <= a < self.boxes@.len() && (#[trigger] self.boxes@[a]) is Some
                            && self.boxes@[a]->0.dirty is Some implies self.boxes@[a]->0.dirty->0
                        < self.to_collect@.len() && self.to_collect@[self.boxes@[a]->0.dirty->0 as int]
                        == a by {
                        assert(old(self).boxes@[a] is Some);
                    }
                }
            },
            None => {},
        }
        proof {
            assert(self@.cells =~= old(self)@.cells);
            assert(self@.suspects =~= old(self)@.suspects.remove(addr));
        }
    }

    /// Notify the dumpster that a handle was dropped, potentially triggering
    /// a collection.
    fn notify_dropped_gc(&mut self)
        requires
            old(self).rep(),
            old(self)@.sound(),
            old(self).n_refs_living >= 1,
            old(self).n_ref_drops < usize::MAX,
        ensures
            final(self).rep(),
            final(self)@ == old(self)@.notified(old(self).collect_condition),
            final(self).collect_condition == old(self).collect_condition,
        decreases 4nat,
    {
        self.n_ref_drops = self.n_ref_drops + 1;
        self.n_refs_living = self.n_refs_living - 1;
        let info = self.collect_info();
        proof {
            lemma_same_garbage(old(self)@, self@);
        }
        if self.collect_condition.should_collect(&info) {
            self.collect_all();
        }
    }

    /// Do the work that a drop has left, the last step of `pending` first.
    pub(super) fn settle(&mut self, pending: Vec<Pending<T>>)
        requires
            old(self).rep(),
            old(self)@.carries(steps(pending@)),
        ensures
            final(self).wf(),
            final(self)@ == old(self)@.settled(old(self).collect_condition, steps(pending@)),
            final(self).collect_condition == old(self).collect_condition,
        decreases 5nat,
    {
        let mut pending = pending;
        let ghost p = self.collect_condition;
        let ghost all = steps(pending@);
        while pending.len() > 0
            invariant
                self.rep(),
                self@.carries(steps(pending@)),
                self.collect_condition == p,
                self@.settled(p, steps(pending@)) == old(self)@.settled(p, all),
            decreases self@.total_strong(), pending@.len(),
        {
            let ghost h = self@;
            let ghost todo = steps(pending@);
            let step = pending.pop().unwrap();
            proof {
                assert(todo.last() == step_view(step));
                assert(steps(pending@) =~= todo.drop_last());
            }
            match step {
                Pending::Notify => {
                    proof {
                        lemma_carries_notify(h, p, todo);
                        lemma_notified_total(h, p);
                        lemma_pending_last(todo, 0);
                    }
                    self.notify_dropped_gc();
                },
                Pending::Release(gc) => {
                    let addr: usize = gc.addr;
                    proof {
                        lemma_carries_release_none(h, todo, addr);
                    }
                    let count: usize = match &self.boxes[addr] {
                        Some(b) => b.ref_count,
                        None => 0,
                    };
                    if count == 1 {
                        proof {
                            lemma_carries_release_last(h, todo, addr);
                            lemma_removed_total(h, addr);
                        }
                        self.mark_cleaned(addr);
                        let gone = self.evict(addr);
                        pending.push(Pending::Notify);
                        proof {
                            assert(steps(pending@) =~= todo.drop_last().push(Step::Notify));
                            assert(self@ == h.removed(addr));
                        }
                        match gone {
                            Some(b) => {
                                let ghost owned = h.get(addr).refs;
                                let GcBox { ref_count: _, value: _, refs, borrowed: _, dirty: _ } = b;
                                let mut refs = refs;
                                assert(targets(refs@) == owned);
                                while refs.len() > 0
                                    invariant
                                        self.rep(),
                                        self@ == h.removed(addr),
                                        self.collect_condition == p,
                                        stacked(steps(pending@), targets(refs@)) == stacked(
                                            todo.drop_last().push(Step::Notify),
                                            owned,
                                        ),
                                    decreases refs@.len(),
                                {
                                    let ghost left = targets(refs@);
                                    let ghost stack = steps(pending@);
                                    let handle = refs.pop().unwrap();
                                    pending.push(Pending::Release(handle));
                                    proof {
                                        assert(targets(refs@) =~= left.drop_last());
                                        assert(steps(pending@) =~= stack.push(
                                            Step::Release(left.last()),
                                        ));
                                    }
                                }
                                proof {
                                    assert(targets(refs@) =~= Seq::<usize>::empty());
                                    assert(steps(pending@) == stacked(
                                        todo.drop_last().push(Step::Notify),
                                        owned,
                                    ));
                                }
                            },
                            None => {},
                        }
                    } else {
                        proof {
                            lemma_carries_release_more(h, todo, addr);
                            lemma_decremented_total(h, addr);
                        }
                        self.decrement(addr);
                        self.mark_dirty(addr);
                        pending.push(Pending::Notify);
                        proof {
                            assert(steps(pending@) =~= todo.drop_last().push(Step::Notify));
                        }
                    }
                },
            }
        }
        proof {
            assert(steps(pending@) =~= Seq::<Step>::empty());
            lemma_carries_nothing(self@);
        }
    }
}

} // verus!
