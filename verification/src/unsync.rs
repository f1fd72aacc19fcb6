//! Garbage collection for the allocations of one thread: the dumpster that
//! holds them, the handles to them, the collect condition and the statistics
//! that it is given.
use std::marker::PhantomData;
use vstd::prelude::*;
use crate::cascade::{lemma_carries_one, lemma_dropped, lemma_dropped_cases, Step};
use crate::heap::{
    lemma_cloned, lemma_created, lemma_popped, lemma_pushed, lemma_with_borrow, Alloc, Heap,
};
use self::release::{steps, Pending};

mod collect;
mod release;

verus! {

/// Information passed to a [`CollectCondition`] to determine whether the
/// garbage collector should start collecting.
pub struct CollectInfo {
    /// How many handles were dropped since the last collection.
    pub n_ref_drops: usize,
    /// How many handles exist.
    pub n_refs_living: usize,
}

impl CollectInfo {
    /// Get the number of times that a [`Gc`] has been dropped since the last
    /// time a collection operation was performed.
    #[must_use]
    pub fn n_gcs_dropped_since_last_collect(&self) -> (n: usize)
        ensures
            n == self.n_ref_drops,
    {
        self.n_ref_drops
    }

    /// Get the total number of [`Gc`]s which currently exist.
    #[must_use]
    pub fn n_gcs_existing(&self) -> (n: usize)
        ensures
            n == self.n_refs_living,
    {
        self.n_refs_living
    }
}

/// A rule which determines whether the garbage collector should start
/// collecting.
pub trait CollectCondition {
    /// The decision as a function of the statistics.
    spec fn decides(&self, info: CollectInfo) -> bool;

    /// Whether a collection should start now.
    fn should_collect(&self, info: &CollectInfo) -> (now: bool)
        ensures
            now == self.decides(*info),
    ;
}

/// The default collection condition: collect when more handles were dropped
/// since the last collection than exist.
#[must_use]
pub fn default_collect_condition(info: &CollectInfo) -> (now: bool)
    ensures
        now == (info.n_ref_drops > info.n_refs_living),
{
    info.n_gcs_dropped_since_last_collect() > info.n_gcs_existing()
}

/// The [`CollectCondition`] that decides as [`default_collect_condition`]
/// does.
#[derive(Clone, Copy, Debug, Default)]
pub struct DefaultCondition;

impl CollectCondition for DefaultCondition {
    open spec fn decides(&self, info: CollectInfo) -> bool {
        info.n_ref_drops > info.n_refs_living
    }

    fn should_collect(&self, info: &CollectInfo) -> (now: bool) {
        default_collect_condition(info)
    }
}

/// A garbage-collected pointer: an owning handle to one allocation of a
/// [`Dumpster`].
///
/// A handle carries only the address of its allocation. It is created by
/// [`Gc::new`] and [`Gc::clone`] and given up by [`Gc::drop`].
#[derive(Debug)]
pub struct Gc<T> {
    /// The address of the allocation.
    addr: usize,
    marker: PhantomData<T>,
}

impl<T> View for Gc<T> {
    type V = usize;

    /// The address of the allocation that the handle refers to.
    closed spec fn view(&self) -> usize {
        self.addr
    }
}

/// The underlying heap allocation for a [`Gc`].
struct GcBox<T> {
    /// The number of extant references to this garbage-collected data.
    ref_count: usize,
    /// The stored value inside this garbage-collected box.
    value: T,
    /// The handles that the payload owns.
    refs: Vec<Gc<T>>,
    /// Whether user code holds a mutable borrow of the payload's interior.
    borrowed: bool,
    /// Where the allocation stands among the suspects, if it is one.
    dirty: Option<usize>,
}

/// The heap of one thread together with its bookkeeping: the allocations,
/// the suspects among them, the statistics and the collect condition.
pub struct Dumpster<T, P> {
    /// The allocation at each address.
    boxes: Vec<Option<GcBox<T>>>,
    /// The addresses at which nothing is allocated.
    vacant: Vec<usize>,
    /// The addresses of the allocations which may be part of a cycle.
    to_collect: Vec<usize>,
    /// The number of handles created minus the number dropped.
    n_refs_living: usize,
    /// The number of handles dropped since the last collection.
    n_ref_drops: usize,
    /// The rule that decides when to collect.
    collect_condition: P,
    /// Whether a collection is running.
    collecting: bool,
    /// The handles that went away with collected allocations.
    reclaimed: Ghost<nat>,
}

spec fn targets<T>(refs: Seq<Gc<T>>) -> Seq<usize> {
    Seq::new(refs.len(), |i: int| refs[i].addr)
}

spec fn box_view<T>(b: GcBox<T>) -> Alloc<T> {
    Alloc { strong: b.ref_count, value: b.value, refs: targets(b.refs@), borrowed: b.borrowed }
}

spec fn cell_view<T>(cell: Option<GcBox<T>>) -> Option<Alloc<T>> {
    match cell {
        Some(b) => Some(box_view(b)),
        None => None,
    }
}

spec fn cells_view<T>(boxes: Seq<Option<GcBox<T>>>) -> Seq<Option<Alloc<T>>> {
    Seq::new(boxes.len(), |a: int| cell_view(boxes[a]))
}

spec fn dirty_set<T>(boxes: Seq<Option<GcBox<T>>>) -> Set<usize> {
    Set::new(
        |a: usize| a < boxes.len() && boxes[a as int] is Some && boxes[a as int]->0.dirty is Some,
    )
}

/// Replacing a box by one that stands at the same place among the suspects
/// replaces its cell and nothing else.
proof fn lemma_replace_box<T>(boxes: Seq<Option<GcBox<T>>>, a: int, b: GcBox<T>)
    requires
        0 <= a < boxes.len(),
        boxes[a] is Some,
        b.dirty is Some == boxes[a]->0.dirty is Some,
    ensures
        cells_view(boxes.update(a, Some(b))) == cells_view(boxes).update(a, Some(box_view(b))),
        dirty_set(boxes.update(a, Some(b))) == dirty_set(boxes),
{
    assert(cells_view(boxes.update(a, Some(b))) =~= cells_view(boxes).update(
        a,
        Some(box_view(b)),
    ));
    assert(dirty_set(boxes.update(a, Some(b))) =~= dirty_set(boxes));
}

impl<T, P: CollectCondition> View for Dumpster<T, P> {
    type V = Heap<T>;

    closed spec fn view(&self) -> Heap<T> {
        Heap {
            cells: cells_view(self.boxes@),
            suspects: dirty_set(self.boxes@),
            n_refs_living: self.n_refs_living,
            n_ref_drops: self.n_ref_drops,
            collecting: self.collecting,
            reclaimed: self.reclaimed@,
        }
    }
}

impl<T, P: CollectCondition> Dumpster<T, P> {
    /// The rule that decides when to collect.
    pub closed spec fn condition(&self) -> P {
        self.collect_condition
    }

    /// The bookkeeping agrees with the allocations, `list` being the list of
    /// suspects.
    spec fn rep_with(&self, list: Seq<usize>) -> bool {
        &&& self.boxes@.len() <= usize::MAX
        &&& list.len() <= usize::MAX
        &&& forall|j: int|
            0 <= j < self.vacant@.len() ==> (#[trigger] self.vacant@[j]) < self.boxes@.len()
                && self.boxes@[self.vacant@[j] as int] is None
        &&& forall|i: int, j: int|
            0 <= i < j < self.vacant@.len() ==> self.vacant@[i] != self.vacant@[j]
        &&& forall|k: int|
            0 <= k < list.len() ==> (#[trigger] list[k]) < self.boxes@.len()
                && self.boxes@[list[k] as int] is Some && self.boxes@[list[k] as int]->0.dirty
                == Some(k as usize)
        &&& forall|a: int|
            0 <= a < self.boxes@.len() && (#[trigger] self.boxes@[a]) is Some
                && self.boxes@[a]->0.dirty is Some ==> self.boxes@[a]->0.dirty->0 < list.len()
                && list[self.boxes@[a]->0.dirty->0 as int] == a
    }

    /// The bookkeeping agrees with the allocations.
    pub closed spec fn rep(&self) -> bool {
        self.rep_with(self.to_collect@)
    }

    /// The dumpster is at a stable point and its heap is well formed.
    pub open spec fn wf(&self) -> bool {
        self.rep() && self@.well_formed()
    }

    /// Construct a dumpster with nothing allocated, which collects when
    /// `collect_condition` says so.
    pub fn new(collect_condition: P) -> (d: Self)
        ensures
            d.wf(),
            d@ == Heap::<T>::empty(),
            d.condition() == collect_condition,
    {
        let d = Dumpster {
            boxes: Vec::new(),
            vacant: Vec::new(),
            to_collect: Vec::new(),
            n_refs_living: 0,
            n_ref_drops: 0,
            collect_condition,
            collecting: false,
            reclaimed: Ghost(0),
        };
        assert(d@.cells =~= Heap::<T>::empty().cells);
        assert(d@.suspects =~= Heap::<T>::empty().suspects);
        assert(d@.strongs() =~= Seq::<nat>::empty());
        d
    }

    /// Whether a collection is running.
    pub fn is_collecting(&self) -> (guard: bool)
        ensures
            guard == self@.collecting,
    {
        self.collecting
    }

    /// The statistics that the collect condition would be given now.
    pub fn collect_info(&self) -> (info: CollectInfo)
        ensures
            info == self@.info(),
    {
        CollectInfo { n_ref_drops: self.n_ref_drops, n_refs_living: self.n_refs_living }
    }

    /// Notify the dumpster that a handle was created.
    fn notify_created_gc(&mut self)
        requires
            old(self).n_refs_living < usize::MAX,
        ensures
            *final(self) == (Dumpster { n_refs_living: (old(self).n_refs_living + 1) as usize, ..*old(self) }),
    {
        self.n_refs_living = self.n_refs_living + 1;
    }

    /// Place `b` at an address at which nothing is allocated, and return the
    /// address.
    fn allocate(&mut self, b: GcBox<T>) -> (addr: usize)
        requires
            old(self).rep(),
            b.dirty is None,
        ensures
            final(self).rep(),
            addr <= old(self).boxes@.len(),
            addr < usize::MAX,
            addr < old(self).boxes@.len() ==> old(self).boxes@[addr as int] is None,
            final(self).boxes@ == if addr < old(self).boxes@.len() {
                old(self).boxes@.update(addr as int, Some(b))
            } else {
                old(self).boxes@.push(Some(b))
            },
            final(self).n_refs_living == old(self).n_refs_living,
            final(self).n_ref_drops == old(self).n_ref_drops,
            final(self).collecting == old(self).collecting,
            final(self).reclaimed == old(self).reclaimed,
            final(self).collect_condition == old(self).collect_condition,
    {
        match self.vacant.pop() {
            Some(addr) => {
                assert(old(self).vacant@[old(self).vacant@.len() - 1] == addr);
                self.boxes[addr] = Some(b);
                addr
            },
            None => {
                let addr: usize = self.boxes.len();
                self.boxes.push(Some(b));
                assert(self.boxes@.len() == self.boxes.len());
                addr
            },
        }
    }
}

/// Collect all existing unreachable allocations of `d`.
///
/// This operation is most useful for making sure that some value has been
/// destroyed before moving on, because the garbage collector is not eager
/// under normal conditions.
pub fn collect<T, P: CollectCondition>(d: &mut Dumpster<T, P>)
    requires
        old(d).wf(),
    ensures
        final(d).wf(),
        final(d).condition() == old(d).condition(),
        final(d)@ == old(d)@.collected(),
        forall|t: usize|
            #![trigger final(d)@.is_live(t)]
            #![trigger old(d)@.is_live(t)]
            old(d)@.is_live(t) && old(d)@.external(t) >= 1 ==> final(d)@.is_live(t)
                && final(d)@.external(t) >= old(d)@.external(t),
        forall|t: usize|
            #![trigger final(d)@.is_live(t)]
            final(d)@.is_live(t) ==> old(d)@.is_live(t) && final(d)@.get(t) == old(d)@.get(t),
{
    d.collect_all();
}

/// Set the rule which determines whether the garbage collector should be run.
///
/// `f` will be asked after every drop of a handle whether a full cleanup of
/// the heap should begin.
pub fn set_collect_condition<T, P: CollectCondition>(d: &mut Dumpster<T, P>, f: P)
    requires
        old(d).wf(),
    ensures
        final(d).wf(),
        final(d).condition() == f,
        final(d)@ == old(d)@,
{
    d.collect_condition = f;
}

impl<T> Gc<T> {
    /// Construct a new garbage-collected allocation, with `value` as its
    /// value, and return the first handle to it.
    pub fn new<P: CollectCondition>(d: &mut Dumpster<T, P>, value: T) -> (gc: Gc<T>)
        requires
            old(d).wf(),
            old(d)@.n_refs_living + old(d)@.n_ref_drops < usize::MAX,
        ensures
            final(d).wf(),
            final(d).condition() == old(d).condition(),
            !old(d)@.is_live(gc@),
            gc@ <= old(d)@.cells.len(),
            final(d)@ == old(d)@.created(gc@, value),
            final(d)@.external(gc@) == 1,
            forall|t: usize| t != gc@ ==> final(d)@.external(t) == old(d)@.external(t),
    {
        d.notify_created_gc();
        let b = GcBox { ref_count: 1, value, refs: Vec::new(), borrowed: false, dirty: None };
        let addr: usize = d.allocate(b);
        proof {
            assert(targets(b.refs@) =~= Seq::<usize>::empty());
            assert(d@.cells =~= old(d)@.created(addr, value).cells);
            assert(d@.suspects =~= old(d)@.created(addr, value).suspects);
            lemma_created(old(d)@, addr, value);
        }
        Gc { addr, marker: PhantomData }
    }

    /// Dereference this pointer, creating a reference to the contained value
    /// `T`. Not to be called while a collection is running.
    pub fn deref<'a, P: CollectCondition>(&self, d: &'a Dumpster<T, P>) -> (value: &'a T)
        requires
            d.wf(),
            d@.is_live(self@),
        ensures
            *value == d@.get(self@).value,
            d@.get(self@).strong >= 1,
    {
        &d.boxes[self.addr].as_ref().unwrap().value
    }

    /// Create a duplicate reference to the same data pointed to by `self`.
    /// This does not duplicate the data, and does not make the allocation a
    /// suspect.
    pub fn clone<P: CollectCondition>(&self, d: &mut Dumpster<T, P>) -> (gc: Gc<T>)
        requires
            old(d).wf(),
            old(d)@.is_live(self@),
            old(d)@.n_refs_living + old(d)@.n_ref_drops < usize::MAX,
        ensures
            final(d).wf(),
            final(d).condition() == old(d).condition(),
            gc@ == self@,
            final(d)@ == old(d)@.cloned(self@),
            final(d)@.get(self@).strong == old(d)@.get(self@).strong + 1,
            final(d)@.external(self@) == old(d)@.external(self@) + 1,
            forall|t: usize| t != self@ ==> final(d)@.external(t) == old(d)@.external(t),
    {
        match &mut d.boxes[self.addr] {
            Some(b) => {
                b.ref_count = b.ref_count.saturating_add(1);
            },
            None => {},
        }
        d.notify_created_gc();
        proof {
            lemma_replace_box(old(d).boxes@, self.addr as int, d.boxes@[self.addr as int]->0);
            assert(d@.cells =~= old(d)@.cloned(self.addr).cells);
            lemma_cloned(old(d)@, self.addr);
        }
        Gc { addr: self.addr, marker: PhantomData }
    }

    /// Move `gc` into the payload of the allocation that `self` refers to,
    /// behind the handles that the payload already owns.
    pub fn push<P: CollectCondition>(&self, d: &mut Dumpster<T, P>, gc: Gc<T>)
        requires
            old(d).wf(),
            old(d)@.is_live(self@),
            old(d)@.held(gc@),
        ensures
            final(d).wf(),
            final(d).condition() == old(d).condition(),
            final(d)@ == old(d)@.pushed(self@, gc@),
            final(d)@.external(gc@) == old(d)@.external(gc@) - 1,
            forall|t: usize| t != gc@ ==> final(d)@.external(t) == old(d)@.external(t),
    {
        let ghost target = gc.addr;
        match &mut d.boxes[self.addr] {
            Some(b) => {
                b.refs.push(gc);
            },
            None => {},
        }
        proof {
            let b = d.boxes@[self.addr as int]->0;
            lemma_replace_box(old(d).boxes@, self.addr as int, b);
            assert(targets(b.refs@) =~= old(d)@.get(self.addr).refs.push(target));
            assert(d@.cells =~= old(d)@.pushed(self.addr, target).cells);
            lemma_pushed(old(d)@, self.addr, target);
        }
    }

    /// Move the last handle that the payload of this allocation owns out of
    /// it, if it owns any.
    pub fn pop<P: CollectCondition>(&self, d: &mut Dumpster<T, P>) -> (gc: Option<Gc<T>>)
        requires
            old(d).wf(),
            old(d)@.is_live(self@),
        ensures
            final(d).wf(),
            final(d).condition() == old(d).condition(),
            old(d)@.get(self@).refs.len() == 0 ==> gc is None && final(d)@ == old(d)@,
            old(d)@.get(self@).refs.len() > 0 ==> gc is Some && gc->0@ == old(d)@.get(
                self@,
            ).refs.last() && final(d)@ == old(d)@.popped(self@) && final(d)@.external(gc->0@)
                == old(d)@.external(gc->0@) + 1 && forall|t: usize|
                t != gc->0@ ==> final(d)@.external(t) == old(d)@.external(t),
    {
        let gc = match &mut d.boxes[self.addr] {
            Some(b) => b.refs.pop(),
            None => None,
        };
        proof {
            let b = d.boxes@[self.addr as int]->0;
            lemma_replace_box(old(d).boxes@, self.addr as int, b);
            if old(d)@.get(self.addr).refs.len() > 0 {
                assert(targets(b.refs@) =~= old(d)@.get(self.addr).refs.drop_last());
                assert(d@.cells =~= old(d)@.popped(self.addr).cells);
                lemma_popped(old(d)@, self.addr);
            } else {
                assert(targets(b.refs@) =~= old(d)@.get(self.addr).refs);
                assert(d@.cells =~= old(d)@.cells);
            }
        }
        gc
    }

    /// Take a mutable borrow of the payload's interior. While it lasts, a
    /// collector cannot visit the payload.
    pub fn borrow_mut<P: CollectCondition>(&self, d: &mut Dumpster<T, P>)
        requires
            old(d).wf(),
            old(d)@.is_live(self@),
            !old(d)@.get(self@).borrowed,
        ensures
            final(d).wf(),
            final(d).condition() == old(d).condition(),
            final(d)@ == old(d)@.with_borrow(self@, true),
            forall|t: usize| final(d)@.external(t) == old(d)@.external(t),
    {
        match &mut d.boxes[self.addr] {
            Some(b) => {
                b.borrowed = true;
            },
            None => {},
        }
        proof {
            lemma_replace_box(old(d).boxes@, self.addr as int, d.boxes@[self.addr as int]->0);
            assert(d@.cells =~= old(d)@.with_borrow(self.addr, true).cells);
            lemma_with_borrow(old(d)@, self.addr, true);
        }
    }

    /// Give back the mutable borrow of the payload's interior.
    pub fn end_borrow<P: CollectCondition>(&self, d: &mut Dumpster<T, P>)
        requires
            old(d).wf(),
            old(d)@.is_live(self@),
        ensures
            final(d).wf(),
            final(d).condition() == old(d).condition(),
            final(d)@ == old(d)@.with_borrow(self@, false),
            forall|t: usize| final(d)@.external(t) == old(d)@.external(t),
    {
        match &mut d.boxes[self.addr] {
            Some(b) => {
                b.borrowed = false;
            },
            None => {},
        }
        proof {
            lemma_replace_box(old(d).boxes@, self.addr as int, d.boxes@[self.addr as int]->0);
            assert(d@.cells =~= old(d)@.with_borrow(self.addr, false).cells);
            lemma_with_borrow(old(d)@, self.addr, false);
        }
    }

    /// Destroy this garbage-collected pointer.
    ///
    /// If this is the last handle to its allocation, the allocation is
    /// destroyed, and the handles that its payload owns are dropped in turn.
    /// Otherwise the allocation becomes a suspect. While a collection is
    /// running, dropping a handle does nothing at all.
    pub fn drop<P: CollectCondition>(self, d: &mut Dumpster<T, P>)
        requires
            old(d)@.collecting || (old(d).wf() && old(d)@.held(self@)),
        ensures
            final(d).condition() == old(d).condition(),
            final(d)@ == old(d)@.dropped(old(d).condition(), self@),
            old(d)@.collecting ==> *final(d) == *old(d),
            !old(d)@.collecting ==> final(d).wf(),
            !old(d)@.collecting && old(d)@.get(self@).strong >= 2 ==> final(d)@ == old(d)@.decremented(self@).marked_dirty(self@).notified(old(d).condition()),
            !old(d)@.collecting && old(d)@.get(self@).strong == 1 ==> !final(d)@.is_live(self@),
            final(d)@.n_refs_living + final(d)@.n_ref_drops <= old(d)@.n_refs_living + old(d)@.n_ref_drops,
            !old(d)@.collecting && old(d)@.external(self@) >= 2 ==> final(d)@.is_live(self@)
                && final(d)@.external(self@) >= old(d)@.external(self@) - 1,
            forall|t: usize|
                #![trigger final(d)@.is_live(t)]
                #![trigger old(d)@.is_live(t)]
                !old(d)@.collecting && old(d)@.is_live(t) && t != self@ && old(d)@.external(t) >= 1
                    ==> final(d)@.is_live(t) && final(d)@.external(t) >= old(d)@.external(t),
            forall|t: usize|
                #![trigger final(d)@.is_live(t)]
                final(d)@.is_live(t) ==> old(d)@.is_live(t) && final(d)@.get(t).same_payload(
                    old(d)@.get(t),
                ),
        decreases
            (if old(d)@.collecting {
                0nat
            } else {
                6nat
            }),
    {
        proof {
            lemma_dropped_cases(d@, d.collect_condition, self.addr);
        }
        if d.collecting {
            return ;
        }
        let ghost addr = self.addr;
        let mut pending: Vec<Pending<T>> = Vec::new();
        pending.push(Pending::Release(self));
        proof {
            assert(steps(pending@) =~= seq![Step::Release(addr)]);
            lemma_carries_one(d@, addr);
            lemma_dropped(d@, d.collect_condition, addr);
        }
        d.settle(pending);
    }
}

} // verus!
