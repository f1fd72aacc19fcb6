//! The heap as the contracts see it: a sequence of cells indexed by address,
//! each either vacant or holding one allocation with its strong count, its
//! payload and the handles the payload owns.
use vstd::prelude::*;
use crate::tally::{
    count_of, lemma_count_of_contains, lemma_count_of_drop_last, lemma_count_of_push,
    lemma_total_entry, lemma_total_le, lemma_total_push, lemma_total_update, lemma_total_zero,
    total, zeros,
};
use crate::unsync::CollectInfo;

verus! {

/// One live allocation: header and payload.
pub struct Alloc<T> {
    /// The strong count stored in the header.
    pub strong: usize,
    /// The user's value.
    pub value: T,
    /// The targets of the handles that the payload owns, in the order in
    /// which a visitor meets them.
    pub refs: Seq<usize>,
    /// Whether user code holds a mutable borrow of the payload's interior.
    pub borrowed: bool,
}

impl<T> Alloc<T> {
    /// The two allocations hold the same payload in the same state.
    pub open spec fn same_payload(self, other: Alloc<T>) -> bool {
        self.value == other.value && self.refs == other.refs && self.borrowed == other.borrowed
    }
}

/// The whole state of one dumpster.
pub struct Heap<T> {
    /// The cell at each address; `None` where nothing is allocated.
    pub cells: Seq<Option<Alloc<T>>>,
    /// The addresses to examine at the next collection.
    pub suspects: Set<usize>,
    /// Handles created minus handle drops that were counted.
    pub n_refs_living: usize,
    /// Handle drops counted since the last collection.
    pub n_ref_drops: usize,
    /// The collection guard.
    pub collecting: bool,
    /// How many handles have vanished together with the allocations that
    /// collections destroyed.
    pub reclaimed: nat,
}

impl<T> Heap<T> {
    /// The heap with nothing in it.
    pub open spec fn empty() -> Heap<T> {
        Heap {
            cells: Seq::empty(),
            suspects: Set::empty(),
            n_refs_living: 0,
            n_ref_drops: 0,
            collecting: false,
            reclaimed: 0,
        }
    }

    pub open spec fn is_live(self, a: usize) -> bool {
        a < self.cells.len() && self.cells[a as int] is Some
    }

    /// The allocation at a live address.
    pub open spec fn get(self, a: usize) -> Alloc<T> {
        self.cells[a as int]->0
    }

    /// The strong count at `a`, zero where nothing is allocated.
    pub open spec fn strong_at(self, a: int) -> nat {
        if 0 <= a < self.cells.len() && self.cells[a] is Some {
            self.cells[a]->0.strong as nat
        } else {
            0
        }
    }

    pub open spec fn strongs(self) -> Seq<nat> {
        Seq::new(self.cells.len(), |a: int| self.strong_at(a))
    }

    /// The number of handles in existence, as the headers count them.
    pub open spec fn total_strong(self) -> nat {
        total(self.strongs())
    }

    /// How many handles to `t` the payload at `a` owns.
    pub open spec fn held_by(self, a: int, t: usize) -> nat {
        if 0 <= a < self.cells.len() && self.cells[a] is Some {
            count_of(self.cells[a]->0.refs, t)
        } else {
            0
        }
    }

    pub open spec fn holders(self, t: usize) -> Seq<nat> {
        Seq::new(self.cells.len(), |a: int| self.held_by(a, t))
    }

    /// How many handles to `t` are owned by payloads.
    pub open spec fn incoming(self, t: usize) -> nat {
        total(self.holders(t))
    }

    /// How many handles to `t` are held outside the heap, by user code.
    pub open spec fn external(self, t: usize) -> int {
        self.strong_at(t as int) - self.incoming(t)
    }

    /// Whether a handle to `t` is held outside the heap.
    pub open spec fn held(self, t: usize) -> bool {
        self.is_live(t) && self.external(t) >= 1
    }

    /// The counts and the handles agree: every live allocation has a
    /// positive count that covers the handles which payloads own to it, every
    /// owned handle refers to a live allocation, and so does every suspect.
    pub open spec fn sound(self) -> bool {
        &&& self.cells.len() <= usize::MAX
        &&& forall|a: usize| #[trigger] self.is_live(a) ==> self.get(a).strong >= 1
        &&& forall|a: usize, i: int|
            self.is_live(a) && 0 <= i < self.get(a).refs.len() ==> self.is_live(
                #[trigger] self.get(a).refs[i],
            )
        &&& forall|a: usize| #[trigger] self.is_live(a) ==> self.incoming(a) <= self.get(a).strong
        &&& forall|a: usize| #[trigger] self.suspects.contains(a) ==> self.is_live(a)
    }

    /// What holds of the heap at every stable point, outside a collection.
    pub open spec fn well_formed(self) -> bool {
        &&& !self.collecting
        &&& self.sound()
        &&& self.n_refs_living == self.total_strong() + self.reclaimed
        &&& self.n_refs_living + self.n_ref_drops <= usize::MAX
    }

    /// The statistics handed to the collect condition.
    pub open spec fn info(self) -> CollectInfo {
        CollectInfo { n_ref_drops: self.n_ref_drops, n_refs_living: self.n_refs_living }
    }

    /// The heap with the cell at `a` replaced.
    pub open spec fn with_cell(self, a: usize, cell: Option<Alloc<T>>) -> Heap<T> {
        Heap { cells: self.cells.update(a as int, cell), ..self }
    }

    /// The heap with one more cell at the end of the address space.
    pub open spec fn with_new_cell(self, cell: Option<Alloc<T>>) -> Heap<T> {
        Heap { cells: self.cells.push(cell), ..self }
    }

    /// The heap with the cell at `a` set, where `a` is an address in use or
    /// the next one after them.
    pub open spec fn placed(self, a: usize, cell: Option<Alloc<T>>) -> Heap<T> {
        if a < self.cells.len() {
            self.with_cell(a, cell)
        } else {
            self.with_new_cell(cell)
        }
    }

    /// The heap after a handle to a new allocation at `a` was created.
    pub open spec fn created(self, a: usize, value: T) -> Heap<T> {
        let fresh = Alloc { strong: 1, value, refs: Seq::empty(), borrowed: false };
        Heap { n_refs_living: (self.n_refs_living + 1) as usize, ..self.placed(a, Some(fresh)) }
    }

    /// The heap after a handle to `a` was cloned.
    pub open spec fn cloned(self, a: usize) -> Heap<T> {
        let old = self.get(a);
        let strong = if old.strong < usize::MAX {
            (old.strong + 1) as usize
        } else {
            old.strong
        };
        Heap {
            cells: self.cells.update(a as int, Some(Alloc { strong, ..old })),
            n_refs_living: (self.n_refs_living + 1) as usize,
            ..self
        }
    }

    /// The heap after a handle to `target` was moved into the payload at
    /// `owner`.
    pub open spec fn pushed(self, owner: usize, target: usize) -> Heap<T> {
        let old = self.get(owner);
        self.with_cell(owner, Some(Alloc { refs: old.refs.push(target), ..old }))
    }

    /// The heap after the last handle of the payload at `owner` was moved out
    /// of it.
    pub open spec fn popped(self, owner: usize) -> Heap<T> {
        let old = self.get(owner);
        self.with_cell(owner, Some(Alloc { refs: old.refs.drop_last(), ..old }))
    }

    /// The heap with the borrow flag of the payload at `a` set to `flag`.
    pub open spec fn with_borrow(self, a: usize, flag: bool) -> Heap<T> {
        let old = self.get(a);
        self.with_cell(a, Some(Alloc { borrowed: flag, ..old }))
    }

    /// The heap with `a` among the suspects.
    pub open spec fn marked_dirty(self, a: usize) -> Heap<T> {
        Heap { suspects: self.suspects.insert(a), ..self }
    }

    /// The heap with `a` not among the suspects.
    pub open spec fn marked_clean(self, a: usize) -> Heap<T> {
        Heap { suspects: self.suspects.remove(a), ..self }
    }

    /// The heap with the strong count at `a` lowered by one.
    pub open spec fn decremented(self, a: usize) -> Heap<T> {
        let old = self.get(a);
        self.with_cell(a, Some(Alloc { strong: (old.strong - 1) as usize, ..old }))
    }

    /// The heap without the allocation at `a`.
    pub open spec fn removed(self, a: usize) -> Heap<T> {
        self.marked_clean(a).with_cell(a, None)
    }

    /// The heap after one handle drop was counted.
    pub open spec fn tallied(self) -> Heap<T> {
        Heap {
            n_refs_living: (self.n_refs_living - 1) as usize,
            n_ref_drops: (self.n_ref_drops + 1) as usize,
            ..self
        }
    }
}

/// Replacing one cell changes the sum of the strong counts by the difference
/// at that cell.
pub proof fn lemma_with_cell_total_strong<T>(h: Heap<T>, a: usize, cell: Option<Alloc<T>>)
    requires
        a < h.cells.len(),
    ensures
        h.with_cell(a, cell).total_strong() + h.strong_at(a as int) == h.total_strong()
            + h.with_cell(a, cell).strong_at(a as int),
{
    let g = h.with_cell(a, cell);
    assert(g.strongs() =~= h.strongs().update(a as int, g.strong_at(a as int)));
    lemma_total_update(h.strongs(), a as int, g.strong_at(a as int));
}

/// Replacing one cell changes the number of owned handles to `t` by the
/// difference at that cell.
pub proof fn lemma_with_cell_incoming<T>(h: Heap<T>, a: usize, cell: Option<Alloc<T>>, t: usize)
    requires
        a < h.cells.len(),
    ensures
        h.with_cell(a, cell).incoming(t) + h.held_by(a as int, t) == h.incoming(t) + h.with_cell(
            a,
            cell,
        ).held_by(a as int, t),
{
    let g = h.with_cell(a, cell);
    assert(g.holders(t) =~= h.holders(t).update(a as int, g.held_by(a as int, t)));
    lemma_total_update(h.holders(t), a as int, g.held_by(a as int, t));
}

/// A payload owns no more handles to `t` than all payloads together.
pub proof fn lemma_held_by_le_incoming<T>(h: Heap<T>, a: usize, t: usize)
    ensures
        h.held_by(a as int, t) <= h.incoming(t),
{
    if a < h.cells.len() {
        lemma_total_entry(h.holders(t), a as int);
    }
}

/// No payload owns a handle to `t` exactly when no owned handle to `t`
/// exists.
pub proof fn lemma_incoming_zero<T>(h: Heap<T>, t: usize)
    requires
        forall|a: int| 0 <= a < h.cells.len() ==> h.held_by(a, t) == 0,
    ensures
        h.incoming(t) == 0,
{
    lemma_total_le(h.holders(t), zeros(h.cells.len()));
    lemma_total_zero(h.cells.len());
}

/// In a well-formed heap no payload owns a handle to a vacant address.
pub proof fn lemma_vacant_incoming<T>(h: Heap<T>, t: usize)
    requires
        h.sound(),
        !h.is_live(t),
    ensures
        h.incoming(t) == 0,
{
    assert forall|a: int| 0 <= a < h.cells.len() implies h.held_by(a, t) == 0 by {
        if h.cells[a] is Some {
            let refs = h.cells[a]->0.refs;
            lemma_count_of_contains(refs, t);
            if refs.contains(t) {
                let i = choose|i: int| 0 <= i < refs.len() && refs[i] == t;
                assert(h.is_live(a as usize));
                assert(h.is_live(h.get(a as usize).refs[i]));
            }
        }
    }
    lemma_incoming_zero(h, t);
}

/// Appending one cell adds its strong count to the sum and leaves the owned
/// handles to `t` as they were, as long as the new payload owns none.
pub proof fn lemma_with_new_cell<T>(h: Heap<T>, alloc: Alloc<T>, t: usize)
    requires
        alloc.refs.len() == 0,
    ensures
        h.with_new_cell(Some(alloc)).total_strong() == h.total_strong() + alloc.strong,
        h.with_new_cell(Some(alloc)).incoming(t) == h.incoming(t),
{
    let g = h.with_new_cell(Some(alloc));
    assert(g.strongs() =~= h.strongs().push(alloc.strong as nat));
    lemma_total_push(h.strongs(), alloc.strong as nat);
    assert(g.holders(t) =~= h.holders(t).push(0nat));
    lemma_total_push(h.holders(t), 0nat);
}

/// Creating an allocation at a vacant address keeps the heap well formed,
/// gives the new allocation one outside handle and changes no other
/// allocation's.
pub proof fn lemma_created<T>(h: Heap<T>, a: usize, value: T)
    requires
        h.well_formed(),
        !h.is_live(a),
        a <= h.cells.len(),
        a < usize::MAX,
        h.n_refs_living + h.n_ref_drops < usize::MAX,
    ensures
        h.created(a, value).well_formed(),
        h.created(a, value).external(a) == 1,
        forall|t: usize| t != a ==> h.created(a, value).external(t) == h.external(t),
        forall|t: usize| t != a ==> h.created(a, value).is_live(t) == h.is_live(t),
{
    let fresh = Alloc { strong: 1, value, refs: Seq::<usize>::empty(), borrowed: false };
    let g = h.created(a, value);
    let p = h.placed(a, Some(fresh));
    assert(g.strongs() =~= p.strongs());
    assert forall|t: usize| g.incoming(t) == h.incoming(t) by {
        assert(g.holders(t) =~= p.holders(t));
        if a < h.cells.len() {
            lemma_with_cell_incoming(h, a, Some(fresh), t);
        } else {
            lemma_with_new_cell(h, fresh, t);
        }
    }
    if a < h.cells.len() {
        lemma_with_cell_total_strong(h, a, Some(fresh));
    } else {
        lemma_with_new_cell(h, fresh, a);
    }
    lemma_vacant_incoming(h, a);
    assert forall|b: usize| #[trigger] g.is_live(b) implies g.get(b).strong >= 1 && g.incoming(b)
        <= g.get(b).strong by {
        if b != a {
            assert(h.is_live(b));
        }
    }
    assert forall|b: usize, i: int|
        g.is_live(b) && 0 <= i < g.get(b).refs.len() implies g.is_live(
        #[trigger] g.get(b).refs[i],
    ) by {
        assert(h.is_live(b));
        assert(h.is_live(h.get(b).refs[i]));
    }
    assert forall|b: usize| #[trigger] g.suspects.contains(b) implies g.is_live(b) by {
        assert(h.is_live(b));
    }
}

/// Cloning a handle keeps the heap well formed and adds one outside handle to
/// its target; the count does not saturate while the statistics have room.
pub proof fn lemma_cloned<T>(h: Heap<T>, a: usize)
    requires
        h.well_formed(),
        h.is_live(a),
        h.n_refs_living + h.n_ref_drops < usize::MAX,
    ensures
        h.cloned(a).well_formed(),
        h.cloned(a).get(a).strong == h.get(a).strong + 1,
        h.cloned(a).external(a) == h.external(a) + 1,
        forall|t: usize| t != a ==> h.cloned(a).external(t) == h.external(t),
        forall|t: usize| h.cloned(a).is_live(t) == h.is_live(t),
{
    let g = h.cloned(a);
    lemma_total_entry(h.strongs(), a as int);
    let cell = g.cells[a as int];
    let w = h.with_cell(a, cell);
    assert(w.cells =~= g.cells);
    assert(g.strongs() =~= w.strongs());
    lemma_with_cell_total_strong(h, a, cell);
    assert forall|t: usize| g.incoming(t) == h.incoming(t) by {
        assert(g.holders(t) =~= w.holders(t));
        lemma_with_cell_incoming(h, a, cell, t);
    }
    assert(h.strongs()[a as int] == h.get(a).strong);
    assert forall|b: usize| #[trigger] g.is_live(b) implies g.get(b).strong >= 1 && g.incoming(b)
        <= g.get(b).strong by {
        assert(h.is_live(b));
    }
    lemma_same_shape(h, g);
}

/// Two heaps that agree on which addresses are live, on what each payload
/// owns and on the suspects, the second with counts at least as large as
/// they need to be, are both well formed as far as the handles go.
pub proof fn lemma_same_shape<T>(h: Heap<T>, g: Heap<T>)
    requires
        h.well_formed(),
        g.cells.len() == h.cells.len(),
        forall|b: usize| g.is_live(b) == h.is_live(b),
        forall|b: usize| #[trigger] h.is_live(b) ==> g.get(b).refs == h.get(b).refs,
        forall|b: usize| #[trigger] g.is_live(b) ==> g.get(b).strong >= 1 && g.incoming(b) <= g.get(b).strong,
        forall|b: usize| g.suspects.contains(b) ==> h.suspects.contains(b) || g.is_live(b),
    ensures
        forall|b: usize, i: int|
            g.is_live(b) && 0 <= i < g.get(b).refs.len() ==> g.is_live(
                #[trigger] g.get(b).refs[i],
            ),
        forall|b: usize| #[trigger] g.suspects.contains(b) ==> g.is_live(b),
{
    assert forall|b: usize, i: int|
        g.is_live(b) && 0 <= i < g.get(b).refs.len() implies g.is_live(
        #[trigger] g.get(b).refs[i],
    ) by {
        assert(h.is_live(b));
        assert(h.is_live(h.get(b).refs[i]));
    }
    assert forall|b: usize| #[trigger] g.suspects.contains(b) implies g.is_live(b) by {
        if h.suspects.contains(b) {
            assert(h.is_live(b));
        }
    }
}

/// Moving a handle held outside into a payload keeps the heap well formed
/// and takes one outside handle from its target.
pub proof fn lemma_pushed<T>(h: Heap<T>, owner: usize, target: usize)
    requires
        h.well_formed(),
        h.is_live(owner),
        h.is_live(target),
        h.external(target) >= 1,
    ensures
        h.pushed(owner, target).well_formed(),
        h.pushed(owner, target).external(target) == h.external(target) - 1,
        forall|t: usize| t != target ==> h.pushed(owner, target).external(t) == h.external(t),
        forall|t: usize| h.pushed(owner, target).is_live(t) == h.is_live(t),
{
    let g = h.pushed(owner, target);
    let cell = g.cells[owner as int];
    lemma_with_cell_total_strong(h, owner, cell);
    assert forall|t: usize|
        g.incoming(t) == h.incoming(t) + if t == target {
            1nat
        } else {
            0nat
        } by {
        lemma_with_cell_incoming(h, owner, cell, t);
        lemma_count_of_push(h.get(owner).refs, target, t);
    }
    assert forall|b: usize| #[trigger] g.is_live(b) implies g.get(b).strong >= 1 && g.incoming(b)
        <= g.get(b).strong by {
        assert(h.is_live(b));
    }
    assert forall|b: usize, i: int|
        g.is_live(b) && 0 <= i < g.get(b).refs.len() implies g.is_live(
        #[trigger] g.get(b).refs[i],
    ) by {
        assert(h.is_live(b));
        if b == owner && i == h.get(owner).refs.len() {
        } else {
            assert(h.is_live(h.get(b).refs[i]));
        }
    }
    assert forall|b: usize| #[trigger] g.suspects.contains(b) implies g.is_live(b) by {
        assert(h.is_live(b));
    }
}

/// Moving the last handle out of a payload keeps the heap well formed and
/// gives its target one more outside handle.
pub proof fn lemma_popped<T>(h: Heap<T>, owner: usize)
    requires
        h.well_formed(),
        h.is_live(owner),
        h.get(owner).refs.len() > 0,
    ensures
        h.popped(owner).well_formed(),
        h.popped(owner).external(h.get(owner).refs.last()) == h.external(
            h.get(owner).refs.last(),
        ) + 1,
        forall|t: usize|
            t != h.get(owner).refs.last() ==> h.popped(owner).external(t) == h.external(t),
        forall|t: usize| h.popped(owner).is_live(t) == h.is_live(t),
{
    let g = h.popped(owner);
    let cell = g.cells[owner as int];
    let target = h.get(owner).refs.last();
    lemma_with_cell_total_strong(h, owner, cell);
    assert forall|t: usize|
        g.incoming(t) + if t == target {
            1nat
        } else {
            0nat
        } == h.incoming(t) by {
        lemma_with_cell_incoming(h, owner, cell, t);
        lemma_count_of_drop_last(h.get(owner).refs, t);
    }
    assert forall|b: usize| #[trigger] g.is_live(b) implies g.get(b).strong >= 1 && g.incoming(b)
        <= g.get(b).strong by {
        assert(h.is_live(b));
    }
    assert forall|b: usize, i: int|
        g.is_live(b) && 0 <= i < g.get(b).refs.len() implies g.is_live(
        #[trigger] g.get(b).refs[i],
    ) by {
        assert(h.is_live(b));
        assert(h.is_live(h.get(b).refs[i]));
    }
    assert forall|b: usize| #[trigger] g.suspects.contains(b) implies g.is_live(b) by {
        assert(h.is_live(b));
    }
}

/// Setting a borrow flag moves no handle.
pub proof fn lemma_with_borrow<T>(h: Heap<T>, a: usize, flag: bool)
    requires
        h.well_formed(),
        h.is_live(a),
    ensures
        h.with_borrow(a, flag).well_formed(),
        forall|t: usize| h.with_borrow(a, flag).external(t) == h.external(t),
        forall|t: usize| h.with_borrow(a, flag).is_live(t) == h.is_live(t),
{
    let g = h.with_borrow(a, flag);
    let cell = g.cells[a as int];
    lemma_with_cell_total_strong(h, a, cell);
    assert forall|t: usize| g.incoming(t) == h.incoming(t) by {
        lemma_with_cell_incoming(h, a, cell, t);
    }
    assert forall|b: usize| #[trigger] g.is_live(b) implies g.get(b).strong >= 1 && g.incoming(b)
        <= g.get(b).strong by {
        assert(h.is_live(b));
    }
    lemma_same_shape(h, g);
}

} // verus!
