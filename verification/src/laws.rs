//! What holds of the heap across its operations.
use vstd::prelude::*;
use crate::cascade::{lemma_dropped, stacked, Step};
use crate::heap::Heap;
use crate::tally::{lemma_count_of_contains, lemma_total_le};
use crate::trial::lemma_collected;
use crate::unsync::CollectCondition;

verus! {

impl<T> Heap<T> {
    /// A walk from allocation to allocation along the handles that the
    /// payloads own.
    pub open spec fn is_walk(self, walk: Seq<usize>) -> bool {
        &&& walk.len() > 0
        &&& forall|i: int| 0 <= i < walk.len() ==> self.is_live(#[trigger] walk[i])
        &&& forall|i: int|
            0 <= i < walk.len() - 1 ==> self.get(#[trigger] walk[i]).refs.contains(walk[i + 1])
    }

    /// The heap with one more drop counted than `self`, and collected if the
    /// collect condition then says so.
    pub open spec fn with_drop_counted<P: CollectCondition>(self, p: P) -> Heap<T> {
        let counted = Heap { n_ref_drops: (self.n_ref_drops + 1) as usize, ..self };
        if p.decides(counted.info()) {
            counted.collected()
        } else {
            counted
        }
    }
}

/// In a well-formed heap no collection is running, every live allocation has
/// a positive strong count, which is the number of handles that payloads own
/// to it and that are held outside the heap, and every suspect is live.
pub proof fn lemma_counts_are_handles<T>(h: Heap<T>, a: usize)
    requires
        h.well_formed(),
    ensures
        !h.collecting,
        h.is_live(a) ==> h.get(a).strong >= 1,
        h.is_live(a) ==> h.get(a).strong == h.incoming(a) + h.external(a) && h.external(a) >= 0,
        h.suspects.contains(a) ==> h.is_live(a),
{
}

/// The statistics count as living the handles in existence and those that
/// went away with collected allocations. Until a collection has destroyed
/// something, the living handles are exactly the handles in existence.
pub proof fn lemma_living_are_handles<T>(h: Heap<T>)
    requires
        h.well_formed(),
    ensures
        h.n_refs_living == h.total_strong() + h.reclaimed,
        h.reclaimed == 0 ==> h.n_refs_living == h.total_strong(),
{
}

/// A collection that finds no garbage changes nothing in the heap but the
/// suspects, which it clears, and the drops since the last collection, which
/// it sets to zero.
pub proof fn lemma_collect_nothing<T>(h: Heap<T>)
    requires
        forall|a: usize| !h.is_garbage(a),
    ensures
        h.collected().cells == h.cells,
        h.collected().reclaimed == h.reclaimed,
        h.collected().n_refs_living == h.n_refs_living,
{
    assert(h.swept() =~= h.cells);
}

/// Collecting twice in a row is the same as collecting once.
pub proof fn lemma_collect_twice<T>(h: Heap<T>)
    ensures
        h.collected().collected() == h.collected(),
{
    let once = h.collected();
    lemma_collect_nothing(once);
    assert(once.collected().suspects =~= once.suspects);
}

/// A collection destroys every member of a set of suspects whose payloads
/// can be visited, to which no handle is held outside the heap, and to which
/// only payloads of the set own handles.
pub proof fn lemma_unreachable_cycle_collected<T>(h: Heap<T>, cycle: Set<usize>)
    requires
        h.sound(),
        forall|c: usize|
            cycle.contains(c) ==> h.suspects.contains(c) && h.is_live(c) && !h.get(c).borrowed
                && h.external(c) == 0,
        forall|b: usize, c: usize|
            h.is_live(b) && cycle.contains(c) && h.get(b).refs.contains(c) ==> cycle.contains(b),
    ensures
        forall|c: usize| cycle.contains(c) ==> h.is_garbage(c) && !h.collected().is_live(c),
{
    assert forall|c: usize| cycle.contains(c) implies h.is_garbage(c) && !h.collected().is_live(
        c,
    ) by {
        if h.is_reachable(c) {
            let trail = choose|trail: Seq<usize>| #[trigger] h.is_trail(trail) && trail.last() == c;
            lemma_trail_stays_inside(h, cycle, trail, 0);
            lemma_member_is_no_root(h, cycle, trail[0]);
        }
        lemma_collected(h);
    }
}

/// A member of such a set is no root: all handles to it are found in the
/// visited payloads.
proof fn lemma_member_is_no_root<T>(h: Heap<T>, cycle: Set<usize>, c: usize)
    requires
        h.sound(),
        forall|c: usize|
            cycle.contains(c) ==> h.suspects.contains(c) && h.is_live(c) && !h.get(c).borrowed
                && h.external(c) == 0,
        forall|b: usize, c: usize|
            h.is_live(b) && cycle.contains(c) && h.get(b).refs.contains(c) ==> cycle.contains(b),
        cycle.contains(c),
    ensures
        !h.is_root(c),
{
    assert forall|b: int| 0 <= b < h.cells.len() implies h.holders(c)[b] <= h.finds(c)[b] by {
        if h.held_by(b, c) > 0 {
            lemma_count_of_contains(h.get(b as usize).refs, c);
            assert(h.is_live(b as usize));
            assert(cycle.contains(b as usize));
        }
    }
    lemma_total_le(h.holders(c), h.finds(c));
}

/// A trail that ends in such a set lies in it from the start.
proof fn lemma_trail_stays_inside<T>(h: Heap<T>, cycle: Set<usize>, trail: Seq<usize>, i: int)
    requires
        forall|c: usize| cycle.contains(c) ==> h.is_live(c),
        forall|b: usize, c: usize|
            h.is_live(b) && cycle.contains(c) && h.get(b).refs.contains(c) ==> cycle.contains(b),
        h.is_trail(trail),
        cycle.contains(trail.last()),
        0 <= i < trail.len(),
    ensures
        cycle.contains(trail[i]),
    decreases trail.len() - i,
{
    if i < trail.len() - 1 {
        lemma_trail_stays_inside(h, cycle, trail, i + 1);
        assert(h.edge(trail[i], trail[i + 1]));
    }
}

/// A collection destroys nothing that can be reached from an allocation to
/// which a handle is held outside the heap, and leaves all of it as it was.
pub proof fn lemma_collect_spares_reachable<T>(h: Heap<T>, walk: Seq<usize>)
    requires
        h.sound(),
        h.is_walk(walk),
        h.external(walk[0]) >= 1,
    ensures
        forall|i: int|
            0 <= i < walk.len() ==> h.collected().is_live(#[trigger] walk[i]) && h.collected().get(
                walk[i],
            ) == h.get(walk[i]),
{
    lemma_collected(h);
    assert forall|i: int| 0 <= i < walk.len() implies h.collected().is_live(#[trigger] walk[i])
        && h.collected().get(walk[i]) == h.get(walk[i]) by {
        lemma_walk_survives(h, h.collected(), walk, i);
    }
}

/// Where the start of a walk stays live, with every payload that stays
/// keeping what it owns, and every owned handle still has a live target, the
/// whole walk stays live.
proof fn lemma_walk_survives<T>(h: Heap<T>, g: Heap<T>, walk: Seq<usize>, i: int)
    requires
        h.is_walk(walk),
        g.is_live(walk[0]),
        g.sound(),
        forall|t: usize| #[trigger] g.is_live(t) ==> h.is_live(t) && g.get(t).refs == h.get(t).refs,
        0 <= i < walk.len(),
    ensures
        g.is_live(walk[i]),
    decreases i,
{
    if i > 0 {
        lemma_walk_survives(h, g, walk, i - 1);
        let from = walk[i - 1];
        assert(h.get(from).refs.contains(walk[i - 1 + 1]));
        let x = choose|x: int| 0 <= x < h.get(from).refs.len() && h.get(from).refs[x] == walk[i];
        assert(g.is_live(g.get(from).refs[x]));
    }
}

/// Dropping a handle destroys nothing that can be reached from an
/// allocation to which another handle is held outside the heap, and leaves
/// every such payload as it was.
pub proof fn lemma_drop_spares_reachable<T, P: CollectCondition>(
    h: Heap<T>,
    p: P,
    a: usize,
    walk: Seq<usize>,
)
    requires
        h.well_formed(),
        h.is_live(a),
        h.external(a) >= 1,
        h.is_walk(walk),
        h.external(walk[0]) >= if walk[0] == a {
            2int
        } else {
            1int
        },
    ensures
        forall|i: int|
            0 <= i < walk.len() ==> h.dropped(p, a).is_live(#[trigger] walk[i]) && h.dropped(
                p,
                a,
            ).get(walk[i]).same_payload(h.get(walk[i])),
{
    let g = h.dropped(p, a);
    lemma_dropped(h, p, a);
    assert forall|i: int| 0 <= i < walk.len() implies g.is_live(#[trigger] walk[i]) && g.get(
        walk[i],
    ).same_payload(h.get(walk[i])) by {
        lemma_walk_survives(h, g, walk, i);
    }
}

/// Dropping the last handle to an allocation destroys it at once, and no
/// drop brings an allocation into being.
pub proof fn lemma_last_drop_destroys<T, P: CollectCondition>(h: Heap<T>, p: P, a: usize)
    requires
        h.well_formed(),
        h.is_live(a),
        h.external(a) >= 1,
        h.get(a).strong == 1,
    ensures
        !h.dropped(p, a).is_live(a),
        forall|t: usize| #[trigger] h.dropped(p, a).is_live(t) ==> h.is_live(t),
{
    lemma_dropped(h, p, a);
}

/// Creating an allocation and dropping its only handle at once leaves the
/// heap as it was, but for the address of the allocation, which is vacant
/// and may be new, and for the drop, which is counted and may set off a
/// collection.
pub proof fn lemma_create_then_drop<T, P: CollectCondition>(h: Heap<T>, p: P, a: usize, value: T)
    requires
        h.well_formed(),
        !h.is_live(a),
        a <= h.cells.len(),
        h.n_refs_living + h.n_ref_drops < usize::MAX,
    ensures
        h.created(a, value).dropped(p, a) == h.placed(a, None).with_drop_counted(p),
        forall|t: usize| h.placed(a, None).is_live(t) == h.is_live(t),
{
    let g = h.created(a, value);
    let one = seq![Step::Release(a)];
    let rest = one.drop_last().push(Step::Notify);
    reveal_with_fuel(Heap::settled, 3);
    assert(stacked(rest, g.get(a).refs) == rest);
    assert(rest.drop_last() =~= Seq::<Step>::empty());
    assert(g.dropped(p, a) == g.removed(a).notified(p));
    let counted = g.removed(a).tallied();
    let expect = Heap { n_ref_drops: (h.n_ref_drops + 1) as usize, ..h.placed(a, None) };
    assert(counted.cells =~= expect.cells);
    assert(counted.suspects =~= expect.suspects);
    assert(counted == expect);
}

} // verus!
