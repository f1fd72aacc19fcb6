//! Trial deletion: which suspects a collection destroys.
//!
//! Every handle that a suspect's payload owns to another suspect is taken
//! off that suspect's count. A suspect that keeps a positive count, or whose
//! payload cannot be visited, is a root; whatever the roots reach through
//! visitable payloads stays. The rest is garbage.
use vstd::prelude::*;
use crate::heap::{Alloc, Heap};
use crate::tally::{lemma_count_of_contains, lemma_total_le, lemma_total_update, total};

verus! {

impl<T> Heap<T> {
    /// Whether `a` is a suspect whose payload a visitor can enter.
    pub open spec fn visitable(self, a: int) -> bool {
        &&& 0 <= a < self.cells.len()
        &&& self.suspects.contains(a as usize)
        &&& self.cells[a] is Some
        &&& !self.cells[a]->0.borrowed
    }

    /// How many handles to `t` a visitor meets in the payload at `a`.
    pub open spec fn found_in(self, a: int, t: usize) -> nat {
        if self.visitable(a) {
            self.held_by(a, t)
        } else {
            0
        }
    }

    pub open spec fn finds(self, t: usize) -> Seq<nat> {
        Seq::new(self.cells.len(), |a: int| self.found_in(a, t))
    }

    /// How many handles to `t` the visited suspects own between them.
    pub open spec fn internal(self, t: usize) -> nat {
        total(self.finds(t))
    }

    /// The count of `t` once the handles that visited suspects own are taken
    /// off it.
    pub open spec fn tentative(self, t: usize) -> int {
        self.strong_at(t as int) - self.internal(t)
    }

    /// A suspect that is referred to from outside the suspects, or whose
    /// payload refuses the visitor.
    pub open spec fn is_root(self, a: usize) -> bool {
        &&& self.suspects.contains(a)
        &&& self.is_live(a)
        &&& (self.get(a).borrowed || self.tentative(a) > 0)
    }

    /// The visitable payload at `u` owns a handle to the suspect `v`.
    pub open spec fn edge(self, u: usize, v: usize) -> bool {
        &&& self.visitable(u as int)
        &&& self.get(u).refs.contains(v)
        &&& self.suspects.contains(v)
    }

    /// A walk from a root along edges.
    pub open spec fn is_trail(self, trail: Seq<usize>) -> bool {
        &&& trail.len() > 0
        &&& self.is_root(trail[0])
        &&& forall|i: int| 0 <= i < trail.len() - 1 ==> self.edge(#[trigger] trail[i], trail[i + 1])
    }

    /// Whether some root reaches the suspect `v`.
    pub open spec fn is_reachable(self, v: usize) -> bool {
        exists|trail: Seq<usize>| #[trigger] self.is_trail(trail) && trail.last() == v
    }

    /// Whether the next collection destroys the allocation at `a`.
    pub open spec fn is_garbage(self, a: usize) -> bool {
        &&& self.suspects.contains(a)
        &&& self.is_live(a)
        &&& !self.is_reachable(a)
    }

    /// The cells once the garbage is gone.
    pub open spec fn swept(self) -> Seq<Option<Alloc<T>>> {
        Seq::new(
            self.cells.len(),
            |a: int|
                if self.is_garbage(a as usize) {
                    None
                } else {
                    self.cells[a]
                },
        )
    }

    /// The heap after a collection: the garbage is gone, nothing is a
    /// suspect any more, and no drop has been counted since.
    ///
    /// The handles that the destroyed payloads owned are not released one by
    /// one. Those to other garbage go with their targets and are recorded as
    /// reclaimed; an allocation that stays keeps its count as it was, and the
    /// statistics keep counting all of them as living.
    pub open spec fn collected(self) -> Heap<T> {
        let rest = Heap { cells: self.swept(), ..self };
        Heap {
            cells: self.swept(),
            suspects: Set::empty(),
            n_ref_drops: 0,
            collecting: false,
            reclaimed: (self.reclaimed + self.total_strong() - rest.total_strong()) as nat,
            ..self
        }
    }
}

/// A root is reachable.
pub proof fn lemma_root_reachable<T>(h: Heap<T>, a: usize)
    requires
        h.is_root(a),
    ensures
        h.is_reachable(a),
{
    let trail = seq![a];
    assert(h.is_trail(trail));
    assert(trail.last() == a);
}

/// What a reachable suspect's visitable payload refers to among the
/// suspects is reachable.
pub proof fn lemma_edge_reachable<T>(h: Heap<T>, u: usize, v: usize)
    requires
        h.is_reachable(u),
        h.edge(u, v),
    ensures
        h.is_reachable(v),
{
    let trail = choose|trail: Seq<usize>| #[trigger] h.is_trail(trail) && trail.last() == u;
    let longer = trail.push(v);
    assert forall|i: int| 0 <= i < longer.len() - 1 implies h.edge(
        #[trigger] longer[i],
        longer[i + 1],
    ) by {
        if i < trail.len() - 1 {
            assert(h.edge(trail[i], trail[i + 1]));
        }
    }
    assert(h.is_trail(longer));
    assert(longer.last() == v);
}

/// A set of suspects that holds every root and is closed under edges holds
/// every reachable suspect.
pub proof fn lemma_closure_holds_trail<T>(h: Heap<T>, closed: Set<usize>, trail: Seq<usize>, i: int)
    requires
        forall|a: usize| h.is_root(a) ==> closed.contains(a),
        forall|u: usize, v: usize| closed.contains(u) && h.edge(u, v) ==> closed.contains(v),
        h.is_trail(trail),
        0 <= i < trail.len(),
    ensures
        closed.contains(trail[i]),
    decreases i,
{
    if i > 0 {
        lemma_closure_holds_trail(h, closed, trail, i - 1);
        assert(h.edge(trail[i - 1], trail[i - 1 + 1]));
    }
}

/// The visited suspects own no more handles to `t` than all payloads do.
pub proof fn lemma_internal_le_incoming<T>(h: Heap<T>, t: usize)
    ensures
        h.internal(t) <= h.incoming(t),
{
    lemma_total_le(h.finds(t), h.holders(t));
}

/// A payload that is not visited owns its handles to `t` on top of those
/// that the visited suspects own.
pub proof fn lemma_unvisited_holder<T>(h: Heap<T>, w: usize, t: usize)
    requires
        !h.visitable(w as int),
    ensures
        h.internal(t) + h.held_by(w as int, t) <= h.incoming(t),
{
    if w < h.cells.len() {
        let raised = h.finds(t).update(w as int, h.held_by(w as int, t));
        lemma_total_update(h.finds(t), w as int, h.held_by(w as int, t));
        lemma_total_le(raised, h.holders(t));
    } else {
        lemma_internal_le_incoming(h, t);
    }
}

/// Garbage has no handle outside the visited suspects: its count is exactly
/// what they own.
pub proof fn lemma_garbage_count<T>(h: Heap<T>, g: usize)
    requires
        h.sound(),
        h.is_garbage(g),
    ensures
        !h.get(g).borrowed,
        h.get(g).strong == h.internal(g),
        h.internal(g) == h.incoming(g),
        h.external(g) == 0,
{
    if h.is_root(g) {
        lemma_root_reachable(h, g);
    }
    lemma_internal_le_incoming(h, g);
}

/// A survivor's payload owns no handle to garbage.
pub proof fn lemma_survivor_refs<T>(h: Heap<T>, w: usize, i: int)
    requires
        h.sound(),
        h.is_live(w),
        !h.is_garbage(w),
        0 <= i < h.get(w).refs.len(),
    ensures
        !h.is_garbage(h.get(w).refs[i]),
{
    let u = h.get(w).refs[i];
    if h.is_garbage(u) {
        lemma_garbage_count(h, u);
        assert(h.get(w).refs.contains(u));
        if h.visitable(w as int) {
            assert(h.edge(w, u));
            lemma_edge_reachable(h, w, u);
        } else {
            lemma_unvisited_holder(h, w, u);
            lemma_count_of_contains(h.get(w).refs, u);
        }
    }
}

/// A collection leaves the counts and the handles in agreement, destroys
/// nothing that has a handle outside the heap, and takes no outside handle
/// from what stays. The handles that go with the garbage are accounted for as
/// reclaimed.
pub proof fn lemma_collected<T>(h: Heap<T>)
    requires
        h.sound(),
    ensures
        h.collected().sound(),
        h.collected().total_strong() + h.collected().reclaimed == h.total_strong() + h.reclaimed,
        forall|a: usize|
            #![trigger h.collected().is_live(a)]
            #![trigger h.is_live(a)]
            h.collected().is_live(a) <==> h.is_live(a) && !h.is_garbage(a),
        forall|a: usize|
            #[trigger] h.collected().is_live(a) ==> h.collected().get(a) == h.get(a)
                && h.collected().external(a) >= h.external(a),
        forall|a: usize| #[trigger] h.is_garbage(a) ==> h.external(a) == 0,
{
    let g = h.collected();
    let rest = Heap { cells: h.swept(), ..h };
    assert(g.strongs() =~= rest.strongs());
    lemma_total_le(g.strongs(), h.strongs());
    assert forall|t: usize| g.incoming(t) <= h.incoming(t) by {
        lemma_total_le(g.holders(t), h.holders(t));
    }
    assert forall|a: usize| #[trigger] h.is_garbage(a) implies h.external(a) == 0 by {
        lemma_garbage_count(h, a);
    }
    assert forall|a: usize, i: int|
        g.is_live(a) && 0 <= i < g.get(a).refs.len() implies g.is_live(
        #[trigger] g.get(a).refs[i],
    ) by {
        assert(h.is_live(a));
        assert(h.is_live(h.get(a).refs[i]));
        lemma_survivor_refs(h, a, i);
    }
    assert forall|a: usize| #[trigger] g.is_live(a) implies g.get(a).strong >= 1 && g.incoming(a)
        <= g.get(a).strong by {
        assert(h.is_live(a));
    }
}

/// A collection never adds to the strong counts.
pub proof fn lemma_collected_total<T>(h: Heap<T>)
    ensures
        h.collected().total_strong() <= h.total_strong(),
{
    lemma_total_le(h.collected().strongs(), h.strongs());
}

/// Which allocations a collection destroys depends on the cells and the
/// suspects alone.
pub proof fn lemma_same_garbage<T>(h: Heap<T>, g: Heap<T>)
    requires
        h.cells == g.cells,
        h.suspects == g.suspects,
    ensures
        h.sound() == g.sound(),
        forall|t: usize| h.incoming(t) == g.incoming(t),
        forall|t: usize| h.internal(t) == g.internal(t),
        forall|t: usize| h.tentative(t) == g.tentative(t),
        forall|a: usize| h.is_root(a) == g.is_root(a),
        forall|a: usize| h.is_reachable(a) == g.is_reachable(a),
        forall|a: usize| h.is_garbage(a) == g.is_garbage(a),
        h.swept() == g.swept(),
        h.total_strong() == g.total_strong(),
{
    assert forall|t: usize| h.internal(t) == g.internal(t) by {
        assert(h.finds(t) =~= g.finds(t));
    }
    assert forall|t: usize| h.incoming(t) == g.incoming(t) by {
        assert(h.holders(t) =~= g.holders(t));
    }
    assert(h.sound() == g.sound()) by {
        assert forall|a: usize| h.is_live(a) == g.is_live(a) by {}
        if h.sound() {
            assert forall|a: usize| #[trigger] g.is_live(a) implies g.get(a).strong >= 1
                && g.incoming(a) <= g.get(a).strong by {
                assert(h.is_live(a));
            }
            assert forall|a: usize, i: int|
                g.is_live(a) && 0 <= i < g.get(a).refs.len() implies g.is_live(
                #[trigger] g.get(a).refs[i],
            ) by {
                assert(h.is_live(a));
                assert(h.is_live(h.get(a).refs[i]));
            }
        }
        if g.sound() {
            assert forall|a: usize| #[trigger] h.is_live(a) implies h.get(a).strong >= 1
                && h.incoming(a) <= h.get(a).strong by {
                assert(g.is_live(a));
            }
            assert forall|a: usize, i: int|
                h.is_live(a) && 0 <= i < h.get(a).refs.len() implies h.is_live(
                #[trigger] h.get(a).refs[i],
            ) by {
                assert(g.is_live(a));
                assert(g.is_live(g.get(a).refs[i]));
            }
        }
    }
    assert forall|trail: Seq<usize>| h.is_trail(trail) == g.is_trail(trail) by {
        if h.is_trail(trail) {
            assert forall|i: int| 0 <= i < trail.len() - 1 implies g.edge(
                #[trigger] trail[i],
                trail[i + 1],
            ) by {
                assert(h.edge(trail[i], trail[i + 1]));
            }
        }
        if g.is_trail(trail) {
            assert forall|i: int| 0 <= i < trail.len() - 1 implies h.edge(
                #[trigger] trail[i],
                trail[i + 1],
            ) by {
                assert(g.edge(trail[i], trail[i + 1]));
            }
        }
    }
    assert forall|a: usize| h.is_reachable(a) == g.is_reachable(a) by {
        if h.is_reachable(a) {
            let trail = choose|trail: Seq<usize>| #[trigger] h.is_trail(trail) && trail.last() == a;
            assert(g.is_trail(trail));
        }
        if g.is_reachable(a) {
            let trail = choose|trail: Seq<usize>| #[trigger] g.is_trail(trail) && trail.last() == a;
            assert(h.is_trail(trail));
        }
    }
    assert(h.swept() =~= g.swept());
    assert(h.strongs() =~= g.strongs());
}

} // verus!
