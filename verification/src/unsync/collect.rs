//! The collector: trial deletion over the suspects.
//!
//! A collection sets the suspects aside, gives each a shadow count, takes
//! off the shadow counts the handles that the suspects own to one another,
//! flags whatever is still referred to from elsewhere together with all that
//! it reaches, and destroys the rest.
use vstd::prelude::*;
use super::{cell_view, dirty_set, CollectCondition, Dumpster, GcBox};
use crate::heap::Heap;
use crate::tally::{
    along, count_of, lemma_count_of_prefix, lemma_count_of_push, lemma_total_along,
    lemma_total_prefix, lemma_total_push, lemma_total_update, total,
};
use crate::trial::{
    lemma_closure_holds_trail, lemma_collected, lemma_edge_reachable, lemma_internal_le_incoming,
    lemma_root_reachable, lemma_same_garbage,
};

verus! {

/// One for each flag that is not set.
spec fn blanks(flags: Seq<bool>) -> Seq<nat> {
    Seq::new(flags.len(), |k: int| if flags[k] { 0nat } else { 1nat })
}

impl<T, P: CollectCondition> Dumpster<T, P> {
    /// How many handles to `t` the first `j` suspects of `list` own, as far
    /// as their payloads can be visited.
    spec fn seen(&self, list: Seq<usize>, j: int, t: usize) -> nat {
        total(along(self@.finds(t), list).take(j))
    }

    proof fn lemma_seen_step(&self, list: Seq<usize>, j: int, t: usize)
        requires
            self.rep_with(list),
            0 <= j < list.len(),
        ensures
            self.seen(list, j + 1, t) == self.seen(list, j, t) + self@.found_in(list[j] as int, t),
    {
        let al = along(self@.finds(t), list);
        assert(al.take(j + 1) =~= al.take(j).push(al[j]));
        lemma_total_push(al.take(j), al[j]);
    }

    proof fn lemma_seen_bound(&self, list: Seq<usize>, j: int, t: usize)
        requires
            self.rep_with(list),
            0 <= j <= list.len(),
        ensures
            self.seen(list, j, t) <= self@.internal(t),
            self.seen(list, list.len() as int, t) == self@.internal(t),
    {
        let f = self@.finds(t);
        let al = along(f, list);
        assert forall|a: int| 0 <= a < f.len() && f[a] > 0 implies exists|k: int|
            0 <= k < list.len() && list[k] == a by {
            assert(self@.visitable(a));
            assert(dirty_set(self.boxes@).contains(a as usize));
            assert(self.boxes@[a] is Some);
            let k = self.boxes@[a]->0.dirty->0 as int;
            assert(list[k] == a);
        }
        assert forall|i: int, k: int| 0 <= i < k < list.len() implies list[i] != list[k] by {
            assert(self.boxes@[list[i] as int]->0.dirty == Some(i as usize));
            assert(self.boxes@[list[k] as int]->0.dirty == Some(k as usize));
        }
        lemma_total_along(f, list);
        lemma_total_prefix(al, j);
        assert(al.take(list.len() as int) =~= al);
    }

    /// The shadow counts stand at the true counts less the handles that the
    /// first `j` suspects own.
    spec fn counts_to(&self, list: Seq<usize>, tentative: Seq<usize>, j: int) -> bool {
        &&& tentative.len() == list.len()
        &&& forall|m: int|
            0 <= m < list.len() ==> tentative[m] == self@.strong_at((#[trigger] list[m]) as int)
                - self.seen(list, j, list[m])
    }

    /// Visit the payload of the suspect at `suspects[j]` to take one off the
    /// shadow count of each suspect for every handle to it that the payload
    /// owns. A payload that is borrowed refuses the visit.
    fn visit_decrement(&self, suspects: &Vec<usize>, j: usize, tentative: &mut Vec<usize>) -> (visit:
        Result<(), ()>)
        requires
            self.rep_with(suspects@),
            self@.sound(),
            j < suspects@.len(),
            self.counts_to(suspects@, old(tentative)@, j as int),
        ensures
            visit is Err <==> self@.get(suspects@[j as int]).borrowed,
            self.counts_to(suspects@, final(tentative)@, j as int + 1),
    {
        let n: usize = suspects.len();
        let a: usize = suspects[j];
        proof {
            assert(self.boxes@[suspects@[j as int] as int] is Some);
            assert(dirty_set(self.boxes@).contains(a));
        }
        match &self.boxes[a] {
            Some(b) => {
                if b.borrowed {
                    proof {
                        assert forall|m: int| 0 <= m < n implies self.seen(
                            suspects@,
                            j as int + 1,
                            #[trigger] suspects@[m],
                        ) == self.seen(suspects@, j as int, suspects@[m]) by {
                            self.lemma_seen_step(suspects@, j as int, suspects@[m]);
                        }
                    }
                    return Err(());
                }
                let ghost refs = self@.get(a).refs;
                let len: usize = b.refs.len();
                let mut i: usize = 0;
                proof {
                    assert(self@.visitable(a as int));
                    assert(refs.take(0) =~= Seq::<usize>::empty());
                }
                while i < len
                    invariant
                        self.rep_with(suspects@),
                        self@.sound(),
                        n == suspects@.len(),
                        j < n,
                        a == suspects@[j as int],
                        self.boxes@[a as int] == Some(*b),
                        refs == self@.get(a).refs,
                        self@.visitable(a as int),
                        len == b.refs@.len(),
                        i <= len,
                        tentative@.len() == n,
                        forall|m: int|
                            0 <= m < n ==> tentative@[m] == self@.strong_at(
                                (#[trigger] suspects@[m]) as int,
                            ) - self.seen(suspects@, j as int, suspects@[m]) - count_of(
                                refs.take(i as int),
                                suspects@[m],
                            ),
                    decreases len - i,
                {
                    let t: usize = b.refs[i].addr;
                    proof {
                        assert(self@.is_live(a));
                        assert(refs[i as int] == t);
                        assert(self@.is_live(self@.get(a).refs[i as int]));
                        assert(refs.take(i as int + 1) =~= refs.take(i as int).push(t));
                        assert forall|m: int| 0 <= m < n implies count_of(
                            refs.take(i as int + 1),
                            #[trigger] suspects@[m],
                        ) == count_of(refs.take(i as int), suspects@[m]) + if suspects@[m] == t {
                            1nat
                        } else {
                            0nat
                        } by {
                            lemma_count_of_push(refs.take(i as int), t, suspects@[m]);
                        }
                    }
                    match &self.boxes[t] {
                        Some(tb) => {
                            match tb.dirty {
                                Some(slot) => {
                                    proof {
                                        assert(suspects@[slot as int] == t);
                                        lemma_count_of_prefix(refs, i as int + 1, t);
                                        self.lemma_seen_step(suspects@, j as int, t);
                                        self.lemma_seen_bound(suspects@, j as int + 1, t);
                                        lemma_internal_le_incoming(self@, t);
                                        assert(self@.is_live(t));
                                        assert forall|m: int| 0 <= m < n && m != slot implies (
                                        #[trigger] suspects@[m]) != t by {
                                            assert(self.boxes@[suspects@[m] as int]->0.dirty == Some(
                                                m as usize,
                                            ));
                                        }
                                    }
                                    tentative[slot] = tentative[slot] - 1;
                                },
                                None => {
                                    proof {
                                        assert forall|m: int| 0 <= m < n implies (
                                        #[trigger] suspects@[m]) != t by {
                                            assert(self.boxes@[suspects@[m] as int]->0.dirty == Some(
                                                m as usize,
                                            ));
                                        }
                                    }
                                },
                            }
                        },
                        None => {},
                    }
                    i = i + 1;
                }
                proof {
                    assert(refs.take(len as int) =~= refs);
                    assert forall|m: int| 0 <= m < n implies tentative@[m] == self@.strong_at(
                        (#[trigger] suspects@[m]) as int,
                    ) - self.seen(suspects@, j as int + 1, suspects@[m]) by {
                        self.lemma_seen_step(suspects@, j as int, suspects@[m]);
                    }
                }
                Ok(())
            },
            None => Ok(()),
        }
    }

    /// Build the shadow counts of the suspects and take off each the handles
    /// that the suspects own to it, as far as their payloads can be visited.
    fn trial_counts(&self, suspects: &Vec<usize>) -> (tentative: Vec<usize>)
        requires
            self.rep_with(suspects@),
            self@.sound(),
        ensures
            tentative@.len() == suspects@.len(),
            forall|k: int|
                0 <= k < suspects@.len() ==> tentative@[k] == self@.tentative(
                    #[trigger] suspects@[k],
                ),
    {
        let n: usize = suspects.len();
        let mut tentative: Vec<usize> = Vec::new();
        let mut k: usize = 0;
        while k < n
            invariant
                self.rep_with(suspects@),
                n == suspects@.len(),
                k <= n,
                tentative@.len() == k,
                forall|m: int|
                    0 <= m < k ==> tentative@[m] == self@.strong_at(
                        (#[trigger] suspects@[m]) as int,
                    ),
            decreases n - k,
        {
            let a: usize = suspects[k];
            match &self.boxes[a] {
                Some(b) => {
                    tentative.push(b.ref_count);
                },
                None => {
                    tentative.push(0);
                },
            }
            k = k + 1;
        }
        let mut j: usize = 0;
        while j < n
            invariant
                self.rep_with(suspects@),
                self@.sound(),
                n == suspects@.len(),
                j <= n,
                self.counts_to(suspects@, tentative@, j as int),
            decreases n - j,
        {
            let _ = self.visit_decrement(suspects, j, &mut tentative);
            j = j + 1;
        }
        proof {
            assert forall|m: int| 0 <= m < n implies tentative@[m] == self@.tentative(
                #[trigger] suspects@[m],
            ) by {
                self.lemma_seen_bound(suspects@, n as int, suspects@[m]);
            }
        }
        tentative
    }
}

impl<T, P: CollectCondition> Dumpster<T, P> {
    /// Where the suspect at `a` stands in the list of suspects.
    spec fn slot_of(&self, a: usize) -> int {
        self.boxes@[a as int]->0.dirty->0 as int
    }

    /// Every suspect to which the payload at `a` shows the way is flagged.
    spec fn settled(&self, flags: Seq<bool>, a: usize) -> bool {
        self@.visitable(a as int) ==> forall|i: int|
            0 <= i < self@.get(a).refs.len() && self@.suspects.contains(
                #[trigger] self@.get(a).refs[i],
            ) ==> flags[self.slot_of(self@.get(a).refs[i])]
    }

    /// The suspects whose flag is set.
    spec fn flagged(&self, flags: Seq<bool>) -> Set<usize> {
        Set::new(|a: usize| self@.suspects.contains(a) && flags[self.slot_of(a)])
    }

    /// Flags that hold every root and lead from each flagged suspect to
    /// flagged suspects only hold every reachable suspect.
    proof fn lemma_flags_complete(&self, list: Seq<usize>, flags: Seq<bool>, m: int)
        requires
            self.rep_with(list),
            flags.len() == list.len(),
            forall|k: int| 0 <= k < list.len() && self@.is_root(#[trigger] list[k]) ==> flags[k],
            forall|k: int| 0 <= k < list.len() && flags[k] ==> self.settled(flags, #[trigger] list[k]),
            0 <= m < list.len(),
            self@.is_reachable(list[m]),
        ensures
            flags[m],
    {
        let closed = self.flagged(flags);
        assert forall|a: usize| self@.suspects.contains(a) implies 0 <= self.slot_of(a) < list.len()
            && list[self.slot_of(a)] == a by {
            assert(self.boxes@[a as int] is Some);
        }
        assert forall|a: usize| self@.is_root(a) implies closed.contains(a) by {
            assert(list[self.slot_of(a)] == a);
        }
        assert forall|u: usize, v: usize| closed.contains(u) && self@.edge(u, v) implies closed.contains(
            v,
        ) by {
            assert(list[self.slot_of(u)] == u);
            assert(self.settled(flags, u));
            let i = choose|i: int| 0 <= i < self@.get(u).refs.len() && self@.get(u).refs[i] == v;
            assert(self@.suspects.contains(self@.get(u).refs[i]));
        }
        let trail = choose|trail: Seq<usize>| #[trigger] self@.is_trail(trail) && trail.last() == list[m];
        lemma_closure_holds_trail(self@, closed, trail, trail.len() - 1);
        assert(self.boxes@[list[m] as int]->0.dirty == Some(m as usize));
    }

    /// The flags are set for every root and for reachable suspects only, and
    /// the work list holds flagged suspects.
    #[verifier::opaque]
    spec fn marks_ok(&self, list: Seq<usize>, flags: Seq<bool>, work: Seq<usize>) -> bool {
        &&& flags.len() == list.len()
        &&& forall|w: int|
            0 <= w < work.len() ==> (#[trigger] work[w]) < list.len() && flags[work[w] as int]
        &&& forall|m: int|
            0 <= m < list.len() && flags[m] ==> self@.is_reachable(#[trigger] list[m])
        &&& forall|m: int| 0 <= m < list.len() && self@.is_root(#[trigger] list[m]) ==> flags[m]
    }

    /// Every flagged suspect is settled, but for those on the work list and
    /// the one at `skip`.
    #[verifier::opaque]
    spec fn rest_settled(
        &self,
        list: Seq<usize>,
        flags: Seq<bool>,
        work: Seq<usize>,
        skip: int,
    ) -> bool {
        forall|m: int|
            0 <= m < list.len() && flags[m] && m != skip && !work.contains(m as usize)
                ==> self.settled(flags, #[trigger] list[m])
    }

    /// The payload at `a` shows the way to flagged suspects only, as far as
    /// its first `i` handles go.
    spec fn settled_to(&self, flags: Seq<bool>, a: usize, i: int) -> bool {
        forall|x: int|
            0 <= x < i && self@.suspects.contains(#[trigger] self@.get(a).refs[x])
                ==> flags[self.slot_of(self@.get(a).refs[x])]
    }

    /// Flagging a suspect that a reachable one leads to, and putting it on
    /// the work list, keeps the flags in order and leaves one blank fewer.
    proof fn lemma_flag(
        &self,
        list: Seq<usize>,
        flags: Seq<bool>,
        work: Seq<usize>,
        skip: int,
        from: usize,
        i: int,
        slot: usize,
    )
        requires
            self.rep_with(list),
            self.marks_ok(list, flags, work),
            self.rest_settled(list, flags, work, skip),
            slot < list.len(),
            !flags[slot as int],
            self@.is_reachable(from),
            self@.edge(from, list[slot as int]),
            0 <= i,
            self.settled_to(flags, from, i),
        ensures
            self.marks_ok(list, flags.update(slot as int, true), work.push(slot)),
            self.rest_settled(list, flags.update(slot as int, true), work.push(slot), skip),
            self.settled_to(flags.update(slot as int, true), from, i),
            total(blanks(flags.update(slot as int, true))) + 1 == total(blanks(flags)),
    {
        reveal(Dumpster::marks_ok);
        reveal(Dumpster::rest_settled);
        let raised = flags.update(slot as int, true);
        let longer = work.push(slot);
        lemma_edge_reachable(self@, from, list[slot as int]);
        assert(blanks(raised) =~= blanks(flags).update(slot as int, 0nat));
        lemma_total_update(blanks(flags), slot as int, 0nat);
        assert(longer[longer.len() - 1] == slot);
        assert forall|m: int|
            0 <= m < list.len() && raised[m] && m != skip && !longer.contains(
                m as usize,
            ) implies self.settled(raised, #[trigger] list[m]) by {
            assert(m != slot);
            if work.contains(m as usize) {
                let w = choose|w: int| 0 <= w < work.len() && work[w] == m as usize;
                assert(longer[w] == m as usize);
            }
            assert(self.settled(flags, list[m]));
        }
        assert forall|w: int| 0 <= w < longer.len() implies (#[trigger] longer[w]) < list.len()
            && raised[longer[w] as int] by {
            if w < work.len() {
                assert(longer[w] == work[w]);
            }
        }
    }

    /// The flags at the start: set for the roots, all of which are on the
    /// work list.
    proof fn lemma_roots_flagged(&self, list: Seq<usize>, flags: Seq<bool>, work: Seq<usize>)
        requires
            self.rep_with(list),
            flags.len() == list.len(),
            forall|m: int| 0 <= m < list.len() ==> flags[m] == self@.is_root(#[trigger] list[m]),
            forall|w: int|
                0 <= w < work.len() ==> (#[trigger] work[w]) < list.len() && flags[work[w] as int],
            forall|m: int| 0 <= m < list.len() && flags[m] ==> work.contains(m as usize),
        ensures
            self.marks_ok(list, flags, work),
            self.rest_settled(list, flags, work, -1),
    {
        reveal(Dumpster::marks_ok);
        reveal(Dumpster::rest_settled);
        assert forall|m: int| 0 <= m < list.len() && flags[m] implies self@.is_reachable(
            #[trigger] list[m],
        ) by {
            lemma_root_reachable(self@, list[m]);
        }
    }

    /// Taking a suspect off the work list leaves it the only one that may
    /// not be settled yet.
    proof fn lemma_take_work(&self, list: Seq<usize>, flags: Seq<bool>, work: Seq<usize>)
        requires
            self.rep_with(list),
            self.marks_ok(list, flags, work),
            self.rest_settled(list, flags, work, -1),
            work.len() > 0,
        ensures
            work.last() < list.len(),
            flags[work.last() as int],
            self@.is_reachable(list[work.last() as int]),
            self.marks_ok(list, flags, work.drop_last()),
            self.rest_settled(list, flags, work.drop_last(), work.last() as int),
    {
        reveal(Dumpster::marks_ok);
        reveal(Dumpster::rest_settled);
        let rest = work.drop_last();
        assert(work[work.len() - 1] == work.last());
        assert forall|m: int|
            0 <= m < list.len() && flags[m] && m != work.last() as int && !rest.contains(
                m as usize,
            ) implies self.settled(flags, #[trigger] list[m]) by {
            if work.contains(m as usize) {
                let w = choose|w: int| 0 <= w < work.len() && work[w] == m as usize;
                assert(rest[w] == m as usize);
            }
        }
        assert forall|w: int| 0 <= w < rest.len() implies (#[trigger] rest[w]) < list.len()
            && flags[rest[w] as int] by {
            assert(rest[w] == work[w]);
        }
    }

    /// Once the suspect at `skip` is settled, every flagged suspect off the
    /// work list is.
    proof fn lemma_done_work(
        &self,
        list: Seq<usize>,
        flags: Seq<bool>,
        work: Seq<usize>,
        skip: int,
    )
        requires
            self.rest_settled(list, flags, work, skip),
            0 <= skip < list.len(),
            self.settled(flags, list[skip]),
        ensures
            self.rest_settled(list, flags, work, -1),
    {
        reveal(Dumpster::rest_settled);
    }

    /// With the work list empty, the flags say exactly which suspects are
    /// reachable.
    proof fn lemma_marks_final(&self, list: Seq<usize>, flags: Seq<bool>)
        requires
            self.rep_with(list),
            self.marks_ok(list, flags, Seq::<usize>::empty()),
            self.rest_settled(list, flags, Seq::<usize>::empty(), -1),
        ensures
            flags.len() == list.len(),
            forall|m: int|
                0 <= m < list.len() ==> flags[m] == self@.is_reachable(#[trigger] list[m]),
    {
        reveal(Dumpster::marks_ok);
        reveal(Dumpster::rest_settled);
        assert forall|m: int| 0 <= m < list.len() implies flags[m] == self@.is_reachable(
            #[trigger] list[m],
        ) by {
            if self@.is_reachable(list[m]) {
                assert forall|x: int| 0 <= x < list.len() && flags[x] implies self.settled(
                    flags,
                    #[trigger] list[x],
                ) by {
                    assert(!Seq::<usize>::empty().contains(x as usize));
                }
                self.lemma_flags_complete(list, flags, m);
            }
        }
    }

    /// Visit the payload of the suspect at `suspects[k]` to flag the suspects
    /// to which it owns handles, and put those newly flagged on the work
    /// list. A payload that is borrowed refuses the visit.
    fn visit_mark(
        &self,
        suspects: &Vec<usize>,
        k: usize,
        reachable: &mut Vec<bool>,
        work: &mut Vec<usize>,
    ) -> (visit: Result<(), ()>)
        requires
            self.rep_with(suspects@),
            self@.sound(),
            k < suspects@.len(),
            old(reachable)@[k as int],
            self@.is_reachable(suspects@[k as int]),
            self.marks_ok(suspects@, old(reachable)@, old(work)@),
            self.rest_settled(suspects@, old(reachable)@, old(work)@, k as int),
        ensures
            visit is Err <==> self@.get(suspects@[k as int]).borrowed,
            self.marks_ok(suspects@, final(reachable)@, final(work)@),
            self.rest_settled(suspects@, final(reachable)@, final(work)@, -1),
            final(work)@.len() >= old(work)@.len(),
            total(blanks(final(reachable)@)) + (final(work)@.len() - old(work)@.len()) == total(
                blanks(old(reachable)@),
            ),
    {
        let a: usize = suspects[k];
        proof {
            reveal(Dumpster::marks_ok);
            assert(self.boxes@[suspects@[k as int] as int] is Some);
            assert(dirty_set(self.boxes@).contains(a));
        }
        match &self.boxes[a] {
            Some(b) => {
                if b.borrowed {
                    proof {
                        assert(!self@.visitable(a as int));
                        self.lemma_done_work(suspects@, reachable@, work@, k as int);
                    }
                    return Err(());
                }
                let len: usize = b.refs.len();
                let mut i: usize = 0;
                while i < len
                    invariant
                        self.rep_with(suspects@),
                        self@.sound(),
                        k < suspects@.len(),
                        a == suspects@[k as int],
                        self@.is_reachable(a),
                        self.boxes@[a as int] == Some(*b),
                        !b.borrowed,
                        self@.visitable(a as int),
                        len == b.refs@.len(),
                        i <= len,
                        self.marks_ok(suspects@, reachable@, work@),
                        self.rest_settled(suspects@, reachable@, work@, k as int),
                        self.settled_to(reachable@, a, i as int),
                        work@.len() >= old(work)@.len(),
                        total(blanks(reachable@)) + (work@.len() - old(work)@.len()) == total(
                            blanks(old(reachable)@),
                        ),
                    decreases len - i,
                {
                    let t: usize = b.refs[i].addr;
                    proof {
                        reveal(Dumpster::marks_ok);
                        assert(self@.is_live(a));
                        assert(self@.get(a).refs[i as int] == t);
                        assert(self@.is_live(self@.get(a).refs[i as int]));
                    }
                    match &self.boxes[t] {
                        Some(tb) => {
                            match tb.dirty {
                                Some(slot) => {
                                    if !reachable[slot] {
                                        proof {
                                            assert(suspects@[slot as int] == t);
                                            assert(self@.get(a).refs.contains(t));
                                            assert(dirty_set(self.boxes@).contains(t));
                                            assert(self@.edge(a, t));
                                            self.lemma_flag(
                                                suspects@,
                                                reachable@,
                                                work@,
                                                k as int,
                                                a,
                                                i as int,
                                                slot,
                                            );
                                        }
                                        reachable[slot] = true;
                                        work.push(slot);
                                    }
                                },
                                None => {
                                    assert(!dirty_set(self.boxes@).contains(t));
                                },
                            }
                        },
                        None => {},
                    }
                    i = i + 1;
                }
                proof {
                    assert(self.settled(reachable@, a));
                    self.lemma_done_work(suspects@, reachable@, work@, k as int);
                }
                Ok(())
            },
            None => Ok(()),
        }
    }

    /// Flag the roots among the suspects and everything that they reach
    /// through payloads which can be visited.
    fn mark_reachable(&self, suspects: &Vec<usize>, tentative: &Vec<usize>) -> (reachable: Vec<bool>)
        requires
            self.rep_with(suspects@),
            self@.sound(),
            tentative@.len() == suspects@.len(),
            forall|k: int|
                0 <= k < suspects@.len() ==> tentative@[k] == self@.tentative(
                    #[trigger] suspects@[k],
                ),
        ensures
            reachable@.len() == suspects@.len(),
            forall|k: int|
                0 <= k < suspects@.len() ==> reachable@[k] == self@.is_reachable(
                    #[trigger] suspects@[k],
                ),
    {
        let n: usize = suspects.len();
        let mut reachable: Vec<bool> = Vec::new();
        let mut work: Vec<usize> = Vec::new();
        let mut k: usize = 0;
        while k < n
            invariant
                self.rep_with(suspects@),
                n == suspects@.len(),
                tentative@.len() == n,
                forall|m: int|
                    0 <= m < n ==> tentative@[m] == self@.tentative(#[trigger] suspects@[m]),
                k <= n,
                reachable@.len() == k,
                forall|m: int|
                    0 <= m < k ==> reachable@[m] == self@.is_root(#[trigger] suspects@[m]),
                forall|w: int|
                    0 <= w < work@.len() ==> (#[trigger] work@[w]) < k && reachable@[work@[w] as int],
                forall|m: int| 0 <= m < k && reachable@[m] ==> work@.contains(m as usize),
            decreases n - k,
        {
            let a: usize = suspects[k];
            assert(self.boxes@[suspects@[k as int] as int] is Some);
            assert(dirty_set(self.boxes@).contains(a));
            let root: bool = match &self.boxes[a] {
                Some(b) => b.borrowed || tentative[k] > 0,
                None => false,
            };
            let ghost flags = reachable@;
            let ghost stack = work@;
            reachable.push(root);
            if root {
                work.push(k);
                proof {
                    assert(work@[work@.len() - 1] == k);
                    assert forall|m: int| 0 <= m < k && reachable@[m] implies work@.contains(
                        m as usize,
                    ) by {
                        assert(flags[m]);
                        let w = choose|w: int| 0 <= w < stack.len() && stack[w] == m as usize;
                        assert(work@[w] == m as usize);
                    }
                }
            }
            k = k + 1;
        }
        proof {
            self.lemma_roots_flagged(suspects@, reachable@, work@);
        }
        while work.len() > 0
            invariant
                self.rep_with(suspects@),
                self@.sound(),
                n == suspects@.len(),
                self.marks_ok(suspects@, reachable@, work@),
                self.rest_settled(suspects@, reachable@, work@, -1),
            decreases total(blanks(reachable@)), work@.len(),
        {
            proof {
                self.lemma_take_work(suspects@, reachable@, work@);
            }
            let ghost before = work@;
            let k: usize = work.pop().unwrap();
            assert(work@ =~= before.drop_last());
            let _ = self.visit_mark(suspects, k, &mut reachable, &mut work);
        }
        proof {
            assert(work@ =~= Seq::<usize>::empty());
            self.lemma_marks_final(suspects@, reachable@);
        }
        reachable
    }
}

impl<T, P: CollectCondition> Dumpster<T, P> {
    /// The first `k` suspects of the list have been dealt with: the flagged
    /// ones are suspects no more, the others are gone. `before` holds the
    /// boxes as they were.
    spec fn swept_to(&self, before: Seq<Option<GcBox<T>>>, flags: Seq<bool>, k: int) -> bool {
        &&& self.boxes@.len() == before.len()
        &&& forall|a: int|
            0 <= a < before.len() ==> if (#[trigger] before[a]) is Some && before[a]->0.dirty is Some
                && before[a]->0.dirty->0 < k {
                if flags[before[a]->0.dirty->0 as int] {
                    self.boxes@[a] == Some(GcBox { dirty: None, ..before[a]->0 })
                } else {
                    self.boxes@[a] is None
                }
            } else {
                self.boxes@[a] == before[a]
            }
    }

    /// Run the destructor of a payload that the collector found unreachable.
    /// The handles which the payload owns are dropped while the collection
    /// guard is up, so that none of them touches the heap.
    fn destroy(&mut self, gone: Option<GcBox<T>>)
        requires
            old(self).collecting,
        ensures
            *final(self) == *old(self),
        decreases 1nat,
    {
        match gone {
            Some(b) => {
                let GcBox { ref_count: _, value: _, refs, borrowed: _, dirty: _ } = b;
                let mut refs = refs;
                while refs.len() > 0
                    invariant
                        *self == *old(self),
                        self.collecting,
                    decreases refs@.len(),
                {
                    let gc = refs.pop().unwrap();
                    gc.drop(self);
                }
            },
            None => {},
        }
    }

    /// Destroy the suspects that are not flagged as reachable, and make the
    /// others ordinary allocations again.
    ///
    /// A first pass runs the destructors. The cell of a destroyed allocation
    /// is vacant from then on, so that nothing can reach a payload that is
    /// gone. A second pass releases the addresses for new allocations.
    fn sweep(&mut self, suspects: &Vec<usize>, reachable: &Vec<bool>)
        requires
            old(self).rep_with(suspects@),
            old(self).to_collect@.len() == 0,
            old(self).collecting,
            reachable@.len() == suspects@.len(),
            forall|k: int|
                0 <= k < suspects@.len() ==> reachable@[k] == old(self)@.is_reachable(
                    #[trigger] suspects@[k],
                ),
        ensures
            final(self).rep(),
            final(self)@.cells == old(self)@.swept(),
            final(self)@.suspects == Set::<usize>::empty(),
            final(self).n_refs_living == old(self).n_refs_living,
            final(self).n_ref_drops == old(self).n_ref_drops,
            final(self).collecting == old(self).collecting,
            final(self).reclaimed == old(self).reclaimed,
            final(self).collect_condition == old(self).collect_condition,
        decreases 2nat,
    {
        let n: usize = suspects.len();
        let ghost before = self.boxes@;
        // first pass: the destructors
        let mut k: usize = 0;
        while k < n
            invariant
                old(self).rep_with(suspects@),
                before == old(self).boxes@,
                n == suspects@.len(),
                reachable@.len() == n,
                k <= n,
                self.swept_to(before, reachable@, k as int),
                self.to_collect@.len() == 0,
                self.vacant@ == old(self).vacant@,
                self.n_refs_living == old(self).n_refs_living,
                self.n_ref_drops == old(self).n_ref_drops,
                self.collecting,
                self.reclaimed == old(self).reclaimed,
                self.collect_condition == old(self).collect_condition,
            decreases n - k,
        {
            let a: usize = suspects[k];
            let ghost boxes = self.boxes@;
            proof {
                assert(before[suspects@[k as int] as int] is Some);
                assert(before[a as int]->0.dirty == Some(k));
                assert(boxes[a as int] == before[a as int]);
            }
            if reachable[k] {
                match &mut self.boxes[a] {
                    Some(b) => {
                        b.dirty = None;
                    },
                    None => {},
                }
            } else {
                let gone = self.boxes[a].take();
                self.destroy(gone);
            }
            proof {
                assert forall|x: int| 0 <= x < before.len() && x != a implies self.boxes@[x]
                    == boxes[x] by {}
                assert forall|x: int|
                    0 <= x < before.len() && x != a && (#[trigger] before[x]) is Some
                        && before[x]->0.dirty is Some implies before[x]->0.dirty->0 != k by {
                    assert(suspects@[before[x]->0.dirty->0 as int] == x);
                }
            }
            k = k + 1;
        }
        // second pass: the storage
        let mut k: usize = 0;
        while k < n
            invariant
                old(self).rep_with(suspects@),
                before == old(self).boxes@,
                n == suspects@.len(),
                reachable@.len() == n,
                k <= n,
                self.swept_to(before, reachable@, n as int),
                self.to_collect@.len() == 0,
                forall|j: int|
                    0 <= j < self.vacant@.len() ==> (#[trigger] self.vacant@[j]) < before.len() && (
                    before[self.vacant@[j] as int] is None || (
                    before[self.vacant@[j] as int]->0.dirty is Some
                        && before[self.vacant@[j] as int]->0.dirty->0 < k
                        && !reachable@[before[self.vacant@[j] as int]->0.dirty->0 as int])),
                forall|i: int, j: int|
                    0 <= i < j < self.vacant@.len() ==> self.vacant@[i] != self.vacant@[j],
                self.n_refs_living == old(self).n_refs_living,
                self.n_ref_drops == old(self).n_ref_drops,
                self.collecting,
                self.reclaimed == old(self).reclaimed,
                self.collect_condition == old(self).collect_condition,
            decreases n - k,
        {
            if !reachable[k] {
                let ghost free = self.vacant@;
                let a: usize = suspects[k];
                self.vacant.push(a);
                proof {
                    assert(before[suspects@[k as int] as int] is Some);
                    assert(before[a as int]->0.dirty == Some(k));
                    assert forall|j: int| 0 <= j < free.len() implies free[j] != a by {
                        assert(self.vacant@[j] == free[j]);
                    }
                }
            }
            k = k + 1;
        }
        proof {
            assert forall|j: int| 0 <= j < self.vacant@.len() implies (#[trigger] self.vacant@[j])
                < self.boxes@.len() && self.boxes@[self.vacant@[j] as int] is None by {
                let was = before[self.vacant@[j] as int];
                if was is Some {
                    assert(was->0.dirty->0 < n);
                }
            }
        }
        proof {
            let h = old(self)@;
            assert forall|a: int| 0 <= a < before.len() implies cell_view(self.boxes@[a])
                == #[trigger] h.swept()[a] by {
                if before[a] is Some && before[a]->0.dirty is Some {
                    let m = before[a]->0.dirty->0 as int;
                    assert(suspects@[m] == a);
                    assert(dirty_set(before).contains(a as usize));
                    assert(h.is_live(a as usize));
                } else {
                    assert(!dirty_set(before).contains(a as usize));
                }
            }
            assert(self@.cells =~= h.swept());
            assert forall|a: int|
                0 <= a < self.boxes@.len() && (#[trigger] self.boxes@[a]) is Some implies self.boxes@[a]->0.dirty is None by {
                let was = before[a];
                if was is Some && was->0.dirty is Some {
                    assert(was->0.dirty->0 < n);
                    assert(self.boxes@[a] is None || self.boxes@[a] == Some(
                        GcBox { dirty: None, ..was->0 },
                    ));
                } else {
                    assert(self.boxes@[a] == was);
                }
            }
            assert(self@.suspects =~= Set::<usize>::empty());
        }
    }

    /// Collect all unreachable allocations that this dumpster is responsible
    /// for: those suspects that nothing outside the suspects refers to.
    pub fn collect_all(&mut self)
        requires
            old(self).rep(),
            old(self)@.sound(),
        ensures
            final(self).rep(),
            final(self).condition() == old(self).condition(),
            final(self)@ == old(self)@.collected(),
            final(self)@.sound(),
            old(self).wf() ==> final(self).wf(),
            forall|t: usize|
                #![trigger final(self)@.is_live(t)]
                #![trigger old(self)@.is_live(t)]
                old(self)@.is_live(t) && old(self)@.external(t) >= 1 ==> final(self)@.is_live(t)
                    && final(self)@.external(t) >= old(self)@.external(t),
            forall|t: usize|
                #![trigger final(self)@.is_live(t)]
                final(self)@.is_live(t) ==> old(self)@.is_live(t) && final(self)@.get(t) == old(self)@.get(t),
        decreases 3nat,
    {
        self.n_ref_drops = 0;
        self.collecting = true;
        let mut suspects: Vec<usize> = Vec::new();
        core::mem::swap(&mut suspects, &mut self.to_collect);
        let ghost mid = self@;
        proof {
            lemma_same_garbage(old(self)@, mid);
        }
        let tentative = self.trial_counts(&suspects);
        let reachable = self.mark_reachable(&suspects, &tentative);
        self.sweep(&suspects, &reachable);
        self.collecting = false;
        proof {
            let h = old(self)@;
            let rest = Heap { cells: h.swept(), ..h };
            self.reclaimed = Ghost((h.reclaimed + h.total_strong() - rest.total_strong()) as nat);
            lemma_collected(h);
            assert(self@ == h.collected());
        }
    }
}

} // verus!
