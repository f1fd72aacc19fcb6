//! Sums of natural numbers over finite sequences, and the counting facts the
//! heap model is built on.
use vstd::prelude::*;

verus! {

/// The sum of all entries of `s`.
pub open spec fn total(s: Seq<nat>) -> nat
    decreases s.len(),
{
    if s.len() == 0 {
        0
    } else {
        total(s.drop_last()) + s.last()
    }
}

/// One for each entry of `s` that equals `t`, zero for the others.
pub open spec fn hits(s: Seq<usize>, t: usize) -> Seq<nat> {
    Seq::new(s.len(), |i: int| if s[i] == t { 1nat } else { 0nat })
}

/// How many entries of `s` equal `t`.
pub open spec fn count_of(s: Seq<usize>, t: usize) -> nat {
    total(hits(s, t))
}

/// The entries of `f` read in the order that `order` lists their positions.
pub open spec fn along(f: Seq<nat>, order: Seq<usize>) -> Seq<nat> {
    Seq::new(order.len(), |j: int| f[order[j] as int])
}

/// A sequence of `n` zeros.
pub open spec fn zeros(n: nat) -> Seq<nat> {
    Seq::new(n, |a: int| 0nat)
}

pub proof fn lemma_total_push(s: Seq<nat>, x: nat)
    ensures
        total(s.push(x)) == total(s) + x,
{
    assert(s.push(x).drop_last() =~= s);
}

pub proof fn lemma_total_update(s: Seq<nat>, i: int, x: nat)
    requires
        0 <= i < s.len(),
    ensures
        total(s.update(i, x)) + s[i] == total(s) + x,
    decreases s.len(),
{
    if i == s.len() - 1 {
        assert(s.update(i, x).drop_last() =~= s.drop_last());
    } else {
        lemma_total_update(s.drop_last(), i, x);
        assert(s.update(i, x).drop_last() =~= s.drop_last().update(i, x));
    }
}

/// A sum is at least as large as any one of its entries.
pub proof fn lemma_total_entry(s: Seq<nat>, i: int)
    requires
        0 <= i < s.len(),
    ensures
        s[i] <= total(s),
    decreases s.len(),
{
    if i < s.len() - 1 {
        lemma_total_entry(s.drop_last(), i);
    }
}

/// Entry by entry, a smaller sequence has a smaller sum.
pub proof fn lemma_total_le(s: Seq<nat>, r: Seq<nat>)
    requires
        s.len() == r.len(),
        forall|i: int| 0 <= i < s.len() ==> s[i] <= r[i],
    ensures
        total(s) <= total(r),
    decreases s.len(),
{
    if s.len() > 0 {
        lemma_total_le(s.drop_last(), r.drop_last());
    }
}

/// Summing `f` along a list `order` of distinct positions gives the sum of
/// `f` itself, provided `f` is zero at every position that `order` leaves out.
pub proof fn lemma_total_along(f: Seq<nat>, order: Seq<usize>)
    requires
        forall|j: int| 0 <= j < order.len() ==> order[j] < f.len(),
        forall|i: int, j: int| 0 <= i < j < order.len() ==> order[i] != order[j],
        forall|a: int|
            0 <= a < f.len() && f[a] > 0 ==> exists|j: int| 0 <= j < order.len() && order[j] == a,
    ensures
        total(along(f, order)) == total(f),
    decreases order.len(),
{
    if order.len() == 0 {
        assert forall|a: int| 0 <= a < f.len() implies f[a] <= 0 by {}
        lemma_total_le(f, zeros(f.len()));
        lemma_total_zero(f.len());
    } else {
        let x = order.last() as int;
        let rest = order.drop_last();
        let g = f.update(x, 0nat);
        assert forall|a: int| 0 <= a < g.len() && g[a] > 0 implies exists|j: int|
            0 <= j < rest.len() && rest[j] == a by {
            let j = choose|j: int| 0 <= j < order.len() && order[j] == a;
            assert(rest[j] == a);
        }
        lemma_total_along(g, rest);
        lemma_total_update(f, x, 0nat);
        assert(along(g, rest) =~= along(f, order).drop_last());
    }
}

pub proof fn lemma_total_zero(n: nat)
    ensures
        total(zeros(n)) == 0,
    decreases n,
{
    if n > 0 {
        lemma_total_zero((n - 1) as nat);
        assert(zeros(n).drop_last() =~= zeros((n - 1) as nat));
    }
}

/// Sums along a list grow with the list.
pub proof fn lemma_total_prefix(s: Seq<nat>, n: int)
    requires
        0 <= n <= s.len(),
    ensures
        total(s.take(n)) <= total(s),
    decreases s.len(),
{
    if n < s.len() {
        lemma_total_prefix(s.drop_last(), n);
        assert(s.drop_last().take(n) =~= s.take(n));
    } else {
        assert(s.take(n) =~= s);
    }
}

pub proof fn lemma_count_of_push(s: Seq<usize>, x: usize, t: usize)
    ensures
        count_of(s.push(x), t) == count_of(s, t) + if x == t { 1nat } else { 0nat },
{
    assert(hits(s.push(x), t) =~= hits(s, t).push(if x == t { 1nat } else { 0nat }));
    lemma_total_push(hits(s, t), if x == t { 1nat } else { 0nat });
}

pub proof fn lemma_count_of_drop_last(s: Seq<usize>, t: usize)
    requires
        s.len() > 0,
    ensures
        count_of(s, t) == count_of(s.drop_last(), t) + if s.last() == t { 1nat } else { 0nat },
{
    assert(s.drop_last().push(s.last()) =~= s);
    lemma_count_of_push(s.drop_last(), s.last(), t);
}

/// `t` occurs in `s` exactly when its count is positive.
pub proof fn lemma_count_of_contains(s: Seq<usize>, t: usize)
    ensures
        count_of(s, t) > 0 <==> s.contains(t),
    decreases s.len(),
{
    if s.len() > 0 {
        lemma_count_of_drop_last(s, t);
        lemma_count_of_contains(s.drop_last(), t);
        if s.contains(t) {
            let i = choose|i: int| 0 <= i < s.len() && s[i] == t;
            if i < s.len() - 1 {
                assert(s.drop_last()[i] == t);
            }
        }
        if s.drop_last().contains(t) {
            let i = choose|i: int| 0 <= i < s.drop_last().len() && s.drop_last()[i] == t;
            assert(s[i] == t);
        }
    }
}

/// The count over a prefix never exceeds the count over the whole.
pub proof fn lemma_count_of_prefix(s: Seq<usize>, n: int, t: usize)
    requires
        0 <= n <= s.len(),
    ensures
        count_of(s.take(n), t) <= count_of(s, t),
    decreases s.len() - n,
{
    if n < s.len() {
        lemma_count_of_prefix(s, n + 1, t);
        assert(s.take(n + 1).drop_last() =~= s.take(n));
        lemma_count_of_drop_last(s.take(n + 1), t);
    } else {
        assert(s.take(n) =~= s);
    }
}

} // verus!
