//! Laws of the list's contracts: how repeated pushes shape the sequence,
//! and how repeated cursor steps walk it.

use vstd::prelude::*;

use crate::list::Pos;
use crate::list::pos_after_next;
use crate::list::pos_after_prev;

verus! {

/// The sequence a list holds after pushing the values of `vs`, in order, at
/// the front of an empty list; each step prepends, as `push_front` ensures.
pub open spec fn prepended<T>(vs: Seq<T>) -> Seq<T>
    decreases vs.len(),
{
    if vs.len() == 0 {
        Seq::empty()
    } else {
        seq![vs.last()].add(prepended(vs.drop_last()))
    }
}

/// The sequence a list holds after pushing the values of `vs`, in order, at
/// the back of an empty list; each step appends, as `push_back` ensures.
pub open spec fn appended<T>(vs: Seq<T>) -> Seq<T>
    decreases vs.len(),
{
    if vs.len() == 0 {
        Seq::empty()
    } else {
        appended(vs.drop_last()).push(vs.last())
    }
}

/// Pushing `v1 .. vn` at the front leaves the list holding `vn .. v1`, so
/// the following front pops return the values in reverse order of their
/// pushes: last in, first out.
pub proof fn lemma_push_front_stack_order<T>(vs: Seq<T>)
    ensures
        prepended(vs) == vs.reverse(),
    decreases vs.len(),
{
    if vs.len() > 0 {
        lemma_push_front_stack_order(vs.drop_last());
    }
    assert(prepended(vs) =~= vs.reverse());
}

/// Pushing `v1 .. vn` at the back leaves the list holding `v1 .. vn`, so
/// the following front pops return the values in the order of their pushes:
/// first in, first out.
pub proof fn lemma_push_back_queue_order<T>(vs: Seq<T>)
    ensures
        appended(vs) == vs,
    decreases vs.len(),
{
    if vs.len() > 0 {
        lemma_push_back_queue_order(vs.drop_last());
    }
    assert(appended(vs) =~= vs);
}

/// The position after `k` forward steps from `p` over a list of `n`
/// elements.
pub open spec fn pos_after_nexts(p: Pos, n: int, k: nat) -> Pos
    decreases k,
{
    if k == 0 {
        p
    } else {
        pos_after_next(pos_after_nexts(p, n, (k - 1) as nat), n)
    }
}

/// The position after `k` backward steps from `p` over a list of `n`
/// elements.
pub open spec fn pos_after_prevs(p: Pos, n: int, k: nat) -> Pos
    decreases k,
{
    if k == 0 {
        p
    } else {
        pos_after_prev(pos_after_prevs(p, n, (k - 1) as nat), n)
    }
}

/// The boundaries absorb: however often a cursor at `End` steps forward it
/// stays at `End` (and reads nothing), and however often a cursor at
/// `Start` steps backward it stays at `Start`.
pub proof fn lemma_boundaries_absorb(n: int, k: nat)
    ensures
        pos_after_nexts(Pos::End, n, k) == Pos::End,
        pos_after_prevs(Pos::Start, n, k) == Pos::Start,
    decreases k,
{
    if k > 0 {
        lemma_boundaries_absorb(n, (k - 1) as nat);
    }
}

/// Stepping forward and then backward from any element returns to that
/// element.  From the last element the forward step reaches `End`, and the
/// backward step from `End` lands on the last element again: the same rank,
/// not a special case.
pub proof fn lemma_next_then_prev(i: int, n: int)
    requires
        0 <= i < n,
    ensures
        pos_after_prev(pos_after_next(Pos::At(i), n), n) == Pos::At(i),
{
}

/// A forward walk from `Start` over `n` elements stands on the element of
/// rank `k - 1` after `k` steps while elements remain, and on `End` for
/// every later step: the walk visits each of the `n` elements once and then
/// ends.
pub proof fn lemma_forward_walk(n: int, k: nat)
    requires
        0 <= n,
        1 <= k,
    ensures
        k <= n ==> pos_after_nexts(Pos::Start, n, k) == Pos::At(k - 1),
        k > n ==> pos_after_nexts(Pos::Start, n, k) == Pos::End,
    decreases k,
{
    reveal_with_fuel(pos_after_nexts, 2);
    if k > 1 {
        lemma_forward_walk(n, (k - 1) as nat);
    }
}

/// A backward walk from `End` over `n` elements stands on the element of
/// rank `n - k` after `k` steps while elements remain, and on `Start` for
/// every later step: it too visits each of the `n` elements once.
pub proof fn lemma_backward_walk(n: int, k: nat)
    requires
        0 <= n,
        1 <= k,
    ensures
        k <= n ==> pos_after_prevs(Pos::End, n, k) == Pos::At(n - k),
        k > n ==> pos_after_prevs(Pos::End, n, k) == Pos::Start,
    decreases k,
{
    reveal_with_fuel(pos_after_prevs, 2);
    if k > 1 {
        lemma_backward_walk(n, (k - 1) as nat);
    }
}

/// Backward traversal reverses forward traversal: the element under the
/// cursor at the `k + 1`-th backward stop is the `k`-th element of the
/// reversed sequence, so the two walks visit the same elements in reverse
/// order of each other.
pub proof fn lemma_backward_visits_reverse<T>(s: Seq<T>, k: int)
    requires
        0 <= k < s.len(),
    ensures
        pos_after_prevs(Pos::End, s.len() as int, (k + 1) as nat) == Pos::At(s.len() - 1 - k),
        s[s.len() - 1 - k] == s.reverse()[k],
{
    lemma_backward_walk(s.len() as int, (k + 1) as nat);
}

} // verus!
