use vstd::prelude::*;

verus! {

/// Source of unique object identifiers shared by every object specification.
///
/// The counter hands out its current value and then advances by one,
/// wrapping around at `usize::MAX` as an atomic `fetch_add` does.
pub struct IdCounter {
    pub next: usize,
}

/// The value that follows `n` in a wrapping `usize` counter.
pub open spec fn wrapping_successor(n: usize) -> usize {
    if n == usize::MAX {
        0
    } else {
        (n + 1) as usize
    }
}

impl IdCounter {
    /// A counter whose first identifier is 0.
    pub fn new() -> (c: IdCounter)
        ensures
            c.next == 0,
    {
        IdCounter { next: 0 }
    }
}

/// Hands out the next identifier and advances the counter.
pub fn next_id(counter: &mut IdCounter) -> (id: usize)
    ensures
        id == old(counter).next,
        final(counter).next == wrapping_successor(old(counter).next),
{
    let id = counter.next;
    counter.next = counter.next.wrapping_add(1);
    id
}

/// The counter's value after `k` identifiers were handed out from `n`.
pub open spec fn counter_after(n: usize, k: nat) -> usize
    decreases k,
{
    if k == 0 {
        n
    } else {
        wrapping_successor(counter_after(n, (k - 1) as nat))
    }
}

/// Within one turn of the counter, the value after `k` calls is `n + k`,
/// taken modulo `usize::MAX + 1`.
pub proof fn lemma_counter_after(n: usize, k: nat)
    requires
        k <= usize::MAX,
    ensures
        n + k <= usize::MAX ==> counter_after(n, k) == n + k,
        n + k > usize::MAX ==> counter_after(n, k) == n + k - usize::MAX - 1,
    decreases k,
{
    if k > 0 {
        lemma_counter_after(n, (k - 1) as nat);
    }
}

/// Identifiers handed out by the same counter are pairwise distinct as long
/// as fewer than `usize::MAX + 1` calls separate them: the `i`-th and the
/// `j`-th call never return the same value.
pub proof fn lemma_ids_distinct(n: usize, i: nat, j: nat)
    requires
        i < j <= usize::MAX,
    ensures
        counter_after(n, i) != counter_after(n, j),
{
    lemma_counter_after(n, i);
    lemma_counter_after(n, j);
}

} // verus!
