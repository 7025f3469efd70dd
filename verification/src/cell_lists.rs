use vstd::prelude::*;

verus! {

/// The particles among the first `k` (in increasing order) whose cell is `c`.
pub open spec fn members_upto(cells: Seq<usize>, c: int, k: int) -> Seq<usize>
    decreases k,
{
    if k <= 0 {
        Seq::empty()
    } else {
        let prev = members_upto(cells, c, k - 1);
        if cells[k - 1] == c {
            prev.push((k - 1) as usize)
        } else {
            prev
        }
    }
}

/// The particles whose cell is `c`, in increasing order.
pub open spec fn cell_members_of(cells: Seq<usize>, c: int) -> Seq<usize> {
    members_upto(cells, c, cells.len() as int)
}

/// How many of the first `k` particles lie in the cells before `c`.
pub open spec fn count_before(cells: Seq<usize>, c: int, k: int) -> int
    decreases c,
{
    if c <= 0 {
        0
    } else {
        count_before(cells, c - 1, k) + members_upto(cells, c - 1, k).len()
    }
}

/// How many particles lie in the cells before `c`: where cell `c` starts.
pub open spec fn cells_before(cells: Seq<usize>, c: int) -> int {
    count_before(cells, c, cells.len() as int)
}

pub proof fn lemma_members_len(cells: Seq<usize>, c: int, k: int)
    requires
        0 <= k,
    ensures
        members_upto(cells, c, k).len() <= k,
    decreases k,
{
    if k > 0 {
        lemma_members_len(cells, c, k - 1);
    }
}

/// Members among the first `k1` particles are a prefix of those among the first `k2`.
pub proof fn lemma_members_prefix(cells: Seq<usize>, c: int, k1: int, k2: int)
    requires
        0 <= k1 <= k2,
    ensures
        members_upto(cells, c, k1).len() <= members_upto(cells, c, k2).len(),
        members_upto(cells, c, k1) =~= members_upto(cells, c, k2).take(
            members_upto(cells, c, k1).len() as int,
        ),
    decreases k2,
{
    if k1 < k2 {
        lemma_members_prefix(cells, c, k1, k2 - 1);
    }
}

/// Every member lies in the cell, below `k`, and the members increase strictly.
pub proof fn lemma_members_facts(cells: Seq<usize>, c: int, k: int)
    requires
        0 <= k <= cells.len(),
        cells.len() <= usize::MAX,
    ensures
        forall|r: int|
            0 <= r < members_upto(cells, c, k).len() ==> {
                &&& #[trigger] members_upto(cells, c, k)[r] < k
                &&& cells[members_upto(cells, c, k)[r] as int] == c
            },
        forall|r: int, s: int|
            0 <= r < s < members_upto(cells, c, k).len() ==> #[trigger] members_upto(cells, c, k)[r]
                < #[trigger] members_upto(cells, c, k)[s],
    decreases k,
{
    if k > 0 {
        lemma_members_facts(cells, c, k - 1);
        let prev = members_upto(cells, c, k - 1);
        let cur = members_upto(cells, c, k);
        if cells[k - 1] == c {
            assert forall|r: int| 0 <= r < cur.len() implies #[trigger] cur[r] < k && cells[cur[r] as int] == c by {
                if r < prev.len() {
                    assert(cur[r] == prev[r]);
                }
            }
            assert forall|r: int, s: int| 0 <= r < s < cur.len() implies #[trigger] cur[r] < #[trigger] cur[s] by {
                assert(cur[r] == prev[r]);
                if s < prev.len() {
                    assert(cur[s] == prev[s]);
                }
            }
        }
    }
}

/// A particle below `k` is a member of its own cell.
pub proof fn lemma_member_of_own_cell(cells: Seq<usize>, i: int, k: int)
    requires
        0 <= i < k <= cells.len(),
        cells.len() <= usize::MAX,
    ensures
        members_upto(cells, cells[i] as int, k).contains(i as usize),
    decreases k,
{
    if i < k - 1 {
        lemma_member_of_own_cell(cells, i, k - 1);
        let prev = members_upto(cells, cells[i] as int, k - 1);
        let r = choose|r: int| 0 <= r < prev.len() && prev[r] == i as usize;
        if cells[k - 1] == cells[i] {
            assert(prev.push((k - 1) as usize)[r] == i as usize);
        }
    } else {
        let prev = members_upto(cells, cells[i] as int, k - 1);
        assert(prev.push((k - 1) as usize)[prev.len() as int] == i as usize);
    }
}

/// Adding particle `k - 1` to the count raises `count_before` by one exactly
/// when its cell lies before `c`.
pub proof fn lemma_count_before_step(cells: Seq<usize>, c: int, k: int)
    requires
        0 < k <= cells.len(),
    ensures
        count_before(cells, c, k) == count_before(cells, c, k - 1) + (if 0 <= cells[k - 1] < c {
            1int
        } else {
            0int
        }),
    decreases c,
{
    if c > 0 {
        lemma_count_before_step(cells, c - 1, k);
    }
}

/// At most `k` of the first `k` particles lie before any cell, and all of them
/// lie before a cell past every particle's cell.
pub proof fn lemma_count_before_bound(cells: Seq<usize>, c: int, k: int)
    requires
        0 <= k <= cells.len(),
    ensures
        0 <= count_before(cells, c, k) <= k,
        (forall|i: int| 0 <= i < k ==> cells[i] < c) ==> count_before(cells, c, k) == k,
    decreases k,
{
    if k > 0 {
        lemma_count_before_step(cells, c, k);
        lemma_count_before_bound(cells, c, k - 1);
    } else {
        lemma_count_before_zero(cells, c);
    }
}

pub proof fn lemma_count_before_zero(cells: Seq<usize>, c: int)
    ensures
        count_before(cells, c, 0) == 0,
    decreases c,
{
    if c > 0 {
        lemma_count_before_zero(cells, c - 1);
    }
}

/// `count_before` never decreases as the cell grows.
pub proof fn lemma_count_before_monotone(cells: Seq<usize>, a: int, b: int, k: int)
    requires
        a <= b,
    ensures
        count_before(cells, a, k) <= count_before(cells, b, k),
    decreases b - a,
{
    if a < b {
        lemma_count_before_monotone(cells, a, b - 1, k);
        if b > 0 {
        }
    }
}

/// The entries `j` of `s`, in order, that `f` accepts as neighbours of `i`.
pub open spec fn accepted<F: Fn(usize, usize) -> bool>(f: F, i: usize, s: Seq<usize>) -> Seq<usize>
    decreases s.len(),
{
    if s.len() == 0 {
        Seq::empty()
    } else {
        let prev = accepted(f, i, s.drop_last());
        if call_ensures(f, (i, s.last()), true) {
            prev.push(s.last())
        } else {
            prev
        }
    }
}

/// `f` can be called on every pair of particles below `n` and always gives
/// the same answer for the same pair.
pub open spec fn decides_pairs<F: Fn(usize, usize) -> bool>(f: F, n: int) -> bool {
    &&& forall|i: usize, j: usize| i < n && j < n ==> call_requires(f, (i, j))
    &&& forall|i: usize, j: usize, r: bool| #[trigger] call_ensures(f, (i, j), r) ==> r == call_ensures(f, (i, j), true)
}

pub proof fn lemma_accepted_append<F: Fn(usize, usize) -> bool>(f: F, i: usize, s1: Seq<usize>, s2: Seq<usize>)
    ensures
        accepted(f, i, s1 + s2) == accepted(f, i, s1) + accepted(f, i, s2),
    decreases s2.len(),
{
    if s2.len() == 0 {
        assert(s1 + s2 =~= s1);
        assert(accepted(f, i, s1) + accepted(f, i, s2) =~= accepted(f, i, s1));
    } else {
        lemma_accepted_append(f, i, s1, s2.drop_last());
        assert((s1 + s2).drop_last() =~= s1 + s2.drop_last());
        assert((s1 + s2).last() == s2.last());
        if call_ensures(f, (i, s2.last()), true) {
            assert(accepted(f, i, s1) + accepted(f, i, s2.drop_last()).push(s2.last())
                =~= (accepted(f, i, s1) + accepted(f, i, s2.drop_last())).push(s2.last()));
        }
    }
}

pub proof fn lemma_accepted_len<F: Fn(usize, usize) -> bool>(f: F, i: usize, s: Seq<usize>)
    ensures
        accepted(f, i, s).len() <= s.len(),
        forall|k: int| 0 <= k < accepted(f, i, s).len() ==> s.contains(#[trigger] accepted(f, i, s)[k]),
    decreases s.len(),
{
    if s.len() > 0 {
        lemma_accepted_len(f, i, s.drop_last());
        let prev = accepted(f, i, s.drop_last());
        assert forall|k: int| 0 <= k < accepted(f, i, s).len() implies s.contains(#[trigger] accepted(f, i, s)[k]) by {
            if k < prev.len() {
                let q = choose|q: int| 0 <= q < s.drop_last().len() && s.drop_last()[q] == prev[k];
                assert(s[q] == prev[k]);
            } else {
                assert(s[s.len() - 1] == s.last());
            }
        }
    }
}

/// The particles of cells `0..c`, cell after cell, each cell in increasing order.
pub open spec fn cells_order(cells: Seq<usize>, c: int) -> Seq<usize>
    decreases c,
{
    if c <= 0 {
        Seq::empty()
    } else {
        cells_order(cells, c - 1) + cell_members_of(cells, c - 1)
    }
}

/// Where each of the cells `0..=total` starts once the particles are sorted by cell.
pub open spec fn bin_offsets(cells: Seq<usize>, total: int) -> Seq<usize> {
    Seq::new((total + 1) as nat, |c: int| cells_before(cells, c) as usize)
}

/// The particles sorted by cell.
pub open spec fn bin_ids(cells: Seq<usize>, total: int) -> Seq<usize> {
    cells_order(cells, total)
}

} // verus!
