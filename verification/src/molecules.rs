use vstd::prelude::*;
use std::collections::HashMap;

verus! {

/// The ids of the first `k` particles whose molecule is `m`, in particle order.
pub open spec fn molecule_members(ids: Seq<usize>, molecule_ids: Seq<usize>, m: usize, k: int) -> Seq<usize>
    decreases k,
{
    if k <= 0 {
        Seq::empty()
    } else {
        let prev = molecule_members(ids, molecule_ids, m, k - 1);
        if molecule_ids[k - 1] == m {
            prev.push(ids[k - 1])
        } else {
            prev
        }
    }
}

/// Number of particles described by both columns.
pub open spec fn paired_len(ids: Seq<usize>, molecule_ids: Seq<usize>) -> int {
    if ids.len() <= molecule_ids.len() { ids.len() as int } else { molecule_ids.len() as int }
}

/// Groups particle ids by molecule: each molecule id that occurs maps to the
/// ids of its particles, in particle order.
pub fn group_by_molecule(ids: &Vec<usize>, molecule_ids: &Vec<usize>) -> (groups: HashMap<usize, Vec<usize>>)
    ensures
        forall|m: usize| #[trigger] groups@.contains_key(m) <==> exists|i: int|
            0 <= i < paired_len(ids@, molecule_ids@) && molecule_ids@[i] == m,
        forall|m: usize| #[trigger] groups@.contains_key(m) ==> groups@[m]@ == molecule_members(
            ids@,
            molecule_ids@,
            m,
            paired_len(ids@, molecule_ids@),
        ),
{
    broadcast use vstd::std_specs::hash::group_hash_axioms;
    let n = if ids.len() <= molecule_ids.len() { ids.len() } else { molecule_ids.len() };
    let mut groups: HashMap<usize, Vec<usize>> = HashMap::new();
    let mut i: usize = 0;
    while i < n
        invariant
            i <= n,
            n == paired_len(ids@, molecule_ids@),
            n <= ids@.len(),
            n <= molecule_ids@.len(),
            forall|m: usize| #[trigger] groups@.contains_key(m) <==> exists|k: int|
                0 <= k < i && molecule_ids@[k] == m,
            forall|m: usize| #[trigger] groups@.contains_key(m) ==> groups@[m]@ == molecule_members(
                ids@,
                molecule_ids@,
                m,
                i as int,
            ),
        decreases n - i,
    {
        let mol = molecule_ids[i];
        let id = ids[i];
        let ghost before = groups@;
        match groups.remove(&mol) {
            Some(mut members) => {
                members.push(id);
                groups.insert(mol, members);
            },
            None => {
                let mut members = Vec::new();
                members.push(id);
                groups.insert(mol, members);
            },
        }
        assert forall|m: usize| #[trigger] groups@.contains_key(m) <==> exists|k: int|
            0 <= k < i + 1 && molecule_ids@[k] == m by {
            if m != mol && before.contains_key(m) {
                let k = choose|k: int| 0 <= k < i && molecule_ids@[k] == m;
                assert(0 <= k < i + 1 && molecule_ids@[k] == m);
            }
            if m == mol {
                assert(molecule_ids@[i as int] == m);
            }
        }
        assert forall|m: usize| #[trigger] groups@.contains_key(m) implies groups@[m]@ == molecule_members(
            ids@,
            molecule_ids@,
            m,
            i + 1,
        ) by {
            if m != mol {
                assert(before.contains_key(m));
            } else if !before.contains_key(m) {
                assert(forall|k: int| 0 <= k < i ==> molecule_ids@[k] != m);
                lemma_no_members(ids@, molecule_ids@, m, i as int);
                assert(groups@[m]@ =~= seq![id]);
            }
        }
        i = i + 1;
    }
    groups
}

/// A molecule none of whose particles lies among the first `k` has no members there.
pub proof fn lemma_no_members(ids: Seq<usize>, molecule_ids: Seq<usize>, m: usize, k: int)
    requires
        forall|j: int| 0 <= j < k ==> molecule_ids[j] != m,
    ensures
        molecule_members(ids, molecule_ids, m, k) == Seq::<usize>::empty(),
    decreases k,
{
    if k > 0 {
        lemma_no_members(ids, molecule_ids, m, k - 1);
    }
}

/// Every particle among the first `k` appears in the group of its own
/// molecule, and a group holds only particles of its molecule.
pub proof fn lemma_groups_partition(ids: Seq<usize>, molecule_ids: Seq<usize>, k: int)
    requires
        0 <= k <= ids.len(),
        k <= molecule_ids.len(),
    ensures
        forall|j: int| 0 <= j < k ==> #[trigger] molecule_members(ids, molecule_ids, molecule_ids[j], k).contains(ids[j]),
        forall|m: usize, x: usize| #[trigger] molecule_members(ids, molecule_ids, m, k).contains(x) ==> exists|j: int|
            0 <= j < k && molecule_ids[j] == m && ids[j] == x,
    decreases k,
{
    if k > 0 {
        lemma_groups_partition(ids, molecule_ids, k - 1);
        assert forall|j: int| 0 <= j < k implies #[trigger] molecule_members(ids, molecule_ids, molecule_ids[j], k).contains(ids[j]) by {
            let m = molecule_ids[j];
            let prev = molecule_members(ids, molecule_ids, m, k - 1);
            let cur = molecule_members(ids, molecule_ids, m, k);
            if j < k - 1 {
                assert(prev.contains(ids[j]));
                let r = choose|r: int| 0 <= r < prev.len() && prev[r] == ids[j];
                if molecule_ids[k - 1] == m {
                    assert(cur[r] == ids[j]);
                } else {
                    assert(cur == prev);
                }
            } else {
                assert(cur[prev.len() as int] == ids[j]);
            }
        }
        assert forall|m: usize, x: usize| #[trigger] molecule_members(ids, molecule_ids, m, k).contains(x) implies exists|j: int|
            0 <= j < k && molecule_ids[j] == m && ids[j] == x by {
            let prev = molecule_members(ids, molecule_ids, m, k - 1);
            let cur = molecule_members(ids, molecule_ids, m, k);
            let r = choose|r: int| 0 <= r < cur.len() && cur[r] == x;
            if r < prev.len() {
                assert(cur[r] == prev[r]);
                assert(prev.contains(x));
                let j = choose|j: int| 0 <= j < k - 1 && molecule_ids[j] == m && ids[j] == x;
                assert(0 <= j < k && molecule_ids[j] == m && ids[j] == x);
            } else {
                assert(molecule_ids[k - 1] == m);
                assert(ids[k - 1] == x);
            }
        }
    }
}

/// The group of molecule `m` among the first `k` particles is exactly the
/// ids of the particles `j < k` whose molecule is `m`, each once, taken in
/// increasing `j`.
pub proof fn lemma_members_are_the_molecule_particles(ids: Seq<usize>, molecule_ids: Seq<usize>, m: usize, k: int)
    requires
        0 <= k <= ids.len(),
        k <= molecule_ids.len(),
    ensures
        molecule_members(ids, molecule_ids, m, k) == Seq::new(k as nat, |j: int| j)
            .filter(|j: int| molecule_ids[j] == m)
            .map_values(|j: int| ids[j]),
    decreases k,
{
    let pred = |j: int| molecule_ids[j] == m;
    if k == 0 {
        assert(Seq::new(0, |j: int| j).filter(pred) =~= Seq::<int>::empty()) by {
            Seq::new(0, |j: int| j).lemma_filter_len(pred);
        }
        assert(Seq::new(0, |j: int| j).filter(pred).map_values(|j: int| ids[j]) =~= Seq::<usize>::empty());
    } else {
        lemma_members_are_the_molecule_particles(ids, molecule_ids, m, k - 1);
        let prev_idx = Seq::new((k - 1) as nat, |j: int| j);
        let idx = Seq::new(k as nat, |j: int| j);
        assert(idx =~= prev_idx.push(k - 1));
        prev_idx.lemma_filter_push(k - 1, pred);
        let pf = prev_idx.filter(pred);
        if molecule_ids[k - 1] == m {
            assert(idx.filter(pred) == pf.push(k - 1));
            assert(pf.push(k - 1).map_values(|j: int| ids[j]) =~= pf.map_values(|j: int| ids[j]).push(ids[k - 1]));
        } else {
            assert(idx.filter(pred) == pf);
        }
    }
}

} // verus!
