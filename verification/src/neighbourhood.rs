use vstd::prelude::*;
use vstd::arithmetic::div_mod::{lemma_fundamental_div_mod, lemma_mod_multiples_vanish, lemma_small_mod};
use vstd::set_lib::{lemma_int_range, lemma_len_subset, set_int_range};
use crate::cell_grid::{
    binned_layout, cell_candidates, cell_containing, verlet_sum, verlet_target,
    cell_segment, cells_members, collect_unique, grid_flat_index, grid_neighbour_index, grid_neighbours,
    grid_wrapped_coord, lemma_cell_coords, lemma_collect_unique, lemma_flat_index_bounds,
    lemma_flat_index_injective, neighbour_offsets, CellGrid,
};
use crate::cell_lists::{
    accepted, bin_ids, bin_offsets, cell_members_of, cells_before, cells_order, count_before,
    lemma_count_before_bound, lemma_member_of_own_cell, lemma_members_facts,
};

verus! {

/// The direction opposite to `o`.
pub open spec fn opposite(o: (int, int, int)) -> (int, int, int) {
    (-o.0, -o.1, -o.2)
}

/// The position in the search order of the direction opposite to direction `q`.
pub open spec fn opposite_position(q: int) -> int {
    if q < 6 {
        if q % 2 == 0 { q + 1 } else { q - 1 }
    } else if q < 10 {
        15 - q
    } else if q < 14 {
        23 - q
    } else if q < 18 {
        31 - q
    } else {
        43 - q
    }
}

/// The search directions, one by one.
proof fn lemma_offsets_values()
    ensures
        neighbour_offsets().len() == 26,
        neighbour_offsets()[0] == (1int, 0int, 0int),
        neighbour_offsets()[1] == (-1int, 0int, 0int),
        neighbour_offsets()[2] == (0int, 1int, 0int),
        neighbour_offsets()[3] == (0int, -1int, 0int),
        neighbour_offsets()[4] == (0int, 0int, 1int),
        neighbour_offsets()[5] == (0int, 0int, -1int),
        neighbour_offsets()[6] == (1int, 1int, 0int),
        neighbour_offsets()[7] == (1int, -1int, 0int),
        neighbour_offsets()[8] == (-1int, 1int, 0int),
        neighbour_offsets()[9] == (-1int, -1int, 0int),
        neighbour_offsets()[10] == (1int, 0int, 1int),
        neighbour_offsets()[11] == (1int, 0int, -1int),
        neighbour_offsets()[12] == (-1int, 0int, 1int),
        neighbour_offsets()[13] == (-1int, 0int, -1int),
        neighbour_offsets()[14] == (0int, 1int, 1int),
        neighbour_offsets()[15] == (0int, 1int, -1int),
        neighbour_offsets()[16] == (0int, -1int, 1int),
        neighbour_offsets()[17] == (0int, -1int, -1int),
        neighbour_offsets()[18] == (1int, 1int, 1int),
        neighbour_offsets()[19] == (1int, 1int, -1int),
        neighbour_offsets()[20] == (1int, -1int, 1int),
        neighbour_offsets()[21] == (1int, -1int, -1int),
        neighbour_offsets()[22] == (-1int, 1int, 1int),
        neighbour_offsets()[23] == (-1int, 1int, -1int),
        neighbour_offsets()[24] == (-1int, -1int, 1int),
        neighbour_offsets()[25] == (-1int, -1int, -1int),
{
}

/// Every search direction has its opposite among the search directions.
proof fn lemma_opposite_listed(q: int)
    requires
        0 <= q < 26,
    ensures
        0 <= opposite_position(q) < 26,
        neighbour_offsets()[opposite_position(q)] == opposite(neighbour_offsets()[q]),
{
    lemma_offsets_values();
}

/// Where the direction `o` stands in the search order.
pub open spec fn offset_position(o: (int, int, int)) -> int {
    if o == (1int, 0int, 0int) { 0 }
    else if o == (-1int, 0int, 0int) { 1 }
    else if o == (0int, 1int, 0int) { 2 }
    else if o == (0int, -1int, 0int) { 3 }
    else if o == (0int, 0int, 1int) { 4 }
    else if o == (0int, 0int, -1int) { 5 }
    else if o == (1int, 1int, 0int) { 6 }
    else if o == (1int, -1int, 0int) { 7 }
    else if o == (-1int, 1int, 0int) { 8 }
    else if o == (-1int, -1int, 0int) { 9 }
    else if o == (1int, 0int, 1int) { 10 }
    else if o == (1int, 0int, -1int) { 11 }
    else if o == (-1int, 0int, 1int) { 12 }
    else if o == (-1int, 0int, -1int) { 13 }
    else if o == (0int, 1int, 1int) { 14 }
    else if o == (0int, 1int, -1int) { 15 }
    else if o == (0int, -1int, 1int) { 16 }
    else if o == (0int, -1int, -1int) { 17 }
    else if o == (1int, 1int, 1int) { 18 }
    else if o == (1int, 1int, -1int) { 19 }
    else if o == (1int, -1int, 1int) { 20 }
    else if o == (1int, -1int, -1int) { 21 }
    else if o == (-1int, 1int, 1int) { 22 }
    else if o == (-1int, 1int, -1int) { 23 }
    else if o == (-1int, -1int, 1int) { 24 }
    else { 25 }
}

/// The search directions are exactly the 26 non-zero steps of at most one
/// along each axis.
proof fn lemma_offsets_are_the_unit_steps(q: int, o: (int, int, int))
    ensures
        0 <= q < 26 ==> {
            let p = neighbour_offsets()[q];
            &&& -1 <= p.0 <= 1 && -1 <= p.1 <= 1 && -1 <= p.2 <= 1
            &&& p != (0int, 0int, 0int)
        },
        (-1 <= o.0 <= 1 && -1 <= o.1 <= 1 && -1 <= o.2 <= 1 && o != (0int, 0int, 0int)) ==>
            0 <= offset_position(o) < 26 && neighbour_offsets()[offset_position(o)] == o,
{
    lemma_offsets_values();
}

/// The coordinate one step `d` from `u` along an axis of `n` cells: wrapped
/// on a periodic axis, unchanged otherwise.
pub open spec fn axis_step(n: int, periodic: bool, u: int, d: int) -> int {
    if periodic { (u + d) % n } else { u + d }
}

/// Coordinates `u` and `v` differ by at most one along an axis of `n`
/// cells, counted modulo `n` on a periodic axis.
pub open spec fn axis_adjacent(n: int, periodic: bool, u: int, v: int) -> bool {
    exists|d: int| -1 <= d <= 1 && #[trigger] axis_step(n, periodic, u, d) == v
}

/// On an axis, the boundary rule takes `u + d` to `v` exactly when one step
/// `d` from `u` is `v`.
proof fn lemma_wrapped_is_step(dims: [usize; 3], periodic: [bool; 3], axis: int, u: int, d: int, v: int)
    requires
        0 <= axis < 3,
        dims[axis] >= 1,
        0 <= v < dims[axis],
    ensures
        grid_wrapped_coord(dims, periodic, axis, u + d) == Some(v)
            <==> axis_step(dims[axis] as int, periodic[axis], u, d) == v,
{
}

/// Stepping back along `o` from the cell that `v + o` reaches along one
/// axis returns to `v`.
proof fn lemma_wrap_back(dims: [usize; 3], periodic: [bool; 3], axis: int, v: int, o: int, w: int)
    requires
        0 <= axis < 3,
        dims[axis] >= 1,
        0 <= v < dims[axis],
        grid_wrapped_coord(dims, periodic, axis, v + o) == Some(w),
    ensures
        0 <= w < dims[axis],
        grid_wrapped_coord(dims, periodic, axis, w - o) == Some(v),
{
    let n = dims[axis] as int;
    if periodic[axis] {
        let t = v + o;
        lemma_fundamental_div_mod(t, n);
        assert(0 <= w < n) by (nonlinear_arith)
            requires n >= 1, w == t % n;
        assert(w - o == n * (-(t / n)) + v) by (nonlinear_arith)
            requires t == n * (t / n) + w, t == v + o;
        lemma_mod_multiples_vanish(-(t / n), v, n);
        lemma_small_mod(v as nat, n as nat);
    }
}

/// Of two cells of a grid, each is a neighbour of the other or neither is:
/// the neighbour relation that the table is built from is symmetric.
pub proof fn lemma_grid_neighbours_symmetric(
    dims: [usize; 3],
    periodic: [bool; 3],
    x1: int,
    y1: int,
    z1: int,
    x2: int,
    y2: int,
    z2: int,
)
    requires
        dims[0] >= 1,
        dims[1] >= 1,
        dims[2] >= 1,
        dims[0] * dims[1] * dims[2] < usize::MAX,
        0 <= x1 < dims[0],
        0 <= y1 < dims[1],
        0 <= z1 < dims[2],
        0 <= x2 < dims[0],
        0 <= y2 < dims[1],
        0 <= z2 < dims[2],
        grid_neighbours(dims, periodic, x1, y1, z1).contains(grid_flat_index(dims, x2, y2, z2) as usize),
    ensures
        grid_neighbours(dims, periodic, x2, y2, z2).contains(grid_flat_index(dims, x1, y1, z1) as usize),
{
    let (nx, ny, nz) = (dims[0] as int, dims[1] as int, dims[2] as int);
    let a = grid_flat_index(dims, x1, y1, z1);
    let b = grid_flat_index(dims, x2, y2, z2);
    lemma_flat_index_bounds(nx, ny, nz, x1, y1, z1);
    lemma_flat_index_bounds(nx, ny, nz, x2, y2, z2);
    let cands1 = neighbour_offsets().map_values(
        |o: (int, int, int)| grid_neighbour_index(dims, periodic, x1, y1, z1, o),
    );
    let cands2 = neighbour_offsets().map_values(
        |o: (int, int, int)| grid_neighbour_index(dims, periodic, x2, y2, z2, o),
    );
    let found = collect_unique(cands1, a as usize);
    lemma_collect_unique(cands1, a as usize);
    lemma_collect_unique(cands2, b as usize);
    let k = choose|k: int| 0 <= k < found.len() && found[k] == b as usize;
    assert(cands1.contains(found[k]));
    assert(b as usize != a as usize);
    let q = choose|q: int| 0 <= q < cands1.len() && cands1[q] == b as usize;
    let o = neighbour_offsets()[q];
    assert(grid_neighbour_index(dims, periodic, x1, y1, z1, o) == b as usize);
    let wx = grid_wrapped_coord(dims, periodic, 0, x1 + o.0);
    let wy = grid_wrapped_coord(dims, periodic, 1, y1 + o.1);
    let wz = grid_wrapped_coord(dims, periodic, 2, z1 + o.2);
    assert(wx is Some && wy is Some && wz is Some);
    let (u, v, w) = (wx->0, wy->0, wz->0);
    lemma_wrap_back(dims, periodic, 0, x1, o.0, u);
    lemma_wrap_back(dims, periodic, 1, y1, o.1, v);
    lemma_wrap_back(dims, periodic, 2, z1, o.2, w);
    lemma_flat_index_bounds(nx, ny, nz, u, v, w);
    assert(grid_flat_index(dims, u, v, w) == b);
    lemma_flat_index_injective(nx, ny, u, v, w, x2, y2, z2);
    lemma_opposite_listed(q);
    let q2 = opposite_position(q);
    let o2 = neighbour_offsets()[q2];
    assert(o2 == opposite(o));
    assert(x2 + o2.0 == u - o.0 && y2 + o2.1 == v - o.1 && z2 + o2.2 == w - o.2);
    assert(cands2[q2] == grid_neighbour_index(dims, periodic, x2, y2, z2, o2));
    assert(cands2[q2] == a as usize);
    assert(cands2.contains(a as usize));
}

/// The neighbours of a cell are exactly the other cells whose coordinates
/// differ from its own by at most one along every axis, counted modulo the
/// number of cells on a periodic axis.
pub proof fn lemma_grid_neighbours_exact(
    dims: [usize; 3],
    periodic: [bool; 3],
    x1: int,
    y1: int,
    z1: int,
    x2: int,
    y2: int,
    z2: int,
)
    requires
        dims[0] >= 1,
        dims[1] >= 1,
        dims[2] >= 1,
        dims[0] * dims[1] * dims[2] < usize::MAX,
        0 <= x1 < dims[0],
        0 <= y1 < dims[1],
        0 <= z1 < dims[2],
        0 <= x2 < dims[0],
        0 <= y2 < dims[1],
        0 <= z2 < dims[2],
    ensures
        grid_neighbours(dims, periodic, x1, y1, z1).contains(grid_flat_index(dims, x2, y2, z2) as usize) <==> {
            &&& (x1, y1, z1) != (x2, y2, z2)
            &&& axis_adjacent(dims[0] as int, periodic[0], x1, x2)
            &&& axis_adjacent(dims[1] as int, periodic[1], y1, y2)
            &&& axis_adjacent(dims[2] as int, periodic[2], z1, z2)
        },
{
    let (nx, ny, nz) = (dims[0] as int, dims[1] as int, dims[2] as int);
    let a = grid_flat_index(dims, x1, y1, z1);
    let b = grid_flat_index(dims, x2, y2, z2);
    lemma_flat_index_bounds(nx, ny, nz, x1, y1, z1);
    lemma_flat_index_bounds(nx, ny, nz, x2, y2, z2);
    let cands = neighbour_offsets().map_values(
        |o: (int, int, int)| grid_neighbour_index(dims, periodic, x1, y1, z1, o),
    );
    let found = collect_unique(cands, a as usize);
    lemma_collect_unique(cands, a as usize);
    if a == b {
        lemma_flat_index_injective(nx, ny, x1, y1, z1, x2, y2, z2);
    }
    if found.contains(b as usize) {
        let k = choose|k: int| 0 <= k < found.len() && found[k] == b as usize;
        assert(cands.contains(found[k]));
        let q = choose|q: int| 0 <= q < cands.len() && cands[q] == b as usize;
        let o = neighbour_offsets()[q];
        lemma_offsets_are_the_unit_steps(q, o);
        assert(grid_neighbour_index(dims, periodic, x1, y1, z1, o) == b as usize);
        let wx = grid_wrapped_coord(dims, periodic, 0, x1 + o.0);
        let wy = grid_wrapped_coord(dims, periodic, 1, y1 + o.1);
        let wz = grid_wrapped_coord(dims, periodic, 2, z1 + o.2);
        assert(wx is Some && wy is Some && wz is Some);
        let (u, v, w) = (wx->0, wy->0, wz->0);
        lemma_wrap_back(dims, periodic, 0, x1, o.0, u);
        lemma_wrap_back(dims, periodic, 1, y1, o.1, v);
        lemma_wrap_back(dims, periodic, 2, z1, o.2, w);
        lemma_flat_index_bounds(nx, ny, nz, u, v, w);
        lemma_flat_index_injective(nx, ny, u, v, w, x2, y2, z2);
        lemma_wrapped_is_step(dims, periodic, 0, x1, o.0, x2);
        lemma_wrapped_is_step(dims, periodic, 1, y1, o.1, y2);
        lemma_wrapped_is_step(dims, periodic, 2, z1, o.2, z2);
        assert(axis_step(nx, periodic[0], x1, o.0) == x2);
        assert(axis_step(ny, periodic[1], y1, o.1) == y2);
        assert(axis_step(nz, periodic[2], z1, o.2) == z2);
    }
    if (x1, y1, z1) != (x2, y2, z2) && axis_adjacent(nx, periodic[0], x1, x2)
        && axis_adjacent(ny, periodic[1], y1, y2) && axis_adjacent(nz, periodic[2], z1, z2) {
        let dx = choose|d: int| -1 <= d <= 1 && #[trigger] axis_step(nx, periodic[0], x1, d) == x2;
        let dy = choose|d: int| -1 <= d <= 1 && #[trigger] axis_step(ny, periodic[1], y1, d) == y2;
        let dz = choose|d: int| -1 <= d <= 1 && #[trigger] axis_step(nz, periodic[2], z1, d) == z2;
        lemma_wrapped_is_step(dims, periodic, 0, x1, dx, x2);
        lemma_wrapped_is_step(dims, periodic, 1, y1, dy, y2);
        lemma_wrapped_is_step(dims, periodic, 2, z1, dz, z2);
        let o = (dx, dy, dz);
        if o == (0int, 0int, 0int) {
            lemma_small_mod(x1 as nat, nx as nat);
            lemma_small_mod(y1 as nat, ny as nat);
            lemma_small_mod(z1 as nat, nz as nat);
            assert(false);
        }
        lemma_offsets_are_the_unit_steps(0, o);
        let q = offset_position(o);
        assert(grid_neighbour_index(dims, periodic, x1, y1, z1, o) == b as usize);
        assert(cands[q] == b as usize);
        assert(cands.contains(b as usize));
        if a == b {
            assert(false);
        }
    }
}

impl CellGrid {
    /// In a grid whose neighbour table is built, the table entry of cell `c`
    /// lists cell `d` exactly when `d` is another cell whose coordinates
    /// differ from those of `c` by at most one along every axis (modulo the
    /// number of cells on a periodic axis).
    pub proof fn lemma_neighbour_table_exact(self, x1: int, y1: int, z1: int, x2: int, y2: int, z2: int)
        requires
            self.dims_ok(),
            self.neighbour_table_ok(),
            0 <= x1 < self.nx(),
            0 <= y1 < self.ny(),
            0 <= z1 < self.nz(),
            0 <= x2 < self.nx(),
            0 <= y2 < self.ny(),
            0 <= z2 < self.nz(),
        ensures
            self.neighbour_table@[self.flat_index(x1, y1, z1)]@.contains(self.flat_index(x2, y2, z2) as usize) <==> {
                &&& (x1, y1, z1) != (x2, y2, z2)
                &&& axis_adjacent(self.nx(), self.periodic[0], x1, x2)
                &&& axis_adjacent(self.ny(), self.periodic[1], y1, y2)
                &&& axis_adjacent(self.nz(), self.periodic[2], z1, z2)
            },
    {
        assert(self.neighbour_table@[grid_flat_index(self.num_cells, x1, y1, z1)]@
            == grid_neighbours(self.num_cells, self.periodic, x1, y1, z1));
        lemma_grid_neighbours_exact(self.num_cells, self.periodic, x1, y1, z1, x2, y2, z2);
    }
}

impl CellGrid {
    /// In a grid whose neighbour table is built, cell `c` lists cell `d` as a
    /// neighbour exactly when `d` lists `c`.
    pub proof fn lemma_neighbour_table_symmetric(self, c: int, d: int)
        requires
            self.dims_ok(),
            self.neighbour_table_ok(),
            0 <= c < self.total_cells(),
            0 <= d < self.total_cells(),
        ensures
            self.neighbour_table@[c]@.contains(d as usize) <==> self.neighbour_table@[d]@.contains(c as usize),
    {
        let (x1, y1, z1) = lemma_cell_coords(self.nx(), self.ny(), self.nz(), c);
        let (x2, y2, z2) = lemma_cell_coords(self.nx(), self.ny(), self.nz(), d);
        assert(grid_flat_index(self.num_cells, x1, y1, z1) == c);
        assert(grid_flat_index(self.num_cells, x2, y2, z2) == d);
        assert(self.neighbour_table@[c]@ == grid_neighbours(self.num_cells, self.periodic, x1, y1, z1));
        assert(self.neighbour_table@[d]@ == grid_neighbours(self.num_cells, self.periodic, x2, y2, z2));
        if self.neighbour_table@[c]@.contains(d as usize) {
            lemma_grid_neighbours_symmetric(self.num_cells, self.periodic, x1, y1, z1, x2, y2, z2);
        }
        if self.neighbour_table@[d]@.contains(c as usize) {
            lemma_grid_neighbours_symmetric(self.num_cells, self.periodic, x2, y2, z2, x1, y1, z1);
        }
    }
}

/// An entry is kept by the pair test exactly when it is a candidate that the
/// test accepts.
pub proof fn lemma_accepted_contains<F: Fn(usize, usize) -> bool>(f: F, i: usize, s: Seq<usize>, j: usize)
    ensures
        accepted(f, i, s).contains(j) <==> (s.contains(j) && call_ensures(f, (i, j), true)),
    decreases s.len(),
{
    if s.len() > 0 {
        lemma_accepted_contains(f, i, s.drop_last(), j);
        let prev = accepted(f, i, s.drop_last());
        if accepted(f, i, s).contains(j) {
            let k = choose|k: int| 0 <= k < accepted(f, i, s).len() && accepted(f, i, s)[k] == j;
            if k < prev.len() {
                assert(prev[k] == j);
                let q = choose|q: int| 0 <= q < s.drop_last().len() && s.drop_last()[q] == j;
                assert(s[q] == j);
            } else {
                assert(s[s.len() - 1] == j);
            }
        }
        if s.contains(j) && call_ensures(f, (i, j), true) {
            let q = choose|q: int| 0 <= q < s.len() && s[q] == j;
            if q < s.len() - 1 {
                assert(s.drop_last()[q] == j);
                let k = choose|k: int| 0 <= k < prev.len() && prev[k] == j;
                assert(accepted(f, i, s)[k] == j);
            } else {
                assert(accepted(f, i, s)[prev.len() as int] == j);
            }
        }
    }
}

/// The particles of cell `c` are exactly those whose cell is `c`.
pub proof fn lemma_cell_members_contains(cells: Seq<usize>, c: int, j: usize)
    requires
        cells.len() <= usize::MAX,
    ensures
        cell_members_of(cells, c).contains(j) <==> (j < cells.len() && cells[j as int] == c),
{
    let n = cells.len() as int;
    lemma_members_facts(cells, c, n);
    if j < cells.len() && cells[j as int] == c {
        lemma_member_of_own_cell(cells, j as int, n);
    }
}

/// The particles stored for a list of cells are those stored for one of its cells.
pub proof fn lemma_cells_members_contains(offs: Seq<usize>, ids: Seq<usize>, list: Seq<usize>, j: usize)
    ensures
        cells_members(offs, ids, list).contains(j) <==> exists|k: int|
            0 <= k < list.len() && #[trigger] cell_segment(offs, ids, list[k] as int).contains(j),
    decreases list.len(),
{
    if list.len() > 0 {
        let head = list.drop_last();
        lemma_cells_members_contains(offs, ids, head, j);
        let a = cells_members(offs, ids, head);
        let b = cell_segment(offs, ids, list.last() as int);
        let all = cells_members(offs, ids, list);
        assert(all == a + b);
        if all.contains(j) {
            let r = choose|r: int| 0 <= r < all.len() && all[r] == j;
            if r < a.len() {
                assert(a[r] == j);
                let k = choose|k: int| 0 <= k < head.len() && #[trigger] cell_segment(offs, ids, head[k] as int).contains(j);
                assert(list[k] == head[k]);
            } else {
                assert(b[r - a.len()] == j);
                assert(cell_segment(offs, ids, list[list.len() - 1] as int).contains(j));
            }
        }
        if exists|k: int| 0 <= k < list.len() && #[trigger] cell_segment(offs, ids, list[k] as int).contains(j) {
            let k = choose|k: int| 0 <= k < list.len() && #[trigger] cell_segment(offs, ids, list[k] as int).contains(j);
            if k < list.len() - 1 {
                assert(head[k] == list[k]);
                let r = choose|r: int| 0 <= r < a.len() && a[r] == j;
                assert(all[r] == j);
            } else {
                let r = choose|r: int| 0 <= r < b.len() && b[r] == j;
                assert(all[a.len() + r] == j);
            }
        }
    }
}

impl CellGrid {
    /// After binning `cells`, the candidates of cell `c` are the particles of
    /// `c` and of the cells its table entry lists.
    pub proof fn lemma_candidates_contains(self, cells: Seq<usize>, c: int, j: usize)
        requires
            self.dims_ok(),
            self.table_valid(),
            self.binned(cells),
            cells.len() <= usize::MAX,
            0 <= c < self.total_cells(),
        ensures
            self.candidates(c).contains(j) <==> (j < cells.len() && (cells[j as int] == c
                || self.neighbour_table@[c]@.contains(cells[j as int]))),
    {
        let offs = self.cell_offsets@;
        let ids = self.cell_particle_ids@;
        let list = self.neighbour_table@[c]@;
        let own = cell_segment(offs, ids, c);
        let others = cells_members(offs, ids, list);
        assert(self.candidates(c) == own + others);
        assert(own == cell_members_of(cells, c));
        lemma_cell_members_contains(cells, c, j);
        lemma_cells_members_contains(offs, ids, list, j);
        if self.candidates(c).contains(j) {
            let r = choose|r: int| 0 <= r < (own + others).len() && (own + others)[r] == j;
            if r < own.len() {
                assert(own[r] == j);
            } else {
                assert(others[r - own.len()] == j);
                let k = choose|k: int| 0 <= k < list.len() && #[trigger] cell_segment(offs, ids, list[k] as int).contains(j);
                assert(list[k] < self.total_cells());
                lemma_cell_members_contains(cells, list[k] as int, j);
                assert(list.contains(cells[j as int]));
            }
        }
        if j < cells.len() && cells[j as int] == c {
            let r = choose|r: int| 0 <= r < own.len() && own[r] == j;
            assert((own + others)[r] == j);
        }
        if j < cells.len() && list.contains(cells[j as int]) {
            let k = choose|k: int| 0 <= k < list.len() && list[k] == cells[j as int];
            assert(list[k] < self.total_cells());
            lemma_cell_members_contains(cells, list[k] as int, j);
            assert(cell_segment(offs, ids, list[k] as int).contains(j));
            let r = choose|r: int| 0 <= r < others.len() && others[r] == j;
            assert((own + others)[own.len() + r] == j);
        }
    }

    /// After the lists are built from `cells` with the pair test `f`,
    /// particle `j` is in the Verlet list of particle `i` exactly when `f`
    /// accepts the pair and `j` lies in the cell of `i` or in one of its
    /// neighbouring cells.
    pub proof fn lemma_verlet_list_contains<F: Fn(usize, usize) -> bool>(
        self,
        f: F,
        cells: Seq<usize>,
        i: int,
        j: usize,
    )
        requires
            self.dims_ok(),
            self.neighbour_table_ok(),
            self.binned(cells),
            cells.len() <= usize::MAX,
            forall|k: int| 0 <= k < cells.len() ==> #[trigger] cells[k] < self.total_cells(),
            forall|k: int| 0 <= k < cells.len() ==>
                #[trigger] self.verlet_list(k) == accepted(f, k as usize, self.candidates(cells[k] as int)),
            0 <= i < cells.len(),
        ensures
            self.verlet_list(i).contains(j) <==> (j < cells.len() && call_ensures(f, (i as usize, j), true) && (
                cells[j as int] == cells[i] || self.neighbour_table@[cells[i] as int]@.contains(cells[j as int]))),
    {
        self.lemma_neighbour_table_valid();
        assert(self.verlet_list(i) == accepted(f, i as usize, self.candidates(cells[i] as int)));
        lemma_accepted_contains(f, i as usize, self.candidates(cells[i] as int), j);
        self.lemma_candidates_contains(cells, cells[i] as int, j);
    }

    /// With a pair test that answers the same for `(i, j)` and `(j, i)`, the
    /// Verlet lists are mutual: `j` is in the list of `i` exactly when `i` is
    /// in the list of `j`.
    pub proof fn lemma_verlet_lists_mutual<F: Fn(usize, usize) -> bool>(
        self,
        f: F,
        cells: Seq<usize>,
        i: int,
        j: int,
    )
        requires
            self.dims_ok(),
            self.neighbour_table_ok(),
            self.binned(cells),
            cells.len() <= usize::MAX,
            forall|k: int| 0 <= k < cells.len() ==> #[trigger] cells[k] < self.total_cells(),
            forall|k: int| 0 <= k < cells.len() ==>
                #[trigger] self.verlet_list(k) == accepted(f, k as usize, self.candidates(cells[k] as int)),
            forall|a: usize, b: usize| #[trigger] call_ensures(f, (a, b), true) == call_ensures(f, (b, a), true),
            0 <= i < cells.len(),
            0 <= j < cells.len(),
        ensures
            self.verlet_list(i).contains(j as usize) <==> self.verlet_list(j).contains(i as usize),
    {
        self.lemma_verlet_list_contains(f, cells, i, j as usize);
        self.lemma_verlet_list_contains(f, cells, j, i as usize);
        assert(call_ensures(f, (i as usize, j as usize), true) == call_ensures(f, (j as usize, i as usize), true));
        self.lemma_neighbour_table_valid();
        if cells[i] != cells[j] {
            self.lemma_neighbour_table_symmetric(cells[i] as int, cells[j] as int);
        }
    }
}

/// Keeping the entries a pair test accepts keeps them distinct.
pub proof fn lemma_accepted_distinct<F: Fn(usize, usize) -> bool>(f: F, i: usize, s: Seq<usize>)
    requires
        s.no_duplicates(),
    ensures
        accepted(f, i, s).no_duplicates(),
    decreases s.len(),
{
    if s.len() > 0 {
        let head = s.drop_last();
        assert(head.no_duplicates());
        lemma_accepted_distinct(f, i, head);
        let prev = accepted(f, i, head);
        if call_ensures(f, (i, s.last()), true) {
            lemma_accepted_contains(f, i, head, s.last());
            if head.contains(s.last()) {
                let q = choose|q: int| 0 <= q < head.len() && head[q] == s.last();
                assert(s[q] == s[s.len() - 1]);
            }
            let cur = prev.push(s.last());
            assert forall|a: int, b: int| 0 <= a < cur.len() && 0 <= b < cur.len() && a != b implies cur[a] != cur[b] by {
                if a < prev.len() && b < prev.len() {
                } else if a < prev.len() {
                    assert(prev.contains(cur[a]));
                } else {
                    assert(prev.contains(cur[b]));
                }
            }
        }
    }
}

/// A list of distinct particle indices below `n` has at most `n` entries.
pub proof fn lemma_distinct_below_len(s: Seq<usize>, n: nat)
    requires
        s.no_duplicates(),
        forall|k: int| 0 <= k < s.len() ==> #[trigger] s[k] < n,
    ensures
        s.len() <= n,
{
    let t = s.map_values(|x: usize| x as int);
    assert(t.no_duplicates());
    t.unique_seq_to_set();
    lemma_int_range(0, n as int);
    assert forall|x: int| t.to_set().contains(x) implies set_int_range(0, n as int).contains(x) by {
        let k = choose|k: int| 0 <= k < t.len() && t[k] == x;
        assert(s[k] < n);
    }
    lemma_len_subset(t.to_set(), set_int_range(0, n as int));
}

/// The particles of one cell are distinct.
proof fn lemma_cell_members_distinct(cells: Seq<usize>, c: int)
    requires
        cells.len() <= usize::MAX,
    ensures
        cell_members_of(cells, c).no_duplicates(),
{
    lemma_members_facts(cells, c, cells.len() as int);
    let m = cell_members_of(cells, c);
    assert forall|a: int, b: int| 0 <= a < m.len() && 0 <= b < m.len() && a != b implies m[a] != m[b] by {
        if a < b {
            assert(m[a] < m[b]);
        } else {
            assert(m[b] < m[a]);
        }
    }
}

/// With the particles laid out by cell, the particles stored for a list of
/// distinct cells are distinct, and each lies in one of the listed cells.
proof fn lemma_cells_members_distinct(offs: Seq<usize>, ids: Seq<usize>, total: int, cells: Seq<usize>, list: Seq<usize>)
    requires
        binned_layout(offs, ids, total, cells),
        cells.len() <= usize::MAX,
        list.no_duplicates(),
        forall|k: int| 0 <= k < list.len() ==> 0 <= #[trigger] list[k] < total,
    ensures
        cells_members(offs, ids, list).no_duplicates(),
        forall|k: int| 0 <= k < cells_members(offs, ids, list).len() ==> {
            let x = #[trigger] cells_members(offs, ids, list)[k];
            x < cells.len() && list.contains(cells[x as int])
        },
    decreases list.len(),
{
    if list.len() > 0 {
        let head = list.drop_last();
        let last = list.last();
        assert(head.no_duplicates());
        lemma_cells_members_distinct(offs, ids, total, cells, head);
        let a = cells_members(offs, ids, head);
        let b = cell_segment(offs, ids, last as int);
        let all = cells_members(offs, ids, list);
        assert(all == a + b);
        assert(b == cell_members_of(cells, last as int));
        lemma_cell_members_distinct(cells, last as int);
        lemma_members_facts(cells, last as int, cells.len() as int);
        assert forall|k: int| 0 <= k < all.len() implies {
            let x = #[trigger] all[k];
            x < cells.len() && list.contains(cells[x as int])
        } by {
            if k < a.len() {
                assert(all[k] == a[k]);
                let r = choose|r: int| 0 <= r < head.len() && head[r] == cells[a[k] as int];
                assert(list[r] == head[r]);
            } else {
                assert(all[k] == b[k - a.len()]);
                assert(list[list.len() - 1] == last);
            }
        }
        assert forall|p: int, q: int| 0 <= p < all.len() && 0 <= q < all.len() && p != q implies all[p] != all[q] by {
            if p < a.len() && q < a.len() {
                assert(all[p] == a[p] && all[q] == a[q]);
            } else if p >= a.len() && q >= a.len() {
                assert(all[p] == b[p - a.len()] && all[q] == b[q - a.len()]);
            } else {
                let (u, w) = if p < a.len() { (p, q) } else { (q, p) };
                assert(all[u] == a[u]);
                assert(all[w] == b[w - a.len()]);
                assert(cells[all[w] as int] == last);
                if all[u] == all[w] {
                    let r = choose|r: int| 0 <= r < head.len() && head[r] == cells[a[u] as int];
                    assert(list[r] == list[list.len() - 1]);
                }
            }
        }
    }
}

/// With the particles laid out by cell, the candidates of cell `c` are
/// distinct particles below `cells.len()` when its table entry lists
/// distinct other cells.
proof fn lemma_cell_candidates_distinct(
    offs: Seq<usize>,
    ids: Seq<usize>,
    table: Seq<Vec<usize>>,
    total: int,
    cells: Seq<usize>,
    c: int,
)
    requires
        binned_layout(offs, ids, total, cells),
        cells.len() <= usize::MAX,
        0 <= c < total,
        table[c]@.no_duplicates(),
        !table[c]@.contains(c as usize),
        forall|k: int| 0 <= k < table[c]@.len() ==> 0 <= #[trigger] table[c]@[k] < total,
    ensures
        cell_candidates(offs, ids, table, c).no_duplicates(),
        forall|k: int| 0 <= k < cell_candidates(offs, ids, table, c).len() ==>
            #[trigger] cell_candidates(offs, ids, table, c)[k] < cells.len(),
{
    let list = table[c]@;
    lemma_cells_members_distinct(offs, ids, total, cells, list);
    let own = cell_segment(offs, ids, c);
    let others = cells_members(offs, ids, list);
    assert(own == cell_members_of(cells, c));
    lemma_cell_members_distinct(cells, c);
    lemma_members_facts(cells, c, cells.len() as int);
    let all = cell_candidates(offs, ids, table, c);
    assert(all == own + others);
    assert forall|k: int| 0 <= k < all.len() implies #[trigger] all[k] < cells.len() by {
        if k < own.len() {
            assert(all[k] == own[k]);
        } else {
            assert(all[k] == others[k - own.len()]);
        }
    }
    assert forall|p: int, q: int| 0 <= p < all.len() && 0 <= q < all.len() && p != q implies all[p] != all[q] by {
        if p < own.len() && q < own.len() {
            assert(all[p] == own[p] && all[q] == own[q]);
        } else if p >= own.len() && q >= own.len() {
            assert(all[p] == others[p - own.len()] && all[q] == others[q - own.len()]);
        } else {
            let (u, w) = if p < own.len() { (p, q) } else { (q, p) };
            assert(all[u] == own[u]);
            assert(all[w] == others[w - own.len()]);
            assert(cells[all[u] as int] == c);
            assert(list.contains(cells[all[w] as int]));
        }
    }
}

/// The particles of cells `0..c` in cell order number `count_before(c)`.
proof fn lemma_cells_order_len(cells: Seq<usize>, c: int)
    requires
        0 <= c,
    ensures
        cells_order(cells, c).len() == count_before(cells, c, cells.len() as int),
    decreases c,
{
    if c > 0 {
        lemma_cells_order_len(cells, c - 1);
    }
}

/// The cell order up to `c` begins the cell order up to any `t >= c`.
proof fn lemma_cells_order_prefix(cells: Seq<usize>, c: int, t: int)
    requires
        0 <= c <= t,
    ensures
        cells_order(cells, c).len() <= cells_order(cells, t).len(),
        cells_order(cells, t).subrange(0, cells_order(cells, c).len() as int) == cells_order(cells, c),
    decreases t,
{
    if c < t {
        lemma_cells_order_prefix(cells, c, t - 1);
        let p = cells_order(cells, t - 1);
        assert(cells_order(cells, t) == p + cell_members_of(cells, t - 1));
        assert(cells_order(cells, t).subrange(0, cells_order(cells, c).len() as int)
            =~= p.subrange(0, cells_order(cells, c).len() as int));
    } else {
        assert(cells_order(cells, t).subrange(0, cells_order(cells, t).len() as int) =~= cells_order(cells, t));
    }
}

/// Sorting the particles by their cells gives the layout that binning stores.
pub proof fn lemma_bin_layout(cells: Seq<usize>, total: int)
    requires
        0 <= total,
        cells.len() <= usize::MAX,
        forall|k: int| 0 <= k < cells.len() ==> #[trigger] cells[k] < total,
    ensures
        binned_layout(bin_offsets(cells, total), bin_ids(cells, total), total, cells),
{
    let n = cells.len() as int;
    let offs = bin_offsets(cells, total);
    let ids = bin_ids(cells, total);
    assert forall|c: int| 0 <= c <= total implies #[trigger] offs[c] == cells_before(cells, c) by {
        lemma_count_before_bound(cells, c, n);
    }
    lemma_count_before_bound(cells, total, n);
    lemma_cells_order_len(cells, total);
    assert forall|c: int| 0 <= c < total implies #[trigger] cell_segment(offs, ids, c) == cell_members_of(cells, c) by {
        lemma_count_before_bound(cells, c, n);
        lemma_count_before_bound(cells, c + 1, n);
        lemma_cells_order_len(cells, c);
        lemma_cells_order_len(cells, c + 1);
        lemma_cells_order_prefix(cells, c + 1, total);
        let lo = cells_order(cells, c).len() as int;
        let hi = cells_order(cells, c + 1).len() as int;
        assert(cells_order(cells, c + 1) == cells_order(cells, c) + cell_members_of(cells, c));
        assert(ids.subrange(lo, hi) =~= cells_order(cells, c + 1).subrange(lo, hi));
    }
}

impl CellGrid {
    /// The table entry of cell `c` lists distinct cells of the grid other than `c`.
    proof fn lemma_table_entry_facts(self, c: int)
        requires
            self.dims_ok(),
            self.neighbour_table_ok(),
            0 <= c < self.total_cells(),
        ensures
            self.neighbour_table@[c]@.no_duplicates(),
            !self.neighbour_table@[c]@.contains(c as usize),
            forall|k: int| 0 <= k < self.neighbour_table@[c]@.len() ==>
                0 <= #[trigger] self.neighbour_table@[c]@[k] < self.total_cells(),
    {
        self.lemma_neighbour_table_valid();
        let (x, y, z) = lemma_cell_coords(self.nx(), self.ny(), self.nz(), c);
        assert(grid_flat_index(self.num_cells, x, y, z) == c);
        let list = self.neighbour_table@[c]@;
        assert(list == grid_neighbours(self.num_cells, self.periodic, x, y, z));
        let cands = neighbour_offsets().map_values(
            |o: (int, int, int)| grid_neighbour_index(self.num_cells, self.periodic, x, y, z, o),
        );
        lemma_collect_unique(cands, c as usize);
        if list.contains(c as usize) {
            let k = choose|k: int| 0 <= k < list.len() && list[k] == c as usize;
        }
    }

    /// After binning `cells`, the candidates of a cell are distinct
    /// particles below `cells.len()`.
    pub proof fn lemma_candidates_distinct(self, cells: Seq<usize>, c: int)
        requires
            self.dims_ok(),
            self.neighbour_table_ok(),
            self.binned(cells),
            cells.len() <= usize::MAX,
            0 <= c < self.total_cells(),
        ensures
            self.candidates(c).no_duplicates(),
            forall|k: int| 0 <= k < self.candidates(c).len() ==> #[trigger] self.candidates(c)[k] < cells.len(),
    {
        self.lemma_table_entry_facts(c);
        lemma_cell_candidates_distinct(
            self.cell_offsets@, self.cell_particle_ids@, self.neighbour_table@, self.total_cells(), cells, c);
    }

    /// Binning `cells` and building the lists stores at most `cells.len()`
    /// squared Verlet entries in all, whatever the pair test: the bound on
    /// the storage that `rebuild` asks of its caller.
    pub proof fn lemma_verlet_total_bound<F: Fn(usize, usize) -> bool>(self, f: F, cells: Seq<usize>)
        requires
            self.dims_ok(),
            self.neighbour_table_ok(),
            cells.len() <= usize::MAX,
            forall|k: int| 0 <= k < cells.len() ==> #[trigger] cells[k] < self.total_cells(),
        ensures
            verlet_sum(
                f,
                bin_offsets(cells, self.total_cells()),
                bin_ids(cells, self.total_cells()),
                self.neighbour_table@,
                self.total_cells(),
                cells.len() as int,
            ) <= cells.len() * cells.len(),
    {
        lemma_bin_layout(cells, self.total_cells());
        self.lemma_verlet_sum_below(f, cells, cells.len() as int);
    }

    proof fn lemma_verlet_sum_below<F: Fn(usize, usize) -> bool>(self, f: F, cells: Seq<usize>, k: int)
        requires
            self.dims_ok(),
            self.neighbour_table_ok(),
            cells.len() <= usize::MAX,
            forall|j: int| 0 <= j < cells.len() ==> #[trigger] cells[j] < self.total_cells(),
            binned_layout(bin_offsets(cells, self.total_cells()), bin_ids(cells, self.total_cells()), self.total_cells(), cells),
            0 <= k <= cells.len(),
        ensures
            verlet_sum(
                f,
                bin_offsets(cells, self.total_cells()),
                bin_ids(cells, self.total_cells()),
                self.neighbour_table@,
                self.total_cells(),
                k,
            ) <= k * cells.len(),
        decreases k,
    {
        let n = cells.len() as int;
        let total = self.total_cells();
        let offs = bin_offsets(cells, total);
        let ids = bin_ids(cells, total);
        let table = self.neighbour_table@;
        if k > 0 {
            self.lemma_verlet_sum_below(f, cells, k - 1);
            let i = k - 1;
            let c = cell_containing(offs, ids, total, i);
            lemma_member_of_own_cell(cells, i, n);
            assert(cell_segment(offs, ids, cells[i] as int).contains(i as usize));
            assert(0 <= c < total && cell_segment(offs, ids, c).contains(i as usize));
            self.lemma_table_entry_facts(c);
            lemma_cell_candidates_distinct(offs, ids, table, total, cells, c);
            let t = verlet_target(f, offs, ids, table, total, i);
            lemma_accepted_distinct(f, i as usize, cell_candidates(offs, ids, table, c));
            assert forall|r: int| 0 <= r < t.len() implies #[trigger] t[r] < n by {
                lemma_accepted_contains(f, i as usize, cell_candidates(offs, ids, table, c), t[r]);
                assert(t.contains(t[r]));
            }
            lemma_distinct_below_len(t, n as nat);
            assert(k * n == (k - 1) * n + n) by (nonlinear_arith);
        }
    }

    /// After the lists are built from `cells`, each Verlet list names
    /// distinct particles, so it has at most `cells.len()` entries and all
    /// the lists together at most `cells.len()` squared.
    pub proof fn lemma_verlet_list_distinct<F: Fn(usize, usize) -> bool>(self, f: F, cells: Seq<usize>, i: int)
        requires
            self.dims_ok(),
            self.neighbour_table_ok(),
            self.binned(cells),
            cells.len() <= usize::MAX,
            forall|k: int| 0 <= k < cells.len() ==> #[trigger] cells[k] < self.total_cells(),
            forall|k: int| 0 <= k < cells.len() ==>
                #[trigger] self.verlet_list(k) == accepted(f, k as usize, self.candidates(cells[k] as int)),
            0 <= i < cells.len(),
        ensures
            self.verlet_list(i).no_duplicates(),
            forall|k: int| 0 <= k < self.verlet_list(i).len() ==> #[trigger] self.verlet_list(i)[k] < cells.len(),
            self.verlet_list(i).len() <= cells.len(),
    {
        let c = cells[i] as int;
        self.lemma_candidates_distinct(cells, c);
        let l = self.verlet_list(i);
        assert(l == accepted(f, i as usize, self.candidates(c)));
        lemma_accepted_distinct(f, i as usize, self.candidates(c));
        assert forall|k: int| 0 <= k < l.len() implies #[trigger] l[k] < cells.len() by {
            lemma_accepted_contains(f, i as usize, self.candidates(c), l[k]);
            assert(l.contains(l[k]));
        }
        lemma_distinct_below_len(l, cells.len());
    }
}

} // verus!
