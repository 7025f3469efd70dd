use vstd::prelude::*;
use crate::cell_lists::{
    cell_members_of, cells_before, lemma_count_before_bound, lemma_count_before_monotone,
    lemma_count_before_zero, lemma_members_len, lemma_members_prefix, members_upto,
    lemma_members_facts, lemma_member_of_own_cell, accepted, decides_pairs, lemma_accepted_append,
    lemma_accepted_len, bin_offsets, bin_ids, cells_order,
};

verus! {

/// Spatial hashing grid with compressed (CSR) cell and Verlet neighbour storage.
///
/// Cells are numbered `x + y * nx + z * nx * ny`. Each cell lists its distinct
/// neighbouring cells; `cell_offsets`/`cell_particle_ids` hold the particles of
/// every cell, and `verlet_offsets`/`verlet_particle_ids` the neighbour list of
/// every particle.
pub struct CellGrid {
    pub num_cells: [usize; 3],
    pub strides: [usize; 3],
    pub periodic: [bool; 3],
    pub neighbour_table: Vec<Vec<usize>>,
    pub cell_offsets: Vec<usize>,
    pub cell_particle_ids: Vec<usize>,
    pub verlet_offsets: Vec<usize>,
    pub verlet_particle_ids: Vec<usize>,
    pub counts: Vec<usize>,
    pub last_particle_count: usize,
}

/// The 26 directions to the cells around a cell, in the order in which they are searched.
pub open spec fn neighbour_offsets() -> Seq<(int, int, int)> {
    seq![
        (1, 0, 0), (-1, 0, 0), (0, 1, 0), (0, -1, 0), (0, 0, 1), (0, 0, -1),
        (1, 1, 0), (1, -1, 0), (-1, 1, 0), (-1, -1, 0),
        (1, 0, 1), (1, 0, -1), (-1, 0, 1), (-1, 0, -1),
        (0, 1, 1), (0, 1, -1), (0, -1, 1), (0, -1, -1),
        (1, 1, 1), (1, 1, -1), (1, -1, 1), (1, -1, -1),
        (-1, 1, 1), (-1, 1, -1), (-1, -1, 1), (-1, -1, -1)
    ]
}

/// The values of `s`, in order, leaving out `usize::MAX`, `exclude` and repeats.
pub open spec fn collect_unique(s: Seq<usize>, exclude: usize) -> Seq<usize>
    decreases s.len(),
{
    if s.len() == 0 {
        Seq::empty()
    } else {
        let prev = collect_unique(s.drop_last(), exclude);
        let v = s.last();
        if v != usize::MAX && v != exclude && !prev.contains(v) {
            prev.push(v)
        } else {
            prev
        }
    }
}


/// Flat index of `(x, y, z)` in a grid of dimensions `dims`.
pub open spec fn grid_flat_index(dims: [usize; 3], x: int, y: int, z: int) -> int {
    x + y * dims[0] + z * (dims[0] * dims[1])
}

/// Coordinate `v` along `axis` after the boundary rule: wrapped into the grid
/// on a periodic axis, kept if inside otherwise, and absent if outside.
pub open spec fn grid_wrapped_coord(dims: [usize; 3], periodic: [bool; 3], axis: int, v: int) -> Option<int> {
    let n = dims[axis] as int;
    if periodic[axis] {
        Some(v % n)
    } else if 0 <= v < n {
        Some(v)
    } else {
        None
    }
}

/// Flat index of the cell at offset `o` from `(x, y, z)`, or `usize::MAX`
/// where the offset leaves the grid along a non-periodic axis.
pub open spec fn grid_neighbour_index(
    dims: [usize; 3],
    periodic: [bool; 3],
    x: int,
    y: int,
    z: int,
    o: (int, int, int),
) -> usize {
    match (
        grid_wrapped_coord(dims, periodic, 0, x + o.0),
        grid_wrapped_coord(dims, periodic, 1, y + o.1),
        grid_wrapped_coord(dims, periodic, 2, z + o.2),
    ) {
        (Some(a), Some(b), Some(c)) => grid_flat_index(dims, a, b, c) as usize,
        _ => usize::MAX,
    }
}

/// The distinct neighbour cells of `(x, y, z)`, in search order.
pub open spec fn grid_neighbours(dims: [usize; 3], periodic: [bool; 3], x: int, y: int, z: int) -> Seq<usize> {
    collect_unique(
        neighbour_offsets().map_values(
            |o: (int, int, int)| grid_neighbour_index(dims, periodic, x, y, z, o),
        ),
        grid_flat_index(dims, x, y, z) as usize,
    )
}

/// The offsets rise from 0 to `ids.len()`, and the stored ids are the
/// particles `0..ids.len()`, each exactly once.
pub open spec fn cells_partition(offs: Seq<usize>, ids: Seq<usize>, total: int) -> bool {
    &&& offs.len() == total + 1
    &&& offs[0] == 0
    &&& offs[total] == ids.len()
    &&& forall|a: int, b: int| 0 <= a <= b <= total ==> #[trigger] offs[a] <= #[trigger] offs[b]
    &&& forall|p: int| 0 <= p < ids.len() ==> #[trigger] ids[p] < ids.len()
    &&& forall|p: int, q: int| 0 <= p < q < ids.len() ==> #[trigger] ids[p] != #[trigger] ids[q]
    &&& forall|i: int| 0 <= i < ids.len() ==> 0 <= #[trigger] cell_containing(offs, ids, total, i) < total
        && cell_segment(offs, ids, cell_containing(offs, ids, total, i)).contains(i as usize)
}

/// Every entry of the neighbour table names a cell below `total`.
pub open spec fn table_entries_valid(table: Seq<Vec<usize>>, total: int) -> bool {
    &&& table.len() == total
    &&& forall|c: int, k: int| 0 <= c < total && 0 <= k < table[c]@.len() ==> #[trigger] table[c]@[k] < total
}

/// Offsets and ids hold, for each cell, the particles whose cell index in
/// `cells` is that cell, in increasing order.
pub open spec fn binned_layout(offs: Seq<usize>, ids: Seq<usize>, total: int, cells: Seq<usize>) -> bool {
    &&& offs.len() == total + 1
    &&& ids.len() == cells.len()
    &&& forall|c: int| 0 <= c <= total ==> #[trigger] offs[c] == cells_before(cells, c)
    &&& forall|c: int| 0 <= c < total ==> #[trigger] cell_segment(offs, ids, c) == cell_members_of(cells, c)
}

/// The particles stored for cell `c`.
pub open spec fn cell_segment(offs: Seq<usize>, ids: Seq<usize>, c: int) -> Seq<usize> {
    ids.subrange(offs[c] as int, offs[c + 1] as int)
}

/// The cell whose stored particles include particle `i`.
pub open spec fn cell_containing(offs: Seq<usize>, ids: Seq<usize>, total: int, i: int) -> int {
    choose|c: int| 0 <= c < total && cell_segment(offs, ids, c).contains(i as usize)
}

/// The particles stored for the cells of `list`, cell after cell.
pub open spec fn cells_members(offs: Seq<usize>, ids: Seq<usize>, list: Seq<usize>) -> Seq<usize>
    decreases list.len(),
{
    if list.len() == 0 {
        Seq::empty()
    } else {
        cells_members(offs, ids, list.drop_last()) + cell_segment(offs, ids, list.last() as int)
    }
}

/// The particles of cell `c`, then those of its neighbours in table order.
pub open spec fn cell_candidates(offs: Seq<usize>, ids: Seq<usize>, table: Seq<Vec<usize>>, c: int) -> Seq<usize> {
    cell_segment(offs, ids, c) + cells_members(offs, ids, table[c]@)
}

/// The candidates of particle `i` that `f` accepts.
pub open spec fn verlet_target<F: Fn(usize, usize) -> bool>(
    f: F,
    offs: Seq<usize>,
    ids: Seq<usize>,
    table: Seq<Vec<usize>>,
    total: int,
    i: int,
) -> Seq<usize> {
    accepted(f, i as usize, cell_candidates(offs, ids, table, cell_containing(offs, ids, total, i)))
}

/// Total length of the lists owed to particles `0..k`.
pub open spec fn verlet_sum<F: Fn(usize, usize) -> bool>(
    f: F,
    offs: Seq<usize>,
    ids: Seq<usize>,
    table: Seq<Vec<usize>>,
    total: int,
    k: int,
) -> int
    decreases k,
{
    if k <= 0 {
        0
    } else {
        verlet_sum(f, offs, ids, table, total, k - 1) + verlet_target(f, offs, ids, table, total, k - 1).len()
    }
}

pub proof fn lemma_cells_members_append(offs: Seq<usize>, ids: Seq<usize>, l1: Seq<usize>, l2: Seq<usize>)
    ensures
        cells_members(offs, ids, l1 + l2) == cells_members(offs, ids, l1) + cells_members(offs, ids, l2),
    decreases l2.len(),
{
    if l2.len() == 0 {
        assert(l1 + l2 =~= l1);
        assert(cells_members(offs, ids, l1) + cells_members(offs, ids, l2) =~= cells_members(offs, ids, l1));
    } else {
        lemma_cells_members_append(offs, ids, l1, l2.drop_last());
        assert((l1 + l2).drop_last() =~= l1 + l2.drop_last());
        assert((l1 + l2).last() == l2.last());
        let a = cells_members(offs, ids, l1);
        let b = cells_members(offs, ids, l2.drop_last());
        let c = cell_segment(offs, ids, l2.last() as int);
        assert(a + (b + c) =~= (a + b) + c);
    }
}

pub proof fn lemma_verlet_sum_monotone<F: Fn(usize, usize) -> bool>(
    f: F,
    offs: Seq<usize>,
    ids: Seq<usize>,
    table: Seq<Vec<usize>>,
    total: int,
    a: int,
    b: int,
)
    requires
        0 <= a <= b,
    ensures
        0 <= verlet_sum(f, offs, ids, table, total, a),
        verlet_sum(f, offs, ids, table, total, a) <= verlet_sum(f, offs, ids, table, total, b),
        a < b ==> verlet_sum(f, offs, ids, table, total, a) + verlet_target(f, offs, ids, table, total, a).len()
            <= verlet_sum(f, offs, ids, table, total, b),
    decreases b - a,
{
    if a < b {
        lemma_verlet_sum_monotone(f, offs, ids, table, total, a, b - 1);
    } else {
        lemma_verlet_sum_nonneg(f, offs, ids, table, total, a);
    }
}

pub proof fn lemma_verlet_sum_nonneg<F: Fn(usize, usize) -> bool>(
    f: F,
    offs: Seq<usize>,
    ids: Seq<usize>,
    table: Seq<Vec<usize>>,
    total: int,
    a: int,
)
    ensures
        0 <= verlet_sum(f, offs, ids, table, total, a),
    decreases a,
{
    if a > 0 {
        lemma_verlet_sum_nonneg(f, offs, ids, table, total, a - 1);
    }
}

impl CellGrid {
    pub open spec fn nx(self) -> int {
        self.num_cells[0] as int
    }

    pub open spec fn ny(self) -> int {
        self.num_cells[1] as int
    }

    pub open spec fn nz(self) -> int {
        self.num_cells[2] as int
    }

    /// Number of cells in the grid.
    pub open spec fn total_cells(self) -> int {
        self.nx() * self.ny() * self.nz()
    }

    /// Flat index of the cell with coordinates `(x, y, z)`.
    pub open spec fn flat_index(self, x: int, y: int, z: int) -> int {
        grid_flat_index(self.num_cells, x, y, z)
    }

    /// Grid dimensions are positive, fit an `i32` coordinate, and the strides match them.
    pub open spec fn dims_ok(self) -> bool {
        &&& 1 <= self.num_cells[0] <= i32::MAX
        &&& 1 <= self.num_cells[1] <= i32::MAX
        &&& 1 <= self.num_cells[2] <= i32::MAX
        &&& self.total_cells() < usize::MAX
        &&& self.strides[0] == 1
        &&& self.strides[1] == self.num_cells[0]
        &&& self.strides[2] == self.num_cells[0] * self.num_cells[1]
    }

    /// The neighbour cells of `(x, y, z)` as the table lists them.
    pub open spec fn expected_neighbours(self, x: int, y: int, z: int) -> Seq<usize> {
        grid_neighbours(self.num_cells, self.periodic, x, y, z)
    }

    /// Flat index of the cell at offset `o` from `(x, y, z)`, or `usize::MAX`.
    pub open spec fn neighbour_index(self, x: int, y: int, z: int, o: (int, int, int)) -> usize {
        grid_neighbour_index(self.num_cells, self.periodic, x, y, z, o)
    }

    /// Every cell's entry of the neighbour table is the one its coordinates give.
    pub open spec fn neighbour_table_ok(self) -> bool {
        &&& self.neighbour_table@.len() == self.total_cells()
        &&& forall|x: int, y: int, z: int|
            0 <= x < self.nx() && 0 <= y < self.ny() && 0 <= z < self.nz() ==> (
            #[trigger] self.neighbour_table@[grid_flat_index(self.num_cells, x, y, z)])@
                == grid_neighbours(self.num_cells, self.periodic, x, y, z)
    }
}

pub proof fn lemma_flat_index_bounds(nx: int, ny: int, nz: int, x: int, y: int, z: int)
    requires
        0 <= x < nx,
        0 <= y < ny,
        0 <= z < nz,
    ensures
        0 <= x + y * nx + z * (nx * ny) < nx * ny * nz,
        0 <= x + y * nx < nx * ny,
{
    assert(0 <= x + y * nx < nx * ny) by (nonlinear_arith)
        requires
            0 <= x < nx,
            0 <= y < ny,
    ;
    assert(0 <= x + y * nx + z * (nx * ny) < nx * ny * nz) by (nonlinear_arith)
        requires
            0 <= x + y * nx < nx * ny,
            0 <= z < nz,
    ;
}

impl CellGrid {
    /// Flat index of the cell with coordinates `(ix, iy, iz)`.
    pub fn get_1d_idx(&self, ix: usize, iy: usize, iz: usize) -> (idx: usize)
        requires
            self.dims_ok(),
            self.flat_index(ix as int, iy as int, iz as int) <= usize::MAX,
        ensures
            idx == self.flat_index(ix as int, iy as int, iz as int),
            ix < self.num_cells[0] && iy < self.num_cells[1] && iz < self.num_cells[2] ==> idx < self.total_cells(),
    {
        proof {
            let (x, y, z, nx, ny) = (ix as int, iy as int, iz as int, self.nx(), self.ny());
            assert(0 <= y * nx && 0 <= z * (nx * ny)) by (nonlinear_arith)
                requires x >= 0, y >= 0, z >= 0, nx >= 1, ny >= 1;
            if ix < self.num_cells[0] && iy < self.num_cells[1] && iz < self.num_cells[2] {
                lemma_flat_index_bounds(self.nx(), self.ny(), self.nz(), ix as int, iy as int, iz as int);
            }
        }
        ix + iy * self.strides[1] + iz * self.strides[2]
    }
}

/// Euclidean remainder of a negative value, from the remainder of its magnitude.
pub proof fn lemma_euclid_mod_negative(val: int, n: int, m: int)
    requires
        n > 0,
        val < 0,
        m == (-val) % n,
    ensures
        0 <= m < n,
        val % n == (if m == 0 { 0 } else { n - m }),
{
    let q = (-val) / n;
    assert(-val == q * n + m) by (nonlinear_arith)
        requires n > 0, m == (-val) % n, q == (-val) / n;
    assert(0 <= m < n) by (nonlinear_arith)
        requires n > 0, m == (-val) % n;
    if m == 0 {
        assert(val == (-q) * n) by (nonlinear_arith)
            requires -val == q * n + m, m == 0;
        assert(val % n == 0) by (nonlinear_arith)
            requires val == (-q) * n, n > 0;
    } else {
        assert(val == (-q - 1) * n + (n - m)) by (nonlinear_arith)
            requires -val == q * n + m;
        assert(val % n == n - m) by (nonlinear_arith)
            requires val == (-q - 1) * n + (n - m), 0 < n - m < n;
    }
}

impl CellGrid {
    /// Coordinate `coord + off` along `axis` after the boundary rule.
    fn wrap_axis(&self, axis: usize, coord: usize, off: i32) -> (r: Option<usize>)
        requires
            self.dims_ok(),
            axis < 3,
            coord <= i32::MAX,
            i32::MIN <= coord + off <= i32::MAX,
        ensures
            match grid_wrapped_coord(self.num_cells, self.periodic, axis as int, coord + off) {
                Some(v) => r == Some(v as usize) && 0 <= v < self.num_cells[axis as int],
                None => r is None,
            },
    {
        let n = self.num_cells[axis] as i64;
        let val = coord as i64 + off as i64;
        if self.periodic[axis] {
            if val >= 0 {
                let r = val % n;
                assert(0 <= r < n) by (nonlinear_arith)
                    requires n > 0, val >= 0, r == val % n;
                Some(r as usize)
            } else {
                let m = (-val) % n;
                proof {
                    lemma_euclid_mod_negative(val as int, n as int, m as int);
                }
                if m == 0 {
                    Some(0)
                } else {
                    Some((n - m) as usize)
                }
            }
        } else if 0 <= val && val < n {
            Some(val as usize)
        } else {
            None
        }
    }

    /// Flat index of the cell at offset `offsets` from `(ix, iy, iz)`, or
    /// `usize::MAX` where the offset leaves the grid along a non-periodic axis.
    pub fn get_neighbour_1d_idx(&self, ix: usize, iy: usize, iz: usize, offsets: [i32; 3]) -> (idx: usize)
        requires
            self.dims_ok(),
            ix <= i32::MAX,
            iy <= i32::MAX,
            iz <= i32::MAX,
            i32::MIN <= ix + offsets[0] <= i32::MAX,
            i32::MIN <= iy + offsets[1] <= i32::MAX,
            i32::MIN <= iz + offsets[2] <= i32::MAX,
        ensures
            idx == self.neighbour_index(
                ix as int,
                iy as int,
                iz as int,
                (offsets[0] as int, offsets[1] as int, offsets[2] as int),
            ),
            idx == usize::MAX || idx < self.total_cells(),
    {
        let a = self.wrap_axis(0, ix, offsets[0]);
        let b = self.wrap_axis(1, iy, offsets[1]);
        let c = self.wrap_axis(2, iz, offsets[2]);
        match (a, b, c) {
            (Some(x), Some(y), Some(z)) => {
                proof {
                    lemma_flat_index_bounds(self.nx(), self.ny(), self.nz(), x as int, y as int, z as int);
                }
                self.get_1d_idx(x, y, z)
            },
            _ => usize::MAX,
        }
    }
}

/// Distinct cell coordinates have distinct flat indices.
pub proof fn lemma_flat_index_injective(
    nx: int,
    ny: int,
    x1: int,
    y1: int,
    z1: int,
    x2: int,
    y2: int,
    z2: int,
)
    requires
        0 <= x1 < nx,
        0 <= y1 < ny,
        0 <= z1,
        0 <= x2 < nx,
        0 <= y2 < ny,
        0 <= z2,
        x1 + y1 * nx + z1 * (nx * ny) == x2 + y2 * nx + z2 * (nx * ny),
    ensures
        x1 == x2,
        y1 == y2,
        z1 == z2,
{
    let a1 = x1 + y1 * nx;
    let a2 = x2 + y2 * nx;
    assert(0 <= a1 < nx * ny) by (nonlinear_arith)
        requires 0 <= x1 < nx, 0 <= y1 < ny, a1 == x1 + y1 * nx;
    assert(0 <= a2 < nx * ny) by (nonlinear_arith)
        requires 0 <= x2 < nx, 0 <= y2 < ny, a2 == x2 + y2 * nx;
    assert(z1 == z2) by (nonlinear_arith)
        requires
            0 <= a1 < nx * ny,
            0 <= a2 < nx * ny,
            a1 + z1 * (nx * ny) == a2 + z2 * (nx * ny),
            0 <= z1,
            0 <= z2,
    ;
    assert(y1 == y2) by (nonlinear_arith)
        requires
            0 <= x1 < nx,
            0 <= x2 < nx,
            x1 + y1 * nx == x2 + y2 * nx,
            0 <= y1,
            0 <= y2,
    ;
}

/// Whether `x` occurs in `v`.
fn vec_contains(v: &Vec<usize>, x: usize) -> (b: bool)
    ensures
        b == v@.contains(x),
{
    let mut i: usize = 0;
    while i < v.len()
        invariant
            i <= v.len(),
            forall|k: int| 0 <= k < i ==> v@[k] != x,
        decreases v.len() - i,
    {
        if v[i] == x {
            assert(v@[i as int] == x);
            return true;
        }
        i = i + 1;
    }
    false
}

impl CellGrid {
    /// The distinct neighbour cells of `(ix, iy, iz)`, in search order.
    fn unique_neighbours(&self, ix: usize, iy: usize, iz: usize) -> (r: Vec<usize>)
        requires
            self.dims_ok(),
            ix < self.num_cells[0],
            iy < self.num_cells[1],
            iz < self.num_cells[2],
        ensures
            r@ == self.expected_neighbours(ix as int, iy as int, iz as int),
    {
        let offsets: [[i32; 3]; 26] = [
            [1, 0, 0], [-1, 0, 0], [0, 1, 0], [0, -1, 0], [0, 0, 1], [0, 0, -1],
            [1, 1, 0], [1, -1, 0], [-1, 1, 0], [-1, -1, 0],
            [1, 0, 1], [1, 0, -1], [-1, 0, 1], [-1, 0, -1],
            [0, 1, 1], [0, 1, -1], [0, -1, 1], [0, -1, -1],
            [1, 1, 1], [1, 1, -1], [1, -1, 1], [1, -1, -1],
            [-1, 1, 1], [-1, 1, -1], [-1, -1, 1], [-1, -1, -1],
        ];
        let ghost cands = neighbour_offsets().map_values(
            |o: (int, int, int)| grid_neighbour_index(self.num_cells, self.periodic, ix as int, iy as int, iz as int, o),
        );
        assert forall|k: int| 0 <= k < 26 implies
            (#[trigger] offsets@[k][0] as int, offsets@[k][1] as int, offsets@[k][2] as int)
                == neighbour_offsets()[k] by {
            assert(neighbour_offsets().len() == 26);
        }
        proof {
            lemma_flat_index_bounds(self.nx(), self.ny(), self.nz(), ix as int, iy as int, iz as int);
        }
        let current_1d = self.get_1d_idx(ix, iy, iz);
        let mut unique: Vec<usize> = Vec::with_capacity(26);
        let mut k: usize = 0;
        while k < 26
            invariant
                k <= 26,
                cands == neighbour_offsets().map_values(
                    |o: (int, int, int)| grid_neighbour_index(self.num_cells, self.periodic, ix as int, iy as int, iz as int, o),
                ),
                cands.len() == 26,
                current_1d == self.flat_index(ix as int, iy as int, iz as int),
                unique@ == collect_unique(cands.take(k as int), current_1d),
                forall|j: int| 0 <= j < 26 ==>
                    (#[trigger] offsets@[j][0] as int, offsets@[j][1] as int, offsets@[j][2] as int)
                        == neighbour_offsets()[j],
                self.dims_ok(),
                ix < self.num_cells[0],
                iy < self.num_cells[1],
                iz < self.num_cells[2],
            decreases 26 - k,
        {
            let o = offsets[k];
            let n_idx = self.get_neighbour_1d_idx(ix, iy, iz, o);
            assert((o[0] as int, o[1] as int, o[2] as int) == neighbour_offsets()[k as int]);
            assert(cands[k as int] == self.neighbour_index(
                ix as int, iy as int, iz as int, neighbour_offsets()[k as int]));
            assert(n_idx == cands[k as int]);
            assert(cands.take(k + 1).drop_last() =~= cands.take(k as int));
            assert(cands.take(k + 1).last() == cands[k as int]);
            if n_idx != usize::MAX && n_idx != current_1d && !vec_contains(&unique, n_idx) {
                unique.push(n_idx);
            }
            k = k + 1;
        }
        assert(cands.take(26) =~= cands);
        unique
    }

    /// Rebuilds the table of distinct neighbour cells of every cell.
    pub fn build_neighbour_table(&mut self)
        requires
            old(self).dims_ok(),
        ensures
            final(self).neighbour_table_ok(),
            final(self).num_cells == old(self).num_cells,
            final(self).strides == old(self).strides,
            final(self).periodic == old(self).periodic,
            final(self).cell_offsets == old(self).cell_offsets,
            final(self).cell_particle_ids == old(self).cell_particle_ids,
            final(self).verlet_offsets == old(self).verlet_offsets,
            final(self).verlet_particle_ids == old(self).verlet_particle_ids,
            final(self).counts == old(self).counts,
            final(self).last_particle_count == old(self).last_particle_count,
    {
        let nx = self.num_cells[0];
        let ny = self.num_cells[1];
        let nz = self.num_cells[2];
        proof {
            lemma_flat_index_bounds(nx as int, ny as int, nz as int, 0, 0, 0);
            assert(nx * ny * nz == self.total_cells());
        }
        let mut table: Vec<Vec<usize>> = vec![Vec::new(); nx * ny * nz];
        let ghost dims = self.num_cells;
        let ghost per = self.periodic;
        let mut iz: usize = 0;
        while iz < nz
            invariant
                iz <= nz,
                self.dims_ok(),
                nx == self.num_cells[0],
                ny == self.num_cells[1],
                nz == self.num_cells[2],
                table@.len() == self.total_cells(),
                dims == self.num_cells,
                per == self.periodic,
                forall|x: int, y: int, z: int|
                    0 <= x < nx && 0 <= y < ny && 0 <= z < iz ==>
                    (#[trigger] table@[grid_flat_index(dims, x, y, z)])@ == grid_neighbours(dims, per, x, y, z),
            decreases nz - iz,
        {
            let mut iy: usize = 0;
            while iy < ny
                invariant
                    iy <= ny,
                    iz < nz,
                    self.dims_ok(),
                    nx == self.num_cells[0],
                    ny == self.num_cells[1],
                    nz == self.num_cells[2],
                    table@.len() == self.total_cells(),
                dims == self.num_cells,
                per == self.periodic,
                    forall|x: int, y: int, z: int|
                        0 <= x < nx && 0 <= y < ny && 0 <= z < nz
                            && (z < iz || (z == iz && y < iy)) ==>
                        (#[trigger] table@[grid_flat_index(dims, x, y, z)])@ == grid_neighbours(dims, per, x, y, z),
                decreases ny - iy,
            {
                let mut ix: usize = 0;
                while ix < nx
                    invariant
                        ix <= nx,
                        iy < ny,
                        iz < nz,
                        self.dims_ok(),
                        nx == self.num_cells[0],
                        ny == self.num_cells[1],
                        nz == self.num_cells[2],
                        table@.len() == self.total_cells(),
                dims == self.num_cells,
                per == self.periodic,
                        forall|x: int, y: int, z: int|
                            0 <= x < nx && 0 <= y < ny && 0 <= z < nz
                                && (z < iz || (z == iz && y < iy) || (z == iz && y == iy && x < ix)) ==>
                            (#[trigger] table@[grid_flat_index(dims, x, y, z)])@ == grid_neighbours(dims, per, x, y, z),
                    decreases nx - ix,
                {
                    proof {
                        lemma_flat_index_bounds(nx as int, ny as int, nz as int, ix as int, iy as int, iz as int);
                    }
                    let current_1d = self.get_1d_idx(ix, iy, iz);
                    let unique = self.unique_neighbours(ix, iy, iz);
                    let ghost before = table@;
                    table.set(current_1d, unique);
                    assert forall|x: int, y: int, z: int|
                        0 <= x < nx && 0 <= y < ny && 0 <= z < nz
                            && (z < iz || (z == iz && y < iy) || (z == iz && y == iy && x < ix + 1))
                        implies
                        (#[trigger] table@[grid_flat_index(dims, x, y, z)])@ == grid_neighbours(dims, per, x, y, z)
                    by {
                        if x == ix && y == iy && z == iz {
                        } else {
                            if self.flat_index(x, y, z) == current_1d {
                                lemma_flat_index_injective(
                                    nx as int, ny as int, x, y, z, ix as int, iy as int, iz as int);
                            }
                            lemma_flat_index_bounds(nx as int, ny as int, nz as int, x, y, z);
                        }
                    }
                    ix = ix + 1;
                }
                iy = iy + 1;
            }
            iz = iz + 1;
        }
        assert(forall|x: int, y: int, z: int|
            0 <= x < self.nx() && 0 <= y < self.ny() && 0 <= z < self.nz() ==>
            (#[trigger] table@[grid_flat_index(dims, x, y, z)])@ == grid_neighbours(dims, per, x, y, z));
        self.neighbour_table = table;
        assert(self.num_cells == dims);
        assert(self.periodic == per);
        assert(self.neighbour_table_ok());
    }
}

impl CellGrid {
    /// Every field but the cell storage equals that of `other`.
    pub open spec fn same_except_cells(self, other: CellGrid) -> bool {
        &&& self.num_cells == other.num_cells
        &&& self.strides == other.strides
        &&& self.periodic == other.periodic
        &&& self.neighbour_table == other.neighbour_table
        &&& self.verlet_offsets == other.verlet_offsets
        &&& self.verlet_particle_ids == other.verlet_particle_ids
        &&& self.counts == other.counts
        &&& self.last_particle_count == other.last_particle_count
    }

    /// The particles stored for cell `c`.
    pub open spec fn segment(self, c: int) -> Seq<usize> {
        cell_segment(self.cell_offsets@, self.cell_particle_ids@, c)
    }

    /// The cell storage holds, for each cell, the particles whose cell index
    /// in `cells` is that cell, in increasing order.
    pub open spec fn binned(self, cells: Seq<usize>) -> bool {
        binned_layout(self.cell_offsets@, self.cell_particle_ids@, self.total_cells(), cells)
    }

    /// Sorts the particles into their cells; `cells[i]` is the cell of particle `i`.
    pub fn bin(&mut self, cells: &Vec<usize>)
        requires
            old(self).dims_ok(),
            old(self).cell_offsets@.len() == old(self).total_cells() + 1,
            forall|i: int| 0 <= i < cells@.len() ==> #[trigger] cells@[i] < old(self).total_cells(),
        ensures
            final(self).binned(cells@),
            final(self).same_except_cells(*old(self)),
    {
        let total = self.num_cells[0] * self.num_cells[1] * self.num_cells[2];
        let n = cells.len();
        let ghost cs = cells@;
        let ghost s0 = *self;
        let mut cell_counts: Vec<usize> = vec![0; total];
        let mut i: usize = 0;
        while i < n
            invariant
                i <= n,
                n == cs.len(),
                cs == cells@,
                total == self.total_cells(),
                cell_counts@.len() == total,
                forall|k: int| 0 <= k < n ==> #[trigger] cs[k] < total,
                forall|c: int| 0 <= c < total ==> #[trigger] cell_counts@[c] == members_upto(cs, c, i as int).len(),
            decreases n - i,
        {
            let c = cells[i];
            proof {
                lemma_members_len(cs, c as int, i as int);
            }
            cell_counts.set(c, cell_counts[c] + 1);
            assert forall|d: int| 0 <= d < total implies #[trigger] cell_counts@[d] == members_upto(cs, d, i + 1).len() by {
                assert(members_upto(cs, d, i + 1) == (if cs[i as int] == d {
                    members_upto(cs, d, i as int).push(i)
                } else {
                    members_upto(cs, d, i as int)
                }));
            }
            i = i + 1;
        }

        self.cell_offsets.set(0, 0);
        proof {
            lemma_count_before_zero(cs, 0);
        }
        let mut c: usize = 0;
        while c < total
            invariant
                c <= total,
                n == cs.len(),
                total == self.total_cells(),
                self.dims_ok(),
                cell_counts@.len() == total,
                self.cell_offsets@.len() == total + 1,
                self.same_except_cells(s0),
                forall|d: int| 0 <= d < total ==> #[trigger] cell_counts@[d] == cell_members_of(cs, d).len(),
                forall|d: int| 0 <= d <= c ==> #[trigger] self.cell_offsets@[d] == cells_before(cs, d),
            decreases total - c,
        {
            proof {
                lemma_count_before_bound(cs, c + 1, n as int);
            }
            let next = self.cell_offsets[c] + cell_counts[c];
            self.cell_offsets.set(c + 1, next);
            c = c + 1;
        }

        let mut current_pos = self.cell_offsets.clone();
        assert(current_pos@ =~= self.cell_offsets@);
        self.cell_particle_ids.resize(n, 0);
        proof {
            lemma_count_before_bound(cs, total as int, n as int);
            assert forall|a: int, b: int| 0 <= a <= b <= total implies
                #[trigger] self.cell_offsets@[a] <= #[trigger] self.cell_offsets@[b] by {
                lemma_count_before_monotone(cs, a, b, n as int);
            }
        }
        assert forall|d: int| 0 <= d < total implies
            self.cell_particle_ids@.subrange(self.cell_offsets@[d] as int, #[trigger] current_pos@[d] as int)
                == members_upto(cs, d, 0) by {
            assert(current_pos@[d] == self.cell_offsets@[d]);
            assert(self.cell_offsets@[d] <= self.cell_offsets@[total as int]);
            assert(self.cell_particle_ids@.subrange(self.cell_offsets@[d] as int, current_pos@[d] as int)
                =~= Seq::<usize>::empty());
        }
        let mut i: usize = 0;
        while i < n
            invariant
                i <= n,
                n == cs.len(),
                cs == cells@,
                total == self.total_cells(),
                self.dims_ok(),
                forall|k: int| 0 <= k < n ==> #[trigger] cs[k] < total,
                self.cell_offsets@.len() == total + 1,
                self.same_except_cells(s0),
                current_pos@.len() == total + 1,
                self.cell_particle_ids@.len() == n,
                self.cell_offsets@[total as int] == n,
                forall|d: int| 0 <= d <= total ==> #[trigger] self.cell_offsets@[d] == cells_before(cs, d),
                forall|a: int, b: int| 0 <= a <= b <= total ==>
                    #[trigger] self.cell_offsets@[a] <= #[trigger] self.cell_offsets@[b],
                forall|d: int| 0 <= d < total ==>
                    #[trigger] current_pos@[d] == self.cell_offsets@[d] + members_upto(cs, d, i as int).len(),
                forall|d: int| 0 <= d < total ==>
                    self.cell_particle_ids@.subrange(self.cell_offsets@[d] as int, #[trigger] current_pos@[d] as int)
                        == members_upto(cs, d, i as int),
            decreases n - i,
        {
            let c = cells[i];
            proof {
                lemma_members_prefix(cs, c as int, i + 1, n as int);
                assert(members_upto(cs, c as int, i + 1) == members_upto(cs, c as int, i as int).push(i));
                assert(self.cell_offsets@[c + 1] == self.cell_offsets@[c as int] + cell_members_of(cs, c as int).len());
            }
            let target = current_pos[c];
            assert(self.cell_offsets@[c as int] <= target < self.cell_offsets@[c + 1]);
            let ghost ids_before = self.cell_particle_ids@;
            self.cell_particle_ids.set(target, i);
            current_pos.set(c, target + 1);
            assert forall|d: int| 0 <= d < total implies
                self.cell_particle_ids@.subrange(self.cell_offsets@[d] as int, #[trigger] current_pos@[d] as int)
                    == members_upto(cs, d, i + 1) by {
                if d == c {
                    assert(self.cell_particle_ids@.subrange(self.cell_offsets@[d] as int, current_pos@[d] as int)
                        =~= ids_before.subrange(self.cell_offsets@[d] as int, target as int).push(i));
                } else {
                    assert(members_upto(cs, d, i + 1) == members_upto(cs, d, i as int));
                    lemma_members_prefix(cs, d, i as int, n as int);
                    assert(self.cell_offsets@[d + 1] == self.cell_offsets@[d] + cell_members_of(cs, d).len());
                    assert(current_pos@[d] <= self.cell_offsets@[d + 1]);
                    if d < c {
                        assert(self.cell_offsets@[d + 1] <= self.cell_offsets@[c as int]);
                    } else {
                        assert(self.cell_offsets@[c + 1] <= self.cell_offsets@[d]);
                    }
                    assert(target < self.cell_offsets@[d] || current_pos@[d] <= target);
                    assert(self.cell_particle_ids@.subrange(self.cell_offsets@[d] as int, current_pos@[d] as int)
                        =~= ids_before.subrange(self.cell_offsets@[d] as int, current_pos@[d] as int));
                }
            }
            i = i + 1;
        }
        assert forall|d: int| 0 <= d < total implies
            #[trigger] cell_segment(self.cell_offsets@, self.cell_particle_ids@, d) == cell_members_of(cs, d) by {
            assert(self.cell_offsets@[d + 1] == self.cell_offsets@[d] + cell_members_of(cs, d).len());
            assert(current_pos@[d] == self.cell_offsets@[d + 1]);
        }
    }
}

/// Finds the cell whose range of positions holds position `p`.
pub proof fn lemma_segment_containing(offs: Seq<usize>, lo: int, total: int, p: int) -> (c: int)
    requires
        0 <= lo < total,
        offs.len() == total + 1,
        offs[lo] <= p < offs[total],
        forall|a: int, b: int| 0 <= a <= b <= total ==> #[trigger] offs[a] <= #[trigger] offs[b],
    ensures
        lo <= c < total,
        offs[c] <= p < offs[c + 1],
    decreases total - lo,
{
    if p < offs[lo + 1] {
        lo
    } else {
        lemma_segment_containing(offs, lo + 1, total, p)
    }
}

impl CellGrid {
    /// Number of particles held in the cell storage.
    pub open spec fn particle_count(self) -> int {
        self.cell_particle_ids@.len() as int
    }

    /// The cell storage is a partition of the particles `0..n` into the cells:
    /// offsets rise from 0 to `n`, and every particle appears exactly once.
    pub open spec fn cells_valid(self) -> bool {
        cells_partition(self.cell_offsets@, self.cell_particle_ids@, self.total_cells())
    }

    /// The cell whose stored particles include particle `i`.
    pub open spec fn cell_of(self, i: int) -> int {
        cell_containing(self.cell_offsets@, self.cell_particle_ids@, self.total_cells(), i)
    }
}

/// Binning by valid cell indices leaves the cell storage a partition of the particles.
pub proof fn lemma_binned_cells_valid(g: CellGrid, cells: Seq<usize>)
    requires
        g.dims_ok(),
        g.binned(cells),
        cells.len() <= usize::MAX,
        forall|i: int| 0 <= i < cells.len() ==> #[trigger] cells[i] < g.total_cells(),
    ensures
        g.cells_valid(),
        forall|i: int| 0 <= i < cells.len() ==> #[trigger] g.cell_of(i) == cells[i],
{
    let offs = g.cell_offsets@;
    let ids = g.cell_particle_ids@;
    let total = g.total_cells();
    let n = cells.len() as int;
    lemma_count_before_zero(cells, 0);
    lemma_count_before_bound(cells, total, n);
    assert forall|a: int, b: int| 0 <= a <= b <= total implies #[trigger] offs[a] <= #[trigger] offs[b] by {
        lemma_count_before_monotone(cells, a, b, n);
    }
    assert forall|c: int| 0 <= c < total implies offs[c + 1] == offs[c] + #[trigger] cell_members_of(cells, c).len() by {
    }
    assert forall|p: int| 0 <= p < n implies #[trigger] ids[p] < n by {
        let c = lemma_segment_containing(offs, 0, total, p);
        assert(offs[c + 1] <= offs[total]);
        assert(g.segment(c) == cell_members_of(cells, c));
        assert(g.segment(c)[p - offs[c]] == ids[p]);
        lemma_members_facts(cells, c, n);
    }
    assert forall|p: int, q: int| 0 <= p < q < n implies #[trigger] ids[p] != #[trigger] ids[q] by {
        let c = lemma_segment_containing(offs, 0, total, p);
        let d = lemma_segment_containing(offs, 0, total, q);
        assert(offs[c + 1] <= offs[total]);
        assert(offs[d + 1] <= offs[total]);
        assert(g.segment(c) == cell_members_of(cells, c));
        assert(g.segment(c)[p - offs[c]] == ids[p]);
        assert(g.segment(d) == cell_members_of(cells, d));
        assert(g.segment(d)[q - offs[d]] == ids[q]);
        lemma_members_facts(cells, c, n);
        lemma_members_facts(cells, d, n);
        if c == d {
            assert(cell_members_of(cells, c)[p - offs[c]] < cell_members_of(cells, c)[q - offs[c]]);
        }
    }
    assert forall|i: int| 0 <= i < n implies #[trigger] cell_containing(offs, ids, total, i) == cells[i]
        && 0 <= cell_containing(offs, ids, total, i) < total
        && g.segment(g.cell_of(i)).contains(i as usize) by {
        let c = cells[i] as int;
        lemma_member_of_own_cell(cells, i, n);
        assert(g.segment(c) == cell_members_of(cells, c));
        assert(g.segment(c).contains(i as usize));
        let c2 = g.cell_of(i);
        assert(0 <= c2 < total && g.segment(c2).contains(i as usize));
        let r = choose|r: int| 0 <= r < g.segment(c2).len() && g.segment(c2)[r] == i as usize;
        assert(offs[c2 + 1] <= offs[total]);
        assert(ids[offs[c2] + r] == i);
        lemma_members_facts(cells, c2, n);
        assert(g.segment(c2) == cell_members_of(cells, c2));
    }
}

impl CellGrid {
    /// The particles stored for the cells of `list`, cell after cell.
    pub open spec fn members_of_cells(self, list: Seq<usize>) -> Seq<usize> {
        cells_members(self.cell_offsets@, self.cell_particle_ids@, list)
    }

    /// The particles a particle of cell `c` is tested against: those of `c`
    /// itself, then those of each neighbouring cell in table order.
    pub open spec fn candidates(self, c: int) -> Seq<usize> {
        cell_candidates(self.cell_offsets@, self.cell_particle_ids@, self.neighbour_table@, c)
    }

    /// The Verlet list that particle `i` is owed: its candidates that `f` accepts.
    pub open spec fn expected_verlet<F: Fn(usize, usize) -> bool>(self, f: F, i: int) -> Seq<usize> {
        verlet_target(f, self.cell_offsets@, self.cell_particle_ids@, self.neighbour_table@, self.total_cells(), i)
    }

    /// Total length of the Verlet lists owed to particles `0..k`.
    pub open spec fn verlet_total<F: Fn(usize, usize) -> bool>(self, f: F, k: int) -> int {
        verlet_sum(f, self.cell_offsets@, self.cell_particle_ids@, self.neighbour_table@, self.total_cells(), k)
    }

    /// The stored Verlet list of particle `i`.
    pub open spec fn verlet_list(self, i: int) -> Seq<usize> {
        self.verlet_particle_ids@.subrange(self.verlet_offsets@[i] as int, self.verlet_offsets@[i + 1] as int)
    }

    /// Every neighbour table entry names a cell of the grid.
    pub open spec fn table_valid(self) -> bool {
        table_entries_valid(self.neighbour_table@, self.total_cells())
    }

    /// The Verlet storage holds, for each particle, the list `f` makes of its candidates.
    pub open spec fn verlet_built<F: Fn(usize, usize) -> bool>(self, f: F) -> bool {
        let n = self.particle_count();
        &&& self.verlet_offsets@.len() == n + 1
        &&& self.counts@.len() == n
        &&& self.verlet_offsets@[0] == 0
        &&& self.verlet_offsets@[n] == self.verlet_particle_ids@.len()
        &&& forall|i: int| 0 <= i < n ==> #[trigger] self.counts@[i] == self.expected_verlet(f, i).len()
        &&& forall|i: int| 0 <= i <= n ==> #[trigger] self.verlet_offsets@[i] == self.verlet_total(f, i)
        &&& forall|i: int| 0 <= i < n ==> #[trigger] self.verlet_list(i) == self.expected_verlet(f, i)
    }
}

impl CellGrid {
    /// The stored particles of two different cells never overlap, so a
    /// particle at a position of cell `c` has `c` as its cell.
    pub proof fn lemma_cell_of_position(self, c: int, p: int)
        requires
            self.cells_valid(),
            0 <= c < self.total_cells(),
            self.cell_offsets@[c] <= p < self.cell_offsets@[c + 1],
        ensures
            self.cell_of(self.cell_particle_ids@[p] as int) == c,
            self.segment(c).contains(self.cell_particle_ids@[p]),
    {
        let offs = self.cell_offsets@;
        let ids = self.cell_particle_ids@;
        let total = self.total_cells();
        let i = ids[p] as int;
        assert(offs[c + 1] <= offs[total]);
        assert(self.segment(c)[p - offs[c]] == ids[p]);
        let d = self.cell_of(i);
        assert(d < total && self.segment(d).contains(i as usize));
        let r = choose|r: int| 0 <= r < self.segment(d).len() && self.segment(d)[r] == i as usize;
        assert(offs[d + 1] <= offs[total]);
        let q = offs[d] + r;
        assert(ids[q] == i);
        if q != p {
            if q < p {
                assert(ids[q] != ids[p]);
            } else {
                assert(ids[p] != ids[q]);
            }
        }
        if d < c {
            assert(offs[d + 1] <= offs[c]);
        } else if c < d {
            assert(offs[c + 1] <= offs[d]);
        }
    }

    proof fn lemma_segment_bounds(self, c: int)
        requires
            self.cells_valid(),
            0 <= c < self.total_cells(),
        ensures
            self.cell_offsets@[c] <= self.cell_offsets@[c + 1] <= self.particle_count(),
            self.segment(c).len() == self.cell_offsets@[c + 1] - self.cell_offsets@[c],
    {
        assert(self.cell_offsets@[c + 1] <= self.cell_offsets@[self.total_cells()]);
    }

    pub proof fn lemma_members_of_cells_append(self, l1: Seq<usize>, l2: Seq<usize>)
        ensures
            self.members_of_cells(l1 + l2) == self.members_of_cells(l1) + self.members_of_cells(l2),
    {
        lemma_cells_members_append(self.cell_offsets@, self.cell_particle_ids@, l1, l2);
    }

    proof fn lemma_verlet_total_monotone<F: Fn(usize, usize) -> bool>(self, f: F, a: int, b: int)
        requires
            0 <= a <= b,
        ensures
            0 <= self.verlet_total(f, a),
            self.verlet_total(f, a) <= self.verlet_total(f, b),
            a < b ==> self.verlet_total(f, a) + self.expected_verlet(f, a).len() <= self.verlet_total(f, b),
    {
        lemma_verlet_sum_monotone(f, self.cell_offsets@, self.cell_particle_ids@, self.neighbour_table@, self.total_cells(), a, b);
    }

    /// How many of the stored particles at positions `start..end` `f` accepts
    /// as neighbours of `i`, added to `base`.
    fn count_range<F: Fn(usize, usize) -> bool>(&self, start: usize, end: usize, i: usize, f: &F, base: usize) -> (cnt: usize)
        requires
            self.cells_valid(),
            start <= end <= self.particle_count(),
            i < self.particle_count(),
            decides_pairs(*f, self.particle_count()),
            base + accepted(*f, i, self.cell_particle_ids@.subrange(start as int, end as int)).len() <= usize::MAX,
        ensures
            cnt == base + accepted(*f, i, self.cell_particle_ids@.subrange(start as int, end as int)).len(),
    {
        let ghost ids = self.cell_particle_ids@;
        let ghost n = self.particle_count();
        let mut cnt = base;
        let mut q = start;
        while q < end
            invariant
                start <= q <= end <= n,
                n == ids.len(),
                ids == self.cell_particle_ids@,
                self.cells_valid(),
                i < n,
                decides_pairs(*f, n),
                base + accepted(*f, i, ids.subrange(start as int, end as int)).len() <= usize::MAX,
                cnt == base + accepted(*f, i, ids.subrange(start as int, q as int)).len(),
            decreases end - q,
        {
            let j = self.cell_particle_ids[q];
            proof {
                assert(ids.subrange(start as int, q + 1).drop_last() =~= ids.subrange(start as int, q as int));
                assert(ids.subrange(start as int, q + 1).last() == j);
                assert(ids.subrange(start as int, end as int)
                    =~= ids.subrange(start as int, q + 1) + ids.subrange(q + 1, end as int));
                lemma_accepted_append(*f, i, ids.subrange(start as int, q + 1), ids.subrange(q + 1, end as int));
            }
            let b = f(i, j);
            if b {
                cnt = cnt + 1;
            }
            q = q + 1;
        }
        cnt
    }

    /// How many candidates of a particle `i` of cell `c` `f` accepts.
    fn count_candidates<F: Fn(usize, usize) -> bool>(&self, c: usize, i: usize, f: &F) -> (cnt: usize)
        requires
            self.dims_ok(),
            self.cells_valid(),
            self.table_valid(),
            c < self.total_cells(),
            i < self.particle_count(),
            decides_pairs(*f, self.particle_count()),
            accepted(*f, i, self.candidates(c as int)).len() <= usize::MAX,
        ensures
            cnt == accepted(*f, i, self.candidates(c as int)).len(),
    {
        let ghost list = self.neighbour_table@[c as int]@;
        let ghost own = self.segment(c as int);
        proof {
            self.lemma_segment_bounds(c as int);
            lemma_accepted_append(*f, i, own, self.members_of_cells(list));
        }
        let mut cnt = self.count_range(self.cell_offsets[c], self.cell_offsets[c + 1], i, f, 0);
        let row = &self.neighbour_table[c];
        let mut k: usize = 0;
        while k < row.len()
            invariant
                k <= row@.len(),
                row@ == list,
                list == self.neighbour_table@[c as int]@,
                own == self.segment(c as int),
                self.dims_ok(),
                self.cells_valid(),
                self.table_valid(),
                c < self.total_cells(),
                i < self.particle_count(),
                decides_pairs(*f, self.particle_count()),
                accepted(*f, i, self.candidates(c as int)).len() <= usize::MAX,
                cnt == accepted(*f, i, own + self.members_of_cells(list.take(k as int))).len(),
            decreases row@.len() - k,
        {
            let nc = row[k];
            proof {
                assert(list[k as int] < self.total_cells());
                self.lemma_segment_bounds(nc as int);
                assert(list.take(k + 1).drop_last() =~= list.take(k as int));
                assert(list.take(k + 1).last() == nc);
                let pre = self.members_of_cells(list.take(k as int));
                let seg = self.segment(nc as int);
                assert(self.members_of_cells(list.take(k + 1)) == pre + seg);
                assert(own + (pre + seg) =~= (own + pre) + seg);
                lemma_accepted_append(*f, i, own + pre, seg);
                assert(list =~= list.take(k + 1) + list.skip(k + 1));
                self.lemma_members_of_cells_append(list.take(k + 1), list.skip(k + 1));
                assert(own + self.members_of_cells(list) =~= (own + (pre + seg)) + self.members_of_cells(list.skip(k + 1)));
                lemma_accepted_append(*f, i, own + (pre + seg), self.members_of_cells(list.skip(k + 1)));
            }
            cnt = self.count_range(self.cell_offsets[nc], self.cell_offsets[nc + 1], i, f, cnt);
            k = k + 1;
        }
        proof {
            assert(list.take(row@.len() as int) =~= list);
        }
        cnt
    }
}

/// The cell-storage facts depend only on the dimensions and the cell storage.
pub proof fn lemma_same_cells(a: CellGrid, b: CellGrid)
    requires
        a.num_cells == b.num_cells,
        a.cell_offsets == b.cell_offsets,
        a.cell_particle_ids == b.cell_particle_ids,
        a.neighbour_table == b.neighbour_table,
    ensures
        a.cells_valid() == b.cells_valid(),
        a.table_valid() == b.table_valid(),
        a.particle_count() == b.particle_count(),
        a.total_cells() == b.total_cells(),
        forall|c: int| #[trigger] a.segment(c) == b.segment(c),
        forall|c: int| #[trigger] a.candidates(c) == b.candidates(c),
        forall|i: int| #[trigger] a.cell_of(i) == b.cell_of(i),
{
    assert(a.cell_offsets@ == b.cell_offsets@);
    assert(a.cell_particle_ids@ == b.cell_particle_ids@);
    assert(a.neighbour_table@ == b.neighbour_table@);
}

impl CellGrid {
    /// Every field but the Verlet storage equals that of `other`.
    pub open spec fn same_except_verlet(self, other: CellGrid) -> bool {
        &&& self.num_cells == other.num_cells
        &&& self.strides == other.strides
        &&& self.periodic == other.periodic
        &&& self.neighbour_table == other.neighbour_table
        &&& self.cell_offsets == other.cell_offsets
        &&& self.cell_particle_ids == other.cell_particle_ids
        &&& self.last_particle_count == other.last_particle_count
    }

    /// First pass of the Verlet build: the number of neighbours of each particle.
    fn count_pass<F: Fn(usize, usize) -> bool>(&mut self, f: &F)
        requires
            old(self).dims_ok(),
            old(self).cells_valid(),
            old(self).table_valid(),
            old(self).counts@.len() == old(self).particle_count(),
            decides_pairs(*f, old(self).particle_count()),
            old(self).verlet_total(*f, old(self).particle_count()) <= usize::MAX,
        ensures
            final(self).same_except_verlet(*old(self)),
            final(self).verlet_offsets == old(self).verlet_offsets,
            final(self).verlet_particle_ids == old(self).verlet_particle_ids,
            final(self).counts@.len() == old(self).particle_count(),
            forall|i: int| 0 <= i < old(self).particle_count() ==>
                #[trigger] final(self).counts@[i] == old(self).expected_verlet(*f, i).len(),
    {
        let ghost s0 = *self;
        let n = self.cell_particle_ids.len();
        let mut k: usize = 0;
        while k < n
            invariant
                k <= n,
                n == s0.particle_count(),
                self.counts@.len() == n,
                self.same_except_verlet(s0),
                self.verlet_offsets == s0.verlet_offsets,
                self.verlet_particle_ids == s0.verlet_particle_ids,
                forall|j: int| 0 <= j < k ==> #[trigger] self.counts@[j] == 0,
            decreases n - k,
        {
            self.counts.set(k, 0);
            k = k + 1;
        }
        let total = self.num_cells[0] * self.num_cells[1] * self.num_cells[2];
        let ghost ids = self.cell_particle_ids@;
        let ghost offs = self.cell_offsets@;
        let mut c: usize = 0;
        while c < total
            invariant
                c <= total,
                total == s0.total_cells(),
                n == s0.particle_count(),
                ids == s0.cell_particle_ids@,
                offs == s0.cell_offsets@,
                self.counts@.len() == n,
                self.same_except_verlet(s0),
                self.verlet_offsets == s0.verlet_offsets,
                self.verlet_particle_ids == s0.verlet_particle_ids,
                s0.dims_ok(),
                s0.cells_valid(),
                s0.table_valid(),
                decides_pairs(*f, n as int),
                s0.verlet_total(*f, n as int) <= usize::MAX,
                forall|q: int| 0 <= q < offs[c as int] ==>
                    #[trigger] self.counts@[ids[q] as int] == s0.expected_verlet(*f, ids[q] as int).len(),
                forall|q: int| offs[c as int] <= q < n ==> #[trigger] self.counts@[ids[q] as int] == 0,
            decreases total - c,
        {
            let start = self.cell_offsets[c];
            let end = self.cell_offsets[c + 1];
            proof {
                s0.lemma_segment_bounds(c as int);
            }
            let mut p = start;
            while p < end
                invariant
                    start <= p <= end,
                    start == offs[c as int],
                    end == offs[c + 1],
                    c < total,
                    total == s0.total_cells(),
                    n == s0.particle_count(),
                    end <= n,
                    ids == s0.cell_particle_ids@,
                    offs == s0.cell_offsets@,
                    self.counts@.len() == n,
                    self.same_except_verlet(s0),
                    self.verlet_offsets == s0.verlet_offsets,
                    self.verlet_particle_ids == s0.verlet_particle_ids,
                    s0.dims_ok(),
                    s0.cells_valid(),
                    s0.table_valid(),
                    decides_pairs(*f, n as int),
                    s0.verlet_total(*f, n as int) <= usize::MAX,
                    forall|q: int| 0 <= q < p ==>
                        #[trigger] self.counts@[ids[q] as int] == s0.expected_verlet(*f, ids[q] as int).len(),
                    forall|q: int| p <= q < n ==> #[trigger] self.counts@[ids[q] as int] == 0,
                decreases end - p,
            {
                let i = self.cell_particle_ids[p];
                proof {
                    s0.lemma_cell_of_position(c as int, p as int);
                    s0.lemma_verlet_total_monotone(*f, i as int, n as int);
                }
                proof {
                    lemma_same_cells(*self, s0);
                    assert(s0.cell_of(i as int) == c);
                    assert(s0.expected_verlet(*f, i as int) == accepted(*f, i, s0.candidates(c as int)));
                    assert(accepted(*f, i, s0.candidates(c as int)).len() <= usize::MAX);
                    assert(self.candidates(c as int) == s0.candidates(c as int));
                }
                let cnt = self.count_candidates(c, i, f);
                assert(self.counts@[i as int] == 0);
                let current = self.counts[i];
                self.counts.set(i, current + cnt);
                assert forall|q: int| 0 <= q < p + 1 implies
                    #[trigger] self.counts@[ids[q] as int] == s0.expected_verlet(*f, ids[q] as int).len() by {
                    if q < p {
                        assert(ids[q] != ids[p as int]);
                    }
                }
                assert forall|q: int| p + 1 <= q < n implies #[trigger] self.counts@[ids[q] as int] == 0 by {
                    assert(ids[p as int] != ids[q]);
                }
                p = p + 1;
            }
            c = c + 1;
        }
        assert forall|i: int| 0 <= i < n implies #[trigger] self.counts@[i] == s0.expected_verlet(*f, i).len() by {
            let d = s0.cell_of(i);
            s0.lemma_segment_bounds(d);
            let r = choose|r: int| 0 <= r < s0.segment(d).len() && s0.segment(d)[r] == i as usize;
            let q = offs[d] + r;
            assert(ids[q] == i);
        }
    }
}

impl CellGrid {
    /// Writes the stored particles at positions `start..end` that `f` accepts
    /// as neighbours of `i` into `out`, from index `pos` on.
    fn fill_range<F: Fn(usize, usize) -> bool>(
        &self,
        start: usize,
        end: usize,
        i: usize,
        f: &F,
        out: &mut Vec<usize>,
        pos: usize,
    ) -> (new_pos: usize)
        requires
            self.cells_valid(),
            start <= end <= self.particle_count(),
            i < self.particle_count(),
            decides_pairs(*f, self.particle_count()),
            pos + accepted(*f, i, self.cell_particle_ids@.subrange(start as int, end as int)).len() <= old(out)@.len(),
        ensures
            new_pos == pos + accepted(*f, i, self.cell_particle_ids@.subrange(start as int, end as int)).len(),
            final(out)@.len() == old(out)@.len(),
            final(out)@.subrange(pos as int, new_pos as int)
                == accepted(*f, i, self.cell_particle_ids@.subrange(start as int, end as int)),
            forall|k: int| 0 <= k < old(out)@.len() && !(pos <= k < new_pos) ==> #[trigger] final(out)@[k] == old(out)@[k],
    {
        let ghost ids = self.cell_particle_ids@;
        let ghost n = self.particle_count();
        let ghost out0 = out@;
        let cap = out.len();
        let mut cur = pos;
        let mut q = start;
        while q < end
            invariant
                start <= q <= end <= n,
                n == ids.len(),
                ids == self.cell_particle_ids@,
                self.cells_valid(),
                i < n,
                decides_pairs(*f, n),
                pos + accepted(*f, i, ids.subrange(start as int, end as int)).len() <= out0.len(),
                out@.len() == out0.len(),
                cap == out0.len(),
                cur == pos + accepted(*f, i, ids.subrange(start as int, q as int)).len(),
                out@.subrange(pos as int, cur as int) == accepted(*f, i, ids.subrange(start as int, q as int)),
                forall|k: int| 0 <= k < out0.len() && !(pos <= k < cur) ==> #[trigger] out@[k] == out0[k],
            decreases end - q,
        {
            let j = self.cell_particle_ids[q];
            proof {
                assert(ids.subrange(start as int, q + 1).drop_last() =~= ids.subrange(start as int, q as int));
                assert(ids.subrange(start as int, q + 1).last() == j);
                assert(ids.subrange(start as int, end as int)
                    =~= ids.subrange(start as int, q + 1) + ids.subrange(q + 1, end as int));
                lemma_accepted_append(*f, i, ids.subrange(start as int, q + 1), ids.subrange(q + 1, end as int));
            }
            let b = f(i, j);
            if b {
                assert(cur + 1 <= cap);
                let ghost before = out@;
                out.set(cur, j);
                assert(out@.subrange(pos as int, cur + 1) =~= before.subrange(pos as int, cur as int).push(j));
                cur = cur + 1;
            }
            q = q + 1;
        }
        cur
    }

    /// Writes the candidates of a particle `i` of cell `c` that `f` accepts
    /// into `out`, from index `pos` on.
    fn fill_candidates<F: Fn(usize, usize) -> bool>(
        &self,
        c: usize,
        i: usize,
        f: &F,
        out: &mut Vec<usize>,
        pos: usize,
    ) -> (new_pos: usize)
        requires
            self.dims_ok(),
            self.cells_valid(),
            self.table_valid(),
            c < self.total_cells(),
            i < self.particle_count(),
            decides_pairs(*f, self.particle_count()),
            pos + accepted(*f, i, self.candidates(c as int)).len() <= old(out)@.len(),
        ensures
            new_pos == pos + accepted(*f, i, self.candidates(c as int)).len(),
            final(out)@.len() == old(out)@.len(),
            final(out)@.subrange(pos as int, new_pos as int) == accepted(*f, i, self.candidates(c as int)),
            forall|k: int| 0 <= k < old(out)@.len() && !(pos <= k < new_pos) ==> #[trigger] final(out)@[k] == old(out)@[k],
    {
        let ghost list = self.neighbour_table@[c as int]@;
        let ghost own = self.segment(c as int);
        let ghost out0 = out@;
        proof {
            self.lemma_segment_bounds(c as int);
            lemma_accepted_append(*f, i, own, self.members_of_cells(list));
        }
        let mut cur = self.fill_range(self.cell_offsets[c], self.cell_offsets[c + 1], i, f, out, pos);
        let row = &self.neighbour_table[c];
        let mut k: usize = 0;
        while k < row.len()
            invariant
                k <= row@.len(),
                row@ == list,
                list == self.neighbour_table@[c as int]@,
                own == self.segment(c as int),
                self.dims_ok(),
                self.cells_valid(),
                self.table_valid(),
                c < self.total_cells(),
                i < self.particle_count(),
                decides_pairs(*f, self.particle_count()),
                pos + accepted(*f, i, self.candidates(c as int)).len() <= out0.len(),
                out@.len() == out0.len(),
                cur == pos + accepted(*f, i, own + self.members_of_cells(list.take(k as int))).len(),
                out@.subrange(pos as int, cur as int) == accepted(*f, i, own + self.members_of_cells(list.take(k as int))),
                forall|m: int| 0 <= m < out0.len() && !(pos <= m < cur) ==> #[trigger] out@[m] == out0[m],
            decreases row@.len() - k,
        {
            let nc = row[k];
            let ghost pre = self.members_of_cells(list.take(k as int));
            let ghost seg = self.segment(nc as int);
            proof {
                assert(list[k as int] < self.total_cells());
                self.lemma_segment_bounds(nc as int);
                assert(list.take(k + 1).drop_last() =~= list.take(k as int));
                assert(list.take(k + 1).last() == nc);
                assert(self.members_of_cells(list.take(k + 1)) == pre + seg);
                assert(own + (pre + seg) =~= (own + pre) + seg);
                lemma_accepted_append(*f, i, own + pre, seg);
                assert(list =~= list.take(k + 1) + list.skip(k + 1));
                self.lemma_members_of_cells_append(list.take(k + 1), list.skip(k + 1));
                assert(own + self.members_of_cells(list) =~= (own + (pre + seg)) + self.members_of_cells(list.skip(k + 1)));
                lemma_accepted_append(*f, i, own + (pre + seg), self.members_of_cells(list.skip(k + 1)));
            }
            let ghost before = out@;
            let ghost cur0 = cur;
            cur = self.fill_range(self.cell_offsets[nc], self.cell_offsets[nc + 1], i, f, out, cur);
            proof {
                assert(out@.subrange(pos as int, cur as int)
                    =~= before.subrange(pos as int, cur0 as int) + out@.subrange(cur0 as int, cur as int));
            }
            k = k + 1;
        }
        proof {
            assert(list.take(row@.len() as int) =~= list);
        }
        cur
    }
}

impl CellGrid {
    /// Last pass of the Verlet build: each particle's list written at its offset.
    #[verifier::spinoff_prover]
    #[verifier::rlimit(40)]
    fn fill_pass<F: Fn(usize, usize) -> bool>(&mut self, f: &F)
        requires
            old(self).dims_ok(),
            old(self).cells_valid(),
            old(self).table_valid(),
            decides_pairs(*f, old(self).particle_count()),
            old(self).verlet_offsets@.len() == old(self).particle_count() + 1,
            forall|i: int| 0 <= i <= old(self).particle_count() ==>
                #[trigger] old(self).verlet_offsets@[i] == old(self).verlet_total(*f, i),
            old(self).verlet_particle_ids@.len() == old(self).verlet_total(*f, old(self).particle_count()),
        ensures
            final(self).same_except_verlet(*old(self)),
            final(self).verlet_offsets == old(self).verlet_offsets,
            final(self).counts == old(self).counts,
            final(self).verlet_particle_ids@.len() == old(self).verlet_particle_ids@.len(),
            forall|i: int| 0 <= i < old(self).particle_count() ==>
                #[trigger] final(self).verlet_list(i) == old(self).expected_verlet(*f, i),
    {
        let ghost s0 = *self;
        let n = self.cell_particle_ids.len();
        let ghost vo = self.verlet_offsets@;
        let ghost ids = self.cell_particle_ids@;
        let ghost offs = self.cell_offsets@;
        let mut out: Vec<usize> = Vec::new();
        std::mem::swap(&mut out, &mut self.verlet_particle_ids);
        let mut current_pos = self.verlet_offsets.clone();
        assert(current_pos@ =~= vo);
        proof {
            lemma_same_cells(*self, s0);
            assert forall|a: int, b: int| 0 <= a <= b <= n implies #[trigger] vo[a] <= #[trigger] vo[b] by {
                s0.lemma_verlet_total_monotone(*f, a, b);
            }
        }
        let total = self.num_cells[0] * self.num_cells[1] * self.num_cells[2];
        let mut c: usize = 0;
        while c < total
            invariant
                c <= total,
                total == s0.total_cells(),
                n == s0.particle_count(),
                ids == s0.cell_particle_ids@,
                offs == s0.cell_offsets@,
                vo == s0.verlet_offsets@,
                self.same_except_verlet(s0),
                self.verlet_offsets == s0.verlet_offsets,
                self.counts == s0.counts,
                s0.dims_ok(),
                s0.cells_valid(),
                s0.table_valid(),
                decides_pairs(*f, n as int),
                vo.len() == n + 1,
                forall|k: int| 0 <= k <= n ==> #[trigger] vo[k] == s0.verlet_total(*f, k),
                forall|a: int, b: int| 0 <= a <= b <= n ==> #[trigger] vo[a] <= #[trigger] vo[b],
                out@.len() == s0.verlet_total(*f, n as int),
                current_pos@.len() == n + 1,
                forall|q: int| 0 <= q < offs[c as int] ==> #[trigger] current_pos@[ids[q] as int] == vo[ids[q] + 1],
                forall|q: int| 0 <= q < offs[c as int] ==>
                    out@.subrange(vo[#[trigger] ids[q] as int] as int, vo[ids[q] + 1] as int) == s0.expected_verlet(*f, ids[q] as int),
                forall|q: int| offs[c as int] <= q < n ==> #[trigger] current_pos@[ids[q] as int] == vo[ids[q] as int],
            decreases total - c,
        {
            let start = self.cell_offsets[c];
            let end = self.cell_offsets[c + 1];
            proof {
                s0.lemma_segment_bounds(c as int);
            }
            let mut p = start;
            while p < end
                invariant
                    start <= p <= end,
                    start == offs[c as int],
                    end == offs[c + 1],
                    c < total,
                    end <= n,
                    total == s0.total_cells(),
                    n == s0.particle_count(),
                    ids == s0.cell_particle_ids@,
                    offs == s0.cell_offsets@,
                    vo == s0.verlet_offsets@,
                    self.same_except_verlet(s0),
                    self.verlet_offsets == s0.verlet_offsets,
                    self.counts == s0.counts,
                    s0.dims_ok(),
                    s0.cells_valid(),
                    s0.table_valid(),
                    decides_pairs(*f, n as int),
                    vo.len() == n + 1,
                    forall|k: int| 0 <= k <= n ==> #[trigger] vo[k] == s0.verlet_total(*f, k),
                    forall|a: int, b: int| 0 <= a <= b <= n ==> #[trigger] vo[a] <= #[trigger] vo[b],
                    out@.len() == s0.verlet_total(*f, n as int),
                    current_pos@.len() == n + 1,
                    forall|q: int| 0 <= q < p ==> #[trigger] current_pos@[ids[q] as int] == vo[ids[q] + 1],
                    forall|q: int| 0 <= q < p ==>
                        out@.subrange(vo[#[trigger] ids[q] as int] as int, vo[ids[q] + 1] as int) == s0.expected_verlet(*f, ids[q] as int),
                    forall|q: int| p <= q < n ==> #[trigger] current_pos@[ids[q] as int] == vo[ids[q] as int],
                decreases end - p,
            {
                let i = self.cell_particle_ids[p];
                proof {
                    lemma_same_cells(*self, s0);
                    s0.lemma_cell_of_position(c as int, p as int);
                    assert(s0.expected_verlet(*f, i as int) == accepted(*f, i, s0.candidates(c as int)));
                    assert(vo[i + 1] == vo[i as int] + s0.expected_verlet(*f, i as int).len());
                    assert(vo[i + 1] <= vo[n as int]);
                }
                let pos = current_pos[i];
                let ghost out_before = out@;
                let new_pos = self.fill_candidates(c, i, f, &mut out, pos);
                current_pos.set(i, new_pos);
                assert forall|q: int| 0 <= q < p + 1 implies
                    #[trigger] current_pos@[ids[q] as int] == vo[ids[q] + 1] by {
                    if q < p {
                        assert(ids[q] != ids[p as int]);
                    }
                }
                assert forall|q: int| 0 <= q < p + 1 implies
                    out@.subrange(vo[#[trigger] ids[q] as int] as int, vo[ids[q] + 1] as int) == s0.expected_verlet(*f, ids[q] as int) by {
                    if q < p {
                        let k = ids[q] as int;
                        assert(ids[q] != ids[p as int]);
                        if k < i {
                            assert(vo[k + 1] <= vo[i as int]);
                        } else {
                            assert(vo[i + 1] <= vo[k]);
                        }
                        assert(out@.subrange(vo[k] as int, vo[k + 1] as int)
                            =~= out_before.subrange(vo[k] as int, vo[k + 1] as int));
                    }
                }
                assert forall|q: int| p + 1 <= q < n implies #[trigger] current_pos@[ids[q] as int] == vo[ids[q] as int] by {
                    assert(ids[p as int] != ids[q]);
                }
                p = p + 1;
            }
            c = c + 1;
        }
        self.verlet_particle_ids = out;
        proof {
            lemma_same_cells(*self, s0);
        }
        assert forall|i: int| 0 <= i < n implies #[trigger] self.verlet_list(i) == s0.expected_verlet(*f, i) by {
            let d = s0.cell_of(i);
            s0.lemma_segment_bounds(d);
            let r = choose|r: int| 0 <= r < s0.segment(d).len() && s0.segment(d)[r] == i as usize;
            let q = offs[d] + r;
            assert(offs[d + 1] <= offs[total as int]);
            assert(ids[q] == i);
        }
    }

    /// Rebuilds every particle's Verlet list: the particles of its own cell and
    /// of the neighbouring cells, in that order, that `add_to_verlet` accepts.
    pub fn rebuild_verlet_table<F: Fn(usize, usize) -> bool>(&mut self, add_to_verlet: &F)
        requires
            old(self).dims_ok(),
            old(self).cells_valid(),
            old(self).table_valid(),
            decides_pairs(*add_to_verlet, old(self).particle_count()),
            old(self).counts@.len() == old(self).particle_count(),
            old(self).verlet_offsets@.len() == old(self).particle_count() + 1,
            old(self).verlet_total(*add_to_verlet, old(self).particle_count()) <= usize::MAX,
        ensures
            final(self).same_except_verlet(*old(self)),
            final(self).verlet_built(*add_to_verlet),
    {
        let ghost s0 = *self;
        let n = self.cell_particle_ids.len();
        self.count_pass(add_to_verlet);
        proof {
            lemma_same_cells(*self, s0);
        }
        self.verlet_offsets.set(0, 0);
        let mut i: usize = 0;
        while i < n
            invariant
                i <= n,
                n == s0.particle_count(),
                self.same_except_verlet(s0),
                self.counts@.len() == n,
                self.verlet_offsets@.len() == n + 1,
                s0.verlet_total(*add_to_verlet, n as int) <= usize::MAX,
                forall|k: int| 0 <= k < n ==> #[trigger] self.counts@[k] == s0.expected_verlet(*add_to_verlet, k).len(),
                forall|k: int| 0 <= k <= i ==> #[trigger] self.verlet_offsets@[k] == s0.verlet_total(*add_to_verlet, k),
            decreases n - i,
        {
            proof {
                s0.lemma_verlet_total_monotone(*add_to_verlet, i as int, n as int);
            }
            let next = self.verlet_offsets[i] + self.counts[i];
            self.verlet_offsets.set(i + 1, next);
            i = i + 1;
        }
        let total_pairs = self.verlet_offsets[n];
        self.verlet_particle_ids.resize(total_pairs, 0);
        proof {
            lemma_same_cells(*self, s0);
        }
        self.fill_pass(add_to_verlet);
        proof {
            lemma_same_cells(*self, s0);
        }
    }
}

/// Every value kept by `collect_unique` comes from `s`, differs from
/// `usize::MAX` and from `exclude`, and occurs once; every such value of `s` is kept.
pub proof fn lemma_collect_unique(s: Seq<usize>, exclude: usize)
    ensures
        forall|k: int| 0 <= k < collect_unique(s, exclude).len() ==> {
            &&& s.contains(#[trigger] collect_unique(s, exclude)[k])
            &&& collect_unique(s, exclude)[k] != usize::MAX
            &&& collect_unique(s, exclude)[k] != exclude
        },
        forall|a: int, b: int| 0 <= a < b < collect_unique(s, exclude).len() ==>
            #[trigger] collect_unique(s, exclude)[a] != #[trigger] collect_unique(s, exclude)[b],
        forall|v: usize| s.contains(v) && v != usize::MAX && v != exclude ==> #[trigger] collect_unique(s, exclude).contains(v),
        collect_unique(s, exclude).len() <= s.len(),
    decreases s.len(),
{
    if s.len() > 0 {
        let prev = collect_unique(s.drop_last(), exclude);
        lemma_collect_unique(s.drop_last(), exclude);
        let cur = collect_unique(s, exclude);
        let v = s.last();
        assert forall|k: int| 0 <= k < cur.len() implies {
            &&& s.contains(#[trigger] cur[k])
            &&& cur[k] != usize::MAX
            &&& cur[k] != exclude
        } by {
            if k < prev.len() {
                assert(cur[k] == prev[k]);
                let q = choose|q: int| 0 <= q < s.drop_last().len() && s.drop_last()[q] == prev[k];
                assert(s[q] == prev[k]);
            } else {
                assert(s[s.len() - 1] == v);
            }
        }
        assert forall|a: int, b: int| 0 <= a < b < cur.len() implies #[trigger] cur[a] != #[trigger] cur[b] by {
            assert(cur[a] == prev[a]);
            if b < prev.len() {
                assert(cur[b] == prev[b]);
            }
        }
        assert forall|w: usize| s.contains(w) && w != usize::MAX && w != exclude implies #[trigger] cur.contains(w) by {
            let q = choose|q: int| 0 <= q < s.len() && s[q] == w;
            if q < s.len() - 1 {
                assert(s.drop_last()[q] == w);
                assert(s.drop_last().contains(w));
                assert(prev.contains(w));
                let r = choose|r: int| 0 <= r < prev.len() && prev[r] == w;
                assert(cur[r] == w);
            } else {
                if !prev.contains(w) {
                    assert(cur[prev.len() as int] == w);
                } else {
                    let r = choose|r: int| 0 <= r < prev.len() && prev[r] == w;
                    assert(cur[r] == w);
                }
            }
        }
    }
}

/// Decomposes a flat cell index into its coordinates.
pub proof fn lemma_cell_coords(nx: int, ny: int, nz: int, c: int) -> (r: (int, int, int))
    requires
        nx >= 1,
        ny >= 1,
        nz >= 1,
        0 <= c < nx * ny * nz,
    ensures
        0 <= r.0 < nx,
        0 <= r.1 < ny,
        0 <= r.2 < nz,
        r.0 + r.1 * nx + r.2 * (nx * ny) == c,
{
    let z = c / (nx * ny);
    let rem = c % (nx * ny);
    let y = rem / nx;
    let x = rem % nx;
    assert(nx * ny >= 1) by (nonlinear_arith)
        requires nx >= 1, ny >= 1;
    assert(c == z * (nx * ny) + rem && 0 <= rem < nx * ny) by (nonlinear_arith)
        requires nx * ny >= 1, z == c / (nx * ny), rem == c % (nx * ny), c >= 0;
    assert(rem == y * nx + x && 0 <= x < nx) by (nonlinear_arith)
        requires nx >= 1, y == rem / nx, x == rem % nx, rem >= 0;
    assert(0 <= y < ny) by (nonlinear_arith)
        requires rem == y * nx + x, 0 <= x < nx, 0 <= rem < nx * ny, nx >= 1;
    assert(0 <= z < nz) by (nonlinear_arith)
        requires c == z * (nx * ny) + rem, 0 <= rem < nx * ny, 0 <= c < nx * ny * nz, nx * ny >= 1;
    (x, y, z)
}

/// A neighbour index other than `usize::MAX` names a cell of the grid.
pub proof fn lemma_neighbour_index_in_grid(dims: [usize; 3], periodic: [bool; 3], x: int, y: int, z: int, o: (int, int, int))
    requires
        dims[0] >= 1,
        dims[1] >= 1,
        dims[2] >= 1,
        dims[0] * dims[1] * dims[2] < usize::MAX,
    ensures
        grid_neighbour_index(dims, periodic, x, y, z, o) != usize::MAX ==>
            grid_neighbour_index(dims, periodic, x, y, z, o) < dims[0] * dims[1] * dims[2],
{
    match (
        grid_wrapped_coord(dims, periodic, 0, x + o.0),
        grid_wrapped_coord(dims, periodic, 1, y + o.1),
        grid_wrapped_coord(dims, periodic, 2, z + o.2),
    ) {
        (Some(a), Some(b), Some(c)) => {
            lemma_flat_index_bounds(dims[0] as int, dims[1] as int, dims[2] as int, a, b, c);
        },
        _ => {},
    }
}

impl CellGrid {
    /// The neighbour table the coordinates give names only cells of the grid.
    pub proof fn lemma_neighbour_table_valid(self)
        requires
            self.dims_ok(),
            self.neighbour_table_ok(),
        ensures
            self.table_valid(),
    {
        let total = self.total_cells();
        assert forall|c: int, k: int| 0 <= c < total && 0 <= k < self.neighbour_table@[c]@.len() implies
            #[trigger] self.neighbour_table@[c]@[k] < total by {
            let (x, y, z) = lemma_cell_coords(self.nx(), self.ny(), self.nz(), c);
            assert(grid_flat_index(self.num_cells, x, y, z) == c);
            let cands = neighbour_offsets().map_values(
                |o: (int, int, int)| grid_neighbour_index(self.num_cells, self.periodic, x, y, z, o),
            );
            lemma_collect_unique(cands, grid_flat_index(self.num_cells, x, y, z) as usize);
            let v = self.neighbour_table@[c]@[k];
            let q = choose|q: int| 0 <= q < cands.len() && cands[q] == v;
            lemma_neighbour_index_in_grid(self.num_cells, self.periodic, x, y, z, neighbour_offsets()[q]);
        }
    }
}

impl CellGrid {
    /// The cell storage after binning is exactly the sorted layout of `cells`.
    pub proof fn lemma_binned_layout(self, cells: Seq<usize>)
        requires
            self.dims_ok(),
            self.binned(cells),
            cells.len() <= usize::MAX,
            forall|i: int| 0 <= i < cells.len() ==> #[trigger] cells[i] < self.total_cells(),
        ensures
            self.cell_offsets@ == bin_offsets(cells, self.total_cells()),
            self.cell_particle_ids@ == bin_ids(cells, self.total_cells()),
    {
        let total = self.total_cells();
        let offs = self.cell_offsets@;
        let ids = self.cell_particle_ids@;
        lemma_binned_cells_valid(self, cells);
        assert(offs =~= bin_offsets(cells, total));
        self.lemma_prefix_order(cells, total);
        assert(ids.subrange(0, offs[total] as int) =~= ids);
    }
}

impl CellGrid {
    proof fn lemma_prefix_order(self, cells: Seq<usize>, c: int)
        requires
            self.dims_ok(),
            self.binned(cells),
            self.cells_valid(),
            0 <= c <= self.total_cells(),
        ensures
            self.cell_particle_ids@.subrange(0, self.cell_offsets@[c] as int) == cells_order(cells, c),
        decreases c,
    {
        let total = self.total_cells();
        let offs = self.cell_offsets@;
        let ids = self.cell_particle_ids@;
        if c == 0 {
            assert(ids.subrange(0, offs[0] as int) =~= Seq::<usize>::empty());
        } else {
            self.lemma_prefix_order(cells, c - 1);
            assert(offs[c] <= offs[total]);
            assert(offs[c - 1] <= offs[c]);
            assert(self.segment(c - 1) == cell_members_of(cells, c - 1));
            assert(ids.subrange(0, offs[c] as int)
                =~= ids.subrange(0, offs[c - 1] as int) + ids.subrange(offs[c - 1] as int, offs[c] as int));
        }
    }
}

/// The larger of `v` and 1.
pub open spec fn at_least_one(v: usize) -> usize {
    if v == 0 { 1 } else { v }
}

impl CellGrid {
    /// The grid is ready for binning: sane dimensions, the neighbour table its
    /// coordinates give, and buffers sized for `last_particle_count` particles.
    pub open spec fn grid_ok(self) -> bool {
        &&& self.dims_ok()
        &&& self.neighbour_table_ok()
        &&& self.cell_offsets@.len() == self.total_cells() + 1
        &&& self.counts@.len() == self.last_particle_count
        &&& self.verlet_offsets@.len() == self.last_particle_count + 1
    }

    /// A grid of `max(cells_per_axis[k], 1)` cells along each axis, with its
    /// neighbour table built and storage for `particle_count` particles.
    pub fn new(particle_count: usize, cells_per_axis: [usize; 3], periodic: [bool; 3]) -> (grid: CellGrid)
        requires
            at_least_one(cells_per_axis[0]) <= i32::MAX,
            at_least_one(cells_per_axis[1]) <= i32::MAX,
            at_least_one(cells_per_axis[2]) <= i32::MAX,
            at_least_one(cells_per_axis[0]) * at_least_one(cells_per_axis[1]) * at_least_one(cells_per_axis[2])
                < usize::MAX,
            particle_count < usize::MAX,
        ensures
            grid.grid_ok(),
            grid.num_cells == [
                at_least_one(cells_per_axis[0]),
                at_least_one(cells_per_axis[1]),
                at_least_one(cells_per_axis[2]),
            ],
            grid.periodic == periodic,
            grid.cell_offsets@ == Seq::new((grid.total_cells() + 1) as nat, |c: int| 0usize),
            grid.cell_particle_ids@ == Seq::<usize>::empty(),
            grid.counts@ == Seq::new(particle_count as nat, |i: int| 0usize),
            grid.verlet_offsets@ == Seq::new((particle_count + 1) as nat, |i: int| 0usize),
            grid.verlet_particle_ids@ == Seq::<usize>::empty(),
            grid.last_particle_count == particle_count,
    {
        let nx = if cells_per_axis[0] == 0 { 1 } else { cells_per_axis[0] };
        let ny = if cells_per_axis[1] == 0 { 1 } else { cells_per_axis[1] };
        let nz = if cells_per_axis[2] == 0 { 1 } else { cells_per_axis[2] };
        proof {
            lemma_flat_index_bounds(nx as int, ny as int, nz as int, 0, 0, 0);
            assert(nx * ny <= nx * ny * nz) by (nonlinear_arith)
                requires nz >= 1, nx >= 1, ny >= 1;
        }
        let total_cells = nx * ny * nz;
        let cell_offsets: Vec<usize> = vec![0; total_cells + 1];
        let cell_particle_ids: Vec<usize> = Vec::with_capacity(particle_count);
        let counts: Vec<usize> = vec![0; particle_count];
        let verlet_offsets: Vec<usize> = vec![0; particle_count + 1];
        let verlet_particle_ids: Vec<usize> = Vec::new();
        let mut grid = CellGrid {
            num_cells: [nx, ny, nz],
            strides: [1, nx, nx * ny],
            periodic,
            neighbour_table: vec![Vec::new(); total_cells],
            cell_offsets,
            cell_particle_ids,
            verlet_offsets,
            verlet_particle_ids,
            counts,
            last_particle_count: particle_count,
        };
        grid.build_neighbour_table();
        assert(grid.cell_offsets@ =~= Seq::new((grid.total_cells() + 1) as nat, |c: int| 0usize));
        assert(grid.counts@ =~= Seq::new(particle_count as nat, |i: int| 0usize));
        assert(grid.verlet_offsets@ =~= Seq::new((particle_count + 1) as nat, |i: int| 0usize));
        grid
    }

    /// Cell index of the truncated grid coordinates of a position, each
    /// clamped to the last cell along its axis.
    pub fn get_cell_idx_from_pos(&self, x: usize, y: usize, z: usize) -> (idx: usize)
        requires
            self.dims_ok(),
        ensures
            idx == self.flat_index(
                if x < self.num_cells[0] { x as int } else { self.num_cells[0] - 1 },
                if y < self.num_cells[1] { y as int } else { self.num_cells[1] - 1 },
                if z < self.num_cells[2] { z as int } else { self.num_cells[2] - 1 },
            ),
            idx < self.total_cells(),
    {
        let ix = if x < self.num_cells[0] { x } else { self.num_cells[0] - 1 };
        let iy = if y < self.num_cells[1] { y } else { self.num_cells[1] - 1 };
        let iz = if z < self.num_cells[2] { z } else { self.num_cells[2] - 1 };
        proof {
            lemma_flat_index_bounds(self.nx(), self.ny(), self.nz(), ix as int, iy as int, iz as int);
        }
        self.get_1d_idx(ix, iy, iz)
    }

    /// Resizes the per-particle buffers for `particle_count` particles and
    /// empties the Verlet list storage.
    pub fn resize_buffers(&mut self, particle_count: usize)
        requires
            particle_count < usize::MAX,
        ensures
            final(self).counts@.len() == particle_count,
            final(self).verlet_offsets@.len() == particle_count + 1,
            final(self).verlet_particle_ids@ == Seq::<usize>::empty(),
            forall|i: int| 0 <= i < particle_count ==> #[trigger] final(self).counts@[i]
                == if i < old(self).counts@.len() { old(self).counts@[i] } else { 0 },
            forall|i: int| 0 <= i <= particle_count ==> #[trigger] final(self).verlet_offsets@[i]
                == if i < old(self).verlet_offsets@.len() { old(self).verlet_offsets@[i] } else { 0 },
            final(self).same_except_verlet(*old(self)),
    {
        self.counts.resize(particle_count, 0);
        self.verlet_offsets.resize(particle_count + 1, 0);
        self.verlet_particle_ids.clear();
        proof {
            let oc = old(self).counts@;
            let ov = old(self).verlet_offsets@;
            if particle_count > oc.len() {
                assert forall|i: int| 0 <= i < particle_count implies #[trigger] self.counts@[i]
                    == if i < oc.len() { oc[i] } else { 0 } by {
                    if i < oc.len() {
                        assert(self.counts@.subrange(0, oc.len() as int)[i] == self.counts@[i]);
                    }
                }
            }
            if particle_count + 1 > ov.len() {
                assert forall|i: int| 0 <= i <= particle_count implies #[trigger] self.verlet_offsets@[i]
                    == if i < ov.len() { ov[i] } else { 0 } by {
                    if i < ov.len() {
                        assert(self.verlet_offsets@.subrange(0, ov.len() as int)[i] == self.verlet_offsets@[i]);
                    }
                }
            }
        }
    }

    /// Sorts the particles into their cells and builds every Verlet list.
    /// `cells[i]` is the cell of particle `i`; `add_to_verlet(i, j)` says whether
    /// `j` belongs in the list of `i`.
    pub fn init<F: Fn(usize, usize) -> bool>(&mut self, cells: &Vec<usize>, add_to_verlet: &F)
        requires
            old(self).grid_ok(),
            cells@.len() == old(self).last_particle_count,
            forall|i: int| 0 <= i < cells@.len() ==> #[trigger] cells@[i] < old(self).total_cells(),
            decides_pairs(*add_to_verlet, cells@.len() as int),
            verlet_sum(
                *add_to_verlet,
                bin_offsets(cells@, old(self).total_cells()),
                bin_ids(cells@, old(self).total_cells()),
                old(self).neighbour_table@,
                old(self).total_cells(),
                cells@.len() as int,
            ) <= usize::MAX,
        ensures
            final(self).grid_ok(),
            final(self).binned(cells@),
            final(self).cells_valid(),
            final(self).verlet_built(*add_to_verlet),
            forall|i: int| 0 <= i < cells@.len() ==>
                #[trigger] final(self).verlet_list(i) == accepted(*add_to_verlet, i as usize, final(self).candidates(cells@[i] as int)),
            final(self).num_cells == old(self).num_cells,
            final(self).periodic == old(self).periodic,
            final(self).neighbour_table == old(self).neighbour_table,
            final(self).last_particle_count == old(self).last_particle_count,
    {
        self.bin(cells);
        proof {
            lemma_binned_cells_valid(*self, cells@);
            self.lemma_binned_layout(cells@);
            self.lemma_neighbour_table_valid();
        }
        self.rebuild_verlet_table(add_to_verlet);
        proof {
            lemma_binned_cells_valid(*self, cells@);
            assert forall|i: int| 0 <= i < cells@.len() implies
                #[trigger] self.verlet_list(i) == accepted(*add_to_verlet, i as usize, self.candidates(cells@[i] as int)) by {
                assert(self.cell_of(i) == cells@[i]);
            }
        }
    }

    /// Whether the cells and Verlet lists must be rebuilt: the particle count
    /// changed, or some particle moved further than half the skin.
    pub fn needs_rebuild(&self, particle_count: usize, moved_too_far: bool) -> (b: bool)
        ensures
            b == (particle_count != self.last_particle_count || moved_too_far),
    {
        particle_count != self.last_particle_count || moved_too_far
    }

    /// Rebuilds cells and Verlet lists for the particles whose cells are
    /// `cells`, resizing the buffers first if the particle count changed.
    pub fn rebuild<F: Fn(usize, usize) -> bool>(&mut self, cells: &Vec<usize>, add_to_verlet: &F)
        requires
            old(self).grid_ok(),
            cells@.len() < usize::MAX,
            forall|i: int| 0 <= i < cells@.len() ==> #[trigger] cells@[i] < old(self).total_cells(),
            decides_pairs(*add_to_verlet, cells@.len() as int),
            verlet_sum(
                *add_to_verlet,
                bin_offsets(cells@, old(self).total_cells()),
                bin_ids(cells@, old(self).total_cells()),
                old(self).neighbour_table@,
                old(self).total_cells(),
                cells@.len() as int,
            ) <= usize::MAX,
        ensures
            final(self).grid_ok(),
            final(self).binned(cells@),
            final(self).cells_valid(),
            final(self).verlet_built(*add_to_verlet),
            forall|i: int| 0 <= i < cells@.len() ==>
                #[trigger] final(self).verlet_list(i) == accepted(*add_to_verlet, i as usize, final(self).candidates(cells@[i] as int)),
            final(self).last_particle_count == cells@.len(),
            final(self).num_cells == old(self).num_cells,
            final(self).periodic == old(self).periodic,
            final(self).neighbour_table == old(self).neighbour_table,
    {
        let n = cells.len();
        if n != self.last_particle_count {
            self.resize_buffers(n);
        }
        self.last_particle_count = n;
        self.init(cells, add_to_verlet);
    }
}

impl CellGrid {
    /// Rebuilds cells and Verlet lists when the particle count changed or
    /// some particle moved too far, and says whether it did; otherwise the
    /// grid is left as it was. `cells` are the particles' current cells.
    pub fn check_and_rebuild_neighbours<F: Fn(usize, usize) -> bool>(
        &mut self,
        cells: &Vec<usize>,
        moved_too_far: bool,
        add_to_verlet: &F,
    ) -> (rebuilt: bool)
        requires
            old(self).grid_ok(),
            cells@.len() < usize::MAX,
            forall|i: int| 0 <= i < cells@.len() ==> #[trigger] cells@[i] < old(self).total_cells(),
            decides_pairs(*add_to_verlet, cells@.len() as int),
            verlet_sum(
                *add_to_verlet,
                bin_offsets(cells@, old(self).total_cells()),
                bin_ids(cells@, old(self).total_cells()),
                old(self).neighbour_table@,
                old(self).total_cells(),
                cells@.len() as int,
            ) <= usize::MAX,
        ensures
            rebuilt == (cells@.len() != old(self).last_particle_count || moved_too_far),
            !rebuilt ==> *final(self) == *old(self),
            rebuilt ==> {
                &&& final(self).grid_ok()
                &&& final(self).binned(cells@)
                &&& final(self).cells_valid()
                &&& final(self).verlet_built(*add_to_verlet)
                &&& forall|i: int| 0 <= i < cells@.len() ==>
                    #[trigger] final(self).verlet_list(i) == accepted(*add_to_verlet, i as usize, final(self).candidates(cells@[i] as int))
                &&& final(self).last_particle_count == cells@.len()
                &&& final(self).num_cells == old(self).num_cells
                &&& final(self).periodic == old(self).periodic
                &&& final(self).neighbour_table == old(self).neighbour_table
            },
    {
        if self.needs_rebuild(cells.len(), moved_too_far) {
            self.rebuild(cells, add_to_verlet);
            true
        } else {
            false
        }
    }
}

/// The type pair `pair` is `[a, b]`.
pub open spec fn pair_is(pair: [u8; 2], a: usize, b: usize) -> bool {
    pair[0] as usize == a && pair[1] as usize == b
}

/// `pairs` lists the type pair `[a, b]`.
pub open spec fn lists_pair(pairs: Seq<[u8; 2]>, a: usize, b: usize) -> bool {
    exists|k: int| 0 <= k < pairs.len() && pair_is(#[trigger] pairs[k], a, b)
}

/// Whether particle `j` may enter the Verlet list of particle `i`: they belong
/// to different molecules and the pair of their types `[ptype_i, ptype_j]`
/// is listed among the interacting types (in that direction).
pub fn pair_interacts(
    molecule_i: usize,
    molecule_j: usize,
    ptype_i: usize,
    ptype_j: usize,
    interaction_ptypes: &Vec<[u8; 2]>,
) -> (b: bool)
    ensures
        b == (molecule_i != molecule_j && lists_pair(interaction_ptypes@, ptype_i, ptype_j)),
{
    if molecule_i == molecule_j {
        return false;
    }
    let mut k: usize = 0;
    while k < interaction_ptypes.len()
        invariant
            k <= interaction_ptypes@.len(),
            molecule_i != molecule_j,
            forall|m: int| 0 <= m < k ==> !pair_is(#[trigger] interaction_ptypes@[m], ptype_i, ptype_j),
        decreases interaction_ptypes@.len() - k,
    {
        let pair = interaction_ptypes[k];
        if pair[0] as usize == ptype_i && pair[1] as usize == ptype_j {
            assert(pair_is(interaction_ptypes@[k as int], ptype_i, ptype_j));
            return true;
        }
        k = k + 1;
    }
    false
}

} // verus!
