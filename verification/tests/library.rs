use md::box_mesh::{Bound, BoxMesh};
use md::cell_grid::{pair_interacts, CellGrid};
use md::ids::{next_id, IdCounter};
use md::molecules::group_by_molecule;
use md::schedule::RunSchedule;
use md::snapshot::{latest_first, parse_snapshot_step, snapshot_file_name};

// ---------------------------------------------------------------- ids

#[test]
fn ids_count_up_from_zero() {
    let mut c = IdCounter::new();
    assert_eq!(next_id(&mut c), 0);
    assert_eq!(next_id(&mut c), 1);
    assert_eq!(next_id(&mut c), 2);
    assert_eq!(c.next, 3);
}

#[test]
fn ids_wrap_at_the_top() {
    let mut c = IdCounter { next: usize::MAX };
    assert_eq!(next_id(&mut c), usize::MAX);
    assert_eq!(next_id(&mut c), 0);
}

#[test]
fn ids_are_distinct() {
    let mut c = IdCounter { next: usize::MAX - 50 };
    let mut seen: Vec<usize> = Vec::new();
    for _ in 0..100 {
        let id = next_id(&mut c);
        assert!(!seen.contains(&id));
        seen.push(id);
    }
}

// ---------------------------------------------------------------- snapshots

#[test]
fn snapshot_name_is_zero_padded() {
    assert_eq!(snapshot_file_name("particles", 42, "parquet"), "particles_0000000042.parquet");
    assert_eq!(snapshot_file_name("objects", 0, "parquet"), "objects_0000000000.parquet");
    assert_eq!(snapshot_file_name("sim_config", 1, "json"), "sim_config_0000000001.json");
}

#[test]
fn snapshot_name_keeps_long_steps() {
    assert_eq!(snapshot_file_name("particles", 12345678901, "parquet"), "particles_12345678901.parquet");
}

#[test]
fn snapshot_name_round_trip() {
    for step in [0usize, 7, 100, 9_999_999_999, 123_456_789_012, usize::MAX] {
        let name = snapshot_file_name("particles", step, "parquet");
        assert_eq!(parse_snapshot_step(&name, "particles", "parquet"), Some(step));
    }
}

#[test]
fn snapshot_parse_rejects_other_names() {
    assert_eq!(parse_snapshot_step("objects_0000000010.parquet", "particles", "parquet"), None);
    assert_eq!(parse_snapshot_step("particles_0000000010.json", "particles", "parquet"), None);
    assert_eq!(parse_snapshot_step("particles_.parquet", "particles", "parquet"), None);
    assert_eq!(parse_snapshot_step("particles_12a4.parquet", "particles", "parquet"), None);
    assert_eq!(parse_snapshot_step("particles_99999999999999999999999.parquet", "particles", "parquet"), None);
    assert_eq!(parse_snapshot_step("particles", "particles", "parquet"), None);
}

#[test]
fn snapshot_parse_accepts_short_and_signed_digits() {
    assert_eq!(parse_snapshot_step("particles_5.parquet", "particles", "parquet"), Some(5));
    assert_eq!(parse_snapshot_step("particles_+17.parquet", "particles", "parquet"), Some(17));
}

#[test]
fn latest_snapshot_is_tried_first() {
    let steps = vec![300, 1000, 0, 700, 1000];
    assert_eq!(latest_first(&steps), vec![1, 4, 3, 0, 2]);
    assert_eq!(latest_first(&Vec::new()), Vec::<usize>::new());
}

// ---------------------------------------------------------------- molecules

#[test]
fn particles_are_grouped_by_molecule() {
    let ids = vec![10, 11, 12, 13, 14];
    let molecules = vec![2, 0, 2, 2, 0];
    let groups = group_by_molecule(&ids, &molecules);
    assert_eq!(groups.len(), 2);
    assert_eq!(groups[&2], vec![10, 12, 13]);
    assert_eq!(groups[&0], vec![11, 14]);
    assert!(!groups.contains_key(&1));
}

#[test]
fn grouping_uses_the_shorter_column() {
    let groups = group_by_molecule(&vec![1, 2, 3], &vec![5, 5]);
    assert_eq!(groups.len(), 1);
    assert_eq!(groups[&5], vec![1, 2]);
    assert!(group_by_molecule(&Vec::new(), &Vec::new()).is_empty());
}

// ---------------------------------------------------------------- box mesh

#[test]
fn skeleton_box_has_twelve_bars() {
    let mesh = BoxMesh::new();
    assert_eq!(mesh.instances.len(), 12);
    for (i, bar) in mesh.instances.iter().enumerate() {
        let axis = i / 4;
        for k in 0..3 {
            assert_eq!(bar.thin[k], k != axis);
        }
    }
    // Bar 1 is the x edge at y = max, z = max.
    assert!(mesh.instances[1].from == [Bound::OuterMin, Bound::OuterMax, Bound::OuterMax]);
    assert!(mesh.instances[1].to == [Bound::OuterMax, Bound::OuterMax, Bound::OuterMax]);
    // Bar 9 is the z edge at x = max, y = max.
    assert!(mesh.instances[9].from == [Bound::OuterMax, Bound::OuterMax, Bound::OuterMin]);
    assert!(mesh.instances[9].to == [Bound::OuterMax, Bound::OuterMax, Bound::OuterMax]);
    // Every bar spans its axis, keeps its other coordinates, and covers its own edge.
    let mut edges = Vec::new();
    for (i, bar) in mesh.instances.iter().enumerate() {
        let axis = i / 4;
        for k in 0..3 {
            if k == axis {
                assert!(bar.from[k] == Bound::OuterMin && bar.to[k] == Bound::OuterMax);
            } else {
                assert!(bar.from[k] == bar.to[k]);
            }
        }
        let edge = (axis, bar.from);
        assert!(!edges.iter().any(|e: &(usize, [Bound; 3])| e.0 == edge.0 && e.1 == edge.1));
        edges.push(edge);
    }
}

#[test]
fn skeleton_box_is_the_default_mesh() {
    let a = BoxMesh::new();
    let b = BoxMesh::new_skeleton_box();
    assert_eq!(a.instances.len(), b.instances.len());
    for (x, y) in a.instances.iter().zip(b.instances.iter()) {
        assert!(x.from == y.from && x.to == y.to && x.thin == y.thin);
    }
}

#[test]
fn shell_box_has_six_faces() {
    let mesh = BoxMesh::new_box();
    assert_eq!(mesh.instances.len(), 6);
    let high_y = &mesh.instances[3];
    assert!(high_y.from == [Bound::OuterMin, Bound::OuterMax, Bound::OuterMin]);
    assert!(high_y.to == [Bound::OuterMax, Bound::InnerMax, Bound::OuterMax]);
    assert!(high_y.thin == [false, true, false]);
    let low_z = &mesh.instances[4];
    assert!(low_z.from == [Bound::OuterMin, Bound::OuterMin, Bound::OuterMin]);
    assert!(low_z.to == [Bound::OuterMax, Bound::OuterMax, Bound::InnerMin]);
    assert!(low_z.thin == [false, false, true]);
}

// ---------------------------------------------------------------- run schedule

#[test]
fn run_takes_num_steps_steps() {
    let mut s = RunSchedule::new(100, 4, 2);
    let mut taken = Vec::new();
    while let Some(step) = s.next_step() {
        taken.push(step);
    }
    assert_eq!(taken, vec![100, 101, 102, 103]);
    assert_eq!(s.final_step(), 103);
    assert_eq!(s.next_step(), None);
}

#[test]
fn run_of_no_steps_saves_the_start() {
    let mut s = RunSchedule::new(7, 0, 1);
    assert_eq!(s.next_step(), None);
    assert_eq!(s.final_step(), 7);
}

#[test]
fn run_dumps_on_multiples() {
    let s = RunSchedule::new(0, 10, 3);
    let dumps: Vec<usize> = (0..10).filter(|&k| s.is_dump_step(k)).collect();
    assert_eq!(dumps, vec![0, 3, 6, 9]);
}

#[test]
fn stopped_run_ends_at_the_current_step() {
    let mut s = RunSchedule::new(0, 10, 1);
    assert_eq!(s.next_step(), Some(0));
    assert_eq!(s.next_step(), Some(1));
    s.stop();
    assert_eq!(s.next_step(), None);
    assert_eq!(s.final_step(), 1);
}

// ---------------------------------------------------------------- cell grid

#[test]
fn grid_has_at_least_one_cell_per_axis() {
    let g = CellGrid::new(4, [0, 2, 0], [false; 3]);
    assert_eq!(g.num_cells, [1, 2, 1]);
    assert_eq!(g.strides, [1, 1, 2]);
    assert_eq!(g.neighbour_table.len(), 2);
    assert_eq!(g.neighbour_table[0], vec![1]);
    assert_eq!(g.neighbour_table[1], vec![0]);
    assert_eq!(g.cell_offsets, vec![0, 0, 0]);
    assert_eq!(g.counts, vec![0; 4]);
    assert_eq!(g.verlet_offsets, vec![0; 5]);
}

#[test]
fn flat_index_formula() {
    let g = CellGrid::new(0, [4, 5, 6], [false; 3]);
    assert_eq!(g.get_1d_idx(3, 2, 1), 3 + 2 * 4 + 1 * 20);
    assert_eq!(g.get_1d_idx(0, 0, 0), 0);
    assert_eq!(g.get_1d_idx(3, 4, 5), 119);
}

#[test]
fn position_cells_are_clamped() {
    let g = CellGrid::new(0, [3, 3, 3], [true; 3]);
    assert_eq!(g.get_cell_idx_from_pos(5, 1, 0), 2 + 3);
    assert_eq!(g.get_cell_idx_from_pos(100, 100, 100), 26);
}

#[test]
fn periodic_wrap_both_ways() {
    let g = CellGrid::new(0, [3, 3, 3], [true, false, true]);
    assert_eq!(g.get_neighbour_1d_idx(2, 0, 0, [1, 0, 0]), 0);
    assert_eq!(g.get_neighbour_1d_idx(0, 0, 0, [0, -1, 0]), usize::MAX);
    assert_eq!(g.get_neighbour_1d_idx(0, 0, 0, [0, 0, -1]), 18);
}

#[test]
fn small_periodic_grid_has_no_repeats() {
    let g = CellGrid::new(0, [2, 1, 1], [true; 3]);
    assert_eq!(g.neighbour_table[0], vec![1]);
    assert_eq!(g.neighbour_table[1], vec![0]);
    let g = CellGrid::new(0, [1, 1, 1], [true; 3]);
    assert_eq!(g.neighbour_table[0], Vec::<usize>::new());
}

#[test]
fn binning_sorts_particles_by_cell() {
    let mut g = CellGrid::new(5, [2, 2, 1], [false; 3]);
    g.bin(&vec![3, 0, 3, 1, 0]);
    assert_eq!(g.cell_offsets, vec![0, 2, 3, 3, 5]);
    assert_eq!(g.cell_particle_ids, vec![1, 4, 3, 0, 2]);
}

#[test]
fn verlet_lists_follow_cells_and_neighbours() {
    let mut g = CellGrid::new(4, [3, 1, 1], [false; 3]);
    // Particles 0 and 1 in cell 0, particle 2 in cell 1, particle 3 in cell 2.
    let cells = vec![0, 0, 1, 2];
    g.init(&cells, &|i: usize, j: usize| i != j);
    let list = |i: usize| g.verlet_particle_ids[g.verlet_offsets[i]..g.verlet_offsets[i + 1]].to_vec();
    assert_eq!(list(0), vec![1, 2]);
    assert_eq!(list(1), vec![0, 2]);
    assert_eq!(list(2), vec![3, 0, 1]);
    assert_eq!(list(3), vec![2]);
    assert_eq!(g.verlet_offsets, vec![0, 2, 4, 7, 8]);
}

#[test]
fn rebuild_resizes_for_a_new_count() {
    let mut g = CellGrid::new(2, [2, 1, 1], [true; 3]);
    let cells = vec![0, 1, 1];
    assert!(g.needs_rebuild(3, false));
    g.rebuild(&cells, &|i: usize, j: usize| i < j);
    assert_eq!(g.last_particle_count, 3);
    assert_eq!(g.counts, vec![2, 1, 0]);
    assert_eq!(g.verlet_offsets, vec![0, 2, 3, 3]);
    assert_eq!(g.verlet_particle_ids, vec![1, 2, 2]);
    assert!(!g.needs_rebuild(3, false));
    assert!(g.needs_rebuild(3, true));
}

#[test]
fn resize_keeps_grid_and_clears_lists() {
    let mut g = CellGrid::new(2, [2, 1, 1], [true; 3]);
    g.init(&vec![0, 1], &|i: usize, j: usize| i != j);
    assert_eq!(g.verlet_particle_ids.len(), 2);
    g.resize_buffers(4);
    assert_eq!(g.counts.len(), 4);
    assert_eq!(g.verlet_offsets.len(), 5);
    assert!(g.verlet_particle_ids.is_empty());
    assert_eq!(g.num_cells, [2, 1, 1]);
}

#[test]
fn interacting_pairs_are_directional() {
    let types = vec![[0u8, 1u8], [2, 2]];
    assert!(pair_interacts(0, 1, 0, 1, &types));
    assert!(!pair_interacts(0, 1, 1, 0, &types));
    assert!(pair_interacts(3, 4, 2, 2, &types));
    assert!(!pair_interacts(4, 4, 2, 2, &types));
    assert!(!pair_interacts(0, 1, 0, 0, &types));
    // Mirroring the pair makes it reciprocal.
    let mirrored = vec![[0u8, 1u8], [1, 0]];
    assert!(pair_interacts(0, 1, 0, 1, &mirrored) && pair_interacts(1, 0, 1, 0, &mirrored));
}

#[test]
fn check_and_rebuild_only_when_needed() {
    let mut g = CellGrid::new(2, [2, 1, 1], [false; 3]);
    let first = vec![0, 1];
    assert!(!g.check_and_rebuild_neighbours(&first, false, &|i: usize, j: usize| i != j));
    assert!(g.verlet_particle_ids.is_empty());
    assert!(g.check_and_rebuild_neighbours(&first, true, &|i: usize, j: usize| i != j));
    assert_eq!(g.verlet_particle_ids, vec![1, 0]);
    // A new particle count forces a rebuild even without motion.
    let more = vec![0, 1, 1];
    assert!(g.check_and_rebuild_neighbours(&more, false, &|i: usize, j: usize| i != j));
    assert_eq!(g.verlet_offsets, vec![0, 2, 4, 6]);
    assert_eq!(g.last_particle_count, 3);
}

fn axis_adjacent(n: usize, periodic: bool, u: usize, v: usize) -> bool {
    [-1i64, 0, 1].iter().any(|&d| {
        let w = u as i64 + d;
        if periodic {
            w.rem_euclid(n as i64) as usize == v
        } else {
            w == v as i64
        }
    })
}

#[test]
fn neighbour_table_is_the_adjacent_cells() {
    for periodic in [[true, false, true], [false, false, false], [true, true, true]] {
        let dims = [4usize, 3, 2];
        let g = CellGrid::new(0, dims, periodic);
        let coords = |c: usize| (c % 4, (c / 4) % 3, c / 12);
        for c in 0..24 {
            for d in 0..24 {
                let (x1, y1, z1) = coords(c);
                let (x2, y2, z2) = coords(d);
                let expected = c != d
                    && axis_adjacent(dims[0], periodic[0], x1, x2)
                    && axis_adjacent(dims[1], periodic[1], y1, y2)
                    && axis_adjacent(dims[2], periodic[2], z1, z2);
                assert_eq!(g.neighbour_table[c].contains(&d), expected, "cells {} and {}", c, d);
                assert_eq!(g.neighbour_table[c].contains(&d), g.neighbour_table[d].contains(&c));
            }
        }
    }
}

#[test]
fn verlet_lists_have_no_repeats() {
    let mut g = CellGrid::new(7, [2, 2, 1], [true; 3]);
    let cells = vec![0, 3, 1, 1, 2, 0, 3];
    g.init(&cells, &|i: usize, j: usize| i != j);
    let n = cells.len();
    let mut total = 0;
    for i in 0..n {
        let list = &g.verlet_particle_ids[g.verlet_offsets[i]..g.verlet_offsets[i + 1]];
        for (a, x) in list.iter().enumerate() {
            assert!(*x < n);
            assert!(!list[a + 1..].contains(x));
        }
        assert!(list.len() <= n);
        total += list.len();
    }
    assert!(total <= n * n);
    assert_eq!(total, n * (n - 1));
}
