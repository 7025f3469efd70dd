use md::cell_grid::{pair_interacts, CellGrid};

// The grid used by these tests: a box of side 9 with cells of side
// cutoff + skin = 3, so 3 cells along each axis, for 6 particles, with the
// interacting type pair [0, 1].
const BOX_SIDE: f64 = 9.0;
const CELL_SIDE: f64 = 3.0;
const SEARCH_RADIUS_SQ: f64 = 9.0;

fn create_grid() -> CellGrid {
    let n = (BOX_SIDE / CELL_SIDE).floor() as usize;
    CellGrid::new(6, [n, n, n], [true; 3])
}

fn interaction_ptypes() -> Vec<[u8; 2]> {
    vec![[0, 1]]
}

struct Particles {
    molecule_id: Vec<usize>,
    ptype: Vec<usize>,
    position: Vec<[f64; 3]>,
}

// The six particles of the particle test set.
fn create_particle_vec() -> Particles {
    Particles {
        molecule_id: vec![0, 1, 1, 1, 1, 1],
        ptype: vec![0, 1, 0, 2, 2, 2],
        position: vec![
            [1.0, 2.0, 3.0],
            [1.0, 2.0, 3.0],
            [8.0, 8.0, 8.0],
            [8.0, 8.0, 5.5],
            [8.0, 8.0, 4.5],
            [5.0, 5.0, 5.0],
        ],
    }
}

// The six particles of the three-molecule test set.
fn create_molecule_vec() -> Particles {
    Particles {
        molecule_id: vec![0, 0, 1, 1, 2, 2],
        ptype: vec![0, 1, 0, 1, 0, 1],
        position: vec![
            [1.0, 2.0, 3.75],
            [1.0, 2.0, 2.75],
            [2.0, 2.0, 3.75],
            [2.0, 2.0, 2.75],
            [8.0, 2.0, 3.75],
            [8.0, 2.0, 2.75],
        ],
    }
}

fn cells_of(grid: &CellGrid, p: &Particles) -> Vec<usize> {
    p.position
        .iter()
        .map(|q| {
            grid.get_cell_idx_from_pos(
                (q[0] / CELL_SIDE) as usize,
                (q[1] / CELL_SIDE) as usize,
                (q[2] / CELL_SIDE) as usize,
            )
        })
        .collect()
}

fn min_image(mut d: f64) -> f64 {
    if d > BOX_SIDE * 0.5 {
        d -= BOX_SIDE;
    } else if d < -BOX_SIDE * 0.5 {
        d += BOX_SIDE;
    }
    d
}

fn close_enough(p: &Particles, i: usize, j: usize) -> bool {
    let mut r2 = 0.0;
    for k in 0..3 {
        let d = min_image(p.position[i][k] - p.position[j][k]);
        r2 += d * d;
    }
    r2 < SEARCH_RADIUS_SQ
}

fn verlet_list(grid: &CellGrid, i: usize) -> Vec<usize> {
    grid.verlet_particle_ids[grid.verlet_offsets[i]..grid.verlet_offsets[i + 1]].to_vec()
}

#[test]
fn test_build_neighbour_table() {
    let mut grid = create_grid();

    // Periodic
    grid.periodic = [true; 3];
    grid.build_neighbour_table();

    assert_eq!(grid.neighbour_table.len(), 27, "Should be 27 boxes in grid");

    let expected_periodic = vec![
        1, 2, 3, 6, 9, 18, 4, 7, 5, 8, 10, 19, 11, 20, 12, 21, 15, 24, 13, 22, 16, 25, 14, 23, 17, 26,
    ];
    assert_eq!(
        grid.neighbour_table[0], expected_periodic,
        "Neighbours incorrect under periodic boundary conditions"
    );

    // Non-periodic
    grid.periodic = [false; 3];
    grid.neighbour_table = vec![Vec::new(); 27];
    grid.build_neighbour_table();

    assert_eq!(grid.neighbour_table.len(), 27, "Should be 27 boxes in grid");

    let active_neighbours: Vec<usize> = grid.neighbour_table[0]
        .iter()
        .copied()
        .filter(|&x| x != usize::MAX)
        .collect();

    let correct_neighbours = vec![1, 3, 9, 4, 10, 12, 13];
    assert_eq!(
        active_neighbours, correct_neighbours,
        "Should be 7 active neighbour boxes in non-periodic grid for (0,0,0)"
    );
}

#[test]
fn test_get_1d_idx() {
    let grid = create_grid();
    let ix: usize = 2;
    let iy: usize = 2;
    let iz: usize = 2;

    let idx = grid.get_1d_idx(ix, iy, iz);
    assert_eq!(idx, 26, "(2,2,2) should be 26");
}

#[test]
fn test_get_neighbour_1d_idx() {
    let mut grid = create_grid();

    let ix: usize = 0;
    let iy: usize = 0;
    let iz: usize = 0;

    // A value outside the grid on a non-periodic axis gives the sentinel.
    grid.periodic = [false; 3];
    let new_coords = grid.get_neighbour_1d_idx(ix, iy, iz, [-1, 0, 0]);
    assert_eq!(new_coords, usize::MAX, "coords should have returned None because outside box");

    // On a periodic axis it wraps.
    grid.periodic = [true; 3];
    grid.neighbour_table = vec![Vec::new(); 27];

    let new_coords = grid.get_neighbour_1d_idx(ix, iy, iz, [-1, 0, 0]);
    assert_eq!(new_coords, 2, "x coord should have wrapped");
}

#[test]
fn test_bin() {
    let mut grid = create_grid();
    let particles = create_particle_vec();
    let cells = cells_of(&grid, &particles);
    grid.bin(&cells);

    assert_eq!(grid.cell_offsets[grid.cell_offsets.len() - 1], particles.position.len());
    assert!(grid.cell_particle_ids.len() == particles.position.len());
}

#[test]
fn tests_test_first_frame_rebuild() {
    let mut grid = create_grid();
    let mut particles = create_particle_vec();

    particles.position[0] = [1.0, 1.0, 1.0];

    let cells = cells_of(&grid, &particles);
    let types = interaction_ptypes();
    let p = &particles;
    let add = |i: usize, j: usize| {
        pair_interacts(p.molecule_id[i], p.molecule_id[j], p.ptype[i], p.ptype[j], &types)
            && close_enough(p, i, j)
    };
    grid.init(&cells, &add);

    assert!(verlet_list(&grid, 0).contains(&1));
    assert!(!verlet_list(&grid, 1).contains(&0));
}

#[test]
fn tests_test_skin_displacement_trigger() {
    let mut grid = create_grid();
    let mut particles = create_molecule_vec();
    let skin = 0.2;
    let threshold_sq = (skin * 0.5_f64).powi(2);
    let types = interaction_ptypes();

    // The lists are built and the reference positions are the current ones.
    let cells = cells_of(&grid, &particles);
    {
        let p = &particles;
        let add = |i: usize, j: usize| {
            pair_interacts(p.molecule_id[i], p.molecule_id[j], p.ptype[i], p.ptype[j], &types)
                && close_enough(p, i, j)
        };
        grid.init(&cells, &add);
    }
    let mut ref_pos = particles.position.clone();

    let moved = |pos: &Vec<[f64; 3]>, refs: &Vec<[f64; 3]>| {
        pos.iter().zip(refs.iter()).any(|(a, b)| {
            let mut r2 = 0.0;
            for k in 0..3 {
                let d = min_image(a[k] - b[k]);
                r2 += d * d;
            }
            r2 > threshold_sq
        })
    };

    // Move 0.09 (less than skin/2 = 0.1): no rebuild.
    particles.position[0][0] += 0.09;
    let cells = cells_of(&grid, &particles);
    let rebuilt = {
        let p = &particles;
        let add = |i: usize, j: usize| {
            pair_interacts(p.molecule_id[i], p.molecule_id[j], p.ptype[i], p.ptype[j], &types)
                && close_enough(p, i, j)
        };
        grid.check_and_rebuild_neighbours(&cells, moved(&p.position, &ref_pos), &add)
    };
    if rebuilt {
        ref_pos = particles.position.clone();
    }
    assert_ne!(ref_pos[0], particles.position[0], "Should not have rebuilt");

    // Move another 0.2 (total 0.29 > skin/2): the lists are rebuilt.
    particles.position[0][0] += 0.2;
    let cells = cells_of(&grid, &particles);
    let rebuilt = {
        let p = &particles;
        let add = |i: usize, j: usize| {
            pair_interacts(p.molecule_id[i], p.molecule_id[j], p.ptype[i], p.ptype[j], &types)
                && close_enough(p, i, j)
        };
        grid.check_and_rebuild_neighbours(&cells, moved(&p.position, &ref_pos), &add)
    };
    if rebuilt {
        ref_pos = particles.position.clone();
    }
    assert_eq!(ref_pos[0], particles.position[0], "Should have triggered rebuild");
}

#[test]
fn test_molecular_exclusion() {
    let grid = create_grid();
    let particles = create_molecule_vec();
    let types = interaction_ptypes();

    // Particles 0 and 1 belong to molecule 0, so neither enters the list of the other.
    let i = 0;
    let j = 1;

    let pids_b4 = grid.verlet_particle_ids.clone();
    let accepted = pair_interacts(
        particles.molecule_id[i],
        particles.molecule_id[j],
        particles.ptype[i],
        particles.ptype[j],
        &types,
    ) && close_enough(&particles, i, j);
    assert!(!accepted);
    assert_eq!(
        pids_b4, grid.verlet_particle_ids,
        "Particle_ids should have stayed the same because particles in same molecule must be excluded"
    );
}

#[test]
fn tests_test_periodic_neighbours() {
    let mut grid = create_grid();
    let mut particles = create_particle_vec();

    // Place particles across the periodic boundary.
    particles.position[0] = [0.1, 5.0, 5.0];
    particles.position[1] = [8.9, 5.0, 5.0];

    let ref_pos = vec![[0.0; 3]; 6];
    let threshold_sq = (0.2_f64 * 0.5).powi(2);
    let moved = particles.position.iter().zip(ref_pos.iter()).any(|(a, b)| {
        let mut r2 = 0.0;
        for k in 0..3 {
            let d = min_image(a[k] - b[k]);
            r2 += d * d;
        }
        r2 > threshold_sq
    });

    let cells = cells_of(&grid, &particles);
    let types = interaction_ptypes();
    let p = &particles;
    let add = |i: usize, j: usize| {
        pair_interacts(p.molecule_id[i], p.molecule_id[j], p.ptype[i], p.ptype[j], &types)
            && close_enough(p, i, j)
    };
    assert!(grid.check_and_rebuild_neighbours(&cells, moved, &add));

    assert!(verlet_list(&grid, 0).contains(&1), "Should detect periodic neighbour");
}

#[test]
fn test_ptype_interactions() {
    let mut grid = create_grid();
    let particles = create_particle_vec();
    let cells = cells_of(&grid, &particles);
    let types = interaction_ptypes();
    let p = &particles;
    let add = |i: usize, j: usize| {
        pair_interacts(p.molecule_id[i], p.molecule_id[j], p.ptype[i], p.ptype[j], &types)
            && close_enough(p, i, j)
    };
    grid.init(&cells, &add);

    // Particle 0 has particle 1 in its list: the pair [0, 1] is listed.
    assert!(verlet_list(&grid, 0).contains(&1), "0 should see 1");

    // Particle 1 does not see particle 0: [1, 0] is not listed.
    assert!(!verlet_list(&grid, 0).contains(&0), "1 should not see 0");
    assert!(!verlet_list(&grid, 1).contains(&0), "1 should not see 0");
}
