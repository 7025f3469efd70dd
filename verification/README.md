# md

A molecular-dynamics engine whose integer core is verified with Verus.

- `src/` — the verified library:
  - `cell_grid.rs`, `cell_lists.rs`: the cell grid (flat cell indices, the
    table of distinct neighbour cells under periodic or closed boundaries,
    binning of particles into cells) and the Verlet neighbour lists built from
    it, with the decision of when to rebuild them;
  - `neighbourhood.rs`: the laws of the neighbour relation and the lists
    (neighbours are exactly the adjacent cells, symmetry, exact membership,
    lists without repeats and at most n² entries in all, mutual lists for a
    symmetric pair test);
  - `snapshot.rs`: snapshot file names `<prefix>_<step:010>.<ext>`, reading
    the step back from a name, and the newest-first order of snapshots;
  - `molecules.rs`: grouping particles by molecule;
  - `schedule.rs`: the step loop of a run (steps, dumps, early stop, final save);
  - `ids.rs`: the identifier counter;
  - `box_mesh.rs`: the instance layouts of the drawn simulation box.
- `tests/` — tests of the library on concrete values.
- `app/` — the unverified rest: floating-point physics (forces, rigid-body and
  point-particle integration, object geometry and contacts, box mesh transforms,
  minimum-image distances), particle storage, Parquet and JSON input/output,
  and the driver of a run.
