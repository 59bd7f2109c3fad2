use mesh_grid::grid::MeshGrid;
use mesh_grid::operators::{build_d0, build_d1, IncidenceMatrix};
use sprs::{CsMat, TriMat};

fn to_csr(m: &IncidenceMatrix) -> CsMat<f64> {
    let mut tri = TriMat::new((m.rows, m.cols));
    for e in &m.entries {
        tri.add_triplet(e.row, e.col, f64::from(e.value));
    }
    tri.to_csr()
}

#[test]
fn it_is_zero_when_applying_d_twice() {
    let grid = MeshGrid::new(0).unwrap();

    let d0 = to_csr(&build_d0(
        grid.edge_vertex_adjacency(),
        grid.vertex_edge_adjacency().len(),
    ));
    let d1 = to_csr(&build_d1(
        grid.cell_edge_adjacency(),
        grid.edge_vertex_adjacency(),
        grid.triangles(),
    ));

    let product = &d1 * &d0;
    let max_val = product
        .iter()
        .fold(0.0, |acc: f64, (&x, _)| acc.max(x.abs()));

    assert!(max_val < f64::EPSILON);
}

#[test]
fn it_sums_to_zero_for_d0() {
    let grid = MeshGrid::new(0).unwrap();

    let d0 = to_csr(&build_d0(
        grid.edge_vertex_adjacency(),
        grid.vertex_edge_adjacency().len(),
    ));

    for row_vec in d0.outer_iterator() {
        let sum = row_vec.iter().fold(0.0, |acc, (_, &x)| acc + x);
        assert!(sum < f64::EPSILON);
    }
}

#[test]
fn d1_times_d0_vanishes_at_level_three() {
    let grid = MeshGrid::new(3).unwrap();
    let d0 = to_csr(&build_d0(
        grid.edge_vertex_adjacency(),
        grid.vertex_edge_adjacency().len(),
    ));
    let d1 = to_csr(&build_d1(
        grid.cell_edge_adjacency(),
        grid.edge_vertex_adjacency(),
        grid.triangles(),
    ));
    let product = &d1 * &d0;
    assert!(product.iter().all(|(&x, _)| x == 0.0));
}

#[test]
fn d0_rows_hold_minus_one_then_plus_one() {
    let grid = MeshGrid::new(1).unwrap();
    let ev = grid.edge_vertex_adjacency();
    let d0 = build_d0(ev, grid.vertex_edge_adjacency().len());
    assert_eq!(d0.rows, ev.len());
    assert_eq!(d0.entries.len(), 2 * ev.len());
    for e in 0..ev.len() {
        let verts = ev.get(e);
        let a = d0.entries[2 * e];
        let b = d0.entries[2 * e + 1];
        assert_eq!((a.row, a.col, a.value), (e, verts[0], -1));
        assert_eq!((b.row, b.col, b.value), (e, verts[1], 1));
        assert_eq!(i32::from(a.value) + i32::from(b.value), 0);
    }
}
