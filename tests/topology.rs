use mesh_grid::adjacency::{Adjacency, Cell, CellEdge, EdgeCell, EdgeVertex, VertexCell, VertexEdge};
use mesh_grid::grid::{MeshGrid, MeshGridInner};
use mesh_grid::operators::{build_d0, build_d1};
use mesh_grid::triangulation::Triangulation;

fn tetrahedron() -> Triangulation {
    Triangulation::new(vec![0, 1, 2, 0, 2, 3, 0, 3, 1, 1, 3, 2], 4).unwrap()
}

fn rows<T>(a: &Adjacency<T>) -> Vec<Vec<usize>> {
    (0..a.len()).map(|i| a.get(i)).collect()
}

#[test]
fn base_level_has_icosahedron_counts() {
    let grid = MeshGrid::new(0).unwrap();
    let vertices = grid.vertex_edge_adjacency().len();
    let edges = grid.edge_vertex_adjacency().len();
    let cells = grid.cell_adjacency().len();
    assert_eq!(vertices, 12);
    assert_eq!(edges, 30);
    assert_eq!(cells, 20);
    assert_eq!(grid.cells().len(), 20);
    assert_eq!(vertices as i64 - edges as i64 + cells as i64, 2);
    for v in 0..12 {
        assert_eq!(grid.vertex_edge_adjacency().count(v), 5);
        assert_eq!(grid.vertex_cell_adjacency().count(v), 5);
    }
}

#[test]
fn vertex_edge_and_vertex_cell_degrees_agree() {
    let grid = MeshGrid::new(3).unwrap();
    let ve = grid.vertex_edge_adjacency();
    let vc = grid.vertex_cell_adjacency();
    assert_eq!(ve.len(), vc.len());
    let mut pentagons = 0;
    for v in 0..ve.len() {
        assert_eq!(ve.count(v), vc.count(v));
        if ve.count(v) == 5 {
            pentagons += 1;
        } else {
            assert_eq!(ve.count(v), 6);
        }
    }
    assert_eq!(pentagons, 12);
}

#[test]
fn cell_neighbors_are_symmetric() {
    let grid = MeshGrid::new(2).unwrap();
    let cc = grid.cell_adjacency();
    for a in 0..cc.len() {
        for b in cc.get(a) {
            assert!(cc.get(b).contains(&a));
        }
    }
}

#[test]
fn edge_rows_have_two_entries() {
    let grid = MeshGrid::new(2).unwrap();
    let ec = grid.edge_cell_adjacency();
    let ev = grid.edge_vertex_adjacency();
    assert_eq!(ec.len(), ev.len());
    for e in 0..ev.len() {
        assert_eq!(ec.count(e), 2);
        let verts = ev.get(e);
        assert_eq!(verts.len(), 2);
        assert!(verts[0] <= verts[1]);
        let cells = ec.get(e);
        assert_ne!(cells[0], cells[1]);
    }
}

#[test]
fn edge_ids_agree_across_relations() {
    let grid = MeshGrid::new(1).unwrap();
    let ce = grid.cell_edge_adjacency();
    let ec = grid.edge_cell_adjacency();
    let ev = grid.edge_vertex_adjacency();
    for (c, cell) in grid.cells().iter().enumerate() {
        let edges = ce.get(c);
        for k in 0..3 {
            let a = cell.vertices[k] as usize;
            let b = cell.vertices[(k + 1) % 3] as usize;
            assert_eq!(ev.get(edges[k]), vec![a.min(b), a.max(b)]);
            assert!(ec.get(edges[k]).contains(&c));
        }
    }
}

#[test]
fn tetrahedron_relations() {
    let t = tetrahedron();
    assert_eq!(rows(&Adjacency::<CellEdge>::from(&t)), vec![vec![0, 1, 2], vec![2, 3, 4], vec![4, 5, 0], vec![5, 3, 1]]);
    assert_eq!(
        rows(&Adjacency::<EdgeVertex>::from(&t)),
        vec![vec![0, 1], vec![1, 2], vec![0, 2], vec![2, 3], vec![0, 3], vec![1, 3]]
    );
    assert_eq!(
        rows(&Adjacency::<EdgeCell>::from(&t)),
        vec![vec![0, 2], vec![0, 3], vec![1, 0], vec![1, 3], vec![2, 1], vec![3, 2]]
    );
    assert_eq!(rows(&Adjacency::<Cell>::from(&t)), vec![vec![2, 3, 1], vec![0, 3, 2], vec![1, 3, 0], vec![2, 1, 0]]);
    let vc = Adjacency::<VertexCell>::from(&t);
    assert_eq!(rows(&vc), vec![vec![0, 1, 2], vec![0, 2, 3], vec![0, 1, 3], vec![1, 2, 3]]);
    assert_eq!(vc.offsets(), &[0, 3, 6, 9, 12]);
    assert_eq!(vc.indices(), &[0, 1, 2, 0, 2, 3, 0, 1, 3, 1, 2, 3]);
    assert_eq!(
        rows(&Adjacency::<VertexEdge>::from(&t)),
        vec![vec![0, 2, 4], vec![0, 1, 5], vec![1, 2, 3], vec![3, 4, 5]]
    );
}

#[test]
fn tetrahedron_d1_signs() {
    let t = tetrahedron();
    let ce = Adjacency::<CellEdge>::from(&t);
    let ev = Adjacency::<EdgeVertex>::from(&t);
    let d1 = build_d1(&ce, &ev, &t);
    let first: Vec<(usize, usize, i8)> = d1.entries[..3].iter().map(|e| (e.row, e.col, e.value)).collect();
    assert_eq!(first, vec![(0, 0, -1), (0, 1, -1), (0, 2, 1)]);
    assert_eq!((d1.rows, d1.cols, d1.entries.len()), (4, 6, 12));
    let d0 = build_d0(&ev, 4);
    assert_eq!((d0.rows, d0.cols, d0.entries.len()), (6, 4, 12));
}

#[test]
fn triangulation_rejects_bad_lists() {
    assert!(Triangulation::new(vec![0, 1], 3).is_none());
    assert!(Triangulation::new(vec![0, 1, 3], 3).is_none());
    assert!(Triangulation::new(vec![], 0).is_some());
    assert!(Triangulation::new(vec![0, 1, 2], 3).is_some());
}

#[test]
fn icosphere_lists_come_from_the_generator() {
    let t = Triangulation::icosphere(0).unwrap();
    assert_eq!(t.indices.len(), 60);
    assert_eq!(t.num_vertices, 12);
    assert_eq!(t.num_cells(), 20);
    let t2 = Triangulation::icosphere(2).unwrap();
    assert_eq!(t2.num_vertices, 10 * 9 + 2);
    assert_eq!(t2.num_cells(), 20 * 9);
}

#[test]
fn empty_adjacency() {
    let t = Triangulation::new(vec![], 0).unwrap();
    let vc = Adjacency::<VertexCell>::from(&t);
    assert!(vc.is_empty());
    assert_eq!(vc.len(), 0);
    let ce = Adjacency::<CellEdge>::from(&t);
    assert!(ce.is_empty());
}

#[test]
fn reorder_rows_applies_a_permutation() {
    let t = tetrahedron();
    let mut inner = MeshGridInner::new(t);
    assert!(inner.order_vertex_edges(&vec![2, 0, 1, 0, 1, 2, 1, 2, 0, 2, 1, 0]));
    assert_eq!(
        rows(&inner.vertex_edge_adjacency),
        vec![vec![4, 0, 2], vec![0, 1, 5], vec![2, 3, 1], vec![5, 4, 3]]
    );
}

#[test]
fn reorder_rows_rejects_non_permutations() {
    let t = tetrahedron();
    let mut inner = MeshGridInner::new(t);
    assert!(!inner.order_vertex_edges(&vec![0, 0, 1, 0, 1, 2, 0, 1, 2, 0, 1, 2]));
    assert!(!inner.order_vertex_edges(&vec![0, 3, 1, 0, 1, 2, 0, 1, 2, 0, 1, 2]));
    assert!(!inner.order_vertex_edges(&vec![0, 1, 2]));
    assert_eq!(
        rows(&inner.vertex_edge_adjacency),
        vec![vec![0, 2, 4], vec![0, 1, 5], vec![1, 2, 3], vec![3, 4, 5]]
    );
}

#[test]
fn shared_grid_handles_see_the_same_data() {
    let grid = MeshGrid::new(1).unwrap();
    let other = grid.clone();
    assert!(std::ptr::eq(grid.cell_adjacency(), other.cell_adjacency()));
    assert_eq!(grid.cells()[0].vertices, other.cells()[0].vertices);
}
