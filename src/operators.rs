use vstd::prelude::*;

use crate::adjacency::{Adjacency, CellEdge, EdgeVertex};
use crate::triangulation::Triangulation;

verus! {

/// One stored entry of a sparse matrix.
#[derive(Clone, Copy, Debug, PartialEq, Eq)]
pub struct Triplet {
    pub row: usize,
    pub col: usize,
    pub value: i8,
}

/// Sparse integer matrix as a list of (row, column, value) entries; entries at the same
/// position add up.
pub struct IncidenceMatrix {
    pub rows: usize,
    pub cols: usize,
    pub entries: Vec<Triplet>,
}

/// Sum of the values of the first `n` entries that stand at (`r`, `c`).
pub open spec fn entry_sum(es: Seq<Triplet>, r: int, c: int, n: nat) -> int
    decreases n,
{
    if n == 0 {
        0
    } else {
        entry_sum(es, r, c, (n - 1) as nat) + if es[n - 1].row == r && es[n - 1].col == c {
            es[n - 1].value as int
        } else {
            0
        }
    }
}

impl IncidenceMatrix {
    /// The matrix value at (`r`, `c`).
    pub open spec fn value_at(&self, r: int, c: int) -> int {
        entry_sum(self.entries@, r, c, self.entries@.len())
    }
}

/// `sum over j < k of a(r, j) * b(j, c)`.
pub open spec fn product_prefix(a: Seq<Triplet>, b: Seq<Triplet>, r: int, c: int, k: nat) -> int
    decreases k,
{
    if k == 0 {
        0
    } else {
        product_prefix(a, b, r, c, (k - 1) as nat) + entry_sum(a, r, k - 1, a.len()) * entry_sum(
            b,
            k - 1,
            c,
            b.len(),
        )
    }
}

/// Value at (`r`, `c`) of the matrix product `a * b`.
pub open spec fn product_at(a: &IncidenceMatrix, b: &IncidenceMatrix, r: int, c: int) -> int {
    product_prefix(a.entries@, b.entries@, r, c, a.cols as nat)
}

/// Sign of a cell's local edge: `-1` when it starts at the edge's lower vertex.
pub open spec fn orientation(lower: u32, start: u32) -> i8 {
    if lower == start {
        -1i8
    } else {
        1i8
    }
}

/// `m` is d0 of the edges `ev` over `num_vertices` vertices: row `e` holds `-1` at its
/// lower vertex and `+1` at its higher vertex, as entries `2e` and `2e + 1`.
pub open spec fn is_d0_of(m: &IncidenceMatrix, ev: &Adjacency<EdgeVertex>, num_vertices: int) -> bool {
    &&& m.rows == ev.num_rows()
    &&& m.cols == num_vertices
    &&& m.entries@.len() == 2 * ev.num_rows()
    &&& forall|e: int|
        0 <= e < ev.num_rows() ==> #[trigger] m.entries@[2 * e] == (Triplet {
            row: e as usize,
            col: ev.row(e)[0] as usize,
            value: -1i8,
        }) && m.entries@[2 * e + 1] == (Triplet { row: e as usize, col: ev.row(e)[1] as usize, value: 1 })
}

/// `m` is d1 of the cells `t` with edges `ce` and `ev`: row `c` holds, as entries `3c + k`,
/// the orientation of local edge `k` at its edge id.
pub open spec fn is_d1_of(
    m: &IncidenceMatrix,
    ce: &Adjacency<CellEdge>,
    ev: &Adjacency<EdgeVertex>,
    t: Seq<u32>,
) -> bool {
    &&& m.rows == ce.num_rows()
    &&& m.cols == ev.num_rows()
    &&& m.entries@.len() == 3 * ce.num_rows()
    &&& forall|c: int, k: int|
        0 <= c < ce.num_rows() && 0 <= k < 3 ==> #[trigger] m.entries@[3 * c + k] == (Triplet {
            row: c as usize,
            col: ce.row(c)[k] as usize,
            value: orientation(ev.row(ce.row(c)[k] as int)[0], t[3 * c + k]),
        })
}

/// Rows of `ev` are vertex pairs below `num_vertices`.
pub open spec fn edge_rows_valid(ev: &Adjacency<EdgeVertex>, num_vertices: int) -> bool {
    &&& ev.wf()
    &&& forall|e: int|
        0 <= e < ev.num_rows() ==> (#[trigger] ev.row(e)).len() == 2 && ev.row(e)[0] < num_vertices
            && ev.row(e)[1] < num_vertices
}

/// Rows of `ce` are three edge ids of `ev`, one row per cell of `t`.
pub open spec fn cell_rows_valid(ce: &Adjacency<CellEdge>, ev: &Adjacency<EdgeVertex>, t: Seq<u32>) -> bool {
    &&& ce.wf()
    &&& ev.wf()
    &&& 3 * ce.num_rows() <= t.len()
    &&& forall|c: int|
        0 <= c < ce.num_rows() ==> (#[trigger] ce.row(c)).len() == 3 && ce.row(c)[0] < ev.num_rows()
            && ce.row(c)[1] < ev.num_rows() && ce.row(c)[2] < ev.num_rows()
    &&& forall|e: int| 0 <= e < ev.num_rows() ==> (#[trigger] ev.row(e)).len() == 2
}

/// Builds d0, the edges x vertices incidence operator.
pub fn build_d0(edge_vertex_adjacency: &Adjacency<EdgeVertex>, num_vertices: usize) -> (r: IncidenceMatrix)
    requires
        edge_rows_valid(edge_vertex_adjacency, num_vertices as int),
        2 * edge_vertex_adjacency.num_rows() <= usize::MAX,
    ensures
        is_d0_of(&r, edge_vertex_adjacency, num_vertices as int),
{
    let ev = edge_vertex_adjacency;
    let num_edges = ev.len();
    let mut entries: Vec<Triplet> = Vec::new();
    let mut e: usize = 0;
    while e < num_edges
        invariant
            edge_rows_valid(ev, num_vertices as int),
            num_edges == ev.num_rows(),
            2 * num_edges <= usize::MAX,
            e <= num_edges,
            entries@.len() == 2 * e,
            forall|d: int|
                0 <= d < e ==> #[trigger] entries@[2 * d] == (Triplet {
                    row: d as usize,
                    col: ev.row(d)[0] as usize,
                    value: -1i8,
                }) && entries@[2 * d + 1] == (Triplet { row: d as usize, col: ev.row(d)[1] as usize, value: 1 }),
        decreases num_edges - e,
    {
        let verts = ev.get(e);
        entries.push(Triplet { row: e, col: verts[0], value: -1 });
        entries.push(Triplet { row: e, col: verts[1], value: 1 });
        e += 1;
    }
    IncidenceMatrix { rows: num_edges, cols: num_vertices, entries }
}

/// Builds d1, the cells x edges incidence operator.
pub fn build_d1(
    cell_edge_adjacency: &Adjacency<CellEdge>,
    edge_vertex_adjacency: &Adjacency<EdgeVertex>,
    triangles: &Triangulation,
) -> (r: IncidenceMatrix)
    requires
        cell_rows_valid(cell_edge_adjacency, edge_vertex_adjacency, triangles.indices@),
    ensures
        is_d1_of(&r, cell_edge_adjacency, edge_vertex_adjacency, triangles.indices@),
{
    let ce = cell_edge_adjacency;
    let ev = edge_vertex_adjacency;
    let t = &triangles.indices;
    let num_cells = ce.len();
    let num_edges = ev.len();
    let n = t.len();
    let mut entries: Vec<Triplet> = Vec::new();
    let mut c: usize = 0;
    while c < num_cells
        invariant
            cell_rows_valid(ce, ev, t@),
            num_cells == ce.num_rows(),
            num_edges == ev.num_rows(),
            n == t@.len(),
            c <= num_cells,
            entries@.len() == 3 * c,
            forall|d: int, k: int|
                0 <= d < c && 0 <= k < 3 ==> #[trigger] entries@[3 * d + k] == (Triplet {
                    row: d as usize,
                    col: ce.row(d)[k] as usize,
                    value: orientation(ev.row(ce.row(d)[k] as int)[0], t@[3 * d + k]),
                }),
        decreases num_cells - c,
    {
        let cell_edges = ce.get(c);
        let mut k: usize = 0;
        while k < 3
            invariant
                cell_rows_valid(ce, ev, t@),
                num_cells == ce.num_rows(),
                n == t@.len(),
                c < num_cells,
                k <= 3,
                cell_edges@.len() == 3,
                forall|j: int| 0 <= j < 3 ==> #[trigger] cell_edges@[j] == ce.row(c as int)[j] as usize,
                entries@.len() == 3 * c + k,
                forall|d: int, j: int|
                    0 <= d < c && 0 <= j < 3 ==> #[trigger] entries@[3 * d + j] == (Triplet {
                        row: d as usize,
                        col: ce.row(d)[j] as usize,
                        value: orientation(ev.row(ce.row(d)[j] as int)[0], t@[3 * d + j]),
                    }),
                forall|j: int|
                    0 <= j < k ==> #[trigger] entries@[3 * c + j] == (Triplet {
                        row: c as usize,
                        col: ce.row(c as int)[j] as usize,
                        value: orientation(ev.row(ce.row(c as int)[j] as int)[0], t@[3 * c + j]),
                    }),
            decreases 3 - k,
        {
            let edge = cell_edges[k];
            let start = t[3 * c + k];
            let lower = ev.get(edge)[0];
            let value: i8 = if lower as u32 == start {
                -1
            } else {
                1
            };
            entries.push(Triplet { row: c, col: edge, value });
            k += 1;
        }
        c += 1;
    }
    IncidenceMatrix { rows: num_cells, cols: num_edges, entries }
}

} // verus!
