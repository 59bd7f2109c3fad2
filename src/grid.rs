use std::sync::Arc;
use vstd::prelude::*;

use crate::adjacency::{
    is_cell_cell_of, is_cell_edge_of, is_edge_cell_of, is_edge_vertex_of, is_vertex_cell_of,
    is_vertex_edge_of, Adjacency, Cell, CellEdge, EdgeCell, EdgeVertex, VertexCell, VertexEdge,
};
use crate::sphere::{icosphere_indices, icosphere_point_count};
use crate::triangulation::{valid_triangles, Triangulation};

verus! {

/// A cell's three vertex ids, in winding order.
#[derive(Clone, Copy, Debug, PartialEq, Eq)]
pub struct CellData {
    pub vertices: [u32; 3],
}

/// The relations of one triangle list, built once.
pub struct MeshGridInner {
    pub triangles: Triangulation,
    pub cells: Vec<CellData>,
    pub cell_adjacency: Adjacency<Cell>,
    pub cell_edge_adjacency: Adjacency<CellEdge>,
    pub edge_cell_adjacency: Adjacency<EdgeCell>,
    pub edge_vertex_adjacency: Adjacency<EdgeVertex>,
    pub vertex_cell_adjacency: Adjacency<VertexCell>,
    pub vertex_edge_adjacency: Adjacency<VertexEdge>,
}

impl MeshGridInner {
    /// Every relation except Vertex -> Edge is the one of the triangle list; Vertex -> Edge
    /// rows hold the edges that end at each vertex, in some order.
    pub open spec fn wf(&self) -> bool {
        let t = self.triangles.indices@;
        let nv = self.triangles.num_vertices as int;
        &&& valid_triangles(t, nv)
        &&& self.cells@.len() == t.len() / 3
        &&& forall|c: int|
            0 <= c < t.len() / 3 ==> (#[trigger] self.cells@[c]).vertices@ == seq![
                t[3 * c],
                t[3 * c + 1],
                t[3 * c + 2],
            ]
        &&& is_cell_cell_of(&self.cell_adjacency, t)
        &&& is_cell_edge_of(&self.cell_edge_adjacency, t)
        &&& is_edge_cell_of(&self.edge_cell_adjacency, t)
        &&& is_edge_vertex_of(&self.edge_vertex_adjacency, t)
        &&& is_vertex_cell_of(&self.vertex_cell_adjacency, t, nv)
        &&& self.vertex_edge_adjacency.wf()
        &&& self.vertex_edge_adjacency.num_rows() == nv
    }

    /// Builds every relation of `triangles`; Vertex -> Edge rows in increasing edge id order.
    pub fn new(triangles: Triangulation) -> (r: MeshGridInner)
        requires
            valid_triangles(triangles.indices@, triangles.num_vertices as int),
        ensures
            r.wf(),
            r.triangles.indices@ == triangles.indices@,
            r.triangles.num_vertices == triangles.num_vertices,
            is_vertex_edge_of(&r.vertex_edge_adjacency, triangles.indices@, triangles.num_vertices as int),
    {
        let cell_adjacency = Adjacency::<Cell>::from(&triangles);
        let cell_edge_adjacency = Adjacency::<CellEdge>::from(&triangles);
        let edge_cell_adjacency = Adjacency::<EdgeCell>::from(&triangles);
        let edge_vertex_adjacency = Adjacency::<EdgeVertex>::from(&triangles);
        let vertex_cell_adjacency = Adjacency::<VertexCell>::from(&triangles);
        let vertex_edge_adjacency = Adjacency::<VertexEdge>::from(&triangles);
        let num_cells = triangles.num_cells();
        let mut cells: Vec<CellData> = Vec::new();
        let mut c: usize = 0;
        while c < num_cells
            invariant
                num_cells == triangles.indices@.len() / 3,
                c <= num_cells,
                cells@.len() == c,
                forall|d: int|
                    0 <= d < c ==> (#[trigger] cells@[d]).vertices@ == seq![
                        triangles.indices@[3 * d],
                        triangles.indices@[3 * d + 1],
                        triangles.indices@[3 * d + 2],
                    ],
            decreases num_cells - c,
        {
            cells.push(CellData { vertices: triangles.cell(c) });
            c += 1;
        }
        MeshGridInner {
            triangles,
            cells,
            cell_adjacency,
            cell_edge_adjacency,
            edge_cell_adjacency,
            edge_vertex_adjacency,
            vertex_cell_adjacency,
            vertex_edge_adjacency,
        }
    }

    /// Rearranges the Vertex -> Edge rows by `order` (see `Adjacency::reorder_rows`) when it
    /// permutes each row; otherwise nothing changes.
    pub fn order_vertex_edges(&mut self, order: &Vec<u32>) -> (ok: bool)
        requires
            old(self).wf(),
        ensures
            final(self).wf(),
            ok == old(self).vertex_edge_adjacency.is_row_order(order@),
            final(self).triangles == old(self).triangles,
            final(self).vertex_edge_adjacency@.0 == old(self).vertex_edge_adjacency@.0,
            !ok ==> final(self).vertex_edge_adjacency@ == old(self).vertex_edge_adjacency@,
            ok ==> forall|i: int, j: int|
                0 <= i < old(self).vertex_edge_adjacency.num_rows() && 0 <= j < old(
                    self,
                ).vertex_edge_adjacency.row(i).len() ==> #[trigger] final(self).vertex_edge_adjacency.row(i)[j]
                    == old(self).vertex_edge_adjacency.row(i)[order@[old(
                    self,
                ).vertex_edge_adjacency@.0[i] + j] as int],
    {
        self.vertex_edge_adjacency.reorder_rows(order)
    }
}

/// Immutable grid snapshot; cloning shares it.
#[derive(Clone)]
pub struct MeshGrid(pub Arc<MeshGridInner>);

impl MeshGrid {
    pub open spec fn inner(&self) -> MeshGridInner {
        *self.0
    }

    /// The grid of the icosphere of a subdivision level, with Vertex -> Edge rows in
    /// increasing edge id order; `None` when the generated triangle list is not valid.
    #[must_use]
    pub fn new(subdivisions: usize) -> (r: Option<MeshGrid>)
        ensures
            r is Some <==> valid_triangles(
                icosphere_indices(subdivisions as nat),
                icosphere_point_count(subdivisions as nat) as int,
            ),
            r matches Some(g) ==> g.inner().wf() && g.inner().triangles.indices@ == icosphere_indices(
                subdivisions as nat,
            ) && g.inner().triangles.num_vertices == icosphere_point_count(subdivisions as nat)
                && is_vertex_edge_of(
                &g.inner().vertex_edge_adjacency,
                g.inner().triangles.indices@,
                g.inner().triangles.num_vertices as int,
            ),
    {
        match Triangulation::icosphere(subdivisions) {
            Some(t) => Some(MeshGrid(Arc::new(MeshGridInner::new(t)))),
            None => None,
        }
    }

    /// Shares a built grid.
    pub fn from_inner(inner: MeshGridInner) -> (r: MeshGrid)
        ensures
            r.inner() == inner,
    {
        MeshGrid(Arc::new(inner))
    }

    #[must_use]
    pub fn triangles(&self) -> (r: &Triangulation)
        ensures
            *r == self.inner().triangles,
    {
        &self.0.triangles
    }

    #[must_use]
    pub fn cells(&self) -> (r: &[CellData])
        ensures
            r@ == self.inner().cells@,
    {
        self.0.cells.as_slice()
    }

    #[must_use]
    pub fn cell_adjacency(&self) -> (r: &Adjacency<Cell>)
        ensures
            *r == self.inner().cell_adjacency,
    {
        &self.0.cell_adjacency
    }

    #[must_use]
    pub fn cell_edge_adjacency(&self) -> (r: &Adjacency<CellEdge>)
        ensures
            *r == self.inner().cell_edge_adjacency,
    {
        &self.0.cell_edge_adjacency
    }

    #[must_use]
    pub fn edge_cell_adjacency(&self) -> (r: &Adjacency<EdgeCell>)
        ensures
            *r == self.inner().edge_cell_adjacency,
    {
        &self.0.edge_cell_adjacency
    }

    #[must_use]
    pub fn edge_vertex_adjacency(&self) -> (r: &Adjacency<EdgeVertex>)
        ensures
            *r == self.inner().edge_vertex_adjacency,
    {
        &self.0.edge_vertex_adjacency
    }

    #[must_use]
    pub fn vertex_cell_adjacency(&self) -> (r: &Adjacency<VertexCell>)
        ensures
            *r == self.inner().vertex_cell_adjacency,
    {
        &self.0.vertex_cell_adjacency
    }

    #[must_use]
    pub fn vertex_edge_adjacency(&self) -> (r: &Adjacency<VertexEdge>)
        ensures
            *r == self.inner().vertex_edge_adjacency,
    {
        &self.0.vertex_edge_adjacency
    }
}

} // verus!
