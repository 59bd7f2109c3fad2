use std::collections::HashMap;
use std::marker::PhantomData;
use vstd::prelude::*;

use crate::triangulation::{
    corner_cells, edge_ends, edge_list, edge_slots, edges_of, grouped, neighbor_cell, primary_cell,
    secondary_cell, MAX_INDICES, lemma_edge_list, lemma_grouped_prefix, lemma_prefix_total,
    lemma_prefix_total_mono, prefix_total, lemma_pair_key_injective, pair_key, scan_pair,
    succ, valid_triangles, Triangulation,
};

verus! {

/// Cell -> Cell relation marker.
#[derive(Clone, Copy, Debug, PartialEq, Eq, Hash)]
pub struct Cell;

/// Vertex -> Cell relation marker.
#[derive(Clone, Copy, Debug, PartialEq, Eq, Hash)]
pub struct VertexCell;

/// Edge -> Cell relation marker.
#[derive(Clone, Copy, Debug, PartialEq, Eq, Hash)]
pub struct EdgeCell;

/// Edge -> Vertex relation marker.
#[derive(Clone, Copy, Debug, PartialEq, Eq, Hash)]
pub struct EdgeVertex;

/// Cell -> Edge relation marker.
#[derive(Clone, Copy, Debug, PartialEq, Eq, Hash)]
pub struct CellEdge;

/// Vertex -> Edge relation marker.
#[derive(Clone, Copy, Debug, PartialEq, Eq, Hash)]
pub struct VertexEdge;

/// Compressed (offsets + indices) encoding of a one-to-many relation.
///
/// The type parameter is a marker naming the relation kind; it carries no data.
pub struct Adjacency<T> {
    offsets: Vec<u32>,
    indices: Vec<u32>,
    _t: PhantomData<T>,
}

impl<T> View for Adjacency<T> {
    type V = (Seq<u32>, Seq<u32>);

    closed spec fn view(&self) -> (Seq<u32>, Seq<u32>) {
        (self.offsets@, self.indices@)
    }
}

impl<T> Adjacency<T> {
    /// Number of rows (entities in the relation's domain).
    pub open spec fn num_rows(&self) -> int {
        self@.0.len() - 1
    }

    /// Offsets start at zero, never decrease, and end at the number of indices.
    pub open spec fn wf(&self) -> bool {
        &&& self@.0.len() >= 1
        &&& self@.0[0] == 0
        &&& self@.0[self@.0.len() - 1] == self@.1.len()
        &&& forall|i: int, j: int| 0 <= i <= j < self@.0.len() ==> self@.0[i] <= self@.0[j]
    }

    /// The related ids of row `i`.
    pub open spec fn row(&self, i: int) -> Seq<u32> {
        self@.1.subrange(self@.0[i] as int, self@.0[i + 1] as int)
    }

    #[must_use]
    pub fn len(&self) -> (r: usize)
        ensures
            r == if self@.0.len() == 0 { 0 } else { self@.0.len() - 1 },
    {
        self.offsets.len().saturating_sub(1)
    }

    #[must_use]
    pub fn is_empty(&self) -> (r: bool)
        ensures
            r == (self@.0.len() <= 1),
    {
        self.len() == 0
    }

    #[must_use]
    pub fn offsets(&self) -> (r: &[u32])
        ensures
            r@ == self@.0,
    {
        self.offsets.as_slice()
    }

    #[must_use]
    pub fn indices(&self) -> (r: &[u32])
        ensures
            r@ == self@.1,
    {
        self.indices.as_slice()
    }

    /// The related ids of row `idx`, widened to `usize`.
    pub fn get(&self, idx: usize) -> (r: Vec<usize>)
        requires
            self.wf(),
            idx < self.num_rows(),
        ensures
            r@.len() == self.row(idx as int).len(),
            forall|j: int| 0 <= j < r@.len() ==> r@[j] == self.row(idx as int)[j] as usize,
    {
        let rows = self.len();
        assert(idx < rows);
        let start = self.offsets[idx] as usize;
        let end = self.offsets[idx + 1] as usize;
        let mut r: Vec<usize> = Vec::new();
        let mut j = start;
        while j < end
            invariant
                self.wf(),
                idx < self.num_rows(),
                start == self@.0[idx as int],
                end == self@.0[idx + 1],
                start <= j <= end,
                end <= self@.1.len(),
                r@.len() == j - start,
                forall|m: int| 0 <= m < r@.len() ==> r@[m] == self@.1[start + m] as usize,
            decreases end - j,
        {
            r.push(self.indices[j] as usize);
            j += 1;
        }
        r
    }

    /// `order` permutes each row: its entries for row `i` are distinct positions in row `i`.
    pub open spec fn is_row_order(&self, order: Seq<u32>) -> bool {
        &&& order.len() == self@.1.len()
        &&& forall|i: int, j: int|
            0 <= i < self.num_rows() && 0 <= j < self.row(i).len() ==> (#[trigger] order[self@.0[i]
                + j]) < self.row(i).len()
        &&& forall|i: int, j: int, k: int|
            0 <= i < self.num_rows() && 0 <= j < k < self.row(i).len() ==> #[trigger] order[self@.0[i]
                + j] != #[trigger] order[self@.0[i] + k]
    }

    /// Rearranges every row by `order` when it permutes each row: entry `j` of row `i`
    /// becomes the old entry `order[offsets[i] + j]` of that row. Otherwise nothing changes.
    pub fn reorder_rows(&mut self, order: &Vec<u32>) -> (ok: bool)
        requires
            old(self).wf(),
        ensures
            ok == old(self).is_row_order(order@),
            final(self).wf(),
            final(self)@.0 == old(self)@.0,
            !ok ==> final(self)@ == old(self)@,
            ok ==> forall|i: int, j: int|
                0 <= i < old(self).num_rows() && 0 <= j < old(self).row(i).len() ==> #[trigger] final(self).row(i)[j]
                    == old(self).row(i)[order@[old(self)@.0[i] + j] as int],
    {
        let rows = self.len();
        if order.len() != self.indices.len() {
            return false;
        }
        let mut i: usize = 0;
        while i < rows
            invariant
                self.wf(),
                rows == self.num_rows(),
                order@.len() == self@.1.len(),
                i <= rows,
                forall|u: int, j: int|
                    0 <= u < i && 0 <= j < self.row(u).len() ==> (#[trigger] order@[self@.0[u]
                        + j]) < self.row(u).len(),
                forall|u: int, j: int, k: int|
                    0 <= u < i && 0 <= j < k < self.row(u).len() ==> #[trigger] order@[self@.0[u]
                        + j] != #[trigger] order@[self@.0[u] + k],
            decreases rows - i,
        {
            let start = self.offsets[i] as usize;
            let end = self.offsets[i + 1] as usize;
            let deg = end - start;
            let mut j: usize = 0;
            while j < deg
                invariant
                    self.wf(),
                    rows == self.num_rows(),
                    order@.len() == self@.1.len(),
                    i < rows,
                    start == self@.0[i as int],
                    end == self@.0[i + 1],
                    end <= self@.1.len(),
                    deg == self.row(i as int).len(),
                    j <= deg,
                    forall|q: int| 0 <= q < j ==> (#[trigger] order@[start + q]) < deg,
                    forall|q: int, k: int| 0 <= q < k < j ==> #[trigger] order@[start + q] != #[trigger] order@[start + k],
                decreases deg - j,
            {
                if order[start + j] as usize >= deg {
                    return false;
                }
                let mut k: usize = 0;
                while k < j
                    invariant
                        self.wf(),
                        rows == self.num_rows(),
                        order@.len() == self@.1.len(),
                        i < rows,
                        start == self@.0[i as int],
                        end == self@.0[i + 1],
                        end <= self@.1.len(),
                        deg == self.row(i as int).len(),
                        j < deg,
                        k <= j,
                        forall|q: int| 0 <= q < k ==> #[trigger] order@[start + q] != order@[start + j],
                    decreases j - k,
                {
                    if order[start + k] == order[start + j] {
                        return false;
                    }
                    k += 1;
                }
                j += 1;
            }
            i += 1;
        }
        let ghost before = self@;
        let mut fresh: Vec<u32> = Vec::new();
        let mut p: usize = 0;
        i = 0;
        while i < rows
            invariant
                self.wf(),
                self@ == before,
                rows == self.num_rows(),
                self.is_row_order(order@),
                i <= rows,
                p == self@.0[i as int],
                fresh@.len() == p,
                forall|u: int, j: int|
                    0 <= u < i && 0 <= j < self.row(u).len() ==> #[trigger] fresh@[self@.0[u] + j]
                        == self.row(u)[order@[self@.0[u] + j] as int],
            decreases rows - i,
        {
            let start = self.offsets[i] as usize;
            let end = self.offsets[i + 1] as usize;
            while p < end
                invariant
                    self.wf(),
                    self.is_row_order(order@),
                    i < rows,
                    rows == self.num_rows(),
                    start == self@.0[i as int],
                    end == self@.0[i + 1],
                    end <= self@.1.len(),
                    start <= p <= end,
                    fresh@.len() == p,
                    forall|u: int, j: int|
                        0 <= u < i && 0 <= j < self.row(u).len() ==> #[trigger] fresh@[self@.0[u] + j]
                            == self.row(u)[order@[self@.0[u] + j] as int],
                    forall|j: int| 0 <= j < p - start ==> #[trigger] fresh@[start + j]
                        == self.row(i as int)[order@[start + j] as int],
                decreases end - p,
            {
                assert(order@[start + (p - start)] < self.row(i as int).len());
                let src = start + order[p] as usize;
                fresh.push(self.indices[src]);
                p += 1;
            }
            proof {
                assert forall|u: int, j: int| 0 <= u < i + 1 && 0 <= j < self.row(u).len() implies #[trigger] fresh@[self@.0[u] + j]
                    == self.row(u)[order@[self@.0[u] + j] as int] by {
                    if u < i {
                        assert(self@.0[u + 1] <= self@.0[i as int]);
                    } else {
                        assert(fresh@[start + j] == self.row(i as int)[order@[start + j] as int]);
                    }
                }
            }
            i += 1;
        }
        self.indices = fresh;
        true
    }

    /// Number of related ids of row `idx`.
    #[must_use]
    pub fn count(&self, idx: usize) -> (r: usize)
        requires
            self.wf(),
            idx < self.num_rows(),
        ensures
            r == self.row(idx as int).len(),
    {
        let rows = self.len();
        assert(idx < rows);
        (self.offsets[idx + 1] - self.offsets[idx]) as usize
    }
}


/// Cell -> Edge of `t`: the edge ids of the local edges `(v0, v1)`, `(v1, v2)`, `(v2, v0)`
/// of each cell, in that order.
pub open spec fn is_cell_edge_of(a: &Adjacency<CellEdge>, t: Seq<u32>) -> bool {
    &&& a.wf()
    &&& a.num_rows() == t.len() / 3
    &&& forall|c: int| 0 <= c < t.len() / 3 ==> (#[trigger] a.row(c)).len() == 3
    &&& forall|c: int, k: int|
        0 <= c < t.len() / 3 && 0 <= k < 3 ==> (#[trigger] a.row(c)[k] as int) < edges_of(t).len()
            && edges_of(t)[a.row(c)[k] as int] == scan_pair(t, 3 * c + k)
}

/// Edge -> Vertex of `t`: the canonical (lower, higher) pair of each edge.
pub open spec fn is_edge_vertex_of(a: &Adjacency<EdgeVertex>, t: Seq<u32>) -> bool {
    &&& a.wf()
    &&& a.num_rows() == edges_of(t).len()
    &&& forall|e: int|
        0 <= e < edges_of(t).len() ==> #[trigger] a.row(e) == seq![
            edges_of(t)[e].0,
            edges_of(t)[e].1,
        ]
}

/// Edge -> Cell of `t`: per edge, the cell in which its vertices appear in increasing
/// order, then the other cell.
pub open spec fn is_edge_cell_of(a: &Adjacency<EdgeCell>, t: Seq<u32>) -> bool {
    &&& a.wf()
    &&& a.num_rows() == edges_of(t).len()
    &&& forall|e: int|
        0 <= e < edges_of(t).len() ==> #[trigger] a.row(e) == seq![
            primary_cell(t, edges_of(t)[e], t.len()),
            secondary_cell(t, edges_of(t)[e], t.len()),
        ]
}

/// Cell -> Cell of `t`: per cell, the cell across each of its three local edges.
pub open spec fn is_cell_cell_of(a: &Adjacency<Cell>, t: Seq<u32>) -> bool {
    &&& a.wf()
    &&& a.num_rows() == t.len() / 3
    &&& forall|c: int| 0 <= c < t.len() / 3 ==> (#[trigger] a.row(c)).len() == 3
    &&& forall|c: int, k: int|
        0 <= c < t.len() / 3 && 0 <= k < 3 ==> #[trigger] a.row(c)[k] == neighbor_cell(t, 3 * c + k)
}

/// Vertex -> Cell of `t`: per vertex, the cells that hold it, in increasing order.
pub open spec fn is_vertex_cell_of(a: &Adjacency<VertexCell>, t: Seq<u32>, num_vertices: int) -> bool {
    &&& a.wf()
    &&& a.num_rows() == num_vertices
    &&& forall|v: int|
        0 <= v < num_vertices ==> #[trigger] a.row(v) == grouped(t, corner_cells(t.len()), v as u32, t.len())
}

/// Vertex -> Edge of `t` before angular ordering: per vertex, the edges that end at it,
/// in increasing id order.
pub open spec fn is_vertex_edge_of(a: &Adjacency<VertexEdge>, t: Seq<u32>, num_vertices: int) -> bool {
    &&& a.wf()
    &&& a.num_rows() == num_vertices
    &&& forall|v: int|
        0 <= v < num_vertices ==> #[trigger] a.row(v) == grouped(
            edge_ends(edges_of(t)),
            edge_slots(edges_of(t).len()),
            v as u32,
            2 * edges_of(t).len(),
        )
}

/// Rows of equal length `stride` over `indices`.
fn uniform<T>(indices: Vec<u32>, rows: usize, stride: usize) -> (r: Adjacency<T>)
    requires
        indices@.len() == rows * stride,
        rows * stride <= u32::MAX,
        1 <= stride <= 3,
    ensures
        r.wf(),
        r.num_rows() == rows,
        r@.1 == indices@,
        forall|i: int| 0 <= i <= rows ==> #[trigger] r@.0[i] == stride * i,
        forall|i: int|
            0 <= i < rows ==> #[trigger] r.row(i) == indices@.subrange(stride * i, stride * i + stride),
{
    let mut offsets: Vec<u32> = Vec::new();
    let mut running: usize = 0;
    let mut i: usize = 0;
    while i < rows
        invariant
            i <= rows,
            rows * stride <= u32::MAX,
            1 <= stride <= 3,
            running == stride * i,
            offsets@.len() == i,
            forall|u: int| 0 <= u < i ==> #[trigger] offsets@[u] == stride * u,
        decreases rows - i,
    {
        assert(stride * (i + 1) == stride * i + stride) by (nonlinear_arith);
        assert(stride * (i + 1) <= rows * stride) by (nonlinear_arith)
            requires
                i < rows,
                1 <= stride,
        ;
        offsets.push(running as u32);
        running = running + stride;
        i += 1;
    }
    assert(stride * rows == rows * stride) by (nonlinear_arith);
    offsets.push(running as u32);
    let r = Adjacency { offsets, indices, _t: PhantomData };
    assert forall|u: int, w: int| 0 <= u <= w < r@.0.len() implies r@.0[u] <= r@.0[w] by {
        assert(stride * u <= stride * w) by (nonlinear_arith)
            requires
                u <= w,
                1 <= stride;
    }
    assert(r@.0[rows as int] == r@.1.len()) by {
        assert(stride * rows == rows * stride) by (nonlinear_arith);
    }
    assert forall|i: int| 0 <= i < rows implies #[trigger] r.row(i) == indices@.subrange(stride * i, stride * i + stride) by {
        assert(stride * (i + 1) == stride * i + stride) by (nonlinear_arith);
    }
    r
}

/// Per edge, the cell holding it with increasing vertex order, then the other cell
/// (two entries per edge).
fn edge_cell_slots(t: &Triangulation, ids: &Vec<u32>, es: &Vec<(u32, u32)>) -> (r: Vec<u32>)
    requires
        valid_triangles(t.indices@, t.num_vertices as int),
        es@ == edges_of(t.indices@),
        ids@.len() == t.indices@.len(),
        forall|p: int|
            0 <= p < t.indices@.len() ==> (#[trigger] ids@[p] as int) < es@.len() && es@[ids@[p]
                as int] == scan_pair(t.indices@, p),
    ensures
        r@.len() == 2 * es@.len(),
        forall|e: int|
            0 <= e < es@.len() ==> r@[2 * e] == primary_cell(t.indices@, #[trigger] es@[e], t.indices@.len())
                && r@[2 * e + 1] == secondary_cell(t.indices@, es@[e], t.indices@.len()),
{
    let tris = &t.indices;
    let n = tris.len();
    proof {
        lemma_edge_list(tris@, n as nat, t.num_vertices as int);
    }
    let mut slots: Vec<u32> = Vec::new();
    let mut j: usize = 0;
    while j < 2 * es.len()
        invariant
            j <= 2 * es@.len(),
            es@.len() <= n,
            n <= MAX_INDICES,
            slots@.len() == j,
            forall|q: int| 0 <= q < j ==> #[trigger] slots@[q] == 0,
        decreases 2 * es@.len() - j,
    {
        slots.push(0);
        j += 1;
    }
    let mut p: usize = 0;
    while p < n
        invariant
            valid_triangles(tris@, t.num_vertices as int),
            tris == &t.indices,
            n == tris@.len(),
            n <= MAX_INDICES,
            es@.len() <= n,
            p <= n,
            es@ == edges_of(tris@),
            es@.no_duplicates(),
            ids@.len() == n,
            slots@.len() == 2 * es@.len(),
            forall|q: int|
                0 <= q < n ==> (#[trigger] ids@[q] as int) < es@.len() && es@[ids@[q] as int]
                    == scan_pair(tris@, q),
            forall|e: int|
                0 <= e < es@.len() ==> slots@[2 * e] == primary_cell(tris@, #[trigger] es@[e], p as nat)
                    && slots@[2 * e + 1] == secondary_cell(tris@, es@[e], p as nat),
        decreases n - p,
    {
        let e = ids[p] as usize;
        let s = tris[p];
        let f = if p % 3 == 2 {
            tris[p - 2]
        } else {
            tris[p + 1]
        };
        if s < f {
            slots.set(2 * e, (p / 3) as u32);
        } else {
            slots.set(2 * e + 1, (p / 3) as u32);
        }
        p += 1;
        assert forall|d: int| 0 <= d < es@.len() implies slots@[2 * d] == primary_cell(tris@, #[trigger] es@[d], p as nat)
            && slots@[2 * d + 1] == secondary_cell(tris@, es@[d], p as nat) by {
            if d != e {
                assert(es@[d] != es@[e as int]);
            }
        }
    }
    slots
}

impl Adjacency<CellEdge> {
    /// Cell -> Edge relation of a triangle list.
    pub fn from(t: &Triangulation) -> (r: Self)
        requires
            valid_triangles(t.indices@, t.num_vertices as int),
        ensures
            is_cell_edge_of(&r, t.indices@),
    {
        let (ids, _es) = number_edges(t);
        let rows = t.indices.len() / 3;
        let r = uniform(ids, rows, 3);
        assert forall|c: int, k: int| 0 <= c < t.indices@.len() / 3 && 0 <= k < 3 implies (
        #[trigger] r.row(c)[k] as int) < edges_of(t.indices@).len() && edges_of(t.indices@)[r.row(c)[k] as int] == scan_pair(
            t.indices@,
            3 * c + k,
        ) by {
            assert(r.row(c)[k] == r@.1[3 * c + k]);
        }
        r
    }
}

impl Adjacency<EdgeVertex> {
    /// Edge -> Vertex relation of a triangle list.
    pub fn from(t: &Triangulation) -> (r: Self)
        requires
            valid_triangles(t.indices@, t.num_vertices as int),
        ensures
            is_edge_vertex_of(&r, t.indices@),
    {
        let (_ids, es) = number_edges(t);
        proof {
            lemma_edge_list(t.indices@, t.indices@.len(), t.num_vertices as int);
        }
        let mut flat: Vec<u32> = Vec::new();
        let mut e: usize = 0;
        while e < es.len()
            invariant
                e <= es@.len(),
                es@.len() <= MAX_INDICES,
                flat@ == edge_ends(es@.subrange(0, e as int)),
            decreases es@.len() - e,
        {
            let (lo, hi) = es[e];
            flat.push(lo);
            flat.push(hi);
            e += 1;
            assert(flat@ =~= edge_ends(es@.subrange(0, e as int)));
        }
        assert(es@.subrange(0, es@.len() as int) == es@);
        let r = uniform(flat, es.len(), 2);
        assert forall|e: int| 0 <= e < es@.len() implies #[trigger] r.row(e) == seq![es@[e].0, es@[e].1] by {
            assert(r.row(e) =~= seq![es@[e].0, es@[e].1]);
        }
        r
    }
}

impl Adjacency<EdgeCell> {
    /// Edge -> Cell relation of a triangle list.
    pub fn from(t: &Triangulation) -> (r: Self)
        requires
            valid_triangles(t.indices@, t.num_vertices as int),
        ensures
            is_edge_cell_of(&r, t.indices@),
    {
        let (ids, es) = number_edges(t);
        proof {
            lemma_edge_list(t.indices@, t.indices@.len(), t.num_vertices as int);
        }
        let slots = edge_cell_slots(t, &ids, &es);
        let r = uniform(slots, es.len(), 2);
        assert forall|e: int| 0 <= e < es@.len() implies #[trigger] r.row(e) == seq![
            primary_cell(t.indices@, es@[e], t.indices@.len()),
            secondary_cell(t.indices@, es@[e], t.indices@.len()),
        ] by {
            assert(r.row(e) =~= seq![
                primary_cell(t.indices@, es@[e], t.indices@.len()),
                secondary_cell(t.indices@, es@[e], t.indices@.len()),
            ]);
        }
        r
    }
}

impl Adjacency<Cell> {
    /// Cell -> Cell relation of a triangle list: the neighbour across each local edge.
    pub fn from(t: &Triangulation) -> (r: Self)
        requires
            valid_triangles(t.indices@, t.num_vertices as int),
        ensures
            is_cell_cell_of(&r, t.indices@),
    {
        let (ids, es) = number_edges(t);
        proof {
            lemma_edge_list(t.indices@, t.indices@.len(), t.num_vertices as int);
        }
        let slots = edge_cell_slots(t, &ids, &es);
        let n = t.indices.len();
        let mut nbrs: Vec<u32> = Vec::new();
        let mut p: usize = 0;
        while p < n
            invariant
                n == t.indices@.len(),
                n <= MAX_INDICES,
                es@.len() <= n,
                p <= n,
                es@ == edges_of(t.indices@),
                ids@.len() == n,
                slots@.len() == 2 * es@.len(),
                forall|q: int|
                    0 <= q < n ==> (#[trigger] ids@[q] as int) < es@.len() && es@[ids@[q] as int]
                        == scan_pair(t.indices@, q),
                forall|e: int|
                    0 <= e < es@.len() ==> slots@[2 * e] == primary_cell(t.indices@, #[trigger] es@[e], n as nat)
                        && slots@[2 * e + 1] == secondary_cell(t.indices@, es@[e], n as nat),
                nbrs@.len() == p,
                forall|q: int| 0 <= q < p ==> #[trigger] nbrs@[q] == neighbor_cell(t.indices@, q),
            decreases n - p,
        {
            let e = ids[p] as usize;
            let a = slots[2 * e];
            let b = slots[2 * e + 1];
            assert(es@[e as int] == scan_pair(t.indices@, p as int));
            let cell = (p / 3) as u32;
            nbrs.push(if a == cell { b } else { a });
            p += 1;
        }
        let r = uniform(nbrs, n / 3, 3);
        assert forall|c: int, k: int| 0 <= c < n / 3 && 0 <= k < 3 implies #[trigger] r.row(c)[k]
            == neighbor_cell(t.indices@, 3 * c + k) by {
            assert(r.row(c)[k] == r@.1[3 * c + k]);
        }
        r
    }
}

impl Adjacency<VertexCell> {
    /// Vertex -> Cell relation of a triangle list.
    pub fn from(t: &Triangulation) -> (r: Self)
        requires
            valid_triangles(t.indices@, t.num_vertices as int),
        ensures
            is_vertex_cell_of(&r, t.indices@, t.num_vertices as int),
    {
        let n = t.indices.len();
        let mut cells: Vec<u32> = Vec::new();
        let mut p: usize = 0;
        while p < n
            invariant
                n == t.indices@.len(),
                n <= MAX_INDICES,
                p <= n,
                cells@ == corner_cells(p as nat),
            decreases n - p,
        {
            cells.push((p / 3) as u32);
            p += 1;
            assert(cells@ =~= corner_cells(p as nat));
        }
        group_by_key(&t.indices, &cells, t.num_vertices)
    }
}

impl Adjacency<VertexEdge> {
    /// Vertex -> Edge relation of a triangle list, each row in increasing edge id order.
    pub fn from(t: &Triangulation) -> (r: Self)
        requires
            valid_triangles(t.indices@, t.num_vertices as int),
        ensures
            is_vertex_edge_of(&r, t.indices@, t.num_vertices as int),
    {
        let (_ids, es) = number_edges(t);
        proof {
            lemma_edge_list(t.indices@, t.indices@.len(), t.num_vertices as int);
        }
        let mut ends: Vec<u32> = Vec::new();
        let mut slots: Vec<u32> = Vec::new();
        let mut e: usize = 0;
        while e < es.len()
            invariant
                e <= es@.len(),
                es@.len() <= MAX_INDICES,
                ends@ == edge_ends(es@.subrange(0, e as int)),
                slots@ == edge_slots(e as nat),
            decreases es@.len() - e,
        {
            let (lo, hi) = es[e];
            ends.push(lo);
            ends.push(hi);
            slots.push(e as u32);
            slots.push(e as u32);
            e += 1;
            assert(ends@ =~= edge_ends(es@.subrange(0, e as int)));
            assert(slots@ =~= edge_slots(e as nat));
        }
        assert(es@.subrange(0, es@.len() as int) == es@);
        assert forall|i: int| 0 <= i < ends@.len() implies (#[trigger] ends@[i]) < t.num_vertices by {
            assert(es@[i / 2].0 <= es@[i / 2].1);
        }
        group_by_key(&ends, &slots, t.num_vertices)
    }
}

/// Groups the values of (key, value) pairs by key, keeping their order: row `k` of the
/// result holds the values whose key is `k`.
fn group_by_key<T>(keys: &Vec<u32>, vals: &Vec<u32>, n: usize) -> (r: Adjacency<T>)
    requires
        keys@.len() == vals@.len(),
        keys@.len() <= u32::MAX,
        n <= u32::MAX,
        forall|i: int| 0 <= i < keys@.len() ==> (#[trigger] keys@[i]) < n,
    ensures
        r.wf(),
        r.num_rows() == n,
        forall|k: int|
            0 <= k < n ==> #[trigger] r.row(k) == grouped(keys@, vals@, k as u32, keys@.len()),
{
    let m = keys.len();
    let ghost ks = keys@;
    let ghost vs = vals@;
    let mut counts: Vec<u32> = Vec::new();
    let mut v: usize = 0;
    while v < n
        invariant
            v <= n,
            counts@.len() == v,
            forall|u: int| 0 <= u < v ==> #[trigger] counts@[u] == 0,
        decreases n - v,
    {
        counts.push(0);
        v += 1;
    }
    let mut i: usize = 0;
    while i < m
        invariant
            m == ks.len(),
            ks == keys@,
            vs == vals@,
            ks.len() == vs.len(),
            m <= u32::MAX,
            n <= u32::MAX,
            i <= m,
            counts@.len() == n,
            forall|j: int| 0 <= j < m ==> (#[trigger] ks[j]) < n,
            forall|u: int| 0 <= u < n ==> #[trigger] counts@[u] == grouped(ks, vs, u as u32, i as nat).len(),
        decreases m - i,
    {
        let k = keys[i] as usize;
        proof {
            lemma_grouped_prefix(ks, vs, k as u32, i as nat, i as nat);
        }
        counts.set(k, counts[k] + 1);
        i += 1;
        assert forall|u: int| 0 <= u < n implies #[trigger] counts@[u] == grouped(ks, vs, u as u32, i as nat).len() by {
            assert(u as u32 == k as u32 ==> u == k);
        }
    }
    proof {
        lemma_prefix_total(ks, vs, n as nat, m as nat);
    }
    let mut offsets: Vec<u32> = Vec::new();
    let mut write_pos: Vec<u32> = Vec::new();
    let mut running: u32 = 0;
    v = 0;
    while v < n
        invariant
            m == ks.len(),
            n <= u32::MAX,
            v <= n,
            counts@.len() == n,
            forall|u: int| 0 <= u < n ==> #[trigger] counts@[u] == grouped(ks, vs, u as u32, m as nat).len(),
            prefix_total(ks, vs, n as nat, m as nat) == m,
            m <= u32::MAX,
            running == prefix_total(ks, vs, v as nat, m as nat),
            offsets@.len() == v,
            write_pos@ == offsets@,
            forall|u: int| 0 <= u < v ==> #[trigger] offsets@[u] == prefix_total(ks, vs, u as nat, m as nat),
        decreases n - v,
    {
        proof {
            lemma_prefix_total_mono(ks, vs, (v + 1) as nat, n as nat, m as nat);
        }
        offsets.push(running);
        write_pos.push(running);
        running = running + counts[v];
        v += 1;
    }
    offsets.push(running);
    let mut indices: Vec<u32> = Vec::new();
    let mut j: usize = 0;
    while j < m
        invariant
            j <= m,
            indices@.len() == j,
        decreases m - j,
    {
        indices.push(0);
        j += 1;
    }
    assert forall|u: int, w: int| 0 <= u <= w < offsets@.len() implies offsets@[u] <= offsets@[w] by {
        lemma_prefix_total_mono(ks, vs, u as nat, w as nat, m as nat);
    }
    i = 0;
    while i < m
        invariant
            m == ks.len(),
            ks == keys@,
            vs == vals@,
            ks.len() == vs.len(),
            i <= m,
            n <= u32::MAX,
            indices@.len() == m,
            offsets@.len() == n + 1,
            offsets@[n as int] == m,
            write_pos@.len() == n,
            forall|j: int| 0 <= j < m ==> (#[trigger] ks[j]) < n,
            forall|u: int, w: int| 0 <= u <= w < offsets@.len() ==> offsets@[u] <= offsets@[w],
            forall|u: int|
                0 <= u < n ==> #[trigger] offsets@[u + 1] == offsets@[u] + grouped(ks, vs, u as u32, m as nat).len(),
            forall|u: int|
                0 <= u < n ==> #[trigger] write_pos@[u] == offsets@[u] + grouped(ks, vs, u as u32, i as nat).len(),
            forall|u: int, q: int|
                0 <= u < n && 0 <= q < grouped(ks, vs, u as u32, i as nat).len() ==> indices@[offsets@[u] + q]
                    == #[trigger] grouped(ks, vs, u as u32, i as nat)[q],
        decreases m - i,
    {
        let k = keys[i] as usize;
        proof {
            lemma_grouped_prefix(ks, vs, k as u32, (i + 1) as nat, m as nat);
            assert(offsets@[k + 1] == offsets@[k as int] + grouped(ks, vs, k as u32, m as nat).len());
        }
        let pos = write_pos[k];
        let ghost before = indices@;
        let ghost prev_i = i as nat;
        indices.set(pos as usize, vals[i]);
        write_pos.set(k, pos + 1);
        i += 1;
        proof {
            assert forall|u: int| 0 <= u < n implies #[trigger] write_pos@[u] == offsets@[u] + grouped(ks, vs, u as u32, i as nat).len() by {
                assert(u as u32 == k as u32 ==> u == k);
            }
            assert forall|u: int, q: int|
                0 <= u < n && 0 <= q < grouped(ks, vs, u as u32, i as nat).len() implies indices@[offsets@[u] + q]
                    == #[trigger] grouped(ks, vs, u as u32, i as nat)[q] by {
                assert(u as u32 == k as u32 ==> u == k);
                lemma_grouped_prefix(ks, vs, u as u32, i as nat, m as nat);
                assert(offsets@[u + 1] <= offsets@[n as int]);
                assert(offsets@[u] + q < m);
                if u == k {
                    assert(grouped(ks, vs, u as u32, i as nat) == grouped(ks, vs, u as u32, prev_i).push(vs[prev_i as int]));
                    if q < grouped(ks, vs, u as u32, prev_i).len() {
                        assert(before[offsets@[u] + q] == grouped(ks, vs, u as u32, prev_i)[q]);
                        assert(offsets@[u] + q != pos);
                    } else {
                        assert(offsets@[u] + q == pos);
                    }
                } else {
                    assert(grouped(ks, vs, u as u32, i as nat) == grouped(ks, vs, u as u32, prev_i));
                    assert(before[offsets@[u] + q] == grouped(ks, vs, u as u32, prev_i)[q]);
                    lemma_grouped_prefix(ks, vs, u as u32, prev_i, m as nat);
                    if u < k {
                        assert(offsets@[u + 1] <= offsets@[k as int]);
                    } else {
                        assert(offsets@[k + 1] <= offsets@[u]);
                    }
                    assert(offsets@[u] + q != pos);
                }
            }
        }
    }
    let r = Adjacency { offsets, indices, _t: PhantomData };
    assert forall|k: int| 0 <= k < n implies #[trigger] r.row(k) == grouped(ks, vs, k as u32, m as nat) by {
        assert(r.row(k) =~= grouped(ks, vs, k as u32, m as nat));
    }
    r
}

/// Numbers the edges of `t` in scan order: the edge id of every local edge, and the
/// canonical pair of every edge id.
fn number_edges(t: &Triangulation) -> (r: (Vec<u32>, Vec<(u32, u32)>))
    requires
        valid_triangles(t.indices@, t.num_vertices as int),
    ensures
        r.1@ == edges_of(t.indices@),
        r.0@.len() == t.indices@.len(),
        forall|p: int|
            0 <= p < t.indices@.len() ==> (#[trigger] r.0@[p] as int) < r.1@.len() && r.1@[r.0@[p]
                as int] == scan_pair(t.indices@, p),
{
    broadcast use vstd::std_specs::hash::group_hash_axioms;

    let tris = &t.indices;
    let n = tris.len();
    let mut cache: HashMap<u64, u32> = HashMap::new();
    let mut ids: Vec<u32> = Vec::new();
    let mut edges: Vec<(u32, u32)> = Vec::new();
    let mut p: usize = 0;
    while p < n
        invariant
            valid_triangles(tris@, t.num_vertices as int),
            n == tris@.len(),
            p <= n,
            edges@ == edge_list(tris@, p as nat),
            ids@.len() == p,
            forall|q: int|
                0 <= q < p ==> (#[trigger] ids@[q] as int) < edges@.len() && edges@[ids@[q]
                    as int] == scan_pair(tris@, q),
            forall|k: u64|
                #[trigger] cache@.contains_key(k) ==> (cache@[k] as int) < edges@.len()
                    && pair_key(edges@[cache@[k] as int]) == k as int,
            forall|i: int|
                0 <= i < edges@.len() ==> cache@.contains_key(
                    #[trigger] pair_key(edges@[i]) as u64,
                ) && cache@[pair_key(edges@[i]) as u64] == i,
        decreases n - p,
    {
        proof {
            lemma_edge_list(tris@, p as nat, t.num_vertices as int);
        }
        let s = tris[p];
        let f = if p % 3 == 2 {
            tris[p - 2]
        } else {
            tris[p + 1]
        };
        let (lo, hi) = if s <= f {
            (s, f)
        } else {
            (f, s)
        };
        assert((lo, hi) == scan_pair(tris@, p as int));
        let key: u64 = (lo as u64) * 0x1_0000_0000 + (hi as u64);
        assert(key as int == pair_key((lo, hi)));
        let id: u32;
        match cache.get(&key) {
            Some(found) => {
                id = *found;
                proof {
                    lemma_pair_key_injective(edges@[id as int], (lo, hi));
                    assert(edge_list(tris@, p as nat).contains((lo, hi)));
                }
            },
            None => {
                assert(!edge_list(tris@, p as nat).contains((lo, hi)));
                id = edges.len() as u32;
                let ghost prior = cache@;
                cache.insert(key, id);
                edges.push((lo, hi));
                proof {
                    assert forall|k: u64| #[trigger] cache@.contains_key(k) implies (cache@[k] as int)
                        < edges@.len() && pair_key(edges@[cache@[k] as int]) == k as int by {
                        if k != key {
                            assert(prior.contains_key(k));
                        }
                    }
                    assert forall|i: int| 0 <= i < edges@.len() implies cache@.contains_key(
                        #[trigger] pair_key(edges@[i]) as u64,
                    ) && cache@[pair_key(edges@[i]) as u64] == i by {
                        if i < edges@.len() - 1 {
                            if pair_key(edges@[i]) as u64 == key {
                                lemma_pair_key_injective(edges@[i], (lo, hi));
                            }
                        }
                    }
                }
            },
        }
        ids.push(id);
        p += 1;
    }
    (ids, edges)
}

} // verus!
