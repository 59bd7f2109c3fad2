use vstd::prelude::*;
use vstd::relations::injective_on;
use vstd::set_lib::lemma_map_size;

use crate::adjacency::{
    is_cell_cell_of, is_cell_edge_of, is_edge_cell_of, is_edge_vertex_of, is_vertex_cell_of,
    is_vertex_edge_of, Adjacency, Cell, CellEdge, EdgeCell, EdgeVertex, VertexCell, VertexEdge,
};
use crate::operators::{
    entry_sum, is_d0_of, is_d1_of, orientation, product_at, product_prefix, IncidenceMatrix,
    Triplet,
};
use crate::triangulation::{
    corner_cells, edge_ends, edge_slots, grouped, lemma_edge_list_seen, directed, edges_of, is_closed_manifold, lemma_edge_list, neighbor_cell, primary_cell,
    reverse_position, scan_pair, secondary_cell, succ, valid_triangles,
};

verus! {

/// Value of d0 at (`e`, `v`) read off the edge's vertex pair.
pub open spec fn d0_value(ev: &Adjacency<EdgeVertex>, e: int, v: int) -> int {
    (if ev.row(e)[1] == v {
        1int
    } else {
        0int
    }) - (if ev.row(e)[0] == v {
        1int
    } else {
        0int
    })
}

proof fn lemma_d0_entry(d0: &IncidenceMatrix, ev: &Adjacency<EdgeVertex>, nv: int, e: int, v: int, n: nat)
    requires
        is_d0_of(d0, ev, nv),
        0 <= e < ev.num_rows(),
        n <= d0.entries@.len(),
    ensures
        entry_sum(d0.entries@, e, v, n) == (if n > 2 * e && ev.row(e)[0] == v {
            -1int
        } else {
            0int
        }) + (if n > 2 * e + 1 && ev.row(e)[1] == v {
            1int
        } else {
            0int
        }),
    decreases n,
{
    if n > 0 {
        lemma_d0_entry(d0, ev, nv, e, v, (n - 1) as nat);
        let j = n - 1;
        let d = j / 2;
        assert(d0.entries@[2 * d] == Triplet { row: d as usize, col: ev.row(d)[0] as usize, value: -1i8 });
    }
}

/// Sign and edge of local edge `k` of cell `c` in d1.
spec fn d1_term(d1: &IncidenceMatrix, c: int, k: int, e: int, n: nat) -> int {
    if n > 3 * c + k && d1.entries@[3 * c + k].col == e {
        d1.entries@[3 * c + k].value as int
    } else {
        0
    }
}

proof fn lemma_d1_entry(
    d1: &IncidenceMatrix,
    ce: &Adjacency<CellEdge>,
    ev: &Adjacency<EdgeVertex>,
    t: Seq<u32>,
    c: int,
    e: int,
    n: nat,
)
    requires
        is_d1_of(d1, ce, ev, t),
        0 <= c < ce.num_rows(),
        n <= d1.entries@.len(),
    ensures
        entry_sum(d1.entries@, c, e, n) == d1_term(d1, c, 0, e, n) + d1_term(d1, c, 1, e, n) + d1_term(
            d1,
            c,
            2,
            e,
            n,
        ),
    decreases n,
{
    if n > 0 {
        lemma_d1_entry(d1, ce, ev, t, c, e, (n - 1) as nat);
        let j = n - 1;
        let d = j / 3;
        let k = j % 3;
        assert(d1.entries@[3 * d + k].row == d);
    }
}

proof fn lemma_product_prefix(
    d1: &IncidenceMatrix,
    d0: &IncidenceMatrix,
    ce: &Adjacency<CellEdge>,
    ev: &Adjacency<EdgeVertex>,
    t: Seq<u32>,
    nv: int,
    c: int,
    v: int,
    m: nat,
)
    requires
        is_d1_of(d1, ce, ev, t),
        is_d0_of(d0, ev, nv),
        0 <= c < ce.num_rows(),
        m <= ev.num_rows(),
        forall|k: int| 0 <= k < 3 ==> (#[trigger] ce.row(c)[k]) < ev.num_rows(),
    ensures
        product_prefix(d1.entries@, d0.entries@, c, v, m) == (if ce.row(c)[0] < m {
            d1.entries@[3 * c].value * d0_value(ev, ce.row(c)[0] as int, v)
        } else {
            0
        }) + (if ce.row(c)[1] < m {
            d1.entries@[3 * c + 1].value * d0_value(ev, ce.row(c)[1] as int, v)
        } else {
            0
        }) + (if ce.row(c)[2] < m {
            d1.entries@[3 * c + 2].value * d0_value(ev, ce.row(c)[2] as int, v)
        } else {
            0
        }),
    decreases m,
{
    if m > 0 {
        let e = m - 1;
        lemma_product_prefix(d1, d0, ce, ev, t, nv, c, v, (m - 1) as nat);
        lemma_d1_entry(d1, ce, ev, t, c, e, d1.entries@.len());
        lemma_d0_entry(d0, ev, nv, e, v, d0.entries@.len());
        assert(d1.entries@[3 * c + 0].col == ce.row(c)[0]);
        assert(d1.entries@[3 * c + 1].col == ce.row(c)[1]);
        assert(d1.entries@[3 * c + 2].col == ce.row(c)[2]);
        let n1 = d1.entries@.len();
        let a = entry_sum(d1.entries@, c, e, n1);
        let b = entry_sum(d0.entries@, e, v, d0.entries@.len());
        assert(b == d0_value(ev, e, v));
        let (t0, t1, t2) = (d1_term(d1, c, 0, e, n1), d1_term(d1, c, 1, e, n1), d1_term(d1, c, 2, e, n1));
        assert(a * b == t0 * b + t1 * b + t2 * b) by (nonlinear_arith)
            requires
                a == t0 + t1 + t2,
        ;
        assert(product_prefix(d1.entries@, d0.entries@, c, v, m) == product_prefix(d1.entries@, d0.entries@, c, v, (m - 1) as nat) + a * b);
    }
}

/// Boundary of a boundary is zero: every entry of the product d1 * d0 built from a
/// triangle list vanishes.
pub proof fn lemma_boundary_of_boundary(
    t: Seq<u32>,
    num_vertices: int,
    ce: &Adjacency<CellEdge>,
    ev: &Adjacency<EdgeVertex>,
    d0: &IncidenceMatrix,
    d1: &IncidenceMatrix,
)
    requires
        valid_triangles(t, num_vertices),
        is_cell_edge_of(ce, t),
        is_edge_vertex_of(ev, t),
        is_d0_of(d0, ev, num_vertices),
        is_d1_of(d1, ce, ev, t),
    ensures
        forall|c: int, v: int| 0 <= c < d1.rows ==> #[trigger] product_at(d1, d0, c, v) == 0,
{
    assert forall|c: int, v: int| 0 <= c < d1.rows implies #[trigger] product_at(d1, d0, c, v) == 0 by {
        assert forall|k: int| 0 <= k < 3 implies (#[trigger] ce.row(c)[k]) < ev.num_rows() by {
            assert(ce.row(c)[k] == ce.row(c)[k]);
        }
        lemma_product_prefix(d1, d0, ce, ev, t, num_vertices, c, v, ev.num_rows() as nat);
        assert forall|k: int| 0 <= k < 3 implies d1.entries@[3 * c + k].value * d0_value(ev, #[trigger] ce.row(c)[k] as int, v)
            == (if t[3 * c + k] == v { 1int } else { 0int }) - (if t[succ(3 * c + k)] == v { 1int } else { 0int }) by {
            let e = ce.row(c)[k] as int;
            assert(edges_of(t)[e] == scan_pair(t, 3 * c + k));
            assert(ev.row(e) == seq![edges_of(t)[e].0, edges_of(t)[e].1]);
            let x = d0_value(ev, e, v);
            let s = d1.entries@[3 * c + k].value as int;
            if t[3 * c + k] <= t[succ(3 * c + k)] {
                assert(s * x == -x) by (nonlinear_arith)
                    requires
                        s == -1,
                ;
            } else {
                assert(s * x == x) by (nonlinear_arith)
                    requires
                        s == 1,
                ;
            }
        }
        assert(succ(3 * c) == 3 * c + 1);
        assert(succ(3 * c + 1) == 3 * c + 2);
        assert(succ(3 * c + 2) == 3 * c);
    }
}

/// Sum of the values of the first `n` entries in row `r`.
pub open spec fn row_total(es: Seq<Triplet>, r: int, n: nat) -> int
    decreases n,
{
    if n == 0 {
        0
    } else {
        row_total(es, r, (n - 1) as nat) + if es[n - 1].row == r {
            es[n - 1].value as int
        } else {
            0
        }
    }
}

proof fn lemma_d0_row_total(d0: &IncidenceMatrix, ev: &Adjacency<EdgeVertex>, nv: int, e: int, n: nat)
    requires
        is_d0_of(d0, ev, nv),
        0 <= e < ev.num_rows(),
        n <= d0.entries@.len(),
    ensures
        row_total(d0.entries@, e, n) == (if n > 2 * e { -1int } else { 0int }) + (if n > 2 * e + 1 { 1int } else { 0int }),
    decreases n,
{
    if n > 0 {
        lemma_d0_row_total(d0, ev, nv, e, (n - 1) as nat);
        let d = (n - 1) / 2;
        assert(d0.entries@[2 * d] == Triplet { row: d as usize, col: ev.row(d)[0] as usize, value: -1i8 });
    }
}

/// Every row of d0 sums to zero: one `-1` and one `+1`.
pub proof fn lemma_d0_rows_sum_to_zero(ev: &Adjacency<EdgeVertex>, num_vertices: int, d0: &IncidenceMatrix)
    requires
        is_d0_of(d0, ev, num_vertices),
    ensures
        forall|e: int| 0 <= e < d0.rows ==> #[trigger] row_total(d0.entries@, e, d0.entries@.len()) == 0,
{
    assert forall|e: int| 0 <= e < d0.rows implies #[trigger] row_total(d0.entries@, e, d0.entries@.len()) == 0 by {
        lemma_d0_row_total(d0, ev, num_vertices, e, d0.entries@.len());
    }
}

/// Every edge has exactly two cells and exactly two vertices, lower first.
pub proof fn lemma_edge_degrees(
    t: Seq<u32>,
    num_vertices: int,
    ec: &Adjacency<EdgeCell>,
    ev: &Adjacency<EdgeVertex>,
)
    requires
        valid_triangles(t, num_vertices),
        is_edge_cell_of(ec, t),
        is_edge_vertex_of(ev, t),
    ensures
        ec.num_rows() == ev.num_rows(),
        forall|e: int| 0 <= e < ec.num_rows() ==> (#[trigger] ec.row(e)).len() == 2,
        forall|e: int|
            0 <= e < ev.num_rows() ==> (#[trigger] ev.row(e)).len() == 2 && ev.row(e)[0] <= ev.row(e)[1],
{
    lemma_edge_list(t, t.len(), num_vertices);
    assert forall|e: int| 0 <= e < ev.num_rows() implies (#[trigger] ev.row(e)).len() == 2 && ev.row(e)[0] <= ev.row(e)[1] by {
        assert(edges_of(t)[e].0 <= edges_of(t)[e].1);
    }
}

proof fn lemma_primary_cell(t: Seq<u32>, q: int, n: nat)
    requires
        is_closed_manifold(t),
        t.len() % 3 == 0,
        0 <= q < n <= t.len(),
        directed(t, q).0 < directed(t, q).1,
    ensures
        primary_cell(t, scan_pair(t, q), n) == (q / 3) as u32,
    decreases n,
{
    let j = n - 1;
    if j != q {
        if scan_pair(t, j) == scan_pair(t, q) && t[j] < t[succ(j)] {
            assert(directed(t, j) == directed(t, q));
        }
        lemma_primary_cell(t, q, (n - 1) as nat);
    }
}

proof fn lemma_secondary_cell(t: Seq<u32>, q: int, n: nat)
    requires
        is_closed_manifold(t),
        t.len() % 3 == 0,
        0 <= q < n <= t.len(),
        directed(t, q).0 > directed(t, q).1,
    ensures
        secondary_cell(t, scan_pair(t, q), n) == (q / 3) as u32,
    decreases n,
{
    let j = n - 1;
    if j != q {
        if scan_pair(t, j) == scan_pair(t, q) && !(t[j] < t[succ(j)]) {
            assert(directed(t, j) != directed(t, j) || directed(t, j).0 != directed(t, j).1);
            assert(directed(t, j) == directed(t, q));
        }
        lemma_secondary_cell(t, q, (n - 1) as nat);
    }
}

/// On a closed surface the cell across a local edge is the cell of its reversal.
proof fn lemma_neighbor_is_reverse(t: Seq<u32>, p: int)
    requires
        is_closed_manifold(t),
        t.len() % 3 == 0,
        t.len() <= crate::triangulation::MAX_INDICES,
        0 <= p < t.len(),
    ensures
        0 <= reverse_position(t, p) < t.len(),
        directed(t, reverse_position(t, p)) == (directed(t, p).1, directed(t, p).0),
        neighbor_cell(t, p) == (reverse_position(t, p) / 3) as u32,
{
    let _ = directed(t, p);
    let q = reverse_position(t, p);
    assert(scan_pair(t, q) == scan_pair(t, p));
    let _ = directed(t, q);
    if directed(t, p).0 < directed(t, p).1 {
        lemma_primary_cell(t, p, t.len());
        lemma_secondary_cell(t, q, t.len());
    } else {
        lemma_primary_cell(t, q, t.len());
        lemma_secondary_cell(t, p, t.len());
        let c = p / 3;
        let _ = directed(t, 3 * c);
        let _ = directed(t, 3 * c + 1);
        let _ = directed(t, 3 * c + 2);
        assert(succ(3 * c) == 3 * c + 1);
        assert(succ(3 * c + 1) == 3 * c + 2);
        assert(succ(3 * c + 2) == 3 * c);
        if q / 3 == p / 3 {
            assert(q == 3 * c || q == 3 * c + 1 || q == 3 * c + 2);
            assert(p == 3 * c || p == 3 * c + 1 || p == 3 * c + 2);
            assert(false);
        }
    }
}

/// Cell adjacency is symmetric on a closed surface: `b` neighbours `a` exactly when `a`
/// neighbours `b`.
pub proof fn lemma_cell_neighbors_symmetric(t: Seq<u32>, num_vertices: int, cc: &Adjacency<Cell>)
    requires
        valid_triangles(t, num_vertices),
        is_closed_manifold(t),
        is_cell_cell_of(cc, t),
    ensures
        forall|a: int, b: int|
            0 <= a < cc.num_rows() && 0 <= b < cc.num_rows() ==> (cc.row(a).contains(b as u32)
                <==> #[trigger] cc.row(b).contains(#[trigger] (a as u32))),
{
    assert forall|a: int, b: int| 0 <= a < cc.num_rows() && 0 <= b < cc.num_rows() implies (cc.row(a).contains(b as u32)
        <==> #[trigger] cc.row(b).contains(#[trigger] (a as u32))) by {
        lemma_neighbor_one_way(t, num_vertices, cc, a, b);
        lemma_neighbor_one_way(t, num_vertices, cc, b, a);
    }
}

proof fn lemma_neighbor_one_way(t: Seq<u32>, num_vertices: int, cc: &Adjacency<Cell>, a: int, b: int)
    requires
        valid_triangles(t, num_vertices),
        is_closed_manifold(t),
        is_cell_cell_of(cc, t),
        0 <= a < cc.num_rows(),
        0 <= b < cc.num_rows(),
    ensures
        cc.row(a).contains(b as u32) ==> cc.row(b).contains(a as u32),
{
    if cc.row(a).contains(b as u32) {
        let k = choose|k: int| 0 <= k < cc.row(a).len() && cc.row(a)[k] == b as u32;
        assert(cc.row(a).len() == 3);
        let p = 3 * a + k;
        lemma_neighbor_is_reverse(t, p);
        let q = reverse_position(t, p);
        lemma_neighbor_is_reverse(t, q);
        let r = reverse_position(t, q);
        assert(directed(t, r) == directed(t, p));
        assert(r == p);
        let j = q % 3;
        assert(q == 3 * b + j);
        assert(cc.row(b)[j] == neighbor_cell(t, 3 * b + j));
        assert(cc.row(b)[j] == a as u32);
    }
}

/// Positions among the first `m` whose key is `k`.
pub open spec fn key_positions(keys: Seq<u32>, k: u32, m: nat) -> Set<int>
    decreases m,
{
    if m == 0 {
        Set::empty()
    } else if keys[m - 1] == k {
        key_positions(keys, k, (m - 1) as nat).insert(m - 1)
    } else {
        key_positions(keys, k, (m - 1) as nat)
    }
}

proof fn lemma_key_positions(keys: Seq<u32>, vals: Seq<u32>, k: u32, m: nat)
    requires
        m <= keys.len(),
    ensures
        key_positions(keys, k, m).finite(),
        key_positions(keys, k, m).len() == grouped(keys, vals, k, m).len(),
        forall|i: int| #[trigger] key_positions(keys, k, m).contains(i) <==> 0 <= i < m && keys[i] == k,
    decreases m,
{
    if m > 0 {
        lemma_key_positions(keys, vals, k, (m - 1) as nat);
    }
}

/// Id of the edge of the local edge at position `p`.
pub open spec fn edge_id(t: Seq<u32>, p: int) -> int {
    choose|e: int| 0 <= e < edges_of(t).len() && edges_of(t)[e] == scan_pair(t, p)
}

proof fn lemma_edge_id(t: Seq<u32>, num_vertices: int, p: int)
    requires
        valid_triangles(t, num_vertices),
        0 <= p < t.len(),
    ensures
        0 <= edge_id(t, p) < edges_of(t).len(),
        edges_of(t)[edge_id(t, p)] == scan_pair(t, p),
{
    lemma_edge_list(t, t.len(), num_vertices);
    assert(edges_of(t).contains(scan_pair(t, p)));
}

/// On a closed surface every vertex has as many edges as cells: Vertex -> Edge and
/// Vertex -> Cell rows have the same length.
pub proof fn lemma_vertex_degrees_agree(
    t: Seq<u32>,
    num_vertices: int,
    ve: &Adjacency<VertexEdge>,
    vc: &Adjacency<VertexCell>,
)
    requires
        valid_triangles(t, num_vertices),
        is_closed_manifold(t),
        is_vertex_edge_of(ve, t, num_vertices),
        is_vertex_cell_of(vc, t, num_vertices),
    ensures
        ve.num_rows() == vc.num_rows(),
        forall|v: int| 0 <= v < num_vertices ==> #[trigger] ve.row(v).len() == vc.row(v).len(),
{
    assert forall|v: int| 0 <= v < num_vertices implies #[trigger] ve.row(v).len() == vc.row(v).len() by {
        lemma_vertex_degree(t, num_vertices, v as u32);
    }
}

proof fn lemma_vertex_degree(t: Seq<u32>, num_vertices: int, v: u32)
    requires
        valid_triangles(t, num_vertices),
        is_closed_manifold(t),
    ensures
        grouped(t, corner_cells(t.len()), v, t.len()).len() == grouped(
            edge_ends(edges_of(t)),
            edge_slots(edges_of(t).len()),
            v,
            2 * edges_of(t).len(),
        ).len(),
{
    let es = edges_of(t);
    let ends = edge_ends(es);
    lemma_edge_list(t, t.len(), num_vertices);
    lemma_key_positions(t, corner_cells(t.len()), v, t.len());
    lemma_key_positions(ends, edge_slots(es.len()), v, 2 * es.len());
    let ps = key_positions(t, v, t.len());
    let qs = key_positions(ends, v, 2 * es.len());
    let f = |p: int|
        2 * edge_id(t, p) + if es[edge_id(t, p)].0 == v {
            0int
        } else {
            1int
        };
    assert forall|p1: int, p2: int| ps.contains(p1) && ps.contains(p2) && #[trigger] f(p1) == #[trigger] f(p2) implies p1
        == p2 by {
        lemma_edge_id(t, num_vertices, p1);
        lemma_edge_id(t, num_vertices, p2);
        assert(edge_id(t, p1) == edge_id(t, p2));
        assert(directed(t, p1) == directed(t, p2));
    }
    assert(injective_on(f, ps));
    assert forall|j: int| ps.map(f).contains(j) <==> qs.contains(j) by {
        if ps.map(f).contains(j) {
            let p = choose|p: int| ps.contains(p) && f(p) == j;
            lemma_edge_id(t, num_vertices, p);
            let _ = directed(t, p);
        }
        if qs.contains(j) {
            let e = j / 2;
            let q = lemma_edge_list_seen(t, t.len(), e);
            let _ = directed(t, q);
            let p = if t[q] == v {
                q
            } else {
                lemma_neighbor_is_reverse(t, q);
                reverse_position(t, q)
            };
            let _ = directed(t, p);
            lemma_edge_id(t, num_vertices, p);
            assert(es[edge_id(t, p)] == es[e]);
            assert(edge_id(t, p) == e);
            assert(ps.contains(p));
            assert(f(p) == j);
        }
    }
    assert(ps.map(f) =~= qs);
    lemma_map_size(ps, qs, f);
}

} // verus!
