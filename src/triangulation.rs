use vstd::prelude::*;

verus! {

/// A flat triangle list: cell `c` has the vertex ids `indices[3c]`, `indices[3c + 1]`,
/// `indices[3c + 2]` in winding order; every id is below `num_vertices`.
pub struct Triangulation {
    pub indices: Vec<u32>,
    pub num_vertices: usize,
}

impl Triangulation {
    /// Accepts `indices` as a triangle list over `num_vertices` vertices when it is one.
    pub fn new(indices: Vec<u32>, num_vertices: usize) -> (r: Option<Triangulation>)
        ensures
            r is Some <==> valid_triangles(indices@, num_vertices as int),
            r matches Some(t) ==> t.indices@ == indices@ && t.num_vertices == num_vertices,
    {
        let n = indices.len();
        if n % 3 != 0 || n > MAX_INDICES || num_vertices > u32::MAX as usize {
            return None;
        }
        let mut i: usize = 0;
        while i < n
            invariant
                n == indices@.len(),
                i <= n,
                forall|j: int| 0 <= j < i ==> (#[trigger] indices@[j]) < num_vertices,
            decreases n - i,
        {
            if indices[i] as usize >= num_vertices {
                return None;
            }
            i += 1;
        }
        Some(Triangulation { indices, num_vertices })
    }

    /// Number of cells.
    pub fn num_cells(&self) -> (r: usize)
        ensures
            r == self.indices@.len() / 3,
    {
        self.indices.len() / 3
    }

    /// The three vertex ids of cell `c`, in winding order.
    pub fn cell(&self, c: usize) -> (r: [u32; 3])
        requires
            c < self.indices@.len() / 3,
        ensures
            r@ == seq![self.indices@[3 * c], self.indices@[3 * c + 1], self.indices@[3 * c + 2]],
    {
        let n = self.indices.len();
        assert(3 * c + 2 < n);
        let r = [self.indices[3 * c], self.indices[3 * c + 1], self.indices[3 * c + 2]];
        assert(r@ =~= seq![self.indices@[3 * c], self.indices@[3 * c + 1], self.indices@[3 * c + 2]]);
        r
    }
}

/// Largest index-list length accepted, so that every count and offset fits in `u32`.
pub const MAX_INDICES: usize = 0x7fff_fff0;

/// Shape rules of a triangle list over `num_vertices` vertices.
pub open spec fn valid_triangles(t: Seq<u32>, num_vertices: int) -> bool {
    &&& t.len() % 3 == 0
    &&& t.len() <= MAX_INDICES
    &&& num_vertices <= u32::MAX
    &&& forall|i: int| 0 <= i < t.len() ==> (#[trigger] t[i]) < num_vertices
}

/// Position of the end vertex of the local edge that starts at position `p`:
/// the local edges of a cell are `(v0, v1)`, `(v1, v2)`, `(v2, v0)`.
pub open spec fn succ(p: int) -> int {
    if p % 3 == 2 {
        p - 2
    } else {
        p + 1
    }
}

/// Canonical (lower, higher) form of an unordered vertex pair.
pub open spec fn canonical(a: u32, b: u32) -> (u32, u32) {
    if a <= b {
        (a, b)
    } else {
        (b, a)
    }
}

/// Canonical pair of the local edge that starts at position `p` of the list.
pub open spec fn scan_pair(t: Seq<u32>, p: int) -> (u32, u32) {
    canonical(t[p], t[succ(p)])
}

/// The distinct canonical pairs among the first `n` local edges, in order of first sight.
/// The position of a pair in this sequence is its edge id.
pub open spec fn edge_list(t: Seq<u32>, n: nat) -> Seq<(u32, u32)>
    decreases n,
{
    if n == 0 {
        Seq::empty()
    } else {
        let prev = edge_list(t, (n - 1) as nat);
        let e = scan_pair(t, n - 1);
        if prev.contains(e) {
            prev
        } else {
            prev.push(e)
        }
    }
}

/// All edges of the triangle list, indexed by edge id.
pub open spec fn edges_of(t: Seq<u32>) -> Seq<(u32, u32)> {
    edge_list(t, t.len())
}

/// Cell of the last local edge among the first `n` whose canonical pair is `e` and whose
/// vertices appear in increasing order; 0 when there is none.
pub open spec fn primary_cell(t: Seq<u32>, e: (u32, u32), n: nat) -> u32
    decreases n,
{
    if n == 0 {
        0
    } else if scan_pair(t, n - 1) == e && t[n - 1] < t[succ(n - 1)] {
        ((n - 1) / 3) as u32
    } else {
        primary_cell(t, e, (n - 1) as nat)
    }
}

/// Cell of the last local edge among the first `n` whose canonical pair is `e` and whose
/// vertices do not appear in increasing order; 0 when there is none.
pub open spec fn secondary_cell(t: Seq<u32>, e: (u32, u32), n: nat) -> u32
    decreases n,
{
    if n == 0 {
        0
    } else if scan_pair(t, n - 1) == e && !(t[n - 1] < t[succ(n - 1)]) {
        ((n - 1) / 3) as u32
    } else {
        secondary_cell(t, e, (n - 1) as nat)
    }
}

/// The cell across the local edge that starts at position `p`.
pub open spec fn neighbor_cell(t: Seq<u32>, p: int) -> u32 {
    let e = scan_pair(t, p);
    let a = primary_cell(t, e, t.len());
    let b = secondary_cell(t, e, t.len());
    if a as int == p / 3 {
        b
    } else {
        a
    }
}

/// Values of the first `m` (key, value) pairs whose key is `k`, in order.
pub open spec fn grouped(keys: Seq<u32>, vals: Seq<u32>, k: u32, m: nat) -> Seq<u32>
    decreases m,
{
    if m == 0 {
        Seq::empty()
    } else if keys[m - 1] == k {
        grouped(keys, vals, k, (m - 1) as nat).push(vals[m - 1])
    } else {
        grouped(keys, vals, k, (m - 1) as nat)
    }
}

/// Cell of each position of a triangle list of length `n`.
pub open spec fn corner_cells(n: nat) -> Seq<u32> {
    Seq::new(n, |p: int| (p / 3) as u32)
}

/// Both end vertices of each edge, lower first, edge after edge.
pub open spec fn edge_ends(es: Seq<(u32, u32)>) -> Seq<u32> {
    Seq::new(
        2 * es.len(),
        |j: int|
            if j % 2 == 0 {
                es[j / 2].0
            } else {
                es[j / 2].1
            },
    )
}

/// The edge id of each entry of `edge_ends`.
pub open spec fn edge_slots(num_edges: nat) -> Seq<u32> {
    Seq::new(2 * num_edges, |j: int| (j / 2) as u32)
}

/// Local edge that starts at position `p`, as the directed pair (start, end).
pub open spec fn directed(t: Seq<u32>, p: int) -> (u32, u32) {
    (t[p], t[succ(p)])
}

/// A closed surface wound consistently: no local edge joins a vertex to itself, no
/// directed local edge occurs twice, and the reversal of every local edge occurs.
pub open spec fn is_closed_manifold(t: Seq<u32>) -> bool {
    &&& forall|p: int| 0 <= p < t.len() ==> (#[trigger] directed(t, p)).0 != directed(t, p).1
    &&& forall|p: int, q: int|
        0 <= p < t.len() && 0 <= q < t.len() && #[trigger] directed(t, p) == #[trigger] directed(t, q)
            ==> p == q
    &&& forall|p: int|
        0 <= p < t.len() ==> exists|q: int|
            0 <= q < t.len() && directed(t, q) == (#[trigger] directed(t, p).1, directed(t, p).0)
}

/// Position of the reversal of the local edge at `p`.
pub open spec fn reverse_position(t: Seq<u32>, p: int) -> int {
    choose|q: int| 0 <= q < t.len() && directed(t, q) == (directed(t, p).1, directed(t, p).0)
}

/// Total number of pairs among the first `m` whose key is below `v`.
pub open spec fn prefix_total(keys: Seq<u32>, vals: Seq<u32>, v: nat, m: nat) -> nat
    decreases v,
{
    if v == 0 {
        0
    } else {
        prefix_total(keys, vals, (v - 1) as nat, m) + grouped(keys, vals, (v - 1) as u32, m).len()
    }
}

pub proof fn lemma_grouped_prefix(keys: Seq<u32>, vals: Seq<u32>, k: u32, i: nat, m: nat)
    requires
        i <= m <= keys.len(),
        keys.len() == vals.len(),
    ensures
        grouped(keys, vals, k, i).len() <= grouped(keys, vals, k, m).len(),
        grouped(keys, vals, k, m).len() <= m,
        forall|j: int|
            0 <= j < grouped(keys, vals, k, i).len() ==> #[trigger] grouped(keys, vals, k, m)[j]
                == grouped(keys, vals, k, i)[j],
    decreases m,
{
    if m > 0 {
        if i < m {
            lemma_grouped_prefix(keys, vals, k, i, (m - 1) as nat);
        } else {
            lemma_grouped_prefix(keys, vals, k, (m - 1) as nat, (m - 1) as nat);
        }
    }
}

proof fn lemma_prefix_total_step(keys: Seq<u32>, vals: Seq<u32>, v: nat, m: nat)
    requires
        0 < m <= keys.len(),
        v <= 0x1_0000_0000,
    ensures
        prefix_total(keys, vals, v, m) == prefix_total(keys, vals, v, (m - 1) as nat) + (if keys[m
            - 1] < v {
            1int
        } else {
            0int
        }),
    decreases v,
{
    if v > 0 {
        lemma_prefix_total_step(keys, vals, (v - 1) as nat, m);
    }
}

proof fn lemma_prefix_total_empty(keys: Seq<u32>, vals: Seq<u32>, v: nat)
    ensures
        prefix_total(keys, vals, v, 0) == 0,
    decreases v,
{
    if v > 0 {
        lemma_prefix_total_empty(keys, vals, (v - 1) as nat);
    }
}

/// The groups of keys below `n` partition the pairs.
pub proof fn lemma_prefix_total(keys: Seq<u32>, vals: Seq<u32>, n: nat, m: nat)
    requires
        m <= keys.len(),
        n <= 0x1_0000_0000,
        forall|i: int| 0 <= i < m ==> (#[trigger] keys[i]) < n,
    ensures
        prefix_total(keys, vals, n, m) == m,
    decreases m,
{
    if m == 0 {
        lemma_prefix_total_empty(keys, vals, n);
    } else {
        assert(keys[m - 1] < n);
        lemma_prefix_total(keys, vals, n, (m - 1) as nat);
        lemma_prefix_total_step(keys, vals, n, m);
    }
}

pub proof fn lemma_prefix_total_mono(keys: Seq<u32>, vals: Seq<u32>, u: nat, v: nat, m: nat)
    requires
        u <= v,
    ensures
        prefix_total(keys, vals, u, m) <= prefix_total(keys, vals, v, m),
    decreases v,
{
    if u < v {
        lemma_prefix_total_mono(keys, vals, u, (v - 1) as nat, m);
    }
}

/// Key of a canonical pair in the edge cache.
pub open spec fn pair_key(e: (u32, u32)) -> int {
    e.0 * 0x1_0000_0000 + e.1
}

pub proof fn lemma_pair_key_injective(a: (u32, u32), b: (u32, u32))
    requires
        pair_key(a) == pair_key(b),
    ensures
        a == b,
{
    let (x, y, z, w) = (a.0 as int, a.1 as int, b.0 as int, b.1 as int);
    assert(x == z && y == w) by (nonlinear_arith)
        requires
            x * 0x1_0000_0000 + y == z * 0x1_0000_0000 + w,
            0 <= y < 0x1_0000_0000,
            0 <= w < 0x1_0000_0000,
            0 <= x,
            0 <= z,
    ;
}

/// `edge_list` holds each pair once and holds every pair seen so far.
pub proof fn lemma_edge_list(t: Seq<u32>, n: nat, num_vertices: int)
    requires
        n <= t.len(),
        valid_triangles(t, num_vertices),
    ensures
        edge_list(t, n).no_duplicates(),
        edge_list(t, n).len() <= n,
        forall|i: int|
            0 <= i < edge_list(t, n).len() ==> (#[trigger] edge_list(t, n)[i]).0 <= edge_list(
                t,
                n,
            )[i].1 < num_vertices,
        forall|p: int| 0 <= p < n ==> edge_list(t, n).contains(#[trigger] scan_pair(t, p)),
    decreases n,
{
    if n > 0 {
        lemma_edge_list(t, (n - 1) as nat, num_vertices);
        let prev = edge_list(t, (n - 1) as nat);
        let e = scan_pair(t, n - 1);
        if !prev.contains(e) {
            assert forall|p: int| 0 <= p < n implies edge_list(t, n).contains(
                #[trigger] scan_pair(t, p),
            ) by {
                if p < n - 1 {
                    let i = choose|i: int| 0 <= i < prev.len() && prev[i] == scan_pair(t, p);
                    assert(edge_list(t, n)[i] == scan_pair(t, p));
                } else {
                    assert(edge_list(t, n)[prev.len() as int] == e);
                }
            }
        }
    }
}

/// Every listed pair was seen at some position before `n`.
pub proof fn lemma_edge_list_seen(t: Seq<u32>, n: nat, i: int) -> (p: int)
    requires
        n <= t.len(),
        0 <= i < edge_list(t, n).len(),
    ensures
        0 <= p < n,
        scan_pair(t, p) == edge_list(t, n)[i],
    decreases n,
{
    let prev = edge_list(t, (n - 1) as nat);
    if i < prev.len() {
        lemma_edge_list_seen(t, (n - 1) as nat, i)
    } else {
        n - 1
    }
}

} // verus!
