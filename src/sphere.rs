use hexasphere::shapes::IcoSphere;
use vstd::prelude::*;

use crate::triangulation::Triangulation;

verus! {

/// Triangle list of the icosphere with the given subdivision level.
pub uninterp spec fn icosphere_indices(subdivisions: nat) -> Seq<u32>;

/// Number of points of the icosphere with the given subdivision level.
pub uninterp spec fn icosphere_point_count(subdivisions: nat) -> nat;

/// Relies on hexasphere's `IcoSphere::new` and `Subdivided::get_all_indices`: the
/// triangle-list indices of the subdivided icosahedron, a function of the level alone.
#[verifier::external_body]
fn sphere_indices(subdivisions: usize) -> (r: Vec<u32>)
    ensures
        r@ == icosphere_indices(subdivisions as nat),
{
    IcoSphere::new(subdivisions, |_| ()).get_all_indices()
}

/// Relies on hexasphere's `IcoSphere::new` and `Subdivided::raw_points`: the number of
/// points of the subdivided icosahedron, a function of the level alone.
#[verifier::external_body]
fn sphere_point_count(subdivisions: usize) -> (r: usize)
    ensures
        r == icosphere_point_count(subdivisions as nat),
{
    IcoSphere::new(subdivisions, |_| ()).raw_points().len()
}

impl Triangulation {
    /// The triangulated sphere of a subdivision level; `None` when the generated list is
    /// not a triangle list over the generated points (or exceeds the supported size).
    pub fn icosphere(subdivisions: usize) -> (r: Option<Triangulation>)
        ensures
            r is Some <==> crate::triangulation::valid_triangles(
                icosphere_indices(subdivisions as nat),
                icosphere_point_count(subdivisions as nat) as int,
            ),
            r matches Some(t) ==> t.indices@ == icosphere_indices(subdivisions as nat)
                && t.num_vertices == icosphere_point_count(subdivisions as nat),
    {
        let indices = sphere_indices(subdivisions);
        let count = sphere_point_count(subdivisions);
        Triangulation::new(indices, count)
    }
}

} // verus!
