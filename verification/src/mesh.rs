//! Index data for the cone mesh that a depth-buffer Voronoi renderer draws
//! once per site.

use vstd::prelude::*;

verus! {

/// Number of segments around the cone's base circle.
pub const CONE_SEGMENTS: usize = 64;

/// Generate the index buffer for the cone's triangle fan: each segment is
/// the triangle (apex, base vertex i+1, base vertex i+2).
pub fn generate_cone_indices() -> (indices: Vec<u16>)
    ensures
        indices@.len() == 3 * CONE_SEGMENTS,
        forall|i: int| 0 <= i < CONE_SEGMENTS ==> {
            &&& #[trigger] indices@[3 * i] == 0
            &&& indices@[3 * i + 1] as int == i + 1
            &&& indices@[3 * i + 2] as int == i + 2
        },
{
    let mut indices: Vec<u16> = Vec::new();
    let mut i: usize = 0;
    while i < CONE_SEGMENTS
        invariant
            0 <= i <= CONE_SEGMENTS,
            indices@.len() == 3 * i,
            forall|j: int| 0 <= j < i ==> {
                &&& #[trigger] indices@[3 * j] == 0
                &&& indices@[3 * j + 1] as int == j + 1
                &&& indices@[3 * j + 2] as int == j + 2
            },
        decreases CONE_SEGMENTS - i,
    {
        indices.push(0);
        indices.push((i + 1) as u16);
        indices.push((i + 2) as u16);
        proof {
            assert(indices@[3 * (i as int)] == 0);
            assert(indices@[3 * (i as int) + 1] as int == i as int + 1);
            assert(indices@[3 * (i as int) + 2] as int == i as int + 2);
        }
        i = i + 1;
    }
    indices
}

} // verus!
