//! Procedural dungeon generation kernel: exact integer plane geometry
//! (orientation, strict segment intersection, convex hull), a k-d tree for
//! rectangle range queries, and the randomized planar room generator built
//! on top of them.

use vstd::prelude::*;

pub mod geometry;
pub mod kd_tree;
pub mod rng;
pub mod graph_gen;

verus! {

/// Bounds the product of two bounded integers.
pub proof fn lemma_mul_bound(a: int, b: int, m: int)
    requires
        0 <= m,
        -m <= a <= m,
        -m <= b <= m,
    ensures
        -(m * m) <= a * b <= m * m,
{
    assert(-(m * m) <= a * b <= m * m) by (nonlinear_arith)
        requires
            0 <= m,
            -m <= a <= m,
            -m <= b <= m,
    ;
}

} // verus!
