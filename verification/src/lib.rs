//! Core of a gemstone ray-tracing renderer: a bounding-volume hierarchy over
//! mesh triangles, the branch logic of the recursive light-transport routine,
//! and a cancellable work schedule that assigns every pixel to exactly one
//! worker.
//!
//! The floating-point shading itself (intersection tests, Fresnel terms,
//! colors) lives with the host program; this crate owns and verifies the
//! structural side: index arithmetic, tree shape, work partitioning and the
//! decisions taken at every trace step.

pub mod bvh;
pub mod render;
pub mod trace;

use vstd::prelude::*;

verus! {

/// The identity permutation of the ids `0 .. n` — the starting order of
/// the triangle ids in the hierarchy and of the pixel ids in the work
/// schedule, and the reference their reorderings are measured against.
pub open spec fn identity_perm(n: int) -> Seq<usize> {
    Seq::new(n as nat, |k: int| k as usize)
}

/// A vector's view never holds more slots than the address space.
pub(crate) proof fn lemma_vec_seq_fits(v: &Vec<usize>)
    ensures
        v@.len() <= usize::MAX,
{
    broadcast use vstd::std_specs::vec::axiom_spec_len;

    assert(vstd::std_specs::vec::spec_vec_len(v) == v@.len());
}

/// Law: the identity permutation has no repeated values.
pub proof fn lemma_identity_no_duplicates(n: int)
    requires
        0 <= n <= usize::MAX,
    ensures
        identity_perm(n).no_duplicates(),
{
    let id = identity_perm(n);
    assert forall|i: int, j: int|
        0 <= i < id.len() && 0 <= j < id.len() && i != j implies id[i] != id[j] by {
        assert(id[i] == i as usize && id[j] == j as usize);
    }
}

} // verus!
