//! The fixed-capacity vector of the `arrayvec` crate, as far as the grid
//! searches use it: a short list of positions.

use vstd::prelude::*;

verus! {

#[verifier::external_type_specification]
#[verifier::external_body]
#[verifier::reject_recursive_types(T)]
pub struct ExArrayVec<T, const CAP: usize>(arrayvec::ArrayVec<T, CAP>);

/// The positions that a list of at most four holds, in the order in which
/// they were pushed.
pub uninterp spec fn positions(v: arrayvec::ArrayVec<(u32, u32), 4>) -> Seq<(u32, u32)>;

/// `ArrayVec::new`: an empty list.
#[verifier::external_body]
pub(crate) fn positions_new() -> (v: arrayvec::ArrayVec<(u32, u32), 4>)
    ensures
        positions(v) == Seq::<(u32, u32)>::empty(),
{
    arrayvec::ArrayVec::new()
}

/// `ArrayVec::push`: appends `p` to a list that is not full.
#[verifier::external_body]
pub(crate) fn positions_push(v: &mut arrayvec::ArrayVec<(u32, u32), 4>, p: (u32, u32))
    requires
        positions(*old(v)).len() < 4,
    ensures
        positions(*final(v)) == positions(*old(v)).push(p),
{
    v.push(p)
}

/// `ArrayVec::len`: the number of positions held.
#[verifier::external_body]
pub(crate) fn positions_len(v: &arrayvec::ArrayVec<(u32, u32), 4>) -> (n: usize)
    ensures
        n == positions(*v).len(),
{
    v.len()
}

/// Indexing through `ArrayVec::as_slice`: the position at `i`, which must
/// be below the length.
#[verifier::external_body]
pub(crate) fn positions_get(v: &arrayvec::ArrayVec<(u32, u32), 4>, i: usize) -> (p: (u32, u32))
    requires
        i < positions(*v).len(),
    ensures
        p == positions(*v)[i as int],
{
    v.as_slice()[i]
}

} // verus!
