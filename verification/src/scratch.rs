//! How much scratch an operation takes.

use vstd::prelude::*;

verus! {

/// The size of a scratch area could not be computed in a `usize`.
#[derive(Clone, Copy, Debug, PartialEq, Eq, Structural)]
pub struct SizeOverflow;

/// The bytes that `dyn_stack::StackReq::new::<T>(n)` asks for: the
/// requirement of an array of `n` values of type `T`.
///
/// Not verified. `StackReq::new` multiplies the size of `T` by `n` with a
/// checked multiplication; on overflow it returns the unsatisfiable
/// requirement, whose `align_bytes()` is 0, and otherwise a requirement
/// whose `size_bytes()` is the product. The contract says this and no more.
#[verifier::external_body]
pub(crate) fn array_req<T>(n: usize) -> (bytes: Option<usize>)
    ensures
        bytes.is_some() <==> n * vstd::layout::size_of::<T>() <= usize::MAX,
        bytes matches Some(b) ==> b == n * vstd::layout::size_of::<T>(),
{
    let req = dyn_stack::StackReq::new::<T>(n);
    if req.align_bytes() == 0 {
        None
    } else {
        Some(req.size_bytes())
    }
}

} // verus!
