//! The memory barrier between the driver's writes and the device's reads.

use vstd::prelude::*;

verus! {

/// Issues a sequentially consistent fence, by `core::sync::atomic::fence`
/// with `SeqCst`.
///
/// The fence orders memory accesses against a device that runs beside the
/// driver. It computes nothing, so nothing is claimed of it.
#[verifier::external_body]
pub(crate) fn fence_seq_cst() {
    core::sync::atomic::fence(core::sync::atomic::Ordering::SeqCst);
}

} // verus!
