//! The handle through which kernels on a graphics processor are reached.

use vstd::prelude::*;

verus! {

/// Stands for the graphics processor. It holds no state: a context is made
/// anew for each kernel call, outside this library.
#[derive(Debug)]
pub struct GpuParallel;

} // verus!
