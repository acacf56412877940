//! The decision taken on the status returned by a pluggable GPU GEMM function.
use vstd::prelude::*;

verus! {

/// Why a strided batched GEMM could not be run.
#[derive(Debug, Clone, Copy, PartialEq, Eq, Structural)]
pub enum GemmError {
    /// No GEMM function has been registered.
    NotRegistered,
    /// The registered GEMM function returned the nonzero status `code` for a product of
    /// `batch` matrices of sizes `m`×`k` and `k`×`n` of element type `dtype`.
    DispatchFailed { code: i32, m: i32, n: i32, k: i32, batch: i32, dtype: u32 },
}

/// The outcome of a GEMM call that returned `code`: success exactly when `code` is zero.
pub fn check_gemm_status(code: i32, m: i32, n: i32, k: i32, batch: i32, dtype: u32) -> (r: Result<(), GemmError>)
    ensures
        code == 0 ==> r == Ok::<(), GemmError>(()),
        code != 0 ==> r == Err::<(), GemmError>(GemmError::DispatchFailed { code, m, n, k, batch, dtype }),
{
    if code == 0 {
        Ok(())
    } else {
        Err(GemmError::DispatchFailed { code, m, n, k, batch, dtype })
    }
}

} // verus!
