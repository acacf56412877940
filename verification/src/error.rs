//! Errors reported by layout operations.
use vstd::prelude::*;
use crate::shape::Shape;

verus! {

/// Why a layout operation was refused.
#[derive(Debug, Clone, PartialEq, Eq)]
pub enum Error {
    /// `dim` is not a dimension of `shape` (operation `op`).
    DimOutOfRange { shape: Shape, dim: i32, op: &'static str },
    /// `narrow` was asked for `len` elements from `start` on, beyond the size of `dim`.
    NarrowInvalidArgs { shape: Shape, dim: usize, start: usize, len: usize, msg: &'static str },
    /// A dimension index `expected` was given to a tensor of rank `got`.
    UnexpectedNumberOfDims { expected: usize, got: usize, shape: Shape },
    /// `src_shape` cannot be broadcast to `dst_shape`.
    BroadcastIncompatibleShapes { src_shape: Shape, dst_shape: Shape },
    /// Any other refusal, with its message.
    Msg(String),
}

} // verus!
