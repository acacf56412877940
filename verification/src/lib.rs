//! Strided tensor layouts: shapes, strides and the views that reinterpret them.
//!
//! A layout maps the row-major linear index of each element of a tensor to an offset in
//! its storage (see `model`). The operations on layouts (narrowing, transposing,
//! permuting, broadcasting, reshaping without a copy) are verified against that model.
pub mod error;
pub mod gemm_dispatch;
pub mod laws;
pub mod layout;
pub mod model;
pub mod shape;
pub mod strided_index;
