use lib::error::Error;
use lib::gemm_dispatch::{check_gemm_status, GemmError};
use lib::layout::{ContiguousOffsetsWithBroadcast, Layout};
use lib::shape::Shape;
use lib::strided_index::StridedBlocks;

fn layout(shape: &[usize], stride: &[usize], offset: usize) -> Layout {
    Layout::new(Shape::from_dims(shape), stride.to_vec(), offset)
}

#[test]
fn shape_basics() {
    let s = Shape::from_dims(&[2, 3, 4]);
    assert_eq!(s.rank(), 3);
    assert_eq!(s.dims(), &[2, 3, 4]);
    assert_eq!(s.elem_count(), 24);
    assert_eq!(s.stride_contiguous(), vec![12, 4, 1]);
    assert_eq!(Shape::from_vec(vec![]).elem_count(), 1);
    assert_eq!(Shape::from_dims(&[5, 0, 7]).elem_count(), 0);
    assert_eq!(s.to_shape(), s);
}

#[test]
fn shape_contiguity() {
    let s = Shape::from_dims(&[2, 3, 4]);
    assert!(s.is_contiguous(&[12, 4, 1]));
    assert!(!s.is_contiguous(&[1, 2, 6]));
    assert!(s.is_fortran_contiguous(&[1, 2, 6]));
    assert!(!s.is_fortran_contiguous(&[12, 4, 1]));
    // wrong number of strides
    assert!(!s.is_contiguous(&[4, 1]));
    assert!(!s.is_fortran_contiguous(&[4, 1]));
    // dimensions of size one may have any stride
    let t = Shape::from_dims(&[2, 1, 3]);
    assert!(t.is_contiguous(&[3, 99, 1]));
    assert!(t.is_fortran_contiguous(&[1, 99, 2]));
    // huge dimensions to the right: the required stride cannot be represented
    let u = Shape::from_dims(&[2, usize::MAX, 2]);
    assert!(!u.is_contiguous(&[0, 2, 1]));
}

#[test]
fn contiguous_layouts() {
    let l = Layout::contiguous_with_offset(Shape::from_dims(&[2, 3, 4]), 5);
    assert_eq!(l.dims(), &[2, 3, 4]);
    assert_eq!(l.stride(), &[12, 4, 1]);
    assert_eq!(l.start_offset(), 5);
    assert_eq!(l.shape().dims(), &[2, 3, 4]);
    assert!(l.is_contiguous());
    assert!(!l.is_fortran_contiguous());
    assert_eq!(l.contiguous_offsets(), Some((5, 29)));
    let c = Layout::contiguous(Shape::from_dims(&[7]));
    assert_eq!(c.stride(), &[1]);
    assert_eq!(c.start_offset(), 0);
    let t = l.transpose(0, 2).unwrap();
    assert_eq!(t.contiguous_offsets(), None);
}

#[test]
fn dim_lookup() {
    let l = layout(&[2, 3], &[3, 1], 0);
    assert_eq!(l.dim(1).unwrap(), 3);
    match l.dim(2) {
        Err(Error::DimOutOfRange { shape, dim, op }) => {
            assert_eq!(shape.dims(), &[2, 3]);
            assert_eq!(dim, 2);
            assert_eq!(op, "dim");
        }
        _ => panic!("expected DimOutOfRange"),
    }
}

#[test]
fn layout_new_keeps_any_strides() {
    // a layout is built as given, even with a stride count that differs from the rank
    let l = layout(&[2, 3], &[1], 4);
    assert_eq!(l.dims(), &[2, 3]);
    assert_eq!(l.stride(), &[1]);
    assert_eq!(l.start_offset(), 4);
    assert!(!l.is_contiguous());
    assert!(!l.is_fortran_contiguous());
}

#[test]
fn narrow_offsets() {
    let l = layout(&[4, 6144], &[6144, 1], 0);
    let k = l.narrow(1, 4096, 1024).unwrap();
    assert_eq!(k.dims(), &[4, 1024]);
    assert_eq!(k.stride(), &[6144, 1]);
    assert_eq!(k.start_offset(), 4096);
    let r = l.narrow(0, 1, 2).unwrap();
    assert_eq!(r.dims(), &[2, 6144]);
    assert_eq!(r.start_offset(), 6144);
    // full range: unchanged
    assert_eq!(l.narrow(0, 0, 4).unwrap(), l);
}

#[test]
fn narrow_errors() {
    let l = layout(&[4, 6], &[6, 1], 0);
    assert!(matches!(l.narrow(2, 0, 1), Err(Error::DimOutOfRange { dim: 2, op: "narrow", .. })));
    assert!(matches!(
        l.narrow(1, 4, 3),
        Err(Error::NarrowInvalidArgs { dim: 1, start: 4, len: 3, msg: "start + len > dim_len", .. })
    ));
    // start + len overflows
    assert!(matches!(
        l.narrow(1, usize::MAX, 2),
        Err(Error::NarrowInvalidArgs { dim: 1, start: usize::MAX, len: 2, .. })
    ));
}

#[test]
fn transpose_layouts() {
    let l = layout(&[2, 3, 4], &[12, 4, 1], 7);
    let t = l.transpose(0, 2).unwrap();
    assert_eq!(t.dims(), &[4, 3, 2]);
    assert_eq!(t.stride(), &[1, 4, 12]);
    assert_eq!(t.start_offset(), 7);
    assert_eq!(t.transpose(0, 2).unwrap(), l);
    assert!(t.is_fortran_contiguous());
    assert!(!t.is_contiguous());
    match l.transpose(1, 3) {
        Err(Error::UnexpectedNumberOfDims { expected, got, shape }) => {
            assert_eq!(expected, 3);
            assert_eq!(got, 3);
            assert_eq!(shape.dims(), &[2, 3, 4]);
        }
        _ => panic!("expected UnexpectedNumberOfDims"),
    }
}

#[test]
fn permute_layouts() {
    let l = layout(&[2, 3, 4], &[12, 4, 1], 1);
    let p = l.permute(&[2, 0, 1]).unwrap();
    assert_eq!(p.dims(), &[4, 2, 3]);
    assert_eq!(p.stride(), &[1, 12, 4]);
    assert_eq!(p.start_offset(), 1);
    // the inverse permutation restores the layout
    assert_eq!(p.permute(&[1, 2, 0]).unwrap(), l);
    assert_eq!(l.permute(&[0, 1, 2]).unwrap(), l);
    match l.permute(&[0, 0, 1]) {
        Err(Error::Msg(m)) => {
            assert_eq!(m, "dimension mismatch in permute, tensor [2, 3, 4], dims: [0, 0, 1]");
        }
        _ => panic!("expected a message error"),
    }
    assert!(l.permute(&[0, 1]).is_err());
    assert!(l.permute(&[0, 1, 3]).is_err());
}

#[test]
fn broadcast_layouts() {
    let l = layout(&[3, 1], &[5, 7], 2);
    let b = l.broadcast_as(Shape::from_dims(&[2, 3, 4])).unwrap();
    assert_eq!(b.dims(), &[2, 3, 4]);
    assert_eq!(b.stride(), &[0, 5, 0]);
    assert_eq!(b.start_offset(), 2);
    assert_eq!(l.broadcast_as(Shape::from_dims(&[3, 1])).unwrap(), l);
    match l.broadcast_as(Shape::from_dims(&[2, 4, 4])) {
        Err(Error::BroadcastIncompatibleShapes { src_shape, dst_shape }) => {
            assert_eq!(src_shape.dims(), &[3, 1]);
            assert_eq!(dst_shape.dims(), &[2, 4, 4]);
        }
        _ => panic!("expected BroadcastIncompatibleShapes"),
    }
    assert!(l.broadcast_as(Shape::from_dims(&[3])).is_err());
}

#[test]
fn strided_blocks_of_layouts() {
    let l = layout(&[2, 3, 4], &[12, 4, 1], 3);
    match l.strided_blocks() {
        StridedBlocks::SingleBlock { start_offset, len } => {
            assert_eq!(start_offset, 3);
            assert_eq!(len, 24);
        }
        _ => panic!("expected a single block"),
    }
    // narrowed in the middle dimension: rows of 4 elements
    let n = l.narrow(1, 0, 2).unwrap();
    match n.strided_blocks() {
        StridedBlocks::MultipleBlocks { block_len, .. } => assert_eq!(block_len, 8),
        _ => panic!("expected multiple blocks"),
    }
    let t = l.transpose(1, 2).unwrap();
    match t.strided_blocks() {
        StridedBlocks::MultipleBlocks { block_len, .. } => assert_eq!(block_len, 1),
        _ => panic!("expected multiple blocks"),
    }
    let _walk = l.strided_index();
}

#[test]
fn offsets_with_broadcast() {
    let l = layout(&[2, 3, 4], &[0, 4, 1], 9);
    assert_eq!(
        l.offsets_b(),
        Some(ContiguousOffsetsWithBroadcast { start: 9, len: 12, left_broadcast: 2, right_broadcast: 1 })
    );
    let m = layout(&[3, 4, 5], &[0, 1, 0], 0);
    assert_eq!(
        m.offsets_b(),
        Some(ContiguousOffsetsWithBroadcast { start: 0, len: 4, left_broadcast: 3, right_broadcast: 5 })
    );
    let z = layout(&[3, 4], &[0, 0], 1);
    assert_eq!(
        z.offsets_b(),
        Some(ContiguousOffsetsWithBroadcast { start: 1, len: 1, left_broadcast: 12, right_broadcast: 1 })
    );
    let t = layout(&[3, 4], &[1, 3], 0);
    assert_eq!(t.offsets_b(), None);
}

#[test]
fn strided_reshape_more() {
    // rank zero: all strides one
    let s = layout(&[], &[], 0);
    assert_eq!(s.strided_reshape(&[1, 1]).unwrap(), vec![1, 1]);
    // a contiguous layout takes any shape with as many elements
    let c = layout(&[6, 4], &[4, 1], 0);
    assert_eq!(c.strided_reshape(&[2, 3, 2, 2]).unwrap(), vec![12, 4, 2, 1]);
    assert_eq!(c.strided_reshape(&[24]).unwrap(), vec![1]);
    // a transposed layout can be split along its chunks
    let t = layout(&[4, 3], &[1, 4], 0);
    assert_eq!(t.strided_reshape(&[2, 2, 3]).unwrap(), vec![2, 1, 4]);
    // element counts differ
    assert!(c.strided_reshape(&[5, 5]).is_none());
}

#[test]
fn gemm_status_codes() {
    assert_eq!(check_gemm_status(0, 2, 3, 4, 1, 2), Ok(()));
    assert_eq!(
        check_gemm_status(7, 2, 3, 4, 1, 2),
        Err(GemmError::DispatchFailed { code: 7, m: 2, n: 3, k: 4, batch: 1, dtype: 2 })
    );
}

fn walk(l: &Layout) -> Vec<usize> {
    let mut it = l.strided_index();
    let mut out = Vec::new();
    while let Some(o) = it.next() {
        out.push(o);
    }
    out
}

#[test]
fn strided_index_walks() {
    assert_eq!(walk(&layout(&[2, 3], &[3, 1], 5)), vec![5, 6, 7, 8, 9, 10]);
    assert_eq!(walk(&layout(&[3, 2], &[1, 3], 0)), vec![0, 3, 1, 4, 2, 5]);
    assert_eq!(walk(&layout(&[2, 0, 3], &[0, 3, 1], 0)), Vec::<usize>::new());
    assert_eq!(walk(&layout(&[], &[], 7)), vec![7]);
    // broadcast dimension: offsets repeat
    assert_eq!(walk(&layout(&[2, 2], &[0, 1], 1)), vec![1, 2, 1, 2]);
}

#[test]
fn strided_blocks_walk() {
    let l = layout(&[2, 3, 4], &[12, 4, 1], 3);
    let n = l.narrow(1, 1, 2).unwrap();
    match n.strided_blocks() {
        StridedBlocks::MultipleBlocks { mut block_start_index, block_len } => {
            assert_eq!(block_len, 8);
            let mut starts = Vec::new();
            while let Some(o) = block_start_index.next() {
                starts.push(o);
            }
            assert_eq!(starts, vec![7, 19]);
        }
        _ => panic!("expected multiple blocks"),
    }
}

#[test]
fn strided_reshape_edge_cases() {
    // a dimension of size zero: no strides are given
    assert!(layout(&[0, 3], &[3, 1], 0).strided_reshape(&[0]).is_none());
    assert!(layout(&[0, 3], &[3, 1], 0).strided_reshape(&[0, 3]).is_none());
    // a huge stride on a dimension of size one is harmless
    let l = layout(&[1, 4], &[usize::MAX, 1], 0);
    assert_eq!(l.strided_reshape(&[4]).unwrap(), vec![1]);
    // new dimensions of size one take their right neighbour's span within their chunk
    let t = layout(&[4, 3], &[1, 4], 0);
    assert_eq!(t.strided_reshape(&[2, 1, 2, 3, 1]).unwrap(), vec![2, 2, 1, 4, 4]);
}

#[test]
fn blocks_cover_walk() {
    // the blocks, end to end, give the walk over the whole layout
    let l = layout(&[2, 3, 4], &[12, 4, 1], 3).narrow(1, 1, 2).unwrap();
    let full = walk(&l);
    let mut joined = Vec::new();
    match l.strided_blocks() {
        StridedBlocks::MultipleBlocks { mut block_start_index, block_len } => {
            while let Some(b) = block_start_index.next() {
                for z in 0..block_len {
                    joined.push(b + z);
                }
            }
        }
        StridedBlocks::SingleBlock { start_offset, len } => {
            for z in 0..len {
                joined.push(start_offset + z);
            }
        }
    }
    assert_eq!(joined, full);
}
