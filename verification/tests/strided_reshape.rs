use lib::layout::Layout;
use lib::shape::Shape;

fn layout(shape: &[usize], stride: &[usize], offset: usize) -> Layout {
    Layout::new(Shape::from_dims(shape), stride.to_vec(), offset)
}

#[test]
fn strided_reshape_contiguous() {
    // [4, 6144] contiguous → [4, 48, 128] should work (4*48*128 = 4*6144 = 24576)
    let l = layout(&[4, 6144], &[6144, 1], 0);
    let s = l.strided_reshape(&[4, 48, 128]).unwrap();
    assert_eq!(s, vec![6144, 128, 1]);
}

#[test]
fn strided_reshape_narrow_then_split() {
    // Simulate: [4, 6144].narrow(1, 0, 4096) → [4, 4096] stride [6144, 1]
    // Then reshape to [4, 32, 128]
    let l = layout(&[4, 4096], &[6144, 1], 0);
    let s = l.strided_reshape(&[4, 32, 128]).unwrap();
    // dim2: stride=1, dim1: stride=128, dim0: stride=6144 (unchanged)
    assert_eq!(s, vec![6144, 128, 1]);
}

#[test]
fn strided_reshape_narrow_kv() {
    // K after narrow: [4, 1024] stride [6144, 1], offset=4096
    let l = layout(&[4, 1024], &[6144, 1], 4096);
    let s = l.strided_reshape(&[4, 8, 128]).unwrap();
    assert_eq!(s, vec![6144, 128, 1]);
}

#[test]
fn strided_reshape_incompatible() {
    // [4, 4096] stride [6144, 1] → reshape to [16384] requires contiguous
    let l = layout(&[4, 4096], &[6144, 1], 0);
    assert!(l.strided_reshape(&[16384]).is_none());
}

#[test]
fn strided_reshape_transpose_incompatible() {
    // Transposed [4, 3] stride [1, 4] → reshape to [12] should fail
    let l = layout(&[4, 3], &[1, 4], 0);
    assert!(l.strided_reshape(&[12]).is_none());
}

#[test]
fn strided_reshape_size_one_dims() {
    // [1, 4096] stride [4096, 1] → [4096] should work
    let l = layout(&[1, 4096], &[4096, 1], 0);
    let s = l.strided_reshape(&[4096]).unwrap();
    assert_eq!(s, vec![1]);
}
