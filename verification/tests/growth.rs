//! Scenario tests for the growth protocol.

use ndgrow::array::Array;
use ndgrow::errors::ErrorKind;

fn standard(shape: Vec<usize>, data: Vec<i32>) -> Array<i32> {
    Array::from_shape_vec(shape, data).unwrap()
}

#[test]
fn two_row_appends_from_empty() {
    // start with shape (0, 4), standard layout; append two rows
    let mut a = standard(vec![0, 4], vec![]);
    assert!(a.is_standard_layout());
    a.try_append_row(standard(vec![4], vec![1, 2, 3, 4])).unwrap();
    a.try_append_row(standard(vec![4], vec![-1, -2, -3, -4])).unwrap();
    assert_eq!(a.shape().clone(), vec![2, 4]);
    assert!(a.is_standard_layout());
    assert_eq!(a.into_raw_vec(), vec![1, 2, 3, 4, -1, -2, -3, -4]);
}

#[test]
fn two_column_appends_from_empty() {
    // start with shape (2, 0); append two columns; column-major result
    let mut a = standard(vec![2, 0], vec![]);
    a.try_append_column(standard(vec![2], vec![1, 2])).unwrap();
    a.try_append_column(standard(vec![2], vec![-1, -2])).unwrap();
    assert_eq!(a.shape().clone(), vec![2, 2]);
    assert_eq!(a.strides().clone(), vec![1, 2]);
    // column-major concatenation of the two columns
    assert_eq!(a.into_raw_vec(), vec![1, 2, -1, -2]);
}

#[test]
fn off_axis_shape_mismatch_is_rejected_unchanged() {
    // off-axis shape (3) against an array whose off-axis shape is (4)
    let mut a = standard(vec![1, 4], vec![7, 8, 9, 10]);
    let slab = standard(vec![1, 3], vec![1, 2, 3]);
    let e = a.try_append_array(0, &slab).unwrap_err();
    assert_eq!(e.kind(), ErrorKind::IncompatibleShape);
    assert_eq!(a.shape().clone(), vec![1, 4]);
    assert_eq!(a.into_raw_vec(), vec![7, 8, 9, 10]);
}

#[test]
fn non_outermost_axis_is_rejected_unchanged() {
    // a standard 2x2 array cannot grow along its inner axis
    let mut a = standard(vec![2, 2], vec![1, 2, 3, 4]);
    let slab = standard(vec![2, 1], vec![5, 6]);
    let e = a.try_append_array(1, &slab).unwrap_err();
    assert_eq!(e.kind(), ErrorKind::IncompatibleLayout);
    assert_eq!(a.shape().clone(), vec![2, 2]);
    assert_eq!(a.into_raw_vec(), vec![1, 2, 3, 4]);
}

#[test]
fn zero_length_append_is_shape_only() {
    let mut a = standard(vec![2, 2], vec![1, 2, 3, 4]);
    let empty = standard(vec![0, 2], vec![]);
    a.try_append_array(0, &empty).unwrap();
    assert_eq!(a.shape().clone(), vec![2, 2]);
    assert_eq!(a.strides().clone(), vec![2, 1]);
    assert_eq!(a.into_raw_vec(), vec![1, 2, 3, 4]);
}

#[test]
fn slabs_in_sequence_match_one_big_slab() {
    let mut a = standard(vec![0, 2], vec![]);
    a.try_append_array(0, &standard(vec![1, 2], vec![1, 2])).unwrap();
    a.try_append_array(0, &standard(vec![2, 2], vec![3, 4, 5, 6])).unwrap();
    let mut b = standard(vec![0, 2], vec![]);
    b.try_append_array(0, &standard(vec![3, 2], vec![1, 2, 3, 4, 5, 6])).unwrap();
    assert_eq!(a.shape().clone(), b.shape().clone());
    assert_eq!(a.strides().clone(), b.strides().clone());
    assert_eq!(a.into_raw_vec(), b.into_raw_vec());
}

#[test]
fn rank_zero_append_is_rejected() {
    let mut a: Array<i32> = standard(vec![], vec![5]);
    let slab = standard(vec![], vec![6]);
    let e = a.try_append_array(0, &slab).unwrap_err();
    assert_eq!(e.kind(), ErrorKind::IncompatibleShape);
}

#[test]
fn oversized_shape_overflows() {
    let r = Array::<i32>::from_shape_vec(vec![usize::MAX, usize::MAX], vec![]);
    let e = match r {
        Ok(_) => panic!("a shape this large must be refused"),
        Err(e) => e,
    };
    assert_eq!(e.kind(), ErrorKind::ShapeOverflow);
}

#[test]
fn mismatched_buffer_is_rejected() {
    let r = Array::from_shape_vec(vec![2, 2], vec![1, 2, 3]);
    let e = match r {
        Ok(_) => panic!("a mismatched buffer must be refused"),
        Err(e) => e,
    };
    assert_eq!(e.kind(), ErrorKind::IncompatibleShape);
}

#[test]
fn into_scalar_takes_the_single_element() {
    let a = standard(vec![], vec![42]);
    assert_eq!(a.into_scalar(), 42);
}

#[test]
fn into_scalar_respects_the_view_offset() {
    // a rank-zero view into the middle of a larger buffer
    let a = Array::from_parts(vec![10, 20, 30], 1, vec![], vec![]).unwrap();
    assert_eq!(a.into_scalar(), 20);
}

#[test]
fn into_raw_vec_returns_storage_order() {
    let a = standard(vec![2, 2], vec![1, 2, 3, 4]);
    assert_eq!(a.into_raw_vec(), vec![1, 2, 3, 4]);
}

#[test]
fn from_parts_validates_bounds() {
    // an index would run past the buffer
    assert!(Array::from_parts(vec![1, 2], 0, vec![2], vec![2]).is_none());
    // aliasing strides are refused
    assert!(Array::from_parts(vec![1, 2, 3, 4], 0, vec![2, 2], vec![1, 1]).is_none());
    // a strided view inside a larger buffer is accepted
    assert!(Array::from_parts(vec![1, 2, 3, 4, 5, 6], 0, vec![3], vec![2]).is_some());
}

#[test]
fn growing_a_unit_axis_promotes_it() {
    let mut a = standard(vec![1, 3], vec![1, 2, 3]);
    a.try_append_array(0, &standard(vec![1, 3], vec![4, 5, 6])).unwrap();
    assert_eq!(a.shape().clone(), vec![2, 3]);
    assert_eq!(a.strides().clone(), vec![3, 1]);
    assert!(a.is_standard_layout());
    assert_eq!(a.into_raw_vec(), vec![1, 2, 3, 4, 5, 6]);
}
