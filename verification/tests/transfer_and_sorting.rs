//! Scenario tests for ownership transfer, hole collection and axis sorting.

use ndgrow::array::Array;
use ndgrow::errors::ErrorKind;
use ndgrow::sorting::{sort_axes_in_default_order, sort_axes_to_standard_order_tandem};

fn standard(shape: Vec<usize>, data: Vec<i32>) -> Array<i32> {
    Array::from_shape_vec(shape, data).unwrap()
}

#[test]
fn move_into_without_holes_destroys_nothing() {
    let src = standard(vec![2, 3], vec![1, 2, 3, 4, 5, 6]);
    let mut dst = standard(vec![2, 3], vec![0, 0, 0, 0, 0, 0]);
    let holes = src.move_into(&mut dst);
    assert_eq!(holes, Vec::<usize>::new());
    assert_eq!(dst.into_raw_vec(), vec![1, 2, 3, 4, 5, 6]);
}

#[test]
fn move_into_collects_the_complement_of_a_holed_view() {
    // a length-6 buffer viewed as the elements at positions {0, 2, 4}
    let src = Array::from_parts(vec![10, 11, 12, 13, 14, 15], 0, vec![3], vec![2]).unwrap();
    let mut dst = standard(vec![3], vec![0, 0, 0]);
    let holes = src.move_into(&mut dst);
    assert_eq!(holes, vec![1, 3, 5]);
    assert_eq!(dst.into_raw_vec(), vec![10, 12, 14]);
}

#[test]
fn move_into_handles_an_interior_offset() {
    // view of positions {1, 3}: positions 0, 2, 4 are holes
    let src = Array::from_parts(vec![9, 10, 11, 12, 13], 1, vec![2], vec![2]).unwrap();
    let mut dst = standard(vec![2], vec![0, 0]);
    let holes = src.move_into(&mut dst);
    assert_eq!(holes, vec![0, 2, 4]);
    assert_eq!(dst.into_raw_vec(), vec![10, 12]);
}

#[test]
fn move_into_an_empty_view_collects_everything() {
    let src = Array::from_parts(vec![7, 8], 0, vec![0], vec![1]).unwrap();
    let mut dst = standard(vec![0], vec![]);
    let holes = src.move_into(&mut dst);
    assert_eq!(holes, vec![0, 1]);
}

#[test]
fn move_into_a_column_major_destination() {
    let src = standard(vec![2, 2], vec![1, 2, 3, 4]);
    let mut dst = Array::from_parts(vec![0, 0, 0, 0], 0, vec![2, 2], vec![1, 2]).unwrap();
    let holes = src.move_into(&mut dst);
    assert_eq!(holes, Vec::<usize>::new());
    // column-major storage of the row-major source
    assert_eq!(dst.into_raw_vec(), vec![1, 3, 2, 4]);
}

#[test]
fn move_into_normalizes_a_reversed_axis() {
    // a backwards view of a 3-element buffer: elements in reverse order
    let src = Array::from_parts(vec![1, 2, 3], 2, vec![3], vec![-1]).unwrap();
    let mut dst = standard(vec![3], vec![0, 0, 0]);
    let holes = src.move_into(&mut dst);
    assert_eq!(holes, Vec::<usize>::new());
    assert_eq!(dst.into_raw_vec(), vec![3, 2, 1]);
}

#[test]
fn append_refuses_a_reversed_axis() {
    let mut a = Array::from_parts(vec![1, 2, 3], 2, vec![3], vec![-1]).unwrap();
    let slab = standard(vec![1], vec![4]);
    let e = a.try_append_array(0, &slab).unwrap_err();
    assert_eq!(e.kind(), ErrorKind::IncompatibleLayout);
    assert_eq!(a.into_raw_vec(), vec![1, 2, 3]);
}

#[test]
fn zero_append_succeeds_on_a_reversed_axis() {
    let mut a = Array::from_parts(vec![1, 2, 3], 2, vec![3], vec![-1]).unwrap();
    let empty = standard(vec![0], vec![]);
    a.try_append_array(0, &empty).unwrap();
    assert_eq!(a.shape().clone(), vec![3]);
    assert_eq!(a.into_raw_vec(), vec![1, 2, 3]);
}

#[test]
fn sort_axes_orders_strides_descending() {
    let mut dim: Vec<usize> = vec![4, 2, 3];
    let mut strides: Vec<isize> = vec![1, 12, 4];
    sort_axes_in_default_order(&mut dim, &mut strides);
    assert_eq!(dim, vec![2, 3, 4]);
    assert_eq!(strides, vec![12, 4, 1]);
}

#[test]
fn sort_axes_keeps_tied_strides_in_order() {
    // two axes tie at stride 4: the bubble sort keeps their relative order
    let mut dim: Vec<usize> = vec![4, 2, 3];
    let mut strides: Vec<isize> = vec![1, 4, 4];
    sort_axes_in_default_order(&mut dim, &mut strides);
    assert_eq!(dim, vec![2, 3, 4]);
    assert_eq!(strides, vec![4, 4, 1]);
}

#[test]
fn sort_axes_leaves_rank_one_alone() {
    let mut dim: Vec<usize> = vec![5];
    let mut strides: Vec<isize> = vec![3];
    sort_axes_in_default_order(&mut dim, &mut strides);
    assert_eq!(dim, vec![5]);
    assert_eq!(strides, vec![3]);
}

#[test]
fn tandem_sort_applies_the_same_permutation_to_both() {
    let mut adim: Vec<usize> = vec![2, 3];
    let mut astrides: Vec<isize> = vec![1, 2];
    let mut bdim: Vec<usize> = vec![2, 3];
    let mut bstrides: Vec<isize> = vec![30, 40];
    sort_axes_to_standard_order_tandem(&mut adim, &mut astrides, &mut bdim, &mut bstrides);
    assert_eq!(adim, vec![3, 2]);
    assert_eq!(astrides, vec![2, 1]);
    assert_eq!(bdim, vec![3, 2]);
    assert_eq!(bstrides, vec![40, 30]);
}

#[test]
fn standard_layout_ignores_unit_axes() {
    let a = Array::from_parts(vec![1, 2, 3], 0, vec![1, 3], vec![2, 1]).unwrap();
    assert!(a.is_standard_layout());
    let b = Array::from_parts(vec![1, 2, 3, 4], 0, vec![2, 2], vec![1, 2]).unwrap();
    assert!(!b.is_standard_layout());
}

#[test]
fn len_counts_the_viewed_elements() {
    let a = Array::from_parts(vec![1, 2, 3, 4, 5, 6], 0, vec![3], vec![2]).unwrap();
    assert_eq!(a.len(), 3);
    assert_eq!(a.ndim(), 1);
}
