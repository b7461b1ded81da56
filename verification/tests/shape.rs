use tensor_graph::shape::{Shape, MAX_RANK};

#[test]
fn new_keeps_the_extents() {
    let s = Shape::new(&[2, 3, 4]);
    assert_eq!(s.rank(), 3);
    assert_eq!(s.dims(), &[2, 3, 4]);
    assert_eq!(s.dim(0), 2);
    assert_eq!(s.dim(2), 4);
}

#[test]
fn numel_is_the_product_of_extents() {
    assert_eq!(Shape::new(&[2, 3, 4]).numel(), 24);
    assert_eq!(Shape::new(&[7]).numel(), 7);
    assert_eq!(Shape::new(&[2, 2, 2, 2]).numel(), 16);
}

#[test]
fn a_rank_zero_shape_has_one_element() {
    let s = Shape::new(&[]);
    assert_eq!(s.rank(), 0);
    assert_eq!(s.numel(), 1);
    assert_eq!(s.contiguous_strides(), [0, 0, 0, 0]);
}

#[test]
fn a_zero_extent_empties_the_shape() {
    assert_eq!(Shape::new(&[3, 0, 5]).numel(), 0);
    assert_eq!(Shape::new(&[usize::MAX, 2, 0]).numel(), 0);
}

#[test]
fn contiguous_strides_are_row_major_and_padded() {
    assert_eq!(Shape::new(&[2, 3, 4]).contiguous_strides(), [12, 4, 1, 0]);
    assert_eq!(Shape::new(&[5, 1, 2, 3]).contiguous_strides(), [6, 6, 3, 1]);
    assert_eq!(Shape::new(&[3, 0, 5]).contiguous_strides(), [0, 5, 1, 0]);
}

#[test]
fn the_largest_rank_is_four() {
    assert_eq!(MAX_RANK, 4);
    let s = Shape::new(&[1, 2, 3, 4]);
    assert_eq!(s.rank(), MAX_RANK);
    assert_eq!(s.numel(), 24);
}

#[test]
fn shapes_with_equal_extents_are_equal() {
    assert_eq!(Shape::new(&[2, 3]), Shape::new(&[2, 3]));
    assert_ne!(Shape::new(&[2, 3]), Shape::new(&[3, 2]));
}
