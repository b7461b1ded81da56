use tensor_graph::graph::Graph;

#[test]
fn a_scalar_is_one_contiguous_element() {
    let mut g: Graph<i32> = Graph::new();
    let a = g.from_slice(&[5], &[]);
    assert_eq!(g.numel(a), 1);
    assert!(g.is_contiguous(a));
    assert_eq!(g.cpu(a), &[5]);
    assert_eq!(g.strides(a), [0, 0, 0, 0]);
    let c = g.contiguous(a);
    assert_eq!(c, a);
}

#[test]
fn an_empty_tensor_materialises_to_an_empty_buffer() {
    let mut g: Graph<i32> = Graph::new();
    let a = g.from_slice(&[], &[2, 0, 3]);
    assert_eq!(g.numel(a), 0);
    let t = g.transpose(a, 0, 2);
    assert_eq!(g.shape(t).dims(), &[3, 0, 2]);
    let c = g.contiguous(t);
    assert_eq!(g.numel(c), 0);
    assert_eq!(g.cpu(c), &[] as &[i32]);
}

#[test]
fn transposing_twice_restores_the_row_major_order() {
    let mut g: Graph<i32> = Graph::new();
    let a = g.from_slice(&[1, 2, 3, 4, 5, 6], &[2, 3]);
    let t = g.transpose(a, 0, 1);
    let tt = g.transpose(t, 0, 1);
    assert_eq!(g.shape(tt).dims(), &[2, 3]);
    assert_eq!(g.strides(tt), [3, 1, 0, 0]);
    assert!(g.is_contiguous(tt));
    assert_eq!(g.cpu(tt), &[1, 2, 3, 4, 5, 6]);
    assert_eq!(g.storage_count(), 1);
}

#[test]
fn transposing_an_axis_with_itself_changes_nothing() {
    let mut g: Graph<i32> = Graph::new();
    let a = g.from_slice(&[1, 2, 3, 4, 5, 6], &[2, 3]);
    let t = g.transpose(a, 1, 1);
    assert_eq!(g.strides(t), g.strides(a));
    assert_eq!(g.cpu(t), g.cpu(a));
}

#[test]
fn materialising_a_rank_three_transpose() {
    let mut g: Graph<i32> = Graph::new();
    let data: Vec<i32> = (0..24).collect();
    let a = g.from_slice(&data, &[2, 3, 4]);
    let t = g.transpose(a, 0, 2);
    assert_eq!(g.shape(t).dims(), &[4, 3, 2]);
    assert_eq!(g.strides(t), [1, 4, 12, 0]);
    let c = g.contiguous(t);
    let expect: Vec<i32> = (0..4)
        .flat_map(|i| (0..3).flat_map(move |j| (0..2).map(move |k| k * 12 + j * 4 + i)))
        .collect();
    assert_eq!(g.cpu(c), expect.as_slice());
    let mut sorted = g.cpu(c).to_vec();
    sorted.sort();
    assert_eq!(sorted, data);
}

#[test]
fn reshape_of_a_materialised_view_reads_its_row_major_order() {
    let mut g: Graph<i32> = Graph::new();
    let a = g.from_slice(&[1, 2, 3, 4, 5, 6], &[2, 3]);
    let t = g.transpose(a, 0, 1);
    let c = g.contiguous(t);
    let r = g.reshape(c, &[6]);
    assert_eq!(g.cpu(r), &[1, 4, 2, 5, 3, 6]);
    assert_eq!(g.strides(r), [1, 0, 0, 0]);
    assert_eq!(g.storage_count(), 2);
}

#[test]
fn reshape_to_rank_four_and_back() {
    let mut g: Graph<u8> = Graph::new();
    let a = g.from_slice(&[1, 2, 3, 4, 5, 6, 7, 8], &[8]);
    let r = g.reshape(a, &[2, 1, 2, 2]);
    assert_eq!(g.strides(r), [4, 4, 2, 1]);
    assert!(g.is_contiguous(r));
    let back = g.reshape(r, &[8]);
    assert_eq!(g.cpu(back), &[1, 2, 3, 4, 5, 6, 7, 8]);
}

#[test]
fn zeros_of_an_integer_type() {
    let mut g: Graph<u32> = Graph::default();
    let z = g.zeros(&[3, 2]);
    assert_eq!(g.cpu(z), &[0, 0, 0, 0, 0, 0]);
    assert_eq!(g.strides(z), [2, 1, 0, 0]);
    assert_eq!(g.tensor_count(), 1);
    assert_eq!(g.storage_count(), 1);
}

#[test]
fn views_do_not_allocate() {
    let mut g: Graph<i32> = Graph::new();
    let a = g.from_slice(&[1, 2, 3, 4], &[2, 2]);
    let t = g.transpose(a, 0, 1);
    let _r = g.reshape(a, &[4]);
    let _u = g.transpose(t, 1, 0);
    assert_eq!(g.tensor_count(), 4);
    assert_eq!(g.storage_count(), 1);
}

#[test]
fn an_empty_graph_has_nothing() {
    let g: Graph<f64> = Graph::new();
    assert_eq!(g.tensor_count(), 0);
    assert_eq!(g.storage_count(), 0);
}

#[test]
fn materialising_twice_changes_nothing() {
    let mut g: Graph<i32> = Graph::new();
    let a = g.from_slice(&[1, 2, 3, 4, 5, 6], &[2, 3]);
    let t = g.transpose(a, 0, 1);
    let c = g.contiguous(t);
    let (n, s) = (g.tensor_count(), g.storage_count());
    assert_eq!(g.contiguous(c), c);
    assert_eq!((g.tensor_count(), g.storage_count()), (n, s));
}

#[test]
fn transpose_then_materialise_and_back_restores_the_buffer() {
    let mut g: Graph<i32> = Graph::new();
    let data: Vec<i32> = (0..24).collect();
    let b = g.from_slice(&data, &[2, 3, 4]);
    let t = g.transpose(b, 0, 2);
    let c = g.contiguous(t);
    let u = g.transpose(c, 0, 2);
    let d = g.contiguous(u);
    assert_eq!(g.shape(d), g.shape(b));
    assert_eq!(g.cpu(d), g.cpu(b));
}

#[test]
fn the_order_of_the_two_axes_does_not_matter() {
    let mut g: Graph<i32> = Graph::new();
    let a = g.from_slice(&[1, 2, 3, 4, 5, 6], &[2, 3]);
    let t1 = g.transpose(a, 0, 1);
    let t2 = g.transpose(a, 1, 0);
    assert_eq!(g.shape(t1), g.shape(t2));
    assert_eq!(g.strides(t1), g.strides(t2));
}

#[test]
fn reshape_round_trip_keeps_the_buffer() {
    let mut g: Graph<i32> = Graph::new();
    let a = g.from_slice(&[1, 2, 3, 4, 5, 6], &[2, 3]);
    let r = g.reshape(a, &[3, 2]);
    let r2 = g.reshape(r, &[2, 3]);
    assert_eq!(g.shape(r2), g.shape(a));
    assert_eq!(g.cpu(r2), g.cpu(a));
    assert_eq!(g.storage_count(), 1);
}
