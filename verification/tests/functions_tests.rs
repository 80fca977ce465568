use dezero::functions::{
    concat_data, slice_axis_data, BroadcastTo, Concat, Gather, GatherGrad, Max, Reshape, SliceAxis, Sum, SumTo,
    TransposeAxes, UpsampleBilinear2x,
};
use dezero::shape::{size_of_shape, sum_to_axes};

#[test]
fn test_concat_forward_and_backward() {
    let x0 = vec![1.0f32, 2.0, 3.0, 4.0];
    let s0 = vec![2, 2];
    let x1 = vec![5.0f32, 6.0, 7.0, 8.0, 9.0, 10.0];
    let s1 = vec![2, 3];

    let cat = Concat { axis: 1 };
    let y = cat.concat_values(&x0, &s0, &x1, &s1);
    assert_eq!(cat.output_shape(&s0, &s1), vec![2, 5]);
    assert_eq!(y, vec![1.0, 2.0, 5.0, 6.0, 7.0, 3.0, 4.0, 8.0, 9.0, 10.0]);

    let gy = vec![0.1f32, 0.2, 0.5, 0.6, 0.7, 0.3, 0.4, 0.8, 0.9, 1.0];
    let (p0, p1) = cat.grad_slices(&s0, &s1);
    let y_shape = vec![2, 5];
    assert_eq!(p0.slice_values(&gy, &y_shape), vec![0.1, 0.2, 0.3, 0.4]);
    assert_eq!(p1.slice_values(&gy, &y_shape), vec![0.5, 0.6, 0.7, 0.8, 0.9, 1.0]);
}

#[test]
fn slicing_a_concatenation_gives_the_parts_back() {
    let x0: Vec<u32> = (0..12).collect();
    let x1: Vec<u32> = (100..106).collect();
    let s0 = vec![2, 2, 3];
    let s1 = vec![2, 1, 3];
    let cat = concat_data(&x0, &s0, &x1, &s1, 1);
    let s = vec![2, 3, 3];
    assert_eq!(slice_axis_data(&cat, &s, 1, 0, 2), x0);
    assert_eq!(slice_axis_data(&cat, &s, 1, 2, 3), x1);
}

#[test]
fn slice_gradient_padding() {
    let f = SliceAxis { axis: 0, start: 1, end: 3 };
    assert_eq!(f.output_shape(&vec![5, 2]), vec![2, 2]);
    let (left, right) = f.grad_padding(&vec![5, 2]);
    assert_eq!(left, Some(vec![1, 2]));
    assert_eq!(right, Some(vec![2, 2]));
    let whole = SliceAxis { axis: 1, start: 0, end: 2 };
    assert_eq!(whole.grad_padding(&vec![5, 2]), (None, None));
}

#[test]
fn gather_and_scatter_rows() {
    // row i gives its element in column indices[i]
    let g = Gather { indices: vec![1, 0, 1] };
    let x = vec![1, 2, 3, 4, 5, 6];
    assert_eq!(g.gather_rows(&x, 3, 2), vec![2, 3, 6]);
    let gg = GatherGrad { indices: vec![1, 0], in_shape: vec![3, 2] };
    assert_eq!(gg.scatter_rows(&vec![7, 8], 0), vec![0, 7, 8, 0, 0, 0]);
}

#[test]
fn reduction_shapes() {
    let s = Sum { axis: Some(1) };
    assert_eq!(s.output_shape(&vec![2, 3, 4]), vec![2, 4]);
    assert_eq!(s.grad_reshape(&vec![2, 3, 4], &vec![2, 4]), vec![2, 1, 4]);
    let all = Sum { axis: None };
    assert_eq!(all.output_shape(&vec![2, 3]), Vec::<usize>::new());
    let m = Max::new(Some(0), true);
    assert_eq!(m.output_shape(&vec![4, 5]), vec![1, 5]);
    assert_eq!(m.grad_reshape(&vec![4, 5], &vec![1, 5]), vec![1, 5]);
}

#[test]
fn transposes() {
    let t = TransposeAxes { axes: vec![2, 0, 1] };
    assert_eq!(t.output_shape(&vec![3, 4, 5]), vec![5, 3, 4]);
    let inv = TransposeAxes { axes: t.inverse_axes() };
    assert_eq!(inv.axes, vec![1, 2, 0]);
    assert_eq!(inv.output_shape(&vec![5, 3, 4]), vec![3, 4, 5]);
}

#[test]
fn sum_to_axes_pads_on_the_left() {
    assert_eq!(sum_to_axes(&vec![2, 3], &vec![3]), vec![0]);
    assert_eq!(sum_to_axes(&vec![2, 3], &vec![2, 1]), vec![1]);
    assert_eq!(sum_to_axes(&vec![2, 3], &vec![1]), vec![1, 0]);
    assert_eq!(sum_to_axes(&vec![2, 1, 3], &vec![1, 1, 3]), vec![0]);
    assert_eq!(size_of_shape(&vec![2, 3, 4]), 24);
}

#[test]
fn broadcast_and_sum_are_adjoint_in_shape() {
    let b = BroadcastTo { shape: vec![4, 3] };
    let g = b.gradient_function(&vec![1, 3]);
    assert_eq!(g.shape, vec![1, 3]);
    assert_eq!(g.summed_axes(&vec![4, 3]), vec![0]);
    let back = SumTo { shape: vec![3] }.gradient_function(&vec![2, 3]);
    assert_eq!(back.shape, vec![2, 3]);
    assert_eq!(Reshape { shape: vec![6] }.gradient_function(&vec![2, 3]).shape, vec![2, 3]);
}

#[test]
fn bilinear_taps_of_two_rows() {
    // output rows blend input rows (a, b) with weight q/4 on b
    assert_eq!(UpsampleBilinear2x::taps(2), vec![(0, 0, 3), (0, 1, 1), (0, 1, 3), (1, 1, 1)]);
    // with the taps, [1, 2] upsamples to [1, 1.25, 1.75, 2]
    let row = [1.0f32, 2.0];
    let up: Vec<f32> = UpsampleBilinear2x::taps(2)
        .iter()
        .map(|&(a, b, q)| row[a] * (1.0 - q as f32 / 4.0) + row[b] * (q as f32 / 4.0))
        .collect();
    assert_eq!(up, vec![1.0, 1.25, 1.75, 2.0]);
    assert_eq!(UpsampleBilinear2x::taps(1), vec![(0, 0, 3), (0, 0, 1)]);
}

#[test]
fn gather_gradient_functions_alternate() {
    let g = Gather { indices: vec![2, 0] };
    let gg = g.gradient_function(&vec![2, 3]);
    assert_eq!((gg.indices.clone(), gg.in_shape.clone()), (vec![2, 0], vec![2, 3]));
    assert_eq!(gg.gradient_function().indices, vec![2, 0]);
    // gathering the scatter of a gradient gives the gradient back
    let gx = gg.scatter_rows(&vec![1.5f32, -2.0], 0.0);
    assert_eq!(gg.gradient_function().gather_rows(&gx, 2, 3), vec![1.5, -2.0]);
}

#[test]
fn upsampling_doubles_both_sides() {
    let up = UpsampleBilinear2x;
    assert_eq!(up.output_shape(&vec![2, 3, 4, 5]), vec![2, 3, 8, 10]);
    let grad = up.gradient_function(&vec![2, 3, 4, 5]);
    assert_eq!(grad.input_shape, vec![2, 3, 4, 5]);
    let _back: UpsampleBilinear2x = grad.gradient_function();
}

#[test]
fn matrix_product_gradient_shapes() {
    let m = dezero::functions::MatMul;
    assert_eq!(m.output_shape(&vec![4, 3], &vec![3, 7]), vec![4, 7]);
    let (gx, gw) = m.grad_shapes(&vec![4, 3], &vec![3, 7], &vec![4, 7]);
    assert_eq!((gx, gw), (vec![4, 3], vec![3, 7]));
}

#[test]
fn transposing_twice_restores_the_shape() {
    let t = dezero::functions::Transpose;
    let once = t.output_shape(&vec![2, 3, 5]);
    assert_eq!(once, vec![5, 3, 2]);
    assert_eq!(t.output_shape(&once), vec![2, 3, 5]);
}
