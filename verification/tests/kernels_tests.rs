use dezero::kernels::{
    bias_add_groups, col2im_launch, column_sum_launch, div_ceil, div_ceil_u32, elementwise_groups, groups_1d,
    im2col_launch, image_tensor_shape, matmul_launch, matmul_nt_launch, matmul_tn_launch, nchw_to_nhwc_launch,
    nhwc_to_nchw_launch, paired_groups, pool_backward_launch, pool_forward_launch, window_params, AdamSteps,
};

#[test]
fn ceiling_division() {
    assert_eq!(div_ceil(0, 64), 0);
    assert_eq!(div_ceil(1, 64), 1);
    assert_eq!(div_ceil(64, 64), 1);
    assert_eq!(div_ceil(65, 64), 2);
    assert_eq!(div_ceil(usize::MAX, 1), usize::MAX);
    assert_eq!(div_ceil(usize::MAX, 2), usize::MAX / 2 + 1);
    assert_eq!(div_ceil_u32(33, 16), 3);
    assert_eq!(groups_1d(128), 2);
    assert_eq!(groups_1d(129), 3);
}

#[test]
fn unfolding_launch() {
    let (params, shape, groups) = im2col_launch((1, 3, 7, 7), 5, 5, 1, 0);
    assert_eq!(params, [1, 3, 7, 7, 3, 3, 5, 5, 1, 0, 0, 0]);
    assert_eq!(shape, (9, 75));
    assert_eq!(groups, (5, 1));
    assert_eq!(window_params(1, 2, 3, 4, 5, 6, 7, 8, 9, 10), [1, 2, 3, 4, 5, 6, 7, 8, 9, 10, 0, 0]);
}

#[test]
fn window_counts_are_taken_modulo_2_pow_32() {
    let p = window_params((1usize << 32) + 5, 1, 1, 1, 1, 1, 1, 1, 1, 1);
    assert_eq!(p[0], 5);
}

#[test]
fn folding_launch() {
    let (params, shape, groups) = col2im_launch((8, 4), (2, 1, 4, 4), 2, 2, 2, 0);
    assert_eq!(params, [2, 1, 4, 4, 2, 2, 2, 2, 2, 0, 0, 0]);
    assert_eq!(shape, (2, 16));
    assert_eq!(groups, 1);
}

#[test]
fn pooling_launches() {
    let (params, dims, groups) = pool_forward_launch((2, 16, 28, 28), 2, 2, 2, 0);
    assert_eq!(params, [2, 16, 28, 28, 14, 14, 2, 2, 2, 0, 0, 0]);
    assert_eq!(dims, (2, 16, 14, 14));
    assert_eq!(groups, div_ceil(2 * 16 * 14 * 14, 64) as u32);
    let (params, dims, groups) = pool_backward_launch((2, 16, 14, 14), (2, 16, 28, 28), 2, 2, 2, 0);
    assert_eq!(params, [2, 16, 28, 28, 14, 14, 2, 2, 2, 0, 0, 0]);
    assert_eq!(dims, (2, 16, 28, 28));
    assert_eq!(groups, 98);
}

#[test]
fn matrix_product_launches() {
    let (dims, out, groups) = matmul_launch((100, 7), (7, 33));
    assert_eq!((dims, out, groups), ([100, 7, 33, 0], (100, 33), (2, 4)));
    let (dims, out, groups) = matmul_tn_launch((7, 10), (7, 5));
    assert_eq!((dims, out, groups), ([10, 7, 5, 0], (10, 5), (3, 2)));
    let (dims, out, groups) = matmul_nt_launch((10, 7), (33, 7));
    assert_eq!((dims, out, groups), ([10, 7, 33, 0], (10, 33), (3, 1)));
    let (dims, out, groups) = column_sum_launch((9, 300));
    assert_eq!((dims, out, groups), ([9, 300, 0, 0], (1, 300), 300));
}

#[test]
fn layout_launches() {
    let (p, out, groups) = nhwc_to_nchw_launch((2 * 3 * 4, 5), (2, 5, 3, 4));
    assert_eq!((p, out, groups), ([2, 5, 3, 4], (2, 60), 2));
    let (p, out, groups) = nchw_to_nhwc_launch((2, 5, 3, 4));
    assert_eq!((p, out, groups), ([2, 5, 3, 4], (24, 5), 2));
    assert_eq!(image_tensor_shape((2, 3, 4, 5)), (2, 60));
}

#[test]
fn elementwise_launches() {
    assert_eq!(elementwise_groups((10, 13)), 3);
    assert_eq!(bias_add_groups((10, 13), (1, 13)), 3);
    assert_eq!(paired_groups((1, 64), (1, 64)), 1);
}

#[test]
fn adam_steps_count_updates() {
    let mut adam = AdamSteps::new();
    assert_eq!(adam.iter, 0);
    assert_eq!(adam.moments, None);
    assert_eq!(adam.step((3, 100)), (300, 5));
    assert_eq!(adam.moments, Some((3, 100)));
    assert_eq!(adam.step((3, 100)), (300, 5));
    assert_eq!(adam.iter, 2);
    // the moment buffers keep the shape of the first step
    assert_eq!(adam.step((1, 10)), (10, 1));
    assert_eq!(adam.moments, Some((3, 100)));
}
