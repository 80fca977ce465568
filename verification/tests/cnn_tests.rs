use dezero::cnn::{col2im_sources, im2col, im2col_array, Col2Im, ConvGeometry, Im2Col};
use dezero::pooling::{pool_backward_columns, PoolingLayer};

fn geometry(dims: (usize, usize, usize, usize), k: (usize, usize), s: (usize, usize), p: (usize, usize)) -> ConvGeometry {
    ConvGeometry { n: dims.0, c: dims.1, h: dims.2, w: dims.3, kh: k.0, kw: k.1, sh: s.0, sw: s.1, ph: p.0, pw: p.1 }
}

/// Sums, for every pixel, the column entries that fold back into it.
fn fold(col: &[f32], sources: &[Vec<usize>]) -> Vec<f32> {
    sources.iter().map(|list| list.iter().map(|&t| col[t]).sum()).collect()
}

fn iota(n: usize) -> Vec<f32> {
    (0..n).map(|x| x as f32).collect()
}

#[test]
fn test_im2col() {
    let x = vec![0.0f32; 1 * 3 * 7 * 7];
    let col = im2col(&x, (1, 3, 7, 7), 5, 5, 1, 0, 0.0);
    let g = geometry((1, 3, 7, 7), (5, 5), (1, 1), (0, 0));
    assert_eq!((g.n * g.output_height() * g.output_width(), g.c * g.kh * g.kw), (9, 75));
    assert_eq!(col.len(), 9 * 75);

    let x = iota(16);
    let col = im2col(&x, (1, 1, 4, 4), 2, 2, 2, 0, 0.0);
    assert_eq!(col.len(), 4 * 4);
    let expect = vec![0., 1., 4., 5., 2., 3., 6., 7., 8., 9., 12., 13., 10., 11., 14., 15.];
    assert_eq!(col, expect);

    let col_with_pad = im2col(&x, (1, 1, 4, 4), 2, 2, 2, 1, 0.0);
    let expect_with_pad = vec![
        0., 0., 0., 0., 0., 0., 1., 2., 0., 0., 3., 0., 0., 4., 0., 8., 5., 6., 9., 10., 7., 0., 11., 0., 0., 12.,
        0., 0., 13., 14., 0., 0., 15., 0., 0., 0.,
    ];
    assert_eq!(col_with_pad.len(), 9 * 4);
    assert_eq!(col_with_pad, expect_with_pad);
}

#[test]
fn test_col2im() {
    let x = iota(16);
    let col = im2col(&x, (1, 1, 4, 4), 2, 2, 2, 0, 0.0);
    let sources = col2im_sources((1, 1, 4, 4), (2, 2), (2, 2), (0, 0), true);
    let x_reconstructed = fold(&col, &sources);
    assert_eq!(x, x_reconstructed);

    let col = im2col(&x, (1, 1, 4, 4), 2, 2, 1, 0, 0.0);
    let sources = col2im_sources((1, 1, 4, 4), (2, 2), (1, 1), (0, 0), true);
    let x_reconstructed = fold(&col, &sources);
    let expected = vec![
        0.0, 2.0, 4.0, 3.0, 8.0, 20.0, 24.0, 14.0, 16.0, 36.0, 40.0, 22.0, 12.0, 26.0, 28.0, 15.0,
    ];
    assert_eq!(x_reconstructed, expected);

    let col = im2col(&x, (1, 1, 4, 4), 2, 2, 1, 1, 0.0);
    let sources = col2im_sources((1, 1, 4, 4), (2, 2), (1, 1), (1, 1), true);
    let x_reconstructed = fold(&col, &sources);
    let expected = vec![
        0.0, 4.0, 8.0, 12.0, 16.0, 20.0, 24.0, 28.0, 32.0, 36.0, 40.0, 44.0, 48.0, 52.0, 56.0, 60.0,
    ];
    assert_eq!(x_reconstructed, expected);
}

/// The forward pass of max pooling: for every window and channel (channel
/// innermost) the position of the first maximum inside the window.
fn pool_arg_max(x: &[f32], dims: (usize, usize, usize, usize), size: usize, stride: usize, pad: usize) -> (Vec<usize>, usize, usize) {
    let (n, c, h, w) = dims;
    let col = im2col(&x.to_vec(), dims, size, size, stride, pad, 0.0f32);
    let g = geometry(dims, (size, size), (stride, stride), (pad, pad));
    let (oh, ow) = (g.output_height(), g.output_width());
    let ps = size * size;
    let mut arg_max = Vec::new();
    for row in 0..n * oh * ow {
        for ch in 0..c {
            let block = &col[row * c * ps + ch * ps..row * c * ps + (ch + 1) * ps];
            let (mut best, mut best_val) = (0, f32::MIN);
            for (i, &v) in block.iter().enumerate() {
                if v > best_val {
                    best = i;
                    best_val = v;
                }
            }
            arg_max.push(best);
        }
    }
    let _ = (h, w);
    (arg_max, oh, ow)
}

/// The backward pass of max pooling for an output gradient in `(n, c, oh, ow)`
/// order.
fn pool_backward(pool: &mut PoolingLayer, x: &[f32], dims: (usize, usize, usize, usize), dout_nchw: &[f32]) -> Vec<f32> {
    let (n, c, _, _) = dims;
    let (arg_max, oh, ow) = pool_arg_max(x, dims, pool.pool_h, pool.stride, pool.pad);
    pool.remember(dims, arg_max);
    let mut dout = Vec::new();
    for b in 0..n {
        for y in 0..oh {
            for xx in 0..ow {
                for ch in 0..c {
                    dout.push(dout_nchw[((b * c + ch) * oh + y) * ow + xx]);
                }
            }
        }
    }
    let dcol = pool.backward_columns(&dout, oh, ow, 0.0f32);
    let folding = Col2Im::new(dims, (pool.pool_h, pool.pool_w), (pool.stride, pool.stride), (pool.pad, pool.pad), true);
    fold(&dcol, &folding.fold_sources())
}

#[test]
fn test_pooling_backward() {
    let mut pool = PoolingLayer::new(2, 2, 2, 0);
    let x = vec![
        1.0, 0.0, 0.0, 2.0, 0.0, 0.0, 0.0, 0.0, 0.0, 0.0, 0.0, 0.0, 3.0, 0.0, 0.0, 4.0, //
        0.0, 0.0, 0.0, 0.0, 0.0, 1.0, 2.0, 0.0, 0.0, 3.0, 4.0, 0.0, 0.0, 0.0, 0.0, 0.0,
    ];
    let dout = vec![10.0, 20.0, 30.0, 40.0, 50.0, 60.0, 70.0, 80.0];
    let dx = pool_backward(&mut pool, &x, (1, 2, 4, 4), &dout);
    let expected_dx = vec![
        10.0, 0.0, 0.0, 20.0, 0.0, 0.0, 0.0, 0.0, 0.0, 0.0, 0.0, 0.0, 30.0, 0.0, 0.0, 40.0, //
        0.0, 0.0, 0.0, 0.0, 0.0, 50.0, 60.0, 0.0, 0.0, 70.0, 80.0, 0.0, 0.0, 0.0, 0.0, 0.0,
    ];
    assert_eq!(dx, expected_dx);

    let mut pool = PoolingLayer::new(2, 2, 2, 0);
    let x = vec![1.0, 0.0, 0.0, 0.0, 0.0, 0.0, 0.0, 2.0];
    let dout = vec![10.0, 20.0];
    let dx = pool_backward(&mut pool, &x, (2, 1, 2, 2), &dout);
    let expected_dx = vec![10.0, 0.0, 0.0, 0.0, 0.0, 0.0, 0.0, 20.0];
    assert_eq!(dx, expected_dx);

    let mut pool = PoolingLayer::new(2, 2, 1, 0);
    let mut x = vec![0.0f32; 9];
    x[4] = 100.0;
    let dout = vec![1.0f32; 4];
    let dx = pool_backward(&mut pool, &x, (1, 1, 3, 3), &dout);
    assert_eq!(dx[4], 4.0);
    assert_eq!(dx.iter().sum::<f32>(), dout.iter().sum::<f32>());

    let mut pool = PoolingLayer::new(2, 2, 2, 1);
    let x = vec![1.0, 2.0, 3.0, 4.0];
    let dout = vec![10.0, 20.0, 30.0, 40.0];
    let dx = pool_backward(&mut pool, &x, (1, 1, 2, 2), &dout);
    assert_eq!(dx, dout);
}

#[test]
fn test_im2col_array() {
    let x = vec![0.0f32; 1 * 3 * 7 * 7];
    let col = im2col_array(&x, (1, 3, 7, 7), (5, 5), (1, 1), (0, 0), true, 0.0);
    let g = geometry((1, 3, 7, 7), (5, 5), (1, 1), (0, 0));
    assert_eq!([g.n * g.output_height() * g.output_width(), g.c * g.kh * g.kw], [9, 75]);
    assert_eq!(col.len(), 9 * 75);
}

#[test]
fn test_col2im_array_duality_no_overlap() {
    let x = iota(16);
    let col = im2col_array(&x, (1, 1, 4, 4), (2, 2), (2, 2), (0, 0), true, 0.0);
    let x_rec = fold(&col, &Col2Im::new((1, 1, 4, 4), (2, 2), (2, 2), (0, 0), true).fold_sources());
    assert_eq!(x, x_rec);
}

#[test]
fn test_col2im_array_duality_with_overlap() {
    let x = iota(16);
    let col = im2col_array(&x, (1, 1, 4, 4), (2, 2), (1, 1), (0, 0), true, 0.0);
    let x_rec = fold(&col, &Col2Im::new((1, 1, 4, 4), (2, 2), (1, 1), (0, 0), true).fold_sources());
    assert_eq!(x_rec[0], x[0] * 1.0);
    assert_eq!(x_rec[1], x[1] * 2.0);
    assert_eq!(x_rec[5], x[5] * 4.0);
}

#[test]
fn six_axis_layout_orders_window_positions_innermost() {
    // (n, c, kh, kw, oh, ow) for a 3 × 3 image and a 2 × 2 window moved by 1
    let x = iota(9);
    let col = im2col_array(&x, (1, 1, 3, 3), (2, 2), (1, 1), (0, 0), false, 0.0);
    assert_eq!(col, vec![0., 1., 3., 4., 1., 2., 4., 5., 3., 4., 6., 7., 4., 5., 7., 8.]);
    let sources = col2im_sources((1, 1, 3, 3), (2, 2), (1, 1), (0, 0), false);
    assert_eq!(sources[4], vec![3, 6, 9, 12]);
}

#[test]
fn fold_sources_follow_kernel_cells_and_skip_padding() {
    let sources = col2im_sources((1, 1, 2, 2), (2, 2), (1, 1), (1, 1), true);
    // pixel (0, 0) is seen by kernel cell (0, 0) of window (1, 1), (0, 1) of
    // window (1, 0), (1, 0) of window (0, 1) and (1, 1) of window (0, 0)
    assert_eq!(sources[0], vec![16, 13, 6, 3]);
    assert_eq!(sources.iter().map(|s| s.len()).sum::<usize>(), 16);
}

#[test]
fn disjoint_windows_send_each_pixel_at_most_one_entry() {
    let sources = col2im_sources((2, 3, 6, 6), (2, 2), (3, 3), (0, 0), true);
    assert!(sources.iter().all(|s| s.len() <= 1));
    assert!(sources.iter().any(|s| s.is_empty()));
}

#[test]
fn gradient_functions_round_trip() {
    let f = Im2Col::new((3, 2), (1, 2), (1, 0), false);
    let g = f.gradient_function((2, 3, 5, 6));
    assert_eq!(g.input_shape, (2, 3, 5, 6));
    assert_eq!((g.kernel_size, g.stride, g.pad, g.to_matrix), ((3, 2), (1, 2), (1, 0), false));
    let h = g.gradient_function();
    assert_eq!((h.kernel_size, h.stride, h.pad, h.to_matrix), (f.kernel_size, f.stride, f.pad, f.to_matrix));
}

#[test]
fn unfold_matches_free_function() {
    let x = iota(2 * 2 * 3 * 3);
    let f = Im2Col::new((2, 2), (1, 1), (0, 0), true);
    assert_eq!(f.unfold(&x, (2, 2, 3, 3), 0.0), im2col_array(&x, (2, 2, 3, 3), (2, 2), (1, 1), (0, 0), true, 0.0));
}

#[test]
fn pool_backward_columns_routes_to_maxima() {
    let dcol = pool_backward_columns(&vec![3, 0, 1, 2], &vec![1, 2, 3, 4], 2, 2, 4, 0);
    assert_eq!(dcol, vec![0, 0, 0, 1, 2, 0, 0, 0, 0, 3, 0, 0, 0, 0, 4, 0]);
}

#[test]
fn pooling_output_dims() {
    let pool = PoolingLayer::new(2, 2, 2, 0);
    assert_eq!(pool.output_dims((3, 4, 6, 7)), (3, 4, 3, 3));
    assert!(pool.x_shape.is_none() && pool.arg_max.is_none());
}

#[test]
fn convolution_by_unfolding_shapes() {
    let s = dezero::cnn::conv2d_simple_shapes((2, 3, 7, 7), (8, 3, 5, 5), (1, 1), (0, 0));
    assert_eq!(s.col, (2 * 3 * 3, 75));
    assert_eq!(s.w_flat, (75, 8));
    assert_eq!(s.product, (18, 8));
    assert_eq!(s.out, (2, 8, 3, 3));
}

#[test]
fn pooling_by_unfolding_reads_one_window_and_channel_per_row() {
    let s = dezero::pooling::pooling_simple_shapes((1, 2, 4, 4), (2, 2), (2, 2), (0, 0));
    assert_eq!(s.col, (4, 8));
    assert_eq!(s.rows, (8, 4));
    assert_eq!(s.maxima, (1, 2, 2, 2));
    assert_eq!(s.out, (1, 2, 2, 2));
    // the rows of the unfolded channels: window (0, 0) of channel 1 is row 1
    let x: Vec<u32> = (0..32).collect();
    let col = im2col_array(&x, (1, 2, 4, 4), (2, 2), (2, 2), (0, 0), true, 0);
    assert_eq!(&col[4..8], &[16, 17, 20, 21]);
    assert_eq!(&col[8..12], &[2, 3, 6, 7]);
}
