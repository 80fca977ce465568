//! What the host computes to launch the compute kernels of a GPU back end:
//! uniform blocks, buffer shapes and workgroup counts. The kernels and the
//! device code themselves are not part of this crate.

use vstd::prelude::*;

use crate::cnn::{conv_output_size, geometry, spec_conv_output_size};

verus! {

/// `⌈a / d⌉` for a positive `d`.
pub open spec fn ceil_div(a: int, d: int) -> int {
    (a + d - 1) / d
}

/// `ceil_div(a, d)` blocks of `d` items cover `a` items, and one block
/// fewer would not: it is the least such count.
pub proof fn lemma_ceil_div_covers(a: int, d: int)
    requires
        a >= 0,
        d > 0,
    ensures
        ceil_div(a, d) >= 0,
        ceil_div(a, d) * d >= a,
        (ceil_div(a, d) - 1) * d < a || ceil_div(a, d) == 0,
        a == 0 ==> ceil_div(a, d) == 0,
{
    let q = ceil_div(a, d);
    let r = (a + d - 1) % d;
    vstd::arithmetic::div_mod::lemma_fundamental_div_mod(a + d - 1, d);
    vstd::arithmetic::div_mod::lemma_mod_bound(a + d - 1, d);
    vstd::arithmetic::div_mod::lemma_div_pos_is_pos(a + d - 1, d);
    assert(q * d >= a && ((q - 1) * d < a || q == 0)) by (nonlinear_arith)
        requires
            a + d - 1 == d * q + r,
            0 <= r < d,
            q >= 0,
            a >= 0,
    ;
    if a == 0 {
        vstd::arithmetic::div_mod::lemma_fundamental_div_mod_converse(d - 1, d, 0, d - 1);
    }
}

/// `⌈a / d⌉`, the number of blocks of `d` that cover `a` items.
pub fn div_ceil(a: usize, d: usize) -> (r: usize)
    requires
        d > 0,
    ensures
        r == ceil_div(a as int, d as int),
{
    let q = a / d;
    let rem = a % d;
    proof {
        vstd::arithmetic::div_mod::lemma_fundamental_div_mod(a as int, d as int);
    }
    if rem == 0 {
        proof {
            vstd::arithmetic::div_mod::lemma_fundamental_div_mod_converse(
                a + d - 1,
                d as int,
                q as int,
                d - 1,
            );
        }
        q
    } else {
        assert(q + 1 <= usize::MAX) by (nonlinear_arith)
            requires
                a == d * q + rem,
                0 < rem < d,
                a <= usize::MAX,
        ;
        assert((q + 1) * d + (rem - 1) == a + d - 1) by (nonlinear_arith)
            requires
                a == d * q + rem,
        ;
        proof {
            vstd::arithmetic::div_mod::lemma_fundamental_div_mod_converse(
                a + d - 1,
                d as int,
                q + 1,
                rem - 1,
            );
        }
        q + 1
    }
}

/// `⌈a / d⌉` on 32-bit counts.
pub fn div_ceil_u32(a: u32, d: u32) -> (r: u32)
    requires
        d > 0,
    ensures
        r == ceil_div(a as int, d as int),
{
    let q = a / d;
    let rem = a % d;
    proof {
        vstd::arithmetic::div_mod::lemma_fundamental_div_mod(a as int, d as int);
    }
    if rem == 0 {
        proof {
            vstd::arithmetic::div_mod::lemma_fundamental_div_mod_converse(
                a + d - 1,
                d as int,
                q as int,
                d - 1,
            );
        }
        q
    } else {
        assert(q + 1 <= u32::MAX) by (nonlinear_arith)
            requires
                a == d * q + rem,
                0 < rem < d,
                a <= u32::MAX,
        ;
        assert((q + 1) * d + (rem - 1) == a + d - 1) by (nonlinear_arith)
            requires
                a == d * q + rem,
        ;
        proof {
            vstd::arithmetic::div_mod::lemma_fundamental_div_mod_converse(
                a + d - 1,
                d as int,
                q + 1,
                rem - 1,
            );
        }
        q + 1
    }
}

/// Workgroups of 64 invocations that cover `threads` invocations of a
/// one-dimensional kernel, as the 32-bit count the dispatch takes.
pub fn groups_1d(threads: usize) -> (g: u32)
    ensures
        g == ceil_div(threads as int, 64) as u32,
{
    let r = div_ceil(threads, 64);
    r as u32
}

/// The uniform block of the window kernels (unfolding, folding, pooling):
/// batch, channels, input height and width, output height and width, window
/// height and width, stride, padding, then two words of zero padding that
/// round the block up to 48 bytes. Each count is taken modulo 2³².
pub open spec fn window_params_of(
    n: usize,
    c: usize,
    h: usize,
    w: usize,
    oh: usize,
    ow: usize,
    kh: usize,
    kw: usize,
    stride: usize,
    pad: usize,
) -> Seq<u32> {
    seq![
        n as u32,
        c as u32,
        h as u32,
        w as u32,
        oh as u32,
        ow as u32,
        kh as u32,
        kw as u32,
        stride as u32,
        pad as u32,
        0u32,
        0u32,
    ]
}

/// Builds the uniform block of the window kernels.
pub fn window_params(
    n: usize,
    c: usize,
    h: usize,
    w: usize,
    oh: usize,
    ow: usize,
    kh: usize,
    kw: usize,
    stride: usize,
    pad: usize,
) -> (p: [u32; 12])
    ensures
        p@ == window_params_of(n, c, h, w, oh, ow, kh, kw, stride, pad),
{
    let p: [u32; 12] = [
        n as u32,
        c as u32,
        h as u32,
        w as u32,
        oh as u32,
        ow as u32,
        kh as u32,
        kw as u32,
        stride as u32,
        pad as u32,
        0,
        0,
    ];
    assert(p@ =~= window_params_of(n, c, h, w, oh, ow, kh, kw, stride, pad));
    p
}

/// The uniform block of the matrix-product kernels: `m`, `k`, `n` and a word
/// of padding, each count taken modulo 2³².
pub open spec fn matmul_dims_of(m: usize, k: usize, n: usize) -> Seq<u32> {
    seq![m as u32, k as u32, n as u32, 0u32]
}

fn matmul_dims(m: usize, k: usize, n: usize) -> (d: [u32; 4])
    ensures
        d@ == matmul_dims_of(m, k, n),
{
    let d: [u32; 4] = [m as u32, k as u32, n as u32, 0];
    assert(d@ =~= matmul_dims_of(m, k, n));
    d
}

/// The uniform block of the layout kernels between `(n·oh·ow, f)` matrices
/// and `(n, f, oh, ow)` images.
pub open spec fn layout_params_of(n: usize, f: usize, oh: usize, ow: usize) -> Seq<u32> {
    seq![n as u32, f as u32, oh as u32, ow as u32]
}

fn layout_params(n: usize, f: usize, oh: usize, ow: usize) -> (p: [u32; 4])
    ensures
        p@ == layout_params_of(n, f, oh, ow),
{
    let p: [u32; 4] = [n as u32, f as u32, oh as u32, ow as u32];
    assert(p@ =~= layout_params_of(n, f, oh, ow));
    p
}

/// Launch of the unfolding kernel over an `(n, c, h, w)` batch with an
/// `fh × fw` window: its uniform block, the `(n·oh·ow, c·fh·fw)` shape of the
/// column matrix, and a grid of 16 × 16 workgroups over its columns and rows.
pub fn im2col_launch(
    dims: (usize, usize, usize, usize),
    fh: usize,
    fw: usize,
    stride: usize,
    pad: usize,
) -> (r: ([u32; 12], (usize, usize), (u32, u32)))
    requires
        geometry(dims, (fh, fw), (stride, stride), (pad, pad)).valid(),
        dims.0 * spec_conv_output_size(dims.2 as int, fh as int, stride as int, pad as int)
            * spec_conv_output_size(dims.3 as int, fw as int, stride as int, pad as int) <= usize::MAX,
        dims.1 * fh * fw <= usize::MAX,
    ensures
        ({
            let (n, c, h, w) = dims;
            let oh = spec_conv_output_size(h as int, fh as int, stride as int, pad as int);
            let ow = spec_conv_output_size(w as int, fw as int, stride as int, pad as int);
            let rows = n * oh * ow;
            let cols = c * fh * fw;
            &&& r.0@ == window_params_of(n, c, h, w, oh as usize, ow as usize, fh, fw, stride, pad)
            &&& r.1 == (rows as usize, cols as usize)
            &&& r.2 == (ceil_div(cols, 16) as u32, ceil_div(rows, 16) as u32)
        }),
{
    let (n, c, h, w) = dims;
    let oh = conv_output_size(h, fh, stride, pad);
    let ow = conv_output_size(w, fw, stride, pad);
    let rows = product3(n, oh, ow);
    let cols = product3(c, fh, fw);
    let params = window_params(n, c, h, w, oh, ow, fh, fw, stride, pad);
    let gx = div_ceil(cols, 16);
    let gy = div_ceil(rows, 16);
    (params, (rows, cols), (gx as u32, gy as u32))
}

/// Launch of the folding kernel that turns `(n·oh·ow, c·fh·fw)` column
/// gradients into an `(n, c, h, w)` image gradient, one invocation per
/// pixel: its uniform block, the `(n, c·h·w)` shape of the image tensor and
/// the workgroup count.
pub fn col2im_launch(
    dcol_shape: (usize, usize),
    input_dims: (usize, usize, usize, usize),
    fh: usize,
    fw: usize,
    stride: usize,
    pad: usize,
) -> (r: ([u32; 12], (usize, usize), u32))
    requires
        geometry(input_dims, (fh, fw), (stride, stride), (pad, pad)).valid(),
        dcol_shape.0 == input_dims.0 * spec_conv_output_size(input_dims.2 as int, fh as int, stride as int, pad as int)
            * spec_conv_output_size(input_dims.3 as int, fw as int, stride as int, pad as int),
        dcol_shape.1 == input_dims.1 * fh * fw,
        input_dims.1 * input_dims.2 * input_dims.3 <= usize::MAX,
        input_dims.0 * input_dims.1 * input_dims.2 * input_dims.3 <= usize::MAX,
    ensures
        ({
            let (n, c, h, w) = input_dims;
            let oh = spec_conv_output_size(h as int, fh as int, stride as int, pad as int);
            let ow = spec_conv_output_size(w as int, fw as int, stride as int, pad as int);
            &&& r.0@ == window_params_of(n, c, h, w, oh as usize, ow as usize, fh, fw, stride, pad)
            &&& r.1 == (n, (c * h * w) as usize)
            &&& r.2 == ceil_div(n * c * h * w, 64) as u32
        }),
{
    let (n, c, h, w) = input_dims;
    let oh = conv_output_size(h, fh, stride, pad);
    let ow = conv_output_size(w, fw, stride, pad);
    let params = window_params(n, c, h, w, oh, ow, fh, fw, stride, pad);
    let (chw, total) = image_sizes(n, c, h, w);
    (params, (n, chw), groups_1d(total))
}

/// `a·b·c`, computed without an intermediate overflow.
fn product3(a: usize, b: usize, c: usize) -> (r: usize)
    requires
        a * b * c <= usize::MAX,
    ensures
        r == a * b * c,
{
    if c == 0 {
        assert(a * b * c == 0) by (nonlinear_arith)
            requires
                c == 0,
        ;
        0
    } else {
        assert(a * b <= a * b * c) by (nonlinear_arith)
            requires
                c >= 1,
                a >= 0,
                b >= 0,
        ;
        a * b * c
    }
}

/// `c·h·w` and `n·c·h·w`, the sizes of one image and of the batch.
fn image_sizes(n: usize, c: usize, h: usize, w: usize) -> (r: (usize, usize))
    requires
        c * h * w <= usize::MAX,
        n * c * h * w <= usize::MAX,
    ensures
        r.0 == c * h * w,
        r.1 == n * c * h * w,
{
    let chw = product3(c, h, w);
    assert(n * c * h * w == n * (c * h * w)) by (nonlinear_arith);
    (chw, n * chw)
}

/// Launch of the max-pooling kernel over an `(n, c, h, w)` batch with a
/// `ph × pw` window, one invocation per output cell: its uniform block, the
/// `(n, c, oh, ow)` output dimensions (channels are kept) and the workgroup
/// count.
pub fn pool_forward_launch(
    dims: (usize, usize, usize, usize),
    ph: usize,
    pw: usize,
    stride: usize,
    pad: usize,
) -> (r: ([u32; 12], (usize, usize, usize, usize), u32))
    requires
        geometry(dims, (ph, pw), (stride, stride), (pad, pad)).valid(),
        dims.0 * dims.1 * spec_conv_output_size(dims.2 as int, ph as int, stride as int, pad as int)
            * spec_conv_output_size(dims.3 as int, pw as int, stride as int, pad as int) <= usize::MAX,
    ensures
        ({
            let (n, c, h, w) = dims;
            let oh = spec_conv_output_size(h as int, ph as int, stride as int, pad as int);
            let ow = spec_conv_output_size(w as int, pw as int, stride as int, pad as int);
            &&& r.0@ == window_params_of(n, c, h, w, oh as usize, ow as usize, ph, pw, stride, pad)
            &&& r.1 == (n, c, oh as usize, ow as usize)
            &&& r.2 == ceil_div(n * c * oh * ow, 64) as u32
        }),
{
    let (n, c, h, w) = dims;
    let oh = conv_output_size(h, ph, stride, pad);
    let ow = conv_output_size(w, pw, stride, pad);
    let params = window_params(n, c, h, w, oh, ow, ph, pw, stride, pad);
    assert(n * c * oh * ow == n * c * (oh * ow)) by (nonlinear_arith);
    let total = if n == 0 || c == 0 {
        assert(n * c * (oh * ow) == 0) by (nonlinear_arith)
            requires
                n == 0 || c == 0,
        ;
        0
    } else {
        assert(oh * ow <= n * c * (oh * ow)) by (nonlinear_arith)
            requires
                n >= 1,
                c >= 1,
                oh >= 1,
                ow >= 1,
        ;
        assert(n * c <= n * c * (oh * ow)) by (nonlinear_arith)
            requires
                oh >= 1,
                ow >= 1,
        ;
        n * c * (oh * ow)
    };
    (params, (n, c, oh, ow), groups_1d(total))
}

/// Launch of the kernel that routes pooled gradients back to the window
/// maxima, one invocation per gradient cell: the uniform block built from
/// the `(n, c, oh, ow)` gradient and the `h × w` input, the `(n, c, h, w)`
/// dimensions of the input gradient and the workgroup count. Windows must
/// not overlap (`stride ≥ max(ph, pw)`): each input cell then receives from
/// at most one window and no two invocations write the same cell.
pub fn pool_backward_launch(
    dout_dims: (usize, usize, usize, usize),
    x_dims: (usize, usize, usize, usize),
    ph: usize,
    pw: usize,
    stride: usize,
    pad: usize,
) -> (r: ([u32; 12], (usize, usize, usize, usize), u32))
    requires
        stride >= ph,
        stride >= pw,
        dout_dims.0 * dout_dims.1 * dout_dims.2 * dout_dims.3 <= usize::MAX,
    ensures
        ({
            let (n, c, oh, ow) = dout_dims;
            let h = x_dims.2;
            let w = x_dims.3;
            &&& r.0@ == window_params_of(n, c, h, w, oh, ow, ph, pw, stride, pad)
            &&& r.1 == (n, c, h, w)
            &&& r.2 == ceil_div(n * c * oh * ow, 64) as u32
        }),
{
    let (n, c, oh, ow) = dout_dims;
    let h = x_dims.2;
    let w = x_dims.3;
    let params = window_params(n, c, h, w, oh, ow, ph, pw, stride, pad);
    let total = product4(n, c, oh, ow);
    (params, (n, c, h, w), groups_1d(total))
}

/// `a·b·c·d`, computed without an intermediate overflow.
fn product4(a: usize, b: usize, c: usize, d: usize) -> (r: usize)
    requires
        a * b * c * d <= usize::MAX,
    ensures
        r == a * b * c * d,
{
    if d == 0 {
        assert(a * b * c * d == 0) by (nonlinear_arith)
            requires
                d == 0,
        ;
        0
    } else {
        assert(a * b * c <= a * b * c * d) by (nonlinear_arith)
            requires
                d >= 1,
                a >= 0,
                b >= 0,
                c >= 0,
        ;
        let abc = product3(a, b, c);
        abc * d
    }
}

/// Launch of the product `(m, k)·(k, n)`: its uniform block, the `(m, n)`
/// output shape and a grid of 32 × 32 workgroups over output columns and
/// rows.
pub fn matmul_launch(a_shape: (usize, usize), b_shape: (usize, usize)) -> (r: ([u32; 4], (usize, usize), (u32, u32)))
    requires
        a_shape.1 == b_shape.0,
    ensures
        ({
            let (m, k) = a_shape;
            let n = b_shape.1;
            &&& r.0@ == matmul_dims_of(m, k, n)
            &&& r.1 == (m, n)
            &&& r.2 == (ceil_div(n as int, 32) as u32, ceil_div(m as int, 32) as u32)
        }),
{
    let (m, k) = a_shape;
    let n = b_shape.1;
    (matmul_dims(m, k, n), (m, n), (div_ceil(n, 32) as u32, div_ceil(m, 32) as u32))
}

/// Launch of the product `Aᵀ·B` of a `(k, m)` and a `(k, n)` matrix, reading
/// `A` transposed in place: uniform block `(m, k, n)`, output `(m, n)`, and a
/// grid of 4 × 4 tiles over output rows and columns.
pub fn matmul_tn_launch(a_shape: (usize, usize), b_shape: (usize, usize)) -> (r: ([u32; 4], (usize, usize), (u32, u32)))
    requires
        a_shape.0 == b_shape.0,
    ensures
        ({
            let (k, m) = a_shape;
            let n = b_shape.1;
            &&& r.0@ == matmul_dims_of(m, k, n)
            &&& r.1 == (m, n)
            &&& r.2 == (ceil_div(m as int, 4) as u32, ceil_div(n as int, 4) as u32)
        }),
{
    let (k, m) = a_shape;
    let n = b_shape.1;
    (matmul_dims(m, k, n), (m, n), (div_ceil(m, 4) as u32, div_ceil(n, 4) as u32))
}

/// Launch of the product `A·Bᵀ` of an `(m, k)` and an `(n, k)` matrix:
/// uniform block `(m, k, n)`, output `(m, n)`, and a grid of 16 × 16 blocks
/// counted on the 32-bit `n` and `m`.
pub fn matmul_nt_launch(a_shape: (usize, usize), b_shape: (usize, usize)) -> (r: ([u32; 4], (usize, usize), (u32, u32)))
    requires
        a_shape.1 == b_shape.1,
    ensures
        ({
            let (m, k) = a_shape;
            let n = b_shape.0;
            &&& r.0@ == matmul_dims_of(m, k, n)
            &&& r.1 == (m, n)
            &&& r.2 == (ceil_div((n as u32) as int, 16) as u32, ceil_div((m as u32) as int, 16) as u32)
        }),
{
    let (m, k) = a_shape;
    let n = b_shape.0;
    let grid_x = div_ceil_u32(n as u32, 16);
    let grid_y = div_ceil_u32(m as u32, 16);
    (matmul_dims(m, k, n), (m, n), (grid_x, grid_y))
}

/// Launch of the column sums of a `(rows, cols)` matrix: uniform block
/// `(rows, cols, 0, 0)`, a `(1, cols)` result and one workgroup per column.
pub fn column_sum_launch(shape: (usize, usize)) -> (r: ([u32; 4], (usize, usize), u32))
    ensures
        r.0@ == seq![shape.0 as u32, shape.1 as u32, 0u32, 0u32],
        r.1 == (1usize, shape.1),
        r.2 == shape.1 as u32,
{
    let (rows, cols) = shape;
    let d: [u32; 4] = [rows as u32, cols as u32, 0, 0];
    assert(d@ =~= seq![rows as u32, cols as u32, 0u32, 0u32]);
    (d, (1, cols), cols as u32)
}

/// Launch of the reordering of an `(n·oh·ow, f)` matrix, one row per output
/// position, into the `(n, f·oh·ow)` tensor of an `(n, f, oh, ow)` image, one
/// invocation per element.
pub fn nhwc_to_nchw_launch(src_shape: (usize, usize), dims: (usize, usize, usize, usize)) -> (r: ([u32; 4], (usize, usize), u32))
    requires
        src_shape.0 == dims.0 * dims.2 * dims.3,
        src_shape.1 == dims.1,
        dims.0 * dims.1 * dims.2 * dims.3 <= usize::MAX,
        dims.1 * dims.2 * dims.3 <= usize::MAX,
    ensures
        ({
            let (n, f, oh, ow) = dims;
            &&& r.0@ == layout_params_of(n, f, oh, ow)
            &&& r.1 == (n, (f * oh * ow) as usize)
            &&& r.2 == ceil_div(n * f * oh * ow, 64) as u32
        }),
{
    let (n, f, oh, ow) = dims;
    let (foo, total) = image_sizes(n, f, oh, ow);
    (layout_params(n, f, oh, ow), (n, foo), groups_1d(total))
}

/// Launch of the reordering of an `(n, f, oh, ow)` image into the
/// `(n·oh·ow, f)` matrix with one row per output position, one invocation per
/// element.
pub fn nchw_to_nhwc_launch(dims: (usize, usize, usize, usize)) -> (r: ([u32; 4], (usize, usize), u32))
    requires
        dims.0 * dims.1 * dims.2 * dims.3 <= usize::MAX,
        dims.0 * dims.2 * dims.3 <= usize::MAX,
    ensures
        ({
            let (n, f, oh, ow) = dims;
            &&& r.0@ == layout_params_of(n, f, oh, ow)
            &&& r.1 == ((n * oh * ow) as usize, f)
            &&& r.2 == ceil_div(n * f * oh * ow, 64) as u32
        }),
{
    let (n, f, oh, ow) = dims;
    let total = product4(n, f, oh, ow);
    let rows = product3(n, oh, ow);
    (layout_params(n, f, oh, ow), (rows, f), groups_1d(total))
}

/// Workgroups of an element-wise kernel over a `(rows, cols)` tensor.
pub fn elementwise_groups(shape: (usize, usize)) -> (g: u32)
    requires
        shape.0 * shape.1 <= usize::MAX,
    ensures
        g == ceil_div(shape.0 * shape.1, 64) as u32,
{
    groups_1d(shape.0 * shape.1)
}

/// Workgroups of the kernel that adds a `(1, cols)` bias to every row of a
/// `(rows, cols)` tensor.
pub fn bias_add_groups(x_shape: (usize, usize), bias_shape: (usize, usize)) -> (g: u32)
    requires
        bias_shape == (1usize, x_shape.1),
        x_shape.0 * x_shape.1 <= usize::MAX,
    ensures
        g == ceil_div(x_shape.0 * x_shape.1, 64) as u32,
{
    elementwise_groups(x_shape)
}

/// Workgroups of an element-wise kernel that combines two tensors of the
/// same shape (a gradient mask, a parameter update).
pub fn paired_groups(a_shape: (usize, usize), b_shape: (usize, usize)) -> (g: u32)
    requires
        a_shape == b_shape,
        a_shape.0 * a_shape.1 <= usize::MAX,
    ensures
        g == ceil_div(a_shape.0 * a_shape.1, 64) as u32,
{
    elementwise_groups(a_shape)
}

/// The `(n, c·h·w)` tensor shape that holds an `(n, c, h, w)` image.
pub fn image_tensor_shape(dims: (usize, usize, usize, usize)) -> (s: (usize, usize))
    requires
        dims.1 * dims.2 * dims.3 <= usize::MAX,
    ensures
        s == (dims.0, (dims.1 * dims.2 * dims.3) as usize),
{
    (dims.0, product3(dims.1, dims.2, dims.3))
}

/// Step counter and moment shapes of an Adam optimiser whose moments live
/// on the device.
pub struct AdamSteps {
    pub iter: i32,
    /// The shape the two moment buffers were made with, once they exist.
    pub moments: Option<(usize, usize)>,
}

impl AdamSteps {
    pub fn new() -> (a: AdamSteps)
        ensures
            a.iter == 0,
            a.moments is None,
    {
        AdamSteps { iter: 0, moments: None }
    }

    /// Advances to the next step of an update of a `(rows, cols)` parameter:
    /// returns the element count of the update and its workgroup count. The
    /// moment buffers are made on the first step, with that step's shape,
    /// and kept from then on.
    pub fn step(&mut self, shape: (usize, usize)) -> (r: (usize, u32))
        requires
            old(self).iter < i32::MAX,
            shape.0 * shape.1 <= usize::MAX,
        ensures
            final(self).iter == old(self).iter + 1,
            final(self).moments == (if old(self).moments is None {
                Some(shape)
            } else {
                old(self).moments
            }),
            r.0 == shape.0 * shape.1,
            r.1 == ceil_div(shape.0 * shape.1, 64) as u32,
    {
        self.iter = self.iter + 1;
        if self.moments.is_none() {
            self.moments = Some(shape);
        }
        let elements = shape.0 * shape.1;
        (elements, groups_1d(elements))
    }
}

/// The column matrix the unfolding kernel fills has exactly as many entries
/// as the one `im2col_array` builds for the same sweep, row for row and
/// column for column.
pub proof fn lemma_im2col_launch_matches_columns(dims: (usize, usize, usize, usize), fh: usize, fw: usize, stride: usize, pad: usize)
    ensures
        ({
            let g = geometry(dims, (fh, fw), (stride, stride), (pad, pad));
            let rows = dims.0 * spec_conv_output_size(dims.2 as int, fh as int, stride as int, pad as int)
                * spec_conv_output_size(dims.3 as int, fw as int, stride as int, pad as int);
            let cols = dims.1 * fh * fw;
            &&& rows == (g.n * g.out_h()) * g.out_w()
            &&& rows * cols == g.col_len()
        }),
{
    let g = geometry(dims, (fh, fw), (stride, stride), (pad, pad));
    let r = (g.n * g.out_h()) * g.out_w();
    let c = g.c as int;
    let kh = g.kh as int;
    let kw = g.kw as int;
    assert(r * (c * kh * kw) == (((r * c) * kh) * kw)) by (nonlinear_arith);
}

} // verus!
