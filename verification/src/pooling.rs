use vstd::prelude::*;

use crate::arith::{lemma_compose_bound, lemma_split, lemma_unsplit};
use crate::cnn::{conv_output_size, geometry, spec_conv_output_size, ConvGeometry};

verus! {

/// Max pooling over `pool_h × pool_w` windows moved by `stride` over images
/// padded by `pad`. The layer keeps, from its last forward pass, the input
/// dimensions and, for every output cell in `(n, oh, ow, c)` order, the
/// position of the maximum inside its window.
pub struct PoolingLayer {
    pub pool_h: usize,
    pub pool_w: usize,
    pub stride: usize,
    pub pad: usize,
    pub x_shape: Option<(usize, usize, usize, usize)>,
    pub arg_max: Option<Vec<usize>>,
}

/// Entry `t` of the column gradient of a pooling layer: the column matrix
/// has one row per window position and, in each row, one block of
/// `pool_size` entries per channel; the block of window `row` and channel
/// `ch` holds the output gradient at the position of the window's maximum
/// and `zero` elsewhere.
pub open spec fn pool_grad_entry<T>(arg_max: Seq<usize>, dout: Seq<T>, c: int, pool_size: int, t: int, zero: T) -> T {
    let row = t / (c * pool_size);
    let rem = t % (c * pool_size);
    let ch = rem / pool_size;
    let k = rem % pool_size;
    if arg_max[row * c + ch] as int == k {
        dout[row * c + ch]
    } else {
        zero
    }
}

/// Spreads an output gradient over the `(rows, c·pool_size)` column matrix:
/// `dout` and `arg_max` list the output cells with the channel innermost
/// (cell `i` is window row `i / c`, channel `i % c`), and each gradient goes
/// to the entry of its window's maximum.
pub fn pool_backward_columns<T: Copy>(
    arg_max: &Vec<usize>,
    dout: &Vec<T>,
    rows: usize,
    c: usize,
    pool_size: usize,
    zero: T,
) -> (dcol: Vec<T>)
    requires
        arg_max@.len() == rows * c,
        dout@.len() == rows * c,
        forall|i: int| 0 <= i < arg_max@.len() ==> #[trigger] arg_max@[i] < pool_size,
        rows * (c * pool_size) <= usize::MAX,
    ensures
        dcol@.len() == rows * (c * pool_size),
        forall|t: int| 0 <= t < dcol@.len() ==> #[trigger] dcol@[t] == pool_grad_entry(arg_max@, dout@, c as int, pool_size as int, t, zero),
        forall|row: int, ch: int, k: int|
            0 <= row < rows && 0 <= ch < c && 0 <= k < pool_size ==> #[trigger] dcol@[row * (c * pool_size) + ch * pool_size + k]
                == if arg_max@[row * c + ch] as int == k {
                dout@[row * c + ch]
            } else {
                zero
            },
{
    let width: usize = if pool_size == 0 {
        0
    } else {
        assert(c <= c * pool_size) by (nonlinear_arith)
            requires
                pool_size >= 1,
                c >= 0,
        ;
        assert(c * pool_size <= rows * (c * pool_size) || rows == 0) by (nonlinear_arith)
            requires
                c * pool_size >= 0,
        ;
        if rows == 0 {
            0
        } else {
            c * pool_size
        }
    };
    let total: usize = if pool_size == 0 || rows == 0 {
        0
    } else {
        rows * width
    };
    assert(total == rows * (c * pool_size)) by (nonlinear_arith)
        requires
            pool_size == 0 || rows == 0 ==> total == 0,
            pool_size != 0 && rows != 0 ==> total == rows * width && width == c * pool_size,
    ;
    let cells = arg_max.len();
    let mut dcol: Vec<T> = Vec::new();
    let mut t: usize = 0;
    while t < total
        invariant
            cells == rows * c,
            forall|i: int| 0 <= i < arg_max@.len() ==> #[trigger] arg_max@[i] < pool_size,
            total == rows * (c * pool_size),
            total > 0 ==> width == c * pool_size,
            arg_max@.len() == rows * c,
            dout@.len() == rows * c,
            t <= total,
            dcol@.len() == t,
            forall|s: int| 0 <= s < t ==> #[trigger] dcol@[s] == pool_grad_entry(arg_max@, dout@, c as int, pool_size as int, s, zero),
        decreases total - t,
    {
        assert(c * pool_size > 0) by (nonlinear_arith)
            requires
                total == rows * (c * pool_size),
                total > 0,
                rows >= 0,
        ;
        assert(c > 0 && pool_size > 0) by (nonlinear_arith)
            requires
                c * pool_size > 0,
                c >= 0,
                pool_size >= 0,
        ;
        proof {
            lemma_split(t as int, rows as int, (c * pool_size) as int);
            lemma_split(t as int % (c * pool_size) as int, c as int, pool_size as int);
        }
        let row = t / width;
        let rem = t % width;
        let ch = rem / pool_size;
        let k = rem % pool_size;
        proof {
            lemma_compose_bound(row as int, ch as int, rows as int, c as int);
        }
        let i = row * c + ch;
        let v = if arg_max[i] == k {
            dout[i]
        } else {
            zero
        };
        dcol.push(v);
        t = t + 1;
    }
    proof {
        assert forall|row: int, ch: int, k: int|
            0 <= row < rows && 0 <= ch < c && 0 <= k < pool_size implies #[trigger] dcol@[row * (c * pool_size) + ch * pool_size + k]
                == if arg_max@[row * c + ch] as int == k {
                dout@[row * c + ch]
            } else {
                zero
            } by {
            let j = ch * pool_size + k;
            lemma_compose_bound(ch, k, c as int, pool_size as int);
            lemma_compose_bound(row, j, rows as int, (c * pool_size) as int);
            lemma_unsplit(row, j, (c * pool_size) as int);
            lemma_unsplit(ch, k, pool_size as int);
            assert(row * (c * pool_size) + ch * pool_size + k == row * (c * pool_size) + j);
        }
    }
    dcol
}

impl PoolingLayer {
    pub fn new(pool_h: usize, pool_w: usize, stride: usize, pad: usize) -> (l: PoolingLayer)
        ensures
            l.pool_h == pool_h,
            l.pool_w == pool_w,
            l.stride == stride,
            l.pad == pad,
            l.x_shape is None,
            l.arg_max is None,
    {
        PoolingLayer { pool_h, pool_w, stride, pad, x_shape: None, arg_max: None }
    }

    /// The `(n, c, oh, ow)` dimensions of the pooled output of an
    /// `(n, c, h, w)` batch.
    pub fn output_dims(&self, x_dims: (usize, usize, usize, usize)) -> (d: (usize, usize, usize, usize))
        requires
            geometry(x_dims, (self.pool_h, self.pool_w), (self.stride, self.stride), (self.pad, self.pad)).valid(),
        ensures
            d == (
                x_dims.0,
                x_dims.1,
                spec_conv_output_size(x_dims.2 as int, self.pool_h as int, self.stride as int, self.pad as int) as usize,
                spec_conv_output_size(x_dims.3 as int, self.pool_w as int, self.stride as int, self.pad as int) as usize,
            ),
    {
        let oh = conv_output_size(x_dims.2, self.pool_h, self.stride, self.pad);
        let ow = conv_output_size(x_dims.3, self.pool_w, self.stride, self.pad);
        (x_dims.0, x_dims.1, oh, ow)
    }

    /// Keeps what the backward pass needs from a forward pass over an input of
    /// dimensions `x_dims` whose window maxima sat at `arg_max`.
    pub fn remember(&mut self, x_dims: (usize, usize, usize, usize), arg_max: Vec<usize>)
        ensures
            final(self).pool_h == old(self).pool_h,
            final(self).pool_w == old(self).pool_w,
            final(self).stride == old(self).stride,
            final(self).pad == old(self).pad,
            final(self).x_shape == Some(x_dims),
            final(self).arg_max == Some(arg_max),
    {
        self.x_shape = Some(x_dims);
        self.arg_max = Some(arg_max);
    }

    /// The column gradient of the last forward pass for an output gradient
    /// `dout` of `(n, oh, ow, c)` cells (channel innermost), `oh × ow` taken
    /// from the gradient: each cell's gradient goes to the maximum of its
    /// window, every other entry is `zero`. Folding it back into the input
    /// image gives the input gradient.
    pub fn backward_columns<T: Copy>(&self, dout: &Vec<T>, oh: usize, ow: usize, zero: T) -> (dcol: Vec<T>)
        requires
            self.x_shape is Some,
            self.arg_max is Some,
            ({
                let (n, c, h, w) = self.x_shape->0;
                let am = self.arg_max->0@;
                &&& am.len() == n * oh * ow * c
                &&& dout@.len() == n * oh * ow * c
                &&& forall|i: int| 0 <= i < am.len() ==> #[trigger] am[i] < self.pool_h * self.pool_w
                &&& n * oh * ow <= usize::MAX
                &&& n * oh * ow * (c * (self.pool_h * self.pool_w)) <= usize::MAX
                &&& self.pool_h * self.pool_w <= usize::MAX
            }),
        ensures
            ({
                let (n, c, h, w) = self.x_shape->0;
                let ps = self.pool_h * self.pool_w;
                &&& dcol@.len() == n * oh * ow * (c * ps)
                &&& forall|t: int|
                    0 <= t < dcol@.len() ==> #[trigger] dcol@[t] == pool_grad_entry(self.arg_max->0@, dout@, c as int, ps, t, zero)
            }),
    {
        let (n, c, _h, _w) = self.x_shape.unwrap();
        let pool_size = self.pool_h * self.pool_w;
        let am = self.arg_max.as_ref().unwrap();
        let rows = if ow == 0 {
            assert(n * oh * ow == 0) by (nonlinear_arith)
                requires
                    ow == 0,
            ;
            0
        } else {
            assert(n * oh <= n * oh * ow) by (nonlinear_arith)
                requires
                    ow >= 1,
                    n >= 0,
                    oh >= 0,
            ;
            n * oh * ow
        };
        pool_backward_columns(am, dout, rows, c, pool_size, zero)
    }
}

/// In the column matrix (matrix layout), the `kh·kw` entries that one window
/// takes from one channel are contiguous: the entry of kernel cell
/// `(ky, kx)` of window `(b, oy, ox)` and channel `ch` sits in row
/// `((b·oh + oy)·ow + ox)·c + ch` of the same data read as rows of `kh·kw`.
/// Max pooling reads the windows of every channel this way, and its
/// gradient goes back to row `i / c`, channel `i % c` of the column matrix.
pub proof fn lemma_window_channel_rows(g: ConvGeometry, b: int, oy: int, ox: int, ch: int, ky: int, kx: int)
    requires
        g.in_window_range(b, oy, ox, ch, ky, kx),
    ensures
        ({
            let r = ((b * g.out_h() + oy) * g.out_w() + ox) * g.c + ch;
            &&& 0 <= ky * g.kw + kx < g.kh * g.kw
            &&& g.col_index(b, oy, ox, ch, ky, kx) == r * (g.kh * g.kw) + (ky * g.kw + kx)
        }),
{
    let r = ((b * g.out_h() + oy) * g.out_w() + ox) * g.c + ch;
    let kh = g.kh as int;
    let kw = g.kw as int;
    lemma_compose_bound(ky, kx, kh, kw);
    assert((r * kh + ky) * kw + kx == r * (kh * kw) + (ky * kw + kx)) by (nonlinear_arith);
}

/// Shapes along pooling by unfolding: the `(n·oh·ow, c·kh·kw)` column
/// matrix, read as `(n·oh·ow·c, kh·kw)` rows of one window and channel, the
/// `(n, oh, ow, c)` row maxima and the `(n, c, oh, ow)` output.
pub struct PoolingShapes {
    pub col: (usize, usize),
    pub rows: (usize, usize),
    pub maxima: (usize, usize, usize, usize),
    pub out: (usize, usize, usize, usize),
}

/// `a·b·c`, computed without an intermediate overflow.
fn mul3(a: usize, b: usize, c: usize) -> (r: usize)
    requires
        a * b * c <= usize::MAX,
    ensures
        r == a * b * c,
{
    if c == 0 {
        assert(a * b * c == 0) by (nonlinear_arith)
            requires
                c == 0,
        ;
        0
    } else {
        assert(a * b <= a * b * c) by (nonlinear_arith)
            requires
                c >= 1,
                a >= 0,
                b >= 0,
        ;
        a * b * c
    }
}

/// The shapes that pooling an `(n, c, h, w)` batch by unfolding goes through.
pub fn pooling_simple_shapes(
    x_shape: (usize, usize, usize, usize),
    kernel_size: (usize, usize),
    stride: (usize, usize),
    pad: (usize, usize),
) -> (s: PoolingShapes)
    requires
        geometry(x_shape, kernel_size, stride, pad).valid(),
        x_shape.0 * geometry(x_shape, kernel_size, stride, pad).out_h() * geometry(x_shape, kernel_size, stride, pad).out_w() <= usize::MAX,
        x_shape.0 * geometry(x_shape, kernel_size, stride, pad).out_h() * geometry(x_shape, kernel_size, stride, pad).out_w() * x_shape.1 <= usize::MAX,
        x_shape.1 * kernel_size.0 * kernel_size.1 <= usize::MAX,
        kernel_size.0 * kernel_size.1 <= usize::MAX,
    ensures
        ({
            let (n, c, h, w) = x_shape;
            let g = geometry(x_shape, kernel_size, stride, pad);
            let oh = g.out_h() as usize;
            let ow = g.out_w() as usize;
            &&& s.col == ((n * oh * ow) as usize, (c * kernel_size.0 * kernel_size.1) as usize)
            &&& s.rows == ((n * oh * ow * c) as usize, (kernel_size.0 * kernel_size.1) as usize)
            &&& s.maxima == (n, oh, ow, c)
            &&& s.out == (n, c, oh, ow)
            &&& s.col.0 * s.col.1 == s.rows.0 * s.rows.1
        }),
{
    let (n, c, h, w) = x_shape;
    let oh = conv_output_size(h, kernel_size.0, stride.0, pad.0);
    let ow = conv_output_size(w, kernel_size.1, stride.1, pad.1);
    let noo = mul3(n, oh, ow);
    let ckk = mul3(c, kernel_size.0, kernel_size.1);
    let kk = kernel_size.0 * kernel_size.1;
    let rows = noo * c;
    assert(noo * ckk == rows * kk) by (nonlinear_arith)
        requires
            noo == n * oh * ow,
            ckk == c * kernel_size.0 * kernel_size.1,
            rows == noo * c,
            kk == kernel_size.0 * kernel_size.1,
    ;
    PoolingShapes { col: (noo, ckk), rows: (rows, kk), maxima: (n, oh, ow, c), out: (n, c, oh, ow) }
}

} // verus!
