use vstd::prelude::*;

use crate::arith::{lemma_compose_bound, lemma_split, lemma_unsplit};

verus! {

/// Output length of a window sweep: `(input + 2·pad − kernel) / stride + 1`.
pub open spec fn spec_conv_output_size(input: int, kernel: int, stride: int, pad: int) -> int {
    (input + 2 * pad - kernel) / stride + 1
}

/// A window sweep has one output per window position that fits: `n`
/// positions `stride` apart fit in the padded input, and one more would
/// stick out.
pub proof fn lemma_conv_output_size_counts_windows(input: int, kernel: int, stride: int, pad: int)
    requires
        stride > 0,
        0 <= kernel <= input + 2 * pad,
    ensures
        spec_conv_output_size(input, kernel, stride, pad) >= 1,
        (spec_conv_output_size(input, kernel, stride, pad) - 1) * stride + kernel <= input + 2 * pad,
        input + 2 * pad < spec_conv_output_size(input, kernel, stride, pad) * stride + kernel,
{
    let e = input + 2 * pad - kernel;
    let q = e / stride;
    let r = e % stride;
    vstd::arithmetic::div_mod::lemma_fundamental_div_mod(e, stride);
    vstd::arithmetic::div_mod::lemma_mod_bound(e, stride);
    vstd::arithmetic::div_mod::lemma_div_pos_is_pos(e, stride);
    assert(((q + 1) - 1) * stride + kernel <= input + 2 * pad && input + 2 * pad < (q + 1) * stride + kernel) by (nonlinear_arith)
        requires
            e == stride * q + r,
            0 <= r < stride,
            e == input + 2 * pad - kernel,
    ;
}

/// Output length of a window of `kernel` moved by `stride` over an input of
/// `input` cells padded by `pad` on each side.
pub fn conv_output_size(input: usize, kernel: usize, stride: usize, pad: usize) -> (r: usize)
    requires
        stride > 0,
        input + 2 * pad < usize::MAX,
        kernel <= input + 2 * pad,
    ensures
        r == spec_conv_output_size(input as int, kernel as int, stride as int, pad as int),
        1 <= r <= input + 2 * pad + 1,
{
    let span = input + 2 * pad - kernel;
    proof {
        vstd::arithmetic::div_mod::lemma_div_pos_is_pos(span as int, stride as int);
        vstd::arithmetic::div_mod::lemma_div_is_ordered_by_denominator(span as int, 1, stride as int);
    }
    span / stride + 1
}

/// Geometry of a window sweep over an `(n, c, h, w)` batch of images stored
/// in row-major (NCHW) order: kernel `kh × kw`, strides `sh`, `sw`, zero
/// padding `ph`, `pw`.
#[derive(Clone, Copy)]
pub struct ConvGeometry {
    pub n: usize,
    pub c: usize,
    pub h: usize,
    pub w: usize,
    pub kh: usize,
    pub kw: usize,
    pub sh: usize,
    pub sw: usize,
    pub ph: usize,
    pub pw: usize,
}

impl ConvGeometry {
    /// The sweep is defined: positive strides, the padded image fits in
    /// `usize` and is at least as large as the kernel.
    pub open spec fn valid(self) -> bool {
        &&& self.sh > 0
        &&& self.sw > 0
        &&& self.h + 2 * self.ph < usize::MAX
        &&& self.w + 2 * self.pw < usize::MAX
        &&& self.kh <= self.h + 2 * self.ph
        &&& self.kw <= self.w + 2 * self.pw
    }

    pub open spec fn out_h(self) -> int {
        spec_conv_output_size(self.h as int, self.kh as int, self.sh as int, self.ph as int)
    }

    pub open spec fn out_w(self) -> int {
        spec_conv_output_size(self.w as int, self.kw as int, self.sw as int, self.pw as int)
    }

    /// Number of pixels of the batch.
    pub open spec fn image_len(self) -> int {
        ((self.n * self.c) * self.h) * self.w
    }

    /// Number of entries of the column matrix: `n·oh·ow` rows of `c·kh·kw`.
    pub open spec fn col_len(self) -> int {
        ((((self.n * self.out_h()) * self.out_w()) * self.c) * self.kh) * self.kw
    }

    /// Flat index of pixel `(b, ch, y, x)`.
    pub open spec fn pixel_index(self, b: int, ch: int, y: int, x: int) -> int {
        ((b * self.c + ch) * self.h + y) * self.w + x
    }

    /// Flat index, in the column matrix, of the entry that window position
    /// `(oy, ox)` of image `b` takes from kernel cell `(ky, kx)` of channel
    /// `ch`: row `(b·oh + oy)·ow + ox`, column `(ch·kh + ky)·kw + kx`.
    pub open spec fn col_index(self, b: int, oy: int, ox: int, ch: int, ky: int, kx: int) -> int {
        ((((b * self.out_h() + oy) * self.out_w() + ox) * self.c + ch) * self.kh + ky) * self.kw + kx
    }

    /// Flat index of the same entry in the six-axis layout
    /// `(n, c, kh, kw, oh, ow)`.
    pub open spec fn col6_index(self, b: int, oy: int, ox: int, ch: int, ky: int, kx: int) -> int {
        ((((b * self.c + ch) * self.kh + ky) * self.kw + kx) * self.out_h() + oy) * self.out_w() + ox
    }

    /// All six window coordinates lie in range.
    pub open spec fn in_window_range(self, b: int, oy: int, ox: int, ch: int, ky: int, kx: int) -> bool {
        &&& 0 <= b < self.n
        &&& 0 <= oy < self.out_h()
        &&& 0 <= ox < self.out_w()
        &&& 0 <= ch < self.c
        &&& 0 <= ky < self.kh
        &&& 0 <= kx < self.kw
    }

    /// The pixel that kernel cell `(ky, kx)` sees at window position
    /// `(oy, ox)`, or `None` when it falls in the zero padding.
    pub open spec fn source(self, b: int, oy: int, ox: int, ch: int, ky: int, kx: int) -> Option<int> {
        let y = oy * self.sh + ky - self.ph;
        let x = ox * self.sw + kx - self.pw;
        if 0 <= y < self.h && 0 <= x < self.w {
            Some(self.pixel_index(b, ch, y, x))
        } else {
            None
        }
    }

    /// The window coordinates `(b, oy, ox, ch, ky, kx)` of flat column index
    /// `t` in the matrix layout (or, with `to_matrix` false, in the six-axis
    /// layout).
    pub open spec fn coords(self, t: int, to_matrix: bool) -> (int, int, int, int, int, int) {
        if to_matrix {
            let kx = t % self.kw as int;
            let t1 = t / self.kw as int;
            let ky = t1 % self.kh as int;
            let t2 = t1 / self.kh as int;
            let ch = t2 % self.c as int;
            let t3 = t2 / self.c as int;
            let ox = t3 % self.out_w();
            let t4 = t3 / self.out_w();
            let oy = t4 % self.out_h();
            let b = t4 / self.out_h();
            (b, oy, ox, ch, ky, kx)
        } else {
            let ox = t % self.out_w();
            let t1 = t / self.out_w();
            let oy = t1 % self.out_h();
            let t2 = t1 / self.out_h();
            let kx = t2 % self.kw as int;
            let t3 = t2 / self.kw as int;
            let ky = t3 % self.kh as int;
            let t4 = t3 / self.kh as int;
            let ch = t4 % self.c as int;
            let b = t4 / self.c as int;
            (b, oy, ox, ch, ky, kx)
        }
    }

    /// The pixel that column entry `t` is taken from, if any.
    pub open spec fn source_of_col(self, t: int, to_matrix: bool) -> Option<int> {
        let (b, oy, ox, ch, ky, kx) = self.coords(t, to_matrix);
        self.source(b, oy, ox, ch, ky, kx)
    }

    /// Flat index of window coordinates in the chosen layout.
    pub open spec fn layout_index(self, b: int, oy: int, ox: int, ch: int, ky: int, kx: int, to_matrix: bool) -> int {
        if to_matrix {
            self.col_index(b, oy, ox, ch, ky, kx)
        } else {
            self.col6_index(b, oy, ox, ch, ky, kx)
        }
    }
}

/// The geometry that a call with these shapes and parameters describes.
pub open spec fn geometry(
    input_shape: (usize, usize, usize, usize),
    kernel_size: (usize, usize),
    stride: (usize, usize),
    pad: (usize, usize),
) -> ConvGeometry {
    ConvGeometry {
        n: input_shape.0,
        c: input_shape.1,
        h: input_shape.2,
        w: input_shape.3,
        kh: kernel_size.0,
        kw: kernel_size.1,
        sh: stride.0,
        sw: stride.1,
        ph: pad.0,
        pw: pad.1,
    }
}

/// Window coordinates in range sit at a flat index below `col_len`, and
/// decomposing that index gives them back.
pub proof fn lemma_coords_round_trip(g: ConvGeometry, b: int, oy: int, ox: int, ch: int, ky: int, kx: int, to_matrix: bool)
    requires
        g.valid(),
        g.in_window_range(b, oy, ox, ch, ky, kx),
    ensures
        0 <= g.layout_index(b, oy, ox, ch, ky, kx, to_matrix) < g.col_len(),
        g.coords(g.layout_index(b, oy, ox, ch, ky, kx, to_matrix), to_matrix) == (b, oy, ox, ch, ky, kx),
{
    let oh = g.out_h();
    let ow = g.out_w();
    let n = g.n as int;
    let c = g.c as int;
    let kh = g.kh as int;
    let kw = g.kw as int;
    if to_matrix {
        let t4 = b * oh + oy;
        let t3 = t4 * ow + ox;
        let t2 = t3 * c + ch;
        let t1 = t2 * kh + ky;
        let t = t1 * kw + kx;
        lemma_compose_bound(b, oy, n, oh);
        lemma_compose_bound(t4, ox, n * oh, ow);
        lemma_compose_bound(t3, ch, (n * oh) * ow, c);
        lemma_compose_bound(t2, ky, ((n * oh) * ow) * c, kh);
        lemma_compose_bound(t1, kx, (((n * oh) * ow) * c) * kh, kw);
        lemma_unsplit(t1, kx, kw);
        lemma_unsplit(t2, ky, kh);
        lemma_unsplit(t3, ch, c);
        lemma_unsplit(t4, ox, ow);
        lemma_unsplit(b, oy, oh);
    } else {
        let t4 = b * c + ch;
        let t3 = t4 * kh + ky;
        let t2 = t3 * kw + kx;
        let t1 = t2 * oh + oy;
        let t = t1 * ow + ox;
        lemma_compose_bound(b, ch, n, c);
        lemma_compose_bound(t4, ky, n * c, kh);
        lemma_compose_bound(t3, kx, (n * c) * kh, kw);
        lemma_compose_bound(t2, oy, ((n * c) * kh) * kw, oh);
        lemma_compose_bound(t1, ox, (((n * c) * kh) * kw) * oh, ow);
        lemma_six_factor_reorder(n, oh, ow, c, kh, kw);
        lemma_unsplit(t1, ox, ow);
        lemma_unsplit(t2, oy, oh);
        lemma_unsplit(t3, kx, kw);
        lemma_unsplit(t4, ky, kh);
        lemma_unsplit(b, ch, c);
    }
}

proof fn lemma_six_factor_reorder(n: int, oh: int, ow: int, c: int, kh: int, kw: int)
    ensures
        ((((n * c) * kh) * kw) * oh) * ow == ((((n * oh) * ow) * c) * kh) * kw,
{
    let a = (n * c) * kh;
    assert(((a * kw) * oh) * ow == a * (kw * (oh * ow))) by (nonlinear_arith);
    assert(kw * (oh * ow) == (oh * ow) * kw) by (nonlinear_arith);
    assert(a * ((oh * ow) * kw) == ((n * c) * kh) * ((oh * ow) * kw));
    assert(((n * c) * kh) * ((oh * ow) * kw) == n * (c * kh * ((oh * ow) * kw))) by (nonlinear_arith);
    assert(c * kh * ((oh * ow) * kw) == (oh * ow) * (c * kh * kw)) by (nonlinear_arith);
    assert(n * ((oh * ow) * (c * kh * kw)) == (n * (oh * ow)) * (c * kh * kw)) by (nonlinear_arith);
    assert((n * (oh * ow)) == (n * oh) * ow) by (nonlinear_arith);
    assert(((n * oh) * ow) * (c * kh * kw) == ((((n * oh) * ow) * c) * kh) * kw) by (nonlinear_arith);
}

/// Every flat index below `col_len` decomposes into window coordinates in
/// range that compose back to it.
pub proof fn lemma_coords_in_range(g: ConvGeometry, t: int, to_matrix: bool)
    requires
        g.valid(),
        0 <= t < g.col_len(),
    ensures
        ({
            let (b, oy, ox, ch, ky, kx) = g.coords(t, to_matrix);
            g.in_window_range(b, oy, ox, ch, ky, kx) && g.layout_index(b, oy, ox, ch, ky, kx, to_matrix) == t
        }),
{
    let oh = g.out_h();
    let ow = g.out_w();
    let n = g.n as int;
    let c = g.c as int;
    let kh = g.kh as int;
    let kw = g.kw as int;
    assert(oh >= 1 && ow >= 1) by {
        vstd::arithmetic::div_mod::lemma_div_pos_is_pos((g.h + 2 * g.ph - g.kh) as int, g.sh as int);
        vstd::arithmetic::div_mod::lemma_div_pos_is_pos((g.w + 2 * g.pw - g.kw) as int, g.sw as int);
    }
    if to_matrix {
        assert(kw > 0 && kh > 0 && c > 0) by {
            if kw == 0 || kh == 0 || c == 0 {
                assert(g.col_len() == 0) by (nonlinear_arith)
                    requires
                        kw == 0 || kh == 0 || c == 0,
                        g.col_len() == ((((n * oh) * ow) * c) * kh) * kw,
                ;
            }
        }
        lemma_split(t, (((n * oh) * ow) * c) * kh, kw);
        let t1 = t / kw;
        lemma_split(t1, ((n * oh) * ow) * c, kh);
        let t2 = t1 / kh;
        lemma_split(t2, (n * oh) * ow, c);
        let t3 = t2 / c;
        lemma_split(t3, n * oh, ow);
        let t4 = t3 / ow;
        lemma_split(t4, n, oh);
    } else {
        assert(kw > 0 && kh > 0 && c > 0) by {
            if kw == 0 || kh == 0 || c == 0 {
                assert(g.col_len() == 0) by (nonlinear_arith)
                    requires
                        kw == 0 || kh == 0 || c == 0,
                        g.col_len() == ((((n * oh) * ow) * c) * kh) * kw,
                ;
            }
        }
        lemma_six_factor_reorder(n, oh, ow, c, kh, kw);
        lemma_split(t, (((n * c) * kh) * kw) * oh, ow);
        let t1 = t / ow;
        lemma_split(t1, ((n * c) * kh) * kw, oh);
        let t2 = t1 / oh;
        lemma_split(t2, (n * c) * kh, kw);
        let t3 = t2 / kw;
        lemma_split(t3, n * c, kh);
        let t4 = t3 / kh;
        lemma_split(t4, n, c);
    }
}

/// The product `((((a·b)·c)·d)·e)·f`, which the caller guarantees fits.
fn product6(a: usize, b: usize, c: usize, d: usize, e: usize, f: usize) -> (r: usize)
    requires
        ((((a * b) * c) * d) * e) * f <= usize::MAX,
    ensures
        r == ((((a * b) * c) * d) * e) * f,
{
    if a == 0 || b == 0 || c == 0 || d == 0 || e == 0 || f == 0 {
        assert(((((a * b) * c) * d) * e) * f == 0) by (nonlinear_arith)
            requires
                a == 0 || b == 0 || c == 0 || d == 0 || e == 0 || f == 0,
        ;
        0
    } else {
        proof {
            crate::arith::lemma_mul_ge(a * b * c * d * e, f as int);
            crate::arith::lemma_mul_ge(a * b * c * d, e as int);
            crate::arith::lemma_mul_ge(a * b * c, d as int);
            crate::arith::lemma_mul_ge(a * b, c as int);
            crate::arith::lemma_mul_ge(a as int, b as int);
        }
        a * b * c * d * e * f
    }
}

impl ConvGeometry {
    /// Output height `oh`.
    pub fn output_height(&self) -> (r: usize)
        requires
            self.valid(),
        ensures
            r == self.out_h(),
            r >= 1,
    {
        conv_output_size(self.h, self.kh, self.sh, self.ph)
    }

    /// Output width `ow`.
    pub fn output_width(&self) -> (r: usize)
        requires
            self.valid(),
        ensures
            r == self.out_w(),
            r >= 1,
    {
        conv_output_size(self.w, self.kw, self.sw, self.pw)
    }

    /// Number of entries of the column matrix.
    pub fn column_len(&self) -> (r: usize)
        requires
            self.valid(),
            self.col_len() <= usize::MAX,
        ensures
            r == self.col_len(),
    {
        let oh = self.output_height();
        let ow = self.output_width();
        product6(self.n, oh, ow, self.c, self.kh, self.kw)
    }

    /// The value that kernel cell `(ky, kx)` of channel `ch` sees at window
    /// position `(oy, ox)` of image `b`: the pixel under it, or `zero` in the
    /// padding.
    fn window_value<T: Copy>(&self, img: &Vec<T>, b: usize, oy: usize, ox: usize, ch: usize, ky: usize, kx: usize, zero: T) -> (v: T)
        requires
            self.valid(),
            img@.len() == self.image_len(),
            self.in_window_range(b as int, oy as int, ox as int, ch as int, ky as int, kx as int),
        ensures
            v == (match self.source(b as int, oy as int, ox as int, ch as int, ky as int, kx as int) {
                Some(p) => img@[p],
                None => zero,
            }),
    {
        let span_h: usize = self.h + 2 * self.ph - self.kh;
        let span_w: usize = self.w + 2 * self.pw - self.kw;
        proof {
            let oh = self.out_h();
            vstd::arithmetic::div_mod::lemma_fundamental_div_mod(span_h as int, self.sh as int);
            vstd::arithmetic::div_mod::lemma_fundamental_div_mod(span_w as int, self.sw as int);
            vstd::arithmetic::mul::lemma_mul_inequality(oy as int, oh - 1, self.sh as int);
            vstd::arithmetic::mul::lemma_mul_inequality(ox as int, self.out_w() - 1, self.sw as int);
            assert((oh - 1) * self.sh == self.sh * (span_h as int / self.sh as int)) by (nonlinear_arith)
                requires
                    oh - 1 == span_h as int / self.sh as int,
            ;
            assert((self.out_w() - 1) * self.sw == self.sw * (span_w as int / self.sw as int)) by (nonlinear_arith)
                requires
                    self.out_w() - 1 == span_w as int / self.sw as int,
            ;
            vstd::arithmetic::div_mod::lemma_mod_pos_bound(span_h as int, self.sh as int);
            vstd::arithmetic::div_mod::lemma_mod_pos_bound(span_w as int, self.sw as int);
        }
        let y = oy * self.sh + ky;
        let x = ox * self.sw + kx;
        if y >= self.ph && y - self.ph < self.h && x >= self.pw && x - self.pw < self.w {
            let iy = y - self.ph;
            let ix = x - self.pw;
            let len = img.len();
            proof {
                let nc = self.n * self.c;
                let nch = nc * self.h;
                lemma_compose_bound(b as int, ch as int, self.n as int, self.c as int);
                let v1 = b * self.c + ch;
                lemma_compose_bound(v1, iy as int, nc, self.h as int);
                let v2 = v1 * self.h + iy;
                lemma_compose_bound(v2, ix as int, nch, self.w as int);
                crate::arith::lemma_mul_ge(nc, self.h as int);
                crate::arith::lemma_mul_ge(nch, self.w as int);
                crate::arith::lemma_mul_ge(v1, self.h as int);
                crate::arith::lemma_mul_ge(v2, self.w as int);
                assert(b * self.c <= v1);
                assert(v1 * self.h <= v2);
                assert(v2 * self.w < self.image_len());
            }
            img[((b * self.c + ch) * self.h + iy) * self.w + ix]
        } else {
            zero
        }
    }
}

/// Unfolds an `(n, c, h, w)` batch into columns: every window position of a
/// `kernel_size` window moved by `stride` over the zero-padded images
/// becomes one row of the column matrix (`to_matrix`: shape
/// `(n·oh·ow, c·kh·kw)`, row `(b·oh + oy)·ow + ox`, column `(ch·kh + ky)·kw + kx`),
/// or, without `to_matrix`, the entries stand in the six-axis layout
/// `(n, c, kh, kw, oh, ow)`. Each entry is the pixel the kernel cell sees,
/// or `zero` in the padding. Convolution then becomes one matrix product.
pub fn im2col_array<T: Copy>(
    img: &Vec<T>,
    input_shape: (usize, usize, usize, usize),
    kernel_size: (usize, usize),
    stride: (usize, usize),
    pad: (usize, usize),
    to_matrix: bool,
    zero: T,
) -> (col: Vec<T>)
    requires
        geometry(input_shape, kernel_size, stride, pad).valid(),
        img@.len() == geometry(input_shape, kernel_size, stride, pad).image_len(),
        geometry(input_shape, kernel_size, stride, pad).col_len() <= usize::MAX,
    ensures
        col@.len() == geometry(input_shape, kernel_size, stride, pad).col_len(),
        forall|t: int|
            0 <= t < col@.len() ==> #[trigger] col@[t] == (match geometry(input_shape, kernel_size, stride, pad).source_of_col(t, to_matrix) {
                Some(p) => img@[p],
                None => zero,
            }),
        forall|b: int, oy: int, ox: int, ch: int, ky: int, kx: int|
            geometry(input_shape, kernel_size, stride, pad).in_window_range(b, oy, ox, ch, ky, kx) ==> #[trigger] col@[geometry(input_shape, kernel_size, stride, pad).layout_index(b, oy, ox, ch, ky, kx, to_matrix)]
                == (match geometry(input_shape, kernel_size, stride, pad).source(b, oy, ox, ch, ky, kx) {
                Some(p) => img@[p],
                None => zero,
            }),
{
    let g = ConvGeometry {
        n: input_shape.0,
        c: input_shape.1,
        h: input_shape.2,
        w: input_shape.3,
        kh: kernel_size.0,
        kw: kernel_size.1,
        sh: stride.0,
        sw: stride.1,
        ph: pad.0,
        pw: pad.1,
    };
    assert(g == geometry(input_shape, kernel_size, stride, pad));
    let oh = g.output_height();
    let ow = g.output_width();
    let total = g.column_len();
    let mut col: Vec<T> = Vec::new();
    let mut t: usize = 0;
    while t < total
        invariant
            g.valid(),
            img@.len() == g.image_len(),
            oh == g.out_h(),
            ow == g.out_w(),
            total == g.col_len(),
            t <= total,
            col@.len() == t,
            forall|s: int|
                0 <= s < t ==> #[trigger] col@[s] == (match g.source_of_col(s, to_matrix) {
                    Some(p) => img@[p],
                    None => zero,
                }),
        decreases total - t,
    {
        proof {
            lemma_coords_in_range(g, t as int, to_matrix);
        }
        let v = if to_matrix {
            let kx = t % g.kw;
            let t1 = t / g.kw;
            let ky = t1 % g.kh;
            let t2 = t1 / g.kh;
            let ch = t2 % g.c;
            let t3 = t2 / g.c;
            let ox = t3 % ow;
            let t4 = t3 / ow;
            let oy = t4 % oh;
            let b = t4 / oh;
            g.window_value(img, b, oy, ox, ch, ky, kx, zero)
        } else {
            let ox = t % ow;
            let t1 = t / ow;
            let oy = t1 % oh;
            let t2 = t1 / oh;
            let kx = t2 % g.kw;
            let t3 = t2 / g.kw;
            let ky = t3 % g.kh;
            let t4 = t3 / g.kh;
            let ch = t4 % g.c;
            let b = t4 / g.c;
            g.window_value(img, b, oy, ox, ch, ky, kx, zero)
        };
        col.push(v);
        t = t + 1;
    }
    proof {
        assert forall|b: int, oy: int, ox: int, ch: int, ky: int, kx: int|
            g.in_window_range(b, oy, ox, ch, ky, kx) implies #[trigger] col@[g.layout_index(b, oy, ox, ch, ky, kx, to_matrix)]
                == (match g.source(b, oy, ox, ch, ky, kx) {
                Some(p) => img@[p],
                None => zero,
            }) by {
            lemma_coords_round_trip(g, b, oy, ox, ch, ky, kx, to_matrix);
        }
    }
    col
}

impl ConvGeometry {
    /// The coordinates `(b, ch, y, x)` of flat pixel index `p`.
    pub open spec fn pixel_coords(self, p: int) -> (int, int, int, int) {
        let x = p % self.w as int;
        let p1 = p / self.w as int;
        let y = p1 % self.h as int;
        let p2 = p1 / self.h as int;
        let ch = p2 % self.c as int;
        let b = p2 / self.c as int;
        (b, ch, y, x)
    }

    /// The window coordinates `(b, oy, ox, ch, ky, kx)` of a column entry.
    pub open spec fn kernel_cell_of_col(self, t: int, to_matrix: bool) -> (int, int) {
        let (b, oy, ox, ch, ky, kx) = self.coords(t, to_matrix);
        (ky, kx)
    }
}

proof fn lemma_pixel_coords(g: ConvGeometry, p: int)
    requires
        0 <= p < g.image_len(),
    ensures
        ({
            let (b, ch, y, x) = g.pixel_coords(p);
            &&& 0 <= b < g.n
            &&& 0 <= ch < g.c
            &&& 0 <= y < g.h
            &&& 0 <= x < g.w
            &&& g.pixel_index(b, ch, y, x) == p
        }),
{
    let n = g.n as int;
    let c = g.c as int;
    let h = g.h as int;
    let w = g.w as int;
    assert(w > 0 && h > 0 && c > 0) by {
        if w == 0 || h == 0 || c == 0 {
            assert(((n * c) * h) * w == 0) by (nonlinear_arith)
                requires
                    w == 0 || h == 0 || c == 0,
            ;
        }
    }
    lemma_split(p, (n * c) * h, w);
    let p1 = p / w;
    lemma_split(p1, n * c, h);
    let p2 = p1 / h;
    lemma_split(p2, n, c);
}

proof fn lemma_pixel_unique(g: ConvGeometry, b: int, ch: int, y: int, x: int)
    requires
        0 <= b < g.n,
        0 <= ch < g.c,
        0 <= y < g.h,
        0 <= x < g.w,
    ensures
        g.pixel_coords(g.pixel_index(b, ch, y, x)) == (b, ch, y, x),
        0 <= g.pixel_index(b, ch, y, x) < g.image_len(),
{
    let n = g.n as int;
    let c = g.c as int;
    let h = g.h as int;
    let w = g.w as int;
    let v1 = b * c + ch;
    let v2 = v1 * h + y;
    lemma_compose_bound(b, ch, n, c);
    lemma_compose_bound(v1, y, n * c, h);
    lemma_compose_bound(v2, x, (n * c) * h, w);
    lemma_unsplit(v2, x, w);
    lemma_unsplit(v1, y, h);
    lemma_unsplit(b, ch, c);
}

impl ConvGeometry {
    /// Flat index of window coordinates in the chosen layout, computed.
    fn layout_index_exec(&self, b: usize, oy: usize, ox: usize, ch: usize, ky: usize, kx: usize, to_matrix: bool, oh: usize, ow: usize) -> (r: usize)
        requires
            self.valid(),
            oh == self.out_h(),
            ow == self.out_w(),
            self.col_len() <= usize::MAX,
            self.in_window_range(b as int, oy as int, ox as int, ch as int, ky as int, kx as int),
        ensures
            r == self.layout_index(b as int, oy as int, ox as int, ch as int, ky as int, kx as int, to_matrix),
    {
        proof {
            lemma_coords_round_trip(*self, b as int, oy as int, ox as int, ch as int, ky as int, kx as int, to_matrix);
        }
        if to_matrix {
            proof {
                let a1 = b * oh + oy;
                let a2 = a1 * ow + ox;
                let a3 = a2 * self.c + ch;
                let a4 = a3 * self.kh + ky;
                crate::arith::lemma_mul_ge(a4, self.kw as int);
                crate::arith::lemma_mul_ge(a3, self.kh as int);
                crate::arith::lemma_mul_ge(a2, self.c as int);
                crate::arith::lemma_mul_ge(a1, ow as int);
                crate::arith::lemma_mul_ge(b as int, oh as int);
            }
            ((((b * oh + oy) * ow + ox) * self.c + ch) * self.kh + ky) * self.kw + kx
        } else {
            proof {
                let a1 = b * self.c + ch;
                let a2 = a1 * self.kh + ky;
                let a3 = a2 * self.kw + kx;
                let a4 = a3 * oh + oy;
                crate::arith::lemma_mul_ge(a4, ow as int);
                crate::arith::lemma_mul_ge(a3, oh as int);
                crate::arith::lemma_mul_ge(a2, self.kw as int);
                crate::arith::lemma_mul_ge(a1, self.kh as int);
                crate::arith::lemma_mul_ge(b as int, self.c as int);
            }
            ((((b * self.c + ch) * self.kh + ky) * self.kw + kx) * oh + oy) * ow + ox
        }
    }
}

/// Kernel cell `(ky2, kx2)` comes before `(ky, kx)` in row-major order.
pub open spec fn cell_before(ky2: int, kx2: int, ky: int, kx: int) -> bool {
    ky2 < ky || (ky2 == ky && kx2 < kx)
}

/// Where the gradient of each pixel comes from when columns are folded back
/// into an image (the adjoint of `im2col_array`): for every pixel, the flat
/// indices of the column entries that were taken from it, in row-major order
/// of their kernel cells. Folding sums exactly these entries; entries taken
/// from the padding are dropped.
pub fn col2im_sources(
    input_shape: (usize, usize, usize, usize),
    kernel_size: (usize, usize),
    stride: (usize, usize),
    pad: (usize, usize),
    to_matrix: bool,
) -> (sources: Vec<Vec<usize>>)
    requires
        geometry(input_shape, kernel_size, stride, pad).valid(),
        geometry(input_shape, kernel_size, stride, pad).image_len() <= usize::MAX,
        geometry(input_shape, kernel_size, stride, pad).col_len() <= usize::MAX,
    ensures
        sources@.len() == geometry(input_shape, kernel_size, stride, pad).image_len(),
        forall|p: int| 0 <= p < sources@.len() ==> (#[trigger] sources@[p])@.no_duplicates(),
        forall|p: int, i: int|
            0 <= p < sources@.len() && 0 <= i < sources@[p]@.len() ==> {
                let t = #[trigger] sources@[p]@[i];
                &&& t < geometry(input_shape, kernel_size, stride, pad).col_len()
                &&& geometry(input_shape, kernel_size, stride, pad).source_of_col(t as int, to_matrix) == Some(p)
            },
        forall|p: int, t: int|
            0 <= p < sources@.len() && 0 <= t < geometry(input_shape, kernel_size, stride, pad).col_len()
                && #[trigger] geometry(input_shape, kernel_size, stride, pad).source_of_col(t, to_matrix) == Some(p)
                ==> #[trigger] sources@[p]@.contains(t as usize),
        forall|p: int, i: int, j: int|
            0 <= p < sources@.len() && 0 <= i < j < sources@[p]@.len() ==> {
                let (ky1, kx1) = geometry(input_shape, kernel_size, stride, pad).kernel_cell_of_col(#[trigger] sources@[p]@[i] as int, to_matrix);
                let (ky2, kx2) = geometry(input_shape, kernel_size, stride, pad).kernel_cell_of_col(#[trigger] sources@[p]@[j] as int, to_matrix);
                cell_before(ky1, kx1, ky2, kx2)
            },
{
    let g = ConvGeometry {
        n: input_shape.0,
        c: input_shape.1,
        h: input_shape.2,
        w: input_shape.3,
        kh: kernel_size.0,
        kw: kernel_size.1,
        sh: stride.0,
        sw: stride.1,
        ph: pad.0,
        pw: pad.1,
    };
    assert(g == geometry(input_shape, kernel_size, stride, pad));
    let oh = g.output_height();
    let ow = g.output_width();
    let total = product6(g.n, g.c, g.h, g.w, 1, 1);
    let mut sources: Vec<Vec<usize>> = Vec::new();
    let mut p: usize = 0;
    while p < total
        invariant
            g.valid(),
            oh == g.out_h(),
            ow == g.out_w(),
            total == g.image_len(),
            g.col_len() <= usize::MAX,
            p <= total,
            sources@.len() == p,
            forall|q: int| 0 <= q < p ==> (#[trigger] sources@[q])@.no_duplicates(),
            forall|q: int, i: int|
                0 <= q < p && 0 <= i < sources@[q]@.len() ==> {
                    let t = #[trigger] sources@[q]@[i];
                    &&& t < g.col_len()
                    &&& g.source_of_col(t as int, to_matrix) == Some(q)
                },
            forall|q: int, t: int|
                0 <= q < p && 0 <= t < g.col_len() && #[trigger] g.source_of_col(t, to_matrix) == Some(q)
                    ==> #[trigger] sources@[q]@.contains(t as usize),
            forall|q: int, i: int, j: int|
                0 <= q < p && 0 <= i < j < sources@[q]@.len() ==> {
                    let (ky1, kx1) = g.kernel_cell_of_col(#[trigger] sources@[q]@[i] as int, to_matrix);
                    let (ky2, kx2) = g.kernel_cell_of_col(#[trigger] sources@[q]@[j] as int, to_matrix);
                    cell_before(ky1, kx1, ky2, kx2)
                },
        decreases total - p,
    {
        proof {
            lemma_pixel_coords(g, p as int);
        }
        let ix = p % g.w;
        let p1 = p / g.w;
        let iy = p1 % g.h;
        let p2 = p1 / g.h;
        let ch = p2 % g.c;
        let b = p2 / g.c;
        let list = pixel_sources(&g, b, ch, iy, ix, to_matrix, oh, ow);
        proof {
            assert(g.pixel_index(b as int, ch as int, iy as int, ix as int) == p as int);
        }
        sources.push(list);
        p = p + 1;
    }
    sources
}

/// The column entries taken from pixel `(b, ch, iy, ix)`, in row-major order
/// of their kernel cells.
fn pixel_sources(g: &ConvGeometry, b: usize, ch: usize, iy: usize, ix: usize, to_matrix: bool, oh: usize, ow: usize) -> (list: Vec<usize>)
    requires
        g.valid(),
        oh == g.out_h(),
        ow == g.out_w(),
        g.col_len() <= usize::MAX,
        b < g.n,
        ch < g.c,
        iy < g.h,
        ix < g.w,
    ensures
        list@.no_duplicates(),
        forall|i: int|
            0 <= i < list@.len() ==> {
                let t = #[trigger] list@[i];
                &&& t < g.col_len()
                &&& g.source_of_col(t as int, to_matrix) == Some(g.pixel_index(b as int, ch as int, iy as int, ix as int))
            },
        forall|t: int|
            0 <= t < g.col_len() && #[trigger] g.source_of_col(t, to_matrix) == Some(g.pixel_index(b as int, ch as int, iy as int, ix as int))
                ==> list@.contains(t as usize),
        forall|i: int, j: int|
            0 <= i < j < list@.len() ==> {
                let (ky1, kx1) = g.kernel_cell_of_col(#[trigger] list@[i] as int, to_matrix);
                let (ky2, kx2) = g.kernel_cell_of_col(#[trigger] list@[j] as int, to_matrix);
                cell_before(ky1, kx1, ky2, kx2)
            },
{
    let ghost pix = g.pixel_index(b as int, ch as int, iy as int, ix as int);
    proof {
        lemma_pixel_unique(*g, b as int, ch as int, iy as int, ix as int);
    }
    let y = iy + g.ph;
    let x = ix + g.pw;
    let mut list: Vec<usize> = Vec::new();
    let mut ky: usize = 0;
    proof {
        assert forall|t: int|
            0 <= t < g.col_len() && #[trigger] g.source_of_col(t, to_matrix) == Some(pix)
                && g.kernel_cell_of_col(t, to_matrix).0 < 0 implies list@.contains(t as usize) by {
            lemma_coords_in_range(*g, t, to_matrix);
        }
    }
    while ky < g.kh
        invariant
            g.valid(),
            oh == g.out_h(),
            ow == g.out_w(),
            g.col_len() <= usize::MAX,
            b < g.n,
            ch < g.c,
            iy < g.h,
            ix < g.w,
            y == iy + g.ph,
            x == ix + g.pw,
            pix == g.pixel_index(b as int, ch as int, iy as int, ix as int),
            g.pixel_coords(pix) == (b as int, ch as int, iy as int, ix as int),
            ky <= g.kh,
            list@.no_duplicates(),
            forall|i: int|
                0 <= i < list@.len() ==> {
                    let t = #[trigger] list@[i];
                    &&& t < g.col_len()
                    &&& g.source_of_col(t as int, to_matrix) == Some(pix)
                    &&& g.kernel_cell_of_col(t as int, to_matrix).0 < ky
                },
            forall|t: int|
                0 <= t < g.col_len() && #[trigger] g.source_of_col(t, to_matrix) == Some(pix)
                    && g.kernel_cell_of_col(t, to_matrix).0 < ky ==> list@.contains(t as usize),
            forall|i: int, j: int|
                0 <= i < j < list@.len() ==> {
                    let (ky1, kx1) = g.kernel_cell_of_col(#[trigger] list@[i] as int, to_matrix);
                    let (ky2, kx2) = g.kernel_cell_of_col(#[trigger] list@[j] as int, to_matrix);
                    cell_before(ky1, kx1, ky2, kx2)
                },
        decreases g.kh - ky,
    {
        let mut kx: usize = 0;
        proof {
            assert forall|t: int|
                0 <= t < g.col_len() && #[trigger] g.source_of_col(t, to_matrix) == Some(pix)
                    && cell_before(g.kernel_cell_of_col(t, to_matrix).0, g.kernel_cell_of_col(t, to_matrix).1, ky as int, 0)
                    implies list@.contains(t as usize) by {
                lemma_coords_in_range(*g, t, to_matrix);
            }
        }
        while kx < g.kw
            invariant
                g.valid(),
                oh == g.out_h(),
                ow == g.out_w(),
                g.col_len() <= usize::MAX,
                b < g.n,
                ch < g.c,
                iy < g.h,
                ix < g.w,
                y == iy + g.ph,
                x == ix + g.pw,
                pix == g.pixel_index(b as int, ch as int, iy as int, ix as int),
                g.pixel_coords(pix) == (b as int, ch as int, iy as int, ix as int),
                ky < g.kh,
                kx <= g.kw,
                list@.no_duplicates(),
                forall|i: int|
                    0 <= i < list@.len() ==> {
                        let t = #[trigger] list@[i];
                        &&& t < g.col_len()
                        &&& g.source_of_col(t as int, to_matrix) == Some(pix)
                        &&& cell_before(g.kernel_cell_of_col(t as int, to_matrix).0, g.kernel_cell_of_col(t as int, to_matrix).1, ky as int, kx as int)
                    },
                forall|t: int|
                    0 <= t < g.col_len() && #[trigger] g.source_of_col(t, to_matrix) == Some(pix)
                        && cell_before(g.kernel_cell_of_col(t, to_matrix).0, g.kernel_cell_of_col(t, to_matrix).1, ky as int, kx as int)
                        ==> list@.contains(t as usize),
                forall|i: int, j: int|
                    0 <= i < j < list@.len() ==> {
                        let (ky1, kx1) = g.kernel_cell_of_col(#[trigger] list@[i] as int, to_matrix);
                        let (ky2, kx2) = g.kernel_cell_of_col(#[trigger] list@[j] as int, to_matrix);
                        cell_before(ky1, kx1, ky2, kx2)
                    },
            decreases g.kw - kx,
        {
            let ghost old_list = list@;
            if y >= ky && (y - ky) % g.sh == 0 && (y - ky) / g.sh < oh && x >= kx && (x - kx) % g.sw == 0 && (x - kx) / g.sw < ow {
                let oy = (y - ky) / g.sh;
                let ox = (x - kx) / g.sw;
                let t = g.layout_index_exec(b, oy, ox, ch, ky, kx, to_matrix, oh, ow);
                proof {
                    lemma_coords_round_trip(*g, b as int, oy as int, ox as int, ch as int, ky as int, kx as int, to_matrix);
                    vstd::arithmetic::div_mod::lemma_fundamental_div_mod((y - ky) as int, g.sh as int);
                    vstd::arithmetic::div_mod::lemma_fundamental_div_mod((x - kx) as int, g.sw as int);
                    assert(oy * g.sh == (y - ky)) by (nonlinear_arith)
                        requires
                            (y - ky) as int == g.sh * ((y - ky) as int / g.sh as int) + 0,
                            oy == (y - ky) as int / g.sh as int,
                    ;
                    assert(ox * g.sw == (x - kx)) by (nonlinear_arith)
                        requires
                            (x - kx) as int == g.sw * ((x - kx) as int / g.sw as int) + 0,
                            ox == (x - kx) as int / g.sw as int,
                    ;
                    assert(g.source_of_col(t as int, to_matrix) == Some(pix));
                    assert(!old_list.contains(t)) by {
                        if old_list.contains(t) {
                            let i = choose|i: int| 0 <= i < old_list.len() && old_list[i] == t;
                        }
                    }
                }
                list.push(t);
                proof {
                    assert forall|i: int, j: int|
                        0 <= i < j < list@.len() implies {
                            let (ky1, kx1) = g.kernel_cell_of_col(#[trigger] list@[i] as int, to_matrix);
                            let (ky2, kx2) = g.kernel_cell_of_col(#[trigger] list@[j] as int, to_matrix);
                            cell_before(ky1, kx1, ky2, kx2)
                        } by {
                        if j == list@.len() - 1 {
                            assert(list@[i] == old_list[i]);
                        } else {
                            assert(list@[i] == old_list[i]);
                            assert(list@[j] == old_list[j]);
                        }
                    }
                    assert(list@.no_duplicates()) by {
                        assert forall|i: int, j: int| 0 <= i < j < list@.len() implies list@[i] != list@[j] by {
                            if j == list@.len() - 1 {
                                assert(list@[i] == old_list[i]);
                                assert(old_list.contains(list@[i]));
                            } else {
                                assert(list@[i] == old_list[i]);
                                assert(list@[j] == old_list[j]);
                            }
                        }
                    }
                }
            }
            proof {
                assert forall|t: int|
                    0 <= t < g.col_len() && #[trigger] g.source_of_col(t, to_matrix) == Some(pix)
                        && cell_before(g.kernel_cell_of_col(t, to_matrix).0, g.kernel_cell_of_col(t, to_matrix).1, ky as int, kx as int + 1)
                        implies list@.contains(t as usize) by {
                    lemma_coords_in_range(*g, t, to_matrix);
                    let (b2, oy2, ox2, ch2, ky2, kx2) = g.coords(t, to_matrix);
                    if ky2 == ky && kx2 == kx {
                        let yy = oy2 * g.sh + ky2 - g.ph;
                        let xx = ox2 * g.sw + kx2 - g.pw;
                        lemma_pixel_unique(*g, b2, ch2, yy, xx);
                        assert(yy == iy && xx == ix);
                        assert((y - ky) as int == oy2 * g.sh);
                        vstd::arithmetic::div_mod::lemma_fundamental_div_mod_converse((y - ky) as int, g.sh as int, oy2, 0);
                        vstd::arithmetic::div_mod::lemma_fundamental_div_mod_converse((x - kx) as int, g.sw as int, ox2, 0);
                        assert(list@.last() == t);
                        assert(list@[list@.len() - 1] == t);
                    } else {
                        assert(old_list.contains(t as usize));
                        let i = choose|i: int| 0 <= i < old_list.len() && old_list[i] == t as usize;
                        assert(list@[i] == t as usize);
                    }
                }
                assert forall|i: int|
                    0 <= i < list@.len() implies {
                        let t = #[trigger] list@[i];
                        &&& t < g.col_len()
                        &&& g.source_of_col(t as int, to_matrix) == Some(pix)
                        &&& cell_before(g.kernel_cell_of_col(t as int, to_matrix).0, g.kernel_cell_of_col(t as int, to_matrix).1, ky as int, kx as int + 1)
                    } by {
                    if i < old_list.len() {
                        assert(list@[i] == old_list[i]);
                    }
                }
            }
            kx = kx + 1;
        }
        proof {
            assert forall|t: int|
                0 <= t < g.col_len() && #[trigger] g.source_of_col(t, to_matrix) == Some(pix)
                    && g.kernel_cell_of_col(t, to_matrix).0 < ky + 1 implies list@.contains(t as usize) by {
                lemma_coords_in_range(*g, t, to_matrix);
                assert(cell_before(g.kernel_cell_of_col(t, to_matrix).0, g.kernel_cell_of_col(t, to_matrix).1, ky as int, kx as int));
            }
            assert forall|i: int|
                0 <= i < list@.len() implies {
                    let t = #[trigger] list@[i];
                    &&& t < g.col_len()
                    &&& g.source_of_col(t as int, to_matrix) == Some(pix)
                    &&& g.kernel_cell_of_col(t as int, to_matrix).0 < ky + 1
                } by {
                let t = list@[i];
                lemma_coords_in_range(*g, t as int, to_matrix);
            }
        }
        ky = ky + 1;
    }
    proof {
        assert forall|t: int|
            0 <= t < g.col_len() && #[trigger] g.source_of_col(t, to_matrix) == Some(g.pixel_index(b as int, ch as int, iy as int, ix as int))
                implies list@.contains(t as usize) by {
            lemma_coords_in_range(*g, t, to_matrix);
        }
    }
    list
}

/// Windows tile the image exactly: the stride equals the kernel, there is no
/// padding and the kernel divides the image.
pub open spec fn exact_tiling(g: ConvGeometry) -> bool {
    &&& g.kh > 0
    &&& g.kw > 0
    &&& g.sh == g.kh
    &&& g.sw == g.kw
    &&& g.ph == 0
    &&& g.pw == 0
    &&& g.h % g.kh == 0
    &&& g.w % g.kw == 0
}

/// When windows tile the image exactly, folding the columns of an image back
/// gives the image itself: every pixel is the source of exactly one column
/// entry, and that entry holds the pixel.
pub proof fn lemma_col2im_inverts_im2col_on_tilings<T>(
    g: ConvGeometry,
    to_matrix: bool,
    img: Seq<T>,
    zero: T,
    col: Seq<T>,
    sources: Seq<Seq<usize>>,
)
    requires
        g.valid(),
        exact_tiling(g),
        img.len() == g.image_len(),
// what im2col_array gives
        col.len() == g.col_len(),
        forall|t: int|
            0 <= t < col.len() ==> #[trigger] col[t] == (match g.source_of_col(t, to_matrix) {
                Some(p) => img[p],
                None => zero,
            }),
// what col2im_sources gives
        sources.len() == g.image_len(),
        forall|p: int| 0 <= p < sources.len() ==> (#[trigger] sources[p]).no_duplicates(),
        forall|p: int, i: int|
            0 <= p < sources.len() && 0 <= i < sources[p].len() ==> {
                let t = #[trigger] sources[p][i];
                &&& t < g.col_len()
                &&& g.source_of_col(t as int, to_matrix) == Some(p)
            },
        forall|p: int, t: int|
            0 <= p < sources.len() && 0 <= t < g.col_len() && #[trigger] g.source_of_col(t, to_matrix) == Some(p)
                ==> #[trigger] sources[p].contains(t as usize),
    ensures
        forall|p: int|
            0 <= p < img.len() ==> (#[trigger] sources[p]).len() == 1 && col[sources[p][0] as int] == img[p],
{
    assert forall|p: int| 0 <= p < img.len() implies (#[trigger] sources[p]).len() == 1 && col[sources[p][0] as int] == img[p] by {
        lemma_pixel_coords(g, p);
        let (b, ch, iy, ix) = g.pixel_coords(p);
        let kh = g.kh as int;
        let kw = g.kw as int;
        let oy = iy / kh;
        let ky = iy % kh;
        let ox = ix / kw;
        let kx = ix % kw;
        vstd::arithmetic::div_mod::lemma_fundamental_div_mod(iy, kh);
        vstd::arithmetic::div_mod::lemma_fundamental_div_mod(ix, kw);
        vstd::arithmetic::div_mod::lemma_mod_pos_bound(iy, kh);
        vstd::arithmetic::div_mod::lemma_mod_pos_bound(ix, kw);
        vstd::arithmetic::div_mod::lemma_div_pos_is_pos(iy, kh);
        vstd::arithmetic::div_mod::lemma_div_pos_is_pos(ix, kw);
        // the window row and column that cover the pixel
        assert(g.out_h() == (g.h as int) / kh) by {
            vstd::arithmetic::div_mod::lemma_fundamental_div_mod(g.h as int, kh);
            let q = (g.h as int) / kh;
            assert(g.h as int == kh * q);
            assert(q >= 1) by (nonlinear_arith)
                requires
                    g.h as int == kh * q,
                    g.h >= kh,
                    kh > 0,
            ;
            assert(g.h as int - kh == (q - 1) * kh) by (nonlinear_arith)
                requires
                    g.h as int == kh * q,
            ;
            vstd::arithmetic::div_mod::lemma_fundamental_div_mod_converse(g.h as int - kh, kh, q - 1, 0);
        }
        assert(g.out_w() == (g.w as int) / kw) by {
            vstd::arithmetic::div_mod::lemma_fundamental_div_mod(g.w as int, kw);
            let q = (g.w as int) / kw;
            assert(g.w as int == kw * q);
            assert(q >= 1) by (nonlinear_arith)
                requires
                    g.w as int == kw * q,
                    g.w >= kw,
                    kw > 0,
            ;
            assert(g.w as int - kw == (q - 1) * kw) by (nonlinear_arith)
                requires
                    g.w as int == kw * q,
            ;
            vstd::arithmetic::div_mod::lemma_fundamental_div_mod_converse(g.w as int - kw, kw, q - 1, 0);
        }
        vstd::arithmetic::div_mod::lemma_div_is_ordered(iy, g.h as int - 1, kh);
        vstd::arithmetic::div_mod::lemma_div_is_ordered(ix, g.w as int - 1, kw);
        assert(oy < g.out_h()) by {
            vstd::arithmetic::div_mod::lemma_fundamental_div_mod(g.h as int, kh);
            assert((g.h as int - 1) / kh < (g.h as int) / kh) by {
                let q = (g.h as int) / kh;
                assert(g.h as int - 1 == (q - 1) * kh + (kh - 1)) by (nonlinear_arith)
                    requires
                        g.h as int == kh * q,
                ;
                vstd::arithmetic::div_mod::lemma_fundamental_div_mod_converse(g.h as int - 1, kh, q - 1, kh - 1);
            }
        }
        assert(ox < g.out_w()) by {
            vstd::arithmetic::div_mod::lemma_fundamental_div_mod(g.w as int, kw);
            assert((g.w as int - 1) / kw < (g.w as int) / kw) by {
                let q = (g.w as int) / kw;
                assert(g.w as int - 1 == (q - 1) * kw + (kw - 1)) by (nonlinear_arith)
                    requires
                        g.w as int == kw * q,
                ;
                vstd::arithmetic::div_mod::lemma_fundamental_div_mod_converse(g.w as int - 1, kw, q - 1, kw - 1);
            }
        }
        assert(oy * kh + ky == iy) by (nonlinear_arith)
            requires
                iy == kh * (iy / kh) + iy % kh,
                oy == iy / kh,
                ky == iy % kh,
        ;
        assert(ox * kw + kx == ix) by (nonlinear_arith)
            requires
                ix == kw * (ix / kw) + ix % kw,
                ox == ix / kw,
                kx == ix % kw,
        ;
        let t = g.layout_index(b, oy, ox, ch, ky, kx, to_matrix);
        lemma_coords_round_trip(g, b, oy, ox, ch, ky, kx, to_matrix);
        assert(g.source_of_col(t, to_matrix) == Some(p));
        assert(sources[p].contains(t as usize));
        // every source entry of the pixel is that same entry
        assert forall|i: int| 0 <= i < sources[p].len() implies sources[p][i] == t as usize by {
            let t2 = sources[p][i] as int;
            lemma_coords_in_range(g, t2, to_matrix);
            let (b2, oy2, ox2, ch2, ky2, kx2) = g.coords(t2, to_matrix);
            let yy = oy2 * kh + ky2;
            let xx = ox2 * kw + kx2;
            assert(g.source_of_col(t2, to_matrix) == Some(p));
            lemma_pixel_unique(g, b2, ch2, yy, xx);
            vstd::arithmetic::div_mod::lemma_fundamental_div_mod_converse(iy, kh, oy2, ky2);
            vstd::arithmetic::div_mod::lemma_fundamental_div_mod_converse(ix, kw, ox2, kx2);
        }
        let s = sources[p];
        if s.len() > 1 {
            assert(s[0] == t as usize);
            assert(s[1] == t as usize);
        }
        let k = choose|k: int| 0 <= k < s.len() && s[k] == t as usize;
        assert(s[0] == t as usize);
    }
}


/// Unfolds an `(n, c, h, w)` batch into the `(n·oh·ow, c·fh·fw)` column
/// matrix of an `fh × fw` window moved by the same `stride` along both axes
/// over the images padded by `pad` on every side.
pub fn im2col<T: Copy>(
    x: &Vec<T>,
    dims: (usize, usize, usize, usize),
    fh: usize,
    fw: usize,
    stride: usize,
    pad: usize,
    zero: T,
) -> (col: Vec<T>)
    requires
        geometry(dims, (fh, fw), (stride, stride), (pad, pad)).valid(),
        x@.len() == geometry(dims, (fh, fw), (stride, stride), (pad, pad)).image_len(),
        geometry(dims, (fh, fw), (stride, stride), (pad, pad)).col_len() <= usize::MAX,
    ensures
        col@.len() == geometry(dims, (fh, fw), (stride, stride), (pad, pad)).col_len(),
        forall|t: int|
            0 <= t < col@.len() ==> #[trigger] col@[t] == (match geometry(dims, (fh, fw), (stride, stride), (pad, pad)).source_of_col(t, true) {
                Some(p) => x@[p],
                None => zero,
            }),
{
    im2col_array(x, dims, (fh, fw), (stride, stride), (pad, pad), true, zero)
}

/// The unfolding of images into columns, as a differentiable function.
pub struct Im2Col {
    pub kernel_size: (usize, usize),
    pub stride: (usize, usize),
    pub pad: (usize, usize),
    pub to_matrix: bool,
}

/// The folding of columns back into images of shape `input_shape`, the
/// adjoint of `Im2Col`.
pub struct Col2Im {
    pub input_shape: (usize, usize, usize, usize),
    pub kernel_size: (usize, usize),
    pub stride: (usize, usize),
    pub pad: (usize, usize),
    pub to_matrix: bool,
}

impl Im2Col {
    pub fn new(kernel_size: (usize, usize), stride: (usize, usize), pad: (usize, usize), to_matrix: bool) -> (f: Im2Col)
        ensures
            f.kernel_size == kernel_size,
            f.stride == stride,
            f.pad == pad,
            f.to_matrix == to_matrix,
    {
        Im2Col { kernel_size, stride, pad, to_matrix }
    }

    /// The columns of `img`, a batch of shape `input_shape`.
    pub fn unfold<T: Copy>(&self, img: &Vec<T>, input_shape: (usize, usize, usize, usize), zero: T) -> (col: Vec<T>)
        requires
            geometry(input_shape, self.kernel_size, self.stride, self.pad).valid(),
            img@.len() == geometry(input_shape, self.kernel_size, self.stride, self.pad).image_len(),
            geometry(input_shape, self.kernel_size, self.stride, self.pad).col_len() <= usize::MAX,
        ensures
            col@.len() == geometry(input_shape, self.kernel_size, self.stride, self.pad).col_len(),
            forall|t: int|
                0 <= t < col@.len() ==> #[trigger] col@[t] == (match geometry(input_shape, self.kernel_size, self.stride, self.pad).source_of_col(t, self.to_matrix) {
                    Some(p) => img@[p],
                    None => zero,
                }),
    {
        im2col_array(img, input_shape, self.kernel_size, self.stride, self.pad, self.to_matrix, zero)
    }

    /// The function that carries the gradient of the columns back to an
    /// input of shape `input_shape`: the folding with the same parameters.
    pub fn gradient_function(&self, input_shape: (usize, usize, usize, usize)) -> (g: Col2Im)
        ensures
            g.input_shape == input_shape,
            g.kernel_size == self.kernel_size,
            g.stride == self.stride,
            g.pad == self.pad,
            g.to_matrix == self.to_matrix,
    {
        Col2Im::new(input_shape, self.kernel_size, self.stride, self.pad, self.to_matrix)
    }
}

impl Col2Im {
    pub fn new(
        input_shape: (usize, usize, usize, usize),
        kernel_size: (usize, usize),
        stride: (usize, usize),
        pad: (usize, usize),
        to_matrix: bool,
    ) -> (f: Col2Im)
        ensures
            f.input_shape == input_shape,
            f.kernel_size == kernel_size,
            f.stride == stride,
            f.pad == pad,
            f.to_matrix == to_matrix,
    {
        Col2Im { input_shape, kernel_size, stride, pad, to_matrix }
    }

    /// For every pixel of the output image, the column entries that are
    /// summed into it.
    pub fn fold_sources(&self) -> (sources: Vec<Vec<usize>>)
        requires
            geometry(self.input_shape, self.kernel_size, self.stride, self.pad).valid(),
            geometry(self.input_shape, self.kernel_size, self.stride, self.pad).image_len() <= usize::MAX,
            geometry(self.input_shape, self.kernel_size, self.stride, self.pad).col_len() <= usize::MAX,
        ensures
            sources@.len() == geometry(self.input_shape, self.kernel_size, self.stride, self.pad).image_len(),
            forall|p: int| 0 <= p < sources@.len() ==> (#[trigger] sources@[p])@.no_duplicates(),
            forall|p: int, i: int|
                0 <= p < sources@.len() && 0 <= i < sources@[p]@.len() ==> {
                    let t = #[trigger] sources@[p]@[i];
                    &&& t < geometry(self.input_shape, self.kernel_size, self.stride, self.pad).col_len()
                    &&& geometry(self.input_shape, self.kernel_size, self.stride, self.pad).source_of_col(t as int, self.to_matrix) == Some(p)
                },
            forall|p: int, t: int|
                0 <= p < sources@.len() && 0 <= t < geometry(self.input_shape, self.kernel_size, self.stride, self.pad).col_len()
                    && #[trigger] geometry(self.input_shape, self.kernel_size, self.stride, self.pad).source_of_col(t, self.to_matrix) == Some(p)
                    ==> #[trigger] sources@[p]@.contains(t as usize),
    {
        col2im_sources(self.input_shape, self.kernel_size, self.stride, self.pad, self.to_matrix)
    }

    /// The function that carries the gradient of the image back to the
    /// columns: the unfolding with the same parameters.
    pub fn gradient_function(&self) -> (g: Im2Col)
        ensures
            g.kernel_size == self.kernel_size,
            g.stride == self.stride,
            g.pad == self.pad,
            g.to_matrix == self.to_matrix,
    {
        Im2Col::new(self.kernel_size, self.stride, self.pad, self.to_matrix)
    }
}

/// Taking the gradient function twice comes back to the unfolding one
/// started from: the unfolding and the folding are each other's adjoint.
pub proof fn lemma_gradient_of_gradient(f: Im2Col, input_shape: (usize, usize, usize, usize), g: Col2Im, h: Im2Col)
    requires
        g.input_shape == input_shape,
        g.kernel_size == f.kernel_size,
        g.stride == f.stride,
        g.pad == f.pad,
        g.to_matrix == f.to_matrix,
        h.kernel_size == g.kernel_size,
        h.stride == g.stride,
        h.pad == g.pad,
        h.to_matrix == g.to_matrix,
    ensures
        h == f,
{
}

/// Windows that do not overlap (each stride at least the kernel along its
/// axis) see every pixel at most once: two column entries taken from the
/// same pixel are the same entry.
pub proof fn lemma_disjoint_windows_single_source(g: ConvGeometry, to_matrix: bool, t1: int, t2: int, p: int)
    requires
        g.valid(),
        g.sh >= g.kh,
        g.sw >= g.kw,
        0 <= t1 < g.col_len(),
        0 <= t2 < g.col_len(),
        g.source_of_col(t1, to_matrix) == Some(p),
        g.source_of_col(t2, to_matrix) == Some(p),
    ensures
        t1 == t2,
{
    lemma_coords_in_range(g, t1, to_matrix);
    lemma_coords_in_range(g, t2, to_matrix);
    let (b1, oy1, ox1, ch1, ky1, kx1) = g.coords(t1, to_matrix);
    let (b2, oy2, ox2, ch2, ky2, kx2) = g.coords(t2, to_matrix);
    let y1 = oy1 * g.sh + ky1 - g.ph;
    let x1 = ox1 * g.sw + kx1 - g.pw;
    let y2 = oy2 * g.sh + ky2 - g.ph;
    let x2 = ox2 * g.sw + kx2 - g.pw;
    lemma_pixel_unique(g, b1, ch1, y1, x1);
    lemma_pixel_unique(g, b2, ch2, y2, x2);
    assert(g.pixel_index(b1, ch1, y1, x1) == p);
    assert(g.pixel_index(b2, ch2, y2, x2) == p);
    assert((b1, ch1, y1, x1) == (b2, ch2, y2, x2));
    lemma_unsplit(oy1, ky1, g.sh as int);
    lemma_unsplit(oy2, ky2, g.sh as int);
    lemma_unsplit(ox1, kx1, g.sw as int);
    lemma_unsplit(ox2, kx2, g.sw as int);
}

/// With non-overlapping windows, folding sends to every pixel at most one
/// column entry.
pub proof fn lemma_disjoint_windows_fold_at_most_one(g: ConvGeometry, to_matrix: bool, sources: Seq<Seq<usize>>, p: int)
    requires
        g.valid(),
        g.sh >= g.kh,
        g.sw >= g.kw,
        0 <= p < sources.len(),
// what col2im_sources gives
        forall|q: int| 0 <= q < sources.len() ==> (#[trigger] sources[q]).no_duplicates(),
        forall|q: int, i: int|
            0 <= q < sources.len() && 0 <= i < sources[q].len() ==> {
                let t = #[trigger] sources[q][i];
                &&& t < g.col_len()
                &&& g.source_of_col(t as int, to_matrix) == Some(q)
            },
    ensures
        sources[p].len() <= 1,
{
    if sources[p].len() > 1 {
        let t1 = sources[p][0];
        let t2 = sources[p][1];
        lemma_disjoint_windows_single_source(g, to_matrix, t1 as int, t2 as int, p);
        assert(false);
    }
}

/// Folding the columns of an image sees only copies of each pixel: every
/// column entry that folding sends to a pixel holds that pixel's value, so
/// the fold of the unfolding gives every pixel times the number of windows
/// that see it.
pub proof fn lemma_fold_of_unfold_repeats_pixels<T>(
    g: ConvGeometry,
    to_matrix: bool,
    img: Seq<T>,
    zero: T,
    col: Seq<T>,
    sources: Seq<Seq<usize>>,
)
    requires
        g.valid(),
// what im2col_array gives
        col.len() == g.col_len(),
        forall|t: int|
            0 <= t < col.len() ==> #[trigger] col[t] == (match g.source_of_col(t, to_matrix) {
                Some(p) => img[p],
                None => zero,
            }),
// what col2im_sources gives
        forall|p: int, i: int|
            0 <= p < sources.len() && 0 <= i < sources[p].len() ==> {
                let t = #[trigger] sources[p][i];
                &&& t < g.col_len()
                &&& g.source_of_col(t as int, to_matrix) == Some(p)
            },
    ensures
        forall|p: int, i: int| 0 <= p < sources.len() && 0 <= i < sources[p].len() ==> col[#[trigger] sources[p][i] as int] == img[p],
{
    assert forall|p: int, i: int| 0 <= p < sources.len() && 0 <= i < sources[p].len() implies col[#[trigger] sources[p][i] as int] == img[p] by {
        let t = sources[p][i];
        assert(col[t as int] == (match g.source_of_col(t as int, to_matrix) {
            Some(q) => img[q],
            None => zero,
        }));
    }
}

/// Shapes along convolution by unfolding: the `(n·oh·ow, c·kh·kw)` column
/// matrix, the filters flattened and transposed to `(c·kh·kw, oc)`, their
/// `(n·oh·ow, oc)` product, and the `(n, oc, oh, ow)` output.
pub struct Conv2dShapes {
    pub col: (usize, usize),
    pub w_flat: (usize, usize),
    pub product: (usize, usize),
    pub out: (usize, usize, usize, usize),
}

/// `a·b·c`, computed without an intermediate overflow.
fn mul3(a: usize, b: usize, c: usize) -> (r: usize)
    requires
        a * b * c <= usize::MAX,
    ensures
        r == a * b * c,
{
    if c == 0 {
        assert(a * b * c == 0) by (nonlinear_arith)
            requires
                c == 0,
        ;
        0
    } else {
        assert(a * b <= a * b * c) by (nonlinear_arith)
            requires
                c >= 1,
                a >= 0,
                b >= 0,
        ;
        a * b * c
    }
}

/// The shapes that convolving an `(n, c, h, w)` batch with `(oc, c, kh, kw)`
/// filters by unfolding goes through.
pub fn conv2d_simple_shapes(
    x_shape: (usize, usize, usize, usize),
    w_shape: (usize, usize, usize, usize),
    stride: (usize, usize),
    pad: (usize, usize),
) -> (s: Conv2dShapes)
    requires
        geometry(x_shape, (w_shape.2, w_shape.3), stride, pad).valid(),
        x_shape.1 * w_shape.2 * w_shape.3 == w_shape.1 * w_shape.2 * w_shape.3,
        x_shape.0 * geometry(x_shape, (w_shape.2, w_shape.3), stride, pad).out_h() * geometry(x_shape, (w_shape.2, w_shape.3), stride, pad).out_w() <= usize::MAX,
        x_shape.1 * w_shape.2 * w_shape.3 <= usize::MAX,
    ensures
        ({
            let g = geometry(x_shape, (w_shape.2, w_shape.3), stride, pad);
            let rows = (x_shape.0 * g.out_h() * g.out_w()) as usize;
            let inner = (x_shape.1 * w_shape.2 * w_shape.3) as usize;
            &&& s.col == (rows, inner)
            &&& s.w_flat == (inner, w_shape.0)
            &&& s.product == (rows, w_shape.0)
            &&& s.out == (x_shape.0, w_shape.0, g.out_h() as usize, g.out_w() as usize)
        }),
{
    let (n, _c, h, w) = x_shape;
    let (oc, _c2, kh, kw) = w_shape;
    let oh = conv_output_size(h, kh, stride.0, pad.0);
    let ow = conv_output_size(w, kw, stride.1, pad.1);
    let rows = mul3(n, oh, ow);
    let inner = mul3(x_shape.1, kh, kw);
    Conv2dShapes { col: (rows, inner), w_flat: (inner, oc), product: (rows, oc), out: (n, oc, oh, ow) }
}

} // verus!
