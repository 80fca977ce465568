use vstd::prelude::*;

use crate::arith::{lemma_compose_bound, lemma_split, lemma_unsplit};
use crate::shape::{
    aligned_dim, broadcastable, co_broadcast, inner_size, insert_unit_axis, lemma_reduced_shape_broadcasts_back,
    lemma_shape_size_split, outer_size, remove_axis, shape_size, size_of_shape, sum_axis_needed, sum_to_axes, unit_shape,
};

verus! {

/// `y = x²`.
pub struct Square;

/// `y = eˣ`.
pub struct Exp;

/// `y = x0 + x1` (broadcasting).
pub struct Add;

/// `y = x0 · x1` (broadcasting).
pub struct Mul;

/// `y = −x`.
pub struct Neg;

/// `y = x0 − x1` (broadcasting).
pub struct Sub;

/// `y = x0 / x1` (broadcasting).
pub struct Div;

/// `y = sin x`.
pub struct Sin;

/// `y = cos x`.
pub struct Cos;

/// `y = tanh x`.
pub struct Tanh;

/// `y = 1 / (1 + e^(−x))`.
pub struct Sigmoid;

/// `y = max(x, 0)`.
pub struct Relu;

/// `y = ln x`.
pub struct Log;

/// `y = xW` for matrices.
pub struct MatMul;

/// Elementwise functions keep the shape of their input, and their gradient,
/// `gy` broadcast against `x`, has the shape of `x` again.
pub open spec fn elementwise_grad_shape(x: Seq<usize>, gy: Seq<usize>) -> Option<Seq<usize>> {
    co_broadcast(gy, x)
}

/// Broadcasting a shape with itself gives it back.
pub proof fn lemma_co_broadcast_self(x: Seq<usize>)
    ensures
        co_broadcast(x, x) == Some(x),
{
    let n = x.len() as int;
    let r = Seq::new(n as nat, |i: int| if aligned_dim(x, n, i) == 1 { aligned_dim(x, n, i) } else { aligned_dim(x, n, i) });
    assert(r =~= x);
}

/// The shape invariant of reverse-mode differentiation for elementwise
/// functions: the gradient of an input has the input's shape when the
/// output gradient has the output's shape.
pub proof fn lemma_elementwise_grad_shape(x: Seq<usize>)
    ensures
        elementwise_grad_shape(x, x) == Some(x),
{
    lemma_co_broadcast_self(x);
}

impl MatMul {
    /// Shape of `xW` for `x: (m, k)` and `W: (k, n)`.
    pub fn output_shape(&self, x_shape: &Vec<usize>, w_shape: &Vec<usize>) -> (y: Vec<usize>)
        requires
            x_shape@.len() == 2,
            w_shape@.len() == 2,
            x_shape@[1] == w_shape@[0],
        ensures
            y@ == seq![x_shape@[0], w_shape@[1]],
    {
        let mut y = Vec::new();
        y.push(x_shape[0]);
        y.push(w_shape[1]);
        y
    }

    /// Shapes of the gradients `gy·Wᵀ` and `xᵀ·gy`.
    pub fn grad_shapes(&self, x_shape: &Vec<usize>, w_shape: &Vec<usize>, gy_shape: &Vec<usize>) -> (g: (Vec<usize>, Vec<usize>))
        requires
            x_shape@.len() == 2,
            w_shape@.len() == 2,
            gy_shape@.len() == 2,
            gy_shape@[1] == w_shape@[1],
            x_shape@[0] == gy_shape@[0],
        ensures
            g.0@ == seq![gy_shape@[0], w_shape@[0]],
            g.1@ == seq![x_shape@[1], gy_shape@[1]],
    {
        let mut gx = Vec::new();
        gx.push(gy_shape[0]);
        gx.push(w_shape[0]);
        let mut gw = Vec::new();
        gw.push(x_shape[1]);
        gw.push(gy_shape[1]);
        (gx, gw)
    }
}

/// The shape invariant for matrix products: with `gy` shaped like `xW`, the
/// gradients are shaped like `x` and `W`.
pub proof fn lemma_matmul_grad_shapes(x: Seq<usize>, w: Seq<usize>)
    requires
        x.len() == 2,
        w.len() == 2,
        x[1] == w[0],
    ensures
        ({
            let gy = seq![x[0], w[1]];
            seq![gy[0], w[0]] == x && seq![x[1], gy[1]] == w
        }),
{
    let gy = seq![x[0], w[1]];
    assert(seq![gy[0], w[0]] =~= x);
    assert(seq![x[1], gy[1]] =~= w);
}

/// Row-wise selection from an `(n, c)` matrix: row `i` gives its element in
/// column `indices[i]`.
pub struct Gather {
    pub indices: Vec<usize>,
}

/// The adjoint of `Gather`: scatters `gy` back into an `in_shape` matrix of
/// zeros.
pub struct GatherGrad {
    pub indices: Vec<usize>,
    pub in_shape: Vec<usize>,
}

impl Gather {
    /// `y[i] = x[i, indices[i]]` for `x` stored row-major as `rows × cols`.
    pub fn gather_rows<T: Copy>(&self, x: &Vec<T>, rows: usize, cols: usize) -> (y: Vec<T>)
        requires
            x@.len() == rows * cols,
            self.indices@.len() <= rows,
            forall|i: int| 0 <= i < self.indices@.len() ==> (#[trigger] self.indices@[i]) < cols,
        ensures
            y@.len() == self.indices@.len(),
            forall|i: int| 0 <= i < y@.len() ==> #[trigger] y@[i] == x@[i * cols + self.indices@[i]],
    {
        let mut y: Vec<T> = Vec::new();
        let mut i: usize = 0;
        let len = x.len();
        while i < self.indices.len()
            invariant
                i <= self.indices@.len(),
                self.indices@.len() <= rows,
                x@.len() == rows * cols,
                len == x@.len(),
                forall|k: int| 0 <= k < self.indices@.len() ==> (#[trigger] self.indices@[k]) < cols,
                y@.len() == i,
                forall|k: int| 0 <= k < i ==> #[trigger] y@[k] == x@[k * cols + self.indices@[k]],
            decreases self.indices@.len() - i,
        {
            let j = self.indices[i];
            proof {
                lemma_compose_bound(i as int, j as int, rows as int, cols as int);
                crate::arith::lemma_mul_ge(i as int, cols as int);
            }
            y.push(x[i * cols + j]);
            i = i + 1;
        }
        y
    }
}

impl Gather {
    /// The function that carries the gradient back to an input of shape
    /// `x_shape`: the scatter along the same indices.
    pub fn gradient_function(&self, x_shape: &Vec<usize>) -> (g: GatherGrad)
        ensures
            g.indices@ == self.indices@,
            g.in_shape@ == x_shape@,
    {
        GatherGrad { indices: self.indices.clone(), in_shape: x_shape.clone() }
    }
}

impl GatherGrad {
    /// The function that carries the gradient back: the gathering along the
    /// same indices.
    pub fn gradient_function(&self) -> (g: Gather)
        ensures
            g.indices@ == self.indices@,
    {
        Gather { indices: self.indices.clone() }
    }

    /// An `in_shape = (rows, cols)` matrix holding `gy[i]` at
    /// `(i, indices[i])` and `zero` everywhere else.
    pub fn scatter_rows<T: Copy>(&self, gy: &Vec<T>, zero: T) -> (gx: Vec<T>)
        requires
            self.in_shape@.len() == 2,
            self.in_shape@[0] * self.in_shape@[1] <= usize::MAX,
            gy@.len() == self.indices@.len(),
            self.indices@.len() <= self.in_shape@[0],
            forall|i: int| 0 <= i < self.indices@.len() ==> (#[trigger] self.indices@[i]) < self.in_shape@[1],
        ensures
            gx@.len() == self.in_shape@[0] * self.in_shape@[1],
            forall|i: int, j: int|
                0 <= i < self.in_shape@[0] && 0 <= j < self.in_shape@[1] ==> #[trigger] gx@[i * self.in_shape@[1] + j]
                    == if i < self.indices@.len() && j == self.indices@[i] {
                    gy@[i]
                } else {
                    zero
                },
    {
        let rows = self.in_shape[0];
        let cols = self.in_shape[1];
        let total = rows * cols;
        let mut gx: Vec<T> = Vec::new();
        let mut t: usize = 0;
        while t < total
            invariant
                rows == self.in_shape@[0],
                cols == self.in_shape@[1],
                total == rows * cols,
                t <= total,
                gy@.len() == self.indices@.len(),
                gx@.len() == t,
                forall|s: int|
                    0 <= s < t ==> #[trigger] gx@[s] == if s / (cols as int) < self.indices@.len() && s % (cols as int) == self.indices@[s / (cols as int)] as int {
                        gy@[s / (cols as int)]
                    } else {
                        zero
                    },
            decreases total - t,
        {
            proof {
                lemma_split(t as int, rows as int, cols as int);
            }
            let i = t / cols;
            let j = t % cols;
            if i < self.indices.len() && j == self.indices[i] {
                gx.push(gy[i]);
            } else {
                gx.push(zero);
            }
            t = t + 1;
        }
        proof {
            assert forall|i: int, j: int|
                0 <= i < rows && 0 <= j < cols implies #[trigger] gx@[i * cols + j]
                    == if i < self.indices@.len() && j == self.indices@[i] {
                    gy@[i]
                } else {
                    zero
                } by {
                lemma_compose_bound(i, j, rows as int, cols as int);
                lemma_unsplit(i, j, cols as int);
            }
        }
        gx
    }
}

/// Gathering from the scatter of `gy` gives `gy` back: `GatherGrad` and
/// `Gather` are each other's adjoint, so differentiating twice closes.
pub proof fn lemma_gather_of_scatter<T>(
    indices: Seq<usize>,
    rows: int,
    cols: int,
    gy: Seq<T>,
    zero: T,
    gx: Seq<T>,
    y: Seq<T>,
)
    requires
        indices.len() <= rows,
        forall|i: int| 0 <= i < indices.len() ==> (#[trigger] indices[i]) < cols,
        gy.len() == indices.len(),
// what scatter_rows gives
        gx.len() == rows * cols,
        forall|i: int, j: int|
            0 <= i < rows && 0 <= j < cols ==> #[trigger] gx[i * cols + j] == if i < indices.len() && j == indices[i] {
                gy[i]
            } else {
                zero
            },
// what gather_rows gives
        y.len() == indices.len(),
        forall|i: int| 0 <= i < y.len() ==> #[trigger] y[i] == gx[i * cols + indices[i]],
    ensures
        y == gy,
{
    assert forall|i: int| 0 <= i < y.len() implies y[i] == gy[i] by {
        assert(gx[i * cols + indices[i]] == gy[i]);
    }
    assert(y =~= gy);
}

/// Product of the axes of `s` before `axis` and after it, computed; the
/// caller guarantees each fits in `usize`.
pub fn outer_inner(s: &Vec<usize>, axis: usize) -> (r: (usize, usize))
    requires
        axis < s@.len(),
        outer_size(s@, axis as int) <= usize::MAX,
        inner_size(s@, axis as int) <= usize::MAX,
    ensures
        r.0 == outer_size(s@, axis as int),
        r.1 == inner_size(s@, axis as int),
{
    let mut before: Vec<usize> = Vec::new();
    let mut after: Vec<usize> = Vec::new();
    let mut i: usize = 0;
    while i < s.len()
        invariant
            axis < s@.len(),
            i <= s@.len(),
            before@ == s@.subrange(0, if i < axis { i as int } else { axis as int }),
            after@ == s@.subrange(axis as int + 1, if i > axis + 1 { i as int } else { axis as int + 1 }),
        decreases s@.len() - i,
    {
        if i < axis {
            before.push(s[i]);
        } else if i > axis {
            after.push(s[i]);
        }
        i = i + 1;
    }
    (size_of_shape(&before), size_of_shape(&after))
}

/// `s` with axis `axis` set to `len`.
pub open spec fn with_axis(s: Seq<usize>, axis: int, len: usize) -> Seq<usize> {
    s.update(axis, len)
}

/// Two shapes agree on every axis but `axis`.
pub open spec fn same_except(s0: Seq<usize>, s1: Seq<usize>, axis: int) -> bool {
    &&& s0.len() == s1.len()
    &&& 0 <= axis < s0.len()
    &&& forall|i: int| 0 <= i < s0.len() && i != axis ==> s0[i] == s1[i]
}

proof fn lemma_same_except_sizes(s0: Seq<usize>, s1: Seq<usize>, axis: int)
    requires
        same_except(s0, s1, axis),
    ensures
        outer_size(s0, axis) == outer_size(s1, axis),
        inner_size(s0, axis) == inner_size(s1, axis),
{
    assert(s0.subrange(0, axis) =~= s1.subrange(0, axis));
    assert(s0.subrange(axis + 1, s0.len() as int) =~= s1.subrange(axis + 1, s1.len() as int));
}

/// Element `t` of the concatenation, along some axis, of arrays that are
/// `outer` blocks of `b0` and of `b1` elements: block `o` of the result is
/// block `o` of the first followed by block `o` of the second.
pub open spec fn concat_value<T>(x0: Seq<T>, x1: Seq<T>, b0: int, b1: int, t: int) -> T {
    let o = t / (b0 + b1);
    let q = t % (b0 + b1);
    if q < b0 {
        x0[o * b0 + q]
    } else {
        x1[o * b1 + q - b0]
    }
}

/// Element `t` of the part `[start, end)` along some axis of an array made
/// of blocks of `bx` elements: each block keeps `bl` elements from offset
/// `off`.
pub open spec fn slice_value<T>(x: Seq<T>, bx: int, off: int, bl: int, t: int) -> T {
    x[(t / bl) * bx + off + t % bl]
}

/// Concatenation of two arrays along `axis` (their shapes agree elsewhere).
pub fn concat_data<T: Copy>(x0: &Vec<T>, s0: &Vec<usize>, x1: &Vec<T>, s1: &Vec<usize>, axis: usize) -> (y: Vec<T>)
    requires
        same_except(s0@, s1@, axis as int),
        x0@.len() == shape_size(s0@),
        x1@.len() == shape_size(s1@),
        x0@.len() + x1@.len() <= usize::MAX,
        outer_size(s0@, axis as int) <= usize::MAX,
        inner_size(s0@, axis as int) <= usize::MAX,
    ensures
        y@.len() == x0@.len() + x1@.len(),
        forall|t: int|
            0 <= t < y@.len() ==> #[trigger] y@[t] == concat_value(
                x0@,
                x1@,
                s0@[axis as int] * inner_size(s0@, axis as int),
                s1@[axis as int] * inner_size(s0@, axis as int),
                t,
            ),
{
    proof {
        lemma_same_except_sizes(s0@, s1@, axis as int);
        lemma_shape_size_split(s0@, axis as int);
        lemma_shape_size_split(s1@, axis as int);
    }
    let (outer, inner) = outer_inner(s0, axis);
    let ghost b0 = s0@[axis as int] * inner;
    let ghost b1 = s1@[axis as int] * inner;
    proof {
        assert(x0@.len() == outer * b0) by (nonlinear_arith)
            requires
                x0@.len() == outer * s0@[axis as int] * inner,
                b0 == s0@[axis as int] * inner,
        ;
        assert(x1@.len() == outer * b1) by (nonlinear_arith)
            requires
                x1@.len() == outer * s1@[axis as int] * inner,
                b1 == s1@[axis as int] * inner,
        ;
        assert(b0 >= 0 && b1 >= 0) by (nonlinear_arith)
            requires
                b0 == s0@[axis as int] * inner,
                b1 == s1@[axis as int] * inner,
        ;
    }
    let len0 = x0.len();
    let len1 = x1.len();
    let mut y: Vec<T> = Vec::new();
    if outer == 0 {
        assert(outer * b0 == 0 && outer * b1 == 0) by (nonlinear_arith)
            requires
                outer == 0,
        ;
        return y;
    }
    let bb0 = len0 / outer;
    let bb1 = len1 / outer;
    proof {
        vstd::arithmetic::div_mod::lemma_div_multiples_vanish(b0, outer as int);
        vstd::arithmetic::div_mod::lemma_div_multiples_vanish(b1, outer as int);
        assert(outer * b0 == b0 * outer) by (nonlinear_arith);
        assert(outer * b1 == b1 * outer) by (nonlinear_arith);
    }
    assert(bb0 == b0 && bb1 == b1);
    let mut o: usize = 0;
    while o < outer
        invariant
            o <= outer,
            bb0 == b0,
            bb1 == b1,
            b0 >= 0,
            b1 >= 0,
            len0 == x0@.len(),
            len1 == x1@.len(),
            x0@.len() == outer * b0,
            x1@.len() == outer * b1,
            len0 + len1 <= usize::MAX,
            y@.len() == o * (b0 + b1),
            forall|t: int| 0 <= t < y@.len() ==> #[trigger] y@[t] == concat_value(x0@, x1@, b0, b1, t),
        decreases outer - o,
    {
        proof {
            assert(o * b0 + b0 <= outer * b0) by (nonlinear_arith)
                requires
                    o < outer,
                    b0 >= 0,
            ;
            assert(o * b1 + b1 <= outer * b1) by (nonlinear_arith)
                requires
                    o < outer,
                    b1 >= 0,
            ;
            assert(o * b0 >= 0 && o * b1 >= 0) by (nonlinear_arith)
                requires
                    b0 >= 0,
                    b1 >= 0,
            ;
        }
        let start0 = o * bb0;
        let start1 = o * bb1;
        let mut j: usize = 0;
        while j < bb0
            invariant
                o < outer,
                j <= bb0,
                bb0 == b0,
                bb1 == b1,
                b0 >= 0,
                b1 >= 0,
                start0 == o * b0,
                start0 + b0 <= x0@.len(),
                len0 == x0@.len(),
                y@.len() == o * (b0 + b1) + j,
                forall|t: int| 0 <= t < y@.len() ==> #[trigger] y@[t] == concat_value(x0@, x1@, b0, b1, t),
            decreases bb0 - j,
        {
            proof {
                let t = o * (b0 + b1) + j;
                lemma_unsplit(o as int, j as int, b0 + b1);
                assert(o * (b0 + b1) == (o as int) * (b0 + b1));
            }
            y.push(x0[start0 + j]);
            j = j + 1;
        }
        let mut j: usize = 0;
        while j < bb1
            invariant
                o < outer,
                j <= bb1,
                bb0 == b0,
                bb1 == b1,
                b0 >= 0,
                b1 >= 0,
                start1 == o * b1,
                start1 + b1 <= x1@.len(),
                len1 == x1@.len(),
                y@.len() == o * (b0 + b1) + b0 + j,
                forall|t: int| 0 <= t < y@.len() ==> #[trigger] y@[t] == concat_value(x0@, x1@, b0, b1, t),
            decreases bb1 - j,
        {
            proof {
                lemma_unsplit(o as int, b0 + j, b0 + b1);
            }
            y.push(x1[start1 + j]);
            j = j + 1;
        }
        proof {
            assert(o * (b0 + b1) + b0 + b1 == (o + 1) * (b0 + b1)) by (nonlinear_arith);
        }
        o = o + 1;
    }
    proof {
        assert(outer * (b0 + b1) == outer * b0 + outer * b1) by (nonlinear_arith);
    }
    y
}

/// The part `[start, end)` of an array along `axis`.
pub fn slice_axis_data<T: Copy>(x: &Vec<T>, s: &Vec<usize>, axis: usize, start: usize, end: usize) -> (y: Vec<T>)
    requires
        axis < s@.len(),
        start <= end <= s@[axis as int],
        x@.len() == shape_size(s@),
        outer_size(s@, axis as int) <= usize::MAX,
        inner_size(s@, axis as int) <= usize::MAX,
    ensures
        y@.len() == outer_size(s@, axis as int) * ((end - start) * inner_size(s@, axis as int)),
        forall|t: int|
            0 <= t < y@.len() ==> #[trigger] y@[t] == slice_value(
                x@,
                s@[axis as int] * inner_size(s@, axis as int),
                start * inner_size(s@, axis as int),
                (end - start) * inner_size(s@, axis as int),
                t,
            ),
{
    proof {
        lemma_shape_size_split(s@, axis as int);
    }
    let (outer, inner) = outer_inner(s, axis);
    let ghost bx = s@[axis as int] * inner;
    let ghost off = start * inner;
    let ghost bl = (end - start) * inner;
    proof {
        assert(x@.len() == outer * bx) by (nonlinear_arith)
            requires
                x@.len() == outer * s@[axis as int] * inner,
                bx == s@[axis as int] * inner,
        ;
        assert(off + bl <= bx && 0 <= off && 0 <= bl) by (nonlinear_arith)
            requires
                off == start * inner,
                bl == (end - start) * inner,
                bx == s@[axis as int] * inner,
                start <= end <= s@[axis as int],
                inner >= 0,
        ;
    }
    let mut y: Vec<T> = Vec::new();
    if outer == 0 {
        assert(outer * bl == 0);
        return y;
    }
    proof {
        crate::arith::lemma_mul_ge(bx, outer as int);
        assert(outer * bx == bx * outer) by (nonlinear_arith);
    }
    let len = x.len();
    let bxe = s[axis] * inner;
    let offe = start * inner;
    let ble = (end - start) * inner;
    let mut o: usize = 0;
    while o < outer
        invariant
            o <= outer,
            bxe == bx,
            offe == off,
            ble == bl,
            off + bl <= bx,
            0 <= off,
            0 <= bl,
            x@.len() == outer * bx,
            len == x@.len(),
            y@.len() == o * bl,
            forall|t: int| 0 <= t < y@.len() ==> #[trigger] y@[t] == slice_value(x@, bx, off, bl, t),
        decreases outer - o,
    {
        proof {
            assert(o * bx + bx <= outer * bx) by (nonlinear_arith)
                requires
                    o < outer,
                    bx >= 0,
            ;
            assert(o * bx >= 0) by (nonlinear_arith)
                requires
                    bx >= 0,
            ;
        }
        let base = o * bxe + offe;
        let mut j: usize = 0;
        while j < ble
            invariant
                o < outer,
                j <= ble,
                ble == bl,
                base == o * bx + off,
                off + bl <= bx,
                o * bx + bx <= x@.len(),
                len == x@.len(),
                y@.len() == o * bl + j,
                forall|t: int| 0 <= t < y@.len() ==> #[trigger] y@[t] == slice_value(x@, bx, off, bl, t),
            decreases ble - j,
        {
            proof {
                lemma_unsplit(o as int, j as int, bl);
            }
            y.push(x[base + j]);
            j = j + 1;
        }
        proof {
            assert(o * bl + bl == (o + 1) * bl) by (nonlinear_arith);
        }
        o = o + 1;
    }
    proof {
        assert(outer * bl == outer * ((end - start) * inner_size(s@, axis as int)));
    }
    y
}

/// Slicing the concatenation of two arrays at the boundary gives the two
/// arrays back: the gradient `Concat` sends to each input, the matching part
/// of its output gradient, has the input's values (and shape).
pub proof fn lemma_slice_of_concat<T>(
    x0: Seq<T>,
    x1: Seq<T>,
    outer: int,
    b0: int,
    b1: int,
    cat: Seq<T>,
    part0: Seq<T>,
    part1: Seq<T>,
)
    requires
        outer >= 0,
        b0 >= 0,
        b1 >= 0,
        x0.len() == outer * b0,
        x1.len() == outer * b1,
// what concat_data gives
        cat.len() == x0.len() + x1.len(),
        forall|t: int| 0 <= t < cat.len() ==> #[trigger] cat[t] == concat_value(x0, x1, b0, b1, t),
// what slice_axis_data gives for [0, m0) and [m0, m0 + m1)
        part0.len() == outer * b0,
        forall|t: int| 0 <= t < part0.len() ==> #[trigger] part0[t] == slice_value(cat, b0 + b1, 0, b0, t),
        part1.len() == outer * b1,
        forall|t: int| 0 <= t < part1.len() ==> #[trigger] part1[t] == slice_value(cat, b0 + b1, b0, b1, t),
    ensures
        part0 == x0,
        part1 == x1,
{
    assert forall|t: int| 0 <= t < part0.len() implies part0[t] == x0[t] by {
        lemma_split(t, outer, b0);
        let o = t / b0;
        let j = t % b0;
        let idx = o * (b0 + b1) + j;
        lemma_compose_bound(o, j, outer, b0 + b1);
        assert(outer * (b0 + b1) == outer * b0 + outer * b1) by (nonlinear_arith);
        lemma_unsplit(o, j, b0 + b1);
        assert(part0[t] == slice_value(cat, b0 + b1, 0, b0, t));
        assert(slice_value(cat, b0 + b1, 0, b0, t) == cat[idx]);
        assert(cat[idx] == concat_value(x0, x1, b0, b1, idx));
        assert(concat_value(x0, x1, b0, b1, idx) == x0[o * b0 + j]);
    }
    assert forall|t: int| 0 <= t < part1.len() implies part1[t] == x1[t] by {
        lemma_split(t, outer, b1);
        let o = t / b1;
        let j = t % b1;
        let idx = o * (b0 + b1) + (b0 + j);
        lemma_compose_bound(o, b0 + j, outer, b0 + b1);
        assert(outer * (b0 + b1) == outer * b0 + outer * b1) by (nonlinear_arith);
        lemma_unsplit(o, b0 + j, b0 + b1);
        assert(part1[t] == slice_value(cat, b0 + b1, b0, b1, t));
        assert(slice_value(cat, b0 + b1, b0, b1, t) == cat[idx]);
        assert(cat[idx] == concat_value(x0, x1, b0, b1, idx));
        assert(concat_value(x0, x1, b0, b1, idx) == x1[o * b1 + j]);
    }
    assert(part0 =~= x0);
    assert(part1 =~= x1);
}

/// The part `[start, end)` of the input along `axis`.
pub struct SliceAxis {
    pub axis: usize,
    pub start: usize,
    pub end: usize,
}

/// Concatenation of two inputs along `axis`.
pub struct Concat {
    pub axis: usize,
}

impl SliceAxis {
    /// Shape of the part: the input's, with `end − start` along `axis`.
    pub fn output_shape(&self, x_shape: &Vec<usize>) -> (y: Vec<usize>)
        requires
            self.axis < x_shape@.len(),
            self.start <= self.end <= x_shape@[self.axis as int],
        ensures
            y@ == with_axis(x_shape@, self.axis as int, (self.end - self.start) as usize),
    {
        let mut y = x_shape.clone();
        y.set(self.axis, self.end - self.start);
        y
    }

    /// The zero blocks that the gradient of the part is padded with to get
    /// back to the input's shape: `start` rows before it along `axis` and
    /// `dim − end` after it, each present only when not empty.
    pub fn grad_padding(&self, x_shape: &Vec<usize>) -> (pads: (Option<Vec<usize>>, Option<Vec<usize>>))
        requires
            self.axis < x_shape@.len(),
            self.start <= self.end <= x_shape@[self.axis as int],
        ensures
            pads.0 is Some <==> self.start > 0,
            pads.0 matches Some(l) ==> l@ == with_axis(x_shape@, self.axis as int, self.start),
            pads.1 is Some <==> self.end < x_shape@[self.axis as int],
            pads.1 matches Some(r) ==> r@ == with_axis(x_shape@, self.axis as int, (x_shape@[self.axis as int] - self.end) as usize),
    {
        let dim = x_shape[self.axis];
        let left = if self.start > 0 {
            let mut l = x_shape.clone();
            l.set(self.axis, self.start);
            Some(l)
        } else {
            None
        };
        let right = if self.end < dim {
            let mut r = x_shape.clone();
            r.set(self.axis, dim - self.end);
            Some(r)
        } else {
            None
        };
        (left, right)
    }

    /// Values of the part, for an input stored row-major with shape `x_shape`.
    pub fn slice_values<T: Copy>(&self, x: &Vec<T>, x_shape: &Vec<usize>) -> (y: Vec<T>)
        requires
            self.axis < x_shape@.len(),
            self.start <= self.end <= x_shape@[self.axis as int],
            x@.len() == shape_size(x_shape@),
            outer_size(x_shape@, self.axis as int) <= usize::MAX,
            inner_size(x_shape@, self.axis as int) <= usize::MAX,
        ensures
            y@.len() == outer_size(x_shape@, self.axis as int) * ((self.end - self.start) * inner_size(x_shape@, self.axis as int)),
            forall|t: int|
                0 <= t < y@.len() ==> #[trigger] y@[t] == slice_value(
                    x@,
                    x_shape@[self.axis as int] * inner_size(x_shape@, self.axis as int),
                    self.start * inner_size(x_shape@, self.axis as int),
                    (self.end - self.start) * inner_size(x_shape@, self.axis as int),
                    t,
                ),
    {
        slice_axis_data(x, x_shape, self.axis, self.start, self.end)
    }
}

/// The shape invariant for `SliceAxis`: padding the part's gradient with the
/// zero blocks of `grad_padding` along the axis restores the input's shape.
pub proof fn lemma_slice_grad_shape(x: Seq<usize>, axis: int, start: int, end: int)
    requires
        0 <= axis < x.len(),
        0 <= start <= end <= x[axis],
    ensures
        start + (end - start) + (x[axis] - end) == x[axis],
        with_axis(x, axis, x[axis]) == x,
        same_except(with_axis(x, axis, start as usize), with_axis(x, axis, (end - start) as usize), axis),
        same_except(with_axis(x, axis, (end - start) as usize), with_axis(x, axis, (x[axis] - end) as usize), axis),
{
    assert(with_axis(x, axis, x[axis]) =~= x);
}

impl Concat {
    /// Shape of the concatenation: the inputs' common shape with the two
    /// lengths along `axis` added.
    pub fn output_shape(&self, s0: &Vec<usize>, s1: &Vec<usize>) -> (y: Vec<usize>)
        requires
            same_except(s0@, s1@, self.axis as int),
            s0@[self.axis as int] + s1@[self.axis as int] <= usize::MAX,
        ensures
            y@ == with_axis(s0@, self.axis as int, (s0@[self.axis as int] + s1@[self.axis as int]) as usize),
    {
        let mut y = s0.clone();
        y.set(self.axis, s0[self.axis] + s1[self.axis]);
        y
    }

    /// The parts of the output gradient that go back to the two inputs:
    /// `[0, w0)` and `[w0, w0 + w1)` along `axis`.
    pub fn grad_slices(&self, s0: &Vec<usize>, s1: &Vec<usize>) -> (parts: (SliceAxis, SliceAxis))
        requires
            same_except(s0@, s1@, self.axis as int),
            s0@[self.axis as int] + s1@[self.axis as int] <= usize::MAX,
        ensures
            parts.0.axis == self.axis && parts.0.start == 0 && parts.0.end == s0@[self.axis as int],
            parts.1.axis == self.axis && parts.1.start == s0@[self.axis as int] && parts.1.end == s0@[self.axis as int]
                + s1@[self.axis as int],
    {
        let w0 = s0[self.axis];
        let w1 = s1[self.axis];
        (SliceAxis { axis: self.axis, start: 0, end: w0 }, SliceAxis { axis: self.axis, start: w0, end: w0 + w1 })
    }

    /// Values of the concatenation of `x0` (shape `s0`) and `x1` (shape `s1`).
    pub fn concat_values<T: Copy>(&self, x0: &Vec<T>, s0: &Vec<usize>, x1: &Vec<T>, s1: &Vec<usize>) -> (y: Vec<T>)
        requires
            same_except(s0@, s1@, self.axis as int),
            x0@.len() == shape_size(s0@),
            x1@.len() == shape_size(s1@),
            x0@.len() + x1@.len() <= usize::MAX,
            outer_size(s0@, self.axis as int) <= usize::MAX,
            inner_size(s0@, self.axis as int) <= usize::MAX,
        ensures
            y@.len() == x0@.len() + x1@.len(),
            forall|t: int|
                0 <= t < y@.len() ==> #[trigger] y@[t] == concat_value(
                    x0@,
                    x1@,
                    s0@[self.axis as int] * inner_size(s0@, self.axis as int),
                    s1@[self.axis as int] * inner_size(s0@, self.axis as int),
                    t,
                ),
    {
        concat_data(x0, s0, x1, s1, self.axis)
    }
}

/// The shape invariant for `Concat`: slicing the output's shape at the
/// boundary gives each input's shape.
pub proof fn lemma_concat_grad_shapes(s0: Seq<usize>, s1: Seq<usize>, axis: int)
    requires
        same_except(s0, s1, axis),
    ensures
        ({
            let y = with_axis(s0, axis, (s0[axis] + s1[axis]) as usize);
            with_axis(y, axis, s0[axis]) == s0 && with_axis(y, axis, ((s0[axis] + s1[axis]) - s0[axis]) as usize) == s1
        }),
{
    let y = with_axis(s0, axis, (s0[axis] + s1[axis]) as usize);
    assert(with_axis(y, axis, s0[axis]) =~= s0);
    assert(with_axis(y, axis, ((s0[axis] + s1[axis]) - s0[axis]) as usize) =~= s1);
}

/// Sum of all elements (`axis` none) or along one axis.
pub struct Sum {
    pub axis: Option<usize>,
}

impl Sum {
    /// Shape of the sum: a scalar, or the input without `axis`.
    pub fn output_shape(&self, x_shape: &Vec<usize>) -> (y: Vec<usize>)
        requires
            self.axis matches Some(ax) ==> ax < x_shape@.len(),
        ensures
            y@ == match self.axis {
                Some(ax) => remove_axis(x_shape@, ax as int),
                None => Seq::<usize>::empty(),
            },
    {
        match self.axis {
            Some(ax) => {
                let mut y = x_shape.clone();
                y.remove(ax);
                y
            },
            None => Vec::new(),
        }
    }

    /// The shape the output gradient is reshaped to before it is broadcast
    /// back over the input: the summed axis comes back with length 1 (all
    /// axes, for a full sum of an array of rank at least 1).
    pub fn grad_reshape(&self, x_shape: &Vec<usize>, gy_shape: &Vec<usize>) -> (r: Vec<usize>)
        requires
            self.axis matches Some(ax) ==> ax <= gy_shape@.len(),
        ensures
            r@ == match self.axis {
                Some(ax) => insert_unit_axis(gy_shape@, ax as int),
                None => if x_shape@.len() > 0 {
                    unit_shape(x_shape@.len())
                } else {
                    gy_shape@
                },
            },
    {
        expand_reduced_shape(self.axis, x_shape.len(), gy_shape)
    }
}

/// `gy_shape` with the reduced axis restored as length 1 (or all ones for a
/// full reduction of an array of positive rank).
fn expand_reduced_shape(axis: Option<usize>, ndim: usize, gy_shape: &Vec<usize>) -> (r: Vec<usize>)
    requires
        axis matches Some(ax) ==> ax <= gy_shape@.len(),
    ensures
        r@ == match axis {
            Some(ax) => insert_unit_axis(gy_shape@, ax as int),
            None => if ndim > 0 {
                unit_shape(ndim as nat)
            } else {
                gy_shape@
            },
        },
{
    match axis {
        Some(ax) => {
            let mut r = gy_shape.clone();
            r.insert(ax, 1);
            r
        },
        None => {
            if ndim > 0 {
                let mut r: Vec<usize> = Vec::new();
                let mut i: usize = 0;
                while i < ndim
                    invariant
                        i <= ndim,
                        r@ == unit_shape(i as nat),
                    decreases ndim - i,
                {
                    r.push(1);
                    i = i + 1;
                    assert(r@ =~= unit_shape(i as nat));
                }
                r
            } else {
                gy_shape.clone()
            }
        },
    }
}

/// The shape invariant for sums: the gradient, reshaped as `grad_reshape`
/// says, broadcasts back to exactly the input's shape.
pub proof fn lemma_sum_grad_shape(x: Seq<usize>, axis: Option<usize>)
    requires
        axis matches Some(ax) ==> ax < x.len(),
    ensures
        match axis {
            Some(ax) => broadcastable(insert_unit_axis(remove_axis(x, ax as int), ax as int), x),
            None => x.len() > 0 ==> broadcastable(unit_shape(x.len()), x),
        },
        axis is None && x.len() == 0 ==> broadcastable(Seq::<usize>::empty(), x),
{
    match axis {
        Some(ax) => lemma_reduced_shape_broadcasts_back(x, ax as int),
        None => {},
    }
}

/// Maximum of all elements (`axis` none) or along one axis, keeping the
/// reduced axis with length 1 when `keepdims`.
pub struct Max {
    pub axis: Option<usize>,
    pub keepdims: bool,
}

impl Max {
    pub fn new(axis: Option<usize>, keepdims: bool) -> (m: Max)
        ensures
            m.axis == axis,
            m.keepdims == keepdims,
    {
        Max { axis, keepdims }
    }

    /// Shape of the maximum.
    pub fn output_shape(&self, x_shape: &Vec<usize>) -> (y: Vec<usize>)
        requires
            self.axis matches Some(ax) ==> ax < x_shape@.len(),
        ensures
            y@ == match self.axis {
                Some(ax) => if self.keepdims {
                    with_axis(x_shape@, ax as int, 1)
                } else {
                    remove_axis(x_shape@, ax as int)
                },
                None => Seq::<usize>::empty(),
            },
    {
        match self.axis {
            Some(ax) => {
                let mut y = x_shape.clone();
                if self.keepdims {
                    y.set(ax, 1);
                } else {
                    y.remove(ax);
                }
                y
            },
            None => Vec::new(),
        }
    }

    /// The shape the output gradient (and the maximum itself) is reshaped to
    /// before being broadcast against the input: unchanged with `keepdims`,
    /// else the reduced axis restored as 1 (all ones for a full reduction).
    pub fn grad_reshape(&self, x_shape: &Vec<usize>, gy_shape: &Vec<usize>) -> (r: Vec<usize>)
        requires
            self.axis matches Some(ax) ==> ax <= gy_shape@.len(),
        ensures
            r@ == if self.keepdims {
                gy_shape@
            } else {
                match self.axis {
                    Some(ax) => insert_unit_axis(gy_shape@, ax as int),
                    None => if x_shape@.len() > 0 {
                        unit_shape(x_shape@.len())
                    } else {
                        gy_shape@
                    },
                }
            },
    {
        if self.keepdims {
            gy_shape.clone()
        } else {
            expand_reduced_shape(self.axis, x_shape.len(), gy_shape)
        }
    }
}

/// The shape invariant for maxima: with the output gradient shaped like the
/// output, `grad_reshape` gives a shape that broadcasts to the input's.
pub proof fn lemma_max_grad_shape(x: Seq<usize>, axis: Option<usize>, keepdims: bool)
    requires
        axis matches Some(ax) ==> ax < x.len(),
    ensures
        ({
            let y = match axis {
                Some(ax) => if keepdims {
                    with_axis(x, ax as int, 1)
                } else {
                    remove_axis(x, ax as int)
                },
                None => Seq::<usize>::empty(),
            };
            let r = if keepdims {
                y
            } else {
                match axis {
                    Some(ax) => insert_unit_axis(y, ax as int),
                    None => if x.len() > 0 {
                        unit_shape(x.len())
                    } else {
                        y
                    },
                }
            };
            broadcastable(r, x)
        }),
{
    match axis {
        Some(ax) => {
            if keepdims {
                let y = with_axis(x, ax as int, 1);
                assert forall|i: int| 0 <= i < y.len() implies (#[trigger] y[i]) == x[i + x.len() - y.len()] || y[i] == 1 by {}
            } else {
                lemma_reduced_shape_broadcasts_back(x, ax as int);
            }
        },
        None => {},
    }
}

/// Permutation of the axes: output axis `i` is input axis `axes[i]`.
pub struct TransposeAxes {
    pub axes: Vec<usize>,
}

/// `axes` lists each of `0..n` exactly once.
pub open spec fn is_permutation(axes: Seq<usize>, n: int) -> bool {
    &&& axes.len() == n
    &&& forall|i: int| 0 <= i < n ==> (#[trigger] axes[i]) < n
    &&& axes.no_duplicates()
}

/// Shape `s` with its axes permuted by `axes`.
pub open spec fn permute_shape(s: Seq<usize>, axes: Seq<usize>) -> Seq<usize> {
    Seq::new(axes.len(), |i: int| s[axes[i] as int])
}

proof fn lemma_permutation_onto(axes: Seq<usize>, n: int, a: int)
    requires
        is_permutation(axes, n),
        0 <= a < n,
    ensures
        exists|i: int| 0 <= i < n && axes[i] == a,
{
    // a permutation of 0..n misses nothing: otherwise n distinct values
    // would fit in n - 1 slots
    if forall|i: int| 0 <= i < n ==> axes[i] != a {
        let f = |x: usize| if (x as int) < a { x as int } else { x - 1 };
        let t = axes.map_values(f);
        assert forall|i: int, j: int| 0 <= i < j < t.len() implies t[i] != t[j] by {
            assert(axes[i] != axes[j]);
        }
        assert forall|k: int| 0 <= k < t.len() implies 0 <= (#[trigger] t[k]) < n - 1 by {
            assert(axes[k] != a);
        }
        t.unique_seq_to_set();
        vstd::set_lib::lemma_int_range(0, n - 1);
        assert(t.to_set().subset_of(vstd::set_lib::set_int_range(0, n - 1))) by {
            assert forall|x: int| t.to_set().contains(x) implies vstd::set_lib::set_int_range(0, n - 1).contains(x) by {
                let k = choose|k: int| 0 <= k < t.len() && t[k] == x;
            }
        }
        vstd::set_lib::lemma_len_subset(t.to_set(), vstd::set_lib::set_int_range(0, n - 1));
    }
}

impl TransposeAxes {
    /// Shape of the output.
    pub fn output_shape(&self, x_shape: &Vec<usize>) -> (y: Vec<usize>)
        requires
            is_permutation(self.axes@, x_shape@.len() as int),
        ensures
            y@ == permute_shape(x_shape@, self.axes@),
    {
        let mut y: Vec<usize> = Vec::new();
        let mut i: usize = 0;
        while i < self.axes.len()
            invariant
                is_permutation(self.axes@, x_shape@.len() as int),
                i <= self.axes@.len(),
                y@ == permute_shape(x_shape@, self.axes@.subrange(0, i as int)),
            decreases self.axes@.len() - i,
        {
            y.push(x_shape[self.axes[i]]);
            i = i + 1;
            assert(y@ =~= permute_shape(x_shape@, self.axes@.subrange(0, i as int)));
        }
        assert(self.axes@.subrange(0, i as int) =~= self.axes@);
        y
    }

    /// The permutation that undoes this one (`inv[axes[i]] = i`); the
    /// backward pass transposes the gradient by it.
    pub fn inverse_axes(&self) -> (inv: Vec<usize>)
        requires
            is_permutation(self.axes@, self.axes@.len() as int),
        ensures
            is_permutation(inv@, self.axes@.len() as int),
            forall|i: int| 0 <= i < self.axes@.len() ==> #[trigger] inv@[self.axes@[i] as int] == i,
            forall|a: int| 0 <= a < self.axes@.len() ==> #[trigger] self.axes@[inv@[a] as int] == a,
    {
        let n = self.axes.len();
        let mut inv: Vec<usize> = Vec::new();
        let mut k: usize = 0;
        while k < n
            invariant
                k <= n,
                inv@.len() == k,
                forall|j: int| 0 <= j < k ==> (#[trigger] inv@[j]) == 0,
            decreases n - k,
        {
            inv.push(0);
            k = k + 1;
        }
        let mut i: usize = 0;
        while i < n
            invariant
                n == self.axes@.len(),
                is_permutation(self.axes@, n as int),
                i <= n,
                inv@.len() == n,
                forall|j: int| 0 <= j < i ==> #[trigger] inv@[self.axes@[j] as int] == j,
            decreases n - i,
        {
            let ghost before = inv@;
            inv.set(self.axes[i], i);
            proof {
                assert forall|j: int| 0 <= j < i + 1 implies #[trigger] inv@[self.axes@[j] as int] == j by {
                    if j < i {
                        assert(self.axes@[j] != self.axes@[i as int]);
                        assert(inv@[self.axes@[j] as int] == before[self.axes@[j] as int]);
                    }
                }
            }
            i = i + 1;
        }
        proof {
            assert forall|a: int| 0 <= a < n implies #[trigger] self.axes@[inv@[a] as int] == a by {
                lemma_permutation_onto(self.axes@, n as int, a);
                let i = choose|i: int| 0 <= i < n && self.axes@[i] == a;
                assert(inv@[self.axes@[i] as int] == i);
            }
            assert forall|a: int| 0 <= a < n implies (#[trigger] inv@[a]) < n by {
                lemma_permutation_onto(self.axes@, n as int, a);
                let i = choose|i: int| 0 <= i < n && self.axes@[i] == a;
                assert(inv@[self.axes@[i] as int] == i);
            }
            assert forall|a: int, b: int| 0 <= a < b < n implies inv@[a] != inv@[b] by {
                assert(self.axes@[inv@[a] as int] == a);
                assert(self.axes@[inv@[b] as int] == b);
            }
        }
        inv
    }
}

/// Transposing by a permutation and then by its inverse gives the shape back:
/// the gradient of `TransposeAxes` has the input's shape.
pub proof fn lemma_transpose_axes_round_trip(x: Seq<usize>, axes: Seq<usize>, inv: Seq<usize>)
    requires
        is_permutation(axes, x.len() as int),
        is_permutation(inv, x.len() as int),
        forall|a: int| 0 <= a < axes.len() ==> #[trigger] axes[inv[a] as int] == a,
    ensures
        permute_shape(permute_shape(x, axes), inv) == x,
{
    assert(permute_shape(permute_shape(x, axes), inv) =~= x);
}

/// Reversal of all axes (the matrix transpose for rank 2).
pub struct Transpose;

impl Transpose {
    /// Shape of the output: the input's, reversed.
    pub fn output_shape(&self, x_shape: &Vec<usize>) -> (y: Vec<usize>)
        ensures
            y@ == x_shape@.reverse(),
    {
        let n = x_shape.len();
        let mut y: Vec<usize> = Vec::new();
        let mut i: usize = 0;
        while i < n
            invariant
                n == x_shape@.len(),
                i <= n,
                y@.len() == i,
                forall|k: int| 0 <= k < i ==> #[trigger] y@[k] == x_shape@[n - 1 - k],
            decreases n - i,
        {
            y.push(x_shape[n - 1 - i]);
            i = i + 1;
        }
        assert(y@ =~= x_shape@.reverse());
        y
    }
}

/// Transposing twice gives the shape back: the gradient of `Transpose` has the
/// input's shape.
pub proof fn lemma_transpose_twice(x: Seq<usize>)
    ensures
        x.reverse().reverse() == x,
{
    assert(x.reverse().reverse() =~= x);
}

/// Reshape to `shape` (same elements, same order).
pub struct Reshape {
    pub shape: Vec<usize>,
}

/// Broadcast to `shape` (elements repeated along axes of length 1).
pub struct BroadcastTo {
    pub shape: Vec<usize>,
}

/// Sum down to `shape` (the adjoint of `BroadcastTo`).
pub struct SumTo {
    pub shape: Vec<usize>,
}

impl Reshape {
    /// The function that carries the gradient back: a reshape to the
    /// input's shape `x_shape`.
    pub fn gradient_function(&self, x_shape: &Vec<usize>) -> (g: Reshape)
        ensures
            g.shape@ == x_shape@,
    {
        Reshape { shape: x_shape.clone() }
    }
}

impl BroadcastTo {
    /// The function that carries the gradient back: a sum down to the
    /// input's shape `x_shape`.
    pub fn gradient_function(&self, x_shape: &Vec<usize>) -> (g: SumTo)
        ensures
            g.shape@ == x_shape@,
    {
        SumTo { shape: x_shape.clone() }
    }
}

impl SumTo {
    /// The axes summed away to fold an input of shape `x_shape` into
    /// `self.shape`, from the last to the first.
    pub fn summed_axes(&self, x_shape: &Vec<usize>) -> (axes: Vec<usize>)
        ensures
            forall|k: int| 0 <= k < axes@.len() ==> (#[trigger] axes@[k]) < x_shape@.len(),
            forall|k: int, l: int| 0 <= k < l < axes@.len() ==> #[trigger] axes@[k] > #[trigger] axes@[l],
            forall|i: int| 0 <= i < x_shape@.len() ==> (axes@.contains(i as usize) <==> sum_axis_needed(x_shape@, self.shape@, i)),
    {
        sum_to_axes(x_shape, &self.shape)
    }

    /// The function that carries the gradient back: a broadcast to the
    /// input's shape `x_shape`.
    pub fn gradient_function(&self, x_shape: &Vec<usize>) -> (g: BroadcastTo)
        ensures
            g.shape@ == x_shape@,
    {
        BroadcastTo { shape: x_shape.clone() }
    }
}

/// Bilinear upsampling of `(n, c, h, w)` images to `(n, c, 2h, 2w)`.
pub struct UpsampleBilinear2x;

/// The adjoint of `UpsampleBilinear2x` for inputs of shape `input_shape`.
pub struct UpsampleBilinear2xGrad {
    pub input_shape: Vec<usize>,
}

/// The two input rows (or columns) an output row of a 2× bilinear upsampling
/// of `len` rows blends, and the weight of the second in quarters: the
/// output centre `(o + ½)/2 − ½ = (2o − 1)/4` lies between input rows
/// `⌊(2o − 1)/4⌋` and the next, clamped into `0..len`; the second weighs
/// `((2o − 1) mod 4)/4`, the first the rest.
pub open spec fn upsample_tap(len: int, o: int) -> (int, int, int) {
    let y0 = (2 * o - 1) / 4;
    let y1 = y0 + 1;
    let clamp = |v: int|
        if v < 0 {
            0
        } else if v > len - 1 {
            len - 1
        } else {
            v
        };
    (clamp(y0), clamp(y1), (2 * o - 1) % 4)
}

impl UpsampleBilinear2x {
    /// The `(n, c, 2h, 2w)` shape of the upsampled `(n, c, h, w)` images.
    pub fn output_shape(&self, x_shape: &Vec<usize>) -> (y: Vec<usize>)
        requires
            x_shape@.len() == 4,
            2 * x_shape@[2] <= usize::MAX,
            2 * x_shape@[3] <= usize::MAX,
        ensures
            y@ == seq![x_shape@[0], x_shape@[1], (2 * x_shape@[2]) as usize, (2 * x_shape@[3]) as usize],
    {
        let y = vec![x_shape[0], x_shape[1], 2 * x_shape[2], 2 * x_shape[3]];
        assert(y@ =~= seq![x_shape@[0], x_shape@[1], (2 * x_shape@[2]) as usize, (2 * x_shape@[3]) as usize]);
        y
    }

    /// The function that carries the gradient back to inputs of shape
    /// `x_shape`: the adjoint spreading onto that shape.
    pub fn gradient_function(&self, x_shape: &Vec<usize>) -> (g: UpsampleBilinear2xGrad)
        ensures
            g.input_shape@ == x_shape@,
    {
        UpsampleBilinear2xGrad { input_shape: x_shape.clone() }
    }

    /// The blend taps of each of the `2·len` output rows (or columns).
    pub fn taps(len: usize) -> (taps: Vec<(usize, usize, usize)>)
        requires
            len >= 1,
            2 * len <= usize::MAX,
        ensures
            taps@.len() == 2 * len,
            forall|o: int|
                0 <= o < 2 * len ==> {
                    let (a, b, q) = #[trigger] taps@[o];
                    (a as int, b as int, q as int) == upsample_tap(len as int, o)
                },
            forall|o: int| 0 <= o < 2 * len ==> (#[trigger] taps@[o]).0 < len && taps@[o].1 < len && taps@[o].2 < 4,
            taps@[0] == (0usize, 0usize, 3usize),
            taps@[2 * len - 1] == ((len - 1) as usize, (len - 1) as usize, 1usize),
            forall|o: int|
                1 <= o <= 2 * len - 2 ==> 4 * (#[trigger] taps@[o]).0 + taps@[o].2 == 2 * o - 1 && taps@[o].1 == taps@[o].0 + 1,
    {
        let mut taps: Vec<(usize, usize, usize)> = Vec::new();
        let mut o: usize = 0;
        while o < 2 * len
            invariant
                len >= 1,
                2 * len <= usize::MAX,
                o <= 2 * len,
                taps@.len() == o,
                forall|k: int|
                    0 <= k < o ==> {
                        let (a, b, q) = #[trigger] taps@[k];
                        (a as int, b as int, q as int) == upsample_tap(len as int, k)
                    },
                forall|k: int| 0 <= k < o ==> (#[trigger] taps@[k]).0 < len && taps@[k].1 < len && taps@[k].2 < 4,
            decreases 2 * len - o,
        {
            // (2o − 1)/4 rounds down to (o − 1)/2 for o ≥ 1 and to −1 for
            // o = 0; the remainder is 1 for odd o and 3 for even o.
            let half: usize = if o == 0 { 0 } else { (o - 1) / 2 };
            let rem: usize = if o % 2 == 1 { 1 } else { 3 };
            proof {
                if o > 0 {
                    vstd::arithmetic::div_mod::lemma_fundamental_div_mod((o - 1) as int, 2);
                    vstd::arithmetic::div_mod::lemma_fundamental_div_mod(o as int, 2);
                    assert(2 * o - 1 == 4 * half + rem);
                    vstd::arithmetic::div_mod::lemma_fundamental_div_mod_converse(
                        2 * o - 1,
                        4,
                        half as int,
                        rem as int,
                    );
                } else {
                    vstd::arithmetic::div_mod::lemma_fundamental_div_mod_converse(-1, 4, -1, 3);
                }
            }
            let a = if o == 0 {
                0
            } else if half > len - 1 {
                len - 1
            } else {
                half
            };
            let b = if o == 0 {
                0
            } else if half + 1 > len - 1 {
                len - 1
            } else {
                half + 1
            };
            taps.push((a, b, rem));
            o = o + 1;
        }
        proof {
            assert forall|o: int| 1 <= o <= 2 * len - 2 implies 4 * (#[trigger] taps@[o]).0 + taps@[o].2 == 2 * o - 1
                && taps@[o].1 == taps@[o].0 + 1 by {
                lemma_upsample_taps_blend_neighbours(len as int, o);
            }
            lemma_upsample_taps_blend_neighbours(len as int, 0);
            lemma_upsample_taps_blend_neighbours(len as int, 2 * len - 1);
        }
        taps
    }
}

/// Which input rows a 2× bilinear upsampling of `len ≥ 1` rows blends into
/// output row `o`, and with what weight: the first output row copies input
/// row 0 and the last copies input row `len − 1`; every other output row
/// `o` lies a quarter or three quarters of the way between the neighbouring
/// input rows `a` and `a + 1`, where `4a + q = 2o − 1` and the second row
/// weighs `q/4`.
pub proof fn lemma_upsample_taps_blend_neighbours(len: int, o: int)
    requires
        len >= 1,
        0 <= o < 2 * len,
    ensures
        o == 0 ==> upsample_tap(len, o) == (0int, 0int, 3int),
        o == 2 * len - 1 ==> upsample_tap(len, o) == (len - 1, len - 1, 1int),
        1 <= o <= 2 * len - 2 ==> {
            let (a, b, q) = upsample_tap(len, o);
            &&& 4 * a + q == 2 * o - 1
            &&& 1 <= q < 4
            &&& b == a + 1
            &&& 0 <= a
            &&& b < len
        },
{
    vstd::arithmetic::div_mod::lemma_fundamental_div_mod(2 * o - 1, 4);
    vstd::arithmetic::div_mod::lemma_mod_bound(2 * o - 1, 4);
    if o == 0 {
        vstd::arithmetic::div_mod::lemma_fundamental_div_mod_converse(-1, 4, -1, 3);
    }
    if o == 2 * len - 1 {
        vstd::arithmetic::div_mod::lemma_fundamental_div_mod_converse(4 * len - 3, 4, len - 1, 1);
    }
    if 1 <= o <= 2 * len - 2 {
        let h = if o % 2 == 1 { (o - 1) / 2 } else { (o - 2) / 2 };
        vstd::arithmetic::div_mod::lemma_fundamental_div_mod(o, 2);
        let r = if o % 2 == 1 { 1int } else { 3int };
        assert(2 * o - 1 == 4 * h + r);
        vstd::arithmetic::div_mod::lemma_fundamental_div_mod_converse(2 * o - 1, 4, h, r);
    }
}

impl UpsampleBilinear2xGrad {
    /// The function that carries the gradient of the spreading back: the
    /// upsampling itself.
    pub fn gradient_function(&self) -> (g: UpsampleBilinear2x) {
        UpsampleBilinear2x
    }
}

} // verus!
