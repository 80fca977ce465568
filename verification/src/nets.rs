use vstd::prelude::*;

use crate::cnn::{conv_output_size, spec_conv_output_size};

verus! {

/// The addition node of a computational graph: its gradient passes the
/// upstream gradient unchanged to both inputs.
pub struct AddLayer;

impl AddLayer {
    /// The gradients with respect to both summands.
    pub fn backward<T: Copy>(&self, dout: T) -> (r: (T, T))
        ensures
            r == (dout, dout),
    {
        (dout, dout)
    }
}

/// Settings of the convolution layer of a `SimpleConvNet`.
#[derive(Clone)]
pub struct ConvParams {
    pub filter_num: usize,
    pub filter_size: usize,
    pub stride: usize,
    pub pad: usize,
}

impl Default for ConvParams {
    /// Thirty 5 × 5 filters, stride 1, no padding.
    fn default() -> (p: ConvParams)
        ensures
            p.filter_num == 30,
            p.filter_size == 5,
            p.stride == 1,
            p.pad == 0,
    {
        ConvParams { filter_num: 30, filter_size: 5, stride: 1, pad: 0 }
    }
}

/// Sizes of the layers of a `SimpleConvNet`
/// (convolution → ReLU → 2 × 2 pooling → affine → ReLU → affine).
pub struct SimpleConvNetShapes {
    pub conv_output_height: usize,
    pub conv_output_width: usize,
    pub pool_output_height: usize,
    pub pool_output_width: usize,
    /// Length of the flattened pooling output, the input of the first affine layer.
    pub pool_output_size: usize,
    /// Inputs seen by one convolution filter: `channels · filter_size²`.
    pub fan_in_conv: usize,
    pub w1: (usize, usize, usize, usize),
    pub w2: (usize, usize),
    pub w3: (usize, usize),
}

/// The side of the pooling window of a `SimpleConvNet`.
pub const POOL_SIZE: usize = 2;

/// The layer sizes a `SimpleConvNet` is built with for `(channels, height,
/// width)` inputs: the convolution output is `(side + 2·pad −
/// filter_size)/stride + 1` along each axis, the pooling halves it (rounding
/// down), and the first affine layer takes the `filter_num` pooled maps
/// flattened.
pub fn simple_conv_net_shapes(
    input_dim: (usize, usize, usize),
    conv_params: &ConvParams,
    hidden_size: usize,
    output_size: usize,
) -> (s: SimpleConvNetShapes)
    requires
        conv_params.stride > 0,
        input_dim.1 + 2 * conv_params.pad < usize::MAX,
        input_dim.2 + 2 * conv_params.pad < usize::MAX,
        conv_params.filter_size <= input_dim.1 + 2 * conv_params.pad,
        conv_params.filter_size <= input_dim.2 + 2 * conv_params.pad,
        conv_params.filter_num * (spec_conv_output_size(input_dim.1 as int, conv_params.filter_size as int, conv_params.stride as int, conv_params.pad as int) / 2)
            * (spec_conv_output_size(input_dim.2 as int, conv_params.filter_size as int, conv_params.stride as int, conv_params.pad as int) / 2) <= usize::MAX,
        input_dim.0 * conv_params.filter_size * conv_params.filter_size <= usize::MAX,
    ensures
        ({
            let (c, h, w) = input_dim;
            let fs = conv_params.filter_size;
            let oh = spec_conv_output_size(h as int, fs as int, conv_params.stride as int, conv_params.pad as int);
            let ow = spec_conv_output_size(w as int, fs as int, conv_params.stride as int, conv_params.pad as int);
            &&& s.conv_output_height == oh
            &&& s.conv_output_width == ow
            &&& s.pool_output_height == oh / 2
            &&& s.pool_output_width == ow / 2
            &&& s.pool_output_size == conv_params.filter_num * (oh / 2) * (ow / 2)
            &&& s.fan_in_conv == c * fs * fs
            &&& s.w1 == (conv_params.filter_num, c, fs, fs)
            &&& s.w2 == (s.pool_output_size, hidden_size)
            &&& s.w3 == (hidden_size, output_size)
        }),
{
    let (c, h, w) = input_dim;
    let fs = conv_params.filter_size;
    let oh = conv_output_size(h, fs, conv_params.stride, conv_params.pad);
    let ow = conv_output_size(w, fs, conv_params.stride, conv_params.pad);
    let ph = oh / POOL_SIZE;
    let pw = ow / POOL_SIZE;
    let pool_output_size = mul3(conv_params.filter_num, ph, pw);
    let fan_in_conv = mul3(c, fs, fs);
    SimpleConvNetShapes {
        conv_output_height: oh,
        conv_output_width: ow,
        pool_output_height: ph,
        pool_output_width: pw,
        pool_output_size,
        fan_in_conv,
        w1: (conv_params.filter_num, c, fs, fs),
        w2: (pool_output_size, hidden_size),
        w3: (hidden_size, output_size),
    }
}

/// `a·b·c`, computed without an intermediate overflow.
fn mul3(a: usize, b: usize, c: usize) -> (r: usize)
    requires
        a * b * c <= usize::MAX,
    ensures
        r == a * b * c,
{
    if c == 0 {
        assert(a * b * c == 0) by (nonlinear_arith)
            requires
                c == 0,
        ;
        0
    } else {
        assert(a * b <= a * b * c) by (nonlinear_arith)
            requires
                c >= 1,
                a >= 0,
                b >= 0,
        ;
        a * b * c
    }
}

/// The consecutive ranges `[start, end)` of at most `batch_size` samples
/// that cover `0..n` in order; the last may be shorter.
pub fn chunk_ranges(n: usize, batch_size: usize) -> (r: Vec<(usize, usize)>)
    requires
        batch_size > 0,
    ensures
        r@.len() == (n + batch_size - 1) / batch_size as int,
        forall|k: int|
            0 <= k < r@.len() ==> #[trigger] r@[k] == (
                (k * batch_size) as usize,
                (if k * batch_size + batch_size < n { k * batch_size + batch_size } else { n as int }) as usize,
            ),
{
    let mut r: Vec<(usize, usize)> = Vec::new();
    let mut start: usize = 0;
    let ghost mut k: int = 0;
    while start < n
        invariant
            batch_size > 0,
            k >= 0,
            start == (if k * batch_size < n { k * batch_size } else { n as int }),
            k == r@.len(),
            k == 0 || (k - 1) * batch_size < n,
            forall|j: int|
                0 <= j < r@.len() ==> #[trigger] r@[j] == (
                    (j * batch_size) as usize,
                    (if j * batch_size + batch_size < n { j * batch_size + batch_size } else { n as int }) as usize,
                ),
        decreases n - start,
    {
        let end = if batch_size < n - start {
            start + batch_size
        } else {
            n
        };
        assert(k * batch_size + batch_size == (k + 1) * batch_size) by (nonlinear_arith);
        r.push((start, end));
        proof {
            k = k + 1;
        }
        start = end;
    }
    proof {
        lemma_ceil_count(n as int, batch_size as int, k);
    }
    r
}

/// The loop of `chunk_ranges` stops after `⌈n / batch_size⌉` ranges.
proof fn lemma_ceil_count(n: int, batch_size: int, k: int)
    requires
        batch_size > 0,
        n >= 0,
        k >= 0,
        k * batch_size >= n,
        k == 0 || (k - 1) * batch_size < n,
    ensures
        k == (n + batch_size - 1) / batch_size,
{
    if k == 0 {
        assert(n == 0) by (nonlinear_arith)
            requires
                k == 0,
                k * batch_size >= n,
                n >= 0,
        ;
        vstd::arithmetic::div_mod::lemma_fundamental_div_mod_converse(n + batch_size - 1, batch_size, 0, batch_size - 1);
    } else {
        assert((k - 1) * batch_size == k * batch_size - batch_size) by (nonlinear_arith);
        vstd::arithmetic::div_mod::lemma_fundamental_div_mod_converse(
            n + batch_size - 1,
            batch_size,
            k,
            n + batch_size - 1 - k * batch_size,
        );
    }
}

/// Number of positions below `len` where `a` and `b` agree.
pub open spec fn matches_below(a: Seq<usize>, b: Seq<usize>, len: int) -> int
    decreases len,
{
    if len <= 0 {
        0
    } else {
        matches_below(a, b, len - 1) + if a[len - 1] == b[len - 1] {
            1int
        } else {
            0int
        }
    }
}

/// How many predicted classes equal the true ones, position by position over
/// the shorter of the two lists.
pub fn count_matches(predicted: &Vec<usize>, truth: &Vec<usize>) -> (c: usize)
    ensures
        c == matches_below(
            predicted@,
            truth@,
            if predicted@.len() < truth@.len() { predicted@.len() as int } else { truth@.len() as int },
        ),
{
    let n = if predicted.len() < truth.len() {
        predicted.len()
    } else {
        truth.len()
    };
    let mut c: usize = 0;
    let mut i: usize = 0;
    while i < n
        invariant
            n <= predicted@.len(),
            n <= truth@.len(),
            i <= n,
            c == matches_below(predicted@, truth@, i as int),
            c <= i,
        decreases n - i,
    {
        if predicted[i] == truth[i] {
            c = c + 1;
        }
        i = i + 1;
    }
    c
}

/// One layer of a convolutional network, by its shape-determining settings.
#[derive(Clone, Copy, Debug, PartialEq, Eq, Structural)]
pub enum LayerSpec {
    /// `filters` kernels of `kernel × kernel` over `channels` channels.
    Conv { filters: usize, channels: usize, kernel: usize, stride: usize, pad: usize },
    Relu,
    /// Max pooling over `size × size` windows moved by `stride`, unpadded.
    Pool { size: usize, stride: usize },
    Flatten,
    Affine { fan_in: usize, fan_out: usize },
    Dropout,
}

/// The shape of the data between two layers: a `(channels, height, width)`
/// image per sample, or a vector of `n` features per sample.
pub enum FeatureDims {
    Image(usize, usize, usize),
    Flat(usize),
}

/// The shape after `layer`, or `None` when the layer does not fit its input
/// (wrong channel or feature count, a window larger than the padded input,
/// flattening a vector) or a size does not fit in `usize`. Pooling keeps
/// the windows that fit whole, `(side − size) / stride + 1` per axis
/// (rounding down), and drops the cells past the last of them.
pub open spec fn step_dims(layer: LayerSpec, d: FeatureDims) -> Option<FeatureDims> {
    match (layer, d) {
        (LayerSpec::Conv { filters, channels, kernel, stride, pad }, FeatureDims::Image(c, h, w)) => {
            if c == channels && stride > 0 && h + 2 * pad < usize::MAX && w + 2 * pad < usize::MAX && kernel <= h + 2 * pad
                && kernel <= w + 2 * pad {
                Some(
                    FeatureDims::Image(
                        filters,
                        spec_conv_output_size(h as int, kernel as int, stride as int, pad as int) as usize,
                        spec_conv_output_size(w as int, kernel as int, stride as int, pad as int) as usize,
                    ),
                )
            } else {
                None
            }
        },
        (LayerSpec::Relu, d) => Some(d),
        (LayerSpec::Dropout, d) => Some(d),
        (LayerSpec::Pool { size, stride }, FeatureDims::Image(c, h, w)) => {
            if stride > 0 && size <= h && size <= w && (h - size) / (stride as int) + 1 <= usize::MAX && (w - size) / (stride as int)
                + 1 <= usize::MAX {
                Some(
                    FeatureDims::Image(
                        c,
                        spec_conv_output_size(h as int, size as int, stride as int, 0) as usize,
                        spec_conv_output_size(w as int, size as int, stride as int, 0) as usize,
                    ),
                )
            } else {
                None
            }
        },
        (LayerSpec::Flatten, FeatureDims::Image(c, h, w)) => {
            if c * h * w <= usize::MAX {
                Some(FeatureDims::Flat((c * h * w) as usize))
            } else {
                None
            }
        },
        (LayerSpec::Affine { fan_in, fan_out }, FeatureDims::Flat(n)) => {
            if n == fan_in {
                Some(FeatureDims::Flat(fan_out))
            } else {
                None
            }
        },
        _ => None,
    }
}

/// The shape after the first `k` layers.
pub open spec fn dims_after(layers: Seq<LayerSpec>, input: FeatureDims, k: int) -> Option<FeatureDims>
    decreases k,
{
    if k <= 0 {
        Some(input)
    } else {
        match dims_after(layers, input, k - 1) {
            Some(d) => step_dims(layers[k - 1], d),
            None => None,
        }
    }
}

/// Computes `step_dims`.
pub fn next_dims(layer: &LayerSpec, d: &FeatureDims) -> (r: Option<FeatureDims>)
    ensures
        r == step_dims(*layer, *d),
{
    match (layer, d) {
        (LayerSpec::Conv { filters, channels, kernel, stride, pad }, FeatureDims::Image(c, h, w)) => {
            if *c == *channels && *stride > 0 && *pad <= (usize::MAX - 1) / 2 && *h < usize::MAX - 2 * *pad
                && *w < usize::MAX - 2 * *pad && *kernel <= *h + 2 * *pad && *kernel <= *w + 2 * *pad {
                let oh = conv_output_size(*h, *kernel, *stride, *pad);
                let ow = conv_output_size(*w, *kernel, *stride, *pad);
                Some(FeatureDims::Image(*filters, oh, ow))
            } else {
                None
            }
        },
        (LayerSpec::Relu, d) => Some(copy_dims(d)),
        (LayerSpec::Dropout, d) => Some(copy_dims(d)),
        (LayerSpec::Pool { size, stride }, FeatureDims::Image(c, h, w)) => {
            if *stride > 0 && *size <= *h && *size <= *w && (*h - *size) / *stride < usize::MAX && (*w - *size) / *stride
                < usize::MAX {
                let oh = (*h - *size) / *stride + 1;
                let ow = (*w - *size) / *stride + 1;
                Some(FeatureDims::Image(*c, oh, ow))
            } else {
                None
            }
        },
        (LayerSpec::Flatten, FeatureDims::Image(c, h, w)) => {
            match checked_mul3(*c, *h, *w) {
                Some(n) => Some(FeatureDims::Flat(n)),
                None => None,
            }
        },
        (LayerSpec::Affine { fan_in, fan_out }, FeatureDims::Flat(n)) => {
            if *n == *fan_in {
                Some(FeatureDims::Flat(*fan_out))
            } else {
                None
            }
        },
        (LayerSpec::Conv { .. }, FeatureDims::Flat(_)) => None,
        (LayerSpec::Pool { .. }, FeatureDims::Flat(_)) => None,
        (LayerSpec::Flatten, FeatureDims::Flat(_)) => None,
        (LayerSpec::Affine { .. }, FeatureDims::Image(..)) => None,
    }
}

fn copy_dims(d: &FeatureDims) -> (r: FeatureDims)
    ensures
        r == *d,
{
    match d {
        FeatureDims::Image(c, h, w) => FeatureDims::Image(*c, *h, *w),
        FeatureDims::Flat(n) => FeatureDims::Flat(*n),
    }
}

/// `a·b·c` when it fits in `usize`.
fn checked_mul3(a: usize, b: usize, c: usize) -> (r: Option<usize>)
    ensures
        r is Some <==> a * b * c <= usize::MAX,
        r matches Some(v) ==> v == a * b * c,
{
    if c == 0 {
        assert(a * b * c == 0) by (nonlinear_arith)
            requires
                c == 0,
        ;
        return Some(0);
    }
    match a.checked_mul(b) {
        Some(ab) => match ab.checked_mul(c) {
            Some(v) => Some(v),
            None => None,
        },
        None => {
            assert(a * b * c >= a * b) by (nonlinear_arith)
                requires
                    c >= 1,
                    a >= 0,
                    b >= 0,
            ;
            None
        },
    }
}

/// The shape of the data after running through all of `layers`, or `None`
/// when some layer does not fit its input.
pub fn output_dims(layers: &Vec<LayerSpec>, input: &FeatureDims) -> (r: Option<FeatureDims>)
    ensures
        r == dims_after(layers@, *input, layers@.len() as int),
{
    let mut d = copy_dims(input);
    let mut i: usize = 0;
    while i < layers.len()
        invariant
            i <= layers@.len(),
            dims_after(layers@, *input, i as int) == Some(d),
        decreases layers@.len() - i,
    {
        match next_dims(&layers[i], &d) {
            Some(nd) => {
                d = nd;
            },
            None => {
                proof {
                    lemma_dims_after_stays_none(layers@, *input, i as int + 1, layers@.len() as int);
                }
                return None;
            },
        }
        i = i + 1;
    }
    Some(d)
}

proof fn lemma_dims_after_stays_none(layers: Seq<LayerSpec>, input: FeatureDims, k: int, m: int)
    requires
        0 <= k <= m,
        dims_after(layers, input, k) is None,
    ensures
        dims_after(layers, input, m) is None,
    decreases m - k,
{
    if k < m {
        lemma_dims_after_stays_none(layers, input, k + 1, m);
    }
}

/// The layers of `DeepConvNet`: three blocks of two 3 × 3 convolutions with
/// ReLU and a 2 × 2 pooling (16, 32 and 64 filters; the second convolution
/// of the second block pads by 2 so that 14 × 14 maps grow to 16 × 16 and
/// every pooling halves its input exactly), then a flattening, an affine
/// layer of 50 units on the 64·4·4 features with ReLU and dropout, and an
/// affine layer of 10 units with dropout.
pub open spec fn deep_conv_net_spec() -> Seq<LayerSpec> {
    seq![
        LayerSpec::Conv { filters: 16, channels: 1, kernel: 3, stride: 1, pad: 1 },
        LayerSpec::Relu,
        LayerSpec::Conv { filters: 16, channels: 16, kernel: 3, stride: 1, pad: 1 },
        LayerSpec::Relu,
        LayerSpec::Pool { size: 2, stride: 2 },
        LayerSpec::Conv { filters: 32, channels: 16, kernel: 3, stride: 1, pad: 1 },
        LayerSpec::Relu,
        LayerSpec::Conv { filters: 32, channels: 32, kernel: 3, stride: 1, pad: 2 },
        LayerSpec::Relu,
        LayerSpec::Pool { size: 2, stride: 2 },
        LayerSpec::Conv { filters: 64, channels: 32, kernel: 3, stride: 1, pad: 1 },
        LayerSpec::Relu,
        LayerSpec::Conv { filters: 64, channels: 64, kernel: 3, stride: 1, pad: 1 },
        LayerSpec::Relu,
        LayerSpec::Pool { size: 2, stride: 2 },
        LayerSpec::Flatten,
        LayerSpec::Affine { fan_in: 1024, fan_out: 50 },
        LayerSpec::Relu,
        LayerSpec::Dropout,
        LayerSpec::Affine { fan_in: 50, fan_out: 10 },
        LayerSpec::Dropout,
    ]
}

/// The layer plan of `DeepConvNet`, in order.
pub fn deep_conv_net_layers() -> (layers: Vec<LayerSpec>)
    ensures
        layers@ == deep_conv_net_spec(),
{
    let layers = vec![
        LayerSpec::Conv { filters: 16, channels: 1, kernel: 3, stride: 1, pad: 1 },
        LayerSpec::Relu,
        LayerSpec::Conv { filters: 16, channels: 16, kernel: 3, stride: 1, pad: 1 },
        LayerSpec::Relu,
        LayerSpec::Pool { size: 2, stride: 2 },
        LayerSpec::Conv { filters: 32, channels: 16, kernel: 3, stride: 1, pad: 1 },
        LayerSpec::Relu,
        LayerSpec::Conv { filters: 32, channels: 32, kernel: 3, stride: 1, pad: 2 },
        LayerSpec::Relu,
        LayerSpec::Pool { size: 2, stride: 2 },
        LayerSpec::Conv { filters: 64, channels: 32, kernel: 3, stride: 1, pad: 1 },
        LayerSpec::Relu,
        LayerSpec::Conv { filters: 64, channels: 64, kernel: 3, stride: 1, pad: 1 },
        LayerSpec::Relu,
        LayerSpec::Pool { size: 2, stride: 2 },
        LayerSpec::Flatten,
        LayerSpec::Affine { fan_in: 1024, fan_out: 50 },
        LayerSpec::Relu,
        LayerSpec::Dropout,
        LayerSpec::Affine { fan_in: 50, fan_out: 10 },
        LayerSpec::Dropout,
    ];
    assert(layers@ =~= deep_conv_net_spec());
    layers
}

/// On one-channel 28 × 28 images the layers of `DeepConvNet` fit together
/// and end in 10 class scores: the poolings take 28 → 14, 16 → 8 and 8 → 4
/// and the flattened features are exactly the 1024 inputs of the first
/// affine layer.
pub proof fn lemma_deep_conv_net_fits_mnist()
    ensures
        dims_after(deep_conv_net_spec(), FeatureDims::Image(1, 28, 28), 21) == Some(FeatureDims::Flat(10)),
{
    let layers = deep_conv_net_spec();
    let input = FeatureDims::Image(1, 28, 28);
    reveal_with_fuel(dims_after, 2);
    assert(layers[0] == LayerSpec::Conv { filters: 16, channels: 1, kernel: 3, stride: 1, pad: 1 });
    assert(spec_conv_output_size(28, 3, 1, 1) == 28) by (nonlinear_arith);
    assert(step_dims(layers[0], input) == Some(FeatureDims::Image(16, 28, 28)));
    assert(dims_after(layers, input, 1) == Some(FeatureDims::Image(16, 28, 28)));
    assert(dims_after(layers, input, 2) == Some(FeatureDims::Image(16, 28, 28)));
    assert(dims_after(layers, input, 3) == Some(FeatureDims::Image(16, 28, 28)));
    assert(dims_after(layers, input, 4) == Some(FeatureDims::Image(16, 28, 28)));
    assert(dims_after(layers, input, 5) == Some(FeatureDims::Image(16, 14, 14)));
    assert(dims_after(layers, input, 6) == Some(FeatureDims::Image(32, 14, 14)));
    assert(dims_after(layers, input, 7) == Some(FeatureDims::Image(32, 14, 14)));
    assert(dims_after(layers, input, 8) == Some(FeatureDims::Image(32, 16, 16)));
    assert(dims_after(layers, input, 9) == Some(FeatureDims::Image(32, 16, 16)));
    assert(dims_after(layers, input, 10) == Some(FeatureDims::Image(32, 8, 8)));
    assert(dims_after(layers, input, 11) == Some(FeatureDims::Image(64, 8, 8)));
    assert(dims_after(layers, input, 12) == Some(FeatureDims::Image(64, 8, 8)));
    assert(dims_after(layers, input, 13) == Some(FeatureDims::Image(64, 8, 8)));
    assert(dims_after(layers, input, 14) == Some(FeatureDims::Image(64, 8, 8)));
    assert(dims_after(layers, input, 15) == Some(FeatureDims::Image(64, 4, 4)));
    assert(layers[15] == LayerSpec::Flatten);
    assert(64 * 4 * 4 == 1024);
    assert(dims_after(layers, input, 16) == Some(FeatureDims::Flat(1024)));
    assert(dims_after(layers, input, 17) == Some(FeatureDims::Flat(50)));
    assert(dims_after(layers, input, 18) == Some(FeatureDims::Flat(50)));
    assert(dims_after(layers, input, 19) == Some(FeatureDims::Flat(50)));
    assert(dims_after(layers, input, 20) == Some(FeatureDims::Flat(10)));
}


/// The shapes of the learnable parameters of one layer and the fan-in its
/// He initialisation scales by (`√(2 / fan_in)`).
#[derive(Clone, Copy, Debug)]
pub enum ParamShapes {
    /// Filters `(filters, channels, kernel, kernel)`, one bias per filter,
    /// and `channels · kernel²` inputs per filter.
    Conv { filters: (usize, usize, usize, usize), bias_len: usize, fan_in: usize },
    /// Weights `(fan_in, fan_out)` and a `(1, fan_out)` bias row.
    Affine { weights: (usize, usize), bias_row: (usize, usize), fan_in: usize },
}

/// The parameters of `layer`, or `None` for a layer without any.
pub open spec fn layer_params(layer: LayerSpec) -> Option<ParamShapes> {
    match layer {
        LayerSpec::Conv { filters, channels, kernel, stride, pad } => Some(
            ParamShapes::Conv {
                filters: (filters, channels, kernel, kernel),
                bias_len: filters,
                fan_in: (channels * kernel * kernel) as usize,
            },
        ),
        LayerSpec::Affine { fan_in, fan_out } => Some(
            ParamShapes::Affine { weights: (fan_in, fan_out), bias_row: (1usize, fan_out), fan_in },
        ),
        _ => None,
    }
}

/// The parameters of the first `k` layers, in layer order.
pub open spec fn params_of(layers: Seq<LayerSpec>, k: int) -> Seq<ParamShapes>
    decreases k,
{
    if k <= 0 {
        Seq::empty()
    } else {
        let before = params_of(layers, k - 1);
        match layer_params(layers[k - 1]) {
            Some(p) => before.push(p),
            None => before,
        }
    }
}

/// No filter of `layers` sees more inputs than `usize` can count.
pub open spec fn fan_ins_fit(layers: Seq<LayerSpec>) -> bool {
    forall|i: int|
        0 <= i < layers.len() ==> match #[trigger] layers[i] {
            LayerSpec::Conv { channels, kernel, .. } => channels * kernel * kernel <= usize::MAX,
            _ => true,
        }
}

/// The parameters a network of `layers` is built with, layer by layer:
/// every convolution and every affine layer contributes its shapes, the
/// other layers none.
pub fn param_shapes(layers: &Vec<LayerSpec>) -> (r: Vec<ParamShapes>)
    requires
        fan_ins_fit(layers@),
    ensures
        r@ == params_of(layers@, layers@.len() as int),
{
    let mut r: Vec<ParamShapes> = Vec::new();
    let mut i: usize = 0;
    while i < layers.len()
        invariant
            i <= layers@.len(),
            fan_ins_fit(layers@),
            r@ == params_of(layers@, i as int),
        decreases layers@.len() - i,
    {
        let layer = layers[i];
        match layer {
            LayerSpec::Conv { filters, channels, kernel, stride, pad } => {
                assert(channels * kernel * kernel <= usize::MAX);
                let fan_in = mul3(channels, kernel, kernel);
                r.push(ParamShapes::Conv { filters: (filters, channels, kernel, kernel), bias_len: filters, fan_in });
            },
            LayerSpec::Affine { fan_in, fan_out } => {
                r.push(ParamShapes::Affine { weights: (fan_in, fan_out), bias_row: (1, fan_out), fan_in });
            },
            _ => {},
        }
        i = i + 1;
    }
    r
}

/// A convolution with at most 64 channels and 3 × 3 kernels.
spec fn small_fan_in(layer: LayerSpec) -> bool {
    match layer {
        LayerSpec::Conv { channels, kernel, .. } => channels <= 64 && kernel <= 3,
        _ => true,
    }
}

/// The parameters `DeepConvNet` is built with: six convolutions and two
/// affine layers, in layer order.
pub fn deep_conv_net_param_shapes() -> (r: Vec<ParamShapes>)
    ensures
        r@ == params_of(deep_conv_net_spec(), 21),
{
    let layers = deep_conv_net_layers();
    proof {
        let l = deep_conv_net_spec();
        assert forall|i: int| 0 <= i < l.len() implies match #[trigger] l[i] {
            LayerSpec::Conv { channels, kernel, .. } => channels * kernel * kernel <= usize::MAX,
            _ => true,
        } by {
            // every convolution has at most 64 channels and 3 × 3 kernels
            assert(small_fan_in(l[i]));
            if let LayerSpec::Conv { channels, kernel, .. } = l[i] {
                assert(channels * kernel * kernel <= 64 * 3 * 3) by (nonlinear_arith)
                    requires
                        channels <= 64,
                        kernel <= 3,
                ;
            }
        }
    }
    param_shapes(&layers)
}


/// `n` window positions of a `size` window moved by `stride` fit in
/// `extent` cells, and one more would not: the last window ends inside,
/// the next would stick out.
pub open spec fn window_count_fits(n: int, extent: int, size: int, stride: int) -> bool {
    &&& n >= 1
    &&& (n - 1) * stride + size <= extent
    &&& extent < n * stride + size
}

proof fn lemma_window_count(extent: int, size: int, stride: int)
    requires
        stride > 0,
        0 <= size <= extent,
    ensures
        window_count_fits((extent - size) / stride + 1, extent, size, stride),
{
    let q = (extent - size) / stride;
    let r = (extent - size) % stride;
    vstd::arithmetic::div_mod::lemma_fundamental_div_mod(extent - size, stride);
    vstd::arithmetic::div_mod::lemma_mod_bound(extent - size, stride);
    vstd::arithmetic::div_mod::lemma_div_pos_is_pos(extent - size, stride);
    assert(((q + 1) - 1) * stride + size <= extent && extent < (q + 1) * stride + size) by (nonlinear_arith)
        requires
            extent - size == stride * q + r,
            0 <= r < stride,
    ;
}

/// A convolution turns `c` maps of `h × w` into `filters` maps, and along
/// each axis of the padded input it keeps exactly the window positions that
/// fit: the stride steps between them and the last one ends inside. With
/// another channel count than the layer's it does not apply.
pub proof fn lemma_conv_step_counts_windows(
    filters: usize,
    channels: usize,
    kernel: usize,
    stride: usize,
    pad: usize,
    c: usize,
    h: usize,
    w: usize,
)
    ensures
        c != channels ==> step_dims(LayerSpec::Conv { filters, channels, kernel, stride, pad }, FeatureDims::Image(c, h, w)) is None,
        (c == channels && stride > 0 && h + 2 * pad < usize::MAX && w + 2 * pad < usize::MAX && kernel <= h + 2 * pad
            && kernel <= w + 2 * pad) ==> (step_dims(
            LayerSpec::Conv { filters, channels, kernel, stride, pad },
            FeatureDims::Image(c, h, w),
        ) matches Some(FeatureDims::Image(f, oh, ow)) && f == filters && window_count_fits(
            oh as int,
            h + 2 * pad,
            kernel as int,
            stride as int,
        ) && window_count_fits(ow as int, w + 2 * pad, kernel as int, stride as int)),
{
    if c == channels && stride > 0 && h + 2 * pad < usize::MAX && w + 2 * pad < usize::MAX && kernel <= h + 2 * pad && kernel
        <= w + 2 * pad {
        lemma_window_count(h + 2 * pad, kernel as int, stride as int);
        lemma_window_count(w + 2 * pad, kernel as int, stride as int);
        vstd::arithmetic::div_mod::lemma_div_is_ordered_by_denominator(h + 2 * pad - kernel, 1, stride as int);
        vstd::arithmetic::div_mod::lemma_div_is_ordered_by_denominator(w + 2 * pad - kernel, 1, stride as int);
        vstd::arithmetic::div_mod::lemma_div_pos_is_pos(h + 2 * pad - kernel, stride as int);
        vstd::arithmetic::div_mod::lemma_div_pos_is_pos(w + 2 * pad - kernel, stride as int);
    }
}

/// Max pooling keeps the channels and, along each axis, exactly the window
/// positions that fit whole in the unpadded map.
pub proof fn lemma_pool_step_counts_windows(size: usize, stride: usize, c: usize, h: usize, w: usize)
    requires
        stride > 0,
        size <= h,
        size <= w,
        h - size < usize::MAX,
        w - size < usize::MAX,
    ensures
        step_dims(LayerSpec::Pool { size, stride }, FeatureDims::Image(c, h, w)) matches Some(FeatureDims::Image(c2, oh, ow))
            && c2 == c && window_count_fits(oh as int, h as int, size as int, stride as int) && window_count_fits(
            ow as int,
            w as int,
            size as int,
            stride as int,
        ),
{
    lemma_window_count(h as int, size as int, stride as int);
    lemma_window_count(w as int, size as int, stride as int);
    vstd::arithmetic::div_mod::lemma_div_is_ordered_by_denominator(h - size, 1, stride as int);
    vstd::arithmetic::div_mod::lemma_div_is_ordered_by_denominator(w - size, 1, stride as int);
    assert((h - size) / 1 == h - size);
    assert((w - size) / 1 == w - size);
    vstd::arithmetic::div_mod::lemma_div_pos_is_pos(h - size, stride as int);
    vstd::arithmetic::div_mod::lemma_div_pos_is_pos(w - size, stride as int);
}

/// ReLU and dropout keep the shape; flattening lays `c` maps of `h × w` out
/// as `c·h·w` features; an affine layer maps exactly `fan_in` features to
/// `fan_out`; a layer of the wrong kind for its input does not apply.
pub proof fn lemma_other_steps(layer: LayerSpec, d: FeatureDims)
    ensures
        (layer is Relu || layer is Dropout) ==> step_dims(layer, d) == Some(d),
        layer is Flatten ==> match d {
            FeatureDims::Image(c, h, w) => c * h * w <= usize::MAX ==> (step_dims(layer, d) matches Some(
                FeatureDims::Flat(n),
            ) && n == c * h * w),
            FeatureDims::Flat(_) => step_dims(layer, d) is None,
        },
        layer matches LayerSpec::Affine { fan_in, fan_out } ==> match d {
            FeatureDims::Flat(n) => (n == fan_in ==> step_dims(layer, d) == Some(FeatureDims::Flat(fan_out))) && (n
                != fan_in ==> step_dims(layer, d) is None),
            FeatureDims::Image(..) => step_dims(layer, d) is None,
        },
        (layer is Conv || layer is Pool) && d is Flat ==> step_dims(layer, d) is None,
{
}


/// `layer` is a 3 × 3 convolution with stride 1 and padding `pad` from
/// `channels` to `filters` maps.
pub open spec fn is_conv3(layer: LayerSpec, channels: int, filters: int, pad: int) -> bool {
    layer == LayerSpec::Conv {
        filters: filters as usize,
        channels: channels as usize,
        kernel: 3,
        stride: 1,
        pad: pad as usize,
    } && 0 <= channels <= usize::MAX && 0 <= filters <= usize::MAX
}

/// Block `b` of a convolutional stack in `layers`: convolution, ReLU,
/// convolution, ReLU, 2 × 2 pooling with stride 2, from `channels` maps to
/// `filters` maps; the second convolution pads by `pad2`.
pub open spec fn conv_block(layers: Seq<LayerSpec>, b: int, channels: int, filters: int, pad2: int) -> bool {
    &&& is_conv3(layers[5 * b], channels, filters, 1)
    &&& layers[5 * b + 1] == LayerSpec::Relu
    &&& is_conv3(layers[5 * b + 2], filters, filters, pad2)
    &&& layers[5 * b + 3] == LayerSpec::Relu
    &&& layers[5 * b + 4] == LayerSpec::Pool { size: 2, stride: 2 }
}

/// The structure of `DeepConvNet`: three blocks of [convolution, ReLU,
/// convolution, ReLU, pooling] whose filter count starts at 16 on the one
/// input channel and doubles from block to block, each block reading the
/// maps of the one before; then flattening, an affine layer from the 64·4·4
/// features to 50 units, ReLU, dropout, an affine layer to the 10 class
/// scores and a final dropout, so nothing clips the scores after the last
/// affine layer.
pub proof fn lemma_deep_conv_net_structure()
    ensures
        deep_conv_net_spec().len() == 21,
        conv_block(deep_conv_net_spec(), 0, 1, 16, 1),
        conv_block(deep_conv_net_spec(), 1, 16, 32, 2),
        conv_block(deep_conv_net_spec(), 2, 32, 64, 1),
        deep_conv_net_spec()[15] == LayerSpec::Flatten,
        deep_conv_net_spec()[16] == (LayerSpec::Affine { fan_in: 1024, fan_out: 50 }),
        deep_conv_net_spec()[17] == LayerSpec::Relu,
        deep_conv_net_spec()[18] == LayerSpec::Dropout,
        deep_conv_net_spec()[19] == (LayerSpec::Affine { fan_in: 50, fan_out: 10 }),
        forall|i: int| 19 < i < deep_conv_net_spec().len() ==> #[trigger] deep_conv_net_spec()[i] == LayerSpec::Dropout,
{
    let l = deep_conv_net_spec();
    assert(conv_block(l, 0, 1, 16, 1));
    assert(conv_block(l, 1, 16, 32, 2));
    assert(conv_block(l, 2, 32, 64, 1));
}

} // verus!
