use vstd::prelude::*;

use ndarray::{Array1, Array4, ShapeError};

verus! {

#[verifier::external_type_specification]
#[verifier::external_body]
pub struct ExShapeError(ShapeError);

/// A one-dimensional byte array of `ndarray`, held opaquely.
#[verifier::external_body]
pub struct ByteArray1 {
    array: Array1<u8>,
}

/// A four-dimensional byte array of `ndarray`, held opaquely.
#[verifier::external_body]
pub struct ByteArray4 {
    array: Array4<u8>,
}

/// The elements of a one-dimensional byte array, in order.
pub uninterp spec fn array1_elements(a: ByteArray1) -> Seq<u8>;

/// The elements of a four-dimensional byte array in row-major order.
pub uninterp spec fn array4_elements(a: ByteArray4) -> Seq<u8>;

/// The dimensions of a four-dimensional byte array.
pub uninterp spec fn array4_dims(a: ByteArray4) -> (usize, usize, usize, usize);

/// `ndarray::Array1::from_vec`: the array holds the vector's elements in
/// their order (for a byte element the length check of the source never
/// fails).
#[verifier::external_body]
fn array1_from_vec(v: Vec<u8>) -> (a: ByteArray1)
    ensures
        array1_elements(a) == v@,
{
    ByteArray1 { array: Array1::from_vec(v) }
}

/// `ndarray::Array4::from_shape_vec` with a standard (row-major) shape: the
/// source errs exactly when the product of the non-zero axis lengths
/// overflows or exceeds `isize::MAX`, or when the element count differs
/// from the vector's length; otherwise the array has the given dimensions and
/// holds the vector's elements in row-major order.
#[verifier::external_body]
fn array4_from_shape_vec(dims: (usize, usize, usize, usize), v: Vec<u8>) -> (r: Result<ByteArray4, ShapeError>)
    ensures
        r is Ok <==> (nonzero_product(dims) <= isize::MAX && dims.0 * dims.1 * dims.2 * dims.3 == v@.len()),
        r matches Ok(a) ==> array4_elements(a) == v@ && array4_dims(a) == dims,
{
    match Array4::from_shape_vec(dims, v) {
        Ok(array) => Ok(ByteArray4 { array }),
        Err(e) => Err(e),
    }
}

/// `ndarray::ArrayBase::len` of a one-dimensional array: its element count.
#[verifier::external_body]
fn array1_len(a: &ByteArray1) -> (n: usize)
    ensures
        n == array1_elements(*a).len(),
{
    a.array.len()
}

/// Indexing a one-dimensional array: the element at `i`.
#[verifier::external_body]
fn array1_at(a: &ByteArray1, i: usize) -> (v: u8)
    requires
        i < array1_elements(*a).len(),
    ensures
        v == array1_elements(*a)[i as int],
{
    a.array[i]
}

/// `ndarray::ArrayBase::dim` of a four-dimensional array; the array holds
/// one element per index, so the product of the dimensions is its length.
#[verifier::external_body]
fn array4_dim(a: &ByteArray4) -> (d: (usize, usize, usize, usize))
    ensures
        d == array4_dims(*a),
        array4_elements(*a).len() == d.0 * d.1 * d.2 * d.3,
{
    a.array.dim()
}

/// Indexing a four-dimensional array: the element at `[b, ch, y, x]`, which
/// sits at its row-major position.
#[verifier::external_body]
fn array4_at(a: &ByteArray4, b: usize, ch: usize, y: usize, x: usize) -> (v: u8)
    requires
        b < array4_dims(*a).0,
        ch < array4_dims(*a).1,
        y < array4_dims(*a).2,
        x < array4_dims(*a).3,
    ensures
        v == array4_elements(*a)[((b * array4_dims(*a).1 + ch) * array4_dims(*a).2 + y) * array4_dims(*a).3 + x],
{
    a.array[[b, ch, y, x]]
}

impl ByteArray1 {
    /// Number of elements.
    pub fn len(&self) -> (n: usize)
        ensures
            n == array1_elements(*self).len(),
    {
        array1_len(self)
    }

    /// The element at `i`.
    pub fn get(&self, i: usize) -> (v: u8)
        requires
            i < array1_elements(*self).len(),
        ensures
            v == array1_elements(*self)[i as int],
    {
        array1_at(self, i)
    }
}

impl ByteArray4 {
    /// The `(n, c, h, w)` dimensions.
    pub fn dims(&self) -> (d: (usize, usize, usize, usize))
        ensures
            d == array4_dims(*self),
            array4_elements(*self).len() == d.0 * d.1 * d.2 * d.3,
    {
        array4_dim(self)
    }

    /// The element at `[b, ch, y, x]`.
    pub fn get(&self, b: usize, ch: usize, y: usize, x: usize) -> (v: u8)
        requires
            b < array4_dims(*self).0,
            ch < array4_dims(*self).1,
            y < array4_dims(*self).2,
            x < array4_dims(*self).3,
        ensures
            v == array4_elements(*self)[((b * array4_dims(*self).1 + ch) * array4_dims(*self).2 + y) * array4_dims(*self).3 + x],
    {
        array4_at(self, b, ch, y, x)
    }
}

/// `d`, or 1 for an empty axis.
pub open spec fn at_least_one(d: usize) -> int {
    if d == 0 {
        1
    } else {
        d as int
    }
}

/// Product of the non-zero axis lengths.
pub open spec fn nonzero_product(dims: (usize, usize, usize, usize)) -> int {
    at_least_one(dims.0) * at_least_one(dims.1) * at_least_one(dims.2) * at_least_one(dims.3)
}

/// The big-endian 32-bit word at `at`.
pub open spec fn be_u32(b: Seq<u8>, at: int) -> int {
    b[at] * 0x1000000 + b[at + 1] * 0x10000 + b[at + 2] * 0x100 + b[at + 3]
}

/// Reads the big-endian 32-bit word at `at`.
pub fn read_be_u32(bytes: &[u8], at: usize) -> (v: u32)
    requires
        at + 4 <= bytes@.len(),
    ensures
        v == be_u32(bytes@, at as int),
{
    let b0 = bytes[at] as u32;
    let b1 = bytes[at + 1] as u32;
    let b2 = bytes[at + 2] as u32;
    let b3 = bytes[at + 3] as u32;
    b0 * 0x1000000 + b1 * 0x10000 + b2 * 0x100 + b3
}

/// Header word of an IDX file of labels.
pub const IDX_LABELS_MAGIC: u32 = 2049;

/// Header word of an IDX file of images.
pub const IDX_IMAGES_MAGIC: u32 = 2051;

/// `bytes` is an IDX label file: the label header word, a count, and at
/// least that many label bytes after the eight header bytes.
pub open spec fn is_idx_labels(bytes: Seq<u8>) -> bool {
    &&& bytes.len() >= 8
    &&& be_u32(bytes, 0) == IDX_LABELS_MAGIC
    &&& 8 + be_u32(bytes, 4) <= bytes.len()
}

/// The labels of an IDX label file.
pub open spec fn idx_labels(bytes: Seq<u8>) -> Seq<u8> {
    bytes.subrange(8, 8 + be_u32(bytes, 4))
}

/// `bytes` is an IDX image file: the image header word, a count of images,
/// a row and a column count, and at least that many pixels after the
/// sixteen header bytes.
pub open spec fn is_idx_images(bytes: Seq<u8>) -> bool {
    &&& bytes.len() >= 16
    &&& be_u32(bytes, 0) == IDX_IMAGES_MAGIC
    &&& 16 + be_u32(bytes, 4) * (be_u32(bytes, 8) * be_u32(bytes, 12)) <= bytes.len()
}

/// The `(count, rows, cols)` header of an IDX image file.
pub open spec fn idx_image_dims(bytes: Seq<u8>) -> (int, int, int) {
    (be_u32(bytes, 4), be_u32(bytes, 8), be_u32(bytes, 12))
}

/// The pixels of an IDX image file, image after image, each row-major.
pub open spec fn idx_pixels(bytes: Seq<u8>) -> Seq<u8> {
    bytes.subrange(16, 16 + be_u32(bytes, 4) * (be_u32(bytes, 8) * be_u32(bytes, 12)))
}

/// Whether `bytes` is an IDX label file that `parse_idx_labels` accepts.
pub fn check_idx_labels(bytes: &[u8]) -> (ok: bool)
    ensures
        ok == is_idx_labels(bytes@),
{
    if bytes.len() < 8 {
        return false;
    }
    let magic = read_be_u32(bytes, 0);
    let count = read_be_u32(bytes, 4) as usize;
    magic == IDX_LABELS_MAGIC && count <= bytes.len() - 8
}

/// Whether `bytes` is an IDX image file that `parse_idx_images` accepts.
pub fn check_idx_images(bytes: &[u8]) -> (ok: bool)
    ensures
        ok == is_idx_images(bytes@),
{
    if bytes.len() < 16 {
        return false;
    }
    let magic = read_be_u32(bytes, 0);
    let count = read_be_u32(bytes, 4) as u128;
    let rows = read_be_u32(bytes, 8) as u128;
    let cols = read_be_u32(bytes, 12) as u128;
    assert(rows * cols <= 0xffff_ffff * 0xffff_ffff) by (nonlinear_arith)
        requires
            rows <= 0xffff_ffff,
            cols <= 0xffff_ffff,
    ;
    let size = rows * cols;
    assert(count * size <= 0xffff_ffff * (0xffff_ffff * 0xffff_ffff)) by (nonlinear_arith)
        requires
            count <= 0xffff_ffff,
            rows <= 0xffff_ffff,
            cols <= 0xffff_ffff,
            size == rows * cols,
    ;
    let pixels = count * size;
    magic == IDX_IMAGES_MAGIC && pixels <= (bytes.len() - 16) as u128
}

/// Whether the images of an IDX image file fit in one array: the product of
/// the non-zero dimensions of `(count, 1, rows, cols)` stays within
/// `isize::MAX`.
pub fn idx_images_fit(bytes: &[u8]) -> (ok: bool)
    requires
        is_idx_images(bytes@),
    ensures
        ok == (nonzero_product(
            (
                idx_image_dims(bytes@).0 as usize,
                1usize,
                idx_image_dims(bytes@).1 as usize,
                idx_image_dims(bytes@).2 as usize,
            ),
        ) <= isize::MAX),
{
    let count = read_be_u32(bytes, 4);
    let rows = read_be_u32(bytes, 8);
    let cols = read_be_u32(bytes, 12);
    let a = if count == 0 { 1u128 } else { count as u128 };
    let b = if rows == 0 { 1u128 } else { rows as u128 };
    let c = if cols == 0 { 1u128 } else { cols as u128 };
    assert(1 <= a * b <= 0xffff_ffff * 0xffff_ffff) by (nonlinear_arith)
        requires
            1 <= a <= 0xffff_ffff,
            1 <= b <= 0xffff_ffff,
    ;
    assert(a * b * c <= 0xffff_ffff * 0xffff_ffff * 0xffff_ffff) by (nonlinear_arith)
        requires
            1 <= a * b <= 0xffff_ffff * 0xffff_ffff,
            1 <= c <= 0xffff_ffff,
    ;
    let product = a * b * c;
    assert(at_least_one(count as usize) == a);
    assert(at_least_one(rows as usize) == b);
    assert(at_least_one(cols as usize) == c);
    assert(nonzero_product((count as usize, 1usize, rows as usize, cols as usize)) == a * 1 * b * c);
    product <= isize::MAX as u128
}

/// The label bytes of an IDX label file, in order.
pub fn idx_label_bytes(bytes: &[u8]) -> (labels: Vec<u8>)
    requires
        is_idx_labels(bytes@),
    ensures
        labels@ == idx_labels(bytes@),
{
    let _len = bytes.len();
    let count = read_be_u32(bytes, 4) as usize;
    copy_range(bytes, 8, 8 + count)
}

/// The pixel bytes of an IDX image file and its `(count, rows, cols)`
/// header.
pub fn idx_image_bytes(bytes: &[u8]) -> (r: (Vec<u8>, (usize, usize, usize)))
    requires
        is_idx_images(bytes@),
    ensures
        r.0@ == idx_pixels(bytes@),
        (r.1.0 as int, r.1.1 as int, r.1.2 as int) == idx_image_dims(bytes@),
{
    let count = read_be_u32(bytes, 4) as usize;
    let rows = read_be_u32(bytes, 8) as usize;
    let cols = read_be_u32(bytes, 12) as usize;
    let _len = bytes.len();
    let size = if count == 0 {
        0
    } else {
        assert(rows * cols <= count * (rows * cols)) by (nonlinear_arith)
            requires
                count >= 1,
                rows >= 0,
                cols >= 0,
        ;
        rows * cols
    };
    assert(count * size == count * (rows * cols)) by (nonlinear_arith)
        requires
            count == 0 || size == rows * cols,
    ;
    let pixels = copy_range(bytes, 16, 16 + count * size);
    (pixels, (count, rows, cols))
}

/// A copy of `bytes[start..end]`.
fn copy_range(bytes: &[u8], start: usize, end: usize) -> (v: Vec<u8>)
    requires
        start <= end <= bytes@.len(),
    ensures
        v@ == bytes@.subrange(start as int, end as int),
{
    let mut v: Vec<u8> = Vec::new();
    let mut k = start;
    while k < end
        invariant
            start <= k <= end <= bytes@.len(),
            v@ == bytes@.subrange(start as int, k as int),
        decreases end - k,
    {
        v.push(bytes[k]);
        k = k + 1;
        assert(v@ =~= bytes@.subrange(start as int, k as int));
    }
    v
}

/// The labels of an IDX label file as a one-dimensional array.
pub fn parse_idx_labels(bytes: &[u8]) -> (labels: ByteArray1)
    requires
        is_idx_labels(bytes@),
    ensures
        array1_elements(labels) == idx_labels(bytes@),
{
    array1_from_vec(idx_label_bytes(bytes))
}

/// The images of an IDX image file as a `(count, 1, rows, cols)` byte array.
pub fn parse_idx_images(bytes: &[u8]) -> (images: ByteArray4)
    requires
        is_idx_images(bytes@),
        nonzero_product(
            (
                idx_image_dims(bytes@).0 as usize,
                1usize,
                idx_image_dims(bytes@).1 as usize,
                idx_image_dims(bytes@).2 as usize,
            ),
        ) <= isize::MAX,
    ensures
        array4_dims(images) == (
            idx_image_dims(bytes@).0 as usize,
            1usize,
            idx_image_dims(bytes@).1 as usize,
            idx_image_dims(bytes@).2 as usize,
        ),
        array4_elements(images) == idx_pixels(bytes@),
{
    let (pixels, (count, rows, cols)) = idx_image_bytes(bytes);
    assert(count * 1 * rows * cols == count * (rows * cols)) by (nonlinear_arith);
    let r = array4_from_shape_vec((count, 1, rows, cols), pixels);
    r.unwrap()
}

proof fn lemma_row_index_bound(a: int, k: int, i: int, width: int)
    requires
        0 <= a < i,
        0 <= k < width,
    ensures
        0 <= a * width + k < i * width,
{
    assert(a * width + width <= i * width) by (nonlinear_arith)
        requires
            a < i,
            width >= 0,
    ;
    assert(a * width >= 0) by (nonlinear_arith)
        requires
            a >= 0,
            width >= 0,
    ;
}

/// One-hot rows for `labels`: row `i` of the `(labels.len(), num_classes)`
/// matrix, stored row-major, is `one` in column `labels[i]` and `zero`
/// elsewhere.
pub fn to_one_hot<T: Copy>(labels: &[u8], num_classes: usize, zero: T, one: T) -> (m: Vec<T>)
    requires
        forall|i: int| 0 <= i < labels@.len() ==> (#[trigger] labels@[i]) < num_classes,
        labels@.len() * num_classes <= usize::MAX,
    ensures
        m@.len() == labels@.len() * num_classes,
        forall|i: int, j: int|
            0 <= i < labels@.len() && 0 <= j < num_classes ==> #[trigger] m@[i * num_classes + j] == if j == labels@[i] {
                one
            } else {
                zero
            },
{
    let n = labels.len();
    let mut m: Vec<T> = Vec::new();
    let mut i: usize = 0;
    while i < n
        invariant
            n == labels@.len(),
            n * num_classes <= usize::MAX,
            i <= n,
            m@.len() == i * num_classes,
            forall|a: int, j: int|
                0 <= a < i && 0 <= j < num_classes ==> #[trigger] m@[a * num_classes + j] == if j == labels@[a] {
                    one
                } else {
                    zero
                },
        decreases n - i,
    {
        let label = labels[i] as usize;
        let mut j: usize = 0;
        assert(i * num_classes + num_classes <= n * num_classes) by (nonlinear_arith)
            requires
                i < n,
        ;
        while j < num_classes
            invariant
                n == labels@.len(),
                i < n,
                label == labels@[i as int],
                i * num_classes + num_classes <= n * num_classes,
                n * num_classes <= usize::MAX,
                j <= num_classes,
                m@.len() == i * num_classes + j,
                forall|a: int, k: int|
                    0 <= a < i && 0 <= k < num_classes ==> #[trigger] m@[a * num_classes + k] == if k == labels@[a] {
                        one
                    } else {
                        zero
                    },
                forall|k: int| 0 <= k < j ==> #[trigger] m@[i * num_classes + k] == if k == labels@[i as int] {
                    one
                } else {
                    zero
                },
            decreases num_classes - j,
        {
            let v = if j == label {
                one
            } else {
                zero
            };
            let ghost before = m@;
            m.push(v);
            proof {
                assert forall|a: int, k: int| 0 <= a < i && 0 <= k < num_classes implies #[trigger] m@[a * num_classes + k] == if k == labels@[a] {
                    one
                } else {
                    zero
                } by {
                    lemma_row_index_bound(a, k, i as int, num_classes as int);
                    assert(m@[a * num_classes + k] == before[a * num_classes + k]);
                }
            }
            j = j + 1;
        }
        i = i + 1;
        assert(m@.len() == i * num_classes) by (nonlinear_arith)
            requires
                m@.len() == (i - 1) * num_classes + num_classes,
        ;
    }
    m
}

} // verus!
