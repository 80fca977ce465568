use vstd::prelude::*;

verus! {

/// Number of elements of an array of this shape.
pub open spec fn shape_size(s: Seq<usize>) -> int
    decreases s.len(),
{
    if s.len() == 0 {
        1
    } else {
        shape_size(s.drop_last()) * s.last()
    }
}

pub proof fn lemma_shape_size_nonneg(s: Seq<usize>)
    ensures
        shape_size(s) >= 0,
    decreases s.len(),
{
    if s.len() > 0 {
        lemma_shape_size_nonneg(s.drop_last());
        assert(shape_size(s.drop_last()) * s.last() >= 0) by (nonlinear_arith)
            requires
                shape_size(s.drop_last()) >= 0,
        ;
    }
}

/// The size of a concatenation of shapes is the product of their sizes.
pub proof fn lemma_shape_size_concat(a: Seq<usize>, b: Seq<usize>)
    ensures
        shape_size(a + b) == shape_size(a) * shape_size(b),
    decreases b.len(),
{
    if b.len() == 0 {
        assert(a + b =~= a);
    } else {
        lemma_shape_size_concat(a, b.drop_last());
        assert((a + b).drop_last() =~= a + b.drop_last());
        assert((a + b).last() == b.last());
        let x = shape_size(a);
        let y = shape_size(b.drop_last());
        assert(x * y * b.last() == x * (y * b.last())) by (nonlinear_arith);
    }
}

/// Splitting a shape around `axis`: the size is `outer · shape[axis] · inner`.
pub open spec fn outer_size(s: Seq<usize>, axis: int) -> int {
    shape_size(s.subrange(0, axis))
}

pub open spec fn inner_size(s: Seq<usize>, axis: int) -> int {
    shape_size(s.subrange(axis + 1, s.len() as int))
}

pub proof fn lemma_shape_size_split(s: Seq<usize>, axis: int)
    requires
        0 <= axis < s.len(),
    ensures
        shape_size(s) == outer_size(s, axis) * s[axis] * inner_size(s, axis),
        outer_size(s, axis) >= 0,
        inner_size(s, axis) >= 0,
{
    let a = s.subrange(0, axis);
    let b = s.subrange(axis, axis + 1);
    let c = s.subrange(axis + 1, s.len() as int);
    assert(s =~= (a + b) + c);
    lemma_shape_size_concat(a + b, c);
    lemma_shape_size_concat(a, b);
    assert(b.drop_last() =~= Seq::<usize>::empty());
    assert(shape_size(b.drop_last()) == 1);
    assert(b.last() == s[axis]);
    assert(shape_size(b) == shape_size(b.drop_last()) * b.last());
    assert(shape_size(b) == s[axis] as int);
    lemma_shape_size_nonneg(a);
    lemma_shape_size_nonneg(c);
}

/// Number of elements of an array of shape `s`, which the caller guarantees
/// fits in `usize` (the array exists).
pub fn size_of_shape(s: &Vec<usize>) -> (r: usize)
    requires
        shape_size(s@) <= usize::MAX,
    ensures
        r == shape_size(s@),
{
    // a zero dimension makes the whole product zero, whatever the rest is
    let mut k: usize = 0;
    while k < s.len()
        invariant
            k <= s@.len(),
            forall|j: int| 0 <= j < k ==> s@[j] != 0,
        decreases s@.len() - k,
    {
        if s[k] == 0 {
            proof {
                lemma_zero_factor(s@, k as int);
            }
            return 0;
        }
        k = k + 1;
    }
    let mut r: usize = 1;
    let mut i: usize = 0;
    while i < s.len()
        invariant
            i <= s@.len(),
            forall|j: int| 0 <= j < s@.len() ==> s@[j] != 0,
            r == shape_size(s@.subrange(0, i as int)),
            shape_size(s@) <= usize::MAX,
        decreases s@.len() - i,
    {
        proof {
            assert(s@.subrange(0, i as int + 1).drop_last() =~= s@.subrange(0, i as int));
            lemma_prefix_size_le(s@, i as int + 1);
        }
        r = r * s[i];
        i = i + 1;
    }
    assert(s@.subrange(0, s@.len() as int) =~= s@);
    r
}

proof fn lemma_zero_factor(s: Seq<usize>, k: int)
    requires
        0 <= k < s.len(),
        s[k] == 0,
    ensures
        shape_size(s) == 0,
{
    lemma_shape_size_split(s, k);
    let a = outer_size(s, k);
    let c = inner_size(s, k);
    assert(a * 0 * c == 0) by (nonlinear_arith);
}

/// With no zero dimension, a prefix has no more elements than the whole.
proof fn lemma_prefix_size_le(s: Seq<usize>, i: int)
    requires
        0 <= i <= s.len(),
        forall|j: int| 0 <= j < s.len() ==> s[j] != 0,
    ensures
        shape_size(s.subrange(0, i)) <= shape_size(s),
    decreases s.len() - i,
{
    if i < s.len() {
        lemma_prefix_size_le(s, i + 1);
        assert(s.subrange(0, i + 1).drop_last() =~= s.subrange(0, i));
        lemma_shape_size_nonneg(s.subrange(0, i));
        crate::arith::lemma_mul_ge(shape_size(s.subrange(0, i)), s[i] as int);
    } else {
        assert(s.subrange(0, i) =~= s);
    }
}

/// `from` can be broadcast to `to` (shapes aligned from the last axis; each
/// axis of `from` equals the matching axis of `to` or is 1).
pub open spec fn broadcastable(from: Seq<usize>, to: Seq<usize>) -> bool {
    &&& from.len() <= to.len()
    &&& forall|i: int|
        0 <= i < from.len() ==> {
            let j = i + to.len() - from.len();
            (#[trigger] from[i]) == to[j] || from[i] == 1
        }
}

/// Axis `i` of shape `s` once `s` is padded on the left with ones to rank `n`.
pub open spec fn aligned_dim(s: Seq<usize>, n: int, i: int) -> usize {
    if i < n - s.len() {
        1usize
    } else {
        s[i - (n - s.len())]
    }
}

/// The shape of an elementwise operation on two arrays broadcast together,
/// when they can be (axes aligned from the last; each pair equal or one of
/// them 1).
pub open spec fn co_broadcast(a: Seq<usize>, b: Seq<usize>) -> Option<Seq<usize>> {
    let n: int = if a.len() >= b.len() {
        a.len() as int
    } else {
        b.len() as int
    };
    if forall|i: int|
        0 <= i < n ==> #[trigger] aligned_dim(a, n, i) == aligned_dim(b, n, i) || aligned_dim(a, n, i) == 1 || aligned_dim(b, n, i) == 1 {
        Some(
            Seq::new(
                n as nat,
                |i: int|
                    if aligned_dim(a, n, i) == 1 {
                        aligned_dim(b, n, i)
                    } else {
                        aligned_dim(a, n, i)
                    },
            ),
        )
    } else {
        None
    }
}

/// `s` with the axis `axis` removed.
pub open spec fn remove_axis(s: Seq<usize>, axis: int) -> Seq<usize> {
    s.remove(axis)
}

/// `s` with a new axis of length 1 at `axis`.
pub open spec fn insert_unit_axis(s: Seq<usize>, axis: int) -> Seq<usize> {
    s.insert(axis, 1usize)
}

/// Removing an axis and putting back an axis of length 1 in its place gives
/// a shape that broadcasts back to `s`.
pub proof fn lemma_reduced_shape_broadcasts_back(s: Seq<usize>, axis: int)
    requires
        0 <= axis < s.len(),
    ensures
        insert_unit_axis(remove_axis(s, axis), axis).len() == s.len(),
        broadcastable(insert_unit_axis(remove_axis(s, axis), axis), s),
{
    let r = insert_unit_axis(remove_axis(s, axis), axis);
    assert forall|i: int| 0 <= i < r.len() implies (#[trigger] r[i]) == s[i + s.len() - r.len()] || r[i] == 1 by {
        if i < axis {
            assert(r[i] == s[i]);
        } else if i > axis {
            assert(r[i] == s[i]);
        }
    }
}

/// A shape of all ones of rank `n`: a fully reduced array, re-expanded.
pub open spec fn unit_shape(n: nat) -> Seq<usize> {
    Seq::new(n, |i: int| 1usize)
}

pub proof fn lemma_unit_shape_broadcasts(s: Seq<usize>)
    ensures
        broadcastable(unit_shape(s.len()), s),
{
}

/// The axes that `sum_to` sums over to fold an array of shape `x` into
/// `target`: the target is padded on the left with ones up to the rank of
/// `x`, and every axis where the padded target is 1 while `x` is longer than
/// 1 is summed away.
pub open spec fn sum_axis_needed(x: Seq<usize>, target: Seq<usize>, i: int) -> bool {
    let pad = if x.len() >= target.len() {
        x.len() - target.len()
    } else {
        0
    };
    let padded = if i < pad {
        1usize
    } else {
        target[i - pad]
    };
    padded == 1 && x[i] > 1
}

/// The axes `sum_to` sums over, from the last to the first (the order in
/// which it sums them, so that removing one does not shift the next).
pub fn sum_to_axes(x_shape: &Vec<usize>, target_shape: &Vec<usize>) -> (axes: Vec<usize>)
    ensures
        forall|k: int| 0 <= k < axes@.len() ==> (#[trigger] axes@[k]) < x_shape@.len(),
        forall|k: int, l: int| 0 <= k < l < axes@.len() ==> #[trigger] axes@[k] > #[trigger] axes@[l],
        forall|i: int| 0 <= i < x_shape@.len() ==> (axes@.contains(i as usize) <==> sum_axis_needed(x_shape@, target_shape@, i)),
{
    let ndim = x_shape.len();
    let tlen = target_shape.len();
    let pad = if ndim >= tlen {
        ndim - tlen
    } else {
        0
    };
    let mut axes: Vec<usize> = Vec::new();
    let mut i = ndim;
    while i > 0
        invariant
            i <= ndim,
            ndim == x_shape@.len(),
            tlen == target_shape@.len(),
            pad == (if ndim >= tlen {
                ndim - tlen
            } else {
                0
            }),
            forall|k: int| 0 <= k < axes@.len() ==> i <= (#[trigger] axes@[k]) < ndim,
            forall|k: int, l: int| 0 <= k < l < axes@.len() ==> #[trigger] axes@[k] > #[trigger] axes@[l],
            forall|j: int| i <= j < ndim ==> (axes@.contains(j as usize) <==> sum_axis_needed(x_shape@, target_shape@, j)),
        decreases i,
    {
        i = i - 1;
        let padded = if i < pad {
            1
        } else {
            target_shape[i - pad]
        };
        let ghost before = axes@;
        if padded == 1 && x_shape[i] > 1 {
            axes.push(i);
            proof {
                assert forall|j: int| i <= j < ndim implies (axes@.contains(j as usize) <==> sum_axis_needed(x_shape@, target_shape@, j)) by {
                    if j == i {
                        assert(axes@[axes@.len() - 1] == i);
                    } else {
                        if axes@.contains(j as usize) {
                            let k = choose|k: int| 0 <= k < axes@.len() && axes@[k] == j as usize;
                            assert(k < before.len());
                            assert(before[k] == j as usize);
                        }
                        if before.contains(j as usize) {
                            let k = choose|k: int| 0 <= k < before.len() && before[k] == j as usize;
                            assert(axes@[k] == j as usize);
                        }
                    }
                }
            }
        } else {
            proof {
                assert forall|j: int| i <= j < ndim implies (axes@.contains(j as usize) <==> sum_axis_needed(x_shape@, target_shape@, j)) by {
                    if j == i {
                        if axes@.contains(j as usize) {
                            let k = choose|k: int| 0 <= k < axes@.len() && axes@[k] == j as usize;
                        }
                    }
                }
            }
        }
    }
    axes
}

} // verus!
