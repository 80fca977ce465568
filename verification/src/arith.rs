use vstd::prelude::*;

verus! {

/// `a·B + x` stays below `A·B` when the digit `x` is below `B` and `a` below `A`.
pub proof fn lemma_compose_bound(a: int, x: int, big_a: int, big_b: int)
    requires
        0 <= a < big_a,
        0 <= x < big_b,
    ensures
        0 <= a * big_b + x < big_a * big_b,
{
    assert(0 <= a * big_b) by (nonlinear_arith)
        requires
            0 <= a,
            0 <= big_b,
    ;
    assert(a * big_b + big_b <= big_a * big_b) by (nonlinear_arith)
        requires
            a + 1 <= big_a,
            0 <= big_b,
    ;
}

/// Splitting `t < A·B` by the radix `B` gives a quotient below `A` and a
/// remainder below `B` that compose back to `t`.
pub proof fn lemma_split(t: int, big_a: int, big_b: int)
    requires
        0 <= t < big_a * big_b,
        big_b > 0,
    ensures
        0 <= t / big_b < big_a,
        0 <= t % big_b < big_b,
        t == (t / big_b) * big_b + t % big_b,
{
    vstd::arithmetic::div_mod::lemma_fundamental_div_mod(t, big_b);
    vstd::arithmetic::div_mod::lemma_mod_bound(t, big_b);
    vstd::arithmetic::div_mod::lemma_div_pos_is_pos(t, big_b);
    let q = t / big_b;
    assert(q * big_b == big_b * q) by (nonlinear_arith);
    assert(q < big_a) by (nonlinear_arith)
        requires
            q * big_b <= t,
            t < big_a * big_b,
            big_b > 0,
    ;
}

/// Composing a digit onto a quotient and splitting again gives both back.
pub proof fn lemma_unsplit(q: int, r: int, big_b: int)
    requires
        0 <= r < big_b,
    ensures
        (q * big_b + r) / big_b == q,
        (q * big_b + r) % big_b == r,
{
    vstd::arithmetic::div_mod::lemma_fundamental_div_mod_converse(q * big_b + r, big_b, q, r);
}

/// A product of factors that are all at least one is at least each partial
/// product.
pub proof fn lemma_mul_ge(a: int, b: int)
    requires
        a >= 0,
        b >= 1,
    ensures
        a * b >= a,
{
    assert(a * b >= a) by (nonlinear_arith)
        requires
            a >= 0,
            b >= 1,
    ;
}

} // verus!
