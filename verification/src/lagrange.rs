use vstd::prelude::*;
use vstd::arithmetic::div_mod::lemma_div_multiples_vanish;

verus! {

/// Whether `v` lies within the range of `i128`.
pub open spec fn fits_i128(v: int) -> bool {
    i128::MIN <= v <= i128::MAX
}

/// Product of `xs[i] - xs[j]` over all `j < m` with `j != i`: the first `m`
/// factors of the Lagrange denominator for node `i`.
pub open spec fn den_upto(xs: Seq<int>, i: int, m: int) -> int
    decreases m,
{
    if m <= 0 {
        1
    } else if m - 1 == i {
        den_upto(xs, i, m - 1)
    } else {
        den_upto(xs, i, m - 1) * (xs[i] - xs[m - 1])
    }
}

/// Product of `0 - xs[j]` over all `j < m` with `j != i`: the first `m`
/// factors of the Lagrange numerator for node `i`, for interpolation at 0.
pub open spec fn num_upto(xs: Seq<int>, i: int, m: int) -> int
    decreases m,
{
    if m <= 0 {
        1
    } else if m - 1 == i {
        num_upto(xs, i, m - 1)
    } else {
        num_upto(xs, i, m - 1) * (0 - xs[m - 1])
    }
}

/// Common denominator accumulated over the first `m` of `k` nodes: the
/// product of the Lagrange denominators of nodes `0 .. m`.
pub open spec fn acc_den(xs: Seq<int>, k: int, m: int) -> int
    decreases m,
{
    if m <= 0 {
        1
    } else {
        acc_den(xs, k, m - 1) * den_upto(xs, m - 1, k)
    }
}

/// Numerator accumulated over the first `m` of `k` nodes: maintaining
/// `acc_num / acc_den` as the running sum of the Lagrange terms
/// `ys[i] * num_upto(i) / den_upto(i)`.
pub open spec fn acc_num(xs: Seq<int>, ys: Seq<int>, k: int, m: int) -> int
    decreases m,
{
    if m <= 0 {
        0
    } else {
        acc_num(xs, ys, k, m - 1) * den_upto(xs, m - 1, k) + ys[m - 1] * num_upto(xs, m - 1, k)
            * acc_den(xs, k, m - 1)
    }
}

/// Whether every intermediate value of the denominator product for node `i`,
/// cut off at `m` factors, stays within the range of `i128`.
pub open spec fn den_fits(xs: Seq<int>, i: int, m: int) -> bool
    decreases m,
{
    if m <= 0 {
        true
    } else if m - 1 == i {
        den_fits(xs, i, m - 1)
    } else {
        den_fits(xs, i, m - 1) && fits_i128(xs[i] - xs[m - 1]) && fits_i128(
            den_upto(xs, i, m - 1) * (xs[i] - xs[m - 1]),
        )
    }
}

/// Whether every intermediate value of the numerator product for node `i`,
/// cut off at `m` factors, stays within the range of `i128`.
pub open spec fn num_fits(xs: Seq<int>, i: int, m: int) -> bool
    decreases m,
{
    if m <= 0 {
        true
    } else if m - 1 == i {
        num_fits(xs, i, m - 1)
    } else {
        num_fits(xs, i, m - 1) && fits_i128(0 - xs[m - 1]) && fits_i128(
            num_upto(xs, i, m - 1) * (0 - xs[m - 1]),
        )
    }
}

/// Whether every intermediate value of the whole accumulation over the first
/// `m` of `k` nodes stays within the range of `i128`.
pub open spec fn acc_fits(xs: Seq<int>, ys: Seq<int>, k: int, m: int) -> bool
    decreases m,
{
    if m <= 0 {
        true
    } else {
        acc_fits(xs, ys, k, m - 1) && den_fits(xs, m - 1, k) && num_fits(xs, m - 1, k) && fits_i128(
            acc_num(xs, ys, k, m - 1) * den_upto(xs, m - 1, k),
        ) && fits_i128(ys[m - 1] * num_upto(xs, m - 1, k)) && fits_i128(
            ys[m - 1] * num_upto(xs, m - 1, k) * acc_den(xs, k, m - 1),
        ) && fits_i128(
            acc_num(xs, ys, k, m - 1) * den_upto(xs, m - 1, k) + ys[m - 1] * num_upto(xs, m - 1, k)
                * acc_den(xs, k, m - 1),
        ) && fits_i128(acc_den(xs, k, m - 1) * den_upto(xs, m - 1, k))
    }
}

/// Whether the final interpolation result and its common denominator, over a
/// quorum of `k` nodes, can be carried and divided in `i128`.
pub open spec fn interp_fits(xs: Seq<int>, ys: Seq<int>, k: int) -> bool {
    acc_fits(xs, ys, k, k) && acc_num(xs, ys, k, k) != i128::MIN && acc_den(xs, k, k) != i128::MIN
}

/// Product of a candidate quotient and a divisor.
pub open spec fn qmul(q: int, d: int) -> int {
    q * d
}

/// Whether `d` divides `n` with a quotient that fits in `i128`.
pub open spec fn has_exact_quotient(n: int, d: int) -> bool {
    exists|q: int| fits_i128(q) && n == #[trigger] qmul(q, d)
}

/// Quotient of `n` and `d` under division that truncates toward zero.
pub open spec fn trunc_div(n: int, d: int) -> int {
    if n == 0 {
        0
    } else if n > 0 && d > 0 {
        n / d
    } else if n < 0 && d < 0 {
        (n * -1) / (d * -1)
    } else if n < 0 {
        ((n * -1) / d) * -1
    } else {
        (n / (d * -1)) * -1
    }
}

/// Whether the final interpolation result over a quorum of `k` nodes can be
/// accumulated and divided within `i128`.
pub open spec fn interp_ok(xs: Seq<int>, ys: Seq<int>, k: int) -> bool {
    acc_fits(xs, ys, k, k) && fits_i128(
        trunc_div(acc_num(xs, ys, k, k), acc_den(xs, k, k)),
    )
}

/// When the division is exact, the truncated quotient is the exact cofactor.
pub proof fn lemma_trunc_div_exact(n: int, d: int, q: int)
    requires
        d != 0,
        n == q * d,
    ensures
        trunc_div(n, d) == q,
{
    if n == 0 {
        assert(q == 0) by (nonlinear_arith)
            requires
                d != 0,
                0 == q * d,
        ;
    } else if n > 0 && d > 0 {
        assert(n == d * q) by (nonlinear_arith)
            requires
                n == q * d,
        ;
        lemma_div_multiples_vanish(q, d);
    } else if n < 0 && d < 0 {
        assert(n * -1 == (d * -1) * q) by (nonlinear_arith)
            requires
                n == q * d,
        ;
        lemma_div_multiples_vanish(q, d * -1);
    } else if n < 0 {
        assert(n * -1 == d * (q * -1)) by (nonlinear_arith)
            requires
                n == q * d,
        ;
        lemma_div_multiples_vanish(q * -1, d);
    } else {
        assert(n == (d * -1) * (q * -1)) by (nonlinear_arith)
            requires
                n == q * d,
        ;
        lemma_div_multiples_vanish(q * -1, d * -1);
    }
}

/// The accumulated denominator over a quorum of pairwise-distinct nodes is
/// never zero.
pub proof fn lemma_acc_den_nonzero(xs: Seq<int>, k: int, m: int)
    requires
        0 <= k <= xs.len(),
        0 <= m <= k,
        forall|i: int, j: int| 0 <= i < j < k ==> xs[i] != xs[j],
    ensures
        acc_den(xs, k, m) != 0,
    decreases m,
{
    if m > 0 {
        lemma_acc_den_nonzero(xs, k, m - 1);
        lemma_den_upto_nonzero(xs, m - 1, k, k);
        assert(acc_den(xs, k, m - 1) * den_upto(xs, m - 1, k) != 0) by (nonlinear_arith)
            requires
                acc_den(xs, k, m - 1) != 0,
                den_upto(xs, m - 1, k) != 0,
        ;
    }
}

/// Each Lagrange denominator over pairwise-distinct nodes is nonzero.
pub proof fn lemma_den_upto_nonzero(xs: Seq<int>, i: int, m: int, k: int)
    requires
        0 <= i < k <= xs.len(),
        0 <= m <= k,
        forall|a: int, b: int| 0 <= a < b < k ==> xs[a] != xs[b],
    ensures
        den_upto(xs, i, m) != 0,
    decreases m,
{
    if m > 0 {
        lemma_den_upto_nonzero(xs, i, m - 1, k);
        if m - 1 != i {
            assert(xs[i] != xs[m - 1]);
            assert(den_upto(xs, i, m - 1) * (xs[i] - xs[m - 1]) != 0) by (nonlinear_arith)
                requires
                    den_upto(xs, i, m - 1) != 0,
                    xs[i] - xs[m - 1] != 0,
            ;
        }
    }
}

/// A failed range check anywhere in a prefix persists in every longer prefix
/// of the accumulation.
pub proof fn lemma_acc_fits_mono(xs: Seq<int>, ys: Seq<int>, k: int, m1: int, m2: int)
    requires
        m1 <= m2,
        !acc_fits(xs, ys, k, m1),
    ensures
        !acc_fits(xs, ys, k, m2),
    decreases m2 - m1,
{
    if m1 < m2 {
        lemma_acc_fits_mono(xs, ys, k, m1, m2 - 1);
    }
}

/// A failed range check in a denominator prefix persists in longer prefixes.
pub proof fn lemma_den_fits_mono(xs: Seq<int>, i: int, m1: int, m2: int)
    requires
        m1 <= m2,
        !den_fits(xs, i, m1),
    ensures
        !den_fits(xs, i, m2),
    decreases m2 - m1,
{
    if m1 < m2 {
        lemma_den_fits_mono(xs, i, m1, m2 - 1);
    }
}

/// A failed range check in a numerator prefix persists in longer prefixes.
pub proof fn lemma_num_fits_mono(xs: Seq<int>, i: int, m1: int, m2: int)
    requires
        m1 <= m2,
        !num_fits(xs, i, m1),
    ensures
        !num_fits(xs, i, m2),
    decreases m2 - m1,
{
    if m1 < m2 {
        lemma_num_fits_mono(xs, i, m1, m2 - 1);
    }
}

} // verus!
