use vstd::prelude::*;
use crate::lagrange::{acc_den, acc_num, den_upto, num_upto};
use crate::polynomial::{add_seq, coeff_at, poly_eval, sub_seq};

verus! {

/// Every coefficient scaled by `c`.
pub open spec fn pscale(c: int, s: Seq<int>) -> Seq<int> {
    s.map_values(|v: int| c * v)
}

/// The coefficients of `(X - r)` times the polynomial `p`.
pub open spec fn linear_mul(r: int, p: Seq<int>) -> Seq<int> {
    Seq::new(p.len() + 1, |i: int| coeff_at(p, i - 1) - r * coeff_at(p, i))
}

/// The quotient of `p` under synthetic division by `(X - r)`: coefficient
/// `i` is the value at `r` of the polynomial shifted down past index `i`.
pub open spec fn synth_quot(q: Seq<int>, r: int) -> Seq<int> {
    Seq::new((q.len() - 1) as nat, |i: int| poly_eval(q.skip(i + 1), r))
}

/// Unfolds one Horner step of the evaluation of a suffix.
pub proof fn lemma_eval_skip_unfold(q: Seq<int>, r: int, i: int)
    requires
        0 <= i < q.len(),
    ensures
        poly_eval(q.skip(i), r) == q[i] + r * poly_eval(q.skip(i + 1), r),
{
    assert(q.skip(i).drop_first() =~= q.skip(i + 1));
    assert(q.skip(i)[0] == q[i]);
}

/// Evaluation distributes over the padded element-wise sum.
pub proof fn lemma_eval_add(a: Seq<int>, b: Seq<int>, x: int)
    ensures
        poly_eval(add_seq(a, b), x) == poly_eval(a, x) + poly_eval(b, x),
    decreases a.len() + b.len(),
{
    let c = add_seq(a, b);
    if a.len() == 0 && b.len() == 0 {
    } else {
        let a2 = if a.len() > 0 {
            a.drop_first()
        } else {
            a
        };
        let b2 = if b.len() > 0 {
            b.drop_first()
        } else {
            b
        };
        lemma_eval_add(a2, b2, x);
        assert(c.drop_first() =~= add_seq(a2, b2));
        assert(c[0] == coeff_at(a, 0) + coeff_at(b, 0));
        let ea = poly_eval(a2, x);
        let eb = poly_eval(b2, x);
        assert(x * (ea + eb) == x * ea + x * eb) by (nonlinear_arith);
        if a.len() > 0 {
            assert(poly_eval(a, x) == a[0] + x * ea);
        } else {
            assert(poly_eval(a2, x) == 0);
        }
        if b.len() > 0 {
            assert(poly_eval(b, x) == b[0] + x * eb);
        } else {
            assert(poly_eval(b2, x) == 0);
        }
    }
}

/// Evaluation commutes with scaling the coefficients.
pub proof fn lemma_eval_scale(c: int, s: Seq<int>, x: int)
    ensures
        poly_eval(pscale(c, s), x) == c * poly_eval(s, x),
    decreases s.len(),
{
    if s.len() == 0 {
        assert(c * 0 == 0) by (nonlinear_arith);
    } else {
        lemma_eval_scale(c, s.drop_first(), x);
        assert(pscale(c, s).drop_first() =~= pscale(c, s.drop_first()));
        let e = poly_eval(s.drop_first(), x);
        assert(pscale(c, s)[0] == c * s[0]);
        assert(c * (s[0] + x * e) == c * s[0] + x * (c * e)) by (nonlinear_arith);
    }
}

/// Evaluating `(X - r) * p` multiplies the value of `p` by `(x - r)`.
pub proof fn lemma_eval_linear_mul(r: int, p: Seq<int>, x: int)
    ensures
        poly_eval(linear_mul(r, p), x) == (x - r) * poly_eval(p, x),
    decreases p.len(),
{
    let q = linear_mul(r, p);
    if p.len() == 0 {
        assert(q =~= seq![0int]);
        assert(poly_eval(q, x) == 0 + x * poly_eval(q.drop_first(), x));
        assert(q.drop_first() =~= Seq::<int>::empty());
        assert((x - r) * 0 == 0) by (nonlinear_arith);
    } else {
        let p2 = p.drop_first();
        lemma_eval_linear_mul(r, p2, x);
        assert(q.drop_first() =~= add_seq(seq![p[0]], linear_mul(r, p2)));
        lemma_eval_add(seq![p[0]], linear_mul(r, p2), x);
        assert(poly_eval(seq![p[0]], x) == p[0] + x * poly_eval(
            seq![p[0]].drop_first(),
            x,
        ));
        assert(seq![p[0]].drop_first() =~= Seq::<int>::empty());
        let e2 = poly_eval(p2, x);
        assert(q[0] == -(r * p[0]));
        assert(poly_eval(q, x) == q[0] + x * (p[0] + (x - r) * e2));
        assert(poly_eval(p, x) == p[0] + x * e2);
        assert(-(r * p[0]) + x * (p[0] + (x - r) * e2) == (x - r) * (p[0] + x * e2))
            by (nonlinear_arith);
    }
}

/// Factor theorem: a polynomial that vanishes at `r` is `(X - r)` times its
/// synthetic-division quotient.
pub proof fn lemma_factor(q: Seq<int>, r: int)
    requires
        q.len() >= 1,
        poly_eval(q, r) == 0,
    ensures
        q =~= linear_mul(r, synth_quot(q, r)),
{
    let p = synth_quot(q, r);
    let lm = linear_mul(r, p);
    assert forall|i: int| 0 <= i < q.len() implies lm[i] == q[i] by {
        if i == 0 {
            assert(q.skip(0) =~= q);
            lemma_eval_skip_unfold(q, r, 0);
            assert(coeff_at(p, -1) == 0);
            if q.len() == 1 {
                assert(q.skip(1) =~= Seq::<int>::empty());
                assert(poly_eval(q, r) == q[0] + r * 0);
            }
        } else if i < q.len() - 1 {
            lemma_eval_skip_unfold(q, r, i);
        } else {
            // the leading coefficient: the suffix past it is a single entry
            assert(q.skip(i).drop_first() =~= q.skip(i + 1));
            lemma_eval_skip_unfold(q, r, i);
            assert(q.skip(i + 1) =~= Seq::<int>::empty());
            assert(coeff_at(p, i) == 0);
        }
    }
}

/// A polynomial with more pairwise-distinct roots than coefficients is the
/// zero polynomial.
pub proof fn lemma_roots_zero(q: Seq<int>, roots: Seq<int>)
    requires
        q.len() <= roots.len(),
        forall|a: int, b: int| 0 <= a < b < roots.len() ==> roots[a] != roots[b],
        forall|j: int| 0 <= j < roots.len() ==> poly_eval(q, #[trigger] roots[j]) == 0,
    ensures
        forall|i: int| 0 <= i < q.len() ==> q[i] == 0,
    decreases q.len(),
{
    if q.len() > 0 {
        let r0 = roots[0];
        let p = synth_quot(q, r0);
        lemma_factor(q, r0);
        let rest = roots.drop_first();
        assert forall|j: int| 0 <= j < rest.len() implies poly_eval(p, #[trigger] rest[j])
            == 0 by {
            assert(rest[j] == roots[j + 1]);
            lemma_eval_linear_mul(r0, p, roots[j + 1]);
            assert(poly_eval(linear_mul(r0, p), roots[j + 1]) == poly_eval(q, roots[j + 1]));
            assert(roots[j + 1] != r0);
            assert(poly_eval(p, roots[j + 1]) == 0) by (nonlinear_arith)
                requires
                    (roots[j + 1] - r0) * poly_eval(p, roots[j + 1]) == 0,
                    roots[j + 1] != r0,
            ;
        }
        assert forall|a: int, b: int| 0 <= a < b < rest.len() implies rest[a] != rest[b] by {
            assert(rest[a] == roots[a + 1]);
            assert(rest[b] == roots[b + 1]);
        }
        lemma_roots_zero(p, rest);
        assert forall|i: int| 0 <= i < q.len() implies q[i] == 0 by {
            assert(q[i] == coeff_at(p, i - 1) - r0 * coeff_at(p, i));
            assert(coeff_at(p, i - 1) == 0);
            assert(coeff_at(p, i) == 0);
            assert(r0 * 0 == 0) by (nonlinear_arith);
        }
    }
}

/// Product of `(z - xs[j])` over all `j < m` with `j != i`.
pub open spec fn point_prod(xs: Seq<int>, i: int, m: int, z: int) -> int
    decreases m,
{
    if m <= 0 {
        1
    } else if m - 1 == i {
        point_prod(xs, i, m - 1, z)
    } else {
        point_prod(xs, i, m - 1, z) * (z - xs[m - 1])
    }
}

/// The Lagrange node polynomial for node `i`: the product of `(X - xs[j])`
/// over all `j < m` with `j != i`.
pub open spec fn node_poly(xs: Seq<int>, i: int, m: int) -> Seq<int>
    decreases m,
{
    if m <= 0 {
        seq![1int]
    } else if m - 1 == i {
        node_poly(xs, i, m - 1)
    } else {
        linear_mul(xs[m - 1], node_poly(xs, i, m - 1))
    }
}

/// The node polynomial evaluates to the point product.
pub proof fn lemma_eval_node_poly(xs: Seq<int>, i: int, m: int, z: int)
    ensures
        poly_eval(node_poly(xs, i, m), z) == point_prod(xs, i, m, z),
    decreases m,
{
    if m <= 0 {
        assert(seq![1int].drop_first() =~= Seq::<int>::empty());
        assert(poly_eval(Seq::<int>::empty(), z) == 0);
        assert(poly_eval(seq![1int], z) == 1 + z * 0);
        assert(z * 0 == 0) by (nonlinear_arith);
    } else if m - 1 == i {
        lemma_eval_node_poly(xs, i, m - 1, z);
    } else {
        lemma_eval_node_poly(xs, i, m - 1, z);
        lemma_eval_linear_mul(xs[m - 1], node_poly(xs, i, m - 1), z);
        assert((z - xs[m - 1]) * point_prod(xs, i, m - 1, z) == point_prod(xs, i, m - 1, z) * (z
            - xs[m - 1])) by (nonlinear_arith);
    }
}

/// Length of the node polynomial: `m` when node `i` is among the first `m`
/// nodes, `m + 1` otherwise.
pub proof fn lemma_node_poly_len(xs: Seq<int>, i: int, m: int)
    requires
        0 <= i,
        0 <= m,
    ensures
        node_poly(xs, i, m).len() == if i < m {
            m
        } else {
            m + 1
        },
    decreases m,
{
    if m > 0 {
        lemma_node_poly_len(xs, i, m - 1);
    }
}

/// The point product vanishes at every other node.
pub proof fn lemma_point_prod_zero(xs: Seq<int>, i: int, m: int, t: int)
    requires
        0 <= t < m,
        t != i,
    ensures
        point_prod(xs, i, m, xs[t]) == 0,
    decreases m,
{
    if m - 1 == t {
        assert(point_prod(xs, i, m - 1, xs[t]) * (xs[t] - xs[m - 1]) == 0) by (nonlinear_arith)
            requires
                xs[t] - xs[m - 1] == 0,
        ;
    } else if m - 1 == i {
        lemma_point_prod_zero(xs, i, m - 1, t);
    } else {
        lemma_point_prod_zero(xs, i, m - 1, t);
        assert(point_prod(xs, i, m - 1, xs[t]) * (xs[t] - xs[m - 1]) == 0) by (nonlinear_arith)
            requires
                point_prod(xs, i, m - 1, xs[t]) == 0,
        ;
    }
}

/// At its own node the point product is the Lagrange denominator.
pub proof fn lemma_point_prod_den(xs: Seq<int>, i: int, m: int)
    ensures
        point_prod(xs, i, m, xs[i]) == crate::lagrange::den_upto(xs, i, m),
    decreases m,
{
    if m > 0 {
        lemma_point_prod_den(xs, i, m - 1);
    }
}

/// At the origin the point product is the Lagrange numerator.
pub proof fn lemma_point_prod_num(xs: Seq<int>, i: int, m: int)
    ensures
        point_prod(xs, i, m, 0) == crate::lagrange::num_upto(xs, i, m),
    decreases m,
{
    if m > 0 {
        lemma_point_prod_num(xs, i, m - 1);
    }
}

/// Product of the Lagrange denominators of the nodes `j < m` with `j != i`,
/// each denominator taken over the full quorum of `k` nodes.
pub open spec fn others_upto(xs: Seq<int>, k: int, i: int, m: int) -> int
    decreases m,
{
    if m <= 0 {
        1
    } else if m - 1 == i {
        others_upto(xs, k, i, m - 1)
    } else {
        others_upto(xs, k, i, m - 1) * den_upto(xs, m - 1, k)
    }
}

/// Sum over `i < m` of `ys[i] * num_upto(i, k) * others_upto(i, t)`: the
/// Lagrange sum at the origin, brought over the common denominator of the
/// first `t` nodes.
pub open spec fn lag_sum(xs: Seq<int>, ys: Seq<int>, k: int, m: int, t: int) -> int
    decreases m,
{
    if m <= 0 {
        0
    } else {
        lag_sum(xs, ys, k, m - 1, t) + ys[m - 1] * num_upto(xs, m - 1, k) * others_upto(
            xs,
            k,
            m - 1,
            t,
        )
    }
}

/// Below its own index, the product over the other nodes is the plain
/// accumulated denominator.
pub proof fn lemma_others_below(xs: Seq<int>, k: int, i: int, m: int)
    requires
        m <= i,
    ensures
        others_upto(xs, k, i, m) == acc_den(xs, k, m),
    decreases m,
{
    if m > 0 {
        lemma_others_below(xs, k, i, m - 1);
    }
}

/// The accumulated denominator splits into one node's denominator and the
/// product over all the others.
pub proof fn lemma_acc_den_split(xs: Seq<int>, k: int, t: int, m: int)
    requires
        0 <= t < m,
    ensures
        acc_den(xs, k, m) == others_upto(xs, k, t, m) * den_upto(xs, t, k),
    decreases m,
{
    if m - 1 == t {
        lemma_others_below(xs, k, t, m - 1);
    } else {
        lemma_acc_den_split(xs, k, t, m - 1);
        let o = others_upto(xs, k, t, m - 1);
        let dt = den_upto(xs, t, k);
        let dm = den_upto(xs, m - 1, k);
        assert((o * dt) * dm == (o * dm) * dt) by (nonlinear_arith);
    }
}

/// Multiplying the Lagrange sum by one more node's denominator extends its
/// common denominator by that node.
pub proof fn lemma_lag_sum_scale(xs: Seq<int>, ys: Seq<int>, k: int, m: int, t: int)
    requires
        m <= t,
    ensures
        lag_sum(xs, ys, k, m, t) * den_upto(xs, t, k) == lag_sum(xs, ys, k, m, t + 1),
    decreases m,
{
    let dt = den_upto(xs, t, k);
    if m <= 0 {
        assert(0 * dt == 0) by (nonlinear_arith);
    } else {
        lemma_lag_sum_scale(xs, ys, k, m - 1, t);
        let s = lag_sum(xs, ys, k, m - 1, t);
        let yn = ys[m - 1] * num_upto(xs, m - 1, k);
        let o = others_upto(xs, k, m - 1, t);
        assert(others_upto(xs, k, m - 1, t + 1) == o * dt);
        assert((s + yn * o) * dt == s * dt + yn * (o * dt)) by (nonlinear_arith);
    }
}

/// The loop accumulation computes exactly the Lagrange sum over its own
/// common denominator.
pub proof fn lemma_acc_num_is_sum(xs: Seq<int>, ys: Seq<int>, k: int, m: int)
    ensures
        acc_num(xs, ys, k, m) == lag_sum(xs, ys, k, m, m),
    decreases m,
{
    if m > 0 {
        lemma_acc_num_is_sum(xs, ys, k, m - 1);
        lemma_lag_sum_scale(xs, ys, k, m - 1, m - 1);
        lemma_others_below(xs, k, m - 1, m - 1);
        assert(others_upto(xs, k, m - 1, m) == others_upto(xs, k, m - 1, m - 1));
    }
}

/// The integer interpolating polynomial over the common denominator: the
/// sum over `i < m` of `ys[i] * others_upto(i, k)` times the node
/// polynomial of `i`.
pub open spec fn interp_poly(xs: Seq<int>, ys: Seq<int>, k: int, m: int) -> Seq<int>
    decreases m,
{
    if m <= 0 {
        Seq::<int>::empty()
    } else {
        add_seq(
            interp_poly(xs, ys, k, m - 1),
            pscale(ys[m - 1] * others_upto(xs, k, m - 1, k), node_poly(xs, m - 1, k)),
        )
    }
}

/// The interpolating polynomial has no more coefficients than the quorum
/// has nodes.
pub proof fn lemma_interp_poly_len(xs: Seq<int>, ys: Seq<int>, k: int, m: int)
    requires
        0 <= m <= k,
    ensures
        interp_poly(xs, ys, k, m).len() <= k,
    decreases m,
{
    if m > 0 {
        lemma_interp_poly_len(xs, ys, k, m - 1);
        lemma_node_poly_len(xs, m - 1, k);
    }
}

/// At node `t` every term of the interpolating polynomial vanishes except
/// the one of `t` itself.
pub proof fn lemma_eval_interp_at_node(xs: Seq<int>, ys: Seq<int>, k: int, m: int, t: int)
    requires
        0 <= t < k,
        0 <= m <= k,
    ensures
        poly_eval(interp_poly(xs, ys, k, m), xs[t]) == if t < m {
            (ys[t] * others_upto(xs, k, t, k)) * den_upto(xs, t, k)
        } else {
            0
        },
    decreases m,
{
    if m > 0 {
        lemma_eval_interp_at_node(xs, ys, k, m - 1, t);
        let w = ys[m - 1] * others_upto(xs, k, m - 1, k);
        let node = node_poly(xs, m - 1, k);
        lemma_eval_add(interp_poly(xs, ys, k, m - 1), pscale(w, node), xs[t]);
        lemma_eval_scale(w, node, xs[t]);
        lemma_eval_node_poly(xs, m - 1, k, xs[t]);
        if m - 1 == t {
            lemma_point_prod_den(xs, t, k);
        } else {
            lemma_point_prod_zero(xs, m - 1, k, t);
            assert(w * 0 == 0) by (nonlinear_arith);
        }
    }
}

/// At the origin the interpolating polynomial evaluates to the Lagrange
/// sum over the full common denominator.
pub proof fn lemma_eval_interp_at_zero(xs: Seq<int>, ys: Seq<int>, k: int, m: int)
    ensures
        poly_eval(interp_poly(xs, ys, k, m), 0) == lag_sum(xs, ys, k, m, k),
    decreases m,
{
    if m > 0 {
        lemma_eval_interp_at_zero(xs, ys, k, m - 1);
        let w = ys[m - 1] * others_upto(xs, k, m - 1, k);
        let node = node_poly(xs, m - 1, k);
        lemma_eval_add(interp_poly(xs, ys, k, m - 1), pscale(w, node), 0);
        lemma_eval_scale(w, node, 0);
        lemma_eval_node_poly(xs, m - 1, k, 0);
        lemma_point_prod_num(xs, m - 1, k);
        let y = ys[m - 1];
        let n = num_upto(xs, m - 1, k);
        let o = others_upto(xs, k, m - 1, k);
        assert((y * o) * n == y * n * o) by (nonlinear_arith);
    }
}

/// Evaluation distributes over the padded element-wise difference.
pub proof fn lemma_eval_sub(a: Seq<int>, b: Seq<int>, x: int)
    ensures
        poly_eval(sub_seq(a, b), x) == poly_eval(a, x) - poly_eval(b, x),
{
    assert(sub_seq(a, b) =~= add_seq(a, pscale(-1, b)));
    lemma_eval_add(a, pscale(-1, b), x);
    lemma_eval_scale(-1, b, x);
    assert(-1 * poly_eval(b, x) == -poly_eval(b, x)) by (nonlinear_arith);
}

/// A polynomial whose coefficients are all zero evaluates to zero.
pub proof fn lemma_eval_all_zero(s: Seq<int>, x: int)
    requires
        forall|i: int| 0 <= i < s.len() ==> s[i] == 0,
    ensures
        poly_eval(s, x) == 0,
    decreases s.len(),
{
    if s.len() > 0 {
        assert forall|i: int| 0 <= i < s.drop_first().len() implies s.drop_first()[i] == 0 by {
            assert(s.drop_first()[i] == s[i + 1]);
        }
        lemma_eval_all_zero(s.drop_first(), x);
        assert(s[0] + x * 0 == 0) by (nonlinear_arith)
            requires
                s[0] == 0,
        ;
    }
}

/// Lagrange interpolation at the origin over any quorum of `k` pairwise
/// distinct nodes that lie on a polynomial with at most `k` coefficients
/// recovers that polynomial's constant term exactly: the accumulated
/// numerator is the constant term times the accumulated denominator.
pub proof fn lemma_interpolation_recovers_constant(
    cs: Seq<int>,
    xs: Seq<int>,
    ys: Seq<int>,
    k: int,
)
    requires
        1 <= cs.len() <= k,
        k <= xs.len(),
        k <= ys.len(),
        forall|a: int, b: int| 0 <= a < b < k ==> xs[a] != xs[b],
        forall|i: int| 0 <= i < k ==> ys[i] == poly_eval(cs, #[trigger] xs[i]),
    ensures
        acc_den(xs, k, k) != 0,
        acc_num(xs, ys, k, k) == cs[0] * acc_den(xs, k, k),
{
    let d = acc_den(xs, k, k);
    crate::lagrange::lemma_acc_den_nonzero(xs, k, k);
    let mp = interp_poly(xs, ys, k, k);
    let scaled = pscale(d, cs);
    let q = sub_seq(mp, scaled);
    let roots = xs.take(k);
    assert forall|j: int| 0 <= j < roots.len() implies poly_eval(q, #[trigger] roots[j]) == 0 by {
        assert(roots[j] == xs[j]);
        lemma_eval_sub(mp, scaled, xs[j]);
        lemma_eval_interp_at_node(xs, ys, k, k, j);
        lemma_eval_scale(d, cs, xs[j]);
        lemma_acc_den_split(xs, k, j, k);
        let o = others_upto(xs, k, j, k);
        let dj = den_upto(xs, j, k);
        assert((ys[j] * o) * dj == ys[j] * (o * dj)) by (nonlinear_arith);
        assert(d * poly_eval(cs, xs[j]) == ys[j] * d) by (nonlinear_arith)
            requires
                poly_eval(cs, xs[j]) == ys[j],
        ;
    }
    lemma_interp_poly_len(xs, ys, k, k);
    assert(q.len() <= k);
    assert forall|a: int, b: int| 0 <= a < b < roots.len() implies roots[a] != roots[b] by {
        assert(roots[a] == xs[a]);
        assert(roots[b] == xs[b]);
    }
    lemma_roots_zero(q, roots);
    lemma_eval_all_zero(q, 0);
    lemma_eval_sub(mp, scaled, 0);
    lemma_eval_interp_at_zero(xs, ys, k, k);
    lemma_eval_scale(d, cs, 0);
    crate::polynomial::lemma_poly_eval_at_zero(cs);
    lemma_acc_num_is_sum(xs, ys, k, k);
    assert(d * cs[0] == cs[0] * d) by (nonlinear_arith);
}

} // verus!
