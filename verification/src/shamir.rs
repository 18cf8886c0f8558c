use vstd::prelude::*;
use rand::Rng;
use crate::lagrange::{
    acc_den, acc_fits, acc_num, den_fits, den_upto, fits_i128, has_exact_quotient, interp_ok,
    lemma_acc_den_nonzero, lemma_acc_fits_mono, lemma_den_fits_mono, lemma_num_fits_mono,
    lemma_trunc_div_exact, num_fits, num_upto, qmul, trunc_div,
};
use crate::polynomial::{
    coeffs_of, eval_fits, geo, lemma_geo_mono, lemma_geo_nonneg, lemma_poly_eval_bound,
    lemma_strip_trailing_no_trailer, poly_eval, strip_trailing, Polynomial,
};

verus! {

/// Whether every supplied share is a `(x, y)` pair.
pub open spec fn shares_wf(values: Seq<Vec<i128>>) -> bool {
    forall|i: int| 0 <= i < values.len() ==> (#[trigger] values[i])@.len() == 2
}

/// The coordinates of a share list.
pub open spec fn xs_of(values: Seq<Vec<i128>>) -> Seq<int> {
    Seq::new(values.len(), |i: int| values[i]@[0] as int)
}

/// The values of a share list.
pub open spec fn ys_of(values: Seq<Vec<i128>>) -> Seq<int> {
    Seq::new(values.len(), |i: int| values[i]@[1] as int)
}

/// Whether a share list carries pairwise-distinct coordinates.
pub open spec fn distinct_xs(values: Seq<Vec<i128>>) -> bool {
    forall|i: int, j: int|
        0 <= i < j < values.len() ==> xs_of(values)[i] != xs_of(values)[j]
}

/// Upper bound (exclusive) for the randomly drawn coefficients of a sharing
/// polynomial; the bound keeps every share value well inside the `i128`
/// range for the supported degrees and party counts.
pub const COEFF_BOUND: i128 = 0x1_0000_0000;

/// Largest supported polynomial degree for `split`: beyond it a share value
/// could exceed the range of `i128`.
pub const MAX_DEGREE: u8 = 10;

/// Largest magnitude allowed for a secret handed to `split`.
pub const MAX_SECRET: i128 = 0x1_0000_0000_0000_0000;

/// Typed failures of the secret-sharing engine.
#[derive(Clone, Copy, Debug, PartialEq, Eq, Structural)]
pub enum ShamirError {
    /// Degree below 2, or party count below `degree + 1`.
    InvalidParameters,
    /// Fewer shares supplied to a reconstruction than the threshold.
    InsufficientShares { required: usize, got: usize },
    /// Two supplied shares carry the same coordinate.
    DuplicateCoordinate,
    /// A division required by the interpolation is not exact over the
    /// integers.
    NonExactDivision,
    /// An intermediate interpolation value does not fit in `i128`.
    ArithmeticOverflow,
    /// Malformed numeric text at the parsing boundary of the engine.
    ParseError,
}

/// Threshold secret sharing: a secret becomes the constant term of a random
/// polynomial of the configured degree, shares are evaluations of that
/// polynomial, and any `degree + 1` of them recover the secret by Lagrange
/// interpolation at the origin.
#[derive(Clone, Copy, Debug, PartialEq, Eq, Structural)]
pub struct ShamirAlgorithm {
    /// Threshold minus one: the degree of the sharing polynomials.
    pub degree: u8,
}

/// Relies on rand::thread_rng and rand::Rng::gen_range: a thread-local
/// cryptographically secure generator, sampling uniformly from the given
/// half-open range; nothing beyond the range is promised of the outcome.
#[verifier::external_body]
fn random_in_range(lo: i128, hi: i128) -> (r: i128)
    requires
        lo < hi,
    ensures
        lo <= r < hi,
{
    rand::thread_rng().gen_range(lo..hi)
}

impl ShamirAlgorithm {
    /// Builds an engine with the given degree, defaulting to 2; a degree
    /// below 2 is a configuration error.
    pub fn new(degree: Option<u8>) -> (r: Self)
        requires
            degree matches Some(d) ==> d >= 2,
        ensures
            r.degree == (match degree {
                Some(d) => d,
                None => 2,
            }),
            r.degree >= 2,
    {
        let x = if degree.is_some() {
            degree.unwrap()
        } else {
            2
        };
        Self { degree: x }
    }

    /// Builds the sharing polynomial for `value`: the constant term is the
    /// secret itself, and the `degree` remaining coefficients are drawn
    /// independently from a secure random source over `[0, COEFF_BOUND)`.
    #[verifier::loop_isolation(false)]
    #[allow(non_snake_case)]
    pub fn polynomialGenerator(self, value: i128) -> (r: Polynomial)
        ensures
            r.wf(),
            1 <= r@.len() <= self.degree + 1,
            r@[0] == value,
            forall|i: int| 1 <= i < r@.len() ==> 0 <= #[trigger] r@[i] < COEFF_BOUND,
    {
        let mut polynom: Vec<i128> = Vec::new();
        polynom.push(value);
        let mut i: u16 = 1;
        while i <= self.degree as u16
            invariant
                1 <= i <= self.degree + 1,
                polynom@.len() == i,
                coeffs_of(polynom@)[0] == value,
                forall|j: int| 1 <= j < i ==> 0 <= #[trigger] coeffs_of(polynom@)[j] < COEFF_BOUND,
            decreases self.degree as int + 1 - i,
        {
            let c = random_in_range(0, COEFF_BOUND);
            let ghost prev = polynom@;
            polynom.push(c);
            proof {
                assert forall|j: int| 1 <= j < i + 1 implies 0 <= #[trigger] coeffs_of(polynom@)[j]
                    < COEFF_BOUND by {
                    if j < i {
                        assert(polynom@[j] == prev[j]);
                        assert(coeffs_of(prev)[j] == prev[j] as int);
                    } else {
                        assert(polynom@[j] == c);
                    }
                }
                assert(coeffs_of(polynom@)[0] == polynom@[0] as int);
                assert(polynom@[0] == prev[0]);
                assert(coeffs_of(prev)[0] == prev[0] as int);
            }
            i = i + 1;
        }
        let ghost s = coeffs_of(polynom@);
        let r = Polynomial::new(polynom, 'x');
        proof {
            lemma_strip_trailing_no_trailer(s, 0);
            if strip_trailing(s, 0).len() == 0 {
                lemma_strip_trailing_empty(s, 0);
                assert(r@ == seq![0int]);
                assert(s[0] == 0);
                assert(r@[0] == 0);
            } else {
                assert(r@ == strip_trailing(s, 0));
                assert forall|j: int| 1 <= j < r@.len() implies 0 <= #[trigger] r@[j]
                    < COEFF_BOUND by {
                    assert(r@[j] == s[j]);
                }
                assert(r@[0] == s[0]);
            }
        }
        r
    }
    /// Evaluates the sharing polynomial at the coordinates `1..=parties`,
    /// yielding one `(x, y)` share per party; the coordinates are pairwise
    /// distinct and nonzero.
    #[verifier::loop_isolation(false)]
    #[allow(non_snake_case)]
    pub fn sharesFromPolynomial(self, polynomial: &Polynomial, parties: u8) -> (r: Vec<Vec<i128>>)
        requires
            forall|x: int| 1 <= x <= parties ==> eval_fits(polynomial@, x),
        ensures
            r@.len() == parties as int,
            shares_wf(r@),
            forall|i: int| 0 <= i < parties ==> xs_of(r@)[i] == i + 1,
            forall|i: int| 0 <= i < parties ==> ys_of(r@)[i] == poly_eval(polynomial@, i + 1),
            distinct_xs(r@),
    {
        let mut result: Vec<Vec<i128>> = Vec::new();
        let mut idx: usize = 0;
        while idx < parties as usize
            invariant
                idx <= parties as usize,
                result@.len() == idx,
                forall|i: int|
                    0 <= i < idx ==> (#[trigger] result@[i])@.len() == 2 && result@[i]@[0] == i + 1
                        && result@[i]@[1] as int == poly_eval(polynomial@, i + 1),
            decreases parties as usize - idx,
        {
            let x: i128 = (idx as i128) + 1;
            let y = polynomial.evaluate_at(x);
            let mut pair: Vec<i128> = Vec::new();
            pair.push(x);
            pair.push(y);
            result.push(pair);
            idx = idx + 1;
        }
        proof {
            assert forall|i: int| 0 <= i < parties implies xs_of(result@)[i] == i + 1 by {
                assert(xs_of(result@)[i] == result@[i]@[0] as int);
            }
            assert forall|i: int| 0 <= i < parties implies ys_of(result@)[i] == poly_eval(
                polynomial@,
                i + 1,
            ) by {
                assert(ys_of(result@)[i] == result@[i]@[1] as int);
            }
        }
        result
    }

    /// Splits `secret` into `parties` shares: a random polynomial of the
    /// configured degree with the secret as its constant term is evaluated
    /// at the coordinates `1..=parties`.  Fails with `InvalidParameters`
    /// exactly when the degree is below 2 or the party count below
    /// `degree + 1`.
    pub fn split(self, secret: i128, parties: u8) -> (r: Result<Vec<Vec<i128>>, ShamirError>)
        requires
            self.degree <= MAX_DEGREE,
            -MAX_SECRET <= secret <= MAX_SECRET,
        ensures
            (r is Err) <==> (self.degree < 2 || (parties as int) < self.degree + 1),
            r is Err ==> r->Err_0 == ShamirError::InvalidParameters,
            r is Ok ==> {
                let shares = r->Ok_0@;
                &&& shares.len() == parties as int
                &&& shares_wf(shares)
                &&& distinct_xs(shares)
                &&& (forall|i: int| 0 <= i < parties ==> xs_of(shares)[i] == i + 1)
                &&& exists|cs: Seq<int>|
                    #![auto]
                    {
                        &&& 1 <= cs.len() <= self.degree + 1
                        &&& cs[0] == secret
                        &&& (forall|t: int| 1 <= t < cs.len() ==> 0 <= #[trigger] cs[t] < COEFF_BOUND)
                        &&& (forall|i: int|
                            0 <= i < parties ==> ys_of(shares)[i] == poly_eval(cs, i + 1))
                    }
            },
    {
        if self.degree < 2 || (parties as usize) < self.degree as usize + 1 {
            return Err(ShamirError::InvalidParameters);
        }
        let polynomial = self.polynomialGenerator(secret);
        proof {
            assert forall|x: int| 1 <= x <= parties implies eval_fits(polynomial@, x) by {
                lemma_sharing_poly_eval_fits(polynomial@, x);
            }
        }
        let shares = self.sharesFromPolynomial(&polynomial, parties);
        proof {
            let ghost cs = polynomial@;
            assert(1 <= cs.len() <= self.degree + 1 && cs[0] == secret && (forall|t: int|
                1 <= t < cs.len() ==> 0 <= #[trigger] cs[t] < COEFF_BOUND) && (forall|i: int|
                0 <= i < parties ==> ys_of(shares@)[i] == poly_eval(cs, i + 1)));
        }
        Ok(shares)
    }

    /// Recovers, by Lagrange interpolation at the origin, the value shared
    /// through a list of `(x, y)` pairs: the result is the exact value of
    /// `sum of y_i * prod_{j != i} (0 - x_j) / (x_i - x_j)` over the first
    /// `degree + 1` shares.  Fails when fewer than `degree + 1` shares are
    /// supplied, when two shares carry the same coordinate, when an
    /// intermediate value leaves the range of `i128`, or when the final
    /// division is not exact over the integers.
    #[verifier::loop_isolation(false)]
    #[verifier::rlimit(30)]
    #[allow(non_snake_case)]
    pub fn fromValues(self, values: Vec<Vec<i128>>) -> (r: Result<i128, ShamirError>)
        requires
            shares_wf(values@),
        ensures
            ({
                let n = values@.len() as int;
                let k = self.degree as int + 1;
                let xs = xs_of(values@);
                let ys = ys_of(values@);
                let nres = acc_num(xs, ys, k, k);
                let dres = acc_den(xs, k, k);
                let valid = n >= k && distinct_xs(values@);
                &&& ((n < k) <==> r == Err::<i128, ShamirError>(
                    (ShamirError::InsufficientShares {
                        required: (self.degree + 1) as usize,
                        got: values@.len() as usize,
                    }),
                ))
                &&& ((n >= k && !distinct_xs(values@)) <==> r == Err::<i128, ShamirError>(
                    ShamirError::DuplicateCoordinate,
                ))
                &&& ((valid && !interp_ok(xs, ys, k)) <==> r == Err::<i128, ShamirError>(
                    ShamirError::ArithmeticOverflow,
                ))
                &&& ((valid && interp_ok(xs, ys, k) && !has_exact_quotient(nres, dres)) <==> r
                    == Err::<i128, ShamirError>(ShamirError::NonExactDivision))
                &&& ((valid && interp_ok(xs, ys, k) && has_exact_quotient(nres, dres)) <==> r
                    is Ok)
                &&& (r is Ok ==> dres != 0 && r->Ok_0 * dres == nres)
            }),
    {
        let ghost xs = xs_of(values@);
        let ghost ys = ys_of(values@);
        let ghost kg = self.degree as int + 1;
        let n = values.len();
        let k = self.degree as usize + 1;
        if n < k {
            return Err(
                ShamirError::InsufficientShares { required: k, got: n },
            );
        }
        // Reject duplicate coordinates anywhere in the supplied list.
        let mut i: usize = 0;
        while i < n
            invariant
                i <= n,
                forall|a: int, b: int| 0 <= a < b < n && a < i ==> xs[a] != xs[b],
            decreases n - i,
        {
            let mut j: usize = i + 1;
            while j < n
                invariant
                    i < j <= n,
                    forall|a: int, b: int| 0 <= a < b < n && a < i ==> xs[a] != xs[b],
                    forall|b: int| i < b < j ==> xs[i as int] != xs[b],
                decreases n - j,
            {
                if values[i][0] == values[j][0] {
                    proof {
                        assert(xs[i as int] == values@[i as int]@[0] as int);
                        assert(xs[j as int] == values@[j as int]@[0] as int);
                        assert(!distinct_xs(values@));
                    }
                    return Err(ShamirError::DuplicateCoordinate);
                }
                j = j + 1;
            }
            i = i + 1;
        }
        proof {
            assert(distinct_xs(values@));
        }
        // Interpolate at 0 over the quorum formed by the first k shares.
        let mut num: i128 = 0;
        let mut den: i128 = 1;
        let mut i: usize = 0;
        while i < k
            invariant
                i <= k,
                num == acc_num(xs, ys, kg, i as int),
                den == acc_den(xs, kg, i as int),
                acc_fits(xs, ys, kg, i as int),
            decreases k - i,
        {
            let xi = values[i][0];
            let yi = values[i][1];
            proof {
                assert(xi as int == xs[i as int]);
                assert(yi as int == ys[i as int]);
            }
            let mut d: i128 = 1;
            let mut nn: i128 = 1;
            let mut j: usize = 0;
            while j < k
                invariant
                    j <= k,
                    i < k,
                    xi as int == xs[i as int],
                    d == den_upto(xs, i as int, j as int),
                    nn == num_upto(xs, i as int, j as int),
                    den_fits(xs, i as int, j as int),
                    num_fits(xs, i as int, j as int),
                decreases k - j,
            {
                if j != i {
                    let xj = values[j][0];
                    proof {
                        assert(xj as int == xs[j as int]);
                    }
                    let diff = match xi.checked_sub(xj) {
                        Some(v) => v,
                        None => {
                            proof {
                                assert(!den_fits(xs, i as int, j + 1));
                                lemma_den_fits_mono(xs, i as int, j + 1, kg);
                                assert(!acc_fits(xs, ys, kg, i + 1));
                                lemma_acc_fits_mono(xs, ys, kg, i + 1, kg);
                            }
                            return Err(ShamirError::ArithmeticOverflow);
                        },
                    };
                    let d_next = match d.checked_mul(diff) {
                        Some(v) => v,
                        None => {
                            proof {
                                assert(!den_fits(xs, i as int, j + 1));
                                lemma_den_fits_mono(xs, i as int, j + 1, kg);
                                assert(!acc_fits(xs, ys, kg, i + 1));
                                lemma_acc_fits_mono(xs, ys, kg, i + 1, kg);
                            }
                            return Err(ShamirError::ArithmeticOverflow);
                        },
                    };
                    let negx = match (0 as i128).checked_sub(xj) {
                        Some(v) => v,
                        None => {
                            proof {
                                assert(!num_fits(xs, i as int, j + 1));
                                lemma_num_fits_mono(xs, i as int, j + 1, kg);
                                assert(!acc_fits(xs, ys, kg, i + 1));
                                lemma_acc_fits_mono(xs, ys, kg, i + 1, kg);
                            }
                            return Err(ShamirError::ArithmeticOverflow);
                        },
                    };
                    let nn_next = match nn.checked_mul(negx) {
                        Some(v) => v,
                        None => {
                            proof {
                                assert(!num_fits(xs, i as int, j + 1));
                                lemma_num_fits_mono(xs, i as int, j + 1, kg);
                                assert(!acc_fits(xs, ys, kg, i + 1));
                                lemma_acc_fits_mono(xs, ys, kg, i + 1, kg);
                            }
                            return Err(ShamirError::ArithmeticOverflow);
                        },
                    };
                    d = d_next;
                    nn = nn_next;
                }
                j = j + 1;
            }
            // num = num * d + yi * nn * den; den = den * d
            let t1 = match num.checked_mul(d) {
                Some(v) => v,
                None => {
                    proof {
                        assert(!acc_fits(xs, ys, kg, i + 1));
                        lemma_acc_fits_mono(xs, ys, kg, i + 1, kg);
                    }
                    return Err(ShamirError::ArithmeticOverflow);
                },
            };
            let t2 = match yi.checked_mul(nn) {
                Some(v) => v,
                None => {
                    proof {
                        assert(!acc_fits(xs, ys, kg, i + 1));
                        lemma_acc_fits_mono(xs, ys, kg, i + 1, kg);
                    }
                    return Err(ShamirError::ArithmeticOverflow);
                },
            };
            let t3 = match t2.checked_mul(den) {
                Some(v) => v,
                None => {
                    proof {
                        assert(!acc_fits(xs, ys, kg, i + 1));
                        lemma_acc_fits_mono(xs, ys, kg, i + 1, kg);
                    }
                    return Err(ShamirError::ArithmeticOverflow);
                },
            };
            let num_next = match t1.checked_add(t3) {
                Some(v) => v,
                None => {
                    proof {
                        assert(!acc_fits(xs, ys, kg, i + 1));
                        lemma_acc_fits_mono(xs, ys, kg, i + 1, kg);
                    }
                    return Err(ShamirError::ArithmeticOverflow);
                },
            };
            let den_next = match den.checked_mul(d) {
                Some(v) => v,
                None => {
                    proof {
                        assert(!acc_fits(xs, ys, kg, i + 1));
                        lemma_acc_fits_mono(xs, ys, kg, i + 1, kg);
                    }
                    return Err(ShamirError::ArithmeticOverflow);
                },
            };
            num = num_next;
            den = den_next;
            i = i + 1;
        }
        proof {
            lemma_acc_den_nonzero(xs, kg, kg);
        }
        let q = match num.checked_div(den) {
            Some(v) => v,
            None => {
                return Err(ShamirError::ArithmeticOverflow);
            },
        };
        proof {
            assert(q as int == trunc_div(acc_num(xs, ys, kg, kg), acc_den(xs, kg, kg)));
        }
        match q.checked_mul(den) {
            Some(chk) => {
                if chk == num {
                    proof {
                        let nres = acc_num(xs, ys, kg, kg);
                        let dres = acc_den(xs, kg, kg);
                        assert(nres == qmul(q as int, dres));
                        assert(has_exact_quotient(nres, dres));
                    }
                    Ok(q)
                } else {
                    proof {
                        lemma_no_exact_quotient(
                            acc_num(xs, ys, kg, kg),
                            acc_den(xs, kg, kg),
                            q as int,
                        );
                    }
                    Err(ShamirError::NonExactDivision)
                }
            },
            None => {
                proof {
                    lemma_no_exact_quotient(
                        acc_num(xs, ys, kg, kg),
                        acc_den(xs, kg, kg),
                        q as int,
                    );
                }
                Err(ShamirError::NonExactDivision)
            },
        }
    }
}

/// A divisor with a truncated quotient whose product with that quotient
/// misses the dividend divides nothing within range: exactness would force
/// the truncated quotient to be the exact cofactor.
proof fn lemma_no_exact_quotient(n: int, d: int, q: int)
    requires
        d != 0,
        fits_i128(n),
        q == trunc_div(n, d),
        !(fits_i128(q * d) && q * d == n),
    ensures
        !has_exact_quotient(n, d),
{
    if has_exact_quotient(n, d) {
        let q2 = choose|q2: int| fits_i128(q2) && n == #[trigger] qmul(q2, d);
        lemma_trunc_div_exact(n, d, q2);
        assert(q == q2);
        assert(q * d == n);
        assert(fits_i128(n));
    }
}

/// A sharing polynomial of supported degree, with a bounded secret as its
/// constant term and random coefficients below `COEFF_BOUND`, can be Horner
/// evaluated in `i128` at every coordinate up to 255.
pub proof fn lemma_sharing_poly_eval_fits(s: Seq<int>, x: int)
    requires
        1 <= s.len() <= MAX_DEGREE + 1,
        -MAX_SECRET <= s[0] <= MAX_SECRET,
        forall|i: int| 1 <= i < s.len() ==> 0 <= #[trigger] s[i] < COEFF_BOUND,
        1 <= x <= 255,
    ensures
        eval_fits(s, x),
{
    let c = COEFF_BOUND as int;
    let g = geo(255, 10);
    assert(g == 4576864843273752806656) by {
        reveal_with_fuel(geo, 11);
    };
    // every suffix past the constant term is bounded through the geometric sum
    assert forall|k: int| 1 <= k <= s.len() implies -(c * g) <= poly_eval(
        #[trigger] s.skip(k),
        x,
    ) <= c * g by {
        let t = s.skip(k);
        assert forall|i: int| 0 <= i < t.len() implies -c <= #[trigger] t[i] <= c by {
            assert(t[i] == s[k + i]);
        }
        lemma_poly_eval_bound(t, x, c);
        lemma_geo_mono(x, 255, t.len(), 10);
        lemma_geo_nonneg(x, t.len());
        assert(c * geo(x, t.len()) <= c * g) by (nonlinear_arith)
            requires
                0 <= c,
                geo(x, t.len()) <= g,
        ;
    }
    assert forall|k: int| 1 <= k <= s.len() implies -(255 * (c * g)) <= x * poly_eval(
        #[trigger] s.skip(k),
        x,
    ) <= 255 * (c * g) by {
        let h = poly_eval(s.skip(k), x);
        assert(-(255 * (c * g)) <= x * h <= 255 * (c * g)) by (nonlinear_arith)
            requires
                1 <= x <= 255,
                -(c * g) <= h <= c * g,
        ;
    }
    assert forall|k: int| 0 <= k < s.len() implies i128::MIN <= poly_eval(
        #[trigger] s.skip(k),
        x,
    ) <= i128::MAX by {
        if k == 0 {
            let t = s.skip(0);
            assert(t =~= s);
            assert(t.drop_first() =~= s.skip(1));
            assert(poly_eval(t, x) == s[0] + x * poly_eval(s.skip(1), x));
        }
    }
}

/// Round trip of the engine: a quorum of at least `degree + 1` shares with
/// pairwise-distinct coordinates that lie on one sharing polynomial — as
/// every selection from `split`'s output does, in any order — encodes
/// exactly the polynomial's constant term, the secret: the reconstruction's
/// accumulated fraction equals the secret, and every value that satisfies
/// the reconstruction's postcondition is the secret itself.
pub proof fn lemma_round_trip(cs: Seq<int>, values: Seq<Vec<i128>>, degree: u8)
    requires
        degree >= 2,
        shares_wf(values),
        values.len() >= degree as int + 1,
        distinct_xs(values),
        1 <= cs.len() <= degree as int + 1,
        forall|i: int|
            0 <= i < values.len() ==> ys_of(values)[i] == poly_eval(
                cs,
                #[trigger] xs_of(values)[i],
            ),
    ensures
        acc_den(xs_of(values), degree as int + 1, degree as int + 1) != 0,
        acc_num(xs_of(values), ys_of(values), degree as int + 1, degree as int + 1) == cs[0]
            * acc_den(xs_of(values), degree as int + 1, degree as int + 1),
        forall|v: i128|
            #[trigger] qmul(v as int, acc_den(xs_of(values), degree as int + 1, degree as int + 1))
                == acc_num(
                xs_of(values),
                ys_of(values),
                degree as int + 1,
                degree as int + 1,
            ) ==> v == cs[0],
{
    let k = degree as int + 1;
    let xs = xs_of(values);
    let ys = ys_of(values);
    crate::interpolation::lemma_interpolation_recovers_constant(cs, xs, ys, k);
    let nres = acc_num(xs, ys, k, k);
    let dres = acc_den(xs, k, k);
    assert forall|v: i128| qmul(v as int, dres) == nres implies v == cs[0] by {
        assert(v == cs[0]) by (nonlinear_arith)
            requires
                (v as int) * dres == cs[0] * dres,
                dres != 0,
        ;
    }
}

/// If stripping `o` from the end of `s` leaves nothing, every element of `s`
/// equals `o`.
pub proof fn lemma_strip_trailing_empty(s: Seq<int>, o: int)
    requires
        strip_trailing(s, o).len() == 0,
    ensures
        forall|i: int| 0 <= i < s.len() ==> s[i] == o,
    decreases s.len(),
{
    if s.len() > 0 {
        if s.last() == o {
            lemma_strip_trailing_empty(s.drop_last(), o);
            assert forall|i: int| 0 <= i < s.len() implies s[i] == o by {
                if i < s.len() - 1 {
                    assert(s.drop_last()[i] == o);
                }
            }
        }
    }
}

} // verus!
