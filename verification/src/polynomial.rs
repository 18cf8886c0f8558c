use vstd::prelude::*;
use vstd::string::StringExecFns;

verus! {

/// Decimal digit character for a value below ten.
pub open spec fn dec_digit_char(d: int) -> char {
    if d == 0 {
        '0'
    } else if d == 1 {
        '1'
    } else if d == 2 {
        '2'
    } else if d == 3 {
        '3'
    } else if d == 4 {
        '4'
    } else if d == 5 {
        '5'
    } else if d == 6 {
        '6'
    } else if d == 7 {
        '7'
    } else if d == 8 {
        '8'
    } else {
        '9'
    }
}

/// Decimal rendering of a nonnegative value.
pub open spec fn dec_of(n: int) -> Seq<char>
    decreases n,
{
    if n < 10 {
        seq![dec_digit_char(n)]
    } else {
        dec_of(n / 10) + seq![dec_digit_char(n % 10)]
    }
}

/// Decimal rendering of a value, a minus sign ahead of a negative one.
pub open spec fn dec_render(v: int) -> Seq<char> {
    if v < 0 {
        seq!['-'] + dec_of(-v)
    } else {
        dec_of(v)
    }
}

/// One term of the textual polynomial: the coefficient, the indeterminate,
/// and for degrees past one a caret and the degree.
pub open spec fn term_text(c: int, ind: char, d: int) -> Seq<char> {
    if d == 1 {
        dec_render(c) + seq![ind]
    } else {
        dec_render(c) + seq![ind] + seq!['^'] + dec_of(d)
    }
}

/// The textual sum of the terms of degree below `m`: the constant term is
/// always shown, every other term is omitted when its coefficient is zero.
pub open spec fn terms_text(s: Seq<int>, ind: char, m: int) -> Seq<char>
    decreases m,
{
    if m <= 1 {
        dec_render(s[0])
    } else if s[m - 1] == 0 {
        terms_text(s, ind, m - 1)
    } else {
        terms_text(s, ind, m - 1) + seq![' ', '+', ' '] + term_text(s[m - 1], ind, m - 1)
    }
}

/// The full textual rendering `f(<ind>) = <terms>` of a polynomial.
pub open spec fn poly_text(s: Seq<int>, ind: char) -> Seq<char> {
    seq!['f', '('] + seq![ind] + seq![')', ' ', '=', ' '] + terms_text(s, ind, s.len() as int)
}

/// Coefficient sequence of a polynomial, viewed mathematically: index `i`
/// holds the coefficient of the term of degree `i`.
pub open spec fn coeffs_of(v: Seq<i128>) -> Seq<int> {
    v.map_values(|c: i128| c as int)
}

/// `s` with every trailing occurrence of `o` removed.
pub open spec fn strip_trailing(s: Seq<int>, o: int) -> Seq<int>
    decreases s.len(),
{
    if s.len() == 0 {
        s
    } else if s.last() == o {
        strip_trailing(s.drop_last(), o)
    } else {
        s
    }
}

/// The canonical coefficient sequence: trailing zeros stripped, and the zero
/// polynomial represented by the single coefficient `0`.
pub open spec fn canon(s: Seq<int>) -> Seq<int> {
    if strip_trailing(s, 0).len() == 0 {
        seq![0int]
    } else {
        strip_trailing(s, 0)
    }
}

/// Coefficient of degree `i`, counting absent entries as zero.
pub open spec fn coeff_at(s: Seq<int>, i: int) -> int {
    if 0 <= i < s.len() {
        s[i]
    } else {
        0
    }
}

/// Element-wise sum of two coefficient sequences, the shorter one padded
/// with zeros.
pub open spec fn add_seq(a: Seq<int>, b: Seq<int>) -> Seq<int> {
    Seq::new(if a.len() >= b.len() { a.len() } else { b.len() },
        |i: int| coeff_at(a, i) + coeff_at(b, i))
}

/// Element-wise difference of two coefficient sequences, the shorter one
/// padded with zeros.
pub open spec fn sub_seq(a: Seq<int>, b: Seq<int>) -> Seq<int> {
    Seq::new(if a.len() >= b.len() { a.len() } else { b.len() },
        |i: int| coeff_at(a, i) - coeff_at(b, i))
}

/// Every coefficient negated.
pub open spec fn neg_seq(s: Seq<int>) -> Seq<int> {
    s.map_values(|c: int| -c)
}

/// The term of the convolution of `a` and `b` at output index `k` that is
/// contributed by `a[i]`, zero when either index falls outside its sequence.
pub open spec fn conv_term(a: Seq<int>, b: Seq<int>, k: int, i: int) -> int {
    if 0 <= i < a.len() && 0 <= k - i < b.len() {
        a[i] * b[k - i]
    } else {
        0
    }
}

/// Partial convolution sum at output index `k`, over contributions from
/// `a[0]` up to `a[m - 1]`.
pub open spec fn conv_at_upto(a: Seq<int>, b: Seq<int>, k: int, m: int) -> int
    decreases m,
{
    if m <= 0 {
        0
    } else {
        conv_at_upto(a, b, k, m - 1) + conv_term(a, b, k, m - 1)
    }
}

/// Discrete convolution of two non-empty coefficient sequences: the output
/// coefficient at index `k` is the sum over `i + j == k` of `a[i] * b[j]`.
pub open spec fn conv(a: Seq<int>, b: Seq<int>) -> Seq<int> {
    Seq::new((a.len() + b.len() - 1) as nat, |k: int| conv_at_upto(a, b, k, a.len() as int))
}

/// Value of the polynomial with coefficients `s` at the point `x`:
/// the constant term plus `x` times the value of the shifted-down rest,
/// which equals the sum of `s[i] * x^i` over all indices.
pub open spec fn poly_eval(s: Seq<int>, x: int) -> int
    decreases s.len(),
{
    if s.len() == 0 {
        0
    } else {
        s[0] + x * poly_eval(s.drop_first(), x)
    }
}

/// All intermediate values of a Horner evaluation of `s` at `x` lie within
/// the range of `i128`.
pub open spec fn eval_fits(s: Seq<int>, x: int) -> bool {
    &&& forall|k: int|
        0 <= k < s.len() ==> i128::MIN <= poly_eval(#[trigger] s.skip(k), x) <= i128::MAX
    &&& forall|k: int|
        1 <= k <= s.len() ==> i128::MIN <= x * poly_eval(#[trigger] s.skip(k), x) <= i128::MAX
}

/// Degree reported for a canonical coefficient sequence: `-1` for the zero
/// polynomial, otherwise the index of the leading coefficient.
pub open spec fn spec_degree(s: Seq<int>) -> int {
    if s == seq![0int] {
        -1
    } else {
        s.len() - 1
    }
}

/// An immutable polynomial over integer coefficients.  The index of each
/// coefficient is its degree: in `[1, 2]` the first entry is `1*x^0`, the
/// second `2*x^1`.
pub struct Polynomial {
    /// Coefficients, constant term first.
    pub coefficients: Vec<i128>,
    /// Display symbol for the indeterminate, e.g. `x` in `f(x) = 1 + 2x`.
    pub indeterminate: char,
}

impl View for Polynomial {
    type V = Seq<int>;

    open spec fn view(&self) -> Seq<int> {
        coeffs_of(self.coefficients@)
    }
}

impl Polynomial {
    /// A well-formed polynomial is canonical: at least one coefficient, and
    /// no trailing zero except in the single-coefficient zero polynomial.
    pub open spec fn wf(&self) -> bool {
        self@.len() >= 1 && (self@.len() == 1 || self@.last() != 0)
    }

    /// Returns `list` with every trailing occurrence of `object` removed.
    pub fn strip_from_end(list: Vec<i128>, object: i128) -> (r: Vec<i128>)
        ensures
            coeffs_of(r@) == strip_trailing(coeffs_of(list@), object as int),
    {
        let ghost s = coeffs_of(list@);
        let mut n: usize = list.len();
        proof {
            assert(s.take(n as int) =~= s);
        }
        while n > 0 && list[n - 1] == object
            invariant
                n <= list.len(),
                s == coeffs_of(list@),
                strip_trailing(s, object as int) == strip_trailing(s.take(n as int), object as int),
            decreases n,
        {
            proof {
                assert(s.take(n as int).last() == object as int);
                assert(s.take(n as int).drop_last() =~= s.take(n - 1));
            }
            n = n - 1;
        }
        proof {
            if n > 0 {
                assert(s.take(n as int).last() == s[n - 1]);
            }
            assert(strip_trailing(s.take(n as int), object as int) == s.take(n as int));
        }
        let mut new_list = list;
        new_list.truncate(n);
        proof {
            assert(coeffs_of(new_list@) =~= s.take(n as int));
        }
        new_list
    }

    /// Returns a polynomial from a vector of coefficients and an
    /// indeterminate, normalized by stripping trailing zeros; an all-zero
    /// (or empty) vector yields the canonical zero polynomial.
    pub fn new(coefficients: Vec<i128>, indeterminate: char) -> (r: Polynomial)
        ensures
            r@ == canon(coeffs_of(coefficients@)),
            r.wf(),
            r.indeterminate == indeterminate,
    {
        let ghost s = coeffs_of(coefficients@);
        let stripped_coefficients = Self::strip_from_end(coefficients, 0);
        // Zero degree special case
        if stripped_coefficients.len() == 0 {
            let mut zero: Vec<i128> = Vec::new();
            zero.push(0);
            proof {
                assert(coeffs_of(zero@) =~= seq![0int]);
            }
            return Polynomial { coefficients: zero, indeterminate };
        }
        let r = Polynomial { coefficients: stripped_coefficients, indeterminate };
        proof {
            lemma_strip_trailing_no_trailer(s, 0);
        }
        r
    }

    /// Returns a polynomial from a vector of integer coefficients and an
    /// indeterminate; like `new`, the result is normalized.
    pub fn from_ints(coefficients: Vec<i128>, indeterminate: char) -> (r: Polynomial)
        ensures
            r@ == canon(coeffs_of(coefficients@)),
            r.wf(),
            r.indeterminate == indeterminate,
    {
        Self::new(coefficients, indeterminate)
    }

    /// Adds the same-degree coefficients of `other` to the coefficients of
    /// `self` and returns a new, normalized polynomial with the summed
    /// coefficients.
    #[verifier::loop_isolation(false)]
    pub fn add(&self, other: Polynomial) -> (r: Polynomial)
        requires
            forall|i: int|
                0 <= i < add_seq(self@, other@).len() ==> i128::MIN <= #[trigger] add_seq(
                    self@,
                    other@,
                )[i] <= i128::MAX,
        ensures
            r@ == canon(add_seq(self@, other@)),
            r.wf(),
            r.indeterminate == 'x',
    {
        let a_len = self.coefficients.len();
        let b_len = other.coefficients.len();
        let max_len = if a_len >= b_len {
            a_len
        } else {
            b_len
        };
        let mut new_coefficients: Vec<i128> = Vec::new();
        let mut i: usize = 0;
        while i < max_len
            invariant
                i <= max_len,
                new_coefficients@.len() == i,
                forall|j: int|
                    0 <= j < i ==> coeffs_of(new_coefficients@)[j] == add_seq(self@, other@)[j],
            decreases max_len - i,
        {
            let av: i128 = if i < a_len {
                self.coefficients[i]
            } else {
                0
            };
            let bv: i128 = if i < b_len {
                other.coefficients[i]
            } else {
                0
            };
            proof {
                assert(av as int == coeff_at(self@, i as int));
                assert(bv as int == coeff_at(other@, i as int));
                assert(add_seq(self@, other@)[i as int] == av + bv);
            }
            let ghost prev = new_coefficients@;
            new_coefficients.push(av + bv);
            proof {
                assert forall|j: int| 0 <= j < i + 1 implies coeffs_of(new_coefficients@)[j]
                    == add_seq(self@, other@)[j] by {
                    if j < i {
                        assert(new_coefficients@[j] == prev[j]);
                        assert(coeffs_of(prev)[j] == add_seq(self@, other@)[j]);
                    } else {
                        assert(new_coefficients@[j] == av + bv);
                    }
                }
            }
            i = i + 1;
        }
        proof {
            assert(coeffs_of(new_coefficients@) =~= add_seq(self@, other@));
        }
        Polynomial::new(new_coefficients, 'x')
    }

    /// Subtracts `other` from `self` by adding its negation, and returns a
    /// new, normalized polynomial.
    pub fn sub(&self, other: Polynomial) -> (r: Polynomial)
        requires
            other.wf(),
            forall|i: int| 0 <= i < other@.len() ==> #[trigger] other@[i] != i128::MIN,
            forall|i: int|
                0 <= i < sub_seq(self@, other@).len() ==> i128::MIN <= #[trigger] sub_seq(
                    self@,
                    other@,
                )[i] <= i128::MAX,
        ensures
            r@ == canon(sub_seq(self@, other@)),
            r.wf(),
            r.indeterminate == 'x',
    {
        let mut negative_coefficients: Vec<i128> = Vec::new();
        let mut i: usize = 0;
        let b_len = other.coefficients.len();
        #[verifier::loop_isolation(false)]
        while i < b_len
            invariant
                i <= b_len,
                negative_coefficients@.len() == i,
                forall|j: int|
                    0 <= j < i ==> coeffs_of(negative_coefficients@)[j] == neg_seq(other@)[j],
            decreases b_len - i,
        {
            proof {
                assert(other@[i as int] == other.coefficients@[i as int] as int);
                assert(neg_seq(other@)[i as int] == -other@[i as int]);
            }
            negative_coefficients.push(-other.coefficients[i]);
            i = i + 1;
        }
        proof {
            assert(coeffs_of(negative_coefficients@) =~= neg_seq(other@));
        }
        let negative = Polynomial::new(negative_coefficients, 'x');
        proof {
            lemma_canon_of_wf_neg(other@);
            assert(add_seq(self@, negative@) =~= sub_seq(self@, other@));
        }
        self.add(negative)
    }

    /// Multiplies `self` and `other` by discrete convolution and returns a
    /// new, normalized polynomial: the coefficient at index `k` of the
    /// product is the sum over `i + j == k` of `self[i] * other[j]`.
    #[verifier::loop_isolation(false)]
    pub fn multiply(&self, other: Polynomial) -> (r: Polynomial)
        requires
            self.wf(),
            other.wf(),
            self@.len() + other@.len() <= usize::MAX,
            forall|k: int, m: int|
                0 <= k < conv(self@, other@).len() && 0 <= m <= self@.len() ==> i128::MIN
                    <= #[trigger] conv_at_upto(self@, other@, k, m) <= i128::MAX,
            forall|k: int, i: int|
                0 <= i < self@.len() && 0 <= k - i < other@.len() ==> i128::MIN
                    <= #[trigger] conv_term(self@, other@, k, i) <= i128::MAX,
        ensures
            r@ == canon(conv(self@, other@)),
            r.wf(),
            r.indeterminate == 'x',
    {
        let a_len = self.coefficients.len();
        let b_len = other.coefficients.len();
        let out_len = a_len + b_len - 1;
        let mut new_coefficients: Vec<i128> = vec![0; out_len];
        let mut i: usize = 0;
        while i < a_len
            invariant
                i <= a_len,
                new_coefficients@.len() == out_len,
                forall|k: int|
                    0 <= k < out_len ==> coeffs_of(new_coefficients@)[k] == conv_at_upto(
                        self@,
                        other@,
                        k,
                        i as int,
                    ),
            decreases a_len - i,
        {
            let self_coeff = self.coefficients[i];
            let mut j: usize = 0;
            while j < b_len
                invariant
                    j <= b_len,
                    i < a_len,
                    self_coeff == self.coefficients@[i as int],
                    new_coefficients@.len() == out_len,
                    forall|k: int|
                        0 <= k < out_len ==> coeffs_of(new_coefficients@)[k] == conv_at_upto(
                            self@,
                            other@,
                            k,
                            i as int,
                        ) + if i <= k < i + j {
                            conv_term(self@, other@, k, i as int)
                        } else {
                            0
                        },
                decreases b_len - j,
            {
                let ghost k0 = (i + j) as int;
                proof {
                    assert(conv_term(self@, other@, k0, i as int) == self@[i as int]
                        * other@[j as int]);
                    assert(coeffs_of(new_coefficients@)[k0] == conv_at_upto(
                        self@,
                        other@,
                        k0,
                        i as int,
                    ));
                    assert(conv_at_upto(self@, other@, k0, i as int + 1) == conv_at_upto(
                        self@,
                        other@,
                        k0,
                        i as int,
                    ) + conv_term(self@, other@, k0, i as int));
                }
                let ghost prev = new_coefficients@;
                let other_coeff = other.coefficients[j];
                proof {
                    assert(self_coeff as int == self@[i as int]);
                    assert(other_coeff as int == other@[j as int]);
                }
                let updated = new_coefficients[i + j] + self_coeff * other_coeff;
                proof {
                    assert(updated as int == conv_at_upto(self@, other@, k0, i as int) + conv_term(
                        self@,
                        other@,
                        k0,
                        i as int,
                    ));
                }
                new_coefficients[i + j] = updated;
                proof {
                    assert forall|k: int| 0 <= k < out_len implies coeffs_of(new_coefficients@)[k]
                        == conv_at_upto(self@, other@, k, i as int) + if i <= k < i + j + 1 {
                        conv_term(self@, other@, k, i as int)
                    } else {
                        0
                    } by {
                        assert(coeffs_of(prev)[k] == conv_at_upto(self@, other@, k, i as int)
                            + if i <= k < i + j {
                            conv_term(self@, other@, k, i as int)
                        } else {
                            0
                        });
                        if k != k0 {
                            assert(new_coefficients@[k] == prev[k]);
                            assert(coeffs_of(new_coefficients@)[k] == coeffs_of(prev)[k]);
                        } else {
                            assert(new_coefficients@[k] == updated);
                        }
                    }
                }
                j = j + 1;
            }
            proof {
                assert forall|k: int| 0 <= k < out_len implies coeffs_of(new_coefficients@)[k]
                    == conv_at_upto(self@, other@, k, i as int + 1) by {
                    if !(i <= k < i + b_len) {
                        assert(conv_term(self@, other@, k, i as int) == 0);
                    }
                }
            }
            i = i + 1;
        }
        proof {
            assert(coeffs_of(new_coefficients@) =~= conv(self@, other@));
        }
        Polynomial::new(new_coefficients, 'x')
    }

    /// Returns the value of the polynomial at the point `determinate`, by
    /// exact integer Horner evaluation.
    #[verifier::loop_isolation(false)]
    pub fn evaluate_at(&self, determinate: i128) -> (r: i128)
        requires
            eval_fits(self@, determinate as int),
        ensures
            r == poly_eval(self@, determinate as int),
    {
        let ghost s = self@;
        let ghost x = determinate as int;
        let mut sum: i128 = 0;
        let mut k: usize = self.coefficients.len();
        proof {
            assert(s.skip(k as int) =~= Seq::<int>::empty());
        }
        while k > 0
            invariant
                k <= s.len(),
                sum == poly_eval(s.skip(k as int), x),
            decreases k,
        {
            k = k - 1;
            proof {
                assert(s.skip(k as int).drop_first() =~= s.skip(k as int + 1));
                assert(s.skip(k as int)[0] == s[k as int]);
                assert(poly_eval(s.skip(k as int), x) == s[k as int] + x * poly_eval(
                    s.skip(k as int + 1),
                    x,
                ));
                assert(self.coefficients@[k as int] as int == s[k as int]);
            }
            sum = self.coefficients[k] + determinate * sum;
        }
        proof {
            assert(s.skip(0) =~= s);
        }
        sum
    }

    /// Returns the polynomial rendered as text, `f(x) = c0 + c1x + c2x^2`,
    /// omitting every term with a zero coefficient except the constant term.
    #[verifier::loop_isolation(false)]
    pub fn as_string(&self) -> (r: String)
        requires
            self@.len() >= 1,
        ensures
            r@ == poly_text(self@, self.indeterminate),
    {
        let ghost s = self@;
        let len = self.coefficients.len();
        let mut terms = dec_text(self.coefficients[0]);
        let mut d: usize = 1;
        while d < len
            invariant
                1 <= d <= len,
                terms@ == terms_text(s, self.indeterminate, d as int),
            decreases len - d,
        {
            let coeff = self.coefficients[d];
            if coeff != 0 {
                proof {
                    reveal_strlit(" + ");
                    assert(" + "@ =~= seq![' ', '+', ' ']);
                }
                terms.append(" + ");
                let ct = dec_text(coeff);
                terms.append(ct.as_str());
                push_char(&mut terms, self.indeterminate);
                if d >= 2 {
                    push_char(&mut terms, '^');
                    let dt = dec_string_of(d as u128);
                    terms.append(dt.as_str());
                    proof {
                        assert(terms@ =~= terms_text(s, self.indeterminate, d as int) + seq![
                            ' ',
                            '+',
                            ' ',
                        ] + term_text(s[d as int], self.indeterminate, d as int));
                    }
                } else {
                    proof {
                        assert(terms@ =~= terms_text(s, self.indeterminate, d as int) + seq![
                            ' ',
                            '+',
                            ' ',
                        ] + term_text(s[d as int], self.indeterminate, d as int));
                    }
                }
            }
            d = d + 1;
        }
        proof {
            reveal_strlit("f(");
            reveal_strlit(") = ");
            assert("f("@ =~= seq!['f', '(']);
            assert(") = "@ =~= seq![')', ' ', '=', ' ']);
        }
        let mut out = String::from_str("f(");
        push_char(&mut out, self.indeterminate);
        out.append(") = ");
        out.append(terms.as_str());
        proof {
            assert(out@ =~= poly_text(s, self.indeterminate));
        }
        out
    }

    /// Returns the degree of the polynomial, `-1` for the zero polynomial.
    pub fn degree(&self) -> (r: isize)
        requires
            self.wf(),
            self@.len() <= 0x7fff_ffff,
        ensures
            r == spec_degree(self@),
    {
        // Special case zero polynomial
        if self.coefficients.len() == 1 && self.coefficients[0] == 0 {
            proof {
                assert(self@ =~= seq![0int]);
            }
            return -1;
        }
        proof {
            assert(self@ != seq![0int]) by {
                if self@ == seq![0int] {
                    assert(self@.len() == 1);
                    assert(self@[0] == 0);
                    assert(self.coefficients@[0] == 0);
                }
            }
        }
        (self.coefficients.len() - 1) as isize
    }
}

/// Geometric sum `1 + x + x^2 + ... + x^(n-1)`, used to bound polynomial
/// values.
pub open spec fn geo(x: int, n: nat) -> int
    decreases n,
{
    if n == 0 {
        0
    } else {
        1 + x * geo(x, (n - 1) as nat)
    }
}

/// The geometric sum of a nonnegative base is nonnegative.
pub proof fn lemma_geo_nonneg(x: int, n: nat)
    requires
        x >= 0,
    ensures
        geo(x, n) >= 0,
    decreases n,
{
    if n > 0 {
        lemma_geo_nonneg(x, (n - 1) as nat);
        assert(x * geo(x, (n - 1) as nat) >= 0) by (nonlinear_arith)
            requires
                x >= 0,
                geo(x, (n - 1) as nat) >= 0,
        ;
    }
}

/// The geometric sum grows with both its base and its length.
pub proof fn lemma_geo_mono(x1: int, x2: int, n1: nat, n2: nat)
    requires
        1 <= x1 <= x2,
        n1 <= n2,
    ensures
        geo(x1, n1) <= geo(x2, n2),
    decreases n2,
{
    if n1 == 0 {
        lemma_geo_nonneg(x2, n2);
    } else {
        lemma_geo_mono(x1, x2, (n1 - 1) as nat, (n2 - 1) as nat);
        lemma_geo_nonneg(x1, (n1 - 1) as nat);
        assert(x1 * geo(x1, (n1 - 1) as nat) <= x2 * geo(x2, (n2 - 1) as nat))
            by (nonlinear_arith)
            requires
                1 <= x1 <= x2,
                0 <= geo(x1, (n1 - 1) as nat) <= geo(x2, (n2 - 1) as nat),
        ;
    }
}

/// A polynomial whose coefficients are bounded by `c` in magnitude takes,
/// at a point `x >= 1`, a value bounded by `c` times the geometric sum of
/// `x` over its length.
pub proof fn lemma_poly_eval_bound(s: Seq<int>, x: int, c: int)
    requires
        1 <= x,
        0 <= c,
        forall|i: int| 0 <= i < s.len() ==> -c <= #[trigger] s[i] <= c,
    ensures
        -(c * geo(x, s.len())) <= poly_eval(s, x) <= c * geo(x, s.len()),
    decreases s.len(),
{
    lemma_geo_nonneg(x, s.len());
    if s.len() == 0 {
    } else {
        let rest = s.drop_first();
        assert forall|i: int| 0 <= i < rest.len() implies -c <= #[trigger] rest[i] <= c by {
            assert(rest[i] == s[i + 1]);
        }
        lemma_poly_eval_bound(rest, x, c);
        lemma_geo_nonneg(x, rest.len());
        let g = geo(x, rest.len());
        let h = poly_eval(rest, x);
        assert(-(x * (c * g)) <= x * h <= x * (c * g)) by (nonlinear_arith)
            requires
                1 <= x,
                -(c * g) <= h <= c * g,
        ;
        assert(geo(x, s.len()) == 1 + x * g);
        assert(c * (1 + x * g) == c + x * (c * g)) by (nonlinear_arith);
        assert(c * geo(x, s.len()) == c + x * (c * g));
        assert(poly_eval(s, x) == s[0] + x * h);
    }
}

/// Negating a canonical coefficient sequence keeps it canonical.
pub proof fn lemma_canon_of_wf_neg(s: Seq<int>)
    requires
        s.len() >= 1,
        s.len() == 1 || s.last() != 0,
    ensures
        canon(neg_seq(s)) == neg_seq(s),
{
    let n = neg_seq(s);
    assert(n.len() == s.len());
    if s.len() == 1 && s.last() == 0 {
        assert(n.last() == 0);
        assert(n.drop_last() =~= Seq::<int>::empty());
        assert(strip_trailing(Seq::<int>::empty(), 0) =~= Seq::<int>::empty());
        assert(strip_trailing(n, 0).len() == 0);
        assert(canon(n) =~= seq![0int]);
        assert(n =~= seq![0int]);
    } else {
        assert(n.last() == -s.last());
        assert(n.last() != 0);
        assert(strip_trailing(n, 0) == n);
    }
}

/// Relies on String::push: appends one character at the end of the string.
#[verifier::external_body]
fn push_char(s: &mut String, c: char)
    ensures
        final(s)@ == old(s)@.push(c),
{
    s.push(c);
}

/// One decimal digit as text.
fn dec_digit_str(d: u128) -> (r: &'static str)
    requires
        d < 10,
    ensures
        r@ == seq![dec_digit_char(d as int)],
{
    proof {
        reveal_strlit("0");
        reveal_strlit("1");
        reveal_strlit("2");
        reveal_strlit("3");
        reveal_strlit("4");
        reveal_strlit("5");
        reveal_strlit("6");
        reveal_strlit("7");
        reveal_strlit("8");
        reveal_strlit("9");
    }
    if d == 0 {
        "0"
    } else if d == 1 {
        "1"
    } else if d == 2 {
        "2"
    } else if d == 3 {
        "3"
    } else if d == 4 {
        "4"
    } else if d == 5 {
        "5"
    } else if d == 6 {
        "6"
    } else if d == 7 {
        "7"
    } else if d == 8 {
        "8"
    } else {
        "9"
    }
}

/// Decimal text of a nonnegative value.
fn dec_string_of(n: u128) -> (r: String)
    ensures
        r@ == dec_of(n as int),
    decreases n,
{
    if n < 10 {
        String::from_str(dec_digit_str(n))
    } else {
        let mut s = dec_string_of(n / 10);
        s.append(dec_digit_str(n % 10));
        s
    }
}

/// Decimal text of any value, a minus sign ahead of a negative one.
fn dec_text(v: i128) -> (r: String)
    ensures
        r@ == dec_render(v as int),
{
    proof {
        reveal_strlit("-");
    }
    if v < 0 {
        let magnitude: u128 = ((-(v + 1)) as u128) + 1;
        proof {
            assert(magnitude as int == -(v as int));
        }
        let mut s = String::from_str("-");
        s.append(dec_string_of(magnitude).as_str());
        proof {
            assert(s@ =~= dec_render(v as int));
        }
        s
    } else {
        dec_string_of(v as u128)
    }
}

/// Elements at and beyond the stripped length all equal the stripped value.
pub proof fn lemma_strip_trailing_suffix(s: Seq<int>, o: int)
    ensures
        forall|j: int| strip_trailing(s, o).len() <= j < s.len() ==> s[j] == o,
    decreases s.len(),
{
    if s.len() > 0 && s.last() == o {
        lemma_strip_trailing_suffix(s.drop_last(), o);
        assert forall|j: int| strip_trailing(s, o).len() <= j < s.len() implies s[j] == o by {
            if j < s.len() - 1 {
                assert(s.drop_last()[j] == o);
            }
        }
    }
}

/// A canonical coefficient sequence is its own canonical form.
pub proof fn lemma_canon_of_canonical(a: Seq<int>)
    requires
        a.len() >= 1,
        a.len() == 1 || a.last() != 0,
    ensures
        canon(a) == a,
{
    if a.len() == 1 && a.last() == 0 {
        assert(a.drop_last() =~= Seq::<int>::empty());
        assert(strip_trailing(Seq::<int>::empty(), 0) =~= Seq::<int>::empty());
        assert(strip_trailing(a, 0).len() == 0);
        assert(canon(a) =~= seq![0int]);
        assert(a =~= seq![0int]);
    } else {
        assert(strip_trailing(a, 0) == a);
    }
}

/// Extending a canonical coefficient sequence with trailing zeros does not
/// change its canonical form.
pub proof fn lemma_canon_extended(a: Seq<int>, s: Seq<int>)
    requires
        a.len() >= 1,
        a.len() == 1 || a.last() != 0,
        s.len() >= a.len(),
        forall|i: int| 0 <= i < a.len() ==> s[i] == a[i],
        forall|i: int| a.len() <= i < s.len() ==> s[i] == 0,
    ensures
        canon(s) == a,
    decreases s.len(),
{
    if s.len() == a.len() {
        assert(s =~= a);
        lemma_canon_of_canonical(a);
    } else {
        assert(s.last() == 0);
        assert forall|i: int| 0 <= i < a.len() implies s.drop_last()[i] == a[i] by {
            assert(s.drop_last()[i] == s[i]);
        }
        assert forall|i: int| a.len() <= i < s.drop_last().len() implies s.drop_last()[i] == 0 by {
            assert(s.drop_last()[i] == s[i]);
        }
        lemma_canon_extended(a, s.drop_last());
        assert(strip_trailing(s, 0) == strip_trailing(s.drop_last(), 0));
    }
}

/// Adding a polynomial and then subtracting it again gives back the
/// original: for canonical coefficient sequences `a` and `b`, the normalized
/// difference of the normalized sum `a + b` and `b` is `a` itself.
pub proof fn lemma_add_sub_cancel(a: Seq<int>, b: Seq<int>)
    requires
        a.len() >= 1,
        a.len() == 1 || a.last() != 0,
        b.len() >= 1,
        b.len() == 1 || b.last() != 0,
    ensures
        canon(sub_seq(canon(add_seq(a, b)), b)) == a,
{
    let c = add_seq(a, b);
    let cc = canon(c);
    lemma_strip_trailing_no_trailer(c, 0);
    lemma_strip_trailing_suffix(c, 0);
    // the canonical sum agrees with the raw sum at every degree
    assert forall|i: int| true implies coeff_at(cc, i) == coeff_at(c, i) by {
        if strip_trailing(c, 0).len() == 0 {
            if 0 <= i < c.len() {
                assert(c[i] == 0);
            }
        }
    }
    let d = sub_seq(cc, b);
    assert forall|i: int| 0 <= i < d.len() implies d[i] == coeff_at(a, i) by {
        assert(coeff_at(cc, i) == coeff_at(c, i));
        if i < c.len() {
            assert(c[i] == coeff_at(a, i) + coeff_at(b, i));
        }
    }
    assert(d.len() >= a.len()) by {
        if b.len() >= a.len() {
            assert(d.len() >= b.len());
        } else {
            // the top coefficient of the sum is the top coefficient of a
            if a.len() > 1 {
                assert(c[a.len() - 1] == coeff_at(a, a.len() - 1) + coeff_at(b, a.len() - 1));
                assert(coeff_at(b, a.len() - 1) == 0);
                assert(c[a.len() - 1] == a.last());
                assert(strip_trailing(c, 0).len() >= a.len()) by {
                    if strip_trailing(c, 0).len() < a.len() {
                        assert(c[a.len() - 1] == 0);
                    }
                }
                assert(cc.len() >= a.len());
            }
        }
    }
    lemma_canon_extended(a, d);
}

/// Evaluating a polynomial at zero yields its constant term.
pub proof fn lemma_poly_eval_at_zero(s: Seq<int>)
    requires
        s.len() >= 1,
    ensures
        poly_eval(s, 0) == s[0],
{
    assert(poly_eval(s, 0) == s[0] + 0 * poly_eval(s.drop_first(), 0));
}

/// The canonical zero polynomial reports degree `-1`.
pub proof fn lemma_zero_polynomial_degree()
    ensures
        spec_degree(seq![0int]) == -1,
{
}

/// A sequence whose last element is not the stripped value is already fully
/// stripped.
pub proof fn lemma_strip_trailing_no_trailer(s: Seq<int>, o: int)
    ensures
        strip_trailing(s, o).len() > 0 ==> strip_trailing(s, o).last() != o,
        strip_trailing(s, o).len() <= s.len(),
        forall|i: int| 0 <= i < strip_trailing(s, o).len() ==> strip_trailing(s, o)[i] == s[i],
    decreases s.len(),
{
    if s.len() > 0 && s.last() == o {
        lemma_strip_trailing_no_trailer(s.drop_last(), o);
        assert forall|i: int| 0 <= i < strip_trailing(s, o).len() implies strip_trailing(s, o)[i]
            == s[i] by {
            assert(strip_trailing(s, o)[i] == s.drop_last()[i]);
        }
    }
}

} // verus!
