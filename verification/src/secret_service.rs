use vstd::prelude::*;
use vstd::string::StringExecFns;
use crate::lagrange::{acc_den, acc_num, has_exact_quotient, interp_ok, lemma_trunc_div_exact,
    trunc_div};
use crate::polynomial::poly_eval;
use crate::shamir::{distinct_xs, shares_wf, xs_of, ys_of, ShamirAlgorithm, ShamirError,
    COEFF_BOUND, MAX_DEGREE};

verus! {

/// Whether `c` is a hexadecimal digit.
pub open spec fn is_hex_digit(c: char) -> bool {
    ('0' <= c && c <= '9') || ('a' <= c && c <= 'f') || ('A' <= c && c <= 'F')
}

/// Numeric value of a hexadecimal digit.
pub open spec fn hex_digit_val(c: char) -> int {
    if '0' <= c && c <= '9' {
        c as int - '0' as int
    } else if 'a' <= c && c <= 'f' {
        c as int - 'a' as int + 10
    } else {
        c as int - 'A' as int + 10
    }
}

/// Value of a sequence of hexadecimal digits, most significant first.
pub open spec fn hex_val(s: Seq<char>) -> int
    decreases s.len(),
{
    if s.len() == 0 {
        0
    } else {
        hex_val(s.drop_last()) * 16 + hex_digit_val(s.last())
    }
}

/// Whether `s` is hexadecimal text the parsing boundary accepts: one to
/// sixteen hex digits, so that the value fits the secret bound of the
/// engine.
pub open spec fn valid_hex(s: Seq<char>) -> bool {
    1 <= s.len() <= 16 && forall|i: int| 0 <= i < s.len() ==> is_hex_digit(#[trigger] s[i])
}

/// Sixteen to the power `n`.
pub open spec fn pow16(n: nat) -> int
    decreases n,
{
    if n == 0 {
        1
    } else {
        16 * pow16((n - 1) as nat)
    }
}

/// A sequence of hex digits encodes a nonnegative value below sixteen to
/// its length.
pub proof fn lemma_hex_val_bound(s: Seq<char>)
    requires
        forall|i: int| 0 <= i < s.len() ==> is_hex_digit(#[trigger] s[i]),
    ensures
        0 <= hex_val(s) < pow16(s.len()),
    decreases s.len(),
{
    if s.len() > 0 {
        assert forall|i: int| 0 <= i < s.drop_last().len() implies is_hex_digit(
            #[trigger] s.drop_last()[i],
        ) by {
            assert(s.drop_last()[i] == s[i]);
        }
        lemma_hex_val_bound(s.drop_last());
        assert(0 <= hex_digit_val(s.last()) < 16);
        let h = hex_val(s.drop_last());
        let p = pow16(s.drop_last().len());
        assert(0 <= h * 16 && h * 16 + 15 < 16 * p) by (nonlinear_arith)
            requires
                0 <= h < p,
        ;
    }
}

/// Parses hexadecimal text into a secret value: accepts one to sixteen hex
/// digits and returns their numeric value, and fails with `ParseError` on
/// every other input.
#[verifier::loop_isolation(false)]
pub fn parse_hex_secret(secret: &str) -> (r: Result<i128, ShamirError>)
    ensures
        r is Ok <==> valid_hex(secret@),
        r is Ok ==> r->Ok_0 == hex_val(secret@) && 0 <= r->Ok_0 < 0x1_0000_0000_0000_0000,
        r is Err ==> r->Err_0 == ShamirError::ParseError,
{
    let ghost s = secret@;
    if !secret.is_ascii() {
        proof {
            assert(!valid_hex(s)) by {
                if valid_hex(s) {
                    assert forall|i: int| 0 <= i < s.len() implies '\0' <= #[trigger] s[i]
                        <= '\u{7f}' by {
                        assert(is_hex_digit(s[i]));
                    }
                }
            }
        }
        return Err(ShamirError::ParseError);
    }
    proof {
        vstd::string::is_ascii_spec_bytes(secret);
        vstd::utf8::is_ascii_chars_encode_utf8(s);
    }
    let bytes = secret.as_bytes();
    let n = bytes.len();
    if n == 0 || n > 16 {
        return Err(ShamirError::ParseError);
    }
    let mut value: u128 = 0;
    let mut i: usize = 0;
    while i < n
        invariant
            i <= n,
            value == hex_val(s.take(i as int)),
            forall|t: int| 0 <= t < i ==> is_hex_digit(#[trigger] s[t]),
        decreases n - i,
    {
        let b = bytes[i];
        proof {
            assert(b == s[i as int] as u8);
            assert(s[i as int] as int <= 127);
            assert(b as int == s[i as int] as int);
        }
        let d: u128 = if b >= 48 && b <= 57 {
            (b - 48) as u128
        } else if b >= 97 && b <= 102 {
            (b - 97 + 10) as u128
        } else if b >= 65 && b <= 70 {
            (b - 65 + 10) as u128
        } else {
            proof {
                assert(!is_hex_digit(s[i as int]));
                assert(!valid_hex(s));
            }
            return Err(ShamirError::ParseError);
        };
        proof {
            assert(is_hex_digit(s[i as int]));
            assert(d as int == hex_digit_val(s[i as int]));
            lemma_hex_val_bound(s.take(i as int));
            assert(pow16(16) == 0x1_0000_0000_0000_0000) by {
                reveal_with_fuel(pow16, 17);
            };
            assert(pow16(i as nat) <= pow16(16)) by {
                lemma_pow16_mono(i as nat, 16);
            };
            assert(s.take(i + 1).drop_last() =~= s.take(i as int));
            assert(s.take(i + 1).last() == s[i as int]);
        }
        value = value * 16 + d;
        i = i + 1;
    }
    proof {
        assert(s.take(n as int) =~= s);
        lemma_hex_val_bound(s);
        assert(pow16(n as nat) <= pow16(16)) by {
            lemma_pow16_mono(n as nat, 16);
        };
        assert(pow16(16) == 0x1_0000_0000_0000_0000) by {
            reveal_with_fuel(pow16, 17);
        };
    }
    Ok(value as i128)
}

/// The hexadecimal digit character for a value below sixteen.
pub open spec fn hex_digit_char(d: int) -> char {
    if d == 0 {
        '0'
    } else if d == 1 {
        '1'
    } else if d == 2 {
        '2'
    } else if d == 3 {
        '3'
    } else if d == 4 {
        '4'
    } else if d == 5 {
        '5'
    } else if d == 6 {
        '6'
    } else if d == 7 {
        '7'
    } else if d == 8 {
        '8'
    } else if d == 9 {
        '9'
    } else if d == 10 {
        'a'
    } else if d == 11 {
        'b'
    } else if d == 12 {
        'c'
    } else if d == 13 {
        'd'
    } else if d == 14 {
        'e'
    } else {
        'f'
    }
}

/// Hexadecimal rendering of a nonnegative value, without leading zeros
/// except for the value zero itself.
pub open spec fn hex_of(n: int) -> Seq<char>
    decreases n,
{
    if n < 16 {
        seq![hex_digit_char(n)]
    } else {
        hex_of(n / 16) + seq![hex_digit_char(n % 16)]
    }
}

/// Hexadecimal rendering of a value, a minus sign ahead of a negative one.
pub open spec fn hex_render(v: int) -> Seq<char> {
    if v < 0 {
        seq!['-'] + hex_of(-v)
    } else {
        hex_of(v)
    }
}

/// One hexadecimal digit as text.
fn hex_digit_str(d: u128) -> (r: &'static str)
    requires
        d < 16,
    ensures
        r@ == seq![hex_digit_char(d as int)],
{
    proof {
        reveal_strlit("0");
        reveal_strlit("1");
        reveal_strlit("2");
        reveal_strlit("3");
        reveal_strlit("4");
        reveal_strlit("5");
        reveal_strlit("6");
        reveal_strlit("7");
        reveal_strlit("8");
        reveal_strlit("9");
        reveal_strlit("a");
        reveal_strlit("b");
        reveal_strlit("c");
        reveal_strlit("d");
        reveal_strlit("e");
        reveal_strlit("f");
    }
    if d == 0 {
        "0"
    } else if d == 1 {
        "1"
    } else if d == 2 {
        "2"
    } else if d == 3 {
        "3"
    } else if d == 4 {
        "4"
    } else if d == 5 {
        "5"
    } else if d == 6 {
        "6"
    } else if d == 7 {
        "7"
    } else if d == 8 {
        "8"
    } else if d == 9 {
        "9"
    } else if d == 10 {
        "a"
    } else if d == 11 {
        "b"
    } else if d == 12 {
        "c"
    } else if d == 13 {
        "d"
    } else if d == 14 {
        "e"
    } else {
        "f"
    }
}

/// Hexadecimal text of a nonnegative value.
fn hex_string_of(n: u128) -> (r: String)
    ensures
        r@ == hex_of(n as int),
    decreases n,
{
    if n < 16 {
        String::from_str(hex_digit_str(n))
    } else {
        let mut s = hex_string_of(n / 16);
        s.append(hex_digit_str(n % 16));
        s
    }
}

/// Hexadecimal text of any value, a minus sign ahead of a negative one.
pub fn to_hex_text(v: i128) -> (r: String)
    ensures
        r@ == hex_render(v as int),
{
    proof {
        reveal_strlit("-");
    }
    if v < 0 {
        let magnitude: u128 = ((-(v + 1)) as u128) + 1;
        proof {
            assert(magnitude as int == -(v as int));
        }
        let mut s = String::from_str("-");
        s.append(hex_string_of(magnitude).as_str());
        proof {
            assert(s@ =~= hex_render(v as int));
        }
        s
    } else {
        hex_string_of(v as u128)
    }
}

/// Powers of sixteen grow with the exponent.
pub proof fn lemma_pow16_mono(n1: nat, n2: nat)
    requires
        n1 <= n2,
    ensures
        pow16(n1) <= pow16(n2),
        pow16(n1) >= 1,
    decreases n2,
{
    if n2 > 0 {
        if n1 == 0 {
            lemma_pow16_mono(0, (n2 - 1) as nat);
        } else {
            lemma_pow16_mono((n1 - 1) as nat, (n2 - 1) as nat);
        }
    }
}


/// Service boundary around the secret-sharing engine: hexadecimal text in,
/// shares out, and back again.
pub struct SecretService;

impl SecretService {
    /// Splits a secret given as hexadecimal text into `parties` shares with
    /// a sharing polynomial of degree `degree`.  Fails with `ParseError` on
    /// malformed text, and with `InvalidParameters` when the party count is
    /// below the threshold `degree + 1`.
    #[allow(non_snake_case)]
    pub fn secretPartition(degree: u8, secret: String, parties: u8) -> (r: Result<
        Vec<Vec<i128>>,
        ShamirError,
    >)
        requires
            2 <= degree <= MAX_DEGREE,
        ensures
            (r == Err::<Vec<Vec<i128>>, ShamirError>(ShamirError::ParseError)) <==> !valid_hex(
                secret@,
            ),
            (r == Err::<Vec<Vec<i128>>, ShamirError>(ShamirError::InvalidParameters)) <==> (
            valid_hex(secret@) && (parties as int) < degree + 1),
            (r is Ok) <==> (valid_hex(secret@) && (parties as int) >= degree + 1),
            r is Ok ==> {
                let shares = r->Ok_0@;
                &&& shares.len() == parties as int
                &&& shares_wf(shares)
                &&& distinct_xs(shares)
                &&& (forall|i: int| 0 <= i < parties ==> xs_of(shares)[i] == i + 1)
                &&& exists|cs: Seq<int>|
                    #![auto]
                    {
                        &&& 1 <= cs.len() <= degree + 1
                        &&& cs[0] == hex_val(secret@)
                        &&& (forall|t: int| 1 <= t < cs.len() ==> 0 <= #[trigger] cs[t] < COEFF_BOUND)
                        &&& (forall|i: int|
                            0 <= i < parties ==> ys_of(shares)[i] == poly_eval(cs, i + 1))
                    }
            },
    {
        let shamir = ShamirAlgorithm::new(Some(degree));
        let parsed = match parse_hex_secret(secret.as_str()) {
            Ok(v) => v,
            Err(e) => {
                return Err(e);
            },
        };
        shamir.split(parsed, parties)
    }

    /// Recovers the secret encoded in a quorum of shares and renders it back
    /// as hexadecimal text.  The failure conditions are exactly those of the
    /// engine's reconstruction.
    #[allow(non_snake_case)]
    pub fn getSecret(degree: u8, values: Vec<Vec<i128>>) -> (r: Result<String, ShamirError>)
        requires
            degree >= 2,
            shares_wf(values@),
        ensures
            ({
                let n = values@.len() as int;
                let k = degree as int + 1;
                let xs = xs_of(values@);
                let ys = ys_of(values@);
                let nres = acc_num(xs, ys, k, k);
                let dres = acc_den(xs, k, k);
                let valid = n >= k && distinct_xs(values@);
                &&& ((n < k) <==> r == Err::<String, ShamirError>(
                    (ShamirError::InsufficientShares {
                        required: (degree + 1) as usize,
                        got: values@.len() as usize,
                    }),
                ))
                &&& ((n >= k && !distinct_xs(values@)) <==> r == Err::<String, ShamirError>(
                    ShamirError::DuplicateCoordinate,
                ))
                &&& ((valid && !interp_ok(xs, ys, k)) <==> r == Err::<String, ShamirError>(
                    ShamirError::ArithmeticOverflow,
                ))
                &&& ((valid && interp_ok(xs, ys, k) && !has_exact_quotient(nres, dres)) <==> r
                    == Err::<String, ShamirError>(ShamirError::NonExactDivision))
                &&& ((valid && interp_ok(xs, ys, k) && has_exact_quotient(nres, dres)) <==> r
                    is Ok)
                &&& (r is Ok ==> r->Ok_0@ == hex_render(trunc_div(nres, dres)))
            }),
    {
        let ghost xs = xs_of(values@);
        let ghost ys = ys_of(values@);
        let ghost k = degree as int + 1;
        let shamir = ShamirAlgorithm::new(Some(degree));
        match shamir.fromValues(values) {
            Ok(v) => {
                proof {
                    lemma_trunc_div_exact(acc_num(xs, ys, k, k), acc_den(xs, k, k), v as int);
                }
                Ok(to_hex_text(v))
            },
            Err(e) => Err(e),
        }
    }
}

} // verus!
