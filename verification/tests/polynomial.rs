use shamir_vault::polynomial::Polynomial;

#[test]
fn test_strip_from_end() {
    assert_eq!(
        Polynomial::strip_from_end(vec![1, 2, 0, 3, 0, 0, 0], 0),
        vec![1, 2, 0, 3]
    );
}

#[test]
fn test_strip_from_end_on_polynomial() {
    let polynomial = Polynomial::new(vec![1, 2, 0, 3, 0], 'x');
    assert_eq!(polynomial.coefficients, vec![1, 2, 0, 3]);
}

#[test]
fn test_zero_polynomial() {
    let polynomial = Polynomial::new(vec![0], 'x');
    assert_eq!(polynomial.coefficients, vec![0]);
}

#[test]
fn test_zero_special_case_degree() {
    let polynomial = Polynomial::new(vec![0], 'x');
    assert_eq!(polynomial.degree(), -1)
}

#[test]
fn test_degree() {
    let polynomial = Polynomial::new(vec![1, 2, 0, 3], 'x');
    assert_eq!(polynomial.degree(), 3)
}

#[test]
fn test_string_representation() {
    let polynomial = Polynomial::new(vec![1, 2, 0, 3], 'x');
    assert_eq!(polynomial.as_string(), String::from("f(x) = 1 + 2x + 3x^3"))
}

#[test]
fn test_add() {
    let a_polynomial = Polynomial::new(vec![1, 2, 0, 3], 'x');
    let b_polynomial = Polynomial::new(vec![1, 2, 0, 3, 4], 'x');

    assert_eq!(
        a_polynomial.add(b_polynomial).coefficients,
        vec![2, 4, 0, 6, 4]
    )
}

#[test]
fn test_add_negative_coefficients() {
    let a_polynomial = Polynomial::new(vec![1, 2, 0, 3], 'x');
    let b_polynomial = Polynomial::new(vec![-1, -2, 0, -3], 'x');

    assert_eq!(a_polynomial.add(b_polynomial).coefficients, vec![0])
}

#[test]
fn test_multiply_simple() {
    let a_polynomial = Polynomial::new(vec![1, 2, 3], 'x');
    let b_polynomial = Polynomial::new(vec![1], 'x');

    assert_eq!(
        a_polynomial.multiply(b_polynomial).coefficients,
        vec![1, 2, 3]
    );
}

#[test]
fn test_multiply() {
    let a_polynomial = Polynomial::new(vec![1, 2, 3], 'x');
    let b_polynomial = Polynomial::new(vec![3, 2, 1], 'x');

    assert_eq!(
        a_polynomial.multiply(b_polynomial).coefficients,
        vec![3, 8, 14, 8, 3]
    )
}

#[test]
fn test_multiply_negative() {
    let a_polynomial = Polynomial::new(vec![1, 2, 3], 'x');
    let b_polynomial = Polynomial::new(vec![-3, -2, -1], 'x');

    assert_eq!(
        a_polynomial.multiply(b_polynomial).coefficients,
        vec![-3, -8, -14, -8, -3]
    )
}

#[test]
fn test_evaluate_at_zero() {
    let polynomial = Polynomial::new(vec![1, 2, 3], 'x');

    assert_eq!(polynomial.evaluate_at(0), 1)
}

#[test]
fn test_evaluate_at_five() {
    let polynomial = Polynomial::new(vec![1, 2, 3, 4], 'x');

    assert_eq!(polynomial.evaluate_at(5), 586)
}

#[test]
fn test_evaluate_at_negative() {
    let polynomial = Polynomial::new(vec![-1, 2, -3, 4], 'x');

    assert_eq!(polynomial.evaluate_at(-5), -586)
}

#[test]
fn test_subtract() {
    let a_polynomial = Polynomial::new(vec![1, 2, 3], 'x');
    let b_polynomial = Polynomial::new(vec![1, 2, 3], 'x');

    assert_eq!(a_polynomial.sub(b_polynomial).coefficients, vec![0])
}

#[test]
fn test_double_negative_subtract() {
    let a_polynomial = Polynomial::new(vec![-1, -2, -3], 'x');
    let b_polynomial = Polynomial::new(vec![-3, -2, -1], 'x');

    assert_eq!(a_polynomial.sub(b_polynomial).coefficients, vec![2, 0, -2])
}

#[test]
fn test_negative_subtract() {
    let a_polynomial = Polynomial::new(vec![-1, -2, -3], 'x');
    let b_polynomial = Polynomial::new(vec![3, 2, 1], 'x');

    assert_eq!(a_polynomial.sub(b_polynomial).coefficients, vec![-4, -4, -4])
}

#[test]
fn test_new_polynomial_from_ints() {
    let polynomial = Polynomial::from_ints(vec![1, 2, 3], 'x');

    assert_eq!(polynomial.coefficients, vec![1, 2, 3]);
}

#[test]
fn test_add_then_subtract_restores() {
    let a_polynomial = Polynomial::new(vec![5, -7, 11], 'x');
    let b_polynomial = Polynomial::new(vec![2, 3, -11, 4], 'x');
    let b_again = Polynomial::new(vec![2, 3, -11, 4], 'x');

    let sum = a_polynomial.add(b_polynomial);
    assert_eq!(sum.sub(b_again).coefficients, vec![5, -7, 11]);
}

#[test]
fn test_empty_coefficients_is_zero_polynomial() {
    let polynomial = Polynomial::new(vec![], 'x');
    assert_eq!(polynomial.coefficients, vec![0]);
    assert_eq!(polynomial.degree(), -1);
}

#[test]
fn test_string_representation_zero_terms_omitted() {
    let polynomial = Polynomial::new(vec![0, 0, 2], 'y');
    assert_eq!(polynomial.as_string(), String::from("f(y) = 0 + 2y^2"));
}

#[test]
fn test_string_representation_negative_coefficients() {
    let polynomial = Polynomial::new(vec![-1, 2, -3], 'x');
    assert_eq!(polynomial.as_string(), String::from("f(x) = -1 + 2x + -3x^2"));
}
