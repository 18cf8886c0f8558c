use shamir_vault::polynomial::Polynomial;
use shamir_vault::secret_service::SecretService;
use shamir_vault::shamir::{ShamirAlgorithm, ShamirError};
use shamir_vault::wallet::Wallet;

#[test]
fn test_split_scenario_shares() {
    let shamir = ShamirAlgorithm::new(Some(2));
    let shares = shamir.split(42, 3).unwrap();
    assert_eq!(shares.len(), 3);
    for (i, share) in shares.iter().enumerate() {
        assert_eq!(share.len(), 2);
        assert_eq!(share[0], (i as i128) + 1);
    }
}

#[test]
fn test_split_matches_manual_evaluation() {
    let shamir = ShamirAlgorithm::new(Some(2));
    let polynomial = shamir.polynomialGenerator(42);
    let shares = shamir.sharesFromPolynomial(&polynomial, 3);
    assert_eq!(shares.len(), 3);
    for share in shares.iter() {
        assert_eq!(share[1], polynomial.evaluate_at(share[0]));
    }
}

#[test]
fn test_reconstruct_scenario_returns_secret() {
    let shamir = ShamirAlgorithm::new(Some(2));
    let shares = shamir.split(42, 3).unwrap();
    assert_eq!(shamir.fromValues(shares), Ok(42));
}

#[test]
fn test_reconstruct_with_too_few_shares_fails() {
    let shamir = ShamirAlgorithm::new(Some(2));
    let mut shares = shamir.split(42, 3).unwrap();
    shares.pop();
    assert_eq!(
        shamir.fromValues(shares),
        Err(ShamirError::InsufficientShares { required: 3, got: 2 })
    );
}

#[test]
fn test_round_trip_with_scrambled_quorum() {
    let shamir = ShamirAlgorithm::new(Some(3));
    let shares = shamir.split(987654321, 6).unwrap();
    let quorum = vec![
        shares[4].clone(),
        shares[0].clone(),
        shares[5].clone(),
        shares[2].clone(),
    ];
    assert_eq!(shamir.fromValues(quorum), Ok(987654321));
}

#[test]
fn test_round_trip_negative_secret() {
    let shamir = ShamirAlgorithm::new(Some(2));
    let shares = shamir.split(-1234567890123456789, 5).unwrap();
    let quorum = vec![shares[1].clone(), shares[3].clone(), shares[4].clone()];
    assert_eq!(shamir.fromValues(quorum), Ok(-1234567890123456789));
}

#[test]
fn test_split_rejects_low_party_count() {
    let shamir = ShamirAlgorithm::new(Some(4));
    assert_eq!(shamir.split(42, 4), Err(ShamirError::InvalidParameters));
}

#[test]
fn test_generated_polynomial_carries_secret() {
    let shamir = ShamirAlgorithm::new(Some(2));
    let polynomial = shamir.polynomialGenerator(42);
    assert_eq!(polynomial.coefficients[0], 42);
    assert_eq!(polynomial.evaluate_at(0), 42);
    assert!(polynomial.coefficients.len() <= 3);
}

#[test]
fn test_generated_polynomial_draws_random_coefficients() {
    let shamir = ShamirAlgorithm::new(Some(5));
    let polynomial = shamir.polynomialGenerator(7);
    // all five random coefficients zero at once is beyond chance
    assert_eq!(polynomial.coefficients.len(), 6);
    assert!(polynomial.coefficients[1..].iter().any(|c| *c != 0));
}

#[test]
fn test_reconstruct_rejects_duplicate_coordinates() {
    let shamir = ShamirAlgorithm::new(Some(2));
    let shares = vec![vec![1, 10], vec![2, 20], vec![1, 30]];
    assert_eq!(
        shamir.fromValues(shares),
        Err(ShamirError::DuplicateCoordinate)
    );
}

#[test]
fn test_reconstruct_rejects_non_exact_division() {
    let shamir = ShamirAlgorithm::new(Some(2));
    // interpolating (1,1), (2,0), (4,0) at 0 yields 8/3
    let shares = vec![vec![1, 1], vec![2, 0], vec![4, 0]];
    assert_eq!(
        shamir.fromValues(shares),
        Err(ShamirError::NonExactDivision)
    );
}

#[test]
fn test_reconstruct_rejects_overflowing_shares() {
    let shamir = ShamirAlgorithm::new(Some(2));
    let shares = vec![vec![i128::MAX, 1], vec![i128::MIN, 1], vec![1, 1]];
    assert_eq!(
        shamir.fromValues(shares),
        Err(ShamirError::ArithmeticOverflow)
    );
}

#[test]
fn test_reconstruct_exact_known_points() {
    // y = 7 + 3x + x^2 at x = 1, 2, 3
    let shamir = ShamirAlgorithm::new(Some(2));
    let polynomial = Polynomial::new(vec![7, 3, 1], 'x');
    let shares: Vec<Vec<i128>> = (1..=3)
        .map(|x: i128| vec![x, polynomial.evaluate_at(x)])
        .collect();
    assert_eq!(shamir.fromValues(shares), Ok(7));
}

#[test]
fn test_secret_partition_and_get_secret_round_trip() {
    let partitions = SecretService::secretPartition(2, String::from("2a"), 3).unwrap();
    assert_eq!(partitions.len(), 3);
    let recovered = SecretService::getSecret(2, partitions).unwrap();
    assert_eq!(recovered, String::from("2a"));
}

#[test]
fn test_secret_partition_parses_long_hex_key() {
    let partitions =
        SecretService::secretPartition(2, String::from("0123456789abcDEF"), 4).unwrap();
    let recovered = SecretService::getSecret(2, partitions).unwrap();
    assert_eq!(recovered, String::from("123456789abcdef"));
}

#[test]
fn test_secret_partition_rejects_malformed_hex() {
    assert_eq!(
        SecretService::secretPartition(2, String::from("42g1"), 3),
        Err(ShamirError::ParseError)
    );
    assert_eq!(
        SecretService::secretPartition(2, String::from(""), 3),
        Err(ShamirError::ParseError)
    );
    assert_eq!(
        SecretService::secretPartition(2, String::from("0123456789abcdef0"), 3),
        Err(ShamirError::ParseError)
    );
}

#[test]
fn test_secret_partition_rejects_low_party_count() {
    assert_eq!(
        SecretService::secretPartition(3, String::from("2a"), 3),
        Err(ShamirError::InvalidParameters)
    );
}

#[test]
fn test_get_secret_reports_insufficient_shares() {
    let shares = vec![vec![1, 10], vec![2, 20]];
    assert_eq!(
        SecretService::getSecret(2, shares),
        Err(ShamirError::InsufficientShares { required: 3, got: 2 })
    );
}

#[test]
fn test_wallet_new_and_copy() {
    let wallet = Wallet::new(String::from("04deadbeef"), 2);
    let copied = wallet.copy();
    assert_eq!(copied.pub_key, String::from("04deadbeef"));
    assert_eq!(copied.degree, 2);
    assert_eq!(wallet.pub_key, copied.pub_key);
}

#[test]
fn test_get_secret_renders_negative_value() {
    // shares lie on -5 + x + x^2, whose constant term is negative
    let polynomial = Polynomial::new(vec![-5, 1, 1], 'x');
    let shares: Vec<Vec<i128>> = (1..=3)
        .map(|x: i128| vec![x, polynomial.evaluate_at(x)])
        .collect();
    assert_eq!(
        SecretService::getSecret(2, shares),
        Ok(String::from("-5"))
    );
}
