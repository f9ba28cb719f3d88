use num_bigint::{BigInt, ToBigInt};
use num_traits::One;

use shamir::error::Error;
use shamir::field::{mod_floor_i64, modular_multiplicative_inverse, multiply_all};
use shamir::interp::{interpolate_secret, validate_points};
use shamir::poly::{generate_coefficients, generate_points};

//    it "generates n-1 coefficients, all less than prime" do
#[test]
fn test_generate_coefficients() {
    let required_pieces: i32 = 6;
    let prime: i32 = 1613;
    let coefficients = generate_coefficients(required_pieces, prime);

    assert_eq!(coefficients.len() as i32, required_pieces - 1);
    for coefficient in coefficients {
        assert!(coefficient < prime);
    }
}

//    it "generates expected points given known inputs" do
#[test]
fn test_generate_points() {
    let secret: i32 = 1234;
    let number_of_pieces: i32 = 6;
    let coefficients = vec![166, 94];
    let prime: i32 = 1613;
    let expected_y_values = [1494, 329, 965, 176, 1188, 775];

    let points = generate_points(secret, number_of_pieces, &coefficients, prime);

    assert_eq!(points.len(), 6);
    for index in 0..points.len() {
        assert_eq!(points[index].0, index as i32 + 1);
        assert_eq!(points[index].1, expected_y_values[index]);
    }
}

//    it "validates single inputs" do
#[test]
fn test_validate_points() {
    let prime: i32 = 5717;
    assert!(validate_points(&vec![(1, 1)], prime).is_err()); // Not enough points
    assert!(validate_points(&vec![(1, 50001), (2, 20000), (3, 30000)], prime).is_err()); // Prime too small for y-values
}

#[test]
fn test_validate_points_errors() {
    let prime: i32 = 5717;
    assert_eq!(validate_points(&vec![], prime), Err(Error::InsufficientInputs));
    assert_eq!(validate_points(&vec![(1, 1)], prime), Err(Error::InsufficientInputs));
    assert_eq!(
        validate_points(&vec![(1, 1), (2, 5717)], prime),
        Err(Error::PrimeTooSmall)
    );
    assert_eq!(validate_points(&vec![(1, 1), (2, 5716)], prime), Ok(()));
}

//        it "creates a product of inputs" do
#[test]
fn test_multiply_all() {
    let empty_values: Vec<i64> = vec![];
    assert_eq!(multiply_all(&empty_values), BigInt::one());

    let test_data = [
        (vec![1i64, 2, 3], 6),
        (vec![2i64, -1, 2], -4),
        (vec![0i64, -43, 112], 0),
    ];

    for test_datum in &test_data {
        assert_eq!(multiply_all(&test_datum.0), test_datum.1.to_bigint().unwrap());
    }
}

//    it "calculates modular multiplicative inverse given known inputs" do
#[test]
fn test_modular_multiplicative_inverse() {
    let test_data = [((-4, 3617), 904), ((-4, 7211), -1803)];

    for test_datum in &test_data {
        let a = (test_datum.0).0.to_bigint().unwrap();
        let m = (test_datum.0).1.to_bigint().unwrap();
        let inverse = modular_multiplicative_inverse(&a, &m).unwrap().0;
        assert_eq!(inverse, test_datum.1 as i64);
        assert_eq!(
            mod_floor_i64((test_datum.0).0 as i64 * inverse, (test_datum.0).1 as i64),
            1
        );
    }
}

#[test]
fn test_inverse_of_zero_divisor() {
    let a = BigInt::from(7234); // 2 * 3617
    let m = BigInt::from(3617);
    assert_eq!(modular_multiplicative_inverse(&a, &m), Err(Error::ArithmeticError));
}

#[test]
fn test_inverse_coefficient_overflow() {
    // A first quotient around 2^88 drives the Bezout coefficients far past
    // the range of i64.
    let mut a = BigInt::from(1);
    for _ in 0..100 {
        a = a * BigInt::from(2);
    }
    let m = BigInt::from(3617);
    assert_eq!(modular_multiplicative_inverse(&a, &m), Err(Error::OverflowError));
}

#[test]
fn test_mod_floor() {
    assert_eq!(mod_floor_i64(-2, 6), 4);
    assert_eq!(mod_floor_i64(9, 7), 2);
    assert_eq!(mod_floor_i64(-7, 3), 2);
    assert_eq!(mod_floor_i64(0, 5), 0);
    assert_eq!(mod_floor_i64(-10, 5), 0);
}

fn choose_n_from<T>(source: &Vec<T>, n: usize) -> Vec<T>
where
    T: Clone,
{
    let mut source_copy = source.clone();
    (0..n)
        .map(|_| source_copy.remove(rand::random_range(0..source_copy.len())).clone())
        .collect()
}

//    it "successfully roundtrips a single random value" do
#[test]
fn test_interpolate_points() -> Result<(), Error> {
    let prime: i32 = 5717;
    let secret: i32 = rand::random_range(0..prime);
    let number_of_pieces: i32 = 8;
    let required_pieces: i32 = 5;
    println!("Secret is {}", secret);

    let points = generate_points(
        secret,
        number_of_pieces,
        &generate_coefficients(required_pieces, prime),
        prime,
    );
    for point in &points {
        assert!(point.1 < prime);
    }

    assert_eq!(
        interpolate_secret(&choose_n_from(&points, required_pieces as usize), prime)?,
        secret
    );
    Ok(())
}

#[test]
fn test_interpolate_known_points() {
    // Three points of the degree-2 polynomial 1234 + 166 x + 94 x^2 over
    // GF(1613) recover its constant term.
    let prime: i32 = 1613;
    let points = vec![(1, 1494), (3, 965), (6, 775)];
    assert_eq!(interpolate_secret(&points, prime), Ok(1234));
}

#[test]
fn test_interpolate_duplicate_index() {
    // A duplicated x-value makes a Lagrange denominator zero.
    let prime: i32 = 1613;
    let points = vec![(2, 329), (2, 329), (3, 965)];
    assert_eq!(interpolate_secret(&points, prime), Err(Error::ArithmeticError));
}
