//! Field arithmetic for the secret-sharing scheme: mathematical modulus,
//! arbitrary-precision products, and the extended Euclidean algorithm that
//! yields modular multiplicative inverses.

use vstd::prelude::*;

use num_bigint::BigInt;

use vstd::arithmetic::div_mod::{
    lemma_fundamental_div_mod, lemma_fundamental_div_mod_converse_mod, lemma_mod_bound,
    lemma_mod_multiples_basic, lemma_mod_self_0, lemma_small_mod,
};

use crate::bigint::{
    big_clone, big_div_trunc, big_from_i64, big_is_zero, big_mod_floor, big_mul, big_sub,
    big_to_i64, big_value, div_trunc,
};
use crate::error::Error;

verus! {

/// Product of a sequence of integers; the empty product is 1.
pub open spec fn product_of(s: Seq<int>) -> int
    decreases s.len(),
{
    if s.len() == 0 {
        1
    } else {
        product_of(s.drop_last()) * s.last()
    }
}

pub open spec fn as_ints(s: Seq<i64>) -> Seq<int> {
    s.map_values(|v: i64| v as int)
}

pub open spec fn big_values(s: Seq<BigInt>) -> Seq<int> {
    s.map_values(|b: BigInt| big_value(b))
}

pub proof fn lemma_product_push(s: Seq<int>, x: int)
    ensures
        product_of(s.push(x)) == product_of(s) * x,
{
    assert(s.push(x).drop_last() =~= s);
}

/// Arbitrary-precision product of a sequence of machine integers; the empty
/// product is 1.
pub fn multiply_all(values: &Vec<i64>) -> (r: BigInt)
    ensures
        big_value(r) == product_of(as_ints(values@)),
{
    let mut total = big_from_i64(1);
    let mut i: usize = 0;
    assert(as_ints(values@.take(0)) =~= Seq::<int>::empty());
    while i < values.len()
        invariant
            i <= values.len(),
            big_value(total) == product_of(as_ints(values@.take(i as int))),
        decreases values.len() - i,
    {
        proof {
            assert(as_ints(values@.take(i + 1)) =~= as_ints(values@.take(i as int)).push(
                values@[i as int] as int,
            ));
            lemma_product_push(as_ints(values@.take(i as int)), values@[i as int] as int);
        }
        let factor = big_from_i64(values[i]);
        total = big_mul(&total, &factor);
        i = i + 1;
    }
    proof {
        assert(values@.take(values@.len() as int) =~= values@);
    }
    total
}

/// Arbitrary-precision product of already-widened factors.
pub fn product_bigints(values: &Vec<BigInt>) -> (r: BigInt)
    ensures
        big_value(r) == product_of(big_values(values@)),
{
    let mut total = big_from_i64(1);
    let mut i: usize = 0;
    assert(big_values(values@.take(0)) =~= Seq::<int>::empty());
    while i < values.len()
        invariant
            i <= values.len(),
            big_value(total) == product_of(big_values(values@.take(i as int))),
        decreases values.len() - i,
    {
        proof {
            assert(big_values(values@.take(i + 1)) =~= big_values(values@.take(i as int)).push(
                big_value(values@[i as int]),
            ));
            lemma_product_push(big_values(values@.take(i as int)), big_value(values@[i as int]));
        }
        total = big_mul(&total, &values[i]);
        i = i + 1;
    }
    proof {
        assert(values@.take(values@.len() as int) =~= values@);
    }
    total
}

/// Mathematical modulus on `i64`: the unique residue of `a` in `[0, m)`.
pub fn mod_floor_i64(a: i64, m: i64) -> (r: i64)
    requires
        m >= 1,
        a > i64::MIN,
    ensures
        r == (a as int) % (m as int),
        0 <= r < m,
{
    proof {
        lemma_mod_bound(a as int, m as int);
    }
    if a >= 0 {
        ((a as u64) % (m as u64)) as i64
    } else {
        let rem = ((-a) as u64) % (m as u64);
        if rem == 0 {
            proof {
                lemma_fundamental_div_mod((-a) as int, m as int);
                let q = (-a) as int / m as int;
                assert(a as int == (m as int) * (-q) + 0) by (nonlinear_arith)
                    requires
                        (-a) as int == (m as int) * q,
                ;
                lemma_fundamental_div_mod_converse_mod(a as int, m as int, -q, 0);
            }
            0
        } else {
            proof {
                lemma_fundamental_div_mod((-a) as int, m as int);
                let q = (-a) as int / m as int;
                assert(a as int == (m as int) * (-q - 1) + (m as int - rem as int))
                    by (nonlinear_arith)
                    requires
                        (-a) as int == (m as int) * q + rem as int,
                ;
                lemma_fundamental_div_mod_converse_mod(
                    a as int,
                    m as int,
                    -q - 1,
                    m as int - rem as int,
                );
            }
            m - (rem as i64)
        }
    }
}

/// Greatest common divisor by the Euclidean recursion.
pub open spec fn gcd_nat(a: nat, b: nat) -> nat
    decreases b,
{
    if b == 0 {
        a
    } else {
        gcd_nat(b, a % b)
    }
}

/// Primality of an integer, stated over trial division.
pub open spec fn is_prime(p: int) -> bool {
    p >= 2 && forall|d: int| 2 <= d < p ==> #[trigger] (p % d) != 0
}

/// The full state of the extended Euclidean algorithm, with its two
/// Bezout-style coefficient trackers: returns the final
/// `(last_x, last_y, a)` once the remainder reaches zero.
pub open spec fn euclid_state(a: int, z: int, lx: int, x: int, ly: int, y: int) -> (int, int, int)
    decreases z,
    when z >= 0
{
    if z <= 0 {
        (lx, ly, a)
    } else {
        euclid_state(z, a % z, x, lx - div_trunc(a, z) * x, y, ly - div_trunc(a, z) * y)
    }
}

/// The coefficient pair that the extended Euclidean algorithm returns for
/// inputs `(a, m)`.
pub open spec fn euclid_pair(a: int, m: int) -> (int, int) {
    let s = euclid_state(a, m, 1, 0, 0, 1);
    (s.0, s.1)
}

/// The final non-zero remainder of the algorithm on inputs `(a, m)`.
pub open spec fn euclid_gcd(a: int, m: int) -> int {
    euclid_state(a, m, 1, 0, 0, 1).2
}

proof fn lemma_mod_zero_linear(u: int, v: int, q: int, m: int)
    requires
        m > 0,
        u % m == 0,
        v % m == 0,
    ensures
        (u - q * v) % m == 0,
{
    lemma_fundamental_div_mod(u, m);
    lemma_fundamental_div_mod(v, m);
    let a = u / m;
    let b = v / m;
    assert(u - q * v == (a - q * b) * m) by (nonlinear_arith)
        requires
            u == m * a + 0,
            v == m * b + 0,
    ;
    lemma_mod_multiples_basic(a - q * b, m);
}

proof fn lemma_euclid_congruence(a: int, z: int, lx: int, x: int, ly: int, y: int, v: int, m: int)
    requires
        m > 0,
        z >= 0,
        (lx * v - a) % m == 0,
        (x * v - z) % m == 0,
        a < 0 ==> z == m,
    ensures
        (euclid_state(a, z, lx, x, ly, y).0 * v - euclid_state(a, z, lx, x, ly, y).2) % m == 0,
    decreases z,
{
    if z <= 0 {
    } else {
        let q = div_trunc(a, z);
        let z2 = a % z;
        let x2 = lx - q * x;
        if a >= 0 {
            lemma_fundamental_div_mod(a, z);
            assert(z2 == a - q * z);
            assert(x2 * v - z2 == (lx * v - a) - q * (x * v - z)) by (nonlinear_arith)
                requires
                    x2 == lx - q * x,
                    z2 == a - q * z,
            ;
            lemma_mod_zero_linear(lx * v - a, x * v - z, q, m);
        } else {
            lemma_fundamental_div_mod(a, m);
            let k = a / m;
            assert(x2 * v - z2 == ((lx * v - a) - q * (x * v - m)) - (q - k) * m)
                by (nonlinear_arith)
                requires
                    x2 == lx - q * x,
                    z == m,
                    a == m * k + z2,
            ;
            lemma_mod_zero_linear(lx * v - a, x * v - m, q, m);
            lemma_mod_self_0(m);
            lemma_mod_zero_linear((lx * v - a) - q * (x * v - m), m, q - k, m);
        }
        lemma_euclid_congruence(z, z2, x, x2, y, ly - q * y, v, m);
    }
}

proof fn lemma_euclid_gcd_nonneg(a: int, z: int, lx: int, x: int, ly: int, y: int)
    requires
        a >= 0,
        z >= 0,
    ensures
        euclid_state(a, z, lx, x, ly, y).2 == gcd_nat(a as nat, z as nat),
    decreases z,
{
    if z <= 0 {
    } else {
        let q = div_trunc(a, z);
        lemma_euclid_gcd_nonneg(z, a % z, x, lx - q * x, y, ly - q * y);
    }
}

/// For a positive modulus the final remainder of the algorithm is the
/// greatest common divisor of the modulus and the reduced first argument.
pub proof fn lemma_euclid_gcd_form(a: int, m: int)
    requires
        m > 0,
    ensures
        euclid_gcd(a, m) == gcd_nat(m as nat, (a % m) as nat),
{
    lemma_mod_bound(a, m);
    let q = div_trunc(a, m);
    lemma_euclid_gcd_nonneg(m, a % m, 0, 1 - q * 0, 1, 0 - q * 1);
}

proof fn lemma_gcd_pos(a: nat, b: nat)
    requires
        a > 0 || b > 0,
    ensures
        gcd_nat(a, b) > 0,
    decreases b,
{
    if b == 0 {
    } else {
        lemma_gcd_pos(b, a % b);
    }
}

proof fn lemma_gcd_divides(a: nat, b: nat)
    requires
        gcd_nat(a, b) > 0,
    ensures
        a % gcd_nat(a, b) == 0,
        b % gcd_nat(a, b) == 0,
    decreases b,
{
    let g = gcd_nat(a, b);
    if b == 0 {
        lemma_mod_self_0(a as int);
        lemma_small_mod(0, a);
    } else {
        lemma_gcd_divides(b, a % b);
        lemma_fundamental_div_mod(a as int, b as int);
        lemma_fundamental_div_mod(b as int, g as int);
        lemma_fundamental_div_mod((a % b) as int, g as int);
        let qb = a as int / b as int;
        assert(a as int == ((b as int / g as int) * qb + (a % b) as int / g as int) * (g as int))
            by (nonlinear_arith)
            requires
                a as int == (b as int) * qb + (a % b) as int,
                b as int == (g as int) * (b as int / g as int) + 0,
                (a % b) as int == (g as int) * ((a % b) as int / g as int) + 0,
        ;
        lemma_mod_multiples_basic((b as int / g as int) * qb + (a % b) as int / g as int, g as int);
    }
}

/// A prime has no common divisor above 1 with any smaller positive integer.
pub proof fn lemma_gcd_prime_coprime(p: int, r: int)
    requires
        is_prime(p),
        0 < r < p,
    ensures
        gcd_nat(p as nat, r as nat) == 1,
{
    let g = gcd_nat(p as nat, r as nat);
    lemma_gcd_pos(p as nat, r as nat);
    lemma_gcd_divides(p as nat, r as nat);
    if g as int > r {
        lemma_small_mod(r as nat, g);
    }
    assert(g as int <= r);
    if g >= 2 {
        assert(2 <= (g as int) && (g as int) < p);
        assert(p % (g as int) != 0);
        assert(false);
    }
}

/// The inverse law: for a prime modulus `m` and any `a` not divisible by it,
/// the first coefficient that the extended Euclidean algorithm returns is a
/// modular multiplicative inverse of `a`.
pub proof fn lemma_inverse_law(a: int, m: int)
    requires
        is_prime(m),
        a % m != 0,
    ensures
        (a * euclid_pair(a, m).0) % m == 1,
{
    lemma_mod_self_0(m);
    assert(0int % m == 0) by {
        lemma_small_mod(0, m as nat);
    }
    assert((1 * a - a) % m == 0);
    lemma_mod_zero_linear(0, m, 1, m);
    assert((0 * a - m) % m == 0);
    lemma_euclid_congruence(a, m, 1, 0, 0, 1, a, m);
    lemma_euclid_gcd_form(a, m);
    lemma_mod_bound(a, m);
    lemma_gcd_prime_coprime(m, a % m);
    let xc = euclid_pair(a, m).0;
    assert((xc * a - 1) % m == 0);
    lemma_fundamental_div_mod(xc * a - 1, m);
    let q = (xc * a - 1) / m;
    assert(a * xc == q * m + 1) by (nonlinear_arith)
        requires
            xc * a - 1 == m * q + 0,
    ;
    lemma_fundamental_div_mod_converse_mod(a * xc, m, q, 1);
}

pub proof fn lemma_product_singleton(v: int)
    ensures
        product_of(seq![v]) == v,
{
    assert(seq![v].drop_last() =~= Seq::<int>::empty());
    assert(product_of(Seq::<int>::empty()) == 1);
    assert(seq![v].last() == v);
}

/// Congruence modulo `m`.
pub open spec fn cong(a: int, b: int, m: int) -> bool {
    (a - b) % m == 0
}

pub proof fn lemma_cong_sym(a: int, b: int, m: int)
    requires
        m > 0,
        cong(a, b, m),
    ensures
        cong(b, a, m),
{
    lemma_mod_zero_linear(0, a - b, 1, m);
    assert(0int % m == 0) by {
        lemma_small_mod(0, m as nat);
    }
}

pub proof fn lemma_cong_trans(a: int, b: int, c: int, m: int)
    requires
        m > 0,
        cong(a, b, m),
        cong(b, c, m),
    ensures
        cong(a, c, m),
{
    lemma_mod_zero_linear(a - b, b - c, -1, m);
}

pub proof fn lemma_cong_mul(a: int, b: int, c: int, m: int)
    requires
        m > 0,
        cong(a, b, m),
    ensures
        cong(a * c, b * c, m),
{
    assert(0int % m == 0) by {
        lemma_small_mod(0, m as nat);
    }
    lemma_mod_zero_linear(0, a - b, -c, m);
    assert(0 - (-c) * (a - b) == a * c - b * c) by (nonlinear_arith);
}

pub proof fn lemma_cong_add(a: int, b: int, c: int, d: int, m: int)
    requires
        m > 0,
        cong(a, b, m),
        cong(c, d, m),
    ensures
        cong(a + c, b + d, m),
{
    lemma_mod_zero_linear(a - b, c - d, -1, m);
}

/// Reduction modulo `m` is a congruence.
pub proof fn lemma_cong_mod(x: int, m: int)
    requires
        m > 0,
    ensures
        cong(x % m, x, m),
{
    lemma_fundamental_div_mod(x, m);
    lemma_mod_multiples_basic(-(x / m), m);
    assert(x % m - x == (-(x / m)) * m) by (nonlinear_arith)
        requires
            x == m * (x / m) + x % m,
    ;
}

/// For a prime modulus, a product of two values outside the zero class is
/// outside the zero class.
pub proof fn lemma_nonzero_product(a: int, b: int, m: int)
    requires
        is_prime(m),
        a % m != 0,
        b % m != 0,
    ensures
        (a * b) % m != 0,
{
    lemma_inverse_law(a, m);
    lemma_inverse_law(b, m);
    let ua = euclid_pair(a, m).0;
    let ub = euclid_pair(b, m).0;
    if (a * b) % m == 0 {
        // (a b)(ua ub) is congruent to 0 modulo m.
        assert(cong(a * b, 0, m));
        lemma_cong_mul(a * b, 0, ua * ub, m);
        assert(cong((a * b) * (ua * ub), 0, m));
        // ... and, as (a ua)(b ub), congruent to 1 modulo m.
        lemma_cong_mod(a * ua, m);
        lemma_cong_sym((a * ua) % m, a * ua, m);
        lemma_cong_mul(a * ua, 1, b * ub, m);
        lemma_cong_mod(b * ub, m);
        lemma_cong_sym((b * ub) % m, b * ub, m);
        lemma_cong_trans((a * ua) * (b * ub), 1 * (b * ub), 1, m);
        assert((a * ua) * (b * ub) == (a * b) * (ua * ub)) by (nonlinear_arith);
        lemma_cong_sym((a * b) * (ua * ub), 0, m);
        lemma_cong_trans(0, (a * b) * (ua * ub), 1, m);
        // 0 congruent to 1 modulo m is absurd for m >= 2.
        assert((-1) % m == m - 1) by {
            lemma_fundamental_div_mod_converse_mod(-1, m, -1, m - 1);
        }
        assert(false);
    }
}

/// For a prime modulus, a common factor outside the zero class cancels from
/// a congruence.
pub proof fn lemma_cong_cancel(a: int, x: int, y: int, m: int)
    requires
        is_prime(m),
        a % m != 0,
        cong(a * x, a * y, m),
    ensures
        cong(x, y, m),
{
    lemma_inverse_law(a, m);
    let u = euclid_pair(a, m).0;
    lemma_cong_mod(a * u, m);
    // x == 1 x ~ (a u) x == (a x) u ~ (a y) u == (a u) y ~ 1 y == y.
    lemma_cong_mul(1, a * u, x, m);
    assert((a * u) * x == (a * x) * u) by (nonlinear_arith);
    lemma_cong_mul(a * x, a * y, u, m);
    lemma_cong_trans(1 * x, (a * x) * u, (a * y) * u, m);
    assert((a * y) * u == (a * u) * y) by (nonlinear_arith);
    lemma_cong_sym(1, a * u, m);
    lemma_cong_mul(a * u, 1, y, m);
    lemma_cong_trans(1 * x, (a * u) * y, 1 * y, m);
}

fn euclid_coefficients(a0: &BigInt, m0: &BigInt) -> (r: (BigInt, BigInt))
    requires
        big_value(*m0) > 0,
    ensures
        big_value(r.0) == euclid_pair(big_value(*a0), big_value(*m0)).0,
        big_value(r.1) == euclid_pair(big_value(*a0), big_value(*m0)).1,
{
    let ghost va0 = big_value(*a0);
    let ghost vm0 = big_value(*m0);
    let mut a = big_clone(a0);
    let mut z = big_clone(m0);
    let mut last_x = big_from_i64(1);
    let mut x = big_from_i64(0);
    let mut last_y = big_from_i64(0);
    let mut y = big_from_i64(1);
    loop
        invariant
            big_value(z) >= 0,
            euclid_state(
                big_value(a),
                big_value(z),
                big_value(last_x),
                big_value(x),
                big_value(last_y),
                big_value(y),
            ) == euclid_state(va0, vm0, 1, 0, 0, 1),
        ensures
            big_value(z) == 0,
            euclid_state(
                big_value(a),
                big_value(z),
                big_value(last_x),
                big_value(x),
                big_value(last_y),
                big_value(y),
            ) == euclid_state(va0, vm0, 1, 0, 0, 1),
        decreases big_value(z),
    {
        let done = big_is_zero(&z);
        if done {
            break;
        }
        let ghost av = big_value(a);
        let ghost zv = big_value(z);
        let q = big_div_trunc(&a, &z);
        let z_next = big_mod_floor(&a, &z);
        a = z;
        z = z_next;
        let qx = big_mul(&q, &x);
        let x_next = big_sub(&last_x, &qx);
        last_x = x;
        x = x_next;
        let qy = big_mul(&q, &y);
        let y_next = big_sub(&last_y, &qy);
        last_y = y;
        y = y_next;
        proof {
            lemma_mod_bound(av, zv);
        }
    }
    (last_x, last_y)
}

/// Computes the coefficient pair `(x, y)` of the extended Euclidean
/// algorithm on `(a, m)`, `x` being a modular inverse of `a` whenever
/// `gcd(a, m) == 1` (see `lemma_inverse_law`). Rejects `a` divisible by `m`
/// (a zero divisor in the field), and coefficients too large for `i64`.
pub fn modular_multiplicative_inverse(a: &BigInt, m: &BigInt) -> (r: Result<(i64, i64), Error>)
    requires
        big_value(*m) > 0,
    ensures
        r == ({
            let pair = euclid_pair(big_value(*a), big_value(*m));
            if big_value(*a) % big_value(*m) == 0 {
                Err::<(i64, i64), Error>(Error::ArithmeticError)
            } else if i64::MIN <= pair.0 <= i64::MAX && i64::MIN <= pair.1 <= i64::MAX {
                Ok::<(i64, i64), Error>((pair.0 as i64, pair.1 as i64))
            } else {
                Err::<(i64, i64), Error>(Error::OverflowError)
            }
        }),
{
    let reduced = big_mod_floor(a, m);
    if big_is_zero(&reduced) {
        return Err(Error::ArithmeticError);
    }
    let (lx, ly) = euclid_coefficients(a, m);
    let lx64 = big_to_i64(&lx);
    let ly64 = big_to_i64(&ly);
    match (lx64, ly64) {
        (Some(xv), Some(yv)) => Ok((xv, yv)),
        _ => Err(Error::OverflowError),
    }
}

/// As `modular_multiplicative_inverse`, but keeps the inverse coefficient as
/// a `BigInt`, for use inside the interpolator where the coefficients can
/// exceed any fixed width.
pub fn inverse_coefficient(a: &BigInt, m: &BigInt) -> (r: Result<BigInt, Error>)
    requires
        big_value(*m) > 0,
    ensures
        r is Err <==> big_value(*a) % big_value(*m) == 0,
        r is Err ==> r == Err::<BigInt, Error>(Error::ArithmeticError),
        r is Ok ==> big_value(r->Ok_0) == euclid_pair(big_value(*a), big_value(*m)).0,
{
    let reduced = big_mod_floor(a, m);
    if big_is_zero(&reduced) {
        return Err(Error::ArithmeticError);
    }
    let (lx, _ly) = euclid_coefficients(a, m);
    Ok(lx)
}

} // verus!
