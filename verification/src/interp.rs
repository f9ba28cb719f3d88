//! Lagrange interpolation at x = 0 over the prime field: recovers the
//! constant term of the unique polynomial through the supplied points.

use vstd::prelude::*;

use num_bigint::BigInt;

use vstd::arithmetic::div_mod::{
    lemma_mod_bound, lemma_mod_equivalence, lemma_mod_multiples_vanish, lemma_small_mod,
};
use vstd::arithmetic::power::lemma_pow1;

use crate::bigint::{
    big_add, big_from_i64, big_mod_floor, big_mul, big_to_i32, big_value,
};
use crate::error::Error;
use crate::field::{
    as_ints, big_values, cong, euclid_pair, inverse_coefficient, is_prime, lemma_cong_add,
    lemma_cong_cancel, lemma_cong_mod, lemma_cong_mul, lemma_cong_sym, lemma_cong_trans,
    lemma_inverse_law, lemma_nonzero_product, lemma_product_singleton, multiply_all,
    product_bigints, product_of,
};
use crate::poly::poly_eval;

verus! {

/// The x-coordinates of a point sequence, widened to integers.
pub open spec fn xs_of(points: Seq<(i32, i32)>) -> Seq<int> {
    points.map_values(|pt: (i32, i32)| pt.0 as int)
}

/// Every element negated.
pub open spec fn negated(s: Seq<int>) -> Seq<int> {
    s.map_values(|v: int| -v)
}

/// Every element subtracted from `x0`.
pub open spec fn diffs_from(s: Seq<int>, x0: int) -> Seq<int> {
    s.map_values(|v: int| x0 - v)
}

/// Numerator of the i-th Lagrange basis factor at x = 0: the product of
/// `-x_j` over all other points.
pub open spec fn lagrange_num(xs: Seq<int>, i: int) -> int {
    product_of(negated(xs.remove(i)))
}

/// Denominator of the i-th Lagrange basis factor: the product of
/// `x_i - x_j` over all other points.
pub open spec fn lagrange_den(xs: Seq<int>, i: int) -> int {
    product_of(diffs_from(xs.remove(i), xs[i]))
}

/// The sequence of all Lagrange denominators.
pub open spec fn dens_seq(xs: Seq<int>) -> Seq<int> {
    Seq::new(xs.len(), |i: int| lagrange_den(xs, i))
}

/// Product of all Lagrange denominators.
pub open spec fn dens_product(xs: Seq<int>) -> int {
    product_of(dens_seq(xs))
}

/// One summand of the interpolation: `mod(num_i * D * y_i, p)` scaled by the
/// extended-Euclid inverse coefficient of `den_i`.
pub open spec fn interp_term(points: Seq<(i32, i32)>, p: int, i: int) -> int {
    let xs = xs_of(points);
    ((lagrange_num(xs, i) * dens_product(xs) * (points[i].1 as int)) % p) * euclid_pair(
        lagrange_den(xs, i),
        p,
    ).0
}

/// Sum of the first `k` summands.
pub open spec fn interp_sum(points: Seq<(i32, i32)>, p: int, k: int) -> int
    decreases k,
{
    if k <= 0 {
        0
    } else {
        interp_sum(points, p, k - 1) + interp_term(points, p, k - 1)
    }
}

/// The residue the interpolation produces when no error occurs.
pub open spec fn interp_value(points: Seq<(i32, i32)>, p: int) -> int {
    let xs = xs_of(points);
    let n = interp_sum(points, p, points.len() as int);
    (((n * euclid_pair(dens_product(xs), p).0) % p) + p) % p
}

/// Outcome of the pre-validation: at least two points, and every y-value
/// below the prime.
pub open spec fn validate_points_spec(points: Seq<(i32, i32)>, p: int) -> Result<(), Error> {
    if points.len() < 2 {
        Err(Error::InsufficientInputs)
    } else if exists|i: int| 0 <= i < points.len() && (#[trigger] points[i]).1 as int >= p {
        Err(Error::PrimeTooSmall)
    } else {
        Ok(())
    }
}

/// The full outcome of `interpolate_secret` on the given points: validation
/// errors first, then a zero divisor in the field (a denominator divisible
/// by the prime), else the interpolated residue.
pub open spec fn interpolate_spec(points: Seq<(i32, i32)>, p: int) -> Result<i32, Error> {
    let xs = xs_of(points);
    match validate_points_spec(points, p) {
        Err(e) => Err(e),
        Ok(_u) => if exists|i: int|
            0 <= i < points.len() && #[trigger] lagrange_den(xs, i) % p == 0 {
            Err(Error::ArithmeticError)
        } else if dens_product(xs) % p == 0 {
            Err(Error::ArithmeticError)
        } else {
            Ok(interp_value(points, p) as i32)
        },
    }
}

proof fn lemma_pair_algebra(
    s: int,
    c: int,
    x1: int,
    x2: int,
    y1: int,
    y2: int,
    t0: int,
    t1: int,
    nn: int,
    u: int,
    v: int,
    w: int,
    p: int,
)
    requires
        is_prime(p),
        0 <= s < p,
        (x1 - x2) % p != 0,
        (x2 - x1) % p != 0,
        ((x1 - x2) * (x2 - x1)) % p != 0,
        u == euclid_pair(x1 - x2, p).0,
        v == euclid_pair(x2 - x1, p).0,
        w == euclid_pair((x1 - x2) * (x2 - x1), p).0,
        y1 == (s + c * x1) % p,
        y2 == (s + c * x2) % p,
        t0 == (((-x2) * ((x1 - x2) * (x2 - x1)) * y1) % p) * u,
        t1 == (((-x1) * ((x1 - x2) * (x2 - x1)) * y2) % p) * v,
        nn == t0 + t1,
    ensures
        ((nn * w) % p + p) % p == s,
{
    let num0 = -x2;
    let num1 = -x1;
    let den0 = x1 - x2;
    let den1 = x2 - x1;
    let dd = den0 * den1;
    lemma_inverse_law(den0, p);
    lemma_inverse_law(den1, p);
    lemma_inverse_law(dd, p);
    lemma_cong_mod(den0 * u, p);
    lemma_cong_mod(den1 * v, p);
    lemma_cong_mod(dd * w, p);
    lemma_cong_sym(1, den0 * u, p);
    lemma_cong_sym(1, den1 * v, p);
    lemma_cong_sym(1, dd * w, p);

    // den0 t0 is congruent to (s + c x1) (num0 dd).
    lemma_cong_mod(num0 * dd * y1, p);
    lemma_cong_mul((num0 * dd * y1) % p, num0 * dd * y1, den0 * u, p);
    assert(den0 * t0 == ((num0 * dd * y1) % p) * (den0 * u)) by (nonlinear_arith)
        requires
            t0 == ((num0 * dd * y1) % p) * u,
    ;
    lemma_cong_mul(den0 * u, 1, num0 * dd * y1, p);
    assert((num0 * dd * y1) * (den0 * u) == (den0 * u) * (num0 * dd * y1)) by (nonlinear_arith);
    lemma_cong_trans(den0 * t0, (num0 * dd * y1) * (den0 * u), 1 * (num0 * dd * y1), p);
    lemma_cong_mod(s + c * x1, p);
    lemma_cong_mul(y1, s + c * x1, num0 * dd, p);
    assert(1 * (num0 * dd * y1) == y1 * (num0 * dd)) by (nonlinear_arith);
    lemma_cong_trans(den0 * t0, y1 * (num0 * dd), (s + c * x1) * (num0 * dd), p);

    // den0 t1 is congruent to the negation of (s + c x2) (num1 dd).
    lemma_cong_mod(num1 * dd * y2, p);
    lemma_cong_mul((num1 * dd * y2) % p, num1 * dd * y2, den0 * v, p);
    assert(den0 * t1 == ((num1 * dd * y2) % p) * (den0 * v)) by (nonlinear_arith)
        requires
            t1 == ((num1 * dd * y2) % p) * v,
    ;
    lemma_cong_mul(den1 * v, 1, -1, p);
    assert((den1 * v) * -1 == den0 * v) by (nonlinear_arith)
        requires
            den0 == -den1,
    ;
    assert(cong(den0 * v, 1 * -1, p));
    lemma_cong_mul(den0 * v, 1 * -1, num1 * dd * y2, p);
    assert((num1 * dd * y2) * (den0 * v) == (den0 * v) * (num1 * dd * y2)) by (nonlinear_arith);
    lemma_cong_trans(den0 * t1, (num1 * dd * y2) * (den0 * v), (1 * -1) * (num1 * dd * y2), p);
    lemma_cong_mod(s + c * x2, p);
    lemma_cong_mul(y2, s + c * x2, -(num1 * dd), p);
    assert((1 * -1) * (num1 * dd * y2) == y2 * (-(num1 * dd))) by (nonlinear_arith);
    lemma_cong_trans(den0 * t1, y2 * (-(num1 * dd)), (s + c * x2) * (-(num1 * dd)), p);

    // Summing: den0 nn is congruent to den0 (s dd).
    lemma_cong_add(
        den0 * t0,
        (s + c * x1) * (num0 * dd),
        den0 * t1,
        (s + c * x2) * (-(num1 * dd)),
        p,
    );
    assert(den0 * t0 + den0 * t1 == den0 * nn) by (nonlinear_arith)
        requires
            nn == t0 + t1,
    ;
    let e1 = num0 * dd;
    let e2 = x1 * dd;
    assert(-(num1 * dd) == e2) by (nonlinear_arith)
        requires
            num1 == -x1,
            e2 == x1 * dd,
    ;
    assert((s + c * x1) * e1 == s * e1 + (c * x1) * e1) by (nonlinear_arith);
    assert((s + c * x2) * e2 == s * e2 + (c * x2) * e2) by (nonlinear_arith);
    assert(s * e1 + s * e2 == s * (e1 + e2)) by (nonlinear_arith);
    assert(e1 + e2 == den0 * dd) by (nonlinear_arith)
        requires
            num0 == -x2,
            den0 == x1 - x2,
            e1 == num0 * dd,
            e2 == x1 * dd,
    ;
    assert((c * x1) * e1 + (c * x2) * e2 == 0) by (nonlinear_arith)
        requires
            num0 == -x2,
            e1 == num0 * dd,
            e2 == x1 * dd,
    ;
    assert(s * (den0 * dd) == den0 * (s * dd)) by (nonlinear_arith);
    assert((s + c * x1) * (num0 * dd) + (s + c * x2) * (-(num1 * dd)) == den0 * (s * dd));
    assert(cong(den0 * nn, den0 * (s * dd), p));

    // Cancel den0, then the denominator product against its inverse.
    lemma_cong_cancel(den0, nn, s * dd, p);
    lemma_cong_mul(nn, s * dd, w, p);
    lemma_cong_mul(dd * w, 1, s, p);
    assert((s * dd) * w == (dd * w) * s) by (nonlinear_arith);
    lemma_cong_trans(nn * w, (dd * w) * s, 1 * s, p);
    assert(cong(nn * w, s, p));

    // The canonical residue is the secret itself.
    lemma_mod_equivalence(nn * w, s, p);
    lemma_small_mod(s as nat, p as nat);
    assert((nn * w) % p == s);
    lemma_mod_multiples_vanish(1, s, p);
    assert(p * 1 + s == s + p);
}

/// The round-trip law on a threshold-two sharing: over a prime field, the
/// two points of a degree-one sharing polynomial, evaluated at indices that
/// differ modulo the prime, interpolate back to exactly the secret.
pub proof fn lemma_roundtrip_two_points(
    secret: i32,
    coeffs: Seq<i32>,
    points: Seq<(i32, i32)>,
    p: int,
)
    requires
        is_prime(p),
        p <= 0x7FFF_FFFF,
        0 <= secret < p,
        coeffs.len() == 1,
        points.len() == 2,
        ((points[0].0 as int) - (points[1].0 as int)) % p != 0,
        points[0].1 as int == poly_eval(secret as int, coeffs, points[0].0 as int) % p,
        points[1].1 as int == poly_eval(secret as int, coeffs, points[1].0 as int) % p,
    ensures
        interpolate_spec(points, p) == Ok::<i32, Error>(secret),
{
    let xs = xs_of(points);
    let x1 = points[0].0 as int;
    let x2 = points[1].0 as int;
    let c = coeffs[0] as int;
    let s = secret as int;
    let y1 = points[0].1 as int;
    let y2 = points[1].1 as int;

    // The sharing polynomial is s + c x.
    assert(coeffs.drop_last() =~= Seq::<i32>::empty());
    assert(coeffs.last() == coeffs[0]);
    lemma_pow1(x1);
    lemma_pow1(x2);
    assert(poly_eval(s, Seq::<i32>::empty(), x1) == s);
    assert(poly_eval(s, Seq::<i32>::empty(), x2) == s);
    assert(poly_eval(s, coeffs, x1) == s + c * x1);
    assert(poly_eval(s, coeffs, x2) == s + c * x2);

    // Validation passes: both y-values are residues.
    lemma_mod_bound(s + c * x1, p);
    lemma_mod_bound(s + c * x2, p);
    assert forall|i: int| 0 <= i < points.len() implies ((#[trigger] points[i]).1 as int) < p by {
        if i == 0 {
        } else {
            assert(points[i] == points[1]);
        }
    }
    assert(validate_points_spec(points, p) is Ok);

    // The Lagrange pieces on two points.
    assert(xs.len() == 2);
    assert(xs[0] == x1 && xs[1] == x2);
    assert(xs.remove(0) =~= seq![x2]);
    assert(xs.remove(1) =~= seq![x1]);
    assert(negated(xs.remove(0)) =~= seq![-x2]);
    assert(negated(xs.remove(1)) =~= seq![-x1]);
    assert(diffs_from(xs.remove(0), xs[0]) =~= seq![x1 - x2]);
    assert(diffs_from(xs.remove(1), xs[1]) =~= seq![x2 - x1]);
    lemma_product_singleton(-x2);
    lemma_product_singleton(-x1);
    lemma_product_singleton(x1 - x2);
    lemma_product_singleton(x2 - x1);
    let num0 = lagrange_num(xs, 0);
    let num1 = lagrange_num(xs, 1);
    let den0 = lagrange_den(xs, 0);
    let den1 = lagrange_den(xs, 1);
    assert(num0 == -x2 && num1 == -x1);
    assert(den0 == x1 - x2 && den1 == x2 - x1);
    assert(dens_seq(xs) =~= seq![den0, den1]);
    assert(seq![den0, den1].drop_last() =~= seq![den0]);
    lemma_product_singleton(den0);
    let dd = dens_product(xs);
    assert(dd == den0 * den1);

    // Neither denominator, nor their product, is a zero divisor.
    assert(den0 % p != 0);
    if den1 % p == 0 {
        lemma_cong_mul(den1, 0, -1, p);
        assert(den1 * -1 == den0);
        assert(0 * -1 == 0);
        assert(den0 % p == 0);
    }
    assert(den1 % p != 0);
    lemma_nonzero_product(den0, den1, p);
    assert(dd % p != 0);
    assert forall|i: int| 0 <= i < points.len() implies #[trigger] lagrange_den(xs, i) % p
        != 0 by {
        if i == 0 {
        } else {
        }
    }

    // The inverse coefficients of the denominators.
    let u = euclid_pair(den0, p).0;
    let v = euclid_pair(den1, p).0;
    let w = euclid_pair(dd, p).0;

    // The sum of the two scaled summands.
    let t0 = interp_term(points, p, 0);
    let t1 = interp_term(points, p, 1);
    let nn = interp_sum(points, p, 2);
    assert(interp_sum(points, p, 0) == 0);
    assert(interp_sum(points, p, 1) == t0);
    assert(nn == t0 + t1);
    assert(t0 == ((num0 * dd * y1) % p) * u);
    assert(t1 == ((num1 * dd * y2) % p) * v);

    lemma_pair_algebra(s, c, x1, x2, y1, y2, t0, t1, nn, u, v, w, p);
    assert(interp_value(points, p) == s);
    assert(interp_value(points, p) as i32 == secret);
}

/// Checks that at least two points were supplied and that every y-value is
/// below the prime.
pub fn validate_points(points: &Vec<(i32, i32)>, prime: i32) -> (r: Result<(), Error>)
    ensures
        r == validate_points_spec(points@, prime as int),
{
    if points.len() < 2 {
        return Err(Error::InsufficientInputs);
    }
    let mut i: usize = 0;
    while i < points.len()
        invariant
            i <= points@.len(),
            points@.len() >= 2,
            forall|j: int| 0 <= j < i ==> (#[trigger] points@[j]).1 < prime,
        decreases points@.len() - i,
    {
        if points[i].1 >= prime {
            proof {
                assert((points@[i as int]).1 as int >= prime as int);
            }
            return Err(Error::PrimeTooSmall);
        }
        i = i + 1;
    }
    Ok(())
}

/// Solves for the constant term of the Lagrange polynomial through the
/// points, in the field of the given prime.
pub fn interpolate_secret(points: &Vec<(i32, i32)>, prime: i32) -> (r: Result<i32, Error>)
    requires
        prime >= 1,
    ensures
        r == interpolate_spec(points@, prime as int),
        r is Ok ==> 0 <= r->Ok_0 < prime,
{
    let ghost xs = xs_of(points@);
    let ghost p = prime as int;
    match validate_points(points, prime) {
        Err(e) => {
            return Err(e);
        },
        Ok(_) => {},
    }
    let len = points.len();

    let mut numerators: Vec<BigInt> = Vec::new();
    let mut denominators: Vec<BigInt> = Vec::new();
    let mut i: usize = 0;
    while i < len
        invariant
            len == points@.len(),
            xs == xs_of(points@),
            i <= len,
            numerators@.len() == i,
            denominators@.len() == i,
            forall|j: int|
                0 <= j < i ==> big_value(#[trigger] numerators@[j]) == lagrange_num(xs, j),
            forall|j: int|
                0 <= j < i ==> big_value(#[trigger] denominators@[j]) == lagrange_den(xs, j),
        decreases len - i,
    {
        let mut neg_others: Vec<i64> = Vec::new();
        let mut diff_others: Vec<i64> = Vec::new();
        let this_x = points[i].0;
        let ghost removed = xs.remove(i as int);
        let mut j: usize = 0;
        while j < len
            invariant
                len == points@.len(),
                xs == xs_of(points@),
                i < len,
                j <= len,
                this_x as int == xs[i as int],
                removed == xs.remove(i as int),
                removed.len() == len - 1,
                neg_others@.len() == (if j <= i {
                    j as int
                } else {
                    j - 1
                }),
                diff_others@.len() == neg_others@.len(),
                forall|k: int|
                    0 <= k < neg_others@.len() ==> (#[trigger] neg_others@[k]) as int == -removed[k],
                forall|k: int|
                    0 <= k < diff_others@.len() ==> (#[trigger] diff_others@[k]) as int == xs[i
                        as int] - removed[k],
            decreases len - j,
        {
            if j != i {
                let other = points[j].0;
                proof {
                    let c = neg_others@.len() as int;
                    if j < i {
                        assert(removed[c] == xs.subrange(0, i as int)[c]);
                    } else {
                        assert(removed[c] == xs.subrange(i + 1, len as int)[c - i as int]);
                    }
                    assert(removed[c] == xs[j as int]);
                }
                neg_others.push(0 - (other as i64));
                diff_others.push((this_x as i64) - (other as i64));
            }
            j = j + 1;
        }
        proof {
            assert(as_ints(neg_others@) =~= negated(removed));
            assert(as_ints(diff_others@) =~= diffs_from(removed, xs[i as int]));
        }
        let num_i = multiply_all(&neg_others);
        let den_i = multiply_all(&diff_others);
        numerators.push(num_i);
        denominators.push(den_i);
        i = i + 1;
    }

    let denominator = product_bigints(&denominators);
    proof {
        assert(big_values(denominators@) =~= dens_seq(xs));
    }

    let prime_big = big_from_i64(prime as i64);
    let mut numerator = big_from_i64(0);
    let mut i: usize = 0;
    while i < len
        invariant
            prime >= 1,
            len == points@.len(),
            xs == xs_of(points@),
            p == prime as int,
            i <= len,
            numerators@.len() == len,
            denominators@.len() == len,
            big_value(prime_big) == p,
            big_value(denominator) == dens_product(xs),
            forall|j: int|
                0 <= j < len ==> big_value(#[trigger] numerators@[j]) == lagrange_num(xs, j),
            forall|j: int|
                0 <= j < len ==> big_value(#[trigger] denominators@[j]) == lagrange_den(xs, j),
            forall|j: int| 0 <= j < i ==> #[trigger] lagrange_den(xs, j) % p != 0,
            big_value(numerator) == interp_sum(points@, p, i as int),
            validate_points_spec(points@, p) is Ok,
        decreases len - i,
    {
        let y_big = big_from_i64(points[i].1 as i64);
        let prod1 = big_mul(&numerators[i], &denominator);
        let prod2 = big_mul(&prod1, &y_big);
        let reduced = big_mod_floor(&prod2, &prime_big);
        let inv_i = match inverse_coefficient(&denominators[i], &prime_big) {
            Err(e) => {
                proof {
                    assert(lagrange_den(xs, i as int) % p == 0);
                }
                return Err(e);
            },
            Ok(v) => v,
        };
        let term = big_mul(&reduced, &inv_i);
        numerator = big_add(&numerator, &term);
        i = i + 1;
    }

    let inv_d = match inverse_coefficient(&denominator, &prime_big) {
        Err(e) => {
            return Err(e);
        },
        Ok(v) => v,
    };
    let scaled = big_mul(&numerator, &inv_d);
    let reduced = big_mod_floor(&scaled, &prime_big);
    let shifted = big_add(&reduced, &prime_big);
    let result_big = big_mod_floor(&shifted, &prime_big);
    proof {
        lemma_mod_bound(big_value(shifted), p);
        assert(big_value(result_big) == interp_value(points@, p));
    }
    match big_to_i32(&result_big) {
        Some(v) => Ok(v),
        None => Err(Error::OverflowError),
    }
}

} // verus!
