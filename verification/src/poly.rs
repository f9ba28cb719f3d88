//! Polynomial side of the scheme: random coefficient generation and
//! evaluation of the sharing polynomial at the shard indices.

use vstd::prelude::*;

use vstd::arithmetic::div_mod::{
    lemma_add_mod_noop, lemma_mod_bound, lemma_mod_twice, lemma_mul_mod_noop_general,
};
use vstd::arithmetic::power::{lemma_pow1, lemma_pow_adds, lemma_pow0, pow};

use crate::field::mod_floor_i64;

verus! {

/// Value of the polynomial whose constant term is `secret` and whose
/// coefficient of `x^(i+1)` is `coeffs[i]`.
pub open spec fn poly_eval(secret: int, coeffs: Seq<i32>, x: int) -> int
    decreases coeffs.len(),
{
    if coeffs.len() == 0 {
        secret
    } else {
        poly_eval(secret, coeffs.drop_last(), x) + coeffs.last() * pow(x, coeffs.len())
    }
}

/// Relies on `rand::random_range` over `0..bound`: a value drawn from the
/// half-open range by the thread-local generator.
#[verifier::external_body]
fn random_below(bound: i32) -> (r: i32)
    requires
        bound >= 1,
    ensures
        0 <= r < bound,
{
    rand::random_range(0..bound)
}

/// Draws the `required_pieces_count - 1` random polynomial coefficients,
/// each in `[0, prime)`.
pub fn generate_coefficients(required_pieces_count: i32, prime: i32) -> (r: Vec<i32>)
    requires
        prime >= 1,
    ensures
        r@.len() == (if required_pieces_count >= 1 {
            required_pieces_count - 1
        } else {
            0int
        }),
        forall|i: int| 0 <= i < r@.len() ==> 0 <= #[trigger] r@[i] < prime,
{
    let mut result: Vec<i32> = Vec::new();
    if required_pieces_count < 1 {
        return result;
    }
    let count: usize = (required_pieces_count - 1) as usize;
    let mut i: usize = 0;
    while i < count
        invariant
            i <= count,
            prime >= 1,
            result@.len() == i,
            forall|j: int| 0 <= j < result@.len() ==> 0 <= #[trigger] result@[j] < prime,
        decreases count - i,
    {
        let value = random_below(prime);
        result.push(value);
        i = i + 1;
    }
    result
}

fn eval_point(secret: i32, coeffs: &Vec<i32>, x: i32, prime: i32) -> (y: i32)
    requires
        prime >= 1,
        x >= 1,
    ensures
        0 <= y < prime,
        y as int == poly_eval(secret as int, coeffs@, x as int) % (prime as int),
{
    let ghost p = prime as int;
    let p64: u64 = prime as u64;
    let mut acc: u64 = mod_floor_i64(secret as i64, prime as i64) as u64;
    let xm: u64 = (x as u64) % p64;
    let mut xp: u64 = 1 % p64;
    let mut idx: usize = 0;
    proof {
        assert(coeffs@.take(0) =~= Seq::<i32>::empty());
        lemma_pow0(x as int);
    }
    while idx < coeffs.len()
        invariant
            idx <= coeffs.len(),
            p == prime as int,
            p64 == prime as u64,
            prime >= 1,
            x >= 1,
            acc < p64,
            xp < p64,
            xm < p64,
            xm as int == (x as int) % p,
            acc as int == poly_eval(secret as int, coeffs@.take(idx as int), x as int) % p,
            xp as int == pow(x as int, idx as nat) % p,
        decreases coeffs.len() - idx,
    {
        let c = coeffs[idx];
        let cm: u64 = mod_floor_i64(c as i64, prime as i64) as u64;
        proof {
            assert(xp * xm < 0x8000_0000_0000_0000) by (nonlinear_arith)
                requires
                    xp < 0x8000_0000u64,
                    xm < 0x8000_0000u64,
            ;
        }
        let xp1: u64 = (xp * xm) % p64;
        proof {
            assert(cm * xp1 < 0x8000_0000_0000_0000) by (nonlinear_arith)
                requires
                    cm < 0x8000_0000u64,
                    xp1 < 0x8000_0000u64,
            ;
        }
        let term: u64 = (cm * xp1) % p64;
        let acc1: u64 = (acc + term) % p64;
        proof {
            let xi = x as int;
            let e = (idx + 1) as nat;
            // xp1 is x^(idx+1) mod p.
            assert(pow(xi, e) == pow(xi, idx as nat) * xi) by {
                lemma_pow_adds(xi, idx as nat, 1);
                lemma_pow1(xi);
            }
            assert(xp1 as int == (xp as int * (xm as int)) % p);
            assert((xp as int * (xm as int)) % p == (pow(xi, idx as nat) * xi) % p) by {
                lemma_mul_mod_noop_general(pow(xi, idx as nat), xi, p);
            }
            assert(xp1 as int == pow(xi, e) % p);
            // term is (c * x^(idx+1)) mod p.
            assert(term as int == ((c as int) * pow(xi, e)) % p) by {
                lemma_mul_mod_noop_general(c as int, pow(xi, e), p);
            }
            // acc1 is the evaluation over one more coefficient, mod p.
            let prev = poly_eval(secret as int, coeffs@.take(idx as int), xi);
            let next = poly_eval(secret as int, coeffs@.take(idx + 1), xi);
            assert(coeffs@.take(idx + 1).drop_last() =~= coeffs@.take(idx as int));
            assert(coeffs@.take(idx + 1).last() == coeffs@[idx as int]);
            assert(next == prev + (c as int) * pow(xi, e));
            assert(acc1 as int == ((prev % p) + (((c as int) * pow(xi, e)) % p)) % p);
            assert(((prev % p) + (((c as int) * pow(xi, e)) % p)) % p == next % p) by {
                lemma_add_mod_noop(prev, (c as int) * pow(xi, e), p);
                lemma_mod_twice(prev, p);
                lemma_mod_twice((c as int) * pow(xi, e), p);
            }
        }
        acc = acc1;
        xp = xp1;
        idx = idx + 1;
    }
    proof {
        assert(coeffs@.take(coeffs@.len() as int) =~= coeffs@);
        lemma_mod_bound(poly_eval(secret as int, coeffs@, x as int), p);
    }
    acc as i32
}

/// Evaluates the sharing polynomial at `x = 1 ..= pieces_count`, returning
/// the points `(x, y)` with `y` the evaluation reduced into `[0, prime)`.
pub fn generate_points(secret: i32, pieces_count: i32, coefficients: &Vec<i32>, prime: i32) -> (r:
    Vec<(i32, i32)>)
    requires
        prime >= 1,
    ensures
        r@.len() == (if pieces_count >= 0 {
            pieces_count as int
        } else {
            0int
        }),
        forall|k: int| 0 <= k < r@.len() ==> (#[trigger] r@[k]).0 == k + 1,
        forall|k: int|
            0 <= k < r@.len() ==> (#[trigger] r@[k]).1 as int == poly_eval(
                secret as int,
                coefficients@,
                k + 1,
            ) % (prime as int),
        forall|k: int| 0 <= k < r@.len() ==> 0 <= (#[trigger] r@[k]).1 < prime,
{
    let mut pieces: Vec<(i32, i32)> = Vec::new();
    if pieces_count < 0 {
        return pieces;
    }
    let mut k: i32 = 0;
    while k < pieces_count
        invariant
            0 <= k <= pieces_count,
            prime >= 1,
            pieces@.len() == k as int,
            forall|j: int| 0 <= j < pieces@.len() ==> (#[trigger] pieces@[j]).0 == j + 1,
            forall|j: int|
                0 <= j < pieces@.len() ==> (#[trigger] pieces@[j]).1 as int == poly_eval(
                    secret as int,
                    coefficients@,
                    j + 1,
                ) % (prime as int),
            forall|j: int| 0 <= j < pieces@.len() ==> 0 <= (#[trigger] pieces@[j]).1 < prime,
        decreases pieces_count - k,
    {
        let x = k + 1;
        let y = eval_point(secret, coefficients, x, prime);
        pieces.push((x, y));
        k = k + 1;
    }
    pieces
}

} // verus!
