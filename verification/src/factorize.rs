//! Integer factorization: an overflow-safe modular-squaring primitive,
//! deterministic trial division, and a Pollard's-rho factorizer built on
//! Floyd cycle detection.

use vstd::prelude::*;

verus! {

use vstd::arithmetic::div_mod::lemma_add_mod_noop;
use vstd::arithmetic::div_mod::lemma_add_mod_noop_right;
use vstd::arithmetic::div_mod::lemma_fundamental_div_mod;
use vstd::arithmetic::div_mod::lemma_fundamental_div_mod_converse_mod;
use vstd::arithmetic::div_mod::lemma_mul_mod_noop_right;
use vstd::arithmetic::div_mod::lemma_small_mod;

/// Smallest modulus (inclusive) that `mod_sqr` rejects: one eighth of the
/// largest representable `u64`. Below this bound every intermediate sum of
/// the halving recursion stays far from the overflow boundary.
pub const MOD_SQR_LIMIT: u64 = u64::MAX / 8;

/// Failure modes of the modular-squaring primitive. Both indicate a
/// precondition violation by the caller and are fatal to the current call.
#[derive(Clone, Copy, Debug, PartialEq, Eq, Structural)]
pub enum ModSqrError {
    /// The modulus was zero.
    DivisionByZero,
    /// The modulus was at or above `MOD_SQR_LIMIT`.
    ModulusTooLarge,
}

/// `x * x` reduced modulo `n`, as a mathematical value.
pub open spec fn spec_mod_sqr(x: int, n: int) -> int {
    (x * x) % n
}

/// The halving recursion behind `mod_sqr`, for moduli already checked to be
/// in range. Splitting `x` as `2k` or `2k + 1` keeps every intermediate
/// value below a small multiple of `n`, so nothing overflows.
fn mod_sqr_bounded(x: u64, n: u64) -> (r: u64)
    requires
        0 < n < MOD_SQR_LIMIT,
    ensures
        r == spec_mod_sqr(x as int, n as int),
    decreases x,
{
    if x == 0 {
        proof {
            lemma_small_mod(0, n as nat);
        }
        0
    } else {
        let k = x / 2;
        let ksqr = mod_sqr_bounded(k, n);
        proof {
            lemma_fundamental_div_mod(x as int, 2);
        }
        if x % 2 == 0 {
            let dbl = (ksqr + ksqr) % n;
            let r = (dbl + dbl) % n;
            proof {
                let ki = k as int;
                let ni = n as int;
                let xi = x as int;
                lemma_mul_mod_noop_right(2, ki * ki, ni);
                assert(dbl == (2 * (ki * ki)) % ni);
                lemma_mul_mod_noop_right(2, 2 * (ki * ki), ni);
                assert(r == (4 * (ki * ki)) % ni);
                assert(xi * xi == 4 * (ki * ki)) by (nonlinear_arith)
                    requires
                        xi == 2 * ki,
                ;
            }
            r
        } else {
            let s = (ksqr + k) % n;
            let dbl = (s + s) % n;
            let r = (dbl + dbl + 1) % n;
            proof {
                let ki = k as int;
                let ni = n as int;
                let xi = x as int;
                lemma_add_mod_noop_right(ki, ki * ki, ni);
                assert(s == (ki * ki + ki) % ni);
                lemma_mul_mod_noop_right(2, ki * ki + ki, ni);
                assert(dbl == (2 * (ki * ki + ki)) % ni);
                lemma_add_mod_noop(2 * dbl, 1, ni);
                lemma_mul_mod_noop_right(2, 2 * (ki * ki + ki), ni);
                lemma_add_mod_noop(4 * (ki * ki + ki), 1, ni);
                assert(r == (4 * (ki * ki + ki) + 1) % ni);
                assert(xi * xi == 4 * (ki * ki + ki) + 1) by (nonlinear_arith)
                    requires
                        xi == 2 * ki + 1,
                ;
            }
            r
        }
    }
}

/// Computes `x * x mod n` without ever overflowing a `u64`, by reducing to
/// the square of `x / 2` and recombining modulo `n` at each step.
///
/// Fails with `DivisionByZero` when `n` is zero and with `ModulusTooLarge`
/// when `n` is at or above `MOD_SQR_LIMIT`; succeeds on every other input.
pub fn mod_sqr(x: u64, n: u64) -> (r: Result<u64, ModSqrError>)
    ensures
        n == 0 ==> r == Err::<u64, ModSqrError>(ModSqrError::DivisionByZero),
        n >= MOD_SQR_LIMIT ==> r == Err::<u64, ModSqrError>(ModSqrError::ModulusTooLarge),
        0 < n < MOD_SQR_LIMIT ==> (r matches Ok(v) && v == spec_mod_sqr(x as int, n as int)),
{
    if n == 0 {
        Err(ModSqrError::DivisionByZero)
    } else if n >= MOD_SQR_LIMIT {
        Err(ModSqrError::ModulusTooLarge)
    } else {
        Ok(mod_sqr_bounded(x, n))
    }
}

/// Primality of a mathematical integer: at least 2, with no divisor
/// strictly between 1 and itself.
pub open spec fn spec_is_prime(n: int) -> bool {
    &&& 2 <= n
    &&& forall|d: int| 2 <= d < n ==> #[trigger] (n % d) != 0
}

/// For positive `i`, comparing `i` against `n / i` is the overflow-free way
/// of comparing `i * i` against `n`.
proof fn lemma_div_vs_square(n: int, i: int)
    requires
        0 <= n,
        1 <= i,
    ensures
        (n / i >= i) <==> (i * i <= n),
{
    lemma_fundamental_div_mod(n, i);
    let q = n / i;
    let rem = n % i;
    assert((q >= i) <==> (i * i <= n)) by (nonlinear_arith)
        requires
            n == i * q + rem,
            0 <= rem < i,
            1 <= i,
    ;
}

/// A number with no divisor between 2 and its square root is prime: any
/// factorization `n == d * q` puts `d` or `q` below the square root.
proof fn lemma_no_small_factor_prime(n: int, bound: int)
    requires
        2 <= n,
        2 <= bound,
        n < bound * bound,
        forall|j: int| 2 <= j < bound ==> #[trigger] (n % j) != 0,
    ensures
        spec_is_prime(n),
{
    assert forall|d: int| 2 <= d < n implies #[trigger] (n % d) != 0 by {
        if n % d == 0 {
            lemma_fundamental_div_mod(n, d);
            let q = n / d;
            assert(n == d * q);
            assert(2 <= q) by (nonlinear_arith)
                requires
                    n == d * q,
                    2 <= d < n,
                    2 <= n,
            ;
            if d < bound {
                assert(n % d != 0);
            } else {
                assert(q < bound) by (nonlinear_arith)
                    requires
                        n == d * q,
                        bound <= d,
                        2 <= q,
                        n < bound * bound,
                        2 <= bound,
                ;
                lemma_fundamental_div_mod_converse_mod(n, q, d, 0);
                assert(n % q == 0);
            }
        }
    };
}

/// Trial division: the least divisor of `n` that is at least 2, paired
/// with its cofactor; `(n, 1)` when `n` is 1 or prime; no result when `n`
/// is not positive.
pub fn trial_div(n: i64) -> (r: Option<(i64, i64)>)
    ensures
        (r is Some) <==> n >= 1,
        n >= 1 ==> (r matches Some((d1, d2)) && d1 * d2 == n && 1 <= d1 <= n && 1 <= d2 <= n),
        n >= 1 && (n == 1 || spec_is_prime(n as int)) ==> r == Some((n, 1i64)),
        n >= 2 && !spec_is_prime(n as int) ==> (r matches Some((d1, d2))
            && 2 <= d1 < n
            && (n as int) % (d1 as int) == 0
            && (forall|j: int| 2 <= j < d1 ==> #[trigger] ((n as int) % j) != 0)
            && d2 == n / d1),
{
    if n <= 0 {
        return None;
    }
    let mut i: i64 = 2;
    while i <= n / i
        invariant
            1 <= n,
            2 <= i <= n + 1,
            forall|j: int| 2 <= j < i ==> #[trigger] ((n as int) % j) != 0,
        decreases n + 1 - i,
    {
        if n % i == 0 {
            proof {
                let ni = n as int;
                let ii = i as int;
                lemma_fundamental_div_mod(ni, ii);
                lemma_div_vs_square(ni, ii);
                assert(ii * ii <= ni);
                assert(2 * ii <= ii * ii) by (nonlinear_arith)
                    requires
                        2 <= ii,
                ;
                assert(ii < ni);
                assert(1 <= ni / ii <= ni) by (nonlinear_arith)
                    requires
                        ni == ii * (ni / ii),
                        2 <= ii < ni,
                ;
                assert(!spec_is_prime(ni));
            }
            return Some((i, n / i));
        }
        proof {
            lemma_div_vs_square(n as int, i as int);
            assert(2 * (i as int) <= (i as int) * (i as int)) by (nonlinear_arith)
                requires
                    2 <= i as int,
            ;
        }
        i = i + 1;
    }
    proof {
        if n >= 2 {
            lemma_div_vs_square(n as int, i as int);
            lemma_no_small_factor_prime(n as int, i as int);
        }
    }
    Some((n, 1))
}

/// Relies on num::abs: the absolute value of its argument (the argument is
/// kept away from `i64::MIN`, where the outside call would return `MIN`).
#[verifier::external_body]
fn abs_i64(v: i64) -> (r: i64)
    requires
        v != i64::MIN,
    ensures
        r == (if v >= 0 { v as int } else { -(v as int) }),
{
    num::abs(v)
}

/// Relies on num::integer::gcd (Stein's algorithm): the result is a common
/// divisor of both arguments, is positive when either argument is, and no
/// common divisor exceeds it.
#[verifier::external_body]
fn gcd_i64(a: i64, b: i64) -> (r: i64)
    requires
        0 <= a,
        1 <= b,
    ensures
        1 <= r <= b,
        (a as int) % (r as int) == 0,
        (b as int) % (r as int) == 0,
        forall|c: int| 1 <= c && #[trigger] ((a as int) % c) == 0 && (b as int) % c == 0 ==> c <= r,
{
    num::integer::gcd(a, b)
}

/// Relies on primal::is_prime, a Miller-Rabin test whose witness table is
/// exhaustive for 64-bit inputs, making it deterministic and exact.
#[verifier::external_body]
fn is_prime_oracle(n: u64) -> (r: bool)
    ensures
        r == spec_is_prime(n as int),
{
    primal::is_prime(n)
}

/// One step of the rho iteration `v * v + 1 mod n`, for a modulus already
/// validated against `MOD_SQR_LIMIT`.
fn rho_step(v: i64, n: i64) -> (r: i64)
    requires
        0 < n,
        (n as u64) < MOD_SQR_LIMIT,
        0 <= v <= n,
    ensures
        r == spec_mod_sqr(v as int, n as int) + 1,
        1 <= r <= n,
{
    let sq = mod_sqr_bounded(v as u64, n as u64);
    proof {
        vstd::arithmetic::div_mod::lemma_mod_bound((v as int) * (v as int), n as int);
    }
    (sq as i64) + 1
}

/// Pollard's-rho factorization for signed 64-bit integers.
///
/// Not-positive inputs give `Ok(None)`. Inputs up to 25 go straight to
/// trial division; a prime input returns `(n, 1)` at once. Otherwise seeds
/// `2, 3, ...` each drive one Floyd tortoise-and-hare run of the iteration
/// `v * v + 1 mod n` (capped at `n` steps, within which a collision is
/// certain), and the first nontrivial gcd yields the factor pair, with
/// trial division as the last-resort fallback. A composite modulus too
/// large for the squaring primitive is rejected with `ModulusTooLarge`.
#[verifier::loop_isolation(false)]
pub fn pollards_rho_i64(n: i64) -> (r: Result<Option<(i64, i64)>, ModSqrError>)
    ensures
        n <= 0 <==> r == Ok::<Option<(i64, i64)>, ModSqrError>(None),
        r matches Ok(Some((d1, d2))) ==> d1 * d2 == n && 1 <= d1 <= n && 1 <= d2 <= n,
        n >= 1 && (n == 1 || spec_is_prime(n as int)) ==> r == Ok::<Option<(i64, i64)>, ModSqrError>(
            Some((n, 1i64)),
        ),
        n >= 2 && !spec_is_prime(n as int) && n < MOD_SQR_LIMIT as int ==> (r matches Ok(
            Some((d1, d2)),
        ) && 2 <= d1 < n && 2 <= d2 < n),
        (r is Err) <==> (n >= MOD_SQR_LIMIT as int && !spec_is_prime(n as int)),
        r is Err ==> r == Err::<Option<(i64, i64)>, ModSqrError>(ModSqrError::ModulusTooLarge),
{
    // Small (or not positive) inputs: the rho iteration degenerates below
    // 26, so trial division answers directly.
    if n <= 25 {
        let td = trial_div(n);
        proof {
            if n >= 2 && !spec_is_prime(n as int) {
                let (d1, d2) = td.unwrap();
                assert(2 <= d2 < n) by (nonlinear_arith)
                    requires
                        d1 * d2 == n as int,
                        2 <= d1 < n as int,
                        1 <= d2,
                ;
            }
        }
        return Ok(td);
    }
    // A prime needs no factorization work.
    if is_prime_oracle(n as u64) {
        return Ok(Some((n, 1)));
    }
    // Validate the modulus once at the boundary: every squaring below
    // would fail with the same error.
    if (n as u64) >= MOD_SQR_LIMIT {
        return Err(ModSqrError::ModulusTooLarge);
    }
    let mut i: i64 = 2;
    while i < n
        invariant
            2 <= i <= n,
        decreases n - i,
    {
        let mut x = i;
        let mut y = i;
        let mut steps: i64 = 0;
        // Floyd's cycle finding: y moves twice as fast as x. A collision
        // `x == y` is certain within n steps, so the cap only makes
        // termination explicit; it never cuts a run short.
        while steps < n
            invariant
                1 <= x <= n,
                1 <= y <= n,
                0 <= steps <= n,
            decreases n - steps,
        {
            x = rho_step(x, n);
            let ymid = rho_step(y, n);
            y = rho_step(ymid, n);
            if x == y {
                // The sequences collided without separating: this seed
                // failed, try the next one.
                break;
            }
            let d = gcd_i64(abs_i64(x - y), n);
            if d != 1 {
                proof {
                    let ni = n as int;
                    let di = d as int;
                    let diff: int = if x >= y {
                        x - y
                    } else {
                        y - x
                    };
                    // d divides the positive difference, so d cannot
                    // exceed it; the difference stays below n.
                    if di > diff {
                        lemma_small_mod(diff as nat, di as nat);
                    }
                    assert(di <= diff);
                    lemma_fundamental_div_mod(ni, di);
                    assert(2 <= ni / di < ni) by (nonlinear_arith)
                        requires
                            ni == di * (ni / di),
                            2 <= di < ni,
                            26 <= ni,
                    ;
                }
                return Ok(Some((d, n / d)));
            }
            steps = steps + 1;
        }
        i = i + 1;
    }
    // Every seed failed: fall back to trial division, which cannot.
    let td = trial_div(n);
    proof {
        let (d1, d2) = td.unwrap();
        assert(2 <= d2 < n) by (nonlinear_arith)
            requires
                d1 * d2 == n as int,
                2 <= d1 < n as int,
                1 <= d2,
        ;
    }
    Ok(td)
}

} // verus!
