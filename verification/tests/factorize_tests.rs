use intfactor::{mod_sqr, pollards_rho_i64, trial_div, ModSqrError, MOD_SQR_LIMIT};

#[test]
fn test_trial_div() {
    assert_eq!(trial_div(0), None);
    assert_eq!(trial_div(1).unwrap(), (1, 1));
    assert_eq!(trial_div(2).unwrap(), (2, 1));
    assert_eq!(trial_div(3).unwrap(), (3, 1));
    assert_eq!(trial_div(4).unwrap(), (2, 2));
    assert_eq!(trial_div(5).unwrap(), (5, 1));
}

#[test]
fn test_trial_div_least_divisor() {
    assert_eq!(trial_div(-7), None);
    assert_eq!(trial_div(49).unwrap(), (7, 7));
    assert_eq!(trial_div(91).unwrap(), (7, 13));
    assert_eq!(trial_div(97).unwrap(), (97, 1));
}

#[test]
fn test_pollards_rho() {
    assert_eq!(pollards_rho_i64(0).unwrap(), None);
    assert_eq!(pollards_rho_i64(1).unwrap().unwrap(), (1, 1));
    assert_eq!(pollards_rho_i64(2).unwrap().unwrap(), (2, 1));
    assert_eq!(pollards_rho_i64(3).unwrap().unwrap(), (3, 1));
    assert_eq!(pollards_rho_i64(4).unwrap().unwrap(), (2, 2));
    assert_eq!(pollards_rho_i64(5).unwrap().unwrap(), (5, 1));
    assert_eq!(pollards_rho_i64(6).unwrap().unwrap(), (2, 3));
}

#[test]
fn test_pollards_rho_composites() {
    // The pair's order is unspecified; the product and nontriviality are.
    for n in [91i64, 8051, 10403, 31861, 1000007] {
        let (d1, d2) = pollards_rho_i64(n).unwrap().unwrap();
        assert_eq!(d1 * d2, n);
        assert!(1 < d1 && d1 < n);
        assert!(1 < d2 && d2 < n);
    }
}

#[test]
fn test_pollards_rho_primes() {
    for n in [29i64, 101, 9973, 1000003] {
        assert_eq!(pollards_rho_i64(n).unwrap().unwrap(), (n, 1));
    }
}

#[test]
fn test_pollards_rho_huge_prime() {
    // 2^61 - 1 is prime and sits exactly at the modulus limit: the
    // primality oracle must answer before the limit check rejects it.
    let m61: i64 = 2305843009213693951;
    assert_eq!(m61 as u64, MOD_SQR_LIMIT);
    assert_eq!(pollards_rho_i64(m61).unwrap().unwrap(), (m61, 1));
}

#[test]
fn test_pollards_rho_modulus_too_large() {
    // 2^61 is composite and at the limit, so the squaring primitive's
    // bound is enforced.
    let big: i64 = 2305843009213693952;
    assert_eq!(pollards_rho_i64(big), Err(ModSqrError::ModulusTooLarge));
}

#[test]
fn test_mod_sqr_values() {
    assert_eq!(mod_sqr(2, 3), Ok(1));
    assert_eq!(mod_sqr(347892, 2478234), Ok(1808040));
    assert_eq!(mod_sqr(0, 17), Ok(0));
    assert_eq!(mod_sqr(12, 17), Ok((12 * 12) % 17));
    // A value too large to square directly still reduces correctly:
    // (2^40)^2 = 2^80 = 2^20 modulo 2^60 - 1.
    assert_eq!(mod_sqr(1 << 40, (1 << 60) - 1), Ok(1 << 20));
}

#[test]
fn test_mod_sqr_errors() {
    assert_eq!(mod_sqr(5, 0), Err(ModSqrError::DivisionByZero));
    assert_eq!(mod_sqr(5, MOD_SQR_LIMIT), Err(ModSqrError::ModulusTooLarge));
    assert_eq!(mod_sqr(5, u64::MAX), Err(ModSqrError::ModulusTooLarge));
    assert_eq!(mod_sqr(5, MOD_SQR_LIMIT - 1), Ok(25));
}
