pub mod digits;
pub mod factorize;

pub use crate::digits::{digits, digits_base, digits_to_int, is_palindrome, is_palindrome_base,
    is_pandigital};
pub use crate::factorize::{mod_sqr, pollards_rho_i64, trial_div, ModSqrError, MOD_SQR_LIMIT};
