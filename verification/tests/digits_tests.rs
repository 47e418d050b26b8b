use intfactor::{digits, digits_base, digits_to_int, is_palindrome, is_palindrome_base,
    is_pandigital};

#[test]
fn digits_test_palin() {
    assert_eq!(is_palindrome(0), true);
    assert_eq!(is_palindrome(1), true);
    assert_eq!(is_palindrome(576), false);
    assert_eq!(is_palindrome(747), true);
    assert_eq!(is_palindrome(2422), false);
}

#[test]
fn palindrome_test_palin() {
    assert_eq!(is_palindrome(0), true);
    assert_eq!(is_palindrome(1), true);
    assert_eq!(is_palindrome(576), false);
    assert_eq!(is_palindrome(747), true);
    assert_eq!(is_palindrome(2422), false);
}

#[test]
fn test_palindrome_other_bases() {
    // 5 is 101 in base 2; 6 is 110.
    assert_eq!(is_palindrome_base(5, 2), true);
    assert_eq!(is_palindrome_base(6, 2), false);
    // 255 is ff in base 16; 256 is 100.
    assert_eq!(is_palindrome_base(255, 16), true);
    assert_eq!(is_palindrome_base(256, 16), false);
}

#[test]
fn test_digits_values() {
    assert_eq!(digits(0), vec![0u8]);
    assert_eq!(digits(7), vec![7u8]);
    assert_eq!(digits(1234), vec![1u8, 2, 3, 4]);
    assert_eq!(digits_base(255, 16), vec![15u8, 15]);
    assert_eq!(digits_base(8, 2), vec![1u8, 0, 0, 0]);
}

#[test]
fn test_digits_to_int_values() {
    assert_eq!(digits_to_int(vec![0u8]), 0);
    assert_eq!(digits_to_int(vec![4u8, 0, 9]), 409);
    assert_eq!(digits_to_int(vec![9u8, 9, 9, 9, 9, 9, 9, 9, 9]), 999999999);
}

#[test]
fn test_digits_round_trip() {
    for num in [0u32, 1, 9, 10, 11, 576, 747, 123456789, 4294967295] {
        assert_eq!(digits_to_int(digits(num)), num);
    }
}

#[test]
fn test_pandigital() {
    assert_eq!(is_pandigital(123456789), true);
    assert_eq!(is_pandigital(987654321), true);
    assert_eq!(is_pandigital(123456780), false);
    assert_eq!(is_pandigital(1000000000), false);
    assert_eq!(is_pandigital(0), false);
    assert_eq!(is_pandigital(112345678), false);
}
