use prime_families::digits::case_key;
use prime_families::digits::enough_digits_left;
use prime_families::digits::get_case_string;
use prime_families::digits::replace_digits_with_new_digit_according_to_pattern;
use prime_families::digits::to_digits;

#[test]
fn test_num_to_digits() {
    let num = 83371;
    let mut buf = Vec::new();
    to_digits(num, &mut buf);
    assert_eq!(buf, vec![8, 3, 3, 7, 1]);
}

#[test]
fn test_apply_transformation() {
    let prime_as_digits = vec![5, 7, 3, 8, 2, 1];
    let new_digit = 0;
    let pattern = vec![false, true, true, true, false, false];
    assert_eq!(
        replace_digits_with_new_digit_according_to_pattern(&prime_as_digits, new_digit, &pattern),
        500_021
    );
}

#[test]
fn test_to_digits() {
    let num = 37871_u64;
    let mut buf = Vec::new();
    to_digits(num, &mut buf);
    assert_eq!(vec![3, 7, 8, 7, 1], buf);
}

#[test]
fn test_to_digits_edges() {
    let mut buf = Vec::new();
    to_digits(0, &mut buf);
    assert_eq!(buf, vec![0]);
    to_digits(7, &mut buf);
    assert_eq!(buf, vec![7]);
    to_digits(10, &mut buf);
    assert_eq!(buf, vec![1, 0]);
}

#[test]
fn test_apply_transformation_all_and_none() {
    let digits = vec![1, 2, 3];
    let all = vec![true, true, true];
    let none = vec![false, false, false];
    assert_eq!(
        replace_digits_with_new_digit_according_to_pattern(&digits, 9, &all),
        999
    );
    assert_eq!(
        replace_digits_with_new_digit_according_to_pattern(&digits, 9, &none),
        123
    );
}

#[test]
fn test_case_string_wildcards() {
    let digits = vec![5, 7, 3, 8, 2, 1];
    let pattern = vec![false, true, true, true, false, false];
    assert_eq!(get_case_string(&digits, &pattern), "5***21");
}

#[test]
fn test_case_key_agrees_on_unmasked() {
    // Two numbers sharing the unmasked digits give the same case under the
    // pattern, a different unmasked digit a different one.
    let pattern = vec![true, false];
    let d13 = vec![1, 3];
    let d23 = vec![2, 3];
    let d17 = vec![1, 7];
    assert_eq!(case_key(&d13, &pattern), case_key(&d23, &pattern));
    assert_ne!(case_key(&d13, &pattern), case_key(&d17, &pattern));
    assert_eq!(
        get_case_string(&d13, &pattern),
        get_case_string(&d23, &pattern)
    );
    assert_eq!(get_case_string(&d13, &pattern), "*3");
}

#[test]
fn test_enough_digits_left() {
    // With nothing found yet all ten digits must still suffice for ten.
    assert!(enough_digits_left(0, 0, 10));
    // Trying digit 3 with none found leaves seven digits for a family of 8.
    assert!(!enough_digits_left(3, 0, 8));
    assert!(enough_digits_left(3, 1, 8));
    assert!(enough_digits_left(9, 9, 10));
}

#[test]
fn test_to_digits_largest_value() {
    let mut buf = Vec::new();
    to_digits(u64::MAX, &mut buf);
    assert_eq!(buf.len(), 20);
    assert_eq!(buf[0], 1);
    assert_eq!(buf[19], 5);
}

#[test]
fn test_replace_digits_single_position() {
    let digits = vec![4, 2];
    let pattern = vec![true, false];
    for d in 0..10u8 {
        assert_eq!(
            replace_digits_with_new_digit_according_to_pattern(&digits, d, &pattern),
            (d as u64) * 10 + 2
        );
    }
}
