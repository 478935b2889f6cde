use numeric_core::digits::symbol_to_digit;
use numeric_core::{get_digits, numeric_core, numeric_core_sequence, to_number};

#[test]
fn test_numeric_core_one() {
    assert_eq!(numeric_core(1, 10), Some(1));
}

#[test]
fn test_numeric_core_two_digits() {
    assert_eq!(numeric_core(12, 10), Some(12));
}

#[test]
fn test_numeric_core_three_digits() {
    assert_eq!(numeric_core(123, 10), Some(123));
}

#[test]
fn test_numeric_core_none() {
    assert_eq!(numeric_core(1213, 10), None);
}

#[test]
fn test_numeric_core_four_digits() {
    assert_eq!(numeric_core(3614, 10), Some(14));
}

#[test]
fn test_numeric_core_five_digits() {
    assert_eq!(numeric_core(86455, 10), Some(18));
}

#[test]
fn test_numeric_core_seven_digits() {
    assert_eq!(numeric_core(1111111, 10), Some(0));
}

#[test]
fn short_values_are_their_own_core() {
    for v in [0u32, 5, 99, 999] {
        assert_eq!(numeric_core(v, 10), Some(v));
    }
    // 0b111 has three digits in base 2, 0xfff three in base 16
    assert_eq!(numeric_core(7, 2), Some(7));
    assert_eq!(numeric_core(0xfff, 16), Some(0xfff));
}

#[test]
fn thousand_has_no_core() {
    assert_eq!(numeric_core(1000, 10), None);
}

#[test]
fn nines_reach_zero() {
    assert_eq!(numeric_core(9999, 10), Some(0));
}

#[test]
fn largest_input_terminates() {
    assert_eq!(numeric_core(u32::MAX, 10), Some(0));
}

#[test]
fn reducer_on_split_of_3614() {
    assert_eq!(numeric_core_sequence(&[3, 6, 1, 4]), Some(14));
}

#[test]
fn reducer_on_split_of_1213_finds_nothing() {
    assert_eq!(numeric_core_sequence(&[1, 2, 1, 3]), None);
}

#[test]
fn reducer_subtracts_running_value_minus_operand() {
    // 9 / 3 = 3, 3 * 2 = 6, 6 - 4 = 2 is the least of the accepted results
    assert_eq!(numeric_core_sequence(&[9, 3, 2, 4]), Some(2));
    // 3 - 9 is negative and stays so; the least is 3 * 9 - 1 = 26 (read as 9 - 3 it would be 6)
    assert_eq!(numeric_core_sequence(&[3, 9, 1, 1]), Some(26));
}

#[test]
fn reducer_division_by_zero_disqualifies_only_that_order() {
    // every order divides by a zero operand: nothing counts
    assert_eq!(numeric_core_sequence(&[5, 0, 0, 0]), None);
    assert_eq!(numeric_core_sequence(&[0, 0, 0, 0]), None);
    // 8 / 2 = 4, 4 * 0 = 0, 0 - 0 = 0 divides by the non-zero operand
    assert_eq!(numeric_core_sequence(&[8, 2, 0, 0]), Some(0));
}

#[test]
fn reducer_rejects_fractions() {
    // 1 - 1 = 0, 0 * 1 = 0, 0 / 3 = 0 is accepted; no order of [1,1,1,3] gives less
    assert_eq!(numeric_core_sequence(&[1, 1, 1, 3]), Some(0));
    // 7 - 2 = 5, 5 * 1 = 5, 5 / 1 = 5; orders through 7 / 2 = 3.5 never come back to an integer
    assert_eq!(numeric_core_sequence(&[7, 2, 1, 1]), Some(5));
}

#[test]
fn reducer_saturates_large_results() {
    let m = u32::MAX;
    assert_eq!(numeric_core_sequence(&[m, m - 1, 3, m - 1]), Some(u32::MAX));
    assert_eq!(numeric_core_sequence(&[m, 2, 1, 1]), Some(m - 2));
}

#[test]
fn digits_in_several_radixes() {
    assert_eq!(get_digits(0, 10), vec!['0']);
    assert_eq!(get_digits(3614, 10), vec!['3', '6', '1', '4']);
    assert_eq!(get_digits(255, 16), vec!['f', 'f']);
    assert_eq!(get_digits(5, 2), vec!['1', '0', '1']);
    assert_eq!(get_digits(35, 36), vec!['z']);
    assert_eq!(get_digits(u32::MAX, 10).len(), 10);
}

#[test]
fn numbers_from_digits() {
    assert_eq!(to_number(&['3', '6', '1', '4'], 10), Some(3614));
    assert_eq!(to_number(&['f', 'F'], 16), Some(255));
    assert_eq!(to_number(&[], 10), Some(0));
    assert_eq!(to_number(&['0', '0', '7'], 10), Some(7));
}

#[test]
fn invalid_digit_gives_none() {
    assert_eq!(to_number(&['1', 'a'], 10), None);
    assert_eq!(to_number(&['2'], 2), None);
    assert_eq!(to_number(&['-'], 36), None);
}

#[test]
fn overflow_gives_none() {
    assert_eq!(to_number(&['4', '2', '9', '4', '9', '6', '7', '2', '9', '5'], 10), Some(u32::MAX));
    assert_eq!(to_number(&['4', '2', '9', '4', '9', '6', '7', '2', '9', '6'], 10), None);
    assert_eq!(to_number(&['9'; 11], 10), None);
}

#[test]
fn digit_symbols() {
    assert_eq!(symbol_to_digit('7', 10), Some(7));
    assert_eq!(symbol_to_digit('Z', 36), Some(35));
    assert_eq!(symbol_to_digit('g', 16), None);
}
