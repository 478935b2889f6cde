use numeric_core::{roman_to_u32, u32_to_roman};

#[test]
fn test_roman_to_u32() {
    // Basic numbers
    assert_eq!(roman_to_u32(&['I']).unwrap(), 1);
    assert_eq!(roman_to_u32(&['V']).unwrap(), 5);
    assert_eq!(roman_to_u32(&['X', 'X']).unwrap(), 20);

    // Subtractive notation
    assert_eq!(roman_to_u32(&['I', 'V']).unwrap(), 4);
    assert_eq!(roman_to_u32(&['I', 'X']).unwrap(), 9);
    assert_eq!(roman_to_u32(&['X', 'L']).unwrap(), 40);
    assert_eq!(roman_to_u32(&['C', 'M']).unwrap(), 900);

    // Multiple numerals
    assert_eq!(roman_to_u32(&['X', 'I', 'V']).unwrap(), 14);
    assert_eq!(roman_to_u32(&['X', 'I', 'I', 'I']).unwrap(), 13);
    assert_eq!(
        roman_to_u32(&['M', 'C', 'M', 'X', 'C', 'I', 'V']).unwrap(),
        1994
    ); // MCMXCIV

    // Invalid character
    let invalid = ['A', 'I'];
    assert!(roman_to_u32(&invalid).is_err());

    // Empty input
    let empty: [char; 0] = [];
    assert!(roman_to_u32(&empty).is_err());
}

#[test]
fn test_basic() {
    assert_eq!(u32_to_roman(1), vec!['I']);
    assert_eq!(u32_to_roman(4), vec!['I', 'V']);
    assert_eq!(u32_to_roman(9), vec!['I', 'X']);
}

#[test]
fn test_compound() {
    assert_eq!(u32_to_roman(13), vec!['X', 'I', 'I', 'I']);
    assert_eq!(u32_to_roman(40), vec!['X', 'L']);
    assert_eq!(u32_to_roman(58), vec!['L', 'V', 'I', 'I', 'I']);
}

#[test]
fn test_larger() {
    assert_eq!(u32_to_roman(90), vec!['X', 'C']);
    assert_eq!(u32_to_roman(99), vec!['X', 'C', 'I', 'X']);
    assert_eq!(u32_to_roman(255), vec!['C', 'C', 'L', 'V']);
    assert_eq!(u32_to_roman(2024), vec!['M', 'M', 'X', 'X', 'I', 'V']);
}

#[test]
fn round_trip_over_a_range() {
    for n in 1..=3999u32 {
        let text = u32_to_roman(n);
        assert!(!text.is_empty());
        assert_eq!(roman_to_u32(&text), Ok(n));
        let back = roman_to_u32(&text).unwrap();
        assert_eq!(u32_to_roman(back), text);
    }
}

#[test]
fn zero_encodes_to_empty_text() {
    assert!(u32_to_roman(0).is_empty());
    assert!(roman_to_u32(&u32_to_roman(0)).is_err());
}

#[test]
fn large_numbers_repeat_the_thousand() {
    let text = u32_to_roman(5000);
    assert_eq!(text, vec!['M'; 5]);
    assert_eq!(roman_to_u32(&text), Ok(5000));
}

#[test]
fn invalid_symbol_anywhere_fails() {
    assert!(roman_to_u32(&['X', 'I', 'z']).is_err());
    assert!(roman_to_u32(&['i']).is_err());
    assert!(roman_to_u32(&['M', ' ', 'M']).is_err());
    let err = roman_to_u32(&['Q']).unwrap_err();
    assert!(err.contains('Q'));
}

#[test]
fn total_above_u32_fails() {
    let many = vec!['M'; 4_294_968];
    assert!(roman_to_u32(&many).is_err());
    let fits = vec!['M'; 4_294_967];
    assert_eq!(roman_to_u32(&fits), Ok(4_294_967_000));
}

#[test]
fn non_canonical_text_reads_left_to_right() {
    assert_eq!(roman_to_u32(&['I', 'I', 'I', 'I']), Ok(4));
    assert_eq!(roman_to_u32(&['I', 'M']), Ok(999));
    assert_eq!(roman_to_u32(&['V', 'X']), Ok(5));
}
