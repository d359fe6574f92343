use knights_tour::passwords::CharType;
use knights_tour::passwords::LOWERS;
use knights_tour::passwords::NUMBERS;
use knights_tour::passwords::SPECIALS;
use knights_tour::passwords::UPPERS;
use knights_tour::passwords::comp_length;
use knights_tour::passwords::gen_password;
use knights_tour::passwords::random_char;
use knights_tour::passwords::sample_char_type;

#[test]
fn comp_length_counts_all_minima() {
    assert!(comp_length(12, 3, 2, true, true));
    assert!(comp_length(7, 3, 2, true, true));
    assert!(!comp_length(6, 3, 2, true, true));
    assert!(comp_length(5, 3, 2, false, false));
    assert!(!comp_length(4, 3, 2, false, false));
    assert!(comp_length(255, 200, 55, false, false));
    assert!(!comp_length(254, 200, 55, false, false));
}

#[test]
fn sample_char_type_mapping() {
    assert!(matches!(sample_char_type(0), CharType::Lower));
    assert!(matches!(sample_char_type(1), CharType::Lower));
    assert!(matches!(sample_char_type(2), CharType::Upper));
    assert!(matches!(sample_char_type(3), CharType::Upper));
    assert!(matches!(sample_char_type(4), CharType::Special));
    assert!(matches!(sample_char_type(5), CharType::Number));
}

#[test]
fn random_char_stays_in_pool() {
    for _ in 0..50 {
        assert!(NUMBERS.contains(&random_char(CharType::Number)));
        assert!(LOWERS.contains(&random_char(CharType::Lower)));
        assert!(UPPERS.contains(&random_char(CharType::Upper)));
        assert!(SPECIALS.contains(&random_char(CharType::Special)));
    }
}

#[test]
fn gen_password_layout() {
    let p = gen_password(12, 3, 2, false, false);
    let chars: Vec<char> = p.chars().collect();
    assert_eq!(chars.len(), 12);
    for c in &chars[0..3] {
        assert!(NUMBERS.contains(c));
    }
    for c in &chars[3..5] {
        assert!(SPECIALS.contains(c));
    }
    for c in &chars[5..] {
        assert!(
            LOWERS.contains(c) || UPPERS.contains(c) || SPECIALS.contains(c) || NUMBERS.contains(c)
        );
    }
}

#[test]
fn gen_password_minima_override_length() {
    let p = gen_password(2, 4, 3, false, false);
    let chars: Vec<char> = p.chars().collect();
    assert_eq!(chars.len(), 7);
    for c in &chars[0..4] {
        assert!(NUMBERS.contains(c));
    }
    for c in &chars[4..7] {
        assert!(SPECIALS.contains(c));
    }
}
