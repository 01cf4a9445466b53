use king_core::parse_reroll_input;

#[test]
fn keep_directive_returns_no_indices() {
    assert_eq!(parse_reroll_input("x").unwrap(), Vec::<usize>::new());
    assert_eq!(parse_reroll_input("X").unwrap(), Vec::<usize>::new());
    assert_eq!(parse_reroll_input("  x  ").unwrap(), Vec::<usize>::new());
}

#[test]
fn zero_selects_every_die() {
    assert_eq!(parse_reroll_input("0").unwrap(), vec![0, 1, 2, 3, 4, 5]);
    assert_eq!(parse_reroll_input(" 0 ").unwrap(), vec![0, 1, 2, 3, 4, 5]);
}

#[test]
fn die_numbers_become_zero_based_indices() {
    assert_eq!(parse_reroll_input("1 3,5").unwrap(), vec![0, 2, 4]);
    assert_eq!(parse_reroll_input("6").unwrap(), vec![5]);
    assert_eq!(parse_reroll_input("2,2 2").unwrap(), vec![1, 1, 1]);
}

#[test]
fn empty_input_selects_nothing() {
    assert_eq!(parse_reroll_input("").unwrap(), Vec::<usize>::new());
    assert_eq!(parse_reroll_input("   ").unwrap(), Vec::<usize>::new());
}

#[test]
fn repeated_separators_are_skipped() {
    assert_eq!(parse_reroll_input("1,,  4").unwrap(), vec![0, 3]);
}

#[test]
fn out_of_range_number_is_reported() {
    let err = parse_reroll_input("7").unwrap_err();
    assert_eq!(err.token, b"7".to_vec());
}

#[test]
fn non_numeric_token_is_reported() {
    let err = parse_reroll_input("abc").unwrap_err();
    assert_eq!(err.token, b"abc".to_vec());
}

#[test]
fn first_offending_token_is_reported() {
    let err = parse_reroll_input("1 9 2 zz").unwrap_err();
    assert_eq!(err.token, b"9".to_vec());
}

#[test]
fn zero_as_token_in_a_list_is_invalid() {
    let err = parse_reroll_input("1 0").unwrap_err();
    assert_eq!(err.token, b"0".to_vec());
}

#[test]
fn unicode_whitespace_is_trimmed() {
    assert_eq!(parse_reroll_input("\u{A0}2").unwrap(), vec![1]);
    assert_eq!(parse_reroll_input("3\u{A0}").unwrap(), vec![2]);
    assert_eq!(parse_reroll_input("\u{3000}x\u{3000}").unwrap(), Vec::<usize>::new());
    assert_eq!(parse_reroll_input("\u{2028}\u{85}0\u{2009}").unwrap(), vec![0, 1, 2, 3, 4, 5]);
    assert_eq!(parse_reroll_input("\u{1680}\u{205F}").unwrap(), Vec::<usize>::new());
}

#[test]
fn offending_token_is_reported_lowercased() {
    let err = parse_reroll_input("QQ").unwrap_err();
    assert_eq!(err.token, b"qq".to_vec());
    let err = parse_reroll_input("1 \u{C9}9").unwrap_err();
    assert_eq!(err.token, "\u{E9}9".as_bytes().to_vec());
}
