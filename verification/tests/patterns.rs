use bytepatch::{Pattern, PatternError, Radix, Symbol};

fn symbols(text: &str, radix: Radix) -> Vec<Symbol> {
    Pattern::parse(text, radix).unwrap().symbols().clone()
}

#[test]
fn hex_digits_and_wildcard_group() {
    assert_eq!(symbols("AA ??", Radix::Hex), vec![Symbol::Fixed(0xAA), Symbol::Wildcard]);
}

#[test]
fn hex_lone_wildcard_mark_is_one_byte() {
    assert_eq!(symbols("FF ?", Radix::Hex), vec![Symbol::Fixed(0xFF), Symbol::Wildcard]);
}

#[test]
fn hex_groups_without_gap() {
    assert_eq!(
        symbols("0a1B??c3", Radix::Hex),
        vec![Symbol::Fixed(0x0A), Symbol::Fixed(0x1B), Symbol::Wildcard, Symbol::Fixed(0xC3)]
    );
}

#[test]
fn hex_both_cases() {
    assert_eq!(symbols("fF Ff", Radix::Hex), vec![Symbol::Fixed(0xFF), Symbol::Fixed(0xFF)]);
}

#[test]
fn blanks_of_every_kind_set_words_apart() {
    assert_eq!(
        symbols(" \t00\n01\r\x0C02  ", Radix::Hex),
        vec![Symbol::Fixed(0), Symbol::Fixed(1), Symbol::Fixed(2)]
    );
}

#[test]
fn octal_groups() {
    assert_eq!(
        symbols("377 000 ??? 101", Radix::Octal),
        vec![Symbol::Fixed(0xFF), Symbol::Fixed(0), Symbol::Wildcard, Symbol::Fixed(0o101)]
    );
}

#[test]
fn octal_group_above_a_byte_is_refused() {
    assert_eq!(Pattern::parse("400", Radix::Octal), Err(PatternError::InvalidPatternSyntax));
    assert_eq!(Pattern::parse("777", Radix::Octal), Err(PatternError::InvalidPatternSyntax));
}

#[test]
fn octal_digit_eight_is_refused() {
    assert_eq!(Pattern::parse("128", Radix::Octal), Err(PatternError::InvalidPatternSyntax));
}

#[test]
fn binary_groups() {
    assert_eq!(
        symbols("10100101 ???????? 00000001", Radix::Binary),
        vec![Symbol::Fixed(0xA5), Symbol::Wildcard, Symbol::Fixed(1)]
    );
}

#[test]
fn binary_group_of_seven_digits_is_refused() {
    assert_eq!(Pattern::parse("1010010", Radix::Binary), Err(PatternError::InvalidPatternSyntax));
}

#[test]
fn binary_digit_two_is_refused() {
    assert_eq!(Pattern::parse("10100102", Radix::Binary), Err(PatternError::InvalidPatternSyntax));
}

#[test]
fn odd_number_of_hex_digits_is_refused() {
    assert_eq!(Pattern::parse("AAB", Radix::Hex), Err(PatternError::InvalidPatternSyntax));
    assert_eq!(Pattern::parse("A", Radix::Hex), Err(PatternError::InvalidPatternSyntax));
    assert_eq!(Pattern::parse("AA B", Radix::Hex), Err(PatternError::InvalidPatternSyntax));
}

#[test]
fn empty_literal_is_refused() {
    assert_eq!(Pattern::parse("", Radix::Hex), Err(PatternError::InvalidPatternSyntax));
    assert_eq!(Pattern::parse("  \t ", Radix::Hex), Err(PatternError::InvalidPatternSyntax));
    assert_eq!(Pattern::parse_prefixed(""), Err(PatternError::InvalidPatternSyntax));
}

#[test]
fn character_outside_the_radix_is_refused() {
    assert_eq!(Pattern::parse("AG", Radix::Hex), Err(PatternError::InvalidPatternSyntax));
    assert_eq!(Pattern::parse("A-", Radix::Hex), Err(PatternError::InvalidPatternSyntax));
    assert_eq!(Pattern::parse("A\u{e9}", Radix::Hex), Err(PatternError::InvalidPatternSyntax));
}

#[test]
fn group_that_mixes_digit_and_mark_is_refused() {
    assert_eq!(Pattern::parse("?A", Radix::Hex), Err(PatternError::InvalidPatternSyntax));
    assert_eq!(Pattern::parse("A?", Radix::Hex), Err(PatternError::InvalidPatternSyntax));
    assert_eq!(Pattern::parse("1?1", Radix::Octal), Err(PatternError::InvalidPatternSyntax));
}

#[test]
fn three_marks_in_hex_are_refused() {
    assert_eq!(Pattern::parse("???", Radix::Hex), Err(PatternError::InvalidPatternSyntax));
}

#[test]
fn prefixed_words_name_their_radix() {
    let pattern = Pattern::parse_prefixed("0x08 0x?? 0o377 0b00000011 ?").unwrap();
    assert_eq!(
        pattern.symbols().clone(),
        vec![
            Symbol::Fixed(8),
            Symbol::Wildcard,
            Symbol::Fixed(0xFF),
            Symbol::Fixed(3),
            Symbol::Wildcard
        ]
    );
}

#[test]
fn prefixed_word_with_several_groups() {
    let pattern = Pattern::parse_prefixed("0xAA??BB").unwrap();
    assert_eq!(
        pattern.symbols().clone(),
        vec![Symbol::Fixed(0xAA), Symbol::Wildcard, Symbol::Fixed(0xBB)]
    );
}

#[test]
fn prefixed_word_without_prefix_is_refused() {
    assert_eq!(Pattern::parse_prefixed("AA"), Err(PatternError::InvalidPatternSyntax));
    assert_eq!(Pattern::parse_prefixed("0xAA BB"), Err(PatternError::InvalidPatternSyntax));
    assert_eq!(Pattern::parse_prefixed("0dAA"), Err(PatternError::InvalidPatternSyntax));
}

#[test]
fn prefix_without_groups_is_refused() {
    assert_eq!(Pattern::parse_prefixed("0x"), Err(PatternError::InvalidPatternSyntax));
    assert_eq!(Pattern::parse_prefixed("0xA"), Err(PatternError::InvalidPatternSyntax));
    assert_eq!(Pattern::parse_prefixed("0"), Err(PatternError::InvalidPatternSyntax));
}

#[test]
fn pattern_from_symbols() {
    let pattern = Pattern::new(vec![Symbol::Fixed(1), Symbol::Wildcard]).unwrap();
    assert_eq!(pattern.len(), 2);
    assert_eq!(pattern.symbol(0), Symbol::Fixed(1));
    assert_eq!(pattern.symbol(1), Symbol::Wildcard);
}

#[test]
fn pattern_without_symbols_is_refused() {
    assert_eq!(Pattern::new(vec![]), Err(PatternError::InvalidPatternSyntax));
}

#[test]
fn pattern_clone_is_equal() {
    let pattern = Pattern::parse("AA ?? 01", Radix::Hex).unwrap();
    assert_eq!(pattern.clone(), pattern);
}

#[test]
fn symbol_matches_and_replaces() {
    assert!(Symbol::Fixed(7).matches(7));
    assert!(!Symbol::Fixed(7).matches(8));
    assert!(Symbol::Wildcard.matches(0));
    assert!(Symbol::Wildcard.matches(255));
    assert_eq!(Symbol::Fixed(7).replace(9), 7);
    assert_eq!(Symbol::Wildcard.replace(9), 9);
}

#[test]
fn window_must_have_the_length_of_the_pattern() {
    let pattern = Pattern::parse("AA ??", Radix::Hex).unwrap();
    assert!(pattern.matches(&[0xAA, 0x00]));
    assert!(pattern.matches(&[0xAA, 0xFF]));
    assert!(!pattern.matches(&[0xAB, 0x00]));
    assert!(!pattern.matches(&[0xAA]));
    assert!(!pattern.matches(&[0xAA, 0x00, 0x00]));
    assert!(!pattern.matches(&[]));
}

#[test]
fn substitute_keeps_bytes_at_wildcards() {
    let pattern = Pattern::parse("FF ?? 00", Radix::Hex).unwrap();
    assert_eq!(pattern.substitute(&[1, 2, 3]), vec![0xFF, 2, 0]);
}

#[test]
fn radix_widths_and_digits() {
    assert_eq!(Radix::Hex.width(), 2);
    assert_eq!(Radix::Octal.width(), 3);
    assert_eq!(Radix::Binary.width(), 8);
    assert_eq!(Radix::Hex.base(), 16);
    assert_eq!(Radix::Octal.base(), 8);
    assert_eq!(Radix::Binary.base(), 2);
    assert_eq!(Radix::Hex.digit(b'f'), Some(15));
    assert_eq!(Radix::Hex.digit(b'F'), Some(15));
    assert_eq!(Radix::Hex.digit(b'g'), None);
    assert_eq!(Radix::Octal.digit(b'7'), Some(7));
    assert_eq!(Radix::Octal.digit(b'8'), None);
    assert_eq!(Radix::Binary.digit(b'1'), Some(1));
    assert_eq!(Radix::Binary.digit(b'2'), None);
    assert_eq!(Radix::Hex.digit(b'?'), None);
}
