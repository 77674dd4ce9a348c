use bytepatch::{find, patch, MatchResult, Pattern, PatternError, Radix, Replacer};

fn hex(text: &str) -> Pattern {
    Pattern::parse(text, Radix::Hex).unwrap()
}

const INPUT: [u8; 6] = [0xAA, 0xBB, 0xCC, 0xAA, 0xBB, 0xCC];

#[test]
fn replacement_wildcard_keeps_the_matched_byte() {
    assert_eq!(
        patch(&INPUT, &hex("AA ??"), &hex("FF ?"), None, None),
        Ok(vec![0xFF, 0xBB, 0xCC, 0xFF, 0xBB, 0xCC])
    );
}

#[test]
fn only_the_match_in_the_window_is_replaced() {
    assert_eq!(
        patch(&INPUT, &hex("AA ??"), &hex("00 00"), Some(1), Some(1)),
        Ok(vec![0xAA, 0xBB, 0xCC, 0x00, 0x00, 0xCC])
    );
}

#[test]
fn replacement_of_other_length_is_refused() {
    assert_eq!(
        patch(&INPUT, &hex("AA ??"), &hex("00 00 00"), None, None),
        Err(PatternError::PatternLengthMismatch)
    );
    assert_eq!(
        patch(&INPUT, &hex("AA ??"), &hex("00"), None, None),
        Err(PatternError::PatternLengthMismatch)
    );
    let search = hex("AA ??");
    let longer = hex("00 00 00");
    assert!(matches!(Replacer::new(&search, &longer), Err(PatternError::PatternLengthMismatch)));
}

#[test]
fn replacing_a_pattern_by_itself_changes_nothing() {
    let input = [1u8, 2, 3, 1, 2, 1, 2, 3, 3];
    let pattern = hex("01 02 03");
    assert_eq!(patch(&input, &pattern, &pattern, None, None), Ok(input.to_vec()));
    let wild = hex("01 ?? 03");
    assert_eq!(patch(&input, &wild, &wild, None, None), Ok(input.to_vec()));
}

#[test]
fn replacement_of_wildcards_changes_nothing() {
    let input = [1u8, 2, 3, 1, 2, 1, 2, 3, 3];
    assert_eq!(patch(&input, &hex("01 02"), &hex("?? ??"), None, None), Ok(input.to_vec()));
    assert_eq!(patch(&input, &hex("?? ??"), &hex("?? ??"), Some(1), Some(2)), Ok(input.to_vec()));
}

#[test]
fn output_is_as_long_as_the_input() {
    let input = [9u8, 9, 9, 1, 9, 9, 9, 9, 1];
    for skip in 0..4 {
        for take in 0..4 {
            let out = patch(&input, &hex("09 ??"), &hex("?? 07"), Some(skip), Some(take)).unwrap();
            assert_eq!(out.len(), input.len());
        }
    }
}

#[test]
fn blind_overwrite_with_a_pattern_of_wildcards() {
    let input = [1u8, 2, 3, 4, 5];
    assert_eq!(
        patch(&input, &hex("?? ??"), &hex("00 ??"), None, None),
        Ok(vec![0, 2, 0, 4, 5])
    );
}

#[test]
fn empty_input_gives_empty_output() {
    assert_eq!(patch(&[], &hex("AA"), &hex("BB"), None, None), Ok(vec![]));
}

#[test]
fn replacer_writes_item_by_item() {
    let search = hex("AA ??");
    let replacement = hex("?? 11");
    let replacer = Replacer::new(&search, &replacement).unwrap();
    assert_eq!(replacer.len(), 2);
    assert_eq!(replacer.apply(&MatchResult::Literal(5)), vec![5]);
    assert_eq!(
        replacer.apply(&MatchResult::Match { offset: 7, bytes: vec![0xAA, 0x22] }),
        vec![0xAA, 0x11]
    );
    let items = find(&INPUT, &search, None, Some(1));
    assert_eq!(replacer.apply_all(&items), vec![0xAA, 0x11, 0xCC, 0xAA, 0xBB, 0xCC]);
}

#[test]
fn replacer_appends_to_what_is_there() {
    let search = hex("AA ??");
    let replacement = hex("00 ??");
    let replacer = Replacer::new(&search, &replacement).unwrap();
    let mut out = vec![1u8];
    replacer.apply_into(&MatchResult::Literal(2), &mut out);
    replacer.apply_into(&MatchResult::Match { offset: 2, bytes: vec![0xAA, 3] }, &mut out);
    assert_eq!(out, vec![1, 2, 0, 3]);
}
