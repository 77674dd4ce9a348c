use bytepatch::{filter_matches, find, MatchResult, OrdinalFilter, Pattern, Radix};

fn hex(text: &str) -> Pattern {
    Pattern::parse(text, Radix::Hex).unwrap()
}

fn lit(byte: u8) -> MatchResult {
    MatchResult::Literal(byte)
}

fn hit(offset: usize, bytes: &[u8]) -> MatchResult {
    MatchResult::Match { offset, bytes: bytes.to_vec() }
}

fn kept_offsets(items: &[MatchResult]) -> Vec<usize> {
    let mut offsets = Vec::new();
    for item in items {
        if let MatchResult::Match { offset, .. } = item {
            offsets.push(*offset);
        }
    }
    offsets
}

const INPUT: [u8; 6] = [0xAA, 0xBB, 0xCC, 0xAA, 0xBB, 0xCC];

#[test]
fn no_skip_and_no_take_keep_every_match() {
    assert_eq!(
        find(&INPUT, &hex("AA ??"), None, None),
        vec![hit(0, &[0xAA, 0xBB]), lit(0xCC), hit(3, &[0xAA, 0xBB]), lit(0xCC)]
    );
}

#[test]
fn skip_one_take_one_keeps_the_second_match() {
    assert_eq!(
        find(&INPUT, &hex("AA ??"), Some(1), Some(1)),
        vec![lit(0xAA), lit(0xBB), lit(0xCC), hit(3, &[0xAA, 0xBB]), lit(0xCC)]
    );
}

#[test]
fn take_one_keeps_the_first_match() {
    assert_eq!(
        find(&INPUT, &hex("AA ??"), None, Some(1)),
        vec![hit(0, &[0xAA, 0xBB]), lit(0xCC), lit(0xAA), lit(0xBB), lit(0xCC)]
    );
}

#[test]
fn take_nothing_keeps_no_match() {
    assert_eq!(
        find(&INPUT, &hex("AA ??"), None, Some(0)),
        vec![lit(0xAA), lit(0xBB), lit(0xCC), lit(0xAA), lit(0xBB), lit(0xCC)]
    );
}

#[test]
fn skip_past_the_last_match_keeps_no_match() {
    assert_eq!(kept_offsets(&find(&INPUT, &hex("AA ??"), Some(2), None)), Vec::<usize>::new());
    assert_eq!(kept_offsets(&find(&INPUT, &hex("AA ??"), Some(usize::MAX), Some(usize::MAX))), Vec::<usize>::new());
}

#[test]
fn window_of_ordinals_is_kept_in_order() {
    let input = [0u8; 10];
    let pattern = hex("00");
    assert_eq!(kept_offsets(&find(&input, &pattern, Some(3), Some(4))), vec![3, 4, 5, 6]);
    assert_eq!(kept_offsets(&find(&input, &pattern, Some(8), Some(4))), vec![8, 9]);
    assert_eq!(kept_offsets(&find(&input, &pattern, Some(8), None)), vec![8, 9]);
    assert_eq!(kept_offsets(&find(&input, &pattern, None, Some(2))), vec![0, 1]);
    assert_eq!(kept_offsets(&find(&input, &pattern, Some(1), Some(usize::MAX))).len(), 9);
}

#[test]
fn filtering_keeps_the_number_of_bytes() {
    let input = [1u8, 2, 1, 2, 1, 2, 3, 1, 2];
    let pattern = hex("01 02");
    for skip in 0..5 {
        for take in 0..5 {
            let items = find(&input, &pattern, Some(skip), Some(take));
            let mut bytes = Vec::new();
            for item in items {
                match item {
                    MatchResult::Literal(byte) => bytes.push(byte),
                    MatchResult::Match { bytes: span, .. } => bytes.extend(span),
                }
            }
            assert_eq!(bytes, input.to_vec());
        }
    }
}

#[test]
fn filter_counts_matches_and_not_literals() {
    let mut filter = OrdinalFilter::new(Some(1), Some(1));
    assert!(!filter.keeps_next());
    assert_eq!(filter.apply(lit(9)), vec![lit(9)]);
    assert_eq!(filter.matches_seen(), 0);
    assert_eq!(filter.apply(hit(1, &[5, 6])), vec![lit(5), lit(6)]);
    assert_eq!(filter.matches_seen(), 1);
    assert!(filter.keeps_next());
    assert_eq!(filter.apply(lit(9)), vec![lit(9)]);
    assert_eq!(filter.apply(hit(4, &[5, 6])), vec![hit(4, &[5, 6])]);
    assert_eq!(filter.matches_seen(), 2);
    assert!(!filter.keeps_next());
    assert_eq!(filter.apply(hit(6, &[5, 6])), vec![lit(5), lit(6)]);
    assert_eq!(filter.matches_seen(), 3);
}

#[test]
fn filter_of_a_sequence_in_memory() {
    let items = vec![hit(0, &[1]), lit(2), hit(2, &[1]), hit(3, &[1])];
    assert_eq!(
        filter_matches(&items, Some(1), Some(1)),
        vec![lit(1), lit(2), hit(2, &[1]), lit(1)]
    );
    assert_eq!(filter_matches(&items, None, None), items);
    assert_eq!(filter_matches(&[], Some(1), Some(1)), vec![]);
}

#[test]
fn filter_appends_to_what_is_there() {
    let mut filter = OrdinalFilter::new(None, Some(1));
    let mut out = vec![lit(0)];
    filter.apply_into(hit(1, &[7, 8]), &mut out);
    filter.apply_into(lit(3), &mut out);
    filter.apply_into(hit(4, &[7, 8]), &mut out);
    assert_eq!(out, vec![lit(0), hit(1, &[7, 8]), lit(3), lit(7), lit(8)]);
    assert_eq!(filter.matches_seen(), 2);
}
