use bytepatch::{search, MatchResult, Matcher, Pattern, Radix};

fn hex(text: &str) -> Pattern {
    Pattern::parse(text, Radix::Hex).unwrap()
}

fn lit(byte: u8) -> MatchResult {
    MatchResult::Literal(byte)
}

fn hit(offset: usize, bytes: &[u8]) -> MatchResult {
    MatchResult::Match { offset, bytes: bytes.to_vec() }
}

#[test]
fn two_matches_and_the_bytes_between() {
    let input = [0xAA, 0xBB, 0xCC, 0xAA, 0xBB, 0xCC];
    assert_eq!(
        search(&input, &hex("AA ??")),
        vec![hit(0, &[0xAA, 0xBB]), lit(0xCC), hit(3, &[0xAA, 0xBB]), lit(0xCC)]
    );
}

#[test]
fn empty_input_gives_nothing() {
    assert_eq!(search(&[], &hex("AA ??")), vec![]);
}

#[test]
fn input_shorter_than_the_pattern_is_literal() {
    assert_eq!(search(&[0xAA], &hex("AA ??")), vec![lit(0xAA)]);
}

#[test]
fn short_tail_is_literal_in_order() {
    let input = [0x01, 0xAA, 0xBB, 0xAA, 0xBB];
    assert_eq!(
        search(&input, &hex("AA BB 00")),
        vec![lit(0x01), lit(0xAA), lit(0xBB), lit(0xAA), lit(0xBB)]
    );
}

#[test]
fn failed_window_moves_on_by_one_byte() {
    let input = [0xAA, 0xAA, 0xAB];
    assert_eq!(search(&input, &hex("AA AB")), vec![lit(0xAA), hit(1, &[0xAA, 0xAB])]);
}

#[test]
fn match_after_a_long_false_start() {
    let input = [1, 2, 1, 2, 3, 9];
    assert_eq!(
        search(&input, &hex("01 02 03")),
        vec![lit(1), lit(2), hit(2, &[1, 2, 3]), lit(9)]
    );
}

#[test]
fn matches_are_taken_from_the_left_and_do_not_overlap() {
    let input = [7, 7, 7, 7, 7];
    assert_eq!(search(&input, &hex("07 07")), vec![hit(0, &[7, 7]), hit(2, &[7, 7]), lit(7)]);
}

#[test]
fn pattern_of_wildcards_takes_every_window() {
    let input = [1, 2, 3, 4, 5];
    assert_eq!(search(&input, &hex("?? ??")), vec![hit(0, &[1, 2]), hit(2, &[3, 4]), lit(5)]);
}

#[test]
fn pattern_of_one_byte() {
    let input = [0, 5, 0, 0];
    assert_eq!(search(&input, &hex("00")), vec![hit(0, &[0]), lit(5), hit(2, &[0]), hit(3, &[0])]);
}

#[test]
fn whole_input_is_one_match() {
    assert_eq!(search(&[1, 2, 3], &hex("01 ?? 03")), vec![hit(0, &[1, 2, 3])]);
}

#[test]
fn matcher_holds_back_until_the_window_is_full() {
    let pattern = hex("AA ?? CC");
    let mut matcher = Matcher::new(&pattern);
    assert_eq!(matcher.push(0xAA), None);
    assert_eq!(matcher.push(0x01), None);
    assert_eq!(matcher.consumed(), 2);
    assert_eq!(matcher.offset(), 0);
    assert_eq!(matcher.push(0xCC), Some(hit(0, &[0xAA, 0x01, 0xCC])));
    assert_eq!(matcher.offset(), 3);
    assert_eq!(matcher.push(0xAA), None);
    assert_eq!(matcher.push(0xAA), None);
    assert_eq!(matcher.push(0x02), Some(lit(0xAA)));
    assert_eq!(matcher.offset(), 4);
    assert_eq!(matcher.push(0xCC), Some(hit(4, &[0xAA, 0x02, 0xCC])));
    assert_eq!(matcher.consumed(), 7);
    assert!(!matcher.is_ended());
    assert_eq!(matcher.finish(), vec![]);
    assert!(matcher.is_ended());
}

#[test]
fn matcher_gives_the_held_bytes_at_the_end() {
    let pattern = hex("AA BB CC");
    let mut matcher = Matcher::new(&pattern);
    assert_eq!(matcher.push(0xAA), None);
    assert_eq!(matcher.push(0xBB), None);
    assert_eq!(matcher.finish(), vec![lit(0xAA), lit(0xBB)]);
    assert_eq!(matcher.consumed(), 2);
}

#[test]
fn matcher_and_search_agree() {
    let pattern = hex("01 ?? 01");
    let input: Vec<u8> = vec![1, 1, 1, 0, 1, 2, 1, 1, 1, 1, 0];
    let mut matcher = Matcher::new(&pattern);
    let mut items = Vec::new();
    for byte in input.iter() {
        if let Some(item) = matcher.push(*byte) {
            items.push(item);
        }
    }
    items.extend(matcher.finish());
    assert_eq!(items, search(&input, &pattern));
}

#[test]
fn offsets_lie_apart_by_the_length_of_the_pattern() {
    let pattern = hex("?? 00");
    let input: Vec<u8> = vec![0, 0, 0, 0, 1, 0, 0, 1, 1, 0, 0, 0];
    let mut last: Option<usize> = None;
    for item in search(&input, &pattern) {
        if let MatchResult::Match { offset, bytes } = item {
            assert_eq!(bytes, input[offset..offset + 2].to_vec());
            if let Some(before) = last {
                assert!(offset >= before + 2);
            }
            last = Some(offset);
        }
    }
    assert_eq!(last, Some(10));
}

#[test]
fn item_clone_is_equal() {
    let item = hit(4, &[1, 2]);
    assert_eq!(item.clone(), item);
    assert_eq!(lit(3).clone(), lit(3));
}
