use bytepatch::{find, Input, MatchResult, Pattern, Pipeline, Radix, Step};

fn hex(text: &str) -> Pattern {
    Pattern::parse(text, Radix::Hex).unwrap()
}

fn lit(byte: u8) -> MatchResult {
    MatchResult::Literal(byte)
}

fn hit(offset: usize, bytes: &[u8]) -> MatchResult {
    MatchResult::Match { offset, bytes: bytes.to_vec() }
}

/// Pulls a pipeline to its end over a source that is given as a list of
/// reads, and counts the reads that were made.
fn drive(
    pattern: &Pattern,
    skip: Option<usize>,
    take: Option<usize>,
    source: Vec<Result<u8, String>>,
) -> (Vec<MatchResult>, Option<String>, usize) {
    let mut pipeline: Pipeline<String> = Pipeline::new(pattern, skip, take);
    let mut reads = source.into_iter();
    let mut made = 0;
    let mut items = Vec::new();
    let mut failure = None;
    loop {
        match pipeline.next() {
            Step::Item(item) => items.push(item),
            Step::Failed(cause) => {
                assert!(failure.is_none());
                failure = Some(cause);
            }
            Step::NeedInput => {
                assert!(pipeline.needs_input());
                made += 1;
                match reads.next() {
                    Some(Ok(byte)) => pipeline.supply(Input::Byte(byte)),
                    Some(Err(cause)) => pipeline.supply(Input::Failure(cause)),
                    None => pipeline.supply(Input::End),
                }
            }
            Step::Finished => break,
        }
    }
    assert!(matches!(pipeline.next(), Step::Finished));
    assert!(!pipeline.needs_input());
    (items, failure, made)
}

fn reads(bytes: &[u8]) -> Vec<Result<u8, String>> {
    bytes.iter().map(|byte| Ok(*byte)).collect()
}

const INPUT: [u8; 6] = [0xAA, 0xBB, 0xCC, 0xAA, 0xBB, 0xCC];

#[test]
fn stream_gives_the_items_of_the_whole_input() {
    let (items, failure, made) = drive(&hex("AA ??"), None, None, reads(&INPUT));
    assert_eq!(
        items,
        vec![hit(0, &[0xAA, 0xBB]), lit(0xCC), hit(3, &[0xAA, 0xBB]), lit(0xCC)]
    );
    assert_eq!(failure, None);
    assert_eq!(made, 7);
}

#[test]
fn stream_and_memory_agree() {
    let input: Vec<u8> = vec![1, 1, 2, 1, 2, 2, 1, 1, 1, 2, 1];
    let pattern = hex("01 ?? 02");
    for skip in 0..3 {
        for take in 0..3 {
            let (items, failure, _) = drive(&pattern, Some(skip), Some(take), reads(&input));
            assert_eq!(failure, None);
            assert_eq!(items, find(&input, &pattern, Some(skip), Some(take)));
        }
    }
}

#[test]
fn stream_of_nothing_is_finished_at_once() {
    let (items, failure, made) = drive(&hex("AA ??"), None, None, vec![]);
    assert_eq!(items, vec![]);
    assert_eq!(failure, None);
    assert_eq!(made, 1);
}

#[test]
fn skipped_match_leaves_as_literals_one_by_one() {
    let (items, _, _) = drive(&hex("AA ??"), Some(1), Some(1), reads(&INPUT));
    assert_eq!(
        items,
        vec![lit(0xAA), lit(0xBB), lit(0xCC), hit(3, &[0xAA, 0xBB]), lit(0xCC)]
    );
}

#[test]
fn held_bytes_leave_at_the_end() {
    let (items, _, _) = drive(&hex("AA BB CC"), None, None, reads(&[0x01, 0xAA, 0xBB]));
    assert_eq!(items, vec![lit(0x01), lit(0xAA), lit(0xBB)]);
}

#[test]
fn failure_comes_once_and_ends_the_sequence() {
    let mut source = reads(&[0xAA, 0xBB, 0xCC, 0xAA]);
    source.push(Err(String::from("broken pipe")));
    source.push(Ok(0xBB));
    let (items, failure, made) = drive(&hex("AA ??"), None, None, source);
    assert_eq!(items, vec![hit(0, &[0xAA, 0xBB]), lit(0xCC)]);
    assert_eq!(failure, Some(String::from("broken pipe")));
    assert_eq!(made, 5);
}

#[test]
fn failure_at_the_first_read() {
    let (items, failure, made) =
        drive(&hex("AA"), None, None, vec![Err(String::from("no such device"))]);
    assert_eq!(items, vec![]);
    assert_eq!(failure, Some(String::from("no such device")));
    assert_eq!(made, 1);
}

#[test]
fn nothing_is_read_before_it_is_asked_for() {
    let pattern = hex("AA ??");
    let mut pipeline: Pipeline<String> = Pipeline::new(&pattern, None, None);
    assert_eq!(pipeline.consumed(), 0);
    assert!(pipeline.needs_input());
    assert!(matches!(pipeline.next(), Step::NeedInput));
    pipeline.supply(Input::Byte(0xAA));
    assert!(matches!(pipeline.next(), Step::NeedInput));
    pipeline.supply(Input::Byte(0x01));
    assert_eq!(pipeline.consumed(), 2);
    assert!(!pipeline.needs_input());
    match pipeline.next() {
        Step::Item(item) => assert_eq!(item, hit(0, &[0xAA, 0x01])),
        _ => panic!("a match was due"),
    }
    assert!(pipeline.needs_input());
    assert!(matches!(pipeline.next(), Step::NeedInput));
}
