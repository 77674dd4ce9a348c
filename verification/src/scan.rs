//! The scan: which windows of the input are reported as matches.
//!
//! Scanning goes from offset 0 to the end. At a candidate offset the next
//! window of the pattern's length is compared with the pattern. A window
//! that matches is reported and the scan goes on behind it; otherwise the
//! byte at the candidate offset is a literal and the scan goes on one byte
//! further. Fewer bytes than the pattern is long can never match.
use vstd::prelude::*;
use crate::pattern::{Symbol, window_matches};
use crate::tagged::{Tagged, literals, plain};

verus! {

/// Whether the window that starts at offset `i` lies inside `input` and
/// matches the pattern.
pub open spec fn matches_at(pattern: Seq<Symbol>, input: Seq<u8>, i: int) -> bool {
    &&& 0 <= i
    &&& pattern.len() >= 1
    &&& i + pattern.len() <= input.len()
    &&& window_matches(pattern, input.subrange(i, i + pattern.len()))
}

/// The tagged sequence for the part of a complete input that starts at the
/// candidate offset `i`.
pub open spec fn scan_from(pattern: Seq<Symbol>, input: Seq<u8>, i: int) -> Seq<Tagged>
    decreases input.len() - i,
{
    if i < 0 || i >= input.len() {
        Seq::empty()
    } else if matches_at(pattern, input, i) {
        seq![Tagged::Match { offset: i, bytes: input.subrange(i, i + pattern.len()) }]
            + scan_from(pattern, input, i + pattern.len())
    } else {
        seq![Tagged::Literal(input[i])] + scan_from(pattern, input, i + 1)
    }
}

/// The tagged sequence for a complete input.
pub open spec fn scan(pattern: Seq<Symbol>, input: Seq<u8>) -> Seq<Tagged> {
    scan_from(pattern, input, 0)
}

/// The first candidate offset at or after `i` whose window does not yet lie
/// inside `input`: up to there the scan is settled whatever bytes follow.
pub open spec fn frontier_from(pattern: Seq<Symbol>, input: Seq<u8>, i: int) -> int
    decreases input.len() - i,
{
    if i < 0 || i >= input.len() || i + pattern.len() > input.len() {
        i
    } else if matches_at(pattern, input, i) {
        frontier_from(pattern, input, i + pattern.len())
    } else {
        frontier_from(pattern, input, i + 1)
    }
}

/// The items, from candidate offset `i` on, that the bytes of `input`
/// settle whatever bytes follow them.
pub open spec fn settled_from(pattern: Seq<Symbol>, input: Seq<u8>, i: int) -> Seq<Tagged>
    decreases input.len() - i,
{
    if i < 0 || i >= input.len() || i + pattern.len() > input.len() {
        Seq::empty()
    } else if matches_at(pattern, input, i) {
        seq![Tagged::Match { offset: i, bytes: input.subrange(i, i + pattern.len()) }]
            + settled_from(pattern, input, i + pattern.len())
    } else {
        seq![Tagged::Literal(input[i])] + settled_from(pattern, input, i + 1)
    }
}

/// The first offset that a prefix `input` of a longer stream leaves open.
pub open spec fn frontier(pattern: Seq<Symbol>, input: Seq<u8>) -> int {
    frontier_from(pattern, input, 0)
}

/// The items that a prefix `input` of a longer stream settles.
pub open spec fn settled(pattern: Seq<Symbol>, input: Seq<u8>) -> Seq<Tagged> {
    settled_from(pattern, input, 0)
}

/// The frontier lies at or after the start, inside the input, and fewer
/// bytes than the pattern is long lie behind it.
pub proof fn lemma_frontier_bounds(pattern: Seq<Symbol>, input: Seq<u8>, i: int)
    requires
        0 <= i <= input.len(),
        pattern.len() >= 1,
    ensures
        i <= frontier_from(pattern, input, i) <= input.len(),
        input.len() - frontier_from(pattern, input, i) < pattern.len(),
    decreases input.len() - i,
{
    if i >= input.len() || i + pattern.len() > input.len() {
    } else if matches_at(pattern, input, i) {
        lemma_frontier_bounds(pattern, input, i + pattern.len());
    } else {
        lemma_frontier_bounds(pattern, input, i + 1);
    }
}

/// Each settled item stands for at least one byte before the frontier.
pub proof fn lemma_settled_len(pattern: Seq<Symbol>, input: Seq<u8>, i: int)
    requires
        0 <= i <= input.len(),
        pattern.len() >= 1,
    ensures
        settled_from(pattern, input, i).len() <= frontier_from(pattern, input, i) - i,
    decreases input.len() - i,
{
    if i >= input.len() || i + pattern.len() > input.len() {
    } else if matches_at(pattern, input, i) {
        lemma_settled_len(pattern, input, i + pattern.len());
    } else {
        lemma_settled_len(pattern, input, i + 1);
    }
}

/// More input leaves what was settled as it is: the settled items of the
/// longer input are those of the shorter one, followed by what the longer
/// input settles from the shorter one's frontier on.
pub proof fn lemma_settled_extend(pattern: Seq<Symbol>, input: Seq<u8>, more: Seq<u8>, i: int)
    requires
        0 <= i <= input.len(),
        pattern.len() >= 1,
    ensures
        settled_from(pattern, input + more, i) == settled_from(pattern, input, i) + settled_from(
            pattern,
            input + more,
            frontier_from(pattern, input, i),
        ),
        frontier_from(pattern, input + more, i) == frontier_from(
            pattern,
            input + more,
            frontier_from(pattern, input, i),
        ),
    decreases input.len() - i,
{
    let longer = input + more;
    let n = pattern.len() as int;
    if i >= input.len() || i + n > input.len() {
        assert(settled_from(pattern, input, i) + settled_from(pattern, longer, i)
            =~= settled_from(pattern, longer, i));
    } else {
        assert(longer.subrange(i, i + n) =~= input.subrange(i, i + n));
        assert(longer[i] == input[i]);
        if matches_at(pattern, input, i) {
            assert(matches_at(pattern, longer, i));
            lemma_settled_extend(pattern, input, more, i + n);
            let head = seq![Tagged::Match { offset: i, bytes: input.subrange(i, i + n) }];
            assert((head + settled_from(pattern, input, i + n)) + settled_from(
                pattern,
                longer,
                frontier_from(pattern, input, i + n),
            ) =~= head + (settled_from(pattern, input, i + n) + settled_from(
                pattern,
                longer,
                frontier_from(pattern, input, i + n),
            )));
        } else {
            assert(!matches_at(pattern, longer, i));
            lemma_settled_extend(pattern, input, more, i + 1);
            let head = seq![Tagged::Literal(input[i])];
            assert((head + settled_from(pattern, input, i + 1)) + settled_from(
                pattern,
                longer,
                frontier_from(pattern, input, i + 1),
            ) =~= head + (settled_from(pattern, input, i + 1) + settled_from(
                pattern,
                longer,
                frontier_from(pattern, input, i + 1),
            )));
        }
    }
}

/// Where fewer bytes than the pattern is long are left, they are literals.
pub proof fn lemma_short_tail(pattern: Seq<Symbol>, input: Seq<u8>, i: int)
    requires
        0 <= i <= input.len(),
        i + pattern.len() > input.len(),
    ensures
        scan_from(pattern, input, i) == literals(input.skip(i)),
    decreases input.len() - i,
{
    if i >= input.len() {
        assert(scan_from(pattern, input, i) =~= literals(input.skip(i)));
    } else {
        lemma_short_tail(pattern, input, i + 1);
        assert(input.skip(i + 1) =~= input.skip(i).skip(1));
        assert(seq![Tagged::Literal(input[i])] + literals(input.skip(i + 1)) =~= literals(
            input.skip(i),
        ));
    }
}

/// At the end of the input the scan is what was settled, followed by the
/// bytes behind the frontier as literals.
pub proof fn lemma_scan_closes(pattern: Seq<Symbol>, input: Seq<u8>, i: int)
    requires
        0 <= i <= input.len(),
        pattern.len() >= 1,
    ensures
        scan_from(pattern, input, i) == settled_from(pattern, input, i) + literals(
            input.skip(frontier_from(pattern, input, i)),
        ),
    decreases input.len() - i,
{
    let n = pattern.len() as int;
    if i >= input.len() || i + n > input.len() {
        lemma_short_tail(pattern, input, i);
        assert(settled_from(pattern, input, i) + literals(input.skip(i)) =~= literals(
            input.skip(i),
        ));
    } else if matches_at(pattern, input, i) {
        lemma_scan_closes(pattern, input, i + n);
        let head = seq![Tagged::Match { offset: i, bytes: input.subrange(i, i + n) }];
        let tail = literals(input.skip(frontier_from(pattern, input, i + n)));
        assert(head + (settled_from(pattern, input, i + n) + tail) =~= (head + settled_from(
            pattern,
            input,
            i + n,
        )) + tail);
    } else {
        lemma_scan_closes(pattern, input, i + 1);
        let head = seq![Tagged::Literal(input[i])];
        let tail = literals(input.skip(frontier_from(pattern, input, i + 1)));
        assert(head + (settled_from(pattern, input, i + 1) + tail) =~= (head + settled_from(
            pattern,
            input,
            i + 1,
        )) + tail);
    }
}

/// Every match of the scan from `i` on starts at or after `i`, lies inside
/// the input, covers exactly the bytes found there, and those bytes match
/// the pattern.
pub proof fn lemma_scan_from_sound(pattern: Seq<Symbol>, input: Seq<u8>, i: int)
    requires
        0 <= i,
    ensures
        forall|k: int|
            0 <= k < scan_from(pattern, input, i).len() ==> (#[trigger] scan_from(
                pattern,
                input,
                i,
            )[k] matches Tagged::Match { offset, bytes } ==> {
                &&& i <= offset
                &&& matches_at(pattern, input, offset)
                &&& bytes == input.subrange(offset, offset + pattern.len())
            }),
    decreases input.len() - i,
{
    let items = scan_from(pattern, input, i);
    if i >= input.len() {
    } else {
        let next = if matches_at(pattern, input, i) {
            i + pattern.len()
        } else {
            i + 1
        };
        lemma_scan_from_sound(pattern, input, next);
        let rest = scan_from(pattern, input, next);
        assert forall|k: int| 0 <= k < items.len() implies (#[trigger] items[k] matches Tagged::Match {
            offset,
            bytes,
        } ==> {
            &&& i <= offset
            &&& matches_at(pattern, input, offset)
            &&& bytes == input.subrange(offset, offset + pattern.len())
        }) by {
            if k > 0 {
                assert(items[k] == rest[k - 1]);
            }
        }
    }
}

/// Of two matches of the scan from `i` on, the later one starts behind the
/// end of the earlier one.
pub proof fn lemma_scan_from_ordered(pattern: Seq<Symbol>, input: Seq<u8>, i: int)
    requires
        0 <= i,
    ensures
        forall|a: int, b: int|
            0 <= a < b < scan_from(pattern, input, i).len() ==> (#[trigger] scan_from(
                pattern,
                input,
                i,
            )[a] matches Tagged::Match { offset: first, .. } ==> (#[trigger] scan_from(
                pattern,
                input,
                i,
            )[b] matches Tagged::Match { offset: second, .. } ==> first + pattern.len()
                <= second)),
    decreases input.len() - i,
{
    let items = scan_from(pattern, input, i);
    if i >= input.len() {
    } else {
        let next = if matches_at(pattern, input, i) {
            i + pattern.len()
        } else {
            i + 1
        };
        lemma_scan_from_ordered(pattern, input, next);
        lemma_scan_from_sound(pattern, input, next);
        let rest = scan_from(pattern, input, next);
        assert forall|a: int, b: int| 0 <= a < b < items.len() implies (#[trigger] items[a] matches Tagged::Match {
            offset: first,
            ..
        } ==> (#[trigger] items[b] matches Tagged::Match { offset: second, .. } ==> first
            + pattern.len() <= second)) by {
            assert(items[b] == rest[b - 1]);
            if a > 0 {
                assert(items[a] == rest[a - 1]);
            }
        }
    }
}

/// The scan from `i` on stands for the bytes from `i` on: each exactly once
/// and in order.
pub proof fn lemma_scan_from_plain(pattern: Seq<Symbol>, input: Seq<u8>, i: int)
    requires
        0 <= i <= input.len(),
    ensures
        plain(scan_from(pattern, input, i)) == input.skip(i),
    decreases input.len() - i,
{
    let items = scan_from(pattern, input, i);
    if i >= input.len() {
        assert(plain(items) =~= input.skip(i));
    } else if matches_at(pattern, input, i) {
        let n = pattern.len() as int;
        lemma_scan_from_plain(pattern, input, i + n);
        assert(items.skip(1) =~= scan_from(pattern, input, i + n));
        assert(input.subrange(i, i + n) + input.skip(i + n) =~= input.skip(i));
    } else {
        lemma_scan_from_plain(pattern, input, i + 1);
        assert(items.skip(1) =~= scan_from(pattern, input, i + 1));
        assert(seq![input[i]] + input.skip(i + 1) =~= input.skip(i));
    }
}

} // verus!
