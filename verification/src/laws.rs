//! What holds of every run: of the scan, of the filter behind it, and of
//! the replacer behind both.
use vstd::prelude::*;
use crate::ordinal::{lemma_filter_keeps_bytes, lemma_filter_preserves, ordinal_filter};
use crate::pattern::{Symbol, substitute};
use crate::replace::{
    lemma_output_len, lemma_output_unchanged, lemma_substitute_matching,
    lemma_substitute_wildcards, output, spans_fit,
};
use crate::scan::{
    lemma_scan_from_ordered, lemma_scan_from_plain, lemma_scan_from_sound, matches_at, scan,
};
use crate::tagged::{Tagged, plain};

verus! {

/// Whether `item` is a match that covers, in `input`, the window at its
/// offset, and that window matches the pattern.
pub open spec fn is_occurrence_in(pattern: Seq<Symbol>, input: Seq<u8>, item: Tagged) -> bool {
    item matches Tagged::Match { offset, bytes } && matches_at(pattern, input, offset) && bytes
        == input.subrange(offset, offset + pattern.len())
}

/// Every match that is reported, with or without a filter, lies at its
/// offset in the input: it covers the bytes found there, and they match the
/// pattern.
pub proof fn lemma_matches_are_occurrences(
    pattern: Seq<Symbol>,
    input: Seq<u8>,
    skip: nat,
    take: Option<nat>,
)
    ensures
        forall|k: int|
            0 <= k < scan(pattern, input).len() && #[trigger] scan(pattern, input)[k] is Match
                ==> is_occurrence_in(pattern, input, scan(pattern, input)[k]),
        forall|k: int|
            0 <= k < ordinal_filter(scan(pattern, input), skip, take).len()
                && #[trigger] ordinal_filter(scan(pattern, input), skip, take)[k] is Match
                ==> is_occurrence_in(
                pattern,
                input,
                ordinal_filter(scan(pattern, input), skip, take)[k],
            ),
        spans_fit(ordinal_filter(scan(pattern, input), skip, take), pattern.len()),
{
    let items = scan(pattern, input);
    lemma_scan_from_sound(pattern, input, 0);
    lemma_filter_preserves(
        items,
        skip,
        take,
        |item: Tagged| is_occurrence_in(pattern, input, item),
    );
}

/// Searching a pattern and writing the same pattern over its matches gives
/// back the input, byte for byte, whichever matches the filter keeps. This
/// holds of a pattern without wildcards and of one with wildcards alike.
pub proof fn lemma_replace_with_itself(
    pattern: Seq<Symbol>,
    input: Seq<u8>,
    skip: nat,
    take: Option<nat>,
)
    ensures
        output(pattern, ordinal_filter(scan(pattern, input), skip, take)) == input,
{
    let filtered = ordinal_filter(scan(pattern, input), skip, take);
    lemma_matches_are_occurrences(pattern, input, skip, take);
    assert forall|k: int| 0 <= k < filtered.len() implies (#[trigger] filtered[k] matches Tagged::Match {
        bytes,
        ..
    } ==> substitute(pattern, bytes) == bytes) by {
        match filtered[k] {
            Tagged::Match { bytes, .. } => {
                assert(is_occurrence_in(pattern, input, filtered[k]));
                lemma_substitute_matching(pattern, bytes);
            },
            Tagged::Literal(_) => {},
        }
    }
    lemma_output_unchanged(pattern, filtered);
    lemma_bytes_conserved(pattern, pattern, input, skip, take);
}

/// No byte is lost, added or moved. The tagged sequence, filtered or not,
/// stands for the bytes of the input, each once and in order; and what the
/// replacer writes for it, with any replacement, is as long as the input.
pub proof fn lemma_bytes_conserved(
    pattern: Seq<Symbol>,
    replacement: Seq<Symbol>,
    input: Seq<u8>,
    skip: nat,
    take: Option<nat>,
)
    ensures
        plain(scan(pattern, input)) == input,
        plain(ordinal_filter(scan(pattern, input), skip, take)) == input,
        output(replacement, ordinal_filter(scan(pattern, input), skip, take)).len()
            == input.len(),
{
    lemma_scan_from_plain(pattern, input, 0);
    assert(input.skip(0) =~= input);
    lemma_filter_keeps_bytes(scan(pattern, input), skip, take);
    lemma_output_len(replacement, ordinal_filter(scan(pattern, input), skip, take));
}

/// Matches do not overlap: of two matches of one scan, the one with the
/// greater offset starts at or behind the end of the other. In the tagged
/// sequence the matches stand in the order of their offsets.
pub proof fn lemma_matches_do_not_overlap(pattern: Seq<Symbol>, input: Seq<u8>)
    ensures
        forall|a: int, b: int|
            0 <= a < scan(pattern, input).len() && 0 <= b < scan(pattern, input).len() ==> (
            #[trigger] scan(pattern, input)[a] matches Tagged::Match { offset: first, .. } ==> (
            #[trigger] scan(pattern, input)[b] matches Tagged::Match { offset: second, .. } ==> {
                &&& first < second ==> first + pattern.len() <= second
                &&& a < b ==> first + pattern.len() <= second
            })),
{
    lemma_scan_from_ordered(pattern, input, 0);
}

/// Whether `item` is one of the items of `items`.
pub open spec fn is_among(items: Seq<Tagged>, item: Tagged) -> bool {
    exists|k: int| 0 <= k < items.len() && #[trigger] items[k] == item
}

/// The matches that a filter leaves do not overlap either: each of them is
/// a match of the scan.
pub proof fn lemma_kept_matches_do_not_overlap(
    pattern: Seq<Symbol>,
    input: Seq<u8>,
    skip: nat,
    take: Option<nat>,
)
    ensures
        forall|a: int, b: int|
            0 <= a < ordinal_filter(scan(pattern, input), skip, take).len() && 0 <= b
                < ordinal_filter(scan(pattern, input), skip, take).len() ==> (
            #[trigger] ordinal_filter(scan(pattern, input), skip, take)[a] matches Tagged::Match {
                offset: first,
                ..
            } ==> (#[trigger] ordinal_filter(
                scan(pattern, input),
                skip,
                take,
            )[b] matches Tagged::Match { offset: second, .. } ==> (first < second ==> first
                + pattern.len() <= second))),
{
    let items = scan(pattern, input);
    let kept = ordinal_filter(items, skip, take);
    lemma_matches_do_not_overlap(pattern, input);
    assert forall|k: int| 0 <= k < items.len() && #[trigger] items[k] is Match implies is_among(
        items,
        items[k],
    ) by {}
    lemma_filter_preserves(items, skip, take, |item: Tagged| is_among(items, item));
    assert forall|a: int, b: int| 0 <= a < kept.len() && 0 <= b < kept.len() implies (
    #[trigger] kept[a] matches Tagged::Match { offset: first, .. } ==> (
    #[trigger] kept[b] matches Tagged::Match { offset: second, .. } ==> (first < second ==> first
        + pattern.len() <= second))) by {
        if kept[a] is Match && kept[b] is Match {
            assert(is_among(items, kept[a]));
            assert(is_among(items, kept[b]));
            let i = choose|i: int| 0 <= i < items.len() && #[trigger] items[i] == kept[a];
            let j = choose|j: int| 0 <= j < items.len() && #[trigger] items[j] == kept[b];
            assert(items[i] == kept[a] && items[j] == kept[b]);
        }
    }
}

/// A replacement of wildcards alone changes nothing: what is written is the
/// input.
pub proof fn lemma_wildcards_replace_nothing(
    pattern: Seq<Symbol>,
    replacement: Seq<Symbol>,
    input: Seq<u8>,
    skip: nat,
    take: Option<nat>,
)
    requires
        forall|k: int| 0 <= k < replacement.len() ==> replacement[k] is Wildcard,
    ensures
        output(replacement, ordinal_filter(scan(pattern, input), skip, take)) == input,
{
    let filtered = ordinal_filter(scan(pattern, input), skip, take);
    assert forall|k: int| 0 <= k < filtered.len() implies (#[trigger] filtered[k] matches Tagged::Match {
        bytes,
        ..
    } ==> substitute(replacement, bytes) == bytes) by {
        match filtered[k] {
            Tagged::Match { bytes, .. } => {
                lemma_substitute_wildcards(replacement, bytes);
            },
            Tagged::Literal(_) => {},
        }
    }
    lemma_output_unchanged(replacement, filtered);
    lemma_bytes_conserved(pattern, replacement, input, skip, take);
}

} // verus!
