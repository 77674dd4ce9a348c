//! The ordinal filter: of the matches, counted in the order in which they
//! are found, only those of a window `[skip, skip + take)` stay matches. The
//! others become the literal bytes they cover, so that no byte is lost.
use vstd::prelude::*;
use crate::tagged::{
    MatchResult, Tagged, lemma_match_count_bound, lemma_matches_concat, lemma_matches_literals,
    lemma_matches_single, lemma_plain_concat, lemma_plain_literals, lemma_plain_single, literals, match_count, matches_of, plain,
};

verus! {

/// Whether the match with the zero-based ordinal `ordinal` lies in the
/// window: `skip` matches come before it, and fewer than `take` matches of
/// the window do. No `take` means no upper end.
pub open spec fn in_window(ordinal: nat, skip: nat, take: Option<nat>) -> bool {
    &&& skip <= ordinal
    &&& match take {
        Some(count) => ordinal < skip + count,
        None => true,
    }
}

/// What the filter makes of one item: a literal stays; a match stays if it
/// is kept, and else becomes its bytes as literals.
pub open spec fn filter_item(item: Tagged, keep: bool) -> Seq<Tagged> {
    match item {
        Tagged::Literal(_) => seq![item],
        Tagged::Match { bytes, .. } => if keep {
            seq![item]
        } else {
            literals(bytes)
        },
    }
}

/// The filtered sequence. The ordinal of a match is the number of matches
/// before it.
pub open spec fn ordinal_filter(items: Seq<Tagged>, skip: nat, take: Option<nat>) -> Seq<Tagged>
    decreases items.len(),
{
    if items.len() == 0 {
        Seq::empty()
    } else {
        ordinal_filter(items.drop_last(), skip, take) + filter_item(
            items.last(),
            in_window(match_count(items.drop_last()), skip, take),
        )
    }
}

/// The model of a number of matches to pass over: none where it is absent.
pub open spec fn skip_view(skip: Option<usize>) -> nat {
    match skip {
        Some(count) => count as nat,
        None => 0,
    }
}

/// The model of a limit that may be absent.
pub open spec fn limit_view(limit: Option<usize>) -> Option<nat> {
    match limit {
        Some(count) => Some(count as nat),
        None => None,
    }
}

/// The filter of a sequence with one more item.
pub proof fn lemma_filter_push(items: Seq<Tagged>, item: Tagged, skip: nat, take: Option<nat>)
    ensures
        ordinal_filter(items.push(item), skip, take) == ordinal_filter(items, skip, take)
            + filter_item(item, in_window(match_count(items), skip, take)),
        match_count(items.push(item)) == match_count(items) + if item is Match {
            1nat
        } else {
            0nat
        },
{
    assert(items.push(item).drop_last() =~= items);
}

/// The filter of a concatenation: the second part is filtered with the
/// ordinals going on from the matches of the first.
pub proof fn lemma_filter_literals_tail(
    items: Seq<Tagged>,
    bytes: Seq<u8>,
    skip: nat,
    take: Option<nat>,
)
    ensures
        ordinal_filter(items + literals(bytes), skip, take) == ordinal_filter(items, skip, take)
            + literals(bytes),
    decreases bytes.len(),
{
    if bytes.len() == 0 {
        assert(items + literals(bytes) =~= items);
        assert(ordinal_filter(items, skip, take) + literals(bytes) =~= ordinal_filter(
            items,
            skip,
            take,
        ));
    } else {
        let whole = items + literals(bytes);
        let init = bytes.drop_last();
        assert(whole.drop_last() =~= items + literals(init));
        assert(whole.last() == Tagged::Literal(bytes.last()));
        lemma_filter_literals_tail(items, init, skip, take);
        assert((ordinal_filter(items, skip, take) + literals(init)) + seq![
            Tagged::Literal(bytes.last()),
        ] =~= ordinal_filter(items, skip, take) + literals(bytes));
    }
}

/// Filtering loses no byte and moves none: the filtered sequence stands for
/// the same bytes as the unfiltered one.
pub proof fn lemma_filter_keeps_bytes(items: Seq<Tagged>, skip: nat, take: Option<nat>)
    ensures
        plain(ordinal_filter(items, skip, take)) == plain(items),
    decreases items.len(),
{
    if items.len() > 0 {
        let init = items.drop_last();
        let last = items.last();
        let keep = in_window(match_count(init), skip, take);
        lemma_filter_keeps_bytes(init, skip, take);
        lemma_plain_concat(ordinal_filter(init, skip, take), filter_item(last, keep));
        assert(items =~= init + seq![last]);
        lemma_plain_concat(init, seq![last]);
        assert(plain(filter_item(last, keep)) == plain(seq![last])) by {
            lemma_plain_single(last);
            match last {
                Tagged::Literal(_) => {},
                Tagged::Match { bytes, .. } => {
                    if !keep {
                        lemma_plain_literals(bytes);
                    }
                },
            }
        }
    }
}

/// The filter makes no match of its own: what holds of every match that
/// goes in holds of every match that comes out.
pub proof fn lemma_filter_preserves(
    items: Seq<Tagged>,
    skip: nat,
    take: Option<nat>,
    holds: spec_fn(Tagged) -> bool,
)
    requires
        forall|k: int| 0 <= k < items.len() && #[trigger] items[k] is Match ==> holds(items[k]),
    ensures
        forall|k: int|
            0 <= k < ordinal_filter(items, skip, take).len() && #[trigger] ordinal_filter(
                items,
                skip,
                take,
            )[k] is Match ==> holds(ordinal_filter(items, skip, take)[k]),
    decreases items.len(),
{
    if items.len() > 0 {
        let init = items.drop_last();
        let last = items.last();
        let head = ordinal_filter(init, skip, take);
        let part = filter_item(last, in_window(match_count(init), skip, take));
        let whole = ordinal_filter(items, skip, take);
        assert forall|k: int| 0 <= k < init.len() && #[trigger] init[k] is Match implies holds(
            init[k],
        ) by {
            assert(init[k] == items[k]);
        }
        lemma_filter_preserves(init, skip, take, holds);
        assert forall|k: int| 0 <= k < whole.len() && #[trigger] whole[k] is Match implies holds(
            whole[k],
        ) by {
            if k < head.len() {
                assert(whole[k] == head[k]);
            } else {
                assert(whole[k] == part[k - head.len()]);
                assert(last == items[items.len() - 1]);
            }
        }
    }
}

/// The first ordinal of the window among `count` matches.
pub open spec fn window_start(count: nat, skip: nat) -> int {
    if skip <= count {
        skip as int
    } else {
        count as int
    }
}

/// The ordinal behind the last one of the window among `count` matches.
pub open spec fn window_end(count: nat, skip: nat, take: Option<nat>) -> int {
    match take {
        Some(limit) => if skip + limit <= count {
            (skip + limit) as int
        } else {
            count as int
        },
        None => count as int,
    }
}

/// The matches that are left after filtering are exactly the matches with
/// the ordinals of the window, in the order in which they were found.
pub proof fn lemma_filter_keeps_window(items: Seq<Tagged>, skip: nat, take: Option<nat>)
    ensures
        matches_of(ordinal_filter(items, skip, take)) == matches_of(items).subrange(
            window_start(match_count(items), skip),
            window_end(match_count(items), skip, take),
        ),
    decreases items.len(),
{
    if items.len() == 0 {
        assert(matches_of(items).subrange(0, 0) =~= Seq::<Tagged>::empty());
    } else {
        let init = items.drop_last();
        let last = items.last();
        let before = match_count(init);
        let keep = in_window(before, skip, take);
        lemma_filter_keeps_window(init, skip, take);
        lemma_matches_concat(ordinal_filter(init, skip, take), filter_item(last, keep));
        match last {
            Tagged::Literal(_) => {
                lemma_matches_single(last);
                assert(matches_of(ordinal_filter(items, skip, take)) =~= matches_of(
                    ordinal_filter(init, skip, take),
                ));
            },
            Tagged::Match { bytes, .. } => {
                if keep {
                    lemma_matches_single(last);
                } else {
                    lemma_matches_literals(bytes);
                }
                assert(matches_of(ordinal_filter(items, skip, take)) =~= matches_of(
                    items,
                ).subrange(
                    window_start(match_count(items), skip),
                    window_end(match_count(items), skip, take),
                ));
            },
        }
    }
}

/// A window that passes over nothing and has no upper end keeps every
/// match: the filter leaves the sequence as it is.
pub proof fn lemma_filter_without_window(items: Seq<Tagged>)
    ensures
        ordinal_filter(items, 0, None) == items,
    decreases items.len(),
{
    if items.len() == 0 {
        assert(ordinal_filter(items, 0, None) =~= items);
    } else {
        lemma_filter_without_window(items.drop_last());
        assert(items.drop_last() + seq![items.last()] =~= items);
    }
}

/// Passing over `skip` matches and then keeping the first `count` of those
/// that are left is the same as keeping the window `[skip, skip + count)`.
pub proof fn lemma_skip_then_take(items: Seq<Tagged>, skip: nat, count: nat)
    ensures
        ordinal_filter(ordinal_filter(items, skip, None), 0, Some(count)) == ordinal_filter(
            items,
            skip,
            Some(count),
        ),
    decreases items.len(),
{
    if items.len() > 0 {
        let init = items.drop_last();
        let last = items.last();
        let before = match_count(init);
        let skipped = ordinal_filter(init, skip, None);
        lemma_skip_then_take(init, skip, count);
        lemma_filter_keeps_window(init, skip, None);
        match last {
            Tagged::Literal(_) => {
                assert(skipped + seq![last] =~= skipped.push(last));
                lemma_filter_push(skipped, last, 0, Some(count));
            },
            Tagged::Match { bytes, .. } => {
                if before < skip {
                    lemma_filter_literals_tail(skipped, bytes, 0, Some(count));
                } else {
                    assert(skipped + seq![last] =~= skipped.push(last));
                    lemma_filter_push(skipped, last, 0, Some(count));
                    assert(match_count(skipped) == before - skip);
                }
            },
        }
    }
}

/// Counts the matches that pass and decides for each whether it stays one.
pub struct OrdinalFilter {
    skip: usize,
    take: Option<usize>,
    seen: usize,
}

impl OrdinalFilter {
    /// How many matches are passed over before the window begins.
    pub closed spec fn skip(&self) -> nat {
        self.skip as nat
    }

    /// How many matches the window holds; `None` for all that follow.
    pub closed spec fn take(&self) -> Option<nat> {
        limit_view(self.take)
    }

    /// How many matches have been seen so far.
    pub closed spec fn seen(&self) -> nat {
        self.seen as nat
    }

    /// A filter that has seen nothing. No `skip` passes over no match; no
    /// `take` keeps every match behind those passed over.
    pub fn new(skip: Option<usize>, take: Option<usize>) -> (f: Self)
        ensures
            f.seen() == 0,
            f.take() == limit_view(take),
            f.skip() == skip_view(skip),
    {
        let skip: usize = match skip {
            Some(count) => count,
            None => 0,
        };
        OrdinalFilter { skip, take, seen: 0 }
    }

    /// The number of matches seen so far.
    pub fn matches_seen(&self) -> (r: usize)
        ensures
            r == self.seen(),
    {
        self.seen
    }

    /// Whether the next match, if one comes, stays a match.
    pub fn keeps_next(&self) -> (r: bool)
        ensures
            r == in_window(self.seen(), self.skip(), self.take()),
    {
        if self.seen < self.skip {
            false
        } else {
            match self.take {
                Some(count) => self.seen - self.skip < count,
                None => true,
            }
        }
    }

    /// Passes one item through and appends what leaves to `out`. A literal
    /// leaves as it came. A match is counted; inside the window it leaves
    /// as it came, outside it leaves as its bytes, each a literal.
    pub fn apply_into(&mut self, item: MatchResult, out: &mut Vec<MatchResult>)
        requires
            item@ is Match ==> old(self).seen() < usize::MAX,
        ensures
            final(out).deep_view() == old(out).deep_view() + filter_item(
                item@,
                in_window(old(self).seen(), old(self).skip(), old(self).take()),
            ),
            final(self).skip() == old(self).skip(),
            final(self).take() == old(self).take(),
            final(self).seen() == old(self).seen() + if item@ is Match {
                1nat
            } else {
                0nat
            },
    {
        let ghost before = out.deep_view();
        match item {
            MatchResult::Literal(byte) => {
                out.push(MatchResult::Literal(byte));
                assert(out.deep_view() =~= before + seq![item@]);
            },
            MatchResult::Match { offset, bytes } => {
                let keep = self.keeps_next();
                self.seen = self.seen + 1;
                if keep {
                    let kept = MatchResult::Match { offset, bytes };
                    out.push(kept);
                    assert(out.deep_view() =~= before + seq![kept@]);
                } else {
                    let mut k: usize = 0;
                    assert(out.deep_view() =~= before + literals(bytes@.take(0)));
                    while k < bytes.len()
                        invariant
                            k <= bytes@.len(),
                            out.deep_view() == before + literals(bytes@.take(k as int)),
                        decreases bytes@.len() - k,
                    {
                        let ghost so_far = out.deep_view();
                        out.push(MatchResult::Literal(bytes[k]));
                        assert(out.deep_view() =~= so_far.push(Tagged::Literal(bytes@[k as int])));
                        assert(literals(bytes@.take(k + 1)) =~= literals(bytes@.take(k as int)).push(
                            Tagged::Literal(bytes@[k as int]),
                        ));
                        k += 1;
                    }
                    assert(bytes@.take(k as int) =~= bytes@);
                }
            },
        }
    }

    /// Passes one item through: what leaves, as a sequence of its own.
    pub fn apply(&mut self, item: MatchResult) -> (out: Vec<MatchResult>)
        requires
            item@ is Match ==> old(self).seen() < usize::MAX,
        ensures
            out.deep_view() == filter_item(
                item@,
                in_window(old(self).seen(), old(self).skip(), old(self).take()),
            ),
            final(self).skip() == old(self).skip(),
            final(self).take() == old(self).take(),
            final(self).seen() == old(self).seen() + if item@ is Match {
                1nat
            } else {
                0nat
            },
    {
        let mut out: Vec<MatchResult> = Vec::new();
        let ghost part = filter_item(
            item@,
            in_window(self.seen(), self.skip(), self.take()),
        );
        assert(out.deep_view() + part =~= part);
        self.apply_into(item, &mut out);
        out
    }
}

/// Filters a whole tagged sequence held in memory.
pub fn filter_matches(items: &[MatchResult], skip: Option<usize>, take: Option<usize>) -> (out: Vec<
    MatchResult,
>)
    ensures
        out.deep_view() == ordinal_filter(items.deep_view(), skip_view(skip), limit_view(take)),
{
    let mut filter = OrdinalFilter::new(skip, take);
    let ghost all = items.deep_view();
    let ghost s = filter.skip();
    let ghost t = filter.take();
    let mut out: Vec<MatchResult> = Vec::new();
    let mut i: usize = 0;
    assert(out.deep_view() =~= ordinal_filter(all.take(0), s, t));
    assert(matches_of(all.take(0)) =~= Seq::<Tagged>::empty());
    while i < items.len()
        invariant
            i <= items@.len(),
            all == items.deep_view(),
            filter.skip() == s,
            filter.take() == t,
            filter.seen() == match_count(all.take(i as int)),
            out.deep_view() == ordinal_filter(all.take(i as int), s, t),
        decreases items@.len() - i,
    {
        let item = items[i].clone();
        proof {
            lemma_match_count_bound(all.take(i as int));
            lemma_filter_push(all.take(i as int), item@, s, t);
            assert(all.take(i + 1) =~= all.take(i as int).push(item@));
        }
        filter.apply_into(item, &mut out);
        i += 1;
    }
    assert(all.take(i as int) =~= all);
    out
}

} // verus!
