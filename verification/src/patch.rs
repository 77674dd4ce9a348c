//! Search, filter and replace over an input that is held in memory.
use vstd::prelude::*;
use crate::laws::lemma_matches_are_occurrences;
use crate::matcher::search;
use crate::ordinal::{filter_matches, limit_view, ordinal_filter, skip_view};
use crate::pattern::{Pattern, PatternError};
use crate::replace::{Replacer, output};
use crate::scan::scan;
use crate::tagged::MatchResult;

verus! {

/// The filtered tagged sequence of a whole input: the matches of the
/// window `[skip, skip + take)` and, as literals, every other byte.
pub fn find(input: &[u8], pattern: &Pattern, skip: Option<usize>, take: Option<usize>) -> (items:
    Vec<MatchResult>)
    ensures
        items.deep_view() == ordinal_filter(
            scan(pattern@, input@),
            skip_view(skip),
            limit_view(take),
        ),
{
    let all = search(input, pattern);
    filter_matches(all.as_slice(), skip, take)
}

/// The input with the replacement written over each match of the window.
/// The two patterns must be of one length: that is tested before anything
/// is searched.
pub fn patch(
    input: &[u8],
    search: &Pattern,
    replacement: &Pattern,
    skip: Option<usize>,
    take: Option<usize>,
) -> (r: Result<Vec<u8>, PatternError>)
    ensures
        search@.len() == replacement@.len() ==> r is Ok && r->Ok_0@ == output(
            replacement@,
            ordinal_filter(scan(search@, input@), skip_view(skip), limit_view(take)),
        ),
        search@.len() != replacement@.len() ==> r is Err && r->Err_0
            == PatternError::PatternLengthMismatch,
{
    match Replacer::new(search, replacement) {
        Err(error) => Err(error),
        Ok(replacer) => {
            let items = find(input, search, skip, take);
            proof {
                lemma_matches_are_occurrences(
                    search@,
                    input@,
                    skip_view(skip),
                    limit_view(take),
                );
            }
            Ok(replacer.apply_all(items.as_slice()))
        },
    }
}

} // verus!
