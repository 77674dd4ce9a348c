//! The replacer: the tagged sequence flattened to bytes, with each match
//! overwritten by a replacement pattern of the same length.
use vstd::prelude::*;
use crate::pattern::{Pattern, PatternError, Symbol, substitute, window_matches};
use crate::tagged::{MatchResult, Tagged, item_bytes, plain};

verus! {

/// The bytes written for one item: a literal as it is; a match with the
/// replacement written over it, where wildcard positions keep the matched
/// byte.
pub open spec fn item_output(replacement: Seq<Symbol>, item: Tagged) -> Seq<u8> {
    match item {
        Tagged::Literal(byte) => seq![byte],
        Tagged::Match { bytes, .. } => substitute(replacement, bytes),
    }
}

/// The bytes written for a tagged sequence, in order.
pub open spec fn output(replacement: Seq<Symbol>, items: Seq<Tagged>) -> Seq<u8>
    decreases items.len(),
{
    if items.len() == 0 {
        Seq::empty()
    } else {
        item_output(replacement, items[0]) + output(replacement, items.skip(1))
    }
}

/// Whether every match of the sequence covers exactly `n` bytes.
pub open spec fn spans_fit(items: Seq<Tagged>, n: nat) -> bool {
    forall|k: int|
        0 <= k < items.len() ==> (#[trigger] items[k] matches Tagged::Match { bytes, .. }
            ==> bytes.len() == n)
}

/// `output` takes a concatenation apart.
pub proof fn lemma_output_concat(replacement: Seq<Symbol>, a: Seq<Tagged>, b: Seq<Tagged>)
    ensures
        output(replacement, a + b) == output(replacement, a) + output(replacement, b),
    decreases a.len(),
{
    if a.len() == 0 {
        assert(a + b =~= b);
        assert(output(replacement, a) + output(replacement, b) =~= output(replacement, b));
    } else {
        assert((a + b).skip(1) =~= a.skip(1) + b);
        lemma_output_concat(replacement, a.skip(1), b);
        assert(output(replacement, a + b) =~= output(replacement, a) + output(replacement, b));
    }
}

/// One item alone is written as its own output.
pub proof fn lemma_output_single(replacement: Seq<Symbol>, item: Tagged)
    ensures
        output(replacement, seq![item]) == item_output(replacement, item),
{
    let rest = seq![item].skip(1);
    assert(rest =~= Seq::<Tagged>::empty());
    assert(output(replacement, rest) =~= Seq::<u8>::empty());
    assert(item_output(replacement, item) + output(replacement, rest) =~= item_output(
        replacement,
        item,
    ));
}

/// Replacing never changes how many bytes there are.
pub proof fn lemma_output_len(replacement: Seq<Symbol>, items: Seq<Tagged>)
    ensures
        output(replacement, items).len() == plain(items).len(),
    decreases items.len(),
{
    if items.len() > 0 {
        lemma_output_len(replacement, items.skip(1));
    }
}

/// Where the replacement leaves the bytes of every match as they are, the
/// output is the input.
pub proof fn lemma_output_unchanged(replacement: Seq<Symbol>, items: Seq<Tagged>)
    requires
        forall|k: int|
            0 <= k < items.len() ==> (#[trigger] items[k] matches Tagged::Match { bytes, .. }
                ==> substitute(replacement, bytes) == bytes),
    ensures
        output(replacement, items) == plain(items),
    decreases items.len(),
{
    if items.len() > 0 {
        let rest = items.skip(1);
        assert forall|k: int| 0 <= k < rest.len() implies (#[trigger] rest[k] matches Tagged::Match {
            bytes,
            ..
        } ==> substitute(replacement, bytes) == bytes) by {
            assert(rest[k] == items[k + 1]);
        }
        lemma_output_unchanged(replacement, rest);
        assert(item_output(replacement, items[0]) == item_bytes(items[0]));
    }
}

/// A pattern written over bytes that match it leaves them as they are.
pub proof fn lemma_substitute_matching(pattern: Seq<Symbol>, bytes: Seq<u8>)
    requires
        window_matches(pattern, bytes),
    ensures
        substitute(pattern, bytes) == bytes,
{
    assert(substitute(pattern, bytes) =~= bytes);
}

/// A replacement of wildcards alone leaves any bytes as they are.
pub proof fn lemma_substitute_wildcards(replacement: Seq<Symbol>, bytes: Seq<u8>)
    requires
        forall|k: int| 0 <= k < replacement.len() ==> replacement[k] is Wildcard,
    ensures
        substitute(replacement, bytes) == bytes,
{
    assert(substitute(replacement, bytes) =~= bytes);
}

/// Writes a replacement pattern over the matches that pass.
pub struct Replacer<'a> {
    pattern: &'a Pattern,
}

impl<'a> Replacer<'a> {
    /// The replacement pattern.
    pub closed spec fn pattern(&self) -> Seq<Symbol> {
        self.pattern@
    }

    /// Pairs a replacement with the search pattern whose matches it is to
    /// overwrite. The two must be of one length; that is tested here, once,
    /// and not again for each match.
    pub fn new(search: &Pattern, replacement: &'a Pattern) -> (r: Result<Self, PatternError>)
        ensures
            search@.len() == replacement@.len() ==> r is Ok && r->Ok_0.pattern() == replacement@,
            search@.len() != replacement@.len() ==> r is Err && r->Err_0
                == PatternError::PatternLengthMismatch,
    {
        if search.len() == replacement.len() {
            Ok(Replacer { pattern: replacement })
        } else {
            Err(PatternError::PatternLengthMismatch)
        }
    }

    /// The number of bytes that each match must cover.
    pub fn len(&self) -> (r: usize)
        ensures
            r == self.pattern().len(),
    {
        self.pattern.len()
    }

    /// Appends to `out` the bytes to write for one item.
    pub fn apply_into(&self, item: &MatchResult, out: &mut Vec<u8>)
        requires
            item@ matches Tagged::Match { bytes, .. } ==> bytes.len() == self.pattern().len(),
        ensures
            final(out)@ == old(out)@ + item_output(self.pattern(), item@),
    {
        let ghost before = out@;
        match item {
            MatchResult::Literal(byte) => {
                out.push(*byte);
                assert(out@ =~= before + seq![*byte]);
            },
            MatchResult::Match { bytes, .. } => {
                let mut written = self.pattern.substitute(bytes.as_slice());
                out.append(&mut written);
            },
        }
    }

    /// The bytes to write for one item.
    pub fn apply(&self, item: &MatchResult) -> (out: Vec<u8>)
        requires
            item@ matches Tagged::Match { bytes, .. } ==> bytes.len() == self.pattern().len(),
        ensures
            out@ == item_output(self.pattern(), item@),
    {
        let mut out: Vec<u8> = Vec::new();
        assert(out@ + item_output(self.pattern(), item@) =~= item_output(self.pattern(), item@));
        self.apply_into(item, &mut out);
        out
    }

    /// The bytes to write for a whole tagged sequence held in memory.
    pub fn apply_all(&self, items: &[MatchResult]) -> (out: Vec<u8>)
        requires
            spans_fit(items.deep_view(), self.pattern().len()),
        ensures
            out@ == output(self.pattern(), items.deep_view()),
    {
        let ghost all = items.deep_view();
        let ghost rep = self.pattern();
        let mut out: Vec<u8> = Vec::new();
        let mut i: usize = 0;
        assert(out@ =~= output(rep, all.take(0)));
        while i < items.len()
            invariant
                i <= items@.len(),
                all == items.deep_view(),
                rep == self.pattern(),
                spans_fit(all, rep.len()),
                out@ == output(rep, all.take(i as int)),
            decreases items@.len() - i,
        {
            proof {
                assert(all[i as int] == items@[i as int]@);
                assert(all.take(i + 1) =~= all.take(i as int) + seq![all[i as int]]);
                lemma_output_concat(rep, all.take(i as int), seq![all[i as int]]);
                lemma_output_single(rep, all[i as int]);
            }
            self.apply_into(&items[i], &mut out);
            i += 1;
        }
        assert(all.take(i as int) =~= all);
        out
    }
}

} // verus!
