//! The tagged sequence that the stages hand to one another, and its model.
use vstd::prelude::*;

verus! {

/// The model of a [`MatchResult`]: a byte outside every reported match, or
/// one match with the offset of its first byte and the bytes it covers.
pub enum Tagged {
    Literal(u8),
    Match { offset: int, bytes: Seq<u8> },
}

/// One item of the tagged sequence.
#[derive(Debug, PartialEq, Eq)]
pub enum MatchResult {
    /// A byte that is part of no reported match.
    Literal(u8),
    /// An occurrence of the pattern: the zero-based offset of its first byte
    /// in the input, and a copy of the bytes it covers.
    Match { offset: usize, bytes: Vec<u8> },
}

impl View for MatchResult {
    type V = Tagged;

    open spec fn view(&self) -> Tagged {
        match *self {
            MatchResult::Literal(byte) => Tagged::Literal(byte),
            MatchResult::Match { offset, bytes } => Tagged::Match {
                offset: offset as int,
                bytes: bytes@,
            },
        }
    }
}

impl DeepView for MatchResult {
    type V = Tagged;

    open spec fn deep_view(&self) -> Tagged {
        self@
    }
}

impl Clone for MatchResult {
    fn clone(&self) -> (r: Self)
        ensures
            r@ == self@,
    {
        match self {
            MatchResult::Literal(byte) => MatchResult::Literal(*byte),
            MatchResult::Match { offset, bytes } => MatchResult::Match {
                offset: *offset,
                bytes: copy_bytes(bytes.as_slice()),
            },
        }
    }
}

/// A fresh vector with the bytes of `bytes`.
fn copy_bytes(bytes: &[u8]) -> (r: Vec<u8>)
    ensures
        r@ == bytes@,
{
    let mut out: Vec<u8> = Vec::with_capacity(bytes.len());
    let mut k: usize = 0;
    while k < bytes.len()
        invariant
            k <= bytes@.len(),
            out@ == bytes@.take(k as int),
        decreases bytes@.len() - k,
    {
        out.push(bytes[k]);
        assert(bytes@.take(k + 1) =~= bytes@.take(k as int).push(bytes@[k as int]));
        k += 1;
    }
    assert(bytes@.take(k as int) =~= bytes@);
    out
}

/// Each byte of `bytes` as a literal item, in order.
pub open spec fn literals(bytes: Seq<u8>) -> Seq<Tagged> {
    Seq::new(bytes.len(), |k: int| Tagged::Literal(bytes[k]))
}

/// The input bytes that one item stands for.
pub open spec fn item_bytes(item: Tagged) -> Seq<u8> {
    match item {
        Tagged::Literal(byte) => seq![byte],
        Tagged::Match { bytes, .. } => bytes,
    }
}

/// The input bytes that a tagged sequence stands for, in order.
pub open spec fn plain(items: Seq<Tagged>) -> Seq<u8>
    decreases items.len(),
{
    if items.len() == 0 {
        Seq::empty()
    } else {
        item_bytes(items[0]) + plain(items.skip(1))
    }
}

/// The matches of a tagged sequence, in order, without the literals.
pub open spec fn matches_of(items: Seq<Tagged>) -> Seq<Tagged>
    decreases items.len(),
{
    if items.len() == 0 {
        Seq::empty()
    } else if items.last() is Match {
        matches_of(items.drop_last()).push(items.last())
    } else {
        matches_of(items.drop_last())
    }
}

/// How many matches a tagged sequence holds.
pub open spec fn match_count(items: Seq<Tagged>) -> nat {
    matches_of(items).len()
}

/// `matches_of` takes a concatenation apart.
pub proof fn lemma_matches_concat(a: Seq<Tagged>, b: Seq<Tagged>)
    ensures
        matches_of(a + b) == matches_of(a) + matches_of(b),
    decreases b.len(),
{
    if b.len() == 0 {
        assert(a + b =~= a);
        assert(matches_of(a) + matches_of(b) =~= matches_of(a));
    } else {
        assert((a + b).drop_last() =~= a + b.drop_last());
        assert((a + b).last() == b.last());
        lemma_matches_concat(a, b.drop_last());
        assert(matches_of(a + b) =~= matches_of(a) + matches_of(b));
    }
}

/// One item alone stands for its own bytes.
pub proof fn lemma_plain_single(item: Tagged)
    ensures
        plain(seq![item]) == item_bytes(item),
{
    let rest = seq![item].skip(1);
    assert(rest =~= Seq::<Tagged>::empty());
    assert(plain(rest) =~= Seq::<u8>::empty());
    assert(item_bytes(item) + plain(rest) =~= item_bytes(item));
}

/// One item alone is the only match, or there is none.
pub proof fn lemma_matches_single(item: Tagged)
    ensures
        matches_of(seq![item]) == if item is Match {
            seq![item]
        } else {
            Seq::<Tagged>::empty()
        },
{
    let init = seq![item].drop_last();
    assert(init =~= Seq::<Tagged>::empty());
    assert(matches_of(init) =~= Seq::<Tagged>::empty());
    assert(matches_of(init).push(item) =~= seq![item]);
}

/// A run of literals holds no match.
pub proof fn lemma_matches_literals(bytes: Seq<u8>)
    ensures
        matches_of(literals(bytes)) == Seq::<Tagged>::empty(),
    decreases bytes.len(),
{
    if bytes.len() > 0 {
        assert(literals(bytes).drop_last() =~= literals(bytes.drop_last()));
        lemma_matches_literals(bytes.drop_last());
    }
}

/// A sequence holds no more matches than items.
pub proof fn lemma_match_count_bound(items: Seq<Tagged>)
    ensures
        match_count(items) <= items.len(),
    decreases items.len(),
{
    if items.len() > 0 {
        lemma_match_count_bound(items.drop_last());
    }
}

/// `plain` takes a concatenation apart.
pub proof fn lemma_plain_concat(a: Seq<Tagged>, b: Seq<Tagged>)
    ensures
        plain(a + b) == plain(a) + plain(b),
    decreases a.len(),
{
    if a.len() == 0 {
        assert(a + b =~= b);
        assert(plain(a) + plain(b) =~= plain(b));
    } else {
        assert((a + b).skip(1) =~= a.skip(1) + b);
        lemma_plain_concat(a.skip(1), b);
        assert(plain(a + b) =~= plain(a) + plain(b));
    }
}

/// A run of literals stands for exactly its bytes.
pub proof fn lemma_plain_literals(bytes: Seq<u8>)
    ensures
        plain(literals(bytes)) == bytes,
    decreases bytes.len(),
{
    if bytes.len() == 0 {
        assert(plain(literals(bytes)) =~= bytes);
    } else {
        assert(literals(bytes).skip(1) =~= literals(bytes.skip(1)));
        lemma_plain_literals(bytes.skip(1));
        assert(seq![bytes[0]] + bytes.skip(1) =~= bytes);
    }
}

} // verus!
