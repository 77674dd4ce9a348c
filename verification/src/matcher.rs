//! The stream matcher: the scan, one byte at a time, with a lookahead of
//! fewer bytes than the pattern is long.
use vstd::prelude::*;
use crate::pattern::{Pattern, Symbol, window_matches};
use crate::scan::{
    frontier, frontier_from, lemma_scan_closes, lemma_settled_extend, matches_at, scan, settled,
    settled_from,
};
use crate::tagged::{MatchResult, Tagged, literals};

verus! {

/// What a full window at a candidate offset becomes: a match that covers it,
/// or its first byte as a literal.
pub open spec fn decide(pattern: Seq<Symbol>, window: Seq<u8>, offset: int) -> Tagged {
    if window_matches(pattern, window) {
        Tagged::Match { offset, bytes: window }
    } else {
        Tagged::Literal(window[0])
    }
}

/// The items that one step of the matcher hands out: one or none.
pub open spec fn yielded(step: Option<MatchResult>) -> Seq<Tagged> {
    match step {
        Some(item) => seq![item@],
        None => Seq::empty(),
    }
}

/// Scans a stream that is pushed into it byte by byte. It holds the bytes
/// behind the frontier, never as many as the pattern is long, and nothing
/// else of the stream.
pub struct Matcher<'a> {
    pattern: &'a Pattern,
    window: Vec<u8>,
    base: usize,
    total: usize,
    ended: bool,
    fed: Ghost<Seq<u8>>,
}

impl<'a> Matcher<'a> {
    /// The pattern that is searched for.
    pub closed spec fn pattern(&self) -> Seq<Symbol> {
        self.pattern@
    }

    /// Every byte pushed so far, in order.
    pub closed spec fn fed(&self) -> Seq<u8> {
        self.fed@
    }

    /// Whether the end of the stream has been declared.
    pub closed spec fn ended(&self) -> bool {
        self.ended
    }

    /// The bytes that are held back while the stream is open: those behind
    /// the frontier.
    pub open spec fn pending(&self) -> Seq<u8> {
        self.fed().skip(frontier(self.pattern(), self.fed()))
    }

    /// Every item handed out so far, in order: what the bytes pushed have
    /// settled and, once the stream has ended, the whole scan of them.
    pub open spec fn produced(&self) -> Seq<Tagged> {
        if self.ended() {
            scan(self.pattern(), self.fed())
        } else {
            settled(self.pattern(), self.fed())
        }
    }

    /// The state is consistent: the window holds exactly the bytes behind
    /// the frontier of what was pushed.
    pub closed spec fn wf(&self) -> bool {
        &&& self.pattern@.len() >= 1
        &&& self.total == self.fed@.len()
        &&& self.base as int == frontier(self.pattern@, self.fed@)
        &&& self.base <= self.fed@.len()
        &&& if self.ended {
            self.window@.len() == 0
        } else {
            &&& self.base + self.window@.len() == self.fed@.len()
            &&& self.window@ == self.fed@.skip(self.base as int)
            &&& self.window@.len() < self.pattern@.len()
        }
    }

    /// In a consistent state the pattern is not empty, the bytes pushed can
    /// be counted, the frontier lies inside them, and while the stream is
    /// open fewer bytes than the pattern is long are held back.
    pub proof fn lemma_bounds(&self)
        requires
            self.wf(),
        ensures
            self.pattern().len() >= 1,
            self.fed().len() <= usize::MAX,
            0 <= frontier(self.pattern(), self.fed()) <= self.fed().len(),
            !self.ended() ==> self.pending().len() < self.pattern().len(),
    {
    }

    /// A matcher at the start of a stream.
    pub fn new(pattern: &'a Pattern) -> (m: Self)
        ensures
            m.wf(),
            !m.ended(),
            m.pattern() == pattern@,
            m.fed() == Seq::<u8>::empty(),
    {
        let n = pattern.len();
        let m = Matcher {
            pattern,
            window: Vec::with_capacity(n),
            base: 0,
            total: 0,
            ended: false,
            fed: Ghost(Seq::empty()),
        };
        assert(m.window@ =~= m.fed@.skip(0));
        m
    }

    /// The number of bytes pushed so far.
    pub fn consumed(&self) -> (r: usize)
        requires
            self.wf(),
        ensures
            r == self.fed().len(),
    {
        self.total
    }

    /// The offset of the first byte that is held back.
    pub fn offset(&self) -> (r: usize)
        requires
            self.wf(),
        ensures
            r == frontier(self.pattern(), self.fed()),
    {
        self.base
    }

    /// Whether the end of the stream has been declared.
    pub fn is_ended(&self) -> (r: bool)
        ensures
            r == self.ended(),
    {
        self.ended
    }

    /// Takes the next byte of the stream. While fewer bytes than the pattern
    /// is long are held, nothing is handed out. Once the window is full it
    /// is decided: it leaves as a match, or its first byte leaves as a
    /// literal.
    pub fn push(&mut self, byte: u8) -> (r: Option<MatchResult>)
        requires
            old(self).wf(),
            !old(self).ended(),
            old(self).fed().len() < usize::MAX,
        ensures
            final(self).wf(),
            !final(self).ended(),
            final(self).pattern() == old(self).pattern(),
            final(self).fed() == old(self).fed().push(byte),
            final(self).produced() == old(self).produced() + yielded(r),
            r is Some <==> old(self).pending().len() + 1 == old(self).pattern().len(),
            r matches Some(item) ==> item@ == decide(
                old(self).pattern(),
                old(self).pending().push(byte),
                frontier(old(self).pattern(), old(self).fed()),
            ),
    {
        let n = self.pattern.len();
        let ghost before = self.fed@;
        let ghost after = before.push(byte);
        let ghost c = self.base as int;
        let ghost pat = self.pattern@;
        proof {
            assert(after =~= before + seq![byte]);
            lemma_settled_extend(pat, before, seq![byte], 0);
            assert(after.skip(c) =~= self.window@.push(byte));
        }
        self.window.push(byte);
        self.total = self.total + 1;
        self.fed = Ghost(after);
        if self.window.len() < n {
            proof {
                assert(settled_from(pat, after, c) =~= Seq::<Tagged>::empty());
                assert(frontier_from(pat, after, c) == c);
                assert(settled(pat, after) =~= settled(pat, before));
            }
            return None;
        }
        proof {
            assert(after.subrange(c, c + n) =~= self.window@);
            assert(matches_at(pat, after, c) == window_matches(pat, self.window@));
            assert(settled_from(pat, after, c + n) =~= Seq::<Tagged>::empty());
            assert(settled_from(pat, after, c + 1) =~= Seq::<Tagged>::empty());
            assert(frontier_from(pat, after, c + n) == c + n);
            assert(frontier_from(pat, after, c + 1) == c + 1);
        }
        if self.pattern.matches(self.window.as_slice()) {
            let mut bytes: Vec<u8> = Vec::with_capacity(n);
            core::mem::swap(&mut bytes, &mut self.window);
            let offset = self.base;
            self.base = self.base + n;
            let item = MatchResult::Match { offset, bytes };
            proof {
                assert(self.window@ =~= after.skip(c + n));
                assert(settled_from(pat, after, c) =~= seq![item@]);
                assert(settled(pat, after) =~= settled(pat, before) + seq![item@]);
            }
            Some(item)
        } else {
            let first = self.window.remove(0);
            self.base = self.base + 1;
            let item = MatchResult::Literal(first);
            proof {
                assert(self.window@ =~= after.skip(c + 1));
                assert(settled_from(pat, after, c) =~= seq![item@]);
                assert(settled(pat, after) =~= settled(pat, before) + seq![item@]);
            }
            Some(item)
        }
    }

    /// Ends the stream. The bytes still held back can no longer match: they
    /// leave as literals, in order, and complete the scan of what was pushed.
    pub fn finish(&mut self) -> (tail: Vec<MatchResult>)
        requires
            old(self).wf(),
            !old(self).ended(),
        ensures
            final(self).wf(),
            final(self).ended(),
            final(self).pattern() == old(self).pattern(),
            final(self).fed() == old(self).fed(),
            tail.deep_view() == literals(old(self).pending()),
            final(self).produced() == old(self).produced() + tail.deep_view(),
    {
        let mut tail: Vec<MatchResult> = Vec::with_capacity(self.window.len());
        let mut k: usize = 0;
        while k < self.window.len()
            invariant
                k <= self.window@.len(),
                tail@.len() == k,
                forall|j: int|
                    0 <= j < k ==> (#[trigger] tail@[j])@ == Tagged::Literal(self.window@[j]),
            decreases self.window@.len() - k,
        {
            tail.push(MatchResult::Literal(self.window[k]));
            k += 1;
        }
        proof {
            assert(tail.deep_view() =~= literals(self.pending()));
            lemma_scan_closes(self.pattern@, self.fed@, 0);
        }
        self.window.clear();
        self.ended = true;
        tail
    }
}

/// Scans a whole input held in memory.
pub fn search(input: &[u8], pattern: &Pattern) -> (items: Vec<MatchResult>)
    ensures
        items.deep_view() == scan(pattern@, input@),
{
    let mut matcher = Matcher::new(pattern);
    let mut items: Vec<MatchResult> = Vec::new();
    let mut i: usize = 0;
    assert(items.deep_view() =~= settled(pattern@, input@.take(0)));
    while i < input.len()
        invariant
            i <= input@.len(),
            matcher.wf(),
            !matcher.ended(),
            matcher.pattern() == pattern@,
            matcher.fed() == input@.take(i as int),
            items.deep_view() == matcher.produced(),
        decreases input@.len() - i,
    {
        let ghost before = items.deep_view();
        let step = matcher.push(input[i]);
        proof {
            assert(input@.take(i + 1) =~= input@.take(i as int).push(input@[i as int]));
        }
        match step {
            Some(item) => {
                items.push(item);
                assert(items.deep_view() =~= before + seq![item@]);
            },
            None => {
                assert(before + Seq::<Tagged>::empty() =~= before);
            },
        }
        i += 1;
    }
    let ghost before = items.deep_view();
    let mut tail = matcher.finish();
    let ghost tail_view = tail.deep_view();
    items.append(&mut tail);
    proof {
        assert(input@.take(i as int) =~= input@);
        assert(items.deep_view() =~= before + tail_view);
    }
    items
}

} // verus!
