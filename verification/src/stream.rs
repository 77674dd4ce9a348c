//! The pipeline of matcher and ordinal filter as one machine that is pulled
//! for its next item and asks for input when it has none to give.
//!
//! The machine reads nothing by itself. Whoever drives it pulls with
//! [`Pipeline::next`]; when the answer is [`Step::NeedInput`], the driver
//! reads one byte from the source and hands over what came of it with
//! [`Pipeline::supply`]: the byte, the end of the stream, or the failure.
use vstd::prelude::*;
use crate::matcher::Matcher;
use crate::ordinal::{
    OrdinalFilter, lemma_filter_literals_tail, lemma_filter_push, limit_view, ordinal_filter,
    skip_view,
};
use crate::pattern::{Pattern, Symbol};
use crate::scan::{lemma_frontier_bounds, lemma_settled_len, scan, settled};
use crate::tagged::{
    MatchResult, Tagged, lemma_match_count_bound, lemma_matches_concat, lemma_matches_literals,
    literals, match_count,
};

verus! {

/// What one read of the source came to.
pub enum Input<E> {
    /// The next byte of the stream.
    Byte(u8),
    /// The stream has ended.
    End,
    /// The read failed.
    Failure(E),
}

/// The answer to one pull.
pub enum Step<E> {
    /// The next item of the filtered tagged sequence.
    Item(MatchResult),
    /// The failure of the source. It comes once, and nothing after it.
    Failed(E),
    /// Nothing can be said before the source is read again.
    NeedInput,
    /// The sequence is over.
    Finished,
}

/// Where the stream stands.
pub enum Phase<E> {
    /// The source may give more bytes.
    Open,
    /// The source has ended.
    Ended,
    /// The source has failed, and the failure has not been handed out yet.
    Failing(E),
    /// The failure has been handed out.
    Over,
}

/// Matcher and ordinal filter behind one another. Besides the matcher's
/// lookahead it holds the items that one match gave and that have not been
/// pulled yet: never more than the pattern is long.
pub struct Pipeline<'a, E> {
    matcher: Matcher<'a>,
    filter: OrdinalFilter,
    outbox: Vec<MatchResult>,
    phase: Phase<E>,
}

impl<'a, E> Pipeline<'a, E> {
    /// The pattern that is searched for.
    pub closed spec fn pattern(&self) -> Seq<Symbol> {
        self.matcher.pattern()
    }

    /// How many matches are passed over before the window begins.
    pub closed spec fn skip(&self) -> nat {
        self.filter.skip()
    }

    /// How many matches the window holds; `None` for all that follow.
    pub closed spec fn take(&self) -> Option<nat> {
        self.filter.take()
    }

    /// Every byte supplied so far, in order.
    pub closed spec fn fed(&self) -> Seq<u8> {
        self.matcher.fed()
    }

    /// Where the stream stands.
    pub closed spec fn phase(&self) -> Phase<E> {
        self.phase
    }

    /// The items that the input so far gives, in order: the filtered scan
    /// of the whole input once it has ended, and before that, or after a
    /// failure, the filtered items that the bytes supplied have settled.
    pub open spec fn ready(&self) -> Seq<Tagged> {
        ordinal_filter(
            if self.phase() is Ended {
                scan(self.pattern(), self.fed())
            } else {
                settled(self.pattern(), self.fed())
            },
            self.skip(),
            self.take(),
        )
    }

    /// How many items have been pulled so far.
    pub closed spec fn delivered(&self) -> nat {
        (self.ready().len() - self.outbox@.len()) as nat
    }

    /// The state is consistent.
    pub closed spec fn wf(&self) -> bool {
        &&& self.matcher.wf()
        &&& self.matcher.ended() == (self.phase is Ended)
        &&& self.filter.seen() == match_count(self.matcher.produced())
        &&& self.outbox@.len() <= self.ready().len()
        &&& self.outbox.deep_view() == self.ready().skip(
            self.ready().len() - self.outbox@.len(),
        )
        &&& self.outbox@.len() <= self.matcher.pattern().len()
        &&& (self.phase is Failing || self.phase is Over) ==> self.outbox@.len() == 0
    }

    /// No more items have been pulled than there are, and no more wait to
    /// be pulled than the pattern is long; after a failure none waits; and
    /// the bytes supplied can be counted.
    pub proof fn lemma_bounds(&self)
        requires
            self.wf(),
        ensures
            self.delivered() <= self.ready().len(),
            self.ready().len() - self.delivered() <= self.pattern().len(),
            (self.phase() is Failing || self.phase() is Over) ==> self.delivered()
                == self.ready().len(),
            self.fed().len() <= usize::MAX,
            self.pattern().len() >= 1,
    {
        self.matcher.lemma_bounds();
    }

    /// A pipeline at the start of a stream. No `skip` passes over no match;
    /// no `take` keeps every match behind those passed over.
    pub fn new(pattern: &'a Pattern, skip: Option<usize>, take: Option<usize>) -> (p: Self)
        ensures
            p.wf(),
            p.pattern() == pattern@,
            p.skip() == skip_view(skip),
            p.take() == limit_view(take),
            p.fed() == Seq::<u8>::empty(),
            p.phase() is Open,
            p.delivered() == 0,
    {
        let p = Pipeline {
            matcher: Matcher::new(pattern),
            filter: OrdinalFilter::new(skip, take),
            outbox: Vec::new(),
            phase: Phase::Open,
        };
        proof {
            assert(settled(pattern@, Seq::<u8>::empty()) =~= Seq::<Tagged>::empty());
            assert(p.ready() =~= Seq::<Tagged>::empty());
            assert(p.outbox.deep_view() =~= p.ready().skip(0));
        }
        p
    }

    /// The number of bytes supplied so far.
    pub fn consumed(&self) -> (r: usize)
        requires
            self.wf(),
        ensures
            r == self.fed().len(),
    {
        self.matcher.consumed()
    }

    /// Whether the next pull will ask for input.
    pub fn needs_input(&self) -> (r: bool)
        requires
            self.wf(),
        ensures
            r == (self.phase() is Open && self.delivered() == self.ready().len()),
    {
        match &self.phase {
            Phase::Open => self.outbox.len() == 0,
            _ => false,
        }
    }

    /// Pulls the next item. Items that the input has given and that have
    /// not been pulled yet come first, in order. When there is none: an
    /// open stream asks for input; an ended one is finished; a failed one
    /// hands out its failure, once, and is finished after that.
    pub fn next(&mut self) -> (r: Step<E>)
        requires
            old(self).wf(),
        ensures
            final(self).wf(),
            final(self).pattern() == old(self).pattern(),
            final(self).skip() == old(self).skip(),
            final(self).take() == old(self).take(),
            final(self).fed() == old(self).fed(),
            final(self).ready() == old(self).ready(),
            old(self).delivered() < old(self).ready().len() ==> {
                &&& r matches Step::Item(item)
                &&& item@ == old(self).ready()[old(self).delivered() as int]
                &&& final(self).delivered() == old(self).delivered() + 1
                &&& final(self).phase() == old(self).phase()
            },
            old(self).delivered() >= old(self).ready().len() ==> {
                &&& final(self).delivered() == old(self).delivered()
                &&& match old(self).phase() {
                    Phase::Open => r is NeedInput && final(self).phase() is Open,
                    Phase::Ended => r is Finished && final(self).phase() is Ended,
                    Phase::Failing(cause) => r == Step::Failed(cause) && final(self).phase() is Over,
                    Phase::Over => r is Finished && final(self).phase() is Over,
                }
            },
    {
        if self.outbox.len() > 0 {
            let ghost ready = self.ready();
            let ghost from = ready.len() - self.outbox@.len();
            let ghost before = self.outbox.deep_view();
            let ghost held = self.outbox@;
            let item = self.outbox.remove(0);
            proof {
                assert(item@ == before[0]);
                let now = self.outbox.deep_view();
                assert(now.len() == ready.skip(from + 1).len());
                assert forall|k: int| 0 <= k < now.len() implies now[k] == ready.skip(from + 1)[k] by {
                    assert(self.outbox@[k] == held[k + 1]);
                    assert(before[k + 1] == held[k + 1]@);
                    assert(before[k + 1] == ready.skip(from)[k + 1]);
                }
                assert(now =~= ready.skip(from + 1));
            }
            return Step::Item(item);
        }
        match &self.phase {
            Phase::Open => Step::NeedInput,
            Phase::Ended => Step::Finished,
            Phase::Over => Step::Finished,
            Phase::Failing(_) => {
                let mut taken: Phase<E> = Phase::Over;
                core::mem::swap(&mut self.phase, &mut taken);
                match taken {
                    Phase::Failing(cause) => Step::Failed(cause),
                    _ => Step::Finished,
                }
            },
        }
    }

    /// Hands over what the read that the last pull asked for came to. A
    /// byte goes to the matcher, and what it settles goes through the
    /// filter. The end lets the bytes still held back leave as literals. A
    /// failure drops them: it is the next thing to leave, and the last.
    pub fn supply(&mut self, input: Input<E>)
        requires
            old(self).wf(),
            old(self).phase() is Open,
            old(self).delivered() == old(self).ready().len(),
            input is Byte ==> old(self).fed().len() < usize::MAX,
        ensures
            final(self).wf(),
            final(self).pattern() == old(self).pattern(),
            final(self).skip() == old(self).skip(),
            final(self).take() == old(self).take(),
            final(self).delivered() == old(self).delivered(),
            old(self).ready().len() <= final(self).ready().len(),
            final(self).ready().take(old(self).ready().len() as int) == old(self).ready(),
            match input {
                Input::Byte(byte) => {
                    &&& final(self).fed() == old(self).fed().push(byte)
                    &&& final(self).phase() is Open
                },
                Input::End => {
                    &&& final(self).fed() == old(self).fed()
                    &&& final(self).phase() is Ended
                },
                Input::Failure(cause) => {
                    &&& final(self).fed() == old(self).fed()
                    &&& final(self).phase() == Phase::Failing(cause)
                },
            },
    {
        let ghost pat = self.pattern();
        let ghost s = self.skip();
        let ghost t = self.take();
        let ghost produced = self.matcher.produced();
        let ghost ready = self.ready();
        assert(self.outbox@.len() == 0);
        match input {
            Input::Byte(byte) => {
                let step = self.matcher.push(byte);
                match step {
                    None => {
                        assert(produced + Seq::<Tagged>::empty() =~= produced);
                        assert(ready.take(ready.len() as int) =~= ready);
                    },
                    Some(item) => {
                        proof {
                            let after = self.matcher.fed();
                            assert(produced + seq![item@] =~= produced.push(item@));
                            lemma_filter_push(produced, item@, s, t);
                            lemma_match_count_bound(produced.push(item@));
                            lemma_settled_len(pat, after, 0);
                            lemma_frontier_bounds(pat, after, 0);
                            self.matcher.lemma_bounds();
                        }
                        self.filter.apply_into(item, &mut self.outbox);
                        proof {
                            assert(self.outbox.deep_view().len() <= pat.len()) by {
                                match item@ {
                                    Tagged::Literal(_) => {},
                                    Tagged::Match { bytes, .. } => {
                                        assert(bytes.len() == pat.len());
                                    },
                                }
                            }
                            assert(self.outbox@.len() == self.outbox.deep_view().len());
                            let now = self.ready();
                            assert(now == ready + self.outbox.deep_view());
                            assert(now.take(ready.len() as int) =~= ready);
                            assert(self.outbox.deep_view() =~= now.skip(
                                now.len() - self.outbox@.len(),
                            ));
                        }
                    },
                }
            },
            Input::End => {
                let ghost held = self.matcher.pending();
                proof {
                    self.matcher.lemma_bounds();
                }
                let tail = self.matcher.finish();
                self.outbox = tail;
                self.phase = Phase::Ended;
                proof {
                    lemma_filter_literals_tail(produced, held, s, t);
                    lemma_matches_concat(produced, literals(held));
                    lemma_matches_literals(held);
                    assert(match_count(produced + literals(held)) == match_count(produced));
                    let now = self.ready();
                    assert(now == ready + self.outbox.deep_view());
                    assert(now.take(ready.len() as int) =~= ready);
                    assert(self.outbox.deep_view() =~= now.skip(now.len() - self.outbox@.len()));
                    assert(self.outbox@.len() == self.outbox.deep_view().len());
                }
            },
            Input::Failure(cause) => {
                self.phase = Phase::Failing(cause);
                proof {
                    assert(ready.take(ready.len() as int) =~= ready);
                    assert(self.outbox.deep_view() =~= self.ready().skip(
                        self.ready().len() - self.outbox@.len(),
                    ));
                }
            },
        }
    }
}

} // verus!
