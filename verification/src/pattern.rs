//! Symbols and patterns, and what it means for a window of bytes to match.
use vstd::prelude::*;

verus! {

/// One unit of a pattern: a byte value that must be met, or a position that
/// any byte meets.
#[derive(Clone, Copy, Debug, PartialEq, Eq, Structural)]
pub enum Symbol {
    Fixed(u8),
    Wildcard,
}

/// Why a pattern, or a pair of patterns, could not be built.
#[derive(Clone, Copy, Debug, PartialEq, Eq, Structural)]
pub enum PatternError {
    /// The literal is empty, holds a character that is neither a digit of its
    /// radix nor the wildcard mark, or has a digit group of the wrong width.
    InvalidPatternSyntax,
    /// The search pattern and the replacement pattern differ in length.
    PatternLengthMismatch,
}

/// Whether `symbol` is met by `byte`.
pub open spec fn symbol_matches(symbol: Symbol, byte: u8) -> bool {
    match symbol {
        Symbol::Fixed(value) => value == byte,
        Symbol::Wildcard => true,
    }
}

/// The byte that `symbol` writes over `byte`: its own value, or `byte` itself
/// where the symbol is a wildcard.
pub open spec fn symbol_replace(symbol: Symbol, byte: u8) -> u8 {
    match symbol {
        Symbol::Fixed(value) => value,
        Symbol::Wildcard => byte,
    }
}

/// Whether `window` has the pattern's length and meets each of its symbols.
pub open spec fn window_matches(pattern: Seq<Symbol>, window: Seq<u8>) -> bool {
    &&& window.len() == pattern.len()
    &&& forall|k: int| 0 <= k < pattern.len() ==> symbol_matches(#[trigger] pattern[k], window[k])
}

/// `bytes` with each position overwritten by the symbol of `replacement` at
/// that position; positions past the end of `replacement` are kept.
pub open spec fn substitute(replacement: Seq<Symbol>, bytes: Seq<u8>) -> Seq<u8> {
    Seq::new(
        bytes.len(),
        |k: int|
            if k < replacement.len() {
                symbol_replace(replacement[k], bytes[k])
            } else {
                bytes[k]
            },
    )
}

impl Symbol {
    /// Tests one byte against this symbol.
    pub fn matches(&self, byte: u8) -> (r: bool)
        ensures
            r == symbol_matches(*self, byte),
    {
        match self {
            Symbol::Fixed(value) => *value == byte,
            Symbol::Wildcard => true,
        }
    }

    /// The byte this symbol leaves in place of `byte`.
    pub fn replace(&self, byte: u8) -> (r: u8)
        ensures
            r == symbol_replace(*self, byte),
    {
        match self {
            Symbol::Fixed(value) => *value,
            Symbol::Wildcard => byte,
        }
    }
}

/// A non-empty sequence of symbols, fixed once built.
#[derive(Debug, PartialEq, Eq)]
pub struct Pattern {
    symbols: Vec<Symbol>,
}

impl View for Pattern {
    type V = Seq<Symbol>;

    closed spec fn view(&self) -> Seq<Symbol> {
        self.symbols@
    }
}

impl Clone for Pattern {
    fn clone(&self) -> (r: Self)
        ensures
            r@ == self@,
    {
        proof {
            use_type_invariant(self);
        }
        let mut symbols: Vec<Symbol> = Vec::with_capacity(self.symbols.len());
        let mut k: usize = 0;
        while k < self.symbols.len()
            invariant
                k <= self.symbols@.len(),
                symbols@ == self.symbols@.take(k as int),
            decreases self.symbols@.len() - k,
        {
            symbols.push(self.symbols[k]);
            assert(self.symbols@.take(k + 1) =~= self.symbols@.take(k as int).push(
                self.symbols@[k as int],
            ));
            k += 1;
        }
        assert(self.symbols@.take(k as int) =~= self.symbols@);
        Pattern { symbols }
    }
}

impl Pattern {
    #[verifier::type_invariant]
    spec fn nonempty(&self) -> bool {
        self.symbols@.len() >= 1
    }

    /// Builds a pattern from its symbols; an empty sequence is no pattern.
    pub fn new(symbols: Vec<Symbol>) -> (r: Result<Pattern, PatternError>)
        ensures
            symbols@.len() >= 1 ==> r is Ok && r->Ok_0@ == symbols@,
            symbols@.len() == 0 ==> r == Err::<Pattern, PatternError>(PatternError::InvalidPatternSyntax),
    {
        if symbols.len() == 0 {
            Err(PatternError::InvalidPatternSyntax)
        } else {
            Ok(Pattern { symbols })
        }
    }

    /// The number of symbols, which is at least one.
    pub fn len(&self) -> (r: usize)
        ensures
            r == self@.len(),
            r >= 1,
    {
        proof {
            use_type_invariant(self);
        }
        self.symbols.len()
    }

    /// The symbol at position `k`.
    pub fn symbol(&self, k: usize) -> (r: Symbol)
        requires
            k < self@.len(),
        ensures
            r == self@[k as int],
    {
        self.symbols[k]
    }

    /// The symbols in order.
    pub fn symbols(&self) -> (r: &Vec<Symbol>)
        ensures
            r@ == self@,
    {
        &self.symbols
    }

    /// Compares a window of bytes with the pattern, position by position.
    pub fn matches(&self, window: &[u8]) -> (r: bool)
        ensures
            r == window_matches(self@, window@),
    {
        if window.len() != self.symbols.len() {
            return false;
        }
        let mut k: usize = 0;
        while k < self.symbols.len()
            invariant
                k <= self.symbols@.len(),
                window@.len() == self.symbols@.len(),
                forall|j: int| 0 <= j < k ==> symbol_matches(#[trigger] self.symbols@[j], window@[j]),
            decreases self.symbols@.len() - k,
        {
            if !self.symbols[k].matches(window[k]) {
                return false;
            }
            k += 1;
        }
        true
    }

    /// Writes this pattern over a span of its own length: fixed positions
    /// take the pattern's value, wildcard positions keep the span's byte.
    pub fn substitute(&self, bytes: &[u8]) -> (r: Vec<u8>)
        requires
            bytes@.len() == self@.len(),
        ensures
            r@ == substitute(self@, bytes@),
    {
        let mut out: Vec<u8> = Vec::with_capacity(bytes.len());
        let mut k: usize = 0;
        while k < bytes.len()
            invariant
                k <= bytes@.len(),
                bytes@.len() == self.symbols@.len(),
                out@.len() == k,
                forall|j: int| 0 <= j < k ==> out@[j] == symbol_replace(self.symbols@[j], bytes@[j]),
            decreases bytes@.len() - k,
        {
            out.push(self.symbols[k].replace(bytes[k]));
            k += 1;
        }
        assert(out@ =~= substitute(self@, bytes@));
        out
    }
}

} // verus!
