//! The textual form of a pattern.
//!
//! A literal is a run of words, set apart by blanks. A word is one or more
//! digit groups written without a gap, each group one byte of the pattern:
//! two hexadecimal digits, three octal digits or eight binary digits. A
//! group made of wildcard marks alone is a wildcard byte, and so is a word
//! that is a single wildcard mark. A group never mixes digits and marks.
//!
//! The radix is given beside the literal, or each word names its own by a
//! prefix before its groups: `0x`, `0o` or `0b`.
use vstd::prelude::*;
use vstd::string::StringSliceAdditionalSpecFns;
use crate::pattern::{Pattern, PatternError, Symbol};

verus! {

/// The radix in which the digits of a literal are read.
#[derive(Clone, Copy, Debug, PartialEq, Eq, Structural)]
pub enum Radix {
    Hex,
    Octal,
    Binary,
}

/// The wildcard mark, `?`.
pub const WILDCARD_MARK: u8 = 0x3F;

/// The number of digits that make one byte.
pub open spec fn group_width(radix: Radix) -> nat {
    match radix {
        Radix::Hex => 2,
        Radix::Octal => 3,
        Radix::Binary => 8,
    }
}

/// The number of digit values of the radix.
pub open spec fn radix_base(radix: Radix) -> nat {
    match radix {
        Radix::Hex => 16,
        Radix::Octal => 8,
        Radix::Binary => 2,
    }
}

/// Whether `c` sets words apart: a space, a tab, a line feed, a form feed or
/// a carriage return.
pub open spec fn is_blank(c: u8) -> bool {
    c == 0x20 || c == 0x09 || c == 0x0A || c == 0x0C || c == 0x0D
}

/// The value of `c` as a digit of any radix up to sixteen, in either case.
pub open spec fn digit_of(c: u8) -> Option<nat> {
    if 0x30 <= c <= 0x39 {
        Some((c - 0x30) as nat)
    } else if 0x41 <= c <= 0x46 {
        Some((c - 0x41 + 10) as nat)
    } else if 0x61 <= c <= 0x66 {
        Some((c - 0x61 + 10) as nat)
    } else {
        None
    }
}

/// The value of `c` as a digit of `radix`, if it is one.
pub open spec fn digit_value(radix: Radix, c: u8) -> Option<nat> {
    match digit_of(c) {
        Some(d) => if d < radix_base(radix) {
            Some(d)
        } else {
            None
        },
        None => None,
    }
}

/// The number that a run of digits denotes, most significant digit first;
/// `None` if one of them is no digit of the radix.
pub open spec fn group_value(radix: Radix, group: Seq<u8>) -> Option<nat>
    decreases group.len(),
{
    if group.len() == 0 {
        Some(0)
    } else {
        match (group_value(radix, group.drop_last()), digit_value(radix, group.last())) {
            (Some(high), Some(low)) => Some(high * radix_base(radix) + low),
            _ => None,
        }
    }
}

/// Whether a group is made of wildcard marks alone.
pub open spec fn all_marks(group: Seq<u8>) -> bool {
    forall|k: int| 0 <= k < group.len() ==> group[k] == WILDCARD_MARK
}

/// The symbol that one group denotes: a wildcard, or the byte whose value
/// its digits give. `None` if it has not the width of the radix, mixes
/// digits with marks, holds another character, or gives more than 255.
pub open spec fn group_symbol(radix: Radix, group: Seq<u8>) -> Option<Symbol> {
    if group.len() != group_width(radix) {
        None
    } else if all_marks(group) {
        Some(Symbol::Wildcard)
    } else {
        match group_value(radix, group) {
            Some(value) => if value <= 255 {
                Some(Symbol::Fixed(value as u8))
            } else {
                None
            },
            None => None,
        }
    }
}

/// The symbols of a run of groups written without a gap.
pub open spec fn groups_symbols(radix: Radix, word: Seq<u8>) -> Option<Seq<Symbol>>
    decreases word.len(),
{
    let width = group_width(radix) as int;
    if word.len() == 0 {
        Some(Seq::empty())
    } else if word.len() < width {
        None
    } else {
        match (group_symbol(radix, word.take(width)), groups_symbols(radix, word.skip(width))) {
            (Some(first), Some(rest)) => Some(seq![first] + rest),
            _ => None,
        }
    }
}

/// The radix that the first two bytes of a word name: `0x`, `0o` or `0b`.
pub open spec fn prefix_radix(word: Seq<u8>) -> Option<Radix> {
    if word.len() >= 2 && word[0] == 0x30 {
        if word[1] == 0x78 {
            Some(Radix::Hex)
        } else if word[1] == 0x6F {
            Some(Radix::Octal)
        } else if word[1] == 0x62 {
            Some(Radix::Binary)
        } else {
            None
        }
    } else {
        None
    }
}

/// The symbols of one word. A single wildcard mark is one wildcard. Any
/// other word is a run of whole groups: in the radix given, or, where none
/// is given, behind a prefix that names the radix, and then at least one.
pub open spec fn word_symbols(radix: Option<Radix>, word: Seq<u8>) -> Option<Seq<Symbol>> {
    if word == seq![WILDCARD_MARK] {
        Some(seq![Symbol::Wildcard])
    } else {
        match radix {
            Some(given) => groups_symbols(given, word),
            None => match prefix_radix(word) {
                Some(named) => if word.len() > 2 {
                    groups_symbols(named, word.skip(2))
                } else {
                    None
                },
                None => None,
            },
        }
    }
}

/// The length of the word at the start of `text`: the bytes before the
/// first blank.
pub open spec fn word_len(text: Seq<u8>) -> nat
    decreases text.len(),
{
    if text.len() == 0 || is_blank(text[0]) {
        0
    } else {
        1 + word_len(text.skip(1))
    }
}

/// The word at the start of a text is inside the text, and not empty where
/// the text begins with something else than a blank.
pub proof fn lemma_word_len_bounds(text: Seq<u8>)
    ensures
        word_len(text) <= text.len(),
        text.len() > 0 && !is_blank(text[0]) ==> word_len(text) >= 1,
    decreases text.len(),
{
    if text.len() > 0 && !is_blank(text[0]) {
        lemma_word_len_bounds(text.skip(1));
    }
}

/// The symbols of all the words of `text`, in order; `None` if one word
/// denotes none.
pub open spec fn text_symbols(radix: Option<Radix>, text: Seq<u8>) -> Option<Seq<Symbol>>
    decreases text.len(),
{
    if text.len() == 0 {
        Some(Seq::empty())
    } else if is_blank(text[0]) {
        text_symbols(radix, text.skip(1))
    } else {
        proof {
            lemma_word_len_bounds(text);
        }
        let n = word_len(text) as int;
        match (word_symbols(radix, text.take(n)), text_symbols(radix, text.skip(n))) {
            (Some(first), Some(rest)) => Some(first + rest),
            _ => None,
        }
    }
}

/// The pattern that a literal denotes: the symbols of its words, if every
/// word denotes some and there is at least one symbol. With `None` for the
/// radix each word names its own.
pub open spec fn parse_spec(radix: Option<Radix>, text: Seq<u8>) -> Option<Seq<Symbol>> {
    match text_symbols(radix, text) {
        Some(symbols) => if symbols.len() >= 1 {
            Some(symbols)
        } else {
            None
        },
        None => None,
    }
}

/// `symbols` followed by `rest`, if there is a `rest`.
pub open spec fn followed_by(symbols: Seq<Symbol>, rest: Option<Seq<Symbol>>) -> Option<
    Seq<Symbol>,
> {
    match rest {
        Some(more) => Some(symbols + more),
        None => None,
    }
}

/// The digits before any place of a run denote a number too, and no greater
/// one than the whole run.
pub proof fn lemma_group_value_prefix(radix: Radix, group: Seq<u8>, k: int)
    requires
        0 <= k <= group.len(),
        group_value(radix, group) is Some,
    ensures
        group_value(radix, group.take(k)) is Some,
        group_value(radix, group.take(k))->0 <= group_value(radix, group)->0,
    decreases group.len(),
{
    if k == group.len() {
        assert(group.take(k) =~= group);
    } else {
        let init = group.drop_last();
        assert(init.take(k) =~= group.take(k));
        lemma_group_value_prefix(radix, init, k);
        let high = group_value(radix, init)->0;
        assert(high <= high * radix_base(radix)) by (nonlinear_arith)
            requires
                radix_base(radix) >= 1,
        ;
    }
}

impl Radix {
    /// The number of digits that make one byte.
    pub fn width(&self) -> (r: usize)
        ensures
            r == group_width(*self),
    {
        match self {
            Radix::Hex => 2,
            Radix::Octal => 3,
            Radix::Binary => 8,
        }
    }

    /// The number of digit values.
    pub fn base(&self) -> (r: u32)
        ensures
            r == radix_base(*self),
    {
        match self {
            Radix::Hex => 16,
            Radix::Octal => 8,
            Radix::Binary => 2,
        }
    }

    /// The value of `c` as a digit of this radix, if it is one.
    pub fn digit(&self, c: u8) -> (r: Option<u8>)
        ensures
            match digit_value(*self, c) {
                Some(d) => r == Some(d as u8) && d < 16,
                None => r is None,
            },
    {
        let d: u8 = if 0x30 <= c && c <= 0x39 {
            c - 0x30
        } else if 0x41 <= c && c <= 0x46 {
            c - 0x41 + 10
        } else if 0x61 <= c && c <= 0x66 {
            c - 0x61 + 10
        } else {
            return None;
        };
        if (d as u32) < self.base() {
            Some(d)
        } else {
            None
        }
    }
}

/// Whether `c` sets words apart.
fn blank(c: u8) -> (r: bool)
    ensures
        r == is_blank(c),
{
    c == 0x20 || c == 0x09 || c == 0x0A || c == 0x0C || c == 0x0D
}

/// Reads the group that starts at `start`.
fn read_group(radix: Radix, bytes: &[u8], start: usize) -> (r: Option<Symbol>)
    requires
        start + group_width(radix) <= bytes@.len(),
    ensures
        r == group_symbol(radix, bytes@.subrange(start as int, start + group_width(radix))),
{
    let width = radix.width();
    let base = radix.base();
    let total = bytes.len();
    let ghost group = bytes@.subrange(start as int, start + width);
    let mut marks = true;
    let mut k: usize = 0;
    while k < width
        invariant
            k <= width,
            width == group_width(radix),
            start + width <= bytes@.len(),
            total == bytes@.len(),
            group == bytes@.subrange(start as int, start + width),
            marks == (forall|j: int| 0 <= j < k ==> group[j] == WILDCARD_MARK),
        decreases width - k,
    {
        if bytes[start + k] != WILDCARD_MARK {
            assert(group[k as int] != WILDCARD_MARK);
            marks = false;
        }
        k += 1;
    }
    if marks {
        return Some(Symbol::Wildcard);
    }
    let mut value: u32 = 0;
    k = 0;
    assert(group.take(0) =~= Seq::<u8>::empty());
    while k < width
        invariant
            k <= width,
            width == group_width(radix),
            base == radix_base(radix),
            start + width <= bytes@.len(),
            total == bytes@.len(),
            group == bytes@.subrange(start as int, start + width),
            !all_marks(group),
            group_value(radix, group.take(k as int)) == Some(value as nat),
            value <= 255,
        decreases width - k,
    {
        let ghost next = group.take(k + 1);
        proof {
            assert(next.drop_last() =~= group.take(k as int));
            assert(next.last() == bytes@[start + k]);
        }
        match radix.digit(bytes[start + k]) {
            None => {
                proof {
                    if group_value(radix, group) is Some {
                        lemma_group_value_prefix(radix, group, k + 1);
                    }
                }
                return None;
            },
            Some(d) => {
                assert(value * base + d <= 255 * 16 + 15) by (nonlinear_arith)
                    requires
                        value <= 255,
                        base <= 16,
                        d <= 15,
                ;
                value = value * base + d as u32;
                if value > 255 {
                    proof {
                        if group_value(radix, group) is Some {
                            lemma_group_value_prefix(radix, group, k + 1);
                        }
                    }
                    return None;
                }
            },
        }
        k += 1;
    }
    assert(group.take(k as int) =~= group);
    Some(Symbol::Fixed(value as u8))
}

/// Reads the groups `bytes[start..end]` and appends their symbols to `out`.
/// Where they denote none, `false` comes back and `out` holds no more than
/// the symbols of the groups before the fault.
fn read_groups(radix: Radix, bytes: &[u8], start: usize, end: usize, out: &mut Vec<Symbol>) -> (ok:
    bool)
    requires
        start <= end <= bytes@.len(),
    ensures
        match groups_symbols(radix, bytes@.subrange(start as int, end as int)) {
            Some(symbols) => ok && final(out)@ == old(out)@ + symbols,
            None => !ok,
        },
{
    let ghost word = bytes@.subrange(start as int, end as int);
    let ghost before = out@;
    let width = radix.width();
    let mut j: usize = start;
    let ghost mut done: Seq<Symbol> = Seq::empty();
    proof {
        assert(before + done =~= before);
        let all = groups_symbols(radix, word);
        if all is Some {
            assert(done + all->0 =~= all->0);
        }
    }
    while j < end
        invariant
            start <= j <= end <= bytes@.len(),
            width == group_width(radix),
            word == bytes@.subrange(start as int, end as int),
            out@ == before + done,
            groups_symbols(radix, word) == followed_by(
                done,
                groups_symbols(radix, bytes@.subrange(j as int, end as int)),
            ),
        decreases end - j,
    {
        let ghost rest = bytes@.subrange(j as int, end as int);
        if end - j < width {
            proof {
                assert(rest.len() == end - j);
                assert(groups_symbols(radix, rest) is None);
            }
            return false;
        }
        proof {
            assert(rest.take(width as int) =~= bytes@.subrange(j as int, j + width));
            assert(rest.skip(width as int) =~= bytes@.subrange(j + width, end as int));
        }
        match read_group(radix, bytes, j) {
            None => {
                return false;
            },
            Some(symbol) => {
                out.push(symbol);
                proof {
                    let tail = groups_symbols(radix, bytes@.subrange(j + width, end as int));
                    if tail is Some {
                        assert((done + seq![symbol]) + tail->0 =~= done + (seq![symbol]
                            + tail->0));
                    }
                    assert(before + (done + seq![symbol]) =~= (before + done).push(symbol));
                    done = done + seq![symbol];
                }
            },
        }
        j += width;
    }
    proof {
        assert(bytes@.subrange(j as int, end as int) =~= Seq::<u8>::empty());
        assert(done + Seq::<Symbol>::empty() =~= done);
    }
    true
}

/// The radix that the prefix of the word `bytes[start..end]` names.
fn read_prefix(bytes: &[u8], start: usize, end: usize) -> (r: Option<Radix>)
    requires
        start <= end <= bytes@.len(),
    ensures
        r == prefix_radix(bytes@.subrange(start as int, end as int)),
{
    let ghost word = bytes@.subrange(start as int, end as int);
    if end - start < 2 || bytes[start] != 0x30 {
        return None;
    }
    assert(word[1] == bytes@[start + 1]);
    let mark = bytes[start + 1];
    if mark == 0x78 {
        Some(Radix::Hex)
    } else if mark == 0x6F {
        Some(Radix::Octal)
    } else if mark == 0x62 {
        Some(Radix::Binary)
    } else {
        None
    }
}

/// Reads the word `bytes[start..end]` and appends its symbols to `out`.
/// Where the word denotes none, `false` comes back and `out` holds no more
/// than the symbols of the groups before the fault.
fn read_word(
    radix: Option<Radix>,
    bytes: &[u8],
    start: usize,
    end: usize,
    out: &mut Vec<Symbol>,
) -> (ok: bool)
    requires
        start < end <= bytes@.len(),
    ensures
        match word_symbols(radix, bytes@.subrange(start as int, end as int)) {
            Some(symbols) => ok && final(out)@ == old(out)@ + symbols,
            None => !ok,
        },
{
    let ghost word = bytes@.subrange(start as int, end as int);
    let ghost before = out@;
    if end - start == 1 && bytes[start] == WILDCARD_MARK {
        out.push(Symbol::Wildcard);
        proof {
            assert(word =~= seq![WILDCARD_MARK]);
            assert(out@ =~= before + seq![Symbol::Wildcard]);
        }
        return true;
    }
    assert(word != seq![WILDCARD_MARK]) by {
        if word == seq![WILDCARD_MARK] {
            assert(word.len() == 1);
            assert(word[0] == WILDCARD_MARK);
        }
    }
    match radix {
        Some(given) => read_groups(given, bytes, start, end, out),
        None => match read_prefix(bytes, start, end) {
            Some(named) => {
                if end - start > 2 {
                    assert(word.skip(2) =~= bytes@.subrange(start + 2, end as int));
                    read_groups(named, bytes, start + 2, end, out)
                } else {
                    false
                }
            },
            None => false,
        },
    }
}

/// The end of the word that starts at `start`: the place of the first blank
/// at or after it, or the end of the text.
fn word_end(bytes: &[u8], start: usize) -> (end: usize)
    requires
        start <= bytes@.len(),
    ensures
        end == start + word_len(bytes@.skip(start as int)),
        end <= bytes@.len(),
{
    let mut end: usize = start;
    while end < bytes.len() && !blank(bytes[end])
        invariant
            start <= end <= bytes@.len(),
            start + word_len(bytes@.skip(start as int)) == end + word_len(bytes@.skip(end as int)),
        decreases bytes@.len() - end,
    {
        proof {
            assert(bytes@.skip(end as int).skip(1) =~= bytes@.skip(end + 1));
        }
        end += 1;
    }
    end
}

/// Reads a literal given as bytes. With `None` for the radix each word
/// names its own.
pub fn parse_bytes(bytes: &[u8], radix: Option<Radix>) -> (r: Result<Pattern, PatternError>)
    ensures
        match parse_spec(radix, bytes@) {
            Some(symbols) => r is Ok && r->Ok_0@ == symbols,
            None => r is Err && r->Err_0 == PatternError::InvalidPatternSyntax,
        },
{
    let mut symbols: Vec<Symbol> = Vec::new();
    let mut i: usize = 0;
    proof {
        assert(bytes@.skip(0) =~= bytes@);
        let rest = text_symbols(radix, bytes@);
        if rest is Some {
            assert(symbols@ + rest->0 =~= rest->0);
        }
    }
    while i < bytes.len()
        invariant
            i <= bytes@.len(),
            text_symbols(radix, bytes@) == followed_by(
                symbols@,
                text_symbols(radix, bytes@.skip(i as int)),
            ),
        decreases bytes@.len() - i,
    {
        let ghost text = bytes@.skip(i as int);
        if blank(bytes[i]) {
            proof {
                assert(text.skip(1) =~= bytes@.skip(i + 1));
            }
            i += 1;
        } else {
            let end = word_end(bytes, i);
            let ghost before = symbols@;
            proof {
                lemma_word_len_bounds(text);
                assert(text.take(end - i) =~= bytes@.subrange(i as int, end as int));
                assert(text.skip(end - i) =~= bytes@.skip(end as int));
            }
            if !read_word(radix, bytes, i, end, &mut symbols) {
                return Err(PatternError::InvalidPatternSyntax);
            }
            proof {
                let first = word_symbols(radix, bytes@.subrange(i as int, end as int))->0;
                let rest = text_symbols(radix, bytes@.skip(end as int));
                if rest is Some {
                    assert((before + first) + rest->0 =~= before + (first + rest->0));
                }
            }
            i = end;
        }
    }
    proof {
        assert(bytes@.skip(i as int) =~= Seq::<u8>::empty());
        assert(symbols@ + Seq::<Symbol>::empty() =~= symbols@);
    }
    Pattern::new(symbols)
}

impl Pattern {
    /// Reads a literal whose digits are of the given radix.
    pub fn parse(text: &str, radix: Radix) -> (r: Result<Pattern, PatternError>)
        ensures
            match parse_spec(Some(radix), text.spec_bytes()) {
                Some(symbols) => r is Ok && r->Ok_0@ == symbols,
                None => r is Err && r->Err_0 == PatternError::InvalidPatternSyntax,
            },
    {
        parse_bytes(text.as_bytes(), Some(radix))
    }

    /// Reads a literal in which each word names its radix by a prefix:
    /// `0x` for hexadecimal, `0o` for octal, `0b` for binary digits.
    pub fn parse_prefixed(text: &str) -> (r: Result<Pattern, PatternError>)
        ensures
            match parse_spec(None, text.spec_bytes()) {
                Some(symbols) => r is Ok && r->Ok_0@ == symbols,
                None => r is Err && r->Err_0 == PatternError::InvalidPatternSyntax,
            },
    {
        parse_bytes(text.as_bytes(), None)
    }
}

} // verus!
