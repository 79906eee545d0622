//! Errors of parsing and of typed decoding.
use vstd::prelude::*;

verus! {

/// The construct that the parser was reading when it failed.
#[derive(Clone, Copy, Debug, PartialEq, Eq, Structural)]
pub enum Context {
    Ident,
    String,
    Array,
    List,
    Object,
}

/// What the parser expected to find where it failed.
#[derive(Clone, Copy, Debug, PartialEq, Eq, Structural)]
pub enum Expected {
    /// A value of any kind.
    Value,
    /// An identifier.
    Ident,
    /// This character.
    Char(char),
    /// A known escape after a backslash.
    Escape,
    /// A closing quote before the end of the input.
    Quote,
    /// Nothing but whitespace up to the end of the input.
    End,
    /// A document whose value is an object.
    Object,
}

/// A syntax error: where it occurred, what was expected there, and the
/// nested constructs that were being read, innermost first. `position`
/// counts characters from the start of the input, `offset` counts bytes.
#[derive(Debug, PartialEq)]
pub struct SyntaxError {
    pub offset: usize,
    pub position: usize,
    pub expected: Expected,
    pub context: Vec<Context>,
}

/// How many bytes UTF-8 takes for `c`.
pub open spec fn utf8_width(c: char) -> nat {
    if (c as u32) < 0x80 {
        1
    } else if (c as u32) < 0x800 {
        2
    } else if (c as u32) < 0x10000 {
        3
    } else {
        4
    }
}

/// The byte offset of the character at position `i` of `s`.
pub open spec fn byte_offset(s: Seq<char>, i: int) -> nat
    decreases i,
{
    if i <= 0 || i > s.len() {
        0
    } else {
        byte_offset(s, i - 1) + utf8_width(s[i - 1])
    }
}

/// The byte offset, or the largest `usize` where it does not fit.
pub open spec fn byte_offset_capped(s: Seq<char>, i: int) -> nat {
    if byte_offset(s, i) <= usize::MAX {
        byte_offset(s, i)
    } else {
        usize::MAX as nat
    }
}

fn utf8_width_of(c: char) -> (r: usize)
    ensures
        r == utf8_width(c),
{
    let u = c as u32;
    if u < 0x80 {
        1
    } else if u < 0x800 {
        2
    } else if u < 0x10000 {
        3
    } else {
        4
    }
}

impl SyntaxError {
    /// An error at character `position`, with that number as its offset
    /// until `located` sets the byte offset.
    pub fn new(position: usize, expected: Expected) -> (r: SyntaxError)
        ensures
            r.position == position,
            r.offset == position,
            r.expected == expected,
            r.context@.len() == 0,
    {
        SyntaxError { offset: position, position, expected, context: Vec::new() }
    }

    /// The same error, read inside one more construct.
    pub fn within(self, c: Context) -> (r: SyntaxError)
        ensures
            r.position == self.position,
            r.expected == self.expected,
            r.context@ == self.context@.push(c),
    {
        let mut e = self;
        e.context.push(c);
        e
    }

    /// The same error, with the byte offset of its position in `s`.
    pub fn located(self, s: &Vec<char>) -> (r: SyntaxError)
        requires
            self.position <= s.len(),
        ensures
            r.position == self.position,
            r.expected == self.expected,
            r.context@ == self.context@,
            r.offset == byte_offset_capped(s@, self.position as int),
    {
        let mut total: usize = 0;
        let mut q: usize = 0;
        while q < self.position
            invariant
                q <= self.position <= s.len(),
                total == byte_offset_capped(s@, q as int),
            decreases self.position - q,
        {
            let w = utf8_width_of(s[q]);
            total = if total > usize::MAX - w { usize::MAX } else { total + w };
            q = q + 1;
        }
        let mut e = self;
        e.offset = total;
        e
    }
}

/// The shape that a decoder asked for.
#[derive(Clone, Copy, Debug, PartialEq, Eq, Structural)]
pub enum Shape {
    Bool,
    Int,
    Float,
    String,
    Char,
    Identifier,
    Sequence,
    Struct,
    Mapping,
    Optional,
    Unit,
    Newtype,
    Enum,
    Any,
}

/// The kind of a token.
#[derive(Clone, Copy, Debug, PartialEq, Eq, Structural)]
pub enum TokenKind {
    Bool,
    Int,
    Float,
    String,
    Identifier,
    Count,
}

/// An error of parsing or of typed decoding.
#[derive(Debug, PartialEq)]
pub enum Error {
    /// The text does not follow the grammar.
    Syntax(SyntaxError),
    /// The next token is not of the kind that the requested shape needs.
    ShapeMismatch { expected: Shape, found: TokenKind },
    /// A count token holds a number that the requested shape does not allow.
    BadCount { expected: Shape, count: usize },
    /// The tokens ran out.
    Truncated,
    /// A shape was requested without saying which: the format needs it said.
    Unsupported,
    /// A character was requested from an empty string.
    EmptyChar,
    /// An integer does not fit in the requested type.
    OutOfRange,
    /// Tokens were left after the value was decoded.
    Trailing,
    /// An error that a decoder of a user's type reports.
    Message(String),
}

} // verus!
