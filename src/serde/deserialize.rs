//! The decoder: tokens handed out to the shape that the consumer requests.
use vstd::prelude::*;
use crate::error::{Error, Shape, TokenKind};
use crate::serde::codec::Codec;
use crate::token::{Tok, Token, flatten, tokens_of, tok_views};
use crate::value::Value;

verus! {

/// Hands out the tokens of a value, front to back, one requested shape at
/// a time. Nothing is ever handed out twice.
pub struct Deserializer {
    tokens: Vec<Token>,
    pos: usize,
}

/// What a request for a shape that reads one token returns, given the token.
pub open spec fn scalar_result<T>(t: Tok, shape: Shape, ok: Option<T>) -> Result<T, Error> {
    match ok {
        Some(x) => Ok(x),
        None => Err(Error::ShapeMismatch { expected: shape, found: t.kind() }),
    }
}

pub open spec fn bool_of(t: Tok) -> Option<bool> {
    match t {
        Tok::Bool(b) => Some(b),
        _ => None,
    }
}

pub open spec fn int_of(t: Tok) -> Option<i64> {
    match t {
        Tok::Int(i) => Some(i),
        _ => None,
    }
}

pub open spec fn float_of(t: Tok) -> Option<Seq<char>> {
    match t {
        Tok::Float(f) => Some(f),
        _ => None,
    }
}

pub open spec fn string_of(t: Tok) -> Option<Seq<char>> {
    match t {
        Tok::Str(s) => Some(s),
        _ => None,
    }
}

/// An identifier is read from an identifier token or from a string token.
pub open spec fn ident_of(t: Tok) -> Option<Seq<char>> {
    match t {
        Tok::Ident(s) => Some(s),
        Tok::Str(s) => Some(s),
        _ => None,
    }
}

pub open spec fn count_of(t: Tok) -> Option<nat> {
    match t {
        Tok::Count(n) => Some(n),
        _ => None,
    }
}

/// What a request for a count that must equal `want` returns.
pub open spec fn fixed_count_result(t: Tok, shape: Shape, want: nat) -> Result<(), Error> {
    match t {
        Tok::Count(n) => if n == want {
            Ok(())
        } else {
            Err(Error::BadCount { expected: shape, count: n as usize })
        },
        _ => Err(Error::ShapeMismatch { expected: shape, found: t.kind() }),
    }
}

/// What a request for an option returns: a count of 0 is absent, 1 present.
pub open spec fn option_result(t: Tok) -> Result<bool, Error> {
    match t {
        Tok::Count(n) => if n == 0 {
            Ok(false)
        } else if n == 1 {
            Ok(true)
        } else {
            Err(Error::BadCount { expected: Shape::Optional, count: n as usize })
        },
        _ => Err(Error::ShapeMismatch { expected: Shape::Optional, found: t.kind() }),
    }
}

impl Deserializer {
    /// The decoder's position lies within its tokens.
    pub closed spec fn wf(&self) -> bool {
        self.pos <= self.tokens.len()
    }

    /// The tokens not handed out yet.
    pub closed spec fn remaining(&self) -> Seq<Tok> {
        tok_views(self.tokens@).skip(self.pos as int)
    }

    /// A decoder over the tokens of `v`.
    pub fn new(v: &Value) -> (r: Deserializer)
        ensures
            r.wf(),
            r.remaining() == tokens_of(v@),
    {
        let mut tokens: Vec<Token> = Vec::new();
        flatten(&mut tokens, v);
        assert(tok_views(tokens@) =~= Seq::<Tok>::empty() + tokens_of(v@));
        assert(tok_views(tokens@).skip(0) =~= tok_views(tokens@));
        Deserializer { tokens, pos: 0 }
    }

    /// All tokens have been handed out.
    pub fn is_done(&self) -> (r: bool)
        requires
            self.wf(),
        ensures
            r == (self.remaining().len() == 0),
    {
        self.pos >= self.tokens.len()
    }

    /// Steps past the next token and returns it.
    fn take(&mut self) -> (r: Option<&Token>)
        requires
            old(self).wf(),
        ensures
            final(self).wf(),
            old(self).remaining().len() == 0 ==> r is None && final(self).remaining() == old(self).remaining(),
            old(self).remaining().len() > 0 ==> r is Some && r->Some_0@ == old(self).remaining()[0]
                && final(self).remaining() == old(self).remaining().drop_first(),
    {
        if self.pos >= self.tokens.len() {
            None
        } else {
            let p = self.pos;
            self.pos = p + 1;
            assert(tok_views(self.tokens@).skip(p + 1) =~= tok_views(self.tokens@).skip(p as int).drop_first());
            Some(&self.tokens[p])
        }
    }

    /// The next token, left in place.
    fn peek(&self) -> (r: Option<&Token>)
        requires
            self.wf(),
        ensures
            self.remaining().len() == 0 ==> r is None,
            self.remaining().len() > 0 ==> r is Some && r->Some_0@ == self.remaining()[0],
    {
        if self.pos >= self.tokens.len() {
            None
        } else {
            Some(&self.tokens[self.pos])
        }
    }

    /// Reads a boolean.
    pub fn deserialize_bool(&mut self) -> (r: Result<bool, Error>)
        requires
            old(self).wf(),
        ensures
            final(self).wf(),
            old(self).remaining().len() == 0 ==> r == Err::<bool, Error>(Error::Truncated)
                && final(self).remaining() == old(self).remaining(),
            old(self).remaining().len() > 0 ==> final(self).remaining() == old(self).remaining().drop_first()
                && r == scalar_result(old(self).remaining()[0], Shape::Bool, bool_of(old(self).remaining()[0])),
    {
        match self.take() {
            None => Err(Error::Truncated),
            Some(t) => match t {
                Token::Bool(b) => Ok(*b),
                _ => Err(Error::ShapeMismatch { expected: Shape::Bool, found: t.kind() }),
            },
        }
    }

    /// Reads an integer.
    pub fn deserialize_i64(&mut self) -> (r: Result<i64, Error>)
        requires
            old(self).wf(),
        ensures
            final(self).wf(),
            old(self).remaining().len() == 0 ==> r == Err::<i64, Error>(Error::Truncated)
                && final(self).remaining() == old(self).remaining(),
            old(self).remaining().len() > 0 ==> final(self).remaining() == old(self).remaining().drop_first()
                && r == scalar_result(old(self).remaining()[0], Shape::Int, int_of(old(self).remaining()[0])),
    {
        match self.take() {
            None => Err(Error::Truncated),
            Some(t) => match t {
                Token::Int(i) => Ok(*i),
                _ => Err(Error::ShapeMismatch { expected: Shape::Int, found: t.kind() }),
            },
        }
    }

    /// Reads a float, as the literal text that denotes it.
    pub fn deserialize_float(&mut self) -> (r: Result<String, Error>)
        requires
            old(self).wf(),
        ensures
            final(self).wf(),
            old(self).remaining().len() == 0 ==> r == Err::<String, Error>(Error::Truncated)
                && final(self).remaining() == old(self).remaining(),
            old(self).remaining().len() > 0 ==> final(self).remaining() == old(self).remaining().drop_first()
                && match float_of(old(self).remaining()[0]) {
                    Some(x) => r is Ok && r->Ok_0@ == x,
                    None => r == Err::<String, Error>(Error::ShapeMismatch { expected: Shape::Float, found: old(self).remaining()[0].kind() }),
                },
    {
        match self.take() {
            None => Err(Error::Truncated),
            Some(t) => match t {
                Token::Float(f) => Ok(f.clone()),
                _ => Err(Error::ShapeMismatch { expected: Shape::Float, found: t.kind() }),
            },
        }
    }

    /// Reads a string.
    pub fn deserialize_string(&mut self) -> (r: Result<String, Error>)
        requires
            old(self).wf(),
        ensures
            final(self).wf(),
            old(self).remaining().len() == 0 ==> r == Err::<String, Error>(Error::Truncated)
                && final(self).remaining() == old(self).remaining(),
            old(self).remaining().len() > 0 ==> final(self).remaining() == old(self).remaining().drop_first()
                && match string_of(old(self).remaining()[0]) {
                    Some(x) => r is Ok && r->Ok_0@ == x,
                    None => r == Err::<String, Error>(Error::ShapeMismatch { expected: Shape::String, found: old(self).remaining()[0].kind() }),
                },
    {
        match self.take() {
            None => Err(Error::Truncated),
            Some(t) => match t {
                Token::String(s) => Ok(s.clone()),
                _ => Err(Error::ShapeMismatch { expected: Shape::String, found: t.kind() }),
            },
        }
    }

    /// Reads an identifier: an object key, or a string that names an enum variant.
    pub fn deserialize_identifier(&mut self) -> (r: Result<String, Error>)
        requires
            old(self).wf(),
        ensures
            final(self).wf(),
            old(self).remaining().len() == 0 ==> r == Err::<String, Error>(Error::Truncated)
                && final(self).remaining() == old(self).remaining(),
            old(self).remaining().len() > 0 ==> final(self).remaining() == old(self).remaining().drop_first()
                && match ident_of(old(self).remaining()[0]) {
                    Some(x) => r is Ok && r->Ok_0@ == x,
                    None => r == Err::<String, Error>(Error::ShapeMismatch { expected: Shape::Identifier, found: old(self).remaining()[0].kind() }),
                },
    {
        match self.take() {
            None => Err(Error::Truncated),
            Some(t) => match t {
                Token::Identifier(s) | Token::String(s) => Ok(s.clone()),
                _ => Err(Error::ShapeMismatch { expected: Shape::Identifier, found: t.kind() }),
            },
        }
    }

    /// Reads the length of a sequence or a tuple; its items follow.
    pub fn deserialize_seq(&mut self) -> (r: Result<usize, Error>)
        requires
            old(self).wf(),
        ensures
            final(self).wf(),
            old(self).remaining().len() == 0 ==> r == Err::<usize, Error>(Error::Truncated)
                && final(self).remaining() == old(self).remaining(),
            old(self).remaining().len() > 0 ==> final(self).remaining() == old(self).remaining().drop_first()
                && match count_of(old(self).remaining()[0]) {
                    Some(n) => n <= usize::MAX && r == Ok::<usize, Error>(n as usize),
                    None => r == Err::<usize, Error>(Error::ShapeMismatch { expected: Shape::Sequence, found: old(self).remaining()[0].kind() }),
                },
    {
        match self.take() {
            None => Err(Error::Truncated),
            Some(t) => match t {
                Token::Count(n) => Ok(*n),
                _ => Err(Error::ShapeMismatch { expected: Shape::Sequence, found: t.kind() }),
            },
        }
    }

    /// Reads the number of members of a struct, written as an object; each
    /// member follows as its name, an identifier, and its value.
    pub fn deserialize_struct(&mut self) -> (r: Result<usize, Error>)
        requires
            old(self).wf(),
        ensures
            final(self).wf(),
            old(self).remaining().len() == 0 ==> r == Err::<usize, Error>(Error::Truncated)
                && final(self).remaining() == old(self).remaining(),
            old(self).remaining().len() > 0 ==> final(self).remaining() == old(self).remaining().drop_first()
                && match count_of(old(self).remaining()[0]) {
                    Some(n) => n <= usize::MAX && r == Ok::<usize, Error>(n as usize),
                    None => r == Err::<usize, Error>(Error::ShapeMismatch { expected: Shape::Struct, found: old(self).remaining()[0].kind() }),
                },
    {
        match self.take() {
            None => Err(Error::Truncated),
            Some(t) => match t {
                Token::Count(n) => Ok(*n),
                _ => Err(Error::ShapeMismatch { expected: Shape::Struct, found: t.kind() }),
            },
        }
    }

    /// Reads the number of entries of a map, written as an object; each entry
    /// follows as its key, an identifier, and its value.
    pub fn deserialize_map(&mut self) -> (r: Result<usize, Error>)
        requires
            old(self).wf(),
        ensures
            final(self).wf(),
            old(self).remaining().len() == 0 ==> r == Err::<usize, Error>(Error::Truncated)
                && final(self).remaining() == old(self).remaining(),
            old(self).remaining().len() > 0 ==> final(self).remaining() == old(self).remaining().drop_first()
                && match count_of(old(self).remaining()[0]) {
                    Some(n) => n <= usize::MAX && r == Ok::<usize, Error>(n as usize),
                    None => r == Err::<usize, Error>(Error::ShapeMismatch { expected: Shape::Mapping, found: old(self).remaining()[0].kind() }),
                },
    {
        match self.take() {
            None => Err(Error::Truncated),
            Some(t) => match t {
                Token::Count(n) => Ok(*n),
                _ => Err(Error::ShapeMismatch { expected: Shape::Mapping, found: t.kind() }),
            },
        }
    }

    /// Reads a unit: an empty list.
    pub fn deserialize_unit(&mut self) -> (r: Result<(), Error>)
        requires
            old(self).wf(),
        ensures
            final(self).wf(),
            old(self).remaining().len() == 0 ==> r == Err::<(), Error>(Error::Truncated)
                && final(self).remaining() == old(self).remaining(),
            old(self).remaining().len() > 0 ==> final(self).remaining() == old(self).remaining().drop_first()
                && r == fixed_count_result(old(self).remaining()[0], Shape::Unit, 0),
    {
        match self.take() {
            None => Err(Error::Truncated),
            Some(t) => match t {
                Token::Count(n) => if *n == 0 {
                    Ok(())
                } else {
                    Err(Error::BadCount { expected: Shape::Unit, count: *n })
                },
                _ => Err(Error::ShapeMismatch { expected: Shape::Unit, found: t.kind() }),
            },
        }
    }

    /// Reads the wrapper of a newtype: a list of one item, which follows.
    pub fn deserialize_newtype_struct(&mut self) -> (r: Result<(), Error>)
        requires
            old(self).wf(),
        ensures
            final(self).wf(),
            old(self).remaining().len() == 0 ==> r == Err::<(), Error>(Error::Truncated)
                && final(self).remaining() == old(self).remaining(),
            old(self).remaining().len() > 0 ==> final(self).remaining() == old(self).remaining().drop_first()
                && r == fixed_count_result(old(self).remaining()[0], Shape::Newtype, 1),
    {
        match self.take() {
            None => Err(Error::Truncated),
            Some(t) => match t {
                Token::Count(n) => if *n == 1 {
                    Ok(())
                } else {
                    Err(Error::BadCount { expected: Shape::Newtype, count: *n })
                },
                _ => Err(Error::ShapeMismatch { expected: Shape::Newtype, found: t.kind() }),
            },
        }
    }

    /// Reads whether an option is present: a list of no item, or of one
    /// item, which follows.
    pub fn deserialize_option(&mut self) -> (r: Result<bool, Error>)
        requires
            old(self).wf(),
        ensures
            final(self).wf(),
            old(self).remaining().len() == 0 ==> r == Err::<bool, Error>(Error::Truncated)
                && final(self).remaining() == old(self).remaining(),
            old(self).remaining().len() > 0 ==> final(self).remaining() == old(self).remaining().drop_first()
                && r == option_result(old(self).remaining()[0]),
    {
        match self.take() {
            None => Err(Error::Truncated),
            Some(t) => match t {
                Token::Count(n) => if *n == 0 {
                    Ok(false)
                } else if *n == 1 {
                    Ok(true)
                } else {
                    Err(Error::BadCount { expected: Shape::Optional, count: *n })
                },
                _ => Err(Error::ShapeMismatch { expected: Shape::Optional, found: t.kind() }),
            },
        }
    }

    /// Reads an integer that must fit in `i32`.
    pub fn deserialize_i32(&mut self) -> (r: Result<i32, Error>)
        requires
            old(self).wf(),
        ensures
            final(self).wf(),
            old(self).remaining().len() == 0 ==> r == Err::<i32, Error>(Error::Truncated)
                && final(self).remaining() == old(self).remaining(),
            old(self).remaining().len() > 0 ==> final(self).remaining() == old(self).remaining().drop_first()
                && match int_of(old(self).remaining()[0]) {
                    Some(i) => if i32::MIN <= i <= i32::MAX {
                        r == Ok::<i32, Error>(i as i32)
                    } else {
                        r == Err::<i32, Error>(Error::OutOfRange)
                    },
                    None => r == Err::<i32, Error>(Error::ShapeMismatch { expected: Shape::Int, found: old(self).remaining()[0].kind() }),
                },
    {
        match self.take() {
            None => Err(Error::Truncated),
            Some(t) => match t {
                Token::Int(i) => if i32::MIN as i64 <= *i && *i <= i32::MAX as i64 {
                    Ok(*i as i32)
                } else {
                    Err(Error::OutOfRange)
                },
                _ => Err(Error::ShapeMismatch { expected: Shape::Int, found: t.kind() }),
            },
        }
    }

    /// Reads a character: the first of a string, which must not be empty.
    pub fn deserialize_char(&mut self) -> (r: Result<char, Error>)
        requires
            old(self).wf(),
        ensures
            final(self).wf(),
            old(self).remaining().len() == 0 ==> r == Err::<char, Error>(Error::Truncated)
                && final(self).remaining() == old(self).remaining(),
            old(self).remaining().len() > 0 ==> final(self).remaining() == old(self).remaining().drop_first()
                && match string_of(old(self).remaining()[0]) {
                    Some(x) => if x.len() > 0 {
                        r == Ok::<char, Error>(x[0])
                    } else {
                        r == Err::<char, Error>(Error::EmptyChar)
                    },
                    None => r == Err::<char, Error>(Error::ShapeMismatch { expected: Shape::Char, found: old(self).remaining()[0].kind() }),
                },
    {
        match self.take() {
            None => Err(Error::Truncated),
            Some(t) => match t {
                Token::String(x) => {
                    let cs = crate::text::chars_of(x.as_str());
                    if cs.len() > 0 {
                        Ok(cs[0])
                    } else {
                        Err(Error::EmptyChar)
                    }
                },
                _ => Err(Error::ShapeMismatch { expected: Shape::Char, found: t.kind() }),
            },
        }
    }

    /// A request that names no shape. The format cannot serve it: what a
    /// token means depends on the shape the consumer expects.
    pub fn deserialize_any(&mut self) -> (r: Result<(), Error>)
        requires
            old(self).wf(),
        ensures
            final(self).wf(),
            final(self).remaining() == old(self).remaining(),
            r == Err::<(), Error>(Error::Unsupported),
    {
        Err(Error::Unsupported)
    }

    /// Reads the variant of an enum. The variant is written either as a
    /// string holding its name (a unit variant), or as an object of one
    /// member whose key is the name and whose value is the payload, which
    /// follows. Returns the name, and whether the object form was read.
    pub fn deserialize_enum(&mut self) -> (r: Result<(String, bool), Error>)
        requires
            old(self).wf(),
        ensures
            final(self).wf(),
            ({
                let rest = old(self).remaining();
                if rest.len() == 0 {
                    r == Err::<(String, bool), Error>(Error::Truncated) && final(self).remaining() == rest
                } else {
                    match rest[0] {
                        Tok::Str(name) => r is Ok && r->Ok_0.0@ == name && !r->Ok_0.1
                            && final(self).remaining() == rest.drop_first(),
                        Tok::Count(n) => if n != 1 {
                            r == Err::<(String, bool), Error>(Error::BadCount { expected: Shape::Enum, count: n as usize })
                                && final(self).remaining() == rest.drop_first()
                        } else if rest.len() == 1 {
                            r == Err::<(String, bool), Error>(Error::Truncated) && final(self).remaining() == rest.drop_first()
                        } else {
                            final(self).remaining() == rest.skip(2) && match ident_of(rest[1]) {
                                Some(name) => r is Ok && r->Ok_0.0@ == name && r->Ok_0.1,
                                None => r == Err::<(String, bool), Error>(Error::ShapeMismatch { expected: Shape::Identifier, found: rest[1].kind() }),
                            }
                        },
                        t => r == Err::<(String, bool), Error>(Error::ShapeMismatch { expected: Shape::Enum, found: t.kind() })
                            && final(self).remaining() == rest.drop_first(),
                    }
                }
            }),
    {
        let is_string = match self.peek() {
            Some(t) => match t {
                Token::String(_) => true,
                _ => false,
            },
            None => false,
        };
        if is_string {
            match self.deserialize_string() {
                Ok(name) => Ok((name, false)),
                Err(e) => Err(e),
            }
        } else {
            match self.take() {
                None => Err(Error::Truncated),
                Some(t) => match t {
                    Token::Count(n) => if *n != 1 {
                        Err(Error::BadCount { expected: Shape::Enum, count: *n })
                    } else {
                        let ghost mid = self.remaining();
                        let r = self.deserialize_identifier();
                        proof {
                            if mid.len() > 0 {
                                assert(mid.drop_first() =~= old(self).remaining().skip(2));
                            }
                        }
                        match r {
                            Ok(name) => Ok((name, true)),
                            Err(e) => Err(e),
                        }
                    },
                    _ => Err(Error::ShapeMismatch { expected: Shape::Enum, found: t.kind() }),
                },
            }
        }
    }

    /// Reads the payload of a unit variant: nothing after the bare name, an
    /// empty list after the object form.
    pub fn unit_variant(&mut self, object_form: bool) -> (r: Result<(), Error>)
        requires
            old(self).wf(),
        ensures
            final(self).wf(),
            !object_form ==> r == Ok::<(), Error>(()) && final(self).remaining() == old(self).remaining(),
            object_form && old(self).remaining().len() == 0 ==> r == Err::<(), Error>(Error::Truncated)
                && final(self).remaining() == old(self).remaining(),
            object_form && old(self).remaining().len() > 0 ==> final(self).remaining() == old(self).remaining().drop_first()
                && r == fixed_count_result(old(self).remaining()[0], Shape::Unit, 0),
    {
        if object_form {
            self.deserialize_unit()
        } else {
            Ok(())
        }
    }

    /// Reads the wrapper of the payload of a newtype variant: after the
    /// object form, a list of one item, which follows. A bare name has no
    /// payload.
    pub fn newtype_variant(&mut self, object_form: bool) -> (r: Result<(), Error>)
        requires
            old(self).wf(),
        ensures
            final(self).wf(),
            !object_form ==> r == Err::<(), Error>(Error::ShapeMismatch { expected: Shape::Newtype, found: TokenKind::String })
                && final(self).remaining() == old(self).remaining(),
            object_form && old(self).remaining().len() == 0 ==> r == Err::<(), Error>(Error::Truncated)
                && final(self).remaining() == old(self).remaining(),
            object_form && old(self).remaining().len() > 0 ==> final(self).remaining() == old(self).remaining().drop_first()
                && r == fixed_count_result(old(self).remaining()[0], Shape::Newtype, 1),
    {
        if object_form {
            self.deserialize_newtype_struct()
        } else {
            Err(Error::ShapeMismatch { expected: Shape::Newtype, found: TokenKind::String })
        }
    }
}

/// Decodes a value of type `T` from a document. The document must parse,
/// and the decoder of `T` must read all of its tokens.
pub fn from_str<T: Codec>(s: &str) -> (r: Result<T, Error>)
    ensures
        match crate::grammar::parse_document(s@) {
            None => r matches Err(Error::Syntax(e)) && crate::grammar::reports(s@, e),
            Some(t) => T::accepts(t) ==> r is Ok && r->Ok_0.model() == t,
        },
{
    let value = match crate::parser::root(s) {
        Ok(v) => v,
        Err(e) => {
            return Err(Error::Syntax(e));
        },
    };
    let mut d = Deserializer::new(&value);
    assert(tokens_of(value@).is_prefix_of(d.remaining()));
    let r = T::decode(&mut d);
    match r {
        Ok(x) => {
            if d.is_done() {
                Ok(x)
            } else {
                Err(Error::Trailing)
            }
        },
        Err(e) => Err(e),
    }
}

} // verus!
