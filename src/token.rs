//! The decode bridge: a value tree linearised into tokens, and a decoder
//! that hands them out shape by shape, as its consumer requests them.
use vstd::prelude::*;
use crate::error::{Error, Shape, TokenKind};
use crate::printer::concat;
use crate::value::{Tree, Value, lemma_view_parts};

verus! {

/// A token: a scalar, an object key, or the length of what follows.
#[derive(Debug, PartialEq)]
pub enum Token {
    Bool(bool),
    Int(i64),
    Float(String),
    String(String),
    Identifier(String),
    Count(usize),
}

/// The model of a token.
pub enum Tok {
    Bool(bool),
    Int(i64),
    Float(Seq<char>),
    Str(Seq<char>),
    Ident(Seq<char>),
    Count(nat),
}

impl View for Token {
    type V = Tok;

    open spec fn view(&self) -> Tok {
        match self {
            Token::Bool(b) => Tok::Bool(*b),
            Token::Int(i) => Tok::Int(*i),
            Token::Float(f) => Tok::Float(f@),
            Token::String(s) => Tok::Str(s@),
            Token::Identifier(s) => Tok::Ident(s@),
            Token::Count(n) => Tok::Count(*n as nat),
        }
    }
}

impl Tok {
    pub open spec fn kind(self) -> TokenKind {
        match self {
            Tok::Bool(_) => TokenKind::Bool,
            Tok::Int(_) => TokenKind::Int,
            Tok::Float(_) => TokenKind::Float,
            Tok::Str(_) => TokenKind::String,
            Tok::Ident(_) => TokenKind::Identifier,
            Tok::Count(_) => TokenKind::Count,
        }
    }
}

impl Token {
    pub fn kind(&self) -> (r: TokenKind)
        ensures
            r == self@.kind(),
    {
        match self {
            Token::Bool(_) => TokenKind::Bool,
            Token::Int(_) => TokenKind::Int,
            Token::Float(_) => TokenKind::Float,
            Token::String(_) => TokenKind::String,
            Token::Identifier(_) => TokenKind::Identifier,
            Token::Count(_) => TokenKind::Count,
        }
    }
}

/// The models of a sequence of tokens.
pub open spec fn tok_views(s: Seq<Token>) -> Seq<Tok> {
    s.map_values(|t: Token| t@)
}

/// The token sequences of the parts of an array or an object, in order:
/// for a member, its key and then its value's tokens.
pub open spec fn token_parts(t: Tree) -> Seq<Seq<Tok>>
    decreases t, 0nat,
{
    match t {
        Tree::Array(items, _) => Seq::new(
            items.len(),
            |i: int| if 0 <= i < items.len() { tokens_of(items[i]) } else { Seq::empty() },
        ),
        Tree::Object(m) => Seq::new(
            m.len(),
            |i: int| if 0 <= i < m.len() { seq![Tok::Ident(m[i].0)] + tokens_of(m[i].1) } else { Seq::empty() },
        ),
        _ => Seq::empty(),
    }
}

/// The tokens of a tree, depth first: a scalar is one token; an array or an
/// object is its count followed by the tokens of its parts.
pub open spec fn tokens_of(t: Tree) -> Seq<Tok>
    decreases t, 1nat,
{
    match t {
        Tree::Bool(b) => seq![Tok::Bool(b)],
        Tree::Int(i) => seq![Tok::Int(i)],
        Tree::Float(f) => seq![Tok::Float(f)],
        Tree::Str(s) => seq![Tok::Str(s)],
        Tree::Array(items, _) => seq![Tok::Count(items.len())] + concat(token_parts(t)),
        Tree::Object(m) => seq![Tok::Count(m.len())] + concat(token_parts(t)),
    }
}

/// Appends the tokens of `v`.
pub fn flatten(out: &mut Vec<Token>, v: &Value)
    ensures
        tok_views(final(out)@) == tok_views(old(out)@) + tokens_of(v@),
    decreases v,
{
    proof { lemma_view_parts(*v); }
    let ghost old_toks = tok_views(out@);
    match v {
        Value::Bool(b) => {
            out.push(Token::Bool(*b));
        },
        Value::Int(i) => {
            out.push(Token::Int(*i));
        },
        Value::Float(f) => {
            out.push(Token::Float(f.clone()));
        },
        Value::String(s) => {
            out.push(Token::String(s.clone()));
        },
        Value::Array(a, _) => {
            let ghost parts = token_parts(v@);
            out.push(Token::Count(a.len()));
            let ghost start = tok_views(out@);
            assert(start =~= old_toks + seq![Tok::Count(a.len() as nat)]);
            let mut i: usize = 0;
            assert(parts.subrange(0, 0) =~= Seq::<Seq<Tok>>::empty());
            while i < a.len()
                invariant
                    i <= a.len(),
                    parts == token_parts(v@),
                    v@ == Tree::Array(crate::value::views(a@), v@->Array_1),
                    *v == Value::Array(*a, v@->Array_1),
                    parts.len() == a.len(),
                    tok_views(out@) == start + concat(parts.subrange(0, i as int)),
                decreases a.len() - i,
            {
                proof { vstd::std_specs::vec::axiom_vec_index_decreases(*a, i as int); }
                flatten(out, &a[i]);
                assert(parts[i as int] == tokens_of(a@[i as int]@));
                assert(parts.subrange(0, i + 1).drop_last() =~= parts.subrange(0, i as int));
                i = i + 1;
                assert(tok_views(out@) =~= start + concat(parts.subrange(0, i as int)));
            }
            assert(parts.subrange(0, a.len() as int) =~= parts);
        },
        Value::Object(m) => {
            let ghost parts = token_parts(v@);
            out.push(Token::Count(m.len()));
            let ghost start = tok_views(out@);
            assert(start =~= old_toks + seq![Tok::Count(m.len() as nat)]);
            let mut i: usize = 0;
            assert(parts.subrange(0, 0) =~= Seq::<Seq<Tok>>::empty());
            while i < m.len()
                invariant
                    i <= m.len(),
                    parts == token_parts(v@),
                    v@ == Tree::Object(crate::value::member_views(m@)),
                    *v == Value::Object(*m),
                    parts.len() == m.len(),
                    tok_views(out@) == start + concat(parts.subrange(0, i as int)),
                decreases m.len() - i,
            {
                proof { vstd::std_specs::vec::axiom_vec_index_decreases(*m, i as int); }
                let ghost before = tok_views(out@);
                out.push(Token::Identifier(m[i].0.clone()));
                assert(tok_views(out@) =~= before + seq![Tok::Ident(m@[i as int].0@)]);
                flatten(out, &m[i].1);
                assert(parts[i as int] == seq![Tok::Ident(m@[i as int].0@)] + tokens_of(m@[i as int].1@));
                assert(parts.subrange(0, i + 1).drop_last() =~= parts.subrange(0, i as int));
                i = i + 1;
                assert(tok_views(out@) =~= start + concat(parts.subrange(0, i as int)));
            }
            assert(parts.subrange(0, m.len() as int) =~= parts);
        },
    }
    assert(tok_views(out@) =~= old_toks + tokens_of(v@));
}

/// Concatenation distributes over appending sequences of parts.
pub proof fn lemma_concat_append<A>(a: Seq<Seq<A>>, b: Seq<Seq<A>>)
    ensures
        concat(a + b) == concat(a) + concat(b),
    decreases b.len(),
{
    if b.len() == 0 {
        assert(a + b =~= a);
        assert(concat(a) + concat(b) =~= concat(a));
    } else {
        lemma_concat_append(a, b.drop_last());
        assert((a + b).drop_last() =~= a + b.drop_last());
        assert(concat(a + b) =~= concat(a) + concat(b));
    }
}

/// One part alone concatenates to itself.
pub proof fn lemma_concat_single<A>(p: Seq<A>)
    ensures
        concat(seq![p]) == p,
{
    assert(seq![p].drop_last() =~= Seq::<Seq<A>>::empty());
    assert(concat(Seq::<Seq<A>>::empty()) == Seq::<A>::empty());
    assert(concat(seq![p]) =~= p);
}

/// Where `a + b` is a prefix of `c`, `a` is one too, and `b` is a prefix of
/// what follows `a` in `c`.
pub proof fn lemma_prefix_split<A>(a: Seq<A>, b: Seq<A>, c: Seq<A>)
    requires
        (a + b).is_prefix_of(c),
    ensures
        a.is_prefix_of(c),
        b.is_prefix_of(c.skip(a.len() as int)),
{
    assert(a =~= (a + b).subrange(0, a.len() as int));
    assert(a =~= c.subrange(0, a.len() as int));
    assert(b =~= (a + b).subrange(a.len() as int, (a + b).len() as int));
    assert(b =~= c.skip(a.len() as int).subrange(0, b.len() as int));
}

/// The tokens of an array or an object begin with its count; its parts'
/// tokens follow.
pub proof fn lemma_container_prefix(t: Tree, rest: Seq<Tok>)
    requires
        t is Array || t is Object,
        tokens_of(t).is_prefix_of(rest),
    ensures
        rest.len() > 0,
        rest[0] == Tok::Count(token_parts(t).len()),
        concat(token_parts(t)).is_prefix_of(rest.drop_first()),
        tokens_of(t).len() == 1 + concat(token_parts(t)).len(),
{
    let n = token_parts(t).len();
    assert(tokens_of(t) == seq![Tok::Count(n)] + concat(token_parts(t)));
    lemma_prefix_split(seq![Tok::Count(n)], concat(token_parts(t)), rest);
    assert(rest.subrange(0, 1)[0] == rest[0]);
    assert(rest.skip(1) =~= rest.drop_first());
}

} // verus!
