//! The types that the bridge can decode and encode, and what they stand for
//! as trees.
use vstd::prelude::*;
use crate::error::Error;
use crate::serde::deserialize::Deserializer;
use crate::printer::concat;
use crate::token::{Tok, lemma_concat_append, lemma_container_prefix, lemma_prefix_split, token_parts, tokens_of};
use crate::value::{ArrayType, Tree, Value};

verus! {

/// A type whose values are written in the format as trees.
///
/// `model` is the tree that a value encodes to; `accepts` holds of the
/// trees that decode to a value of the type. Decoding reads exactly the
/// tokens of an accepted tree and returns the value that encodes to it.
/// A type that states no model accepts no tree, and its decoder promises
/// nothing.
pub trait Codec: Sized {
    open spec fn model(&self) -> Tree {
        Tree::Bool(false)
    }

    open spec fn accepts(t: Tree) -> bool {
        false
    }

    fn encode(&self) -> (r: Value)
        ensures
            r@ == self.model(),
    ;

    fn decode(d: &mut Deserializer) -> (r: Result<Self, Error>)
        requires
            old(d).wf(),
        ensures
            final(d).wf(),
            forall|t: Tree|
                #![trigger Self::accepts(t)]
                Self::accepts(t) && tokens_of(t).is_prefix_of(old(d).remaining()) ==> r is Ok
                    && r->Ok_0.model() == t && final(d).remaining() == old(d).remaining().skip(
                    tokens_of(t).len() as int,
                ),
    ;
}

/// A scalar's single token starts whatever its tokens are a prefix of.
pub proof fn lemma_scalar_prefix(t: Tree, rest: Seq<crate::token::Tok>)
    requires
        t is Bool || t is Int || t is Float || t is Str,
        tokens_of(t).is_prefix_of(rest),
    ensures
        tokens_of(t).len() == 1,
        rest.len() > 0,
        rest[0] == tokens_of(t)[0],
        rest.drop_first() == rest.skip(1),
{
    assert(tokens_of(t).len() == 1);
    assert(rest.subrange(0, 1)[0] == rest[0]);
    assert(rest.drop_first() =~= rest.skip(1));
}

impl Codec for bool {
    open spec fn model(&self) -> Tree {
        Tree::Bool(*self)
    }

    open spec fn accepts(t: Tree) -> bool {
        t is Bool
    }

    fn encode(&self) -> (r: Value) {
        Value::Bool(*self)
    }

    fn decode(d: &mut Deserializer) -> (r: Result<bool, Error>) {
        let r = d.deserialize_bool();
        proof {
            assert forall|t: Tree| #![trigger Self::accepts(t)]
                Self::accepts(t) && tokens_of(t).is_prefix_of(old(d).remaining()) implies r is Ok
                    && r->Ok_0.model() == t && final(d).remaining() == old(d).remaining().skip(tokens_of(t).len() as int) by {
                lemma_scalar_prefix(t, old(d).remaining());
            }
        }
        r
    }
}

impl Codec for i64 {
    open spec fn model(&self) -> Tree {
        Tree::Int(*self)
    }

    open spec fn accepts(t: Tree) -> bool {
        t is Int
    }

    fn encode(&self) -> (r: Value) {
        Value::Int(*self)
    }

    fn decode(d: &mut Deserializer) -> (r: Result<i64, Error>) {
        let r = d.deserialize_i64();
        proof {
            assert forall|t: Tree| #![trigger Self::accepts(t)]
                Self::accepts(t) && tokens_of(t).is_prefix_of(old(d).remaining()) implies r is Ok
                    && r->Ok_0.model() == t && final(d).remaining() == old(d).remaining().skip(tokens_of(t).len() as int) by {
                lemma_scalar_prefix(t, old(d).remaining());
            }
        }
        r
    }
}

impl Codec for i32 {
    open spec fn model(&self) -> Tree {
        Tree::Int(*self as i64)
    }

    open spec fn accepts(t: Tree) -> bool {
        t is Int && i32::MIN <= t->Int_0 <= i32::MAX
    }

    fn encode(&self) -> (r: Value) {
        Value::Int(*self as i64)
    }

    fn decode(d: &mut Deserializer) -> (r: Result<i32, Error>) {
        let r = d.deserialize_i32();
        proof {
            assert forall|t: Tree| #![trigger Self::accepts(t)]
                Self::accepts(t) && tokens_of(t).is_prefix_of(old(d).remaining()) implies r is Ok
                    && r->Ok_0.model() == t && final(d).remaining() == old(d).remaining().skip(tokens_of(t).len() as int) by {
                lemma_scalar_prefix(t, old(d).remaining());
            }
        }
        r
    }
}

impl Codec for String {
    open spec fn model(&self) -> Tree {
        Tree::Str(self@)
    }

    open spec fn accepts(t: Tree) -> bool {
        t is Str
    }

    fn encode(&self) -> (r: Value) {
        Value::String(self.clone())
    }

    fn decode(d: &mut Deserializer) -> (r: Result<String, Error>) {
        let r = d.deserialize_string();
        proof {
            assert forall|t: Tree| #![trigger Self::accepts(t)]
                Self::accepts(t) && tokens_of(t).is_prefix_of(old(d).remaining()) implies r is Ok
                    && r->Ok_0.model() == t && final(d).remaining() == old(d).remaining().skip(tokens_of(t).len() as int) by {
                lemma_scalar_prefix(t, old(d).remaining());
            }
        }
        r
    }
}

impl Codec for () {
    open spec fn model(&self) -> Tree {
        Tree::Array(Seq::empty(), ArrayType::List)
    }

    open spec fn accepts(t: Tree) -> bool {
        t == Tree::Array(Seq::empty(), ArrayType::List)
    }

    fn encode(&self) -> (r: Value) {
        let v = Value::Array(Vec::new(), ArrayType::List);
        proof {
            crate::value::lemma_view_parts(v);
            assert(crate::value::views(Seq::<Value>::empty()) =~= Seq::<Tree>::empty());
        }
        v
    }

    fn decode(d: &mut Deserializer) -> (r: Result<(), Error>) {
        let r = d.deserialize_unit();
        proof {
            let t = Tree::Array(Seq::empty(), ArrayType::List);
            assert(crate::token::token_parts(t) =~= Seq::<Seq<crate::token::Tok>>::empty());
            assert(tokens_of(t) =~= seq![crate::token::Tok::Count(0)]);
            let rest = old(d).remaining();
            if tokens_of(t).is_prefix_of(rest) {
                assert(rest.subrange(0, 1)[0] == rest[0]);
                assert(rest.drop_first() =~= rest.skip(1));
            }
        }
        r
    }
}

impl<T: Codec> Codec for Option<T> {
    /// Absent is an empty list; present is a list of the one value.
    open spec fn model(&self) -> Tree {
        match self {
            None => Tree::Array(Seq::empty(), ArrayType::List),
            Some(x) => Tree::Array(seq![x.model()], ArrayType::List),
        }
    }

    open spec fn accepts(t: Tree) -> bool {
        t is Array && t->Array_1 == ArrayType::List && (t->Array_0.len() == 0 || (t->Array_0.len() == 1
            && T::accepts(t->Array_0[0])))
    }

    fn encode(&self) -> (r: Value) {
        let mut items: Vec<Value> = Vec::new();
        match self {
            None => {},
            Some(x) => {
                items.push(x.encode());
            },
        }
        let v = Value::Array(items, ArrayType::List);
        proof {
            crate::value::lemma_view_parts(v);
            assert(crate::value::views(items@) =~= v@->Array_0);
            assert(v@->Array_0 =~= self.model()->Array_0);
        }
        v
    }

    fn decode(d: &mut Deserializer) -> (r: Result<Option<T>, Error>) {
        let ghost rest = d.remaining();
        let present = match d.deserialize_option() {
            Ok(p) => p,
            Err(e) => {
                proof {
                    assert forall|t: Tree| #![trigger Self::accepts(t)]
                        Self::accepts(t) && tokens_of(t).is_prefix_of(rest) implies false by {
                        lemma_container_prefix(t, rest);
                    }
                }
                return Err(e);
            },
        };
        if !present {
            proof {
                assert forall|t: Tree| #![trigger Self::accepts(t)]
                    Self::accepts(t) && tokens_of(t).is_prefix_of(rest) implies Some::<Option<T>>(None).unwrap().model() == t
                        && d.remaining() == rest.skip(tokens_of(t).len() as int) by {
                    lemma_container_prefix(t, rest);
                    assert(token_parts(t) =~= Seq::<Seq<Tok>>::empty());
                    assert(t->Array_0 =~= Seq::<Tree>::empty());
                    assert(rest.drop_first() =~= rest.skip(1));
                }
            }
            return Ok(None);
        }
        let ghost mid = d.remaining();
        match T::decode(d) {
            Ok(x) => {
                proof {
                    assert forall|t: Tree| #![trigger Self::accepts(t)]
                        Self::accepts(t) && tokens_of(t).is_prefix_of(rest) implies Some(x).model() == t
                            && d.remaining() == rest.skip(tokens_of(t).len() as int) by {
                        lemma_container_prefix(t, rest);
                        let m = t->Array_0[0];
                        assert(token_parts(t) =~= seq![tokens_of(m)]);
                        crate::token::lemma_concat_single(tokens_of(m));
                        assert(T::accepts(m));
                        assert(t->Array_0 =~= seq![m]);
                        assert(rest.drop_first().skip(tokens_of(m).len() as int) =~= rest.skip(1 + tokens_of(m).len() as int));
                    }
                }
                Ok(Some(x))
            },
            Err(e) => {
                proof {
                    assert forall|t: Tree| #![trigger Self::accepts(t)]
                        Self::accepts(t) && tokens_of(t).is_prefix_of(rest) implies false by {
                        lemma_container_prefix(t, rest);
                        let m = t->Array_0[0];
                        assert(token_parts(t) =~= seq![tokens_of(m)]);
                        crate::token::lemma_concat_single(tokens_of(m));
                        assert(T::accepts(m));
                    }
                }
                Err(e)
            },
        }
    }
}

/// The models of a sequence of values of a codec type.
pub open spec fn models<T: Codec>(s: Seq<T>) -> Seq<Tree> {
    s.map_values(|x: T| x.model())
}

/// The parts of an array whose items all stand in `items`, taken in
/// order, lie in the array's tokens right after its count.
proof fn lemma_item_prefix(t: Tree, rest: Seq<Tok>, i: int)
    requires
        t is Array,
        tokens_of(t).is_prefix_of(rest),
        0 <= i < t->Array_0.len(),
    ensures
        tokens_of(t->Array_0[i]).is_prefix_of(rest.skip(1 + concat(token_parts(t).subrange(0, i)).len() as int)),
        concat(token_parts(t).subrange(0, i + 1)) == concat(token_parts(t).subrange(0, i)) + tokens_of(t->Array_0[i]),
        1 + concat(token_parts(t).subrange(0, i)).len() + tokens_of(t->Array_0[i]).len() <= rest.len(),
{
    let p = token_parts(t);
    lemma_container_prefix(t, rest);
    assert(p =~= p.subrange(0, i) + (seq![p[i]] + p.subrange(i + 1, p.len() as int)));
    lemma_concat_append(p.subrange(0, i), seq![p[i]] + p.subrange(i + 1, p.len() as int));
    lemma_concat_append(seq![p[i]], p.subrange(i + 1, p.len() as int));
    crate::token::lemma_concat_single(p[i]);
    lemma_prefix_split(concat(p.subrange(0, i)), p[i] + concat(p.subrange(i + 1, p.len() as int)), rest.drop_first());
    lemma_prefix_split(p[i], concat(p.subrange(i + 1, p.len() as int)), rest.drop_first().skip(concat(p.subrange(0, i)).len() as int));
    assert(rest.drop_first().skip(concat(p.subrange(0, i)).len() as int) =~= rest.skip(1 + concat(p.subrange(0, i)).len() as int));
    assert(p.subrange(0, i + 1).drop_last() =~= p.subrange(0, i));
}

impl<T: Codec> Codec for Vec<T> {
    /// A list of the items.
    open spec fn model(&self) -> Tree {
        Tree::Array(models(self@), ArrayType::List)
    }

    open spec fn accepts(t: Tree) -> bool {
        t is Array && t->Array_1 == ArrayType::List && forall|k: int| 0 <= k < t->Array_0.len() ==> T::accepts(#[trigger] t->Array_0[k])
    }

    fn encode(&self) -> (r: Value) {
        let mut items: Vec<Value> = Vec::new();
        let mut i: usize = 0;
        while i < self.len()
            invariant
                i <= self.len(),
                crate::value::views(items@) == models(self@).subrange(0, i as int),
            decreases self.len() - i,
        {
            let ghost old_items = items@;
            let e = self[i].encode();
            items.push(e);
            proof {
                assert(crate::value::views(items@) =~= crate::value::views(old_items).push(e@));
                assert(models(self@).subrange(0, i + 1) =~= models(self@).subrange(0, i as int).push(self@[i as int].model()));
            }
            i = i + 1;
        }
        let v = Value::Array(items, ArrayType::List);
        proof {
            crate::value::lemma_view_parts(v);
            assert(models(self@).subrange(0, self.len() as int) =~= models(self@));
        }
        v
    }

    fn decode(d: &mut Deserializer) -> (r: Result<Vec<T>, Error>) {
        let ghost rest = d.remaining();
        let n = match d.deserialize_seq() {
            Ok(n) => n,
            Err(e) => {
                proof {
                    assert forall|t: Tree| #![trigger Self::accepts(t)]
                        Self::accepts(t) && tokens_of(t).is_prefix_of(rest) implies false by {
                        lemma_container_prefix(t, rest);
                    }
                }
                return Err(e);
            },
        };
        let mut out: Vec<T> = Vec::new();
        let mut i: usize = 0;
        proof {
            assert forall|t: Tree| #![trigger Self::accepts(t)]
                Self::accepts(t) && tokens_of(t).is_prefix_of(rest) implies t->Array_0.len() == n
                    && d.remaining() == rest.skip(1 + concat(token_parts(t).subrange(0, 0)).len() as int) by {
                lemma_container_prefix(t, rest);
                assert(token_parts(t).subrange(0, 0) =~= Seq::<Seq<Tok>>::empty());
                assert(rest.drop_first() =~= rest.skip(1));
            }
        }
        while i < n
            invariant
                d.wf(),
                i <= n,
                out@.len() == i,
                rest == old(d).remaining(),
                forall|t: Tree| #![trigger Self::accepts(t)]
                    Self::accepts(t) && tokens_of(t).is_prefix_of(rest) ==> t->Array_0.len() == n
                        && models(out@) == t->Array_0.subrange(0, i as int)
                        && d.remaining() == rest.skip(1 + concat(token_parts(t).subrange(0, i as int)).len() as int),
            decreases n - i,
        {
            let ghost before = d.remaining();
            let ghost old_out = out@;
            match T::decode(d) {
                Ok(x) => {
                    out.push(x);
                    proof {
                        assert forall|t: Tree| #![trigger Self::accepts(t)]
                            Self::accepts(t) && tokens_of(t).is_prefix_of(rest) implies t->Array_0.len() == n
                                && models(out@) == t->Array_0.subrange(0, i + 1)
                                && d.remaining() == rest.skip(1 + concat(token_parts(t).subrange(0, i + 1)).len() as int) by {
                            lemma_item_prefix(t, rest, i as int);
                            let m = t->Array_0[i as int];
                            assert(T::accepts(m));
                            assert(models(out@) =~= t->Array_0.subrange(0, i + 1));
                            assert(before.skip(tokens_of(m).len() as int) =~= rest.skip(1 + concat(token_parts(t).subrange(0, i + 1)).len() as int));
                        }
                    }
                    i = i + 1;
                },
                Err(e) => {
                    proof {
                        assert forall|t: Tree| #![trigger Self::accepts(t)]
                            Self::accepts(t) && tokens_of(t).is_prefix_of(rest) implies false by {
                            lemma_item_prefix(t, rest, i as int);
                            assert(T::accepts(t->Array_0[i as int]));
                        }
                    }
                    return Err(e);
                },
            }
        }
        proof {
            assert forall|t: Tree| #![trigger Self::accepts(t)]
                Self::accepts(t) && tokens_of(t).is_prefix_of(rest) implies out.model() == t
                    && d.remaining() == rest.skip(tokens_of(t).len() as int) by {
                lemma_container_prefix(t, rest);
                assert(t->Array_0.subrange(0, n as int) =~= t->Array_0);
                assert(token_parts(t).subrange(0, n as int) =~= token_parts(t));
            }
        }
        Ok(out)
    }
}

impl<A: Codec, B: Codec> Codec for (A, B) {
    /// A list of the two parts.
    open spec fn model(&self) -> Tree {
        Tree::Array(seq![self.0.model(), self.1.model()], ArrayType::List)
    }

    open spec fn accepts(t: Tree) -> bool {
        t is Array && t->Array_1 == ArrayType::List && t->Array_0.len() == 2 && A::accepts(t->Array_0[0])
            && B::accepts(t->Array_0[1])
    }

    fn encode(&self) -> (r: Value) {
        let a = self.0.encode();
        let b = self.1.encode();
        let items = vec![a, b];
        let v = Value::Array(items, ArrayType::List);
        proof {
            crate::value::lemma_view_parts(v);
            assert(crate::value::views(items@) =~= seq![a@, b@]);
        }
        v
    }

    fn decode(d: &mut Deserializer) -> (r: Result<(A, B), Error>) {
        let ghost rest = d.remaining();
        let n = match d.deserialize_seq() {
            Ok(n) => n,
            Err(e) => {
                proof {
                    assert forall|t: Tree| #![trigger Self::accepts(t)]
                        Self::accepts(t) && tokens_of(t).is_prefix_of(rest) implies false by {
                        lemma_container_prefix(t, rest);
                    }
                }
                return Err(e);
            },
        };
        proof {
            assert forall|t: Tree| #![trigger Self::accepts(t)]
                Self::accepts(t) && tokens_of(t).is_prefix_of(rest) implies n == 2
                    && d.remaining() == rest.skip(1 + concat(token_parts(t).subrange(0, 0)).len() as int) by {
                lemma_container_prefix(t, rest);
                assert(token_parts(t).subrange(0, 0) =~= Seq::<Seq<Tok>>::empty());
                assert(rest.drop_first() =~= rest.skip(1));
            }
        }
        if n != 2 {
            return Err(Error::BadCount { expected: crate::error::Shape::Sequence, count: n });
        }
        let ghost before = d.remaining();
        let a = match A::decode(d) {
            Ok(a) => a,
            Err(e) => {
                proof {
                    assert forall|t: Tree| #![trigger Self::accepts(t)]
                        Self::accepts(t) && tokens_of(t).is_prefix_of(rest) implies false by {
                        lemma_item_prefix(t, rest, 0);
                        assert(A::accepts(t->Array_0[0]));
                    }
                }
                return Err(e);
            },
        };
        let ghost middle = d.remaining();
        proof {
            assert forall|t: Tree| #![trigger Self::accepts(t)]
                Self::accepts(t) && tokens_of(t).is_prefix_of(rest) implies a.model() == t->Array_0[0]
                    && d.remaining() == rest.skip(1 + concat(token_parts(t).subrange(0, 1)).len() as int) by {
                lemma_item_prefix(t, rest, 0);
                let m = t->Array_0[0];
                assert(A::accepts(m));
                assert(before.skip(tokens_of(m).len() as int) =~= rest.skip(1 + concat(token_parts(t).subrange(0, 1)).len() as int));
            }
        }
        let b = match B::decode(d) {
            Ok(b) => b,
            Err(e) => {
                proof {
                    assert forall|t: Tree| #![trigger Self::accepts(t)]
                        Self::accepts(t) && tokens_of(t).is_prefix_of(rest) implies false by {
                        lemma_item_prefix(t, rest, 1);
                        assert(B::accepts(t->Array_0[1]));
                    }
                }
                return Err(e);
            },
        };
        proof {
            assert forall|t: Tree| #![trigger Self::accepts(t)]
                Self::accepts(t) && tokens_of(t).is_prefix_of(rest) implies (a, b).model() == t
                    && d.remaining() == rest.skip(tokens_of(t).len() as int) by {
                lemma_item_prefix(t, rest, 0);
                lemma_item_prefix(t, rest, 1);
                lemma_container_prefix(t, rest);
                let m = t->Array_0[1];
                assert(B::accepts(m));
                assert(t->Array_0 =~= seq![a.model(), b.model()]);
                assert(token_parts(t).subrange(0, 2) =~= token_parts(t));
                assert(middle.skip(tokens_of(m).len() as int) =~= rest.skip(1 + concat(token_parts(t).subrange(0, 2)).len() as int));
            }
        }
        Ok((a, b))
    }
}

/// Relies on `<[T; N] as TryFrom<Vec<T>>>::try_from`: an array holding the
/// items of `v` where `v` has exactly `N` of them.
#[verifier::external_body]
fn array_from_vec<T, const N: usize>(v: Vec<T>) -> (r: Option<[T; N]>)
    ensures
        v@.len() == N ==> r is Some && r->Some_0@ == v@,
        v@.len() != N ==> r is None,
{
    <[T; N]>::try_from(v).ok()
}

impl<T: Codec, const N: usize> Codec for [T; N] {
    /// A list of the items.
    open spec fn model(&self) -> Tree {
        Tree::Array(models(self@), ArrayType::List)
    }

    open spec fn accepts(t: Tree) -> bool {
        t is Array && t->Array_1 == ArrayType::List && t->Array_0.len() == N && forall|k: int|
            0 <= k < t->Array_0.len() ==> T::accepts(#[trigger] t->Array_0[k])
    }

    fn encode(&self) -> (r: Value) {
        broadcast use vstd::array::group_array_axioms;
        let mut items: Vec<Value> = Vec::new();
        let mut i: usize = 0;
        while i < N
            invariant
                i <= N,
                self@.len() == N,
                crate::value::views(items@) == models(self@).subrange(0, i as int),
            decreases N - i,
        {
            let ghost old_items = items@;
            let e = vstd::array::array_index_get(self, i).encode();
            items.push(e);
            proof {
                assert(crate::value::views(items@) =~= crate::value::views(old_items).push(e@));
                assert(models(self@).subrange(0, i + 1) =~= models(self@).subrange(0, i as int).push(self@[i as int].model()));
            }
            i = i + 1;
        }
        let v = Value::Array(items, ArrayType::List);
        proof {
            crate::value::lemma_view_parts(v);
            assert(models(self@).subrange(0, N as int) =~= models(self@));
        }
        v
    }

    fn decode(d: &mut Deserializer) -> (r: Result<[T; N], Error>) {
        broadcast use vstd::array::group_array_axioms;
        let ghost rest = d.remaining();
        let items = match Vec::<T>::decode(d) {
            Ok(items) => items,
            Err(e) => {
                proof {
                    assert forall|t: Tree| #![trigger Self::accepts(t)]
                        Self::accepts(t) && tokens_of(t).is_prefix_of(rest) implies false by {
                        assert(Vec::<T>::accepts(t));
                    }
                }
                return Err(e);
            },
        };
        let n = items.len();
        let ghost iv = items@;
        match array_from_vec::<T, N>(items) {
            Some(a) => {
                proof {
                    assert forall|t: Tree| #![trigger Self::accepts(t)]
                        Self::accepts(t) && tokens_of(t).is_prefix_of(rest) implies a.model() == t
                            && d.remaining() == rest.skip(tokens_of(t).len() as int) by {
                        assert(Vec::<T>::accepts(t));
                        assert(models(a@) =~= models(iv));
                    }
                }
                Ok(a)
            },
            None => {
                proof {
                    assert forall|t: Tree| #![trigger Self::accepts(t)]
                        Self::accepts(t) && tokens_of(t).is_prefix_of(rest) implies false by {
                        assert(Vec::<T>::accepts(t));
                        assert(models(iv).len() == iv.len());
                    }
                }
                Err(Error::BadCount { expected: crate::error::Shape::Sequence, count: n })
            },
        }
    }
}

impl<T: CodecLaws, const N: usize> CodecLaws for [T; N] {
    proof fn lemma_model(&self) {
        broadcast use vstd::array::group_array_axioms;
        let ms = models(self@);
        assert forall|k: int| 0 <= k < ms.len() implies T::accepts(#[trigger] ms[k]) && crate::round_trip::well_formed(ms[k]) by {
            self@[k].lemma_model();
        }
    }
}

/// A codec type whose every value encodes to a tree that it accepts back,
/// and that the parser can produce.
pub trait CodecLaws: Codec {
    proof fn lemma_model(&self)
        ensures
            Self::accepts(self.model()),
            crate::round_trip::well_formed(self.model()),
    ;
}

impl CodecLaws for bool {
    proof fn lemma_model(&self) {
    }
}

impl CodecLaws for i64 {
    proof fn lemma_model(&self) {
    }
}

impl CodecLaws for i32 {
    proof fn lemma_model(&self) {
    }
}

impl CodecLaws for String {
    proof fn lemma_model(&self) {
    }
}

impl CodecLaws for () {
    proof fn lemma_model(&self) {
    }
}

impl<T: CodecLaws> CodecLaws for Option<T> {
    proof fn lemma_model(&self) {
        match self {
            None => {},
            Some(x) => {
                x.lemma_model();
                assert(seq![x.model()][0] == x.model());
            },
        }
    }
}

impl<T: CodecLaws> CodecLaws for Vec<T> {
    proof fn lemma_model(&self) {
        let ms = models(self@);
        assert forall|k: int| 0 <= k < ms.len() implies T::accepts(#[trigger] ms[k]) && crate::round_trip::well_formed(ms[k]) by {
            self@[k].lemma_model();
        }
    }
}

impl<A: CodecLaws, B: CodecLaws> CodecLaws for (A, B) {
    proof fn lemma_model(&self) {
        self.0.lemma_model();
        self.1.lemma_model();
        let ms = seq![self.0.model(), self.1.model()];
        assert(ms[0] == self.0.model() && ms[1] == self.1.model());
    }
}

/// Decoding what encoding wrote gives the value back: the document that
/// `to_string` writes for `x` parses to the tree of `x`, which `from_str`
/// then decodes, all of it, to a value with that same tree.
pub proof fn lemma_decode_encode<T: CodecLaws>(x: T)
    ensures
        crate::grammar::parse_document(crate::printer::render(x.model())) == Some(x.model()),
        T::accepts(x.model()),
{
    x.lemma_model();
    crate::round_trip::lemma_round_trip(x.model());
}

} // verus!
