//! The dynamic value tree and its mathematical model.
use vstd::prelude::*;
use crate::error::{Expected, SyntaxError};

verus! {

/// Which of the two list syntaxes an array was written with.
#[derive(Clone, Copy, Debug, PartialEq, Eq, Structural)]
pub enum ArrayType {
    /// `[ a, b ]`
    Array,
    /// `( a, b )`
    List,
}

/// A configuration value.
///
/// A float is held as the literal text that denotes it, so that it renders
/// back exactly as it was read; an object is an ordered list of members
/// whose keys are pairwise distinct. Members are kept in a `Vec` rather than
/// in an insertion-ordered hash map: such a map type, declared to the
/// verifier, cannot hold `Value` recursively, and an opaque one would hide
/// the members from every proof that recurses over a tree.
#[derive(Debug, PartialEq)]
pub enum Value {
    Bool(bool),
    Int(i64),
    Float(String),
    String(String),
    Array(Vec<Value>, ArrayType),
    Object(Vec<(String, Value)>),
}

/// The mathematical model of a `Value`.
pub enum Tree {
    Bool(bool),
    Int(i64),
    Float(Seq<char>),
    Str(Seq<char>),
    Array(Seq<Tree>, ArrayType),
    Object(Seq<(Seq<char>, Tree)>),
}

/// The model of a value.
pub open spec fn tree_of(v: Value) -> Tree
    decreases v,
{
    match v {
        Value::Bool(b) => Tree::Bool(b),
        Value::Int(i) => Tree::Int(i),
        Value::Float(f) => Tree::Float(f@),
        Value::String(s) => Tree::Str(s@),
        Value::Array(a, k) => Tree::Array(
            Seq::new(a.len() as nat, |i: int| if 0 <= i < a.len() { tree_of(a[i]) } else { Tree::Bool(false) }),
            k,
        ),
        Value::Object(o) => Tree::Object(
            Seq::new(
                o.len() as nat,
                |i: int|
                    if 0 <= i < o.len() {
                        (o[i].0@, tree_of(o[i].1))
                    } else {
                        (Seq::empty(), Tree::Bool(false))
                    },
            ),
        ),
    }
}

impl View for Value {
    type V = Tree;

    open spec fn view(&self) -> Tree {
        tree_of(*self)
    }
}

/// No key occurs twice.
pub open spec fn keys_distinct(m: Seq<(Seq<char>, Tree)>) -> bool {
    forall|a: int, b: int| 0 <= a < b < m.len() ==> m[a].0 != m[b].0
}

/// The position of the member with key `k`, or -1.
pub open spec fn key_index(m: Seq<(Seq<char>, Tree)>, k: Seq<char>) -> int
    decreases m.len(),
{
    if m.len() == 0 {
        -1
    } else if m.last().0 == k {
        m.len() - 1
    } else {
        key_index(m.drop_last(), k)
    }
}

/// Adds a member at the end, or replaces the value of the member that has
/// the same key where it stands.
pub open spec fn insert_member(m: Seq<(Seq<char>, Tree)>, k: Seq<char>, v: Tree) -> Seq<(Seq<char>, Tree)> {
    let i = key_index(m, k);
    if i >= 0 {
        m.update(i, (k, v))
    } else {
        m.push((k, v))
    }
}

/// The models of a sequence of values.
pub open spec fn views(a: Seq<Value>) -> Seq<Tree> {
    a.map_values(|v: Value| v@)
}

/// The models of a sequence of members.
pub open spec fn member_views(m: Seq<(String, Value)>) -> Seq<(Seq<char>, Tree)> {
    m.map_values(|e: (String, Value)| (e.0@, e.1@))
}

/// The model of an array or an object is made of the models of its parts.
pub proof fn lemma_view_parts(v: Value)
    ensures
        v matches Value::Array(a, k) ==> v@ == Tree::Array(views(a@), k),
        v matches Value::Object(m) ==> v@ == Tree::Object(member_views(m@)),
{
    match v {
        Value::Array(a, k) => {
            let t = v@->Array_0;
            assert(t.len() == a@.len());
            assert forall|i: int| 0 <= i < a@.len() implies #[trigger] views(a@)[i] == t[i] by {
                assert(t[i] == tree_of(a[i]));
            }
            assert(views(a@) =~= t);
        },
        Value::Object(m) => {
            let t = v@->Object_0;
            assert(t.len() == m@.len());
            assert forall|i: int| 0 <= i < m@.len() implies #[trigger] member_views(m@)[i] == t[i] by {
                assert(t[i] == (m[i].0@, tree_of(m[i].1)));
            }
            assert(member_views(m@) =~= t);
        },
        _ => {},
    }
}

/// Adds the member `(k, v)` to `m`, or replaces the value of the member
/// with key `k`.
pub fn insert_member_exec(m: &mut Vec<(String, Value)>, k: String, v: Value)
    ensures
        member_views(final(m)@) == insert_member(member_views(old(m)@), k@, v@),
{
    let ghost mv = member_views(m@);
    let mut idx = m.len();
    assert(mv.subrange(0, idx as int) =~= mv);
    while idx > 0
        invariant
            idx <= m.len(),
            m@ == old(m)@,
            mv == member_views(m@),
            key_index(mv, k@) == key_index(mv.subrange(0, idx as int), k@),
        decreases idx,
    {
        if m[idx - 1].0 == k {
            assert(mv.subrange(0, idx as int).last().0 == k@);
            assert(key_index(mv, k@) == idx - 1);
            m[idx - 1] = (k, v);
            proof {
                assert(member_views(m@) =~= mv.update(idx - 1, (k@, v@)));
            }
            return;
        }
        assert(mv.subrange(0, idx as int).drop_last() =~= mv.subrange(0, idx - 1));
        idx = idx - 1;
    }
    assert(key_index(mv.subrange(0, 0), k@) == -1);
    m.push((k, v));
    assert(member_views(m@) =~= mv.push((k@, v@)));
}

impl Value {
    /// Parses a document; its value is returned.
    pub fn from_str(input: &str) -> (r: Result<Value, SyntaxError>)
        ensures
            match r {
                Ok(v) => crate::grammar::parse_document(input@) == Some(v@),
                Err(e) => crate::grammar::reports(input@, e),
            },
    {
        crate::parser::root(input)
    }

    /// A float written as `text`, which must be a float literal that is not
    /// also an integer literal.
    pub fn float(text: &str) -> (r: Result<Value, SyntaxError>)
        ensures
            match r {
                Ok(v) => crate::round_trip::float_ok(text@) && v@ == Tree::Float(text@),
                Err(e) => !crate::round_trip::float_ok(text@),
            },
    {
        let s = crate::text::chars_of(text);
        match crate::parser::parse_int(&s, 0) {
            Some(_) => {
                return Err(SyntaxError::new(0, Expected::Value).located(&s));
            },
            None => {},
        }
        match crate::parser::parse_float(&s, 0) {
            Some(e) => {
                if e == s.len() {
                    Ok(Value::Float(text.to_owned()))
                } else {
                    Err(SyntaxError::new(e, Expected::End).located(&s))
                }
            },
            None => Err(SyntaxError::new(0, Expected::Value).located(&s)),
        }
    }

    /// A list: a sequence, a tuple, a unit (no item), an absent option (no
    /// item) or a present one (one item).
    pub fn list(items: Vec<Value>) -> (r: Value)
        ensures
            r@ == Tree::Array(views(items@), ArrayType::List),
    {
        let v = Value::Array(items, ArrayType::List);
        proof { lemma_view_parts(v); }
        v
    }

    /// An enum variant: an object whose one member is keyed by the variant's
    /// name and holds its payload.
    pub fn variant(name: String, payload: Value) -> (r: Value)
        ensures
            r@ == Tree::Object(seq![(name@, payload@)]),
    {
        let ghost pv = payload@;
        let ghost nv = name@;
        let v = Value::Object(vec![(name, payload)]);
        proof {
            lemma_view_parts(v);
            assert(member_views(v->Object_0@) =~= seq![(nv, pv)]);
        }
        v
    }

    /// Whether `k` can stand as an object key: a letter or underscore, then
    /// letters, digits and underscores.
    pub fn is_identifier(k: &str) -> (r: bool)
        ensures
            r == crate::round_trip::is_ident(k@),
    {
        let s = crate::text::chars_of(k);
        if s.len() == 0 {
            return false;
        }
        let c0 = s[0];
        if !(('a' <= c0 && c0 <= 'z') || ('A' <= c0 && c0 <= 'Z') || c0 == '_') {
            return false;
        }
        let mut i: usize = 0;
        while i < s.len()
            invariant
                i <= s.len(),
                s@ == k@,
                forall|x: int| 0 <= x < i ==> crate::grammar::is_ident_char(#[trigger] s@[x]),
            decreases s.len() - i,
        {
            let c = s[i];
            if !(('a' <= c && c <= 'z') || ('A' <= c && c <= 'Z') || c == '_' || ('0' <= c && c <= '9')) {
                return false;
            }
            i = i + 1;
        }
        true
    }

    /// Parses a document whose value must be an object; its members are
    /// returned.
    pub fn obj_from_str(input: &str) -> (r: Result<Vec<(String, Value)>, SyntaxError>)
        ensures
            match r {
                Ok(m) => crate::grammar::parse_document(input@) == Some(Tree::Object(member_views(m@))),
                Err(e) => match crate::grammar::parse_document(input@) {
                    None => crate::grammar::reports(input@, e),
                    Some(t) => !(t is Object) && e.position == 0 && e.offset == 0 && e.expected == Expected::Object
                        && e.context@.len() == 0,
                },
            },
    {
        match crate::parser::root(input) {
            Ok(v) => {
                proof { lemma_view_parts(v); }
                match v {
                    Value::Object(m) => Ok(m),
                    _ => Err(SyntaxError::new(0, Expected::Object)),
                }
            },
            Err(e) => Err(e),
        }
    }

    pub fn as_bool(&self) -> (r: Option<&bool>)
        ensures
            match self@ {
                Tree::Bool(b) => r == Some(&b),
                _ => r is None,
            },
    {
        match self {
            Value::Bool(v) => Some(v),
            _ => None,
        }
    }

    pub fn as_int(&self) -> (r: Option<&i64>)
        ensures
            match self@ {
                Tree::Int(i) => r == Some(&i),
                _ => r is None,
            },
    {
        match self {
            Value::Int(v) => Some(v),
            _ => None,
        }
    }

    /// The literal text of a float.
    pub fn as_float(&self) -> (r: Option<&String>)
        ensures
            match self@ {
                Tree::Float(f) => r is Some && r->Some_0@ == f,
                _ => r is None,
            },
    {
        match self {
            Value::Float(v) => Some(v),
            _ => None,
        }
    }

    pub fn as_str(&self) -> (r: Option<&str>)
        ensures
            match self@ {
                Tree::Str(s) => r is Some && r->Some_0@ == s,
                _ => r is None,
            },
    {
        match self {
            Value::String(v) => Some(v.as_str()),
            _ => None,
        }
    }

    pub fn as_vec(&self) -> (r: Option<&Vec<Value>>)
        ensures
            match self@ {
                Tree::Array(items, _) => r is Some && views(r->Some_0@) == items,
                _ => r is None,
            },
    {
        proof { lemma_view_parts(*self); }
        match self {
            Value::Array(v, _) => Some(v),
            _ => None,
        }
    }

    pub fn as_obj(&self) -> (r: Option<&Vec<(String, Value)>>)
        ensures
            match self@ {
                Tree::Object(m) => r is Some && member_views(r->Some_0@) == m,
                _ => r is None,
            },
    {
        proof { lemma_view_parts(*self); }
        match self {
            Value::Object(v) => Some(v),
            _ => None,
        }
    }

    pub fn as_bool_mut(&mut self) -> (r: Option<&mut bool>)
        ensures
            old(self)@ is Bool ==> r is Some && *r->Some_0 == old(self)@->Bool_0
                && *final(self) == Value::Bool(*final(r->Some_0)),
            !(old(self)@ is Bool) ==> r is None && *final(self) == *old(self),
    {
        match self {
            Value::Bool(v) => Some(v),
            _ => None,
        }
    }

    pub fn as_int_mut(&mut self) -> (r: Option<&mut i64>)
        ensures
            *old(self) is Int ==> r is Some && *r->Some_0 == old(self)->Int_0
                && *final(self) == Value::Int(*final(r->Some_0)),
            !(*old(self) is Int) ==> r is None && *final(self) == *old(self),
    {
        match self {
            Value::Int(v) => Some(v),
            _ => None,
        }
    }

    pub fn as_float_mut(&mut self) -> (r: Option<&mut String>)
        ensures
            *old(self) is Float ==> r is Some && *r->Some_0 == old(self)->Float_0
                && *final(self) == Value::Float(*final(r->Some_0)),
            !(*old(self) is Float) ==> r is None && *final(self) == *old(self),
    {
        match self {
            Value::Float(v) => Some(v),
            _ => None,
        }
    }

    pub fn as_str_mut(&mut self) -> (r: Option<&mut String>)
        ensures
            *old(self) is String ==> r is Some && *r->Some_0 == old(self)->String_0
                && *final(self) == Value::String(*final(r->Some_0)),
            !(*old(self) is String) ==> r is None && *final(self) == *old(self),
    {
        match self {
            Value::String(v) => Some(v),
            _ => None,
        }
    }

    pub fn as_vec_mut(&mut self) -> (r: Option<&mut Vec<Value>>)
        ensures
            *old(self) is Array ==> r is Some && *r->Some_0 == old(self)->Array_0
                && *final(self) == Value::Array(*final(r->Some_0), old(self)->Array_1),
            !(*old(self) is Array) ==> r is None && *final(self) == *old(self),
    {
        match self {
            Value::Array(v, _) => Some(v),
            _ => None,
        }
    }

    pub fn as_obj_mut(&mut self) -> (r: Option<&mut Vec<(String, Value)>>)
        ensures
            *old(self) is Object ==> r is Some && *r->Some_0 == old(self)->Object_0
                && *final(self) == Value::Object(*final(r->Some_0)),
            !(*old(self) is Object) ==> r is None && *final(self) == *old(self),
    {
        match self {
            Value::Object(v) => Some(v),
            _ => None,
        }
    }
}

} // verus!
