//! The canonical renderer: `Value` to text.
use vstd::prelude::*;
use crate::text::push_char;
use crate::value::{ArrayType, Tree, Value, lemma_view_parts};

verus! {

/// `n` spaces.
pub open spec fn spaces(n: nat) -> Seq<char> {
    Seq::new(n, |i: int| ' ')
}

/// How one character of a string is written between the quotes.
pub open spec fn escape_char(c: char) -> Seq<char> {
    if c == '"' {
        seq!['\\', '"']
    } else if c == '\\' {
        seq!['\\', '\\']
    } else if c == '\n' {
        seq!['\\', 'n']
    } else if c == '\r' {
        seq!['\\', 'r']
    } else if c == '\t' {
        seq!['\\', 't']
    } else {
        seq![c]
    }
}

/// How a string is written between the quotes.
pub open spec fn escape_text(t: Seq<char>) -> Seq<char>
    decreases t.len(),
{
    if t.len() == 0 {
        Seq::empty()
    } else {
        escape_text(t.drop_last()) + escape_char(t.last())
    }
}

/// The decimal digit `d`.
pub open spec fn digit_char(d: int) -> char {
    if d == 0 {
        '0'
    } else if d == 1 {
        '1'
    } else if d == 2 {
        '2'
    } else if d == 3 {
        '3'
    } else if d == 4 {
        '4'
    } else if d == 5 {
        '5'
    } else if d == 6 {
        '6'
    } else if d == 7 {
        '7'
    } else if d == 8 {
        '8'
    } else {
        '9'
    }
}

/// The decimal digits of `n`, without leading zeros.
pub open spec fn nat_text(n: nat) -> Seq<char>
    decreases n,
{
    if n < 10 {
        seq![digit_char(n as int)]
    } else {
        nat_text(n / 10) + seq![digit_char((n % 10) as int)]
    }
}

/// An integer in decimal, with a `-` where it is negative.
pub open spec fn int_text(n: int) -> Seq<char> {
    if n < 0 {
        seq!['-'] + nat_text((-n) as nat)
    } else {
        nat_text(n as nat)
    }
}

/// The parts joined with `", "` between each two.
pub open spec fn join(parts: Seq<Seq<char>>) -> Seq<char>
    decreases parts.len(),
{
    if parts.len() == 0 {
        Seq::empty()
    } else if parts.len() == 1 {
        parts[0]
    } else {
        join(parts.drop_last()) + seq![',', ' '] + parts.last()
    }
}

/// The parts one after another.
pub open spec fn concat<A>(parts: Seq<Seq<A>>) -> Seq<A>
    decreases parts.len(),
{
    if parts.len() == 0 {
        Seq::empty()
    } else {
        concat(parts.drop_last()) + parts.last()
    }
}

pub open spec fn open_of(kind: ArrayType) -> Seq<char> {
    if kind == ArrayType::List { seq!['(', ' '] } else { seq!['[', ' '] }
}

pub open spec fn close_of(kind: ArrayType) -> Seq<char> {
    if kind == ArrayType::List { seq![' ', ')'] } else { seq![' ', ']'] }
}

/// The line of an object member at indentation `ind`.
pub open spec fn member_line(k: Seq<char>, v: Seq<char>, ind: nat) -> Seq<char> {
    spaces(ind) + k + seq![' ', ':', ' '] + v + seq![';', '\n']
}

/// How the items of an array, or the members of an object, are rendered
/// one by one, inside a construct whose members stand at indentation `ind`.
pub open spec fn parts_of(t: Tree, ind: nat) -> Seq<Seq<char>>
    decreases t, 0nat,
{
    match t {
        Tree::Array(items, _) => Seq::new(
            items.len(),
            |i: int| if 0 <= i < items.len() { render_value(items[i], ind + 4) } else { Seq::empty() },
        ),
        Tree::Object(m) => Seq::new(
            m.len(),
            |i: int| if 0 <= i < m.len() { member_line(m[i].0, render_value(m[i].1, ind + 4), ind) } else { Seq::empty() },
        ),
        _ => Seq::empty(),
    }
}

/// The text of a value whose members, if it is an object, stand at
/// indentation `ind`; its closing brace stands 4 to the left.
pub open spec fn render_value(t: Tree, ind: nat) -> Seq<char>
    decreases t, 1nat,
{
    match t {
        Tree::Bool(b) => if b { seq!['t', 'r', 'u', 'e'] } else { seq!['f', 'a', 'l', 's', 'e'] },
        Tree::Int(n) => int_text(n as int),
        Tree::Float(f) => f,
        Tree::Str(s) => seq!['"'] + escape_text(s) + seq!['"'],
        Tree::Array(_, kind) => open_of(kind) + join(parts_of(t, ind)) + close_of(kind),
        Tree::Object(_) => seq!['{', '\n'] + concat(parts_of(t, ind)) + spaces(if ind >= 4 { (ind - 4) as nat } else { 0 })
            + seq!['}'],
    }
}

/// The text of a document whose value is `t`.
pub open spec fn render(t: Tree) -> Seq<char> {
    seq!['c', 'o', 'n', 'f', 'i', 'g', ' ', ':', ' '] + render_value(t, 4) + seq![';']
}

/// Appends the characters of `w`.
fn push_str(out: &mut String, w: &str)
    ensures
        final(out)@ == old(out)@ + w@,
{
    let n = w.unicode_len();
    let mut q: usize = 0;
    while q < n
        invariant
            n == w@.len(),
            q <= n,
            out@ == old(out)@ + w@.subrange(0, q as int),
        decreases n - q,
    {
        push_char(out, w.get_char(q));
        q = q + 1;
        assert(out@ =~= old(out)@ + w@.subrange(0, q as int));
    }
    assert(w@.subrange(0, n as int) =~= w@);
}

/// Appends `n` spaces.
fn push_spaces(out: &mut String, n: usize)
    ensures
        final(out)@ == old(out)@ + spaces(n as nat),
{
    let mut q: usize = 0;
    while q < n
        invariant
            q <= n,
            out@ == old(out)@ + spaces(q as nat),
        decreases n - q,
    {
        push_char(out, ' ');
        q = q + 1;
        assert(out@ =~= old(out)@ + spaces(q as nat));
    }
}

fn push_escaped(out: &mut String, c: char)
    ensures
        final(out)@ == old(out)@ + escape_char(c),
{
    if c == '"' {
        push_char(out, '\\');
        push_char(out, '"');
    } else if c == '\\' {
        push_char(out, '\\');
        push_char(out, '\\');
    } else if c == '\n' {
        push_char(out, '\\');
        push_char(out, 'n');
    } else if c == '\r' {
        push_char(out, '\\');
        push_char(out, 'r');
    } else if c == '\t' {
        push_char(out, '\\');
        push_char(out, 't');
    } else {
        push_char(out, c);
    }
    assert(out@ =~= old(out)@ + escape_char(c));
}

/// Appends a string literal: the quotes and the escaped characters.
fn push_quoted(out: &mut String, t: &String)
    ensures
        final(out)@ == old(out)@ + seq!['"'] + escape_text(t@) + seq!['"'],
{
    let cs = crate::text::chars_of(t.as_str());
    push_char(out, '"');
    let mut q: usize = 0;
    while q < cs.len()
        invariant
            cs@ == t@,
            q <= cs.len(),
            out@ == old(out)@ + seq!['"'] + escape_text(t@.subrange(0, q as int)),
        decreases cs.len() - q,
    {
        push_escaped(out, cs[q]);
        assert(t@.subrange(0, q + 1).drop_last() =~= t@.subrange(0, q as int));
        q = q + 1;
        assert(out@ =~= old(out)@ + seq!['"'] + escape_text(t@.subrange(0, q as int)));
    }
    assert(t@.subrange(0, cs.len() as int) =~= t@);
    push_char(out, '"');
}

fn digit_of(d: u64) -> (c: char)
    requires
        d < 10,
    ensures
        c == digit_char(d as int),
{
    if d == 0 {
        '0'
    } else if d == 1 {
        '1'
    } else if d == 2 {
        '2'
    } else if d == 3 {
        '3'
    } else if d == 4 {
        '4'
    } else if d == 5 {
        '5'
    } else if d == 6 {
        '6'
    } else if d == 7 {
        '7'
    } else if d == 8 {
        '8'
    } else {
        '9'
    }
}

fn push_nat(out: &mut String, n: u64)
    ensures
        final(out)@ == old(out)@ + nat_text(n as nat),
    decreases n,
{
    if n >= 10 {
        push_nat(out, n / 10);
    }
    push_char(out, digit_of(n % 10));
    assert(out@ =~= old(out)@ + nat_text(n as nat));
}

fn push_int(out: &mut String, n: i64)
    ensures
        final(out)@ == old(out)@ + int_text(n as int),
{
    if n < 0 {
        push_char(out, '-');
        let m: u64 = if n == i64::MIN { 9223372036854775808 } else { (-n) as u64 };
        push_nat(out, m);
    } else {
        push_nat(out, n as u64);
    }
    assert(out@ =~= old(out)@ + int_text(n as int));
}

/// Appends the text of `v`, whose members stand at the indentation of
/// `pad`, and whose closing brace stands at the indentation of `outer`.
fn print_value(out: &mut String, v: &Value, pad: &String, outer: &String)
    requires
        pad@ == spaces(pad@.len()),
        outer@ == spaces(if pad@.len() >= 4 { (pad@.len() - 4) as nat } else { 0 }),
    ensures
        final(out)@ == old(out)@ + render_value(v@, pad@.len()),
    decreases v,
{
    let ghost ind = pad@.len();
    proof { lemma_view_parts(*v); }
    match v {
        Value::Bool(b) => {
            if *b {
                push_str(out, "true");
                proof { reveal_strlit("true"); }
            } else {
                push_str(out, "false");
                proof { reveal_strlit("false"); }
            }
            assert(out@ =~= old(out)@ + render_value(v@, pad@.len()));
        },
        Value::Int(n) => {
            push_int(out, *n);
        },
        Value::Float(f) => {
            let cs = crate::text::chars_of(f.as_str());
            crate::text::push_chars(out, &cs);
        },
        Value::String(t) => {
            push_quoted(out, t);
        },
        Value::Array(a, kind) => {
            let ghost parts = parts_of(v@, ind);
            let mut inner = pad.clone();
            push_str(&mut inner, "    ");
            proof {
                reveal_strlit("    ");
                assert(inner@ =~= spaces(ind + 4));
            }
            if *kind == ArrayType::List {
                push_str(out, "( ");
                proof { reveal_strlit("( "); }
            } else {
                push_str(out, "[ ");
                proof { reveal_strlit("[ "); }
            }
            let ghost start = out@;
            assert(start == old(out)@ + open_of(*kind));
            let mut i: usize = 0;
            assert(parts.subrange(0, 0) =~= Seq::<Seq<char>>::empty());
            while i < a.len()
                invariant
                    i <= a.len(),
                    parts == parts_of(v@, ind),
                    v@ == Tree::Array(crate::value::views(a@), *kind),
                    *v == Value::Array(*a, *kind),
                    parts.len() == a.len(),
                    inner@ == spaces(ind + 4),
                    pad@ == spaces(ind),
                    pad@.len() == ind,
                    out@ == start + join(parts.subrange(0, i as int)),
                decreases a.len() - i,
            {
                if i > 0 {
                    push_str(out, ", ");
                    proof { reveal_strlit(", "); }
                }
                proof { vstd::std_specs::vec::axiom_vec_index_decreases(*a, i as int); }
                print_value(out, &a[i], &inner, pad);
                assert(parts[i as int] == render_value(a@[i as int]@, ind + 4));
                assert(parts.subrange(0, i + 1).drop_last() =~= parts.subrange(0, i as int));
                if i == 0 {
                    assert(join(parts.subrange(0, 1)) == parts[0]);
                }
                i = i + 1;
                assert(out@ =~= start + join(parts.subrange(0, i as int)));
            }
            assert(parts.subrange(0, a.len() as int) =~= parts);
            if *kind == ArrayType::List {
                push_str(out, " )");
                proof { reveal_strlit(" )"); }
            } else {
                push_str(out, " ]");
                proof { reveal_strlit(" ]"); }
            }
            assert(out@ =~= old(out)@ + render_value(v@, pad@.len()));
        },
        Value::Object(m) => {
            let ghost parts = parts_of(v@, ind);
            let mut inner = pad.clone();
            push_str(&mut inner, "    ");
            proof {
                reveal_strlit("    ");
                assert(inner@ =~= spaces(ind + 4));
            }
            push_str(out, "{\n");
            proof { reveal_strlit("{\n"); }
            let ghost start = out@;
            let mut i: usize = 0;
            assert(parts.subrange(0, 0) =~= Seq::<Seq<char>>::empty());
            while i < m.len()
                invariant
                    i <= m.len(),
                    parts == parts_of(v@, ind),
                    v@ == Tree::Object(crate::value::member_views(m@)),
                    *v == Value::Object(*m),
                    parts.len() == m.len(),
                    inner@ == spaces(ind + 4),
                    pad@ == spaces(ind),
                    pad@.len() == ind,
                    out@ == start + concat(parts.subrange(0, i as int)),
                decreases m.len() - i,
            {
                let ghost before = out@;
                crate::text::push_chars(out, &crate::text::chars_of(pad.as_str()));
                crate::text::push_chars(out, &crate::text::chars_of(m[i].0.as_str()));
                push_str(out, " : ");
                proof { reveal_strlit(" : "); }
                proof { vstd::std_specs::vec::axiom_vec_index_decreases(*m, i as int); }
                print_value(out, &m[i].1, &inner, pad);
                push_str(out, ";\n");
                proof { reveal_strlit(";\n"); }
                assert(parts[i as int] == member_line(m@[i as int].0@, render_value(m@[i as int].1@, ind + 4), ind));
                assert(out@ =~= before + parts[i as int]);
                assert(parts.subrange(0, i + 1).drop_last() =~= parts.subrange(0, i as int));
                i = i + 1;
                assert(out@ =~= start + concat(parts.subrange(0, i as int)));
            }
            assert(parts.subrange(0, m.len() as int) =~= parts);
            crate::text::push_chars(out, &crate::text::chars_of(outer.as_str()));
            push_char(out, '}');
            assert(out@ =~= old(out)@ + render_value(v@, pad@.len()));
        },
    }
}

/// Appends the text of `value`, whose members, if it is an object, stand
/// `indentation_level` spaces in.
pub fn print(out: &mut String, value: &Value, indentation_level: usize)
    ensures
        final(out)@ == old(out)@ + render_value(value@, indentation_level as nat),
{
    let mut pad = String::new();
    push_spaces(&mut pad, indentation_level);
    let mut outer = String::new();
    push_spaces(&mut outer, if indentation_level >= 4 { indentation_level - 4 } else { 0 });
    assert(pad@ =~= spaces(indentation_level as nat));
    print_value(out, value, &pad, &outer);
}

impl Value {
    /// The document that binds this value: `config : <value>;`.
    pub fn to_string(&self) -> (r: String)
        ensures
            r@ == render(self@),
    {
        let mut out = String::new();
        push_str(&mut out, "config : ");
        print(&mut out, self, 4);
        push_char(&mut out, ';');
        proof { reveal_strlit("config : "); }
        assert(out@ =~= render(self@));
        out
    }
}

} // verus!
