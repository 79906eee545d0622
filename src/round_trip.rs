//! Rendering a tree and parsing the text gives the tree back.
use vstd::prelude::*;
use crate::printer::{
    close_of, concat, digit_char, escape_char, escape_text, int_text, join, member_line, nat_text, open_of, parts_of,
    render, render_value, spaces,
};
use crate::value::{ArrayType, Tree, insert_member, key_index, keys_distinct};
use crate::grammar::{
    char_at, digit_run, digits_value, ident_run, is_digit, is_ident_char, is_ident_start, is_num_char, is_ws,
    num_run, parse_float, parse_int, parse_document, parse_items, parse_items_from, parse_member, parse_members,
    parse_value, ws_run,
};

verus! {

/// A character that the renderer puts right after a value.
pub open spec fn is_stop(c: char) -> bool {
    c == ';' || c == ',' || c == ' '
}

/// `s` holds `t` from `j` on.
pub open spec fn holds_at(s: Seq<char>, j: int, t: Seq<char>) -> bool {
    0 <= j && j + t.len() <= s.len() && s.subrange(j, j + t.len()) == t
}

/// `t` stands in `s` at `j`, and what follows it is a stop character.
pub open spec fn stands_at(s: Seq<char>, j: int, t: Seq<char>) -> bool {
    holds_at(s, j, t) && j + t.len() < s.len() && is_stop(s[j + t.len()])
}

proof fn lemma_holds_index(s: Seq<char>, j: int, t: Seq<char>, x: int)
    requires
        holds_at(s, j, t),
        0 <= x < t.len(),
    ensures
        s[j + x] == t[x],
{
    assert(s.subrange(j, j + t.len())[x] == s[j + x]);
}

/// Runs of whitespace over a stretch that is whitespace up to a character
/// that is not.
proof fn lemma_ws_run_exact(s: Seq<char>, p: int, n: int)
    requires
        0 <= p,
        0 <= n,
        p + n < s.len(),
        forall|x: int| p <= x < p + n ==> is_ws(#[trigger] s[x]),
        !is_ws(s[p + n]),
    ensures
        ws_run(s, p) == n,
    decreases n,
{
    if n > 0 {
        lemma_ws_run_exact(s, p + 1, n - 1);
    }
}

/// Runs of identifier characters up to a character that is not one.
proof fn lemma_ident_run_exact(s: Seq<char>, p: int, n: int)
    requires
        0 <= p,
        0 <= n,
        p + n < s.len(),
        forall|x: int| p <= x < p + n ==> is_ident_char(#[trigger] s[x]),
        !is_ident_char(s[p + n]),
    ensures
        ident_run(s, p) == n,
    decreases n,
{
    if n > 0 {
        lemma_ident_run_exact(s, p + 1, n - 1);
    }
}

/// A run of digits reads the same in `s` as in the text `f` that `s` holds
/// at `j`, where `f` is followed by a stop character.
proof fn lemma_digit_run_local(s: Seq<char>, f: Seq<char>, j: int, x: int)
    requires
        stands_at(s, j, f),
        0 <= x <= f.len(),
    ensures
        digit_run(s, j + x) == digit_run(f, x),
    decreases f.len() - x,
{
    if x < f.len() {
        lemma_holds_index(s, j, f, x);
        lemma_digit_run_local(s, f, j, x + 1);
    }
}

proof fn lemma_num_run_local(s: Seq<char>, f: Seq<char>, j: int, x: int)
    requires
        stands_at(s, j, f),
        0 <= x <= f.len(),
    ensures
        num_run(s, j + x) == num_run(f, x),
    decreases f.len() - x,
{
    if x < f.len() {
        lemma_holds_index(s, j, f, x);
        lemma_num_run_local(s, f, j, x + 1);
    }
}

proof fn lemma_digits_value_local(s: Seq<char>, f: Seq<char>, j: int, a: int, b: int)
    requires
        holds_at(s, j, f),
        0 <= a <= b <= f.len(),
    ensures
        digits_value(s, j + a, j + b) == digits_value(f, a, b),
    decreases b - a,
{
    if a < b {
        lemma_holds_index(s, j, f, b - 1);
        lemma_digits_value_local(s, f, j, a, b - 1);
    }
}

/// Whether a character test holds at a position reads the same in `s` as
/// in `f`; at the end of `f`, `s` holds a stop character.
proof fn lemma_char_at_local(s: Seq<char>, f: Seq<char>, j: int, x: int, c: char)
    requires
        stands_at(s, j, f),
        0 <= x <= f.len(),
        !is_stop(c),
    ensures
        char_at(s, j + x, c) == char_at(f, x, c),
{
    if x < f.len() {
        lemma_holds_index(s, j, f, x);
    }
}

/// Both number alternatives read the same in `s` as in the text `f` that
/// `s` holds at `j`.
pub proof fn lemma_number_local(s: Seq<char>, f: Seq<char>, j: int)
    requires
        stands_at(s, j, f),
    ensures
        parse_int(s, j) == parse_int(f, 0),
        parse_float(s, j) == parse_float(f, 0),
{
    lemma_int_local(s, f, j);
    lemma_float_local(s, f, j);
}

#[verifier::rlimit(30)]
proof fn lemma_int_local(s: Seq<char>, f: Seq<char>, j: int)
    requires
        stands_at(s, j, f),
    ensures
        parse_int(s, j) == parse_int(f, 0),
{
    lemma_char_at_local(s, f, j, 0, '-');
    let neg = char_at(f, 0, '-');
    let k: int = if neg { 1 } else { 0 };
    if k <= f.len() {
        lemma_num_run_local(s, f, j, k);
        let e = k + num_run(f, k);
        assert(e <= f.len()) by {
            lemma_num_run_bound(f, k);
        }
        lemma_digits_value_local(s, f, j, k, e);
        lemma_char_at_local(s, f, j, e, 'e');
        lemma_char_at_local(s, f, j, e, 'E');
        lemma_char_at_local(s, f, j, e, 'L');
        assert(crate::grammar::has_dot(s, j + k, j + e) == crate::grammar::has_dot(f, k, e)) by {
            if crate::grammar::has_dot(f, k, e) {
                let w = choose|w: int| k <= w < e && f[w] == '.';
                lemma_holds_index(s, j, f, w);
                assert(s[j + w] == '.');
            }
            if crate::grammar::has_dot(s, j + k, j + e) {
                let w = choose|w: int| j + k <= w < j + e && s[w] == '.';
                lemma_holds_index(s, j, f, w - j);
            }
        }
    }
}

#[verifier::rlimit(30)]
proof fn lemma_float_local(s: Seq<char>, f: Seq<char>, j: int)
    requires
        stands_at(s, j, f),
    ensures
        parse_float(s, j) == parse_float(f, 0),
{
    lemma_char_at_local(s, f, j, 0, '+');
    lemma_char_at_local(s, f, j, 0, '-');
    let k2: int = if char_at(f, 0, '+') || char_at(f, 0, '-') { 1 } else { 0 };
    if k2 <= f.len() {
        lemma_digit_run_local(s, f, j, k2);
        lemma_digit_run_bound(f, k2);
        let d = k2 + digit_run(f, k2);
        lemma_char_at_local(s, f, j, d, '.');
        lemma_char_at_local(s, f, j, k2, '.');
        if d < f.len() {
            lemma_digit_run_local(s, f, j, d + 1);
            lemma_digit_run_bound(f, d + 1);
        }
        if k2 < f.len() {
            lemma_digit_run_local(s, f, j, k2 + 1);
            lemma_digit_run_bound(f, k2 + 1);
        }
        match crate::grammar::mantissa_end(f, k2) {
            Some(m) => {
                assert(crate::grammar::mantissa_end(s, j + k2) == Some(j + m));
                lemma_char_at_local(s, f, j, m, 'e');
                lemma_char_at_local(s, f, j, m, 'E');
                if m < f.len() {
                    lemma_char_at_local(s, f, j, m + 1, '+');
                    lemma_char_at_local(s, f, j, m + 1, '-');
                    let x = if char_at(f, m + 1, '+') || char_at(f, m + 1, '-') { m + 2 } else { m + 1 };
                    if x <= f.len() {
                        lemma_digit_run_local(s, f, j, x);
                    }
                }
            },
            None => {
                assert(crate::grammar::mantissa_end(s, j + k2) is None);
            },
        }
    }
}

proof fn lemma_num_run_bound(f: Seq<char>, k: int)
    requires
        0 <= k <= f.len(),
    ensures
        k + num_run(f, k) <= f.len(),
    decreases f.len() - k,
{
    if k < f.len() {
        lemma_num_run_bound(f, k + 1);
    }
}

proof fn lemma_digit_run_bound(f: Seq<char>, k: int)
    requires
        0 <= k <= f.len(),
    ensures
        k + digit_run(f, k) <= f.len(),
    decreases f.len() - k,
{
    if k < f.len() {
        lemma_digit_run_bound(f, k + 1);
    }
}

/// The decimal text of a number is all digits, and spells the number.
proof fn lemma_nat_text(m: nat)
    ensures
        nat_text(m).len() >= 1,
        forall|x: int| 0 <= x < nat_text(m).len() ==> is_digit(#[trigger] nat_text(m)[x]),
        digits_value(nat_text(m), 0, nat_text(m).len() as int) == m,
    decreases m,
{
    let d = digit_char((m % 10) as int);
    assert(is_digit(d) && d as int - '0' as int == m % 10);
    if m >= 10 {
        lemma_nat_text(m / 10);
        let t = nat_text(m / 10);
        let u = nat_text(m);
        assert(u == t + seq![d]);
        assert forall|x: int| 0 <= x < u.len() implies is_digit(#[trigger] u[x]) by {
            if x < t.len() {
                assert(u[x] == t[x]);
            }
        }
        assert(u.subrange(0, t.len() as int) =~= t);
        lemma_digits_value_local(u, t, 0, 0, t.len() as int);
    } else {
        assert(digits_value(nat_text(m), 0, 1) == digits_value(nat_text(m), 0, 0) * 10 + (d as int - '0' as int));
    }
}

/// A run that reaches the end of the text.
proof fn lemma_num_run_to_end(f: Seq<char>, k: int)
    requires
        0 <= k <= f.len(),
        forall|x: int| k <= x < f.len() ==> is_digit(#[trigger] f[x]),
    ensures
        num_run(f, k) == f.len() - k,
    decreases f.len() - k,
{
    if k < f.len() {
        lemma_num_run_to_end(f, k + 1);
    }
}

/// The integer alternative reads the decimal text of an integer back.
pub proof fn lemma_int_text(n: i64)
    ensures
        parse_int(int_text(n as int), 0) == Some((n, int_text(n as int).len())),
{
    let f = int_text(n as int);
    if n < 0 {
        let m = (-(n as int)) as nat;
        lemma_nat_text(m);
        let t = nat_text(m);
        assert(f == seq!['-'] + t);
        assert(char_at(f, 0, '-'));
        assert forall|x: int| 1 <= x < f.len() implies is_digit(#[trigger] f[x]) by {
            assert(f[x] == t[x - 1]);
        }
        lemma_num_run_to_end(f, 1);
        assert(f.subrange(1, 1 + t.len() as int) =~= t);
        lemma_digits_value_local(f, t, 1, 0, t.len() as int);
        assert(!crate::grammar::has_dot(f, 1, f.len() as int));
    } else {
        lemma_nat_text(n as nat);
        assert(!char_at(f, 0, '-'));
        lemma_num_run_to_end(f, 0);
        assert(!crate::grammar::has_dot(f, 0, f.len() as int));
    }
}

/// Escaping distributes over concatenation.
proof fn lemma_escape_append(a: Seq<char>, b: Seq<char>)
    ensures
        escape_text(a + b) == escape_text(a) + escape_text(b),
    decreases b.len(),
{
    if b.len() == 0 {
        assert(a + b =~= a);
        assert(escape_text(a) + escape_text(b) =~= escape_text(a));
    } else {
        lemma_escape_append(a, b.drop_last());
        assert((a + b).drop_last() =~= a + b.drop_last());
        assert((a + b).last() == b.last());
        assert(escape_text(a + b) =~= escape_text(a) + escape_text(b));
    }
}

/// The body of a string literal decodes its escaped text.
proof fn lemma_string_body(s: Seq<char>, p: int, acc: Seq<char>, x: Seq<char>)
    requires
        holds_at(s, p, escape_text(x) + seq!['"']),
    ensures
        crate::grammar::parse_string_body(s, p, acc) == Some((acc + x, (escape_text(x).len() + 1) as nat)),
    decreases x.len(),
{
    let w = escape_text(x) + seq!['"'];
    if x.len() == 0 {
        assert(escape_text(x) =~= Seq::<char>::empty());
        lemma_holds_index(s, p, w, 0);
        assert(acc + x =~= acc);
    } else {
        let c = x[0];
        let y = x.drop_first();
        assert(x =~= seq![c] + y);
        lemma_escape_append(seq![c], y);
        assert(seq![c].drop_last() =~= Seq::<char>::empty());
        assert(escape_text(Seq::<char>::empty()) == Seq::<char>::empty());
        assert(seq![c].last() == c);
        assert(escape_text(seq![c]) =~= escape_char(c));
        let e = escape_char(c);
        assert(w =~= e + (escape_text(y) + seq!['"']));
        lemma_holds_index(s, p, w, 0);
        if e.len() == 2 {
            lemma_holds_index(s, p, w, 1);
            assert(s.subrange(p + 2, p + 2 + (escape_text(y) + seq!['"']).len()) =~= escape_text(y) + seq!['"']) by {
                assert forall|z: int| 0 <= z < (escape_text(y) + seq!['"']).len() implies
                    s.subrange(p + 2, p + 2 + (escape_text(y) + seq!['"']).len())[z] == (escape_text(y) + seq!['"'])[z] by {
                    lemma_holds_index(s, p, w, z + 2);
                }
            }
            lemma_string_body(s, p + 2, acc.push(c), y);
            assert(acc.push(c) + y =~= acc + x);
        } else {
            assert(s.subrange(p + 1, p + 1 + (escape_text(y) + seq!['"']).len()) =~= escape_text(y) + seq!['"']) by {
                assert forall|z: int| 0 <= z < (escape_text(y) + seq!['"']).len() implies
                    s.subrange(p + 1, p + 1 + (escape_text(y) + seq!['"']).len())[z] == (escape_text(y) + seq!['"'])[z] by {
                    lemma_holds_index(s, p, w, z + 1);
                }
            }
            lemma_string_body(s, p + 1, acc.push(c), y);
            assert(acc.push(c) + y =~= acc + x);
        }
    }
}

/// An identifier: a letter or underscore, then letters, digits and
/// underscores.
pub open spec fn is_ident(k: Seq<char>) -> bool {
    k.len() > 0 && is_ident_start(k[0]) && forall|x: int| 0 <= x < k.len() ==> is_ident_char(#[trigger] k[x])
}

/// Text that the number grammar reads as a float, all of it, and not as an
/// integer.
pub open spec fn float_ok(f: Seq<char>) -> bool {
    parse_int(f, 0) is None && parse_float(f, 0) == Some(f.len())
}

/// A tree whose floats are float literals that are not also integer
/// literals, and whose object keys are distinct identifiers.
pub open spec fn well_formed(t: Tree) -> bool
    decreases t,
{
    match t {
        Tree::Float(f) => float_ok(f),
        Tree::Array(items, _) => forall|i: int| 0 <= i < items.len() ==> well_formed(#[trigger] items[i]),
        Tree::Object(m) => keys_distinct(m) && forall|i: int|
            0 <= i < m.len() ==> is_ident(#[trigger] m[i].0) && well_formed(m[i].1),
        _ => true,
    }
}

proof fn lemma_holds_concat(s: Seq<char>, j: int, a: Seq<char>, b: Seq<char>)
    requires
        holds_at(s, j, a + b),
    ensures
        holds_at(s, j, a),
        holds_at(s, j + a.len(), b),
{
    let w = s.subrange(j, j + (a + b).len());
    assert(w == a + b);
    assert(s.subrange(j, j + a.len()) =~= w.subrange(0, a.len() as int));
    assert(w.subrange(0, a.len() as int) =~= a);
    assert(s.subrange(j + a.len(), j + a.len() + b.len()) =~= w.subrange(a.len() as int, w.len() as int));
    assert(w.subrange(a.len() as int, w.len() as int) =~= b);
}

/// A float literal starts with a sign, a digit or a dot.
proof fn lemma_float_first(f: Seq<char>)
    requires
        float_ok(f),
    ensures
        f.len() > 0,
        f[0] == '+' || f[0] == '-' || f[0] == '.' || is_digit(f[0]),
{
    let k: int = if char_at(f, 0, '+') || char_at(f, 0, '-') { 1 } else { 0 };
    if k == 0 {
        if digit_run(f, 0) == 0 {
            assert(char_at(f, 0, '.'));
        }
    }
}

/// What a rendered value starts with.
proof fn lemma_render_first(t: Tree, ind: nat)
    requires
        well_formed(t),
    ensures
        render_value(t, ind).len() > 0,
        ({
            let c = render_value(t, ind)[0];
            &&& !is_ws(c)
            &&& c != ']' && c != ')' && c != '}'
            &&& (t is Bool <==> (c == 't' || c == 'f'))
            &&& (t is Str <==> c == '"')
            &&& (t is Object <==> c == '{')
            &&& (t is Array <==> (c == '[' || c == '('))
            &&& (t is Array ==> (c == '[' <==> t->Array_1 == ArrayType::Array))
        }),
{
    match t {
        Tree::Int(n) => {
            if n < 0 {
                assert(render_value(t, ind)[0] == '-');
            } else {
                lemma_nat_text(n as nat);
                assert(is_digit(render_value(t, ind)[0]));
            }
        },
        Tree::Float(f) => {
            lemma_float_first(f);
        },
        _ => {},
    }
}

/// Joining distributes over appending, with a separator between the two.
proof fn lemma_join_append(a: Seq<Seq<char>>, b: Seq<Seq<char>>)
    requires
        a.len() > 0,
        b.len() > 0,
    ensures
        join(a + b) == join(a) + seq![',', ' '] + join(b),
    decreases b.len(),
{
    if b.len() == 1 {
        assert((a + b).drop_last() =~= a);
        assert(join(b) == b[0]);
    } else {
        lemma_join_append(a, b.drop_last());
        assert((a + b).drop_last() =~= a + b.drop_last());
        assert(join(a + b) =~= join(a) + seq![',', ' '] + join(b));
    }
}

/// The parts from `i` on: the first, then the rest behind a separator.
proof fn lemma_join_first(p: Seq<Seq<char>>, i: int)
    requires
        0 <= i < p.len(),
    ensures
        i + 1 < p.len() ==> join(p.subrange(i, p.len() as int)) == p[i] + seq![',', ' '] + join(p.subrange(i + 1, p.len() as int)),
        i + 1 == p.len() ==> join(p.subrange(i, p.len() as int)) == p[i],
{
    let n = p.len() as int;
    if i + 1 < n {
        assert(p.subrange(i, n) =~= seq![p[i]] + p.subrange(i + 1, n));
        lemma_join_append(seq![p[i]], p.subrange(i + 1, n));
        assert(join(seq![p[i]]) == p[i]);
    } else {
        assert(p.subrange(i, n) =~= seq![p[i]]);
    }
}

/// The lines from `i` on: the first, then the rest.
proof fn lemma_concat_first(p: Seq<Seq<char>>, i: int)
    requires
        0 <= i < p.len(),
    ensures
        concat(p.subrange(i, p.len() as int)) == p[i] + concat(p.subrange(i + 1, p.len() as int)),
{
    let n = p.len() as int;
    assert(p.subrange(i, n) =~= seq![p[i]] + p.subrange(i + 1, n));
    crate::token::lemma_concat_append(seq![p[i]], p.subrange(i + 1, n));
    crate::token::lemma_concat_single(p[i]);
}

/// Where no member has key `k`, it has no position.
proof fn lemma_key_absent(m: Seq<(Seq<char>, Tree)>, k: Seq<char>)
    requires
        forall|x: int| 0 <= x < m.len() ==> (#[trigger] m[x]).0 != k,
    ensures
        key_index(m, k) == -1,
    decreases m.len(),
{
    if m.len() > 0 {
        assert(m.last() == m[m.len() - 1]);
        lemma_key_absent(m.drop_last(), k);
    }
}

/// A rendered value, with whitespace before it, parses back.
proof fn lemma_value(t: Tree, ind: nat, s: Seq<char>, q: int, j: int)
    requires
        well_formed(t),
        0 <= q <= j,
        forall|x: int| q <= x < j ==> is_ws(#[trigger] s[x]),
        stands_at(s, j, render_value(t, ind)),
    ensures
        parse_value(s, q) == Some((t, (j - q + render_value(t, ind).len()) as nat)),
    decreases t, 2nat, 0nat,
{
    let r = render_value(t, ind);
    lemma_render_first(t, ind);
    lemma_holds_index(s, j, r, 0);
    lemma_ws_run_exact(s, q, j - q);
    assert(q + ws_run(s, q) == j);
    match t {
        Tree::Array(_, _) => {
            lemma_array_value(t, ind, s, j);
        },
        Tree::Object(_) => {
            lemma_object_value(t, ind, s, j);
        },
        _ => {
            lemma_scalar_value(t, ind, s, j);
        },
    }
}

proof fn lemma_not_words(s: Seq<char>, j: int)
    requires
        0 <= j < s.len(),
        s[j] != 't',
        s[j] != 'f',
    ensures
        !crate::grammar::has_word(s, j, crate::grammar::word_true()),
        !crate::grammar::has_word(s, j, crate::grammar::word_false()),
{
    if crate::grammar::has_word(s, j, crate::grammar::word_true()) {
        assert(s.subrange(j, j + 4)[0] == s[j]);
    }
    if crate::grammar::has_word(s, j, crate::grammar::word_false()) {
        assert(s.subrange(j, j + 5)[0] == s[j]);
    }
}

/// A rendered scalar parses back.
#[verifier::rlimit(40)]
proof fn lemma_scalar_value(t: Tree, ind: nat, s: Seq<char>, j: int)
    requires
        well_formed(t),
        !(t is Array || t is Object),
        stands_at(s, j, render_value(t, ind)),
        ws_run(s, j) == 0,
    ensures
        parse_value(s, j) == Some((t, render_value(t, ind).len())),
{
    let r = render_value(t, ind);
    lemma_render_first(t, ind);
    lemma_holds_index(s, j, r, 0);
    match t {
        Tree::Bool(b) => {
            if b {
                assert(s.subrange(j, j + 4) == crate::grammar::word_true());
            } else {
                if crate::grammar::has_word(s, j, crate::grammar::word_true()) {
                    assert(s.subrange(j, j + 4)[0] == s[j]);
                }
                assert(s.subrange(j, j + 5) == crate::grammar::word_false());
            }
        },
        Tree::Int(n) => {
            lemma_int_text(n);
            lemma_number_local(s, r, j);
            lemma_not_words(s, j);
        },
        Tree::Float(f) => {
            lemma_number_local(s, r, j);
            lemma_not_words(s, j);
            assert(s.subrange(j, j + f.len()) == f);
        },
        Tree::Str(x) => {
            let e = escape_text(x);
            assert(r == seq!['"'] + (e + seq!['"']));
            lemma_holds_concat(s, j, seq!['"'], e + seq!['"']);
            lemma_string_body(s, j + 1, Seq::empty(), x);
            assert(Seq::<char>::empty() + x =~= x);
        },
        _ => {},
    }
}

/// A rendered array parses back.
#[verifier::rlimit(40)]
proof fn lemma_array_value(t: Tree, ind: nat, s: Seq<char>, j: int)
    requires
        well_formed(t),
        t is Array,
        stands_at(s, j, render_value(t, ind)),
        ws_run(s, j) == 0,
    ensures
        parse_value(s, j) == Some((t, render_value(t, ind).len())),
    decreases t, 1nat, 0nat,
{
    let r = render_value(t, ind);
    let items = t->Array_0;
    let kind = t->Array_1;
    lemma_render_first(t, ind);
    lemma_holds_index(s, j, r, 0);
    let p = parts_of(t, ind);
    let body = join(p) + close_of(kind);
    assert(r == open_of(kind) + body);
    lemma_holds_concat(s, j, open_of(kind), body);
    lemma_holds_index(s, j, r, 1);
    assert(s[j] == '[' <==> kind == ArrayType::Array);
    if items.len() == 0 {
        assert(p =~= Seq::<Seq<char>>::empty());
        assert(body == close_of(kind));
        lemma_holds_index(s, j + 2, body, 0);
        lemma_holds_index(s, j + 2, body, 1);
        lemma_ws_run_exact(s, j + 1, 2);
        assert(crate::grammar::char_at(s, j + 3, crate::grammar::close_of(kind)));
        assert(items =~= Seq::<Tree>::empty());
        assert(parse_items(s, j + 1, kind) == Some((Seq::<Tree>::empty(), 3nat)));
    } else {
        assert(p.subrange(0, p.len() as int) =~= p);
        assert(r == seq![r[0]] + (seq![' '] + join(p.subrange(0, p.len() as int)) + close_of(kind)));
        lemma_holds_concat(s, j, seq![r[0]], seq![' '] + join(p.subrange(0, p.len() as int)) + close_of(kind));
        lemma_items(t, ind, s, j + 1, 0);
        lemma_join_first(p, 0);
        assert(well_formed(items[0]));
        lemma_render_first(items[0], ind + 4);
        assert(p[0] == render_value(items[0], ind + 4));
        lemma_holds_index(s, j + 2, body, 0);
        lemma_ws_run_exact(s, j + 1, 1);
        assert(items.subrange(0, items.len() as int) =~= items);
        assert(!crate::grammar::char_at(s, j + 2, crate::grammar::close_of(kind)));
        assert(parse_items(s, j + 1, kind) == Some((items, (r.len() - 1) as nat)));
    }
}

/// A rendered object parses back.
#[verifier::rlimit(40)]
proof fn lemma_object_value(t: Tree, ind: nat, s: Seq<char>, j: int)
    requires
        well_formed(t),
        t is Object,
        stands_at(s, j, render_value(t, ind)),
        ws_run(s, j) == 0,
    ensures
        parse_value(s, j) == Some((t, render_value(t, ind).len())),
    decreases t, 1nat, 0nat,
{
    let r = render_value(t, ind);
    let m = t->Object_0;
    lemma_holds_index(s, j, r, 0);
    let p = parts_of(t, ind);
    let w: nat = if ind >= 4 { (ind - 4) as nat } else { 0 };
    assert(r == seq!['{'] + (seq!['\n'] + concat(p) + spaces(w) + seq!['}']));
    lemma_holds_concat(s, j, seq!['{'], seq!['\n'] + concat(p) + spaces(w) + seq!['}']);
    assert(p.subrange(0, p.len() as int) =~= p);
    assert(m.subrange(0, 0) =~= Seq::<(Seq<char>, Tree)>::empty());
    lemma_members(t, ind, s, j + 1, 0);
}

/// The items of a rendered array from `i` on, from the space before item
/// `i` to the closing bracket, parse back.
proof fn lemma_items(t: Tree, ind: nat, s: Seq<char>, q: int, i: int)
    requires
        well_formed(t),
        t is Array,
        0 <= i < t->Array_0.len(),
        0 <= q,
        holds_at(s, q, seq![' '] + join(parts_of(t, ind).subrange(i, t->Array_0.len() as int)) + close_of(t->Array_1)),
    ensures
        parse_items_from(s, q, t->Array_1) == Some((
            t->Array_0.subrange(i, t->Array_0.len() as int),
            (1 + join(parts_of(t, ind).subrange(i, t->Array_0.len() as int)).len() + 2) as nat,
        )),
    decreases t, 0nat, (t->Array_0.len() - i) as nat,
{
    let items = t->Array_0;
    let kind = t->Array_1;
    let n = items.len() as int;
    let p = parts_of(t, ind);
    let pi = p[i];
    assert(pi == render_value(items[i], ind + 4));
    assert(well_formed(items[i]));
    lemma_join_first(p, i);
    let text = seq![' '] + join(p.subrange(i, n)) + close_of(kind);
    lemma_holds_index(s, q, text, 0);
    if i + 1 < n {
        let later = join(p.subrange(i + 1, n));
        assert(text == seq![' '] + pi + (seq![','] + (seq![' '] + later + close_of(kind))));
        lemma_holds_concat(s, q, seq![' '] + pi, seq![','] + (seq![' '] + later + close_of(kind)));
        lemma_holds_concat(s, q, seq![' '], pi);
        lemma_holds_concat(s, q + 1 + pi.len(), seq![','], seq![' '] + later + close_of(kind));
        lemma_holds_index(s, q + 1 + pi.len(), seq![','] + (seq![' '] + later + close_of(kind)), 0);
        lemma_value(items[i], ind + 4, s, q, q + 1);
        let e = q + 1 + pi.len();
        assert(s[e] == ',');
        assert(ws_run(s, e) == 0);
        lemma_items(t, ind, s, e + 1, i + 1);
        assert(seq![items[i]] + items.subrange(i + 1, n) =~= items.subrange(i, n));
    } else {
        assert(text == seq![' '] + pi + close_of(kind));
        lemma_holds_concat(s, q, seq![' '] + pi, close_of(kind));
        lemma_holds_concat(s, q, seq![' '], pi);
        let e = q + 1 + pi.len();
        lemma_holds_index(s, e, close_of(kind), 0);
        lemma_holds_index(s, e, close_of(kind), 1);
        lemma_value(items[i], ind + 4, s, q, q + 1);
        lemma_ws_run_exact(s, e, 1);
        assert(items.subrange(i, n) =~= seq![items[i]]);
    }
}

/// The members of a rendered object from `i` on, from the line break
/// before member `i` to the closing brace, parse back after the members
/// before `i`.
proof fn lemma_members(t: Tree, ind: nat, s: Seq<char>, q: int, i: int)
    requires
        well_formed(t),
        t is Object,
        0 <= i <= t->Object_0.len(),
        0 <= q,
        holds_at(s, q, seq!['\n'] + concat(parts_of(t, ind).subrange(i, t->Object_0.len() as int))
            + spaces(if ind >= 4 { (ind - 4) as nat } else { 0 }) + seq!['}']),
    ensures
        parse_members(s, q, t->Object_0.subrange(0, i)) == Some((
            t->Object_0,
            (1 + concat(parts_of(t, ind).subrange(i, t->Object_0.len() as int)).len()
                + (if ind >= 4 { (ind - 4) as nat } else { 0 }) + 1) as nat,
        )),
    decreases t, 0nat, (t->Object_0.len() - i) as nat,
{
    let m = t->Object_0;
    let n = m.len() as int;
    let p = parts_of(t, ind);
    let w: nat = if ind >= 4 { (ind - 4) as nat } else { 0 };
    let text = seq!['\n'] + concat(p.subrange(i, n)) + spaces(w) + seq!['}'];
    if i == n {
        assert(p.subrange(n, n) =~= Seq::<Seq<char>>::empty());
        assert(text =~= seq!['\n'] + spaces(w) + seq!['}']);
        assert forall|x: int| q <= x < q + 1 + w implies is_ws(#[trigger] s[x]) by {
            lemma_holds_index(s, q, text, x - q);
        }
        lemma_holds_index(s, q, text, 1 + w as int);
        lemma_ws_run_exact(s, q, 1 + w as int);
        assert(m.subrange(0, n) =~= m);
    } else {
        let k = m[i].0;
        let v = m[i].1;
        let rv = render_value(v, ind + 4);
        assert(is_ident(k) && well_formed(v));
        assert(p[i] == member_line(k, rv, ind));
        lemma_concat_first(p, i);
        let tail = seq!['\n'] + concat(p.subrange(i + 1, n)) + spaces(w) + seq!['}'];
        let head = seq!['\n'] + spaces(ind) + k + seq![' ', ':', ' '] + rv + seq![';'];
        assert(text =~= head + tail);
        lemma_holds_concat(s, q, head, tail);
        assert(s[q + head.len()] == '\n') by {
            lemma_holds_index(s, q + head.len(), tail, 0);
        }
        lemma_member(k, v, ind, s, q);
        let len = (ind + k.len() + rv.len() + 5) as nat;
        // the member joins the ones before it
        assert(forall|x: int| 0 <= x < i ==> (#[trigger] m.subrange(0, i)[x]).0 != k) by {
            assert forall|x: int| 0 <= x < i implies (#[trigger] m.subrange(0, i)[x]).0 != k by {
                assert(m.subrange(0, i)[x] == m[x]);
            }
        }
        lemma_key_absent(m.subrange(0, i), k);
        assert(insert_member(m.subrange(0, i), k, v) =~= m.subrange(0, i + 1));
        assert(q + len == q + head.len());
        lemma_members(t, ind, s, q + len, i + 1);
    }
}

/// A rendered member line, with the line break before it, parses back.
#[verifier::rlimit(60)]
proof fn lemma_member(k: Seq<char>, v: Tree, ind: nat, s: Seq<char>, q: int)
    requires
        is_ident(k),
        well_formed(v),
        0 <= q,
        holds_at(s, q, seq!['\n'] + spaces(ind) + k + seq![' ', ':', ' '] + render_value(v, ind + 4) + seq![';']),
        q + 1 + ind + k.len() + 3 + render_value(v, ind + 4).len() + 1 < s.len(),
        s[q + 1 + ind + k.len() + 3 + render_value(v, ind + 4).len() + 1] == '\n',
    ensures
        parse_member(s, q) == Some((k, v, (ind + k.len() + render_value(v, ind + 4).len() + 5) as nat)),
    decreases v, 3nat, 0nat,
{
    let rv = render_value(v, ind + 4);
    let head = seq!['\n'] + spaces(ind) + k + seq![' ', ':', ' '] + rv + seq![';'];
    let j1 = q + 1 + ind;
    assert forall|x: int| q <= x < j1 implies is_ws(#[trigger] s[x]) by {
        lemma_holds_index(s, q, head, x - q);
    }
    lemma_holds_index(s, q, head, 1 + ind as int);
    assert(s[j1] == k[0]);
    lemma_ws_run_exact(s, q, 1 + ind as int);
    assert forall|x: int| j1 + 1 <= x < j1 + k.len() implies is_ident_char(#[trigger] s[x]) by {
        lemma_holds_index(s, q, head, x - q);
        assert(s[x] == k[x - j1]);
    }
    let ke = j1 + k.len();
    lemma_holds_index(s, q, head, ke - q);
    lemma_holds_index(s, q, head, ke + 1 - q);
    lemma_holds_index(s, q, head, ke + 2 - q);
    lemma_ident_run_exact(s, j1 + 1, k.len() - 1);
    lemma_ws_run_exact(s, ke, 1);
    let c = ke + 1;
    assert(s[c] == ':');
    assert(head =~= (seq!['\n'] + spaces(ind) + k + seq![' ', ':', ' ']) + (rv + seq![';']));
    lemma_holds_concat(s, q, seq!['\n'] + spaces(ind) + k + seq![' ', ':', ' '], rv + seq![';']);
    lemma_holds_concat(s, c + 2, rv, seq![';']);
    lemma_holds_index(s, c + 2, rv + seq![';'], rv.len() as int);
    lemma_value(v, ind + 4, s, c + 1, c + 2);
    assert(s.subrange(j1, j1 + k.len()) =~= k) by {
        assert forall|x: int| 0 <= x < k.len() implies s.subrange(j1, j1 + k.len())[x] == k[x] by {
            lemma_holds_index(s, q, head, 1 + ind + x);
        }
    }
}

/// Rendering a well-formed tree and parsing the document gives the tree
/// back, array kinds and the line between integers and floats included.
pub proof fn lemma_round_trip(t: Tree)
    requires
        well_formed(t),
    ensures
        parse_document(render(t)) == Some(t),
{
    let r = render_value(t, 4);
    let s = render(t);
    let prefix = seq!['c', 'o', 'n', 'f', 'i', 'g', ' ', ':', ' '];
    assert(s == prefix + (r + seq![';']));
    assert(s.subrange(0, s.len() as int) =~= s);
    lemma_holds_concat(s, 0, prefix, r + seq![';']);
    lemma_holds_concat(s, 9, r, seq![';']);
    lemma_holds_index(s, 9, r + seq![';'], r.len() as int);
    lemma_holds_index(s, 0, prefix, 0);
    lemma_holds_index(s, 0, prefix, 6);
    lemma_holds_index(s, 0, prefix, 7);
    lemma_holds_index(s, 0, prefix, 8);
    assert forall|x: int| 1 <= x < 6 implies is_ident_char(#[trigger] s[x]) by {
        lemma_holds_index(s, 0, prefix, x);
    }
    lemma_render_first(t, 4);
    lemma_ws_run_exact(s, 0, 0);
    lemma_ident_run_exact(s, 1, 5);
    lemma_ws_run_exact(s, 6, 1);
    lemma_value(t, 4, s, 8, 9);
    assert(s.subrange(0, 6) =~= prefix.subrange(0, 6));
    assert(ws_run(s, s.len() as int) == 0);
}

/// A run of digits in a window of `s` is the run in `s`, cut at the
/// window's end.
proof fn lemma_digit_run_window(s: Seq<char>, j: int, len: int, x: int)
    requires
        0 <= j,
        0 <= x <= len,
        j + len <= s.len(),
    ensures
        digit_run(s.subrange(j, j + len), x) == if digit_run(s, j + x) <= len - x {
            digit_run(s, j + x)
        } else {
            (len - x) as nat
        },
    decreases len - x,
{
    if x < len {
        lemma_digit_run_window(s, j, len, x + 1);
        assert(s.subrange(j, j + len)[x] == s[j + x]);
    }
}

proof fn lemma_num_run_window(s: Seq<char>, j: int, len: int, x: int)
    requires
        0 <= j,
        0 <= x <= len,
        j + len <= s.len(),
    ensures
        num_run(s.subrange(j, j + len), x) == if num_run(s, j + x) <= len - x {
            num_run(s, j + x)
        } else {
            (len - x) as nat
        },
    decreases len - x,
{
    if x < len {
        lemma_num_run_window(s, j, len, x + 1);
        assert(s.subrange(j, j + len)[x] == s[j + x]);
    }
}

proof fn lemma_digit_run_chars(s: Seq<char>, k: int, x: int)
    requires
        0 <= k <= x < k + digit_run(s, k),
    ensures
        is_digit(s[x]),
    decreases x - k,
{
    if x > k {
        lemma_digit_run_chars(s, k + 1, x);
    }
}

proof fn lemma_num_run_chars(s: Seq<char>, k: int, x: int)
    requires
        0 <= k <= x < k + num_run(s, k),
    ensures
        is_num_char(s[x]),
    decreases x - k,
{
    if x > k {
        lemma_num_run_chars(s, k + 1, x);
    }
}

/// A run stops at a character it does not take.
proof fn lemma_digit_run_stop(s: Seq<char>, k: int)
    requires
        0 <= k <= s.len(),
    ensures
        k + digit_run(s, k) <= s.len(),
        k + digit_run(s, k) < s.len() ==> !is_digit(s[k + digit_run(s, k)]),
    decreases s.len() - k,
{
    if k < s.len() && is_digit(s[k]) {
        lemma_digit_run_stop(s, k + 1);
    }
}

proof fn lemma_num_run_stop(s: Seq<char>, k: int)
    requires
        0 <= k <= s.len(),
    ensures
        k + num_run(s, k) <= s.len(),
        k + num_run(s, k) < s.len() ==> !is_num_char(s[k + num_run(s, k)]),
    decreases s.len() - k,
{
    if k < s.len() && is_num_char(s[k]) {
        lemma_num_run_stop(s, k + 1);
    }
}

/// The text that the float alternative reads, taken alone, is a float
/// literal, and is no integer literal.
#[verifier::rlimit(80)]
proof fn lemma_float_window(s: Seq<char>, j: int)
    requires
        0 <= j <= s.len(),
        parse_int(s, j) is None,
        parse_float(s, j) is Some,
    ensures
        float_ok(s.subrange(j, j + parse_float(s, j)->Some_0)),
{
    let len = parse_float(s, j)->Some_0 as int;
    let f = s.subrange(j, j + len);
    let k: int = if char_at(s, j, '+') || char_at(s, j, '-') { 1 } else { 0 };
    let m = crate::grammar::mantissa_end(s, j + k)->Some_0 - j;
    let d = k + digit_run(s, j + k);
    lemma_digit_run_stop(s, j + k);
    if j + d + 1 <= s.len() {
        lemma_digit_run_stop(s, j + d + 1);
    }
    if j + k + 1 <= s.len() {
        lemma_digit_run_stop(s, j + k + 1);
    }
    // where the mantissa and the exponent end
    let has_exp = char_at(s, j + m, 'e') || char_at(s, j + m, 'E');
    let xe: int = if char_at(s, j + m + 1, '+') || char_at(s, j + m + 1, '-') { m + 2 } else { m + 1 };
    if has_exp {
        lemma_digit_run_stop(s, j + xe);
        assert(len == xe + digit_run(s, j + xe));
    } else {
        assert(len == m);
    }
    assert(j + len <= s.len());
    assert(f.len() == len);
    assert forall|x: int| 0 <= x < len implies #[trigger] f[x] == s[j + x] by {}
    // the float alternative on the window
    lemma_digit_run_window(s, j, len, k);
    assert(char_at(f, 0, '+') == char_at(s, j, '+') && char_at(f, 0, '-') == char_at(s, j, '-'));
    if d > k {
        if char_at(s, j + d, '.') {
            lemma_digit_run_stop(s, j + d + 1);
            lemma_digit_run_window(s, j, len, d + 1);
            assert(char_at(f, d, '.'));
        } else {
            if d < len {
                assert(!char_at(f, d, '.'));
            }
        }
    } else {
        lemma_digit_run_stop(s, j + k + 1);
        lemma_digit_run_window(s, j, len, k + 1);
    }
    assert(crate::grammar::mantissa_end(f, k) == Some(m));
    if has_exp {
        assert(char_at(f, m, 'e') == char_at(s, j + m, 'e'));
        assert(char_at(f, m, 'E') == char_at(s, j + m, 'E'));
        assert(char_at(f, m + 1, '+') == char_at(s, j + m + 1, '+'));
        assert(char_at(f, m + 1, '-') == char_at(s, j + m + 1, '-'));
        lemma_digit_run_window(s, j, len, xe);
    } else {
        assert(!char_at(f, m, 'e') && !char_at(f, m, 'E'));
    }
    assert(parse_float(f, 0) == Some(len as nat));
    // the integer alternative on the window
    let neg = char_at(s, j, '-');
    let ki: int = if neg { 1 } else { 0 };
    assert(char_at(f, 0, '-') == neg);
    let es = ki + num_run(s, j + ki);
    lemma_num_run_stop(s, j + ki);
    lemma_num_run_window(s, j, len, ki);
    let ef = ki + num_run(f, ki);
    if ef < es {
        // the run goes on past the window: the window holds a dot
        lemma_num_run_chars(s, j + ki, j + len);
        assert forall|x: int| ki <= x < len implies is_num_char(#[trigger] f[x]) by {
            lemma_num_run_chars(s, j + ki, j + x);
        }
        if !has_exp {
            if d > k && char_at(s, j + d, '.') {
                assert(f[d] == '.');
            } else if d == k {
                assert(f[k] == '.');
            } else {
                assert(m == d);
                assert(!is_digit(s[j + d]));
                assert(s[j + d] == '.');
            }
        } else {
            assert(f[m] == 'e' || f[m] == 'E');
            assert(!is_num_char(f[m]));
        }
        assert(crate::grammar::has_dot(f, ki, ef));
    } else {
        assert(ef == es);
        lemma_digits_value_local(s, f, j, ki, ef);
        assert(crate::grammar::has_dot(f, ki, ef) == crate::grammar::has_dot(s, j + ki, j + es)) by {
            if crate::grammar::has_dot(f, ki, ef) {
                let w = choose|w: int| ki <= w < ef && f[w] == '.';
                assert(s[j + w] == '.');
            }
            if crate::grammar::has_dot(s, j + ki, j + es) {
                let w = choose|w: int| j + ki <= w < j + es && s[w] == '.';
                assert(f[w - j] == '.');
            }
        }
        if ef == len && es > ki && !crate::grammar::has_dot(s, j + ki, j + es) {
            // the window ends where the run does; no exponent follows
            if has_exp {
                lemma_num_run_chars(s, j + ki, j + m);
            }
            assert(m == len);
        }
    }
}

proof fn lemma_ident_run_chars(s: Seq<char>, k: int, x: int)
    requires
        0 <= k <= x < k + ident_run(s, k),
    ensures
        is_ident_char(s[x]),
    decreases x - k,
{
    if x > k {
        lemma_ident_run_chars(s, k + 1, x);
    }
}

/// What `key_index` finds: the position of a member with the key, or -1
/// where there is none.
proof fn lemma_key_index(m: Seq<(Seq<char>, Tree)>, k: Seq<char>)
    ensures
        key_index(m, k) == -1 ==> forall|x: int| 0 <= x < m.len() ==> (#[trigger] m[x]).0 != k,
        key_index(m, k) != -1 ==> 0 <= key_index(m, k) < m.len() && m[key_index(m, k)].0 == k,
    decreases m.len(),
{
    if m.len() > 0 {
        lemma_key_index(m.drop_last(), k);
        if m.last().0 != k {
            assert forall|x: int| 0 <= x < m.len() - 1 implies m[x] == m.drop_last()[x] by {}
        }
    }
}

/// The members of an object that the parser can produce: distinct
/// identifiers as keys, and values that the parser can produce.
pub open spec fn members_ok(m: Seq<(Seq<char>, Tree)>) -> bool {
    keys_distinct(m) && forall|x: int| 0 <= x < m.len() ==> is_ident(#[trigger] m[x].0) && well_formed(m[x].1)
}

proof fn lemma_insert_ok(m: Seq<(Seq<char>, Tree)>, k: Seq<char>, v: Tree)
    requires
        members_ok(m),
        is_ident(k),
        well_formed(v),
    ensures
        members_ok(insert_member(m, k, v)),
{
    lemma_key_index(m, k);
    let r = insert_member(m, k, v);
    assert forall|x: int| 0 <= x < r.len() implies is_ident(#[trigger] r[x].0) && well_formed(r[x].1) by {
        if x < m.len() && x != key_index(m, k) {
            assert(r[x] == m[x]);
        }
    }
}

proof fn lemma_value_wf(s: Seq<char>, i: int)
    ensures
        parse_value(s, i) matches Some((t, _)) ==> well_formed(t),
    decreases s.len() - i, 1nat,
{
    let j = i + ws_run(s, i);
    if i < 0 || j >= s.len() {
    } else if s[j] == '{' {
        lemma_members_wf(s, j + 1, Seq::empty());
        if let Some((m, n)) = parse_members(s, j + 1, Seq::empty()) {
            assert(well_formed(Tree::Object(m)));
        }
    } else if s[j] == '[' || s[j] == '(' {
        let kind = if s[j] == '[' { ArrayType::Array } else { ArrayType::List };
        lemma_items_wf(s, j + 1, kind);
        if let Some((a, n)) = parse_items(s, j + 1, kind) {
            assert(well_formed(Tree::Array(a, kind)));
        }
    } else if s[j] == '"' {
    } else if crate::grammar::has_word(s, j, crate::grammar::word_true()) {
    } else if crate::grammar::has_word(s, j, crate::grammar::word_false()) {
    } else if parse_int(s, j) is None && parse_float(s, j) is Some {
        lemma_float_window(s, j);
    }
}

proof fn lemma_items_wf(s: Seq<char>, i: int, kind: ArrayType)
    ensures
        parse_items(s, i, kind) matches Some((items, _)) ==> forall|x: int|
            0 <= x < items.len() ==> well_formed(#[trigger] items[x]),
    decreases s.len() - i, 3nat,
{
    if 0 <= i <= s.len() {
        lemma_items_from_wf(s, i, kind);
    }
}

proof fn lemma_items_from_wf(s: Seq<char>, i: int, kind: ArrayType)
    ensures
        parse_items_from(s, i, kind) matches Some((items, _)) ==> forall|x: int|
            0 <= x < items.len() ==> well_formed(#[trigger] items[x]),
    decreases s.len() - i, 2nat,
{
    if 0 <= i <= s.len() {
        lemma_value_wf(s, i);
        if let Some((v, n)) = parse_value(s, i) {
            let c = i + n + ws_run(s, i + n);
            if char_at(s, c, crate::grammar::close_of(kind)) {
                assert(seq![v][0] == v);
            } else if char_at(s, c, ',') {
                lemma_items_from_wf(s, c + 1, kind);
                if let Some((rest, m)) = parse_items_from(s, c + 1, kind) {
                    let items = seq![v] + rest;
                    assert forall|x: int| 0 <= x < items.len() implies well_formed(#[trigger] items[x]) by {
                        if x > 0 {
                            assert(items[x] == rest[x - 1]);
                        }
                    }
                }
            }
        }
    }
}

proof fn lemma_member_wf(s: Seq<char>, i: int)
    ensures
        parse_member(s, i) matches Some((k, v, _)) ==> is_ident(k) && well_formed(v),
    decreases s.len() - i, 2nat,
{
    let j = i + ws_run(s, i);
    if 0 <= i <= s.len() {
        if let Some(kl) = crate::grammar::parse_ident(s, j) {
            let c = j + kl + ws_run(s, j + kl);
            if char_at(s, c, ':') {
                lemma_value_wf(s, c + 1);
                let k = s.subrange(j, j + kl);
                if let Some((v, n)) = parse_value(s, c + 1) {
                    if char_at(s, c + 1 + n, ';') {
                        assert forall|x: int| 0 <= x < k.len() implies is_ident_char(#[trigger] k[x]) by {
                            if x > 0 {
                                lemma_ident_run_chars(s, j + 1, j + x);
                            }
                        }
                    }
                }
            }
        }
    }
}

proof fn lemma_members_wf(s: Seq<char>, i: int, acc: Seq<(Seq<char>, Tree)>)
    requires
        members_ok(acc),
    ensures
        parse_members(s, i, acc) matches Some((m, _)) ==> members_ok(m),
    decreases s.len() - i, 4nat,
{
    let j = i + ws_run(s, i);
    if 0 <= i <= s.len() && !char_at(s, j, '}') {
        lemma_member_wf(s, i);
        if let Some((k, v, n)) = parse_member(s, i) {
            if n > 0 && i + n <= s.len() {
                lemma_insert_ok(acc, k, v);
                lemma_members_wf(s, i + n, insert_member(acc, k, v));
            }
        }
    }
}

/// Every tree that the parser produces is well formed, so that it renders
/// to a document that parses back to it.
pub proof fn lemma_parsed_well_formed(s: Seq<char>)
    ensures
        parse_document(s) matches Some(t) ==> well_formed(t) && parse_document(render(t)) == Some(t),
{
    lemma_member_wf(s, 0);
    if let Some(t) = parse_document(s) {
        lemma_round_trip(t);
    }
}

} // verus!
