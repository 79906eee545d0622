//! The parser: text to `Value`, proved to follow the grammar.
use vstd::prelude::*;
use crate::error::{Context, Expected, SyntaxError};
use crate::grammar;
use crate::text::push_char;
use crate::value::{ArrayType, Value, insert_member_exec, lemma_view_parts};

verus! {

fn is_ws(c: char) -> (r: bool)
    ensures
        r == grammar::is_ws(c),
{
    c == ' ' || c == '\t' || c == '\r' || c == '\n'
}

fn is_digit(c: char) -> (r: bool)
    ensures
        r == grammar::is_digit(c),
{
    '0' <= c && c <= '9'
}

fn is_ident_start(c: char) -> (r: bool)
    ensures
        r == grammar::is_ident_start(c),
{
    ('a' <= c && c <= 'z') || ('A' <= c && c <= 'Z') || c == '_'
}

fn at(s: &Vec<char>, i: usize, c: char) -> (r: bool)
    ensures
        r == grammar::char_at(s@, i as int, c),
{
    i < s.len() && s[i] == c
}

/// Skips whitespace from `i`.
fn skip_ws(s: &Vec<char>, i: usize) -> (j: usize)
    requires
        i <= s.len(),
    ensures
        j == i + grammar::ws_run(s@, i as int),
        j <= s.len(),
{
    let mut j = i;
    while j < s.len() && is_ws(s[j])
        invariant
            i <= j <= s.len(),
            i + grammar::ws_run(s@, i as int) == j + grammar::ws_run(s@, j as int),
        decreases s.len() - j,
    {
        j = j + 1;
    }
    j
}

/// Skips digits from `i`.
fn skip_digits(s: &Vec<char>, i: usize) -> (j: usize)
    requires
        i <= s.len(),
    ensures
        j == i + grammar::digit_run(s@, i as int),
        j <= s.len(),
{
    let mut j = i;
    while j < s.len() && is_digit(s[j])
        invariant
            i <= j <= s.len(),
            i + grammar::digit_run(s@, i as int) == j + grammar::digit_run(s@, j as int),
        decreases s.len() - j,
    {
        j = j + 1;
    }
    j
}

/// Skips digits and dots from `i`.
fn skip_num(s: &Vec<char>, i: usize) -> (j: usize)
    requires
        i <= s.len(),
    ensures
        j == i + grammar::num_run(s@, i as int),
        j <= s.len(),
{
    let mut j = i;
    while j < s.len() && (is_digit(s[j]) || s[j] == '.')
        invariant
            i <= j <= s.len(),
            i + grammar::num_run(s@, i as int) == j + grammar::num_run(s@, j as int),
        decreases s.len() - j,
    {
        j = j + 1;
    }
    j
}

/// Skips identifier characters from `i`.
fn skip_ident_chars(s: &Vec<char>, i: usize) -> (j: usize)
    requires
        i <= s.len(),
    ensures
        j == i + grammar::ident_run(s@, i as int),
        j <= s.len(),
{
    let mut j = i;
    while j < s.len() && (is_ident_start(s[j]) || is_digit(s[j]))
        invariant
            i <= j <= s.len(),
            i + grammar::ident_run(s@, i as int) == j + grammar::ident_run(s@, j as int),
        decreases s.len() - j,
    {
        j = j + 1;
    }
    j
}

fn unescape(c: char) -> (r: Option<char>)
    ensures
        r == grammar::unescape(c),
{
    if c == '"' {
        Some('"')
    } else if c == '\\' {
        Some('\\')
    } else if c == '/' {
        Some('/')
    } else if c == 'n' {
        Some('\n')
    } else if c == 'r' {
        Some('\r')
    } else if c == 't' {
        Some('\t')
    } else if c == 'b' {
        Some('\u{8}')
    } else if c == 'f' {
        Some('\u{c}')
    } else {
        None
    }
}

/// Reads the string literal at `i`.
fn parse_string(s: &Vec<char>, i: usize) -> (r: Result<(String, usize), SyntaxError>)
    requires
        i <= s.len(),
    ensures
        match r {
            Ok((t, e)) => grammar::parse_string(s@, i as int) == Some((t@, (e - i) as nat))
                && i < e <= s.len(),
            Err(err) => grammar::parse_string(s@, i as int) is None && i <= err.position <= s.len()
                && err.context@.len() > 0 && err.context@.last() == Context::String,
        },
{
    if !at(s, i, '"') {
        return Err(SyntaxError::new(i, Expected::Char('"')).within(Context::String));
    }
    let mut out = String::new();
    let mut p = i + 1;
    loop
        invariant
            i + 1 <= p <= s.len(),
            grammar::char_at(s@, i as int, '"'),
            grammar::parse_string_body(s@, i + 1, Seq::empty()) == (match grammar::parse_string_body(s@, p as int, out@) {
                Some((t, n)) => Some((t, (n + (p - i - 1)) as nat)),
                None => None,
            }),
        decreases s.len() - p,
    {
        if p >= s.len() {
            return Err(SyntaxError::new(p, Expected::Quote).within(Context::String));
        }
        let c = s[p];
        if c == '"' {
            assert(grammar::parse_string_body(s@, p as int, out@) == Some((out@, 1nat)));
            return Ok((out, p + 1));
        } else if c == '\\' {
            if p + 1 < s.len() {
                match unescape(s[p + 1]) {
                    Some(d) => {
                        push_char(&mut out, d);
                        p = p + 2;
                    },
                    None => {
                        return Err(SyntaxError::new(p + 1, Expected::Escape).within(Context::String));
                    },
                }
            } else {
                return Err(SyntaxError::new(p + 1, Expected::Escape).within(Context::String));
            }
        } else {
            push_char(&mut out, c);
            p = p + 1;
        }
    }
}

/// A run of digits spells a number that is not negative.
proof fn lemma_digits_value_nonneg(s: Seq<char>, k: int, q: int)
    requires
        k <= q <= s.len(),
        forall|x: int| k <= x < q ==> grammar::is_digit(#[trigger] s[x]),
    ensures
        grammar::digits_value(s, k, q) >= 0,
    decreases q - k,
{
    if q > k {
        lemma_digits_value_nonneg(s, k, q - 1);
    }
}

/// A longer run of digits spells a number at least as large.
proof fn lemma_digits_value_grows(s: Seq<char>, k: int, q: int, e: int)
    requires
        k <= q <= e <= s.len(),
        forall|x: int| k <= x < e ==> grammar::is_digit(#[trigger] s[x]),
    ensures
        grammar::digits_value(s, k, q) <= grammar::digits_value(s, k, e),
    decreases e - q,
{
    if q < e {
        lemma_digits_value_grows(s, k, q, e - 1);
        lemma_digits_value_nonneg(s, k, e - 1);
    }
}

/// Every character of a run of digits and dots is one.
proof fn lemma_num_run_chars(s: Seq<char>, k: int, x: int)
    requires
        0 <= k <= x < k + grammar::num_run(s, k),
    ensures
        grammar::is_num_char(s[x]),
    decreases x - k,
{
    if x > k {
        lemma_num_run_chars(s, k + 1, x);
    }
}

/// The run of digits and dots in `[k, e)` holds no dot.
fn find_dot(s: &Vec<char>, k: usize, e: usize) -> (r: bool)
    requires
        k <= e <= s.len(),
    ensures
        r == grammar::has_dot(s@, k as int, e as int),
{
    let mut q = k;
    while q < e
        invariant
            k <= q <= e <= s.len(),
            forall|x: int| k <= x < q ==> s@[x] != '.',
        decreases e - q,
    {
        if s[q] == '.' {
            return true;
        }
        q = q + 1;
    }
    false
}

/// Reads the integer alternative at `i`.
pub(crate) fn parse_int(s: &Vec<char>, i: usize) -> (r: Option<(i64, usize)>)
    requires
        i <= s.len(),
    ensures
        match r {
            Some((n, e)) => grammar::parse_int(s@, i as int) == Some((n, (e - i) as nat)) && i < e <= s.len(),
            None => grammar::parse_int(s@, i as int) is None,
        },
{
    let neg = at(s, i, '-');
    let k = if neg { i + 1 } else { i };
    let e = skip_num(s, k);
    if e == k || find_dot(s, k, e) || at(s, e, 'e') || at(s, e, 'E') {
        return None;
    }
    proof {
        assert forall|x: int| k <= x < e implies grammar::is_digit(#[trigger] s@[x]) by {
            lemma_num_run_chars(s@, k as int, x);
            assert(!grammar::has_dot(s@, k as int, e as int));
            assert(s@[x] != '.');
        }
    }
    let limit: u64 = 9223372036854775808;
    let mut mag: u64 = 0;
    let mut q = k;
    while q < e
        invariant
            k <= q <= e <= s.len(),
            forall|x: int| k <= x < e ==> grammar::is_digit(#[trigger] s@[x]),
            mag == grammar::digits_value(s@, k as int, q as int),
            mag <= limit,
            limit == 9223372036854775808u64,
            neg == grammar::char_at(s@, i as int, '-'),
            k == if neg { i + 1 } else { i as int },
            e == k + grammar::num_run(s@, k as int),
            !(e == k || grammar::has_dot(s@, k as int, e as int) || grammar::char_at(s@, e as int, 'e') || grammar::char_at(s@, e as int, 'E')),
        decreases e - q,
    {
        let d = (s[q] as u32 - '0' as u32) as u64;
        assert(grammar::digits_value(s@, k as int, q + 1) == mag * 10 + d);
        if mag > 922337203685477580 || (mag == 922337203685477580 && d > 8) {
            proof {
                lemma_digits_value_grows(s@, k as int, (q + 1) as int, e as int);
            }
            return None;
        }
        assert(mag * 10 + d <= limit) by (nonlinear_arith)
            requires
                mag <= 922337203685477580,
                mag == 922337203685477580 ==> d <= 8,
                d <= 9,
                limit == 9223372036854775808u64,
        ;
        mag = mag * 10 + d;
        q = q + 1;
    }
    let n: i64 = if neg {
        if mag == limit {
            i64::MIN
        } else {
            -(mag as i64)
        }
    } else {
        if mag > 9223372036854775807 {
            return None;
        }
        mag as i64
    };
    if at(s, e, 'L') {
        Some((n, e + 1))
    } else {
        Some((n, e))
    }
}

/// Reads the float alternative at `i`; returns where it ends.
pub(crate) fn parse_float(s: &Vec<char>, i: usize) -> (r: Option<usize>)
    requires
        i <= s.len(),
    ensures
        match r {
            Some(e) => grammar::parse_float(s@, i as int) == Some((e - i) as nat) && i < e <= s.len(),
            None => grammar::parse_float(s@, i as int) is None,
        },
{
    let k = if at(s, i, '+') || at(s, i, '-') { i + 1 } else { i };
    let d = skip_digits(s, k);
    let m = if d > k {
        if at(s, d, '.') {
            skip_digits(s, d + 1)
        } else {
            d
        }
    } else if at(s, k, '.') && skip_digits(s, k + 1) > k + 1 {
        skip_digits(s, k + 1)
    } else {
        return None;
    };
    assert(grammar::mantissa_end(s@, k as int) == Some(m as int));
    if at(s, m, 'e') || at(s, m, 'E') {
        let x = if at(s, m + 1, '+') || at(s, m + 1, '-') { m + 2 } else { m + 1 };
        let y = skip_digits(s, x);
        if y > x {
            Some(y)
        } else {
            None
        }
    } else {
        Some(m)
    }
}

/// A `String` holding the characters of `s` in `[a, b)`.
fn substring(s: &Vec<char>, a: usize, b: usize) -> (r: String)
    requires
        a <= b <= s.len(),
    ensures
        r@ == s@.subrange(a as int, b as int),
{
    let mut out = String::new();
    let mut q = a;
    while q < b
        invariant
            a <= q <= b <= s.len(),
            out@ == s@.subrange(a as int, q as int),
        decreases b - q,
    {
        push_char(&mut out, s[q]);
        q = q + 1;
        assert(out@ =~= s@.subrange(a as int, q as int));
    }
    out
}

fn has_word(s: &Vec<char>, i: usize, w: &str) -> (r: bool)
    requires
        i <= s.len(),
    ensures
        r == grammar::has_word(s@, i as int, w@),
{
    let wl = w.unicode_len();
    if wl > s.len() - i {
        return false;
    }
    let mut q: usize = 0;
    while q < wl
        invariant
            wl == w@.len(),
            i + wl <= s.len(),
            q <= wl,
            forall|x: int| 0 <= x < q ==> s@[i + x] == w@[x],
        decreases wl - q,
    {
        if s[i + q] != w.get_char(q) {
            assert(s@.subrange(i as int, i + wl)[q as int] != w@[q as int]);
            return false;
        }
        q = q + 1;
    }
    assert(s@.subrange(i as int, i + wl) =~= w@);
    true
}

/// Reads the value at `i`, leading whitespace included.
fn parse_value(s: &Vec<char>, i: usize) -> (r: Result<(Value, usize), SyntaxError>)
    requires
        i <= s.len(),
    ensures
        match r {
            Ok((v, e)) => grammar::parse_value(s@, i as int) == Some((v@, (e - i) as nat)) && i < e <= s.len(),
            Err(err) => grammar::parse_value(s@, i as int) is None
                && grammar::value_failure(s@, i as int, err.position as int, err.expected, err.context@),
        },
    decreases s.len() - i, 1nat,
{
    let j = skip_ws(s, i);
    if j >= s.len() {
        return Err(SyntaxError::new(j, Expected::Value));
    }
    let c = s[j];
    if c == '{' {
        match parse_members(s, j + 1) {
            Ok((m, e)) => {
                let v = Value::Object(m);
                proof { lemma_view_parts(v); }
                Ok((v, e))
            },
            Err(err) => Err(err.within(Context::Object)),
        }
    } else if c == '[' || c == '(' {
        let kind = if c == '[' { ArrayType::Array } else { ArrayType::List };
        let ctx = if c == '[' { Context::Array } else { Context::List };
        match parse_items(s, j + 1, kind) {
            Ok((a, e)) => {
                let v = Value::Array(a, kind);
                proof { lemma_view_parts(v); }
                Ok((v, e))
            },
            Err(err) => Err(err.within(ctx)),
        }
    } else if c == '"' {
        match parse_string(s, j) {
            Ok((t, e)) => Ok((Value::String(t), e)),
            Err(err) => Err(err),
        }
    } else if has_word(s, j, "true") {
        proof { reveal_strlit("true"); assert("true"@ =~= grammar::word_true()); }
        Ok((Value::Bool(true), j + 4))
    } else if has_word(s, j, "false") {
        proof {
            reveal_strlit("true");
            reveal_strlit("false");
            assert("true"@ =~= grammar::word_true());
            assert("false"@ =~= grammar::word_false());
        }
        Ok((Value::Bool(false), j + 5))
    } else {
        proof {
            reveal_strlit("true");
            reveal_strlit("false");
            assert("true"@ =~= grammar::word_true());
            assert("false"@ =~= grammar::word_false());
        }
        match parse_int(s, j) {
            Some((n, e)) => Ok((Value::Int(n), e)),
            None => match parse_float(s, j) {
                Some(e) => Ok((Value::Float(substring(s, j, e)), e)),
                None => Err(SyntaxError::new(j, Expected::Value)),
            },
        }
    }
}

/// Reads the items of an array whose opening bracket is at `i - 1`, up to
/// and including its closing bracket.
fn parse_items(s: &Vec<char>, i: usize, kind: ArrayType) -> (r: Result<(Vec<Value>, usize), SyntaxError>)
    requires
        i <= s.len(),
    ensures
        match r {
            Ok((a, e)) => grammar::parse_items(s@, i as int, kind) == Some((crate::value::views(a@), (e - i) as nat))
                && i < e <= s.len(),
            Err(err) => grammar::parse_items(s@, i as int, kind) is None && i <= err.position <= s.len(),
        },
    decreases s.len() - i, 3nat,
{
    let close = if kind == ArrayType::Array { ']' } else { ')' };
    let j = skip_ws(s, i);
    if at(s, j, close) {
        let none: Vec<Value> = Vec::new();
        assert(crate::value::views(none@) =~= Seq::<crate::value::Tree>::empty());
        return Ok((none, j + 1));
    }
    let mut items: Vec<Value> = Vec::new();
    let mut p = i;
    assert(crate::value::views(items@) =~= Seq::<crate::value::Tree>::empty());
    loop
        invariant
            i <= p <= s.len(),
            close == grammar::close_of(kind),
            grammar::parse_items(s@, i as int, kind) == (match grammar::parse_items_from(s@, p as int, kind) {
                Some((rest, m)) => Some((crate::value::views(items@) + rest, (m + (p - i)) as nat)),
                None => None,
            }),
        decreases s.len() - p,
    {
        let (v, e) = match parse_value(s, p) {
            Ok(x) => x,
            Err(err) => { return Err(err); },
        };
        let c = skip_ws(s, e);
        let ghost old_items = items@;
        if at(s, c, close) {
            items.push(v);
            assert(crate::value::views(items@) =~= crate::value::views(old_items) + seq![v@]);
            return Ok((items, c + 1));
        } else if at(s, c, ',') {
            items.push(v);
            assert(crate::value::views(items@) =~= crate::value::views(old_items) + seq![v@]);
            proof {
                let later = grammar::parse_items_from(s@, c + 1, kind);
                if let Some((rest, m)) = later {
                    assert(crate::value::views(old_items) + (seq![v@] + rest) =~= crate::value::views(items@) + rest);
                }
            }
            p = c + 1;
        } else {
            return Err(SyntaxError::new(c, Expected::Char(close)));
        }
    }
}

/// Reads the member at `i`, leading whitespace included.
fn parse_member(s: &Vec<char>, i: usize) -> (r: Result<(String, Value, usize), SyntaxError>)
    requires
        i <= s.len(),
    ensures
        match r {
            Ok((k, v, e)) => grammar::parse_member(s@, i as int) == Some((k@, v@, (e - i) as nat)) && i < e <= s.len(),
            Err(err) => grammar::parse_member(s@, i as int) is None
                && grammar::member_failure(s@, i as int, err.position as int, err.expected, err.context@),
        },
    decreases s.len() - i, 2nat,
{
    let j = skip_ws(s, i);
    if !(j < s.len() && is_ident_start(s[j])) {
        let e = SyntaxError::new(j, Expected::Ident).within(Context::Ident);
        assert(e.context@ =~= seq![Context::Ident]);
        return Err(e);
    }
    let ke = skip_ident_chars(s, j + 1);
    let c = skip_ws(s, ke);
    if !at(s, c, ':') {
        return Err(SyntaxError::new(c, Expected::Char(':')));
    }
    match parse_value(s, c + 1) {
        Ok((v, e)) => {
            if at(s, e, ';') {
                Ok((substring(s, j, ke), v, e + 1))
            } else {
                Err(SyntaxError::new(e, Expected::Char(';')))
            }
        },
        Err(err) => Err(err),
    }
}

/// Reads the members of an object whose opening brace is at `i - 1`, up to
/// and including its closing brace.
fn parse_members(s: &Vec<char>, i: usize) -> (r: Result<(Vec<(String, Value)>, usize), SyntaxError>)
    requires
        i <= s.len(),
    ensures
        match r {
            Ok((m, e)) => grammar::parse_members(s@, i as int, Seq::empty()) == Some((crate::value::member_views(m@), (e - i) as nat))
                && i < e <= s.len(),
            Err(err) => grammar::parse_members(s@, i as int, Seq::empty()) is None && i <= err.position <= s.len(),
        },
    decreases s.len() - i, 4nat,
{
    let mut acc: Vec<(String, Value)> = Vec::new();
    let mut p = i;
    assert(crate::value::member_views(acc@) =~= Seq::empty());
    loop
        invariant
            i <= p <= s.len(),
            grammar::parse_members(s@, i as int, Seq::empty()) == (match grammar::parse_members(s@, p as int, crate::value::member_views(acc@)) {
                Some((m, n)) => Some((m, (n + (p - i)) as nat)),
                None => None,
            }),
        decreases s.len() - p,
    {
        let j = skip_ws(s, p);
        if at(s, j, '}') {
            return Ok((acc, j + 1));
        }
        match parse_member(s, p) {
            Ok((k, v, e)) => {
                insert_member_exec(&mut acc, k, v);
                p = e;
            },
            Err(err) => {
                return Err(err);
            },
        }
    }
}

/// Reads a whole document: one member with whitespace around it. Returns
/// the member's value.
pub fn root(input: &str) -> (r: Result<Value, SyntaxError>)
    ensures
        match r {
            Ok(v) => grammar::parse_document(input@) == Some(v@),
            Err(err) => grammar::reports(input@, err),
        },
{
    let s = crate::text::chars_of(input);
    match parse_member(&s, 0) {
        Ok((_k, v, e)) => {
            let end = skip_ws(&s, e);
            if end == s.len() {
                Ok(v)
            } else {
                Err(SyntaxError::new(end, Expected::End).located(&s))
            }
        },
        Err(err) => Err(err.located(&s)),
    }
}

} // verus!
