//! The grammar of the text format, as spec functions over characters.
//!
//! Each function reads `s` from position `i` and, where the construct is
//! there, returns what it denotes together with the number of characters
//! it takes up.
use vstd::prelude::*;
use crate::error::{Context, Expected, SyntaxError, byte_offset_capped};
use crate::value::{ArrayType, Tree};

verus! {

pub open spec fn is_ws(c: char) -> bool {
    c == ' ' || c == '\t' || c == '\r' || c == '\n'
}

pub open spec fn is_digit(c: char) -> bool {
    '0' <= c && c <= '9'
}

pub open spec fn is_alpha(c: char) -> bool {
    ('a' <= c && c <= 'z') || ('A' <= c && c <= 'Z')
}

pub open spec fn is_ident_start(c: char) -> bool {
    is_alpha(c) || c == '_'
}

pub open spec fn is_ident_char(c: char) -> bool {
    is_ident_start(c) || is_digit(c)
}

/// A character that the integer lexeme accepts: a digit or a dot.
pub open spec fn is_num_char(c: char) -> bool {
    is_digit(c) || c == '.'
}

/// Length of the run of whitespace at `i`.
pub open spec fn ws_run(s: Seq<char>, i: int) -> nat
    decreases s.len() - i,
{
    if 0 <= i < s.len() && is_ws(s[i]) {
        1 + ws_run(s, i + 1)
    } else {
        0
    }
}

/// Length of the run of digits at `i`.
pub open spec fn digit_run(s: Seq<char>, i: int) -> nat
    decreases s.len() - i,
{
    if 0 <= i < s.len() && is_digit(s[i]) {
        1 + digit_run(s, i + 1)
    } else {
        0
    }
}

/// Length of the run of digits and dots at `i`.
pub open spec fn num_run(s: Seq<char>, i: int) -> nat
    decreases s.len() - i,
{
    if 0 <= i < s.len() && is_num_char(s[i]) {
        1 + num_run(s, i + 1)
    } else {
        0
    }
}

/// Length of the run of identifier characters at `i`.
pub open spec fn ident_run(s: Seq<char>, i: int) -> nat
    decreases s.len() - i,
{
    if 0 <= i < s.len() && is_ident_char(s[i]) {
        1 + ident_run(s, i + 1)
    } else {
        0
    }
}

/// `s` holds `c` at `i`.
pub open spec fn char_at(s: Seq<char>, i: int, c: char) -> bool {
    0 <= i < s.len() && s[i] == c
}

/// Length of the identifier at `i`: a letter or underscore, then letters,
/// digits and underscores.
pub open spec fn parse_ident(s: Seq<char>, i: int) -> Option<nat> {
    if 0 <= i < s.len() && is_ident_start(s[i]) {
        Some(1 + ident_run(s, i + 1))
    } else {
        None
    }
}

/// The character that an escape `\c` stands for.
pub open spec fn unescape(c: char) -> Option<char> {
    if c == '"' {
        Some('"')
    } else if c == '\\' {
        Some('\\')
    } else if c == '/' {
        Some('/')
    } else if c == 'n' {
        Some('\n')
    } else if c == 'r' {
        Some('\r')
    } else if c == 't' {
        Some('\t')
    } else if c == 'b' {
        Some('\u{8}')
    } else if c == 'f' {
        Some('\u{c}')
    } else {
        None
    }
}

/// The rest of a string literal from `i` (after its opening quote, and
/// after the characters already decoded into `acc`), up to and including
/// its closing quote.
pub open spec fn parse_string_body(s: Seq<char>, i: int, acc: Seq<char>) -> Option<(Seq<char>, nat)>
    decreases s.len() - i,
{
    if i < 0 || i >= s.len() {
        None
    } else if s[i] == '"' {
        Some((acc, 1))
    } else if s[i] == '\\' {
        if i + 1 < s.len() && unescape(s[i + 1]) is Some {
            match parse_string_body(s, i + 2, acc.push(unescape(s[i + 1])->Some_0)) {
                Some((t, n)) => Some((t, n + 2)),
                None => None,
            }
        } else {
            None
        }
    } else {
        match parse_string_body(s, i + 1, acc.push(s[i])) {
            Some((t, n)) => Some((t, n + 1)),
            None => None,
        }
    }
}

/// A string literal at `i`, opening quote included.
pub open spec fn parse_string(s: Seq<char>, i: int) -> Option<(Seq<char>, nat)> {
    if char_at(s, i, '"') {
        match parse_string_body(s, i + 1, Seq::empty()) {
            Some((t, n)) => Some((t, n + 1)),
            None => None,
        }
    } else {
        None
    }
}

/// `s` holds the characters of `w` from `i` on.
pub open spec fn has_word(s: Seq<char>, i: int, w: Seq<char>) -> bool {
    0 <= i && i + w.len() <= s.len() && s.subrange(i, i + w.len()) == w
}

pub open spec fn word_true() -> Seq<char> {
    seq!['t', 'r', 'u', 'e']
}

pub open spec fn word_false() -> Seq<char> {
    seq!['f', 'a', 'l', 's', 'e']
}

/// The decimal number that the characters of `s` in `[i, j)` spell.
pub open spec fn digits_value(s: Seq<char>, i: int, j: int) -> int
    decreases j - i,
{
    if j <= i {
        0
    } else {
        digits_value(s, i, j - 1) * 10 + (s[j - 1] as int - '0' as int)
    }
}

/// Some character of `s` in `[i, j)` is a dot.
pub open spec fn has_dot(s: Seq<char>, i: int, j: int) -> bool {
    exists|k: int| i <= k < j && s[k] == '.'
}

/// The integer alternative at `i`: an optional `-`, a run of digits and
/// dots, and an optional `L`. It fails where the run holds a dot, where an
/// exponent marker follows it, or where the number does not fit in `i64`.
pub open spec fn parse_int(s: Seq<char>, i: int) -> Option<(i64, nat)> {
    let neg = char_at(s, i, '-');
    let k = if neg { i + 1 } else { i };
    let e = k + num_run(s, k);
    let mag = digits_value(s, k, e);
    let n = if neg { -mag } else { mag };
    if e == k || has_dot(s, k, e) || char_at(s, e, 'e') || char_at(s, e, 'E') {
        None
    } else if n < i64::MIN || n > i64::MAX {
        None
    } else if char_at(s, e, 'L') {
        Some((n as i64, (e + 1 - i) as nat))
    } else {
        Some((n as i64, (e - i) as nat))
    }
}

/// Where the mantissa of a float that starts at `k` ends: digits with an
/// optional fraction, or a dot and digits.
pub open spec fn mantissa_end(s: Seq<char>, k: int) -> Option<int> {
    let d = k + digit_run(s, k);
    if d > k {
        if char_at(s, d, '.') {
            Some(d + 1 + digit_run(s, d + 1))
        } else {
            Some(d)
        }
    } else if char_at(s, k, '.') && digit_run(s, k + 1) > 0 {
        Some(k + 1 + digit_run(s, k + 1))
    } else {
        None
    }
}

/// Length of the float literal at `i`: an optional sign, a mantissa, and
/// an optional exponent `e` or `E` with an optional sign and digits.
pub open spec fn parse_float(s: Seq<char>, i: int) -> Option<nat> {
    let k = if char_at(s, i, '+') || char_at(s, i, '-') { i + 1 } else { i };
    match mantissa_end(s, k) {
        None => None,
        Some(m) => if char_at(s, m, 'e') || char_at(s, m, 'E') {
            let x = if char_at(s, m + 1, '+') || char_at(s, m + 1, '-') { m + 2 } else { m + 1 };
            if digit_run(s, x) > 0 {
                Some((x + digit_run(s, x) - i) as nat)
            } else {
                None
            }
        } else {
            Some((m - i) as nat)
        },
    }
}

/// A number at `i`: an integer where the integer alternative succeeds,
/// else a float.
pub open spec fn parse_number(s: Seq<char>, i: int) -> Option<(Tree, nat)> {
    match parse_int(s, i) {
        Some((n, len)) => Some((Tree::Int(n), len)),
        None => match parse_float(s, i) {
            Some(len) => Some((Tree::Float(s.subrange(i, i + len)), len)),
            None => None,
        },
    }
}

/// A value at `i`, leading whitespace included: an object, an array, a
/// list, a string, a boolean or a number.
pub open spec fn parse_value(s: Seq<char>, i: int) -> Option<(Tree, nat)>
    decreases s.len() - i, 1nat,
{
    let j = i + ws_run(s, i);
    if i < 0 || j >= s.len() {
        None
    } else if s[j] == '{' {
        match parse_members(s, j + 1, Seq::empty()) {
            Some((m, n)) => Some((Tree::Object(m), (j + 1 + n - i) as nat)),
            None => None,
        }
    } else if s[j] == '[' || s[j] == '(' {
        let kind = if s[j] == '[' { ArrayType::Array } else { ArrayType::List };
        match parse_items(s, j + 1, kind) {
            Some((a, n)) => Some((Tree::Array(a, kind), (j + 1 + n - i) as nat)),
            None => None,
        }
    } else if s[j] == '"' {
        match parse_string(s, j) {
            Some((t, n)) => Some((Tree::Str(t), (j + n - i) as nat)),
            None => None,
        }
    } else if has_word(s, j, word_true()) {
        Some((Tree::Bool(true), (j + 4 - i) as nat))
    } else if has_word(s, j, word_false()) {
        Some((Tree::Bool(false), (j + 5 - i) as nat))
    } else {
        match parse_number(s, j) {
            Some((t, n)) => Some((t, (j + n - i) as nat)),
            None => None,
        }
    }
}

/// The closing character of a kind of array.
pub open spec fn close_of(kind: ArrayType) -> char {
    if kind == ArrayType::Array { ']' } else { ')' }
}

/// The items of an array after its opening bracket at `i - 1`, closing
/// bracket included: either the closing bracket alone, or values separated
/// by commas and then the closing bracket, whitespace allowed around each.
pub open spec fn parse_items(s: Seq<char>, i: int, kind: ArrayType) -> Option<(Seq<Tree>, nat)>
    decreases s.len() - i, 3nat,
{
    let j = i + ws_run(s, i);
    if i < 0 || i > s.len() {
        None
    } else if char_at(s, j, close_of(kind)) {
        Some((Seq::empty(), (j + 1 - i) as nat))
    } else {
        parse_items_from(s, i, kind)
    }
}

/// One value or more, separated by commas, then the closing bracket.
pub open spec fn parse_items_from(s: Seq<char>, i: int, kind: ArrayType) -> Option<(Seq<Tree>, nat)>
    decreases s.len() - i, 2nat,
{
    if i < 0 || i > s.len() {
        None
    } else {
        match parse_value(s, i) {
            None => None,
            Some((v, n)) => {
                let c = i + n + ws_run(s, i + n);
                if char_at(s, c, close_of(kind)) {
                    Some((seq![v], (c + 1 - i) as nat))
                } else if char_at(s, c, ',') {
                    match parse_items_from(s, c + 1, kind) {
                        Some((rest, m)) => Some((seq![v] + rest, (c + 1 + m - i) as nat)),
                        None => None,
                    }
                } else {
                    None
                }
            },
        }
    }
}

/// A member at `i`, leading whitespace included: an identifier, a colon,
/// a value and a semicolon.
pub open spec fn parse_member(s: Seq<char>, i: int) -> Option<(Seq<char>, Tree, nat)>
    decreases s.len() - i, 2nat,
{
    let j = i + ws_run(s, i);
    if i < 0 || i > s.len() {
        None
    } else {
        match parse_ident(s, j) {
            None => None,
            Some(kl) => {
                let c = j + kl + ws_run(s, j + kl);
                if !char_at(s, c, ':') {
                    None
                } else {
                    match parse_value(s, c + 1) {
                        None => None,
                        Some((v, n)) => if char_at(s, c + 1 + n, ';') {
                            Some((s.subrange(j, j + kl), v, (c + 2 + n - i) as nat))
                        } else {
                            None
                        },
                    }
                }
            },
        }
    }
}

/// The members of an object after its opening brace at `i - 1`, closing
/// brace included, added in order to `acc`.
pub open spec fn parse_members(s: Seq<char>, i: int, acc: Seq<(Seq<char>, Tree)>) -> Option<(Seq<(Seq<char>, Tree)>, nat)>
    decreases s.len() - i, 3nat,
{
    let j = i + ws_run(s, i);
    if i < 0 || i > s.len() {
        None
    } else if char_at(s, j, '}') {
        Some((acc, (j + 1 - i) as nat))
    } else {
        match parse_member(s, i) {
            None => None,
            Some((k, v, n)) => if n == 0 || i + n > s.len() {
                None
            } else {
                match parse_members(s, i + n, crate::value::insert_member(acc, k, v)) {
                    Some((m, l)) => Some((m, n + l)),
                    None => None,
                }
            },
        }
    }
}

/// A whole document: one member, whitespace around it, nothing else. What
/// it denotes is the member's value; its key is dropped.
pub open spec fn parse_document(s: Seq<char>) -> Option<Tree> {
    match parse_member(s, 0) {
        Some((k, v, n)) => if n + ws_run(s, n as int) == s.len() {
            Some(v)
        } else {
            None
        },
        None => None,
    }
}

/// Where the value at `i` fails, what is reported: for an object, an array,
/// a list or a string, the construct that its first character opens, as
/// the outermost context; otherwise the value's first character, where no
/// value starts.
pub open spec fn value_failure(s: Seq<char>, i: int, pos: int, expected: Expected, ctx: Seq<Context>) -> bool {
    let j = i + ws_run(s, i);
    &&& i <= pos <= s.len()
    &&& if j >= s.len() {
        pos == j && expected == Expected::Value && ctx.len() == 0
    } else if s[j] == '{' {
        ctx.len() > 0 && ctx.last() == Context::Object
    } else if s[j] == '[' {
        ctx.len() > 0 && ctx.last() == Context::Array
    } else if s[j] == '(' {
        ctx.len() > 0 && ctx.last() == Context::List
    } else if s[j] == '"' {
        ctx.len() > 0 && ctx.last() == Context::String
    } else {
        pos == j && expected == Expected::Value && ctx.len() == 0
    }
}

/// Where the member at `i` fails, what is reported: a missing identifier,
/// colon or semicolon where it is missing, or the failure of the value.
pub open spec fn member_failure(s: Seq<char>, i: int, pos: int, expected: Expected, ctx: Seq<Context>) -> bool {
    let j = i + ws_run(s, i);
    &&& i <= pos <= s.len()
    &&& match parse_ident(s, j) {
        None => pos == j && expected == Expected::Ident && ctx == seq![Context::Ident],
        Some(kl) => {
            let c = j + kl + ws_run(s, j + kl);
            if !char_at(s, c, ':') {
                pos == c && expected == Expected::Char(':') && ctx.len() == 0
            } else {
                match parse_value(s, c + 1) {
                    None => value_failure(s, c + 1, pos, expected, ctx),
                    Some((_, n)) => pos == c + 1 + n && expected == Expected::Char(';') && ctx.len() == 0,
                }
            }
        },
    }
}

/// What a document that fails reports: the failure of its member, or, after
/// a whole member, the first character that is not whitespace.
pub open spec fn document_failure(s: Seq<char>, pos: int, expected: Expected, ctx: Seq<Context>) -> bool {
    match parse_member(s, 0) {
        None => member_failure(s, 0, pos, expected, ctx),
        Some((_, _, n)) => pos == n + ws_run(s, n as int) && expected == Expected::End && ctx.len() == 0,
    }
}

/// `e` is what parsing the document `s` reports: its failure, at a
/// character position and at that position's byte offset.
pub open spec fn reports(s: Seq<char>, e: SyntaxError) -> bool {
    &&& parse_document(s) is None
    &&& document_failure(s, e.position as int, e.expected, e.context@)
    &&& e.offset == byte_offset_capped(s, e.position as int)
}

} // verus!
