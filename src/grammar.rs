//! The grammar of the format, as spec functions over the characters of a
//! document. Each function reads from a position and gives what was read and
//! the position just after it, or the error.
use crate::value::{Failure, Tree};
use vstd::prelude::*;

verus! {


pub open spec fn is_ws(c: char) -> bool {
    c == ' ' || c == '\t' || c == '\n' || c == '\r'
}

/// The length of the run of whitespace that starts at `p`.
pub open spec fn ws_len(s: Seq<char>, p: int) -> nat
    decreases s.len() - p,
{
    if 0 <= p < s.len() && is_ws(s[p]) {
        1 + ws_len(s, p + 1)
    } else {
        0
    }
}

/// The first position at or after `p` that does not hold whitespace.
pub open spec fn skip_ws(s: Seq<char>, p: int) -> int {
    p + ws_len(s, p)
}

pub open spec fn is_digit(c: char) -> bool {
    '0' <= c <= '9'
}

/// Characters of a bareword: ASCII letters, digits, `_`, `-`, `.` and `$`.
pub open spec fn is_ident_char(c: char) -> bool {
    ('a' <= c <= 'z') || ('A' <= c <= 'Z') || is_digit(c) || c == '_' || c == '-' || c == '.'
        || c == '$'
}

/// Characters that may start a number.
pub open spec fn is_number_start(c: char) -> bool {
    is_digit(c) || c == '+' || c == '-' || c == '.'
}

/// Characters that a numeric literal is read over.
pub open spec fn is_number_char(c: char) -> bool {
    is_number_start(c) || c == 'e' || c == 'E'
}

/// The end of the run of bareword characters that starts at `p`.
pub open spec fn ident_end(s: Seq<char>, p: int) -> int
    decreases s.len() - p,
{
    if 0 <= p < s.len() && is_ident_char(s[p]) {
        ident_end(s, p + 1)
    } else {
        p
    }
}

/// The end of the run of number characters that starts at `p`.
pub open spec fn number_end(s: Seq<char>, p: int) -> int
    decreases s.len() - p,
{
    if 0 <= p < s.len() && is_number_char(s[p]) {
        number_end(s, p + 1)
    } else {
        p
    }
}

/// The end of the run of `#` that starts at `p`.
pub open spec fn fence_end(s: Seq<char>, p: int) -> int
    decreases s.len() - p,
{
    if 0 <= p < s.len() && s[p] == '#' {
        fence_end(s, p + 1)
    } else {
        p
    }
}

/// The end of the run of digits that starts at `p`.
pub open spec fn digits_end(t: Seq<char>, p: int) -> int
    decreases t.len() - p,
{
    if 0 <= p < t.len() && is_digit(t[p]) {
        digits_end(t, p + 1)
    } else {
        p
    }
}

pub open spec fn is_sign(c: char) -> bool {
    c == '+' || c == '-'
}

/// Past an optional sign at `p`.
pub open spec fn after_sign(t: Seq<char>, p: int) -> int {
    if 0 <= p < t.len() && is_sign(t[p]) {
        p + 1
    } else {
        p
    }
}

/// A decimal float literal: an optional sign, digits with an optional
/// fraction (at least one digit in all), then an optional exponent with at
/// least one digit.
pub open spec fn valid_number(t: Seq<char>) -> bool {
    let a = after_sign(t, 0);
    let b = digits_end(t, a);
    let c = if b < t.len() && t[b] == '.' {
        digits_end(t, b + 1)
    } else {
        b
    };
    let mantissa_digits = if b < t.len() && t[b] == '.' {
        (b - a) + (c - b - 1)
    } else {
        b - a
    };
    mantissa_digits > 0 && (c == t.len() || ((t[c] == 'e' || t[c] == 'E') && {
        let d = after_sign(t, c + 1);
        let e = digits_end(t, d);
        e > d && e == t.len()
    }))
}

/// A number at `p`: the longest run of number characters, which must be a
/// valid literal.
pub open spec fn number(s: Seq<char>, p: int) -> Result<(Seq<char>, int), Failure> {
    let e = number_end(s, p);
    if valid_number(s.subrange(p, e)) {
        Ok((s.subrange(p, e), e))
    } else {
        Err(Failure::MalformedValue(s.subrange(p, e)))
    }
}

pub open spec fn hex_value(c: char) -> Option<int> {
    if is_digit(c) {
        Some(c as int - '0' as int)
    } else if 'a' <= c <= 'f' {
        Some(c as int - 'a' as int + 10)
    } else if 'A' <= c <= 'F' {
        Some(c as int - 'A' as int + 10)
    } else {
        None
    }
}

/// Four hex digits at `p`, as a number.
pub open spec fn hex4(s: Seq<char>, p: int) -> Option<int> {
    match (hex_value(s[p]), hex_value(s[p + 1]), hex_value(s[p + 2]), hex_value(s[p + 3])) {
        (Some(a), Some(b), Some(c), Some(d)) => Some(a * 4096 + b * 256 + c * 16 + d),
        _ => None,
    }
}

/// Whether `v` is a Unicode scalar value.
pub open spec fn is_scalar(v: int) -> bool {
    (0 <= v < 0xD800) || (0xE000 <= v <= 0x10FFFF)
}

/// The character whose code is `v`.
pub open spec fn char_of(v: int) -> char {
    v as char
}

pub open spec fn is_high_surrogate(v: int) -> bool {
    0xD800 <= v <= 0xDBFF
}

pub open spec fn is_low_surrogate(v: int) -> bool {
    0xDC00 <= v <= 0xDFFF
}

/// The code that a surrogate pair stands for.
pub open spec fn pair_code(hi: int, lo: int) -> int {
    0x10000 + (hi - 0xD800) * 1024 + (lo - 0xDC00)
}

/// The low half of a surrogate pair that follows at `p`, if there is one.
pub open spec fn low_half(s: Seq<char>, p: int) -> Option<int> {
    if p + 6 <= s.len() && s[p] == '\\' && s[p + 1] == 'u' {
        match hex4(s, p + 2) {
            Some(w) => if is_low_surrogate(w) {
                Some(w)
            } else {
                None
            },
            None => None,
        }
    } else {
        None
    }
}

/// The escape whose backslash is at `p`: the code it stands for and how many
/// characters follow its letter (0; 4 for `\u`; 10 for a surrogate pair
/// written as two `\u` escapes).
pub open spec fn escape(s: Seq<char>, p: int) -> Result<(int, nat), Failure> {
    if p + 1 >= s.len() {
        Err(Failure::UnexpectedEnd)
    } else {
        let c = s[p + 1];
        if c == '"' || c == '\\' || c == '/' {
            Ok((c as int, 0))
        } else if c == 'b' {
            Ok((8, 0))
        } else if c == 'f' {
            Ok((12, 0))
        } else if c == 'n' {
            Ok((10, 0))
        } else if c == 'r' {
            Ok((13, 0))
        } else if c == 't' {
            Ok((9, 0))
        } else if c == 'u' {
            if p + 6 > s.len() {
                Err(Failure::UnexpectedEnd)
            } else {
                match hex4(s, p + 2) {
                    Some(v) => if is_high_surrogate(v) && low_half(s, p + 6) is Some {
                        Ok((pair_code(v, low_half(s, p + 6)->0), 10))
                    } else {
                        Ok((v, 4))
                    },
                    None => Err(Failure::MalformedValue(s.subrange(p, p + 6))),
                }
            }
        } else {
            Err(Failure::MalformedValue(s.subrange(p, p + 2)))
        }
    }
}

/// The rest of a quoted string from `p`, after `acc` was decoded. An escape
/// must stand for a Unicode scalar value: a lone surrogate is refused.
pub open spec fn quoted_from(s: Seq<char>, p: int, acc: Seq<char>) -> Result<
    (Seq<char>, int),
    Failure,
>
    decreases s.len() - p,
{
    if p < 0 || p >= s.len() {
        Err(Failure::UnexpectedEnd)
    } else if s[p] == '"' {
        Ok((acc, p + 1))
    } else if s[p] == '\\' {
        match escape(s, p) {
            Ok((v, n)) => if is_scalar(v) {
                quoted_from(s, p + 2 + n, acc.push(char_of(v)))
            } else {
                Err(Failure::MalformedValue(s.subrange(p, p + 2 + n)))
            },
            Err(e) => Err(e),
        }
    } else {
        quoted_from(s, p + 1, acc.push(s[p]))
    }
}

/// A quoted string whose opening `"` is at `p`, decoded.
pub open spec fn quoted(s: Seq<char>, p: int) -> Result<(Seq<char>, int), Failure> {
    quoted_from(s, p + 1, seq![])
}

/// Whether a raw string fenced by `n` hashes closes at `q`.
pub open spec fn closes_at(s: Seq<char>, q: int, n: int) -> bool {
    0 <= q && q + 1 + n <= s.len() && s[q] == '"' && forall|i: int|
        q + 1 <= i < q + 1 + n ==> s[i] == '#'
}

/// The first position at or after `q` where a raw string fenced by `n` hashes
/// closes.
pub open spec fn raw_close(s: Seq<char>, q: int, n: int) -> Option<int>
    decreases s.len() - q,
{
    if q < 0 || q >= s.len() {
        None
    } else if closes_at(s, q, n) {
        Some(q)
    } else {
        raw_close(s, q + 1, n)
    }
}

/// A raw string whose `r` is at `p`: its content, verbatim.
pub open spec fn raw(s: Seq<char>, p: int) -> Result<(Seq<char>, int), Failure> {
    let f = fence_end(s, p + 1);
    let n = f - (p + 1);
    if f >= s.len() {
        Err(Failure::UnexpectedEnd)
    } else if s[f] != '"' {
        Err(Failure::MalformedValue(s.subrange(f, f + 1)))
    } else {
        match raw_close(s, f + 1, n) {
            Some(q) => Ok((s.subrange(f + 1, q), q + 1 + n)),
            None => Err(Failure::UnexpectedEnd),
        }
    }
}

/// The UTF-8 encoding of a code (every code that a character or an escape
/// gives is at most 0x10FFFF); a surrogate gets the three-byte form that it
/// would have as a scalar.
pub open spec fn utf8_code(v: int) -> Seq<u8> {
    if v < 0x80 {
        seq![v as u8]
    } else if v < 0x800 {
        seq![(0xC0 + v / 64) as u8, (0x80 + v % 64) as u8]
    } else if v < 0x10000 {
        seq![(0xE0 + v / 4096) as u8, (0x80 + (v / 64) % 64) as u8, (0x80 + v % 64) as u8]
    } else {
        seq![
            (0xF0 + v / 262144) as u8,
            (0x80 + (v / 4096) % 64) as u8,
            (0x80 + (v / 64) % 64) as u8,
            (0x80 + v % 64) as u8,
        ]
    }
}

/// The rest of a byte string from `p`, after the bytes `acc`: each character
/// and each escape gives the UTF-8 form of its code. Unlike text, a byte
/// string may hold a lone surrogate escape.
pub open spec fn bytes_from(s: Seq<char>, p: int, acc: Seq<u8>) -> Result<
    (Seq<u8>, int),
    Failure,
>
    decreases s.len() - p,
{
    if p < 0 || p >= s.len() {
        Err(Failure::UnexpectedEnd)
    } else if s[p] == '"' {
        Ok((acc, p + 1))
    } else if s[p] == '\\' {
        match escape(s, p) {
            Ok((v, n)) => bytes_from(s, p + 2 + n, acc + utf8_code(v)),
            Err(e) => Err(e),
        }
    } else {
        bytes_from(s, p + 1, acc + utf8_code(s[p] as u32 as int))
    }
}

/// A byte string whose `b` is at `p`: its bytes.
pub open spec fn byte_string(s: Seq<char>, p: int) -> Result<(Seq<u8>, int), Failure> {
    bytes_from(s, p + 2, seq![])
}

/// An object key at `p`: a quoted string or a bareword.
pub open spec fn key(s: Seq<char>, p: int) -> Result<(Seq<char>, int), Failure> {
    if p < 0 || p >= s.len() {
        Err(Failure::UnexpectedEnd)
    } else if s[p] == '"' {
        quoted(s, p)
    } else {
        let e = ident_end(s, p);
        if e == p {
            Err(Failure::MalformedValue(s.subrange(p, p + 1)))
        } else {
            Ok((s.subrange(p, e), e))
        }
    }
}

pub proof fn lemma_skip_ws(s: Seq<char>, p: int)
    requires
        0 <= p <= s.len(),
    ensures
        p <= skip_ws(s, p) <= s.len(),
    decreases s.len() - p,
{
    if p < s.len() && is_ws(s[p]) {
        lemma_skip_ws(s, p + 1);
    }
}

pub proof fn lemma_ident_end(s: Seq<char>, p: int)
    ensures
        ident_end(s, p) >= p,
        0 <= p <= s.len() ==> ident_end(s, p) <= s.len(),
    decreases s.len() - p,
{
    if 0 <= p < s.len() && is_ident_char(s[p]) {
        lemma_ident_end(s, p + 1);
    }
}

pub proof fn lemma_quoted_from_advances(s: Seq<char>, p: int, acc: Seq<char>)
    ensures
        quoted_from(s, p, acc) is Ok ==> p < quoted_from(s, p, acc)->Ok_0.1 <= s.len(),
    decreases s.len() - p,
{
    if 0 <= p < s.len() && s[p] != '"' {
        if s[p] == '\\' {
            if let Ok((v, n)) = escape(s, p) {
                if is_scalar(v) {
                    lemma_quoted_from_advances(s, p + 2 + n, acc.push(char_of(v)));
                }
            }
        } else {
            lemma_quoted_from_advances(s, p + 1, acc.push(s[p]));
        }
    }
}

pub proof fn lemma_bytes_from_advances(s: Seq<char>, p: int, acc: Seq<u8>)
    ensures
        bytes_from(s, p, acc) is Ok ==> p < bytes_from(s, p, acc)->Ok_0.1 <= s.len(),
    decreases s.len() - p,
{
    if 0 <= p < s.len() && s[p] != '"' {
        if s[p] == '\\' {
            if let Ok((v, n)) = escape(s, p) {
                lemma_bytes_from_advances(s, p + 2 + n, acc + utf8_code(v));
            }
        } else {
            lemma_bytes_from_advances(s, p + 1, acc + utf8_code(s[p] as u32 as int));
        }
    }
}

/// A key, when there is one, is not empty.
pub proof fn lemma_key_advances(s: Seq<char>, p: int)
    ensures
        key(s, p) is Ok ==> p < key(s, p)->Ok_0.1 <= s.len(),
{
    lemma_ident_end(s, p);
    lemma_quoted_from_advances(s, p + 1, seq![]);
}

/// The tree that a keyword stands for.
pub open spec fn keyword(t: Seq<char>) -> Option<Tree> {
    if t == seq!['t', 'r', 'u', 'e'] {
        Some(Tree::Bool(true))
    } else if t == seq!['f', 'a', 'l', 's', 'e'] {
        Some(Tree::Bool(false))
    } else if t == seq!['n', 'u', 'l', 'l'] {
        Some(Tree::Null)
    } else {
        None
    }
}

/// The position of `k` among the keys of `m`, from `i` on; `m.len()` if absent.
pub open spec fn key_index(m: Seq<(Seq<char>, Tree)>, k: Seq<char>, i: int) -> int
    decreases m.len() - i,
{
    if i < 0 || i >= m.len() {
        m.len() as int
    } else if m[i].0 == k {
        i
    } else {
        key_index(m, k, i + 1)
    }
}

/// `m` with `k` bound to `t`: a later binding replaces an earlier one in place.
pub open spec fn insert(m: Seq<(Seq<char>, Tree)>, k: Seq<char>, t: Tree) -> Seq<
    (Seq<char>, Tree),
> {
    let i = key_index(m, k, 0);
    if i < m.len() {
        m.update(i, (k, t))
    } else {
        m.push((k, t))
    }
}

/// Whether no key occurs twice in `m`.
pub open spec fn keys_unique(m: Seq<(Seq<char>, Tree)>) -> bool {
    forall|i: int, j: int| 0 <= i < j < m.len() ==> m[i].0 != m[j].0
}

/// Whether `m` binds `k` to `t`.
pub open spec fn binds(m: Seq<(Seq<char>, Tree)>, k: Seq<char>, t: Tree) -> bool {
    exists|i: int| 0 <= i < m.len() && m[i] == (k, t)
}

/// A value at `p`, with `d` levels of nesting left. Only a top-level value
/// may turn out to be the first key of an implicit object.
pub open spec fn value(s: Seq<char>, p: int, d: nat, top: bool) -> Result<(Tree, int), Failure>
    decreases d, s.len() - p, 1nat,
{
    if d == 0 {
        Err(Failure::DepthExceeded)
    } else if p < 0 || p >= s.len() {
        Err(Failure::UnexpectedEnd)
    } else if s[p] == '{' {
        match members(s, p + 1, (d - 1) as nat, seq![]) {
            Ok((m, e)) => Ok((Tree::Object(m), e)),
            Err(e) => Err(e),
        }
    } else if s[p] == '[' {
        match items(s, p + 1, (d - 1) as nat, seq![]) {
            Ok((a, e)) => Ok((Tree::Array(a), e)),
            Err(e) => Err(e),
        }
    } else if s[p] == '"' {
        quoted_value(s, p, d, top)
    } else if s[p] == 'r' && p + 1 < s.len() && (s[p + 1] == '"' || s[p + 1] == '#') {
        match raw(s, p) {
            Ok((t, e)) => Ok((Tree::Str(t), e)),
            Err(e) => Err(e),
        }
    } else if s[p] == 'b' && p + 1 < s.len() && s[p + 1] == '"' {
        match byte_string(s, p) {
            Ok((b, e)) => Ok((Tree::Bytes(b), e)),
            Err(e) => Err(e),
        }
    } else if is_number_start(s[p]) {
        match number(s, p) {
            Ok((t, e)) => Ok((Tree::Num(t), e)),
            Err(e) => Err(e),
        }
    } else {
        bareword(s, p, d, top)
    }
}

/// A quoted string at `p`, or at top level the first key of an implicit
/// object.
pub open spec fn quoted_value(s: Seq<char>, p: int, d: nat, top: bool) -> Result<
    (Tree, int),
    Failure,
>
    decreases d, s.len() - p, 0nat,
{
    match quoted(s, p) {
        Ok((t, e)) => {
            let q = skip_ws(s, e);
            if d > 0 && top && q < s.len() && s[q] == ':' {
                match implicit(s, q, (d - 1) as nat, t, seq![]) {
                    Ok((m, e2)) => Ok((Tree::Object(m), e2)),
                    Err(e2) => Err(e2),
                }
            } else {
                Ok((Tree::Str(t), if top { q } else { e }))
            }
        },
        Err(e) => Err(e),
    }
}

/// A bareword at `p`: a keyword, or at top level the first key of an
/// implicit object.
pub open spec fn bareword(s: Seq<char>, p: int, d: nat, top: bool) -> Result<(Tree, int), Failure>
    decreases d, s.len() - p, 0nat,
{
    let e = ident_end(s, p);
    let t = s.subrange(p, e);
    let q = skip_ws(s, e);
    if e == p {
        Err(Failure::MalformedValue(s.subrange(p, p + 1)))
    } else if d > 0 && top && q < s.len() && s[q] == ':' {
        match implicit(s, q, (d - 1) as nat, t, seq![]) {
            Ok((m, e2)) => Ok((Tree::Object(m), e2)),
            Err(e2) => Err(e2),
        }
    } else {
        match keyword(t) {
            Some(v) => Ok((v, if top { q } else { e })),
            None => Err(Failure::MalformedValue(t)),
        }
    }
}

/// The rest of an array from `p`, after the elements `acc`; `d` levels of
/// nesting are left for each element.
pub open spec fn items(s: Seq<char>, p: int, d: nat, acc: Seq<Tree>) -> Result<
    (Seq<Tree>, int),
    Failure,
>
    decreases d, s.len() - p, 2nat,
{
    let q = skip_ws(s, p);
    if q < 0 || q >= s.len() {
        Err(Failure::UnexpectedEnd)
    } else if s[q] == ']' {
        Ok((acc, q + 1))
    } else {
        match value(s, q, d, false) {
            Ok((t, r)) => {
                let n = skip_ws(s, r);
                if r <= p {
                    // never taken: a value always consumes input
                    Err(Failure::MalformedValue(seq![]))
                } else if n >= s.len() {
                    Err(Failure::UnexpectedEnd)
                } else if s[n] == ',' {
                    items(s, n + 1, d, acc.push(t))
                } else if s[n] == ']' {
                    Ok((acc.push(t), n + 1))
                } else {
                    Err(Failure::MalformedValue(s.subrange(n, n + 1)))
                }
            },
            Err(e) => Err(e),
        }
    }
}

/// The rest of a braced object from `p`, after the members `acc`; `d` levels
/// of nesting are left for each member value.
pub open spec fn members(s: Seq<char>, p: int, d: nat, acc: Seq<(Seq<char>, Tree)>) -> Result<
    (Seq<(Seq<char>, Tree)>, int),
    Failure,
>
    decreases d, s.len() - p, 2nat,
{
    let q = skip_ws(s, p);
    if q < 0 || q >= s.len() {
        Err(Failure::UnexpectedEnd)
    } else if s[q] == '}' {
        Ok((acc, q + 1))
    } else {
        match key(s, q) {
            Ok((k, q1)) => {
                proof {
                    lemma_skip_ws(s, p);
                    lemma_key_advances(s, q);
                    lemma_skip_ws(s, q1);
                    if skip_ws(s, q1) < s.len() {
                        lemma_skip_ws(s, skip_ws(s, q1) + 1);
                    }
                }
                let q2 = skip_ws(s, q1);
                if q2 >= s.len() {
                    Err(Failure::UnexpectedEnd)
                } else if s[q2] != ':' {
                    Err(Failure::MalformedValue(s.subrange(q2, q2 + 1)))
                } else {
                    match value(s, skip_ws(s, q2 + 1), d, false) {
                        Ok((t, r)) => {
                            let n = skip_ws(s, r);
                            if r <= p {
                                // never taken: a value always consumes input
                                Err(Failure::MalformedValue(seq![]))
                            } else if n >= s.len() {
                                Err(Failure::UnexpectedEnd)
                            } else if s[n] == ',' {
                                members(s, n + 1, d, insert(acc, k, t))
                            } else if s[n] == '}' {
                                Ok((insert(acc, k, t), n + 1))
                            } else {
                                Err(Failure::MalformedValue(s.subrange(n, n + 1)))
                            }
                        },
                        Err(e) => Err(e),
                    }
                }
            },
            Err(e) => Err(e),
        }
    }
}

/// The rest of an implicit object from `p`, just after the key `k`, with the
/// members `acc` read before it. It ends where the document ends.
pub open spec fn implicit(
    s: Seq<char>,
    p: int,
    d: nat,
    k: Seq<char>,
    acc: Seq<(Seq<char>, Tree)>,
) -> Result<(Seq<(Seq<char>, Tree)>, int), Failure>
    decreases d, s.len() - p, 2nat,
{
    let q = skip_ws(s, p);
    if q < 0 || q >= s.len() {
        Err(Failure::UnexpectedEnd)
    } else if s[q] != ':' {
        Err(Failure::MalformedValue(s.subrange(q, q + 1)))
    } else {
        proof {
            lemma_skip_ws(s, q + 1);
        }
        match value(s, skip_ws(s, q + 1), d, false) {
            Ok((t, r)) => {
                let m = insert(acc, k, t);
                let n = skip_ws(s, r);
                let n2 = if n < s.len() && s[n] == ',' {
                    skip_ws(s, n + 1)
                } else {
                    n
                };
                if r <= p {
                    // never taken: a value always consumes input
                    Err(Failure::MalformedValue(seq![]))
                } else if n2 >= s.len() {
                    Ok((m, n2))
                } else {
                    match key(s, n2) {
                        Ok((k2, r2)) => {
                            proof {
                                lemma_key_advances(s, n2);
                                lemma_skip_ws(s, q + 1);
                            }
                            implicit(s, r2, d, k2, m)
                        },
                        Err(e) => Err(e),
                    }
                }
            },
            Err(e) => Err(e),
        }
    }
}

} // verus!
