//! The tokens of the format: whitespace, barewords, numbers and the three
//! string forms.
use crate::grammar::{
    after_sign, byte_string, bytes_from, closes_at, digits_end, escape, fence_end, hex4,
    hex_value, ident_end, is_scalar, key, lemma_bytes_from_advances, lemma_ident_end,
    lemma_key_advances, lemma_quoted_from_advances, number, number_end, quoted, quoted_from, raw,
    raw_close, skip_ws, utf8_code, valid_number,
};
use crate::reader::{char_at, push_char, PeekReader};
use crate::value::ParseError;
use vstd::prelude::*;

verus! {

/// Relies on `char::from_u32`: `Some` exactly for the Unicode scalar values.
#[verifier::external_body]
fn char_from_u32(v: u32) -> (r: Option<char>)
    ensures
        r is Some <==> is_scalar(v as int),
        r is Some ==> r->0 as int == v as int,
{
    char::from_u32(v)
}

/// The text made of the characters of `v`.
pub(crate) fn text_of(v: &Vec<char>) -> (r: String)
    ensures
        r@ == v@,
{
    let mut r = String::new();
    let mut i: usize = 0;
    while i < v.len()
        invariant
            i <= v.len(),
            r@ == v@.subrange(0, i as int),
        decreases v.len() - i,
    {
        push_char(&mut r, v[i]);
        i = i + 1;
        assert(r@ =~= v@.subrange(0, i as int));
    }
    assert(r@ =~= v@);
    r
}

/// Consumes whitespace.
pub fn skip_whitespace(reader: &mut PeekReader)
    requires
        old(reader).wf(),
    ensures
        final(reader).wf(),
        final(reader).input() == old(reader).input(),
        final(reader).position() == skip_ws(old(reader).input(), old(reader).position()),
{
    let ghost s = reader.input();
    let ghost p = reader.position();
    proof {
        reader.lemma_wf();
    }
    loop
        invariant
            reader.wf(),
            reader.input() == s,
            s == old(reader).input(),
            p == old(reader).position(),
            skip_ws(s, reader.position()) == skip_ws(s, p),
        decreases s.len() - reader.position(),
    {
        proof {
            reader.lemma_wf();
        }
        match reader.peek() {
            Some(c) => {
                if c == ' ' || c == '\t' || c == '\n' || c == '\r' {
                    reader.advance();
                } else {
                    return;
                }
            },
            None => {
                return;
            },
        }
    }
}

/// Consumes the run of bareword characters at the reader and returns it.
pub fn parse_identifier(reader: &mut PeekReader) -> (r: Vec<char>)
    requires
        old(reader).wf(),
    ensures
        final(reader).wf(),
        final(reader).input() == old(reader).input(),
        final(reader).position() == ident_end(old(reader).input(), old(reader).position()),
        r@ == old(reader).input().subrange(old(reader).position(), final(reader).position()),
{
    let ghost s = reader.input();
    let ghost p = reader.position();
    proof {
        reader.lemma_wf();
    }
    let mut out: Vec<char> = Vec::new();
    loop
        invariant
            reader.wf(),
            reader.input() == s,
            s == old(reader).input(),
            p == old(reader).position(),
            0 <= p <= reader.position() <= s.len(),
            ident_end(s, reader.position()) == ident_end(s, p),
            out@ == s.subrange(p, reader.position()),
        decreases s.len() - reader.position(),
    {
        proof {
            reader.lemma_wf();
        }
        match reader.peek() {
            Some(c) => {
                if ('a' <= c && c <= 'z') || ('A' <= c && c <= 'Z') || ('0' <= c && c <= '9')
                    || c == '_' || c == '-' || c == '.' || c == '$' {
                    reader.advance();
                    out.push(c);
                    assert(out@ =~= s.subrange(p, reader.position()));
                } else {
                    return out;
                }
            },
            None => {
                return out;
            },
        }
    }
}

fn digits_end_of(t: &Vec<char>, p: usize) -> (r: usize)
    requires
        p <= t.len(),
    ensures
        r == digits_end(t@, p as int),
        p <= r <= t.len(),
{
    let mut i = p;
    while i < t.len() && '0' <= t[i] && t[i] <= '9'
        invariant
            p <= i <= t.len(),
            digits_end(t@, i as int) == digits_end(t@, p as int),
        decreases t.len() - i,
    {
        i = i + 1;
    }
    i
}

fn after_sign_of(t: &Vec<char>, p: usize) -> (r: usize)
    requires
        p <= t.len(),
    ensures
        r == after_sign(t@, p as int),
        p <= r <= t.len(),
{
    if p < t.len() && (t[p] == '+' || t[p] == '-') {
        p + 1
    } else {
        p
    }
}

/// Whether `t` is a decimal float literal.
pub fn is_valid_number(t: &Vec<char>) -> (r: bool)
    ensures
        r == valid_number(t@),
        r ==> t@.len() > 0,
{
    let a = after_sign_of(t, 0);
    let b = digits_end_of(t, a);
    let has_point = b < t.len() && t[b] == '.';
    let c = if has_point {
        digits_end_of(t, b + 1)
    } else {
        b
    };
    let digits = if has_point {
        (b - a) + (c - b - 1)
    } else {
        b - a
    };
    if digits == 0 {
        return false;
    }
    if c == t.len() {
        return true;
    }
    if t[c] != 'e' && t[c] != 'E' {
        return false;
    }
    let d = after_sign_of(t, c + 1);
    let e = digits_end_of(t, d);
    e > d && e == t.len()
}

/// Consumes a numeric literal and returns its text.
pub fn parse_number(reader: &mut PeekReader) -> (r: Result<Vec<char>, ParseError>)
    requires
        old(reader).wf(),
    ensures
        final(reader).wf(),
        final(reader).input() == old(reader).input(),
        r is Ok ==> final(reader).position() > old(reader).position(),
        match number(old(reader).input(), old(reader).position()) {
            Ok((t, e)) => r is Ok && r->Ok_0@ == t && final(reader).position() == e,
            Err(err) => r is Err && r->Err_0@ == err,
        },
{
    let ghost s = reader.input();
    let ghost p = reader.position();
    proof {
        reader.lemma_wf();
    }
    let mut out: Vec<char> = Vec::new();
    loop
        invariant
            reader.wf(),
            reader.input() == s,
            s == old(reader).input(),
            p == old(reader).position(),
            0 <= p <= reader.position() <= s.len(),
            number_end(s, reader.position()) == number_end(s, p),
            out@ == s.subrange(p, reader.position()),
        ensures
            reader.wf(),
            reader.input() == s,
            reader.position() == number_end(s, p),
            out@ == s.subrange(p, reader.position()),
        decreases s.len() - reader.position(),
    {
        proof {
            reader.lemma_wf();
        }
        match reader.peek() {
            Some(c) => {
                if ('0' <= c && c <= '9') || c == '+' || c == '-' || c == '.' || c == 'e' || c
                    == 'E' {
                    reader.advance();
                    out.push(c);
                    assert(out@ =~= s.subrange(p, reader.position()));
                } else {
                    break;
                }
            },
            None => {
                break;
            },
        }
    }
    if is_valid_number(&out) {
        Ok(out)
    } else {
        Err(ParseError::MalformedValue(text_of(&out)))
    }
}

fn hex_digit(c: char) -> (r: Option<u32>)
    ensures
        match hex_value(c) {
            Some(v) => r == Some(v as u32),
            None => r is None,
        },
{
    if '0' <= c && c <= '9' {
        Some((c as u32) - ('0' as u32))
    } else if 'a' <= c && c <= 'f' {
        Some((c as u32) - ('a' as u32) + 10)
    } else if 'A' <= c && c <= 'F' {
        Some((c as u32) - ('A' as u32) + 10)
    } else {
        None
    }
}

/// Four hex digits `k` places ahead, as a number; nothing is consumed.
fn hex4_ahead(reader: &PeekReader, k: usize) -> (r: Option<u32>)
    requires
        reader.wf(),
        reader.position() + k + 4 <= reader.input().len(),
    ensures
        match hex4(reader.input(), reader.position() + k) {
            Some(v) => r == Some(v as u32),
            None => r is None,
        },
{
    let ghost s = reader.input();
    let ghost q = reader.position() + k;
    proof {
        reader.lemma_wf();
    }
    let c0 = match reader.peek_at(k) { Some(c) => c, None => { return None; } };
    let c1 = match reader.peek_at(k + 1) { Some(c) => c, None => { return None; } };
    let c2 = match reader.peek_at(k + 2) { Some(c) => c, None => { return None; } };
    let c3 = match reader.peek_at(k + 3) { Some(c) => c, None => { return None; } };
    assert(c0 == s[q] && c1 == s[q + 1] && c2 == s[q + 2] && c3 == s[q + 3]);
    match (hex_digit(c0), hex_digit(c1), hex_digit(c2), hex_digit(c3)) {
        (Some(a), Some(b), Some(c), Some(d)) => Some(a * 4096 + b * 256 + c * 16 + d),
        _ => None,
    }
}

/// Consumes an escape whose backslash is at the reader and returns the code
/// it stands for.
fn parse_escape(reader: &mut PeekReader) -> (r: Result<u32, ParseError>)
    requires
        old(reader).wf(),
        char_at(old(reader).input(), old(reader).position()) == Some('\\'),
    ensures
        final(reader).wf(),
        final(reader).input() == old(reader).input(),
        match escape(old(reader).input(), old(reader).position()) {
            Ok((v, n)) => r == Ok::<u32, ParseError>(v as u32) && final(reader).position()
                == old(reader).position() + 2 + n && 0 <= v <= 0x10FFFF,
            Err(err) => r is Err && r->Err_0@ == err,
        },
{
    let ghost s = reader.input();
    let ghost p = reader.position();
    proof {
        reader.lemma_wf();
    }
    let start = reader.offset();
    let c = match reader.peek_at(1) {
        Some(c) => c,
        None => {
            return Err(ParseError::UnexpectedEnd);
        },
    };
    let v: u32 = if c == '"' || c == '\\' || c == '/' {
        c as u32
    } else if c == 'b' {
        8
    } else if c == 'f' {
        12
    } else if c == 'n' {
        10
    } else if c == 'r' {
        13
    } else if c == 't' {
        9
    } else if c == 'u' {
        if reader.remaining() < 6 {
            return Err(ParseError::UnexpectedEnd);
        }
        let hi = match hex4_ahead(reader, 2) {
            Some(hi) => hi,
            None => {
                return Err(ParseError::MalformedValue(reader.text_between(start, start + 6)));
            },
        };
        if 0xD800 <= hi && hi <= 0xDBFF && reader.remaining() >= 12 && reader.peek_at(6) == Some(
            '\\',
        ) && reader.peek_at(7) == Some('u') {
            if let Some(lo) = hex4_ahead(reader, 8) {
                if 0xDC00 <= lo && lo <= 0xDFFF {
                    let mut i: usize = 0;
                    while i < 12
                        invariant
                            reader.wf(),
                            reader.input() == s,
                            0 <= p,
                            p + 12 <= s.len(),
                            reader.position() == p + i,
                            i <= 12,
                        decreases 12 - i,
                    {
                        reader.advance();
                        i = i + 1;
                    }
                    return Ok(0x10000 + (hi - 0xD800) * 1024 + (lo - 0xDC00));
                }
            }
        }
        let mut i: usize = 0;
        while i < 6
            invariant
                reader.wf(),
                reader.input() == s,
                0 <= p,
                p + 6 <= s.len(),
                reader.position() == p + i,
                i <= 6,
            decreases 6 - i,
        {
            reader.advance();
            i = i + 1;
        }
        return Ok(hi);
    } else {
        return Err(ParseError::MalformedValue(reader.text_between(start, start + 2)));
    };
    reader.advance();
    reader.advance();
    Ok(v)
}

/// Consumes a quoted string whose `"` is at the reader and returns its
/// decoded text.
pub fn parse_string(reader: &mut PeekReader) -> (r: Result<Vec<char>, ParseError>)
    requires
        old(reader).wf(),
        char_at(old(reader).input(), old(reader).position()) == Some('"'),
    ensures
        final(reader).wf(),
        final(reader).input() == old(reader).input(),
        r is Ok ==> final(reader).position() > old(reader).position(),
        match quoted(old(reader).input(), old(reader).position()) {
            Ok((t, e)) => r is Ok && r->Ok_0@ == t && final(reader).position() == e,
            Err(err) => r is Err && r->Err_0@ == err,
        },
{
    let ghost s = reader.input();
    let ghost p = reader.position();
    proof {
        reader.lemma_wf();
    }
    reader.advance();
    let mut out: Vec<char> = Vec::new();
    proof {
        lemma_quoted_from_advances(s, p + 1, seq![]);
    }
    loop
        invariant
            reader.wf(),
            reader.input() == s,
            s == old(reader).input(),
            p == old(reader).position(),
            quoted_from(s, reader.position(), out@) == quoted(s, p),
            quoted(s, p) is Ok ==> quoted(s, p)->Ok_0.1 > p,
        decreases s.len() - reader.position(),
    {
        proof {
            reader.lemma_wf();
        }
        match reader.peek() {
            None => {
                return Err(ParseError::UnexpectedEnd);
            },
            Some(c) => {
                if c == '"' {
                    reader.advance();
                    return Ok(out);
                } else if c == '\\' {
                    let start = reader.offset();
                    match parse_escape(reader) {
                        Ok(v) => match char_from_u32(v) {
                            Some(ch) => {
                                out.push(ch);
                            },
                            None => {
                                let bad = reader.text_between(start, reader.offset());
                                return Err(ParseError::MalformedValue(bad));
                            },
                        },
                        Err(err) => {
                            return Err(err);
                        },
                    }
                } else {
                    reader.advance();
                    out.push(c);
                }
            },
        }
    }
}

/// Whether a raw string fenced by `n` hashes closes at the reader.
fn closes_here(reader: &PeekReader, n: usize) -> (r: bool)
    requires
        reader.wf(),
    ensures
        r == closes_at(reader.input(), reader.position(), n as int),
{
    proof {
        reader.lemma_wf();
    }
    if reader.peek() != Some('"') || reader.remaining() - 1 < n {
        return false;
    }
    let mut i: usize = 0;
    while i < n
        invariant
            reader.wf(),
            i <= n,
            reader.position() + 1 + n <= reader.input().len(),
            forall|j: int|
                reader.position() + 1 <= j < reader.position() + 1 + i ==> reader.input()[j]
                    == '#',
        decreases n - i,
    {
        if reader.peek_at(i + 1) != Some('#') {
            return false;
        }
        i = i + 1;
    }
    true
}

/// Consumes a raw string whose `r` is at the reader and returns its content.
pub fn parse_raw_string(reader: &mut PeekReader) -> (r: Result<Vec<char>, ParseError>)
    requires
        old(reader).wf(),
        char_at(old(reader).input(), old(reader).position()) == Some('r'),
    ensures
        final(reader).wf(),
        final(reader).input() == old(reader).input(),
        r is Ok ==> final(reader).position() > old(reader).position(),
        match raw(old(reader).input(), old(reader).position()) {
            Ok((t, e)) => r is Ok && r->Ok_0@ == t && final(reader).position() == e,
            Err(err) => r is Err && r->Err_0@ == err,
        },
{
    let ghost s = reader.input();
    let ghost p = reader.position();
    proof {
        reader.lemma_wf();
    }
    reader.advance();
    let mut n: usize = 0;
    while reader.peek() == Some('#')
        invariant
            reader.wf(),
            reader.input() == s,
            s == old(reader).input(),
            p == old(reader).position(),
            0 <= p,
            reader.position() == p + 1 + n,
            fence_end(s, reader.position()) == fence_end(s, p + 1),
        decreases s.len() - reader.position(),
    {
        proof {
            reader.lemma_wf();
        }
        reader.advance();
        n = n + 1;
    }
    match reader.peek() {
        None => {
            return Err(ParseError::UnexpectedEnd);
        },
        Some(c) => {
            if c != '"' {
                let at = reader.offset();
                return Err(ParseError::MalformedValue(reader.text_between(at, at + 1)));
            }
        },
    }
    reader.advance();
    let ghost f = p + 1 + n;
    let mut out: Vec<char> = Vec::new();
    loop
        invariant
            reader.wf(),
            reader.input() == s,
            s == old(reader).input(),
            p == old(reader).position(),
            f == p + 1 + n,
            0 <= f < s.len(),
            f + 1 <= reader.position(),
            fence_end(s, p + 1) == f,
            s[f] == '"',
            raw_close(s, reader.position(), n as int) == raw_close(s, f + 1, n as int),
            out@ == s.subrange(f + 1, reader.position()),
        decreases s.len() - reader.position(),
    {
        proof {
            reader.lemma_wf();
        }
        if closes_here(reader, n) {
            let mut i: usize = 0;
            let ghost q = reader.position();
            while i < n + 1
                invariant
                    reader.wf(),
                    reader.input() == s,
                    i <= n + 1,
                    0 <= q,
                    q + 1 + n <= s.len(),
                    s.len() <= usize::MAX,
                    reader.position() == q + i,
                decreases n + 1 - i,
            {
                reader.advance();
                i = i + 1;
            }
            return Ok(out);
        }
        match reader.peek() {
            None => {
                return Err(ParseError::UnexpectedEnd);
            },
            Some(c) => {
                reader.advance();
                out.push(c);
                assert(out@ =~= s.subrange(f + 1, reader.position()));
            },
        }
    }
}

/// Appends the UTF-8 form of a code.
fn encode_code(v: u32, out: &mut Vec<u8>)
    ensures
        final(out)@ == old(out)@ + utf8_code(v as int),
{
    if v < 0x80 {
        out.push(v as u8);
    } else if v < 0x800 {
        out.push((0xC0 + v / 64) as u8);
        out.push((0x80 + v % 64) as u8);
    } else if v < 0x10000 {
        out.push((0xE0 + v / 4096) as u8);
        out.push((0x80 + (v / 64) % 64) as u8);
        out.push((0x80 + v % 64) as u8);
    } else {
        out.push(#[verifier::truncate] ((0xF0 + v / 262144) as u8));
        out.push((0x80 + (v / 4096) % 64) as u8);
        out.push((0x80 + (v / 64) % 64) as u8);
        out.push((0x80 + v % 64) as u8);
    }
    assert(final(out)@ =~= old(out)@ + utf8_code(v as int));
}

/// Consumes a byte string whose `b` is at the reader and returns its bytes.
pub fn parse_byte_string(reader: &mut PeekReader) -> (r: Result<Vec<u8>, ParseError>)
    requires
        old(reader).wf(),
        char_at(old(reader).input(), old(reader).position()) == Some('b'),
        char_at(old(reader).input(), old(reader).position() + 1) == Some('"'),
    ensures
        final(reader).wf(),
        final(reader).input() == old(reader).input(),
        r is Ok ==> final(reader).position() > old(reader).position(),
        match byte_string(old(reader).input(), old(reader).position()) {
            Ok((b, e)) => r is Ok && r->Ok_0@ == b && final(reader).position() == e,
            Err(err) => r is Err && r->Err_0@ == err,
        },
{
    let ghost s = reader.input();
    let ghost p = reader.position();
    proof {
        reader.lemma_wf();
        lemma_bytes_from_advances(s, p + 2, seq![]);
    }
    reader.advance();
    reader.advance();
    let mut out: Vec<u8> = Vec::new();
    loop
        invariant
            reader.wf(),
            reader.input() == s,
            s == old(reader).input(),
            p == old(reader).position(),
            bytes_from(s, reader.position(), out@) == byte_string(s, p),
            byte_string(s, p) is Ok ==> byte_string(s, p)->Ok_0.1 > p,
        decreases s.len() - reader.position(),
    {
        proof {
            reader.lemma_wf();
        }
        match reader.peek() {
            None => {
                return Err(ParseError::UnexpectedEnd);
            },
            Some(c) => {
                if c == '"' {
                    reader.advance();
                    return Ok(out);
                } else if c == '\\' {
                    match parse_escape(reader) {
                        Ok(v) => {
                            encode_code(v, &mut out);
                        },
                        Err(err) => {
                            return Err(err);
                        },
                    }
                } else {
                    reader.advance();
                    encode_code(#[verifier::truncate] (c as u32), &mut out);
                }
            },
        }
    }
}

/// Consumes an object key: a quoted string or a bareword.
pub fn parse_key(reader: &mut PeekReader) -> (r: Result<Vec<char>, ParseError>)
    requires
        old(reader).wf(),
    ensures
        final(reader).wf(),
        final(reader).input() == old(reader).input(),
        r is Ok ==> final(reader).position() > old(reader).position(),
        match key(old(reader).input(), old(reader).position()) {
            Ok((k, e)) => r is Ok && r->Ok_0@ == k && final(reader).position() == e,
            Err(err) => r is Err && r->Err_0@ == err,
        },
{
    proof {
        reader.lemma_wf();
        lemma_key_advances(reader.input(), reader.position());
    }
    match reader.peek() {
        None => Err(ParseError::UnexpectedEnd),
        Some(c) => {
            if c == '"' {
                parse_string(reader)
            } else {
                proof {
                    lemma_ident_end(reader.input(), reader.position());
                }
                let start = reader.offset();
                let k = parse_identifier(reader);
                if k.len() == 0 {
                    Err(ParseError::MalformedValue(reader.text_between(start, start + 1)))
                } else {
                    Ok(k)
                }
            }
        },
    }
}

} // verus!
