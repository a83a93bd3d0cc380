//! The recursive-descent value parser.
use crate::grammar::{
    bareword, implicit, insert, items, key_index, keyword, lemma_ident_end, members,
    keys_unique, quoted_value, value,
};
use crate::laws::law_later_binding_wins;
use crate::lexical::{
    parse_byte_string, parse_identifier, parse_key, parse_number, parse_raw_string, parse_string,
    skip_whitespace, text_of,
};
use crate::reader::{char_at, PeekReader};
use crate::value::{
    entry_trees, lemma_entry_trees, value_trees, Number, ParseError, Value,
};
use vstd::prelude::*;

verus! {

/// Binds `k` to `v` in `m`; a later binding replaces an earlier one in place.
fn insert_entry(m: &mut Vec<(String, Value)>, k: String, v: Value)
    ensures
        entry_trees(final(m)@) == insert(entry_trees(old(m)@), k@, v.tree()),
        keys_unique(entry_trees(old(m)@)) ==> keys_unique(entry_trees(final(m)@)),
{
    proof {
        if keys_unique(entry_trees(m@)) {
            law_later_binding_wins(entry_trees(m@), k@, v.tree());
        }
    }
    let ghost t = entry_trees(m@);
    let ghost vt = v.tree();
    proof {
        lemma_entry_trees(m@);
    }
    let mut i: usize = 0;
    while i < m.len()
        invariant
            i <= m.len(),
            t == entry_trees(m@),
            t == entry_trees(old(m)@),
            vt == v.tree(),
            t.len() == m@.len(),
            forall|j: int| 0 <= j < m@.len() ==> #[trigger] t[j] == (m@[j].0@, m@[j].1.tree()),
            key_index(t, k@, i as int) == key_index(t, k@, 0),
        decreases m.len() - i,
    {
        if m[i].0 == k {
            let ghost before = m@;
            m[i] = (k, v);
            proof {
                lemma_entry_trees(m@);
                assert forall|j: int| 0 <= j < t.len() && j != i implies entry_trees(m@)[j]
                    == t[j] by {
                    assert(m@[j] == before[j]);
                }
                assert(entry_trees(m@) =~= t.update(i as int, (k@, vt)));
            }
            return;
        }
        i = i + 1;
    }
    let ghost before = m@;
    m.push((k, v));
    assert(m@.drop_last() =~= before);
}

/// The value that a keyword stands for.
fn keyword_value(t: &Vec<char>) -> (r: Option<Value>)
    ensures
        match keyword(t@) {
            Some(v) => r is Some && r->0.tree() == v,
            None => r is None,
        },
{
    if t.len() == 4 && t[0] == 't' && t[1] == 'r' && t[2] == 'u' && t[3] == 'e' {
        assert(t@ =~= seq!['t', 'r', 'u', 'e']);
        Some(Value::Bool(true))
    } else if t.len() == 5 && t[0] == 'f' && t[1] == 'a' && t[2] == 'l' && t[3] == 's' && t[4]
        == 'e' {
        assert(t@ =~= seq!['f', 'a', 'l', 's', 'e']);
        Some(Value::Bool(false))
    } else if t.len() == 4 && t[0] == 'n' && t[1] == 'u' && t[2] == 'l' && t[3] == 'l' {
        assert(t@ =~= seq!['n', 'u', 'l', 'l']);
        Some(Value::Null)
    } else {
        None
    }
}

/// Parses the rest of an array, after its `[`; each element is parsed with
/// `depth` levels of nesting left.
pub fn parse_array(reader: &mut PeekReader, depth: u8) -> (r: Result<Vec<Value>, ParseError>)
    requires
        old(reader).wf(),
    ensures
        final(reader).wf(),
        final(reader).input() == old(reader).input(),
        r is Ok ==> final(reader).position() > old(reader).position(),
        match items(old(reader).input(), old(reader).position(), depth as nat, seq![]) {
            Ok((a, e)) => r is Ok && value_trees(r->Ok_0@) == a && final(reader).position() == e,
            Err(err) => r is Err && r->Err_0@ == err,
        },
    decreases depth, 2nat,
{
    let ghost s = reader.input();
    let ghost p = reader.position();
    let mut out: Vec<Value> = Vec::new();
    assert(value_trees(out@) =~= seq![]);
    loop
        invariant
            reader.wf(),
            reader.input() == s,
            s == old(reader).input(),
            p == old(reader).position(),
            p <= reader.position(),
            items(s, reader.position(), depth as nat, value_trees(out@)) == items(
                s,
                p,
                depth as nat,
                seq![],
            ),
        decreases s.len() - reader.position(),
    {
        proof {
            reader.lemma_wf();
        }
        skip_whitespace(reader);
        match reader.peek() {
            None => {
                return Err(ParseError::UnexpectedEnd);
            },
            Some(c) => {
                if c == ']' {
                    reader.advance();
                    return Ok(out);
                }
            },
        }
        let v = match parse_value(reader, depth, false) {
            Ok(v) => v,
            Err(e) => {
                return Err(e);
            },
        };
        let ghost vt = v.tree();
        skip_whitespace(reader);
        proof {
            reader.lemma_wf();
        }
        match reader.peek() {
            None => {
                return Err(ParseError::UnexpectedEnd);
            },
            Some(c) => {
                if c == ',' {
                    reader.advance();
                    let ghost before = out@;
                    out.push(v);
                    assert(out@.drop_last() =~= before);
                } else if c == ']' {
                    reader.advance();
                    let ghost before = out@;
                    out.push(v);
                    assert(out@.drop_last() =~= before);
                    return Ok(out);
                } else {
                    let at = reader.offset();
                    return Err(ParseError::MalformedValue(reader.text_between(at, at + 1)));
                }
            },
        }
    }
}

/// Parses the rest of a braced object, after its `{`; each member value is
/// parsed with `depth` levels of nesting left.
pub fn parse_object(reader: &mut PeekReader, depth: u8) -> (r: Result<
    Vec<(String, Value)>,
    ParseError,
>)
    requires
        old(reader).wf(),
    ensures
        final(reader).wf(),
        final(reader).input() == old(reader).input(),
        r is Ok ==> final(reader).position() > old(reader).position(),
        r is Ok ==> keys_unique(entry_trees(r->Ok_0@)),
        match members(old(reader).input(), old(reader).position(), depth as nat, seq![]) {
            Ok((m, e)) => r is Ok && entry_trees(r->Ok_0@) == m && final(reader).position() == e,
            Err(err) => r is Err && r->Err_0@ == err,
        },
    decreases depth, 2nat,
{
    let ghost s = reader.input();
    let ghost p = reader.position();
    let mut out: Vec<(String, Value)> = Vec::new();
    assert(entry_trees(out@) =~= seq![]);
    loop
        invariant
            reader.wf(),
            reader.input() == s,
            s == old(reader).input(),
            p == old(reader).position(),
            p <= reader.position(),
            keys_unique(entry_trees(out@)),
            members(s, reader.position(), depth as nat, entry_trees(out@)) == members(
                s,
                p,
                depth as nat,
                seq![],
            ),
        decreases s.len() - reader.position(),
    {
        proof {
            reader.lemma_wf();
        }
        skip_whitespace(reader);
        match reader.peek() {
            None => {
                return Err(ParseError::UnexpectedEnd);
            },
            Some(c) => {
                if c == '}' {
                    reader.advance();
                    return Ok(out);
                }
            },
        }
        let k = match parse_key(reader) {
            Ok(k) => k,
            Err(e) => {
                return Err(e);
            },
        };
        skip_whitespace(reader);
        proof {
            reader.lemma_wf();
        }
        match reader.peek() {
            None => {
                return Err(ParseError::UnexpectedEnd);
            },
            Some(c) => {
                if c != ':' {
                    let at = reader.offset();
                    return Err(ParseError::MalformedValue(reader.text_between(at, at + 1)));
                }
            },
        }
        reader.advance();
        skip_whitespace(reader);
        let v = match parse_value(reader, depth, false) {
            Ok(v) => v,
            Err(e) => {
                return Err(e);
            },
        };
        skip_whitespace(reader);
        proof {
            reader.lemma_wf();
        }
        match reader.peek() {
            None => {
                return Err(ParseError::UnexpectedEnd);
            },
            Some(c) => {
                if c == ',' {
                    reader.advance();
                    insert_entry(&mut out, text_of(&k), v);
                } else if c == '}' {
                    reader.advance();
                    insert_entry(&mut out, text_of(&k), v);
                    return Ok(out);
                } else {
                    let at = reader.offset();
                    return Err(ParseError::MalformedValue(reader.text_between(at, at + 1)));
                }
            },
        }
    }
}

/// Parses the rest of an implicit top-level object, just after its first
/// key; it ends where the document ends. Each member value is parsed with
/// `depth` levels of nesting left.
pub fn parse_key_value_pairs_after_key(
    reader: &mut PeekReader,
    first_key: Vec<char>,
    depth: u8,
) -> (r: Result<Vec<(String, Value)>, ParseError>)
    requires
        old(reader).wf(),
    ensures
        final(reader).wf(),
        final(reader).input() == old(reader).input(),
        r is Ok ==> final(reader).position() > old(reader).position(),
        r is Ok ==> keys_unique(entry_trees(r->Ok_0@)),
        match implicit(
            old(reader).input(),
            old(reader).position(),
            depth as nat,
            first_key@,
            seq![],
        ) {
            Ok((m, e)) => r is Ok && entry_trees(r->Ok_0@) == m && final(reader).position() == e,
            Err(err) => r is Err && r->Err_0@ == err,
        },
    decreases depth, 2nat,
{
    let ghost s = reader.input();
    let ghost p = reader.position();
    let mut out: Vec<(String, Value)> = Vec::new();
    let mut k = first_key;
    assert(entry_trees(out@) =~= seq![]);
    loop
        invariant
            reader.wf(),
            reader.input() == s,
            s == old(reader).input(),
            p == old(reader).position(),
            p <= reader.position(),
            keys_unique(entry_trees(out@)),
            implicit(s, reader.position(), depth as nat, k@, entry_trees(out@)) == implicit(
                s,
                p,
                depth as nat,
                first_key@,
                seq![],
            ),
        decreases s.len() - reader.position(),
    {
        proof {
            reader.lemma_wf();
        }
        let ghost start = reader.position();
        skip_whitespace(reader);
        match reader.peek() {
            None => {
                return Err(ParseError::UnexpectedEnd);
            },
            Some(c) => {
                if c != ':' {
                    let at = reader.offset();
                    return Err(ParseError::MalformedValue(reader.text_between(at, at + 1)));
                }
            },
        }
        reader.advance();
        skip_whitespace(reader);
        let v = match parse_value(reader, depth, false) {
            Ok(v) => v,
            Err(e) => {
                return Err(e);
            },
        };
        insert_entry(&mut out, text_of(&k), v);
        skip_whitespace(reader);
        proof {
            reader.lemma_wf();
        }
        if reader.peek() == Some(',') {
            reader.advance();
            skip_whitespace(reader);
        }
        if reader.peek().is_none() {
            return Ok(out);
        }
        k = match parse_key(reader) {
            Ok(k) => k,
            Err(e) => {
                return Err(e);
            },
        };
        proof {
            reader.lemma_wf();
        }
    }
}

/// Parses one value at the reader, with `depth` levels of nesting allowed.
/// A top-level string or bareword followed by `:` is the first key of an
/// implicit object, which then runs to the end of the document.
pub fn parse_value(reader: &mut PeekReader, depth: u8, top_level: bool) -> (r: Result<
    Value,
    ParseError,
>)
    requires
        old(reader).wf(),
    ensures
        final(reader).wf(),
        final(reader).input() == old(reader).input(),
        r is Ok ==> final(reader).position() > old(reader).position(),
        depth == 0 ==> final(reader).position() == old(reader).position(),
        r matches Ok(Value::Object(m)) ==> keys_unique(entry_trees(m@)),
        match value(old(reader).input(), old(reader).position(), depth as nat, top_level) {
            Ok((t, e)) => r is Ok && r->Ok_0.tree() == t && final(reader).position() == e,
            Err(err) => r is Err && r->Err_0@ == err,
        },
    decreases depth, 1nat,
{
    let ghost s = reader.input();
    let ghost p = reader.position();
    proof {
        reader.lemma_wf();
    }
    if depth == 0 {
        return Err(ParseError::DepthExceeded);
    }
    let first = match reader.peek() {
        Some(c) => c,
        None => {
            return Err(ParseError::UnexpectedEnd);
        },
    };
    if first == '{' {
        reader.advance();
        return match parse_object(reader, depth - 1) {
            Ok(m) => Ok(Value::Object(m)),
            Err(e) => Err(e),
        };
    }
    if first == '[' {
        reader.advance();
        return match parse_array(reader, depth - 1) {
            Ok(a) => Ok(Value::Array(a)),
            Err(e) => Err(e),
        };
    }
    if first == '"' {
        return parse_quoted_value(reader, depth, top_level);
    }
    if first == 'r' {
        if let Some((_, second)) = reader.peek2() {
            if second == '"' || second == '#' {
                return match parse_raw_string(reader) {
                    Ok(t) => Ok(Value::String(text_of(&t))),
                    Err(e) => Err(e),
                };
            }
        }
    }
    if first == 'b' {
        if let Some((_, second)) = reader.peek2() {
            if second == '"' {
                return match parse_byte_string(reader) {
                    Ok(b) => Ok(Value::ByteString(b)),
                    Err(e) => Err(e),
                };
            }
        }
    }
    if ('0' <= first && first <= '9') || first == '+' || first == '-' || first == '.' {
        return match parse_number(reader) {
            Ok(t) => Ok(Value::Number(Number::from_text(text_of(&t)))),
            Err(e) => Err(e),
        };
    }
    parse_bareword(reader, depth, top_level)
}

/// A quoted string, or at top level the first key of an implicit object.
fn parse_quoted_value(reader: &mut PeekReader, depth: u8, top_level: bool) -> (r: Result<Value, ParseError>)
    requires
        old(reader).wf(),
        depth > 0,
        char_at(old(reader).input(), old(reader).position()) == Some('"'),
    ensures
        final(reader).wf(),
        final(reader).input() == old(reader).input(),
        r is Ok ==> final(reader).position() > old(reader).position(),
        r matches Ok(Value::Object(m)) ==> keys_unique(entry_trees(m@)),
        match quoted_value(old(reader).input(), old(reader).position(), depth as nat, top_level) {
            Ok((t, e)) => r is Ok && r->Ok_0.tree() == t && final(reader).position() == e,
            Err(err) => r is Err && r->Err_0@ == err,
        },
    decreases depth, 0nat,
{
    let ghost s = reader.input();
    let ghost p = reader.position();
    proof {
        reader.lemma_wf();
    }
    let t = match parse_string(reader) {
        Ok(t) => t,
        Err(e) => {
            return Err(e);
        },
    };
    if top_level {
        skip_whitespace(reader);
        if reader.peek() == Some(':') {
            return match parse_key_value_pairs_after_key(reader, t, depth - 1) {
                Ok(m) => Ok(Value::Object(m)),
                Err(e) => Err(e),
            };
        }
    }
    Ok(Value::String(text_of(&t)))
}

/// A keyword, or at top level the first key of an implicit object.
fn parse_bareword(reader: &mut PeekReader, depth: u8, top_level: bool) -> (r: Result<Value, ParseError>)
    requires
        old(reader).wf(),
        depth > 0,
        old(reader).position() < old(reader).input().len(),
    ensures
        final(reader).wf(),
        final(reader).input() == old(reader).input(),
        r is Ok ==> final(reader).position() > old(reader).position(),
        r matches Ok(Value::Object(m)) ==> keys_unique(entry_trees(m@)),
        match bareword(old(reader).input(), old(reader).position(), depth as nat, top_level) {
            Ok((t, e)) => r is Ok && r->Ok_0.tree() == t && final(reader).position() == e,
            Err(err) => r is Err && r->Err_0@ == err,
        },
    decreases depth, 0nat,
{
    let ghost s = reader.input();
    let ghost p = reader.position();
    proof {
        reader.lemma_wf();
    }
    proof {
        lemma_ident_end(s, p);
    }
    let ident = parse_identifier(reader);
    if ident.len() == 0 {
        let at = reader.offset();
        return Err(ParseError::MalformedValue(reader.text_between(at, at + 1)));
    }
    if top_level {
        skip_whitespace(reader);
        if reader.peek() == Some(':') {
            return match parse_key_value_pairs_after_key(reader, ident, depth - 1) {
                Ok(m) => Ok(Value::Object(m)),
                Err(e) => Err(e),
            };
        }
    }
    match keyword_value(&ident) {
        Some(v) => Ok(v),
        None => Err(ParseError::MalformedValue(text_of(&ident))),
    }
}

} // verus!
