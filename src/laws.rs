//! Properties of the grammar that hold for all inputs.
use crate::grammar::{
    after_sign, bareword, binds, digits_end, ident_end, insert, is_digit, is_ident_char,
    is_number_char, is_number_start, is_ws, items, key_index, keys_unique, members, number_end,
    quoted, quoted_from, quoted_value, skip_ws, valid_number, value, ws_len,
};
use crate::value::{Failure, Tree};
use vstd::prelude::*;

verus! {

/// `n` opening brackets followed by `n` closing ones.
pub open spec fn brackets(n: nat) -> Seq<char> {
    Seq::new(2 * n, |i: int| if i < n { '[' } else { ']' })
}

/// `n` arrays, each holding the next; the innermost is empty.
pub open spec fn nested_arrays(n: nat) -> Tree
    decreases n,
{
    if n <= 1 {
        Tree::Array(seq![])
    } else {
        Tree::Array(seq![nested_arrays((n - 1) as nat)])
    }
}

proof fn lemma_brackets_from(n: nat, k: nat, d: nat, top: bool)
    requires
        k < n,
    ensures
        value(brackets(n), k as int, d, top) == (if d >= n - k {
            Ok((nested_arrays((n - k) as nat), 2 * n - k as int))
        } else {
            Err::<(Tree, int), Failure>(Failure::DepthExceeded)
        }),
    decreases n - k,
{
    let s = brackets(n);
    if d > 0 {
        assert(ws_len(s, k + 1 as int) == 0);
        assert(skip_ws(s, k + 1 as int) == k + 1);
        if k + 1 < n {
            lemma_brackets_from(n, k + 1, (d - 1) as nat, false);
            let e: int = 2 * n - k - 1;
            assert(ws_len(s, e) == 0);
            assert(skip_ws(s, e) == e);
            assert(items(s, k + 1 as int, (d - 1) as nat, seq![]) == (if d - 1 >= n - k - 1 {
                Ok((seq![nested_arrays((n - k - 1) as nat)], 2 * n - k as int))
            } else {
                Err::<(Seq<Tree>, int), Failure>(Failure::DepthExceeded)
            }));
        }
    }
}

/// Depth is counted exactly: `n` nested arrays parse with a budget of `n`
/// or more, and fail with `DepthExceeded` under a budget of `n - 1` or less.
pub proof fn law_depth_budget_is_exact(n: nat, d: nat, top: bool)
    requires
        n >= 1,
    ensures
        d >= n ==> value(brackets(n), 0, d, top) == Ok::<(Tree, int), Failure>(
            (nested_arrays(n), 2 * n as int),
        ),
        d < n ==> value(brackets(n), 0, d, top) == Err::<(Tree, int), Failure>(
            Failure::DepthExceeded,
        ),
{
    lemma_brackets_from(n, 0, d, top);
}

/// Looking two characters ahead for a raw string consumes nothing: a document
/// that starts with `r` not followed by `"` or `#` is read as a bareword from
/// its first character.
pub proof fn law_r_without_quote_is_a_bareword(s: Seq<char>, d: nat, top: bool)
    requires
        d > 0,
        s.len() > 0,
        s[0] == 'r',
        s.len() < 2 || (s[1] != '"' && s[1] != '#'),
    ensures
        value(s, 0, d, top) == bareword(s, 0, d, top),
{
}

/// Likewise for byte strings: a document that starts with `b` not followed
/// by `"` is read as a bareword from its first character.
pub proof fn law_b_without_quote_is_a_bareword(s: Seq<char>, d: nat, top: bool)
    requires
        d > 0,
        s.len() > 0,
        s[0] == 'b',
        s.len() < 2 || s[1] != '"',
    ensures
        value(s, 0, d, top) == bareword(s, 0, d, top),
{
}

proof fn lemma_key_index(m: Seq<(Seq<char>, Tree)>, k: Seq<char>, i: int)
    requires
        0 <= i <= m.len(),
    ensures
        i <= key_index(m, k, i) <= m.len(),
        key_index(m, k, i) < m.len() ==> m[key_index(m, k, i)].0 == k,
        forall|j: int| i <= j < key_index(m, k, i) ==> m[j].0 != k,
    decreases m.len() - i,
{
    if i < m.len() && m[i].0 != k {
        lemma_key_index(m, k, i + 1);
    }
}

/// Binding a key twice keeps the later value: after `insert`, `k` is bound
/// to `t`, every other key keeps its binding, and keys stay unique.
pub proof fn law_later_binding_wins(m: Seq<(Seq<char>, Tree)>, k: Seq<char>, t: Tree)
    requires
        keys_unique(m),
    ensures
        keys_unique(insert(m, k, t)),
        binds(insert(m, k, t), k, t),
        forall|k2: Seq<char>, t2: Tree|
            k2 != k ==> (binds(insert(m, k, t), k2, t2) <==> binds(m, k2, t2)),
{
    lemma_key_index(m, k, 0);
    let r = insert(m, k, t);
    let i = key_index(m, k, 0);
    if i < m.len() {
        assert(r[i] == (k, t));
    } else {
        assert(r[m.len() as int] == (k, t));
    }
    assert forall|k2: Seq<char>, t2: Tree| k2 != k implies (binds(r, k2, t2) <==> binds(
        m,
        k2,
        t2,
    )) by {
        if binds(r, k2, t2) {
            let j = choose|j: int| 0 <= j < r.len() && r[j] == (k2, t2);
            assert(m[j] == (k2, t2));
        }
        if binds(m, k2, t2) {
            let j = choose|j: int| 0 <= j < m.len() && m[j] == (k2, t2);
            assert(r[j] == (k2, t2));
        }
    }
}

/// Text that a quoted string holds verbatim: no `"` and no backslash.
pub open spec fn plain_text(c: Seq<char>) -> bool {
    forall|i: int| 0 <= i < c.len() ==> c[i] != '"' && c[i] != '\\'
}

/// A number of strict JSON's kind: a valid literal made of number characters.
pub open spec fn json_number(n: Seq<char>) -> bool {
    valid_number(n) && forall|i: int| 0 <= i < n.len() ==> is_number_char(n[i])
}

/// A tree that strict JSON can write, nested no deeper than `d`: no byte
/// strings, plain string texts and keys, unique keys.
pub open spec fn json_tree(t: Tree, d: nat) -> bool
    decreases d,
{
    if d == 0 {
        false
    } else {
        match t {
            Tree::Null => true,
            Tree::Bool(_) => true,
            Tree::Num(n) => json_number(n),
            Tree::Str(c) => plain_text(c),
            Tree::Array(a) => forall|i: int|
                0 <= i < a.len() ==> json_tree(#[trigger] a[i], (d - 1) as nat),
            Tree::Object(m) => keys_unique(m) && forall|i: int|
                0 <= i < m.len() ==> plain_text(#[trigger] m[i].0) && json_tree(
                    m[i].1,
                    (d - 1) as nat,
                ),
            Tree::Bytes(_) => false,
        }
    }
}

pub open spec fn quote(c: Seq<char>) -> Seq<char> {
    seq!['"'] + c + seq!['"']
}

/// The strict JSON text of a tree, without whitespace.
pub open spec fn json_text(t: Tree) -> Seq<char>
    decreases t,
{
    match t {
        Tree::Null => seq!['n', 'u', 'l', 'l'],
        Tree::Bool(b) => if b {
            seq!['t', 'r', 'u', 'e']
        } else {
            seq!['f', 'a', 'l', 's', 'e']
        },
        Tree::Num(n) => n,
        Tree::Str(c) => quote(c),
        Tree::Array(a) => seq!['['] + json_elements(a) + seq![']'],
        Tree::Object(m) => seq!['{'] + json_members(m) + seq!['}'],
        Tree::Bytes(_) => seq![],
    }
}

/// Array elements joined by commas.
pub open spec fn json_elements(a: Seq<Tree>) -> Seq<char>
    decreases a,
{
    if a.len() == 0 {
        seq![]
    } else if a.len() == 1 {
        json_text(a[0])
    } else {
        json_text(a[0]) + seq![','] + json_elements(a.drop_first())
    }
}

/// Object members joined by commas.
pub open spec fn json_members(m: Seq<(Seq<char>, Tree)>) -> Seq<char>
    decreases m,
{
    if m.len() == 0 {
        seq![]
    } else if m.len() == 1 {
        quote(m[0].0) + seq![':'] + json_text(m[0].1)
    } else {
        quote(m[0].0) + seq![':'] + json_text(m[0].1) + seq![','] + json_members(m.drop_first())
    }
}

spec fn holds_at(s: Seq<char>, p: int, x: Seq<char>) -> bool {
    0 <= p && p + x.len() <= s.len() && forall|i: int| 0 <= i < x.len() ==> s[p + i] == #[trigger] x[i]
}

/// Whether a value may end at `q`: the document ends, or a delimiter follows.
spec fn ends_value(s: Seq<char>, q: int) -> bool {
    q == s.len() || (0 <= q < s.len() && (s[q] == ',' || s[q] == ']' || s[q] == '}'))
}

proof fn lemma_at(s: Seq<char>, p: int, x: Seq<char>, i: int)
    requires
        holds_at(s, p, x),
        0 <= i < x.len(),
    ensures
        s[p + i] == x[i],
{
}

proof fn lemma_split(s: Seq<char>, p: int, x: Seq<char>, y: Seq<char>)
    requires
        holds_at(s, p, x + y),
    ensures
        holds_at(s, p, x),
        holds_at(s, p + x.len(), y),
{
    assert forall|i: int| 0 <= i < x.len() implies s[p + i] == #[trigger] x[i] by {
        assert((x + y)[i] == x[i]);
    }
    assert forall|i: int| 0 <= i < y.len() implies s[p + x.len() + i] == #[trigger] y[i] by {
        assert((x + y)[x.len() + i] == y[i]);
        assert(p + x.len() + i == p + (x.len() + i));
    }
}

proof fn lemma_ident_run(s: Seq<char>, p: int, n: int)
    requires
        0 <= p <= p + n <= s.len(),
        forall|i: int| p <= i < p + n ==> is_ident_char(#[trigger] s[i]),
        p + n == s.len() || !is_ident_char(s[p + n]),
    ensures
        ident_end(s, p) == p + n,
    decreases n,
{
    if n > 0 {
        lemma_ident_run(s, p + 1, n - 1);
    }
}

proof fn lemma_number_run(s: Seq<char>, p: int, n: int)
    requires
        0 <= p <= p + n <= s.len(),
        forall|i: int| p <= i < p + n ==> is_number_char(#[trigger] s[i]),
        p + n == s.len() || !is_number_char(s[p + n]),
    ensures
        number_end(s, p) == p + n,
    decreases n,
{
    if n > 0 {
        lemma_number_run(s, p + 1, n - 1);
    }
}

proof fn lemma_plain_run(s: Seq<char>, p: int, c: Seq<char>, acc: Seq<char>)
    requires
        holds_at(s, p, c + seq!['"']),
        plain_text(c),
    ensures
        quoted_from(s, p, acc) == Ok::<(Seq<char>, int), Failure>((acc + c, p + c.len() + 1)),
    decreases c.len(),
{
    assert((c + seq!['"'])[c.len() as int] == '"');
    if c.len() == 0 {
        assert(s[p + 0] == '"');
        assert(acc + c =~= acc);
    } else {
        assert((c + seq!['"'])[0] == c[0]);
        assert(s[p + 0] == c[0]);
        let rest = c.drop_first();
        assert(c + seq!['"'] =~= seq![c[0]] + (rest + seq!['"']));
        lemma_split(s, p, seq![c[0]], rest + seq!['"']);
        lemma_plain_run(s, p + 1, rest, acc.push(c[0]));
        assert(acc.push(c[0]) + rest =~= acc + c);
    }
}

proof fn lemma_number_start(n: Seq<char>)
    requires
        json_number(n),
    ensures
        n.len() > 0,
        is_number_start(n[0]),
{
    let a = after_sign(n, 0);
    let b = digits_end(n, a);
    if a == 0 && b > 0 {
        assert(is_digit(n[0]));
    }
}

proof fn lemma_text_start(t: Tree, d: nat)
    requires
        json_tree(t, d),
    ensures
        json_text(t).len() > 0,
        !is_ws(json_text(t)[0]),
        json_text(t)[0] != ']' && json_text(t)[0] != '}' && json_text(t)[0] != ',',
{
    if let Tree::Num(n) = t {
        lemma_number_start(n);
    }
}

proof fn lemma_keyword_run(s: Seq<char>, p: int, x: Seq<char>, d: nat, top: bool)
    requires
        holds_at(s, p, x),
        ends_value(s, p + x.len()),
        top ==> p + x.len() == s.len(),
        d > 0,
        x.len() > 0,
        forall|i: int| 0 <= i < x.len() ==> is_ident_char(#[trigger] x[i]),
    ensures
        bareword(s, p, d, top) == Ok::<(Tree, int), Failure>(
            (crate::grammar::keyword(x)->0, p + x.len()),
        ) || crate::grammar::keyword(x) is None,
        s.subrange(p, p + x.len()) == x,
        ident_end(s, p) == p + x.len(),
{
    assert forall|i: int| p <= i < p + x.len() implies is_ident_char(#[trigger] s[i]) by {
        assert(s[p + (i - p)] == x[i - p]);
    }
    lemma_ident_run(s, p, x.len() as int);
    assert(s.subrange(p, p + x.len()) =~= x);
    let e = p + x.len();
    assert(ws_len(s, e) == 0);
}

proof fn lemma_number_text(s: Seq<char>, p: int, n: Seq<char>, d: nat, top: bool)
    requires
        d > 0,
        json_number(n),
        holds_at(s, p, n),
        ends_value(s, p + n.len()),
    ensures
        value(s, p, d, top) == Ok::<(Tree, int), Failure>((Tree::Num(n), p + n.len())),
{
    let e = p + n.len();
    lemma_at(s, p, n, 0);
    lemma_number_start(n);
    assert forall|i: int| p <= i < p + n.len() implies is_number_char(
        #[trigger] s[i],
    ) by {
        assert(s[p + (i - p)] == n[i - p]);
    }
    lemma_number_run(s, p, n.len() as int);
    assert(s.subrange(p, e) =~= n);
}

proof fn lemma_string_text(s: Seq<char>, p: int, c: Seq<char>, d: nat, top: bool)
    requires
        d > 0,
        plain_text(c),
        holds_at(s, p, quote(c)),
        ends_value(s, p + c.len() + 2),
        top ==> p + c.len() + 2 == s.len(),
    ensures
        value(s, p, d, top) == Ok::<(Tree, int), Failure>((Tree::Str(c), p + c.len() + 2)),
{
    let x = quote(c);
    let e = p + x.len();
    let t = Tree::Str(c);
    lemma_at(s, p, x, 0);
    assert(x =~= seq!['"'] + (c + seq!['"']));
    lemma_split(s, p, seq!['"'], c + seq!['"']);
    lemma_plain_run(s, p + 1, c, seq![]);
    assert(seq![] + c =~= c);
    assert(ws_len(s, e) == 0);
    assert(quoted(s, p) == Ok::<(Seq<char>, int), Failure>((c, e)));
    assert(quoted_value(s, p, d, top) == Ok::<(Tree, int), Failure>((t, e)));
}

#[verifier::rlimit(100)]
proof fn lemma_value_text(s: Seq<char>, p: int, t: Tree, d: nat, top: bool)
    requires
        json_tree(t, d),
        holds_at(s, p, json_text(t)),
        ends_value(s, p + json_text(t).len()),
        top ==> p + json_text(t).len() == s.len(),
    ensures
        value(s, p, d, top) == Ok::<(Tree, int), Failure>((t, p + json_text(t).len())),
    decreases t,
{
    let x = json_text(t);
    let e = p + x.len();
    lemma_text_start(t, d);
    lemma_at(s, p, x, 0);
    match t {
        Tree::Null => {
            lemma_keyword_run(s, p, x, d, top);
        },
        Tree::Bool(b) => {
            lemma_keyword_run(s, p, x, d, top);
        },
        Tree::Num(n) => {
            lemma_number_text(s, p, n, d, top);
        },
        Tree::Str(c) => {
            lemma_string_text(s, p, c, d, top);
        },
        Tree::Array(a) => {
            assert(x =~= seq!['['] + (json_elements(a) + seq![']']));
            lemma_split(s, p, seq!['['], json_elements(a) + seq![']']);
            lemma_items_text(s, p + 1, a, (d - 1) as nat, seq![]);
            assert(seq![] + a =~= a);
        },
        Tree::Object(m) => {
            assert(x =~= seq!['{'] + (json_members(m) + seq!['}']));
            lemma_split(s, p, seq!['{'], json_members(m) + seq!['}']);
            assert(seq![] + m =~= m);
            lemma_members_text(s, p + 1, m, (d - 1) as nat, seq![]);
        },
        Tree::Bytes(_) => {},
    }
}

proof fn lemma_items_text(s: Seq<char>, p: int, a: Seq<Tree>, d: nat, acc: Seq<Tree>)
    requires
        forall|i: int| 0 <= i < a.len() ==> json_tree(#[trigger] a[i], d),
        holds_at(s, p, json_elements(a) + seq![']']),
    ensures
        items(s, p, d, acc) == Ok::<(Seq<Tree>, int), Failure>(
            (acc + a, p + json_elements(a).len() + 1),
        ),
    decreases a,
{
    let body = json_elements(a) + seq![']'];
    if a.len() == 0 {
        lemma_at(s, p, body, 0);
        assert(ws_len(s, p) == 0);
        assert(acc + a =~= acc);
    } else {
        let x = json_text(a[0]);
        lemma_text_start(a[0], d);
        let r = p + x.len();
        if a.len() == 1 {
            assert(body =~= x + seq![']']);
            lemma_split(s, p, x, seq![']']);
            lemma_at(s, r, seq![']'], 0);
            lemma_at(s, p, x, 0);
            assert(ws_len(s, p) == 0);
            lemma_value_text(s, p, a[0], d, false);
            assert(ws_len(s, r) == 0);
            assert(acc.push(a[0]) =~= acc + a);
        } else {
            let rest = a.drop_first();
            assert(body =~= x + (seq![','] + (json_elements(rest) + seq![']'])));
            lemma_split(s, p, x, seq![','] + (json_elements(rest) + seq![']']));
            lemma_split(s, r, seq![','], json_elements(rest) + seq![']']);
            lemma_at(s, r, seq![','], 0);
            lemma_at(s, p, x, 0);
            assert(ws_len(s, p) == 0);
            lemma_value_text(s, p, a[0], d, false);
            assert(ws_len(s, r) == 0);
            assert forall|i: int| 0 <= i < rest.len() implies json_tree(#[trigger] rest[i], d) by {
                assert(rest[i] == a[i + 1]);
            }
            lemma_items_text(s, r + 1, rest, d, acc.push(a[0]));
            assert(acc.push(a[0]) + rest =~= acc + a);
        }
    }
}

proof fn lemma_member_text(s: Seq<char>, p: int, k: Seq<char>, x: Seq<char>, tail: Seq<char>)
    requires
        holds_at(s, p, seq!['"'] + (k + seq!['"']) + (seq![':'] + (x + tail))),
        plain_text(k),
        x.len() > 0,
        !is_ws(x[0]),
        tail.len() > 0,
        tail[0] == '}' || tail[0] == ',',
    ensures
        ws_len(s, p) == 0,
        crate::grammar::key(s, p) == Ok::<(Seq<char>, int), Failure>((k, p + k.len() + 2)),
        ws_len(s, p + k.len() + 2) == 0,
        s[p + k.len() + 2] == ':',
        ws_len(s, p + k.len() + 3) == 0,
        holds_at(s, p + k.len() + 3, x),
        holds_at(s, p + k.len() + 3 + x.len(), tail),
        ends_value(s, p + k.len() + 3 + x.len()),
        ws_len(s, p + k.len() + 3 + x.len()) == 0,
{
    let q1 = p + k.len() + 2;
    let r = q1 + 1 + x.len();
    lemma_split(s, p, seq!['"'] + (k + seq!['"']), seq![':'] + (x + tail));
    lemma_split(s, p, seq!['"'], k + seq!['"']);
    lemma_split(s, q1, seq![':'], x + tail);
    lemma_split(s, q1 + 1, x, tail);
    lemma_at(s, p, seq!['"'], 0);
    lemma_plain_run(s, p + 1, k, seq![]);
    assert(seq![] + k =~= k);
    lemma_at(s, q1, seq![':'], 0);
    lemma_at(s, q1 + 1, x, 0);
    lemma_at(s, r, tail, 0);
}

spec fn members_ok(m: Seq<(Seq<char>, Tree)>, d: nat) -> bool {
    forall|i: int| 0 <= i < m.len() ==> plain_text(#[trigger] m[i].0) && json_tree(m[i].1, d)
}

#[verifier::rlimit(100)]
proof fn lemma_members_text(
    s: Seq<char>,
    p: int,
    m: Seq<(Seq<char>, Tree)>,
    d: nat,
    acc: Seq<(Seq<char>, Tree)>,
)
    requires
        members_ok(m, d),
        keys_unique(acc + m),
        holds_at(s, p, json_members(m) + seq!['}']),
    ensures
        members(s, p, d, acc) == Ok::<(Seq<(Seq<char>, Tree)>, int), Failure>(
            (acc + m, p + json_members(m).len() + 1),
        ),
    decreases m,
{
    let body = json_members(m) + seq!['}'];
    if m.len() == 0 {
        lemma_at(s, p, body, 0);
        assert(ws_len(s, p) == 0);
        assert(acc + m =~= acc);
    } else {
        let k = m[0].0;
        let v = m[0].1;
        let x = json_text(v);
        assert(plain_text(k) && json_tree(v, d));
        lemma_text_start(v, d);
        let q1 = p + k.len() + 2;
        let r = q1 + 1 + x.len();
        let tail = if m.len() == 1 {
            seq!['}']
        } else {
            seq![','] + (json_members(m.drop_first()) + seq!['}'])
        };
        assert(body =~= seq!['"'] + (k + seq!['"']) + (seq![':'] + (x + tail)));
        lemma_member_text(s, p, k, x, tail);
        lemma_value_text(s, q1 + 1, v, d, false);
        lemma_at(s, r, tail, 0);
        lemma_key_index(acc, k, 0);
        if key_index(acc, k, 0) < acc.len() {
            let j = key_index(acc, k, 0);
            assert((acc + m)[j].0 == (acc + m)[acc.len() as int].0);
        }
        assert(insert(acc, k, v) == acc.push((k, v)));
        if m.len() == 1 {
            assert(acc.push((k, v)) =~= acc + m);
            assert(r + 1 == p + json_members(m).len() + 1);
        } else {
            let rest = m.drop_first();
            lemma_split(s, r, seq![','], json_members(rest) + seq!['}']);
            assert(acc.push((k, v)) + rest =~= acc + m);
            assert(members_ok(rest, d)) by {
                assert forall|i: int| 0 <= i < rest.len() implies plain_text(
                    #[trigger] rest[i].0,
                ) && json_tree(rest[i].1, d) by {
                    assert(rest[i].0 == m[i + 1].0 && rest[i].1 == m[i + 1].1);
                }
            }
            assert(keys_unique(acc.push((k, v)) + rest));
            assert(holds_at(s, r + 1, json_members(rest) + seq!['}']));
            lemma_members_text(s, r + 1, rest, d, acc.push((k, v)));

        }
    }
}

/// Compact strict JSON reads as strict JSON does: the JSON text of any tree
/// that JSON can write, with no whitespace and with strings and keys that
/// need no escapes (`json_tree`), parses back to that tree, over the whole
/// text, with any budget that covers its nesting.
pub proof fn law_strict_json_round_trip(t: Tree, d: nat, top: bool)
    requires
        json_tree(t, d),
    ensures
        value(json_text(t), 0, d, top) == Ok::<(Tree, int), Failure>(
            (t, json_text(t).len() as int),
        ),
{
    let s = json_text(t);
    assert(holds_at(s, 0, s));
    lemma_value_text(s, 0, t, d, top);
}

} // verus!
