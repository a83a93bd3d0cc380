use vstd::prelude::*;
use vstd::std_specs::iter::IteratorSpec;

verus! {

/// The character at `p` in `s`, if there is one.
pub open spec fn char_at(s: Seq<char>, p: int) -> Option<char> {
    if 0 <= p < s.len() {
        Some(s[p])
    } else {
        None
    }
}

/// Relies on `String::push`: appends one character.
#[verifier::external_body]
pub(crate) fn push_char(s: &mut String, c: char)
    ensures
        final(s)@ == old(s)@.push(c),
{
    s.push(c)
}

/// A forward-only reader over the characters of a document, with one and
/// two characters of lookahead.
pub struct PeekReader {
    chars: Vec<char>,
    pos: usize,
}

impl PeekReader {
    /// The whole document.
    pub closed spec fn input(&self) -> Seq<char> {
        self.chars@
    }

    /// How many characters have been consumed.
    pub closed spec fn position(&self) -> int {
        self.pos as int
    }

    pub closed spec fn wf(&self) -> bool {
        self.pos <= self.chars.len()
    }

    pub broadcast proof fn lemma_wf(&self)
        requires
            #[trigger] self.wf(),
        ensures
            0 <= self.position() <= self.input().len(),
            self.input().len() <= usize::MAX,
    {
    }

    /// A reader at the start of `text`.
    pub fn new(text: &str) -> (r: PeekReader)
        ensures
            r.wf(),
            r.input() == text@,
            r.position() == 0,
    {
        let mut chars: Vec<char> = Vec::new();
        let mut it = text.chars();
        proof {
            broadcast use vstd::string::axiom_spec_iter;
        }
        loop
            invariant
                chars@ + it.remaining() == text@,
                it.decrease() is Some,
            ensures
                chars@ == text@,
            decreases it.decrease()->0,
        {
            let ghost before = it.remaining();
            match it.next() {
                Some(c) => {
                    proof {
                        broadcast use vstd::string::next_postcondition;
                    }
                    assert(it.remaining() == before.drop_first());
                    chars.push(c);
                    assert(chars@ + it.remaining() == text@) by {
                        assert(before == seq![c] + before.drop_first());
                    }
                },
                None => {
                    proof {
                        broadcast use vstd::string::next_postcondition;
                    }
                    assert(chars@ == text@);
                    break;
                },
            }
        }
        PeekReader { chars, pos: 0 }
    }

    /// The next character, not consumed.
    pub fn peek(&self) -> (r: Option<char>)
        requires
            self.wf(),
        ensures
            r == char_at(self.input(), self.position()),
    {
        if self.pos < self.chars.len() {
            Some(self.chars[self.pos])
        } else {
            None
        }
    }

    /// The next two characters, not consumed; `None` when fewer remain.
    pub fn peek2(&self) -> (r: Option<(char, char)>)
        requires
            self.wf(),
        ensures
            r == (if self.position() + 2 <= self.input().len() {
                Some((self.input()[self.position()], self.input()[self.position() + 1]))
            } else {
                None::<(char, char)>
            }),
    {
        if self.chars.len() - self.pos >= 2 {
            Some((self.chars[self.pos], self.chars[self.pos + 1]))
        } else {
            None
        }
    }

    /// How many characters are left.
    pub fn remaining(&self) -> (r: usize)
        requires
            self.wf(),
        ensures
            r == self.input().len() - self.position(),
    {
        self.chars.len() - self.pos
    }

    /// The character `k` places ahead, not consumed.
    pub fn peek_at(&self, k: usize) -> (r: Option<char>)
        requires
            self.wf(),
        ensures
            r == char_at(self.input(), self.position() + k),
    {
        if k < self.chars.len() - self.pos {
            Some(self.chars[self.pos + k])
        } else {
            None
        }
    }

    /// How many characters have been consumed.
    pub fn offset(&self) -> (r: usize)
        ensures
            r == self.position(),
    {
        self.pos
    }

    /// The text of the document from `from` up to `to`.
    pub fn text_between(&self, from: usize, to: usize) -> (r: String)
        requires
            self.wf(),
            from <= to <= self.input().len(),
        ensures
            r@ == self.input().subrange(from as int, to as int),
    {
        let mut r = String::new();
        let mut i = from;
        while i < to
            invariant
                from <= i <= to <= self.chars.len(),
                r@ == self.chars@.subrange(from as int, i as int),
            decreases to - i,
        {
            push_char(&mut r, self.chars[i]);
            i = i + 1;
            assert(r@ =~= self.chars@.subrange(from as int, i as int));
        }
        r
    }

    /// Consumes one character.
    pub fn advance(&mut self)
        requires
            old(self).wf(),
            old(self).position() < old(self).input().len(),
        ensures
            final(self).wf(),
            final(self).input() == old(self).input(),
            final(self).position() == old(self).position() + 1,
    {
        self.pos = self.pos + 1;
    }
}

} // verus!
