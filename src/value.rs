use vstd::prelude::*;

verus! {

/// Why a parse failed.
#[derive(Debug, Clone, PartialEq, Eq)]
pub enum ParseError {
    /// The nesting budget ran out.
    DepthExceeded,
    /// The document ended where more was required.
    UnexpectedEnd,
    /// A token, keyword, escape or character that the grammar does not
    /// allow; it holds that text.
    MalformedValue(String),
}

/// The mathematical form of a `ParseError`.
pub enum Failure {
    DepthExceeded,
    UnexpectedEnd,
    MalformedValue(Seq<char>),
}

impl ParseError {
    pub open spec fn view(&self) -> Failure {
        match self {
            ParseError::DepthExceeded => Failure::DepthExceeded,
            ParseError::UnexpectedEnd => Failure::UnexpectedEnd,
            ParseError::MalformedValue(t) => Failure::MalformedValue(t@),
        }
    }

}

/// A numeric literal, kept as the text that was read. The text is a valid
/// decimal float literal (see `valid_number`).
#[derive(Debug, PartialEq)]
pub struct Number {
    text: String,
}

/// A parsed document.
#[derive(Debug, PartialEq)]
pub enum Value {
    /// Members in order of first appearance; keys are unique.
    Object(Vec<(String, Value)>),
    Array(Vec<Value>),
    String(String),
    ByteString(Vec<u8>),
    Number(Number),
    Bool(bool),
    Null,
}

/// The mathematical form of a `Value`.
pub enum Tree {
    Object(Seq<(Seq<char>, Tree)>),
    Array(Seq<Tree>),
    Str(Seq<char>),
    Bytes(Seq<u8>),
    Num(Seq<char>),
    Bool(bool),
    Null,
}

impl Number {
    pub closed spec fn view(&self) -> Seq<char> {
        self.text@
    }

    pub(crate) fn from_text(text: String) -> (r: Number)
        ensures
            r@ == text@,
    {
        Number { text }
    }

    /// The literal as it was written, e.g. `"-1.5e3"`.
    pub fn as_str(&self) -> (r: &str)
        ensures
            r@ == self@,
    {
        self.text.as_str()
    }
}

impl Value {
    /// The tree that this value stands for.
    pub open spec fn tree(self) -> Tree
        decreases self,
    {
        match self {
            Value::Object(m) => Tree::Object(entry_trees(m@)),
            Value::Array(a) => Tree::Array(value_trees(a@)),
            Value::String(s) => Tree::Str(s@),
            Value::ByteString(b) => Tree::Bytes(b@),
            Value::Number(n) => Tree::Num(n@),
            Value::Bool(b) => Tree::Bool(b),
            Value::Null => Tree::Null,
        }
    }
}

pub open spec fn value_trees(s: Seq<Value>) -> Seq<Tree>
    decreases s,
{
    if s.len() == 0 {
        seq![]
    } else {
        value_trees(s.drop_last()).push(s.last().tree())
    }
}

pub open spec fn entry_trees(s: Seq<(String, Value)>) -> Seq<(Seq<char>, Tree)>
    decreases s,
{
    if s.len() == 0 {
        seq![]
    } else {
        entry_trees(s.drop_last()).push((s.last().0@, s.last().1.tree()))
    }
}

pub proof fn lemma_entry_trees(s: Seq<(String, Value)>)
    ensures
        entry_trees(s).len() == s.len(),
        forall|j: int|
            0 <= j < s.len() ==> #[trigger] entry_trees(s)[j] == (s[j].0@, s[j].1.tree()),
    decreases s.len(),
{
    if s.len() > 0 {
        lemma_entry_trees(s.drop_last());
    }
}

} // verus!
