//! The syntax that the library reads: token trees and attributes, as plain values.
use vstd::prelude::*;
use vstd::string::StrSliceExecFns;

verus! {

/// The delimiter of a group of tokens.
#[derive(Clone, Copy, Debug, PartialEq, Eq, Structural)]
pub enum Delimiter {
    Parenthesis,
    Bracket,
    Brace,
    Invisible,
}

/// One token tree. A group is kept as its delimiter and the text of what it encloses:
/// the argument parser never looks inside a group, it only carries it as a value.
#[derive(Debug)]
pub enum Token {
    Ident(String),
    /// A punctuation character, and whether it is joined to the punctuation that
    /// follows it (as the first `:` of `::`).
    Punct(char, bool),
    Literal(String),
    Group(Delimiter, String),
}

impl Token {
    /// A copy equal to this token.
    pub fn duplicate(&self) -> (r: Token)
        ensures
            r == *self,
    {
        match self {
            Token::Ident(s) => Token::Ident(s.clone()),
            Token::Punct(c, joint) => Token::Punct(*c, *joint),
            Token::Literal(s) => Token::Literal(s.clone()),
            Token::Group(d, s) => Token::Group(*d, s.clone()),
        }
    }
}

/// Whether `t` is the punctuation character `c`, joined to what follows or not.
pub open spec fn is_punct(t: Token, c: char) -> bool {
    t matches Token::Punct(p, _) && p == c
}

/// One attribute attached to a declaration.
///
/// `name` is the attribute's path when that path is a single identifier, and `None`
/// otherwise. When the attribute's input is exactly one delimited group, `delimiter`
/// is that group's delimiter and `tokens` are the tokens it encloses; otherwise
/// `delimiter` is `None` and `tokens` are the input as it stands.
#[derive(Debug)]
pub struct Attribute {
    pub name: Option<String>,
    pub delimiter: Option<Delimiter>,
    pub tokens: Vec<Token>,
}

/// Whether the attribute's path is the single identifier `name`.
pub open spec fn attr_named(a: Attribute, name: Seq<char>) -> bool {
    a.name matches Some(n) && n@ == name
}

/// Compares the characters of `s` with those of `lit`.
pub fn text_is(s: &String, lit: &str) -> (r: bool)
    ensures
        r == (s@ == lit@),
{
    let a = s.as_str();
    let n = a.unicode_len();
    if n != lit.unicode_len() {
        return false;
    }
    let mut i: usize = 0;
    while i < n
        invariant
            a@ == s@,
            n == s@.len(),
            n == lit@.len(),
            i <= n,
            forall|j: int| 0 <= j < i ==> s@[j] == lit@[j],
        decreases n - i,
    {
        if a.get_char(i) != lit.get_char(i) {
            return false;
        }
        i = i + 1;
    }
    assert(s@ =~= lit@);
    true
}

/// Whether the attribute's path is the single identifier `name`.
pub fn has_name(a: &Attribute, name: &String) -> (r: bool)
    ensures
        r == attr_named(*a, name@),
{
    match &a.name {
        Some(n) => *n == *name,
        None => false,
    }
}

} // verus!
