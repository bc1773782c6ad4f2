use vstd::prelude::*;

verus! {

/// Why a parser did not produce a token.
#[derive(Debug, Clone, Copy, PartialEq, Eq, Structural)]
pub enum ParseError {
    /// The buffer is a prefix of a possible match: more bytes are needed.
    Incomplete,
    /// No continuation of the buffer can match the rule; the offset is
    /// that of the byte at which the rule was found violated.
    Invalid(usize),
}

/// `String = Atom / Quoted-string`, with the alternative that matched.
#[derive(Debug, Clone, PartialEq, Eq)]
pub enum AtomOrQuoted {
    Atom(String),
    Quoted(String),
}

} // verus!
