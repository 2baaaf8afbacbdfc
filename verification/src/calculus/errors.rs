//! What the parser reports when a text is no term.

use vstd::prelude::*;
use vstd::string::StringExecFns;

verus! {

/// A text that is no term, with the reason in words.
#[derive(Debug)]
pub enum ParseError {
    /// The error message.
    Msg(String),
}

impl View for ParseError {
    type V = Seq<char>;

    open spec fn view(&self) -> Seq<char> {
        match self {
            ParseError::Msg(msg) => msg@,
        }
    }
}

impl ParseError {
    /// The error as a line of text: the message after the words
    /// `Parse Error: `.
    pub fn to_string(&self) -> (r: String)
        ensures
            r@ == "Parse Error: "@ + self@,
    {
        match self {
            ParseError::Msg(msg) => {
                let mut s = String::from_str("Parse Error: ");
                s.append(msg.as_str());
                s
            },
        }
    }
}

} // verus!
