//! The error taxonomy of the pipeline, and the text each error shows.

use vstd::prelude::*;
use vstd::string::StringExecFns;

verus! {

/// Mathematical model of an [`Error`]: the payload strings as character
/// sequences.
pub enum ErrorModel {
    CharacterError(char),
    TokenError(char),
    SyntaxError(Seq<char>, Seq<char>),
}

/// A fatal failure of the pipeline. The first failure halts the run; no
/// stage continues past one.
///
/// - `CharacterError(c)`: `c` lies outside the reserved lexical set.
/// - `TokenError(c)`: `c` is reserved but stands where no token rule
///   permits it.
/// - `SyntaxError(expected, found)`: the parser needed the grammar slot
///   described by `expected` but the current token displayed as `found`.
#[derive(Debug, PartialEq)]
pub enum Error {
    CharacterError(char),
    TokenError(char),
    SyntaxError(&'static str, String),
}

impl View for Error {
    type V = ErrorModel;

    open spec fn view(&self) -> ErrorModel {
        match self {
            Error::CharacterError(c) => ErrorModel::CharacterError(*c),
            Error::TokenError(c) => ErrorModel::TokenError(*c),
            Error::SyntaxError(expected, found) => ErrorModel::SyntaxError(expected@, found@),
        }
    }
}

/// The full message text an error displays, at the model level.
pub open spec fn spec_message(e: ErrorModel) -> Seq<char> {
    match e {
        ErrorModel::CharacterError(c) => "CharacterError: I found an unknown character '"@
            + seq![c] + "'."@,
        ErrorModel::TokenError(c) => "TokenError: I found an unsuitable character '"@ + seq![c]
            + "'."@,
        ErrorModel::SyntaxError(expected, found) => "SyntaxError: I was expecting "@ + expected
            + ", but found "@ + found + " before it."@,
    }
}

/// Relies on std's `String::push`: appends the given character to the end
/// of the string.
#[verifier::external_body]
pub(crate) fn push_char(s: &mut String, c: char) -> (r: ())
    ensures
        final(s)@ == old(s)@.push(c),
{
    s.push(c)
}

impl Error {
    /// The human-readable description of this error, exactly as the
    /// pipeline reports it.
    pub fn message(&self) -> (out: String)
        ensures
            out@ == spec_message(self@),
    {
        match self {
            Error::CharacterError(c) => {
                let mut out = String::from_str("CharacterError: I found an unknown character '");
                push_char(&mut out, *c);
                out.append("'.");
                proof {
                    assert(out@ == "CharacterError: I found an unknown character '"@ + seq![*c]
                        + "'."@) by {
                        assert(out@ =~= "CharacterError: I found an unknown character '"@
                            + seq![*c] + "'."@);
                    }
                }
                out
            },
            Error::TokenError(c) => {
                let mut out = String::from_str("TokenError: I found an unsuitable character '");
                push_char(&mut out, *c);
                out.append("'.");
                proof {
                    assert(out@ == "TokenError: I found an unsuitable character '"@ + seq![*c]
                        + "'."@) by {
                        assert(out@ =~= "TokenError: I found an unsuitable character '"@
                            + seq![*c] + "'."@);
                    }
                }
                out
            },
            Error::SyntaxError(expected, found) => {
                let mut out = String::from_str("SyntaxError: I was expecting ");
                out.append(expected);
                out.append(", but found ");
                out.append(found.as_str());
                out.append(" before it.");
                out
            },
        }
    }
}

} // verus!
