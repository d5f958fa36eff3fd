use vstd::prelude::*;
use vstd::string::StringExecFns;

use crate::position::Location;
use crate::text::{decimal, push_decimal, push_text};

verus! {

/// Why lexing stopped.
#[derive(Debug, Clone, PartialEq, Eq)]
pub enum LexError {
    /// No token class starts at `loc`; `after` is the value of the last token read, if any.
    Unmatched { loc: Location, after: Option<String> },
    /// A string literal opened at `loc` is never closed.
    Unterminated { loc: Location },
}

/// What a lexing error holds, as values.
pub enum Failure {
    Unmatched { loc: Location, after: Option<Seq<char>> },
    Unterminated { loc: Location },
}

impl View for LexError {
    type V = Failure;

    open spec fn view(&self) -> Failure {
        match self {
            LexError::Unmatched { loc, after } => Failure::Unmatched {
                loc: *loc,
                after: match after {
                    Some(v) => Some(v@),
                    None => None,
                },
            },
            LexError::Unterminated { loc } => Failure::Unterminated { loc: *loc },
        }
    }
}

/// `line:col`.
pub open spec fn position_text(loc: Location) -> Seq<char> {
    decimal(loc.line as nat) + ":"@ + decimal(loc.col as nat)
}

/// The human-readable message of an error.
pub open spec fn failure_message(f: Failure) -> Seq<char> {
    match f {
        Failure::Unmatched { loc, after } => match after {
            Some(v) => "Unable to lex token after "@ + v + " at "@ + position_text(loc),
            None => "Unable to lex token at "@ + position_text(loc),
        },
        Failure::Unterminated { loc } => "Unterminated string literal at "@ + position_text(loc),
    }
}

impl LexError {
    /// The location the error points at.
    pub fn location(&self) -> (r: Location)
        ensures
            r == match self@ {
                Failure::Unmatched { loc, .. } => loc,
                Failure::Unterminated { loc } => loc,
            },
    {
        match self {
            LexError::Unmatched { loc, .. } => *loc,
            LexError::Unterminated { loc } => *loc,
        }
    }

    /// A message that names the position and, where there is one, the last token read.
    pub fn message(&self) -> (r: String)
        ensures
            r@ == failure_message(self@),
    {
        let (mut s, loc) = match self {
            LexError::Unmatched { loc, after } => {
                let mut s = String::from_str("Unable to lex token");
                match after {
                    Some(v) => {
                        s.append(" after ");
                        push_text(&mut s, v);
                    },
                    None => {},
                }
                s.append(" at ");
                (s, *loc)
            },
            LexError::Unterminated { loc } => (String::from_str("Unterminated string literal at "), *loc),
        };
        push_decimal(&mut s, loc.line);
        s.append(":");
        push_decimal(&mut s, loc.col);
        proof {
            reveal_strlit("Unable to lex token");
            reveal_strlit(" after ");
            reveal_strlit(" at ");
            reveal_strlit("Unable to lex token after ");
            reveal_strlit("Unable to lex token at ");
        }
        assert(s@ =~= failure_message(self@));
        s
    }
}

} // verus!
