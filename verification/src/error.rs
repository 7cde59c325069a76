//! The error type shared by every phase of the pipeline.

use vstd::prelude::*;
use vstd::string::*;
use crate::policy::syntax::{SyntaxError, SyntaxErrorView};
use crate::text::{char_string, decimal, decimal_string, hex, hex_string};

verus! {

/// Error type for simplicity
#[derive(Debug)]
pub enum Error {
    /// Unable to unify types in a DAG
    TypeCheck,
    /// A recursive type was inferred, violating the "occurs check" of the
    /// type inference engine
    OccursCheck,
    /// Node made a back-reference past the beginning of the program
    BadIndex,
    /// Number exceeded 32 bits
    NaturalOverflow,
    /// Non-'case' nodes may not have hidden children
    NonCaseHiddenChild,
    /// 'case' nodes may have at most one hidden child
    CaseMultipleHiddenChildren,
    /// Bitstream ended early
    EndOfStream,
    /// Program must not be empty
    EmptyProgram,
    /// Tried to allocate too many nodes in a program
    TooManyNodes(usize),
    /// Unrecognized node
    ParseError(&'static str),
    /// Program is not in canonical order
    NotInCanonicalOrder,
    /// Witness has different length than defined in its preamble
    InconsistentWitnessLength,
    /// Program does not have maximal sharing
    SharingNotMaximal,
    /// Miniscript Error
    MiniscriptError(SyntaxError),
}

impl From<SyntaxError> for Error {
    fn from(e: SyntaxError) -> (r: Error) {
        Error::MiniscriptError(e)
    }
}

impl vstd::std_specs::convert::FromSpecImpl<SyntaxError> for Error {
    open spec fn obeys_from_spec() -> bool {
        true
    }

    open spec fn from_spec(e: SyntaxError) -> Error {
        Error::MiniscriptError(e)
    }
}

/// The text that describes a failure of the policy layer.
pub open spec fn syntax_message(e: SyntaxErrorView) -> Seq<char> {
    match e {
        SyntaxErrorView::Unprintable(x) => "unprintable character 0x"@ + hex(seq![x]),
        SyntaxErrorView::ExpectedChar(c) => "expected "@ + seq![c],
        SyntaxErrorView::Unexpected(s) => "unexpected «"@ + s + "»"@,
        SyntaxErrorView::MaxRecursiveDepthExceeded => "Recursive depth over 402 not permitted"@,
        SyntaxErrorView::NonBinaryArgAnd => "And policy fragment must take 2 arguments"@,
        SyntaxErrorView::NonBinaryArgOr => "Or policy fragment must take 2 arguments"@,
        SyntaxErrorView::Other(s) => s,
    }
}

impl SyntaxError {
    /// Describes the failure in words.
    pub fn message(&self) -> (r: String)
        ensures
            r@ == syntax_message(self@),
    {
        match self {
            SyntaxError::Unprintable(x) => {
                let mut s = String::from_str("unprintable character 0x");
                let mut b: Vec<u8> = Vec::new();
                b.push(*x);
                assert(b@ =~= seq![*x]);
                let d = hex_string(b.as_slice());
                s.append(d.as_str());
                s
            },
            SyntaxError::ExpectedChar(c) => {
                let mut s = String::from_str("expected ");
                let d = char_string(*c);
                s.append(d.as_str());
                s
            },
            SyntaxError::Unexpected(t) => {
                let mut s = String::from_str("unexpected «");
                s.append(t.as_str());
                s.append("»");
                s
            },
            SyntaxError::MaxRecursiveDepthExceeded => String::from_str(
                "Recursive depth over 402 not permitted",
            ),
            SyntaxError::NonBinaryArgAnd => String::from_str(
                "And policy fragment must take 2 arguments",
            ),
            SyntaxError::NonBinaryArgOr => String::from_str(
                "Or policy fragment must take 2 arguments",
            ),
            SyntaxError::Other(t) => t.clone(),
        }
    }
}

impl Error {
    /// The text that describes the error.
    pub open spec fn message_spec(&self) -> Seq<char> {
        match self {
            Error::TypeCheck => "Unable to unify types in a DAG"@,
            Error::OccursCheck => "A recursive type was inferred, violating the of the type inference engine"@,
            Error::BadIndex => "Node made a back-reference past the beginning of the program"@,
            Error::NaturalOverflow => "Number exceeded 32 bits"@,
            Error::NonCaseHiddenChild => "Non-'case' nodes may not have hidden children"@,
            Error::CaseMultipleHiddenChildren => "'case' nodes may have at most one hidden child"@,
            Error::EndOfStream => "Bitstream ended early"@,
            Error::EmptyProgram => "Program must not be empty"@,
            Error::TooManyNodes(k) => "Tried to allocate too many nodes in a program: "@ + decimal(
                *k as nat,
            ),
            Error::ParseError(s) => "Unrecognized node "@ + s@,
            Error::NotInCanonicalOrder => "Program is not in canonical order"@,
            Error::InconsistentWitnessLength => "Witness has different length than defined in its preamble"@,
            Error::SharingNotMaximal => "Decoded programs must have maximal sharing"@,
            Error::MiniscriptError(e) => syntax_message(e@),
        }
    }

    /// Describes the error in words.
    pub fn message(&self) -> (r: String)
        ensures
            r@ == self.message_spec(),
    {
        match self {
            Error::TypeCheck => String::from_str("Unable to unify types in a DAG"),
            Error::OccursCheck => String::from_str(
                "A recursive type was inferred, violating the of the type inference engine",
            ),
            Error::BadIndex => String::from_str(
                "Node made a back-reference past the beginning of the program",
            ),
            Error::NaturalOverflow => String::from_str("Number exceeded 32 bits"),
            Error::NonCaseHiddenChild => String::from_str(
                "Non-'case' nodes may not have hidden children",
            ),
            Error::CaseMultipleHiddenChildren => String::from_str(
                "'case' nodes may have at most one hidden child",
            ),
            Error::EndOfStream => String::from_str("Bitstream ended early"),
            Error::EmptyProgram => String::from_str("Program must not be empty"),
            Error::TooManyNodes(k) => {
                let mut s = String::from_str("Tried to allocate too many nodes in a program: ");
                let d = decimal_string(*k as u64);
                s.append(d.as_str());
                s
            },
            Error::ParseError(t) => {
                let mut s = String::from_str("Unrecognized node ");
                s.append(t);
                s
            },
            Error::NotInCanonicalOrder => String::from_str("Program is not in canonical order"),
            Error::InconsistentWitnessLength => String::from_str(
                "Witness has different length than defined in its preamble",
            ),
            Error::SharingNotMaximal => String::from_str(
                "Decoded programs must have maximal sharing",
            ),
            Error::MiniscriptError(e) => e.message(),
        }
    }
}

} // verus!
