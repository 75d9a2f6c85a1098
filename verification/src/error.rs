//! The parse error type: returned by value from every machine, never thrown.
use vstd::prelude::*;

use crate::model::ErrorV;

verus! {

/// A parse failure: either the input ended too early, or the offending text.
#[derive(Clone, Debug, PartialEq)]
pub enum Error {
    UnexpectedEof,
    InvalidCharacter(String),
}

impl View for Error {
    type V = ErrorV;

    open spec fn view(&self) -> ErrorV {
        match self {
            Error::UnexpectedEof => ErrorV::Eof,
            Error::InvalidCharacter(t) => ErrorV::Invalid(t@),
        }
    }
}

} // verus!
