//! Errors of the viewer library.

use vstd::prelude::*;

use crate::text::{decimal, push_decimal};

verus! {

/// Errors surfaced by the viewer library.
#[derive(Debug, Clone, Copy, PartialEq, Eq)]
pub enum Error {
    /// The document contains no pages.
    EmptyDocument,
    /// A requested page index is outside `0..page_count`.
    PageOutOfRange { index: usize, count: usize },
}

/// The message that describes `e`.
pub open spec fn error_message(e: Error) -> Seq<char> {
    match e {
        Error::EmptyDocument => "document contains no pages"@,
        Error::PageOutOfRange { index, count } => "page "@ + decimal(index as nat)
            + " out of range (document has "@ + decimal(count as nat) + " pages)"@,
    }
}

impl Error {
    /// The message that describes the error.
    pub fn message(&self) -> (m: String)
        ensures
            m@ == error_message(*self),
    {
        match self {
            Error::EmptyDocument => String::from_str("document contains no pages"),
            Error::PageOutOfRange { index, count } => {
                let mut m = String::from_str("page ");
                push_decimal(&mut m, *index);
                m.append(" out of range (document has ");
                push_decimal(&mut m, *count);
                m.append(" pages)");
                m
            },
        }
    }
}

} // verus!
