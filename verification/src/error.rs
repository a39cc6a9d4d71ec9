//! The ways in which a traversal fails.

use vstd::prelude::*;

verus! {

/// Why a traversal was abandoned. No partial result comes with it.
#[derive(Debug, PartialEq, Eq)]
pub enum Error {
    /// The operating system refused to list a directory or to read an
    /// entry's metadata; the payload is its message.
    Io(String),
    /// More regular files were met than the budget allows.
    BudgetExceeded,
    /// An entry is neither a regular file nor a directory.
    UnsupportedEntry,
}

/// The mathematical value of an `Error`.
pub enum ErrorView {
    Io(Seq<char>),
    BudgetExceeded,
    UnsupportedEntry,
}

impl View for Error {
    type V = ErrorView;

    open spec fn view(&self) -> ErrorView {
        match self {
            Error::Io(message) => ErrorView::Io(message@),
            Error::BudgetExceeded => ErrorView::BudgetExceeded,
            Error::UnsupportedEntry => ErrorView::UnsupportedEntry,
        }
    }
}

impl ErrorView {
    /// The text by which the error is shown to a user.
    pub open spec fn message(self) -> Seq<char> {
        match self {
            ErrorView::Io(message) => message,
            ErrorView::BudgetExceeded => "MAX_LIMIT"@,
            ErrorView::UnsupportedEntry => "Target is not a File or Dir"@,
        }
    }
}

impl Error {
    /// The text by which the error is shown to a user.
    pub fn message(&self) -> (text: String)
        ensures
            text@ == self@.message(),
    {
        match self {
            Error::Io(message) => message.clone(),
            Error::BudgetExceeded => "MAX_LIMIT".to_owned(),
            Error::UnsupportedEntry => "Target is not a File or Dir".to_owned(),
        }
    }
}

} // verus!
