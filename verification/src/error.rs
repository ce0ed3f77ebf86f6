//! Error types of the library.
use vstd::prelude::*;

verus! {

/// What an error of the library says: its kind and its message.
pub enum ErrorModel {
    Forbidden(Seq<char>),
    Syntax(Seq<char>),
}

/// The text that an error is shown as: its kind, a colon and its message.
pub open spec fn error_text(e: ErrorModel) -> Seq<char> {
    match e {
        ErrorModel::Forbidden(m) => "forbidden: "@ + m,
        ErrorModel::Syntax(m) => "syntax error: "@ + m,
    }
}

/// The crate-wide error type.
#[derive(Debug, Clone, PartialEq)]
pub enum SyonError {
    /// A YAML construct that SYON explicitly forbids.
    Forbidden(String),
    /// A low-level syntax / parse error.
    Syntax(String),
}

impl View for SyonError {
    type V = ErrorModel;

    open spec fn view(&self) -> ErrorModel {
        match self {
            SyonError::Forbidden(m) => ErrorModel::Forbidden(m@),
            SyonError::Syntax(m) => ErrorModel::Syntax(m@),
        }
    }
}

impl SyonError {
    /// The text of the error: `forbidden: <msg>` or `syntax error: <msg>`.
    pub fn to_string(&self) -> (r: String)
        ensures
            r@ == error_text(self@),
    {
        match self {
            SyonError::Forbidden(m) => {
                let mut s = String::from_str("forbidden: ");
                s.append(m.as_str());
                s
            },
            SyonError::Syntax(m) => {
                let mut s = String::from_str("syntax error: ");
                s.append(m.as_str());
                s
            },
        }
    }
}

} // verus!
