//! The one error type of the library.

use vstd::prelude::*;

use crate::text::owned;

verus! {

/// Why an operation could not be carried out.
#[derive(Debug, Clone, PartialEq, Eq)]
pub enum StudioError {
    /// An outside program, file or service failed, with what it said.
    External { cmd: String, detail: String },
    /// A file is not what it was taken for.
    ParseFailed { file: String, line: Option<usize>, hint: String },
    /// A change was written and did not pass its check.
    VerifyFailed { rolled_back: bool },
}

/// What an error says.
pub enum Failure {
    External { cmd: Seq<char>, detail: Seq<char> },
    ParseFailed { file: Seq<char>, line: Option<usize>, hint: Seq<char> },
    VerifyFailed { rolled_back: bool },
}

impl View for StudioError {
    type V = Failure;

    open spec fn view(&self) -> Failure {
        match self {
            StudioError::External { cmd, detail } => Failure::External {
                cmd: cmd@,
                detail: detail@,
            },
            StudioError::ParseFailed { file, line, hint } => Failure::ParseFailed {
                file: file@,
                line: *line,
                hint: hint@,
            },
            StudioError::VerifyFailed { rolled_back } => Failure::VerifyFailed {
                rolled_back: *rolled_back,
            },
        }
    }
}

pub fn external(cmd: &str, detail: &str) -> (r: StudioError)
    ensures
        r@ == (Failure::External { cmd: cmd@, detail: detail@ }),
{
    StudioError::External { cmd: owned(cmd), detail: owned(detail) }
}

pub fn parse_failed(file: &str, hint: &str) -> (r: StudioError)
    ensures
        r@ == (Failure::ParseFailed { file: file@, line: None, hint: hint@ }),
{
    StudioError::ParseFailed { file: owned(file), line: None, hint: owned(hint) }
}

} // verus!
