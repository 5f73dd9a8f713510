//! The library's error type.
use vstd::prelude::*;

verus! {

/// Errors of extraction. `Io` carries the message of the I/O error.
#[derive(Debug)]
pub enum SigocrError {
    NotFound(String),
    Io(String),
    Pdf(String),
    Other(String),
}

/// The message an error displays.
pub open spec fn error_message(e: SigocrError) -> Seq<char> {
    match e {
        SigocrError::NotFound(p) => "ENOENT: "@ + p@,
        SigocrError::Io(m) => m@,
        SigocrError::Pdf(m) => "PDF error: "@ + m@,
        SigocrError::Other(m) => m@,
    }
}

impl SigocrError {
    /// The error's message: `ENOENT: <path>`, `PDF error: <message>`, or
    /// the message itself.
    pub fn message(&self) -> (s: String)
        ensures
            s@ == error_message(*self),
    {
        match self {
            SigocrError::NotFound(p) => {
                let mut s = String::from_str("ENOENT: ");
                s.append(p.as_str());
                s
            },
            SigocrError::Io(m) => m.clone(),
            SigocrError::Pdf(m) => {
                let mut s = String::from_str("PDF error: ");
                s.append(m.as_str());
                s
            },
            SigocrError::Other(m) => m.clone(),
        }
    }
}

} // verus!
