//! Errors produced by sutures operations.
use vstd::prelude::*;

verus! {

/// Errors produced by sutures operations.
///
/// Reading a manifest (`Parse`), compiling a suture set (`Suture`), and the
/// four directions of use each have their own kind; the text says what went
/// wrong.
#[derive(Debug)]
pub enum Error {
    Parse(String),
    Suture(String),
    Stitch(String),
    Unstitch(String),
    Knit(String),
    Unknit(String),
}

/// The human-readable form of `e`: a prefix naming the kind, then the text.
pub open spec fn error_text(e: Error) -> Seq<char> {
    match e {
        Error::Parse(m) => "parse error: "@ + m@,
        Error::Suture(m) => "suture error: "@ + m@,
        Error::Stitch(m) => "stitch error: "@ + m@,
        Error::Unstitch(m) => "unstitch error: "@ + m@,
        Error::Knit(m) => "knit error: "@ + m@,
        Error::Unknit(m) => "unknit error: "@ + m@,
    }
}

impl Error {
    /// The human-readable form: a prefix naming the kind, then the text.
    pub fn describe(&self) -> (r: String)
        ensures
            r@ == error_text(*self),
    {
        match self {
            Error::Parse(m) => crate::text::join2("parse error: ", m.as_str()),
            Error::Suture(m) => crate::text::join2("suture error: ", m.as_str()),
            Error::Stitch(m) => crate::text::join2("stitch error: ", m.as_str()),
            Error::Unstitch(m) => crate::text::join2("unstitch error: ", m.as_str()),
            Error::Knit(m) => crate::text::join2("knit error: ", m.as_str()),
            Error::Unknit(m) => crate::text::join2("unknit error: ", m.as_str()),
        }
    }
}

} // verus!
