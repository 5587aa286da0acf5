use vstd::prelude::*;
use crate::ctl::Ctl;

verus! {

/// Failure of an operation.
#[derive(Debug)]
pub enum Error {
    /// A diagnostic read back from the control interface's error path.
    Defined(String),
    /// A failure for which no diagnostic could be obtained.
    Undefined,
    /// A cursor has no more documents; this ends an iteration, it is not a failure.
    Exhausted,
}

/// What `String::from_utf8_lossy` makes of a byte sequence.
pub uninterp spec fn lossy_text(b: Seq<u8>) -> Seq<char>;

/// Relies on `String::from_utf8_lossy`: the text depends on the bytes alone,
/// and no bytes give no text.
#[verifier::external_body]
pub(crate) fn decode_lossy(b: &[u8]) -> (r: String)
    ensures
        r@ == lossy_text(b@),
        b@.len() == 0 ==> r@.len() == 0,
{
    String::from_utf8_lossy(b).into_owned()
}

impl Error {
    /// The error that a diagnostic text stands for.
    pub fn from_diagnostic(text: String) -> (r: Error)
        ensures
            r == Error::Defined(text),
    {
        Error::Defined(text)
    }

    /// Reads the diagnostic back through the control interface's error
    /// path; `Undefined` where that read fails.
    pub fn from_ctl(ctl: &Ctl) -> (r: Error)
        requires
            ctl.wf(),
        ensures
            ctl.reports(r),
    {
        match ctl.resolve("sophia.error") {
            Some(object) => match object.get("value") {
                Ok(bytes) => Error::from_diagnostic(decode_lossy(bytes)),
                Err(_) => Error::Undefined,
            },
            None => Error::Undefined,
        }
    }

    /// A readable description: the diagnostic itself, or a fixed word.
    pub fn describe(&self) -> (r: String)
        ensures
            self matches Error::Defined(s) ==> r@ == s@,
            self is Undefined ==> r@ == "undefined"@,
            self is Exhausted ==> r@ == "exhausted"@,
    {
        match self {
            Error::Defined(s) => s.clone(),
            Error::Undefined => "undefined".to_owned(),
            Error::Exhausted => "exhausted".to_owned(),
        }
    }
}

} // verus!
