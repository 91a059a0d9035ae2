//! The probe's two-kind error taxonomy: either the OS-level source could
//! not be read at all, or it was read but its content did not have the
//! expected shape.

use vstd::prelude::*;
use vstd::string::StringExecFns;

verus! {

/// Why a probe query failed.
#[derive(Debug)]
pub enum SysInfoLinuxError {
    /// The underlying read (open or read-to-completion) failed; carries
    /// the OS-level failure description.
    SourceUnavailable(String),
    /// The source was read but its content did not match the expected
    /// shape; carries a description of what was wrong.
    ParseFailure(String),
}

impl SysInfoLinuxError {
    /// The full diagnostic line for this error.
    pub open spec fn spec_message(self) -> Seq<char> {
        match self {
            SysInfoLinuxError::SourceUnavailable(m) => "Failed to read from file: "@ + m@,
            SysInfoLinuxError::ParseFailure(m) => "Failed to parse data: "@ + m@,
        }
    }

    /// Render the error as one human-readable line.
    pub fn message(&self) -> (r: String)
        ensures
            r@ == self.spec_message(),
    {
        match self {
            SysInfoLinuxError::SourceUnavailable(m) => String::from_str(
                "Failed to read from file: ",
            ).concat(m.as_str()),
            SysInfoLinuxError::ParseFailure(m) => String::from_str(
                "Failed to parse data: ",
            ).concat(m.as_str()),
        }
    }
}

} // verus!
