use vstd::prelude::*;

verus! {

/// Verdict of the resync oracle for one candidate offset.
///
/// `Start` is the sentinel for "begin at byte 0, no resync needed";
/// `Offset(quoted, byte)` says the next true record begins at `byte`,
/// with `quoted` recording whether the probe landed inside a quoted
/// field; `EndOfFile` says no further record exists at or after the
/// probe; `Fail` says no boundary could be determined from the
/// available evidence.
#[derive(Debug, Clone, Copy, PartialEq, Eq, Structural)]
pub enum NextRecord {
    Start,
    EndOfFile,
    Offset(bool, u64),
    Fail,
}

impl NextRecord {
    /// The boundary byte carried by an `Offset` verdict, if any.
    pub open spec fn spec_offset(self) -> Option<u64> {
        match self {
            NextRecord::Offset(_, o) => Some(o),
            _ => None,
        }
    }

    pub fn offset(&self) -> (r: Option<u64>)
        ensures
            r == self.spec_offset(),
    {
        match self {
            NextRecord::Offset(_, o) => Some(*o),
            _ => None,
        }
    }
}

} // verus!
