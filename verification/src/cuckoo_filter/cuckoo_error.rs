use vstd::prelude::*;

verus! {

/// Why a cuckoo filter could not be built or filled.
#[derive(Debug, Clone, Copy, PartialEq, Eq)]
pub enum CuckooError {
    InvalidCapacity,
    FilterFull,
    TooLarge,
}

impl CuckooError {
    /// The error's message.
    pub fn message(&self) -> (s: &'static str)
        ensures
            s@ == match self {
                CuckooError::InvalidCapacity => "invalid capacity (must be > 0)"@,
                CuckooError::FilterFull => "filter is full"@,
                CuckooError::TooLarge => "capacity too large to allocate table"@,
            },
    {
        match self {
            CuckooError::InvalidCapacity => "invalid capacity (must be > 0)",
            CuckooError::FilterFull => "filter is full",
            CuckooError::TooLarge => "capacity too large to allocate table",
        }
    }
}

} // verus!
