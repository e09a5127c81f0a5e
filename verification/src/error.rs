//! The failures that end a profiling session.

use vstd::prelude::*;

verus! {

/// Why a session failed. Each kind belongs to one stage of the pipeline.
#[derive(Debug, Clone, Copy, PartialEq, Eq, Structural)]
pub enum ProfileError {
    /// The sampler was asked to tick zero or fewer times a second.
    InvalidFrequency,
    /// Another sampler is active in this process.
    AlreadyRunning,
    /// The profiler could not be started, or its samples could not be read
    /// out.
    Capture,
    /// A report refers to a table row that does not exist.
    MalformedReport,
    /// A report holds a value that the wire format cannot carry.
    Encoding,
    /// The compressor failed.
    Compression,
}

/// The diagnostic of a failure. It names the stage that failed.
pub open spec fn diagnostic(error: ProfileError) -> Seq<char> {
    match error {
        ProfileError::InvalidFrequency => "sampler: the sampling frequency must be positive"@,
        ProfileError::AlreadyRunning => "sampler: busy, another profiling session is active"@,
        ProfileError::Capture => "sampler: the profiler could not be started or read out"@,
        ProfileError::MalformedReport => "serializer: the report refers to a missing table row"@,
        ProfileError::Encoding => "serializer: a sample count does not fit the wire format"@,
        ProfileError::Compression => "compressor: the stream could not be finished"@,
    }
}

impl ProfileError {
    /// A human-readable diagnostic that names the stage that failed.
    pub fn message(&self) -> (text: String)
        ensures
            text@ == diagnostic(*self),
    {
        match self {
            ProfileError::InvalidFrequency => {
                "sampler: the sampling frequency must be positive".to_owned()
            },
            ProfileError::AlreadyRunning => {
                "sampler: busy, another profiling session is active".to_owned()
            },
            ProfileError::Capture => {
                "sampler: the profiler could not be started or read out".to_owned()
            },
            ProfileError::MalformedReport => {
                "serializer: the report refers to a missing table row".to_owned()
            },
            ProfileError::Encoding => {
                "serializer: a sample count does not fit the wire format".to_owned()
            },
            ProfileError::Compression => "compressor: the stream could not be finished".to_owned(),
        }
    }
}

} // verus!
