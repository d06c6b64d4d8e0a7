use vstd::prelude::*;

verus! {

/// Errors raised by the storage kernel.
#[derive(Debug)]
pub enum TridentError {
    /// Durable bytes failed validation.
    Corrupt { path: String, reason: String },
    /// A configuration or an argument was refused.
    InvalidConfig(String),
    /// A query could not be answered.
    Query(String),
    /// A key or a page was not found.
    KeyNotFound,
    /// A write could not be admitted.
    WriteStalled { reason: String },
    /// No maintenance job with this id exists.
    MaintenanceJobNotFound(u64),
    /// The maintenance runtime is already running.
    MaintenanceRuntimeRunning,
    /// The maintenance runtime is not running.
    MaintenanceRuntimeNotRunning,
    /// An I/O operation failed.
    Io(String),
}

/// The name the engine's newer modules use for the same error type.
pub type PraxisError = TridentError;

pub type Result<T> = core::result::Result<T, TridentError>;

impl TridentError {
    /// A human-readable description of the error.
    pub fn message(&self) -> (out: String)
        ensures
            self matches TridentError::Corrupt { reason, .. } ==> out@ == reason@,
            self matches TridentError::InvalidConfig(m) ==> out@ == m@,
            self matches TridentError::Query(m) ==> out@ == m@,
            self matches TridentError::WriteStalled { reason } ==> out@ == reason@,
            self matches TridentError::Io(m) ==> out@ == m@,
    {
        match self {
            TridentError::Corrupt { reason, .. } => reason.clone(),
            TridentError::InvalidConfig(m) => m.clone(),
            TridentError::Query(m) => m.clone(),
            TridentError::KeyNotFound => String::from_str("key not found"),
            TridentError::WriteStalled { reason } => reason.clone(),
            TridentError::MaintenanceJobNotFound(_) => String::from_str("maintenance job not found"),
            TridentError::MaintenanceRuntimeRunning => String::from_str(
                "maintenance runtime is already running",
            ),
            TridentError::MaintenanceRuntimeNotRunning => String::from_str(
                "maintenance runtime is not running",
            ),
            TridentError::Io(m) => m.clone(),
        }
    }
}

} // verus!
