use vstd::prelude::*;

verus! {

/// Why an auxiliary background monitor could not start.
#[derive(Debug, Clone, Copy, PartialEq, Eq, Structural)]
pub enum OozeError {
    InitializationError,
}

impl OozeError {
    /// A human-readable description.
    pub fn message(&self) -> (r: String)
        ensures
            r@ == "Initilization failed"@,
    {
        match self {
            OozeError::InitializationError => "Initilization failed".to_string(),
        }
    }
}

/// A monitor that reports the service's health on the console.
pub struct ConsoleHealthMonitoring;

} // verus!
