use vstd::prelude::*;

verus! {

/// Why a service could not register.
#[derive(Debug, Clone, Copy, PartialEq, Eq, Structural)]
pub enum RegistrationError {
    InvalidCredentials,
}

impl RegistrationError {
    /// A human-readable description.
    pub fn message(&self) -> (r: String)
        ensures
            r@ == "Invalid credentials provided"@,
    {
        match self {
            RegistrationError::InvalidCredentials => "Invalid credentials provided".to_string(),
        }
    }
}

/// Registration of a service with whatever directory it announces itself to.
pub trait Registration {
    fn register(&self) -> Result<(), RegistrationError>;

    fn deregister(&self) -> Result<(), RegistrationError>;
}

/// A registration that always succeeds.
pub struct DummyRegistration;

impl Registration for DummyRegistration {
    fn register(&self) -> (r: Result<(), RegistrationError>)
        ensures
            r.is_ok(),
    {
        Ok(())
    }

    fn deregister(&self) -> (r: Result<(), RegistrationError>)
        ensures
            r.is_ok(),
    {
        Ok(())
    }
}

} // verus!
