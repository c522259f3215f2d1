//! Error surface of the health subsystem.

use vstd::prelude::*;

verus! {

/// Fatal errors of the health subsystem. Individual node flakiness is never
/// an error (it is absorbed as a reported head of 0); only internal protocol
/// violations, such as a notification channel closing early, are fatal.
#[derive(Debug)]
pub enum HealthError {
    InvalidResponse(String),
}

impl HealthError {
    /// The human-readable message carried by this error.
    pub fn message(&self) -> (r: &String)
        ensures
            self matches HealthError::InvalidResponse(m) && r@ == m@,
    {
        match self {
            HealthError::InvalidResponse(m) => m,
        }
    }
}

} // verus!
