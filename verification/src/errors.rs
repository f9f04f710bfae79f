use vstd::prelude::*;

verus! {

/// The error taxonomy surfaced to callers of the library.
///
/// `InternalError` covers failures of the surrounding infrastructure
/// (channels, ledgers, I/O), `BadRequest` covers invalid client input
/// (an unknown choice, a salt that is not URL-safe base64), and
/// `AuthError` covers token failures.
#[derive(Debug, Clone, PartialEq, Eq)]
pub enum AppError {
    InternalError { title: String, message: String },
    BadRequest { title: String, message: String },
    AuthError { message: String },
}

/// Result type used throughout the library.
pub type AppResult<T> = core::result::Result<T, AppError>;

impl AppError {
    /// True for the `BadRequest` variant; contracts use this to say which
    /// kind of error an input produces.
    pub open spec fn is_bad_request(&self) -> bool {
        matches!(self, AppError::BadRequest { .. })
    }

    /// True for the `InternalError` variant.
    pub open spec fn is_internal(&self) -> bool {
        matches!(self, AppError::InternalError { .. })
    }
}

} // verus!
