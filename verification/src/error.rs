//! The failures that the hosts-file engine and its callers report.

use vstd::prelude::*;
use vstd::string::{StrSliceExecFns, StringExecFns};

verus! {

/// Every failure of a block or unblock operation, with enough context
/// (file path, underlying cause text) to be actionable from the top-level
/// message alone. Causes of non-copyable external failures are captured as
/// their formatted text at the point of capture.
#[derive(Debug, Clone)]
pub enum AppError {
    /// A generic I/O failure, carrying a human-readable description.
    Io(String),
    /// The hosts file could not be read.
    ReadHosts { path: String, source_str: String },
    /// The hosts file could not be written.
    WriteHosts { path: String, source_str: String },
    /// The domain argument normalized to the empty string.
    InvalidDomain(String),
    /// The unblock typing challenge was not passed.
    ChallengeFailed,
    /// The hosts file at the given path could not be accessed for lack of
    /// privileges.
    PermissionDenied(String),
    /// The platform is not one whose hosts-file location is known; carries
    /// the platform identifier string.
    UnsupportedOS(String),
}

impl AppError {
    /// The single-line human-readable message for this failure.
    pub fn message(&self) -> (m: String)
        ensures
            (match self {
                AppError::Io(s) => m@ == "I/O Error: "@ + s@,
                AppError::ReadHosts { path, source_str } => m@ == "Failed to read hosts file at '"@
                    + path@ + "': "@ + source_str@,
                AppError::WriteHosts { path, source_str } => m@
                    == "Failed to write hosts file at '"@ + path@ + "': "@ + source_str@,
                AppError::InvalidDomain(s) => m@ == "Invalid domain name: "@ + s@,
                AppError::ChallengeFailed => m@ == "Challenge failed: Incorrect sequence entered."@,
                AppError::PermissionDenied(p) => m@ == "Permission denied accessing hosts file at '"@
                    + p@
                    + "'. This application requires root/administrator privileges."@,
                AppError::UnsupportedOS(os) => m@
                    == "Could not determine hosts file path for this operating system: "@ + os@,
            }),
    {
        match self {
            AppError::Io(s) => String::from_str("I/O Error: ").concat(s.as_str()),
            AppError::ReadHosts { path, source_str } => String::from_str(
                "Failed to read hosts file at '",
            ).concat(path.as_str()).concat("': ").concat(source_str.as_str()),
            AppError::WriteHosts { path, source_str } => String::from_str(
                "Failed to write hosts file at '",
            ).concat(path.as_str()).concat("': ").concat(source_str.as_str()),
            AppError::InvalidDomain(s) => String::from_str("Invalid domain name: ").concat(
                s.as_str(),
            ),
            AppError::ChallengeFailed => String::from_str(
                "Challenge failed: Incorrect sequence entered.",
            ),
            AppError::PermissionDenied(p) => String::from_str(
                "Permission denied accessing hosts file at '",
            ).concat(p.as_str()).concat(
                "'. This application requires root/administrator privileges.",
            ),
            AppError::UnsupportedOS(os) => String::from_str(
                "Could not determine hosts file path for this operating system: ",
            ).concat(os.as_str()),
        }
    }
}

/// Translates an I/O failure at a filesystem touch point into the error
/// this library reports: a "permission denied" cause becomes the dedicated
/// `PermissionDenied` variant carrying the path, anything else a generic
/// I/O error carrying path and cause. The caller performs the I/O and says
/// whether the underlying cause was a permission failure.
pub fn map_io_failure(permission_denied: bool, path: &str, cause: &str) -> (e: AppError)
    ensures
        permission_denied ==> (e matches AppError::PermissionDenied(p) && p@ == path@),
        !permission_denied ==> (e matches AppError::Io(m) && m@ == "Failed to access hosts file at '"@
            + path@ + "': "@ + cause@),
{
    if permission_denied {
        AppError::PermissionDenied(path.to_owned())
    } else {
        AppError::Io(
            String::from_str("Failed to access hosts file at '").concat(path).concat(
                "': ",
            ).concat(cause),
        )
    }
}

} // verus!
