//! The kinds of failure that archive operations report.

use vstd::prelude::*;

verus! {

/// Why an archive operation failed.
#[derive(Clone, Copy, Debug, PartialEq, Eq, Structural)]
pub enum ArchiveError {
    /// An input path does not exist.
    PathNotFound,
    /// The inputs hold no file to pack.
    NoInput,
    /// The container does not begin with the magic bytes.
    BadMagic,
    /// The container names a version other than 1.
    UnsupportedVersion,
    /// The container is encrypted and no password was given.
    PasswordRequired,
    /// The payload did not authenticate: wrong password, altered bytes, or
    /// bytes missing. Which of these is not told.
    DecryptFailed,
    /// The tar layer failed.
    TarIo,
    /// The gzip layer failed.
    GzipIo,
    /// The sink that takes the container's bytes failed.
    SinkIo,
    /// No key could be derived from password and salt.
    KdfFailed,
    /// The random number generator gave no bytes.
    RngFailed,
}

impl ArchiveError {
    /// The name of the error kind.
    pub open spec fn code_text(self) -> Seq<char> {
        match self {
            ArchiveError::PathNotFound => "PATH_NOT_FOUND"@,
            ArchiveError::NoInput => "NO_INPUT"@,
            ArchiveError::BadMagic => "BAD_MAGIC"@,
            ArchiveError::UnsupportedVersion => "UNSUPPORTED_VERSION"@,
            ArchiveError::PasswordRequired => "PASSWORD_REQUIRED"@,
            ArchiveError::DecryptFailed => "DECRYPT_FAILED"@,
            ArchiveError::TarIo => "TAR_IO"@,
            ArchiveError::GzipIo => "GZIP_IO"@,
            ArchiveError::SinkIo => "SINK_IO"@,
            ArchiveError::KdfFailed => "KDF_FAILED"@,
            ArchiveError::RngFailed => "RNG_FAILED"@,
        }
    }

    pub fn code(self) -> (r: &'static str)
        ensures
            r@ == self.code_text(),
    {
        match self {
            ArchiveError::PathNotFound => "PATH_NOT_FOUND",
            ArchiveError::NoInput => "NO_INPUT",
            ArchiveError::BadMagic => "BAD_MAGIC",
            ArchiveError::UnsupportedVersion => "UNSUPPORTED_VERSION",
            ArchiveError::PasswordRequired => "PASSWORD_REQUIRED",
            ArchiveError::DecryptFailed => "DECRYPT_FAILED",
            ArchiveError::TarIo => "TAR_IO",
            ArchiveError::GzipIo => "GZIP_IO",
            ArchiveError::SinkIo => "SINK_IO",
            ArchiveError::KdfFailed => "KDF_FAILED",
            ArchiveError::RngFailed => "RNG_FAILED",
        }
    }
}

} // verus!
