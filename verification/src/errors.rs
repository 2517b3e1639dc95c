//! The failures a decode can end in.

use vstd::prelude::*;

verus! {

/// The result of every fallible operation of the decoder.
pub type GzipResult<T> = Result<T, GzipError>;

/// Why a decode stopped.
///
/// Three families matter to the block decoder: `TruncatedFile` (the input
/// ended before a required bit or byte), the stream-corruption errors
/// (`DeflateModeNotSupported`, `StoredHeaderFailure`, `InvalidDeflateStream`)
/// and `InternalError` (a code table from which no decode structure can be
/// built).
#[derive(Debug, Clone, Copy, PartialEq, Eq, Structural)]
pub enum GzipError {
    CantOpenFile,
    CantReadFile,
    CantCreateFile,
    CantWriteFile,
    NotAGzipFile,
    TruncatedFile,
    NotDeflate,
    FEXTRANotSupported,
    FHCRCNotSupported,
    FCOMMENTNotSupported,
    ReservedFlagsNotSupported,
    DeflateModeNotSupported,
    StoredHeaderFailure,
    InternalError,
    InvalidDeflateStream,
}

impl GzipError {
    /// The text shown to a user for this error.
    pub open spec fn spec_message(self) -> Seq<char> {
        match self {
            GzipError::CantOpenFile => "Can't open file"@,
            GzipError::CantReadFile => "Can't read from file"@,
            GzipError::CantCreateFile => "Can't create file"@,
            GzipError::CantWriteFile => "Can't write to file"@,
            GzipError::NotAGzipFile => "Not a Gzip file"@,
            GzipError::TruncatedFile => "Truncated file"@,
            GzipError::NotDeflate => "Not a deflate stream"@,
            GzipError::FEXTRANotSupported => "Header flag FEXTRA not supported yet"@,
            GzipError::FHCRCNotSupported => "Header flag FHCRC not supported yet"@,
            GzipError::FCOMMENTNotSupported => "Header flag FCOMMENT not supported yet"@,
            GzipError::ReservedFlagsNotSupported => "Reserved header flags not supported"@,
            GzipError::DeflateModeNotSupported => "Reserved deflate mode not defined yet"@,
            GzipError::StoredHeaderFailure => "Error in stored block header"@,
            GzipError::InternalError => "Internal decoder error"@,
            GzipError::InvalidDeflateStream => "Invalid deflate stream"@,
        }
    }

    /// The text shown to a user for this error.
    pub fn message(&self) -> (r: &'static str)
        ensures
            r@ == self.spec_message(),
    {
        match self {
            GzipError::CantOpenFile => "Can't open file",
            GzipError::CantReadFile => "Can't read from file",
            GzipError::CantCreateFile => "Can't create file",
            GzipError::CantWriteFile => "Can't write to file",
            GzipError::NotAGzipFile => "Not a Gzip file",
            GzipError::TruncatedFile => "Truncated file",
            GzipError::NotDeflate => "Not a deflate stream",
            GzipError::FEXTRANotSupported => "Header flag FEXTRA not supported yet",
            GzipError::FHCRCNotSupported => "Header flag FHCRC not supported yet",
            GzipError::FCOMMENTNotSupported => "Header flag FCOMMENT not supported yet",
            GzipError::ReservedFlagsNotSupported => "Reserved header flags not supported",
            GzipError::DeflateModeNotSupported => "Reserved deflate mode not defined yet",
            GzipError::StoredHeaderFailure => "Error in stored block header",
            GzipError::InternalError => "Internal decoder error",
            GzipError::InvalidDeflateStream => "Invalid deflate stream",
        }
    }
}

} // verus!
