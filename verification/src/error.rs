use vstd::prelude::*;

verus! {

/// The classification of a decode error that contracts are stated over.
/// The executable errors below carry human-readable messages as well; the
/// message text is diagnostic and no contract depends on it.
#[derive(Debug)]
pub enum DecodeFailure {
    Parse,
    Io,
    Decompress { identifier: u32, offset: u32 },
}

/// Error returned by the decode half of the pipeline.
#[derive(Debug)]
pub enum DecodingError {
    /// A structural violation: bad magic, bad version, malformed filename.
    ParsingError(String),
    /// A read that ran past the end of the buffer.
    IOError(String),
    /// A compressed entry whose stream could not be inflated, tagged with
    /// the identifier and payload offset of the offending directory entry.
    DecompressError { identifier: u32, offset: u32 },
}

impl DecodingError {
    pub open spec fn kind(&self) -> DecodeFailure {
        match self {
            DecodingError::ParsingError(_) => DecodeFailure::Parse,
            DecodingError::IOError(_) => DecodeFailure::Io,
            DecodingError::DecompressError { identifier, offset } => DecodeFailure::Decompress {
                identifier: *identifier,
                offset: *offset,
            },
        }
    }
}

/// The classification of an encode error that contracts are stated over.
#[derive(Debug)]
pub enum EncodeFailure {
    Parse,
    Deserialize,
    Io,
}

/// Error returned by the encode half of the pipeline.
#[derive(Debug)]
pub enum EncodingError {
    /// A structural violation, such as an unknown container format tag.
    ParsingError(String),
    /// A manifest that is not well-formed JSON of the expected shape.
    DeserializeError(String),
    /// A referenced file that is absent and has no inline fallback data.
    IOError(String),
}

impl EncodingError {
    pub open spec fn kind(&self) -> EncodeFailure {
        match self {
            EncodingError::ParsingError(_) => EncodeFailure::Parse,
            EncodingError::DeserializeError(_) => EncodeFailure::Deserialize,
            EncodingError::IOError(_) => EncodeFailure::Io,
        }
    }
}

} // verus!
