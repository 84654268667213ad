use vstd::prelude::*;

verus! {

/// Every way in which reading an EPUB container can fail.
#[derive(Debug, PartialEq, Eq, Structural, Clone, Copy)]
pub enum EpubError {
    BufferTooShort,
    InvalidZipMagic,
    EocdNotFound,
    FileNotFound,
    DeflateError,
    MimetypeMissing,
    MimetypeInvalid,
    MimetypeCompressed,
    ContainerNotFound,
    OpfNotFound,
    MalformedXml,
    ScratchBufferTooSmall,
    Unknown,
}

impl EpubError {
    /// The human-readable description of the error.
    pub fn message(&self) -> (r: &'static str)
        ensures
            r@ == match *self {
                EpubError::BufferTooShort => "Provided buffer is too small"@,
                EpubError::InvalidZipMagic => "Not a valid ZIP (Local Header magic mismatch)"@,
                EpubError::EocdNotFound => "Could not find End of Central Directory record"@,
                EpubError::FileNotFound => "Requested file not found in ZIP"@,
                EpubError::DeflateError => "Failed to decompress DEFLATE stream"@,
                EpubError::MimetypeMissing => "mimetype file must be the first entry in ZIP"@,
                EpubError::MimetypeInvalid => "mimetype content must be 'application/epub+zip'"@,
                EpubError::MimetypeCompressed => "mimetype file must not be compressed"@,
                EpubError::ContainerNotFound => "META-INF/container.xml not found"@,
                EpubError::OpfNotFound => "Could not locate .opf file path in container"@,
                EpubError::MalformedXml => "Failed to parse XML content"@,
                EpubError::ScratchBufferTooSmall => "Scratch buffer is smaller than uncompressed size"@,
                EpubError::Unknown => "An unknown parsing error occurred"@,
            },
    {
        match self {
            EpubError::BufferTooShort => "Provided buffer is too small",
            EpubError::InvalidZipMagic => "Not a valid ZIP (Local Header magic mismatch)",
            EpubError::EocdNotFound => "Could not find End of Central Directory record",
            EpubError::FileNotFound => "Requested file not found in ZIP",
            EpubError::DeflateError => "Failed to decompress DEFLATE stream",
            EpubError::MimetypeMissing => "mimetype file must be the first entry in ZIP",
            EpubError::MimetypeInvalid => "mimetype content must be 'application/epub+zip'",
            EpubError::MimetypeCompressed => "mimetype file must not be compressed",
            EpubError::ContainerNotFound => "META-INF/container.xml not found",
            EpubError::OpfNotFound => "Could not locate .opf file path in container",
            EpubError::MalformedXml => "Failed to parse XML content",
            EpubError::ScratchBufferTooSmall => "Scratch buffer is smaller than uncompressed size",
            EpubError::Unknown => "An unknown parsing error occurred",
        }
    }
}

} // verus!
