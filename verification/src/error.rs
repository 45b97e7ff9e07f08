//! Error type shared by the library.

use vstd::prelude::*;

verus! {

/// Reasons why a spatial index file could not be read back.
#[derive(Debug, Clone, PartialEq, Eq, Structural)]
pub enum IndexFormatError {
    /// Fewer bytes than the fixed-size header.
    TruncatedHeader,
    /// The file does not start with the index magic bytes.
    InvalidMagic,
    /// The header names a format version this library does not read.
    UnsupportedVersion { version: u8 },
    /// The metadata section ends before its declared fields.
    TruncatedMetadata,
    /// Fewer bytes remain than the trailing checksum needs.
    TruncatedChecksum,
    /// The stored checksum does not match the compressed body.
    ChecksumMismatch,
    /// The compressed body could not be decompressed.
    Decompression,
}

/// Top-level library error type.
#[allow(inconsistent_fields)]
#[derive(Debug, Clone, PartialEq, Eq)]
pub enum Error {
    /// Dataset could not be located at the resolved path.
    DatasetNotFound { path: String },
    /// No suitable project directories could be resolved for this platform.
    ProjectDirsUnavailable,
    /// No suitable cache directory could be resolved for storing download artifacts.
    CacheDirsUnavailable,
    /// Raised when the release did not contain a usable dataset asset.
    DatasetAssetMissing { tag: String },
    /// Raised when a specific dataset release tag does not exist.
    DatasetReleaseNotFound { tag: String },
    /// Raised when an archive asset did not contain a `.db` file.
    ArchiveMissingDatabase { archive: String },
    /// Raised when attempting to load a schema that is not supported.
    UnsupportedSchema,
    /// Raised when a system name could not be found in the dataset.
    UnknownSystem { name: String, suggestions: Vec<String> },
    /// Raised when no route could be found between two systems.
    RouteNotFound { start: String, goal: String },
    /// Raised when a download would overwrite the protected fixture dataset.
    ProtectedFixturePath { path: String },
    /// Raised when a route summary is requested for a plan without steps.
    EmptyRoutePlan,
    /// A waypoint's system identifier lies below the token base identifier.
    FmapInvalidSystemId { system_id: u32, base_id: u32 },
    /// A token bit width (or waypoint type code) is out of range.
    FmapInvalidBitWidth { k: u8 },
    /// A token ended before all declared data could be read.
    FmapTruncatedData { expected: usize, actual: usize },
    /// A token declares a format version other than the supported one.
    FmapUnsupportedVersion { version: u8, expected: u8 },
    /// A token is not valid unpadded URL-safe base64.
    FmapBase64DecodeError,
    /// Compressing a token payload failed.
    FmapCompressionError,
    /// Decompressing a token payload failed.
    FmapDecompressionError,
    /// Ship data is malformed or misses a required column.
    ShipDataValidation { message: String },
    /// Two ships of a catalog share a name (ignoring case and surrounding space).
    DuplicateShipName { name: String },
    /// Serializing a spatial index failed.
    SpatialIndexSerialize { message: String },
    /// Reading a spatial index from bytes failed.
    SpatialIndexDeserialize { reason: IndexFormatError },
}

} // verus!
