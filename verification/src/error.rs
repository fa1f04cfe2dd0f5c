//! Error kinds reported by validation, the codec, and slot creation.

use vstd::prelude::*;

verus! {

/// Names the text field that broke its capacity bound.
#[derive(Clone, Copy, Debug, PartialEq, Eq, Structural)]
pub enum FieldKind {
    TxHash,
    Title,
    Description,
    FileName,
    FileHash,
}

/// Everything that can go wrong when validating, encoding, decoding or
/// committing a receipt.
#[derive(Clone, Copy, Debug, PartialEq, Eq, Structural)]
pub enum ReceiptError {
    /// A text field exceeds its capacity bound; says which one.
    FieldTooLong(FieldKind),
    /// The file list holds more entries than a record can carry.
    TooManyFiles,
    /// The target slot already holds a record; creation is init, not upsert.
    AlreadyExists,
    /// An encode-time safety check failed: a field of the record given to the
    /// encoder exceeds the bound baked into the layout.
    CapacityExceeded,
    /// Decode-time: a length prefix points past the end of the buffer, or the
    /// file count exceeds the layout's maximum.
    MalformedRecord,
}

} // verus!
