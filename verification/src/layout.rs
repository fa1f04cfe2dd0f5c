//! Capacity bounds of the record schema and the worst-case encoded size.
//!
//! The store allocates a slot before the record's true size is known, so the
//! allocation request must use a size that is provably at least as large as
//! anything the encoder can produce for inputs that pass validation. The
//! size is computed algebraically from the per-field bounds, never by
//! encoding a worst-case instance.

use vstd::prelude::*;

verus! {

/// Bytes of the record-kind discriminator the store tags every record with.
pub const KIND_LEN: usize = 8;

/// Bytes of a fixed-size identity (creator or payer).
pub const ID_LEN: usize = 32;

/// Bytes of the length prefix written before every variable-length field.
pub const LEN_PREFIX: usize = 4;

/// Capacity bound, in encoded bytes, of the transaction reference.
pub const MAX_TX_HASH_LEN: usize = 128;

/// Capacity bound, in encoded bytes, of the title.
pub const MAX_TITLE_LEN: usize = 64;

/// Capacity bound, in encoded bytes, of the description.
pub const MAX_DESCRIPTION_LEN: usize = 256;

/// Capacity bound on the number of file descriptors in one record.
pub const MAX_FILES: usize = 5;

/// Capacity bound, in encoded bytes, of a file descriptor's name.
pub const MAX_FILE_NAME_LEN: usize = 64;

/// Capacity bound, in encoded bytes, of a file descriptor's content hash.
pub const MAX_FILE_HASH_LEN: usize = 64;

/// Bytes of the creation timestamp.
pub const TIMESTAMP_LEN: usize = 8;

/// The record-kind discriminator value itself. The store writes it ahead of
/// the fields to tag the record's type; this component reserves room for it
/// but never interprets it.
pub const RECORD_KIND: u64 = 0x3154_5049_4543_4552;

/// Worst-case encoded size of one file descriptor.
pub const MAX_FILE_ENTRY_SIZE: usize = (LEN_PREFIX + MAX_FILE_NAME_LEN) + (LEN_PREFIX
    + MAX_FILE_HASH_LEN);

/// Worst-case encoded size of a whole record: the capacity contract the
/// allocator relies on before any data exists.
pub const MAX_ENCODED_SIZE: usize = KIND_LEN + ID_LEN + ID_LEN + (LEN_PREFIX + MAX_TX_HASH_LEN) + (
LEN_PREFIX + MAX_TITLE_LEN) + (LEN_PREFIX + MAX_DESCRIPTION_LEN) + LEN_PREFIX + MAX_FILES
    * MAX_FILE_ENTRY_SIZE + TIMESTAMP_LEN;

/// Worst-case total byte length of an encoded receipt, composed from the
/// per-field capacity bounds.
pub fn max_encoded_size() -> (n: usize)
    ensures
        n == MAX_ENCODED_SIZE,
        n == 1224,
{
    KIND_LEN + ID_LEN + ID_LEN + (LEN_PREFIX + MAX_TX_HASH_LEN) + (LEN_PREFIX + MAX_TITLE_LEN) + (
    LEN_PREFIX + MAX_DESCRIPTION_LEN) + LEN_PREFIX + MAX_FILES * MAX_FILE_ENTRY_SIZE
        + TIMESTAMP_LEN
}

} // verus!
