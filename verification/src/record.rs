//! The record types, their mathematical models, and the validity predicate
//! every stored receipt satisfies.

use vstd::prelude::*;

use crate::layout::{
    MAX_DESCRIPTION_LEN, MAX_FILES, MAX_FILE_HASH_LEN, MAX_FILE_NAME_LEN, MAX_TITLE_LEN,
    MAX_TX_HASH_LEN,
};

verus! {

/// A file descriptor: a name and an opaque content-hash reference. It has no
/// identity beyond its position in the owning record's list.
#[derive(Clone)]
pub struct FileMeta {
    /// Encoded name, at most `MAX_FILE_NAME_LEN` bytes.
    pub name: Vec<u8>,
    /// Encoded content-hash reference, at most `MAX_FILE_HASH_LEN` bytes.
    pub hash: Vec<u8>,
}

/// The model of a file descriptor: the byte sequences of its two fields.
#[verifier::ext_equal]
pub ghost struct FileMetaAbs {
    pub name: Seq<u8>,
    pub hash: Seq<u8>,
}

impl View for FileMeta {
    type V = FileMetaAbs;

    open spec fn view(&self) -> FileMetaAbs {
        FileMetaAbs { name: self.name@, hash: self.hash@ }
    }
}

/// The models of a sequence of file descriptors, in order.
pub open spec fn files_abs(fs: Seq<FileMeta>) -> Seq<FileMetaAbs> {
    fs.map_values(|f: FileMeta| f@)
}

/// The sole persistent entity: one immutable receipt record.
pub struct Receipt {
    /// Identity of the authenticated caller that created the record; set by
    /// the system, never caller-supplied.
    pub creator: [u8; 32],
    /// Identity responsible for the cost; caller-supplied and not
    /// authenticated against the caller.
    pub payer: [u8; 32],
    /// Transaction reference, at most `MAX_TX_HASH_LEN` encoded bytes.
    pub tx_hash: Vec<u8>,
    /// Title text, at most `MAX_TITLE_LEN` encoded bytes.
    pub title: Vec<u8>,
    /// Description text, at most `MAX_DESCRIPTION_LEN` encoded bytes.
    pub description: Vec<u8>,
    /// Ordered file descriptors, at most `MAX_FILES` entries.
    pub files: Vec<FileMeta>,
    /// Creation time, seconds since epoch; set by the system from the clock
    /// context, never caller-supplied.
    pub timestamp: i64,
}

/// The model of a receipt: every field as a plain mathematical value.
#[verifier::ext_equal]
pub ghost struct ReceiptAbs {
    pub creator: Seq<u8>,
    pub payer: Seq<u8>,
    pub tx_hash: Seq<u8>,
    pub title: Seq<u8>,
    pub description: Seq<u8>,
    pub files: Seq<FileMetaAbs>,
    pub timestamp: i64,
}

impl View for Receipt {
    type V = ReceiptAbs;

    open spec fn view(&self) -> ReceiptAbs {
        ReceiptAbs {
            creator: self.creator@,
            payer: self.payer@,
            tx_hash: self.tx_hash@,
            title: self.title@,
            description: self.description@,
            files: files_abs(self.files@),
            timestamp: self.timestamp,
        }
    }
}

/// Both fields of a file descriptor are within their capacity bounds.
pub open spec fn file_meta_valid(f: FileMetaAbs) -> bool {
    &&& f.name.len() <= MAX_FILE_NAME_LEN
    &&& f.hash.len() <= MAX_FILE_HASH_LEN
}

/// The invariant of every stored receipt: identities are 32 bytes, every
/// variable-length field is within its capacity bound, and the file list is
/// within its count bound. Enforced at creation and never re-checked,
/// because a record is never mutated.
pub open spec fn receipt_valid(r: ReceiptAbs) -> bool {
    &&& r.creator.len() == 32
    &&& r.payer.len() == 32
    &&& r.tx_hash.len() <= MAX_TX_HASH_LEN
    &&& r.title.len() <= MAX_TITLE_LEN
    &&& r.description.len() <= MAX_DESCRIPTION_LEN
    &&& r.files.len() <= MAX_FILES
    &&& forall|i: int| 0 <= i < r.files.len() ==> file_meta_valid(#[trigger] r.files[i])
}

} // verus!
