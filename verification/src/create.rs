//! The single mutation entry point: creating one receipt.
//!
//! Validation runs before any storage write; the slot is then allocated at
//! exactly the worst-case encoded size, populated from the caller's inputs
//! plus the two authority-derived fields, and committed as one append-only
//! write through `SlotStore::put_if_absent`.

use vstd::prelude::*;

use crate::codec::{enc_receipt, encode, lemma_encode_decode, dec_receipt};
use crate::error::{FieldKind, ReceiptError};
use crate::layout::{
    MAX_DESCRIPTION_LEN, MAX_ENCODED_SIZE, MAX_FILES, MAX_FILE_HASH_LEN, MAX_FILE_NAME_LEN,
    MAX_TITLE_LEN, MAX_TX_HASH_LEN,
};
use crate::record::{file_meta_valid, files_abs, receipt_valid, FileMeta, FileMetaAbs, Receipt, ReceiptAbs};
use crate::store::SlotStore;

verus! {

/// The context of one creation call: the target slot address, the identity
/// of the authenticated caller, and the clock reading at commit. These come
/// from the environment, never from the caller-supplied record fields.
pub struct CreateReceipt {
    /// Address of the slot the new record is created at.
    pub slot: u64,
    /// Identity of the authenticated caller; becomes the record's creator.
    pub creator: [u8; 32],
    /// Current time, seconds since epoch; becomes the record's timestamp.
    pub now: i64,
}

/// The first capacity error among the file descriptors, in list order:
/// for each entry its name is checked before its hash.
pub open spec fn first_file_error(files: Seq<FileMetaAbs>) -> Option<ReceiptError>
    decreases files.len(),
{
    if files.len() == 0 {
        None
    } else if files.first().name.len() > MAX_FILE_NAME_LEN {
        Some(ReceiptError::FieldTooLong(FieldKind::FileName))
    } else if files.first().hash.len() > MAX_FILE_HASH_LEN {
        Some(ReceiptError::FieldTooLong(FieldKind::FileHash))
    } else {
        first_file_error(files.drop_first())
    }
}

/// The first validation error of the caller-supplied fields: the file count
/// first, then each text field in record order, then the file descriptors.
pub open spec fn first_field_error(
    tx_hash: Seq<u8>,
    title: Seq<u8>,
    description: Seq<u8>,
    files: Seq<FileMetaAbs>,
) -> Option<ReceiptError> {
    if files.len() > MAX_FILES {
        Some(ReceiptError::TooManyFiles)
    } else if tx_hash.len() > MAX_TX_HASH_LEN {
        Some(ReceiptError::FieldTooLong(FieldKind::TxHash))
    } else if title.len() > MAX_TITLE_LEN {
        Some(ReceiptError::FieldTooLong(FieldKind::Title))
    } else if description.len() > MAX_DESCRIPTION_LEN {
        Some(ReceiptError::FieldTooLong(FieldKind::Description))
    } else {
        first_file_error(files)
    }
}

/// The record a creation call commits: caller-supplied fields verbatim,
/// creator and timestamp from the context alone.
pub open spec fn created_record(
    ctx: CreateReceipt,
    payer: [u8; 32],
    tx_hash: Seq<u8>,
    title: Seq<u8>,
    description: Seq<u8>,
    files: Seq<FileMetaAbs>,
) -> ReceiptAbs {
    ReceiptAbs {
        creator: ctx.creator@,
        payer: payer@,
        tx_hash,
        title,
        description,
        files,
        timestamp: ctx.now,
    }
}

/// Authority law: the creator and timestamp of a committed record are drawn
/// from the call context alone. However the caller varies its own inputs —
/// payer, transaction reference, texts, files — those two fields do not
/// move, and they always equal the context's identity and clock reading.
pub proof fn lemma_authority_derived(
    ctx: CreateReceipt,
    payer_a: [u8; 32],
    tx_hash_a: Seq<u8>,
    title_a: Seq<u8>,
    description_a: Seq<u8>,
    files_a: Seq<FileMetaAbs>,
    payer_b: [u8; 32],
    tx_hash_b: Seq<u8>,
    title_b: Seq<u8>,
    description_b: Seq<u8>,
    files_b: Seq<FileMetaAbs>,
)
    ensures
        created_record(ctx, payer_a, tx_hash_a, title_a, description_a, files_a).creator
            == ctx.creator@,
        created_record(ctx, payer_a, tx_hash_a, title_a, description_a, files_a).timestamp
            == ctx.now,
        created_record(ctx, payer_a, tx_hash_a, title_a, description_a, files_a).creator
            == created_record(ctx, payer_b, tx_hash_b, title_b, description_b, files_b).creator,
        created_record(ctx, payer_a, tx_hash_a, title_a, description_a, files_a).timestamp
            == created_record(ctx, payer_b, tx_hash_b, title_b, description_b, files_b).timestamp,
{
}

/// The slot image of a record: its wire bytes, zero-padded to the exact
/// allocation size.
pub open spec fn padded(b: Seq<u8>) -> Seq<u8>
    recommends
        b.len() <= MAX_ENCODED_SIZE,
{
    b + Seq::new((MAX_ENCODED_SIZE - b.len()) as nat, |i: int| 0u8)
}

/// No file descriptor error means every file descriptor is within bounds,
/// and the first error names the first offending field.
proof fn lemma_first_file_error_none(files: Seq<FileMetaAbs>)
    ensures
        first_file_error(files) is None <==> forall|i: int|
            0 <= i < files.len() ==> file_meta_valid(#[trigger] files[i]),
    decreases files.len(),
{
    if files.len() > 0 {
        lemma_first_file_error_none(files.drop_first());
        assert(forall|i: int|
            0 <= i < files.drop_first().len() ==> #[trigger] files.drop_first()[i] == files[i + 1]);
        if first_file_error(files) is None {
            assert forall|i: int| 0 <= i < files.len() implies file_meta_valid(
                #[trigger] files[i],
            ) by {
                if i == 0 {
                    assert(file_meta_valid(files.first()));
                } else {
                    assert(files.drop_first()[i - 1] == files[i]);
                }
            };
        } else {
            if forall|i: int| 0 <= i < files.len() ==> file_meta_valid(#[trigger] files[i]) {
                assert(file_meta_valid(files[0]));
                assert(first_file_error(files.drop_first()) is None);
                assert(false);
            }
        }
    }
}

/// Passing validation is exactly validity of the record that would be
/// committed.
pub proof fn lemma_validation_is_validity(
    ctx: CreateReceipt,
    payer: [u8; 32],
    tx_hash: Seq<u8>,
    title: Seq<u8>,
    description: Seq<u8>,
    files: Seq<FileMetaAbs>,
)
    ensures
        first_field_error(tx_hash, title, description, files) is None <==> receipt_valid(
            created_record(ctx, payer, tx_hash, title, description, files),
        ),
{
    lemma_first_file_error_none(files);
}

/// Checks every caller-supplied field against its capacity bound, reporting
/// the first violation in validation order.
#[verifier::loop_isolation(false)]
pub fn validate_fields(
    tx_hash: &Vec<u8>,
    title: &Vec<u8>,
    description: &Vec<u8>,
    files: &Vec<FileMeta>,
) -> (res: Result<(), ReceiptError>)
    ensures
        match res {
            Ok(()) => first_field_error(tx_hash@, title@, description@, files_abs(files@)) is None,
            Err(e) => first_field_error(tx_hash@, title@, description@, files_abs(files@))
                == Some(e),
        },
{
    if files.len() > MAX_FILES {
        return Err(ReceiptError::TooManyFiles);
    }
    if tx_hash.len() > MAX_TX_HASH_LEN {
        return Err(ReceiptError::FieldTooLong(FieldKind::TxHash));
    }
    if title.len() > MAX_TITLE_LEN {
        return Err(ReceiptError::FieldTooLong(FieldKind::Title));
    }
    if description.len() > MAX_DESCRIPTION_LEN {
        return Err(ReceiptError::FieldTooLong(FieldKind::Description));
    }
    let ghost fs = files_abs(files@);
    proof {
        assert(fs.skip(0) =~= fs);
    }
    let mut i: usize = 0;
    while i < files.len()
        invariant
            i <= files@.len(),
            fs == files_abs(files@),
            fs.len() == files@.len(),
            first_file_error(fs.skip(i as int)) == first_file_error(fs),
        decreases files@.len() - i,
    {
        proof {
            assert(fs.skip(i as int).first() == fs[i as int]);
            assert(fs[i as int] == files@[i as int]@);
        }
        if files[i].name.len() > MAX_FILE_NAME_LEN {
            return Err(ReceiptError::FieldTooLong(FieldKind::FileName));
        }
        if files[i].hash.len() > MAX_FILE_HASH_LEN {
            return Err(ReceiptError::FieldTooLong(FieldKind::FileHash));
        }
        proof {
            assert(fs.skip(i as int).drop_first() =~= fs.skip(i + 1));
        }
        i = i + 1;
    }
    proof {
        assert(fs.skip(files@.len() as int) =~= Seq::<FileMetaAbs>::empty());
    }
    Ok(())
}

/// Creates one receipt: validates the caller-supplied fields, allocates a
/// slot of exactly the worst-case encoded size, populates the record from
/// the inputs plus the authority-derived creator and timestamp, and commits
/// it once. The stored bytes decode back to exactly the committed record;
/// an existing slot is never overwritten.
#[verifier::loop_isolation(false)]
pub fn create_receipt(
    store: &mut SlotStore,
    ctx: &CreateReceipt,
    payer: [u8; 32],
    tx_hash: Vec<u8>,
    title: Vec<u8>,
    description: Vec<u8>,
    files: Vec<FileMeta>,
) -> (res: Result<(), ReceiptError>)
    requires
        old(store).wf(),
    ensures
        final(store).wf(),
        ({
            let err = first_field_error(tx_hash@, title@, description@, files_abs(files@));
            let rec = created_record(*ctx, payer, tx_hash@, title@, description@, files_abs(
                files@,
            ));
            match res {
                Ok(()) => err is None && !old(store)@.contains_key(ctx.slot) && final(store)@
                    == old(store)@.insert(ctx.slot, padded(enc_receipt(rec)))
                    && final(store)@[ctx.slot].len() == MAX_ENCODED_SIZE && dec_receipt(
                    final(store)@[ctx.slot],
                ) == Some(rec),
                Err(e) => final(store)@ == old(store)@ && match err {
                    Some(e0) => e == e0,
                    None => e == ReceiptError::AlreadyExists && old(store)@.contains_key(ctx.slot),
                },
            }
        }),
{
    match validate_fields(&tx_hash, &title, &description, &files) {
        Ok(()) => (),
        Err(e) => {
            return Err(e);
        },
    }
    let ghost rec = created_record(*ctx, payer, tx_hash@, title@, description@, files_abs(files@));
    proof {
        lemma_validation_is_validity(*ctx, payer, tx_hash@, title@, description@, files_abs(
            files@,
        ));
    }
    let receipt = Receipt {
        creator: ctx.creator,
        payer,
        tx_hash,
        title,
        description,
        files,
        timestamp: ctx.now,
    };
    proof {
        assert(receipt@ =~= rec);
    }
    let mut buf = match encode(&receipt) {
        Ok(v) => v,
        Err(_) => {
            proof {
                assert(false);
            }
            return Err(ReceiptError::CapacityExceeded);
        },
    };
    let target = crate::layout::max_encoded_size();
    while buf.len() < target
        invariant
            buf@.len() <= MAX_ENCODED_SIZE,
            enc_receipt(rec).len() <= buf@.len(),
            buf@.subrange(0, enc_receipt(rec).len() as int) == enc_receipt(rec),
            forall|k: int| enc_receipt(rec).len() <= k < buf@.len() ==> buf@[k] == 0u8,
        decreases MAX_ENCODED_SIZE - buf@.len(),
    {
        let ghost prev = buf@;
        buf.push(0u8);
        proof {
            assert(buf@.subrange(0, enc_receipt(rec).len() as int) =~= prev.subrange(
                0,
                enc_receipt(rec).len() as int,
            ));
        }
    }
    proof {
        assert(buf@ =~= padded(enc_receipt(rec)));
    }
    match store.put_if_absent(ctx.slot, buf) {
        Ok(()) => {
            proof {
                lemma_encode_decode(rec, padded(enc_receipt(rec)).subrange(
                    enc_receipt(rec).len() as int,
                    MAX_ENCODED_SIZE as int,
                ));
                assert(enc_receipt(rec) + padded(enc_receipt(rec)).subrange(
                    enc_receipt(rec).len() as int,
                    MAX_ENCODED_SIZE as int,
                ) =~= padded(enc_receipt(rec)));
            }
            Ok(())
        },
        Err(e) => Err(e),
    }
}

} // verus!
