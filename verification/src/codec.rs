//! The deterministic byte layout of a receipt record.
//!
//! A record is laid out as: an 8-byte record-kind discriminator, the two
//! 32-byte identities, the three variable-length text fields each behind a
//! 4-byte little-endian length prefix, a 4-byte file count followed by the
//! file descriptors (each field length-prefixed the same way), and the
//! 8-byte timestamp. Decoding ignores trailing bytes, so a record read back
//! from a slot padded to the worst-case size decodes to the record written.

use vstd::bytes::{
    lemma_auto_spec_u32_to_from_le_bytes, lemma_auto_spec_u64_to_from_le_bytes,
    spec_u32_from_le_bytes, spec_u32_to_le_bytes, spec_u64_from_le_bytes, spec_u64_to_le_bytes,
    u32_from_le_bytes, u32_to_le_bytes, u64_from_le_bytes, u64_to_le_bytes,
};
use vstd::prelude::*;
use vstd::slice::{slice_subrange, slice_to_vec};

use crate::error::ReceiptError;
use crate::layout::{MAX_ENCODED_SIZE, MAX_FILES, MAX_FILE_ENTRY_SIZE, RECORD_KIND};
use crate::record::{files_abs, receipt_valid, FileMeta, FileMetaAbs, Receipt, ReceiptAbs};

verus! {

/// A variable-length field on the wire: a 4-byte little-endian length prefix
/// followed by the raw bytes.
pub open spec fn enc_bytes(b: Seq<u8>) -> Seq<u8> {
    spec_u32_to_le_bytes(b.len() as u32) + b
}

/// One file descriptor on the wire: its name, then its hash.
pub open spec fn enc_file(f: FileMetaAbs) -> Seq<u8> {
    enc_bytes(f.name) + enc_bytes(f.hash)
}

/// The file descriptors on the wire, in list order.
pub open spec fn enc_files(fs: Seq<FileMetaAbs>) -> Seq<u8>
    decreases fs.len(),
{
    if fs.len() == 0 {
        Seq::empty()
    } else {
        enc_file(fs.first()) + enc_files(fs.drop_first())
    }
}

/// The whole record on the wire, fields in their fixed order.
pub open spec fn enc_receipt(r: ReceiptAbs) -> Seq<u8> {
    spec_u64_to_le_bytes(RECORD_KIND) + r.creator + r.payer + enc_bytes(r.tx_hash) + enc_bytes(
        r.title,
    ) + enc_bytes(r.description) + spec_u32_to_le_bytes(r.files.len() as u32) + enc_files(r.files)
        + spec_u64_to_le_bytes(r.timestamp as u64)
}

/// Reads one length-prefixed field at `off`: the bytes and the offset just
/// past them, or nothing if the prefix or the payload would run past the end
/// of the buffer.
pub open spec fn dec_bytes(b: Seq<u8>, off: int) -> Option<(Seq<u8>, int)> {
    if off + 4 > b.len() {
        None
    } else {
        let n = spec_u32_from_le_bytes(b.subrange(off, off + 4)) as int;
        if off + 4 + n > b.len() {
            None
        } else {
            Some((b.subrange(off + 4, off + 4 + n), off + 4 + n))
        }
    }
}

/// Reads one file descriptor at `off`: its name, then its hash.
pub open spec fn dec_file(b: Seq<u8>, off: int) -> Option<(FileMetaAbs, int)> {
    match dec_bytes(b, off) {
        Some((name, o1)) => match dec_bytes(b, o1) {
            Some((hash, o2)) => Some((FileMetaAbs { name, hash }, o2)),
            None => None,
        },
        None => None,
    }
}

/// Reads `n` file descriptors starting at `off`, in order.
pub open spec fn dec_files(b: Seq<u8>, off: int, n: nat) -> Option<(Seq<FileMetaAbs>, int)>
    decreases n,
{
    if n == 0 {
        Some((Seq::empty(), off))
    } else {
        match dec_file(b, off) {
            Some((f, o1)) => match dec_files(b, o1, (n - 1) as nat) {
                Some((fs, o2)) => Some((seq![f] + fs, o2)),
                None => None,
            },
            None => None,
        }
    }
}

/// Decodes a whole record from `b`, skipping the 8-byte discriminator it
/// never interprets and ignoring any bytes past the timestamp. Yields
/// nothing when a length prefix implies a read past the buffer end or the
/// file count exceeds `MAX_FILES`.
pub open spec fn dec_receipt(b: Seq<u8>) -> Option<ReceiptAbs> {
    if b.len() < 72 {
        None
    } else {
        let creator = b.subrange(8, 40);
        let payer = b.subrange(40, 72);
        match dec_bytes(b, 72) {
            Some((tx_hash, o1)) => match dec_bytes(b, o1) {
                Some((title, o2)) => match dec_bytes(b, o2) {
                    Some((description, o3)) => {
                        if o3 + 4 > b.len() {
                            None
                        } else {
                            let n = spec_u32_from_le_bytes(b.subrange(o3, o3 + 4)) as int;
                            if n > MAX_FILES {
                                None
                            } else {
                                match dec_files(b, o3 + 4, n as nat) {
                                    Some((files, o4)) => if o4 + 8 <= b.len() {
                                        Some(
                                            ReceiptAbs {
                                                creator,
                                                payer,
                                                tx_hash,
                                                title,
                                                description,
                                                files,
                                                timestamp: spec_u64_from_le_bytes(
                                                    b.subrange(o4, o4 + 8),
                                                ) as i64,
                                            },
                                        )
                                    } else {
                                        None
                                    },
                                    None => None,
                                }
                            }
                        }
                    },
                    None => None,
                },
                None => None,
            },
            None => None,
        }
    }
}

/// Appends the bytes of `b` to `out`.
fn push_slice(out: &mut Vec<u8>, b: &[u8])
    ensures
        final(out)@ == old(out)@ + b@,
{
    let mut i: usize = 0;
    while i < b.len()
        invariant
            i <= b@.len(),
            out@ == old(out)@ + b@.subrange(0, i as int),
        decreases b@.len() - i,
    {
        out.push(b[i]);
        i = i + 1;
        proof {
            assert(out@ =~= old(out)@ + b@.subrange(0, i as int));
        }
    }
    proof {
        assert(out@ =~= old(out)@ + b@);
    }
}

/// Appends a 32-bit little-endian value to `out`.
fn push_u32_le(out: &mut Vec<u8>, x: u32)
    ensures
        final(out)@ == old(out)@ + spec_u32_to_le_bytes(x),
{
    let bytes = u32_to_le_bytes(x);
    push_slice(out, bytes.as_slice());
}

/// Appends a 64-bit little-endian value to `out`.
fn push_u64_le(out: &mut Vec<u8>, x: u64)
    ensures
        final(out)@ == old(out)@ + spec_u64_to_le_bytes(x),
{
    let bytes = u64_to_le_bytes(x);
    push_slice(out, bytes.as_slice());
}

/// Appends one length-prefixed field to `out`.
fn push_field(out: &mut Vec<u8>, b: &Vec<u8>)
    requires
        b@.len() <= u32::MAX,
    ensures
        final(out)@ == old(out)@ + enc_bytes(b@),
{
    push_u32_le(out, b.len() as u32);
    push_slice(out, b.as_slice());
    proof {
        assert(out@ =~= old(out)@ + enc_bytes(b@));
    }
}

/// Checks both capacity bounds of one file descriptor.
fn file_meta_within_bounds(f: &FileMeta) -> (ok: bool)
    ensures
        ok == crate::record::file_meta_valid(f@),
{
    f.name.len() <= crate::layout::MAX_FILE_NAME_LEN && f.hash.len()
        <= crate::layout::MAX_FILE_HASH_LEN
}

/// Checks every capacity bound of a receipt.
fn receipt_within_bounds(r: &Receipt) -> (ok: bool)
    ensures
        ok == receipt_valid(r@),
{
    if r.tx_hash.len() > crate::layout::MAX_TX_HASH_LEN {
        return false;
    }
    if r.title.len() > crate::layout::MAX_TITLE_LEN {
        return false;
    }
    if r.description.len() > crate::layout::MAX_DESCRIPTION_LEN {
        return false;
    }
    if r.files.len() > MAX_FILES {
        return false;
    }
    let mut i: usize = 0;
    while i < r.files.len()
        invariant
            i <= r.files@.len(),
            forall|k: int|
                0 <= k < i ==> crate::record::file_meta_valid(#[trigger] files_abs(r.files@)[k]),
        decreases r.files@.len() - i,
    {
        proof {
            assert(files_abs(r.files@)[i as int] == r.files@[i as int]@);
        }
        if !file_meta_within_bounds(&r.files[i]) {
            return false;
        }
        i = i + 1;
    }
    true
}

/// Bound on the wire size of a run of valid file descriptors.
proof fn lemma_enc_files_len(fs: Seq<FileMetaAbs>)
    requires
        forall|i: int| 0 <= i < fs.len() ==> crate::record::file_meta_valid(#[trigger] fs[i]),
    ensures
        enc_files(fs).len() <= fs.len() * MAX_FILE_ENTRY_SIZE,
    decreases fs.len(),
{
    lemma_auto_spec_u32_to_from_le_bytes();
    if fs.len() > 0 {
        assert(crate::record::file_meta_valid(fs[0]));
        assert(enc_file(fs.first()).len() <= MAX_FILE_ENTRY_SIZE);
        assert(forall|i: int|
            0 <= i < fs.drop_first().len() ==> #[trigger] fs.drop_first()[i] == fs[i + 1]);
        lemma_enc_files_len(fs.drop_first());
        assert(enc_files(fs).len() == enc_file(fs.first()).len() + enc_files(
            fs.drop_first(),
        ).len());
        assert((fs.len() - 1) * MAX_FILE_ENTRY_SIZE + MAX_FILE_ENTRY_SIZE == fs.len()
            * MAX_FILE_ENTRY_SIZE) by (nonlinear_arith);
    }
}

/// Capacity law: a valid receipt never encodes to more bytes than the
/// layout's worst-case size, so a slot allocated at `MAX_ENCODED_SIZE`
/// always has room for it.
pub proof fn lemma_enc_receipt_len(r: ReceiptAbs)
    requires
        receipt_valid(r),
    ensures
        enc_receipt(r).len() <= MAX_ENCODED_SIZE,
{
    lemma_auto_spec_u32_to_from_le_bytes();
    lemma_auto_spec_u64_to_from_le_bytes();
    lemma_enc_files_len(r.files);
    assert(spec_u64_to_le_bytes(RECORD_KIND).len() == 8);
    assert(spec_u64_to_le_bytes(r.timestamp as u64).len() == 8);
    assert(enc_bytes(r.tx_hash).len() == 4 + r.tx_hash.len());
    assert(enc_bytes(r.title).len() == 4 + r.title.len());
    assert(enc_bytes(r.description).len() == 4 + r.description.len());
    assert(spec_u32_to_le_bytes(r.files.len() as u32).len() == 4);
    assert(r.files.len() * MAX_FILE_ENTRY_SIZE <= 5 * MAX_FILE_ENTRY_SIZE) by (nonlinear_arith)
        requires
            r.files.len() <= 5,
    ;
    assert(enc_files(r.files).len() <= 5 * MAX_FILE_ENTRY_SIZE);
}

/// Splitting one descriptor off the end of the file list splits its wire
/// bytes the same way.
proof fn lemma_enc_files_push(fs: Seq<FileMetaAbs>, f: FileMetaAbs)
    ensures
        enc_files(fs.push(f)) == enc_files(fs) + enc_file(f),
    decreases fs.len(),
{
    if fs.len() == 0 {
        assert(fs.push(f).drop_first() =~= fs);
        assert(enc_files(fs.push(f)) =~= enc_files(fs) + enc_file(f));
    } else {
        assert(fs.push(f).drop_first() =~= fs.drop_first().push(f));
        lemma_enc_files_push(fs.drop_first(), f);
        assert(enc_files(fs.push(f)) =~= enc_files(fs) + enc_file(f));
    }
}

/// Serializes a receipt into its byte layout. Succeeds exactly when every
/// field is within the capacity bound baked into the layout, and then yields
/// exactly the wire form of the record, never larger than the worst-case
/// size the allocator reserved.
pub fn encode(r: &Receipt) -> (res: Result<Vec<u8>, ReceiptError>)
    ensures
        match res {
            Ok(v) => receipt_valid(r@) && v@ == enc_receipt(r@) && v@.len() <= MAX_ENCODED_SIZE,
            Err(e) => e == ReceiptError::CapacityExceeded && !receipt_valid(r@),
        },
{
    if !receipt_within_bounds(r) {
        return Err(ReceiptError::CapacityExceeded);
    }
    proof {
        lemma_auto_spec_u32_to_from_le_bytes();
        lemma_auto_spec_u64_to_from_le_bytes();
    }
    let mut out: Vec<u8> = Vec::new();
    push_u64_le(&mut out, RECORD_KIND);
    push_slice(&mut out, r.creator.as_slice());
    push_slice(&mut out, r.payer.as_slice());
    push_field(&mut out, &r.tx_hash);
    push_field(&mut out, &r.title);
    push_field(&mut out, &r.description);
    push_u32_le(&mut out, r.files.len() as u32);
    let ghost head = out@;
    let mut i: usize = 0;
    while i < r.files.len()
        invariant
            i <= r.files@.len(),
            forall|k: int|
                0 <= k < r.files@.len() ==> crate::record::file_meta_valid(
                    #[trigger] files_abs(r.files@)[k],
                ),
            out@ == head + enc_files(files_abs(r.files@).take(i as int)),
        decreases r.files@.len() - i,
    {
        let f = &r.files[i];
        proof {
            assert(files_abs(r.files@)[i as int] == r.files@[i as int]@);
        }
        push_field(&mut out, &f.name);
        push_field(&mut out, &f.hash);
        proof {
            let fs = files_abs(r.files@);
            assert(fs.take(i + 1) =~= fs.take(i as int).push(fs[i as int]));
            lemma_enc_files_push(fs.take(i as int), fs[i as int]);
            assert(out@ =~= head + enc_files(fs.take(i + 1)));
        }
        i = i + 1;
    }
    proof {
        assert(files_abs(r.files@).take(r.files@.len() as int) =~= files_abs(r.files@));
    }
    push_u64_le(&mut out, #[verifier::truncate] (r.timestamp as u64));
    proof {
        assert(out@ =~= enc_receipt(r@));
        lemma_enc_receipt_len(r@);
    }
    Ok(out)
}

/// A length-prefixed field whose wire bytes sit at `off` in `b` reads back
/// as exactly its payload.
proof fn lemma_dec_bytes_at(b: Seq<u8>, off: int, d: Seq<u8>)
    requires
        0 <= off,
        d.len() <= u32::MAX,
        off + 4 + d.len() <= b.len(),
        b.subrange(off, off + 4 + d.len()) == enc_bytes(d),
    ensures
        dec_bytes(b, off) == Some((d, off + 4 + d.len())),
{
    lemma_auto_spec_u32_to_from_le_bytes();
    let w = enc_bytes(d);
    let p = spec_u32_to_le_bytes(d.len() as u32);
    assert(p.len() == 4);
    assert forall|i: int| 0 <= i < 4 implies b.subrange(off, off + 4)[i] == p[i] by {
        assert(b.subrange(off, off + 4 + d.len())[i] == w[i]);
    };
    assert(b.subrange(off, off + 4) =~= p);
    assert(spec_u32_from_le_bytes(b.subrange(off, off + 4)) == d.len() as u32);
    assert forall|i: int| 0 <= i < d.len() implies b.subrange(off + 4, off + 4 + d.len())[i]
        == d[i] by {
        assert(b.subrange(off, off + 4 + d.len())[4 + i] == w[4 + i]);
        assert(w[4 + i] == d[i]);
    };
    assert(b.subrange(off + 4, off + 4 + d.len()) =~= d);
}

/// A run of valid file descriptors whose wire bytes sit at `off` in `b`
/// reads back as exactly that run.
proof fn lemma_dec_files_at(b: Seq<u8>, off: int, fs: Seq<FileMetaAbs>)
    requires
        0 <= off,
        off + enc_files(fs).len() <= b.len(),
        forall|i: int| 0 <= i < fs.len() ==> crate::record::file_meta_valid(#[trigger] fs[i]),
        b.subrange(off, off + enc_files(fs).len()) == enc_files(fs),
    ensures
        dec_files(b, off, fs.len()) == Some((fs, off + enc_files(fs).len())),
    decreases fs.len(),
{
    lemma_auto_spec_u32_to_from_le_bytes();
    if fs.len() == 0 {
        assert(fs =~= Seq::<FileMetaAbs>::empty());
    } else {
        let f = fs.first();
        let rest = fs.drop_first();
        let w = enc_files(fs);
        assert(crate::record::file_meta_valid(fs[0]));
        assert(w == enc_file(f) + enc_files(rest));
        assert(spec_u32_to_le_bytes(f.name.len() as u32).len() == 4);
        assert(spec_u32_to_le_bytes(f.hash.len() as u32).len() == 4);
        assert(enc_bytes(f.name).len() == 4 + f.name.len());
        assert(enc_bytes(f.hash).len() == 4 + f.hash.len());
        let nlen = 4 + f.name.len() as int;
        let hlen = 4 + f.hash.len() as int;
        let o_hash = off + nlen;
        let o_end = o_hash + hlen;
        assert forall|i: int| 0 <= i < nlen implies b.subrange(off, off + nlen)[i] == enc_bytes(
            f.name,
        )[i] by {
            assert(b.subrange(off, off + w.len())[i] == w[i]);
            assert(w[i] == (enc_file(f) + enc_files(rest))[i]);
            assert(enc_file(f)[i] == (enc_bytes(f.name) + enc_bytes(f.hash))[i]);
        };
        assert(b.subrange(off, off + nlen) =~= enc_bytes(f.name));
        lemma_dec_bytes_at(b, off, f.name);
        assert forall|i: int| 0 <= i < hlen implies b.subrange(o_hash, o_hash + hlen)[i]
            == enc_bytes(f.hash)[i] by {
            assert(b.subrange(off, off + w.len())[nlen + i] == w[nlen + i]);
            assert(w[nlen + i] == (enc_file(f) + enc_files(rest))[nlen + i]);
            assert(enc_file(f)[nlen + i] == (enc_bytes(f.name) + enc_bytes(f.hash))[nlen + i]);
        };
        assert(b.subrange(o_hash, o_hash + hlen) =~= enc_bytes(f.hash));
        lemma_dec_bytes_at(b, o_hash, f.hash);
        assert((FileMetaAbs { name: f.name, hash: f.hash }) =~= f);
        assert(dec_file(b, off) == Some((f, o_end)));
        assert forall|i: int| 0 <= i < rest.len() implies crate::record::file_meta_valid(
            #[trigger] rest[i],
        ) by {
            assert(rest[i] == fs[i + 1]);
        };
        assert forall|i: int| 0 <= i < enc_files(rest).len() implies b.subrange(
            o_end,
            o_end + enc_files(rest).len(),
        )[i] == enc_files(rest)[i] by {
            assert(b.subrange(off, off + w.len())[(nlen + hlen) + i] == w[(nlen + hlen) + i]);
            assert(w[(nlen + hlen) + i] == (enc_file(f) + enc_files(rest))[(nlen + hlen) + i]);
        };
        assert(b.subrange(o_end, o_end + enc_files(rest).len()) =~= enc_files(rest));
        lemma_dec_files_at(b, o_end, rest);
        assert(seq![f] + rest =~= fs);
    }
}

/// Round-trip law: decoding the wire form of a valid record, with any
/// trailing padding after it, yields back exactly that record.
pub proof fn lemma_encode_decode(r: ReceiptAbs, tail: Seq<u8>)
    requires
        receipt_valid(r),
    ensures
        dec_receipt(enc_receipt(r) + tail) == Some(r),
{
    lemma_auto_spec_u32_to_from_le_bytes();
    lemma_auto_spec_u64_to_from_le_bytes();
    let b = enc_receipt(r) + tail;
    let o_tx: int = 72;
    let o_title = o_tx + 4 + r.tx_hash.len();
    let o_desc = o_title + 4 + r.title.len();
    let o_count = o_desc + 4 + r.description.len();
    let o_files = o_count + 4;
    let o_ts = o_files + enc_files(r.files).len();
    lemma_enc_receipt_len(r);
    assert(spec_u64_to_le_bytes(RECORD_KIND).len() == 8);
    assert(enc_bytes(r.tx_hash).len() == 4 + r.tx_hash.len());
    assert(enc_bytes(r.title).len() == 4 + r.title.len());
    assert(enc_bytes(r.description).len() == 4 + r.description.len());
    assert(spec_u32_to_le_bytes(r.files.len() as u32).len() == 4);
    assert(enc_receipt(r).len() == o_ts + 8);
    assert(b.subrange(8, 40) =~= r.creator);
    assert(b.subrange(40, 72) =~= r.payer);
    assert(b.subrange(o_tx, o_tx + 4 + r.tx_hash.len()) =~= enc_bytes(r.tx_hash));
    lemma_dec_bytes_at(b, o_tx, r.tx_hash);
    assert(b.subrange(o_title, o_title + 4 + r.title.len()) =~= enc_bytes(r.title));
    lemma_dec_bytes_at(b, o_title, r.title);
    assert(b.subrange(o_desc, o_desc + 4 + r.description.len()) =~= enc_bytes(r.description));
    lemma_dec_bytes_at(b, o_desc, r.description);
    assert(b.subrange(o_count, o_count + 4) =~= spec_u32_to_le_bytes(r.files.len() as u32));
    assert(spec_u32_from_le_bytes(b.subrange(o_count, o_count + 4)) == r.files.len());
    assert(b.subrange(o_files, o_files + enc_files(r.files).len()) =~= enc_files(r.files));
    lemma_dec_files_at(b, o_files, r.files);
    assert(b.subrange(o_ts, o_ts + 8) =~= spec_u64_to_le_bytes(r.timestamp as u64));
    assert(spec_u64_from_le_bytes(b.subrange(o_ts, o_ts + 8)) == r.timestamp as u64);
    let ts = r.timestamp;
    assert(((ts as u64) as i64) == ts) by (bit_vector);
    assert(dec_receipt(b) matches Some(m) && m =~= r);
}

/// Round-trip law on the bare wire bytes: decode inverts encode on every
/// valid record.
pub proof fn lemma_round_trip(r: ReceiptAbs)
    requires
        receipt_valid(r),
    ensures
        dec_receipt(enc_receipt(r)) == Some(r),
{
    lemma_encode_decode(r, Seq::empty());
    assert(enc_receipt(r) + Seq::<u8>::empty() =~= enc_receipt(r));
}

/// Copies the 32 identity bytes at `off` into a fixed-size array.
fn read_id32(b: &[u8], off: usize) -> (id: [u8; 32])
    requires
        off + 32 <= b@.len(),
    ensures
        id@ == b@.subrange(off as int, off + 32),
{
    let mut id = [0u8; 32];
    let blen = b.len();
    let mut i: usize = 0;
    while i < 32
        invariant
            i <= 32,
            off + 32 <= blen,
            blen == b@.len(),
            forall|k: int| 0 <= k < i ==> id@[k] == b@[off + k],
        decreases 32 - i,
    {
        id[i] = b[off + i];
        i = i + 1;
    }
    proof {
        assert(id@ =~= b@.subrange(off as int, off + 32));
    }
    id
}

/// Reads one length-prefixed field at `off`, exactly as `dec_bytes` says.
fn read_field(b: &[u8], off: usize) -> (res: Result<(Vec<u8>, usize), ReceiptError>)
    requires
        off <= b@.len(),
    ensures
        match res {
            Ok(p) => dec_bytes(b@, off as int) == Some((p.0@, p.1 as int)) && off <= p.1
                <= b@.len(),
            Err(e) => e == ReceiptError::MalformedRecord && dec_bytes(b@, off as int) is None,
        },
{
    if b.len() - off < 4 {
        return Err(ReceiptError::MalformedRecord);
    }
    let n_u32 = u32_from_le_bytes(slice_subrange(b, off, off + 4));
    let n = n_u32 as usize;
    if b.len() - off - 4 < n {
        return Err(ReceiptError::MalformedRecord);
    }
    let data = slice_to_vec(slice_subrange(b, off + 4, off + 4 + n));
    Ok((data, off + 4 + n))
}

/// Deserializes a record from `b`: the exact inverse of `encode` on every
/// buffer `dec_receipt` accepts, and `MalformedRecord` on every other.
#[verifier::loop_isolation(false)]
pub fn decode(b: &[u8]) -> (res: Result<Receipt, ReceiptError>)
    ensures
        match res {
            Ok(r) => dec_receipt(b@) == Some(r@),
            Err(e) => e == ReceiptError::MalformedRecord && dec_receipt(b@) is None,
        },
{
    if b.len() < 72 {
        return Err(ReceiptError::MalformedRecord);
    }
    let creator = read_id32(b, 8);
    let payer = read_id32(b, 40);
    let (tx_hash, o1) = match read_field(b, 72) {
        Ok(p) => p,
        Err(e) => {
            return Err(e);
        },
    };
    let (title, o2) = match read_field(b, o1) {
        Ok(p) => p,
        Err(e) => {
            return Err(e);
        },
    };
    let (description, o3) = match read_field(b, o2) {
        Ok(p) => p,
        Err(e) => {
            return Err(e);
        },
    };
    if b.len() - o3 < 4 {
        return Err(ReceiptError::MalformedRecord);
    }
    let count = u32_from_le_bytes(slice_subrange(b, o3, o3 + 4)) as usize;
    if count > MAX_FILES {
        return Err(ReceiptError::MalformedRecord);
    }
    let ghost off0: int = o3 + 4;
    let mut files: Vec<FileMeta> = Vec::new();
    let mut off: usize = o3 + 4;
    let mut j: usize = 0;
    while j < count
        invariant
            j <= count,
            off <= b@.len(),
            files@.len() == j,
            off0 <= b@.len(),
            match dec_files(b@, off as int, (count - j) as nat) {
                Some((rest, o)) => dec_files(b@, off0, count as nat) == Some(
                    (files_abs(files@) + rest, o),
                ),
                None => dec_files(b@, off0, count as nat) is None,
            },
        decreases count - j,
    {
        let (name, on) = match read_field(b, off) {
            Ok(p) => p,
            Err(e) => {
                proof {
                    assert(dec_file(b@, off as int) is None);
                    assert(dec_files(b@, off as int, (count - j) as nat) is None);
                    assert(dec_receipt(b@) is None);
                }
                return Err(e);
            },
        };
        let (hash, oh) = match read_field(b, on) {
            Ok(p) => p,
            Err(e) => {
                proof {
                    assert(dec_file(b@, off as int) is None);
                    assert(dec_files(b@, off as int, (count - j) as nat) is None);
                    assert(dec_receipt(b@) is None);
                }
                return Err(e);
            },
        };
        let fm = FileMeta { name, hash };
        proof {
            let fs = files_abs(files@);
            assert(dec_file(b@, off as int) == Some((fm@, oh as int)));
            assert(files_abs(files@.push(fm)) =~= fs.push(fm@));
            match dec_files(b@, oh as int, (count - j - 1) as nat) {
                Some((rest2, o2x)) => {
                    assert(dec_files(b@, off as int, (count - j) as nat) == Some(
                        (seq![fm@] + rest2, o2x),
                    ));
                    assert(fs + (seq![fm@] + rest2) =~= fs.push(fm@) + rest2);
                },
                None => {
                    assert(dec_files(b@, off as int, (count - j) as nat) is None);
                },
            }
        }
        files.push(fm);
        off = oh;
        j = j + 1;
    }
    proof {
        assert(dec_files(b@, off as int, 0) == Some((Seq::<FileMetaAbs>::empty(), off as int)));
        assert(files_abs(files@) + Seq::<FileMetaAbs>::empty() =~= files_abs(files@));
        assert(dec_files(b@, off0, count as nat) == Some((files_abs(files@), off as int)));
    }
    if b.len() - off < 8 {
        return Err(ReceiptError::MalformedRecord);
    }
    let ts_bits = u64_from_le_bytes(slice_subrange(b, off, off + 8));
    let receipt = Receipt {
        creator,
        payer,
        tx_hash,
        title,
        description,
        files,
        timestamp: #[verifier::truncate] (ts_bits as i64),
    };
    proof {
        assert(dec_receipt(b@) == Some(receipt@));
    }
    Ok(receipt)
}

} // verus!
