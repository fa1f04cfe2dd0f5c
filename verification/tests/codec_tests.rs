use solana_receipts::codec::{decode, encode};
use solana_receipts::error::{FieldKind, ReceiptError};
use solana_receipts::layout::max_encoded_size;
use solana_receipts::record::{FileMeta, Receipt};

fn sample_receipt() -> Receipt {
    Receipt {
        creator: [1u8; 32],
        payer: [2u8; 32],
        tx_hash: b"abc123".to_vec(),
        title: b"Invoice #1".to_vec(),
        description: b"january consulting".to_vec(),
        files: vec![
            FileMeta { name: b"a.pdf".to_vec(), hash: b"deadbeef".to_vec() },
            FileMeta { name: b"b.pdf".to_vec(), hash: b"cafef00d".to_vec() },
        ],
        timestamp: 1_700_000_000,
    }
}

fn assert_same_receipt(a: &Receipt, b: &Receipt) {
    assert_eq!(a.creator, b.creator);
    assert_eq!(a.payer, b.payer);
    assert_eq!(a.tx_hash, b.tx_hash);
    assert_eq!(a.title, b.title);
    assert_eq!(a.description, b.description);
    assert_eq!(a.files.len(), b.files.len());
    for (fa, fb) in a.files.iter().zip(b.files.iter()) {
        assert_eq!(fa.name, fb.name);
        assert_eq!(fa.hash, fb.hash);
    }
    assert_eq!(a.timestamp, b.timestamp);
}

#[test]
fn max_encoded_size_is_exactly_1224() {
    assert_eq!(max_encoded_size(), 1224);
}

#[test]
fn encode_stays_within_max_encoded_size() {
    let full = Receipt {
        creator: [3u8; 32],
        payer: [4u8; 32],
        tx_hash: vec![b'x'; 128],
        title: vec![b'y'; 64],
        description: vec![b'z'; 256],
        files: vec![
            FileMeta { name: vec![b'n'; 64], hash: vec![b'h'; 64] },
            FileMeta { name: vec![b'n'; 64], hash: vec![b'h'; 64] },
            FileMeta { name: vec![b'n'; 64], hash: vec![b'h'; 64] },
            FileMeta { name: vec![b'n'; 64], hash: vec![b'h'; 64] },
            FileMeta { name: vec![b'n'; 64], hash: vec![b'h'; 64] },
        ],
        timestamp: i64::MAX,
    };
    let bytes = encode(&full).unwrap();
    assert_eq!(bytes.len(), max_encoded_size());
    let small = encode(&sample_receipt()).unwrap();
    assert!(small.len() <= max_encoded_size());
}

#[test]
fn encode_decode_round_trip() {
    let r = sample_receipt();
    let bytes = encode(&r).unwrap();
    let back = decode(&bytes).unwrap();
    assert_same_receipt(&r, &back);
}

#[test]
fn encode_decode_round_trip_empty_fields() {
    let r = Receipt {
        creator: [0u8; 32],
        payer: [0u8; 32],
        tx_hash: Vec::new(),
        title: Vec::new(),
        description: Vec::new(),
        files: Vec::new(),
        timestamp: -1,
    };
    let bytes = encode(&r).unwrap();
    let back = decode(&bytes).unwrap();
    assert_same_receipt(&r, &back);
}

#[test]
fn decode_ignores_trailing_padding() {
    let r = sample_receipt();
    let mut bytes = encode(&r).unwrap();
    while bytes.len() < max_encoded_size() {
        bytes.push(0);
    }
    let back = decode(&bytes).unwrap();
    assert_same_receipt(&r, &back);
}

#[test]
fn encode_rejects_oversize_field_with_capacity_exceeded() {
    let mut r = sample_receipt();
    r.title = vec![b'y'; 65];
    assert_eq!(encode(&r), Err(ReceiptError::CapacityExceeded));
    let mut r2 = sample_receipt();
    r2.files = (0..6)
        .map(|_| FileMeta { name: b"n".to_vec(), hash: b"h".to_vec() })
        .collect();
    assert_eq!(encode(&r2), Err(ReceiptError::CapacityExceeded));
}

#[test]
fn decode_rejects_truncated_buffer() {
    assert!(matches!(decode(&[0u8; 10]), Err(ReceiptError::MalformedRecord)));
    let r = sample_receipt();
    let bytes = encode(&r).unwrap();
    let cut = &bytes[..bytes.len() - 1];
    assert!(matches!(decode(cut), Err(ReceiptError::MalformedRecord)));
}

#[test]
fn decode_rejects_length_prefix_past_end() {
    let r = Receipt {
        creator: [7u8; 32],
        payer: [8u8; 32],
        tx_hash: Vec::new(),
        title: Vec::new(),
        description: Vec::new(),
        files: Vec::new(),
        timestamp: 0,
    };
    let mut bytes = encode(&r).unwrap();
    // The tx_hash length prefix sits right after the discriminator and the
    // two identities; claim a huge payload that cannot be there.
    bytes[72] = 0xff;
    bytes[73] = 0xff;
    assert!(matches!(decode(&bytes), Err(ReceiptError::MalformedRecord)));
}

#[test]
fn decode_rejects_file_count_over_five() {
    let r = Receipt {
        creator: [7u8; 32],
        payer: [8u8; 32],
        tx_hash: Vec::new(),
        title: Vec::new(),
        description: Vec::new(),
        files: Vec::new(),
        timestamp: 0,
    };
    let mut bytes = encode(&r).unwrap();
    // With all text fields empty the file count sits at offset 84.
    assert_eq!(bytes[84], 0);
    bytes[84] = 6;
    assert!(matches!(decode(&bytes), Err(ReceiptError::MalformedRecord)));
}

#[test]
fn title_of_64_bytes_encodes_and_65_fails() {
    let mut r = sample_receipt();
    r.title = vec![b't'; 64];
    let bytes = encode(&r).unwrap();
    let back = decode(&bytes).unwrap();
    assert_eq!(back.title.len(), 64);
    r.title = vec![b't'; 65];
    assert!(encode(&r).is_err());
}

#[test]
fn field_kind_distinguishes_fields() {
    assert_ne!(
        ReceiptError::FieldTooLong(FieldKind::Title),
        ReceiptError::FieldTooLong(FieldKind::TxHash)
    );
}
