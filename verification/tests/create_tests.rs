use solana_receipts::codec::decode;
use solana_receipts::create::{create_receipt, validate_fields, CreateReceipt};
use solana_receipts::error::{FieldKind, ReceiptError};
use solana_receipts::layout::max_encoded_size;
use solana_receipts::record::FileMeta;
use solana_receipts::store::SlotStore;

fn ctx(slot: u64) -> CreateReceipt {
    CreateReceipt { slot, creator: [9u8; 32], now: 1_700_000_123 }
}

#[test]
fn create_then_decode_reproduces_every_field() {
    let mut store = SlotStore::new();
    let files = vec![FileMeta { name: b"a.pdf".to_vec(), hash: b"deadbeef".to_vec() }];
    let res = create_receipt(
        &mut store,
        &ctx(7),
        [2u8; 32],
        b"abc123".to_vec(),
        b"Invoice #1".to_vec(),
        b"january".to_vec(),
        files,
    );
    assert_eq!(res, Ok(()));
    let stored = store.get(7).unwrap();
    assert_eq!(stored.len(), max_encoded_size());
    let rec = decode(stored).unwrap();
    assert_eq!(rec.creator, [9u8; 32]);
    assert_eq!(rec.payer, [2u8; 32]);
    assert_eq!(rec.tx_hash, b"abc123".to_vec());
    assert_eq!(rec.title, b"Invoice #1".to_vec());
    assert_eq!(rec.description, b"january".to_vec());
    assert_eq!(rec.files.len(), 1);
    assert_eq!(rec.files[0].name, b"a.pdf".to_vec());
    assert_eq!(rec.files[0].hash, b"deadbeef".to_vec());
    assert_eq!(rec.timestamp, 1_700_000_123);
}

#[test]
fn scenario_invoice_with_one_file_and_empty_description() {
    let mut store = SlotStore::new();
    let call = ctx(42);
    let res = create_receipt(
        &mut store,
        &call,
        [5u8; 32],
        b"abc123".to_vec(),
        b"Invoice #1".to_vec(),
        Vec::new(),
        vec![FileMeta { name: b"a.pdf".to_vec(), hash: b"deadbeef".to_vec() }],
    );
    assert_eq!(res, Ok(()));
    let rec = decode(store.get(42).unwrap()).unwrap();
    assert_eq!(rec.files.len(), 1);
    assert_eq!(rec.description, Vec::<u8>::new());
    assert_eq!(rec.timestamp, call.now);
}

#[test]
fn creating_twice_at_same_slot_fails_and_keeps_first_record() {
    let mut store = SlotStore::new();
    let res1 = create_receipt(
        &mut store,
        &ctx(3),
        [2u8; 32],
        b"first".to_vec(),
        b"one".to_vec(),
        Vec::new(),
        Vec::new(),
    );
    assert_eq!(res1, Ok(()));
    let before: Vec<u8> = store.get(3).unwrap().clone();
    let res2 = create_receipt(
        &mut store,
        &ctx(3),
        [4u8; 32],
        b"second".to_vec(),
        b"two".to_vec(),
        Vec::new(),
        Vec::new(),
    );
    assert_eq!(res2, Err(ReceiptError::AlreadyExists));
    let after = store.get(3).unwrap();
    assert_eq!(&before, after);
    let rec = decode(after).unwrap();
    assert_eq!(rec.tx_hash, b"first".to_vec());
    assert_eq!(rec.title, b"one".to_vec());
}

#[test]
fn creations_at_distinct_slots_are_independent() {
    let mut store = SlotStore::new();
    for slot in 0..4u64 {
        let res = create_receipt(
            &mut store,
            &ctx(slot),
            [slot as u8; 32],
            b"tx".to_vec(),
            b"t".to_vec(),
            Vec::new(),
            Vec::new(),
        );
        assert_eq!(res, Ok(()));
    }
    for slot in 0..4u64 {
        let rec = decode(store.get(slot).unwrap()).unwrap();
        assert_eq!(rec.payer, [slot as u8; 32]);
    }
}

#[test]
fn creator_and_timestamp_come_from_context_not_inputs() {
    let mut store = SlotStore::new();
    // The caller supplies a payer identity and would like to pick the
    // creator and the time; only payer makes it into the record.
    let forged = [77u8; 32];
    let call = CreateReceipt { slot: 1, creator: [9u8; 32], now: 55 };
    let res = create_receipt(
        &mut store,
        &call,
        forged,
        b"tx".to_vec(),
        b"t".to_vec(),
        Vec::new(),
        Vec::new(),
    );
    assert_eq!(res, Ok(()));
    let rec = decode(store.get(1).unwrap()).unwrap();
    assert_eq!(rec.payer, forged);
    assert_eq!(rec.creator, [9u8; 32]);
    assert_ne!(rec.creator, forged);
    assert_eq!(rec.timestamp, 55);
}

#[test]
fn title_of_exactly_64_bytes_succeeds_and_65_fails() {
    let mut store = SlotStore::new();
    let res = create_receipt(
        &mut store,
        &ctx(1),
        [2u8; 32],
        b"tx".to_vec(),
        vec![b't'; 64],
        Vec::new(),
        Vec::new(),
    );
    assert_eq!(res, Ok(()));
    let res = create_receipt(
        &mut store,
        &ctx(2),
        [2u8; 32],
        b"tx".to_vec(),
        vec![b't'; 65],
        Vec::new(),
        Vec::new(),
    );
    assert_eq!(res, Err(ReceiptError::FieldTooLong(FieldKind::Title)));
    assert!(!store.contains(2));
}

#[test]
fn five_files_succeed_and_six_fail() {
    let file = || FileMeta { name: b"n".to_vec(), hash: b"h".to_vec() };
    let mut store = SlotStore::new();
    let res = create_receipt(
        &mut store,
        &ctx(1),
        [2u8; 32],
        b"tx".to_vec(),
        b"t".to_vec(),
        Vec::new(),
        (0..5).map(|_| file()).collect(),
    );
    assert_eq!(res, Ok(()));
    let res = create_receipt(
        &mut store,
        &ctx(2),
        [2u8; 32],
        b"tx".to_vec(),
        b"t".to_vec(),
        Vec::new(),
        (0..6).map(|_| file()).collect(),
    );
    assert_eq!(res, Err(ReceiptError::TooManyFiles));
    assert!(!store.contains(2));
}

#[test]
fn each_text_field_reports_its_own_too_long_error() {
    let ok = Ok(());
    let v = |n: usize| vec![b'x'; n];
    assert_eq!(validate_fields(&v(128), &v(64), &v(256), &Vec::new()), ok);
    assert_eq!(
        validate_fields(&v(129), &v(0), &v(0), &Vec::new()),
        Err(ReceiptError::FieldTooLong(FieldKind::TxHash))
    );
    assert_eq!(
        validate_fields(&v(0), &v(65), &v(0), &Vec::new()),
        Err(ReceiptError::FieldTooLong(FieldKind::Title))
    );
    assert_eq!(
        validate_fields(&v(0), &v(0), &v(257), &Vec::new()),
        Err(ReceiptError::FieldTooLong(FieldKind::Description))
    );
    let long_name = vec![FileMeta { name: v(65), hash: v(64) }];
    assert_eq!(
        validate_fields(&v(0), &v(0), &v(0), &long_name),
        Err(ReceiptError::FieldTooLong(FieldKind::FileName))
    );
    let long_hash = vec![FileMeta { name: v(64), hash: v(65) }];
    assert_eq!(
        validate_fields(&v(0), &v(0), &v(0), &long_hash),
        Err(ReceiptError::FieldTooLong(FieldKind::FileHash))
    );
}

#[test]
fn validation_order_checks_file_count_before_text_fields() {
    let v = |n: usize| vec![b'x'; n];
    let six: Vec<FileMeta> = (0..6)
        .map(|_| FileMeta { name: b"n".to_vec(), hash: b"h".to_vec() })
        .collect();
    assert_eq!(
        validate_fields(&v(129), &v(65), &v(257), &six),
        Err(ReceiptError::TooManyFiles)
    );
}

#[test]
fn store_lookup_distinguishes_present_and_absent_slots() {
    let mut store = SlotStore::new();
    assert!(!store.contains(5));
    assert!(store.get(5).is_none());
    assert_eq!(store.put_if_absent(5, b"bytes".to_vec()), Ok(()));
    assert!(store.contains(5));
    assert_eq!(store.get(5).unwrap(), &b"bytes".to_vec());
    assert_eq!(
        store.put_if_absent(5, b"other".to_vec()),
        Err(ReceiptError::AlreadyExists)
    );
    assert_eq!(store.get(5).unwrap(), &b"bytes".to_vec());
}
