use thor_client::envelope::{
    encode_message, AccountUpdateEvent, InstructionInfo, MessageWrapper, SlotStatusEvent,
    TransactionEvent,
};
use thor_client::decode::parse_message;
use thor_client::varint::{read_varint, write_varint};

fn sample_transaction() -> TransactionEvent {
    TransactionEvent {
        signature: vec![1, 2, 3, 255],
        slot: 4242,
        is_status_err: false,
        instructions: vec![
            InstructionInfo { program_index: 0, account_indexes: vec![1, 2], data_len: 9 },
            InstructionInfo { program_index: 300, account_indexes: vec![], data_len: 0 },
        ],
    }
}

#[test]
fn varint_small_values() {
    let mut out: Vec<u8> = Vec::new();
    write_varint(&mut out, 0);
    write_varint(&mut out, 127);
    write_varint(&mut out, 128);
    assert_eq!(out, vec![0x00, 0x7f, 0x80, 0x01]);
}

#[test]
fn varint_round_trips_largest() {
    let mut out: Vec<u8> = Vec::new();
    write_varint(&mut out, u64::MAX);
    assert_eq!(out.len(), 10);
    let (v, end) = read_varint(&out, 0).unwrap();
    assert_eq!(v, u64::MAX);
    assert_eq!(end, 10);
}

#[test]
fn varint_rejects_non_canonical() {
    // a continuation byte followed by a zero group never comes from the encoder
    assert!(read_varint(&[0x80, 0x00], 0).is_none());
    assert!(read_varint(&[0x80], 0).is_none());
    assert!(read_varint(&[], 0).is_none());
}

#[test]
fn unknown_envelope_is_one_zero_byte() {
    let bytes = encode_message(&MessageWrapper::Unknown);
    assert_eq!(bytes, vec![0]);
    assert!(matches!(parse_message(&bytes), Ok(MessageWrapper::Unknown)));
}

#[test]
fn transaction_round_trips() {
    let ev = sample_transaction();
    let bytes = encode_message(&MessageWrapper::Transaction(ev.clone()));
    match parse_message(&bytes) {
        Ok(MessageWrapper::Transaction(t)) => {
            assert_eq!(t.signature, ev.signature);
            assert_eq!(t.slot, ev.slot);
            assert_eq!(t.is_status_err, ev.is_status_err);
            assert_eq!(t.instructions.len(), 2);
            assert_eq!(t.instructions[0].program_index, 0);
            assert_eq!(t.instructions[0].account_indexes, vec![1, 2]);
            assert_eq!(t.instructions[0].data_len, 9);
            assert_eq!(t.instructions[1].program_index, 300);
            assert_eq!(t.instructions[1].account_indexes, Vec::<u8>::new());
        }
        other => panic!("expected a transaction, got {:?}", other),
    }
}

#[test]
fn slot_status_round_trips() {
    let ev = SlotStatusEvent {
        slot: 10,
        parent: 9,
        status_code: 2,
        block_hash: vec![0, 7, 8],
        block_height: 100,
    };
    let bytes = encode_message(&MessageWrapper::SlotStatus(ev.clone()));
    match parse_message(&bytes) {
        Ok(MessageWrapper::SlotStatus(s)) => {
            assert_eq!(s.slot, 10);
            assert_eq!(s.parent, 9);
            assert_eq!(s.status_code, 2);
            assert_eq!(s.block_hash, vec![0, 7, 8]);
            assert_eq!(s.block_height, 100);
        }
        other => panic!("expected a slot status, got {:?}", other),
    }
}

#[test]
fn account_update_round_trips() {
    let ev = AccountUpdateEvent {
        pubkey: vec![9; 32],
        owner: vec![1; 32],
        lamports: u64::MAX,
        executable: true,
        rent_epoch: 361,
        write_version: 77,
        data_len: 1024,
        txn_signature: vec![],
        slot: 123456789,
        slot_status: None,
    };
    let bytes = encode_message(&MessageWrapper::AccountUpdate(ev.clone()));
    match parse_message(&bytes) {
        Ok(MessageWrapper::AccountUpdate(a)) => {
            assert_eq!(a.pubkey, ev.pubkey);
            assert_eq!(a.owner, ev.owner);
            assert_eq!(a.lamports, u64::MAX);
            assert!(a.executable);
            assert_eq!(a.rent_epoch, 361);
            assert_eq!(a.write_version, 77);
            assert_eq!(a.data_len, 1024);
            assert_eq!(a.txn_signature, Vec::<u8>::new());
            assert_eq!(a.slot, 123456789);
            assert!(a.slot_status.is_none());
        }
        other => panic!("expected an account update, got {:?}", other),
    }
}

#[test]
fn account_update_with_block_round_trips() {
    let ev = AccountUpdateEvent {
        pubkey: vec![4],
        owner: vec![5],
        lamports: 1,
        executable: false,
        rent_epoch: 0,
        write_version: 0,
        data_len: 0,
        txn_signature: vec![6],
        slot: 20,
        slot_status: Some(SlotStatusEvent {
            slot: 20,
            parent: 19,
            status_code: 1,
            block_hash: vec![7, 8],
            block_height: 15,
        }),
    };
    let bytes = encode_message(&MessageWrapper::AccountUpdate(ev));
    match parse_message(&bytes) {
        Ok(MessageWrapper::AccountUpdate(a)) => {
            let b = a.slot_status.expect("the embedded block survives the codec");
            assert_eq!(b.slot, 20);
            assert_eq!(b.parent, 19);
            assert_eq!(b.status_code, 1);
            assert_eq!(b.block_hash, vec![7, 8]);
            assert_eq!(b.block_height, 15);
        }
        other => panic!("expected an account update, got {:?}", other),
    }
}

#[test]
fn parse_rejects_malformed_frames() {
    assert!(parse_message(&[]).is_err());
    // unknown tag
    assert!(parse_message(&[9]).is_err());
    // trailing byte after an empty envelope
    assert!(parse_message(&[0, 0]).is_err());
    // transaction tag with nothing behind it
    assert!(parse_message(&[1]).is_err());
    // truncated payload
    let ev = sample_transaction();
    let mut bytes = encode_message(&MessageWrapper::Transaction(ev));
    bytes.pop();
    assert!(parse_message(&bytes).is_err());
}

#[test]
fn parse_rejects_non_canonical_length() {
    // an envelope whose signature length is a padded varint: the same
    // value, but not the canonical byte form
    let ev = TransactionEvent {
        signature: vec![],
        slot: 0,
        is_status_err: false,
        instructions: vec![],
    };
    let canonical = encode_message(&MessageWrapper::Transaction(ev));
    assert!(parse_message(&canonical).is_ok());
    // replace the zero length byte with its padded two-byte form
    let mut padded = canonical.clone();
    assert_eq!(padded[1], 0);
    padded.splice(1..2, [0x80, 0x00]);
    assert!(parse_message(&padded).is_err());
}

#[test]
fn parse_rejects_trailing_bytes() {
    let ev = sample_transaction();
    let mut bytes = encode_message(&MessageWrapper::Transaction(ev));
    bytes.push(0);
    assert!(parse_message(&bytes).is_err());
}
