use thor_client::auth::{validate_token, ConnectionError};
use thor_client::dispatch::{
    build_accounts_request, build_wallets_request, kind_from_choice, split_addresses,
    validate_mode, SubscriptionKind, SubscriptionMode, UserInputError,
};
use thor_client::envelope::{AccountUpdateEvent, InstructionInfo, SlotStatusEvent, TransactionEvent};
use thor_client::format::{
    account_log_record, format_account_update, format_slot_status, format_transaction,
    render_account_log_line, transaction_log_record,
};

fn tx(is_status_err: bool) -> TransactionEvent {
    TransactionEvent {
        signature: vec![7],
        slot: 11,
        is_status_err,
        instructions: vec![],
    }
}

#[test]
fn failed_status_logs_success_false() {
    let r = transaction_log_record(1, &tx(true));
    assert!(!r.success);
}

#[test]
fn clean_status_logs_success_true() {
    let r = transaction_log_record(1, &tx(false));
    assert!(r.success);
}

#[test]
fn console_and_log_share_signature_characters() {
    let ev = tx(false);
    let record = transaction_log_record(1, &ev);
    let console = format_transaction(&ev);
    assert!(console.contains(record.signature.as_str()));
    assert_eq!(record.signature, "8");
}

#[test]
fn transaction_console_text() {
    let ev = TransactionEvent {
        signature: vec![1],
        slot: 3,
        is_status_err: true,
        instructions: vec![InstructionInfo {
            program_index: 4,
            account_indexes: vec![0, 2],
            data_len: 8,
        }],
    };
    assert_eq!(
        format_transaction(&ev),
        "Transaction sig=2 slot=3 success=false\n  instr 4 accounts: 0 2 data_len=8\n"
    );
}

#[test]
fn transaction_console_caps_instruction_preview() {
    let ins = InstructionInfo { program_index: 1, account_indexes: vec![], data_len: 0 };
    let ev = TransactionEvent {
        signature: vec![],
        slot: 0,
        is_status_err: false,
        instructions: vec![ins.clone(), ins.clone(), ins.clone(), ins.clone(), ins],
    };
    let text = format_transaction(&ev);
    assert!(text.ends_with("  ... and 2 more\n"));
    assert_eq!(text.matches("  instr ").count(), 3);
}

#[test]
fn slot_console_text() {
    let ev = SlotStatusEvent {
        slot: 12,
        parent: 11,
        status_code: 2,
        block_hash: vec![1],
        block_height: 9,
    };
    assert_eq!(
        format_slot_status(&ev),
        "Slot 12 parent=11 status=ROOTED hash=2 height=9\n"
    );
}

#[test]
fn slot_console_omits_absent_hash() {
    let ev = SlotStatusEvent {
        slot: 1,
        parent: 0,
        status_code: 7,
        block_hash: vec![],
        block_height: 0,
    };
    assert_eq!(
        format_slot_status(&ev),
        "Slot 1 parent=0 status=UNKNOWN height=0\n"
    );
}

#[test]
fn account_console_and_log_line() {
    let ev = AccountUpdateEvent {
        pubkey: vec![0],
        owner: vec![1],
        lamports: 5,
        executable: false,
        rent_epoch: 2,
        write_version: 3,
        data_len: 4,
        txn_signature: vec![],
        slot: 6,
        slot_status: None,
    };
    assert_eq!(
        format_account_update(&ev),
        "Account 1 owner=2 lamports=5 executable=false rent_epoch=2 write_version=3 data_len=4 slot=6\n"
    );
    let record = account_log_record(9, &ev);
    assert_eq!(
        render_account_log_line(&record),
        "{\"timestamp\":9,\"pubkey\":\"1\",\"owner\":\"2\",\"lamports\":5,\"slot\":6,\"executable\":false}"
    );
}

#[test]
fn account_console_prints_embedded_block() {
    let ev = AccountUpdateEvent {
        pubkey: vec![0],
        owner: vec![1],
        lamports: 5,
        executable: false,
        rent_epoch: 2,
        write_version: 3,
        data_len: 4,
        txn_signature: vec![],
        slot: 6,
        slot_status: Some(SlotStatusEvent {
            slot: 6,
            parent: 5,
            status_code: 0,
            block_hash: vec![],
            block_height: 4,
        }),
    };
    assert_eq!(
        format_account_update(&ev),
        "Account 1 owner=2 lamports=5 executable=false rent_epoch=2 write_version=3 data_len=4 slot=6\n  with Slot 6 parent=5 status=PROCESSED height=4\n"
    );
}

#[test]
fn menu_choices_map_to_kinds() {
    assert_eq!(kind_from_choice(1), Ok(SubscriptionKind::Transactions));
    assert_eq!(kind_from_choice(2), Ok(SubscriptionKind::Slots));
    assert_eq!(kind_from_choice(3), Ok(SubscriptionKind::WalletTransactions));
    assert_eq!(kind_from_choice(4), Ok(SubscriptionKind::AccountUpdates));
    assert_eq!(kind_from_choice(0), Err(UserInputError::InvalidChoice));
    assert_eq!(kind_from_choice(5), Err(UserInputError::InvalidChoice));
}

#[test]
fn accounts_mode_with_no_filters_is_rejected() {
    let mode = SubscriptionMode::AccountUpdates { accounts: vec![], owners: vec![] };
    assert_eq!(validate_mode(&mode), Err(UserInputError::EmptyAddressFilters));
}

#[test]
fn accounts_mode_with_one_filter_is_accepted() {
    let with_account = SubscriptionMode::AccountUpdates {
        accounts: vec![String::from("addr")],
        owners: vec![],
    };
    assert_eq!(validate_mode(&with_account), Ok(()));
    let with_owner = SubscriptionMode::AccountUpdates {
        accounts: vec![],
        owners: vec![String::from("owner")],
    };
    assert_eq!(validate_mode(&with_owner), Ok(()));
}

#[test]
fn unfiltered_modes_are_accepted() {
    assert_eq!(validate_mode(&SubscriptionMode::Transactions), Ok(()));
    assert_eq!(validate_mode(&SubscriptionMode::Slots), Ok(()));
    assert_eq!(
        validate_mode(&SubscriptionMode::WalletTransactions { wallets: vec![] }),
        Ok(())
    );
}

#[test]
fn token_with_control_character_is_rejected() {
    assert_eq!(
        validate_token(&String::from("bad\ntoken")),
        Err(ConnectionError::InvalidToken)
    );
    assert_eq!(
        validate_token(&String::from("\u{7f}")),
        Err(ConnectionError::InvalidToken)
    );
}

#[test]
fn ordinary_tokens_are_accepted() {
    assert_eq!(validate_token(&String::from("")), Ok(()));
    assert_eq!(validate_token(&String::from("Bearer abc-123")), Ok(()));
    assert_eq!(validate_token(&String::from("\t")), Ok(()));
}

#[test]
fn split_addresses_trims_and_drops_empties() {
    assert_eq!(
        split_addresses(" abc , def,, ghi ,\t"),
        vec!["abc".to_string(), "def".to_string(), "ghi".to_string()]
    );
    assert_eq!(split_addresses(""), Vec::<String>::new());
    assert_eq!(split_addresses(" , ,"), Vec::<String>::new());
    assert_eq!(split_addresses("one"), vec!["one".to_string()]);
}

#[test]
fn request_bodies_are_protobuf_string_fields() {
    // field 1, length-delimited: key 0x0a; field 2: key 0x12
    assert_eq!(
        build_wallets_request(&vec!["ab".to_string()]),
        vec![0x0a, 0x02, 0x61, 0x62]
    );
    assert_eq!(
        build_accounts_request(&vec!["a".to_string()], &vec!["é".to_string()]),
        vec![0x0a, 0x01, 0x61, 0x12, 0x02, 0xc3, 0xa9]
    );
    assert_eq!(build_wallets_request(&vec![]), Vec::<u8>::new());
}
