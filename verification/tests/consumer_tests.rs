use thor_client::consumer::{consume_stream, process_frame, FrameOutcome, StreamError};
use thor_client::dispatch::SubscriptionKind;
use thor_client::envelope::{
    encode_message, MessageWrapper, SlotStatusEvent, TransactionEvent,
};
use thor_client::format::{render_tx_log_line, transaction_log_record};

fn tx_frame() -> Vec<u8> {
    encode_message(&MessageWrapper::Transaction(TransactionEvent {
        signature: vec![0, 1],
        slot: 5,
        is_status_err: false,
        instructions: vec![],
    }))
}

fn slot_frame() -> Vec<u8> {
    encode_message(&MessageWrapper::SlotStatus(SlotStatusEvent {
        slot: 9,
        parent: 8,
        status_code: 1,
        block_hash: vec![],
        block_height: 2,
    }))
}

#[test]
fn expected_frame_is_an_event() {
    let frame = tx_frame();
    match process_frame(SubscriptionKind::Transactions, &frame) {
        Ok(FrameOutcome::Event(MessageWrapper::Transaction(t))) => assert_eq!(t.slot, 5),
        other => panic!("expected a transaction event, got {:?}", other),
    }
}

#[test]
fn other_kind_is_skipped() {
    let frame = slot_frame();
    match process_frame(SubscriptionKind::Transactions, &frame) {
        Ok(FrameOutcome::Skipped(MessageWrapper::SlotStatus(_))) => {}
        other => panic!("expected the envelope to be skipped, got {:?}", other),
    }
}

#[test]
fn empty_envelope_is_skipped() {
    let frame = encode_message(&MessageWrapper::Unknown);
    match process_frame(SubscriptionKind::Transactions, &frame) {
        Ok(FrameOutcome::Skipped(MessageWrapper::Unknown)) => {}
        other => panic!("expected the envelope to be skipped, got {:?}", other),
    }
}

#[test]
fn malformed_frame_is_fatal() {
    assert_eq!(
        process_frame(SubscriptionKind::Transactions, &[1, 2]).unwrap_err(),
        StreamError::Decode
    );
}

#[test]
fn test_consumer_two_frame_stream() {
    // one good transaction envelope, then a malformed frame: one logged
    // record, then the run ends with a decode error
    let frames = vec![tx_frame(), vec![255, 255, 255]];
    let result = consume_stream(SubscriptionKind::Transactions, &frames);
    assert_eq!(result.events.len(), 1);
    assert_eq!(result.skipped, 0);
    assert_eq!(result.error, Some(StreamError::Decode));
    let record = match &result.events[0] {
        MessageWrapper::Transaction(t) => transaction_log_record(1000, t),
        other => panic!("expected a transaction, got {:?}", other),
    };
    assert_eq!(
        render_tx_log_line(&record),
        "{\"timestamp\":1000,\"signature\":\"12\",\"slot\":5,\"success\":true}"
    );
}

#[test]
fn wallet_subscription_accepts_transactions() {
    let frames = vec![tx_frame(), slot_frame()];
    let result = consume_stream(SubscriptionKind::WalletTransactions, &frames);
    assert_eq!(result.events.len(), 1);
    assert_eq!(result.skipped, 1);
    assert_eq!(result.error, None);
}

#[test]
fn clean_stream_ends_without_error() {
    let frames = vec![slot_frame(), slot_frame()];
    let result = consume_stream(SubscriptionKind::Slots, &frames);
    assert_eq!(result.events.len(), 2);
    assert_eq!(result.skipped, 0);
    assert_eq!(result.error, None);
}
