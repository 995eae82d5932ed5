use thor_client::base58::base58_encode;
use thor_client::status::{status_from_code, SlotStatusKind};
use thor_client::text::{parse_u64, u64_to_string};

#[test]
fn status_known_codes() {
    assert_eq!(status_from_code(0), SlotStatusKind::Processed);
    assert_eq!(status_from_code(1), SlotStatusKind::Confirmed);
    assert_eq!(status_from_code(2), SlotStatusKind::Rooted);
}

#[test]
fn status_other_codes_are_unknown() {
    assert_eq!(status_from_code(3), SlotStatusKind::Unknown);
    assert_eq!(status_from_code(255), SlotStatusKind::Unknown);
    // a negative value cast to the wire type lands far out of range
    assert_eq!(status_from_code((-1i64) as u64), SlotStatusKind::Unknown);
    assert_eq!(status_from_code(u64::MAX), SlotStatusKind::Unknown);
}

#[test]
fn status_names() {
    assert_eq!(status_from_code(0).name(), "PROCESSED");
    assert_eq!(status_from_code(1).name(), "CONFIRMED");
    assert_eq!(status_from_code(2).name(), "ROOTED");
    assert_eq!(status_from_code(99).name(), "UNKNOWN");
}

#[test]
fn base58_empty_is_empty() {
    assert_eq!(base58_encode(&vec![]), "");
}

#[test]
fn base58_zero_bytes_become_ones() {
    assert_eq!(base58_encode(&vec![0]), "1");
    assert_eq!(base58_encode(&vec![0, 0]), "11");
}

#[test]
fn base58_small_values() {
    assert_eq!(base58_encode(&vec![1]), "2");
    assert_eq!(base58_encode(&vec![57]), "z");
    assert_eq!(base58_encode(&vec![58]), "21");
}

#[test]
fn base58_known_vectors() {
    assert_eq!(base58_encode(&b"Hello World!".to_vec()), "2NEpo7TZRRrLZSi2U");
    assert_eq!(
        base58_encode(&vec![0x00, 0x00, 0x28, 0x7f, 0xb4, 0xcd]),
        "11233QC4"
    );
}

#[test]
fn decimal_rendering() {
    assert_eq!(u64_to_string(0), "0");
    assert_eq!(u64_to_string(12345), "12345");
    assert_eq!(u64_to_string(u64::MAX), "18446744073709551615");
}

#[test]
fn decimal_parsing() {
    assert_eq!(parse_u64("0"), Some(0));
    assert_eq!(parse_u64("4"), Some(4));
    assert_eq!(parse_u64("18446744073709551615"), Some(u64::MAX));
    assert_eq!(parse_u64("18446744073709551616"), None);
    assert_eq!(parse_u64(""), None);
    assert_eq!(parse_u64("12a"), None);
    assert_eq!(parse_u64("-1"), None);
}
