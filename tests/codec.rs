use cometbft_playground::codec::{decode, encode, DecodeError};
use cometbft_playground::common::{Address, ChainId, DateTimeUtc};
use cometbft_playground::transaction::{Header, Transaction, TxPayload};

const TS_SECS: i64 = 1_700_000_000;
const TS_TEXT: &str = "2023-11-14T22:13:20.000000000+00:00";

fn header(expiration: Option<DateTimeUtc>) -> Header {
    Header {
        chain_id: ChainId("test".to_string()),
        expiration,
        timestamp: DateTimeUtc { secs: TS_SECS, nanos: 0 },
    }
}

fn transfer_tx() -> Transaction {
    Transaction {
        header: header(None),
        chain_id: ChainId("test".to_string()),
        from: Address([1u8; 20]),
        tx_payload: TxPayload::Transfer { to: Address([2u8; 20]), amount: 100 },
        nonce: 1,
    }
}

fn same_tx(a: &Transaction, b: &Transaction) -> bool {
    let payload_eq = match (&a.tx_payload, &b.tx_payload) {
        (TxPayload::CreateAccount, TxPayload::CreateAccount) => true,
        (
            TxPayload::Transfer { to: t1, amount: a1 },
            TxPayload::Transfer { to: t2, amount: a2 },
        ) => t1.0 == t2.0 && a1 == a2,
        _ => false,
    };
    a.header.chain_id.0 == b.header.chain_id.0
        && a.header.expiration == b.header.expiration
        && a.header.timestamp == b.header.timestamp
        && a.chain_id.0 == b.chain_id.0
        && a.from.0 == b.from.0
        && a.nonce == b.nonce
        && payload_eq
}

#[test]
fn round_trip_transfer() {
    let tx = transfer_tx();
    let bytes = encode(&tx);
    let back = decode(&bytes).expect("decodes");
    assert!(same_tx(&tx, &back));
}

#[test]
fn round_trip_create_with_expiration() {
    let tx = Transaction {
        header: header(Some(DateTimeUtc { secs: TS_SECS + 60, nanos: 123_456_789 })),
        chain_id: ChainId("chain-ü".to_string()),
        from: Address([9u8; 20]),
        tx_payload: TxPayload::CreateAccount,
        nonce: u64::MAX,
    };
    let bytes = encode(&tx);
    let back = decode(&bytes).expect("decodes");
    assert!(same_tx(&tx, &back));
}

#[test]
fn layout_matches_borsh() {
    let tx = transfer_tx();
    let expected = borsh::to_vec(&(
        "test".to_string(),
        0u8,
        TS_TEXT.to_string(),
        "test".to_string(),
        [1u8; 20],
        1u8,
        [2u8; 20],
        100u128,
        1u64,
    ))
    .unwrap();
    assert_eq!(encode(&tx), expected);
}

#[test]
fn truncated_encoding_rejected() {
    let bytes = encode(&transfer_tx());
    for cut in 0..bytes.len() {
        assert_eq!(decode(&bytes[..cut]).err(), Some(DecodeError));
    }
}

#[test]
fn appended_bytes_rejected() {
    let mut bytes = encode(&transfer_tx());
    bytes.push(0);
    assert!(decode(&bytes).is_err());
}

#[test]
fn zero_amount_rejected() {
    let mut bytes = encode(&transfer_tx());
    let n = bytes.len();
    // the amount occupies the 16 bytes before the 8-byte nonce
    for b in &mut bytes[n - 24..n - 8] {
        *b = 0;
    }
    assert!(decode(&bytes).is_err());
}

#[test]
fn unknown_payload_tag_rejected() {
    let tx = Transaction { tx_payload: TxPayload::CreateAccount, ..transfer_tx() };
    let mut bytes = encode(&tx);
    let n = bytes.len();
    bytes[n - 9] = 2;
    assert!(decode(&bytes).is_err());
}

#[test]
fn non_canonical_timestamp_rejected() {
    // same instant, month written without its leading zero
    let raw = borsh::to_vec(&(
        "test".to_string(),
        0u8,
        "2023-11-14T22:13:20.000000000+00:00".replace("-11-", "-011-"),
        "test".to_string(),
        [1u8; 20],
        0u8,
        1u64,
    ))
    .unwrap();
    assert!(decode(&raw).is_err());
}

#[test]
fn garbage_rejected() {
    assert!(decode(&[]).is_err());
    assert!(decode(&[0xff; 7]).is_err());
}

#[test]
fn timestamp_text_round_trip() {
    let t = DateTimeUtc { secs: TS_SECS, nanos: 0 };
    assert_eq!(t.to_rfc3339(), TS_TEXT);
    let parsed = DateTimeUtc::from_rfc3339(TS_TEXT).unwrap();
    assert_eq!(parsed, t);
    let t2 = DateTimeUtc { secs: 0, nanos: 5 };
    assert_eq!(t2.to_rfc3339(), "1970-01-01T00:00:00.000000005+00:00");
    assert!(DateTimeUtc::from_rfc3339("2023-11-14T22:13:20Z").is_none());
    assert!(DateTimeUtc::from_rfc3339("not a time").is_none());
}

#[test]
fn timestamp_range() {
    assert!(DateTimeUtc::new(253_402_300_799, 999_999_999).is_some());
    assert!(DateTimeUtc::new(253_402_300_800, 0).is_none());
    assert!(DateTimeUtc::new(-62_167_219_200, 0).is_some());
    assert!(DateTimeUtc::new(0, 1_000_000_000).is_none());
    let late = DateTimeUtc { secs: 10, nanos: 1 };
    let early = DateTimeUtc { secs: 10, nanos: 0 };
    assert!(late.is_after(&early));
    assert!(!early.is_after(&late));
    assert!(!early.is_after(&early));
}

#[test]
fn address_hex_text() {
    let mut bytes = [0u8; 20];
    bytes[0] = 0xab;
    bytes[19] = 0x01;
    let a = Address(bytes);
    assert_eq!(
        a.to_hex_string(),
        "0xab00000000000000000000000000000000000001"
    );
    assert!(a.same_as(&Address(bytes)));
    assert!(!a.same_as(&Address([0u8; 20])));
}
