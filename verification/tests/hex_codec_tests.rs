use zklink_codec::DecodeError;
use zklink_codec::prefixed_hex::BytesToHexSerde;
use zklink_codec::prefixed_hex::OptionBytesToHexSerde;
use zklink_codec::prefixed_hex::SyncBlockPrefix;
use zklink_codec::prefixed_hex::SyncTxPrefix;
use zklink_codec::prefixed_hex::ZeroxPrefix;
use zklink_codec::prefixed_hex::encode_hex;
use zklink_codec::prefixed_hex::decode_hex;

#[test]
fn hex_encode_matches_reference_implementation() {
    let data: Vec<u8> = vec![0x00, 0x01, 0x0f, 0x10, 0x7f, 0x80, 0xab, 0xcd, 0xef, 0xff];
    assert_eq!(encode_hex(&data), hex::encode(&data));
}

#[test]
fn hex_decode_matches_reference_implementation() {
    let s = "00010f107f80abcdefff";
    assert_eq!(decode_hex(s).unwrap(), hex::decode(s).unwrap());
}

#[test]
fn prefixed_round_trip_zerox() {
    let data: Vec<u8> = vec![0xde, 0xad, 0xbe, 0xef];
    let encoded = BytesToHexSerde::<ZeroxPrefix>::encode(&data);
    assert_eq!(encoded, "0xdeadbeef");
    let decoded = BytesToHexSerde::<ZeroxPrefix>::decode(&encoded).unwrap();
    assert_eq!(decoded, data);
}

#[test]
fn prefixed_round_trip_sync_block() {
    let data: Vec<u8> = vec![0x01, 0x23, 0x45, 0x67, 0x89];
    let encoded = BytesToHexSerde::<SyncBlockPrefix>::encode(&data);
    assert_eq!(encoded, "sync-bl:0123456789");
    assert_eq!(BytesToHexSerde::<SyncBlockPrefix>::decode(&encoded).unwrap(), data);
}

#[test]
fn prefixed_round_trip_sync_tx() {
    let data: Vec<u8> = vec![0xff];
    let encoded = BytesToHexSerde::<SyncTxPrefix>::encode(&data);
    assert_eq!(encoded, "sync-tx:ff");
    assert_eq!(BytesToHexSerde::<SyncTxPrefix>::decode(&encoded).unwrap(), data);
}

#[test]
fn prefixed_round_trip_empty_buffer() {
    let data: Vec<u8> = vec![];
    let encoded = BytesToHexSerde::<ZeroxPrefix>::encode(&data);
    assert_eq!(encoded, "0x");
    assert_eq!(BytesToHexSerde::<ZeroxPrefix>::decode(&encoded).unwrap(), data);
}

#[test]
fn wrong_prefix_is_rejected() {
    assert_eq!(
        BytesToHexSerde::<SyncBlockPrefix>::decode("sync-tx:ab"),
        Err(DecodeError::MissingPrefix)
    );
    assert_eq!(
        BytesToHexSerde::<ZeroxPrefix>::decode("deadbeef"),
        Err(DecodeError::MissingPrefix)
    );
    assert_eq!(BytesToHexSerde::<ZeroxPrefix>::decode(""), Err(DecodeError::MissingPrefix));
}

#[test]
fn unrelated_prefix_is_never_silently_stripped() {
    assert_eq!(BytesToHexSerde::<SyncTxPrefix>::decode("0xab"), Err(DecodeError::MissingPrefix));
}

#[test]
fn odd_length_hex_is_rejected() {
    assert_eq!(BytesToHexSerde::<ZeroxPrefix>::decode("0xabc"), Err(DecodeError::InvalidHex));
}

#[test]
fn non_hex_character_is_rejected() {
    assert_eq!(BytesToHexSerde::<ZeroxPrefix>::decode("0xzz"), Err(DecodeError::InvalidHex));
}

#[test]
fn uppercase_hex_is_accepted() {
    assert_eq!(
        BytesToHexSerde::<ZeroxPrefix>::decode("0xDEAD").unwrap(),
        vec![0xde, 0xad]
    );
}

#[test]
fn optional_hex_absent_value() {
    assert_eq!(OptionBytesToHexSerde::<ZeroxPrefix>::encode(&None), None);
    assert_eq!(OptionBytesToHexSerde::<ZeroxPrefix>::decode(&None), Ok(None));
}

#[test]
fn optional_hex_present_value() {
    let data: Vec<u8> = vec![0xaa, 0xbb];
    let encoded = OptionBytesToHexSerde::<ZeroxPrefix>::encode(&Some(data.clone()));
    assert_eq!(encoded, Some(String::from("0xaabb")));
    assert_eq!(OptionBytesToHexSerde::<ZeroxPrefix>::decode(&encoded), Ok(Some(data)));
}

#[test]
fn optional_hex_present_failure_is_surfaced() {
    assert_eq!(
        OptionBytesToHexSerde::<ZeroxPrefix>::decode(&Some(String::from("nope"))),
        Err(DecodeError::MissingPrefix)
    );
    assert_eq!(
        OptionBytesToHexSerde::<ZeroxPrefix>::decode(&Some(String::from("0xq"))),
        Err(DecodeError::InvalidHex)
    );
}
