use parity_crypto::Keccak256;
use zklink_codec::DecodeError;
use zklink_codec::pubkey_hash::FR_ADDRESS_LEN;
use zklink_codec::pubkey_hash::PubKeyHash;

#[test]
fn zero_sentinel_hex_form() {
    let pubkey_hash = PubKeyHash::zero();
    assert_eq!(pubkey_hash.to_hex(), "sync:0000000000000000000000000000000000000000");
}

#[test]
fn zero_sentinel_round_trips_through_hex() {
    let pubkey_hash = PubKeyHash::from_hex("sync:0000000000000000000000000000000000000000").unwrap();
    assert_eq!(pubkey_hash, PubKeyHash::zero());
    assert_eq!(pubkey_hash.to_hex(), "sync:0000000000000000000000000000000000000000");
}

#[test]
fn hex_round_trips_arbitrary_hash() {
    let s = "sync:00000000000000000000000000000000deadbeef";
    let pubkey_hash = PubKeyHash::from_hex(s).unwrap();
    assert_eq!(pubkey_hash.to_hex(), s);
}

#[test]
fn from_hex_requires_sync_prefix() {
    assert_eq!(
        PubKeyHash::from_hex("0x0000000000000000000000000000000000000000").err(),
        Some(DecodeError::MissingPrefix)
    );
    assert_eq!(
        PubKeyHash::from_hex("0000000000000000000000000000000000000000").err(),
        Some(DecodeError::MissingPrefix)
    );
}

#[test]
fn from_hex_rejects_bad_hex_and_size() {
    assert_eq!(PubKeyHash::from_hex("sync:00q0").err(), Some(DecodeError::InvalidHex));
    assert_eq!(PubKeyHash::from_hex("sync:000").err(), Some(DecodeError::InvalidHex));
    assert_eq!(PubKeyHash::from_hex("sync:0011").err(), Some(DecodeError::SizeMismatch));
}

#[test]
fn from_bytes_enforces_the_fixed_width() {
    for len in [0usize, 1, FR_ADDRESS_LEN - 1, FR_ADDRESS_LEN + 1] {
        let bytes = vec![0u8; len];
        assert_eq!(
            PubKeyHash::from_bytes(&bytes).err(),
            Some(DecodeError::SizeMismatch),
            "length {}",
            len
        );
    }
    let bytes = vec![7u8; FR_ADDRESS_LEN];
    let pubkey_hash = PubKeyHash::from_bytes(&bytes).unwrap();
    assert_eq!(pubkey_hash.data, bytes);
}

#[test]
fn pubkey_hash_bytes_are_reversed() {
    let rescue_output: Vec<u8> = (1u8..=20u8).collect();
    let pubkey_hash = PubKeyHash::from_pubkey_hash_bytes(&rescue_output);
    let mut expected = rescue_output.clone();
    expected.reverse();
    assert_eq!(pubkey_hash.data, expected);
    assert_eq!(pubkey_hash.to_hex(), "sync:14131211100f0e0d0c0b0a090807060504030201");
    assert_ne!(pubkey_hash, PubKeyHash::zero());
}

#[test]
fn field_element_is_zero_padded_big_endian() {
    let pubkey_hash = PubKeyHash::from_hex("sync:00000000000000000000000000000000deadbeef").unwrap();
    let fr = pubkey_hash.to_fr();
    assert_eq!(fr.be_bytes.len(), 32);
    assert_eq!(&fr.be_bytes[..12], &[0u8; 12]);
    assert_eq!(&fr.be_bytes[12..], &pubkey_hash.data[..]);
}

#[test]
fn keccak256_matches_the_primitive() {
    let pubkey_hash = PubKeyHash::zero();
    let digest = pubkey_hash.keccak256();
    let expected: [u8; 32] = [0u8; FR_ADDRESS_LEN].keccak256();
    assert_eq!(digest.bytes, expected.to_vec());
    assert_ne!(digest.bytes, vec![0u8; 32]);
}
