use tox::crypto::{Nonce, PrecomputedKey};
use tox::crypto_data::{CryptoData, CryptoDataError, CryptoDataPayload};
use xsalsa20poly1305::aead::{Aead, KeyInit};
use xsalsa20poly1305::XSalsa20Poly1305;

fn random_key() -> PrecomputedKey {
    PrecomputedKey(rand::random::<[u8; 32]>())
}

fn random_nonce() -> Nonce {
    Nonce(rand::random::<[u8; 24]>())
}

fn sample_payload() -> CryptoDataPayload {
    CryptoDataPayload { buffer_start: 12345, packet_number: 54321, data: vec![42; 123] }
}

#[test]
fn crypto_data_encode_decode() {
    let value = CryptoData { nonce_last_bytes: 42, payload: vec![42; 123] };
    let bytes = value.to_bytes().unwrap();
    assert_eq!(CryptoData::from_bytes(&bytes), Ok(value));
}

#[test]
fn crypto_data_payload_encode_decode() {
    let value = sample_payload();
    let bytes = value.to_bytes();
    assert_eq!(CryptoDataPayload::from_bytes(&bytes), Ok(value));
}

#[test]
fn crypto_data_encrypt_decrypt() {
    let shared_secret = random_key();
    let nonce = random_nonce();
    let payload = sample_payload();
    // encode payload with shared secret
    let crypto_data = CryptoData::new(&shared_secret, nonce, payload.clone()).unwrap();
    // decode payload with shared secret
    let decoded_payload = crypto_data.get_payload(&shared_secret, &nonce).unwrap();
    // payloads should be equal
    assert_eq!(decoded_payload, payload);
}

#[test]
fn crypto_data_encrypt_decrypt_invalid_key() {
    let shared_secret = random_key();
    let eve_shared_secret = random_key();
    let nonce = random_nonce();
    let payload = sample_payload();
    // encode payload with shared secret
    let dht_packet = CryptoData::new(&shared_secret, nonce, payload).unwrap();
    // try to decode payload with eve's shared secret
    let decoded_payload = dht_packet.get_payload(&eve_shared_secret, &nonce);
    assert!(decoded_payload.is_err());
    assert_eq!(decoded_payload, Err(CryptoDataError::DecryptionFailed));
}

#[test]
fn crypto_data_encrypt_decrypt_invalid() {
    let shared_secret = random_key();
    let nonce = random_nonce();
    let nonce_last_bytes = CryptoData::nonce_last_bytes(nonce);
    // Try short incomplete array
    let invalid_payload: [u8; 0] = [];
    let cipher = XSalsa20Poly1305::new(xsalsa20poly1305::Key::from_slice(&shared_secret.0));
    let invalid_payload_encoded = cipher
        .encrypt(xsalsa20poly1305::Nonce::from_slice(&nonce.0), &invalid_payload[..])
        .unwrap();
    let invalid_packet = CryptoData { nonce_last_bytes, payload: invalid_payload_encoded };
    let decoded_payload = invalid_packet.get_payload(&shared_secret, &nonce);
    assert!(decoded_payload.is_err());
    assert_eq!(decoded_payload, Err(CryptoDataError::TruncatedPayload));
}

#[test]
fn wrong_full_nonce_with_same_suffix_fails() {
    let key = random_key();
    let nonce = Nonce([1; 24]);
    let mut other = [1; 24];
    other[0] = 2;
    let other = Nonce(other);
    assert_eq!(CryptoData::nonce_last_bytes(nonce), CryptoData::nonce_last_bytes(other));
    let packet = CryptoData::new(&key, nonce, sample_payload()).unwrap();
    assert_eq!(packet.get_payload(&key, &other), Err(CryptoDataError::DecryptionFailed));
}

#[test]
fn tampered_packet_fails() {
    let key = random_key();
    let nonce = random_nonce();
    let mut packet = CryptoData::new(&key, nonce, sample_payload()).unwrap();
    packet.payload[20] ^= 1;
    assert_eq!(packet.get_payload(&key, &nonce), Err(CryptoDataError::DecryptionFailed));
}

#[test]
fn fixed_key_payload_then_other_key() {
    let key = PrecomputedKey([3; 32]);
    let nonce = Nonce([9; 24]);
    let packet = CryptoData::new(&key, nonce, sample_payload()).unwrap();
    let other = PrecomputedKey([4; 32]);
    assert_eq!(packet.get_payload(&other, &nonce), Err(CryptoDataError::DecryptionFailed));
    assert_eq!(packet.get_payload(&key, &nonce), Ok(sample_payload()));
}

#[test]
fn new_encrypts_and_sets_suffix() {
    let key = random_key();
    let mut raw = [0u8; 24];
    raw[22] = 0x12;
    raw[23] = 0x34;
    let nonce = Nonce(raw);
    let payload = sample_payload();
    let packet = CryptoData::new(&key, nonce, payload.clone()).unwrap();
    assert_eq!(packet.nonce_last_bytes, 0x1234);
    let plain = payload.to_bytes();
    assert_eq!(packet.payload.len(), plain.len() + 16);
    assert_ne!(&packet.payload[16..], &plain[..]);
}

#[test]
fn nonce_last_bytes_big_endian() {
    let mut raw = [0xff; 24];
    raw[22] = 0xab;
    raw[23] = 0xcd;
    assert_eq!(CryptoData::nonce_last_bytes(Nonce(raw)), 0xabcd);
}

#[test]
fn payload_bytes_layout() {
    let p = CryptoDataPayload { buffer_start: 0x01020304, packet_number: 0x0a0b0c0d, data: vec![7, 8] };
    assert_eq!(p.to_bytes(), vec![1, 2, 3, 4, 0x0a, 0x0b, 0x0c, 0x0d, 7, 8]);
}

#[test]
fn payload_parse_layout_and_empty_data() {
    let bytes = [0, 0, 0x30, 0x39, 0, 0, 0xd4, 0x31];
    assert_eq!(
        CryptoDataPayload::from_bytes(&bytes),
        Ok(CryptoDataPayload { buffer_start: 12345, packet_number: 54321, data: vec![] })
    );
}

#[test]
fn payload_too_short() {
    assert_eq!(CryptoDataPayload::from_bytes(&[]), Err(CryptoDataError::TruncatedPayload));
    assert_eq!(
        CryptoDataPayload::from_bytes(&[1, 2, 3, 4, 5, 6, 7]),
        Err(CryptoDataError::TruncatedPayload)
    );
}

#[test]
fn packet_bytes_layout() {
    let c = CryptoData { nonce_last_bytes: 0x0102, payload: vec![9, 9, 9] };
    assert_eq!(c.to_bytes(), Ok(vec![0x1b, 1, 2, 9, 9, 9]));
    assert_eq!(
        CryptoData::from_bytes(&[0x1b, 0xab, 0xcd]),
        Ok(CryptoData { nonce_last_bytes: 0xabcd, payload: vec![] })
    );
}

#[test]
fn packet_malformed() {
    assert_eq!(CryptoData::from_bytes(&[]), Err(CryptoDataError::MalformedPacket));
    assert_eq!(CryptoData::from_bytes(&[0x1b, 1]), Err(CryptoDataError::MalformedPacket));
    assert_eq!(CryptoData::from_bytes(&[0x1a, 1, 2, 3]), Err(CryptoDataError::MalformedPacket));
}

#[test]
fn packet_size_limit() {
    let fits = CryptoData { nonce_last_bytes: 1, payload: vec![0; 1397] };
    let bytes = fits.to_bytes().unwrap();
    assert_eq!(bytes.len(), 1400);
    assert_eq!(CryptoData::from_bytes(&bytes), Ok(fits));

    let too_big = CryptoData { nonce_last_bytes: 1, payload: vec![0; 1398] };
    assert_eq!(too_big.to_bytes(), Err(CryptoDataError::PacketTooLarge));
    let mut long = vec![0x1b; 1401];
    long[1] = 0;
    assert_eq!(CryptoData::from_bytes(&long), Err(CryptoDataError::PacketTooLarge));
}

#[test]
fn encrypted_packet_size_limit() {
    let key = random_key();
    let nonce = random_nonce();
    let largest = CryptoDataPayload { buffer_start: 1, packet_number: 2, data: vec![5; 1373] };
    let packet = CryptoData::new(&key, nonce, largest.clone()).unwrap();
    assert_eq!(packet.to_bytes().unwrap().len(), 1400);
    assert_eq!(packet.get_payload(&key, &nonce), Ok(largest));

    let over = CryptoDataPayload { buffer_start: 1, packet_number: 2, data: vec![5; 1374] };
    assert_eq!(CryptoData::new(&key, nonce, over), Err(CryptoDataError::PacketTooLarge));
}
