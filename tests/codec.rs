use coinjoin::decoder::{decode_token, Token, TokenType};
use coinjoin::hash::{
    identity_from_digest, push_u32_le, push_u64_le, push_vi_le, sha256_sum, Hashable,
};
use coinjoin::transaction::{from_hex, Transaction, TxIn, TxOut};
use coinjoin::util::{hex_to_bytes, u8_to_hex_string};

fn unhex(s: &str) -> Vec<u8> {
    (0..s.len() / 2).map(|i| u8::from_str_radix(&s[2 * i..2 * i + 2], 16).unwrap()).collect()
}

fn varint_case(v: u64, expected: &[u8]) {
    let bytes = push_vi_le(Vec::new(), v);
    assert_eq!(bytes, expected.to_vec());
    let mut pos: usize = 0;
    assert_eq!(decode_token(&bytes, &mut pos, TokenType::VarInt), Token::Integer(v));
    assert_eq!(pos, bytes.len());
}

#[test]
fn varint_boundaries() {
    varint_case(0, &[0x00]);
    varint_case(252, &[0xfc]);
    varint_case(253, &[0xfd, 0xfd, 0x00]);
    varint_case(65535, &[0xfd, 0xff, 0xff]);
    varint_case(65536, &[0xfe, 0x00, 0x00, 0x01, 0x00]);
    varint_case(0xffff_ffff, &[0xfe, 0xff, 0xff, 0xff, 0xff]);
    varint_case(0x1_0000_0000, &[0xff, 0x00, 0x00, 0x00, 0x00, 0x01, 0x00, 0x00, 0x00]);
}

#[test]
fn fixed_width_encoders_are_little_endian() {
    assert_eq!(push_u32_le(vec![9], 0x0403_0201), vec![9, 1, 2, 3, 4]);
    assert_eq!(push_u64_le(Vec::new(), 0x0807_0605_0403_0201), vec![1, 2, 3, 4, 5, 6, 7, 8]);
}

#[test]
fn fixed_width_decoding_is_big_endian() {
    let data = [1u8, 2, 3, 4, 5, 6, 7, 8, 9];
    let mut pos: usize = 0;
    assert_eq!(decode_token(&data, &mut pos, TokenType::Unsigned32), Token::Integer(0x0102_0304));
    assert_eq!(pos, 4);
    let mut pos: usize = 1;
    assert_eq!(
        decode_token(&data, &mut pos, TokenType::Unsigned64),
        Token::Integer(0x0203_0405_0607_0809)
    );
    assert_eq!(pos, 9);
}

#[test]
fn shortfalls_are_invalid() {
    let data = [1u8, 2, 3];
    let mut pos: usize = 0;
    assert_eq!(decode_token(&data, &mut pos, TokenType::Unsigned32), Token::Invalid);
    assert_eq!(pos, 3);
    let mut pos: usize = 0;
    assert_eq!(decode_token(&[0xfd, 0x01], &mut pos, TokenType::VarInt), Token::Invalid);
    let mut pos: usize = 0;
    assert_eq!(decode_token(&[], &mut pos, TokenType::VarInt), Token::Invalid);
    let mut pos: usize = 1;
    assert_eq!(decode_token(&data, &mut pos, TokenType::Bytestring(3)), Token::Invalid);
    let mut pos: usize = 1;
    assert_eq!(decode_token(&data, &mut pos, TokenType::Bytestring(2)), Token::String(vec![2, 3]));
    assert_eq!(pos, 3);
}

#[test]
fn hex_rendering() {
    assert_eq!(u8_to_hex_string(&[0x00, 0x0f, 0xa5, 0xff]), "000fa5ff");
    assert_eq!(u8_to_hex_string(&[]), "");
}

#[test]
fn sha256_known_value() {
    assert_eq!(
        u8_to_hex_string(&sha256_sum(b"abc")),
        "ba7816bf8f01cfea414140de5dae2223b00361a396177a9cb410ff61f20015ad"
    );
}

#[test]
fn digest_is_reversed_into_identity() {
    assert_eq!(identity_from_digest(&vec![1, 2, 3, 4]), vec![4, 3, 2, 1]);
    assert_eq!(identity_from_digest(&Vec::new()), Vec::<u8>::new());
}

/// A transaction whose fixed-width fields read the same in either byte order.
fn symmetric_tx() -> Transaction {
    Transaction {
        version: 0x0100_0001,
        lock_time: 0,
        inputs: vec![
            TxIn { prev_hash: vec![0x22; 32], prev_index: 0, script_sig: vec![1, 2, 3], sequence: 0xffff_ffff },
            TxIn { prev_hash: vec![0x33; 32], prev_index: 0x0700_0007, script_sig: Vec::new(), sequence: 0 },
        ],
        outputs: vec![
            TxOut { value: 0x0500_0000_0000_0005, script_pubkey: vec![0x51, 0x52] },
            TxOut { value: 0, script_pubkey: Vec::new() },
        ],
    }
}

#[test]
fn round_trip() {
    let tx = symmetric_tx();
    let bytes = tx.serialize();
    let parsed = from_hex(&bytes).unwrap();
    assert_eq!(parsed, tx);
    assert_eq!(parsed.serialize(), bytes);
}

#[test]
fn parse_reads_fixed_fields_in_the_opposite_order() {
    let mut tx = symmetric_tx();
    tx.version = 1;
    let parsed = from_hex(&tx.serialize()).unwrap();
    assert_eq!(parsed.version, 0x0100_0000);
}

#[test]
fn trailing_bytes_are_ignored() {
    let tx = symmetric_tx();
    let mut bytes = tx.serialize();
    bytes.extend_from_slice(&[7, 7, 7]);
    assert_eq!(from_hex(&bytes).unwrap(), tx);
}

#[test]
fn every_truncation_fails() {
    let bytes = symmetric_tx().serialize();
    for k in 0..bytes.len() {
        assert!(from_hex(&bytes[..k]).is_none(), "prefix of length {} parsed", k);
    }
}

#[test]
fn zero_counts_rejected() {
    // version, zero inputs
    assert!(from_hex(&unhex("0100000000")).is_none());
    // version, one input, zero outputs, lock time
    let mut bytes = unhex("0100000001");
    bytes.extend_from_slice(&[0x11; 32]);
    bytes.extend_from_slice(&unhex("0000000000ffffffff"));
    bytes.extend_from_slice(&unhex("0000000000"));
    assert!(from_hex(&bytes).is_none());
    // the same with one output parses
    let mut ok = unhex("0100000001");
    ok.extend_from_slice(&[0x11; 32]);
    ok.extend_from_slice(&unhex("0000000000ffffffff"));
    ok.extend_from_slice(&unhex("01000000000000000a0000000000"));
    assert!(from_hex(&ok).is_some());
}

#[test]
fn identity_hash_known_vector() {
    let raw = unhex(
        &[
            "01000000",
            "01",
            "1111111111111111111111111111111111111111111111111111111111111111",
            "00000000",
            "03aabbcc",
            "ffffffff",
            "01",
            "00000000000186a0",
            "025151",
            "00000000",
        ]
        .concat(),
    );
    let tx = from_hex(&raw).unwrap();
    assert_eq!(tx.version, 0x0100_0000);
    assert_eq!(tx.outputs[0].value, 100_000);
    assert_eq!(
        u8_to_hex_string(&tx.serialize()),
        [
            "00000001011111111111111111111111111111111111111111111111111111111111111111",
            "0000000003aabbccffffffff01a08601000000000002515100000000",
        ]
        .concat()
    );
    assert_eq!(
        u8_to_hex_string(&tx.to_hash()),
        "7f97012bd71bd44b1497904b2f15a39f8e1ed9d58c79b43df3eb07482b1e3697"
    );
    assert_eq!(tx.to_str(), u8_to_hex_string(&tx.serialize()));
}

#[test]
fn hex_text_decoding() {
    assert_eq!(hex_to_bytes(b"00ff0aA5"), Some(vec![0x00, 0xff, 0x0a, 0xa5]));
    assert_eq!(hex_to_bytes(b""), Some(Vec::new()));
    assert_eq!(hex_to_bytes(b"abc"), None);
    assert_eq!(hex_to_bytes(b"zz"), None);
}
