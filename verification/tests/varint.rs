use rand::{Rng, SeedableRng};
use veil::protocol::varint::{
    decode_varint, decode_varint_slice, encode_varint, encode_varint_vec, VARINT_MAX_BYTES,
};

#[test]
fn encode_decode_zero() {
    let mut buf = Vec::new();
    let n = encode_varint(0, &mut buf);
    assert_eq!(n, 1);
    assert_eq!(buf, vec![0x00]);

    let mut slice = buf.as_slice();
    let (val, len) = decode_varint(&mut slice).unwrap();
    assert_eq!(val, 0);
    assert_eq!(len, 1);
}

#[test]
fn encode_decode_small() {
    for v in [1u64, 42, 127] {
        let mut buf = Vec::new();
        let n = encode_varint(v, &mut buf);
        assert_eq!(n, 1);
        assert_eq!(buf[0], v as u8);

        let mut slice = buf.as_slice();
        let (val, len) = decode_varint(&mut slice).unwrap();
        assert_eq!(val, v);
        assert_eq!(len, 1);
    }
}

#[test]
fn encode_decode_128() {
    // 128 = 0x80 0x01 in LEB128
    let mut buf = Vec::new();
    let n = encode_varint(128, &mut buf);
    assert_eq!(n, 2);
    assert_eq!(buf, vec![0x80, 0x01]);

    let mut slice = buf.as_slice();
    let (val, len) = decode_varint(&mut slice).unwrap();
    assert_eq!(val, 128);
    assert_eq!(len, 2);
}

#[test]
fn encode_decode_max_u64() {
    let v = u64::MAX;
    let mut buf = Vec::new();
    let n = encode_varint(v, &mut buf);
    assert_eq!(n, VARINT_MAX_BYTES); // 10 bytes for LEB128 u64::MAX

    let mut slice = buf.as_slice();
    let (val, len) = decode_varint(&mut slice).unwrap();
    assert_eq!(val, u64::MAX);
    assert_eq!(len, VARINT_MAX_BYTES);
}

#[test]
fn decode_truncated() {
    // Starts with continuation bit but no more bytes.
    let data = [0x80];
    assert!(decode_varint_slice(&data).is_none());
}

#[test]
fn decode_too_many_bytes() {
    // 9 bytes of 0xFF: should fail.
    let data = [0xFF; 9];
    assert!(decode_varint_slice(&data).is_none());
}

#[test]
fn roundtrip_random() {
    let mut rng = rand_chacha::ChaCha8Rng::seed_from_u64(42);

    for _ in 0..10_000 {
        let v = rng.gen::<u64>();
        let mut buf = Vec::new();
        encode_varint(v, &mut buf);

        let mut slice = buf.as_slice();
        let (decoded, _) = decode_varint(&mut slice).expect("roundtrip failed");
        assert_eq!(decoded, v);
    }
}

#[test]
fn encode_varint_vec_roundtrip() {
    let v = 300u64;
    let encoded = encode_varint_vec(v);
    let mut slice = encoded.as_slice();
    let (decoded, _) = decode_varint(&mut slice).unwrap();
    assert_eq!(decoded, v);
}

#[test]
fn encoding_appends_and_decoding_leaves_the_rest() {
    let mut buf = vec![7u8];
    assert_eq!(encode_varint(300, &mut buf), 2);
    buf.push(9);
    assert_eq!(buf, vec![7, 0xAC, 0x02, 9]);

    let mut slice = &buf[1..];
    assert_eq!(decode_varint(&mut slice), Some((300, 2)));
    assert_eq!(slice, &[9u8][..]);
}

#[test]
fn a_failed_decode_uses_up_what_it_read() {
    let short = [0x80u8, 0x80];
    let mut slice = &short[..];
    assert_eq!(decode_varint(&mut slice), None);
    assert!(slice.is_empty());

    let long = [0xFFu8; 20];
    let mut slice = &long[..];
    assert_eq!(decode_varint(&mut slice), None);
    assert_eq!(slice.len(), 9, "one byte beyond the longest encoding");
}

#[test]
fn bits_beyond_the_sixty_fourth_are_cut_off() {
    let mut data = [0x80u8; 10];
    data[9] = 0x7F;
    assert_eq!(decode_varint_slice(&data), Some((1 << 63, 10)));
}
