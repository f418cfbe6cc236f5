use daisy_midi::midi::codec::{decode_7bit, encode_7bit};

#[test]
fn round_trip_all_zeros() {
    let data = vec![0u8; 14];
    assert_eq!(decode_7bit(&encode_7bit(&data)), data);
}

#[test]
fn round_trip_all_ones() {
    let data = vec![0xFFu8; 21];
    assert_eq!(decode_7bit(&encode_7bit(&data)), data);
}

#[test]
fn round_trip_ascending() {
    let data: Vec<u8> = (0..=127).collect();
    assert_eq!(decode_7bit(&encode_7bit(&data)), data);
}

#[test]
fn round_trip_high_bytes() {
    let data = vec![0x80, 0xFF, 0xAB, 0xCD, 0x00, 0x7F, 0x81];
    assert_eq!(decode_7bit(&encode_7bit(&data)), data);
}

#[test]
fn encoded_bytes_all_7bit_safe() {
    let data: Vec<u8> = (0..=255).collect();
    let encoded = encode_7bit(&data);
    for byte in &encoded {
        assert!(*byte <= 0x7F, "encoded byte {byte:#04x} exceeds 7-bit range");
    }
}

#[test]
fn chunk_boundary_7_bytes() {
    let data = vec![0xAA; 7];
    let encoded = encode_7bit(&data);
    assert_eq!(encoded.len(), 8);
    assert_eq!(decode_7bit(&encoded), data);
}

#[test]
fn partial_chunk() {
    let data = vec![0xAB, 0xCD];
    let encoded = encode_7bit(&data);
    assert_eq!(encoded.len(), 3);
    assert_eq!(decode_7bit(&encoded), data);
}

#[test]
fn encode_exact_bytes() {
    // High bits of 0x80 (bit 0) and 0xFF (bit 2) land in the leading byte.
    assert_eq!(encode_7bit(&[0x80, 0x01, 0xFF]), vec![0b101, 0x00, 0x01, 0x7F]);
    let data = vec![0x81u8; 8];
    assert_eq!(
        encode_7bit(&data),
        vec![0x7F, 1, 1, 1, 1, 1, 1, 1, 0x01, 1]
    );
}

#[test]
fn encode_empty_is_empty() {
    assert!(encode_7bit(&[]).is_empty());
    assert!(decode_7bit(&[]).is_empty());
}

#[test]
fn decode_lone_leading_byte_gives_nothing() {
    assert_eq!(decode_7bit(&[0x7F]), Vec::<u8>::new());
    assert_eq!(decode_7bit(&[0x01, 0x05, 0x7F]), vec![0x85, 0x7F]);
}

#[test]
fn encoded_length_formula() {
    for n in 0..40usize {
        let data = vec![0x55u8; n];
        assert_eq!(encode_7bit(&data).len(), n + (n + 6) / 7);
    }
}

#[test]
fn encode_undoes_decode_on_well_formed_encodings() {
    // groups: 7 data bytes with high bits 0 and 6, then 2 data bytes with high bit 1
    let y = vec![0b0100_0001, 1, 2, 3, 4, 5, 6, 7, 0b10, 0x11, 0x22];
    assert_eq!(encode_7bit(&decode_7bit(&y)), y);
    // a leading byte claiming a byte that is not there is not well formed
    let bad = vec![0b100, 0x10, 0x20];
    assert_ne!(encode_7bit(&decode_7bit(&bad)), bad);
}
