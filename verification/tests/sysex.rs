use daisy_midi::midi::sysex::{build_frame, cmd, parse_frame, DIR_HOST_TO_DEV, MIN_FRAME_LEN};

#[test]
fn round_trip_empty_payload() {
    let frame = build_frame(cmd::GET_DEVICE_INFO, DIR_HOST_TO_DEV, 0x01, &[]);
    let parsed = parse_frame(&frame).expect("parse failed");
    assert_eq!(parsed.cmd, cmd::GET_DEVICE_INFO);
    assert_eq!(parsed.seq, 0x01);
    assert!(parsed.payload.is_empty());
}

#[test]
fn round_trip_with_payload() {
    let payload = vec![0x01, 0x02, 0x03, 0x7F];
    let frame = build_frame(cmd::GET_BANK, DIR_HOST_TO_DEV, 0x42, &payload);
    let parsed = parse_frame(&frame).unwrap();
    assert_eq!(parsed.payload, payload);
    assert_eq!(parsed.seq, 0x42);
}

#[test]
fn rejects_bad_checksum() {
    let mut frame = build_frame(cmd::GET_DEVICE_INFO, DIR_HOST_TO_DEV, 0x01, &[]);
    let last = frame.len() - 2;
    frame[last] ^= 0x01;
    assert!(parse_frame(&frame).is_none());
}

#[test]
fn all_bytes_are_7bit_safe() {
    let frame = build_frame(cmd::GET_DEVICE_INFO, DIR_HOST_TO_DEV, 0x01, &[]);
    // All bytes between F0 and F7 must be ≤ 0x7F
    for &b in &frame[1..frame.len() - 1] {
        assert!(b <= 0x7F, "non-7bit byte: {b:#04x}");
    }
}

#[test]
fn built_frame_exact_bytes() {
    let frame = build_frame(0x10, 0x00, 0x85, &[0x01, 0x02]);
    // seq is masked to 7 bits; checksum = 0x10 ^ 0 ^ 0x05 ^ 0 ^ 2 ^ 1 ^ 2 = 0x14.
    assert_eq!(
        frame,
        vec![0xF0, 0x00, 0x21, 0x7F, 0x01, 0x10, 0x00, 0x05, 0x00, 0x02, 0x01, 0x02, 0x14, 0xF7]
    );
    assert_eq!(frame.len(), MIN_FRAME_LEN + 2);
}

#[test]
fn long_payload_length_bytes() {
    let payload = vec![0x11u8; 200];
    let frame = build_frame(cmd::SET_BANK, DIR_HOST_TO_DEV, 3, &payload);
    assert_eq!(frame[8], 1);
    assert_eq!(frame[9], 200 - 128);
    let parsed = parse_frame(&frame).unwrap();
    assert_eq!(parsed.payload, payload);
    assert_eq!(parsed.cmd, cmd::SET_BANK);
}

#[test]
fn rejects_malformed_frames() {
    let good = build_frame(cmd::GET_SETTINGS, DIR_HOST_TO_DEV, 7, &[1, 2, 3]);
    assert!(parse_frame(&good).is_some());
    // too short
    assert!(parse_frame(&good[..11]).is_none());
    // wrong start byte
    let mut f = good.clone();
    f[0] = 0xF1;
    assert!(parse_frame(&f).is_none());
    // wrong end byte
    let mut f = good.clone();
    let n = f.len();
    f[n - 1] = 0x00;
    assert!(parse_frame(&f).is_none());
    // wrong manufacturer
    let mut f = good.clone();
    f[2] = 0x22;
    assert!(parse_frame(&f).is_none());
    // wrong device id
    let mut f = good.clone();
    f[4] = 0x02;
    assert!(parse_frame(&f).is_none());
    // length byte disagrees with the frame
    let mut f = good.clone();
    f[9] = 4;
    assert!(parse_frame(&f).is_none());
}

#[test]
fn any_detectable_single_byte_change_is_rejected() {
    let payload = vec![0x01, 0x7F, 0x40];
    let frame = build_frame(cmd::GET_BANK, DIR_HOST_TO_DEV, 9, &payload);
    let n = payload.len();
    for i in 0..frame.len() {
        for d in 1..=255u8 {
            let visible = if i < 5 || i == 11 + n { true } else { d & 0x7F != 0 };
            if !visible {
                continue;
            }
            let mut g = frame.clone();
            g[i] ^= d;
            assert!(parse_frame(&g).is_none(), "byte {i} changed by {d:#04x} was accepted");
        }
    }
}
