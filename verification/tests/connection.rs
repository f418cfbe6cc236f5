use daisy_midi::midi::connection::SysexAssembler;
use daisy_midi::midi::sysex::{build_frame, cmd, DIR_DEV_TO_HOST};

#[test]
fn assembler_receives_frames_split_across_messages() {
    let f1 = build_frame(cmd::RT_BANK_CHANGE, DIR_DEV_TO_HOST, 3, &[1, 2, 0]);
    let f2 = build_frame(cmd::SETTINGS_RSP, DIR_DEV_TO_HOST, 4, &[9]);
    let mut stream = vec![0x90, 0x40];
    stream.extend(&f1);
    stream.extend(&f2);
    let mut a = SysexAssembler::new();
    let (part1, part2) = stream.split_at(7);
    assert!(a.feed(part1).is_empty());
    let frames = a.feed(part2);
    assert_eq!(frames.len(), 2);
    assert_eq!(frames[0].cmd, cmd::RT_BANK_CHANGE);
    assert_eq!(frames[0].payload, vec![1, 2, 0]);
    assert_eq!(frames[1].seq, 4);
    assert!(!a.in_sysex);
}

#[test]
fn assembler_drops_bad_frames_and_restarts_on_f0() {
    let mut bad = build_frame(cmd::SETTINGS_RSP, DIR_DEV_TO_HOST, 4, &[9]);
    let n = bad.len();
    bad[n - 2] ^= 1;
    let mut a = SysexAssembler::new();
    assert!(a.feed(&bad).is_empty());
    let good = build_frame(cmd::SETTINGS_RSP, DIR_DEV_TO_HOST, 5, &[]);
    let mut stream = vec![0xF0, 0x00, 0x21];
    stream.extend(&good);
    let frames = a.feed(&stream);
    assert_eq!(frames.len(), 1);
    assert_eq!(frames[0].seq, 5);
}
