use daisy_midi::midi::types::{
    deserialise_bank, deserialise_midi_msg, deserialise_preset, deserialise_settings,
    serialise_bank, serialise_midi_msg, serialise_preset, serialise_settings, Action, Bank,
    DeviceSettings, MidiMsg, MsgType, Preset, TogglePos, BANK_SIZE, DEVICE_SETTINGS_SIZE,
    MIDI_MSG_SIZE, PRESET_SIZE,
};

fn sample_msg() -> MidiMsg {
    MidiMsg {
        msg_type: MsgType::Sysex,
        action: Action::LongPress,
        toggle_pos: TogglePos::Shift,
        port: 1,
        channel: 9,
        number: 64,
        value: 127,
        sysex: vec![0xF0, 0x43, 0x10, 0xF7],
    }
}

fn sample_preset() -> Preset {
    Preset {
        name: "Tube Scream".to_string(),
        color_pos1: [255, 80, 0],
        color_pos2: [85, 26, 0],
        toggle_group: 2,
        toggle_reset_group: 3,
        msgs: vec![sample_msg(), MidiMsg::default()],
    }
}

#[test]
fn msg_layout_and_round_trip() {
    let msg = sample_msg();
    let mut buf = vec![0xEEu8; MIDI_MSG_SIZE + 3];
    serialise_midi_msg(&msg, &mut buf);
    assert_eq!(&buf[0..4], &[7, 0, 0, 0]);
    assert_eq!(&buf[4..8], &[3, 0, 0, 0]);
    assert_eq!(&buf[8..12], &[2, 0, 0, 0]);
    assert_eq!(&buf[12..20], &[1, 9, 64, 127, 4, 0, 0, 0]);
    assert_eq!(&buf[20..24], &[0xF0, 0x43, 0x10, 0xF7]);
    assert!(buf[24..52].iter().all(|&b| b == 0));
    // bytes past the message are left alone
    assert_eq!(&buf[52..], &[0xEE, 0xEE, 0xEE]);
    let back = deserialise_midi_msg(&buf);
    assert_eq!(back.msg_type, MsgType::Sysex);
    assert_eq!(back.action, Action::LongPress);
    assert_eq!(back.toggle_pos, TogglePos::Shift);
    assert_eq!((back.port, back.channel, back.number, back.value), (1, 9, 64, 127));
    assert_eq!(back.sysex, msg.sysex);
}

#[test]
fn msg_sysex_truncated_to_32() {
    let mut msg = sample_msg();
    msg.sysex = (0..40).collect();
    let mut buf = vec![0u8; MIDI_MSG_SIZE];
    serialise_midi_msg(&msg, &mut buf);
    assert_eq!(buf[16], 32);
    let back = deserialise_midi_msg(&buf);
    assert_eq!(back.sysex, (0..32).collect::<Vec<u8>>());
}

#[test]
fn unknown_enum_numbers_read_as_first_variant() {
    let mut buf = vec![0u8; 20];
    buf[0] = 99;
    buf[4] = 6;
    buf[8] = 3;
    let m = deserialise_midi_msg(&buf);
    assert_eq!(m.msg_type, MsgType::NoMsg);
    assert_eq!(m.action, Action::Press);
    assert_eq!(m.toggle_pos, TogglePos::Pos1);
    assert!(m.sysex.is_empty());
    assert_eq!(TogglePos::from_i32(1), TogglePos::Pos2);
    assert_eq!(TogglePos::from_i32(-1), TogglePos::Pos1);
    assert_eq!(MsgType::from_i32(14), MsgType::Keystroke);
    assert_eq!(Action::from_i32(5), Action::DoubleTapRel);
    assert_eq!(MsgType::Keystroke.to_i32(), 14);
}

#[test]
fn preset_layout_and_round_trip() {
    let p = sample_preset();
    let mut buf = vec![0u8; PRESET_SIZE];
    serialise_preset(&p, &mut buf);
    assert_eq!(&buf[0..11], b"Tube Scream");
    assert!(buf[11..17].iter().all(|&b| b == 0));
    assert_eq!(&buf[17..23], &[255, 80, 0, 85, 26, 0]);
    assert_eq!(&buf[23..28], &[2, 3, 2, 0, 0]);
    let back = deserialise_preset(&buf);
    assert_eq!(back.name, "Tube Scream");
    assert_eq!(back.color_pos1, [255, 80, 0]);
    assert_eq!(back.color_pos2, [85, 26, 0]);
    assert_eq!(back.toggle_group, 2);
    assert_eq!(back.toggle_reset_group, 3);
    assert_eq!(back.msgs.len(), 2);
    assert_eq!(back.msgs[0].sysex, vec![0xF0, 0x43, 0x10, 0xF7]);
    assert_eq!(back.msgs[1].msg_type, MsgType::NoMsg);
}

#[test]
fn preset_name_truncated_to_16_bytes() {
    let mut p = Preset::default();
    p.name = "A very long preset name".to_string();
    let mut buf = vec![0u8; PRESET_SIZE];
    serialise_preset(&p, &mut buf);
    assert_eq!(buf[16], 0);
    assert_eq!(deserialise_preset(&buf).name, "A very long pres");
}

#[test]
fn preset_with_many_messages_keeps_32() {
    let mut p = Preset::default();
    p.msgs = (0..40).map(|i| MidiMsg { number: i as u8, ..MidiMsg::default() }).collect();
    let mut buf = vec![0u8; PRESET_SIZE];
    serialise_preset(&p, &mut buf);
    assert_eq!(buf[25], 32);
    let back = deserialise_preset(&buf);
    assert_eq!(back.msgs.len(), 32);
    assert_eq!(back.msgs[31].number, 31);
}

#[test]
fn bank_layout_and_round_trip() {
    let mut bank = Bank::default();
    bank.name = "Overdrives".to_string();
    bank.presets[1][2] = sample_preset();
    bank.expr_presets[1].name = "Wah".to_string();
    bank.enter_msgs = vec![sample_msg()];
    bank.exit_msgs = vec![MidiMsg { value: 5, ..MidiMsg::default() }; 3];
    let raw = serialise_bank(&bank);
    assert_eq!(raw.len(), BANK_SIZE);
    assert_eq!(&raw[0..10], b"Overdrives");
    let off = 20 + (1 * 4 + 2) * PRESET_SIZE;
    assert_eq!(&raw[off..off + 11], b"Tube Scream");
    assert_eq!(raw[30476], 1);
    assert_eq!(raw[32144], 3);
    let back = deserialise_bank(&raw);
    assert_eq!(back.name, "Overdrives");
    assert_eq!(back.presets[1][2].name, "Tube Scream");
    assert_eq!(back.presets[1][2].msgs.len(), 2);
    assert_eq!(back.presets[0][0].name, "");
    assert_eq!(back.expr_presets[1].name, "Wah");
    assert_eq!(back.enter_msgs.len(), 1);
    assert_eq!(back.enter_msgs[0].channel, 9);
    assert_eq!(back.exit_msgs.len(), 3);
    assert_eq!(back.exit_msgs[2].value, 5);
}

#[test]
fn settings_layout_and_round_trip() {
    let s = DeviceSettings {
        brightness: 80,
        startup_bank: 3,
        startup_profile: 1,
        midi_thru_usb: 1,
        midi_thru_trs: 0,
        relay_contact: [1, 0],
        recall_toggle: true,
        device_name: "My Daisy".to_string(),
    };
    let raw = serialise_settings(&s);
    assert_eq!(raw.len(), DEVICE_SETTINGS_SIZE);
    assert_eq!(&raw[0..8], &[80, 3, 1, 1, 0, 1, 0, 1]);
    assert_eq!(&raw[8..16], b"My Daisy");
    assert!(raw[16..29].iter().all(|&b| b == 0));
    let back = deserialise_settings(&raw);
    assert_eq!(back.brightness, 80);
    assert_eq!(back.relay_contact, [1, 0]);
    assert!(back.recall_toggle);
    assert_eq!(back.device_name, "My Daisy");
}

#[test]
fn settings_flag_nonzero_is_on_and_invalid_utf8_is_replaced() {
    let mut raw = vec![0u8; DEVICE_SETTINGS_SIZE];
    raw[7] = 7;
    raw[8] = b'A';
    raw[9] = 0xFF;
    raw[10] = b'B';
    let s = deserialise_settings(&raw);
    assert!(s.recall_toggle);
    assert_eq!(s.device_name, "A\u{FFFD}B");
}

#[test]
fn defaults() {
    let p = Preset::default();
    assert_eq!(p.name, "");
    assert_eq!(p.color_pos1, [0, 0, 0]);
    assert!(p.msgs.is_empty());
    let m = MidiMsg::default();
    assert_eq!(m.msg_type, MsgType::NoMsg);
    let s = DeviceSettings::default();
    assert_eq!(s.brightness, 0);
    assert!(!s.recall_toggle);
    let b = Bank::default();
    assert_eq!(b.name, "");
    assert!(b.enter_msgs.is_empty());
}

#[test]
fn canonical_msg_record_reserialises_to_itself() {
    let mut b = vec![0u8; MIDI_MSG_SIZE];
    b[0] = 2;
    b[4] = 4;
    b[8] = 1;
    b[12..16].copy_from_slice(&[3, 15, 100, 7]);
    b[16] = 3;
    b[20..23].copy_from_slice(&[0x41, 0x42, 0x43]);
    let msg = deserialise_midi_msg(&b);
    let mut out = vec![0xAAu8; MIDI_MSG_SIZE];
    serialise_midi_msg(&msg, &mut out);
    assert_eq!(out, b);
}
