use daisy_midi::midi::codec::{decode_7bit, encode_7bit};
use daisy_midi::midi::protocol::{
    bank_address_payload, bank_from_payload, banks_from_bytes, check_bank_ack, chunk_count,
    device_info_from_payload, firmware_chunk_payload, firmware_start_payload, matches_response,
    firmware_plan, next_seq, profile_payload, restore_plan, restore_chunk_payload, rt_event, set_bank_payload,
    set_settings_payload, settings_from_payload, AllBanksCollector, BackupCollector, ChunkList,
    ProtocolError, RtEvent,
};
use daisy_midi::midi::sysex::{cmd, parse_frame, SysexFrame, DIR_DEV_TO_HOST};
use daisy_midi::midi::types::{serialise_bank, serialise_settings, Bank, DeviceSettings, BANK_SIZE};

fn frame(c: u8, seq: u8, payload: Vec<u8>) -> SysexFrame {
    SysexFrame { cmd: c, dir: DIR_DEV_TO_HOST, seq, payload }
}

#[test]
fn seq_wraps_at_128() {
    let mut s = 126u8;
    assert_eq!(next_seq(&mut s), 126);
    assert_eq!(s, 127);
    assert_eq!(next_seq(&mut s), 127);
    assert_eq!(s, 0);
}

#[test]
fn address_payloads_are_7bit() {
    assert_eq!(bank_address_payload(0x81, 5), vec![0x01, 5]);
    assert_eq!(profile_payload(0xFF), vec![0x7F]);
}

#[test]
fn set_settings_payload_decodes_to_settings() {
    let s = DeviceSettings { brightness: 200, device_name: "X".to_string(), ..DeviceSettings::default() };
    let p = set_settings_payload(&s);
    assert!(p.iter().all(|&b| b <= 0x7F));
    assert_eq!(decode_7bit(&p), serialise_settings(&s));
}

#[test]
fn set_bank_payload_carries_address_and_bank() {
    let mut b = Bank::default();
    b.name = "Delays".to_string();
    let p = set_bank_payload(1, 200, &b);
    let raw = decode_7bit(&p);
    assert_eq!(raw.len(), 2 + BANK_SIZE);
    assert_eq!(&raw[0..2], &[1, 200 & 0x7F]);
    assert_eq!(&raw[2..], serialise_bank(&b).as_slice());
}

#[test]
fn chunking_of_restore_and_firmware() {
    assert_eq!(chunk_count(0), 0);
    assert_eq!(chunk_count(512), 1);
    assert_eq!(chunk_count(513), 2);
    let data: Vec<u8> = (0..1000u32).map(|i| (i % 251) as u8).collect();
    let p0 = decode_7bit(&restore_chunk_payload(&data, 0));
    assert_eq!(&p0[0..2], &[0, 2]);
    assert_eq!(&p0[2..], &data[0..512]);
    let p1 = decode_7bit(&restore_chunk_payload(&data, 1));
    assert_eq!(&p1[0..2], &[1, 2]);
    assert_eq!(&p1[2..], &data[512..]);
    assert_eq!(decode_7bit(&firmware_chunk_payload(&data, 1)), data[512..].to_vec());
}

#[test]
fn firmware_start_is_big_endian() {
    let p = firmware_start_payload(0x0001_0203, 0xCBF4_3926);
    assert_eq!(decode_7bit(&p), vec![0x00, 0x01, 0x02, 0x03, 0xCB, 0xF4, 0x39, 0x26]);
}

#[test]
fn response_matching() {
    let f = frame(cmd::DEVICE_INFO_RSP, 4, vec![]);
    assert!(matches_response(&f, cmd::DEVICE_INFO_RSP, 4));
    assert!(!matches_response(&f, cmd::DEVICE_INFO_RSP, 5));
    assert!(!matches_response(&f, cmd::SETTINGS_RSP, 4));
}

#[test]
fn device_info_response() {
    let mut raw = vec![1, 2, 3];
    raw.extend_from_slice(b"Daisy\0junk");
    let info = device_info_from_payload(&encode_7bit(&raw)).unwrap();
    assert_eq!((info.firmware_major, info.firmware_minor, info.firmware_patch), (1, 2, 3));
    assert_eq!(info.device_name, "Daisy");
    let short = device_info_from_payload(&encode_7bit(&[1, 2]));
    assert_eq!(short.unwrap_err(), ProtocolError::DeviceInfoTooShort);
}

#[test]
fn settings_response() {
    let s = DeviceSettings { startup_bank: 4, ..DeviceSettings::default() };
    let got = settings_from_payload(&encode_7bit(&serialise_settings(&s))).unwrap();
    assert_eq!(got.startup_bank, 4);
    let err = settings_from_payload(&encode_7bit(&[0u8; 10])).unwrap_err();
    assert_eq!(err, ProtocolError::SettingsTooShort { len: 10 });
}

#[test]
fn bank_response() {
    let mut b = Bank::default();
    b.name = "Reverbs".to_string();
    let got = bank_from_payload(&encode_7bit(&serialise_bank(&b))).unwrap();
    assert_eq!(got.name, "Reverbs");
    let err = bank_from_payload(&encode_7bit(&[0u8; 100])).unwrap_err();
    assert_eq!(err, ProtocolError::BankTooShort { len: 100 });
}

#[test]
fn bank_ack() {
    assert_eq!(check_bank_ack(&[]), Ok(()));
    assert_eq!(check_bank_ack(&[5, 0]), Ok(()));
    assert_eq!(check_bank_ack(&[5, 3]), Err(ProtocolError::BankRejected { status: 3 }));
}

#[test]
fn chunk_list_orders_by_index_stably() {
    let mut l = ChunkList::new();
    l.insert(2, vec![20]);
    l.insert(0, vec![1]);
    l.insert(1, vec![10]);
    l.insert(0, vec![2]);
    assert_eq!(l.assemble(), vec![1, 2, 10, 20]);
}

#[test]
fn backup_collector_reassembles_out_of_order() {
    let mut c = BackupCollector::new();
    assert!(BackupCollector::accepts(&frame(cmd::BACKUP_CHUNK, 0, vec![])));
    assert!(!BackupCollector::accepts(&frame(cmd::ALL_BANKS_CHUNK, 0, vec![])));
    let mut p1 = vec![1, 2];
    p1.extend(encode_7bit(&[0xB0, 0xB1]));
    let mut p0 = vec![0, 2];
    p0.extend(encode_7bit(&[0xA0]));
    assert!(!c.on_frame(&frame(cmd::BACKUP_CHUNK, 0, vec![9])));
    assert!(c.on_frame(&frame(cmd::BACKUP_CHUNK, 0, p1)));
    assert!(!c.on_frame(&frame(cmd::BACKUP_CHUNK, 0, p0)));
    assert_eq!(c.finish(), vec![0xA0, 0xB0, 0xB1]);
}

#[test]
fn all_banks_collector() {
    let mut b = Bank::default();
    b.name = "Modulation".to_string();
    let raw = serialise_bank(&b);
    let half = raw.len() / 2;
    let mut c = AllBanksCollector::new();
    assert!(AllBanksCollector::accepts(&frame(cmd::ALL_BANKS_DONE, 0, vec![])));
    let mut second = vec![1, 0];
    second.extend(encode_7bit(&raw[half..]));
    let mut first = vec![0, 0];
    first.extend(encode_7bit(&raw[..half]));
    assert!(!c.on_frame(&frame(cmd::ALL_BANKS_CHUNK, 0, second)));
    assert!(!c.on_frame(&frame(cmd::ALL_BANKS_CHUNK, 0, first)));
    assert!(c.on_frame(&frame(cmd::ALL_BANKS_DONE, 0, vec![])));
    let banks = c.finish();
    assert_eq!(banks.len(), 1);
    assert_eq!(banks[0].name, "Modulation");
}

#[test]
fn all_banks_with_chunk_count_gives_128_with_placeholders() {
    let banks = banks_from_bytes(&[], 3);
    assert_eq!(banks.len(), 128);
    assert_eq!(banks[0].name, "Bank 1");
    assert_eq!(banks[127].name, "Bank 128");
    assert!(banks[5].enter_msgs.is_empty());
    assert!(banks_from_bytes(&[0u8; 100], 0).is_empty());
}

#[test]
fn realtime_events() {
    assert_eq!(
        rt_event(&frame(cmd::RT_BANK_CHANGE, 0, vec![1, 2, 3])),
        Some(RtEvent::BankChange { profile: 1, bank_index: 2, page: 3 })
    );
    assert_eq!(rt_event(&frame(cmd::RT_BANK_CHANGE, 0, vec![1, 2])), None);
    assert_eq!(
        rt_event(&frame(cmd::RT_PRESET_TOGGLE, 0, vec![4, 1])),
        Some(RtEvent::PresetToggle { switch_index: 4, toggle_pos: 1 })
    );
    assert_eq!(rt_event(&frame(cmd::SETTINGS_RSP, 0, vec![1, 2, 3])), None);
}

#[test]
fn restore_plan_frames_in_order() {
    let data: Vec<u8> = (0..1000u32).map(|i| (i % 253) as u8).collect();
    let frames = restore_plan(&data, 126);
    assert_eq!(frames.len(), 3);
    let parsed: Vec<SysexFrame> = frames.iter().map(|f| parse_frame(f).unwrap()).collect();
    assert_eq!(parsed[0].cmd, cmd::RESTORE_CHUNK);
    assert_eq!(parsed[1].cmd, cmd::RESTORE_CHUNK);
    assert_eq!(parsed[2].cmd, cmd::RESTORE_DONE);
    assert_eq!((parsed[0].seq, parsed[1].seq, parsed[2].seq), (126, 127, 0));
    let mut joined = Vec::new();
    for (i, f) in parsed[..2].iter().enumerate() {
        let raw = decode_7bit(&f.payload);
        assert_eq!(&raw[0..2], &[i as u8, 2]);
        joined.extend_from_slice(&raw[2..]);
    }
    assert_eq!(joined, data);
    assert!(parsed[2].payload.is_empty());
}

#[test]
fn firmware_plan_frames_in_order() {
    let frames = firmware_plan(&[], 5);
    assert_eq!(frames.len(), 1);
    let f = parse_frame(&frames[0]).unwrap();
    assert_eq!((f.cmd, f.seq), (cmd::FW_REBOOT, 5));
    let image = vec![0xEEu8; 600];
    let frames = firmware_plan(&image, 127);
    assert_eq!(frames.len(), 3);
    let p: Vec<SysexFrame> = frames.iter().map(|f| parse_frame(f).unwrap()).collect();
    assert_eq!((p[0].seq, p[1].seq, p[2].seq), (127, 0, 1));
    assert_eq!(decode_7bit(&p[0].payload), vec![0xEE; 512]);
    assert_eq!(decode_7bit(&p[1].payload), vec![0xEE; 88]);
    assert_eq!(p[2].cmd, cmd::FW_REBOOT);
}
