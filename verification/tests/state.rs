use daisy_midi::midi::types::Bank;
use daisy_midi::state::{make_mock_banks, MockDevice, MOCK_DEVICE_NAME};

#[test]
fn mock_banks_content() {
    let banks = make_mock_banks(0);
    assert_eq!(banks.len(), 8);
    assert_eq!(banks[0].name, "Overdrives");
    assert_eq!(banks[0].presets[0][0].name, "Tube Scream");
    assert_eq!(banks[0].presets[0][0].color_pos1, [255, 80, 0]);
    assert_eq!(banks[0].presets[0][0].color_pos2, [85, 26, 0]);
    assert_eq!(banks[4].presets[3][3].name, "Loop Stop");
    assert_eq!(banks[5].name, "Bank 6");
    assert_eq!(banks[7].presets[2][1].name, "Preset 2");
    assert_eq!(banks[7].presets[2][1].color_pos1, [80, 180, 80]);
    let other = make_mock_banks(1);
    assert_eq!(other[0].name, "B 1");
    assert_eq!(other[7].name, "B 8");
    assert_eq!(MOCK_DEVICE_NAME, "Daisy Mock Device");
}

#[test]
fn mock_device_read_after_write() {
    let mut m = MockDevice::new();
    assert_eq!(m.banks.len(), 2);
    assert_eq!(m.get_settings().brightness, 80);
    assert_eq!(m.get_settings().device_name, "Daisy Mock");
    let mut b = Bank::default();
    b.name = "Written".to_string();
    m.set_bank(1, 3, b);
    assert_eq!(m.get_bank(1, 3).unwrap().name, "Written");
    assert_eq!(m.get_bank(1, 2).unwrap().name, "B 3");
    assert!(m.get_bank(2, 0).is_none());
    assert!(m.get_bank(0, 8).is_none());
    m.set_bank(5, 0, Bank::default());
    assert_eq!(m.get_all_banks(1).len(), 8);
    assert!(m.get_all_banks(2).is_empty());
    assert_eq!(MockDevice::backup(), b"DAISY_MOCK_BACKUP_V1".to_vec());
    assert_eq!(MockDevice::device_info().device_name, "Daisy Mock");
}
