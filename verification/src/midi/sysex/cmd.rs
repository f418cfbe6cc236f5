//! Command bytes of the editor protocol.
use vstd::prelude::*;

verus! {

pub const GET_DEVICE_INFO: u8 = 0x01;
pub const DEVICE_INFO_RSP: u8 = 0x02;
pub const GET_BANK: u8 = 0x10;
pub const BANK_DATA_RSP: u8 = 0x11;
pub const SET_BANK: u8 = 0x12;
pub const SET_BANK_ACK: u8 = 0x13;
pub const GET_ALL_BANKS: u8 = 0x20;
pub const ALL_BANKS_CHUNK: u8 = 0x21;
pub const ALL_BANKS_DONE: u8 = 0x22;
pub const GET_SETTINGS: u8 = 0x30;
pub const SETTINGS_RSP: u8 = 0x31;
pub const SET_SETTINGS: u8 = 0x32;
pub const BACKUP_REQUEST: u8 = 0x40;
pub const BACKUP_CHUNK: u8 = 0x41;
pub const RESTORE_CHUNK: u8 = 0x42;
pub const RESTORE_DONE: u8 = 0x43;
pub const ENTER_EDITOR_MODE: u8 = 0x50;
pub const EXIT_EDITOR_MODE: u8 = 0x51;
pub const FW_UPDATE_START: u8 = 0x60;
pub const FW_CHUNK: u8 = 0x61;
pub const FW_REBOOT: u8 = 0x62;
pub const RT_BANK_CHANGE: u8 = 0x70;
pub const RT_PRESET_TOGGLE: u8 = 0x71;

} // verus!
