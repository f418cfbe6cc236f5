//! Host-side logic of the Daisy MIDI foot-controller editor: the 7-bit
//! SysEx payload codec, SysEx framing, the binary layout of presets, banks
//! and device settings, the request/response rules of the editor protocol,
//! and the mock device used when no hardware is attached.
pub mod crc;
pub mod midi;
pub mod state;
