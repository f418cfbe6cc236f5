//! MIDI-side modules: codec, framing, binary layout and protocol rules.
pub mod codec;
pub mod sysex;
pub mod types;
pub mod protocol;
pub mod connection;
