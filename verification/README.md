# daisy_midi

Host-side logic of the editor for the Daisy MIDI foot controller, written in
Verus and proved against its contracts.

- `src/midi/codec.rs` — the 8-to-7 bit payload codec (decoding undoes encoding).
- `src/midi/sysex.rs` — SysEx frames: building, parsing, checksum.
- `src/midi/types.rs` — presets, banks, settings and their binary layout on
  the device (reading back what was written gives what the device keeps).
- `src/midi/protocol.rs` — sequence numbers, request payloads, response
  decoding, chunked transfers and real-time notifications.
- `src/midi/connection.rs` — reassembly of frames from an input byte stream.
- `src/state.rs` — the in-memory mock device.
- `src/crc.rs` — CRC-32 of firmware images.
- `app/` — the Tauri shell: MIDI ports (midir), async waiting (tokio),
  commands and events, and serde copies of the data types.
