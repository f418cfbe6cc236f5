//! Preset, bank and settings types and their binary layout on the device.
//!
//! The device stores these as C structs (32-bit ARM, int-sized enums):
//! `midi_msg_t` is 52 bytes, `preset_t` 1692 bytes, `bank_t` 33812 bytes
//! and `device_settings_t` 29 bytes. Multi-byte integers are little endian.
use vstd::prelude::*;
use vstd::utf8::{decode_utf8, encode_utf8, encode_utf8_decode_utf8, encode_utf8_valid_utf8, valid_utf8};

verus! {

// ── Enum mirrors (numbers match the firmware's enums) ────────────────────────

#[derive(Debug, Clone, Copy, PartialEq, Eq, Structural)]
pub enum MsgType {
    NoMsg,
    Pc,
    Cc,
    NoteOn,
    NoteOff,
    ClockBpm,
    ClockTap,
    Sysex,
    Mmc,
    Realtime,
    Relay,
    BankJump,
    PageJump,
    PresetToggle,
    Keystroke,
}

/// Firmware number of each message type.
pub open spec fn msg_type_code(t: MsgType) -> int {
    match t {
        MsgType::NoMsg => 0,
        MsgType::Pc => 1,
        MsgType::Cc => 2,
        MsgType::NoteOn => 3,
        MsgType::NoteOff => 4,
        MsgType::ClockBpm => 5,
        MsgType::ClockTap => 6,
        MsgType::Sysex => 7,
        MsgType::Mmc => 8,
        MsgType::Realtime => 9,
        MsgType::Relay => 10,
        MsgType::BankJump => 11,
        MsgType::PageJump => 12,
        MsgType::PresetToggle => 13,
        MsgType::Keystroke => 14,
    }
}

/// Message type of a firmware number; unknown numbers read as `NoMsg`.
pub open spec fn msg_type_of(v: int) -> MsgType {
    if v == 1 {
        MsgType::Pc
    } else if v == 2 {
        MsgType::Cc
    } else if v == 3 {
        MsgType::NoteOn
    } else if v == 4 {
        MsgType::NoteOff
    } else if v == 5 {
        MsgType::ClockBpm
    } else if v == 6 {
        MsgType::ClockTap
    } else if v == 7 {
        MsgType::Sysex
    } else if v == 8 {
        MsgType::Mmc
    } else if v == 9 {
        MsgType::Realtime
    } else if v == 10 {
        MsgType::Relay
    } else if v == 11 {
        MsgType::BankJump
    } else if v == 12 {
        MsgType::PageJump
    } else if v == 13 {
        MsgType::PresetToggle
    } else if v == 14 {
        MsgType::Keystroke
    } else {
        MsgType::NoMsg
    }
}

impl Default for MsgType {
    fn default() -> (r: Self)
        ensures
            r == MsgType::NoMsg,
    {
        MsgType::NoMsg
    }
}

impl MsgType {
    pub fn from_i32(v: i32) -> (r: Self)
        ensures
            r == msg_type_of(v as int),
    {
        match v {
            1 => Self::Pc,
            2 => Self::Cc,
            3 => Self::NoteOn,
            4 => Self::NoteOff,
            5 => Self::ClockBpm,
            6 => Self::ClockTap,
            7 => Self::Sysex,
            8 => Self::Mmc,
            9 => Self::Realtime,
            10 => Self::Relay,
            11 => Self::BankJump,
            12 => Self::PageJump,
            13 => Self::PresetToggle,
            14 => Self::Keystroke,
            _ => Self::NoMsg,
        }
    }

    /// The firmware number of this message type.
    pub fn to_i32(self) -> (r: i32)
        ensures
            r == msg_type_code(self),
    {
        match self {
            MsgType::NoMsg => 0,
            MsgType::Pc => 1,
            MsgType::Cc => 2,
            MsgType::NoteOn => 3,
            MsgType::NoteOff => 4,
            MsgType::ClockBpm => 5,
            MsgType::ClockTap => 6,
            MsgType::Sysex => 7,
            MsgType::Mmc => 8,
            MsgType::Realtime => 9,
            MsgType::Relay => 10,
            MsgType::BankJump => 11,
            MsgType::PageJump => 12,
            MsgType::PresetToggle => 13,
            MsgType::Keystroke => 14,
        }
    }
}

#[derive(Debug, Clone, Copy, PartialEq, Eq, Structural)]
pub enum Action {
    Press,
    Release,
    DoubleTap,
    LongPress,
    LongPressRel,
    DoubleTapRel,
}

/// Firmware number of each action.
pub open spec fn action_code(a: Action) -> int {
    match a {
        Action::Press => 0,
        Action::Release => 1,
        Action::DoubleTap => 2,
        Action::LongPress => 3,
        Action::LongPressRel => 4,
        Action::DoubleTapRel => 5,
    }
}

/// Action of a firmware number; unknown numbers read as `Press`.
pub open spec fn action_of(v: int) -> Action {
    if v == 1 {
        Action::Release
    } else if v == 2 {
        Action::DoubleTap
    } else if v == 3 {
        Action::LongPress
    } else if v == 4 {
        Action::LongPressRel
    } else if v == 5 {
        Action::DoubleTapRel
    } else {
        Action::Press
    }
}

impl Default for Action {
    fn default() -> (r: Self)
        ensures
            r == Action::Press,
    {
        Action::Press
    }
}

impl Action {
    pub fn from_i32(v: i32) -> (r: Self)
        ensures
            r == action_of(v as int),
    {
        match v {
            1 => Self::Release,
            2 => Self::DoubleTap,
            3 => Self::LongPress,
            4 => Self::LongPressRel,
            5 => Self::DoubleTapRel,
            _ => Self::Press,
        }
    }

    /// The firmware number of this action.
    pub fn to_i32(self) -> (r: i32)
        ensures
            r == action_code(self),
    {
        match self {
            Action::Press => 0,
            Action::Release => 1,
            Action::DoubleTap => 2,
            Action::LongPress => 3,
            Action::LongPressRel => 4,
            Action::DoubleTapRel => 5,
        }
    }
}

#[derive(Debug, Clone, Copy, PartialEq, Eq, Structural)]
pub enum TogglePos {
    Pos1,
    Pos2,
    Shift,
}

/// Firmware number of each toggle position.
pub open spec fn toggle_pos_code(p: TogglePos) -> int {
    match p {
        TogglePos::Pos1 => 0,
        TogglePos::Pos2 => 1,
        TogglePos::Shift => 2,
    }
}

/// Toggle position of a firmware number; unknown numbers read as `Pos1`.
pub open spec fn toggle_pos_of(v: int) -> TogglePos {
    if v == 1 {
        TogglePos::Pos2
    } else if v == 2 {
        TogglePos::Shift
    } else {
        TogglePos::Pos1
    }
}

impl Default for TogglePos {
    fn default() -> (r: Self)
        ensures
            r == TogglePos::Pos1,
    {
        TogglePos::Pos1
    }
}

impl TogglePos {
    pub fn from_i32(v: i32) -> (r: Self)
        ensures
            r == toggle_pos_of(v as int),
    {
        match v {
            1 => Self::Pos2,
            2 => Self::Shift,
            _ => Self::Pos1,
        }
    }

    /// The firmware number of this toggle position.
    pub fn to_i32(self) -> (r: i32)
        ensures
            r == toggle_pos_code(self),
    {
        match self {
            TogglePos::Pos1 => 0,
            TogglePos::Pos2 => 1,
            TogglePos::Shift => 2,
        }
    }
}

/// Every enum number written by `to_i32` reads back as the same value.
pub proof fn lemma_enum_codes_round_trip(t: MsgType, a: Action, p: TogglePos)
    ensures
        msg_type_of(msg_type_code(t)) == t,
        action_of(action_code(a)) == a,
        toggle_pos_of(toggle_pos_code(p)) == p,
        0 <= msg_type_code(t) <= 14,
        0 <= action_code(a) <= 5,
        0 <= toggle_pos_code(p) <= 2,
{
}

/// The firmware's numbers of the enum values, in declaration order from 0:
/// message types 0 (none) to 14 (keystroke), actions 0 (press) to 5
/// (double-tap release), toggle positions 0 (position 1) to 2 (shift); every
/// other number reads as the first value.
pub proof fn lemma_firmware_numbers(v: int)
    ensures
        msg_type_code(MsgType::NoMsg) == 0,
        msg_type_of(0) == MsgType::NoMsg,
        msg_type_code(MsgType::Pc) == 1,
        msg_type_of(1) == MsgType::Pc,
        msg_type_code(MsgType::Cc) == 2,
        msg_type_of(2) == MsgType::Cc,
        msg_type_code(MsgType::NoteOn) == 3,
        msg_type_of(3) == MsgType::NoteOn,
        msg_type_code(MsgType::NoteOff) == 4,
        msg_type_of(4) == MsgType::NoteOff,
        msg_type_code(MsgType::ClockBpm) == 5,
        msg_type_of(5) == MsgType::ClockBpm,
        msg_type_code(MsgType::ClockTap) == 6,
        msg_type_of(6) == MsgType::ClockTap,
        msg_type_code(MsgType::Sysex) == 7,
        msg_type_of(7) == MsgType::Sysex,
        msg_type_code(MsgType::Mmc) == 8,
        msg_type_of(8) == MsgType::Mmc,
        msg_type_code(MsgType::Realtime) == 9,
        msg_type_of(9) == MsgType::Realtime,
        msg_type_code(MsgType::Relay) == 10,
        msg_type_of(10) == MsgType::Relay,
        msg_type_code(MsgType::BankJump) == 11,
        msg_type_of(11) == MsgType::BankJump,
        msg_type_code(MsgType::PageJump) == 12,
        msg_type_of(12) == MsgType::PageJump,
        msg_type_code(MsgType::PresetToggle) == 13,
        msg_type_of(13) == MsgType::PresetToggle,
        msg_type_code(MsgType::Keystroke) == 14,
        msg_type_of(14) == MsgType::Keystroke,
        action_code(Action::Press) == 0,
        action_of(0) == Action::Press,
        action_code(Action::Release) == 1,
        action_of(1) == Action::Release,
        action_code(Action::DoubleTap) == 2,
        action_of(2) == Action::DoubleTap,
        action_code(Action::LongPress) == 3,
        action_of(3) == Action::LongPress,
        action_code(Action::LongPressRel) == 4,
        action_of(4) == Action::LongPressRel,
        action_code(Action::DoubleTapRel) == 5,
        action_of(5) == Action::DoubleTapRel,
        toggle_pos_code(TogglePos::Pos1) == 0,
        toggle_pos_of(0) == TogglePos::Pos1,
        toggle_pos_code(TogglePos::Pos2) == 1,
        toggle_pos_of(1) == TogglePos::Pos2,
        toggle_pos_code(TogglePos::Shift) == 2,
        toggle_pos_of(2) == TogglePos::Shift,
        (v < 0 || v > 14) ==> msg_type_of(v) == MsgType::NoMsg,
        (v < 0 || v > 5) ==> action_of(v) == Action::Press,
        (v < 0 || v > 2) ==> toggle_pos_of(v) == TogglePos::Pos1,
{
}

// ── Little-endian 32-bit fields ──────────────────────────────────────────────

/// The little-endian 32-bit word at `off` in `b`.
pub open spec fn le_u32(b: Seq<u8>, off: int) -> u32 {
    (b[off] as u32) | ((b[off + 1] as u32) << 8u32) | ((b[off + 2] as u32) << 16u32) | ((
    b[off + 3] as u32) << 24u32)
}

/// The four little-endian bytes of `u`.
pub open spec fn le_bytes(u: u32) -> Seq<u8> {
    seq![
        (u & 0xff) as u8,
        ((u >> 8u32) & 0xff) as u8,
        ((u >> 16u32) & 0xff) as u8,
        ((u >> 24u32) & 0xff) as u8,
    ]
}

/// Bytes `off..off+4` of `b` reinterpreted as a little-endian `i32`.
pub open spec fn read_i32_spec(b: Seq<u8>, off: int) -> int {
    (le_u32(b, off) as i32) as int
}

fn read_i32_le(buf: &[u8], offset: usize) -> (v: i32)
    requires
        offset + 4 <= buf@.len(),
    ensures
        v as int == read_i32_spec(buf@, offset as int),
{
    let u: u32 = (buf[offset] as u32) | ((buf[offset + 1] as u32) << 8u32) | ((buf[offset
        + 2] as u32) << 16u32) | ((buf[offset + 3] as u32) << 24u32);
    u as i32
}

/// Appends the four little-endian bytes of `v`.
fn write_i32_le(out: &mut Vec<u8>, v: i32)
    ensures
        final(out)@ == old(out)@ + le_bytes(v as u32),
{
    let u = v as u32;
    out.push((u & 0xff) as u8);
    out.push(((u >> 8u32) & 0xff) as u8);
    out.push(((u >> 16u32) & 0xff) as u8);
    out.push(((u >> 24u32) & 0xff) as u8);
    assert(final(out)@ =~= old(out)@ + le_bytes(v as u32));
}

/// A small non-negative number is written as itself followed by three zeros.
proof fn lemma_le_bytes_small(c: int)
    requires
        0 <= c < 256,
    ensures
        le_bytes((c as i32) as u32) == seq![c as u8, 0u8, 0u8, 0u8],
{
    let u = (c as i32) as u32;
    assert(u == c);
    let b = c as u8;
    assert(b == c);
    assert((u & 0xff) as u8 == b && ((u >> 8u32) & 0xff) as u8 == 0 && ((u >> 16u32) & 0xff)
        as u8 == 0 && ((u >> 24u32) & 0xff) as u8 == 0) by (bit_vector)
        requires
            u == b as u32,
    ;
    assert(le_bytes(u) =~= seq![b, 0u8, 0u8, 0u8]);
}

/// A byte followed by three zero bytes reads back as that byte.
proof fn lemma_read_small(b: Seq<u8>, off: int)
    requires
        0 <= off,
        off + 4 <= b.len(),
        b[off + 1] == 0,
        b[off + 2] == 0,
        b[off + 3] == 0,
    ensures
        read_i32_spec(b, off) == b[off] as int,
{
    let x0 = b[off];
    let x1 = b[off + 1];
    let x2 = b[off + 2];
    let x3 = b[off + 3];
    assert(le_u32(b, off) == (x0 as u32) | ((x1 as u32) << 8u32) | ((x2 as u32) << 16u32) | ((
    x3 as u32) << 24u32));
    assert((x0 as u32) | ((x1 as u32) << 8u32) | ((x2 as u32) << 16u32) | ((x3 as u32) << 24u32)
        == x0 as u32) by (bit_vector)
        requires
            x1 == 0,
            x2 == 0,
            x3 == 0,
    ;
    let u = le_u32(b, off);
    assert(u == x0 as u32);
    assert(u < 256);
    assert((u as i32) as int == u as int);
}

// ── MIDI messages ────────────────────────────────────────────────────────────

pub const MIDI_MSG_SIZE: usize = 52;
pub const PRESET_SIZE: usize = 1692;
pub const BANK_SIZE: usize = 33812;
pub const DEVICE_SETTINGS_SIZE: usize = 29;

/// Most SysEx bytes (and most messages in a list) that the device stores.
pub open spec fn min32(n: int) -> int {
    if n < 32 {
        n
    } else {
        32
    }
}

/// `n` zero bytes.
pub open spec fn zeros(n: int) -> Seq<u8> {
    Seq::new(n as nat, |i: int| 0u8)
}

#[derive(Debug, Clone)]
pub struct MidiMsg {
    pub msg_type: MsgType,
    pub action: Action,
    pub toggle_pos: TogglePos,
    pub port: u8,
    pub channel: u8,
    pub number: u8,
    pub value: u8,
    pub sysex: Vec<u8>,
}

/// Mathematical model of a [`MidiMsg`].
pub struct MidiMsgView {
    pub msg_type: MsgType,
    pub action: Action,
    pub toggle_pos: TogglePos,
    pub port: u8,
    pub channel: u8,
    pub number: u8,
    pub value: u8,
    pub sysex: Seq<u8>,
}

impl View for MidiMsg {
    type V = MidiMsgView;

    open spec fn view(&self) -> MidiMsgView {
        MidiMsgView {
            msg_type: self.msg_type,
            action: self.action,
            toggle_pos: self.toggle_pos,
            port: self.port,
            channel: self.channel,
            number: self.number,
            value: self.value,
            sysex: self.sysex@,
        }
    }
}

/// The message that every field of which is zero or the first variant.
pub open spec fn default_msg() -> MidiMsgView {
    MidiMsgView {
        msg_type: MsgType::NoMsg,
        action: Action::Press,
        toggle_pos: TogglePos::Pos1,
        port: 0,
        channel: 0,
        number: 0,
        value: 0,
        sysex: seq![],
    }
}

impl Default for MidiMsg {
    fn default() -> (r: Self)
        ensures
            r@ == default_msg(),
    {
        MidiMsg {
            msg_type: MsgType::NoMsg,
            action: Action::Press,
            toggle_pos: TogglePos::Pos1,
            port: 0,
            channel: 0,
            number: 0,
            value: 0,
            sysex: Vec::new(),
        }
    }
}

/// The 52 bytes of `midi_msg_t` for `m`: three enum words, port, channel,
/// number, value, the SysEx length (at most 32), three padding bytes and 32
/// SysEx bytes, zero-filled after the stored ones.
pub open spec fn msg_bytes(m: MidiMsgView) -> Seq<u8> {
    let k = min32(m.sysex.len() as int);
    le_bytes((msg_type_code(m.msg_type) as i32) as u32) + le_bytes(
        (action_code(m.action) as i32) as u32,
    ) + le_bytes((toggle_pos_code(m.toggle_pos) as i32) as u32) + seq![
        m.port,
        m.channel,
        m.number,
        m.value,
        k as u8,
        0u8,
        0u8,
        0u8,
    ] + m.sysex.take(k) + zeros(32 - k)
}

/// `m` as the device keeps it: at most 32 SysEx bytes.
pub open spec fn stored_msg(m: MidiMsgView) -> MidiMsgView {
    MidiMsgView { sysex: m.sysex.take(min32(m.sysex.len() as int)), ..m }
}

/// A message can be read at `off` in `b` without running past its end.
pub open spec fn msg_readable(b: Seq<u8>, off: int) -> bool {
    &&& 0 <= off
    &&& off + 17 <= b.len()
    &&& off + 20 + min32(b[off + 16] as int) <= b.len()
}

/// The message stored at `off` in `b`.
pub open spec fn read_msg(b: Seq<u8>, off: int) -> MidiMsgView {
    MidiMsgView {
        msg_type: msg_type_of(read_i32_spec(b, off)),
        action: action_of(read_i32_spec(b, off + 4)),
        toggle_pos: toggle_pos_of(read_i32_spec(b, off + 8)),
        port: b[off + 12],
        channel: b[off + 13],
        number: b[off + 14],
        value: b[off + 15],
        sysex: b.subrange(off + 20, off + 20 + min32(b[off + 16] as int)),
    }
}

fn read_midi_msg_at(buf: &[u8], off: usize) -> (m: MidiMsg)
    requires
        msg_readable(buf@, off as int),
    ensures
        m@ == read_msg(buf@, off as int),
{
    let n = buf.len();
    let msg_type = MsgType::from_i32(read_i32_le(buf, off));
    let action = Action::from_i32(read_i32_le(buf, off + 4));
    let toggle_pos = TogglePos::from_i32(read_i32_le(buf, off + 8));
    let port = buf[off + 12];
    let channel = buf[off + 13];
    let number = buf[off + 14];
    let value = buf[off + 15];
    let sysex_len = buf[off + 16] as usize;
    let k: usize = if sysex_len < 32 { sysex_len } else { 32 };
    let mut sysex: Vec<u8> = Vec::new();
    let mut i: usize = 0;
    while i < k
        invariant
            n == buf@.len(),
            msg_readable(buf@, off as int),
            k == min32(buf@[off + 16] as int),
            i <= k,
            sysex@ == buf@.subrange(off + 20, off + 20 + i),
        decreases k - i,
    {
        sysex.push(buf[off + 20 + i]);
        i = i + 1;
        assert(sysex@ =~= buf@.subrange(off + 20, off + 20 + i));
    }
    MidiMsg { msg_type, action, toggle_pos, port, channel, number, value, sysex }
}

/// Read the `midi_msg_t` at the start of `buf`.
pub fn deserialise_midi_msg(buf: &[u8]) -> (m: MidiMsg)
    requires
        msg_readable(buf@, 0),
    ensures
        m@ == read_msg(buf@, 0),
        canonical_msg(buf@, 0) ==> msg_bytes(m@) == buf@.take(MIDI_MSG_SIZE as int),
{
    proof {
        if canonical_msg(buf@, 0) {
            lemma_msg_deserialise_serialise(buf@, 0);
            assert(buf@.subrange(0, MIDI_MSG_SIZE as int) =~= buf@.take(MIDI_MSG_SIZE as int));
        }
    }
    read_midi_msg_at(buf, 0)
}

/// Appends the first `k` bytes of `src`, then zeros up to `n` bytes in all.
fn push_prefix_padded(out: &mut Vec<u8>, src: &[u8], k: usize, n: usize)
    requires
        k <= src@.len(),
        k <= n,
    ensures
        final(out)@ == old(out)@ + src@.take(k as int) + zeros(n - k),
{
    let ghost head = out@;
    let mut i: usize = 0;
    while i < n
        invariant
            k <= src@.len(),
            k <= n,
            i <= n,
            out@ == head + (if i <= k {
                src@.take(i as int)
            } else {
                src@.take(k as int) + zeros(i - k)
            }),
        decreases n - i,
    {
        if i < k {
            out.push(src[i]);
            assert(src@.take(i + 1) =~= src@.take(i as int).push(src@[i as int]));
        } else {
            out.push(0);
            assert(src@.take(k as int) + zeros(i + 1 - k) =~= (src@.take(k as int) + zeros(
                i - k,
            )).push(0u8));
        }
        i = i + 1;
    }
    assert(final(out)@ =~= old(out)@ + src@.take(k as int) + zeros(n - k));
}

/// Appends the 52 bytes of `msg`.
fn push_midi_msg(out: &mut Vec<u8>, msg: &MidiMsg)
    ensures
        final(out)@ == old(out)@ + msg_bytes(msg@),
{
    let ghost start = out@;
    write_i32_le(out, msg.msg_type.to_i32());
    write_i32_le(out, msg.action.to_i32());
    write_i32_le(out, msg.toggle_pos.to_i32());
    out.push(msg.port);
    out.push(msg.channel);
    out.push(msg.number);
    out.push(msg.value);
    let n = msg.sysex.len();
    let k: usize = if n < 32 { n } else { 32 };
    out.push(k as u8);
    out.push(0);
    out.push(0);
    out.push(0);
    push_prefix_padded(out, msg.sysex.as_slice(), k, 32);
    assert(final(out)@ =~= old(out)@ + msg_bytes(msg@));
}

/// Every message takes 52 bytes.
pub proof fn lemma_msg_bytes_len(m: MidiMsgView)
    ensures
        msg_bytes(m).len() == MIDI_MSG_SIZE,
{
}

/// Write the `midi_msg_t` for `msg` over the first 52 bytes of `buf`.
pub fn serialise_midi_msg(msg: &MidiMsg, buf: &mut [u8])
    requires
        old(buf)@.len() >= MIDI_MSG_SIZE,
    ensures
        final(buf)@ == msg_bytes(msg@) + old(buf)@.skip(MIDI_MSG_SIZE as int),
{
    let mut tmp: Vec<u8> = Vec::new();
    push_midi_msg(&mut tmp, msg);
    proof {
        lemma_msg_bytes_len(msg@);
    }
    copy_prefix(buf, &tmp);
}

/// Wherever the 52 bytes of a message stand in a buffer, they read back as
/// the message the device keeps (the enums, the four bytes and at most 32
/// SysEx bytes).
pub proof fn lemma_msg_round_trip(b: Seq<u8>, off: int, m: MidiMsgView)
    requires
        0 <= off,
        off + MIDI_MSG_SIZE <= b.len(),
        b.subrange(off, off + MIDI_MSG_SIZE) == msg_bytes(m),
    ensures
        msg_readable(b, off),
        read_msg(b, off) == stored_msg(m),
{
    let mb = msg_bytes(m);
    let k = min32(m.sysex.len() as int);
    lemma_enum_codes_round_trip(m.msg_type, m.action, m.toggle_pos);
    lemma_le_bytes_small(msg_type_code(m.msg_type));
    lemma_le_bytes_small(action_code(m.action));
    lemma_le_bytes_small(toggle_pos_code(m.toggle_pos));
    assert forall|i: int| 0 <= i < 52 implies #[trigger] b[off + i] == mb[i] by {
        assert(b.subrange(off, off + MIDI_MSG_SIZE)[i] == b[off + i]);
    }
    assert(mb =~= seq![
        msg_type_code(m.msg_type) as u8, 0u8, 0u8, 0u8,
        action_code(m.action) as u8, 0u8, 0u8, 0u8,
        toggle_pos_code(m.toggle_pos) as u8, 0u8, 0u8, 0u8,
        m.port, m.channel, m.number, m.value, k as u8, 0u8, 0u8, 0u8,
    ] + m.sysex.take(k) + zeros(32 - k));
    assert(mb[16] == k as u8);
    assert(b[off + 16] == k);
    assert(b[off + 1] == mb[1] && b[off + 2] == mb[2] && b[off + 3] == mb[3]);
    assert(b[off + 5] == mb[5] && b[off + 6] == mb[6] && b[off + 7] == mb[7]);
    assert(b[off + 9] == mb[9] && b[off + 10] == mb[10] && b[off + 11] == mb[11]);
    assert(b[off + 4 + 1] == 0 && b[off + 4 + 2] == 0 && b[off + 4 + 3] == 0);
    assert(b[off + 8 + 1] == 0 && b[off + 8 + 2] == 0 && b[off + 8 + 3] == 0);
    lemma_read_small(b, off);
    lemma_read_small(b, off + 4);
    lemma_read_small(b, off + 8);
    assert forall|j: int| 0 <= j < k implies b[off + 20 + j] == m.sysex[j] by {
        assert(b[off + (20 + j)] == mb[20 + j]);
    }
    assert(b.subrange(off + 20, off + 20 + k) =~= m.sysex.take(k));
    assert(b.subrange(off, off + MIDI_MSG_SIZE)[0] == b[off]);
    assert(b[off] == msg_type_code(m.msg_type) as u8);
    assert(b[off + 4] == action_code(m.action) as u8);
    assert(b[off + 8] == toggle_pos_code(m.toggle_pos) as u8);
    assert(read_msg(b, off).msg_type == m.msg_type);
    assert(read_msg(b, off).action == m.action);
    assert(read_msg(b, off).toggle_pos == m.toggle_pos);
    assert(read_msg(b, off).port == m.port);
    assert(read_msg(b, off).value == m.value);
}

/// A message serialised on its own deserialises to what the device keeps
/// of it; with at most 32 SysEx bytes, to the message itself.
pub proof fn lemma_msg_serialise_deserialise(m: MidiMsgView, rest: Seq<u8>)
    ensures
        msg_readable(msg_bytes(m) + rest, 0),
        read_msg(msg_bytes(m) + rest, 0) == stored_msg(m),
        m.sysex.len() <= 32 ==> stored_msg(m) == m,
{
    let b = msg_bytes(m) + rest;
    assert(b.subrange(0, MIDI_MSG_SIZE as int) =~= msg_bytes(m));
    lemma_msg_round_trip(b, 0, m);
    if m.sysex.len() <= 32 {
        assert(m.sysex.take(m.sysex.len() as int) =~= m.sysex);
    }
}

/// `b` holds at `off` a message record exactly as the device writes one:
/// enum words within the firmware's numbers, a SysEx length of at most 32,
/// zero padding, and zero bytes after the stored SysEx bytes.
pub open spec fn canonical_msg(b: Seq<u8>, off: int) -> bool {
    &&& 0 <= off
    &&& off + MIDI_MSG_SIZE <= b.len()
    &&& le_u32(b, off) <= 14
    &&& le_u32(b, off + 4) <= 5
    &&& le_u32(b, off + 8) <= 2
    &&& b[off + 16] <= 32
    &&& b[off + 17] == 0
    &&& b[off + 18] == 0
    &&& b[off + 19] == 0
    &&& forall|j: int| off + 20 + b[off + 16] <= j < off + MIDI_MSG_SIZE ==> #[trigger] b[j] == 0
}

/// A word of at most `k` (below 256) is its low byte followed by three zeros.
proof fn lemma_small_word(b: Seq<u8>, off: int, k: u32)
    requires
        0 <= off,
        off + 4 <= b.len(),
        k < 256,
        le_u32(b, off) <= k,
    ensures
        b[off + 1] == 0,
        b[off + 2] == 0,
        b[off + 3] == 0,
        b[off] <= k,
        read_i32_spec(b, off) == b[off] as int,
{
    let x0 = b[off];
    let x1 = b[off + 1];
    let x2 = b[off + 2];
    let x3 = b[off + 3];
    assert(le_u32(b, off) == (x0 as u32) | ((x1 as u32) << 8u32) | ((x2 as u32) << 16u32) | ((
    x3 as u32) << 24u32));
    assert(x1 == 0 && x2 == 0 && x3 == 0 && x0 as u32 <= k) by (bit_vector)
        requires
            (x0 as u32) | ((x1 as u32) << 8u32) | ((x2 as u32) << 16u32) | ((x3 as u32) << 24u32)
                <= k,
            k < 256,
    ;
    lemma_read_small(b, off);
}

/// A message record written by the device reads as a message whose bytes
/// are that record again.
pub proof fn lemma_msg_deserialise_serialise(b: Seq<u8>, off: int)
    requires
        canonical_msg(b, off),
    ensures
        msg_readable(b, off),
        msg_bytes(read_msg(b, off)) == b.subrange(off, off + MIDI_MSG_SIZE),
{
    lemma_small_word(b, off, 14);
    lemma_small_word(b, off + 4, 5);
    lemma_small_word(b, off + 8, 2);
    let m = read_msg(b, off);
    let t = b[off] as int;
    let a = b[off + 4] as int;
    let p = b[off + 8] as int;
    assert(msg_type_code(msg_type_of(t)) == t);
    assert(action_code(action_of(a)) == a);
    assert(toggle_pos_code(toggle_pos_of(p)) == p);
    lemma_le_bytes_small(t);
    lemma_le_bytes_small(a);
    lemma_le_bytes_small(p);
    let k = b[off + 16] as int;
    assert(min32(k) == k);
    assert(m.sysex.len() == k);
    assert(m.sysex.take(k) =~= m.sysex);
    let mb = msg_bytes(m);
    let w = b.subrange(off, off + MIDI_MSG_SIZE);
    assert(mb =~= seq![
        t as u8, 0u8, 0u8, 0u8,
        a as u8, 0u8, 0u8, 0u8,
        p as u8, 0u8, 0u8, 0u8,
        b[off + 12], b[off + 13], b[off + 14], b[off + 15], k as u8, 0u8, 0u8, 0u8,
    ] + m.sysex + zeros(32 - k));
    assert forall|x: int| 0 <= x < MIDI_MSG_SIZE implies #[trigger] mb[x] == w[x] by {
        assert(w[x] == b[off + x]);
        if 20 + k <= x {
            assert(b[off + x] == 0);
        }
    }
    assert(mb =~= w);
}

// ── Fixed-size C strings ─────────────────────────────────────────────────────

/// What `String::from_utf8_lossy` makes of bytes that are not valid UTF-8:
/// their text with each invalid sequence replaced by U+FFFD.
pub uninterp spec fn utf8_lossy(bytes: Seq<u8>) -> Seq<char>;

/// The text that `String::from_utf8_lossy` reads from `bytes`.
pub open spec fn lossy_text(bytes: Seq<u8>) -> Seq<char> {
    if valid_utf8(bytes) {
        decode_utf8(bytes)
    } else {
        utf8_lossy(bytes)
    }
}

/// Calls `String::from_utf8_lossy` and takes ownership of the result. Its
/// documentation states that valid UTF-8 comes back as the text it encodes;
/// what invalid input becomes (replacement characters) is only named.
#[verifier::external_body]
fn string_from_utf8_lossy(bytes: &[u8]) -> (s: String)
    ensures
        valid_utf8(bytes@) ==> s@ == decode_utf8(bytes@),
        !valid_utf8(bytes@) ==> s@ == utf8_lossy(bytes@),
{
    String::from_utf8_lossy(bytes).into_owned()
}

/// Index of the first zero byte of `s`, or its length when it has none.
pub open spec fn nul_pos(s: Seq<u8>) -> int
    decreases s.len(),
{
    if s.len() == 0 {
        0
    } else if s[0] == 0 {
        0
    } else {
        1 + nul_pos(s.drop_first())
    }
}

/// The bytes of a C string field before its terminating zero.
pub open spec fn cstr_bytes(s: Seq<u8>) -> Seq<u8> {
    s.take(nul_pos(s))
}

/// An `n`-byte C string field holding `bytes`: at most `n - 1` of them,
/// then zeros up to `n`.
pub open spec fn cstr_field(bytes: Seq<u8>, n: int) -> Seq<u8> {
    let room = if n > 0 { n - 1 } else { 0 };
    let k = if bytes.len() < room { bytes.len() as int } else { room };
    bytes.take(k) + zeros(n - k)
}

/// The name that the device keeps of `name` in an `n`-byte field.
pub open spec fn stored_name(name: Seq<char>, n: int) -> Seq<char> {
    lossy_text(cstr_bytes(cstr_field(encode_utf8(name), n)))
}

/// `name` fits an `n`-byte field: its UTF-8 form is shorter than `n` and has
/// no zero byte.
pub open spec fn name_fits(name: Seq<char>, n: int) -> bool {
    encode_utf8(name).len() < n && !encode_utf8(name).contains(0u8)
}

pub proof fn lemma_nul_pos(s: Seq<u8>, i: int)
    requires
        0 <= i <= s.len(),
        forall|j: int| 0 <= j < i ==> s[j] != 0,
        i == s.len() || s[i] == 0,
    ensures
        nul_pos(s) == i,
    decreases i,
{
    if i > 0 {
        let t = s.drop_first();
        assert forall|j: int| 0 <= j < i - 1 implies t[j] != 0 by {
            assert(t[j] == s[j + 1]);
        }
        if i < s.len() {
            assert(t[i - 1] == s[i]);
        }
        lemma_nul_pos(t, i - 1);
    }
}

/// A name that fits its field reads back unchanged.
pub proof fn lemma_stored_name(name: Seq<char>, n: int)
    requires
        name_fits(name, n),
    ensures
        stored_name(name, n) == name,
{
    let e = encode_utf8(name);
    let f = cstr_field(e, n);
    assert(f =~= e + zeros(n - e.len()));
    assert forall|j: int| 0 <= j < e.len() implies f[j] != 0 by {
        if f[j] == 0 {
            assert(e[j] == 0);
            assert(e.contains(0u8));
        }
    }
    lemma_nul_pos(f, e.len() as int);
    assert(cstr_bytes(f) =~= e);
    encode_utf8_valid_utf8(name);
    encode_utf8_decode_utf8(name);
}

/// The text of a C string field: its bytes before the first zero, decoded
/// as `String::from_utf8_lossy` does.
pub(crate) fn cstr_to_string(buf: &[u8]) -> (s: String)
    ensures
        s@ == lossy_text(cstr_bytes(buf@)),
{
    let n = buf.len();
    let mut end: usize = 0;
    while end < n && buf[end] != 0
        invariant
            n == buf@.len(),
            end <= n,
            forall|j: int| 0 <= j < end ==> buf@[j] != 0,
        decreases n - end,
    {
        end = end + 1;
    }
    proof {
        lemma_nul_pos(buf@, end as int);
    }
    let mut bytes: Vec<u8> = Vec::new();
    let mut i: usize = 0;
    while i < end
        invariant
            n == buf@.len(),
            end <= n,
            i <= end,
            bytes@ == buf@.take(i as int),
        decreases end - i,
    {
        bytes.push(buf[i]);
        i = i + 1;
        assert(bytes@ =~= buf@.take(i as int));
    }
    string_from_utf8_lossy(bytes.as_slice())
}

/// Appends the `n`-byte C string field holding the UTF-8 bytes of `s`.
fn string_to_cstr(s: &str, out: &mut Vec<u8>, n: usize)
    ensures
        final(out)@ == old(out)@ + cstr_field(encode_utf8(s@), n as int),
{
    let bytes = s.as_bytes();
    let room: usize = if n > 0 { n - 1 } else { 0 };
    let len: usize = if bytes.len() < room { bytes.len() } else { room };
    push_prefix_padded(out, bytes, len, n);
    assert(final(out)@ =~= old(out)@ + cstr_field(encode_utf8(s@), n as int));
}

/// Overwrites the start of `buf` with `src`.
fn copy_prefix(buf: &mut [u8], src: &Vec<u8>)
    requires
        src@.len() <= old(buf)@.len(),
    ensures
        final(buf)@ == src@ + old(buf)@.skip(src@.len() as int),
{
    let n = src.len();
    let mut i: usize = 0;
    while i < n
        invariant
            n == src@.len(),
            n <= old(buf)@.len(),
            buf@.len() == old(buf)@.len(),
            i <= n,
            buf@ == src@.take(i as int) + old(buf)@.skip(i as int),
        decreases n - i,
    {
        buf[i] = src[i];
        i = i + 1;
        assert(buf@ =~= src@.take(i as int) + old(buf)@.skip(i as int));
    }
    assert(src@.take(n as int) =~= src@);
}

// ── Message lists ────────────────────────────────────────────────────────────

/// Models of a list of messages.
pub open spec fn msgs_view(v: Seq<MidiMsg>) -> Seq<MidiMsgView> {
    v.map_values(|m: MidiMsg| m@)
}

/// The messages of `ms`, one after the other, 52 bytes each.
pub open spec fn msgs_concat(ms: Seq<MidiMsgView>) -> Seq<u8>
    decreases ms.len(),
{
    if ms.len() == 0 {
        seq![]
    } else {
        msgs_concat(ms.drop_last()) + msg_bytes(ms.last())
    }
}

/// A stored list of messages: the first 32, then zero bytes up to 32 slots.
pub open spec fn msg_list_bytes(ms: Seq<MidiMsgView>) -> Seq<u8> {
    let k = min32(ms.len() as int);
    msgs_concat(ms.take(k)) + zeros(52 * (32 - k))
}

/// What the device keeps of a list of messages: the first 32, each stored.
pub open spec fn stored_msgs(ms: Seq<MidiMsgView>) -> Seq<MidiMsgView> {
    ms.take(min32(ms.len() as int)).map_values(|m: MidiMsgView| stored_msg(m))
}

/// `count` messages can be read at `off`, 52 bytes apart.
pub open spec fn msg_list_readable(b: Seq<u8>, off: int, count: int) -> bool {
    forall|i: int| 0 <= i < count ==> #[trigger] msg_readable(b, off + 52 * i)
}

/// The `count` messages stored at `off`, 52 bytes apart.
pub open spec fn read_msg_list(b: Seq<u8>, off: int, count: int) -> Seq<MidiMsgView> {
    Seq::new(count as nat, |i: int| read_msg(b, off + 52 * i))
}

proof fn lemma_msgs_concat(ms: Seq<MidiMsgView>)
    ensures
        msgs_concat(ms).len() == 52 * ms.len(),
        forall|i: int|
            0 <= i < ms.len() ==> #[trigger] msgs_concat(ms).subrange(52 * i, 52 * i + 52)
                == msg_bytes(ms[i]),
    decreases ms.len(),
{
    if ms.len() > 0 {
        let p = ms.drop_last();
        lemma_msgs_concat(p);
        lemma_msg_bytes_len(ms.last());
        let c = msgs_concat(ms);
        assert forall|i: int| 0 <= i < ms.len() implies #[trigger] c.subrange(52 * i, 52 * i + 52)
            == msg_bytes(ms[i]) by {
            if i < p.len() {
                assert(c.subrange(52 * i, 52 * i + 52) =~= msgs_concat(p).subrange(
                    52 * i,
                    52 * i + 52,
                ));
                assert(p[i] == ms[i]);
            } else {
                assert(c.subrange(52 * i, 52 * i + 52) =~= msg_bytes(ms.last()));
            }
        }
    }
}

/// Every stored list of messages takes 32 slots of 52 bytes.
proof fn lemma_msg_list_bytes_len(ms: Seq<MidiMsgView>)
    ensures
        msg_list_bytes(ms).len() == 1664,
{
    lemma_msgs_concat(ms.take(min32(ms.len() as int)));
}

/// A stored list of messages reads back as the list the device keeps.
pub proof fn lemma_msg_list_round_trip(b: Seq<u8>, off: int, ms: Seq<MidiMsgView>)
    requires
        0 <= off,
        off + 1664 <= b.len(),
        b.subrange(off, off + 1664) == msg_list_bytes(ms),
    ensures
        msg_list_readable(b, off, min32(ms.len() as int)),
        read_msg_list(b, off, min32(ms.len() as int)) == stored_msgs(ms),
{
    let k = min32(ms.len() as int);
    let t = ms.take(k);
    lemma_msgs_concat(t);
    let l = msg_list_bytes(ms);
    let c = msgs_concat(t);
    assert forall|x: int| 0 <= x < 52 * k implies #[trigger] b[off + x] == c[x] by {
        assert(b.subrange(off, off + 1664)[x] == b[off + x]);
        assert(l[x] == c[x]);
    }
    assert forall|i: int| 0 <= i < k implies #[trigger] msg_readable(b, off + 52 * i) && read_msg(
        b,
        off + 52 * i,
    ) == stored_msg(ms[i]) by {
        assert forall|y: int| 0 <= y < 52 implies #[trigger] b.subrange(off + 52 * i, off + 52 * i + 52)[y]
            == c.subrange(52 * i, 52 * i + 52)[y] by {
            assert(b[off + (52 * i + y)] == c[52 * i + y]);
        }
        assert(b.subrange(off + 52 * i, off + 52 * i + 52) =~= c.subrange(52 * i, 52 * i + 52));
        assert(c.subrange(52 * i, 52 * i + 52) == msg_bytes(t[i]));
        lemma_msg_round_trip(b, off + 52 * i, t[i]);
    }
    assert forall|i: int| 0 <= i < k implies #[trigger] read_msg_list(b, off, k)[i]
        == stored_msgs(ms)[i] by {
        assert(msg_readable(b, off + 52 * i));
        assert(t[i] == ms[i]);
    }
    assert(read_msg_list(b, off, k) =~= stored_msgs(ms));
}

fn read_msg_list_at(buf: &[u8], off: usize, count: usize) -> (v: Vec<MidiMsg>)
    requires
        msg_list_readable(buf@, off as int, count as int),
        count <= 32,
    ensures
        msgs_view(v@) == read_msg_list(buf@, off as int, count as int),
{
    let n = buf.len();
    let mut v: Vec<MidiMsg> = Vec::new();
    let mut i: usize = 0;
    while i < count
        invariant
            n == buf@.len(),
            msg_list_readable(buf@, off as int, count as int),
            count <= 32,
            i <= count,
            v@.len() == i,
            forall|j: int| 0 <= j < i ==> #[trigger] v@[j]@ == read_msg(buf@, off + 52 * j),
        decreases count - i,
    {
        assert(msg_readable(buf@, off + 52 * i));
        let m = read_midi_msg_at(buf, off + i * 52);
        v.push(m);
        i = i + 1;
    }
    assert(msgs_view(v@) =~= read_msg_list(buf@, off as int, count as int));
    v
}

/// Appends the 32 message slots for `msgs`.
fn push_msg_list(out: &mut Vec<u8>, msgs: &Vec<MidiMsg>)
    ensures
        final(out)@ == old(out)@ + msg_list_bytes(msgs_view(msgs@)),
{
    let ghost ms = msgs_view(msgs@);
    let n = msgs.len();
    let k: usize = if n < 32 { n } else { 32 };
    let ghost head = out@;
    let mut i: usize = 0;
    while i < 32
        invariant
            ms == msgs_view(msgs@),
            k == min32(ms.len() as int),
            i <= 32,
            out@ == head + (if i <= k {
                msgs_concat(ms.take(i as int))
            } else {
                msgs_concat(ms.take(k as int)) + zeros(52 * (i - k))
            }),
        decreases 32 - i,
    {
        if i < k {
            push_midi_msg(out, &msgs[i]);
            assert(ms.take(i + 1).drop_last() =~= ms.take(i as int));
        } else {
            let mut j: usize = 0;
            while j < 52
                invariant
                    j <= 52,
                    i >= k,
                    out@ == head + msgs_concat(ms.take(k as int)) + zeros(52 * (i - k) + j),
                decreases 52 - j,
            {
                out.push(0);
                j = j + 1;
                assert(zeros(52 * (i - k) + j) =~= zeros(52 * (i - k) + j - 1).push(0u8));
            }
        }
        i = i + 1;
    }
    assert(final(out)@ =~= old(out)@ + msg_list_bytes(ms));
}

// ── Presets ──────────────────────────────────────────────────────────────────

#[derive(Debug, Clone)]
pub struct Preset {
    pub name: String,
    pub color_pos1: [u8; 3],
    pub color_pos2: [u8; 3],
    pub toggle_group: u8,
    pub toggle_reset_group: u8,
    pub msgs: Vec<MidiMsg>,
}

/// Mathematical model of a [`Preset`].
pub struct PresetView {
    pub name: Seq<char>,
    pub color_pos1: Seq<u8>,
    pub color_pos2: Seq<u8>,
    pub toggle_group: u8,
    pub toggle_reset_group: u8,
    pub msgs: Seq<MidiMsgView>,
}

impl View for Preset {
    type V = PresetView;

    open spec fn view(&self) -> PresetView {
        PresetView {
            name: self.name@,
            color_pos1: self.color_pos1@,
            color_pos2: self.color_pos2@,
            toggle_group: self.toggle_group,
            toggle_reset_group: self.toggle_reset_group,
            msgs: msgs_view(self.msgs@),
        }
    }
}

/// Both colours of a preset model have three components, as those of a
/// [`Preset`] always do.
pub open spec fn preset_wf(p: PresetView) -> bool {
    p.color_pos1.len() == 3 && p.color_pos2.len() == 3
}

/// The empty, black preset.
pub open spec fn default_preset() -> PresetView {
    PresetView {
        name: seq![],
        color_pos1: seq![0u8, 0u8, 0u8],
        color_pos2: seq![0u8, 0u8, 0u8],
        toggle_group: 0,
        toggle_reset_group: 0,
        msgs: seq![],
    }
}

impl Default for Preset {
    fn default() -> (r: Self)
        ensures
            r@ == default_preset(),
    {
        let r = Self {
            name: String::new(),
            color_pos1: [0, 0, 0],
            color_pos2: [0, 0, 0],
            toggle_group: 0,
            toggle_reset_group: 0,
            msgs: Vec::new(),
        };
        assert(r.color_pos1@ =~= seq![0u8, 0u8, 0u8]);
        assert(msgs_view(r.msgs@) =~= seq![]);
        r
    }
}

/// The 1692 bytes of `preset_t`: a 17-byte name, both colours, the toggle
/// groups, the message count (at most 32), two padding bytes and 32 message
/// slots.
pub open spec fn preset_bytes(p: PresetView) -> Seq<u8> {
    cstr_field(encode_utf8(p.name), 17) + p.color_pos1 + p.color_pos2 + seq![
        p.toggle_group,
        p.toggle_reset_group,
        min32(p.msgs.len() as int) as u8,
        0u8,
        0u8,
    ] + msg_list_bytes(p.msgs)
}

/// What the device keeps of `p`: its name as it fits 17 bytes and at most
/// 32 stored messages.
pub open spec fn stored_preset(p: PresetView) -> PresetView {
    PresetView { name: stored_name(p.name, 17), msgs: stored_msgs(p.msgs), ..p }
}

/// A preset can be read at `off` in `b` without running past its end.
pub open spec fn preset_readable(b: Seq<u8>, off: int) -> bool {
    &&& 0 <= off
    &&& off + 26 <= b.len()
    &&& msg_list_readable(b, off + 28, min32(b[off + 25] as int))
}

/// The preset stored at `off` in `b`.
pub open spec fn read_preset(b: Seq<u8>, off: int) -> PresetView {
    PresetView {
        name: lossy_text(cstr_bytes(b.subrange(off, off + 17))),
        color_pos1: b.subrange(off + 17, off + 20),
        color_pos2: b.subrange(off + 20, off + 23),
        toggle_group: b[off + 23],
        toggle_reset_group: b[off + 24],
        msgs: read_msg_list(b, off + 28, min32(b[off + 25] as int)),
    }
}

fn read_preset_at(buf: &[u8], off: usize) -> (p: Preset)
    requires
        preset_readable(buf@, off as int),
    ensures
        p@ == read_preset(buf@, off as int),
{
    let name = cstr_to_string(&buf[off..off + 17]);
    let color_pos1 = [buf[off + 17], buf[off + 18], buf[off + 19]];
    let color_pos2 = [buf[off + 20], buf[off + 21], buf[off + 22]];
    let toggle_group = buf[off + 23];
    let toggle_reset_group = buf[off + 24];
    let num_msgs = buf[off + 25] as usize;
    let k: usize = if num_msgs < 32 { num_msgs } else { 32 };
    let msgs = if k == 0 {
        let v: Vec<MidiMsg> = Vec::new();
        assert(msgs_view(v@) =~= read_msg_list(buf@, off + 28, 0));
        v
    } else {
        assert(msg_readable(buf@, off + 28 + 52 * 0));
        read_msg_list_at(buf, off + 28, k)
    };
    let p = Preset { name, color_pos1, color_pos2, toggle_group, toggle_reset_group, msgs };
    assert(p.color_pos1@ =~= buf@.subrange(off + 17, off + 20));
    assert(p.color_pos2@ =~= buf@.subrange(off + 20, off + 23));
    p
}

/// Read the `preset_t` at the start of `buf`.
pub fn deserialise_preset(buf: &[u8]) -> (p: Preset)
    requires
        preset_readable(buf@, 0),
    ensures
        p@ == read_preset(buf@, 0),
{
    read_preset_at(buf, 0)
}

/// Appends the 1692 bytes of `preset`.
fn push_preset(out: &mut Vec<u8>, preset: &Preset)
    ensures
        final(out)@ == old(out)@ + preset_bytes(preset@),
{
    let ghost start = out@;
    string_to_cstr(preset.name.as_str(), out, 17);
    out.push(preset.color_pos1[0]);
    out.push(preset.color_pos1[1]);
    out.push(preset.color_pos1[2]);
    out.push(preset.color_pos2[0]);
    out.push(preset.color_pos2[1]);
    out.push(preset.color_pos2[2]);
    out.push(preset.toggle_group);
    out.push(preset.toggle_reset_group);
    let n = preset.msgs.len();
    let k: usize = if n < 32 { n } else { 32 };
    out.push(k as u8);
    out.push(0);
    out.push(0);
    push_msg_list(out, &preset.msgs);
    assert(preset.color_pos1@ =~= seq![
        preset.color_pos1[0],
        preset.color_pos1[1],
        preset.color_pos1[2],
    ]);
    assert(preset.color_pos2@ =~= seq![
        preset.color_pos2[0],
        preset.color_pos2[1],
        preset.color_pos2[2],
    ]);
    assert(final(out)@ =~= old(out)@ + preset_bytes(preset@));
}

/// Every well-formed preset takes 1692 bytes.
pub proof fn lemma_preset_bytes_len(p: PresetView)
    requires
        preset_wf(p),
    ensures
        preset_bytes(p).len() == PRESET_SIZE,
{
    lemma_msg_list_bytes_len(p.msgs);
}

/// Write the `preset_t` for `preset` over the first 1692 bytes of `buf`.
pub fn serialise_preset(preset: &Preset, buf: &mut [u8])
    requires
        old(buf)@.len() >= PRESET_SIZE,
    ensures
        final(buf)@ == preset_bytes(preset@) + old(buf)@.skip(PRESET_SIZE as int),
{
    let mut tmp: Vec<u8> = Vec::new();
    push_preset(&mut tmp, preset);
    proof {
        lemma_preset_bytes_len(preset@);
    }
    copy_prefix(buf, &tmp);
}

/// Wherever the bytes of a preset stand in a buffer, they read back as the
/// preset the device keeps.
pub proof fn lemma_preset_round_trip(b: Seq<u8>, off: int, p: PresetView)
    requires
        preset_wf(p),
        0 <= off,
        off + PRESET_SIZE <= b.len(),
        b.subrange(off, off + PRESET_SIZE) == preset_bytes(p),
    ensures
        preset_readable(b, off),
        read_preset(b, off) == stored_preset(p),
{
    let pb = preset_bytes(p);
    lemma_preset_bytes_len(p);
    lemma_msg_list_bytes_len(p.msgs);
    let k = min32(p.msgs.len() as int);
    assert forall|x: int| 0 <= x < PRESET_SIZE implies #[trigger] b[off + x] == pb[x] by {
        assert(b.subrange(off, off + PRESET_SIZE)[x] == b[off + x]);
    }
    let f = cstr_field(encode_utf8(p.name), 17);
    assert(b.subrange(off, off + 17) =~= f) by {
        assert forall|x: int| 0 <= x < 17 implies #[trigger] b.subrange(off, off + 17)[x] == f[x] by {
            assert(b[off + x] == pb[x]);
        }
    }
    assert(b.subrange(off + 17, off + 20) =~= p.color_pos1) by {
        assert forall|x: int| 0 <= x < 3 implies #[trigger] b.subrange(off + 17, off + 20)[x]
            == p.color_pos1[x] by {
            assert(b[off + (17 + x)] == pb[17 + x]);
        }
    }
    assert(b.subrange(off + 20, off + 23) =~= p.color_pos2) by {
        assert forall|x: int| 0 <= x < 3 implies #[trigger] b.subrange(off + 20, off + 23)[x]
            == p.color_pos2[x] by {
            assert(b[off + (20 + x)] == pb[20 + x]);
        }
    }
    assert(b[off + 23] == pb[23]);
    assert(b[off + 24] == pb[24]);
    assert(b[off + 25] == pb[25]);
    assert(pb[25] == k as u8);
    let l = msg_list_bytes(p.msgs);
    assert(b.subrange(off + 28, off + 28 + 1664) =~= l) by {
        assert forall|x: int| 0 <= x < 1664 implies #[trigger] b.subrange(off + 28, off + 28 + 1664)[x]
            == l[x] by {
            assert(b[off + (28 + x)] == pb[28 + x]);
        }
    }
    lemma_msg_list_round_trip(b, off + 28, p.msgs);
}

/// `ms` fits the device: at most 32 messages of at most 32 SysEx bytes.
pub open spec fn msgs_fit(ms: Seq<MidiMsgView>) -> bool {
    ms.len() <= 32 && forall|i: int| 0 <= i < ms.len() ==> (#[trigger] ms[i]).sysex.len() <= 32
}

/// `p` fits the device: its name fits 17 bytes and its messages fit.
pub open spec fn preset_fits(p: PresetView) -> bool {
    name_fits(p.name, 17) && msgs_fit(p.msgs)
}

/// A list of messages that fits is kept unchanged.
pub proof fn lemma_stored_msgs_fit(ms: Seq<MidiMsgView>)
    requires
        msgs_fit(ms),
    ensures
        stored_msgs(ms) == ms,
{
    assert forall|i: int| 0 <= i < ms.len() implies #[trigger] stored_msgs(ms)[i] == ms[i] by {
        let m = ms[i];
        assert(m.sysex.take(m.sysex.len() as int) =~= m.sysex);
    }
    assert(stored_msgs(ms) =~= ms);
}

/// A preset that fits is kept unchanged.
pub proof fn lemma_stored_preset_fits(p: PresetView)
    requires
        preset_fits(p),
    ensures
        stored_preset(p) == p,
{
    lemma_stored_name(p.name, 17);
    lemma_stored_msgs_fit(p.msgs);
}

/// A preset serialised on its own deserialises to what the device keeps of
/// it; when it fits, to the preset itself.
pub proof fn lemma_preset_serialise_deserialise(p: PresetView, rest: Seq<u8>)
    requires
        preset_wf(p),
    ensures
        preset_readable(preset_bytes(p) + rest, 0),
        read_preset(preset_bytes(p) + rest, 0) == stored_preset(p),
        preset_fits(p) ==> read_preset(preset_bytes(p) + rest, 0) == p,
{
    let b = preset_bytes(p) + rest;
    lemma_preset_bytes_len(p);
    assert(b.subrange(0, PRESET_SIZE as int) =~= preset_bytes(p));
    lemma_preset_round_trip(b, 0, p);
    if preset_fits(p) {
        lemma_stored_preset_fits(p);
    }
}

// ── Preset lists ─────────────────────────────────────────────────────────────

/// The presets of `ps`, one after the other, 1692 bytes each.
pub open spec fn presets_concat(ps: Seq<PresetView>) -> Seq<u8>
    decreases ps.len(),
{
    if ps.len() == 0 {
        seq![]
    } else {
        presets_concat(ps.drop_last()) + preset_bytes(ps.last())
    }
}

/// Every preset model of `ps` is well formed.
pub open spec fn all_presets_wf(ps: Seq<PresetView>) -> bool {
    forall|i: int| 0 <= i < ps.len() ==> preset_wf(#[trigger] ps[i])
}

proof fn lemma_presets_concat(ps: Seq<PresetView>)
    requires
        all_presets_wf(ps),
    ensures
        presets_concat(ps).len() == PRESET_SIZE * ps.len(),
        forall|i: int|
            0 <= i < ps.len() ==> #[trigger] presets_concat(ps).subrange(
                PRESET_SIZE * i,
                PRESET_SIZE * i + PRESET_SIZE,
            ) == preset_bytes(ps[i]),
    decreases ps.len(),
{
    if ps.len() > 0 {
        let p = ps.drop_last();
        assert(all_presets_wf(p)) by {
            assert forall|i: int| 0 <= i < p.len() implies preset_wf(#[trigger] p[i]) by {
                assert(p[i] == ps[i]);
            }
        }
        lemma_presets_concat(p);
        assert(preset_wf(ps[ps.len() - 1]));
        lemma_preset_bytes_len(ps.last());
        let c = presets_concat(ps);
        assert forall|i: int| 0 <= i < ps.len() implies #[trigger] c.subrange(
            PRESET_SIZE * i,
            PRESET_SIZE * i + PRESET_SIZE,
        ) == preset_bytes(ps[i]) by {
            if i < p.len() {
                assert(c.subrange(PRESET_SIZE * i, PRESET_SIZE * i + PRESET_SIZE)
                    =~= presets_concat(p).subrange(PRESET_SIZE * i, PRESET_SIZE * i + PRESET_SIZE));
                assert(p[i] == ps[i]);
            } else {
                assert(c.subrange(PRESET_SIZE * i, PRESET_SIZE * i + PRESET_SIZE) =~= preset_bytes(
                    ps.last(),
                ));
            }
        }
    }
}

/// Models of a list of presets.
pub open spec fn presets_view(v: Seq<Preset>) -> Seq<PresetView> {
    v.map_values(|p: Preset| p@)
}

/// Appends the bytes of each preset of `ps` in order.
fn push_preset_array(out: &mut Vec<u8>, ps: &[Preset])
    ensures
        final(out)@ == old(out)@ + presets_concat(presets_view(ps@)),
{
    let ghost head = out@;
    let ghost v = presets_view(ps@);
    let n = ps.len();
    let mut i: usize = 0;
    while i < n
        invariant
            n == ps@.len(),
            v == presets_view(ps@),
            i <= n,
            out@ == head + presets_concat(v.take(i as int)),
        decreases n - i,
    {
        push_preset(out, &ps[i]);
        assert(v.take(i + 1).drop_last() =~= v.take(i as int));
        i = i + 1;
    }
    assert(v.take(n as int) =~= v);
}

// ── Banks ────────────────────────────────────────────────────────────────────

#[derive(Debug, Clone)]
pub struct Bank {
    pub name: String,
    /// [page][switch] — 4 pages, 4 switches each
    pub presets: [[Preset; 4]; 4],
    pub expr_presets: [Preset; 2],
    pub enter_msgs: Vec<MidiMsg>,
    pub exit_msgs: Vec<MidiMsg>,
}

/// Mathematical model of a [`Bank`].
pub struct BankView {
    pub name: Seq<char>,
    pub presets: Seq<Seq<PresetView>>,
    pub expr_presets: Seq<PresetView>,
    pub enter_msgs: Seq<MidiMsgView>,
    pub exit_msgs: Seq<MidiMsgView>,
}

impl View for Bank {
    type V = BankView;

    open spec fn view(&self) -> BankView {
        BankView {
            name: self.name@,
            presets: self.presets@.map_values(|row: [Preset; 4]| presets_view(row@)),
            expr_presets: presets_view(self.expr_presets@),
            enter_msgs: msgs_view(self.enter_msgs@),
            exit_msgs: msgs_view(self.exit_msgs@),
        }
    }
}

/// The 16 switch presets of a bank, page by page.
pub open spec fn grid_presets(g: Seq<Seq<PresetView>>) -> Seq<PresetView> {
    Seq::new(16, |i: int| g[i / 4][i % 4])
}

/// The 18 presets of a bank in storage order: 16 switch presets, then the
/// two expression presets.
pub open spec fn bank_presets(b: BankView) -> Seq<PresetView> {
    grid_presets(b.presets) + b.expr_presets
}

/// A bank model has the shape of a [`Bank`]: 4 pages of 4 presets, 2
/// expression presets, every preset well formed.
pub open spec fn bank_wf(b: BankView) -> bool {
    &&& b.presets.len() == 4
    &&& forall|p: int| 0 <= p < 4 ==> (#[trigger] b.presets[p]).len() == 4
    &&& b.expr_presets.len() == 2
    &&& all_presets_wf(bank_presets(b))
}

/// The 33812 bytes of `bank_t`: a 17-byte name, 3 padding bytes, 18 presets,
/// then the enter and exit message lists, each after a count byte and 3
/// padding bytes.
pub open spec fn bank_bytes(b: BankView) -> Seq<u8> {
    cstr_field(encode_utf8(b.name), 17) + zeros(3) + presets_concat(bank_presets(b)) + seq![
        min32(b.enter_msgs.len() as int) as u8,
        0u8,
        0u8,
        0u8,
    ] + msg_list_bytes(b.enter_msgs) + seq![min32(b.exit_msgs.len() as int) as u8, 0u8, 0u8, 0u8]
        + msg_list_bytes(b.exit_msgs)
}

/// What the device keeps of `b`: every name as it fits, every list of
/// messages cut to 32, every SysEx string to 32 bytes.
pub open spec fn stored_bank(b: BankView) -> BankView {
    BankView {
        name: stored_name(b.name, 17),
        presets: b.presets.map_values(
            |row: Seq<PresetView>| row.map_values(|p: PresetView| stored_preset(p)),
        ),
        expr_presets: b.expr_presets.map_values(|p: PresetView| stored_preset(p)),
        enter_msgs: stored_msgs(b.enter_msgs),
        exit_msgs: stored_msgs(b.exit_msgs),
    }
}

/// Offset of preset `i` (in storage order) inside a bank.
pub open spec fn bank_preset_off(i: int) -> int {
    20 + PRESET_SIZE * i
}

/// A bank can be read from `b` without running past its end.
pub open spec fn bank_readable(b: Seq<u8>) -> bool {
    &&& b.len() > 32144
    &&& forall|i: int| 0 <= i < 18 ==> #[trigger] preset_readable(b, bank_preset_off(i))
    &&& msg_list_readable(b, 30480, min32(b[30476] as int))
    &&& msg_list_readable(b, 32148, min32(b[32144] as int))
}

/// The bank stored at the start of `b`.
pub open spec fn read_bank(b: Seq<u8>) -> BankView {
    BankView {
        name: lossy_text(cstr_bytes(b.subrange(0, 17))),
        presets: Seq::new(
            4,
            |p: int| Seq::new(4, |s: int| read_preset(b, bank_preset_off(4 * p + s))),
        ),
        expr_presets: Seq::new(2, |i: int| read_preset(b, bank_preset_off(16 + i))),
        enter_msgs: read_msg_list(b, 30480, min32(b[30476] as int)),
        exit_msgs: read_msg_list(b, 32148, min32(b[32144] as int)),
    }
}

/// The default bank: no name, 18 default presets, no messages.
pub open spec fn default_bank() -> BankView {
    BankView {
        name: seq![],
        presets: Seq::new(4, |p: int| Seq::new(4, |s: int| default_preset())),
        expr_presets: Seq::new(2, |i: int| default_preset()),
        enter_msgs: seq![],
        exit_msgs: seq![],
    }
}

impl Default for Bank {
    fn default() -> (r: Self)
        ensures
            r@ == default_bank(),
    {
        let r = Bank {
            name: String::new(),
            presets: [
                [Preset::default(), Preset::default(), Preset::default(), Preset::default()],
                [Preset::default(), Preset::default(), Preset::default(), Preset::default()],
                [Preset::default(), Preset::default(), Preset::default(), Preset::default()],
                [Preset::default(), Preset::default(), Preset::default(), Preset::default()],
            ],
            expr_presets: [Preset::default(), Preset::default()],
            enter_msgs: Vec::new(),
            exit_msgs: Vec::new(),
        };
        assert(r@.presets =~= default_bank().presets) by {
            assert forall|p: int| 0 <= p < 4 implies #[trigger] r@.presets[p]
                =~= default_bank().presets[p] by {}
        }
        assert(r@.expr_presets =~= default_bank().expr_presets);
        assert(r@.enter_msgs =~= seq![]);
        assert(r@.exit_msgs =~= seq![]);
        r
    }
}

/// A window of a window of `b` is a window of `b`.
proof fn lemma_subrange_in(b: Seq<u8>, o1: int, n1: int, c: Seq<u8>, o2: int, n2: int)
    requires
        0 <= o1,
        o1 + n1 <= b.len(),
        b.subrange(o1, o1 + n1) == c,
        0 <= o2,
        0 <= n2,
        o2 + n2 <= n1,
    ensures
        b.subrange(o1 + o2, o1 + o2 + n2) == c.subrange(o2, o2 + n2),
{
    assert forall|x: int| 0 <= x < n2 implies #[trigger] b.subrange(o1 + o2, o1 + o2 + n2)[x]
        == c.subrange(o2, o2 + n2)[x] by {
        assert(b.subrange(o1, o1 + n1)[o2 + x] == b[o1 + (o2 + x)]);
    }
    assert(b.subrange(o1 + o2, o1 + o2 + n2) =~= c.subrange(o2, o2 + n2));
}

proof fn lemma_presets_concat_append(a: Seq<PresetView>, c: Seq<PresetView>)
    ensures
        presets_concat(a + c) == presets_concat(a) + presets_concat(c),
    decreases c.len(),
{
    if c.len() == 0 {
        assert(a + c =~= a);
        assert(presets_concat(a) + presets_concat(c) =~= presets_concat(a));
    } else {
        lemma_presets_concat_append(a, c.drop_last());
        assert((a + c).drop_last() =~= a + c.drop_last());
        assert(presets_concat(a + c) =~= presets_concat(a) + presets_concat(c));
    }
}

fn read_preset_row(buf: &[u8], page: usize) -> (row: [Preset; 4])
    requires
        bank_readable(buf@),
        page < 4,
    ensures
        presets_view(row@) == Seq::new(
            4,
            |s: int| read_preset(buf@, bank_preset_off(4 * page + s)),
        ),
{
    let base = 20 + page * 4 * PRESET_SIZE;
    assert(preset_readable(buf@, bank_preset_off(4 * page + 0)));
    assert(preset_readable(buf@, bank_preset_off(4 * page + 1)));
    assert(preset_readable(buf@, bank_preset_off(4 * page + 2)));
    assert(preset_readable(buf@, bank_preset_off(4 * page + 3)));
    let p0 = read_preset_at(buf, base);
    let p1 = read_preset_at(buf, base + PRESET_SIZE);
    let p2 = read_preset_at(buf, base + 2 * PRESET_SIZE);
    let p3 = read_preset_at(buf, base + 3 * PRESET_SIZE);
    let row = [p0, p1, p2, p3];
    assert(presets_view(row@) =~= Seq::new(
        4,
        |s: int| read_preset(buf@, bank_preset_off(4 * page + s)),
    ));
    row
}

/// Read the `bank_t` at the start of `buf`.
pub fn deserialise_bank(buf: &[u8]) -> (bank: Bank)
    requires
        bank_readable(buf@),
    ensures
        bank@ == read_bank(buf@),
        forall|i: int|
            0 <= i < 2 ==> #[trigger] bank@.expr_presets[i] == read_preset(
                buf@,
                20 + 1692 * (16 + i),
            ),
        forall|p: int, sw: int|
            0 <= p < 4 && 0 <= sw < 4 ==> #[trigger] bank@.presets[p][sw] == read_preset(
                buf@,
                20 + 1692 * (4 * p + sw),
            ),
{
    proof {
        lemma_read_bank_layout(buf@);
    }
    let name = cstr_to_string(&buf[0..17]);
    let r0 = read_preset_row(buf, 0);
    let r1 = read_preset_row(buf, 1);
    let r2 = read_preset_row(buf, 2);
    let r3 = read_preset_row(buf, 3);
    assert(preset_readable(buf@, bank_preset_off(16)));
    assert(preset_readable(buf@, bank_preset_off(17)));
    let e0 = read_preset_at(buf, 20 + 16 * PRESET_SIZE);
    let e1 = read_preset_at(buf, 20 + 17 * PRESET_SIZE);
    let num_enter = buf[30476] as usize;
    let ke: usize = if num_enter < 32 { num_enter } else { 32 };
    let enter_msgs = read_msg_list_at(buf, 30480, ke);
    let num_exit = buf[32144] as usize;
    let kx: usize = if num_exit < 32 { num_exit } else { 32 };
    let exit_msgs = read_msg_list_at(buf, 32148, kx);
    let bank = Bank {
        name,
        presets: [r0, r1, r2, r3],
        expr_presets: [e0, e1],
        enter_msgs,
        exit_msgs,
    };
    assert(bank@.presets =~= read_bank(buf@).presets);
    assert(bank@.expr_presets =~= read_bank(buf@).expr_presets);
    bank
}

/// Appends the 18 presets of `bank` in storage order.
fn push_bank_presets(out: &mut Vec<u8>, bank: &Bank)
    ensures
        final(out)@ == old(out)@ + presets_concat(bank_presets(bank@)),
{
    let ghost head = out@;
    let ghost grid = grid_presets(bank@.presets);
    let mut page: usize = 0;
    while page < 4
        invariant
            page <= 4,
            grid == grid_presets(bank@.presets),
            out@ == head + presets_concat(grid.take(4 * page)),
        decreases 4 - page,
    {
        push_preset_array(out, bank.presets[page].as_slice());
        proof {
            let row = presets_view(bank.presets[page as int]@);
            assert(grid.take(4 * page + 4) =~= grid.take(4 * page) + row);
            lemma_presets_concat_append(grid.take(4 * page), row);
        }
        page = page + 1;
    }
    assert(grid.take(16) =~= grid);
    push_preset_array(out, bank.expr_presets.as_slice());
    proof {
        lemma_presets_concat_append(grid, bank@.expr_presets);
    }
}

/// Appends a count byte (the list length, at most 32), three padding bytes
/// and the 32 message slots of `msgs`.
fn push_counted_msg_list(out: &mut Vec<u8>, msgs: &Vec<MidiMsg>)
    ensures
        final(out)@ == old(out)@ + seq![min32(msgs@.len() as int) as u8, 0u8, 0u8, 0u8]
            + msg_list_bytes(msgs_view(msgs@)),
{
    let n = msgs.len();
    let k: usize = if n < 32 { n } else { 32 };
    out.push(k as u8);
    out.push(0);
    out.push(0);
    out.push(0);
    push_msg_list(out, msgs);
    assert(final(out)@ =~= old(out)@ + seq![min32(msgs@.len() as int) as u8, 0u8, 0u8, 0u8]
        + msg_list_bytes(msgs_view(msgs@)));
}

/// Serialise `bank` to its 33812-byte `bank_t`.
pub fn serialise_bank(bank: &Bank) -> (out: Vec<u8>)
    ensures
        out@ == bank_bytes(bank@),
        out@.len() == BANK_SIZE,
        forall|i: int|
            0 <= i < 2 ==> #[trigger] out@.subrange(20 + 1692 * (16 + i), 20 + 1692 * (17 + i))
                == preset_bytes(bank@.expr_presets[i]),
        forall|p: int, sw: int|
            0 <= p < 4 && 0 <= sw < 4 ==> #[trigger] out@.subrange(
                20 + 1692 * (4 * p + sw),
                20 + 1692 * (4 * p + sw) + 1692,
            ) == preset_bytes(bank@.presets[p][sw]),
{
    proof {
        lemma_bank_view_wf(bank);
        lemma_bank_bytes_len(bank@);
        lemma_bank_layout(bank@);
    }
    let mut buf: Vec<u8> = Vec::new();
    string_to_cstr(bank.name.as_str(), &mut buf, 17);
    buf.push(0);
    buf.push(0);
    buf.push(0);
    let ghost a = buf@;
    push_bank_presets(&mut buf, bank);
    let ghost c = buf@;
    push_counted_msg_list(&mut buf, &bank.enter_msgs);
    let ghost d = buf@;
    push_counted_msg_list(&mut buf, &bank.exit_msgs);
    assert(a =~= cstr_field(encode_utf8(bank@.name), 17) + zeros(3));
    assert(buf@ =~= bank_bytes(bank@));
    buf
}

/// The model of every [`Bank`] is well formed.
pub proof fn lemma_bank_view_wf(bank: &Bank)
    ensures
        bank_wf(bank@),
{
    let b = bank@;
    assert forall|p: int| 0 <= p < 4 implies (#[trigger] b.presets[p]).len() == 4 by {}
    assert forall|i: int| 0 <= i < 18 implies preset_wf(#[trigger] bank_presets(b)[i]) by {
        if i < 16 {
            assert(bank_presets(b)[i] == b.presets[i / 4][i % 4]);
        } else {
            assert(bank_presets(b)[i] == b.expr_presets[i - 16]);
        }
    }
}

/// Every well-formed bank takes 33812 bytes.
pub proof fn lemma_bank_bytes_len(b: BankView)
    requires
        bank_wf(b),
    ensures
        bank_bytes(b).len() == BANK_SIZE,
{
    lemma_presets_concat(bank_presets(b));
    lemma_msg_list_bytes_len(b.enter_msgs);
    lemma_msg_list_bytes_len(b.exit_msgs);
}

/// A bank serialised and deserialised again is the bank the device keeps.
pub proof fn lemma_bank_round_trip(b: BankView, rest: Seq<u8>)
    requires
        bank_wf(b),
    ensures
        bank_readable(bank_bytes(b) + rest),
        read_bank(bank_bytes(b) + rest) == stored_bank(b),
{
    let ps = bank_presets(b);
    lemma_presets_concat(ps);
    lemma_bank_bytes_len(b);
    lemma_msg_list_bytes_len(b.enter_msgs);
    lemma_msg_list_bytes_len(b.exit_msgs);
    let bb = bank_bytes(b) + rest;
    let a = cstr_field(encode_utf8(b.name), 17);
    let c = presets_concat(ps);
    let e = msg_list_bytes(b.enter_msgs);
    let g = msg_list_bytes(b.exit_msgs);
    let ke = min32(b.enter_msgs.len() as int);
    let kx = min32(b.exit_msgs.len() as int);
    assert(bb.subrange(0, 17) =~= a);
    assert(bb.subrange(20, 30476) =~= c);
    assert(bb[30476] == ke as u8);
    assert(bb.subrange(30480, 32144) =~= e);
    assert(bb[32144] == kx as u8);
    assert(bb.subrange(32148, 33812) =~= g);
    assert forall|i: int| 0 <= i < 18 implies #[trigger] preset_readable(bb, bank_preset_off(i))
        && read_preset(bb, bank_preset_off(i)) == stored_preset(ps[i]) by {
        lemma_subrange_in(bb, 20, 30456, c, PRESET_SIZE * i, PRESET_SIZE as int);
        assert(preset_wf(ps[i]));
        lemma_preset_round_trip(bb, bank_preset_off(i), ps[i]);
    }
    lemma_msg_list_round_trip(bb, 30480, b.enter_msgs);
    lemma_msg_list_round_trip(bb, 32148, b.exit_msgs);
    let r = read_bank(bb);
    let sb = stored_bank(b);
    assert forall|p: int| 0 <= p < 4 implies #[trigger] r.presets[p] =~= sb.presets[p] by {
        assert forall|s: int| 0 <= s < 4 implies #[trigger] r.presets[p][s] == sb.presets[p][s] by {
            let i = 4 * p + s;
            assert(i / 4 == p && i % 4 == s);
            assert(preset_readable(bb, bank_preset_off(i)));
            assert(ps[i] == b.presets[p][s]);
        }
    }
    assert(r.presets =~= sb.presets);
    assert forall|i: int| 0 <= i < 2 implies #[trigger] r.expr_presets[i] == sb.expr_presets[i] by {
        assert(preset_readable(bb, bank_preset_off(16 + i)));
        assert(ps[16 + i] == b.expr_presets[i]);
    }
    assert(r.expr_presets =~= sb.expr_presets);
}

/// `b` fits the device: its name, every preset and both message lists fit.
pub open spec fn bank_fits(b: BankView) -> bool {
    &&& name_fits(b.name, 17)
    &&& forall|i: int| 0 <= i < 18 ==> preset_fits(#[trigger] bank_presets(b)[i])
    &&& msgs_fit(b.enter_msgs)
    &&& msgs_fit(b.exit_msgs)
}

/// A bank that fits is kept unchanged.
pub proof fn lemma_stored_bank_fits(b: BankView)
    requires
        bank_wf(b),
        bank_fits(b),
    ensures
        stored_bank(b) == b,
{
    let sb = stored_bank(b);
    let ps = bank_presets(b);
    lemma_stored_name(b.name, 17);
    lemma_stored_msgs_fit(b.enter_msgs);
    lemma_stored_msgs_fit(b.exit_msgs);
    assert forall|p: int| 0 <= p < 4 implies #[trigger] sb.presets[p] =~= b.presets[p] by {
        assert forall|s: int| 0 <= s < 4 implies #[trigger] sb.presets[p][s] == b.presets[p][s] by {
            let i = 4 * p + s;
            assert(i / 4 == p && i % 4 == s);
            assert(preset_fits(ps[i]));
            lemma_stored_preset_fits(b.presets[p][s]);
        }
    }
    assert forall|i: int| 0 <= i < 2 implies #[trigger] sb.expr_presets[i] == b.expr_presets[i] by {
        assert(preset_fits(ps[16 + i]));
        lemma_stored_preset_fits(b.expr_presets[i]);
    }
    assert(sb.presets =~= b.presets);
    assert(sb.expr_presets =~= b.expr_presets);
}

/// Where each part of a bank stands in its 33812 bytes: the name in bytes
/// 0..17, switch preset `[page][sw]` at 20 + 1692 (4 page + sw), expression
/// preset `i` at 20 + 1692 (16 + i), the enter-message count at 30476 with
/// its list from 30480, the exit-message count at 32144 with its list from
/// 32148.
pub proof fn lemma_bank_layout(b: BankView)
    requires
        bank_wf(b),
    ensures
        bank_bytes(b).len() == 33812,
        bank_bytes(b).subrange(0, 17) == cstr_field(encode_utf8(b.name), 17),
        forall|p: int, sw: int|
            0 <= p < 4 && 0 <= sw < 4 ==> #[trigger] bank_bytes(b).subrange(
                20 + 1692 * (4 * p + sw),
                20 + 1692 * (4 * p + sw) + 1692,
            ) == preset_bytes(b.presets[p][sw]),
        forall|i: int|
            0 <= i < 2 ==> #[trigger] bank_bytes(b).subrange(
                20 + 1692 * (16 + i),
                20 + 1692 * (17 + i),
            ) == preset_bytes(b.expr_presets[i]),
        bank_bytes(b)[30476] == min32(b.enter_msgs.len() as int) as u8,
        bank_bytes(b).subrange(30480, 32144) == msg_list_bytes(b.enter_msgs),
        bank_bytes(b)[32144] == min32(b.exit_msgs.len() as int) as u8,
        bank_bytes(b).subrange(32148, 33812) == msg_list_bytes(b.exit_msgs),
{
    let ps = bank_presets(b);
    lemma_presets_concat(ps);
    lemma_bank_bytes_len(b);
    lemma_msg_list_bytes_len(b.enter_msgs);
    lemma_msg_list_bytes_len(b.exit_msgs);
    let bb = bank_bytes(b);
    let c = presets_concat(ps);
    assert(bb.subrange(0, 17) =~= cstr_field(encode_utf8(b.name), 17));
    assert(bb.subrange(20, 30476) =~= c);
    assert(bb.subrange(30480, 32144) =~= msg_list_bytes(b.enter_msgs));
    assert(bb.subrange(32148, 33812) =~= msg_list_bytes(b.exit_msgs));
    assert forall|p: int, sw: int| 0 <= p < 4 && 0 <= sw < 4 implies #[trigger] bb.subrange(
        20 + 1692 * (4 * p + sw),
        20 + 1692 * (4 * p + sw) + 1692,
    ) == preset_bytes(b.presets[p][sw]) by {
        let i = 4 * p + sw;
        assert(i / 4 == p && i % 4 == sw);
        assert(ps[i] == b.presets[p][sw]);
        lemma_subrange_in(bb, 20, 30456, c, PRESET_SIZE * i, PRESET_SIZE as int);
    }
    assert forall|i: int| 0 <= i < 2 implies #[trigger] bb.subrange(
        20 + 1692 * (16 + i),
        20 + 1692 * (17 + i),
    ) == preset_bytes(b.expr_presets[i]) by {
        assert(ps[16 + i] == b.expr_presets[i]);
        lemma_subrange_in(bb, 20, 30456, c, PRESET_SIZE * (16 + i), PRESET_SIZE as int);
    }
}

/// Where a bank is read from: the name from bytes 0..17, switch preset
/// `[page][sw]` from 20 + 1692 (4 page + sw), expression preset `i` from
/// 20 + 1692 (16 + i), the enter and exit lists after their count bytes at
/// 30476 and 32144.
pub proof fn lemma_read_bank_layout(raw: Seq<u8>)
    ensures
        read_bank(raw).name == lossy_text(cstr_bytes(raw.subrange(0, 17))),
        read_bank(raw).presets.len() == 4,
        forall|p: int| 0 <= p < 4 ==> (#[trigger] read_bank(raw).presets[p]).len() == 4,
        forall|p: int, sw: int|
            0 <= p < 4 && 0 <= sw < 4 ==> #[trigger] read_bank(raw).presets[p][sw] == read_preset(
                raw,
                20 + 1692 * (4 * p + sw),
            ),
        read_bank(raw).expr_presets.len() == 2,
        forall|i: int|
            0 <= i < 2 ==> #[trigger] read_bank(raw).expr_presets[i] == read_preset(
                raw,
                20 + 1692 * (16 + i),
            ),
        read_bank(raw).enter_msgs == read_msg_list(raw, 30480, min32(raw[30476] as int)),
        read_bank(raw).exit_msgs == read_msg_list(raw, 32148, min32(raw[32144] as int)),
{
}

/// A bank serialised and deserialised again is the bank the device keeps;
/// a bank that fits comes back unchanged.
pub proof fn lemma_bank_serialise_deserialise(b: BankView, rest: Seq<u8>)
    requires
        bank_wf(b),
    ensures
        bank_readable(bank_bytes(b) + rest),
        read_bank(bank_bytes(b) + rest) == stored_bank(b),
        bank_fits(b) ==> read_bank(bank_bytes(b) + rest) == b,
{
    lemma_bank_round_trip(b, rest);
    if bank_fits(b) {
        lemma_stored_bank_fits(b);
    }
}

// ── Device settings and information ─────────────────────────────────────────

#[derive(Debug, Clone)]
pub struct DeviceSettings {
    pub brightness: u8,
    pub startup_bank: u8,
    pub startup_profile: u8,
    pub midi_thru_usb: u8,
    pub midi_thru_trs: u8,
    pub relay_contact: [u8; 2],
    pub recall_toggle: bool,
    pub device_name: String,
}

/// Mathematical model of [`DeviceSettings`].
pub struct SettingsView {
    pub brightness: u8,
    pub startup_bank: u8,
    pub startup_profile: u8,
    pub midi_thru_usb: u8,
    pub midi_thru_trs: u8,
    pub relay_contact: Seq<u8>,
    pub recall_toggle: bool,
    pub device_name: Seq<char>,
}

impl View for DeviceSettings {
    type V = SettingsView;

    open spec fn view(&self) -> SettingsView {
        SettingsView {
            brightness: self.brightness,
            startup_bank: self.startup_bank,
            startup_profile: self.startup_profile,
            midi_thru_usb: self.midi_thru_usb,
            midi_thru_trs: self.midi_thru_trs,
            relay_contact: self.relay_contact@,
            recall_toggle: self.recall_toggle,
            device_name: self.device_name@,
        }
    }
}

/// Settings with every number zero, the toggle recall off and no name.
pub open spec fn default_settings() -> SettingsView {
    SettingsView {
        brightness: 0,
        startup_bank: 0,
        startup_profile: 0,
        midi_thru_usb: 0,
        midi_thru_trs: 0,
        relay_contact: seq![0u8, 0u8],
        recall_toggle: false,
        device_name: seq![],
    }
}

impl Default for DeviceSettings {
    fn default() -> (r: Self)
        ensures
            r@ == default_settings(),
    {
        let r = DeviceSettings {
            brightness: 0,
            startup_bank: 0,
            startup_profile: 0,
            midi_thru_usb: 0,
            midi_thru_trs: 0,
            relay_contact: [0, 0],
            recall_toggle: false,
            device_name: String::new(),
        };
        assert(r.relay_contact@ =~= seq![0u8, 0u8]);
        r
    }
}

#[derive(Debug, Clone)]
pub struct DeviceInfo {
    pub firmware_major: u8,
    pub firmware_minor: u8,
    pub firmware_patch: u8,
    pub device_name: String,
}

/// Mathematical model of [`DeviceInfo`].
pub struct DeviceInfoView {
    pub firmware_major: u8,
    pub firmware_minor: u8,
    pub firmware_patch: u8,
    pub device_name: Seq<char>,
}

impl View for DeviceInfo {
    type V = DeviceInfoView;

    open spec fn view(&self) -> DeviceInfoView {
        DeviceInfoView {
            firmware_major: self.firmware_major,
            firmware_minor: self.firmware_minor,
            firmware_patch: self.firmware_patch,
            device_name: self.device_name@,
        }
    }
}

/// The 29 bytes of `device_settings_t`: the five numbers, both relay
/// contacts, the toggle-recall flag as 0 or 1, and a 21-byte name.
pub open spec fn settings_bytes(s: SettingsView) -> Seq<u8> {
    seq![
        s.brightness,
        s.startup_bank,
        s.startup_profile,
        s.midi_thru_usb,
        s.midi_thru_trs,
        s.relay_contact[0],
        s.relay_contact[1],
        if s.recall_toggle {
            1u8
        } else {
            0u8
        },
    ] + cstr_field(encode_utf8(s.device_name), 21)
}

/// The settings stored at the start of `b`; any non-zero flag byte means on.
pub open spec fn read_settings(b: Seq<u8>) -> SettingsView {
    SettingsView {
        brightness: b[0],
        startup_bank: b[1],
        startup_profile: b[2],
        midi_thru_usb: b[3],
        midi_thru_trs: b[4],
        relay_contact: seq![b[5], b[6]],
        recall_toggle: b[7] != 0,
        device_name: lossy_text(cstr_bytes(b.subrange(8, 29))),
    }
}

/// What the device keeps of `s`: its name as it fits 21 bytes.
pub open spec fn stored_settings(s: SettingsView) -> SettingsView {
    SettingsView { device_name: stored_name(s.device_name, 21), ..s }
}

/// Read the `device_settings_t` at the start of `buf`.
pub fn deserialise_settings(buf: &[u8]) -> (s: DeviceSettings)
    requires
        buf@.len() >= DEVICE_SETTINGS_SIZE,
    ensures
        s@ == read_settings(buf@),
{
    let s = DeviceSettings {
        brightness: buf[0],
        startup_bank: buf[1],
        startup_profile: buf[2],
        midi_thru_usb: buf[3],
        midi_thru_trs: buf[4],
        relay_contact: [buf[5], buf[6]],
        recall_toggle: buf[7] != 0,
        device_name: cstr_to_string(&buf[8..29]),
    };
    assert(s.relay_contact@ =~= seq![buf@[5], buf@[6]]);
    s
}

/// Serialise `s` to its 29-byte `device_settings_t`.
pub fn serialise_settings(s: &DeviceSettings) -> (out: Vec<u8>)
    ensures
        out@ == settings_bytes(s@),
        out@.len() == DEVICE_SETTINGS_SIZE,
{
    let mut buf: Vec<u8> = Vec::new();
    buf.push(s.brightness);
    buf.push(s.startup_bank);
    buf.push(s.startup_profile);
    buf.push(s.midi_thru_usb);
    buf.push(s.midi_thru_trs);
    buf.push(s.relay_contact[0]);
    buf.push(s.relay_contact[1]);
    buf.push(if s.recall_toggle { 1 } else { 0 });
    string_to_cstr(s.device_name.as_str(), &mut buf, 21);
    assert(buf@ =~= settings_bytes(s@));
    buf
}

/// Settings serialised and deserialised again are the settings the device
/// keeps; with a name that fits 21 bytes, the settings themselves.
pub proof fn lemma_settings_serialise_deserialise(s: SettingsView, rest: Seq<u8>)
    requires
        s.relay_contact.len() == 2,
    ensures
        (settings_bytes(s) + rest).len() >= DEVICE_SETTINGS_SIZE,
        read_settings(settings_bytes(s) + rest) == stored_settings(s),
        name_fits(s.device_name, 21) ==> read_settings(settings_bytes(s) + rest) == s,
{
    let b = settings_bytes(s) + rest;
    let f = cstr_field(encode_utf8(s.device_name), 21);
    assert(b.subrange(8, 29) =~= f);
    assert(seq![b[5], b[6]] =~= s.relay_contact);
    if name_fits(s.device_name, 21) {
        lemma_stored_name(s.device_name, 21);
    }
}

/// Any 52 bytes hold a readable message.
pub proof fn lemma_msg_readable_size(b: Seq<u8>, off: int)
    requires
        0 <= off,
        off + MIDI_MSG_SIZE <= b.len(),
    ensures
        msg_readable(b, off),
{
}

/// Any 1692 bytes hold a readable preset.
pub proof fn lemma_preset_readable_size(b: Seq<u8>, off: int)
    requires
        0 <= off,
        off + PRESET_SIZE <= b.len(),
    ensures
        preset_readable(b, off),
{
    assert forall|i: int| 0 <= i < min32(b[off + 25] as int) implies #[trigger] msg_readable(
        b,
        off + 28 + 52 * i,
    ) by {
        lemma_msg_readable_size(b, off + 28 + 52 * i);
    }
}

/// Any 33812 bytes hold a readable bank.
pub proof fn lemma_bank_readable_size(b: Seq<u8>)
    requires
        b.len() >= BANK_SIZE,
    ensures
        bank_readable(b),
{
    assert forall|i: int| 0 <= i < 18 implies #[trigger] preset_readable(b, bank_preset_off(i)) by {
        lemma_preset_readable_size(b, bank_preset_off(i));
    }
    assert forall|i: int| 0 <= i < min32(b[30476] as int) implies #[trigger] msg_readable(
        b,
        30480 + 52 * i,
    ) by {
        lemma_msg_readable_size(b, 30480 + 52 * i);
    }
    assert forall|i: int| 0 <= i < min32(b[32144] as int) implies #[trigger] msg_readable(
        b,
        32148 + 52 * i,
    ) by {
        lemma_msg_readable_size(b, 32148 + 52 * i);
    }
}

// ── Copies with a contract ───────────────────────────────────────────────────

fn copy_bytes(v: &Vec<u8>) -> (r: Vec<u8>)
    ensures
        r@ == v@,
{
    let mut r: Vec<u8> = Vec::new();
    let n = v.len();
    let mut i: usize = 0;
    while i < n
        invariant
            n == v@.len(),
            i <= n,
            r@ == v@.take(i as int),
        decreases n - i,
    {
        r.push(v[i]);
        i = i + 1;
        assert(r@ =~= v@.take(i as int));
    }
    assert(v@.take(n as int) =~= v@);
    r
}

fn copy_msgs(v: &Vec<MidiMsg>) -> (r: Vec<MidiMsg>)
    ensures
        msgs_view(r@) == msgs_view(v@),
{
    let mut r: Vec<MidiMsg> = Vec::new();
    let n = v.len();
    let mut i: usize = 0;
    while i < n
        invariant
            n == v@.len(),
            i <= n,
            r@.len() == i,
            forall|j: int| 0 <= j < i ==> #[trigger] r@[j]@ == v@[j]@,
        decreases n - i,
    {
        r.push(v[i].copy());
        i = i + 1;
    }
    assert(msgs_view(r@) =~= msgs_view(v@));
    r
}

impl MidiMsg {
    /// A copy of this message with the same model.
    pub fn copy(&self) -> (r: Self)
        ensures
            r@ == self@,
    {
        MidiMsg {
            msg_type: self.msg_type,
            action: self.action,
            toggle_pos: self.toggle_pos,
            port: self.port,
            channel: self.channel,
            number: self.number,
            value: self.value,
            sysex: copy_bytes(&self.sysex),
        }
    }
}

impl Preset {
    /// A copy of this preset with the same model.
    pub fn copy(&self) -> (r: Self)
        ensures
            r@ == self@,
    {
        Preset {
            name: self.name.clone(),
            color_pos1: self.color_pos1,
            color_pos2: self.color_pos2,
            toggle_group: self.toggle_group,
            toggle_reset_group: self.toggle_reset_group,
            msgs: copy_msgs(&self.msgs),
        }
    }
}

fn copy_row(row: &[Preset; 4]) -> (r: [Preset; 4])
    ensures
        presets_view(r@) == presets_view(row@),
{
    let r = [row[0].copy(), row[1].copy(), row[2].copy(), row[3].copy()];
    assert(presets_view(r@) =~= presets_view(row@));
    r
}

impl Bank {
    /// A copy of this bank with the same model.
    pub fn copy(&self) -> (r: Self)
        ensures
            r@ == self@,
    {
        let r = Bank {
            name: self.name.clone(),
            presets: [
                copy_row(&self.presets[0]),
                copy_row(&self.presets[1]),
                copy_row(&self.presets[2]),
                copy_row(&self.presets[3]),
            ],
            expr_presets: [self.expr_presets[0].copy(), self.expr_presets[1].copy()],
            enter_msgs: copy_msgs(&self.enter_msgs),
            exit_msgs: copy_msgs(&self.exit_msgs),
        };
        assert(r@.presets =~= self@.presets);
        assert(r@.expr_presets =~= self@.expr_presets);
        r
    }
}

impl DeviceSettings {
    /// A copy of these settings with the same model.
    pub fn copy(&self) -> (r: Self)
        ensures
            r@ == self@,
    {
        DeviceSettings {
            brightness: self.brightness,
            startup_bank: self.startup_bank,
            startup_profile: self.startup_profile,
            midi_thru_usb: self.midi_thru_usb,
            midi_thru_trs: self.midi_thru_trs,
            relay_contact: self.relay_contact,
            recall_toggle: self.recall_toggle,
            device_name: self.device_name.clone(),
        }
    }
}

// ── Decimal numbers in names ─────────────────────────────────────────────────

/// The character of the decimal digit `d`.
pub open spec fn digit_char(d: int) -> char {
    if d == 0 {
        '0'
    } else if d == 1 {
        '1'
    } else if d == 2 {
        '2'
    } else if d == 3 {
        '3'
    } else if d == 4 {
        '4'
    } else if d == 5 {
        '5'
    } else if d == 6 {
        '6'
    } else if d == 7 {
        '7'
    } else if d == 8 {
        '8'
    } else {
        '9'
    }
}

/// The decimal digits of `n`, without leading zeros.
pub open spec fn decimal(n: nat) -> Seq<char>
    decreases n,
{
    if n < 10 {
        seq![digit_char(n as int)]
    } else {
        decimal(n / 10).push(digit_char((n % 10) as int))
    }
}

/// The character `c` is one of the decimal digits '0' to '9'.
pub open spec fn is_digit(c: char) -> bool {
    48 <= (c as int) <= 57
}

/// The number that a string of decimal digits spells, most significant first.
pub open spec fn decimal_value(s: Seq<char>) -> int
    decreases s.len(),
{
    if s.len() == 0 {
        0
    } else {
        decimal_value(s.drop_last()) * 10 + ((s.last() as int) - 48)
    }
}

/// `decimal(n)` is the usual base-10 rendering of `n`: one or more digit
/// characters, spelling `n`, with no leading zero.
pub proof fn lemma_decimal(n: nat)
    ensures
        decimal(n).len() >= 1,
        forall|i: int| 0 <= i < decimal(n).len() ==> is_digit(#[trigger] decimal(n)[i]),
        decimal_value(decimal(n)) == n,
        decimal(n).len() > 1 ==> decimal(n)[0] != '0',
        n >= 1 ==> decimal(n)[0] != '0',
    decreases n,
{
    if n < 10 {
        let c = digit_char(n as int);
        assert((c as int) == 48 + n);
        assert(decimal(n).drop_last() =~= Seq::<char>::empty());
        assert(decimal_value(Seq::<char>::empty()) == 0);
        assert(decimal_value(decimal(n)) == decimal_value(decimal(n).drop_last()) * 10 + (c as int
            - 48));
    } else {
        let q = n / 10;
        let d = n % 10;
        lemma_decimal(q);
        let c = digit_char(d as int);
        assert((c as int) == 48 + d);
        let t = decimal(n);
        assert(t == decimal(q).push(c));
        assert(t.drop_last() =~= decimal(q));
        assert(decimal_value(t) == q * 10 + d);
        assert(q * 10 + d == n);
        assert(t[0] == decimal(q)[0]);
        assert forall|i: int| 0 <= i < t.len() implies is_digit(#[trigger] t[i]) by {
            if i < t.len() - 1 {
                assert(t[i] == decimal(q)[i]);
            }
        }
    }
}

/// Different numbers have different renderings.
pub proof fn lemma_decimal_injective(m: nat, n: nat)
    requires
        decimal(m) == decimal(n),
    ensures
        m == n,
{
    lemma_decimal(m);
    lemma_decimal(n);
}

fn digit_str(d: usize) -> (s: &'static str)
    requires
        d < 10,
    ensures
        s@ == seq![digit_char(d as int)],
{
    match d {
        0 => {
            proof {
                reveal_strlit("0");
            }
            "0"
        }
        1 => {
            proof {
                reveal_strlit("1");
            }
            "1"
        }
        2 => {
            proof {
                reveal_strlit("2");
            }
            "2"
        }
        3 => {
            proof {
                reveal_strlit("3");
            }
            "3"
        }
        4 => {
            proof {
                reveal_strlit("4");
            }
            "4"
        }
        5 => {
            proof {
                reveal_strlit("5");
            }
            "5"
        }
        6 => {
            proof {
                reveal_strlit("6");
            }
            "6"
        }
        7 => {
            proof {
                reveal_strlit("7");
            }
            "7"
        }
        8 => {
            proof {
                reveal_strlit("8");
            }
            "8"
        }
        _ => {
            proof {
                reveal_strlit("9");
            }
            "9"
        },
    }
}

/// Appends the decimal digits of `n` to `s`.
pub fn push_decimal(s: &mut String, n: usize)
    ensures
        final(s)@ == old(s)@ + decimal(n as nat),
    decreases n,
{
    if n >= 10 {
        push_decimal(s, n / 10);
    }
    s.append(digit_str(n % 10));
    assert(final(s)@ =~= old(s)@ + decimal(n as nat));
}

} // verus!
