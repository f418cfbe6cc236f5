//! The rules of the editor protocol: sequence numbers, what each request
//! carries, how each response is checked and decoded, and how chunked
//! transfers (all banks, backups, restores, firmware) are cut and put back
//! together. Sending and waiting for frames is left to the caller.
use vstd::prelude::*;
use vstd::utf8::{decode_utf8, valid_utf8};
use crate::midi::codec::{decode_7bit, decode_spec, encode_7bit, encode_spec, lemma_decode_encode};
use crate::midi::sysex::{build_frame, cmd, frame_spec, SysexFrame, DIR_HOST_TO_DEV};
use crate::midi::types::{
    cstr_bytes, lemma_nul_pos, decimal, decimal_value, lemma_decimal, lemma_decimal_injective, default_bank, deserialise_bank, deserialise_settings,
    lemma_bank_readable_size, lossy_text, push_decimal, read_bank, read_settings, serialise_bank,
    serialise_settings, settings_bytes, bank_bytes, bank_fits, bank_wf, lemma_bank_bytes_len,
    lemma_bank_serialise_deserialise, lemma_settings_serialise_deserialise, stored_bank,
    stored_settings, Bank, BankView, DeviceInfo, DeviceInfoView, DeviceSettings, SettingsView,
    BANK_SIZE, DEVICE_SETTINGS_SIZE,
};

verus! {

/// Why a response from the device was refused.
#[derive(Debug, Clone, Copy, PartialEq, Eq, Structural)]
pub enum ProtocolError {
    /// The device-info response decodes to fewer than 3 bytes.
    DeviceInfoTooShort,
    /// The settings response decodes to fewer than 29 bytes (`len` of them).
    SettingsTooShort { len: usize },
    /// The bank response decodes to fewer than 33812 bytes (`len` of them).
    BankTooShort { len: usize },
    /// The device answered a bank write with a non-zero status.
    BankRejected { status: u8 },
}

// ── Sequence numbers ─────────────────────────────────────────────────────────

/// Hands out the current sequence number and advances it, wrapping at 128.
pub fn next_seq(seq: &mut u8) -> (s: u8)
    requires
        *old(seq) < 255,
    ensures
        s == *old(seq),
        *final(seq) == (*old(seq) + 1) % 128,
{
    let s = *seq;
    *seq = (*seq + 1) & 0x7F;
    proof {
        let x = (s + 1) as u8;
        assert(x & 0x7f == x % 128) by (bit_vector);
    }
    s
}

/// Sequence numbers stay 7-bit: from a 7-bit number, every later one is too.
pub proof fn lemma_seq_stays_seven_bit(s: u8)
    requires
        s < 128,
    ensures
        (s + 1) % 128 < 128,
        s < 255,
{
}

// ── Requests ─────────────────────────────────────────────────────────────────

/// Payload of GET_BANK: the profile and bank index, each cut to 7 bits.
pub fn bank_address_payload(profile: u8, bank_index: u8) -> (p: Vec<u8>)
    ensures
        p@ == seq![profile & 0x7f, bank_index & 0x7f],
{
    let mut p: Vec<u8> = Vec::new();
    p.push(profile & 0x7F);
    p.push(bank_index & 0x7F);
    assert(p@ =~= seq![profile & 0x7f, bank_index & 0x7f]);
    p
}

/// Payload of GET_ALL_BANKS: the profile cut to 7 bits.
pub fn profile_payload(profile: u8) -> (p: Vec<u8>)
    ensures
        p@ == seq![profile & 0x7f],
{
    let mut p: Vec<u8> = Vec::new();
    p.push(profile & 0x7F);
    assert(p@ =~= seq![profile & 0x7f]);
    p
}

/// Payload of SET_SETTINGS: the encoded `device_settings_t`.
pub fn set_settings_payload(settings: &DeviceSettings) -> (p: Vec<u8>)
    ensures
        p@ == encode_spec(settings_bytes(settings@)),
{
    let raw = serialise_settings(settings);
    encode_7bit(raw.as_slice())
}

/// Payload of SET_BANK: profile and bank index (7 bits each), then the
/// `bank_t`, all encoded.
pub fn set_bank_payload(profile: u8, bank_index: u8, bank: &Bank) -> (p: Vec<u8>)
    ensures
        p@ == encode_spec(seq![profile & 0x7f, bank_index & 0x7f] + bank_bytes(bank@)),
{
    let mut raw = bank_address_payload(profile, bank_index);
    let body = serialise_bank(bank);
    let ghost head = raw@;
    let n = body.len();
    let mut i: usize = 0;
    while i < n
        invariant
            n == body@.len(),
            i <= n,
            raw@ == head + body@.take(i as int),
        decreases n - i,
    {
        raw.push(body[i]);
        i = i + 1;
        assert(raw@ =~= head + body@.take(i as int));
    }
    assert(body@.take(n as int) =~= body@);
    encode_7bit(raw.as_slice())
}

/// Size of the pieces in which restores and firmware images are sent.
pub const CHUNK_BYTES: usize = 512;

/// Number of 512-byte pieces needed for `len` bytes.
pub open spec fn chunk_count_spec(len: int) -> int {
    (len + 511) / 512
}

/// Piece `i` of `data`: bytes `512 i` up to `512 (i + 1)` or the end.
pub open spec fn chunk_spec(data: Seq<u8>, i: int) -> Seq<u8> {
    let end = if 512 * (i + 1) < data.len() { 512 * (i + 1) } else { data.len() as int };
    data.subrange(512 * i, end)
}

/// Number of 512-byte pieces needed for `len` bytes.
pub fn chunk_count(len: usize) -> (n: usize)
    ensures
        n == chunk_count_spec(len as int),
{
    len / CHUNK_BYTES + if len % CHUNK_BYTES == 0 { 0 } else { 1 }
}

/// The bytes of piece `i` of `data`.
fn chunk_of(data: &[u8], i: usize) -> (c: Vec<u8>)
    requires
        i < chunk_count_spec(data@.len() as int),
    ensures
        c@ == chunk_spec(data@, i as int),
{
    let n = data.len();
    let start = i * CHUNK_BYTES;
    let end: usize = if n - start > CHUNK_BYTES { start + CHUNK_BYTES } else { n };
    let mut c: Vec<u8> = Vec::new();
    let mut j: usize = start;
    while j < end
        invariant
            n == data@.len(),
            start <= j <= end <= n,
            c@ == data@.subrange(start as int, j as int),
        decreases end - j,
    {
        c.push(data[j]);
        j = j + 1;
        assert(c@ =~= data@.subrange(start as int, j as int));
    }
    c
}

/// The first `n` pieces of `data`, one after the other.
pub open spec fn chunks_join(data: Seq<u8>, n: int) -> Seq<u8>
    decreases n,
{
    if n <= 0 {
        seq![]
    } else {
        chunks_join(data, n - 1) + chunk_spec(data, n - 1)
    }
}

proof fn lemma_chunks_join_prefix(data: Seq<u8>, k: int)
    requires
        0 <= k,
        512 * (k - 1) < data.len() || k == 0,
    ensures
        chunks_join(data, k) == data.take(if 512 * k < data.len() { 512 * k } else { data.len() as int }),
    decreases k,
{
    if k > 0 {
        if k > 1 {
            lemma_chunks_join_prefix(data, k - 1);
        } else {
            assert(data.take(0) =~= Seq::<u8>::empty());
        }
        assert(chunks_join(data, k - 1) == data.take(512 * (k - 1)));
        let end = if 512 * k < data.len() { 512 * k } else { data.len() as int };
        assert(chunk_spec(data, k - 1) == data.subrange(512 * (k - 1), end));
        assert(chunks_join(data, k) == chunks_join(data, k - 1) + chunk_spec(data, k - 1));
        assert(data.take(512 * (k - 1)) + data.subrange(512 * (k - 1), end) =~= data.take(end));
    }
}

/// The pieces of a restore or firmware transfer, in order, are exactly the
/// image: nothing is left out, repeated or reordered.
pub proof fn lemma_chunks_cover(data: Seq<u8>)
    ensures
        chunks_join(data, chunk_count_spec(data.len() as int)) == data,
{
    let n = chunk_count_spec(data.len() as int);
    let len = data.len() as int;
    assert(512 * n >= len && (n == 0 || 512 * (n - 1) < len)) by (nonlinear_arith)
        requires
            n == (len + 511) / 512,
            len >= 0,
    ;
    if n == 0 {
        assert(data =~= Seq::<u8>::empty());
    } else {
        lemma_chunks_join_prefix(data, n);
        assert(data.take(len) =~= data);
    }
}

/// Payload of RESTORE_CHUNK number `i`: the piece number and the piece
/// count (each cut to a byte), then piece `i` of `data`, all encoded.
pub fn restore_chunk_payload(data: &[u8], i: usize) -> (p: Vec<u8>)
    requires
        i < chunk_count_spec(data@.len() as int),
    ensures
        p@ == encode_spec(
            seq![i as u8, chunk_count_spec(data@.len() as int) as u8] + chunk_spec(data@, i as int),
        ),
{
    let total = chunk_count(data.len());
    let piece = chunk_of(data, i);
    let mut raw: Vec<u8> = Vec::new();
    raw.push(i as u8);
    raw.push(total as u8);
    let ghost head = raw@;
    let n = piece.len();
    let mut j: usize = 0;
    while j < n
        invariant
            n == piece@.len(),
            j <= n,
            raw@ == head + piece@.take(j as int),
        decreases n - j,
    {
        raw.push(piece[j]);
        j = j + 1;
        assert(raw@ =~= head + piece@.take(j as int));
    }
    assert(piece@.take(n as int) =~= piece@);
    assert(raw@ =~= seq![i as u8, total as u8] + chunk_spec(data@, i as int));
    encode_7bit(raw.as_slice())
}

/// The four big-endian bytes of `x`.
pub open spec fn be_bytes(x: u32) -> Seq<u8> {
    seq![
        ((x >> 24u32) & 0xff) as u8,
        ((x >> 16u32) & 0xff) as u8,
        ((x >> 8u32) & 0xff) as u8,
        (x & 0xff) as u8,
    ]
}

/// Payload of FW_UPDATE_START: image size and CRC-32, big endian, encoded.
pub fn firmware_start_payload(size: u32, crc32: u32) -> (p: Vec<u8>)
    ensures
        p@ == encode_spec(be_bytes(size) + be_bytes(crc32)),
{
    let mut raw: Vec<u8> = Vec::new();
    raw.push(((size >> 24u32) & 0xff) as u8);
    raw.push(((size >> 16u32) & 0xff) as u8);
    raw.push(((size >> 8u32) & 0xff) as u8);
    raw.push((size & 0xff) as u8);
    raw.push(((crc32 >> 24u32) & 0xff) as u8);
    raw.push(((crc32 >> 16u32) & 0xff) as u8);
    raw.push(((crc32 >> 8u32) & 0xff) as u8);
    raw.push((crc32 & 0xff) as u8);
    assert(raw@ =~= be_bytes(size) + be_bytes(crc32));
    encode_7bit(raw.as_slice())
}

/// Payload of FW_CHUNK number `i`: piece `i` of the image, encoded.
pub fn firmware_chunk_payload(firmware: &[u8], i: usize) -> (p: Vec<u8>)
    requires
        i < chunk_count_spec(firmware@.len() as int),
    ensures
        p@ == encode_spec(chunk_spec(firmware@, i as int)),
{
    let piece = chunk_of(firmware, i);
    encode_7bit(piece.as_slice())
}

/// Sequence number of the `j`-th frame sent from sequence number `seq` on.
pub open spec fn seq_after(seq: u8, j: int) -> u8 {
    ((seq + j) % 128) as u8
}

/// The frames that send a restore image, starting at sequence number `seq`:
/// one RESTORE_CHUNK frame per 512-byte piece, each with the next sequence
/// number, then RESTORE_DONE.
pub open spec fn restore_plan_spec(data: Seq<u8>, seq: u8) -> Seq<Seq<u8>> {
    let total = chunk_count_spec(data.len() as int);
    Seq::new(
        (total + 1) as nat,
        |j: int|
            if j < total {
                frame_spec(
                    cmd::RESTORE_CHUNK,
                    DIR_HOST_TO_DEV,
                    seq_after(seq, j),
                    encode_spec(seq![j as u8, total as u8] + chunk_spec(data, j)),
                )
            } else {
                frame_spec(cmd::RESTORE_DONE, DIR_HOST_TO_DEV, seq_after(seq, j), seq![])
            },
    )
}

/// The frames that send a firmware image after its start frame was
/// acknowledged, starting at sequence number `seq`: one FW_CHUNK frame per
/// 512-byte piece, each with the next sequence number, then FW_REBOOT.
pub open spec fn firmware_plan_spec(firmware: Seq<u8>, seq: u8) -> Seq<Seq<u8>> {
    let total = chunk_count_spec(firmware.len() as int);
    Seq::new(
        (total + 1) as nat,
        |j: int|
            if j < total {
                frame_spec(
                    cmd::FW_CHUNK,
                    DIR_HOST_TO_DEV,
                    seq_after(seq, j),
                    encode_spec(chunk_spec(firmware, j)),
                )
            } else {
                frame_spec(cmd::FW_REBOOT, DIR_HOST_TO_DEV, seq_after(seq, j), seq![])
            },
    )
}

/// Models of a list of frames.
pub open spec fn frames_view(v: Seq<Vec<u8>>) -> Seq<Seq<u8>> {
    v.map_values(|f: Vec<u8>| f@)
}

/// The sequence number after `s`, as [`next_seq`] advances it.
fn seq_step(s: u8) -> (r: u8)
    requires
        s < 128,
    ensures
        r == (s + 1) % 128,
{
    proof {
        let x = (s + 1) as u8;
        assert(x & 0x7f == x % 128) by (bit_vector);
    }
    (s + 1) & 0x7F
}

/// Frame `j` of a plan is built with the same bytes whether its sequence
/// number is counted from `seq` or from `seq` cut to 7 bits.
proof fn lemma_seq_after(seq: u8, j: int, s: u8)
    requires
        0 <= j,
        s == (seq % 128 + j) % 128,
    ensures
        s & 0x7f == seq_after(seq, j) & 0x7f,
        s < 128,
{
    assert((seq % 128 + j) % 128 == (seq + j) % 128) by (nonlinear_arith)
        requires
            0 <= j,
    ;
    let t = seq_after(seq, j);
    assert(t == s);
}

/// The frames that send `data` as a restore, starting at sequence number
/// `seq`; the caller advances its own sequence number once per frame sent.
pub fn restore_plan(data: &[u8], seq: u8) -> (frames: Vec<Vec<u8>>)
    ensures
        frames_view(frames@) == restore_plan_spec(data@, seq),
{
    let total = chunk_count(data.len());
    let ghost plan = restore_plan_spec(data@, seq);
    let mut frames: Vec<Vec<u8>> = Vec::new();
    proof {
        assert(seq & 0x7f == seq % 128) by (bit_vector);
    }
    let mut s: u8 = seq & 0x7F;
    let mut i: usize = 0;
    while i < total
        invariant
            total == chunk_count_spec(data@.len() as int),
            plan == restore_plan_spec(data@, seq),
            i <= total,
            s == (seq % 128 + i) % 128,
            frames@.len() == i,
            forall|j: int| 0 <= j < i ==> #[trigger] frames@[j]@ == plan[j],
        decreases total - i,
    {
        let payload = restore_chunk_payload(data, i);
        let f = build_frame(cmd::RESTORE_CHUNK, DIR_HOST_TO_DEV, s, payload.as_slice());
        proof {
            lemma_seq_after(seq, i as int, s);
        }
        frames.push(f);
        s = seq_step(s);
        i = i + 1;
    }
    let f = build_frame(cmd::RESTORE_DONE, DIR_HOST_TO_DEV, s, &[]);
    proof {
        lemma_seq_after(seq, total as int, s);
        assert(f@ == plan[total as int]);
    }
    frames.push(f);
    assert(frames_view(frames@) =~= plan);
    frames
}

/// The frames that send `firmware` after its acknowledged start frame,
/// starting at sequence number `seq`; the caller advances its own sequence
/// number once per frame sent.
pub fn firmware_plan(firmware: &[u8], seq: u8) -> (frames: Vec<Vec<u8>>)
    ensures
        frames_view(frames@) == firmware_plan_spec(firmware@, seq),
{
    let total = chunk_count(firmware.len());
    let ghost plan = firmware_plan_spec(firmware@, seq);
    let mut frames: Vec<Vec<u8>> = Vec::new();
    proof {
        assert(seq & 0x7f == seq % 128) by (bit_vector);
    }
    let mut s: u8 = seq & 0x7F;
    let mut i: usize = 0;
    while i < total
        invariant
            total == chunk_count_spec(firmware@.len() as int),
            plan == firmware_plan_spec(firmware@, seq),
            i <= total,
            s == (seq % 128 + i) % 128,
            frames@.len() == i,
            forall|j: int| 0 <= j < i ==> #[trigger] frames@[j]@ == plan[j],
        decreases total - i,
    {
        let payload = firmware_chunk_payload(firmware, i);
        let f = build_frame(cmd::FW_CHUNK, DIR_HOST_TO_DEV, s, payload.as_slice());
        proof {
            lemma_seq_after(seq, i as int, s);
        }
        frames.push(f);
        s = seq_step(s);
        i = i + 1;
    }
    let f = build_frame(cmd::FW_REBOOT, DIR_HOST_TO_DEV, s, &[]);
    proof {
        lemma_seq_after(seq, total as int, s);
        assert(f@ == plan[total as int]);
    }
    frames.push(f);
    assert(frames_view(frames@) =~= plan);
    frames
}

// ── Responses ────────────────────────────────────────────────────────────────

/// A frame answers a request when both its command and sequence number match.
pub fn matches_response(frame: &SysexFrame, expected_cmd: u8, expected_seq: u8) -> (b: bool)
    ensures
        b == (frame.cmd == expected_cmd && frame.seq == expected_seq),
{
    frame.cmd == expected_cmd && frame.seq == expected_seq
}

/// The text of a C string at the start of `buf`.
fn cstr_from_bytes(buf: &[u8]) -> (s: String)
    ensures
        s@ == lossy_text(cstr_bytes(buf@)),
{
    crate::midi::types::cstr_to_string(buf)
}

/// What a device-info response payload says: firmware major, minor and
/// patch, then the device name as a C string.
pub open spec fn device_info_spec(payload: Seq<u8>) -> Result<DeviceInfoView, ProtocolError> {
    let d = decode_spec(payload);
    if d.len() < 3 {
        Err(ProtocolError::DeviceInfoTooShort)
    } else {
        Ok(
            DeviceInfoView {
                firmware_major: d[0],
                firmware_minor: d[1],
                firmware_patch: d[2],
                device_name: lossy_text(cstr_bytes(d.skip(3))),
            },
        )
    }
}

/// A device-info response names the device by every byte after the three
/// version numbers up to the first zero byte, or to the end when there is
/// none, however long the name: valid UTF-8 is read as the text it encodes.
pub proof fn lemma_device_info_name(a: u8, b: u8, c: u8, name: Seq<u8>, rest: Seq<u8>)
    requires
        !name.contains(0u8),
    ensures
        device_info_spec(encode_spec(seq![a, b, c] + name + seq![0u8] + rest)) == Ok::<
            DeviceInfoView,
            ProtocolError,
        >(
            DeviceInfoView {
                firmware_major: a,
                firmware_minor: b,
                firmware_patch: c,
                device_name: lossy_text(name),
            },
        ),
        device_info_spec(encode_spec(seq![a, b, c] + name)) == Ok::<DeviceInfoView, ProtocolError>(
            DeviceInfoView {
                firmware_major: a,
                firmware_minor: b,
                firmware_patch: c,
                device_name: lossy_text(name),
            },
        ),
        valid_utf8(name) ==> lossy_text(name) == decode_utf8(name),
{
    assert forall|j: int| 0 <= j < name.len() implies name[j] != 0 by {
        if name[j] == 0 {
            assert(name.contains(0u8));
        }
    }
    let d1 = seq![a, b, c] + name + seq![0u8] + rest;
    lemma_decode_encode(d1);
    let t1 = d1.skip(3);
    assert(t1 =~= name + seq![0u8] + rest);
    assert forall|j: int| 0 <= j < name.len() implies t1[j] != 0 by {
        assert(t1[j] == name[j]);
    }
    assert(t1[name.len() as int] == 0);
    lemma_nul_pos(t1, name.len() as int);
    assert(cstr_bytes(t1) =~= name);
    let d2 = seq![a, b, c] + name;
    lemma_decode_encode(d2);
    let t2 = d2.skip(3);
    assert(t2 =~= name);
    lemma_nul_pos(t2, name.len() as int);
    assert(cstr_bytes(t2) =~= name);
}

/// Decode the payload of a DEVICE_INFO_RSP frame.
pub fn device_info_from_payload(payload: &[u8]) -> (r: Result<DeviceInfo, ProtocolError>)
    ensures
        match r {
            Ok(info) => device_info_spec(payload@) == Ok::<DeviceInfoView, ProtocolError>(info@),
            Err(e) => device_info_spec(payload@) == Err::<DeviceInfoView, ProtocolError>(e),
        },
{
    let decoded = decode_7bit(payload);
    let n = decoded.len();
    if n < 3 {
        return Err(ProtocolError::DeviceInfoTooShort);
    }
    let firmware_major = decoded[0];
    let firmware_minor = decoded[1];
    let firmware_patch = decoded[2];
    let device_name = cstr_from_bytes(&decoded.as_slice()[3..n]);
    assert(decoded@.subrange(3, n as int) =~= decoded@.skip(3));
    Ok(DeviceInfo { firmware_major, firmware_minor, firmware_patch, device_name })
}

/// Decode the payload of a SETTINGS_RSP frame.
pub fn settings_from_payload(payload: &[u8]) -> (r: Result<DeviceSettings, ProtocolError>)
    ensures
        match r {
            Ok(s) => decode_spec(payload@).len() >= DEVICE_SETTINGS_SIZE && s@ == read_settings(
                decode_spec(payload@),
            ),
            Err(e) => decode_spec(payload@).len() < DEVICE_SETTINGS_SIZE && e
                == ProtocolError::SettingsTooShort { len: decode_spec(payload@).len() as usize },
        },
{
    let decoded = decode_7bit(payload);
    if decoded.len() < DEVICE_SETTINGS_SIZE {
        return Err(ProtocolError::SettingsTooShort { len: decoded.len() });
    }
    Ok(deserialise_settings(decoded.as_slice()))
}

/// Decode the payload of a BANK_DATA_RSP frame.
pub fn bank_from_payload(payload: &[u8]) -> (r: Result<Bank, ProtocolError>)
    ensures
        match r {
            Ok(b) => decode_spec(payload@).len() >= BANK_SIZE && b@ == read_bank(
                decode_spec(payload@),
            ),
            Err(e) => decode_spec(payload@).len() < BANK_SIZE && e == ProtocolError::BankTooShort {
                len: decode_spec(payload@).len() as usize,
            },
        },
{
    let decoded = decode_7bit(payload);
    if decoded.len() < BANK_SIZE {
        return Err(ProtocolError::BankTooShort { len: decoded.len() });
    }
    proof {
        lemma_bank_readable_size(decoded@);
    }
    Ok(deserialise_bank(decoded.as_slice()))
}

/// Check the payload of a SET_BANK_ACK frame: a second byte that is not
/// zero is the device's refusal status.
pub fn check_bank_ack(payload: &[u8]) -> (r: Result<(), ProtocolError>)
    ensures
        r == (if payload@.len() >= 2 && payload@[1] != 0 {
            Err::<(), ProtocolError>(ProtocolError::BankRejected { status: payload@[1] })
        } else {
            Ok::<(), ProtocolError>(())
        }),
{
    if payload.len() >= 2 && payload[1] != 0 {
        return Err(ProtocolError::BankRejected { status: payload[1] });
    }
    Ok(())
}

/// Settings sent with SET_SETTINGS, when the device hands the same bytes
/// back in a SETTINGS_RSP, decode to the settings the device keeps.
pub proof fn lemma_settings_payload_round_trip(s: SettingsView)
    requires
        s.relay_contact.len() == 2,
    ensures
        decode_spec(encode_spec(settings_bytes(s))) == settings_bytes(s),
        settings_bytes(s).len() >= DEVICE_SETTINGS_SIZE,
        read_settings(settings_bytes(s)) == stored_settings(s),
{
    lemma_decode_encode(settings_bytes(s));
    lemma_settings_serialise_deserialise(s, Seq::<u8>::empty());
    assert(settings_bytes(s) + Seq::<u8>::empty() =~= settings_bytes(s));
}

/// A bank sent with SET_BANK (after its two address bytes), when the device
/// hands the same bank bytes back in a BANK_DATA_RSP, decodes to the bank
/// the device keeps; a bank that fits comes back unchanged.
pub proof fn lemma_bank_payload_round_trip(b: BankView)
    requires
        bank_wf(b),
    ensures
        decode_spec(encode_spec(bank_bytes(b))).len() >= BANK_SIZE,
        read_bank(decode_spec(encode_spec(bank_bytes(b)))) == stored_bank(b),
        bank_fits(b) ==> read_bank(decode_spec(encode_spec(bank_bytes(b)))) == b,
{
    lemma_decode_encode(bank_bytes(b));
    lemma_bank_bytes_len(b);
    lemma_bank_serialise_deserialise(b, Seq::<u8>::empty());
    assert(bank_bytes(b) + Seq::<u8>::empty() =~= bank_bytes(b));
}

// ── Chunked transfers from the device ────────────────────────────────────────

/// Number of chunks in `s` whose index is at most `key`.
pub open spec fn count_le(s: Seq<(usize, Seq<u8>)>, key: usize) -> nat
    decreases s.len(),
{
    if s.len() == 0 {
        0
    } else {
        count_le(s.drop_last(), key) + if s.last().0 <= key {
            1nat
        } else {
            0nat
        }
    }
}

/// `s` with chunk `c` put after every chunk whose index is at most that of
/// `c`: one step of a stable insertion sort by index.
pub open spec fn insert_chunk_spec(s: Seq<(usize, Seq<u8>)>, c: (usize, Seq<u8>)) -> Seq<
    (usize, Seq<u8>),
> {
    s.insert(count_le(s, c.0) as int, c)
}

/// The chunks of `s` are in order of their index.
pub open spec fn chunks_sorted(s: Seq<(usize, Seq<u8>)>) -> bool {
    forall|i: int, j: int| 0 <= i <= j < s.len() ==> #[trigger] s[i].0 <= #[trigger] s[j].0
}

/// The data of the chunks of `s`, one after the other.
pub open spec fn chunks_concat(s: Seq<(usize, Seq<u8>)>) -> Seq<u8>
    decreases s.len(),
{
    if s.len() == 0 {
        seq![]
    } else {
        chunks_concat(s.drop_last()) + s.last().1
    }
}

proof fn lemma_count_le_bound(s: Seq<(usize, Seq<u8>)>, key: usize)
    ensures
        count_le(s, key) <= s.len(),
    decreases s.len(),
{
    if s.len() > 0 {
        lemma_count_le_bound(s.drop_last(), key);
    }
}

/// In a sorted list, the chunks with index at most `key` come first.
proof fn lemma_count_le_sorted(s: Seq<(usize, Seq<u8>)>, key: usize)
    requires
        chunks_sorted(s),
    ensures
        count_le(s, key) <= s.len(),
        forall|i: int| 0 <= i < count_le(s, key) ==> #[trigger] s[i].0 <= key,
        forall|i: int| count_le(s, key) <= i < s.len() ==> #[trigger] s[i].0 > key,
    decreases s.len(),
{
    if s.len() > 0 {
        let p = s.drop_last();
        assert(chunks_sorted(p)) by {
            assert forall|i: int, j: int| 0 <= i <= j < p.len() implies #[trigger] p[i].0
                <= #[trigger] p[j].0 by {
                assert(s[i].0 <= s[j].0);
            }
        }
        lemma_count_le_sorted(p, key);
        let n = s.len() - 1;
        if s.last().0 <= key {
            if count_le(p, key) < p.len() {
                let c = count_le(p, key) as int;
                assert(s[c].0 <= s[n].0);
                assert(p[c] == s[c]);
            }
            assert forall|i: int| 0 <= i < count_le(s, key) implies #[trigger] s[i].0 <= key by {
                assert(s[i].0 <= s[n].0);
            }
        } else {
            assert forall|i: int| 0 <= i < count_le(s, key) implies #[trigger] s[i].0 <= key by {
                assert(p[i] == s[i]);
            }
            assert forall|i: int| count_le(s, key) <= i < s.len() implies #[trigger] s[i].0
                > key by {
                if i < n {
                    assert(p[i] == s[i]);
                }
            }
        }
    }
}

/// Inserting a chunk keeps a list in order of chunk index, and puts the new
/// chunk after every chunk of the same index received before it.
pub proof fn lemma_insert_chunk_sorted(s: Seq<(usize, Seq<u8>)>, c: (usize, Seq<u8>))
    requires
        chunks_sorted(s),
    ensures
        chunks_sorted(insert_chunk_spec(s, c)),
        insert_chunk_spec(s, c).len() == s.len() + 1,
        forall|i: int|
            0 <= i < s.len() && #[trigger] s[i].0 <= c.0 ==> insert_chunk_spec(s, c)[i] == s[i],
{
    lemma_count_le_sorted(s, c.0);
    let p = count_le(s, c.0) as int;
    let t = insert_chunk_spec(s, c);
    s.insert_ensures(p, c);
    assert forall|i: int, j: int| 0 <= i <= j < t.len() implies #[trigger] t[i].0
        <= #[trigger] t[j].0 by {
        if i < p && j < p {
            assert(s[i].0 <= s[j].0);
        } else if i < p && j == p {
        } else if i < p {
            assert(t[j] == s[j - 1]);
        } else if i == p && j > p {
            assert(t[j] == s[j - 1]);
        } else if i > p {
            assert(t[i] == s[i - 1]);
            assert(t[j] == s[j - 1]);
            assert(s[i - 1].0 <= s[j - 1].0);
        }
    }
    assert forall|i: int| 0 <= i < s.len() && #[trigger] s[i].0 <= c.0 implies t[i] == s[i] by {
        if i >= p {
            assert(s[i].0 > c.0);
        }
    }
}

/// Chunks received from the device, kept in order of their index (chunks
/// of the same index in the order they came).
pub struct ChunkList {
    pub chunks: Vec<(usize, Vec<u8>)>,
}

impl View for ChunkList {
    type V = Seq<(usize, Seq<u8>)>;

    open spec fn view(&self) -> Seq<(usize, Seq<u8>)> {
        self.chunks@.map_values(|c: (usize, Vec<u8>)| (c.0, c.1@))
    }
}

impl ChunkList {
    /// The chunks are in order of their index.
    pub open spec fn wf(&self) -> bool {
        chunks_sorted(self@)
    }

    pub fn new() -> (r: Self)
        ensures
            r@ == Seq::<(usize, Seq<u8>)>::empty(),
            r.wf(),
    {
        let r = ChunkList { chunks: Vec::new() };
        assert(r@ =~= Seq::<(usize, Seq<u8>)>::empty());
        r
    }

    /// Add chunk number `index` holding `data`.
    pub fn insert(&mut self, index: usize, data: Vec<u8>)
        ensures
            final(self)@ == insert_chunk_spec(old(self)@, (index, data@)),
            old(self).wf() ==> final(self).wf(),
    {
        let ghost v = self@;
        let n = self.chunks.len();
        let mut cnt: usize = 0;
        let mut i: usize = 0;
        while i < n
            invariant
                n == self.chunks@.len(),
                v == self@,
                i <= n,
                cnt <= i,
                cnt == count_le(v.take(i as int), index),
            decreases n - i,
        {
            assert(v.take(i + 1).drop_last() =~= v.take(i as int));
            if self.chunks[i].0 <= index {
                cnt = cnt + 1;
            }
            i = i + 1;
        }
        assert(v.take(n as int) =~= v);
        let ghost dv = data@;
        self.chunks.insert(cnt, (index, data));
        assert(final(self)@ =~= insert_chunk_spec(v, (index, dv)));
        proof {
            if chunks_sorted(v) {
                lemma_insert_chunk_sorted(v, (index, dv));
            }
        }
    }

    /// The data of every chunk, in list order.
    pub fn assemble(&self) -> (r: Vec<u8>)
        ensures
            r@ == chunks_concat(self@),
    {
        let ghost v = self@;
        let mut out: Vec<u8> = Vec::new();
        let n = self.chunks.len();
        let mut i: usize = 0;
        while i < n
            invariant
                n == self.chunks@.len(),
                v == self@,
                i <= n,
                out@ == chunks_concat(v.take(i as int)),
            decreases n - i,
        {
            let data = &self.chunks[i].1;
            let ghost before = out@;
            let m = data.len();
            let mut j: usize = 0;
            while j < m
                invariant
                    m == data@.len(),
                    j <= m,
                    out@ == before + data@.take(j as int),
                decreases m - j,
            {
                out.push(data[j]);
                j = j + 1;
                assert(out@ =~= before + data@.take(j as int));
            }
            assert(data@.take(m as int) =~= data@);
            assert(v.take(i + 1).drop_last() =~= v.take(i as int));
            i = i + 1;
        }
        assert(v.take(n as int) =~= v);
        out
    }
}

/// Decoded data of a chunk frame's payload: everything after the chunk
/// index and chunk count.
fn chunk_data(payload: &[u8]) -> (d: Vec<u8>)
    requires
        payload@.len() >= 2,
    ensures
        d@ == decode_spec(payload@.skip(2)),
{
    let n = payload.len();
    let rest = &payload[2..n];
    assert(rest@ =~= payload@.skip(2));
    decode_7bit(rest)
}

/// Name of the stand-in for a bank that an all-banks transfer left out.
pub open spec fn placeholder_name(i: int) -> Seq<char> {
    seq!['B', 'a', 'n', 'k', ' '] + decimal((i + 1) as nat)
}

/// The default bank named "Bank N" (N counted from one).
pub open spec fn placeholder_bank(i: int) -> BankView {
    BankView { name: placeholder_name(i), ..default_bank() }
}

/// The stand-in banks of an all-banks transfer have different names: the
/// name of bank `i` is "Bank " followed by the decimal digits of `i + 1`.
pub proof fn lemma_placeholder_names(i: int, j: int)
    requires
        0 <= i,
        0 <= j,
    ensures
        placeholder_name(i).take(5) == seq!['B', 'a', 'n', 'k', ' '],
        decimal_value(placeholder_name(i).skip(5)) == i + 1,
        placeholder_name(i) == placeholder_name(j) ==> i == j,
{
    let a = placeholder_name(i);
    let b = placeholder_name(j);
    assert(a.take(5) =~= seq!['B', 'a', 'n', 'k', ' ']);
    assert(a.skip(5) =~= decimal((i + 1) as nat));
    assert(b.skip(5) =~= decimal((j + 1) as nat));
    lemma_decimal((i + 1) as nat);
    if a == b {
        lemma_decimal_injective((i + 1) as nat, (j + 1) as nat);
    }
}

fn make_placeholder_bank(i: usize) -> (b: Bank)
    requires
        i < 128,
    ensures
        b@ == placeholder_bank(i as int),
{
    let mut b = Bank::default();
    let mut name = String::from_str("Bank ");
    proof {
        reveal_strlit("Bank ");
        assert(name@ =~= seq!['B', 'a', 'n', 'k', ' ']);
    }
    push_decimal(&mut name, i + 1);
    b.name = name;
    assert(b@.presets == default_bank().presets);
    assert(b@ == placeholder_bank(i as int));
    b
}

/// Bank `i` of the raw bytes of an all-banks transfer: the bank stored
/// there when the bytes reach that far, else a named default bank.
pub open spec fn bank_at(raw: Seq<u8>, i: int) -> BankView {
    if BANK_SIZE * (i + 1) <= raw.len() {
        read_bank(raw.subrange(BANK_SIZE * i, raw.len() as int))
    } else {
        placeholder_bank(i)
    }
}

/// The banks of an all-banks transfer: 128 of them once the device has
/// announced a chunk count, else as many whole banks as arrived.
pub open spec fn banks_from_raw(raw: Seq<u8>, total_chunks: int) -> Seq<BankView> {
    let n: int = if total_chunks > 0 { 128 } else { raw.len() as int / BANK_SIZE as int };
    Seq::new(n as nat, |i: int| bank_at(raw, i))
}

/// Models of a list of banks.
pub open spec fn banks_view(v: Seq<Bank>) -> Seq<BankView> {
    v.map_values(|b: Bank| b@)
}

/// Cut the raw bytes of an all-banks transfer into banks.
pub fn banks_from_bytes(raw: &[u8], total_chunks: usize) -> (banks: Vec<Bank>)
    ensures
        banks_view(banks@) == banks_from_raw(raw@, total_chunks as int),
{
    let len = raw.len();
    let n: usize = if total_chunks > 0 { 128 } else { len / BANK_SIZE };
    let mut banks: Vec<Bank> = Vec::new();
    let mut i: usize = 0;
    while i < n
        invariant
            len == raw@.len(),
            n == (if total_chunks > 0 { 128 } else { len / BANK_SIZE }),
            i <= n,
            banks@.len() == i,
            forall|j: int| 0 <= j < i ==> #[trigger] banks@[j]@ == bank_at(raw@, j),
        decreases n - i,
    {
        let off = i * BANK_SIZE;
        if off <= len && len - off >= BANK_SIZE {
            let part = &raw[off..len];
            proof {
                lemma_bank_readable_size(part@);
            }
            banks.push(deserialise_bank(part));
        } else {
            banks.push(make_placeholder_bank(i));
        }
        i = i + 1;
    }
    assert(banks_view(banks@) =~= banks_from_raw(raw@, total_chunks as int));
    banks
}

/// Collects the chunks of an all-banks transfer.
pub struct AllBanksCollector {
    pub chunks: ChunkList,
    pub total_chunks: usize,
}

impl AllBanksCollector {
    pub fn new() -> (r: Self)
        ensures
            r.chunks@ == Seq::<(usize, Seq<u8>)>::empty(),
            r.chunks.wf(),
            r.total_chunks == 0,
    {
        AllBanksCollector { chunks: ChunkList::new(), total_chunks: 0 }
    }

    /// The frames this transfer waits for: its chunks and its end.
    pub fn accepts(frame: &SysexFrame) -> (b: bool)
        ensures
            b == (frame.cmd == cmd::ALL_BANKS_CHUNK || frame.cmd == cmd::ALL_BANKS_DONE),
    {
        frame.cmd == cmd::ALL_BANKS_CHUNK || frame.cmd == cmd::ALL_BANKS_DONE
    }

    /// Take in one accepted frame; `true` when the transfer is over. A chunk
    /// payload is `[chunk index][chunk count][encoded data…]`; shorter
    /// payloads are skipped.
    pub fn on_frame(&mut self, frame: &SysexFrame) -> (done: bool)
        ensures
            done == (frame.cmd == cmd::ALL_BANKS_DONE),
            done || frame.payload@.len() < 2 ==> final(self).chunks@ == old(self).chunks@
                && final(self).total_chunks == old(self).total_chunks,
            !done && frame.payload@.len() >= 2 ==> final(self).chunks@ == insert_chunk_spec(
                old(self).chunks@,
                (frame.payload@[0] as usize, decode_spec(frame.payload@.skip(2))),
            ) && final(self).total_chunks == frame.payload@[1] as usize,
            old(self).chunks.wf() ==> final(self).chunks.wf(),
    {
        if frame.cmd == cmd::ALL_BANKS_DONE {
            return true;
        }
        if frame.payload.len() < 2 {
            return false;
        }
        let chunk_idx = frame.payload[0] as usize;
        self.total_chunks = frame.payload[1] as usize;
        let data = chunk_data(frame.payload.as_slice());
        self.chunks.insert(chunk_idx, data);
        false
    }

    /// The banks that arrived, put together in chunk order.
    pub fn finish(&self) -> (banks: Vec<Bank>)
        ensures
            banks_view(banks@) == banks_from_raw(
                chunks_concat(self.chunks@),
                self.total_chunks as int,
            ),
    {
        let raw = self.chunks.assemble();
        banks_from_bytes(raw.as_slice(), self.total_chunks)
    }
}

/// Collects the chunks of a backup transfer.
pub struct BackupCollector {
    pub chunks: ChunkList,
}

impl BackupCollector {
    pub fn new() -> (r: Self)
        ensures
            r.chunks@ == Seq::<(usize, Seq<u8>)>::empty(),
            r.chunks.wf(),
    {
        BackupCollector { chunks: ChunkList::new() }
    }

    /// The frames this transfer waits for: its chunks.
    pub fn accepts(frame: &SysexFrame) -> (b: bool)
        ensures
            b == (frame.cmd == cmd::BACKUP_CHUNK),
    {
        frame.cmd == cmd::BACKUP_CHUNK
    }

    /// Take in one backup chunk; `true` once the chunk just taken is the
    /// last by its own count. Payloads shorter than two bytes are skipped.
    pub fn on_frame(&mut self, frame: &SysexFrame) -> (done: bool)
        ensures
            frame.payload@.len() < 2 ==> !done && final(self).chunks@ == old(self).chunks@,
            frame.payload@.len() >= 2 ==> final(self).chunks@ == insert_chunk_spec(
                old(self).chunks@,
                (frame.payload@[0] as usize, decode_spec(frame.payload@.skip(2))),
            ) && done == (frame.payload@[0] + 1 >= frame.payload@[1]),
            old(self).chunks.wf() ==> final(self).chunks.wf(),
    {
        if frame.payload.len() < 2 {
            return false;
        }
        let chunk_idx = frame.payload[0] as usize;
        let total = frame.payload[1] as usize;
        let data = chunk_data(frame.payload.as_slice());
        self.chunks.insert(chunk_idx, data);
        chunk_idx + 1 >= total
    }

    /// The backup image: the data of every chunk in chunk order.
    pub fn finish(&self) -> (image: Vec<u8>)
        ensures
            image@ == chunks_concat(self.chunks@),
    {
        self.chunks.assemble()
    }
}

// ── Real-time notifications from the device ──────────────────────────────────

/// A real-time notification that the device sends on its own.
#[derive(Debug, Clone, Copy, PartialEq, Eq, Structural)]
pub enum RtEvent {
    /// The device moved to another bank or page.
    BankChange { profile: u8, bank_index: u8, page: u8 },
    /// A switch's preset was toggled.
    PresetToggle { switch_index: u8, toggle_pos: u8 },
}

/// The real-time notification a frame carries, if any: a bank change needs
/// three payload bytes, a preset toggle two; anything else carries none.
pub open spec fn rt_event_spec(f: crate::midi::sysex::FrameView) -> Option<RtEvent> {
    if f.cmd == cmd::RT_BANK_CHANGE && f.payload.len() >= 3 {
        Some(
            RtEvent::BankChange {
                profile: f.payload[0],
                bank_index: f.payload[1],
                page: f.payload[2],
            },
        )
    } else if f.cmd == cmd::RT_PRESET_TOGGLE && f.payload.len() >= 2 {
        Some(RtEvent::PresetToggle { switch_index: f.payload[0], toggle_pos: f.payload[1] })
    } else {
        None
    }
}

/// Read a real-time notification out of a received frame.
pub fn rt_event(frame: &SysexFrame) -> (e: Option<RtEvent>)
    ensures
        e == rt_event_spec(frame@),
{
    if frame.cmd == cmd::RT_BANK_CHANGE && frame.payload.len() >= 3 {
        Some(
            RtEvent::BankChange {
                profile: frame.payload[0],
                bank_index: frame.payload[1],
                page: frame.payload[2],
            },
        )
    } else if frame.cmd == cmd::RT_PRESET_TOGGLE && frame.payload.len() >= 2 {
        Some(RtEvent::PresetToggle { switch_index: frame.payload[0], toggle_pos: frame.payload[1] })
    } else {
        None
    }
}

} // verus!
