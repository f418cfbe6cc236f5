//! SysEx framing of the editor protocol.
//!
//! A frame is `F0 MFR(3) DEV CMD DIR SEQ LEN(2) payload CHK F7`: the length
//! is sent as two 7-bit halves (high first) and the checksum is the XOR of
//! CMD, DIR, SEQ, both length bytes and every payload byte, masked to 7 bits.
use vstd::prelude::*;
use crate::midi::codec::seven_bit_safe;

pub mod cmd;

verus! {

pub const MFR_0: u8 = 0x00;
pub const MFR_1: u8 = 0x21;
pub const MFR_2: u8 = 0x7F;
pub const DEVICE_ID: u8 = 0x01;

pub const DIR_HOST_TO_DEV: u8 = 0x00;
pub const DIR_DEV_TO_HOST: u8 = 0x01;

/// Bytes of a frame around its payload: F0, MFR(3), DEV, CMD, DIR, SEQ,
/// LEN(2), CHK and F7.
pub const MIN_FRAME_LEN: usize = 12;

/// A parsed SysEx frame.
#[derive(Debug, Clone)]
pub struct SysexFrame {
    pub cmd: u8,
    pub dir: u8,
    pub seq: u8,
    pub payload: Vec<u8>,
}

/// Mathematical model of a [`SysexFrame`].
pub struct FrameView {
    pub cmd: u8,
    pub dir: u8,
    pub seq: u8,
    pub payload: Seq<u8>,
}

impl View for SysexFrame {
    type V = FrameView;

    open spec fn view(&self) -> FrameView {
        FrameView { cmd: self.cmd, dir: self.dir, seq: self.seq, payload: self.payload@ }
    }
}

/// High 7-bit half of a payload length.
pub open spec fn len_hi(plen: int) -> u8 {
    ((plen / 128) % 128) as u8
}

/// Low 7-bit half of a payload length.
pub open spec fn len_lo(plen: int) -> u8 {
    (plen % 128) as u8
}

/// `acc` XOR-ed with every byte of `s`, in order.
pub open spec fn xor_fold(acc: u8, s: Seq<u8>) -> u8
    decreases s.len(),
{
    if s.len() == 0 {
        acc
    } else {
        xor_fold(acc, s.drop_last()) ^ s.last()
    }
}

/// The frame checksum.
pub open spec fn checksum_spec(cmd: u8, dir: u8, seq: u8, plen: int, payload: Seq<u8>) -> u8 {
    xor_fold(cmd ^ dir ^ (seq & 0x7f) ^ len_hi(plen) ^ len_lo(plen), payload) & 0x7f
}

/// The bytes of the frame that carries `payload`.
pub open spec fn frame_spec(cmd: u8, dir: u8, seq: u8, payload: Seq<u8>) -> Seq<u8> {
    seq![
        0xF0u8,
        MFR_0,
        MFR_1,
        MFR_2,
        DEVICE_ID,
        cmd,
        dir,
        seq & 0x7f,
        len_hi(payload.len() as int),
        len_lo(payload.len() as int),
    ] + payload + seq![checksum_spec(cmd, dir, seq, payload.len() as int, payload), 0xF7u8]
}

/// Payload length announced by the two length bytes of `f`.
pub open spec fn frame_plen(f: Seq<u8>) -> int {
    ((f[8] & 0x7f) as int) * 128 + ((f[9] & 0x7f) as int)
}

/// `f` is a well-formed frame of this device with a correct checksum.
pub open spec fn frame_ok(f: Seq<u8>) -> bool {
    &&& f.len() >= MIN_FRAME_LEN
    &&& f[0] == 0xF0
    &&& f.last() == 0xF7
    &&& f[1] == MFR_0
    &&& f[2] == MFR_1
    &&& f[3] == MFR_2
    &&& f[4] == DEVICE_ID
    &&& f.len() == MIN_FRAME_LEN + frame_plen(f)
    &&& checksum_spec(f[5], f[6], f[7], frame_plen(f), f.subrange(10, 10 + frame_plen(f)))
        == f[10 + frame_plen(f)]
}

/// The fields of a well-formed frame `f`.
pub open spec fn frame_parse(f: Seq<u8>) -> FrameView {
    FrameView { cmd: f[5], dir: f[6], seq: f[7], payload: f.subrange(10, 10 + frame_plen(f)) }
}

/// What [`parse_frame`] gives back for the bytes `f`.
pub open spec fn parse_spec(f: Seq<u8>) -> Option<FrameView> {
    if frame_ok(f) {
        Some(frame_parse(f))
    } else {
        None
    }
}

/// Build a complete SysEx frame. Payload must already be 7-bit safe.
pub fn build_frame(cmd: u8, dir: u8, seq: u8, payload: &[u8]) -> (out: Vec<u8>)
    ensures
        out@ == frame_spec(cmd, dir, seq, payload@),
        out@.len() == payload@.len() + 12,
        out@[8] == ((payload@.len() / 128) % 128) as u8,
        out@[9] == (payload@.len() % 128) as u8,
        out@[out@.len() - 2] == xor_fold(0, out@.subrange(5, out@.len() - 2)) & 0x7f,
{
    let plen = payload.len();
    let mut out: Vec<u8> = Vec::new();
    out.push(0xF0);
    out.push(MFR_0);
    out.push(MFR_1);
    out.push(MFR_2);
    out.push(DEVICE_ID);
    out.push(cmd);
    out.push(dir);
    out.push(seq & 0x7F);
    proof {
        lemma_len_bytes(plen);
    }
    out.push(((plen >> 7) & 0x7F) as u8);
    out.push((plen & 0x7F) as u8);
    let ghost head = out@;
    let mut i: usize = 0;
    while i < plen
        invariant
            plen == payload@.len(),
            i <= plen,
            out@ == head + payload@.take(i as int),
        decreases plen - i,
    {
        out.push(payload[i]);
        i = i + 1;
        assert(payload@.take(i as int) =~= payload@.take(i - 1).push(payload@[i - 1]));
    }
    assert(payload@.take(plen as int) =~= payload@);
    let chk = compute_checksum(cmd, dir, seq & 0x7F, plen, payload);
    proof {
        assert(seq & 0x7f & 0x7f == seq & 0x7f) by (bit_vector);
    }
    out.push(chk);
    out.push(0xF7);
    assert(out@ =~= frame_spec(cmd, dir, seq, payload@));
    proof {
        lemma_frame_checksum_byte(cmd, dir, seq, payload@);
    }
    out
}

proof fn lemma_len_bytes(plen: usize)
    ensures
        ((plen >> 7) & 0x7f) as u8 == len_hi(plen as int),
        (plen & 0x7f) as u8 == len_lo(plen as int),
{
    assert((plen >> 7) & 0x7f == (plen / 128) % 128) by (bit_vector);
    assert(plen & 0x7f == plen % 128) by (bit_vector);
}

/// Parse a frame received from the device; `None` when any byte of the
/// framing, the announced length or the checksum is wrong.
pub fn parse_frame(frame: &[u8]) -> (res: Option<SysexFrame>)
    ensures
        match res {
            Some(f) => frame_ok(frame@) && f@ == frame_parse(frame@),
            None => !frame_ok(frame@),
        },
{
    let n = frame.len();
    if n < MIN_FRAME_LEN {
        return None;
    }
    if frame[0] != 0xF0 || frame[n - 1] != 0xF7 {
        return None;
    }
    if frame[1] != MFR_0 || frame[2] != MFR_1 || frame[3] != MFR_2 || frame[4] != DEVICE_ID {
        return None;
    }
    let cmd = frame[5];
    let dir = frame[6];
    let seq = frame[7];
    let b8 = frame[8];
    let b9 = frame[9];
    let plen: usize = (((b8 & 0x7F) as usize) << 7) | ((b9 & 0x7F) as usize);
    proof {
        let h = b8 & 0x7f;
        let l = b9 & 0x7f;
        assert(b8 & 0x7f <= 0x7f && b9 & 0x7f <= 0x7f) by (bit_vector);
        assert((((h as usize) << 7) | (l as usize)) == (h as usize) * 128 + (l as usize))
            by (bit_vector)
            requires
                h <= 0x7f,
                l <= 0x7f,
        ;
        assert(plen == frame_plen(frame@));
    }
    if n != MIN_FRAME_LEN + plen {
        return None;
    }
    let mut payload: Vec<u8> = Vec::new();
    let mut i: usize = 0;
    while i < plen
        invariant
            n == frame@.len(),
            n == MIN_FRAME_LEN + plen,
            i <= plen,
            payload@ == frame@.subrange(10, 10 + i),
        decreases plen - i,
    {
        payload.push(frame[10 + i]);
        i = i + 1;
        assert(payload@ =~= frame@.subrange(10, 10 + i));
    }
    let chk = compute_checksum(cmd, dir, seq, plen, payload.as_slice());
    if chk != frame[10 + plen] {
        return None;
    }
    Some(SysexFrame { cmd, dir, seq, payload })
}

fn compute_checksum(cmd: u8, dir: u8, seq: u8, plen: usize, payload: &[u8]) -> (chk: u8)
    ensures
        chk == checksum_spec(cmd, dir, seq, plen as int, payload@),
{
    proof {
        lemma_len_bytes(plen);
    }
    let mut chk = cmd ^ dir ^ (seq & 0x7F) ^ (((plen >> 7) & 0x7F) as u8) ^ ((plen & 0x7F) as u8);
    let ghost head = chk;
    let n = payload.len();
    let mut i: usize = 0;
    while i < n
        invariant
            n == payload@.len(),
            i <= n,
            chk == xor_fold(head, payload@.take(i as int)),
        decreases n - i,
    {
        chk = chk ^ payload[i];
        i = i + 1;
        assert(payload@.take(i as int).drop_last() =~= payload@.take(i - 1));
    }
    assert(payload@.take(n as int) =~= payload@);
    chk & 0x7F
}

/// A frame built by [`build_frame`] with a payload shorter than 2^14 bytes
/// parses back to its command, direction, 7-bit sequence number and payload.
pub proof fn lemma_parse_build(cmd: u8, dir: u8, seq: u8, payload: Seq<u8>)
    requires
        payload.len() < 0x4000,
    ensures
        parse_spec(frame_spec(cmd, dir, seq, payload)) == Some(
            FrameView { cmd, dir, seq: seq & 0x7f, payload },
        ),
{
    let f = frame_spec(cmd, dir, seq, payload);
    let n = payload.len() as int;
    let hi = len_hi(n);
    let lo = len_lo(n);
    assert(hi < 128 && lo < 128);
    assert(hi & 0x7f == hi && lo & 0x7f == lo) by (bit_vector)
        requires
            hi < 128,
            lo < 128,
    ;
    assert(f[8] == hi && f[9] == lo);
    assert(frame_plen(f) == n);
    assert(f.subrange(10, 10 + n) =~= payload);
    assert(seq & 0x7f & 0x7f == seq & 0x7f) by (bit_vector);
    assert(frame_ok(f));
    assert(frame_parse(f) == FrameView { cmd, dir, seq: seq & 0x7f, payload });
}

/// With a 7-bit command, direction and payload, every byte of a built frame
/// between the opening F0 and the closing F7 is 7-bit safe.
pub proof fn lemma_build_seven_bit_safe(cmd: u8, dir: u8, seq: u8, payload: Seq<u8>)
    requires
        cmd <= 0x7f,
        dir <= 0x7f,
        seven_bit_safe(payload),
    ensures
        ({
            let f = frame_spec(cmd, dir, seq, payload);
            seven_bit_safe(f.subrange(1, f.len() - 1))
        }),
{
    let f = frame_spec(cmd, dir, seq, payload);
    let n = payload.len() as int;
    let c = checksum_spec(cmd, dir, seq, n, payload);
    let x = xor_fold(cmd ^ dir ^ (seq & 0x7f) ^ len_hi(n) ^ len_lo(n), payload);
    assert(x & 0x7f <= 0x7f) by (bit_vector);
    assert(seq & 0x7f <= 0x7f) by (bit_vector);
    let g = f.subrange(1, f.len() - 1);
    assert forall|i: int| 0 <= i < g.len() implies #[trigger] g[i] <= 0x7f by {
        let k = i + 1;
        if 10 <= k < 10 + n {
            assert(f[k] == payload[k - 10]);
        }
    }
}

/// A frame whose checksum byte was altered no longer parses.
pub proof fn lemma_bad_checksum_rejected(f: Seq<u8>, b: u8)
    requires
        frame_ok(f),
        b != f[f.len() - 2],
    ensures
        parse_spec(f.update(f.len() - 2, b)) is None,
{
    let g = f.update(f.len() - 2, b);
    assert(g[8] == f[8] && g[9] == f[9]);
    assert(g.subrange(10, 10 + frame_plen(f)) =~= f.subrange(10, 10 + frame_plen(f)));
}

/// XOR-ing the starting value with `d` XORs the fold with `d`.
proof fn lemma_xor_fold_start(a: u8, d: u8, s: Seq<u8>)
    ensures
        xor_fold(a ^ d, s) == xor_fold(a, s) ^ d,
    decreases s.len(),
{
    if s.len() > 0 {
        lemma_xor_fold_start(a, d, s.drop_last());
        let x = xor_fold(a, s.drop_last());
        let l = s.last();
        assert((x ^ d) ^ l == (x ^ l) ^ d) by (bit_vector);
    }
}

/// XOR-ing one byte of the sequence with `d` XORs the fold with `d`.
proof fn lemma_xor_fold_update(a: u8, s: Seq<u8>, j: int, d: u8)
    requires
        0 <= j < s.len(),
    ensures
        xor_fold(a, s.update(j, s[j] ^ d)) == xor_fold(a, s) ^ d,
    decreases s.len(),
{
    let t = s.update(j, s[j] ^ d);
    let x = xor_fold(a, s.drop_last());
    if j == s.len() - 1 {
        assert(t.drop_last() =~= s.drop_last());
        let l = s.last();
        assert(x ^ (l ^ d) == (x ^ l) ^ d) by (bit_vector);
    } else {
        assert(t.drop_last() =~= s.drop_last().update(j, s[j] ^ d));
        lemma_xor_fold_update(a, s.drop_last(), j, d);
        let l = s.last();
        assert((x ^ d) ^ l == (x ^ l) ^ d) by (bit_vector);
    }
}

/// A change to byte `i` of a frame with an `n`-byte payload that the frame's
/// own checks can see: any change to the start, manufacturer, device or end
/// byte, and a change to the low 7 bits of the command, direction, sequence
/// number, a length byte, a payload byte or the checksum.
pub open spec fn detectable_change(n: int, i: int, d: u8) -> bool {
    ||| (0 <= i < 5 || i == 11 + n) && d != 0
    ||| 5 <= i <= 10 + n && d & 0x7f != 0
}

/// A frame built by [`build_frame`] with a payload shorter than 2^14 bytes,
/// with any one byte changed in a way its checks can see, no longer parses.
pub proof fn lemma_corrupted_frame_rejected(
    cmd: u8,
    dir: u8,
    seq: u8,
    payload: Seq<u8>,
    i: int,
    d: u8,
)
    requires
        payload.len() < 0x4000,
        detectable_change(payload.len() as int, i, d),
    ensures
        ({
            let f = frame_spec(cmd, dir, seq, payload);
            parse_spec(f.update(i, f[i] ^ d)) is None
        }),
{
    let f = frame_spec(cmd, dir, seq, payload);
    let n = payload.len() as int;
    let g = f.update(i, f[i] ^ d);
    lemma_parse_build(cmd, dir, seq, payload);
    assert(frame_ok(f));
    assert(frame_plen(f) == n);
    let x = f[i];
    assert(d != 0 ==> x ^ d != x) by (bit_vector);
    assert(d & 0x7f != 0 ==> (x ^ d) & 0x7f != x & 0x7f) by (bit_vector);
    if i < 5 || i == 11 + n {
        assert(g[i] != f[i]);
        assert(!frame_ok(g));
    } else if i == 8 || i == 9 {
        let h = f[8];
        let l = f[9];
        let h2 = g[8];
        let l2 = g[9];
        assert(h & 0x7f <= 0x7f && l & 0x7f <= 0x7f && h2 & 0x7f <= 0x7f && l2 & 0x7f <= 0x7f)
            by (bit_vector);
        assert((h2 & 0x7f) != (h & 0x7f) || (l2 & 0x7f) != (l & 0x7f));
        assert(frame_plen(g) != frame_plen(f));
        assert(!frame_ok(g));
    } else {
        assert(g[8] == f[8] && g[9] == f[9]);
        assert(frame_plen(g) == n);
        let hf = f[5] ^ f[6] ^ (f[7] & 0x7f) ^ len_hi(n) ^ len_lo(n);
        let hg = g[5] ^ g[6] ^ (g[7] & 0x7f) ^ len_hi(n) ^ len_lo(n);
        let pf = f.subrange(10, 10 + n);
        let pg = g.subrange(10, 10 + n);
        let stored = f[10 + n];
        assert(xor_fold(hf, pf) & 0x7f == stored);
        let c5 = f[5];
        let c6 = f[6];
        let c7 = f[7];
        let hi = len_hi(n);
        let lo = len_lo(n);
        if i == 5 {
            assert(hg == hf ^ d) by {
                assert(((c5 ^ d) ^ c6 ^ (c7 & 0x7f) ^ hi ^ lo) == (c5 ^ c6 ^ (c7 & 0x7f) ^ hi ^ lo)
                    ^ d) by (bit_vector);
            }
            assert(pg =~= pf);
            lemma_xor_fold_start(hf, d, pf);
        } else if i == 6 {
            assert(hg == hf ^ d) by {
                assert((c5 ^ (c6 ^ d) ^ (c7 & 0x7f) ^ hi ^ lo) == (c5 ^ c6 ^ (c7 & 0x7f) ^ hi ^ lo)
                    ^ d) by (bit_vector);
            }
            assert(pg =~= pf);
            lemma_xor_fold_start(hf, d, pf);
        } else if i == 7 {
            let e = d & 0x7f;
            assert(hg == hf ^ e) by {
                assert((c5 ^ c6 ^ ((c7 ^ d) & 0x7f) ^ hi ^ lo) == (c5 ^ c6 ^ (c7 & 0x7f) ^ hi ^ lo)
                    ^ (d & 0x7f)) by (bit_vector);
            }
            assert(e & 0x7f != 0) by (bit_vector)
                requires
                    e == d & 0x7f,
                    d & 0x7f != 0,
            ;
            assert(pg =~= pf);
            lemma_xor_fold_start(hf, e, pf);
            let y = xor_fold(hf, pf);
            assert((y ^ e) & 0x7f != y & 0x7f) by (bit_vector)
                requires
                    e & 0x7f != 0,
            ;
        } else if i < 10 + n {
            assert(hg == hf);
            assert(pg =~= pf.update(i - 10, pf[i - 10] ^ d));
            lemma_xor_fold_update(hf, pf, i - 10, d);
        } else {
            assert(hg == hf);
            assert(pg =~= pf);
            assert(g[10 + n] == stored ^ d);
        }
        let y = xor_fold(hf, pf);
        assert((y ^ d) & 0x7f != y & 0x7f) by (bit_vector)
            requires
                d & 0x7f != 0,
        ;
        assert(!frame_ok(g));
    }
}

/// Folding a concatenation folds the second part from where the first ended.
proof fn lemma_xor_fold_concat(a: u8, s: Seq<u8>, t: Seq<u8>)
    ensures
        xor_fold(a, s + t) == xor_fold(xor_fold(a, s), t),
    decreases t.len(),
{
    if t.len() == 0 {
        assert(s + t =~= s);
    } else {
        lemma_xor_fold_concat(a, s, t.drop_last());
        assert((s + t).drop_last() =~= s + t.drop_last());
        assert((s + t).last() == t.last());
    }
}

/// The checksum byte over the five header bytes after the device id and
/// the payload: the XOR of all of them, masked to 7 bits. The high bits of
/// the bytes make no difference.
proof fn lemma_checksum_is_xor(c5: u8, c6: u8, c7: u8, c8: u8, c9: u8, payload: Seq<u8>)
    ensures
        xor_fold(0, seq![c5, c6, c7, c8, c9] + payload) & 0x7f == xor_fold(
            c5 ^ c6 ^ (c7 & 0x7f) ^ (c8 & 0x7f) ^ (c9 & 0x7f),
            payload,
        ) & 0x7f,
{
    let h = seq![c5, c6, c7, c8, c9];
    lemma_xor_fold_concat(0, h, payload);
    reveal_with_fuel(xor_fold, 6);
    assert(h.drop_last().drop_last().drop_last().drop_last().drop_last() =~= Seq::<u8>::empty());
    let raw = xor_fold(0, h);
    assert(raw == (((((0u8 ^ c5) ^ c6) ^ c7) ^ c8) ^ c9)) by {
        assert(h.drop_last() =~= seq![c5, c6, c7, c8]);
        assert(h.drop_last().drop_last() =~= seq![c5, c6, c7]);
        assert(h.drop_last().drop_last().drop_last() =~= seq![c5, c6]);
        assert(h.drop_last().drop_last().drop_last().drop_last() =~= seq![c5]);
    }
    let m = c5 ^ c6 ^ (c7 & 0x7f) ^ (c8 & 0x7f) ^ (c9 & 0x7f);
    let delta = raw ^ m;
    assert(raw == m ^ delta && delta & 0x7f == 0) by (bit_vector)
        requires
            raw == (((((0u8 ^ c5) ^ c6) ^ c7) ^ c8) ^ c9),
            m == c5 ^ c6 ^ (c7 & 0x7f) ^ (c8 & 0x7f) ^ (c9 & 0x7f),
            delta == raw ^ m,
    ;
    lemma_xor_fold_start(m, delta, payload);
    let y = xor_fold(m, payload);
    assert((y ^ delta) & 0x7f == y & 0x7f) by (bit_vector)
        requires
            delta & 0x7f == 0,
    ;
}

/// In every frame that [`build_frame`] writes, the length bytes are the
/// payload length in two 7-bit halves, high half first, and the checksum
/// byte is the XOR of every byte from the command to the last payload byte,
/// masked to 7 bits.
pub proof fn lemma_frame_checksum_byte(cmd: u8, dir: u8, seq: u8, payload: Seq<u8>)
    ensures
        ({
            let f = frame_spec(cmd, dir, seq, payload);
            let n = payload.len() as int;
            &&& f.len() == n + 12
            &&& f[8] == ((n / 128) % 128) as u8
            &&& f[9] == (n % 128) as u8
            &&& f[10 + n] == xor_fold(0, f.subrange(5, 10 + n)) & 0x7f
        }),
{
    let f = frame_spec(cmd, dir, seq, payload);
    let n = payload.len() as int;
    let hi = len_hi(n);
    let lo = len_lo(n);
    assert(hi < 128 && lo < 128);
    assert(hi & 0x7f == hi && lo & 0x7f == lo && seq & 0x7f & 0x7f == seq & 0x7f) by (bit_vector)
        requires
            hi < 128,
            lo < 128,
    ;
    assert(f.subrange(5, 10 + n) =~= seq![cmd, dir, seq & 0x7f, hi, lo] + payload);
    lemma_checksum_is_xor(cmd, dir, seq & 0x7f, hi, lo, payload);
}

/// A byte sequence parses exactly when it starts with F0, ends with F7,
/// carries this device's manufacturer and device bytes, is 12 bytes longer
/// than the payload length its two 7-bit length bytes announce, and its
/// checksum byte is the XOR of every byte from the command to the last
/// payload byte, masked to 7 bits.
pub proof fn lemma_frame_ok_iff(f: Seq<u8>)
    ensures
        frame_ok(f) <==> {
            &&& f.len() >= 12
            &&& f[0] == 0xF0
            &&& f[f.len() - 1] == 0xF7
            &&& f[1] == 0x00
            &&& f[2] == 0x21
            &&& f[3] == 0x7F
            &&& f[4] == 0x01
            &&& f.len() == 12 + ((f[8] & 0x7f) as int) * 128 + ((f[9] & 0x7f) as int)
            &&& f[f.len() - 2] == xor_fold(0, f.subrange(5, f.len() - 2)) & 0x7f
        },
{
    if f.len() >= 12 && f.len() == 12 + frame_plen(f) {
        let n = frame_plen(f);
        let c8 = f[8];
        let c9 = f[9];
        let h = c8 & 0x7f;
        let l = c9 & 0x7f;
        assert(c8 & 0x7f <= 0x7f && c9 & 0x7f <= 0x7f) by (bit_vector);
        assert(len_hi(n) == h && len_lo(n) == l);
        assert(f.subrange(5, 10 + n) =~= seq![f[5], f[6], f[7], f[8], f[9]] + f.subrange(
            10,
            10 + n,
        ));
        lemma_checksum_is_xor(f[5], f[6], f[7], f[8], f[9], f.subrange(10, 10 + n));
        let c7 = f[7];
        assert(c7 & 0x7f == (c7 & 0x7f) & 0x7f) by (bit_vector);
    }
}

} // verus!
