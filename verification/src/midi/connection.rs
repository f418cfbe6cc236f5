//! Reassembly of SysEx frames from the byte stream of a MIDI input port.
//!
//! Bytes from F0 up to and including the next F7 form one message; a new
//! F0 starts over, and bytes outside a message are dropped. Each complete
//! message that parses as a frame of this device is handed on.
use vstd::prelude::*;
use crate::midi::codec::seven_bit_safe;
use crate::midi::sysex::{
    frame_ok, frame_parse, frame_spec, lemma_build_seven_bit_safe, lemma_parse_build, parse_frame,
    FrameView, SysexFrame,
};

verus! {

/// Receiver state: inside a message or not, and the bytes of the message so far.
pub type AssemblerState = (bool, Seq<u8>);

/// One byte through the receiver: the next state, and the message it completes.
pub open spec fn assembler_step(st: AssemblerState, byte: u8) -> (AssemblerState, Option<Seq<u8>>) {
    if byte == 0xF0 {
        ((true, seq![0xF0u8]), None)
    } else if st.0 {
        let b = st.1.push(byte);
        if byte == 0xF7 {
            ((false, seq![]), Some(b))
        } else {
            ((true, b), None)
        }
    } else {
        (st, None)
    }
}

/// The frames that a completed message yields: its parse, when it parses.
pub open spec fn frames_of(m: Option<Seq<u8>>) -> Seq<FrameView> {
    match m {
        Some(f) => if frame_ok(f) {
            seq![frame_parse(f)]
        } else {
            seq![]
        },
        None => seq![],
    }
}

/// The bytes `msg` through the receiver: the final state and every frame
/// completed on the way, in order.
pub open spec fn assembler_run(st: AssemblerState, msg: Seq<u8>) -> (AssemblerState, Seq<FrameView>)
    decreases msg.len(),
{
    if msg.len() == 0 {
        (st, seq![])
    } else {
        let (s1, out1) = assembler_run(st, msg.drop_last());
        let (s2, m) = assembler_step(s1, msg.last());
        (s2, out1 + frames_of(m))
    }
}

/// Gathers SysEx frames out of the bytes that arrive on an input port.
pub struct SysexAssembler {
    pub buf: Vec<u8>,
    pub in_sysex: bool,
}

impl SysexAssembler {
    pub open spec fn state(&self) -> AssemblerState {
        (self.in_sysex, self.buf@)
    }

    pub fn new() -> (r: Self)
        ensures
            r.state() == (false, Seq::<u8>::empty()),
    {
        SysexAssembler { buf: Vec::new(), in_sysex: false }
    }

    /// Take in the bytes of one MIDI message; returns the frames completed.
    pub fn feed(&mut self, msg: &[u8]) -> (frames: Vec<SysexFrame>)
        ensures
            (final(self).state(), frames@.map_values(|f: SysexFrame| f@)) == assembler_run(
                old(self).state(),
                msg@,
            ),
    {
        let ghost st0 = self.state();
        let mut frames: Vec<SysexFrame> = Vec::new();
        let n = msg.len();
        let mut i: usize = 0;
        while i < n
            invariant
                n == msg@.len(),
                i <= n,
                (self.state(), frames@.map_values(|f: SysexFrame| f@)) == assembler_run(
                    st0,
                    msg@.take(i as int),
                ),
            decreases n - i,
        {
            let byte = msg[i];
            let ghost before = frames@.map_values(|f: SysexFrame| f@);
            let ghost s1 = self.state();
            assert(msg@.take(i + 1).drop_last() =~= msg@.take(i as int));
            if byte == 0xF0 {
                self.buf.clear();
                self.buf.push(byte);
                self.in_sysex = true;
                assert(self.buf@ =~= seq![0xF0u8]);
            } else if self.in_sysex {
                self.buf.push(byte);
                if byte == 0xF7 {
                    self.in_sysex = false;
                    let ghost done = self.buf@;
                    match parse_frame(self.buf.as_slice()) {
                        Some(frame) => {
                            frames.push(frame);
                        },
                        None => {},
                    }
                    self.buf.clear();
                    assert(self.buf@ =~= Seq::<u8>::empty());
                    assert(frames@.map_values(|f: SysexFrame| f@) =~= before + frames_of(
                        Some(done),
                    ));
                }
            }
            assert(frames@.map_values(|f: SysexFrame| f@) =~= before + frames_of(
                assembler_step(s1, byte).1,
            ));
            i = i + 1;
        }
        assert(msg@.take(n as int) =~= msg@);
        frames
    }
}

/// While a built frame streams in, the receiver holds exactly the bytes so
/// far and has completed nothing.
proof fn lemma_run_prefix(st: AssemblerState, f: Seq<u8>, k: int)
    requires
        f.len() >= 2,
        f[0] == 0xF0,
        seven_bit_safe(f.subrange(1, f.len() - 1)),
        1 <= k < f.len(),
    ensures
        assembler_run(st, f.take(k)) == ((true, f.take(k)), Seq::<FrameView>::empty()),
    decreases k,
{
    let t = f.take(k);
    if k == 1 {
        assert(t.drop_last() =~= Seq::<u8>::empty());
        assert(t =~= seq![0xF0u8]);
        assert(assembler_run(st, t.drop_last()).1 =~= Seq::<FrameView>::empty());
        assert(assembler_run(st, t).1 =~= Seq::<FrameView>::empty());
    } else {
        lemma_run_prefix(st, f, k - 1);
        assert(t.drop_last() =~= f.take(k - 1));
        let b = f[k - 1];
        assert(f.subrange(1, f.len() - 1)[k - 2] == b);
        assert(f.take(k - 1).push(b) =~= t);
        assert(b <= 0x7f);
        assert(assembler_run(st, t).1 =~= Seq::<FrameView>::empty());
    }
}

/// A frame built by `build_frame` with a 7-bit command, direction and
/// payload shorter than 2^14 bytes reaches the receiver intact, whatever
/// state it was in, and leaves it waiting for the next frame.
pub proof fn lemma_receive_built_frame(
    st: AssemblerState,
    cmd: u8,
    dir: u8,
    seq: u8,
    payload: Seq<u8>,
)
    requires
        cmd <= 0x7f,
        dir <= 0x7f,
        seven_bit_safe(payload),
        payload.len() < 0x4000,
    ensures
        assembler_run(st, frame_spec(cmd, dir, seq, payload)) == (
            (false, Seq::<u8>::empty()),
            seq![FrameView { cmd, dir, seq: seq & 0x7f, payload }],
        ),
{
    let f = frame_spec(cmd, dir, seq, payload);
    let n = f.len() as int;
    lemma_build_seven_bit_safe(cmd, dir, seq, payload);
    lemma_parse_build(cmd, dir, seq, payload);
    lemma_run_prefix(st, f, n - 1);
    assert(f.drop_last() =~= f.take(n - 1));
    assert(f.take(n - 1).push(0xF7u8) =~= f);
    assert(frames_of(Some(f)) =~= seq![FrameView { cmd, dir, seq: seq & 0x7f, payload }]);
}

} // verus!
