//! The framing protocol that carries a glyph to the device firmware:
//!
//! ```text
//! [enter] (ev_type, ms_time_hi, ms_time_lo)* [exit]
//! ```
//!
//! with one triple per event, the sentinel's included, and `ms_time`
//! big-endian. The delimiter pair depends on the firmware revision.

use vstd::prelude::*;
use crate::event::Ev;

verus! {

/// Byte that opens a frame in every firmware revision.
pub const FRAME_ENTER: u8 = 0xC0;

/// The delimiter pair of a firmware revision; both open a frame with
/// `FRAME_ENTER` and differ in the byte that closes it.
#[derive(Clone, Copy, Debug, PartialEq, Eq, Structural)]
pub enum WireProtocol {
    /// Frames closed by `0xC1`.
    ExitC1,
    /// Frames closed by `0xF5`.
    ExitF5,
}

impl WireProtocol {
    /// The byte that opens a frame.
    pub open spec fn spec_enter(self) -> u8 {
        FRAME_ENTER
    }

    /// The byte that closes a frame.
    pub open spec fn spec_exit(self) -> u8 {
        match self {
            WireProtocol::ExitC1 => 0xC1,
            WireProtocol::ExitF5 => 0xF5,
        }
    }

    /// The byte that opens a frame.
    pub fn enter_byte(self) -> (r: u8)
        ensures
            r == self.spec_enter(),
    {
        FRAME_ENTER
    }

    /// The byte that closes a frame.
    pub fn exit_byte(self) -> (r: u8)
        ensures
            r == self.spec_exit(),
    {
        match self {
            WireProtocol::ExitC1 => 0xC1,
            WireProtocol::ExitF5 => 0xF5,
        }
    }
}

/// Byte `k` (0, 1 or 2) of the triple that encodes `e`.
pub open spec fn event_byte(e: Ev, k: int) -> u8 {
    if k == 0 {
        e.ev_type
    } else if k == 1 {
        (e.ms_time / 256) as u8
    } else {
        (e.ms_time % 256) as u8
    }
}

/// The triples of `evs`, one after the other.
pub open spec fn frame_body(evs: Seq<Ev>) -> Seq<u8> {
    Seq::new(3 * evs.len(), |j: int| event_byte(evs[j / 3], j % 3))
}

/// The frame that carries `evs` under protocol `p`.
pub open spec fn frame(evs: Seq<Ev>, p: WireProtocol) -> Seq<u8> {
    seq![p.spec_enter()] + frame_body(evs) + seq![p.spec_exit()]
}

/// `b` has the shape of a frame under `p`: the two delimiters around a
/// whole number of triples.
pub open spec fn is_frame(b: Seq<u8>, p: WireProtocol) -> bool {
    &&& b.len() >= 2
    &&& (b.len() - 2) % 3 == 0
    &&& b[0] == p.spec_enter()
    &&& b.last() == p.spec_exit()
}

/// The events that the triples of a frame-shaped `b` encode.
pub open spec fn frame_events(b: Seq<u8>) -> Seq<Ev> {
    Seq::new(
        ((b.len() - 2) / 3) as nat,
        |i: int| Ev { ms_time: (b[3 * i + 2] * 256 + b[3 * i + 3]) as u16, ev_type: b[3 * i + 1] },
    )
}

/// Serialises `events` into one frame under `protocol`.
pub fn encode_frame(events: &[Ev], protocol: WireProtocol) -> (r: Vec<u8>)
    requires
        3 * events@.len() + 2 <= usize::MAX,
    ensures
        r@ == frame(events@, protocol),
{
    let n = events.len();
    let mut out: Vec<u8> = Vec::new();
    out.push(protocol.enter_byte());
    let mut i: usize = 0;
    while i < n
        invariant
            n == events@.len(),
            i <= n,
            out@ == seq![protocol.spec_enter()] + frame_body(events@.take(i as int)),
        decreases n - i,
    {
        let ev = events[i];
        let ghost prev = out@;
        out.push(ev.ev_type);
        out.push((ev.ms_time / 256) as u8);
        out.push((ev.ms_time % 256) as u8);
        proof {
            let body = frame_body(events@.take(i + 1));
            assert(body =~= frame_body(events@.take(i as int)) + seq![
                event_byte(ev, 0),
                event_byte(ev, 1),
                event_byte(ev, 2),
            ]);
            assert(out@ =~= seq![protocol.spec_enter()] + body);
        }
        i = i + 1;
    }
    proof {
        assert(events@.take(n as int) =~= events@);
    }
    out.push(protocol.exit_byte());
    out
}

/// Parses a frame back into its events: `None` when `bytes` does not have
/// the shape of a frame under `protocol`.
pub fn decode_frame(bytes: &[u8], protocol: WireProtocol) -> (r: Option<Vec<Ev>>)
    ensures
        r.is_some() == is_frame(bytes@, protocol),
        r matches Some(v) ==> v@ == frame_events(bytes@),
{
    let len = bytes.len();
    if len < 2 || (len - 2) % 3 != 0 || bytes[0] != protocol.enter_byte() || bytes[len - 1]
        != protocol.exit_byte() {
        return None;
    }
    let count = (len - 2) / 3;
    let mut out: Vec<Ev> = Vec::new();
    let mut i: usize = 0;
    while i < count
        invariant
            len == bytes@.len(),
            len >= 2,
            count == (len - 2) / 3,
            i <= count,
            out@.len() == i,
            forall|k: int| 0 <= k < i ==> #[trigger] out@[k] == frame_events(bytes@)[k],
        decreases count - i,
    {
        let tag = bytes[3 * i + 1];
        let hi = bytes[3 * i + 2];
        let lo = bytes[3 * i + 3];
        out.push(Ev::new((hi as u16) * 256 + lo as u16, tag));
        i = i + 1;
    }
    assert(out@ =~= frame_events(bytes@));
    Some(out)
}

/// Decoding a frame gives back the events it was made from.
pub proof fn lemma_frame_round_trip(evs: Seq<Ev>, p: WireProtocol)
    ensures
        is_frame(frame(evs, p), p),
        frame_events(frame(evs, p)) == evs,
{
    let b = frame(evs, p);
    assert(b.len() == 3 * evs.len() + 2);
    assert forall|i: int| 0 <= i < evs.len() implies #[trigger] frame_events(b)[i] == evs[i] by {
        assert(b[3 * i + 1] == event_byte(evs[i], 0));
        assert(b[3 * i + 2] == event_byte(evs[i], 1));
        assert(b[3 * i + 3] == event_byte(evs[i], 2));
        let t = evs[i].ms_time;
        assert((t / 256) * 256 + t % 256 == t);
    }
    assert(frame_events(b) =~= evs);
}

/// Every frame-shaped byte sequence is the frame of the events it decodes to.
pub proof fn lemma_frame_of_decoded(b: Seq<u8>, p: WireProtocol)
    requires
        is_frame(b, p),
    ensures
        frame(frame_events(b), p) == b,
{
    let evs = frame_events(b);
    let f = frame(evs, p);
    assert forall|j: int| 0 <= j < b.len() implies #[trigger] f[j] == b[j] by {
        if 1 <= j < b.len() - 1 {
            let i = (j - 1) / 3;
            let hi = b[3 * i + 2];
            let lo = b[3 * i + 3];
            assert((hi * 256 + lo) / 256 == hi && (hi * 256 + lo) % 256 == lo) by (nonlinear_arith)
                requires
                    0 <= lo < 256,
            ;
        }
    }
    assert(f =~= b);
}

/// How a frame is handed to the transport.
#[derive(Clone, Copy, Debug, PartialEq, Eq, Structural)]
pub enum WriteDiscipline {
    /// The whole frame in one write.
    Bulk,
    /// One write per byte, each flushed and followed by a short pause, for
    /// devices that cannot take a whole frame at once.
    Paced,
}

/// The writes that send `frame` under discipline `d`, in order.
pub fn write_chunks(frame: &[u8], d: WriteDiscipline) -> (r: Vec<Vec<u8>>)
    ensures
        d == WriteDiscipline::Bulk ==> r@.len() == 1 && r@[0]@ == frame@,
        d == WriteDiscipline::Paced ==> r@.len() == frame@.len() && forall|i: int|
            0 <= i < frame@.len() ==> (#[trigger] r@[i])@ == seq![frame@[i]],
{
    let mut chunks: Vec<Vec<u8>> = Vec::new();
    let mut whole: Vec<u8> = Vec::new();
    let mut i: usize = 0;
    while i < frame.len()
        invariant
            i <= frame@.len(),
            whole@ == frame@.take(i as int),
            d == WriteDiscipline::Paced ==> chunks@.len() == i && forall|k: int|
                0 <= k < i ==> (#[trigger] chunks@[k])@ == seq![frame@[k]],
        decreases frame@.len() - i,
    {
        let b = frame[i];
        match d {
            WriteDiscipline::Bulk => {
                whole.push(b);
            },
            WriteDiscipline::Paced => {
                let mut one: Vec<u8> = Vec::new();
                one.push(b);
                chunks.push(one);
                whole.push(b);
            },
        }
        proof {
            assert(frame@.take(i + 1) =~= frame@.take(i as int).push(b));
        }
        i = i + 1;
    }
    if d == WriteDiscipline::Bulk {
        proof {
            assert(frame@.take(frame@.len() as int) =~= frame@);
        }
        let mut single: Vec<Vec<u8>> = Vec::new();
        single.push(whole);
        single
    } else {
        chunks
    }
}

} // verus!
