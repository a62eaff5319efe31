//! The atomic unit of a glyph: a motor trigger or the end-of-glyph sentinel,
//! stamped with its offset from the start of the glyph.
//!
//! Placement of the motors on the palm, palm facing the table:
//!
//! ```text
//!   fingers
//!   0  1  2  3
//!   4  5  6  7
//!   8  9 10 11
//!   wrist
//! ```

use vstd::prelude::*;

verus! {

/// Number of motors in the array; tags below it trigger a motor.
pub const MOTOR_COUNT: u8 = 12;

/// Tag of the sentinel that closes every glyph and carries its duration.
pub const END_GLYPH: u8 = 12;

/// The closed set of tags that the engine produces.
#[derive(Clone, Copy, Debug, PartialEq, Eq, Structural)]
pub enum EvType {
    Go0,
    Go1,
    Go2,
    Go3,
    Go4,
    Go5,
    Go6,
    Go7,
    Go8,
    Go9,
    Go10,
    Go11,
    EndGlyph,
}

impl EvType {
    /// The wire tag of this event type.
    pub open spec fn spec_tag(self) -> u8 {
        match self {
            EvType::Go0 => 0,
            EvType::Go1 => 1,
            EvType::Go2 => 2,
            EvType::Go3 => 3,
            EvType::Go4 => 4,
            EvType::Go5 => 5,
            EvType::Go6 => 6,
            EvType::Go7 => 7,
            EvType::Go8 => 8,
            EvType::Go9 => 9,
            EvType::Go10 => 10,
            EvType::Go11 => 11,
            EvType::EndGlyph => 12,
        }
    }

    /// The wire tag of this event type: the motor index, or `END_GLYPH`.
    pub fn tag(self) -> (r: u8)
        ensures
            r == self.spec_tag(),
            r <= END_GLYPH,
    {
        match self {
            EvType::Go0 => 0,
            EvType::Go1 => 1,
            EvType::Go2 => 2,
            EvType::Go3 => 3,
            EvType::Go4 => 4,
            EvType::Go5 => 5,
            EvType::Go6 => 6,
            EvType::Go7 => 7,
            EvType::Go8 => 8,
            EvType::Go9 => 9,
            EvType::Go10 => 10,
            EvType::Go11 => 11,
            EvType::EndGlyph => END_GLYPH,
        }
    }
}

/// One event of a glyph: `ms_time` is the offset in milliseconds from the
/// start of the glyph, `ev_type` the tag (`0..=11` a motor, `END_GLYPH` the end).
#[derive(Clone, Copy, Debug, PartialEq, Eq, Structural)]
pub struct Ev {
    pub ms_time: u16,
    pub ev_type: u8,
}

impl Ev {
    pub fn new(ms_time: u16, ev_type: u8) -> (r: Self)
        ensures
            r == (Ev { ms_time, ev_type }),
    {
        Ev { ms_time, ev_type }
    }
}

/// A well-formed glyph: motor triggers with non-decreasing timestamps,
/// closed by exactly one `END_GLYPH` event, which is the last.
pub open spec fn is_glyph(g: Seq<Ev>) -> bool {
    &&& g.len() >= 1
    &&& g.last().ev_type == END_GLYPH
    &&& forall|i: int| 0 <= i < g.len() - 1 ==> #[trigger] g[i].ev_type < MOTOR_COUNT
    &&& forall|i: int, j: int| 0 <= i <= j < g.len() ==> #[trigger] g[i].ms_time <= #[trigger] g[j].ms_time
}

/// The duration of a glyph: the timestamp of its last event, 0 when empty.
pub open spec fn duration(g: Seq<Ev>) -> int {
    if g.len() == 0 {
        0
    } else {
        g.last().ms_time as int
    }
}

} // verus!
