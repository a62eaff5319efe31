//! Glyph timeline engine for a twelve-motor haptic array: the event model,
//! the timeline transformations, the wire framing and the alphabet store.

pub mod event;
pub mod glyphs;
pub mod timeline;
pub mod wire;

pub use event::{Ev, EvType, END_GLYPH, MOTOR_COUNT};
pub use glyphs::{init_alphabets, motor_occurrences, Alphabet, Alphabets};
pub use timeline::{equal_spaced_evs, glyph_duration, retime_eq_spaced, stitch_evs};
pub use wire::{decode_frame, encode_frame, write_chunks, WireProtocol, WriteDiscipline, FRAME_ENTER};
