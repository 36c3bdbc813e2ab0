//! Recovers sensor readings from the byte stream of a radio-sensor bridge:
//! a character-level automaton that finds `"OK 9 "` … `"\r\n"` frames in an
//! arbitrarily chunked stream, a decoder from frame bodies to readings, and
//! the decisions of a blocking sequence of readings over a byte source.
pub mod frame;
pub mod listener;
pub mod recorder;
pub mod text;

pub use frame::{Frame, FrameError};
pub use listener::{Action, Incoming, ReadEvent};
pub use recorder::{FrameRecorder, FrameRecorderState};
