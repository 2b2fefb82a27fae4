//! Timing and playback logic of a karaoke score editor.
//!
//! Beat positions are exact fractions, so that long scores neither drift nor
//! miss a measure boundary. The library converts between beats and seconds
//! through a tempo map, lays out measures from a measure map, schedules the
//! metronome, and makes the decisions of the real-time audio callback.
pub mod rational;
pub mod schema;
pub mod keyed;
pub mod tempo;
pub mod measures;
pub mod beats;
pub mod score;
pub mod audio;
pub mod config;
pub mod data_owner;
pub mod fonts;
