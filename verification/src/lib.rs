//! Decision logic for a pool of line-protocol evaluator workers and for a
//! real-time MIDI synthesis pipeline.
//!
//! Everything here works on plain values. The program around it owns the
//! subprocess pipes, the audio device and the threads, and asks this library
//! what to write, what a reply means, which worker gets which task, and which
//! events a render block applies.

pub mod midi;
pub mod engine;
pub mod player;
pub mod protocol;
pub mod evaluator;
pub mod pool;
pub mod batch;
pub mod order;
pub mod task;
pub mod startup;
pub mod unambiguous;
pub mod utf8_text;
