//! The rules of an audio modem transmitter that sends a program to a
//! microphone as frequency-shift keyed tones, and of the sweep that tries
//! its parameters against a demodulator.
//!
//! - `steppedrange`: ranges of numbers walked at a fixed step, and their
//!   literals.
//! - `sweep`: every combination of four ranges, in random order, with one
//!   result row each.
//! - `rate`: the encoding rate, and the lengths of silences and symbols in
//!   samples.
//! - `transmission`: the order of silence, payload and pilot bursts.
//! - `packets`: a payload cut into packets.
//! - `frame`: the frame of a packet as bytes, and bytes as bits.
//! - `playback`: the samples of a playback and the silence behind them.
//! - `config`: the protocol version and the kind of output.
//! - `wav` and `bytes`: the WAVE image of a waveform.

pub mod bytes;
pub mod config;
pub mod frame;
pub mod packets;
pub mod playback;
pub mod rate;
pub mod steppedrange;
pub mod sweep;
mod text;
pub mod transmission;
pub mod wav;
