//! What a run is configured with besides its numbers: the protocol version
//! and the kind of output.

use crate::text::{ends_with, same_text};
use vstd::prelude::*;

verus! {

/// The version of the framing rules; fixed for the life of an encoder.
#[derive(Clone, Copy, Debug, PartialEq, Eq, Structural)]
pub enum ProtocolVersion {
    V1,
    V2,
}

impl ProtocolVersion {
    /// The number that stands for the version in a frame.
    pub open spec fn number_of(self) -> u8 {
        match self {
            ProtocolVersion::V1 => 1,
            ProtocolVersion::V2 => 2,
        }
    }

    /// The version as a number: 1 or 2.
    pub fn number(&self) -> (n: u8)
        ensures
            n == self.number_of(),
    {
        match *self {
            ProtocolVersion::V1 => 1,
            ProtocolVersion::V2 => 2,
        }
    }

    /// The version that a token of the configuration names.
    pub open spec fn named(token: Seq<char>) -> Option<ProtocolVersion> {
        if token == "1"@ {
            Some(ProtocolVersion::V1)
        } else if token == "2"@ {
            Some(ProtocolVersion::V2)
        } else {
            None
        }
    }

    /// Reads a version from its token: `1` or `2`.
    pub fn from_token(token: &str) -> (version: Option<ProtocolVersion>)
        ensures
            version == Self::named(token@),
    {
        if same_text(token, "1") {
            Some(ProtocolVersion::V1)
        } else if same_text(token, "2") {
            Some(ProtocolVersion::V2)
        } else {
            None
        }
    }
}

/// What a run produces.
#[derive(Clone, Copy, Debug, PartialEq, Eq, Structural)]
pub enum OutputMode {
    /// The waveform of every combination, as WAVE images one after the
    /// other.
    Waveform,
    /// One result row for every combination, as comma-separated values.
    Sweep,
}

impl OutputMode {
    /// The mode that a file name asks for: a sweep where it ends in `.csv`,
    /// a waveform otherwise.
    pub open spec fn asked_by(file_name: Seq<char>) -> OutputMode {
        if ".csv"@.len() <= file_name.len() && file_name.skip(file_name.len() - ".csv"@.len())
            == ".csv"@ {
            OutputMode::Sweep
        } else {
            OutputMode::Waveform
        }
    }

    /// Tells the mode from the name of the output file.
    pub fn of_file_name(file_name: &str) -> (mode: OutputMode)
        ensures
            mode == Self::asked_by(file_name@),
    {
        if ends_with(file_name, ".csv") {
            OutputMode::Sweep
        } else {
            OutputMode::Waveform
        }
    }
}

} // verus!
