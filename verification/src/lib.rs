//! Verified core of an Ogg/Opus transcoding pipeline: window assembly,
//! per-window encode planning, sequence reordering, and the Ogg page muxer
//! with its checksum.

pub mod crc;
pub mod ogg;
pub mod opus;
pub mod parse;
pub mod plan;
pub mod reorder;
pub mod window;

use vstd::prelude::*;

verus! {

/// A decoded chunk of audio: interleaved 16-bit samples.
pub struct AudioChunk {
    pub pcm: Vec<i16>,
    pub channels: usize,
    pub sample_rate: usize,
}

impl AudioChunk {
    /// The samples are interleaved: whole frames only.
    pub open spec fn wf(&self) -> bool {
        &&& self.channels >= 1
        &&& self.pcm@.len() % self.channels as nat == 0
    }
}

} // verus!
