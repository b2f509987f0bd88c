//! The editor's music playback.
use vstd::prelude::*;

verus! {

/// Plays the project's music through the BASS library; `stream` is the library's handle of the
/// opened music file.
pub struct BassPlayer {
    pub stream: u32,
}

} // verus!
