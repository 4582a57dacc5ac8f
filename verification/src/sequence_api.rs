//! A minimal detector interface over signed port numbers; the daemon's
//! own interface lives in `sequence`.

use vstd::prelude::*;

verus! {

/// A detector of knock sequences, addressed with signed port numbers.
pub trait SequenceDetector {
    /// Feeds one observed event into the detector.
    fn add_sequence(&mut self, client_ip: String, sequence: i32);

    /// Whether the client's recorded progress completes a sequence.
    fn match_sequence(&self, client_ip: &str) -> bool;
}

} // verus!
