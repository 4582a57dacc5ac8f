//! The detector interface the capture server drives.

use vstd::prelude::*;
use crate::model::DetectorModel;
use crate::model::match_found;
use crate::model::match_spec;
use crate::model::observe_spec;
use crate::port_sequence::now_millis;
pub use crate::port_sequence::PortSequenceDetector;

verus! {

/// A detector of knock sequences over (client address, port) events.
///
/// Both methods read the wall clock themselves, so their contracts hold
/// for some clock value; `PortSequenceDetector` also offers `observe_at`
/// and `match_sequence_at`, whose contracts are exact in the time passed
/// in. The housekeeping worker the daemon runs around a detector is driven
/// from outside the library, through `PortSequenceDetector::housekeep_at`.
pub trait SequenceDetector {
    /// The detector's state as the contracts see it.
    spec fn model(&self) -> DetectorModel;

    /// The state is well-formed.
    spec fn wf(&self) -> bool;

    /// Feeds one observed SYN event into the detector.
    fn add_sequence(&mut self, client_ip: String, sequence: u16)
        requires
            old(self).wf(),
        ensures
            final(self).wf(),
            exists|now: u128|
                final(self).model() == observe_spec(
                    old(self).model(),
                    client_ip@,
                    sequence,
                    now,
                ),
    ;

    /// Runs the match procedure for `client_ip`.
    fn match_sequence(&mut self, client_ip: &str) -> (matched: bool)
        requires
            old(self).wf(),
        ensures
            final(self).wf(),
            matched == match_found(old(self).model(), client_ip@),
            exists|now: u128|
                final(self).model() == match_spec(old(self).model(), client_ip@, now),
    ;
}

impl SequenceDetector for PortSequenceDetector {
    open spec fn model(&self) -> DetectorModel {
        self@
    }

    open spec fn wf(&self) -> bool {
        PortSequenceDetector::wf(self)
    }

    fn add_sequence(&mut self, client_ip: String, sequence: u16) {
        let ghost cip = client_ip@;
        let now = now_millis();
        let ghost n0 = now;
        let _ = self.observe_at(client_ip, sequence, now);
        proof {
            assert(self.model() == observe_spec(old(self).model(), cip, sequence, n0));
            assert(exists|now: u128|
                self.model() == observe_spec(old(self).model(), cip, sequence, now));
        }
    }

    fn match_sequence(&mut self, client_ip: &str) -> (matched: bool) {
        let now = now_millis();
        let ghost n0 = now;
        let matched = self.match_sequence_at(client_ip, now);
        proof {
            assert(self.model() == match_spec(old(self).model(), client_ip@, n0));
            assert(exists|now: u128|
                self.model() == match_spec(old(self).model(), client_ip@, now));
        }
        matched
    }
}

} // verus!
