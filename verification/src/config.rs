//! The daemon's configuration: knock rules and the global settings the
//! detector is built from.

use vstd::prelude::*;
use crate::model::RuleModel;

verus! {

/// One configured knock rule.
pub struct Rule {
    /// Unique identifier; when names collide, the last rule wins.
    pub name: String,
    /// The ordered knock sequence of TCP ports.
    pub sequence: Vec<u16>,
    /// Command template run on a match; `%IP%` is replaced by the client.
    pub activate: String,
    /// Optional command template run when the rule's lifetime elapses;
    /// presence enables lifetime tracking.
    pub deactivate: Option<String>,
    /// Optional one-shot command run at process start.
    pub setup: Option<String>,
    /// Optional one-shot command run at process exit.
    pub teardown: Option<String>,
    /// Lifetime of an activation in milliseconds; `None` takes the default.
    pub timeout: Option<u128>,
}

/// The daemon's configuration.
pub struct Config {
    /// Name of the capture interface; opaque to the detector.
    pub interface: String,
    /// Inactivity timeout for partial sequences, in milliseconds.
    pub timeout: u128,
    /// The knock rules.
    pub rules: Vec<Rule>,
}

/// Lifetime of an activated rule when the rule gives none: six hours,
/// in milliseconds.
pub const DEFAULT_RULE_TIMEOUT: u128 = 6 * 60 * 60 * 1000;

impl View for Rule {
    type V = RuleModel;

    open spec fn view(&self) -> RuleModel {
        RuleModel {
            name: self.name@,
            sequence: self.sequence@,
            activate: self.activate@,
            deactivate: match self.deactivate {
                Some(ref s) => Some(s@),
                None => None,
            },
            setup: match self.setup {
                Some(ref s) => Some(s@),
                None => None,
            },
            teardown: match self.teardown {
                Some(ref s) => Some(s@),
                None => None,
            },
            timeout: self.timeout,
        }
    }
}

impl Config {
    /// The rule set as the contracts see it.
    pub open spec fn rules_view(&self) -> Seq<RuleModel> {
        self.rules@.map_values(|r: Rule| r@)
    }
}

} // verus!
