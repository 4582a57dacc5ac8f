//! The console client's rule executor: the same planning as the knock
//! client's, without the quiet flag.

use vstd::prelude::*;
use crate::client_config::Config;
use crate::client_config::Rule;
use crate::client_config::RunError;
use crate::client_config::build_client_rules;
use crate::client_config::build_rule_index;
use crate::client_config::opt_host_view;
use crate::client_config::plan_run;
use crate::client_config::run_spec;

verus! {

/// Plans knock runs from the configured rules.
pub struct RuleExecutor {
    /// The rules, keyed by name, the last rule winning a collision.
    pub rules: Vec<Rule>,
}

impl RuleExecutor {
    /// Builds an executor over the configured rules.
    pub fn new(config: Config) -> (r: RuleExecutor)
        ensures
            r.rules@.map_values(|x: Rule| x@) == build_client_rules(config.rules_view()),
    {
        RuleExecutor { rules: build_rule_index(config.rules) }
    }

    /// Plans the knock run of the named rule: the socket addresses to
    /// try in order, or why no run can be made.
    pub fn run(&self, name: &str, host: Option<String>) -> (r: Result<Vec<String>, RunError>)
        ensures
            (run_spec(self.rules@.map_values(|x: Rule| x@), name@, opt_host_view(host)) is Err
                ==> r is Err && r->Err_0 == run_spec(
                self.rules@.map_values(|x: Rule| x@),
                name@,
                opt_host_view(host),
            )->Err_0),
            (run_spec(self.rules@.map_values(|x: Rule| x@), name@, opt_host_view(host)) is Ok
                ==> r is Ok && r->Ok_0@.map_values(|s: String| s@) == run_spec(
                self.rules@.map_values(|x: Rule| x@),
                name@,
                opt_host_view(host),
            )->Ok_0),
    {
        plan_run(&self.rules, name, host)
    }
}

} // verus!
