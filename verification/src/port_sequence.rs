//! The port-knock sequence detector: per-client progress tracking,
//! suffix-based rule matching, and the timer sweeps that expire silent
//! clients and outlived activations.

use vstd::prelude::*;
use vstd::pervasive::VecAdditionalExecFns;
use crate::config::{Config, DEFAULT_RULE_TIMEOUT};
use crate::model::ActiveClientModel;
use crate::model::ActiveRuleModel;
use crate::model::ClientModel;
use crate::model::DetectorModel;
use crate::model::RuleSpec;
use crate::model::active_index;
use crate::model::active_rule_index;
use crate::model::add_ports;
use crate::model::build_rules;
use crate::model::build_watched;
use crate::model::by_active_ip;
use crate::model::by_active_rule;
use crate::model::by_ip;
use crate::model::by_rule_name;
use crate::model::client_index;
use crate::model::is_suffix_of;
use crate::model::lemma_build_rules_unique;
use crate::model::lemma_build_watched_unique;
use crate::model::lemma_first_where;
use crate::model::rule_index;
use crate::model::rule_spec_of;
use crate::model::upsert_rule;
use crate::strings::resolve_template;
use crate::strings::str_eq;

verus! {

/// The command record the detector keeps per rule.
pub struct RuleCommands {
    /// Command template run on a match.
    pub activate: String,
    /// Optional command template run when the activation's lifetime elapses.
    pub deactivate: Option<String>,
    /// Lifetime of an activation, in milliseconds.
    pub timeout: u128,
}

/// One entry of the detector's rule index.
pub struct DetectorRule {
    /// The rule's name.
    pub name: String,
    /// The knock sequence.
    pub sequence: Vec<u16>,
    /// The rule's commands and lifetime.
    pub commands: RuleCommands,
}

/// One tracked client.
pub struct ClientState {
    /// The client's address, as the capture layer renders it.
    pub ip: String,
    /// The watched ports observed from this client since its last reset.
    pub progress: Vec<u16>,
    /// The time of the client's last watched-port event; `None` exactly
    /// while the progress list is empty.
    pub last_seen: Option<u128>,
}

/// One activated rule of one client.
pub struct ActiveRuleState {
    /// The rule's name.
    pub rule: String,
    /// When the rule was activated for the client.
    pub since: u128,
}

/// The activated rules of one client; never kept empty.
pub struct ActiveClientState {
    /// The client's address.
    pub ip: String,
    /// The client's activated rules.
    pub rules: Vec<ActiveRuleState>,
}

impl View for DetectorRule {
    type V = RuleSpec;

    open spec fn view(&self) -> RuleSpec {
        RuleSpec {
            name: self.name@,
            sequence: self.sequence@,
            activate: self.commands.activate@,
            deactivate: match self.commands.deactivate {
                Some(ref s) => Some(s@),
                None => None,
            },
            timeout: self.commands.timeout,
        }
    }
}

impl View for ClientState {
    type V = ClientModel;

    open spec fn view(&self) -> ClientModel {
        ClientModel { ip: self.ip@, progress: self.progress@, last_seen: self.last_seen }
    }
}

impl View for ActiveRuleState {
    type V = ActiveRuleModel;

    open spec fn view(&self) -> ActiveRuleModel {
        ActiveRuleModel { rule: self.rule@, since: self.since }
    }
}

impl View for ActiveClientState {
    type V = ActiveClientModel;

    open spec fn view(&self) -> ActiveClientModel {
        ActiveClientModel {
            ip: self.ip@,
            rules: self.rules@.map_values(|r: ActiveRuleState| r@),
        }
    }
}

/// The sequence detector: immutable indexes derived from the configuration,
/// and the mutable per-client state both agents work on.
pub struct PortSequenceDetector {
    /// Inactivity timeout for partial sequences, in milliseconds.
    pub timeout: u128,
    /// Every port appearing in any rule's sequence, without duplicates.
    pub sequence_set: Vec<u16>,
    /// The rule index, in configuration order, names pairwise distinct.
    pub sequence_rules: Vec<DetectorRule>,
    /// Tracked clients, keyed by distinct addresses.
    pub clients: Vec<ClientState>,
    /// Activated rules, keyed by distinct addresses.
    pub active: Vec<ActiveClientState>,
    /// Commands awaiting the executor, oldest first.
    pub pending: Vec<String>,
}

impl View for PortSequenceDetector {
    type V = DetectorModel;

    open spec fn view(&self) -> DetectorModel {
        DetectorModel {
            timeout: self.timeout,
            watched: self.sequence_set@,
            rules: self.sequence_rules@.map_values(|r: DetectorRule| r@),
            clients: self.clients@.map_values(|c: ClientState| c@),
            active: self.active@.map_values(|c: ActiveClientState| c@),
            pending: self.pending@.map_values(|s: String| s@),
        }
    }
}

/// Relies on `SystemTime::now`: the wall-clock time as milliseconds since
/// the epoch, zero when the clock is before the epoch. Nothing is assumed
/// of the value.
#[verifier::external_body]
pub fn now_millis() -> u128 {
    std::time::SystemTime::now()
        .duration_since(std::time::UNIX_EPOCH)
        .map(|d| d.as_millis())
        .unwrap_or(0)
}

/// Whether `p` occurs in `v`.
fn contains_port(v: &Vec<u16>, p: u16) -> (r: bool)
    ensures
        r == v@.contains(p),
{
    let n: usize = v.len();
    let mut i: usize = 0;
    while i < n
        invariant
            n == v@.len(),
            i <= n,
            forall|j: int| 0 <= j < i ==> v@[j] != p,
        decreases n - i,
    {
        if v[i] == p {
            return true;
        }
        i = i + 1;
    }
    proof {
        if v@.contains(p) {
            let w = choose|k: int| 0 <= k < v@.len() && v@[k] == p;
            assert(v@[w] != p);
        }
    }
    false
}

/// Whether `s` ends with `pat`.
fn ends_with(s: &Vec<u16>, pat: &Vec<u16>) -> (r: bool)
    ensures
        r == is_suffix_of(pat@, s@),
{
    let n: usize = s.len();
    let m: usize = pat.len();
    if m > n {
        return false;
    }
    let off: usize = n - m;
    let mut i: usize = 0;
    while i < m
        invariant
            n == s@.len(),
            m == pat@.len(),
            m <= n,
            off == n - m,
            i <= m,
            forall|j: int| 0 <= j < i ==> s@[off + j] == pat@[j],
        decreases m - i,
    {
        if s[off + i] != pat[i] {
            proof {
                assert(s@.subrange(n - m, n as int)[i as int] == s@[off + i]);
            }
            return false;
        }
        i = i + 1;
    }
    proof {
        assert(s@.subrange(n - m, n as int) =~= pat@);
    }
    true
}

/// A copy of a port list.
fn clone_ports(v: &Vec<u16>) -> (r: Vec<u16>)
    ensures
        r@ == v@,
{
    let r = v.clone();
    proof {
        assert(r@ =~= v@);
    }
    r
}

/// A copy of an optional command string.
fn clone_opt_string(o: &Option<String>) -> (r: Option<String>)
    ensures
        match o {
            Some(s) => r is Some && r->0@ == s@,
            None => r is None,
        },
{
    match o {
        Some(s) => Some(s.clone()),
        None => None,
    }
}

impl PortSequenceDetector {
    /// The state is well-formed.
    pub open spec fn wf(&self) -> bool {
        crate::model::wf(self@)
    }

    /// Builds a detector from the configuration: the watched-port set and
    /// the rule index are derived, with the last rule winning a name
    /// collision, and all mutable state starts empty.
    pub fn new(config: Config) -> (r: PortSequenceDetector)
        ensures
            r@ == (DetectorModel {
                timeout: config.timeout,
                watched: build_watched(config.rules_view()),
                rules: build_rules(
                    config.rules_view().map_values(
                        |m: crate::model::RuleModel| rule_spec_of(m, DEFAULT_RULE_TIMEOUT),
                    ),
                ),
                clients: Seq::empty(),
                active: Seq::empty(),
                pending: Seq::empty(),
            }),
            r.wf(),
    {
        let ghost rv = config.rules_view();
        let n: usize = config.rules.len();

        let mut sequence_set: Vec<u16> = Vec::new();
        let mut i: usize = 0;
        proof {
            assert(rv.take(0) =~= Seq::<crate::model::RuleModel>::empty());
        }
        while i < n
            invariant
                n == config.rules.len(),
                rv == config.rules_view(),
                i <= n,
                sequence_set@ == build_watched(rv.take(i as int)),
            decreases n - i,
        {
            let ports = &config.rules[i].sequence;
            let m: usize = ports.len();
            let ghost goal = add_ports(sequence_set@, ports@);
            let mut j: usize = 0;
            proof {
                assert(ports@.skip(0) =~= ports@);
            }
            while j < m
                invariant
                    m == ports@.len(),
                    j <= m,
                    add_ports(sequence_set@, ports@.skip(j as int)) == goal,
                decreases m - j,
            {
                let ghost rest = ports@.skip(j as int);
                let p: u16 = ports[j];
                proof {
                    assert(rest[0] == ports@[j as int]);
                    assert(rest.drop_first() =~= ports@.skip(j + 1));
                }
                if !contains_port(&sequence_set, p) {
                    sequence_set.push(p);
                }
                j = j + 1;
            }
            proof {
                assert(ports@.skip(m as int) =~= Seq::<u16>::empty());
                assert(sequence_set@ == goal);
                assert(rv.take(i + 1).drop_last() =~= rv.take(i as int));
                assert(rv.take(i + 1).last() == rv[i as int]);
                assert(rv[i as int].sequence == ports@);
                assert(sequence_set@ == build_watched(rv.take(i + 1)));
            }
            i = i + 1;
        }
        proof {
            assert(rv.take(n as int) =~= rv);
        }

        let ghost specs = rv.map_values(
            |m: crate::model::RuleModel| rule_spec_of(m, DEFAULT_RULE_TIMEOUT),
        );
        let mut sequence_rules: Vec<DetectorRule> = Vec::new();
        let mut i2: usize = 0;
        proof {
            assert(specs.take(0) =~= Seq::<RuleSpec>::empty());
        }
        while i2 < n
            invariant
                n == config.rules.len(),
                rv == config.rules_view(),
                specs == rv.map_values(
                    |m: crate::model::RuleModel| rule_spec_of(m, DEFAULT_RULE_TIMEOUT),
                ),
                i2 <= n,
                sequence_rules@.map_values(|r: DetectorRule| r@) == build_rules(
                    specs.take(i2 as int),
                ),
            decreases n - i2,
        {
            let r = &config.rules[i2];
            let timeout: u128 = match r.timeout {
                Some(t) => t,
                None => DEFAULT_RULE_TIMEOUT,
            };
            let entry = DetectorRule {
                name: r.name.clone(),
                sequence: clone_ports(&r.sequence),
                commands: RuleCommands {
                    activate: r.activate.clone(),
                    deactivate: clone_opt_string(&r.deactivate),
                    timeout: timeout,
                },
            };
            proof {
                assert(entry@ =~= specs[i2 as int]);
            }
            let idx = find_rule_slot(&sequence_rules, r.name.as_str());
            let ghost before = sequence_rules@.map_values(|q: DetectorRule| q@);
            match idx {
                Some(k) => {
                    sequence_rules.set(k, entry);
                    proof {
                        assert(sequence_rules@.map_values(|q: DetectorRule| q@) =~= before.update(
                            k as int,
                            specs[i2 as int],
                        ));
                    }
                },
                None => {
                    sequence_rules.push(entry);
                    proof {
                        assert(sequence_rules@.map_values(|q: DetectorRule| q@) =~= before.push(
                            specs[i2 as int],
                        ));
                    }
                },
            }
            proof {
                assert(specs.take(i2 + 1).drop_last() =~= specs.take(i2 as int));
                assert(specs.take(i2 + 1).last() == specs[i2 as int]);
                assert(specs[i2 as int].name == rv[i2 as int].name);
                assert(sequence_rules@.map_values(|q: DetectorRule| q@) =~= upsert_rule(
                    before,
                    specs[i2 as int],
                ));
                assert(sequence_rules@.map_values(|q: DetectorRule| q@) == build_rules(
                    specs.take(i2 + 1),
                ));
            }
            i2 = i2 + 1;
        }
        proof {
            assert(specs.take(n as int) =~= specs);
        }

        let r = PortSequenceDetector {
            timeout: config.timeout,
            sequence_set: sequence_set,
            sequence_rules: sequence_rules,
            clients: Vec::new(),
            active: Vec::new(),
            pending: Vec::new(),
        };
        proof {
            assert(r@.clients =~= Seq::<ClientModel>::empty());
            assert(r@.active =~= Seq::<ActiveClientModel>::empty());
            assert(r@.pending =~= Seq::<Seq<char>>::empty());
            assert(r@ =~= (DetectorModel {
                timeout: config.timeout,
                watched: build_watched(rv),
                rules: build_rules(specs),
                clients: Seq::empty(),
                active: Seq::empty(),
                pending: Seq::empty(),
            }));
            lemma_build_watched_unique(rv);
            lemma_build_rules_unique(specs);
        }
        r
    }

    /// The number of distinct watched ports.
    pub fn sequence_set_len(&self) -> (r: usize)
        ensures
            r == self@.watched.len(),
    {
        self.sequence_set.len()
    }

    /// The number of rules in the index.
    pub fn sequence_rules_len(&self) -> (r: usize)
        ensures
            r == self@.rules.len(),
    {
        self.sequence_rules.len()
    }

    /// The configured inactivity timeout, in milliseconds.
    pub fn inactivity_timeout(&self) -> (r: u128)
        ensures
            r == self@.timeout,
    {
        self.timeout
    }

    /// The index of the tracked client with address `ip`, if any.
    fn find_client(&self, client_ip: &str) -> (r: Option<usize>)
        ensures
            match r {
                Some(i) => i < self.clients@.len() && client_index(self@.clients, client_ip@)
                    == i as int,
                None => client_index(self@.clients, client_ip@) == -1,
            },
    {
        let n: usize = self.clients.len();
        let mut i: usize = 0;
        while i < n
            invariant
                n == self.clients@.len(),
                i <= n,
                forall|j: int| 0 <= j < i ==> (#[trigger] self.clients@[j]).ip@ != client_ip@,
            decreases n - i,
        {
            if str_eq(self.clients[i].ip.as_str(), client_ip) {
                proof {
                    lemma_first_where(self@.clients, by_ip(client_ip@));
                    assert(by_ip(client_ip@)(self@.clients[i as int]));
                }
                return Some(i);
            }
            i = i + 1;
        }
        proof {
            lemma_first_where(self@.clients, by_ip(client_ip@));
            assert forall|j: int| 0 <= j < self@.clients.len() implies !by_ip(client_ip@)(
                #[trigger] self@.clients[j],
            ) by {
                assert(self@.clients[j] == self.clients@[j]@);
            }
            if client_index(self@.clients, client_ip@) != -1 {
                assert(by_ip(client_ip@)(self@.clients[client_index(self@.clients, client_ip@)]));
            }
        }
        None
    }

    /// The index of the active entry for `ip`, if any.
    fn find_active(&self, client_ip: &str) -> (r: Option<usize>)
        ensures
            match r {
                Some(i) => i < self.active@.len() && active_index(self@.active, client_ip@)
                    == i as int,
                None => active_index(self@.active, client_ip@) == -1,
            },
    {
        let n: usize = self.active.len();
        let mut i: usize = 0;
        while i < n
            invariant
                n == self.active@.len(),
                i <= n,
                forall|j: int| 0 <= j < i ==> (#[trigger] self.active@[j]).ip@ != client_ip@,
            decreases n - i,
        {
            if str_eq(self.active[i].ip.as_str(), client_ip) {
                proof {
                    lemma_first_where(self@.active, by_active_ip(client_ip@));
                    assert(by_active_ip(client_ip@)(self@.active[i as int]));
                }
                return Some(i);
            }
            i = i + 1;
        }
        proof {
            lemma_first_where(self@.active, by_active_ip(client_ip@));
            assert forall|j: int| 0 <= j < self@.active.len() implies !by_active_ip(client_ip@)(
                #[trigger] self@.active[j],
            ) by {
                assert(self@.active[j] == self.active@[j]@);
            }
            if active_index(self@.active, client_ip@) != -1 {
                assert(by_active_ip(client_ip@)(self@.active[active_index(
                    self@.active,
                    client_ip@,
                )]));
            }
        }
        None
    }

    /// The index of the rule named `name`, if any.
    fn find_rule(&self, name: &str) -> (r: Option<usize>)
        ensures
            match r {
                Some(i) => i < self.sequence_rules@.len() && rule_index(self@.rules, name@)
                    == i as int,
                None => rule_index(self@.rules, name@) == -1,
            },
    {
        let n: usize = self.sequence_rules.len();
        let mut i: usize = 0;
        while i < n
            invariant
                n == self.sequence_rules@.len(),
                i <= n,
                forall|j: int| 0 <= j < i ==> (#[trigger] self.sequence_rules@[j]).name@ != name@,
            decreases n - i,
        {
            if str_eq(self.sequence_rules[i].name.as_str(), name) {
                proof {
                    lemma_first_where(self@.rules, by_rule_name(name@));
                    assert(by_rule_name(name@)(self@.rules[i as int]));
                }
                return Some(i);
            }
            i = i + 1;
        }
        proof {
            lemma_first_where(self@.rules, by_rule_name(name@));
            assert forall|j: int| 0 <= j < self@.rules.len() implies !by_rule_name(name@)(
                #[trigger] self@.rules[j],
            ) by {
                assert(self@.rules[j] == self.sequence_rules@[j]@);
            }
            if rule_index(self@.rules, name@) != -1 {
                assert(by_rule_name(name@)(self@.rules[rule_index(self@.rules, name@)]));
            }
        }
        None
    }

    /// The index of the first rule whose sequence is a suffix of
    /// `progress`, if any.
    fn find_matching_rule(&self, progress: &Vec<u16>) -> (r: Option<usize>)
        ensures
            match r {
                Some(i) => i < self.sequence_rules@.len() && crate::model::match_index(
                    self@.rules,
                    progress@,
                ) == i as int,
                None => crate::model::match_index(self@.rules, progress@) == -1,
            },
    {
        let n: usize = self.sequence_rules.len();
        let mut i: usize = 0;
        while i < n
            invariant
                n == self.sequence_rules@.len(),
                i <= n,
                forall|j: int| 0 <= j < i ==> !is_suffix_of(
                    (#[trigger] self.sequence_rules@[j])@.sequence,
                    progress@,
                ),
            decreases n - i,
        {
            if ends_with(progress, &self.sequence_rules[i].sequence) {
                proof {
                    lemma_first_where(self@.rules, crate::model::by_suffix(progress@));
                    assert(crate::model::by_suffix(progress@)(self@.rules[i as int]));
                }
                return Some(i);
            }
            i = i + 1;
        }
        proof {
            lemma_first_where(self@.rules, crate::model::by_suffix(progress@));
            assert forall|j: int| 0 <= j < self@.rules.len() implies !crate::model::by_suffix(
                progress@,
            )(#[trigger] self@.rules[j]) by {
                assert(self@.rules[j] == self.sequence_rules@[j]@);
            }
            if crate::model::match_index(self@.rules, progress@) != -1 {
                let k = crate::model::match_index(self@.rules, progress@);
                assert(crate::model::by_suffix(progress@)(self@.rules[k]));
            }
        }
        None
    }

    /// Records that `name` was activated for `client_ip` at `now`: the
    /// client's entry for the rule is set to `now`, creating entries as
    /// needed.
    fn record_activation(&mut self, client_ip: &str, name: String, now: u128)
        requires
            old(self).wf(),
            rule_index(old(self)@.rules, name@) >= 0,
            old(self)@.rules[rule_index(old(self)@.rules, name@)].deactivate is Some,
        ensures
            final(self).wf(),
            final(self)@ == (DetectorModel {
                active: crate::model::active_insert(old(self)@.active, client_ip@, name@, now),
                ..old(self)@
            }),
    {
        let ghost am = old(self)@.active;
        match self.find_active(client_ip) {
            Some(i) => {
                let mut entry = self.active.remove(i);
                proof {
                    lemma_first_where(am, by_active_ip(client_ip@));
                    assert(by_active_ip(client_ip@)(am[i as int]));
                    assert(am[i as int].ip == client_ip@);
                }
                let ghost old_rules = entry.rules@.map_values(|x: ActiveRuleState| x@);
                proof {
                    assert(old_rules == am[i as int].rules);
                }
                match find_active_rule(&entry.rules, name.as_str()) {
                    Some(j) => {
                        proof {
                            lemma_first_where(old_rules, by_active_rule(name@));
                            assert(by_active_rule(name@)(old_rules[j as int]));
                        }
                        entry.rules.set(j, ActiveRuleState { rule: name, since: now });
                        proof {
                            assert(entry.rules@.map_values(|x: ActiveRuleState| x@)
                                =~= old_rules.update(
                                j as int,
                                ActiveRuleModel { rule: name@, since: now },
                            ));
                        }
                    },
                    None => {
                        entry.rules.push(ActiveRuleState { rule: name, since: now });
                        proof {
                            assert(entry.rules@.map_values(|x: ActiveRuleState| x@)
                                =~= old_rules.push(ActiveRuleModel { rule: name@, since: now }));
                        }
                    },
                }
                let ghost new_rules = entry.rules@.map_values(|x: ActiveRuleState| x@);
                self.active.insert(i, entry);
                proof {
                    assert(self.active@ =~= old(self).active@.update(i as int, entry));
                    assert(self@.active =~= am.update(
                        i as int,
                        ActiveClientModel { ip: am[i as int].ip, rules: new_rules },
                    ));
                    assert(self@.active =~~= crate::model::active_insert(
                        am,
                        client_ip@,
                        name@,
                        now,
                    ));
                    assert(self@ =~= (DetectorModel {
                        active: crate::model::active_insert(am, client_ip@, name@, now),
                        ..old(self)@
                    }));
                    self.lemma_active_wf_after(old(self)@, i as int, name@, now);
                }
            },
            None => {
                proof {
                    lemma_first_where(am, by_active_ip(client_ip@));
                }
                let mut rules_vec: Vec<ActiveRuleState> = Vec::new();
                rules_vec.push(ActiveRuleState { rule: name, since: now });
                let ghost new_rules = rules_vec@.map_values(|x: ActiveRuleState| x@);
                self.active.push(ActiveClientState { ip: client_ip.to_owned(), rules: rules_vec });
                proof {
                    assert(new_rules =~= seq![ActiveRuleModel { rule: name@, since: now }]);
                    assert(self@.active =~= am.push(
                        ActiveClientModel { ip: client_ip@, rules: new_rules },
                    ));
                    assert(self@.active =~~= crate::model::active_insert(
                        am,
                        client_ip@,
                        name@,
                        now,
                    ));
                    assert(self@ =~= (DetectorModel {
                        active: crate::model::active_insert(am, client_ip@, name@, now),
                        ..old(self)@
                    }));
                    self.lemma_active_wf_fresh(old(self)@, client_ip@, name@, now);
                }
            },
        }
    }

    /// Runs the match procedure for `client_ip` at time `now`: if some
    /// rule's sequence is a suffix of the client's progress, the progress
    /// is cleared in place, the last-seen entry is removed, the resolved
    /// activation command is scheduled, and a rule with a deactivation
    /// command is recorded as active. The first matching rule in
    /// configuration order wins.
    pub fn match_sequence_at(&mut self, client_ip: &str, now: u128) -> (matched: bool)
        requires
            old(self).wf(),
        ensures
            final(self).wf(),
            final(self)@ == crate::model::match_spec(old(self)@, client_ip@, now),
            matched == crate::model::match_found(old(self)@, client_ip@),
    {
        let ghost m = old(self)@;
        let ci = match self.find_client(client_ip) {
            Some(i) => i,
            None => {
                return false;
            },
        };
        let mi = match self.find_matching_rule(&self.clients[ci].progress) {
            Some(j) => j,
            None => {
                return false;
            },
        };
        proof {
            lemma_first_where(m.clients, by_ip(client_ip@));
            assert(by_ip(client_ip@)(m.clients[ci as int]));
        }
        let mut entry = self.clients.remove(ci);
        entry.progress.clear();
        entry.last_seen = None;
        let ghost e2 = entry@;
        self.clients.insert(ci, entry);
        let cmd = resolve_template(self.sequence_rules[mi].commands.activate.as_str(), client_ip);
        let ghost cmdv = cmd@;
        self.pending.push(cmd);
        let ghost mid = self@;
        proof {
            assert(self.clients@ =~= old(self).clients@.update(ci as int, entry));
            assert(mid.clients =~= m.clients.update(
                ci as int,
                ClientModel {
                    ip: m.clients[ci as int].ip,
                    progress: Seq::empty(),
                    last_seen: None,
                },
            ));
            assert(mid.pending =~= m.pending.push(
                crate::strings::resolve_cmd(m.rules[mi as int].activate, client_ip@),
            ));
            assert(mid.rules == m.rules);
            assert(mid.active == m.active);
            assert(mid.watched == m.watched);
            assert forall|p: int, q: int| 0 <= p < q < mid.clients.len() implies (
            #[trigger] mid.clients[p]).ip != (#[trigger] mid.clients[q]).ip by {
                assert(mid.clients[p].ip == m.clients[p].ip);
                assert(mid.clients[q].ip == m.clients[q].ip);
            }
            assert forall|p: int| 0 <= p < mid.clients.len() implies ((
            #[trigger] mid.clients[p]).progress.len() == 0 <==> mid.clients[p].last_seen
                is None) by {
                if p != ci {
                    assert(mid.clients[p] == m.clients[p]);
                }
            }
            assert forall|p: int, q: int| 0 <= p < mid.clients.len() && 0 <= q
                < (#[trigger] mid.clients[p]).progress.len() implies mid.watched.contains(
                #[trigger] mid.clients[p].progress[q],
            ) by {
                if p != ci {
                    assert(mid.clients[p] == m.clients[p]);
                }
            }
            assert(crate::model::wf(mid));
        }
        let has_deact: bool = match &self.sequence_rules[mi].commands.deactivate {
            Some(_) => true,
            None => false,
        };
        proof {
            assert(has_deact == (m.rules[mi as int].deactivate is Some));
        }
        if has_deact {
            let name = self.sequence_rules[mi].name.clone();
            proof {
                lemma_first_where(m.rules, by_rule_name(name@));
                if rule_index(m.rules, name@) == -1 {
                    assert(by_rule_name(name@)(m.rules[mi as int]));
                    assert(false);
                }
                let k = rule_index(m.rules, name@);
                assert(by_rule_name(name@)(m.rules[k]));
                if k < mi as int {
                    assert(m.rules[k].name == m.rules[mi as int].name);
                    assert(false);
                }
                if k > mi as int {
                    assert(m.rules[k].name == m.rules[mi as int].name);
                    assert(false);
                }
                assert(rule_index(mid.rules, name@) == mi as int);
            }
            self.record_activation(client_ip, name, now);
            proof {
                assert(self@ =~= crate::model::match_spec(m, client_ip@, now));
            }
        } else {
            proof {
                assert(self@ =~= crate::model::match_spec(m, client_ip@, now));
            }
        }
        true
    }

    /// Feeds one observed SYN event into the detector at time `now`. A port
    /// outside the watched set changes nothing; otherwise the port is
    /// appended to the client's progress, the client's last-seen time is
    /// set, and the match procedure runs. Returns whether a rule matched.
    pub fn observe_at(&mut self, client_ip: String, port: u16, now: u128) -> (matched: bool)
        requires
            old(self).wf(),
        ensures
            final(self).wf(),
            final(self)@ == crate::model::observe_spec(old(self)@, client_ip@, port, now),
            matched == (old(self)@.watched.contains(port) && crate::model::match_found(
                crate::model::ingest_spec(old(self)@, client_ip@, port, now),
                client_ip@,
            )),
    {
        let ghost m = old(self)@;
        if !contains_port(&self.sequence_set, port) {
            return false;
        }
        match self.find_client(client_ip.as_str()) {
            Some(i) => {
                proof {
                    lemma_first_where(m.clients, by_ip(client_ip@));
                    assert(by_ip(client_ip@)(m.clients[i as int]));
                }
                let mut entry = self.clients.remove(i);
                entry.progress.push(port);
                entry.last_seen = Some(now);
                let ghost e2 = entry@;
                self.clients.insert(i, entry);
                proof {
                    assert(self.clients@ =~= old(self).clients@.update(i as int, entry));
                    assert(self@.clients =~= m.clients.update(
                        i as int,
                        ClientModel {
                            ip: m.clients[i as int].ip,
                            progress: m.clients[i as int].progress.push(port),
                            last_seen: Some(now),
                        },
                    ));
                    assert(self@ =~= crate::model::ingest_spec(m, client_ip@, port, now));
                }
            },
            None => {
                let mut prog: Vec<u16> = Vec::new();
                prog.push(port);
                let c = ClientState {
                    ip: client_ip.clone(),
                    progress: prog,
                    last_seen: Some(now),
                };
                let ghost cv = c@;
                self.clients.push(c);
                proof {
                    assert(cv.progress =~= seq![port]);
                    assert(self@.clients =~= m.clients.push(
                        ClientModel { ip: client_ip@, progress: seq![port], last_seen: Some(now) },
                    ));
                    assert(self@ =~= crate::model::ingest_spec(m, client_ip@, port, now));
                }
            },
        }
        let ghost mid = self@;
        proof {
            lemma_first_where(m.clients, by_ip(client_ip@));
            assert forall|p: int, q: int| 0 <= p < q < mid.clients.len() implies (
            #[trigger] mid.clients[p]).ip != (#[trigger] mid.clients[q]).ip by {
                if q < m.clients.len() {
                    assert(mid.clients[p].ip == m.clients[p].ip);
                    assert(mid.clients[q].ip == m.clients[q].ip);
                } else {
                    assert(mid.clients[p].ip == m.clients[p].ip);
                    assert(by_ip(client_ip@)(m.clients[p]) == false);
                }
            }
            assert forall|p: int| 0 <= p < mid.clients.len() implies ((
            #[trigger] mid.clients[p]).progress.len() == 0 <==> mid.clients[p].last_seen
                is None) by {
                if p < m.clients.len() && mid.clients[p] != m.clients[p] {
                } else if p < m.clients.len() {
                    assert(mid.clients[p] == m.clients[p]);
                }
            }
            assert forall|p: int, q: int| 0 <= p < mid.clients.len() && 0 <= q
                < (#[trigger] mid.clients[p]).progress.len() implies mid.watched.contains(
                #[trigger] mid.clients[p].progress[q],
            ) by {
                if p < m.clients.len() && mid.clients[p] == m.clients[p] {
                } else if p < m.clients.len() {
                    if q < m.clients[p].progress.len() {
                        assert(m.watched.contains(m.clients[p].progress[q]));
                    }
                }
            }
            assert(crate::model::wf(mid));
        }
        let matched = self.match_sequence_at(client_ip.as_str(), now);
        proof {
            assert(self@ == crate::model::observe_spec(m, client_ip@, port, now));
        }
        matched
    }

    /// Hands over the commands scheduled so far, oldest first, leaving the
    /// queue empty. The caller is expected to run each through the command
    /// executor.
    pub fn take_pending(&mut self) -> (cmds: Vec<String>)
        ensures
            final(self)@ == (DetectorModel { pending: Seq::empty(), ..old(self)@ }),
            cmds@.map_values(|s: String| s@) == old(self)@.pending,
            old(self).wf() ==> final(self).wf(),
    {
        let mut out: Vec<String> = Vec::new();
        core::mem::swap(&mut out, &mut self.pending);
        proof {
            assert(self@.pending =~= Seq::<Seq<char>>::empty());
            assert(self@ =~= (DetectorModel { pending: Seq::empty(), ..old(self)@ }));
        }
        out
    }

    /// The progress list recorded for `client_ip`, if the client is
    /// tracked.
    pub fn client_progress(&self, client_ip: &str) -> (r: Option<Vec<u16>>)
        ensures
            (client_index(self@.clients, client_ip@) >= 0 ==> r is Some && r->0@
                == self@.clients[client_index(self@.clients, client_ip@)].progress),
            (client_index(self@.clients, client_ip@) == -1 ==> r is None),
    {
        match self.find_client(client_ip) {
            Some(i) => Some(clone_ports(&self.clients[i].progress)),
            None => None,
        }
    }

    /// The last-seen time recorded for `client_ip`, if any.
    pub fn client_last_seen(&self, client_ip: &str) -> (r: Option<u128>)
        ensures
            (client_index(self@.clients, client_ip@) >= 0 ==> r == self@.clients[client_index(
                self@.clients,
                client_ip@,
            )].last_seen),
            (client_index(self@.clients, client_ip@) == -1 ==> r is None),
    {
        match self.find_client(client_ip) {
            Some(i) => self.clients[i].last_seen,
            None => None,
        }
    }

    /// Whether `name` is currently recorded as activated for `client_ip`.
    pub fn is_rule_active(&self, client_ip: &str, name: &str) -> (r: bool)
        ensures
            r == (active_index(self@.active, client_ip@) >= 0 && active_rule_index(
                self@.active[active_index(self@.active, client_ip@)].rules,
                name@,
            ) >= 0),
    {
        match self.find_active(client_ip) {
            Some(i) => match find_active_rule(&self.active[i].rules, name) {
                Some(_) => true,
                None => false,
            },
            None => false,
        }
    }

    /// The number of clients with at least one activated rule.
    pub fn active_clients_len(&self) -> (r: usize)
        ensures
            r == self@.active.len(),
    {
        self.active.len()
    }

    /// One housekeeping pass at time `now`, the loop body of the
    /// housekeeping worker: first the inactivity sweep removes clients
    /// silent for at least the inactivity timeout, then the lifetime sweep
    /// removes activations that outlived their rule's lifetime and
    /// schedules their deactivation commands. Returns the earliest
    /// surviving deadline, clamped into `u128`, as the time to sleep
    /// until — `None` when there is nothing to wait for.
    pub fn housekeep_at(&mut self, now: u128) -> (next: Option<u128>)
        requires
            old(self).wf(),
        ensures
            final(self).wf(),
            final(self)@ == crate::model::sweep_spec(old(self)@, now),
            clamped(next, crate::model::next_deadline(final(self)@)),
    {
        let ghost m = old(self)@;
        let timeout: u128 = self.timeout;
        let ghost cs0 = m.clients;
        let ghost kc = crate::model::keep_client(timeout, now);
        let mut i: usize = 0;
        let ghost mut p: int = 0;
        proof {
            reveal(Seq::filter);
            assert(cs0.take(0) =~= Seq::<ClientModel>::empty());
            assert(cs0.skip(0) =~= cs0);
            assert(crate::model::sweep_clients(cs0.take(0), timeout, now) =~= Seq::<
                ClientModel,
            >::empty());
            assert(self@.clients =~= crate::model::sweep_clients(cs0.take(0), timeout, now)
                + cs0.skip(0));
        }
        while i < self.clients.len()
            invariant
                cs0 == m.clients,
                kc == crate::model::keep_client(timeout, now),
                0 <= p <= cs0.len(),
                i as int == crate::model::sweep_clients(cs0.take(p), timeout, now).len(),
                self@.clients == crate::model::sweep_clients(cs0.take(p), timeout, now) + cs0.skip(
                    p,
                ),
                timeout == m.timeout,
                self.timeout == m.timeout,
                self@.watched == m.watched,
                self@.rules == m.rules,
                self@.active == m.active,
                self@.pending == m.pending,
            decreases cs0.len() - p,
        {
            proof {
                assert(self@.clients.len() == i + (cs0.len() - p));
                assert(p < cs0.len());
                assert(self@.clients[i as int] == cs0.skip(p)[0]);
                assert(cs0.skip(p)[0] == cs0[p]);
                assert(self.clients@[i as int]@ == cs0[p]);
            }
            let expired: bool = match self.clients[i].last_seen {
                Some(t) => now >= t && now - t >= timeout,
                None => false,
            };
            proof {
                assert(expired == crate::model::client_expired(cs0[p], timeout, now));
                assert(cs0.take(p + 1) =~= cs0.take(p).push(cs0[p]));
                cs0.take(p).lemma_filter_push(cs0[p], kc);
                assert(cs0.skip(p).drop_first() =~= cs0.skip(p + 1));
            }
            if expired {
                let ghost vprev = self@.clients;
                let _ = self.clients.remove(i);
                proof {
                    assert(crate::model::keep_client(timeout, now)(cs0[p])
                        == !crate::model::client_expired(cs0[p], timeout, now));
                    assert(!kc(cs0[p]));
                    assert(crate::model::sweep_clients(cs0.take(p + 1), timeout, now)
                        == crate::model::sweep_clients(cs0.take(p), timeout, now));
                    assert(self@.clients =~= vprev.remove(i as int));
                    assert(vprev.remove(i as int) =~= crate::model::sweep_clients(
                        cs0.take(p + 1),
                        timeout,
                        now,
                    ) + cs0.skip(p + 1));
                    p = p + 1;
                }
            } else {
                proof {
                    assert(crate::model::keep_client(timeout, now)(cs0[p])
                        == !crate::model::client_expired(cs0[p], timeout, now));
                    assert(kc(cs0[p]));
                    assert(crate::model::sweep_clients(cs0.take(p + 1), timeout, now)
                        =~= crate::model::sweep_clients(cs0.take(p), timeout, now).push(cs0[p]));
                    assert(self@.clients =~= crate::model::sweep_clients(
                        cs0.take(p + 1),
                        timeout,
                        now,
                    ) + cs0.skip(p + 1));
                    p = p + 1;
                }
                i = i + 1;
            }
        }
        proof {
            assert(p == cs0.len());
            assert(cs0.take(p) =~= cs0);
            assert(cs0.skip(p) =~= Seq::<ClientModel>::empty());
            assert(self@.clients =~= crate::model::sweep_clients(cs0, timeout, now));
        }

        let ghost am = m.active;
        let ghost ka = crate::model::keep_active();
        let ghost kr = crate::model::keep_active_rule(m.rules, now);
        let ghost er = crate::model::expired_active_rule(m.rules, now);
        let ghost pend0 = m.pending;
        let mut i2: usize = 0;
        let ghost mut q: int = 0;
        proof {
            reveal(Seq::filter);
            assert(am.take(0) =~= Seq::<ActiveClientModel>::empty());
            assert(am.skip(0) =~= am);
            assert(am.take(0).map_values(crate::model::sweep_one_fn(m.rules, now)) =~= Seq::<
                ActiveClientModel,
            >::empty());
            assert(crate::model::sweep_active(am.take(0), m.rules, now) =~= Seq::<
                ActiveClientModel,
            >::empty());
            assert(crate::model::sweep_cmds(am.take(0), m.rules, now) =~= Seq::<Seq<char>>::empty());
            assert(self@.pending =~= pend0 + crate::model::sweep_cmds(am.take(0), m.rules, now));
            assert(self@.active =~= crate::model::sweep_active(am.take(0), m.rules, now) + am.skip(
                0,
            ));
        }
        while i2 < self.active.len()
            invariant
                crate::model::wf(m),
                am == m.active,
                cs0 == m.clients,
                pend0 == m.pending,
                kr == crate::model::keep_active_rule(m.rules, now),
                er == crate::model::expired_active_rule(m.rules, now),
                ka == crate::model::keep_active(),
                0 <= q <= am.len(),
                i2 as int == crate::model::sweep_active(am.take(q), m.rules, now).len(),
                self@.active == crate::model::sweep_active(am.take(q), m.rules, now) + am.skip(q),
                self@.pending == pend0 + crate::model::sweep_cmds(am.take(q), m.rules, now),
                self@.clients == crate::model::sweep_clients(cs0, m.timeout, now),
                self@.watched == m.watched,
                self@.rules == m.rules,
                self.timeout == m.timeout,
            decreases am.len() - q,
        {
            proof {
                assert(self@.active.len() == i2 + (am.len() - q));
                assert(q < am.len());
                assert(self@.active[i2 as int] == am.skip(q)[0]);
                assert(am.skip(q)[0] == am[q]);
                assert(self.active@[i2 as int]@ == am[q]);
            }
            let ghost aprev = self@.active;
            let mut entry = self.active.remove(i2);
            let ghost pendq = pend0 + crate::model::sweep_cmds(am.take(q), m.rules, now);
            let ghost rs0 = am[q].rules;
            proof {
                assert(entry@ == am[q]);
                assert(self@.active =~= aprev.remove(i2 as int));
                assert(am.skip(q).drop_first() =~= am.skip(q + 1));
                assert(aprev.remove(i2 as int) =~= crate::model::sweep_active(
                    am.take(q),
                    m.rules,
                    now,
                ) + am.skip(q + 1));
                reveal(Seq::filter);
                assert(rs0.take(0) =~= Seq::<ActiveRuleModel>::empty());
                assert(rs0.skip(0) =~= rs0);
                assert(rs0.take(0).filter(kr) =~= Seq::<ActiveRuleModel>::empty());
                assert(rs0.take(0).filter(er) =~= Seq::<ActiveRuleModel>::empty());
                assert(rs0.take(0).filter(er).map_values(
                    crate::model::resolve_deact(m.rules, am[q].ip),
                ) =~= Seq::<Seq<char>>::empty());
                assert(self@.pending =~= pendq + rs0.take(0).filter(er).map_values(
                    crate::model::resolve_deact(m.rules, am[q].ip),
                ));
            }
            let mut j: usize = 0;
            let ghost mut s: int = 0;
            while j < entry.rules.len()
                invariant
                    crate::model::wf(m),
                    am == m.active,
                    kr == crate::model::keep_active_rule(m.rules, now),
                    er == crate::model::expired_active_rule(m.rules, now),
                    0 <= q < am.len(),
                    rs0 == am[q].rules,
                    pendq == pend0 + crate::model::sweep_cmds(am.take(q), m.rules, now),
                    0 <= s <= rs0.len(),
                    j as int == rs0.take(s).filter(kr).len(),
                    entry.rules@.map_values(|x: ActiveRuleState| x@) == rs0.take(s).filter(kr)
                        + rs0.skip(s),
                    entry.ip@ == am[q].ip,
                    self@.pending == pendq + rs0.take(s).filter(er).map_values(
                        crate::model::resolve_deact(m.rules, am[q].ip),
                    ),
                    self@.active == crate::model::sweep_active(am.take(q), m.rules, now) + am.skip(
                        q + 1,
                    ),
                    i2 as int == crate::model::sweep_active(am.take(q), m.rules, now).len(),
                    self@.clients == crate::model::sweep_clients(cs0, m.timeout, now),
                    self@.watched == m.watched,
                    self@.rules == m.rules,
                    self.timeout == m.timeout,
                decreases rs0.len() - s,
            {
                proof {
                    assert(entry.rules@.map_values(|x: ActiveRuleState| x@).len()
                        == entry.rules@.len());
                    assert(entry.rules@.len() == j + (rs0.len() - s));
                    assert(s < rs0.len());
                    assert(entry.rules@.map_values(|x: ActiveRuleState| x@)[j as int] == rs0.skip(
                        s,
                    )[0]);
                    assert(rs0.skip(s)[0] == rs0[s]);
                    assert(entry.rules@[j as int]@ == rs0[s]);
                    assert(0 <= q < m.active.len());
                    assert(0 <= s < m.active[q].rules.len());
                    assert(m.active[q].rules[s] == rs0[s]);
                    assert(crate::model::active_rule_ok(m.rules, m.active[q].rules[s].rule));
                    assert(crate::model::active_rule_ok(m.rules, rs0[s].rule));
                }
                let lifetime: u128 = match self.find_rule(entry.rules[j].rule.as_str()) {
                    Some(k) => self.sequence_rules[k].commands.timeout,
                    None => 0,
                };
                proof {
                    assert(lifetime == crate::model::rule_lifetime(m.rules, rs0[s].rule));
                }
                let since: u128 = entry.rules[j].since;
                let rexp: bool = now >= since && now - since >= lifetime;
                proof {
                    assert(since == rs0[s].since);
                    assert(rexp == crate::model::active_rule_expired(rs0[s], m.rules, now));
                    assert(crate::model::keep_active_rule(m.rules, now)(rs0[s])
                        == !crate::model::active_rule_expired(rs0[s], m.rules, now));
                    assert(crate::model::expired_active_rule(m.rules, now)(rs0[s])
                        == crate::model::active_rule_expired(rs0[s], m.rules, now));
                    assert(kr(rs0[s]) == !rexp);
                    assert(er(rs0[s]) == rexp);
                    assert(rs0.take(s + 1) =~= rs0.take(s).push(rs0[s]));
                    rs0.take(s).lemma_filter_push(rs0[s], kr);
                    rs0.take(s).lemma_filter_push(rs0[s], er);
                    assert(rs0.skip(s).drop_first() =~= rs0.skip(s + 1));
                }
                if rexp {
                    let cmdtext: String = match self.find_rule(entry.rules[j].rule.as_str()) {
                        Some(k) => {
                            match &self.sequence_rules[k].commands.deactivate {
                                Some(d) => resolve_template(d.as_str(), entry.ip.as_str()),
                                None => {
                                    proof {
                                        assert(false);
                                    }
                                    String::new()
                                },
                            }
                        },
                        None => {
                            proof {
                                assert(false);
                            }
                            String::new()
                        },
                    };
                    proof {
                        assert(cmdtext@ == crate::model::resolve_deact(m.rules, am[q].ip)(rs0[s]));
                    }
                    let ghost cv = cmdtext@;
                    let ghost prevpend = self@.pending;
                    let ghost prevmap = entry.rules@.map_values(|x: ActiveRuleState| x@);
                    self.pending.push(cmdtext);
                    let _ = entry.rules.remove(j);
                    proof {
                        assert(self@.pending =~= prevpend.push(cv));
                        assert(entry.rules@.map_values(|x: ActiveRuleState| x@) =~= prevmap.remove(
                            j as int,
                        ));
                        assert(prevmap.remove(j as int) =~= rs0.take(s + 1).filter(kr) + rs0.skip(
                            s + 1,
                        ));
                        assert(rs0.take(s + 1).filter(er).map_values(
                            crate::model::resolve_deact(m.rules, am[q].ip),
                        ) =~= rs0.take(s).filter(er).map_values(
                            crate::model::resolve_deact(m.rules, am[q].ip),
                        ).push(crate::model::resolve_deact(m.rules, am[q].ip)(rs0[s])));
                        assert(self@.pending =~= pendq + rs0.take(s + 1).filter(er).map_values(
                            crate::model::resolve_deact(m.rules, am[q].ip),
                        ));
                        s = s + 1;
                    }
                } else {
                    proof {
                        assert(entry.rules@.map_values(|x: ActiveRuleState| x@) =~= rs0.take(s + 1)
                            .filter(kr) + rs0.skip(s + 1));
                        assert(rs0.take(s + 1).filter(er).map_values(
                            crate::model::resolve_deact(m.rules, am[q].ip),
                        ) =~= rs0.take(s).filter(er).map_values(
                            crate::model::resolve_deact(m.rules, am[q].ip),
                        ));
                        s = s + 1;
                    }
                    j = j + 1;
                }
            }
            proof {
                assert(s == rs0.len());
                assert(rs0.take(s) =~= rs0);
                assert(rs0.skip(s) =~= Seq::<ActiveRuleModel>::empty());
                assert(entry.rules@.map_values(|x: ActiveRuleState| x@) =~= rs0.filter(kr));
                assert(entry@ =~= crate::model::sweep_active_one(am[q], m.rules, now));
                assert(rs0.filter(er).map_values(crate::model::resolve_deact(m.rules, am[q].ip))
                    == crate::model::client_deactivations(am[q], m.rules, now));
                crate::model::lemma_sweep_cmds_push(am.take(q), am[q], m.rules, now);
                assert(am.take(q + 1) =~= am.take(q).push(am[q]));
                assert(crate::model::sweep_cmds(am.take(q + 1), m.rules, now) == crate::model::sweep_cmds(
                    am.take(q),
                    m.rules,
                    now,
                ) + crate::model::client_deactivations(am[q], m.rules, now));
                assert(self@.pending =~= pend0 + crate::model::sweep_cmds(
                    am.take(q + 1),
                    m.rules,
                    now,
                ));
                assert(am.take(q + 1).map_values(crate::model::sweep_one_fn(m.rules, now))
                    =~= am.take(q).map_values(crate::model::sweep_one_fn(m.rules, now)).push(
                    crate::model::sweep_active_one(am[q], m.rules, now),
                ));
                am.take(q).map_values(crate::model::sweep_one_fn(m.rules, now)).lemma_filter_push(
                    crate::model::sweep_active_one(am[q], m.rules, now),
                    ka,
                );
            }
            if entry.rules.is_empty() {
                proof {
                    assert(crate::model::keep_active()(crate::model::sweep_active_one(am[q], m.rules, now))
                        == (crate::model::sweep_active_one(am[q], m.rules, now).rules.len() > 0));
                    assert(!ka(crate::model::sweep_active_one(am[q], m.rules, now)));
                    assert(crate::model::sweep_active(am.take(q + 1), m.rules, now)
                        =~= crate::model::sweep_active(am.take(q), m.rules, now));
                    assert(self@.active =~= crate::model::sweep_active(am.take(q + 1), m.rules, now)
                        + am.skip(q + 1));
                    q = q + 1;
                }
            } else {
                let ghost aprev2 = self@.active;
                let ghost e2 = entry@;
                self.active.insert(i2, entry);
                proof {
                    assert(crate::model::keep_active()(crate::model::sweep_active_one(am[q], m.rules, now))
                        == (crate::model::sweep_active_one(am[q], m.rules, now).rules.len() > 0));
                    assert(ka(crate::model::sweep_active_one(am[q], m.rules, now)));
                    assert(crate::model::sweep_active(am.take(q + 1), m.rules, now)
                        =~= crate::model::sweep_active(am.take(q), m.rules, now).push(
                        crate::model::sweep_active_one(am[q], m.rules, now),
                    ));
                    assert(self@.active =~= aprev2.insert(i2 as int, e2));
                    assert(aprev2.insert(i2 as int, e2) =~= crate::model::sweep_active(
                        am.take(q + 1),
                        m.rules,
                        now,
                    ) + am.skip(q + 1));
                    q = q + 1;
                }
                i2 = i2 + 1;
            }
        }
        proof {
            assert(q == am.len());
            assert(am.take(q) =~= am);
            assert(am.skip(q) =~= Seq::<ActiveClientModel>::empty());
            assert(self@.active =~= crate::model::sweep_active(am, m.rules, now));
            assert(self@ =~= crate::model::sweep_spec(m, now));
            crate::model::lemma_sweep_wf(m, now);
        }

        let cn = self.clients_next();
        let an = self.active_next();
        let next = min_opt_u128(cn, an);
        proof {
            lemma_clamp_min(
                cn,
                crate::model::clients_deadline(self@.clients, self@.timeout),
                an,
                crate::model::active_deadline(self@.active, self@.rules),
            );
        }
        next
    }

    /// The earliest inactivity deadline over the tracked clients, clamped
    /// into `u128`.
    fn clients_next(&self) -> (r: Option<u128>)
        ensures
            clamped(r, crate::model::clients_deadline(self@.clients, self@.timeout)),
    {
        let ghost cs = self@.clients;
        let ghost goal = crate::model::clients_deadline(cs, self@.timeout);
        let n: usize = self.clients.len();
        let mut best: Option<u128> = None;
        let ghost mut bx: Option<int> = None;
        let mut i: usize = 0;
        proof {
            assert(cs.skip(0) =~= cs);
        }
        while i < n
            invariant
                n == self.clients@.len(),
                cs == self@.clients,
                goal == crate::model::clients_deadline(cs, self@.timeout),
                i <= n,
                crate::model::opt_min(
                    bx,
                    crate::model::clients_deadline(cs.skip(i as int), self@.timeout),
                ) == goal,
                clamped(best, bx),
            decreases n - i,
        {
            let ghost rest = cs.skip(i as int);
            proof {
                assert(rest[0] == cs[i as int]);
                assert(rest.drop_first() =~= cs.skip(i + 1));
            }
            match self.clients[i].last_seen {
                Some(t) => {
                    let d = sat_add_u128(t, self.timeout);
                    let ghost dx: int = t + self@.timeout;
                    proof {
                        lemma_clamp_min(best, bx, Some(d), Some(dx));
                        assert(crate::model::opt_min(
                            crate::model::opt_min(bx, Some(dx)),
                            crate::model::clients_deadline(cs.skip(i + 1), self@.timeout),
                        ) == crate::model::opt_min(
                            bx,
                            crate::model::opt_min(
                                Some(dx),
                                crate::model::clients_deadline(cs.skip(i + 1), self@.timeout),
                            ),
                        ));
                        bx = crate::model::opt_min(bx, Some(dx));
                    }
                    best = min_opt_u128(best, Some(d));
                },
                None => {},
            }
            i = i + 1;
        }
        proof {
            assert(cs.skip(n as int) =~= Seq::<ClientModel>::empty());
        }
        best
    }

    /// The earliest lifetime deadline over one client's activated rules,
    /// clamped into `u128`.
    fn rules_next(&self, rules: &Vec<ActiveRuleState>) -> (r: Option<u128>)
        ensures
            clamped(
                r,
                crate::model::active_rules_deadline(
                    rules@.map_values(|x: ActiveRuleState| x@),
                    self@.rules,
                ),
            ),
    {
        let ghost rs = rules@.map_values(|x: ActiveRuleState| x@);
        let ghost goal = crate::model::active_rules_deadline(rs, self@.rules);
        let n: usize = rules.len();
        let mut best: Option<u128> = None;
        let ghost mut bx: Option<int> = None;
        let mut i: usize = 0;
        proof {
            assert(rs.skip(0) =~= rs);
        }
        while i < n
            invariant
                n == rules@.len(),
                rs == rules@.map_values(|x: ActiveRuleState| x@),
                goal == crate::model::active_rules_deadline(rs, self@.rules),
                i <= n,
                crate::model::opt_min(
                    bx,
                    crate::model::active_rules_deadline(rs.skip(i as int), self@.rules),
                ) == goal,
                clamped(best, bx),
            decreases n - i,
        {
            let ghost rest = rs.skip(i as int);
            proof {
                assert(rest[0] == rs[i as int]);
                assert(rest.drop_first() =~= rs.skip(i + 1));
            }
            let lifetime: u128 = match self.find_rule(rules[i].rule.as_str()) {
                Some(k) => self.sequence_rules[k].commands.timeout,
                None => 0,
            };
            proof {
                assert(lifetime == crate::model::rule_lifetime(self@.rules, rs[i as int].rule));
            }
            let d = sat_add_u128(rules[i].since, lifetime);
            let ghost dx: int = rs[i as int].since + crate::model::rule_lifetime(
                self@.rules,
                rs[i as int].rule,
            );
            proof {
                lemma_clamp_min(best, bx, Some(d), Some(dx));
                assert(crate::model::opt_min(
                    crate::model::opt_min(bx, Some(dx)),
                    crate::model::active_rules_deadline(rs.skip(i + 1), self@.rules),
                ) == crate::model::opt_min(
                    bx,
                    crate::model::opt_min(
                        Some(dx),
                        crate::model::active_rules_deadline(rs.skip(i + 1), self@.rules),
                    ),
                ));
                bx = crate::model::opt_min(bx, Some(dx));
            }
            best = min_opt_u128(best, Some(d));
            i = i + 1;
        }
        proof {
            assert(rs.skip(n as int) =~= Seq::<ActiveRuleModel>::empty());
        }
        best
    }

    /// The earliest lifetime deadline over the whole active map, clamped
    /// into `u128`.
    fn active_next(&self) -> (r: Option<u128>)
        ensures
            clamped(r, crate::model::active_deadline(self@.active, self@.rules)),
    {
        let ghost am = self@.active;
        let ghost goal = crate::model::active_deadline(am, self@.rules);
        let n: usize = self.active.len();
        let mut best: Option<u128> = None;
        let ghost mut bx: Option<int> = None;
        let mut i: usize = 0;
        proof {
            assert(am.skip(0) =~= am);
        }
        while i < n
            invariant
                n == self.active@.len(),
                am == self@.active,
                goal == crate::model::active_deadline(am, self@.rules),
                i <= n,
                crate::model::opt_min(
                    bx,
                    crate::model::active_deadline(am.skip(i as int), self@.rules),
                ) == goal,
                clamped(best, bx),
            decreases n - i,
        {
            let ghost rest = am.skip(i as int);
            proof {
                assert(rest[0] == am[i as int]);
                assert(rest.drop_first() =~= am.skip(i + 1));
            }
            let sub = self.rules_next(&self.active[i].rules);
            let ghost sx = crate::model::active_rules_deadline(am[i as int].rules, self@.rules);
            proof {
                assert(self.active@[i as int]@ == am[i as int]);
                lemma_clamp_min(best, bx, sub, sx);
                assert(crate::model::opt_min(
                    crate::model::opt_min(bx, sx),
                    crate::model::active_deadline(am.skip(i + 1), self@.rules),
                ) == crate::model::opt_min(
                    bx,
                    crate::model::opt_min(
                        sx,
                        crate::model::active_deadline(am.skip(i + 1), self@.rules),
                    ),
                ));
                bx = crate::model::opt_min(bx, sx);
            }
            best = min_opt_u128(best, sub);
            i = i + 1;
        }
        proof {
            assert(am.skip(n as int) =~= Seq::<ActiveClientModel>::empty());
        }
        best
    }

    /// After an activation is recorded into an existing client entry, the
    /// state stays well-formed.
    proof fn lemma_active_wf_after(&self, m: DetectorModel, i: int, name: Seq<char>, now: u128)
        requires
            crate::model::wf(m),
            rule_index(m.rules, name) >= 0,
            m.rules[rule_index(m.rules, name)].deactivate is Some,
            0 <= i < m.active.len(),
            self@.rules == m.rules,
            self@.watched == m.watched,
            self@.clients == m.clients,
            self@.active.len() == m.active.len(),
            (forall|k: int| 0 <= k < m.active.len() && k != i ==> #[trigger] self@.active[k]
                == m.active[k]),
            (self@.active[i].ip == m.active[i].ip),
            (active_rule_index(m.active[i].rules, name) >= 0 ==> self@.active[i].rules
                == m.active[i].rules.update(
                active_rule_index(m.active[i].rules, name),
                (ActiveRuleModel { rule: name, since: now }),
            )),
            (active_rule_index(m.active[i].rules, name) < 0 ==> self@.active[i].rules
                == m.active[i].rules.push((ActiveRuleModel { rule: name, since: now }))),
        ensures
            self.wf(),
    {
        let m2 = self@;
        let rs = m.active[i].rules;
        let j = active_rule_index(rs, name);
        lemma_first_where(rs, by_active_rule(name));
        if j >= 0 {
            assert(by_active_rule(name)(rs[j]));
        }
        assert forall|p: int, q: int| 0 <= p < q < m2.active.len() implies (
        #[trigger] m2.active[p]).ip != (#[trigger] m2.active[q]).ip by {
            assert(m2.active[p].ip == m.active[p].ip);
            assert(m2.active[q].ip == m.active[q].ip);
        }
        assert forall|p: int| 0 <= p < m2.active.len() implies (
        #[trigger] m2.active[p]).rules.len() > 0 by {
            if p != i {
                assert(m2.active[p] == m.active[p]);
            }
        }
        assert forall|p: int, q: int, w: int| 0 <= p < m2.active.len() && 0 <= q < w
            < (#[trigger] m2.active[p]).rules.len() implies (#[trigger] m2.active[p].rules[q]).rule
            != (#[trigger] m2.active[p].rules[w]).rule by {
            if p != i {
                assert(m2.active[p] == m.active[p]);
            } else {
                if j >= 0 {
                    assert(rs[j].rule == name);
                    if q != j {
                        assert(m2.active[p].rules[q] == rs[q]);
                    }
                    if w != j {
                        assert(m2.active[p].rules[w] == rs[w]);
                    }
                } else {
                    if q < rs.len() {
                        assert(m2.active[p].rules[q] == rs[q]);
                    }
                    if w < rs.len() {
                        assert(m2.active[p].rules[w] == rs[w]);
                    } else {
                        assert(m2.active[p].rules[w].rule == name);
                        assert(forall|u: int| 0 <= u < rs.len() ==> (#[trigger] rs[u]).rule
                            != name);
                    }
                }
            }
        }
        assert forall|p: int, q: int| 0 <= p < m2.active.len() && 0 <= q
            < (#[trigger] m2.active[p]).rules.len() implies crate::model::active_rule_ok(
            m2.rules,
            (#[trigger] m2.active[p].rules[q]).rule,
        ) by {
            if p != i {
                assert(m2.active[p] == m.active[p]);
            } else {
                if j >= 0 {
                    if q != j {
                        assert(m2.active[p].rules[q] == rs[q]);
                    } else {
                        assert(m2.active[p].rules[q].rule == name);
                    }
                } else {
                    if q < rs.len() {
                        assert(m2.active[p].rules[q] == rs[q]);
                    } else {
                        assert(m2.active[p].rules[q].rule == name);
                    }
                }
            }
        }
    }

    /// After an activation is recorded as a fresh client entry, the state
    /// stays well-formed.
    proof fn lemma_active_wf_fresh(&self, m: DetectorModel, ip: Seq<char>, name: Seq<char>, now: u128)
        requires
            crate::model::wf(m),
            rule_index(m.rules, name) >= 0,
            m.rules[rule_index(m.rules, name)].deactivate is Some,
            forall|k: int| 0 <= k < m.active.len() ==> (#[trigger] m.active[k]).ip != ip,
            self@.rules == m.rules,
            self@.watched == m.watched,
            self@.clients == m.clients,
            self@.active == m.active.push(
                ActiveClientModel { ip: ip, rules: seq![ActiveRuleModel { rule: name, since: now }] },
            ),
        ensures
            self.wf(),
    {
        let m2 = self@;
        assert forall|p: int, q: int| 0 <= p < q < m2.active.len() implies (
        #[trigger] m2.active[p]).ip != (#[trigger] m2.active[q]).ip by {
            if q < m.active.len() {
                assert(m2.active[p] == m.active[p]);
                assert(m2.active[q] == m.active[q]);
            } else {
                assert(m2.active[p] == m.active[p]);
                assert(m2.active[q].ip == ip);
            }
        }
        assert forall|p: int| 0 <= p < m2.active.len() implies (
        #[trigger] m2.active[p]).rules.len() > 0 by {
            if p < m.active.len() {
                assert(m2.active[p] == m.active[p]);
            }
        }
        assert forall|p: int, q: int, w: int| 0 <= p < m2.active.len() && 0 <= q < w
            < (#[trigger] m2.active[p]).rules.len() implies (#[trigger] m2.active[p].rules[q]).rule
            != (#[trigger] m2.active[p].rules[w]).rule by {
            if p < m.active.len() {
                assert(m2.active[p] == m.active[p]);
            }
        }
        assert forall|p: int, q: int| 0 <= p < m2.active.len() && 0 <= q
            < (#[trigger] m2.active[p]).rules.len() implies crate::model::active_rule_ok(
            m2.rules,
            (#[trigger] m2.active[p].rules[q]).rule,
        ) by {
            if p < m.active.len() {
                assert(m2.active[p] == m.active[p]);
            } else {
                assert(m2.active[p].rules[q].rule == name);
            }
        }
    }
}

/// `o` is the clamped image of the exact deadline `ox`.
pub open spec fn clamped(o: Option<u128>, ox: Option<int>) -> bool {
    &&& (o is None <==> ox is None)
    &&& (o is Some ==> o->0 == crate::model::clamp_u128(ox->0))
}

/// The smaller of two optional clamped deadlines.
pub open spec fn spec_min_u128(a: Option<u128>, b: Option<u128>) -> Option<u128> {
    match (a, b) {
        (Option::None, _) => b,
        (_, Option::None) => a,
        (Option::Some(x), Option::Some(y)) => if x <= y {
            a
        } else {
            b
        },
    }
}

/// Taking the minimum commutes with clamping.
proof fn lemma_clamp_min(a: Option<u128>, ax: Option<int>, b: Option<u128>, bx: Option<int>)
    requires
        clamped(a, ax),
        clamped(b, bx),
    ensures
        clamped(spec_min_u128(a, b), crate::model::opt_min(ax, bx)),
{
}

/// The smaller of two optional deadlines, `None` meaning none at all.
fn min_opt_u128(a: Option<u128>, b: Option<u128>) -> (r: Option<u128>)
    ensures
        r == spec_min_u128(a, b),
{
    match (a, b) {
        (None, y) => y,
        (x, None) => x,
        (Some(x), Some(y)) => if x <= y {
            Some(x)
        } else {
            Some(y)
        },
    }
}

/// Saturating addition on `u128`.
fn sat_add_u128(a: u128, b: u128) -> (r: u128)
    ensures
        r == crate::model::clamp_u128(a + b),
{
    if a > u128::MAX - b {
        u128::MAX
    } else {
        a + b
    }
}

/// The index of the activated rule named `name` in one client's rule list,
/// if any.
fn find_active_rule(rules: &Vec<ActiveRuleState>, name: &str) -> (r: Option<usize>)
    ensures
        match r {
            Some(i) => i < rules@.len() && active_rule_index(
                rules@.map_values(|x: ActiveRuleState| x@),
                name@,
            ) == i as int,
            None => active_rule_index(rules@.map_values(|x: ActiveRuleState| x@), name@) == -1,
        },
{
    let ghost rs = rules@.map_values(|x: ActiveRuleState| x@);
    let n: usize = rules.len();
    let mut i: usize = 0;
    while i < n
        invariant
            rs == rules@.map_values(|x: ActiveRuleState| x@),
            n == rules@.len(),
            i <= n,
            forall|j: int| 0 <= j < i ==> (#[trigger] rules@[j]).rule@ != name@,
        decreases n - i,
    {
        if str_eq(rules[i].rule.as_str(), name) {
            proof {
                lemma_first_where(rs, by_active_rule(name@));
                assert(by_active_rule(name@)(rs[i as int]));
            }
            return Some(i);
        }
        i = i + 1;
    }
    proof {
        lemma_first_where(rs, by_active_rule(name@));
        assert forall|j: int| 0 <= j < rs.len() implies !by_active_rule(name@)(
            #[trigger] rs[j],
        ) by {
            assert(rs[j] == rules@[j]@);
        }
        if active_rule_index(rs, name@) != -1 {
            assert(by_active_rule(name@)(rs[active_rule_index(rs, name@)]));
        }
    }
    None
}

/// The index of the rule named `name` in a rule list under construction,
/// if any.
fn find_rule_slot(rules: &Vec<DetectorRule>, name: &str) -> (r: Option<usize>)
    ensures
        match r {
            Some(i) => i < rules@.len() && rule_index(
                rules@.map_values(|q: DetectorRule| q@),
                name@,
            ) == i as int,
            None => rule_index(rules@.map_values(|q: DetectorRule| q@), name@) == -1,
        },
{
    let ghost rs = rules@.map_values(|q: DetectorRule| q@);
    let n: usize = rules.len();
    let mut i: usize = 0;
    while i < n
        invariant
            rs == rules@.map_values(|q: DetectorRule| q@),
            n == rules@.len(),
            i <= n,
            forall|j: int| 0 <= j < i ==> (#[trigger] rules@[j]).name@ != name@,
        decreases n - i,
    {
        if str_eq(rules[i].name.as_str(), name) {
            proof {
                lemma_first_where(rs, by_rule_name(name@));
                assert(by_rule_name(name@)(rs[i as int]));
            }
            return Some(i);
        }
        i = i + 1;
    }
    proof {
        lemma_first_where(rs, by_rule_name(name@));
        assert forall|j: int| 0 <= j < rs.len() implies !by_rule_name(name@)(
            #[trigger] rs[j],
        ) by {
            assert(rs[j] == rules@[j]@);
        }
        if rule_index(rs, name@) != -1 {
            assert(by_rule_name(name@)(rs[rule_index(rs, name@)]));
        }
    }
    None
}

} // verus!

