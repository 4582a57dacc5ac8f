//! The mathematical model of the detector: ghost records for the
//! configuration and the mutable state, and the index and matching helpers
//! that the transition functions and the contracts are stated with.

use vstd::prelude::*;
use crate::strings::resolve_cmd;

verus! {

/// A configured knock rule, as the contracts see it.
#[verifier::ext_equal]
pub struct RuleModel {
    pub name: Seq<char>,
    pub sequence: Seq<u16>,
    pub activate: Seq<char>,
    pub deactivate: Option<Seq<char>>,
    pub setup: Option<Seq<char>>,
    pub teardown: Option<Seq<char>>,
    pub timeout: Option<u128>,
}

/// A rule as the detector keeps it: the lifecycle commands are dropped and
/// the lifetime default is applied.
#[verifier::ext_equal]
pub struct RuleSpec {
    pub name: Seq<char>,
    pub sequence: Seq<u16>,
    pub activate: Seq<char>,
    pub deactivate: Option<Seq<char>>,
    pub timeout: u128,
}

/// One tracked client: its progress list and the time of its last
/// watched-port event. `last_seen` is `None` exactly while the progress
/// list is empty (the residue a successful match leaves behind).
#[verifier::ext_equal]
pub struct ClientModel {
    pub ip: Seq<char>,
    pub progress: Seq<u16>,
    pub last_seen: Option<u128>,
}

/// One activated rule for a client: the rule's name and the activation time.
#[verifier::ext_equal]
pub struct ActiveRuleModel {
    pub rule: Seq<char>,
    pub since: u128,
}

/// The activated rules of one client.
#[verifier::ext_equal]
pub struct ActiveClientModel {
    pub ip: Seq<char>,
    pub rules: Seq<ActiveRuleModel>,
}

/// The whole detector state.
#[verifier::ext_equal]
pub struct DetectorModel {
    /// Inactivity timeout for partial sequences, in milliseconds.
    pub timeout: u128,
    /// Every port that appears in some rule's sequence, without duplicates.
    pub watched: Seq<u16>,
    /// The rule set, with pairwise distinct names.
    pub rules: Seq<RuleSpec>,
    /// Per-client progress and last-seen time, keyed by distinct addresses.
    pub clients: Seq<ClientModel>,
    /// Per-client activated rules, keyed by distinct addresses.
    pub active: Seq<ActiveClientModel>,
    /// Commands scheduled for the executor, oldest first.
    pub pending: Seq<Seq<char>>,
}

/// The smallest index whose element satisfies `p`, or `-1`.
pub open spec fn first_where<A>(s: Seq<A>, p: spec_fn(A) -> bool) -> int
    decreases s.len(),
{
    if s.len() == 0 {
        -1
    } else if p(s[0]) {
        0
    } else if first_where(s.drop_first(), p) == -1 {
        -1
    } else {
        first_where(s.drop_first(), p) + 1
    }
}

/// `first_where` returns either `-1` with no element satisfying `p`, or the
/// smallest index of one that does.
pub proof fn lemma_first_where<A>(s: Seq<A>, p: spec_fn(A) -> bool)
    ensures
        first_where(s, p) == -1 ==> forall|j: int| 0 <= j < s.len() ==> !p(#[trigger] s[j]),
        first_where(s, p) != -1 ==> {
            &&& 0 <= first_where(s, p) < s.len()
            &&& p(s[first_where(s, p)])
            &&& forall|j: int| 0 <= j < first_where(s, p) ==> !p(#[trigger] s[j])
        },
    decreases s.len(),
{
    if s.len() > 0 && !p(s[0]) {
        let rest = s.drop_first();
        lemma_first_where(rest, p);
        let r = first_where(rest, p);
        if r == -1 {
            assert forall|j: int| 0 <= j < s.len() implies !p(#[trigger] s[j]) by {
                if j > 0 {
                    assert(rest[j - 1] == s[j]);
                }
            }
        } else {
            assert(rest[r] == s[r + 1]);
            assert forall|j: int| 0 <= j < r + 1 implies !p(#[trigger] s[j]) by {
                if j > 0 {
                    assert(rest[j - 1] == s[j]);
                }
            }
        }
    }
}

/// The predicate "this client has address `ip`".
pub open spec fn by_ip(ip: Seq<char>) -> spec_fn(ClientModel) -> bool {
    |c: ClientModel| c.ip == ip
}

/// The predicate "this rule is named `name`".
pub open spec fn by_rule_name(name: Seq<char>) -> spec_fn(RuleSpec) -> bool {
    |r: RuleSpec| r.name == name
}

/// The predicate "this active entry belongs to `ip`".
pub open spec fn by_active_ip(ip: Seq<char>) -> spec_fn(ActiveClientModel) -> bool {
    |c: ActiveClientModel| c.ip == ip
}

/// The predicate "this activated rule is named `name`".
pub open spec fn by_active_rule(name: Seq<char>) -> spec_fn(ActiveRuleModel) -> bool {
    |r: ActiveRuleModel| r.rule == name
}

/// `pat` is a suffix of `s`.
pub open spec fn is_suffix_of(pat: Seq<u16>, s: Seq<u16>) -> bool {
    pat.len() <= s.len() && s.subrange(s.len() - pat.len(), s.len() as int) == pat
}

/// The predicate "this rule's sequence is a suffix of `progress`".
pub open spec fn by_suffix(progress: Seq<u16>) -> spec_fn(RuleSpec) -> bool {
    |r: RuleSpec| is_suffix_of(r.sequence, progress)
}

/// The smallest index of the client with address `ip`, or `-1`.
pub open spec fn client_index(cs: Seq<ClientModel>, ip: Seq<char>) -> int {
    first_where(cs, by_ip(ip))
}

/// The smallest index of the rule named `name`, or `-1`.
pub open spec fn rule_index(rs: Seq<RuleSpec>, name: Seq<char>) -> int {
    first_where(rs, by_rule_name(name))
}

/// The smallest index of the active entry for `ip`, or `-1`.
pub open spec fn active_index(a: Seq<ActiveClientModel>, ip: Seq<char>) -> int {
    first_where(a, by_active_ip(ip))
}

/// The smallest index of the activated rule named `name`, or `-1`.
pub open spec fn active_rule_index(rs: Seq<ActiveRuleModel>, name: Seq<char>) -> int {
    first_where(rs, by_active_rule(name))
}

/// The smallest index of a rule whose sequence is a suffix of `progress`,
/// or `-1`. Ties between rules are broken by their position in the rule
/// list, which construction keeps in configuration order.
pub open spec fn match_index(rs: Seq<RuleSpec>, progress: Seq<u16>) -> int {
    first_where(rs, by_suffix(progress))
}

/// The rule a detector keeps for a configured rule: the lifecycle commands
/// are dropped and a missing lifetime takes the default.
pub open spec fn rule_spec_of(r: RuleModel, default_timeout: u128) -> RuleSpec {
    RuleSpec {
        name: r.name,
        sequence: r.sequence,
        activate: r.activate,
        deactivate: r.deactivate,
        timeout: match r.timeout {
            Some(t) => t,
            None => default_timeout,
        },
    }
}

/// Inserts one rule into the index under construction: a rule of the same
/// name is replaced in place, a new name is appended, so that with duplicate
/// names the last rule wins.
pub open spec fn upsert_rule(acc: Seq<RuleSpec>, r: RuleSpec) -> Seq<RuleSpec> {
    let i = rule_index(acc, r.name);
    if i >= 0 {
        acc.update(i, r)
    } else {
        acc.push(r)
    }
}

/// The rule index built from the configured rules, in order.
pub open spec fn build_rules(rs: Seq<RuleSpec>) -> Seq<RuleSpec>
    decreases rs.len(),
{
    if rs.len() == 0 {
        Seq::empty()
    } else {
        upsert_rule(build_rules(rs.drop_last()), rs.last())
    }
}

/// Appends to `acc` each port of `ports` not already present, in order.
pub open spec fn add_ports(acc: Seq<u16>, ports: Seq<u16>) -> Seq<u16>
    decreases ports.len(),
{
    if ports.len() == 0 {
        acc
    } else {
        let acc2 = if acc.contains(ports[0]) {
            acc
        } else {
            acc.push(ports[0])
        };
        add_ports(acc2, ports.drop_first())
    }
}

/// The watched-port set built from all configured rules, in order of first
/// appearance, without duplicates.
pub open spec fn build_watched(rs: Seq<RuleModel>) -> Seq<u16>
    decreases rs.len(),
{
    if rs.len() == 0 {
        Seq::empty()
    } else {
        add_ports(build_watched(rs.drop_last()), rs.last().sequence)
    }
}

/// No two elements of `s` are equal.
pub open spec fn unique_ports(s: Seq<u16>) -> bool {
    forall|i: int, j: int| 0 <= i < j < s.len() ==> s[i] != s[j]
}

/// `add_ports` keeps the ports without duplicates and adds exactly the
/// members of `ports`.
pub proof fn lemma_add_ports(acc: Seq<u16>, ports: Seq<u16>)
    requires
        unique_ports(acc),
    ensures
        unique_ports(add_ports(acc, ports)),
        forall|p: u16| add_ports(acc, ports).contains(p) <==> (acc.contains(p)
            || ports.contains(p)),
    decreases ports.len(),
{
    if ports.len() > 0 {
        let p0 = ports[0];
        let acc2 = if acc.contains(p0) {
            acc
        } else {
            acc.push(p0)
        };
        assert(unique_ports(acc2) && forall|p: u16|
            acc2.contains(p) <==> (acc.contains(p) || p == p0)) by {
            if !acc.contains(p0) {
                assert forall|p: u16| #[trigger] acc.push(p0).contains(p) implies (acc.contains(p)
                    || p == p0) by {
                    let w = choose|k: int| 0 <= k < acc.push(p0).len() && acc.push(p0)[k] == p;
                    if w < acc.len() {
                        assert(acc[w] == p);
                    }
                }
                assert forall|p: u16| (acc.contains(p) || p == p0) implies #[trigger] acc.push(
                    p0,
                ).contains(p) by {
                    if acc.contains(p) {
                        let w = choose|k: int| 0 <= k < acc.len() && acc[k] == p;
                        assert(acc.push(p0)[w] == p);
                    } else {
                        assert(acc.push(p0)[acc.len() as int] == p0);
                    }
                }
                assert forall|i: int, j: int| 0 <= i < j < acc.push(p0).len() implies acc.push(
                    p0,
                )[i] != acc.push(p0)[j] by {
                    if j < acc.len() {
                        assert(acc[i] != acc[j]);
                    } else {
                        assert(acc.push(p0)[i] == acc[i]);
                        assert(acc.contains(acc[i]));
                    }
                }
            }
        }
        lemma_add_ports(acc2, ports.drop_first());
        assert forall|p: u16| add_ports(acc, ports).contains(p) implies (acc.contains(p)
            || ports.contains(p)) by {
            if ports.drop_first().contains(p) {
                let w = choose|k: int|
                    0 <= k < ports.drop_first().len() && ports.drop_first()[k] == p;
                assert(ports[w + 1] == p);
            }
        }
        assert forall|p: u16| (acc.contains(p) || ports.contains(p)) implies add_ports(
            acc,
            ports,
        ).contains(p) by {
            if !acc.contains(p) && ports.contains(p) {
                let w = choose|k: int| 0 <= k < ports.len() && ports[k] == p;
                if w > 0 {
                    assert(ports.drop_first()[w - 1] == p);
                }
            }
        }
    }
}

/// `build_rules` yields pairwise distinct rule names.
pub proof fn lemma_build_rules_unique(rs: Seq<RuleSpec>)
    ensures
        forall|i: int, j: int| 0 <= i < j < build_rules(rs).len()
            ==> (#[trigger] build_rules(rs)[i]).name != (#[trigger] build_rules(rs)[j]).name,
    decreases rs.len(),
{
    if rs.len() > 0 {
        lemma_build_rules_unique(rs.drop_last());
        let acc = build_rules(rs.drop_last());
        let r = rs.last();
        lemma_first_where(acc, by_rule_name(r.name));
    }
}

/// `build_watched` yields pairwise distinct ports.
pub proof fn lemma_build_watched_unique(rs: Seq<RuleModel>)
    ensures
        unique_ports(build_watched(rs)),
    decreases rs.len(),
{
    if rs.len() > 0 {
        lemma_build_watched_unique(rs.drop_last());
        lemma_add_ports(build_watched(rs.drop_last()), rs.last().sequence);
    }
}

/// Every element of a filtered sequence is an element of the sequence it
/// was filtered from.
pub proof fn lemma_filter_subset<A>(s: Seq<A>, p: spec_fn(A) -> bool)
    ensures
        forall|i: int| 0 <= i < s.filter(p).len() ==> s.contains(#[trigger] s.filter(p)[i]),
    decreases s.len(),
{
    reveal(Seq::filter);
    if s.len() > 0 {
        let dl = s.drop_last();
        lemma_filter_subset(dl, p);
        assert forall|i: int| 0 <= i < s.filter(p).len() implies s.contains(
            #[trigger] s.filter(p)[i],
        ) by {
            if i < dl.filter(p).len() {
                assert(dl.contains(dl.filter(p)[i]));
                let w = choose|k: int| 0 <= k < dl.len() && dl[k] == dl.filter(p)[i];
                assert(s[w] == s.filter(p)[i]);
            } else {
                assert(s.filter(p)[i] == s.last());
                assert(s[s.len() - 1] == s.last());
            }
        }
    }
}

/// Well-formedness of the detector state.
pub open spec fn wf(m: DetectorModel) -> bool {
    &&& unique_ports(m.watched)
    &&& (forall|i: int, j: int| 0 <= i < j < m.rules.len()
        ==> (#[trigger] m.rules[i]).name != (#[trigger] m.rules[j]).name)
    &&& (forall|i: int, j: int| 0 <= i < j < m.clients.len()
        ==> (#[trigger] m.clients[i]).ip != (#[trigger] m.clients[j]).ip)
    &&& (forall|i: int| 0 <= i < m.clients.len()
        ==> ((#[trigger] m.clients[i]).progress.len() == 0 <==> m.clients[i].last_seen is None))
    &&& (forall|i: int, j: int| 0 <= i < m.clients.len()
        && 0 <= j < (#[trigger] m.clients[i]).progress.len()
        ==> m.watched.contains(#[trigger] m.clients[i].progress[j]))
    &&& (forall|i: int, j: int| 0 <= i < j < m.active.len()
        ==> (#[trigger] m.active[i]).ip != (#[trigger] m.active[j]).ip)
    &&& (forall|i: int| 0 <= i < m.active.len() ==> (#[trigger] m.active[i]).rules.len() > 0)
    &&& (forall|i: int, j: int, k: int| 0 <= i < m.active.len()
        && 0 <= j < k < (#[trigger] m.active[i]).rules.len()
        ==> (#[trigger] m.active[i].rules[j]).rule != (#[trigger] m.active[i].rules[k]).rule)
    &&& (forall|i: int, j: int| 0 <= i < m.active.len()
        && 0 <= j < (#[trigger] m.active[i]).rules.len()
        ==> active_rule_ok(m.rules, (#[trigger] m.active[i].rules[j]).rule))
}

/// The activated rule named `name` exists in the rule index and carries a
/// deactivation command.
pub open spec fn active_rule_ok(rules: Seq<RuleSpec>, name: Seq<char>) -> bool {
    rule_index(rules, name) >= 0 && rules[rule_index(rules, name)].deactivate is Some
}

/// Steps 2 and 3 of ingest: the port is appended to the client's progress
/// (the entry is created if absent) and the client's last-seen time is set.
pub open spec fn ingest_spec(m: DetectorModel, ip: Seq<char>, port: u16, now: u128) -> DetectorModel {
    let ci = client_index(m.clients, ip);
    if ci >= 0 {
        let c = m.clients[ci];
        DetectorModel {
            clients: m.clients.update(
                ci,
                ClientModel { ip: c.ip, progress: c.progress.push(port), last_seen: Some(now) },
            ),
            ..m
        }
    } else {
        DetectorModel {
            clients: m.clients.push(
                ClientModel { ip: ip, progress: seq![port], last_seen: Some(now) },
            ),
            ..m
        }
    }
}

/// Records an activation: the rule's entry for the client is set to `now`,
/// creating the client's entry or the rule's entry as needed.
pub open spec fn active_insert(
    a: Seq<ActiveClientModel>,
    ip: Seq<char>,
    name: Seq<char>,
    now: u128,
) -> Seq<ActiveClientModel> {
    let i = active_index(a, ip);
    if i >= 0 {
        let rs = a[i].rules;
        let j = active_rule_index(rs, name);
        let rs2 = if j >= 0 {
            rs.update(j, ActiveRuleModel { rule: name, since: now })
        } else {
            rs.push(ActiveRuleModel { rule: name, since: now })
        };
        a.update(i, ActiveClientModel { ip: a[i].ip, rules: rs2 })
    } else {
        a.push(ActiveClientModel { ip: ip, rules: seq![ActiveRuleModel { rule: name, since: now }] })
    }
}

/// Whether the match procedure fires for `ip`: the client is tracked and
/// some rule's sequence is a suffix of its progress.
pub open spec fn match_found(m: DetectorModel, ip: Seq<char>) -> bool {
    let ci = client_index(m.clients, ip);
    ci >= 0 && match_index(m.rules, m.clients[ci].progress) >= 0
}

/// The state after the match procedure for `ip`. On a match the client's
/// progress is cleared in place, its last-seen entry is removed, the
/// resolved activation command is scheduled, and, when the rule carries a
/// deactivation command, the activation is recorded at `now`.
pub open spec fn match_spec(m: DetectorModel, ip: Seq<char>, now: u128) -> DetectorModel {
    let ci = client_index(m.clients, ip);
    if ci < 0 {
        m
    } else {
        let mi = match_index(m.rules, m.clients[ci].progress);
        if mi < 0 {
            m
        } else {
            let r = m.rules[mi];
            let clients2 = m.clients.update(
                ci,
                ClientModel { ip: m.clients[ci].ip, progress: Seq::empty(), last_seen: None },
            );
            let pending2 = m.pending.push(resolve_cmd(r.activate, ip));
            let active2 = if r.deactivate is Some {
                active_insert(m.active, ip, r.name, now)
            } else {
                m.active
            };
            DetectorModel { clients: clients2, pending: pending2, active: active2, ..m }
        }
    }
}

/// The state after one observed SYN event: a port outside the watched set
/// changes nothing; a watched port is ingested and the match procedure runs.
pub open spec fn observe_spec(m: DetectorModel, ip: Seq<char>, port: u16, now: u128) -> DetectorModel {
    if !m.watched.contains(port) {
        m
    } else {
        match_spec(ingest_spec(m, ip, port, now), ip, now)
    }
}

/// A tracked client has gone silent for at least the inactivity timeout.
/// A clock that moved backward expires nobody.
pub open spec fn client_expired(c: ClientModel, timeout: u128, now: u128) -> bool {
    c.last_seen is Some && now >= c.last_seen->0 + timeout
}

/// The predicate "this client survives the inactivity sweep".
pub open spec fn keep_client(timeout: u128, now: u128) -> spec_fn(ClientModel) -> bool {
    |c: ClientModel| !client_expired(c, timeout, now)
}

/// The tracked clients that survive the inactivity sweep.
pub open spec fn sweep_clients(cs: Seq<ClientModel>, timeout: u128, now: u128) -> Seq<ClientModel> {
    cs.filter(keep_client(timeout, now))
}

/// The lifetime of the rule named `name` (meaningful when the rule exists).
pub open spec fn rule_lifetime(rules: Seq<RuleSpec>, name: Seq<char>) -> u128 {
    if rule_index(rules, name) >= 0 {
        rules[rule_index(rules, name)].timeout
    } else {
        0
    }
}

/// The deactivation command of the rule named `name` (meaningful when the
/// rule exists and carries one).
pub open spec fn rule_deactivate(rules: Seq<RuleSpec>, name: Seq<char>) -> Seq<char> {
    if rule_index(rules, name) >= 0 && rules[rule_index(rules, name)].deactivate is Some {
        rules[rule_index(rules, name)].deactivate->0
    } else {
        Seq::empty()
    }
}

/// An activated rule has outlived its lifetime. A clock that moved backward
/// expires nothing.
pub open spec fn active_rule_expired(ar: ActiveRuleModel, rules: Seq<RuleSpec>, now: u128) -> bool {
    now >= ar.since + rule_lifetime(rules, ar.rule)
}

/// The predicate "this activated rule survives the lifetime sweep".
pub open spec fn keep_active_rule(rules: Seq<RuleSpec>, now: u128) -> spec_fn(ActiveRuleModel) -> bool {
    |ar: ActiveRuleModel| !active_rule_expired(ar, rules, now)
}

/// The predicate "this activated rule has outlived its lifetime".
pub open spec fn expired_active_rule(rules: Seq<RuleSpec>, now: u128) -> spec_fn(ActiveRuleModel) -> bool {
    |ar: ActiveRuleModel| active_rule_expired(ar, rules, now)
}

/// The predicate "this client still has an activated rule".
pub open spec fn keep_active() -> spec_fn(ActiveClientModel) -> bool {
    |c: ActiveClientModel| c.rules.len() > 0
}

/// The map "sweep one client's activated rules at `now`".
pub open spec fn sweep_one_fn(rules: Seq<RuleSpec>, now: u128) -> spec_fn(ActiveClientModel) -> ActiveClientModel {
    |c: ActiveClientModel| sweep_active_one(c, rules, now)
}

/// The map "resolve the deactivation command of this rule for `ip`".
pub open spec fn resolve_deact(rules: Seq<RuleSpec>, ip: Seq<char>) -> spec_fn(ActiveRuleModel) -> Seq<char> {
    |ar: ActiveRuleModel| resolve_cmd(rule_deactivate(rules, ar.rule), ip)
}

/// One client's active entry after the lifetime sweep.
pub open spec fn sweep_active_one(
    c: ActiveClientModel,
    rules: Seq<RuleSpec>,
    now: u128,
) -> ActiveClientModel {
    ActiveClientModel { ip: c.ip, rules: c.rules.filter(keep_active_rule(rules, now)) }
}

/// The active map after the lifetime sweep: expired rules are removed, and a
/// client whose last rule expired is dropped.
pub open spec fn sweep_active(
    a: Seq<ActiveClientModel>,
    rules: Seq<RuleSpec>,
    now: u128,
) -> Seq<ActiveClientModel> {
    a.map_values(sweep_one_fn(rules, now)).filter(keep_active())
}

/// The resolved deactivation commands of one client's expired rules, in
/// entry order.
pub open spec fn client_deactivations(
    c: ActiveClientModel,
    rules: Seq<RuleSpec>,
    now: u128,
) -> Seq<Seq<char>> {
    c.rules.filter(expired_active_rule(rules, now)).map_values(resolve_deact(rules, c.ip))
}

/// The resolved deactivation commands of the whole lifetime sweep, client by
/// client in entry order.
pub open spec fn sweep_cmds(
    a: Seq<ActiveClientModel>,
    rules: Seq<RuleSpec>,
    now: u128,
) -> Seq<Seq<char>>
    decreases a.len(),
{
    if a.len() == 0 {
        Seq::empty()
    } else {
        client_deactivations(a[0], rules, now) + sweep_cmds(a.drop_first(), rules, now)
    }
}

/// Filtering keeps client addresses pairwise distinct.
pub proof fn lemma_filter_unique_clients(cs: Seq<ClientModel>, p: spec_fn(ClientModel) -> bool)
    requires
        forall|i: int, j: int| 0 <= i < j < cs.len() ==> (#[trigger] cs[i]).ip != (
        #[trigger] cs[j]).ip,
    ensures
        forall|i: int, j: int| 0 <= i < j < cs.filter(p).len() ==> (#[trigger] cs.filter(p)[i]).ip
            != (#[trigger] cs.filter(p)[j]).ip,
    decreases cs.len(),
{
    reveal(Seq::filter);
    if cs.len() > 0 {
        let dl = cs.drop_last();
        lemma_filter_unique_clients(dl, p);
        lemma_filter_subset(dl, p);
        let out = cs.filter(p);
        assert forall|i: int, j: int| 0 <= i < j < out.len() implies (#[trigger] out[i]).ip != (
        #[trigger] out[j]).ip by {
            if j < dl.filter(p).len() {
                assert(out[i] == dl.filter(p)[i]);
                assert(out[j] == dl.filter(p)[j]);
            } else {
                assert(out[j] == cs.last());
                assert(out[i] == dl.filter(p)[i]);
                assert(dl.contains(dl.filter(p)[i]));
                let w = choose|k: int| 0 <= k < dl.len() && dl[k] == dl.filter(p)[i];
                assert(cs[w].ip != cs[cs.len() - 1].ip);
            }
        }
    }
}

/// Filtering keeps active-entry addresses pairwise distinct.
pub proof fn lemma_filter_unique_active(
    a: Seq<ActiveClientModel>,
    p: spec_fn(ActiveClientModel) -> bool,
)
    requires
        forall|i: int, j: int| 0 <= i < j < a.len() ==> (#[trigger] a[i]).ip != (
        #[trigger] a[j]).ip,
    ensures
        forall|i: int, j: int| 0 <= i < j < a.filter(p).len() ==> (#[trigger] a.filter(p)[i]).ip
            != (#[trigger] a.filter(p)[j]).ip,
    decreases a.len(),
{
    reveal(Seq::filter);
    if a.len() > 0 {
        let dl = a.drop_last();
        lemma_filter_unique_active(dl, p);
        lemma_filter_subset(dl, p);
        let out = a.filter(p);
        assert forall|i: int, j: int| 0 <= i < j < out.len() implies (#[trigger] out[i]).ip != (
        #[trigger] out[j]).ip by {
            if j < dl.filter(p).len() {
                assert(out[i] == dl.filter(p)[i]);
                assert(out[j] == dl.filter(p)[j]);
            } else {
                assert(out[j] == a.last());
                assert(out[i] == dl.filter(p)[i]);
                assert(dl.contains(dl.filter(p)[i]));
                let w = choose|k: int| 0 <= k < dl.len() && dl[k] == dl.filter(p)[i];
                assert(a[w].ip != a[a.len() - 1].ip);
            }
        }
    }
}

/// Filtering keeps activated-rule names pairwise distinct.
pub proof fn lemma_filter_unique_rules(
    rs: Seq<ActiveRuleModel>,
    p: spec_fn(ActiveRuleModel) -> bool,
)
    requires
        forall|i: int, j: int| 0 <= i < j < rs.len() ==> (#[trigger] rs[i]).rule != (
        #[trigger] rs[j]).rule,
    ensures
        forall|i: int, j: int| 0 <= i < j < rs.filter(p).len() ==> (#[trigger] rs.filter(
            p,
        )[i]).rule != (#[trigger] rs.filter(p)[j]).rule,
    decreases rs.len(),
{
    reveal(Seq::filter);
    if rs.len() > 0 {
        let dl = rs.drop_last();
        lemma_filter_unique_rules(dl, p);
        lemma_filter_subset(dl, p);
        let out = rs.filter(p);
        assert forall|i: int, j: int| 0 <= i < j < out.len() implies (#[trigger] out[i]).rule != (
        #[trigger] out[j]).rule by {
            if j < dl.filter(p).len() {
                assert(out[i] == dl.filter(p)[i]);
                assert(out[j] == dl.filter(p)[j]);
            } else {
                assert(out[j] == rs.last());
                assert(out[i] == dl.filter(p)[i]);
                assert(dl.contains(dl.filter(p)[i]));
                let w = choose|k: int| 0 <= k < dl.len() && dl[k] == dl.filter(p)[i];
                assert(rs[w].rule != rs[rs.len() - 1].rule);
            }
        }
    }
}

/// A housekeeping pass keeps the state well-formed.
pub proof fn lemma_sweep_wf(m: DetectorModel, now: u128)
    requires
        wf(m),
    ensures
        wf(sweep_spec(m, now)),
{
    let m2 = sweep_spec(m, now);
    let kc = keep_client(m.timeout, now);
    lemma_filter_unique_clients(m.clients, kc);
    lemma_filter_subset(m.clients, kc);
    assert forall|i: int| 0 <= i < m2.clients.len() implies ((
    #[trigger] m2.clients[i]).progress.len() == 0 <==> m2.clients[i].last_seen is None) by {
        assert(m.clients.contains(m.clients.filter(kc)[i]));
        let w = choose|k: int| 0 <= k < m.clients.len() && m.clients[k] == m.clients.filter(kc)[i];
        assert(m.clients[w].progress.len() == 0 <==> m.clients[w].last_seen is None);
    }
    assert forall|i: int, j: int| 0 <= i < m2.clients.len() && 0 <= j
        < (#[trigger] m2.clients[i]).progress.len() implies m2.watched.contains(
        #[trigger] m2.clients[i].progress[j],
    ) by {
        assert(m.clients.contains(m.clients.filter(kc)[i]));
        let w = choose|k: int| 0 <= k < m.clients.len() && m.clients[k] == m.clients.filter(kc)[i];
        assert(m.watched.contains(m.clients[w].progress[j]));
    }
    let mapped = m.active.map_values(sweep_one_fn(m.rules, now));
    assert forall|i: int, j: int| 0 <= i < j < mapped.len() implies (#[trigger] mapped[i]).ip != (
    #[trigger] mapped[j]).ip by {
        assert(mapped[i].ip == m.active[i].ip);
        assert(mapped[j].ip == m.active[j].ip);
    }
    lemma_filter_unique_active(mapped, keep_active());
    lemma_filter_subset(mapped, keep_active());
    assert forall|i: int| 0 <= i < m2.active.len() implies (
    #[trigger] m2.active[i]).rules.len() > 0 by {
        mapped.lemma_filter_pred(keep_active(), i);
        assert(keep_active()(m2.active[i]));
    }
    assert forall|i: int, j: int, k: int| 0 <= i < m2.active.len() && 0 <= j < k
        < (#[trigger] m2.active[i]).rules.len() implies (#[trigger] m2.active[i].rules[j]).rule
        != (#[trigger] m2.active[i].rules[k]).rule by {
        assert(mapped.contains(mapped.filter(keep_active())[i]));
        let w = choose|u: int| 0 <= u < mapped.len() && mapped[u] == mapped.filter(keep_active())[i];
        assert(mapped[w] == sweep_active_one(m.active[w], m.rules, now));
        lemma_filter_unique_rules(m.active[w].rules, keep_active_rule(m.rules, now));
        assert(m2.active[i].rules == m.active[w].rules.filter(keep_active_rule(m.rules, now)));
    }
    assert forall|i: int, j: int| 0 <= i < m2.active.len() && 0 <= j
        < (#[trigger] m2.active[i]).rules.len() implies active_rule_ok(
        m2.rules,
        (#[trigger] m2.active[i].rules[j]).rule,
    ) by {
        assert(mapped.contains(mapped.filter(keep_active())[i]));
        let w = choose|u: int| 0 <= u < mapped.len() && mapped[u] == mapped.filter(keep_active())[i];
        assert(mapped[w] == sweep_active_one(m.active[w], m.rules, now));
        let frs = m.active[w].rules.filter(keep_active_rule(m.rules, now));
        lemma_filter_subset(m.active[w].rules, keep_active_rule(m.rules, now));
        assert(m.active[w].rules.contains(frs[j]));
        let v = choose|u: int| 0 <= u < m.active[w].rules.len() && m.active[w].rules[u] == frs[j];
        assert(active_rule_ok(m.rules, m.active[w].rules[v].rule));
    }
}

/// `sweep_cmds` distributes over appending one client at the end.
pub proof fn lemma_sweep_cmds_push(
    a: Seq<ActiveClientModel>,
    c: ActiveClientModel,
    rules: Seq<RuleSpec>,
    now: u128,
)
    ensures
        sweep_cmds(a.push(c), rules, now) == sweep_cmds(a, rules, now) + client_deactivations(
            c,
            rules,
            now,
        ),
    decreases a.len(),
{
    if a.len() == 0 {
        assert(a.push(c)[0] == c);
        assert(a.push(c).drop_first() =~= Seq::<ActiveClientModel>::empty());
        assert(sweep_cmds(a.push(c).drop_first(), rules, now) == sweep_cmds(
            Seq::<ActiveClientModel>::empty(),
            rules,
            now,
        ));
        assert(sweep_cmds(Seq::<ActiveClientModel>::empty(), rules, now) =~= Seq::<
            Seq<char>,
        >::empty());
        assert(sweep_cmds(a.push(c), rules, now) =~= sweep_cmds(a, rules, now)
            + client_deactivations(c, rules, now));
    } else {
        assert(a.push(c).drop_first() =~= a.drop_first().push(c));
        assert(a.push(c)[0] == a[0]);
        lemma_sweep_cmds_push(a.drop_first(), c, rules, now);
        assert(sweep_cmds(a.push(c), rules, now) == client_deactivations(a[0], rules, now)
            + sweep_cmds(a.drop_first().push(c), rules, now));
        assert(sweep_cmds(a.drop_first().push(c), rules, now) == sweep_cmds(
            a.drop_first(),
            rules,
            now,
        ) + client_deactivations(c, rules, now));
        assert(sweep_cmds(a.push(c), rules, now) =~= sweep_cmds(a, rules, now)
            + client_deactivations(c, rules, now));
    }
}

/// One housekeeping pass at time `now`: the inactivity sweep removes silent
/// clients, then the lifetime sweep removes expired activations and
/// schedules their deactivation commands.
pub open spec fn sweep_spec(m: DetectorModel, now: u128) -> DetectorModel {
    DetectorModel {
        clients: sweep_clients(m.clients, m.timeout, now),
        active: sweep_active(m.active, m.rules, now),
        pending: m.pending + sweep_cmds(m.active, m.rules, now),
        ..m
    }
}

/// The smaller of two optional deadlines, where `None` means none at all.
pub open spec fn opt_min(a: Option<int>, b: Option<int>) -> Option<int> {
    match (a, b) {
        (Option::None, _) => b,
        (_, Option::None) => a,
        (Option::Some(x), Option::Some(y)) => if x <= y {
            a
        } else {
            b
        },
    }
}

/// The earliest inactivity deadline over the tracked clients.
pub open spec fn clients_deadline(cs: Seq<ClientModel>, timeout: u128) -> Option<int>
    decreases cs.len(),
{
    if cs.len() == 0 {
        Option::None
    } else {
        let head = match cs[0].last_seen {
            Some(t) => Option::Some(t + timeout as int),
            None => Option::None,
        };
        opt_min(head, clients_deadline(cs.drop_first(), timeout))
    }
}

/// The earliest lifetime deadline over one client's activated rules.
pub open spec fn active_rules_deadline(rs: Seq<ActiveRuleModel>, rules: Seq<RuleSpec>) -> Option<int>
    decreases rs.len(),
{
    if rs.len() == 0 {
        Option::None
    } else {
        opt_min(
            Option::Some(rs[0].since + rule_lifetime(rules, rs[0].rule) as int),
            active_rules_deadline(rs.drop_first(), rules),
        )
    }
}

/// The earliest lifetime deadline over the whole active map.
pub open spec fn active_deadline(a: Seq<ActiveClientModel>, rules: Seq<RuleSpec>) -> Option<int>
    decreases a.len(),
{
    if a.len() == 0 {
        Option::None
    } else {
        opt_min(active_rules_deadline(a[0].rules, rules), active_deadline(a.drop_first(), rules))
    }
}

/// The housekeeping worker's next wake-up time: the earliest deadline of
/// any surviving entry, or `None` when there is nothing to wait for.
pub open spec fn next_deadline(m: DetectorModel) -> Option<int> {
    opt_min(clients_deadline(m.clients, m.timeout), active_deadline(m.active, m.rules))
}

/// A deadline clamped into `u128`.
pub open spec fn clamp_u128(d: int) -> u128 {
    if d > u128::MAX {
        u128::MAX
    } else if d < 0 {
        0
    } else {
        d as u128
    }
}

} // verus!
