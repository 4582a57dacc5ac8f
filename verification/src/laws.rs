//! The library's laws: properties of the detector's transitions, stated
//! over the model and proved once for every well-formed state and input.

use vstd::prelude::*;
use crate::model::DetectorModel;
use crate::model::by_ip;
use crate::model::client_expired;
use crate::model::client_index;
use crate::model::keep_client;
use crate::model::lemma_filter_subset;
use crate::model::lemma_first_where;
use crate::model::match_found;
use crate::model::match_index;
use crate::model::match_spec;
use crate::model::observe_spec;
use crate::model::rule_index;
use crate::model::sweep_spec;
use crate::model::wf;

verus! {

/// The client is in the last-seen map: it is tracked and carries a
/// last-seen time.
pub open spec fn has_last_seen(m: DetectorModel, ip: Seq<char>) -> bool {
    client_index(m.clients, ip) >= 0 && m.clients[client_index(m.clients, ip)].last_seen is Some
}

/// A client with a last-seen entry always has a progress entry, and a
/// client with a nonempty progress list always has a last-seen entry: the
/// two maps agree on every key, except that after a successful match the
/// progress entry alone remains, cleared, until the client knocks again
/// or the inactivity sweep would have removed it.
pub proof fn lemma_progress_iff_last_seen(m: DetectorModel, ip: Seq<char>)
    requires
        wf(m),
    ensures
        has_last_seen(m, ip) ==> client_index(m.clients, ip) >= 0,
        (client_index(m.clients, ip) >= 0 && m.clients[client_index(m.clients, ip)].progress.len()
            > 0) <==> has_last_seen(m, ip),
{
    lemma_first_where(m.clients, by_ip(ip));
}

/// Every port in any tracked client's progress list is a watched port.
pub proof fn lemma_progress_ports_watched(m: DetectorModel, i: int, j: int)
    requires
        wf(m),
        0 <= i < m.clients.len(),
        0 <= j < m.clients[i].progress.len(),
    ensures
        m.watched.contains(m.clients[i].progress[j]),
{
}

/// After the match procedure fires for a client, its progress list is
/// empty and its last-seen entry is gone.
pub proof fn lemma_match_clears(m: DetectorModel, ip: Seq<char>, now: u128)
    requires
        wf(m),
        match_found(m, ip),
    ensures
        client_index(match_spec(m, ip, now).clients, ip) >= 0,
        match_spec(m, ip, now).clients[client_index(
            match_spec(m, ip, now).clients,
            ip,
        )].progress.len() == 0,
        match_spec(m, ip, now).clients[client_index(match_spec(m, ip, now).clients, ip)].last_seen
            is None,
        !has_last_seen(match_spec(m, ip, now), ip),
{
    let ci = client_index(m.clients, ip);
    lemma_first_where(m.clients, by_ip(ip));
    let m2 = match_spec(m, ip, now);
    lemma_first_where(m2.clients, by_ip(ip));
    assert(by_ip(ip)(m2.clients[ci]));
    if client_index(m2.clients, ip) == -1 {
        assert(false);
    }
    let k = client_index(m2.clients, ip);
    assert(by_ip(ip)(m2.clients[k]));
    if k < ci {
        assert(m2.clients[k] == m.clients[k]);
        assert(by_ip(ip)(m.clients[k]));
        assert(false);
    }
    if k > ci {
        assert(by_ip(ip)(m2.clients[ci]));
        assert(false);
    }
}

/// A tracked client whose inactivity deadline has not passed survives a
/// housekeeping pass with its entry unchanged: as long as observations
/// keep arriving within the timeout, the inactivity sweep never removes
/// the client.
pub proof fn lemma_no_premature_sweep(m: DetectorModel, ip: Seq<char>, now: u128)
    requires
        wf(m),
        client_index(m.clients, ip) >= 0,
        !client_expired(m.clients[client_index(m.clients, ip)], m.timeout, now),
    ensures
        client_index(sweep_spec(m, now).clients, ip) >= 0,
        sweep_spec(m, now).clients[client_index(sweep_spec(m, now).clients, ip)] == m.clients[
            client_index(m.clients, ip)],
{
    let ci = client_index(m.clients, ip);
    lemma_first_where(m.clients, by_ip(ip));
    let kc = keep_client(m.timeout, now);
    let c = m.clients[ci];
    assert(kc(c) == !client_expired(c, m.timeout, now));
    m.clients.lemma_filter_contains(kc, ci);
    let f = m.clients.filter(kc);
    let w = choose|k: int| 0 <= k < f.len() && f[k] == c;
    lemma_first_where(f, by_ip(ip));
    assert(by_ip(ip)(f[w]));
    if client_index(f, ip) == -1 {
        assert(false);
    }
    let k = client_index(f, ip);
    assert(by_ip(ip)(f[k]));
    lemma_filter_subset(m.clients, kc);
    assert(m.clients.contains(f[k]));
    let v = choose|u: int| 0 <= u < m.clients.len() && m.clients[u] == f[k];
    assert(m.clients[v].ip == ip);
    if v < ci {
        assert(by_ip(ip)(m.clients[v]));
        assert(false);
    }
    if v > ci {
        assert(false);
    }
    assert(f[k] == c);
}

/// A client silent for at least the inactivity timeout is removed from
/// both maps by the housekeeping pass.
pub proof fn lemma_inactivity_expiry(m: DetectorModel, ip: Seq<char>, now: u128)
    requires
        wf(m),
        client_index(m.clients, ip) >= 0,
        client_expired(m.clients[client_index(m.clients, ip)], m.timeout, now),
    ensures
        client_index(sweep_spec(m, now).clients, ip) == -1,
        !has_last_seen(sweep_spec(m, now), ip),
{
    let ci = client_index(m.clients, ip);
    lemma_first_where(m.clients, by_ip(ip));
    let kc = keep_client(m.timeout, now);
    let f = m.clients.filter(kc);
    lemma_first_where(f, by_ip(ip));
    if client_index(f, ip) != -1 {
        let k = client_index(f, ip);
        assert(by_ip(ip)(f[k]));
        m.clients.lemma_filter_pred(kc, k);
        lemma_filter_subset(m.clients, kc);
        assert(m.clients.contains(f[k]));
        let v = choose|u: int| 0 <= u < m.clients.len() && m.clients[u] == f[k];
        assert(m.clients[v].ip == ip);
        if v < ci {
            assert(by_ip(ip)(m.clients[v]));
            assert(false);
        }
        if v > ci {
            assert(false);
        }
        assert(kc(m.clients[ci]));
        assert(kc(m.clients[ci]) == !client_expired(m.clients[ci], m.timeout, now));
        assert(false);
    }
}

/// An activation is recorded only for rules that carry a deactivation
/// command: a rule without one never appears in the active map, so the
/// active map is never mutated on its account.
pub proof fn lemma_active_only_with_deactivate(m: DetectorModel, i: int, j: int)
    requires
        wf(m),
        0 <= i < m.active.len(),
        0 <= j < m.active[i].rules.len(),
    ensures
        rule_index(m.rules, m.active[i].rules[j].rule) >= 0,
        m.rules[rule_index(m.rules, m.active[i].rules[j].rule)].deactivate is Some,
{
    assert(crate::model::active_rule_ok(m.rules, m.active[i].rules[j].rule));
}

/// A match of a rule without a deactivation command, like a call that
/// matches nothing, leaves the active map untouched.
pub proof fn lemma_match_no_deactivate(m: DetectorModel, ip: Seq<char>, now: u128)
    requires
        (!match_found(m, ip) || m.rules[match_index(
            m.rules,
            m.clients[client_index(m.clients, ip)].progress,
        )].deactivate is None),
    ensures
        match_spec(m, ip, now).active == m.active,
{
}

/// One ingest event: a client address, a destination port, and the time
/// the event was observed.
pub struct EventModel {
    pub ip: Seq<char>,
    pub port: u16,
    pub now: u128,
}

/// The state after feeding a whole stream of events, oldest first.
pub open spec fn replay(m: DetectorModel, events: Seq<EventModel>) -> DetectorModel
    decreases events.len(),
{
    if events.len() == 0 {
        m
    } else {
        replay(observe_spec(m, events[0].ip, events[0].port, events[0].now), events.drop_first())
    }
}

/// Replaying the same ingest stream on equal detector states — in
/// particular on two detectors freshly built from the same configuration —
/// yields equal states, and so the same scheduled activation commands in
/// the same order.
pub proof fn lemma_replay_deterministic(
    m1: DetectorModel,
    m2: DetectorModel,
    events: Seq<EventModel>,
)
    requires
        m1 == m2,
    ensures
        replay(m1, events) == replay(m2, events),
        replay(m1, events).pending == replay(m2, events).pending,
{
}

/// An observed port outside the watched set is a no-op on all state.
pub proof fn lemma_unwatched_noop(m: DetectorModel, ip: Seq<char>, port: u16, now: u128)
    requires
        !m.watched.contains(port),
    ensures
        observe_spec(m, ip, port, now) == m,
{
}

} // verus!
