//! The knock client's configuration and the shared planning logic of its
//! rule executors: looking a rule up by name, resolving the target host,
//! and laying out the socket addresses to knock at, in order.

use vstd::prelude::*;
use vstd::pervasive::VecAdditionalExecFns;
use vstd::string::StringExecFns;
use crate::model::first_where;
use crate::model::lemma_first_where;
use crate::strings::dec_digits;
use crate::strings::push_char;
use crate::strings::push_decimal;
use crate::strings::str_eq;

verus! {

/// One knock rule of the client configuration.
pub struct Rule {
    /// Unique identifier; when names collide, the last rule wins.
    pub name: String,
    /// Default host to knock at, when the call names none.
    pub host: Option<String>,
    /// The ordered knock sequence of TCP ports.
    pub sequence: Vec<u16>,
}

/// The client configuration.
pub struct Config {
    /// The knock rules.
    pub rules: Vec<Rule>,
}

/// A client rule as the contracts see it.
#[verifier::ext_equal]
pub struct ClientRuleModel {
    pub name: Seq<char>,
    pub host: Option<Seq<char>>,
    pub sequence: Seq<u16>,
}

impl View for Rule {
    type V = ClientRuleModel;

    open spec fn view(&self) -> ClientRuleModel {
        ClientRuleModel {
            name: self.name@,
            host: match self.host {
                Some(ref h) => Some(h@),
                None => None,
            },
            sequence: self.sequence@,
        }
    }
}

impl Config {
    /// The rule list as the contracts see it.
    pub open spec fn rules_view(&self) -> Seq<ClientRuleModel> {
        self.rules@.map_values(|r: Rule| r@)
    }
}

/// The value of an optional host argument.
pub open spec fn opt_host_view(o: Option<String>) -> Option<Seq<char>> {
    match o {
        Some(h) => Some(h@),
        None => None,
    }
}

/// The predicate "this rule is named `name`".
pub open spec fn by_client_rule_name(name: Seq<char>) -> spec_fn(ClientRuleModel) -> bool {
    |r: ClientRuleModel| r.name == name
}

/// The smallest index of the rule named `name`, or `-1`.
pub open spec fn client_rule_index(rs: Seq<ClientRuleModel>, name: Seq<char>) -> int {
    first_where(rs, by_client_rule_name(name))
}

/// Inserts one rule into the index under construction: a rule of the same
/// name is replaced in place, a new name is appended.
pub open spec fn upsert_client_rule(
    acc: Seq<ClientRuleModel>,
    r: ClientRuleModel,
) -> Seq<ClientRuleModel> {
    let i = client_rule_index(acc, r.name);
    if i >= 0 {
        acc.update(i, r)
    } else {
        acc.push(r)
    }
}

/// The rule index built from the configured rules, in order, the last
/// rule winning a name collision.
pub open spec fn build_client_rules(rs: Seq<ClientRuleModel>) -> Seq<ClientRuleModel>
    decreases rs.len(),
{
    if rs.len() == 0 {
        Seq::empty()
    } else {
        upsert_client_rule(build_client_rules(rs.drop_last()), rs.last())
    }
}

/// The index of the rule named `name` in the list, if any.
pub fn find_client_rule(rules: &Vec<Rule>, name: &str) -> (r: Option<usize>)
    ensures
        match r {
            Some(i) => i < rules@.len() && client_rule_index(
                rules@.map_values(|x: Rule| x@),
                name@,
            ) == i as int,
            None => client_rule_index(rules@.map_values(|x: Rule| x@), name@) == -1,
        },
{
    let ghost rs = rules@.map_values(|x: Rule| x@);
    let n: usize = rules.len();
    let mut i: usize = 0;
    while i < n
        invariant
            rs == rules@.map_values(|x: Rule| x@),
            n == rules@.len(),
            i <= n,
            forall|j: int| 0 <= j < i ==> (#[trigger] rules@[j]).name@ != name@,
        decreases n - i,
    {
        if str_eq(rules[i].name.as_str(), name) {
            proof {
                lemma_first_where(rs, by_client_rule_name(name@));
                assert(by_client_rule_name(name@)(rs[i as int]));
            }
            return Some(i);
        }
        i = i + 1;
    }
    proof {
        lemma_first_where(rs, by_client_rule_name(name@));
        assert forall|j: int| 0 <= j < rs.len() implies !by_client_rule_name(name@)(
            #[trigger] rs[j],
        ) by {
            assert(rs[j] == rules@[j]@);
        }
        if client_rule_index(rs, name@) != -1 {
            assert(by_client_rule_name(name@)(rs[client_rule_index(rs, name@)]));
        }
    }
    None
}

/// Builds the rule index from the configured list: rules keyed by name,
/// in order, the last rule winning a collision.
pub fn build_rule_index(list: Vec<Rule>) -> (r: Vec<Rule>)
    ensures
        r@.map_values(|x: Rule| x@) == build_client_rules(list@.map_values(|x: Rule| x@)),
{
    let ghost orig = list@.map_values(|x: Rule| x@);
    let mut rest = list;
    let mut out: Vec<Rule> = Vec::new();
    let ghost mut k: int = 0;
    proof {
        assert(orig.take(0) =~= Seq::<ClientRuleModel>::empty());
        assert(orig.skip(0) =~= orig);
        assert(out@.map_values(|x: Rule| x@) =~= build_client_rules(orig.take(0)));
        assert(rest@.map_values(|x: Rule| x@) =~= orig.skip(0));
    }
    while rest.len() > 0
        invariant
            0 <= k <= orig.len(),
            rest@.map_values(|x: Rule| x@) == orig.skip(k),
            out@.map_values(|x: Rule| x@) == build_client_rules(orig.take(k)),
        decreases rest@.len(),
    {
        proof {
            assert(rest@.map_values(|x: Rule| x@).len() == rest@.len());
            assert(k < orig.len());
        }
        let r = rest.remove(0);
        let ghost rv = r@;
        proof {
            assert(orig.skip(k)[0] == rv);
            assert(rest@.map_values(|x: Rule| x@) =~= orig.skip(k).drop_first());
            assert(orig.skip(k).drop_first() =~= orig.skip(k + 1));
            lemma_first_where(out@.map_values(|x: Rule| x@), by_client_rule_name(rv.name));
        }
        let ghost before = out@.map_values(|x: Rule| x@);
        match find_client_rule(&out, r.name.as_str()) {
            Some(idx) => {
                out.set(idx, r);
                proof {
                    assert(out@.map_values(|x: Rule| x@) =~= before.update(idx as int, rv));
                }
            },
            None => {
                out.push(r);
                proof {
                    assert(out@.map_values(|x: Rule| x@) =~= before.push(rv));
                }
            },
        }
        proof {
            assert(orig.take(k + 1).drop_last() =~= orig.take(k));
            assert(orig.take(k + 1).last() == rv);
            assert(out@.map_values(|x: Rule| x@) =~= upsert_client_rule(before, rv));
            assert(out@.map_values(|x: Rule| x@) == build_client_rules(orig.take(k + 1)));
            k = k + 1;
        }
    }
    proof {
        assert(k == orig.len());
        assert(orig.take(k) =~= orig);
    }
    out
}

/// The map "the socket address of this port at `host`".
pub open spec fn addr_of(host: Seq<char>) -> spec_fn(u16) -> Seq<char> {
    |p: u16| host + seq![':'] + dec_digits(p as int)
}

/// The socket addresses of one knock run: `host:port` for each port of
/// the sequence, in order.
pub open spec fn knock_addrs(host: Seq<char>, ports: Seq<u16>) -> Seq<Seq<char>> {
    ports.map_values(addr_of(host))
}

/// Lays out the socket addresses of one knock run.
pub fn knock_addresses(host: &str, sequence: &Vec<u16>) -> (r: Vec<String>)
    ensures
        r@.map_values(|s: String| s@) == knock_addrs(host@, sequence@),
{
    let n: usize = sequence.len();
    let mut out: Vec<String> = Vec::new();
    let mut i: usize = 0;
    proof {
        assert(out@.map_values(|s: String| s@) =~= knock_addrs(host@, sequence@.take(0)));
    }
    while i < n
        invariant
            n == sequence@.len(),
            i <= n,
            out@.map_values(|s: String| s@) == knock_addrs(host@, sequence@.take(i as int)),
        decreases n - i,
    {
        let mut a: String = String::new();
        a.append(host);
        push_char(&mut a, ':');
        push_decimal(&mut a, sequence[i]);
        proof {
            assert(a@ =~= addr_of(host@)(sequence@[i as int]));
        }
        let ghost before = out@.map_values(|s: String| s@);
        let ghost av = a@;
        out.push(a);
        proof {
            assert(out@.map_values(|s: String| s@) =~= before.push(av));
            assert(sequence@.take(i + 1) =~= sequence@.take(i as int).push(sequence@[i as int]));
            assert(out@.map_values(|s: String| s@) =~= knock_addrs(host@, sequence@.take(i + 1)));
        }
        i = i + 1;
    }
    proof {
        assert(sequence@.take(n as int) =~= sequence@);
    }
    out
}

/// Why a knock run cannot be planned.
#[derive(Clone, Copy, Debug, PartialEq, Eq, Structural)]
pub enum RunError {
    /// No rule of the requested name exists.
    RuleNotFound,
    /// Neither the call nor the rule names a host.
    NoHost,
}

/// What planning a run yields: the addresses to knock at, or why not.
/// The host named by the call wins over the rule's own.
pub open spec fn run_spec(
    rules: Seq<ClientRuleModel>,
    name: Seq<char>,
    host: Option<Seq<char>>,
) -> Result<Seq<Seq<char>>, RunError> {
    let i = client_rule_index(rules, name);
    if i < 0 {
        Err(RunError::RuleNotFound)
    } else {
        match host {
            Some(h) => Ok(knock_addrs(h, rules[i].sequence)),
            None => match rules[i].host {
                Some(h) => Ok(knock_addrs(h, rules[i].sequence)),
                None => Err(RunError::NoHost),
            },
        }
    }
}

/// Plans the knock run of the named rule against the resolved host.
pub fn plan_run(rules: &Vec<Rule>, name: &str, host: Option<String>) -> (r: Result<
    Vec<String>,
    RunError,
>)
    ensures
        (run_spec(rules@.map_values(|x: Rule| x@), name@, opt_host_view(host)) is Err ==> r is Err
            && r->Err_0 == run_spec(
            rules@.map_values(|x: Rule| x@),
            name@,
            opt_host_view(host),
        )->Err_0),
        (run_spec(rules@.map_values(|x: Rule| x@), name@, opt_host_view(host)) is Ok ==> r is Ok
            && r->Ok_0@.map_values(|s: String| s@) == run_spec(
            rules@.map_values(|x: Rule| x@),
            name@,
            opt_host_view(host),
        )->Ok_0),
{
    match find_client_rule(rules, name) {
        None => Err(RunError::RuleNotFound),
        Some(i) => {
            match host {
                Some(h) => Ok(knock_addresses(h.as_str(), &rules[i].sequence)),
                None => match &rules[i].host {
                    Some(rh) => Ok(knock_addresses(rh.as_str(), &rules[i].sequence)),
                    None => Err(RunError::NoHost),
                },
            }
        },
    }
}

} // verus!
