//! Collecting the one-shot lifecycle commands: what to run at process
//! start and at process exit. Running them is the caller's business.

use vstd::prelude::*;
use crate::config::Config;
use crate::model::RuleModel;

verus! {

/// The predicate "this rule defines a setup command".
pub open spec fn has_setup() -> spec_fn(RuleModel) -> bool {
    |r: RuleModel| r.setup is Some
}

/// The map "this rule's setup command".
pub open spec fn setup_of() -> spec_fn(RuleModel) -> Seq<char> {
    |r: RuleModel| r.setup->0
}

/// The predicate "this rule defines a teardown command".
pub open spec fn has_teardown() -> spec_fn(RuleModel) -> bool {
    |r: RuleModel| r.teardown is Some
}

/// The map "this rule's teardown command".
pub open spec fn teardown_of() -> spec_fn(RuleModel) -> Seq<char> {
    |r: RuleModel| r.teardown->0
}

/// The setup commands of the rules that define one, in configuration order.
pub open spec fn setup_cmds(rs: Seq<RuleModel>) -> Seq<Seq<char>> {
    rs.filter(has_setup()).map_values(setup_of())
}

/// The teardown commands of the rules that define one, in configuration
/// order.
pub open spec fn teardown_cmds(rs: Seq<RuleModel>) -> Seq<Seq<char>> {
    rs.filter(has_teardown()).map_values(teardown_of())
}

/// The setup commands to run at process start, in configuration order.
pub fn ensure_setup(config: &Config) -> (cmds: Vec<String>)
    ensures
        cmds@.map_values(|s: String| s@) == setup_cmds(config.rules_view()),
{
    let ghost rv = config.rules_view();
    let mut out: Vec<String> = Vec::new();
    let n: usize = config.rules.len();
    let mut i: usize = 0;
    proof {
        reveal(Seq::filter);
        assert(rv.take(0) =~= Seq::<RuleModel>::empty());
        assert(setup_cmds(rv.take(0)) =~= Seq::<Seq<char>>::empty());
        assert(out@.map_values(|q: String| q@) =~= setup_cmds(rv.take(0)));
    }
    while i < n
        invariant
            rv == config.rules_view(),
            n == config.rules@.len(),
            i <= n,
            out@.map_values(|q: String| q@) == setup_cmds(rv.take(i as int)),
        decreases n - i,
    {
        proof {
            assert(rv.take(i + 1) =~= rv.take(i as int).push(rv[i as int]));
            rv.take(i as int).lemma_filter_push(rv[i as int], has_setup());
            assert(has_setup()(rv[i as int]) == (rv[i as int].setup is Some));
            assert(config.rules@[i as int]@ == rv[i as int]);
        }
        match &config.rules[i].setup {
            Some(s) => {
                let ghost prev = out@.map_values(|q: String| q@);
                out.push(s.clone());
                proof {
                    assert(setup_of()(rv[i as int]) == rv[i as int].setup->0);
                    assert(out@.map_values(|q: String| q@) =~= prev.push(s@));
                    assert(setup_cmds(rv.take(i + 1)) =~= setup_cmds(rv.take(i as int)).push(
                        setup_of()(rv[i as int]),
                    ));
                }
            },
            None => {
                proof {
                    assert(setup_cmds(rv.take(i + 1)) =~= setup_cmds(rv.take(i as int)));
                }
            },
        }
        i = i + 1;
    }
    proof {
        assert(rv.take(n as int) =~= rv);
    }
    out
}

/// The teardown commands to run at process exit, in configuration order.
pub fn ensure_teardown(config: Config) -> (cmds: Vec<String>)
    ensures
        cmds@.map_values(|s: String| s@) == teardown_cmds(config.rules_view()),
{
    let ghost rv = config.rules_view();
    let mut out: Vec<String> = Vec::new();
    let n: usize = config.rules.len();
    let mut i: usize = 0;
    proof {
        reveal(Seq::filter);
        assert(rv.take(0) =~= Seq::<RuleModel>::empty());
        assert(teardown_cmds(rv.take(0)) =~= Seq::<Seq<char>>::empty());
        assert(out@.map_values(|q: String| q@) =~= teardown_cmds(rv.take(0)));
    }
    while i < n
        invariant
            rv == config.rules_view(),
            n == config.rules@.len(),
            i <= n,
            out@.map_values(|q: String| q@) == teardown_cmds(rv.take(i as int)),
        decreases n - i,
    {
        proof {
            assert(rv.take(i + 1) =~= rv.take(i as int).push(rv[i as int]));
            rv.take(i as int).lemma_filter_push(rv[i as int], has_teardown());
            assert(has_teardown()(rv[i as int]) == (rv[i as int].teardown is Some));
            assert(config.rules@[i as int]@ == rv[i as int]);
        }
        match &config.rules[i].teardown {
            Some(s) => {
                let ghost prev = out@.map_values(|q: String| q@);
                out.push(s.clone());
                proof {
                    assert(teardown_of()(rv[i as int]) == rv[i as int].teardown->0);
                    assert(out@.map_values(|q: String| q@) =~= prev.push(s@));
                    assert(teardown_cmds(rv.take(i + 1)) =~= teardown_cmds(rv.take(i as int)).push(
                        teardown_of()(rv[i as int]),
                    ));
                }
            },
            None => {
                proof {
                    assert(teardown_cmds(rv.take(i + 1)) =~= teardown_cmds(rv.take(i as int)));
                }
            },
        }
        i = i + 1;
    }
    proof {
        assert(rv.take(n as int) =~= rv);
    }
    out
}

} // verus!
