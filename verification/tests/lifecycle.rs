use knockd::config::Config;
use knockd::config::Rule;
use knockd::lifetime::ensure_setup;
use knockd::lifetime::ensure_teardown;

fn lifecycle_config() -> Config {
    Config {
        interface: "eth0".to_string(),
        timeout: 2000,
        rules: vec![
            Rule {
                name: "one".to_string(),
                sequence: vec![1],
                activate: "a1".to_string(),
                deactivate: None,
                timeout: None,
                setup: Some("prepare one".to_string()),
                teardown: Some("finish one".to_string()),
            },
            Rule {
                name: "two".to_string(),
                sequence: vec![2],
                activate: "a2".to_string(),
                deactivate: None,
                timeout: None,
                setup: None,
                teardown: None,
            },
            Rule {
                name: "three".to_string(),
                sequence: vec![3],
                activate: "a3".to_string(),
                deactivate: None,
                timeout: None,
                setup: Some("prepare three".to_string()),
                teardown: None,
            },
        ],
    }
}

#[test]
fn collects_setup_commands_in_order() {
    let config = lifecycle_config();
    let cmds = ensure_setup(&config);
    assert_eq!(
        cmds,
        vec!["prepare one".to_string(), "prepare three".to_string()]
    );
}

#[test]
fn collects_teardown_commands_in_order() {
    let config = lifecycle_config();
    let cmds = ensure_teardown(config);
    assert_eq!(cmds, vec!["finish one".to_string()]);
}

#[test]
fn empty_rule_set_yields_no_commands() {
    let config = Config {
        interface: "eth0".to_string(),
        timeout: 1,
        rules: vec![],
    };
    assert_eq!(ensure_setup(&config), Vec::<String>::new());
    assert_eq!(ensure_teardown(config), Vec::<String>::new());
}
