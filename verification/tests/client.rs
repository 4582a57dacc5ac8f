use knockd::client_config::Config;
use knockd::client_config::Rule;
use knockd::client_config::RunError;
use knockd::client_config::knock_addresses;
use knockd::knock::RuleExecutor;
use knockd::knock_cli::RuleExecutor as CliRuleExecutor;

fn client_config() -> Config {
    Config {
        rules: vec![
            Rule {
                name: "ssh".to_string(),
                host: Some("gate.example".to_string()),
                sequence: vec![7000, 8000, 9000],
            },
            Rule {
                name: "vpn".to_string(),
                host: None,
                sequence: vec![1234],
            },
        ],
    }
}

#[test]
fn plans_addresses_in_sequence_order() {
    let executor = RuleExecutor::new(client_config(), false);
    let addrs = executor.run("ssh", None).unwrap();
    assert_eq!(
        addrs,
        vec![
            "gate.example:7000".to_string(),
            "gate.example:8000".to_string(),
            "gate.example:9000".to_string()
        ]
    );
}

#[test]
fn call_host_wins_over_rule_host() {
    let executor = RuleExecutor::new(client_config(), true);
    let addrs = executor.run("ssh", Some("10.9.8.7".to_string())).unwrap();
    assert_eq!(
        addrs,
        vec![
            "10.9.8.7:7000".to_string(),
            "10.9.8.7:8000".to_string(),
            "10.9.8.7:9000".to_string()
        ]
    );
}

#[test]
fn missing_rule_is_reported() {
    let executor = RuleExecutor::new(client_config(), false);
    assert_eq!(executor.run("nope", None), Err(RunError::RuleNotFound));
}

#[test]
fn missing_host_is_reported() {
    let executor = RuleExecutor::new(client_config(), false);
    assert_eq!(executor.run("vpn", None), Err(RunError::NoHost));
}

#[test]
fn host_argument_rescues_hostless_rule() {
    let executor = RuleExecutor::new(client_config(), false);
    let addrs = executor.run("vpn", Some("h".to_string())).unwrap();
    assert_eq!(addrs, vec!["h:1234".to_string()]);
}

#[test]
fn cli_executor_plans_the_same_run() {
    let executor = CliRuleExecutor::new(client_config());
    let addrs = executor.run("ssh", None).unwrap();
    assert_eq!(
        addrs,
        vec![
            "gate.example:7000".to_string(),
            "gate.example:8000".to_string(),
            "gate.example:9000".to_string()
        ]
    );
    assert_eq!(executor.run("gone", None), Err(RunError::RuleNotFound));
}

#[test]
fn knock_addresses_render_host_and_port() {
    let addrs = knock_addresses("example.net", &vec![1, 65535]);
    assert_eq!(
        addrs,
        vec!["example.net:1".to_string(), "example.net:65535".to_string()]
    );
}

#[test]
fn client_last_rule_wins_name_collision() {
    let config = Config {
        rules: vec![
            Rule {
                name: "dup".to_string(),
                host: Some("first".to_string()),
                sequence: vec![1],
            },
            Rule {
                name: "dup".to_string(),
                host: Some("second".to_string()),
                sequence: vec![2],
            },
        ],
    };
    let executor = CliRuleExecutor::new(config);
    let addrs = executor.run("dup", None).unwrap();
    assert_eq!(addrs, vec!["second:2".to_string()]);
}
