use knockd::config::Config;
use knockd::config::Rule;
use knockd::port_sequence::PortSequenceDetector;

fn scenario_config() -> Config {
    Config {
        interface: "eth0".to_string(),
        timeout: 2000,
        rules: vec![
            Rule {
                name: "a".to_string(),
                sequence: vec![1, 2, 3],
                activate: "open %IP%".to_string(),
                deactivate: None,
                timeout: None,
                setup: None,
                teardown: None,
            },
            Rule {
                name: "b".to_string(),
                sequence: vec![3, 5, 6],
                activate: "extra %IP%".to_string(),
                deactivate: None,
                timeout: None,
                setup: None,
                teardown: None,
            },
        ],
    }
}

#[test]
fn simple_match_fires_one_activation() {
    let mut d = PortSequenceDetector::new(scenario_config());
    d.observe_at("10.0.0.1".to_string(), 1, 100);
    d.observe_at("10.0.0.1".to_string(), 2, 200);
    let matched = d.observe_at("10.0.0.1".to_string(), 3, 300);
    assert!(matched);
    assert_eq!(d.take_pending(), vec!["open 10.0.0.1".to_string()]);
    assert_eq!(d.client_progress("10.0.0.1"), Some(vec![]));
    assert_eq!(d.client_last_seen("10.0.0.1"), None);
}

#[test]
fn filtered_port_is_a_no_op() {
    let mut d = PortSequenceDetector::new(scenario_config());
    let matched = d.observe_at("10.0.0.1".to_string(), 9, 100);
    assert!(!matched);
    assert_eq!(d.take_pending(), Vec::<String>::new());
    assert_eq!(d.client_progress("10.0.0.1"), None);
}

#[test]
fn suffix_match_survives_prefix_noise() {
    let mut d = PortSequenceDetector::new(scenario_config());
    d.observe_at("10.0.0.2".to_string(), 2, 100);
    d.observe_at("10.0.0.2".to_string(), 1, 200);
    d.observe_at("10.0.0.2".to_string(), 1, 300);
    d.observe_at("10.0.0.2".to_string(), 2, 400);
    let matched = d.observe_at("10.0.0.2".to_string(), 3, 500);
    assert!(matched);
    assert_eq!(d.take_pending(), vec!["open 10.0.0.2".to_string()]);
}

#[test]
fn inactivity_expiry_removes_client() {
    let mut d = PortSequenceDetector::new(scenario_config());
    d.observe_at("10.0.0.3".to_string(), 3, 1000);
    assert_eq!(d.client_progress("10.0.0.3"), Some(vec![3]));
    d.housekeep_at(5000);
    assert_eq!(d.client_progress("10.0.0.3"), None);
    assert_eq!(d.client_last_seen("10.0.0.3"), None);
    assert_eq!(d.take_pending(), Vec::<String>::new());
}

#[test]
fn overlap_then_match_fires_second_rule() {
    let mut d = PortSequenceDetector::new(scenario_config());
    d.observe_at("10.0.0.4".to_string(), 1, 100);
    d.observe_at("10.0.0.4".to_string(), 3, 200);
    d.observe_at("10.0.0.4".to_string(), 5, 300);
    let matched = d.observe_at("10.0.0.4".to_string(), 6, 400);
    assert!(matched);
    assert_eq!(d.take_pending(), vec!["extra 10.0.0.4".to_string()]);
}

#[test]
fn independent_clients_each_fire_once() {
    let mut d = PortSequenceDetector::new(scenario_config());
    d.observe_at("10.0.0.5".to_string(), 1, 100);
    d.observe_at("10.0.0.6".to_string(), 1, 150);
    d.observe_at("10.0.0.5".to_string(), 2, 200);
    d.observe_at("10.0.0.6".to_string(), 2, 250);
    d.observe_at("10.0.0.5".to_string(), 3, 300);
    d.observe_at("10.0.0.6".to_string(), 3, 350);
    assert_eq!(
        d.take_pending(),
        vec!["open 10.0.0.5".to_string(), "open 10.0.0.6".to_string()]
    );
}

#[test]
fn no_sweep_while_observations_keep_coming() {
    let mut d = PortSequenceDetector::new(scenario_config());
    d.observe_at("10.0.0.7".to_string(), 1, 1000);
    d.observe_at("10.0.0.7".to_string(), 2, 2500);
    d.housekeep_at(3000);
    assert_eq!(d.client_progress("10.0.0.7"), Some(vec![1, 2]));
    assert_eq!(d.client_last_seen("10.0.0.7"), Some(2500));
}

#[test]
fn replaying_the_same_stream_gives_the_same_activations() {
    let stream = [
        ("10.0.0.8", 2u16, 100u128),
        ("10.0.0.8", 1, 200),
        ("10.0.0.9", 3, 250),
        ("10.0.0.8", 2, 300),
        ("10.0.0.8", 3, 400),
        ("10.0.0.9", 5, 450),
        ("10.0.0.9", 6, 500),
    ];
    let mut d1 = PortSequenceDetector::new(scenario_config());
    let mut d2 = PortSequenceDetector::new(scenario_config());
    for (ip, port, at) in stream.iter() {
        d1.observe_at(ip.to_string(), *port, *at);
    }
    for (ip, port, at) in stream.iter() {
        d2.observe_at(ip.to_string(), *port, *at);
    }
    assert_eq!(d1.take_pending(), d2.take_pending());
}

fn lifetime_config() -> Config {
    Config {
        interface: "eth0".to_string(),
        timeout: 2000,
        rules: vec![Rule {
            name: "guard".to_string(),
            sequence: vec![7, 8],
            activate: "open %IP%".to_string(),
            deactivate: Some("close %IP%".to_string()),
            timeout: Some(1000),
            setup: None,
            teardown: None,
        }],
    }
}

#[test]
fn deactivation_fires_after_rule_lifetime() {
    let mut d = PortSequenceDetector::new(lifetime_config());
    d.observe_at("10.0.1.1".to_string(), 7, 100);
    let matched = d.observe_at("10.0.1.1".to_string(), 8, 200);
    assert!(matched);
    assert!(d.is_rule_active("10.0.1.1", "guard"));
    assert_eq!(d.take_pending(), vec!["open 10.0.1.1".to_string()]);
    let next = d.housekeep_at(300);
    assert_eq!(next, Some(1200));
    assert!(d.is_rule_active("10.0.1.1", "guard"));
    d.housekeep_at(1200);
    assert!(!d.is_rule_active("10.0.1.1", "guard"));
    assert_eq!(d.active_clients_len(), 0);
    assert_eq!(d.take_pending(), vec!["close 10.0.1.1".to_string()]);
}

#[test]
fn rule_without_deactivate_never_enters_active() {
    let mut d = PortSequenceDetector::new(scenario_config());
    d.observe_at("10.0.1.2".to_string(), 1, 100);
    d.observe_at("10.0.1.2".to_string(), 2, 200);
    d.observe_at("10.0.1.2".to_string(), 3, 300);
    assert_eq!(d.active_clients_len(), 0);
    assert!(!d.is_rule_active("10.0.1.2", "a"));
}

#[test]
fn next_deadline_tracks_earliest_client() {
    let mut d = PortSequenceDetector::new(scenario_config());
    d.observe_at("10.0.1.3".to_string(), 1, 1000);
    d.observe_at("10.0.1.4".to_string(), 2, 1600);
    let next = d.housekeep_at(1700);
    assert_eq!(next, Some(3000));
    let idle = d.housekeep_at(4000);
    assert_eq!(idle, None);
}

#[test]
fn last_rule_wins_a_name_collision() {
    let mut config = scenario_config();
    config.rules.push(Rule {
        name: "a".to_string(),
        sequence: vec![4, 4],
        activate: "second %IP%".to_string(),
        deactivate: None,
        timeout: None,
        setup: None,
        teardown: None,
    });
    let mut d = PortSequenceDetector::new(config);
    assert_eq!(d.sequence_rules_len(), 2);
    d.observe_at("10.0.1.5".to_string(), 4, 100);
    let matched = d.observe_at("10.0.1.5".to_string(), 4, 200);
    assert!(matched);
    assert_eq!(d.take_pending(), vec!["second 10.0.1.5".to_string()]);
}
