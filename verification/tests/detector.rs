use knockd::config::Config;
use knockd::config::Rule;
use knockd::port_sequence::PortSequenceDetector;
use knockd::sequence::SequenceDetector;

fn create_config() -> Config {
    Config {
        interface: "enp3s0".to_string(),
        timeout: 2,
        rules: vec![
            Rule {
                name: "enable ssh".to_string(),
                sequence: vec![1, 2, 3],
                activate: "ls -lh".to_string(),
                deactivate: None,
                timeout: None,
                setup: None,
                teardown: None,
            },
            Rule {
                name: "disable ssh".to_string(),
                sequence: vec![3, 5, 6],
                activate: "free -g".to_string(),
                deactivate: None,
                timeout: None,
                setup: None,
                teardown: None,
            },
        ],
    }
}

#[test]
fn test_new() {
    let config = create_config();
    let detector = PortSequenceDetector::new(config);
    assert_eq!(detector.sequence_set_len(), 5);
    assert_eq!(detector.sequence_rules_len(), 2);
    assert_eq!(detector.inactivity_timeout(), 2);
}

#[test]
fn test_add_sequence() {
    let config = create_config();
    let mut detector = PortSequenceDetector::new(config);
    detector.add_sequence("127.0.0.1".to_owned(), 3);
    assert_eq!(detector.client_progress("127.0.0.1"), Some(vec![3]));
}

#[test]
fn test_add_none_existing_sequence() {
    let config = create_config();
    let mut detector = PortSequenceDetector::new(config);
    detector.add_sequence("127.0.0.1".to_owned(), 9);
    assert_eq!(detector.client_progress("127.0.0.1"), None);
}

#[test]
fn test_match_sequence() {
    let config = create_config();
    let mut detector = PortSequenceDetector::new(config);
    detector.add_sequence("127.0.0.1".to_owned(), 1);
    detector.add_sequence("127.0.0.1".to_owned(), 3);
    detector.add_sequence("127.0.0.1".to_owned(), 5);
    detector.add_sequence("127.0.0.1".to_owned(), 6);
    assert_eq!(detector.match_sequence("127.0.0.1"), false);
    assert_eq!(detector.client_progress("127.0.0.1").unwrap().len(), 0);
}
