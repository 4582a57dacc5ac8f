use knockd::config::Config;
use knockd::config::Rule;
use knockd::port_sequence::PortSequenceDetector;
use knockd::server::Server;

fn capture_config() -> Config {
    Config {
        interface: "eth0".to_string(),
        timeout: 2000,
        rules: vec![Rule {
            name: "open".to_string(),
            sequence: vec![1, 2, 3],
            activate: "open %IP%".to_string(),
            deactivate: None,
            timeout: None,
            setup: None,
            teardown: None,
        }],
    }
}

fn ipv4_frame(src: [u8; 4], port: u16) -> Vec<u8> {
    let mut frame = vec![0u8; 14 + 20 + 4];
    frame[12] = 0x08;
    frame[13] = 0x00;
    frame[14] = 0x45;
    frame[14 + 12] = src[0];
    frame[14 + 13] = src[1];
    frame[14 + 14] = src[2];
    frame[14 + 15] = src[3];
    frame[14 + 20 + 2] = (port >> 8) as u8;
    frame[14 + 20 + 3] = (port & 0xff) as u8;
    frame
}

#[test]
fn server_feeds_parsed_frames_to_its_detector() {
    let detector = PortSequenceDetector::new(capture_config());
    let mut server = Server::new("eth0".to_string(), detector);
    server.handle_packet(&ipv4_frame([10, 0, 0, 1], 1));
    server.handle_packet(&ipv4_frame([10, 0, 0, 1], 2));
    server.handle_packet(&ipv4_frame([10, 0, 0, 1], 3));
    assert_eq!(
        server.detector.take_pending(),
        vec!["open 10.0.0.1".to_string()]
    );
    assert_eq!(server.detector.client_last_seen("10.0.0.1"), None);
}

#[test]
fn server_ignores_frames_that_do_not_parse() {
    let detector = PortSequenceDetector::new(capture_config());
    let mut server = Server::new("eth0".to_string(), detector);
    server.handle_packet(&[0u8; 10]);
    let mut arp = vec![0u8; 64];
    arp[12] = 0x08;
    arp[13] = 0x06;
    server.handle_packet(&arp);
    assert_eq!(server.detector.take_pending(), Vec::<String>::new());
    assert_eq!(server.detector.client_progress("10.0.0.1"), None);
}
