use knockd::parser::parse_ethernet_ip_packet;

fn ipv4_syn_frame(src: [u8; 4], port: u16) -> Vec<u8> {
    let mut frame = vec![0u8; 14 + 20 + 4];
    frame[12] = 0x08;
    frame[13] = 0x00;
    // IPv4 header: version 4, IHL 5 words (20 bytes)
    frame[14] = 0x45;
    frame[14 + 12] = src[0];
    frame[14 + 13] = src[1];
    frame[14 + 14] = src[2];
    frame[14 + 15] = src[3];
    // TCP destination port right after the IPv4 header
    frame[14 + 20 + 2] = (port >> 8) as u8;
    frame[14 + 20 + 3] = (port & 0xff) as u8;
    frame
}

#[test]
fn parses_ipv4_source_and_port() {
    let frame = ipv4_syn_frame([10, 0, 0, 1], 4022);
    let info = parse_ethernet_ip_packet(&frame).unwrap();
    assert_eq!(info.source_ip, "10.0.0.1");
    assert_eq!(info.destination_port, 4022);
}

#[test]
fn parses_ipv4_with_options() {
    // IHL 6 words: one option word shifts the TCP header by four bytes.
    let mut frame = vec![0u8; 14 + 24 + 4];
    frame[12] = 0x08;
    frame[13] = 0x00;
    frame[14] = 0x46;
    frame[14 + 12] = 192;
    frame[14 + 13] = 168;
    frame[14 + 14] = 1;
    frame[14 + 15] = 77;
    frame[14 + 24 + 2] = 0x00;
    frame[14 + 24 + 3] = 0x50;
    let info = parse_ethernet_ip_packet(&frame).unwrap();
    assert_eq!(info.source_ip, "192.168.1.77");
    assert_eq!(info.destination_port, 80);
}

#[test]
fn parses_ipv6_source_and_port() {
    let mut frame = vec![0u8; 14 + 40 + 4];
    frame[12] = 0x86;
    frame[13] = 0xdd;
    // Source address fe80::1 at bytes 8..24 of the IPv6 header.
    frame[14 + 8] = 0xfe;
    frame[14 + 9] = 0x80;
    frame[14 + 23] = 0x01;
    frame[14 + 42] = 0x1f;
    frame[14 + 43] = 0x90;
    let info = parse_ethernet_ip_packet(&frame).unwrap();
    assert_eq!(info.source_ip, "fe80:0:0:0:0:0:0:1");
    assert_eq!(info.destination_port, 8080);
}

#[test]
fn rejects_short_frames_and_other_ethertypes() {
    assert!(parse_ethernet_ip_packet(&[0u8; 37]).is_none());
    let mut arp = vec![0u8; 64];
    arp[12] = 0x08;
    arp[13] = 0x06;
    assert!(parse_ethernet_ip_packet(&arp).is_none());
}

#[test]
fn rejects_truncated_ipv6() {
    let mut frame = vec![0u8; 14 + 30];
    frame[12] = 0x86;
    frame[13] = 0xdd;
    assert!(parse_ethernet_ip_packet(&frame).is_none());
}

#[test]
fn rejects_ipv4_header_shorter_than_twenty_bytes() {
    let mut frame = vec![0u8; 14 + 20 + 4];
    frame[12] = 0x08;
    frame[13] = 0x00;
    frame[14] = 0x44;
    assert!(parse_ethernet_ip_packet(&frame).is_none());
}
