use knockd::strings::format_ipv4;
use knockd::strings::format_ipv6;
use knockd::strings::resolve_template;
use knockd::strings::str_eq;

#[test]
fn substitutes_every_marker() {
    assert_eq!(resolve_template("open %IP%", "10.0.0.1"), "open 10.0.0.1");
    assert_eq!(
        resolve_template("allow %IP% and log %IP%", "1.2.3.4"),
        "allow 1.2.3.4 and log 1.2.3.4"
    );
}

#[test]
fn leaves_text_without_marker_alone() {
    assert_eq!(resolve_template("ls -lh", "10.0.0.1"), "ls -lh");
    assert_eq!(resolve_template("", "10.0.0.1"), "");
}

#[test]
fn partial_marker_is_not_substituted() {
    assert_eq!(resolve_template("open %IP", "10.0.0.1"), "open %IP");
    assert_eq!(resolve_template("%ip% %Ip%", "10.0.0.1"), "%ip% %Ip%");
}

#[test]
fn replacement_is_not_rescanned() {
    assert_eq!(resolve_template("%IP%%IP%", "a"), "aa");
}

#[test]
fn renders_dotted_quads() {
    assert_eq!(format_ipv4(0, 0, 0, 0), "0.0.0.0");
    assert_eq!(format_ipv4(255, 255, 255, 255), "255.255.255.255");
    assert_eq!(format_ipv4(10, 0, 0, 7), "10.0.0.7");
}

#[test]
fn renders_colon_hex_groups() {
    assert_eq!(
        format_ipv6(0xfe80, 0, 0, 0, 0, 0, 0, 1),
        "fe80:0:0:0:0:0:0:1"
    );
    assert_eq!(
        format_ipv6(0x2001, 0xdb8, 0, 0x12, 0xabc, 0xdef0, 0xffff, 0x9),
        "2001:db8:0:12:abc:def0:ffff:9"
    );
}

#[test]
fn string_equality_goes_by_characters() {
    assert!(str_eq("10.0.0.1", "10.0.0.1"));
    assert!(!str_eq("10.0.0.1", "10.0.0.2"));
    assert!(!str_eq("10.0.0.1", "10.0.0"));
    assert!(str_eq("", ""));
}
