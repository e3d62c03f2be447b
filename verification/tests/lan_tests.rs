use paddle_desktop::lan::{
    is_ipv4_address_line, is_primary_interface, is_skipped_interface, is_valid_physical_lan_ip,
    lan_candidates_from_ifconfig, lan_candidates_from_ipconfig, order_lan_ips, parse_u32_exec,
};
use paddle_desktop::text::chars_of;

fn parse(s: &str) -> Option<u32> {
    parse_u32_exec(&chars_of(s))
}

#[test]
fn parse_u32_follows_std() {
    for s in ["0", "7", "+5", "-5", "", "+", "4294967295", "4294967296", "1a", " 1", "00042"] {
        assert_eq!(parse(s), s.parse::<u32>().ok(), "input {:?}", s);
    }
}

#[test]
fn private_ranges_are_lan() {
    assert!(is_valid_physical_lan_ip("192.168.1.20"));
    assert!(is_valid_physical_lan_ip("10.0.0.5"));
    assert!(is_valid_physical_lan_ip("172.16.0.1"));
    assert!(is_valid_physical_lan_ip("172.31.255.1"));
}

#[test]
fn reserved_and_public_are_not_lan() {
    for ip in [
        "", "127.0.0.1", "198.18.0.1", "198.19.3.4", "169.254.1.1", "0.0.0.0", "255.255.255.255",
        "100.64.0.1", "100.127.0.1", "172.15.0.1", "172.32.0.1", "8.8.8.8", "172.16.1",
        "172.x.0.1",
    ] {
        assert!(!is_valid_physical_lan_ip(ip), "{:?}", ip);
    }
}

#[test]
fn carrier_nat_check_needs_four_fields() {
    // `100.` outside 64..=127 is neither refused nor a private range.
    assert!(!is_valid_physical_lan_ip("100.63.0.1"));
    assert!(is_valid_physical_lan_ip("172.+16.0.1"));
}

#[test]
fn interface_names() {
    assert!(is_skipped_interface("utun3"));
    assert!(is_skipped_interface("lo0"));
    assert!(is_skipped_interface("docker0"));
    assert!(is_skipped_interface("br-1234"));
    assert!(!is_skipped_interface("en0"));
    assert!(!is_skipped_interface("eth1"));
    assert!(is_primary_interface("en0"));
    assert!(is_primary_interface("wlan0"));
    assert!(is_primary_interface("eth0"));
    assert!(!is_primary_interface("en1"));
}

const IFCONFIG: &str = "lo0: flags=8049<UP,LOOPBACK,RUNNING,MULTICAST> mtu 16384\n\tinet 127.0.0.1 netmask 0xff000000\n\tinet 10.9.9.9 netmask 0xff000000\nen1: flags=8863<UP> mtu 1500\n\tinet 10.0.0.7 netmask 0xffffff00 broadcast 10.0.0.255\nen0: flags=8863<UP> mtu 1500\n\tether aa:bb:cc:dd:ee:ff\n\tinet 192.168.1.20 netmask 0xffffff00 broadcast 192.168.1.255\n\tinet 192.168.1.20 netmask 0xffffff00\nutun0: flags=8051<UP> mtu 1380\n\tinet 172.16.5.5 --> 172.16.5.1\nbridge0 no colon here\n\tinet 172.20.0.1 netmask 0xffff0000\nEN2: flags=1\n    inet   172.20.0.2 netmask 0xffff0000\n\tinet 8.8.8.8 netmask 0xff\n";

#[test]
fn ifconfig_output() {
    let found = lan_candidates_from_ifconfig(IFCONFIG.as_bytes());
    assert_eq!(found, vec!["192.168.1.20", "10.0.0.7", "172.20.0.2"]);
}

#[test]
fn ifconfig_output_not_utf8() {
    let mut bytes = IFCONFIG.as_bytes().to_vec();
    bytes.push(0xff);
    assert!(lan_candidates_from_ifconfig(&bytes).is_empty());
}

#[test]
fn ipconfig_output() {
    let out = "Windows IP Configuration\r\n\r\nEthernet adapter:\r\n   IPv4 Address. . . . . . . . . . . : 192.168.0.8\r\n   Subnet Mask . . . . . . . . . . . : 255.255.255.0\r\n   IPv4 地址 . . . . . . . . . . . . : 10.1.2.3\r\n   IP Address: 192.168.0.8\r\n   ipv4 address: 127.0.0.1\r\n";
    let found = lan_candidates_from_ipconfig(out.as_bytes());
    assert_eq!(found, vec!["192.168.0.8", "10.1.2.3"]);
    assert!(is_ipv4_address_line("   IPv4 Address : 1", "   ipv4 address : 1"));
    assert!(!is_ipv4_address_line("Subnet Mask", "subnet mask"));
}

#[test]
fn ordering_prefers_home_networks() {
    let c = vec![
        "172.16.0.9".to_string(),
        "10.0.0.1".to_string(),
        "192.168.1.2".to_string(),
        "10.0.0.2".to_string(),
        "192.168.9.9".to_string(),
    ];
    assert_eq!(
        order_lan_ips(c),
        vec!["192.168.1.2", "192.168.9.9", "10.0.0.1", "10.0.0.2", "172.16.0.9"]
    );
}

#[test]
fn ordering_falls_back_to_loopback() {
    assert_eq!(order_lan_ips(Vec::new()), vec!["127.0.0.1"]);
}
