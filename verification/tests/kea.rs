use homelab_core::ops::kea::{ip_in_cidr, valid_hostname, valid_ipv4, valid_mac};

#[test]
fn h20_input_validation_is_strict() {
    assert!(valid_ipv4("10.10.10.8"));
    assert!(!valid_ipv4("10.10.10.8'; rm -rf / #"));
    assert!(!valid_ipv4("999.1.1.1"));
    assert!(valid_mac("BC:24:11:AA:BB:CC"));
    assert!(!valid_mac("BC:24:11:AA:BB:CC'x"));
    assert!(valid_hostname("108-app-synctest"));
    assert!(!valid_hostname("host$(reboot)"));
}

#[test]
fn cidr_matching() {
    assert!(ip_in_cidr("10.10.10.8", "10.10.10.0/24"));
    assert!(!ip_in_cidr("10.10.11.8", "10.10.10.0/24"));
    assert!(ip_in_cidr("10.10.11.8", "10.10.0.0/16"));
    assert!(!ip_in_cidr("garbage", "10.10.10.0/24"));
    assert!(!ip_in_cidr("10.10.10.8", "not-a-cidr"));
}

#[test]
fn ipv4_edge_cases() {
    assert!(valid_ipv4("0.0.0.0"));
    assert!(valid_ipv4("255.255.255.255"));
    assert!(!valid_ipv4("256.1.1.1"));
    assert!(!valid_ipv4("1.1.1"));
    assert!(!valid_ipv4("1.1.1.1.1"));
    assert!(!valid_ipv4("1..1.1"));
    assert!(!valid_ipv4("+1.1.1.1"));
    assert!(!valid_ipv4("1000.1.1.1"));
}

#[test]
fn cidr_edges() {
    assert!(ip_in_cidr("192.168.1.1", "0.0.0.0/1") == false);
    assert!(ip_in_cidr("10.0.0.1", "10.255.255.255/8"));
    assert!(ip_in_cidr("10.0.0.1", "10.0.0.1/32"));
    assert!(!ip_in_cidr("10.0.0.2", "10.0.0.1/32"));
    assert!(!ip_in_cidr("10.0.0.1", "10.0.0.1/0"));
    assert!(!ip_in_cidr("10.0.0.1", "10.0.0.1/33"));
}

#[test]
fn mac_edges() {
    assert!(valid_mac("bc:24:11:aa:bb:cc"));
    assert!(!valid_mac("BC:24:11:AA:BB"));
    assert!(!valid_mac("BC-24-11-AA-BB-CC"));
    assert!(!valid_hostname(""));
    assert!(!valid_hostname("Upper"));
}
