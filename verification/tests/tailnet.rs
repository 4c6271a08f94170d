use pair::tailnet::{is_protected, is_tailnet_address, Address};

fn v4(s: &str) -> Address {
    let parts: Vec<u8> = s
        .split('.')
        .map(|p| p.parse().expect("valid address"))
        .collect();
    Address::from_octets(parts[0], parts[1], parts[2], parts[3])
}

#[test]
fn tailscale_addresses_are_recognised() {
    for addr in [
        "100.64.0.1",
        "100.100.100.100",
        "100.127.255.254",
        "100.79.3.21",
    ] {
        assert!(
            is_tailnet_address(v4(addr)),
            "{addr} is inside 100.64.0.0/10"
        );
    }
    // fd7a:115c:a1e0::1
    assert!(is_tailnet_address(Address::V6([
        0xfd7a, 0x115c, 0xa1e0, 0, 0, 0, 0, 1
    ])));
}

#[test]
fn ordinary_addresses_are_not_mistaken_for_the_tailnet() {
    // 100.63.x and 100.128.x sit just outside the range, and are the obvious
    // places for an off-by-one to hide.
    for addr in [
        "100.63.255.255",
        "100.128.0.0",
        "8.8.8.8",
        "192.168.1.10",
        "10.0.0.1",
        "172.16.0.1",
        "203.0.113.5",
    ] {
        assert!(
            !is_tailnet_address(v4(addr)),
            "{addr} must not read as a tailnet address"
        );
    }
    // 2001:4860:4860::8888
    assert!(!is_tailnet_address(Address::V6([
        0x2001, 0x4860, 0x4860, 0, 0, 0, 0, 0x8888
    ])));
}

#[test]
fn loopback_counts_as_protected_but_a_lan_address_does_not() {
    assert!(is_protected(v4("127.0.0.1")));
    // ::1
    assert!(is_protected(Address::V6([0, 0, 0, 0, 0, 0, 0, 1])));
    // LAN traffic travels in the clear.
    assert!(!is_protected(v4("192.168.1.50")));
}

#[test]
fn the_whole_loopback_block_is_protected() {
    assert!(is_protected(v4("127.255.0.9")));
    assert!(!is_protected(v4("128.0.0.1")));
    assert!(is_protected(v4("100.64.0.0")));
    assert!(is_protected(Address::V6([0xfd7a, 9, 9, 9, 9, 9, 9, 9])));
    assert!(!is_protected(Address::V6([0, 0, 0, 0, 0, 0, 0, 2])));
    assert!(!is_protected(Address::V6([0; 8])));
}

#[test]
fn octets_are_read_from_the_left() {
    assert_eq!(Address::from_octets(1, 2, 3, 4), Address::V4(0x0102_0304));
}
