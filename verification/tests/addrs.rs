use tt::addrs::{broadcast_addrs, parse_ipv4, LIMITED_BROADCAST};
use tt::text::chars_of;

fn ip(a: u8, b: u8, c: u8, d: u8) -> u32 {
    u32::from_be_bytes([a, b, c, d])
}

fn parse(s: &str) -> Option<u32> {
    let cs = chars_of(s);
    parse_ipv4(&cs, 0, cs.len())
}

#[test]
fn limited_broadcast_always_first() {
    assert_eq!(broadcast_addrs(""), vec![LIMITED_BROADCAST]);
    assert_eq!(broadcast_addrs("lo0: flags=8049<UP,LOOPBACK>\n"), vec![LIMITED_BROADCAST]);
}

#[test]
fn macos_and_linux_listings() {
    let text = "en0: flags=8863<UP,BROADCAST>\n\
                \tinet 192.168.1.5 netmask 0xffffff00 broadcast 192.168.1.255\n\
                eth0: flags=4163<UP,BROADCAST,RUNNING,MULTICAST>  mtu 1500\n\
                        inet 10.0.0.7  netmask 255.255.255.0  broadcast 10.0.0.255\r\n";
    assert_eq!(
        broadcast_addrs(text),
        vec![LIMITED_BROADCAST, ip(192, 168, 1, 255), ip(10, 0, 0, 255)]
    );
}

#[test]
fn repeated_addresses_listed_once() {
    let text = "inet 10.0.0.7 broadcast 10.0.0.255\ninet 10.0.0.8 broadcast 10.0.0.255\n\
                inet 1.2.3.4 broadcast 255.255.255.255";
    assert_eq!(broadcast_addrs(text), vec![LIMITED_BROADCAST, ip(10, 0, 0, 255)]);
}

#[test]
fn only_first_marker_of_a_line_counts() {
    let text = "broadcast x broadcast 10.1.1.255";
    assert_eq!(broadcast_addrs(text), vec![LIMITED_BROADCAST]);
    let text = "broadcast    172.16.0.255 extra";
    assert_eq!(broadcast_addrs(text), vec![LIMITED_BROADCAST, ip(172, 16, 0, 255)]);
}

#[test]
fn dotted_decimal_parsing() {
    assert_eq!(parse("192.168.0.1"), Some(ip(192, 168, 0, 1)));
    assert_eq!(parse("0.0.0.0"), Some(0));
    assert_eq!(parse("255.255.255.255"), Some(u32::MAX));
    assert_eq!(parse("256.1.1.1"), None);
    assert_eq!(parse("010.0.0.1"), None);
    assert_eq!(parse("1.2.3"), None);
    assert_eq!(parse("1.2.3.4.5"), None);
    assert_eq!(parse("1.2..4"), None);
    assert_eq!(parse("+1.2.3.4"), None);
    assert_eq!(parse(""), None);
}

#[test]
fn octets_without_leading_zeros() {
    assert_eq!(parse("1.2.3.4"), Some(ip(1, 2, 3, 4)));
    assert_eq!(parse("01.2.3.4"), None);
    assert_eq!(parse("1.2.3.04"), None);
    assert_eq!(parse("1.2.3.256"), None);
    assert_eq!(parse("a.b.c.d"), None);
    assert_eq!(parse("100.200.0.255"), Some(ip(100, 200, 0, 255)));
}
