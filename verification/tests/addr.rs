use dockerwall::addr::{
    ip_in_subnet, is_local_ip, parse_ip, parse_ipv4, parse_ipv6, IpAddr, Ipv4Addr, Ipv6Addr,
};

fn letters(s: &str) -> Vec<char> {
    s.chars().collect()
}

fn ip(s: &str) -> IpAddr {
    parse_ip(&letters(s)).unwrap()
}

#[test]
fn ipv4_addresses_are_read_and_written() {
    let a = Ipv4Addr::new(192, 168, 0, 1);
    assert_eq!(a.bits, 0xc0a8_0001);
    assert_eq!(a.octets(), (192, 168, 0, 1));
    assert_eq!(a.to_text(), "192.168.0.1");
    assert_eq!(parse_ipv4(&letters("192.168.0.1")), Some(a));
    assert_eq!(parse_ipv4(&letters("255.255.255.255")), Some(Ipv4Addr { bits: u32::MAX }));
    for s in ["", "1.2.3", "1.2.3.4.5", "1.2.3.256", "01.2.3.4", "1.2.3.", "1..3.4", "1.2.3.4 ", "+1.2.3.4", "a.b.c.d"] {
        assert_eq!(parse_ipv4(&letters(s)), None, "{s:?}");
    }
}

#[test]
fn ipv6_addresses_are_read_and_written() {
    for (s, bits) in [
        ("::", 0u128),
        ("::1", 1),
        ("2001:db8::1", 0x2001_0db8_0000_0000_0000_0000_0000_0001),
        ("1:2:3:4:5:6:7:8", 0x0001_0002_0003_0004_0005_0006_0007_0008),
        ("1:0:0:4:5:0:0:8", 0x0001_0000_0000_0004_0005_0000_0000_0008),
        ("fe80::abcd:0:12", 0xfe80_0000_0000_0000_0000_abcd_0000_0012),
        ("::ffff:1.2.3.4", 0xffff_0102_0304),
    ] {
        assert_eq!(parse_ipv6(&letters(s)), Some(Ipv6Addr { bits }), "{s:?}");
        assert_eq!(parse_ipv6(&letters(&IpAddr::V6(Ipv6Addr { bits }).to_text())), Some(Ipv6Addr { bits }));
    }
    assert_eq!(IpAddr::V6(Ipv6Addr { bits: 0x0001_0000_0000_0004_0005_0000_0000_0008 }).to_text(), "1::4:5:0:0:8");
    assert_eq!(IpAddr::V6(Ipv6Addr { bits: 1 << 112 }).to_text(), "1::");
    assert_eq!(IpAddr::V6(Ipv6Addr { bits: 0 }).to_text(), "::");
    assert_eq!(IpAddr::V6(Ipv6Addr { bits: 0xffff_0102_0304 }).to_text(), "::ffff:1.2.3.4");
    assert_eq!(
        IpAddr::V6(Ipv6Addr { bits: 0x0001_0000_0003_0004_0005_0006_0007_0008 }).to_text(),
        "1:0:3:4:5:6:7:8"
    );
    assert_eq!(parse_ipv6(&letters("64:ff9b::1.2.3.4")), Some(Ipv6Addr { bits: 0x0064_ff9b_0000_0000_0000_0000_0102_0304 }));
    for s in ["", ":", ":::", "1::2::3", "1:2:3:4:5:6:7", "1:2:3:4:5:6:7:8:9", "12345::", "g::", "::1%eth0", "1.2.3.4", "::1.2.3", "1.2.3.4::"] {
        assert_eq!(parse_ipv6(&letters(s)), None, "{s:?}");
    }
}

#[test]
fn subnets_hold_their_addresses() {
    assert!(ip_in_subnet(ip("10.1.2.3"), "10.0.0.0/8"));
    assert!(!ip_in_subnet(ip("11.1.2.3"), "10.0.0.0/8"));
    assert!(ip_in_subnet(ip("1.2.3.4"), "0.0.0.0/0"));
    assert!(ip_in_subnet(ip("1.2.3.4"), "1.2.3.4/32"));
    assert!(ip_in_subnet(ip("1.2.3.4"), "1.2.3.4/99"));
    assert!(!ip_in_subnet(ip("1.2.3.5"), "1.2.3.4/99"));
    assert!(ip_in_subnet(ip("172.30.4.15"), "172.30.4.0/28"));
    assert!(!ip_in_subnet(ip("172.30.4.16"), "172.30.4.0/28"));
    assert!(ip_in_subnet(ip("::ffff:10.1.2.3"), "10.0.0.0/8"));
    assert!(ip_in_subnet(ip("fd00::1"), "fd00::/8"));
    assert!(!ip_in_subnet(ip("fe00::1"), "fd00::/8"));
    assert!(ip_in_subnet(ip("fe00::1"), "fd00::/0"));
    assert!(ip_in_subnet(ip("fd00::1"), "fd00::1/128"));
    assert!(ip_in_subnet(ip("1.2.3.4"), "1.2.3.4/32/ignored"));
    for subnet in ["", "1.2.3.4", "1.2.3.4/", "1.2.3.4/x", "1.2.3/8", "::/0", "1.2.3.4/-1", "/32"] {
        assert!(!ip_in_subnet(ip("1.2.3.4"), subnet), "{subnet:?}");
    }
}

#[test]
fn local_addresses_are_known() {
    for s in ["127.0.0.1", "10.0.0.1", "172.16.0.1", "172.31.255.255", "192.168.1.1", "169.254.0.1", "198.18.0.1", "198.19.255.255", "::1", "fc00::1", "fdff::1", "fe80::1", "febf::1"] {
        assert!(is_local_ip(ip(s)), "{s}");
    }
    for s in ["8.8.8.8", "172.15.0.1", "172.32.0.1", "192.169.0.1", "198.17.0.1", "198.20.0.1", "169.253.0.1", "::2", "fe00::1", "fec0::1", "2001:db8::1", "::ffff:10.0.0.1"] {
        assert!(!is_local_ip(ip(s)), "{s}");
    }
}

#[test]
fn addresses_have_an_order() {
    let sorted = ["1.2.3.4", "1.2.3.5", "200.0.0.1", "::1", "fe80::1"];
    for i in 0..sorted.len() {
        for j in 0..sorted.len() {
            assert_eq!(ip(sorted[i]).is_before(&ip(sorted[j])), i < j);
        }
    }
    assert_eq!(ip("::ffff:1.2.3.4").to_canonical(), ip("1.2.3.4"));
    assert_eq!(ip("::1").to_canonical(), ip("::1"));
}
