use std::collections::hash_map::DefaultHasher;
use std::hash::{Hash, Hasher};

use dockerwall::addr::{ip_in_subnet, is_local_ip, parse_ipv4, IpAddr, Ipv4Addr};
use dockerwall::network::{
    default_route_interface, existing_source_ip, next_attempt, output_rule_source_ip,
    rootless_podman_source_ip, subnet_and_gateway, subnet_and_gateway_of, to_host_cidr,
    validate_interface_name, InterfaceError, NetworkPlan,
};

fn letters(s: &str) -> Vec<char> {
    s.chars().collect()
}

#[test]
fn generated_gateways_are_valid_for_their_subnets() {
    for attempt in 0..1000 {
        let (subnet, gateway) = subnet_and_gateway("test-net", attempt);
        let subnet_prefix = subnet.strip_suffix(".0/28").unwrap();
        let subnet_octets: Vec<u8> = subnet_prefix
            .split('.')
            .map(|octet| octet.parse().unwrap())
            .collect();
        let gateway_octets: Vec<u8> = gateway
            .split('.')
            .map(|octet| octet.parse().unwrap())
            .collect();
        assert_eq!(&gateway_octets[..3], &subnet_octets[..]);
        assert!((1..=14).contains(&gateway_octets[3]));
    }
}

#[test]
fn rootless_podman_source_ip_is_stable_and_in_benchmark_range() {
    let ip = rootless_podman_source_ip("test-net", 0);
    assert_eq!(ip, rootless_podman_source_ip("test-net", 0));
    assert_ne!(ip, rootless_podman_source_ip("test-net", 1));
    assert_ne!(ip, Ipv4Addr::new(198, 18, 0, 0));
    assert_ne!(ip, Ipv4Addr::new(198, 18, 0, 1));
    assert_ne!(ip, Ipv4Addr::new(198, 19, 255, 255));
    assert!(
        (Ipv4Addr::new(198, 18, 0, 0).bits..=Ipv4Addr::new(198, 19, 255, 255).bits)
            .contains(&ip.bits)
    );
}

#[test]
fn interface_names_are_conservative() {
    assert_eq!(validate_interface_name("enp0s3.100").unwrap(), "enp0s3.100");
    assert!(validate_interface_name("bad/interface").is_err());
    assert!(validate_interface_name("non-ascii-\u{e9}").is_err());
}

#[test]
fn addresses_come_from_the_hash_of_name_and_attempt() {
    for (name, attempt) in [("test-net", 0u32), ("test-net", 7), ("", 1), ("réseau", 0x0102_0304)] {
        let mut hasher = DefaultHasher::new();
        name.hash(&mut hasher);
        attempt.hash(&mut hasher);
        let expected = subnet_and_gateway_of(hasher.finish());
        assert_eq!(subnet_and_gateway(name, attempt), expected);
        let plan = NetworkPlan::new(name, 5353, attempt);
        assert_eq!(plan.name, name);
        assert_eq!((plan.subnet, plan.gateway), expected);
        assert_eq!(plan.dns_port, 5353);
    }
}

#[test]
fn a_hash_gives_a_subnet_and_a_gateway() {
    let pair = |hash: u64| subnet_and_gateway_of(hash);
    assert_eq!(pair(0), ("172.30.0.0/28".to_string(), "172.30.0.1".to_string()));
    assert_eq!(pair(13), ("172.30.0.0/28".to_string(), "172.30.0.14".to_string()));
    assert_eq!(pair(14), ("172.30.1.0/28".to_string(), "172.30.1.1".to_string()));
    assert_eq!(pair(3583), ("172.30.255.0/28".to_string(), "172.30.255.14".to_string()));
    assert_eq!(pair(3584), pair(0));
}

#[test]
fn gateways_stand_in_their_subnets_and_are_local() {
    for hash in (0..3584).step_by(97) {
        let (subnet, gateway) = subnet_and_gateway_of(hash);
        let ip = IpAddr::V4(parse_ipv4(&letters(&gateway)).unwrap());
        assert!(ip_in_subnet(ip, &subnet));
        assert!(is_local_ip(ip));
    }
}

#[test]
fn source_ips_have_known_values() {
    let text = |name: &str, attempt: u32| rootless_podman_source_ip(name, attempt).to_text();
    assert_eq!(text("", 0), "198.19.122.177");
    assert_eq!(text("test-net", 0), "198.19.167.94");
    assert_eq!(text("test-net", 1), "198.19.167.95");
    assert_eq!(text("secure-net", 0), "198.19.12.128");
    assert_eq!(text("\u{e9}", 0), "198.18.136.199");
    // The last managed address is followed by the first.
    assert_eq!(text("test-net", 131068 - 108380), "198.19.255.254");
    assert_eq!(text("test-net", 131069 - 108380), "198.18.0.2");
    assert_eq!(text("test-net", 131069), text("test-net", 0));
}

#[test]
fn attempts_give_different_source_ips() {
    let mut seen: Vec<u32> =
        (0..131069).map(|attempt| rootless_podman_source_ip("test-net", attempt).bits).collect();
    seen.sort();
    seen.dedup();
    assert_eq!(seen.len(), 131069);
    assert_eq!(seen[0], Ipv4Addr::new(198, 18, 0, 2).bits);
    assert_eq!(seen[131068], Ipv4Addr::new(198, 19, 255, 254).bits);
    assert!(seen.iter().all(|bits| is_local_ip(IpAddr::V4(Ipv4Addr { bits: *bits }))));
}

#[test]
fn a_host_network_holds_one_address() {
    let ip = Ipv4Addr::new(198, 18, 0, 9);
    let cidr = to_host_cidr(ip);
    assert_eq!(cidr, "198.18.0.9/32");
    assert!(ip_in_subnet(IpAddr::V4(ip), &cidr));
    assert!(!ip_in_subnet(IpAddr::V4(Ipv4Addr::new(198, 18, 0, 8)), &cidr));
}

#[test]
fn the_source_of_a_rule_follows_the_first_option() {
    let source = |rule: &str| output_rule_source_ip(&letters(rule)).map(|ip| ip.to_text());
    assert_eq!(source("-A OUTPUT -s 198.18.0.9/32 -j X"), Some("198.18.0.9".to_string()));
    assert_eq!(source("-A OUTPUT\t-s  198.18.0.9/32"), Some("198.18.0.9".to_string()));
    assert_eq!(source("-A OUTPUT -s 198.18.0.9/31 -s 198.18.0.8/32"), None);
    assert_eq!(source("-A OUTPUT -s 198.18.0.9"), None);
    assert_eq!(source("-A OUTPUT -s 198.18.0.09/32"), None);
    assert_eq!(source("-A OUTPUT -s"), None);
    assert_eq!(source("-A OUTPUT"), None);
    assert_eq!(source(""), None);
}

#[test]
fn a_hooked_network_has_a_source() {
    let rules = "-P OUTPUT ACCEPT\n\
        -A OUTPUT -m comment --comment dockerwall:a:output-hook -j X\n\
        -A OUTPUT -s 198.18.0.7/32 -m comment --comment \"dockerwall:ab:output-hook\" -j X\n\
        -A OUTPUT -s 198.18.0.8/32 -m comment --comment \"dockerwall:a:output-hook\" -j X\n\
        -A OUTPUT -s 198.18.0.9/32 -m comment --comment \"dockerwall:a:output-hook\" -j X\n";
    let text = |name: &str| existing_source_ip(rules, name).map(|ip| ip.to_text());
    assert_eq!(text("a"), Some("198.18.0.8".to_string()));
    assert_eq!(text("ab"), Some("198.18.0.7".to_string()));
    assert_eq!(text("b"), None);
}

#[test]
fn taken_source_ips_are_passed_over() {
    assert_eq!(next_attempt("", "test-net", 0), Some(0));
    assert_eq!(next_attempt("", "test-net", 5), Some(5));
    let rules = "-A OUTPUT -s 198.19.167.94/32 -j X\n-A OUTPUT -d 198.19.167.95/32 -j Y\n";
    assert_eq!(next_attempt(rules, "test-net", 0), Some(2));
    // Only the whole notation counts.
    assert_eq!(next_attempt("-s 198.19.167.94/3\n2", "test-net", 0), Some(0));
    assert_eq!(next_attempt("", "test-net", 131068), Some(131068));
    assert_eq!(next_attempt("", "test-net", 131069), None);
    assert_eq!(next_attempt("", "test-net", u32::MAX), None);
}

#[test]
fn interface_names_have_bounds() {
    assert_eq!(validate_interface_name("").unwrap_err(), InterfaceError::InvalidName);
    assert_eq!(validate_interface_name("a").unwrap(), "a");
    assert_eq!(validate_interface_name("Abc-1_2.3xyzABC").unwrap(), "Abc-1_2.3xyzABC");
    assert!(validate_interface_name("Abc-1_2.3xyzABCD").is_err());
    assert!(validate_interface_name("eth 0").is_err());
    assert_eq!(
        InterfaceError::InvalidName.message(),
        "interface name must be 1-15 ASCII alphanumeric, '.', '_', or '-' characters"
    );
}

#[test]
fn the_default_route_names_the_interface() {
    let route = |s: &str| default_route_interface(s);
    assert_eq!(route("default via 10.0.0.1 dev eth0 proto dhcp\n").unwrap(), "eth0");
    assert_eq!(
        route("10.0.0.0/8 dev eth1\ndefault blackhole\ndefault via 1.2.3.4 dev wlan0\r\n").unwrap(),
        "wlan0"
    );
    assert_eq!(route("default via 1.2.3.4 dev").unwrap_err(), InterfaceError::RouteWithoutInterface);
    assert_eq!(route("default dev bad/name\n").unwrap_err(), InterfaceError::InvalidName);
    assert_eq!(route("").unwrap_err(), InterfaceError::NoDefaultRoute);
    assert_eq!(route("dev eth0\n").unwrap_err(), InterfaceError::NoDefaultRoute);
    assert_eq!(
        InterfaceError::RouteWithoutInterface.message(),
        "default route has no interface"
    );
    assert_eq!(
        InterfaceError::NoDefaultRoute.message(),
        "could not determine the default-route interface"
    );
}
