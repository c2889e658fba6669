use dockerwall::addr::{parse_ip, IpAddr};
use dockerwall::stats::{format_duration, NetworkRegistry, Stats};

const SECOND: u64 = 1_000_000_000;

fn ip(s: &str) -> IpAddr {
    let letters: Vec<char> = s.chars().collect();
    parse_ip(&letters).unwrap()
}

fn registry() -> NetworkRegistry {
    let mut registry = NetworkRegistry::new();
    registry.register_network("one".to_string(), "10.0.0.0/8".to_string());
    registry.register_network("two".to_string(), "10.1.0.0/16".to_string());
    registry
}

#[test]
fn durations_are_told_in_whole_units() {
    for (secs, text) in [
        (0, "0s ago"),
        (59, "59s ago"),
        (60, "1m ago"),
        (3599, "59m ago"),
        (3600, "1h ago"),
        (86399, "23h ago"),
        (86400, "1d ago"),
        (u64::MAX, "213503982334601d ago"),
    ] {
        assert_eq!(format_duration(secs), text);
    }
}

#[test]
fn networks_are_numbered_by_subnet() {
    let mut registry = registry();
    assert_eq!(registry.network(1).unwrap().name, "one");
    assert_eq!(registry.network(2).unwrap().subnet, "10.1.0.0/16");
    assert!(registry.network(3).is_none());
    registry.register_network("renamed".to_string(), "10.0.0.0/8".to_string());
    assert_eq!(registry.network(1).unwrap().name, "renamed");
    assert!(registry.network(3).is_none());
    registry.register_network("three".to_string(), "192.168.0.0/16".to_string());
    assert_eq!(registry.network(3).unwrap().name, "three");
    assert_eq!(registry.home_of(ip("192.168.1.1")), Some(3));
    assert_eq!(registry.home_of(ip("::ffff:192.168.1.1")), Some(3));
    assert_eq!(registry.home_of(ip("8.8.8.8")), None);
    // The first of several subnets counts.
    assert_eq!(registry.home_of(ip("10.1.0.1")), Some(1));
}

#[test]
fn resolves_are_counted_and_forgotten() {
    let mut stats = Stats::new();
    let ttl = 10 * SECOND as u128;
    let a = ip("10.0.0.1");
    stats.record("x.com", a, Some(1), Some(true), 100 * SECOND, ttl);
    stats.record("x.com", a, Some(1), Some(false), 105 * SECOND, ttl);
    stats.record("y.com", a, None, None, 106 * SECOND, ttl);
    let entry = stats.get("x.com", a).unwrap();
    assert_eq!(entry.count, 2);
    assert_eq!(entry.last_seen, 105 * SECOND);
    assert_eq!(entry.network_id, Some(1));
    assert_eq!(entry.accepted, Some(false));
    assert_eq!(stats.len(), 2);
    assert!(stats.get("x.com", ip("10.0.0.2")).is_none());
    // Ten seconds later the entry is too old; a little earlier it is not.
    stats.record("z.com", a, None, None, 115 * SECOND - 1, ttl);
    assert_eq!(stats.len(), 3);
    stats.record("z.com", a, None, None, 115 * SECOND, ttl);
    assert_eq!(stats.len(), 2);
    assert!(stats.get("x.com", a).is_none());
    stats.record("x.com", a, None, None, 115 * SECOND, ttl);
    assert_eq!(stats.get("x.com", a).unwrap().count, 1);
    // A clock that goes back makes nothing old.
    stats.record("w.com", a, None, None, 50 * SECOND, ttl);
    assert_eq!(stats.len(), 4);
    // Without a time to live nothing stays but what was just recorded.
    stats.record("v.com", a, None, None, 200 * SECOND, 0);
    assert_eq!(stats.len(), 1);
    let domains = vec!["v.com".to_string(), "v.com".to_string(), "u.com".to_string()];
    assert!(stats.has_room_for(&domains, a, 200 * SECOND, ttl));
    assert!(stats.has_room_for(&vec![], a, 200 * SECOND, ttl));
}

#[test]
fn a_report_without_activity_names_the_networks() {
    let stats = Stats::new();
    assert_eq!(stats.get_stats_report(&NetworkRegistry::new(), 0), "");
    assert_eq!(
        stats.get_stats_report(&registry(), 0),
        "Network: one (10.0.0.0/8)\n  No activity\n\nNetwork: two (10.1.0.0/16)\n  No activity\n\n"
    );
}

#[test]
fn a_report_groups_by_network_and_address() {
    let mut stats = Stats::new();
    let ttl = u128::MAX;
    let now = 10_000 * SECOND;
    stats.record("x.com", ip("10.0.0.1"), Some(1), Some(true), now - 5 * SECOND, ttl);
    stats.record("y.com", ip("10.0.0.1"), Some(1), Some(false), now - 120 * SECOND, ttl);
    stats.record("x.com", ip("10.1.0.10"), Some(2), Some(true), now, ttl);
    stats.record("x.com", ip("10.1.0.9"), Some(2), Some(true), now, ttl);
    stats.record("x.com", ip("10.1.0.9"), Some(2), None, now + SECOND, ttl);
    stats.record("q.com", ip("::1"), None, None, now, ttl);
    stats.record("q.com", ip("8.8.8.8"), None, None, now - 7200 * SECOND, ttl);
    let report = stats.get_stats_report(&registry(), now);
    let alone = |ip: &str, domain: &str, status: &str, age: &str| {
        format!("  {ip:<15} {domain:<30} {status:<10} {age}\n")
    };
    let grouped =
        |domain: &str, status: &str, age: &str| format!("    {domain:<30} {status:<10} {age}\n");
    let expected = [
        "Network: one (10.0.0.0/8)\n".to_string(),
        alone("10.0.0.1", "x.com", "1\u{2705} ", "5s ago"),
        alone("10.0.0.1", "y.com", "1\u{274c} ", "2m ago"),
        "\nNetwork: two (10.1.0.0/16)\n".to_string(),
        "  IP: 10.1.0.9\n".to_string(),
        grouped("x.com", "", "0s ago"),
        "  IP: 10.1.0.10\n".to_string(),
        grouped("x.com", "1\u{2705} ", "0s ago"),
        "\nUnknown Networks:\n".to_string(),
        "  IP: 8.8.8.8\n".to_string(),
        grouped("q.com", "1 resolves", "2h ago"),
        "  IP: ::1\n".to_string(),
        grouped("q.com", "1 resolves", "0s ago"),
    ]
    .concat();
    assert_eq!(report, expected);
}

#[test]
fn report_lines_look_as_formatted() {
    let mut stats = Stats::new();
    let origin = "10.0.0.1";
    for _ in 0..12 {
        stats.record("x.com", ip(origin), Some(1), Some(true), 0, u128::MAX);
    }
    let report = stats.get_stats_report(&registry(), 61 * SECOND);
    let line = format!("  {:<15} {:<30} {:<10} {}\n", origin, "x.com", "12\u{2705} ", "1m ago");
    assert!(report.contains(&line));
}
