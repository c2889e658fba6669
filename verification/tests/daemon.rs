use dockerwall::addr::{IpAddr, Ipv4Addr};
use dockerwall::control::ControlError;
use dockerwall::daemon::Daemon;
use dockerwall::proxy::Resolution;

const SECOND: u64 = 1_000_000_000;
const TTL: u128 = 3600 * SECOND as u128;

fn v4(a: u8, b: u8, c: u8, d: u8) -> IpAddr {
    IpAddr::V4(Ipv4Addr::new(a, b, c, d))
}

fn told(daemon: &mut Daemon, line: &str) -> String {
    daemon.handle_control_line(line, 5353, 100 * SECOND).unwrap()
}

/// A response to a question for `api.example.com` with one address.
fn response(last: u8) -> Vec<u8> {
    let mut bytes = vec![0, 1, 0x81, 0x80, 0, 1, 0, 1, 0, 0, 0, 0];
    bytes.extend(b"\x03api\x07example\x03com\x00\x00\x01\x00\x01");
    bytes.extend([0xc0, 12, 0, 1, 0, 1, 0, 0, 0, 60, 0, 4, 93, 184, 216, last]);
    bytes
}

#[test]
fn requests_are_answered() {
    let mut daemon = Daemon::new();
    assert_eq!(told(&mut daemon, "STATS\n"), "");
    assert_eq!(told(&mut daemon, "INFO\n"), "OK\t5353\n");
    assert_eq!(told(&mut daemon, "CREATE\tnet\t10.0.0.0/8\ta.com\n"), "OK\tcreated\n");
    assert_eq!(told(&mut daemon, "STATS\n"), "Network: net (10.0.0.0/8)\n  No activity\n\n");
    assert_eq!(told(&mut daemon, "REMOVE\tnet\n"), "OK\tremoved\n");
    assert_eq!(told(&mut daemon, "REMOVE\t\n"), "ERR\tmissing ipset name\n");
    assert_eq!(told(&mut daemon, "CREATE\t\t\t\n"), "ERR\tmissing ipset name\n");
    assert_eq!(told(&mut daemon, "RECORD\n"), "ERR\tunknown command\n");
    assert_eq!(
        daemon.handle_control_line("CREATE\tnet\n", 53, 0).unwrap_err(),
        ControlError::MissingSubnet
    );
    assert_eq!(
        daemon.handle_control_line("CREATE\tnet\tx\n", 53, 0).unwrap_err(),
        ControlError::MissingDomains
    );
}

#[test]
fn a_set_without_subnet_is_no_network() {
    let mut daemon = Daemon::new();
    told(&mut daemon, "CREATE\tnet\t\ta.com\n");
    assert_eq!(told(&mut daemon, "STATS\n"), "");
    assert!(daemon.state.get("net").is_some());
}

#[test]
fn responses_fill_the_sets_that_allow_them() {
    let mut daemon = Daemon::new();
    told(&mut daemon, "CREATE\tnet\t10.0.0.0/8\t*.example.com\n");
    told(&mut daemon, "CREATE\tother\t\texample.org\n");
    let origin = v4(10, 0, 0, 5);
    let changed = daemon.inspect_and_update_state(&response(34), origin, 100 * SECOND, TTL).unwrap();
    assert_eq!(changed, [("net".to_string(), vec![v4(93, 184, 216, 34)])]);
    assert!(daemon.state.get("other").unwrap().ips.is_empty());
    let again = daemon.inspect_and_update_state(&response(34), origin, 100 * SECOND, TTL).unwrap();
    assert!(again.is_empty());
    let more = daemon.inspect_and_update_state(&response(35), origin, 100 * SECOND, TTL).unwrap();
    assert_eq!(more, [("net".to_string(), vec![v4(93, 184, 216, 34), v4(93, 184, 216, 35)])]);
    let entry = daemon.stats.get("api.example.com", origin).unwrap();
    assert_eq!((entry.count, entry.network_id, entry.accepted), (3, Some(1), Some(true)));
}

#[test]
fn bytes_that_are_no_response_change_nothing() {
    let mut daemon = Daemon::new();
    told(&mut daemon, "CREATE\tnet\t10.0.0.0/8\t*.example.com\n");
    let bytes = response(34);
    let changed = daemon.inspect_and_update_state(&bytes[..30], v4(10, 0, 0, 5), 0, TTL).unwrap();
    assert!(changed.is_empty());
    assert_eq!(daemon.stats.len(), 0);
    assert!(daemon.state.get("net").unwrap().ips.is_empty());
}

#[test]
fn verdicts_come_from_the_network_of_the_origin() {
    let mut daemon = Daemon::new();
    told(&mut daemon, "CREATE\tnet\t10.0.0.0/8\ta.com\n");
    let at = |daemon: &Daemon, domain: &str, ip: IpAddr| {
        let entry = daemon.stats.get(domain, ip).unwrap();
        (entry.network_id, entry.accepted)
    };
    daemon.record_resolve("a.com", v4(10, 0, 0, 1), SECOND, TTL);
    daemon.record_resolve("b.com", v4(10, 0, 0, 1), SECOND, TTL);
    daemon.record_resolve("a.com", v4(192, 168, 0, 1), SECOND, TTL);
    assert_eq!(at(&daemon, "a.com", v4(10, 0, 0, 1)), (Some(1), Some(true)));
    assert_eq!(at(&daemon, "b.com", v4(10, 0, 0, 1)), (Some(1), Some(false)));
    assert_eq!(at(&daemon, "a.com", v4(192, 168, 0, 1)), (None, None));
    told(&mut daemon, "REMOVE\tnet\n");
    daemon.record_resolve("a.com", v4(10, 0, 0, 1), SECOND, TTL);
    assert_eq!(at(&daemon, "a.com", v4(10, 0, 0, 1)), (Some(1), Some(false)));
}

#[test]
fn several_domains_are_recorded_and_matched_together() {
    let mut daemon = Daemon::new();
    told(&mut daemon, "CREATE\tnet\t10.0.0.0/8\tb.com\n");
    let resolution = Resolution {
        domains: vec!["a.com".to_string(), "b.com".to_string()],
        ips: vec![v4(1, 2, 3, 4), v4(5, 6, 7, 8)],
    };
    let changed = daemon.observe(&resolution, v4(10, 0, 0, 1), SECOND, TTL);
    assert_eq!(changed, [("net".to_string(), vec![v4(1, 2, 3, 4), v4(5, 6, 7, 8)])]);
    assert_eq!(daemon.stats.len(), 2);
    told(&mut daemon, "REMOVE\tnet\n");
    assert!(daemon.observe(&resolution, v4(10, 0, 0, 1), SECOND, TTL).is_empty());
    assert_eq!(daemon.stats.get("b.com", v4(10, 0, 0, 1)).unwrap().count, 2);
}

#[test]
fn names_from_a_line_are_lines() {
    let mut daemon = Daemon::new();
    told(&mut daemon, "CREATE\t net\r\t10.0.0.0/8\tb.com\r\n");
    let resolution = Resolution {
        domains: vec!["b.com".to_string()],
        ips: vec![v4(1, 2, 3, 4)],
    };
    let changed = daemon.observe(&resolution, v4(10, 0, 0, 1), SECOND, TTL);
    assert_eq!(changed, [("net".to_string(), vec![v4(1, 2, 3, 4)])]);
}
