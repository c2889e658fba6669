use dockerwall::addr::{IpAddr, Ipv4Addr, Ipv6Addr};
use dockerwall::state::{domain_matches_pattern, normalize_domain, State};

fn strings(items: &[&str]) -> Vec<String> {
    items.iter().map(|item| item.to_string()).collect()
}

fn v4(d: u8) -> IpAddr {
    IpAddr::V4(Ipv4Addr::new(10, 0, 0, d))
}

#[test]
fn domains_are_normalized() {
    assert_eq!(normalize_domain("Example.COM.."), "example.com");
    assert_eq!(normalize_domain("..a."), "..a");
    assert_eq!(normalize_domain("..."), "");
    assert_eq!(normalize_domain("\u{c9}X"), "\u{c9}x");
    assert_eq!(normalize_domain(&normalize_domain("A.b.")), normalize_domain("A.b."));
}

#[test]
fn patterns_name_domains() {
    assert!(domain_matches_pattern("example.com", "example.com"));
    assert!(domain_matches_pattern("EXAMPLE.com.", "Example.COM"));
    assert!(!domain_matches_pattern("www.example.com", "example.com"));
    assert!(domain_matches_pattern("example.com", "*.example.com"));
    assert!(domain_matches_pattern("www.example.com", "*.example.com"));
    assert!(domain_matches_pattern("a.b.Example.com.", "*.EXAMPLE.com."));
    assert!(!domain_matches_pattern("badexample.com", "*.example.com"));
    assert!(!domain_matches_pattern("example.com.evil.org", "*.example.com"));
    assert!(!domain_matches_pattern("a.com", "*"));
    assert!(domain_matches_pattern("*", "*."));
    assert!(!domain_matches_pattern("a.", "*."));
    assert!(!domain_matches_pattern("a.b.com", "a.*.com"));
}

#[test]
fn sets_are_created_found_and_removed() {
    let mut state = State::new();
    assert!(state.get("a").is_none());
    state.create("a".to_string(), strings(&["x.com"]));
    state.create("b".to_string(), strings(&["*.y.com"]));
    assert_eq!(state.get("a").unwrap().allowed_domain_patterns, ["x.com"]);
    state.apply_resolved_ips(&strings(&["x.com"]), &vec![v4(1)]);
    assert_eq!(state.get("a").unwrap().ips, [v4(1)]);
    state.create("a".to_string(), strings(&["z.com"]));
    assert_eq!(state.get("a").unwrap().allowed_domain_patterns, ["z.com"]);
    assert!(state.get("a").unwrap().ips.is_empty());
    state.remove("a");
    state.remove("a");
    assert!(state.get("a").is_none());
    assert!(state.get("b").is_some());
}

#[test]
fn networks_accept_what_they_allow() {
    let mut state = State::new();
    state.create("a".to_string(), strings(&["x.com", "*.y.com"]));
    assert!(state.is_domain_accepted_by_network("X.com.", "a"));
    assert!(state.is_domain_accepted_by_network("w.y.com", "a"));
    assert!(!state.is_domain_accepted_by_network("z.com", "a"));
    assert!(!state.is_domain_accepted_by_network("x.com", "b"));
}

#[test]
fn sets_grow_by_allowed_domains_alone() {
    let mut state = State::new();
    state.create("a".to_string(), strings(&["*.x.com"]));
    state.create("b".to_string(), strings(&["y.com"]));
    let v6 = IpAddr::V6(Ipv6Addr { bits: 1 });
    assert!(state.apply_resolved_ips(&strings(&["z.com"]), &vec![v4(1)]).is_empty());
    assert!(state.apply_resolved_ips(&strings(&["x.com"]), &vec![]).is_empty());
    assert!(state.apply_resolved_ips(&strings(&[]), &vec![v4(1)]).is_empty());
    let changed = state.apply_resolved_ips(&strings(&["www.x.com"]), &vec![v4(1), v6, v4(1)]);
    assert_eq!(changed, [("a".to_string(), vec![v4(1), v6])]);
    assert!(state.apply_resolved_ips(&strings(&["x.com"]), &vec![v6, v4(1)]).is_empty());
    let changed = state.apply_resolved_ips(&strings(&["z.com", "y.com", "x.com"]), &vec![v4(2)]);
    assert_eq!(
        changed,
        [("a".to_string(), vec![v4(1), v6, v4(2)]), ("b".to_string(), vec![v4(2)])]
    );
    assert_eq!(state.get("b").unwrap().ips, [v4(2)]);
}
