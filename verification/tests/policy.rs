use std::collections::{BTreeMap, BTreeSet};

use dockerwall::addr::{ip_in_subnet, parse_ip, IpAddr};
use dockerwall::daemon::Daemon;
use dockerwall::ipset::restore_payload;
use dockerwall::network::NetworkPlan;
use dockerwall::proxy::Resolution;
use dockerwall::rules::{docker_rules_of, podman_rules_of};
use dockerwall::tasks::{Outcome, Task, Worker};

type Sets = BTreeMap<String, BTreeSet<String>>;

fn ip(s: &str) -> IpAddr {
    let letters: Vec<char> = s.chars().collect();
    parse_ip(&letters).unwrap()
}

/// A packet: source, destination, whether its connection was accepted before, protocol, ports.
struct Packet<'a>(&'a str, &'a str, bool, &'a str, u16, u16);

/// What a rule does with a packet.
fn action(rule: &[String], packet: &Packet, sets: &Sets) -> Option<String> {
    let Packet(source, destination, established, protocol, sport, dport) = packet;
    let mut i = 0;
    while i + 1 < rule.len() {
        let value = rule[i + 1].as_str();
        let met = match rule[i].as_str() {
            "-j" => return Some(rule[i + 1..].join(" ")),
            "-m" | "--comment" => true,
            "-s" => ip_in_subnet(ip(source), value),
            "-d" => ip_in_subnet(ip(destination), value),
            "-p" => *protocol == value,
            "--sport" => sport.to_string() == value,
            "--dport" => dport.to_string() == value,
            "--ctstate" => *established,
            "--match-set" => {
                i += 1;
                sets.get(value).is_some_and(|set| set.contains(*destination))
            }
            other => panic!("{other}"),
        };
        if !met {
            return None;
        }
        i += 2;
    }
    None
}

/// What the rules of a chain do with a packet. The rule begins at `skip`.
fn fate(rules: &[Vec<String>], chain: &str, skip: usize, packet: &Packet, sets: &Sets) -> String {
    rules
        .iter()
        .filter(|rule| rule[skip - if skip == 4 { 1 } else { 2 }] == chain)
        .find_map(|rule| action(&rule[skip..], packet, sets))
        .unwrap_or("nothing".to_string())
}

fn sets() -> Sets {
    Sets::from([("net".to_string(), BTreeSet::from(["93.184.216.34".to_string()]))])
}

#[test]
fn docker_networks_reach_their_set_alone() {
    let plan = NetworkPlan {
        name: "net".to_string(),
        subnet: "172.30.4.0/28".to_string(),
        gateway: "172.30.4.3".to_string(),
        dns_port: 5353,
    };
    let rules = docker_rules_of(&plan);
    let (filter, questions) = rules.split_at(3);
    let at = |packet: Packet| fate(filter, "DOCKER-USER", 3, &packet, &sets());
    assert_eq!(at(Packet("172.30.4.2", "93.184.216.34", false, "tcp", 4000, 443)), "ACCEPT");
    assert_eq!(at(Packet("172.30.4.2", "93.184.216.35", false, "tcp", 4000, 443)), "DROP");
    assert_eq!(at(Packet("172.30.4.2", "172.30.9.9", false, "tcp", 4000, 443)), "DROP");
    assert_eq!(at(Packet("172.30.4.2", "172.16.0.1", false, "tcp", 4000, 443)), "DROP");
    assert_eq!(at(Packet("172.30.4.2", "172.30.9.9", true, "tcp", 4000, 443)), "ACCEPT");
    assert_eq!(at(Packet("172.30.4.2", "93.184.216.35", true, "tcp", 4000, 443)), "ACCEPT");
    assert_eq!(at(Packet("172.30.4.16", "93.184.216.35", false, "tcp", 4000, 443)), "nothing");
    let asked = |packet: Packet| fate(questions, "PREROUTING", 4, &packet, &sets());
    let daemon = "DNAT --to-destination 172.30.4.3:5353";
    assert_eq!(asked(Packet("172.30.4.2", "8.8.8.8", false, "udp", 4000, 53)), daemon);
    assert_eq!(asked(Packet("172.30.4.2", "8.8.8.8", false, "tcp", 4000, 53)), daemon);
    assert_eq!(asked(Packet("172.30.4.2", "8.8.8.8", false, "udp", 4000, 54)), "nothing");
    assert_eq!(asked(Packet("172.30.5.2", "8.8.8.8", false, "udp", 4000, 53)), "nothing");
}

#[test]
fn podman_networks_reach_their_set_and_the_daemon() {
    let rules = podman_rules_of("net", "198.18.0.9/32", "eth0", 5353);
    let at = |packet: Packet| fate(&rules[..8], "DOCKERWALL-OUTPUT", 3, &packet, &sets());
    assert_eq!(at(Packet("198.18.0.9", "93.184.216.34", false, "tcp", 4000, 443)), "ACCEPT");
    assert_eq!(at(Packet("198.18.0.9", "93.184.216.35", false, "tcp", 4000, 443)), "DROP");
    assert_eq!(at(Packet("198.18.0.9", "93.184.216.35", true, "tcp", 4000, 443)), "ACCEPT");
    assert_eq!(at(Packet("198.18.0.9", "127.0.0.1", false, "udp", 4000, 5353)), "ACCEPT");
    assert_eq!(at(Packet("198.18.0.9", "127.0.0.1", false, "udp", 4000, 22)), "DROP");
    assert_eq!(at(Packet("198.18.0.9", "198.18.0.9", false, "tcp", 5353, 4000)), "ACCEPT");
    assert_eq!(at(Packet("198.18.0.8", "8.8.8.8", false, "tcp", 4000, 443)), "nothing");
    let out = |packet: Packet| fate(&rules[..8], "OUTPUT", 3, &packet, &sets());
    assert_eq!(out(Packet("198.18.0.9", "8.8.8.8", false, "tcp", 1, 2)), "DOCKERWALL-OUTPUT");
    assert_eq!(out(Packet("198.18.0.8", "8.8.8.8", false, "tcp", 1, 2)), "nothing");
    for (chain, redirects) in [("OUTPUT", &rules[8..10]), ("PREROUTING", &rules[10..12])] {
        assert!(redirects.iter().all(|rule| rule[1] == "nat" && rule[3] == chain));
        let asked = |packet: Packet| {
            redirects
                .iter()
                .find_map(|rule| action(&rule[5..], &packet, &sets()))
                .unwrap_or("nothing".to_string())
        };
        let daemon = "REDIRECT --to-ports 5353";
        assert_eq!(asked(Packet("198.18.0.9", "198.18.0.1", false, "udp", 4000, 53)), daemon);
        assert_eq!(asked(Packet("198.18.0.9", "198.18.0.1", false, "tcp", 4000, 53)), daemon);
        assert_eq!(asked(Packet("198.18.0.9", "8.8.8.8", false, "udp", 4000, 53)), "nothing");
        assert_eq!(asked(Packet("198.18.0.8", "198.18.0.1", false, "udp", 4000, 53)), "nothing");
    }
}

/// Reads what is handed to ipset.
fn restore(sets: &mut Sets, payload: &str) {
    for line in payload.lines() {
        let words: Vec<&str> = line.split(' ').collect();
        match words[..] {
            ["flush", name] => sets.get_mut(name).unwrap().clear(),
            ["add", name, ip, "-exist"] => {
                sets.get_mut(name).unwrap().insert(ip.to_string());
            }
            _ => panic!("{line}"),
        }
    }
}

#[test]
fn the_kernel_follows_the_daemon() {
    let mut daemon = Daemon::new();
    let mut kernel = Sets::from([
        ("a".to_string(), BTreeSet::new()),
        ("b".to_string(), BTreeSet::new()),
    ]);
    daemon.handle_control_line("CREATE\ta\t10.0.0.0/8\t*.x.com\n", 53, 0).unwrap();
    daemon.handle_control_line("CREATE\tb\t\ty.com\n", 53, 0).unwrap();
    for (domain, ips) in [
        ("w.x.com", vec!["1.2.3.4", "::1"]),
        ("y.com", vec!["1.2.3.4"]),
        ("z.com", vec!["9.9.9.9"]),
        ("x.com", vec!["1.2.3.5", "1.2.3.4"]),
    ] {
        let resolution = Resolution {
            domains: vec![domain.to_string()],
            ips: ips.into_iter().map(ip).collect(),
        };
        for (name, ips) in daemon.observe(&resolution, ip("10.0.0.1"), 0, u128::MAX) {
            restore(&mut kernel, &restore_payload(&name, &ips));
        }
        for name in ["a", "b"] {
            let held: BTreeSet<String> = daemon
                .state
                .get(name)
                .unwrap()
                .ips
                .iter()
                .filter(|ip| matches!(ip, IpAddr::V4(_)))
                .map(|ip| ip.to_text())
                .collect();
            assert_eq!(kernel[name], held);
        }
    }
    assert_eq!(kernel["a"].len(), 2);
    assert_eq!(kernel["b"].len(), 1);
}

/// A stand-in for ipset. It refuses to make a set under its name where `refuse` says so.
fn ipset(sets: &mut Sets, args: &[String], refuse: bool) -> bool {
    let words: Vec<&str> = args.iter().map(String::as_str).collect();
    match words[..] {
        ["create", _, .., "-exist"] if refuse => false,
        ["create", name, ..] => {
            if sets.contains_key(name) {
                return words[words.len() - 1] == "-exist";
            }
            sets.insert(name.to_string(), BTreeSet::new());
            true
        }
        ["destroy", name] => sets.remove(name).is_some(),
        ["swap", a, b] => match (sets.get(a).cloned(), sets.get(b).cloned()) {
            (Some(x), Some(y)) => {
                sets.insert(a.to_string(), y);
                sets.insert(b.to_string(), x);
                true
            }
            _ => false,
        },
        ["rename", a, b] if !sets.contains_key(b) => match sets.remove(a) {
            Some(set) => sets.insert(b.to_string(), set).is_none(),
            None => false,
        },
        _ => false,
    }
}

#[test]
fn an_empty_set_takes_the_name() {
    let full = BTreeSet::from(["1.2.3.4".to_string()]);
    for (before, refuse) in [
        (vec![], false),
        (vec![], true),
        (vec!["n"], true),
        (vec!["n-tmp"], true),
        (vec!["n", "n-tmp"], true),
    ] {
        let mut sets = Sets::from([("other".to_string(), full.clone())]);
        for name in before {
            sets.insert(name.to_string(), full.clone());
        }
        let task = Task::CreateIpset { ipset: "ips".to_string(), name: "n".to_string() };
        let mut worker = Worker::new(vec![task]);
        while !worker.is_done() {
            let command = worker.command();
            let success = ipset(&mut sets, &command.args, refuse);
            let outcome =
                Outcome::Exited { success, stdout: String::new(), stderr: String::new() };
            worker.advance(outcome).unwrap();
        }
        let expected = Sets::from([
            ("n".to_string(), BTreeSet::new()),
            ("other".to_string(), full.clone()),
        ]);
        assert_eq!(sets, expected);
    }
}

#[test]
fn packets_follow_what_the_responses_gave() {
    let plan = NetworkPlan {
        name: "a".to_string(),
        subnet: "172.30.4.0/28".to_string(),
        gateway: "172.30.4.3".to_string(),
        dns_port: 5353,
    };
    let docker = docker_rules_of(&plan);
    let podman = podman_rules_of("b", "198.18.0.9/32", "eth0", 5353);
    let mut daemon = Daemon::new();
    let mut kernel = Sets::from([
        ("a".to_string(), BTreeSet::new()),
        ("b".to_string(), BTreeSet::new()),
    ]);
    daemon.handle_control_line("CREATE\ta\t172.30.4.0/28\t*.x.com\n", 53, 0).unwrap();
    daemon.handle_control_line("CREATE\tb\t198.18.0.9/32\ty.com\n", 53, 0).unwrap();
    let checked = |kernel: &Sets, host: &str, by_docker: &str, by_podman: &str| {
        let from = |source| Packet(source, host, false, "tcp", 4000, 443);
        assert_eq!(fate(&docker[..3], "DOCKER-USER", 3, &from("172.30.4.2"), kernel), by_docker);
        let packet = from("198.18.0.9");
        assert_eq!(fate(&podman[..8], "DOCKERWALL-OUTPUT", 3, &packet, kernel), by_podman);
    };
    checked(&kernel, "1.1.1.1", "DROP", "DROP");
    for (domain, given) in [
        ("w.x.com", "1.1.1.1"),
        ("y.com", "2.2.2.2"),
        ("x.com", "172.20.0.1"),
        ("z.com", "3.3.3.3"),
    ] {
        let resolution = Resolution { domains: vec![domain.to_string()], ips: vec![ip(given)] };
        for (name, ips) in daemon.observe(&resolution, ip("172.30.4.2"), 0, u128::MAX) {
            restore(&mut kernel, &restore_payload(&name, &ips));
        }
    }
    checked(&kernel, "1.1.1.1", "ACCEPT", "DROP");
    checked(&kernel, "2.2.2.2", "DROP", "ACCEPT");
    checked(&kernel, "172.20.0.1", "ACCEPT", "DROP");
    checked(&kernel, "172.20.0.2", "DROP", "DROP");
    checked(&kernel, "3.3.3.3", "DROP", "DROP");
}
