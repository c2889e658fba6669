use dockerwall::network::NetworkPlan;
use dockerwall::rules::{delete_args, docker_rules_of, podman_rules_of};
use dockerwall::tasks::{podman_tasks_of, Outcome, Worker};

fn strings(args: &[&str]) -> Vec<String> {
    args.iter().map(|arg| arg.to_string()).collect()
}

fn lines(rules: Vec<Vec<String>>) -> Vec<String> {
    rules.iter().map(|rule| rule.join(" ")).collect()
}

#[test]
fn delete_args_remove_insert_positions() {
    let args = strings(&["-t", "nat", "-I", "POSTROUTING", "1", "-p", "udp"]);
    assert_eq!(
        delete_args(&args),
        strings(&["-t", "nat", "-D", "POSTROUTING", "-p", "udp"])
    );
}

#[test]
fn delete_args_take_other_forms() {
    assert_eq!(delete_args(&strings(&[])), strings(&[]));
    assert_eq!(delete_args(&strings(&["-L", "INPUT"])), strings(&["-L", "INPUT"]));
    assert_eq!(delete_args(&strings(&["-I", "INPUT"])), strings(&["-D", "INPUT"]));
    assert_eq!(delete_args(&strings(&["-I"])), strings(&["-D"]));
    assert_eq!(
        delete_args(&strings(&["-A", "INPUT", "-j", "DROP"])),
        strings(&["-D", "INPUT", "-j", "DROP"])
    );
    assert_eq!(
        delete_args(&strings(&["-I", "INPUT", "4294967295", "2"])),
        strings(&["-D", "INPUT", "2"])
    );
    assert_eq!(
        delete_args(&strings(&["-I", "INPUT", "4294967296"])),
        strings(&["-D", "INPUT", "4294967296"])
    );
    assert_eq!(
        delete_args(&strings(&["-I", "INPUT", "-1", "-A"])),
        strings(&["-D", "INPUT", "-1", "-A"])
    );
}

#[test]
fn docker_networks_have_five_rules() {
    let plan = NetworkPlan {
        name: "net".to_string(),
        subnet: "172.30.4.0/28".to_string(),
        gateway: "172.30.4.3".to_string(),
        dns_port: 5353,
    };
    assert_eq!(
        lines(docker_rules_of(&plan)),
        [
            "-I DOCKER-USER 1 -m comment --comment dockerwall:established -m conntrack --ctstate ESTABLISHED,RELATED -j ACCEPT",
            "-I DOCKER-USER 2 -m comment --comment dockerwall:net:allow -s 172.30.4.0/28 -m set --match-set net dst -j ACCEPT",
            "-I DOCKER-USER 3 -m comment --comment dockerwall:net:drop -s 172.30.4.0/28 -j DROP",
            "-t nat -I PREROUTING -m comment --comment dockerwall:net:dns-udp -s 172.30.4.0/28 -p udp --dport 53 -j DNAT --to-destination 172.30.4.3:5353",
            "-t nat -I PREROUTING -m comment --comment dockerwall:net:dns-tcp -s 172.30.4.0/28 -p tcp --dport 53 -j DNAT --to-destination 172.30.4.3:5353",
        ]
    );
}

#[test]
fn podman_networks_with_the_port_for_dns_have_nine_rules() {
    assert_eq!(
        lines(podman_rules_of("net", "198.18.0.9/32", "eth0", 53)),
        [
            "-I OUTPUT 1 -s 198.18.0.9/32 -m comment --comment dockerwall:net:output-hook -j DOCKERWALL-OUTPUT",
            "-I DOCKERWALL-OUTPUT 1 -s 198.18.0.9/32 -m comment --comment dockerwall:net:established -m conntrack --ctstate ESTABLISHED,RELATED -j ACCEPT",
            "-I DOCKERWALL-OUTPUT 2 -s 198.18.0.9/32 -d 198.18.0.1/32 -p udp --dport 53 -m comment --comment dockerwall:net:dns-udp -j ACCEPT",
            "-I DOCKERWALL-OUTPUT 3 -s 198.18.0.9/32 -d 198.18.0.1/32 -p tcp --dport 53 -m comment --comment dockerwall:net:dns-tcp -j ACCEPT",
            "-I DOCKERWALL-OUTPUT 4 -s 198.18.0.9/32 -d 198.18.0.9/32 -p udp --sport 53 -m comment --comment dockerwall:net:dns-response-udp -j ACCEPT",
            "-I DOCKERWALL-OUTPUT 5 -s 198.18.0.9/32 -d 198.18.0.9/32 -p tcp --sport 53 -m comment --comment dockerwall:net:dns-response-tcp -j ACCEPT",
            "-I DOCKERWALL-OUTPUT 6 -s 198.18.0.9/32 -m comment --comment dockerwall:net:allow -m set --match-set net dst -j ACCEPT",
            "-I DOCKERWALL-OUTPUT 7 -s 198.18.0.9/32 -m comment --comment dockerwall:net:drop -j DROP",
            "-t nat -I POSTROUTING 1 -s 198.18.0.9/32 -o eth0 -m comment --comment dockerwall:net:masquerade -j MASQUERADE",
        ]
    );
}

#[test]
fn podman_networks_with_another_port_have_redirects() {
    let rules = lines(podman_rules_of("net", "198.18.0.9/32", "eth0", 5353));
    assert_eq!(rules.len(), 15);
    assert_eq!(
        rules[2],
        "-I DOCKERWALL-OUTPUT 2 -s 198.18.0.9/32 -d 127.0.0.1/32 -p udp --dport 5353 -m comment --comment dockerwall:net:dns-udp -j ACCEPT"
    );
    assert_eq!(
        rules[8..14],
        [
            "-t nat -I OUTPUT 1 -s 198.18.0.9/32 -d 198.18.0.1/32 -p udp --dport 53 -m comment --comment dockerwall:net:dns-OUTPUT-udp -j REDIRECT --to-ports 5353",
            "-t nat -I OUTPUT 1 -s 198.18.0.9/32 -d 198.18.0.1/32 -p tcp --dport 53 -m comment --comment dockerwall:net:dns-OUTPUT-tcp -j REDIRECT --to-ports 5353",
            "-t nat -I PREROUTING 1 -s 198.18.0.9/32 -d 198.18.0.1/32 -p udp --dport 53 -m comment --comment dockerwall:net:dns-PREROUTING-udp -j REDIRECT --to-ports 5353",
            "-t nat -I PREROUTING 1 -s 198.18.0.9/32 -d 198.18.0.1/32 -p tcp --dport 53 -m comment --comment dockerwall:net:dns-PREROUTING-tcp -j REDIRECT --to-ports 5353",
            "-t nat -I POSTROUTING 1 -s 198.18.0.9/32 -d 198.18.0.9/32 -p udp --sport 5353 -m comment --comment dockerwall:net:dns-response-snat-udp -j SNAT --to-source 127.0.0.1",
            "-t nat -I POSTROUTING 1 -s 198.18.0.9/32 -d 198.18.0.9/32 -p tcp --sport 5353 -m comment --comment dockerwall:net:dns-response-snat-tcp -j SNAT --to-source 127.0.0.1",
        ]
    );
    assert!(rules[14].ends_with("dockerwall:net:masquerade -j MASQUERADE"));
}

/// A table of chains, and a stand-in for iptables that keeps rules in them.
fn run(chains: &mut Vec<(String, Vec<String>)>, args: &[String]) -> bool {
    let (table, args) = if args[0] == "-t" {
        (args[1].as_str(), &args[2..])
    } else {
        ("filter", args)
    };
    let id = format!("{table}/{}", args[1]);
    if args[0] == "-N" && chains.iter().all(|(name, _)| *name != id) {
        chains.push((id, vec![]));
        return true;
    }
    let Some((_, rules)) = chains.iter_mut().find(|(name, _)| *name == id) else {
        return false;
    };
    if args[0] == "-N" || args[0] == "-S" {
        return args[0] == "-S";
    }
    if args[0] == "-D" {
        let rule = args[2..].join(" ");
        let Some(i) = rules.iter().position(|other| *other == rule) else {
            return false;
        };
        rules.remove(i);
    } else {
        let (position, rule) = match args[2].parse::<usize>() {
            Ok(position) => (position, args[3..].join(" ")),
            Err(_) => (1, args[2..].join(" ")),
        };
        if position > rules.len() + 1 {
            return false;
        }
        rules.insert(position - 1, rule);
    }
    true
}

#[test]
fn rules_come_to_stand_at_the_head_of_their_chain() {
    let plan = NetworkPlan::new("net", 5353, 0);
    let rules = docker_rules_of(&plan);
    let drop = rules[2][3..].join(" ");
    let mut chains = vec![
        ("filter/DOCKER-USER".to_string(), vec![drop.clone(), "-j RETURN".to_string(), drop.clone()]),
        ("nat/PREROUTING".to_string(), vec![]),
    ];
    for _ in 0..2 {
        for rule in &rules {
            while run(&mut chains, &delete_args(rule)) {}
            assert!(run(&mut chains, rule));
        }
    }
    let mut expected: Vec<String> = rules[..3].iter().map(|rule| rule[3..].join(" ")).collect();
    expected.push("-j RETURN".to_string());
    assert_eq!(chains[0].1, expected);
    assert_eq!(chains[1].1, [rules[4][4..].join(" "), rules[3][4..].join(" ")]);
}

#[test]
fn a_second_preparation_leaves_podman_rules_as_they_stand() {
    for dns_port in [53, 5353] {
        let rules = podman_rules_of("net", "198.18.0.9/32", "eth0", dns_port);
        let body = |i: usize| {
            let rule = &rules[i];
            rule[if rule[0] == "-t" { 5 } else { 3 }..].join(" ")
        };
        let (hook, last) = (body(0), body(rules.len() - 1));
        let mut chains = vec![
            ("filter/OUTPUT".to_string(), vec!["-j RETURN".to_string(), hook.clone()]),
            ("nat/OUTPUT".to_string(), vec!["-j RETURN".to_string()]),
            ("nat/PREROUTING".to_string(), vec![]),
            ("nat/POSTROUTING".to_string(), vec![last.clone(), last.clone()]),
        ];
        let mut first = vec![];
        for _ in 0..2 {
            let tasks =
                podman_tasks_of("ip", "ipset", "iptables", "net", "198.18.0.9/32", "eth0", dns_port);
            let mut worker = Worker::new(tasks);
            while !worker.is_done() {
                let command = worker.command();
                let success = command.path != "iptables" || run(&mut chains, &command.args);
                let (stdout, stderr) = (String::new(), String::new());
                worker.advance(Outcome::Exited { success, stdout, stderr }).unwrap();
            }
            if first.is_empty() {
                first = chains.clone();
            }
        }
        assert_eq!(chains, first);
        assert_eq!(chains[0].1, [hook, "-j RETURN".to_string()]);
        let filter: Vec<String> = (1..8).map(body).collect();
        assert_eq!(chains[4], ("filter/DOCKERWALL-OUTPUT".to_string(), filter));
        if dns_port == 53 {
            assert_eq!(chains[1].1, ["-j RETURN"]);
            assert!(chains[2].1.is_empty());
            assert_eq!(chains[3].1, [last]);
        } else {
            assert_eq!(chains[1].1, [body(9), body(8), "-j RETURN".to_string()]);
            assert_eq!(chains[2].1, [body(11), body(10)]);
            assert_eq!(chains[3].1, [last, body(13), body(12)]);
        }
    }
}
