use dockerwall::cli::ContainerRuntime;
use dockerwall::network::NetworkPlan;
use dockerwall::prepare::{prepare_network, Action, Event, Preparation};
use dockerwall::tasks::Outcome;
use dockerwall::trust::FileFacts;

fn patterns() -> Vec<String> {
    vec!["*.example.com".to_string()]
}

fn docker() -> Preparation {
    prepare_network("net", &patterns(), ContainerRuntime::Docker, None).unwrap()
}

fn podman(interface: Option<&str>) -> Preparation {
    let interface = interface.map(str::to_string);
    prepare_network("test-net", &patterns(), ContainerRuntime::Podman, interface).unwrap()
}

fn trusted() -> Event {
    Event::Facts(Some(FileFacts { is_file: true, uid: 0, mode: 0o755 }))
}

fn ran(success: bool, stdout: &str) -> Event {
    Event::Outcome(Outcome::Exited {
        success,
        stdout: stdout.to_string(),
        stderr: "bad".to_string(),
    })
}

/// What an action is, in short.
fn told(action: &Action) -> String {
    match action {
        Action::Inspect(path) => format!("inspect {path}"),
        Action::Run(c) => format!("run {} {}", c.path, c.args.join(" ")),
        Action::Register { name, subnet, patterns } => {
            format!("register {name} {subnet} {}", patterns.join(","))
        }
        Action::Retry { attempt, error } => format!("retry {attempt} {error}"),
        Action::Finish(Ok(text)) => format!("ok {text}"),
        Action::Finish(Err(error)) => format!("failed {error}"),
        other => format!("{other:?}"),
    }
}

/// Goes on with everything succeeding, but for commands that take rules out, until an action
/// begins with `stop`.
fn go_on(mut p: Preparation, stop: &str) -> Preparation {
    loop {
        let action = p.action();
        let short = told(&action);
        if short.starts_with(stop) {
            return p;
        }
        let event = match action {
            Action::ReadStatus => Event::Text(Ok("Uid:\t0\t0\t0\t0\n".to_string())),
            Action::ReadUidMap => Event::Text(Ok("0 0 4294967295\n".to_string())),
            Action::AskPort => Event::Port(Ok(5353)),
            Action::StartDaemon | Action::Pause | Action::Retry { .. } | Action::Register { .. } => {
                Event::Done(Ok(()))
            }
            Action::Inspect(_) => trusted(),
            Action::Run(c) => {
                let shown = if c.args[0] == "route" { "default dev eth0\n" } else { "" };
                ran(!c.args.iter().any(|arg| arg == "-D"), shown)
            }
            Action::Finish(_) => panic!("{short} before {stop}"),
        };
        p = p.next(event);
    }
}

#[test]
fn docker_takes_no_interface() {
    let refused =
        prepare_network("net", &patterns(), ContainerRuntime::Docker, Some("eth0".to_string()));
    assert_eq!(
        refused.unwrap_err().message(),
        "--interface is only valid with --runtime podman"
    );
}

#[test]
fn docker_needs_a_daemon() {
    let p = docker();
    assert!(matches!(p.action(), Action::AskPort));
    let p = p.next(Event::Port(Err("no daemon".to_string())));
    assert_eq!(told(&p.action()), "failed no daemon");
    // What does not answer the action changes nothing.
    let p = p.next(Event::Port(Ok(53)));
    assert_eq!(told(&p.action()), "failed no daemon");
}

#[test]
fn docker_networks_are_registered_once_set_up() {
    let p = go_on(docker(), "inspect");
    assert_eq!(told(&p.action()), "inspect /usr/sbin/ipset");
    let p = p.next(Event::Facts(None));
    assert_eq!(told(&p.action()), "inspect /sbin/ipset");
    let p = p.next(trusted());
    assert_eq!(told(&p.action()), "inspect /usr/bin/docker");
    let p = p.next(trusted());
    assert_eq!(told(&p.action()), "inspect /usr/sbin/iptables");
    let p = p.next(trusted());
    assert_eq!(told(&p.action()), "run /sbin/ipset destroy net");
    let p = go_on(p, "register");
    let subnet = NetworkPlan::new("net", 5353, 0).subnet;
    assert_eq!(told(&p.action()), format!("register net {subnet} *.example.com"));
    let p = p.next(Event::Done(Ok(())));
    assert_eq!(told(&p.action()), "ok ");
}

#[test]
fn docker_networks_that_are_not_taken_fail() {
    let p = go_on(docker(), "register").next(Event::Done(Err("refused".to_string())));
    assert_eq!(told(&p.action()), "failed refused");
}

#[test]
fn docker_is_tried_fifty_times() {
    let mut p = docker().next(Event::Port(Ok(5353)));
    for attempt in 0..50 {
        // The network cannot be made at odd attempts, and a program is missing at even ones.
        if attempt % 2 == 0 {
            for _ in 0..3 {
                p = p.next(Event::Facts(None));
            }
            assert_eq!(told(&p.action()), format!("retry {attempt} trusted binary not found"));
        } else {
            p = go_on(p, "run /usr/bin/docker network create");
            let subnet = NetworkPlan::new("net", 5353, attempt).subnet;
            assert!(told(&p.action()).contains(&format!("--subnet {subnet} ")));
            p = p.next(ran(false, ""));
            assert_eq!(told(&p.action()), format!("retry {attempt} command failed: bad"));
        }
        p = p.next(Event::Done(Ok(())));
    }
    assert_eq!(told(&p.action()), "failed command failed: bad");
}

#[test]
fn podman_needs_root_of_the_host() {
    let p = podman(None);
    assert!(matches!(p.action(), Action::ReadStatus));
    let q = p.next(Event::Text(Err("unreadable".to_string())));
    assert_eq!(told(&q.action()), "failed unreadable");
    let q = podman(None).next(Event::Text(Ok("Uid:\t0\t7\t0\t0\n".to_string())));
    assert_eq!(told(&q.action()), "failed rootless Podman preparation must run as host root");
    let q = podman(None).next(Event::Text(Ok("Uid:\t0\t0\t0\t0\n".to_string())));
    assert!(matches!(q.action(), Action::ReadUidMap));
    let q = q.next(Event::Text(Ok("0 1000 1\n".to_string())));
    assert_eq!(
        told(&q.action()),
        "failed rootless Podman preparation must run as host root, not a user namespace root"
    );
}

#[test]
fn podman_networks_are_prepared() {
    let p = go_on(podman(Some("wlan0")), "run");
    assert_eq!(told(&p.action()), "run /usr/sbin/ip addr replace 198.18.0.1/32 dev lo");
    let p = go_on(p, "run /usr/sbin/iptables");
    assert_eq!(told(&p.action()), "run /usr/sbin/iptables -S OUTPUT");
    let p = p.next(ran(true, "-A OUTPUT -s 198.19.167.94/32 -j X\n"));
    assert_eq!(told(&p.action()), "run /usr/sbin/ip -o -4 addr show to 198.19.167.95/32");
    let p = p.next(ran(true, "2: eth0 inet 198.19.167.95/32\n"));
    assert_eq!(told(&p.action()), "run /usr/sbin/ip -o -4 addr show to 198.19.167.96/32");
    let p = p.next(ran(true, ""));
    assert_eq!(told(&p.action()), "run /usr/sbin/ip addr replace 198.19.167.96/32 dev wlan0");
    let p = go_on(p, "register");
    assert_eq!(told(&p.action()), "register test-net 198.19.167.96/32 *.example.com");
    let p = p.next(Event::Done(Ok(())));
    assert_eq!(
        told(&p.action()),
        "ok rootless Podman source IP: 198.19.167.96\n\
         rootless Podman interface: wlan0\n\
         podman run --network pasta:--outbound,198.19.167.96 --dns 198.18.0.1 <image> <command>\n"
    );
}

#[test]
fn podman_networks_keep_their_source() {
    let p = go_on(podman(None), "run /usr/sbin/ip route");
    assert_eq!(told(&p.action()), "run /usr/sbin/ip route show default");
    let p = go_on(p, "run /usr/sbin/iptables");
    let hook = "-A OUTPUT -s 198.18.7.7/32 -m comment --comment \"dockerwall:test-net:output-hook\"\n";
    let p = p.next(ran(true, hook));
    assert_eq!(told(&p.action()), "run /usr/sbin/ip addr replace 198.18.7.7/32 dev eth0");
}

#[test]
fn podman_starts_a_daemon_and_waits() {
    let p = go_on(podman(Some("eth0")), "AskPort");
    let mut p = p.next(Event::Port(Err("none".to_string())));
    assert!(matches!(p.action(), Action::StartDaemon));
    p = p.next(Event::Done(Ok(())));
    for _ in 0..50 {
        assert!(matches!(p.action(), Action::AskPort));
        p = p.next(Event::Port(Err("none".to_string())));
        assert!(matches!(p.action(), Action::Pause));
        p = p.next(Event::Done(Ok(())));
    }
    assert_eq!(
        told(&p.action()),
        "failed external host Dockerwall daemon did not become ready"
    );
    let p = go_on(podman(Some("eth0")), "AskPort");
    let p = p.next(Event::Port(Err("none".to_string())));
    let p = p.next(Event::Done(Err("cannot start".to_string())));
    assert_eq!(told(&p.action()), "failed cannot start");
    let p = go_on(podman(Some("eth0")), "AskPort");
    let p = p.next(Event::Port(Err("none".to_string()))).next(Event::Done(Ok(())));
    let p = p.next(Event::Port(Ok(53)));
    assert_eq!(told(&p.action()), "inspect /usr/sbin/ipset");
}

#[test]
fn podman_failures_are_told() {
    let p = go_on(podman(Some("bad/name")), "AskPort").next(Event::Port(Ok(53)));
    assert_eq!(
        told(&p.action()),
        "failed interface name must be 1-15 ASCII alphanumeric, '.', '_', or '-' characters"
    );
    let p = go_on(podman(None), "run /usr/sbin/ip route").next(ran(true, "\n"));
    assert_eq!(told(&p.action()), "failed could not determine the default-route interface");
    let p = go_on(podman(None), "run /usr/sbin/ip addr replace 198.18.0.1/32").next(ran(false, ""));
    assert_eq!(told(&p.action()), "failed command failed: bad");
    let p = go_on(podman(None), "inspect /usr/sbin/iptables");
    let p = p.next(Event::Facts(None)).next(Event::Facts(None));
    assert_eq!(told(&p.action()), "failed trusted binary not found");
}
