use dockerwall::tasks::{
    command_failure_message, docker_tasks_of, podman_tasks_of, Command, Outcome, Task, Worker,
};
use dockerwall::network::NetworkPlan;

fn ran(success: bool, stdout: &str, stderr: &str) -> Outcome {
    Outcome::Exited { success, stdout: stdout.to_string(), stderr: stderr.to_string() }
}

fn line(worker: &Worker) -> String {
    let command = worker.command();
    format!("{} {}", command.path, command.args.join(" "))
}

fn command(path: &str, args: &[&str]) -> Command {
    Command { path: path.to_string(), args: args.iter().map(|arg| arg.to_string()).collect() }
}

#[test]
fn failures_are_told_by_what_was_written() {
    assert_eq!(command_failure_message("", " \n"), "command failed");
    assert_eq!(command_failure_message("", " bad\n"), "command failed: bad");
    assert_eq!(command_failure_message("out\n", ""), "command failed: stdout: out");
    assert_eq!(command_failure_message("out\n", "bad\n"), "command failed: bad; stdout: out");
}

#[test]
fn an_attempt_may_fail() {
    let mut worker = Worker::new(vec![
        Task::Attempt(command("a", &["1"])),
        Task::Attempt(command("b", &[])),
        Task::Checked(command("c", &["x", "y"])),
    ]);
    assert_eq!(line(&worker), "a 1");
    assert!(worker.advance(Outcome::NotStarted("no".to_string())).is_ok());
    assert_eq!(line(&worker), "b ");
    assert!(worker.advance(ran(false, "o", "e")).is_ok());
    assert_eq!(line(&worker), "c x y");
    assert!(!worker.is_done());
    assert!(worker.advance(ran(true, "written", "")).is_ok());
    assert!(worker.is_done());
    assert_eq!(worker.output(), "written");
}

#[test]
fn a_checked_command_must_succeed() {
    let worker = || Worker::new(vec![Task::Checked(command("c", &[]))]);
    assert_eq!(worker().advance(Outcome::NotStarted("no".to_string())).unwrap_err(), "no");
    assert_eq!(worker().advance(ran(false, "", "e")).unwrap_err(), "command failed: e");
}

#[test]
fn a_rule_is_removed_until_it_is_gone() {
    let mut worker =
        Worker::new(vec![Task::EnsureRule(command("ipt", &["-I", "X", "3", "-j", "Y"]))]);
    for _ in 0..3 {
        assert_eq!(line(&worker), "ipt -D X -j Y");
        assert!(worker.advance(ran(true, "", "")).is_ok());
    }
    assert!(worker.advance(ran(false, "", "none")).is_ok());
    assert_eq!(line(&worker), "ipt -I X 3 -j Y");
    assert!(worker.advance(ran(true, "", "")).is_ok());
    assert!(worker.is_done());
    let mut worker = Worker::new(vec![Task::EnsureRule(command("ipt", &["-I", "X"]))]);
    assert_eq!(worker.advance(Outcome::NotStarted("no".to_string())).unwrap_err(), "no");
    assert!(worker.advance(ran(false, "", "")).is_ok());
    assert_eq!(worker.advance(ran(false, "", "bad")).unwrap_err(), "command failed: bad");
}

#[test]
fn a_chain_is_made_or_there() {
    let worker = || {
        Worker::new(vec![Task::EnsureChain { iptables: "ipt".to_string(), name: "X".to_string() }])
    };
    let mut w = worker();
    assert_eq!(line(&w), "ipt -N X");
    assert!(w.advance(ran(true, "", "")).is_ok());
    assert!(w.is_done());
    let mut w = worker();
    assert!(w.advance(ran(false, "", "exists")).is_ok());
    assert_eq!(line(&w), "ipt -S X");
    assert!(w.advance(ran(true, "-N X", "")).is_ok());
    assert!(w.is_done());
    let mut w = worker();
    assert!(w.advance(ran(false, "", "first")).is_ok());
    assert_eq!(
        w.advance(ran(false, "", "second")).unwrap_err(),
        "failed to create iptables chain X: command failed: first"
    );
}

#[test]
fn a_set_is_made_or_replaced() {
    let worker = || {
        Worker::new(vec![Task::CreateIpset { ipset: "ips".to_string(), name: "n".to_string() }])
    };
    let mut w = worker();
    assert_eq!(line(&w), "ips create n hash:ip maxelem 1000000000 -exist");
    assert!(w.advance(ran(true, "", "")).is_ok());
    assert!(w.is_done());
    for (swapped, last) in [(true, "ips destroy n-tmp"), (false, "ips rename n-tmp n")] {
        let mut w = worker();
        assert!(w.advance(ran(false, "", "")).is_ok());
        assert_eq!(line(&w), "ips destroy n-tmp");
        assert!(w.advance(Outcome::NotStarted("ignored".to_string())).is_ok());
        assert_eq!(line(&w), "ips create n-tmp hash:ip maxelem 1000000000");
        assert!(w.advance(ran(true, "", "")).is_ok());
        assert_eq!(line(&w), "ips swap n n-tmp");
        assert!(w.advance(ran(swapped, "", "")).is_ok());
        assert_eq!(line(&w), last);
        assert_eq!(w.advance(ran(false, "", "x")).unwrap_err(), "command failed: x");
        assert!(w.advance(ran(true, "", "")).is_ok());
        assert!(w.is_done());
    }
    let mut w = worker();
    assert_eq!(w.advance(Outcome::NotStarted("no".to_string())).unwrap_err(), "no");
}

/// The commands of a worker whose commands all succeed, but for those that take rules out.
fn all_commands(mut worker: Worker) -> Vec<String> {
    let mut lines = vec![];
    while !worker.is_done() {
        let command = worker.command();
        let removes = command.args.iter().any(|arg| arg == "-D");
        if !removes {
            lines.push(line(&worker));
        }
        worker.advance(ran(!removes, "", "")).unwrap();
    }
    lines
}

#[test]
fn docker_networks_are_set_up_in_order() {
    let plan = NetworkPlan::new("net", 53, 0);
    let lines = all_commands(Worker::new(docker_tasks_of("S", "D", "T", &plan)));
    assert_eq!(lines.len(), 9);
    assert_eq!(lines[0], "S destroy net");
    assert_eq!(lines[1], "S create net hash:ip maxelem 1000000000 -exist");
    assert_eq!(lines[2], "D network rm net");
    assert_eq!(
        lines[3],
        format!(
            "D network create --driver bridge --subnet {0} --ip-range {0} --gateway {1} net",
            plan.subnet, plan.gateway
        )
    );
    assert!(lines[4..].iter().all(|line| line.starts_with("T ")));
    assert!(lines[6].ends_with("-j DROP"));
}

#[test]
fn podman_networks_are_set_up_in_order() {
    let tasks = podman_tasks_of("I", "S", "T", "net", "198.18.0.9/32", "eth0", 53);
    let lines = all_commands(Worker::new(tasks));
    assert_eq!(lines.len(), 13);
    assert_eq!(lines[0], "I addr replace 198.18.0.9/32 dev eth0");
    assert_eq!(lines[1], "S destroy net");
    assert_eq!(lines[2], "S create net hash:ip maxelem 1000000000 -exist");
    assert_eq!(lines[3], "T -N DOCKERWALL-OUTPUT");
    assert!(lines[4].starts_with("T -I OUTPUT 1 -s 198.18.0.9/32"));
    assert!(lines[12].starts_with("T -t nat -I POSTROUTING 1"));
}
