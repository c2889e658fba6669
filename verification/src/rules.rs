//! The firewall rules of a network, as arguments for iptables.

use vstd::prelude::*;

use crate::network::{NetworkPlan, PlanModel};
use crate::text::{
    begins, chars, decimal, is_text, parse_uint, push_decimal, strings, texts, whole_number,
};

verus! {

/// The chain that the traffic of rootless Podman networks goes through.
pub const PODMAN_OUTPUT_CHAIN: &'static str = "DOCKERWALL-OUTPUT";

/// The address at which rootless Podman containers ask for names.
pub const ROOTLESS_DNS_CIDR: &'static str = "198.18.0.1/32";

/// Where their questions go if the daemon does not listen on the port for DNS.
pub const ROOTLESS_DNS_REDIRECT_CIDR: &'static str = "127.0.0.1/32";

// ---------------------------------------------------------------------------
// Text in rules

/// The comment that marks a rule of a network.
pub open spec fn comment(name: Seq<char>, label: Seq<char>) -> Seq<char> {
    "dockerwall:"@ + name + ":"@ + label
}

fn to_comment(name: &str, label: &str) -> (r: String)
    ensures
        r@ == comment(name@, label@),
{
    let mut out = "dockerwall:".to_owned();
    out.append(name);
    out.append(":");
    out.append(label);
    out
}

fn to_decimal(n: u16) -> (r: String)
    ensures
        r@ == decimal(n as nat),
{
    let mut out = String::new();
    push_decimal(&mut out, n as u64);
    assert(out@ =~= decimal(n as nat));
    out
}

// ---------------------------------------------------------------------------
// Docker

/// Packets of a connection that was accepted before go through.
pub open spec fn docker_established() -> Seq<Seq<char>> {
    seq![
        "-I"@, "DOCKER-USER"@, "1"@, "-m"@, "comment"@, "--comment"@, "dockerwall:established"@,
        "-m"@, "conntrack"@, "--ctstate"@, "ESTABLISHED,RELATED"@, "-j"@, "ACCEPT"@,
    ]
}

/// Packets to an address in the ipset go through.
pub open spec fn docker_allow(plan: PlanModel) -> Seq<Seq<char>> {
    seq![
        "-I"@, "DOCKER-USER"@, "2"@, "-m"@, "comment"@, "--comment"@, comment(
            plan.name,
            "allow"@,
        ), "-s"@, plan.subnet, "-m"@, "set"@, "--match-set"@, plan.name, "dst"@, "-j"@, "ACCEPT"@,
    ]
}

/// All other packets are dropped.
pub open spec fn docker_drop(plan: PlanModel) -> Seq<Seq<char>> {
    seq![
        "-I"@, "DOCKER-USER"@, "3"@, "-m"@, "comment"@, "--comment"@, comment(plan.name, "drop"@),
        "-s"@, plan.subnet, "-j"@, "DROP"@,
    ]
}

/// Questions for names go to the daemon.
pub open spec fn docker_dns(plan: PlanModel, protocol: Seq<char>) -> Seq<Seq<char>> {
    seq![
        "-t"@, "nat"@, "-I"@, "PREROUTING"@, "-m"@, "comment"@, "--comment"@, comment(
            plan.name,
            "dns-"@ + protocol,
        ), "-s"@, plan.subnet, "-p"@, protocol, "--dport"@, "53"@, "-j"@, "DNAT"@,
        "--to-destination"@, plan.gateway + ":"@ + decimal(plan.dns_port as nat),
    ]
}

/// The rules of a Docker network, in the order in which they are put in.
pub open spec fn docker_rules(plan: PlanModel) -> Seq<Seq<Seq<char>>> {
    seq![
        docker_established(), docker_allow(plan), docker_drop(plan), docker_dns(plan, "udp"@),
        docker_dns(plan, "tcp"@),
    ]
}

fn docker_established_args() -> (r: Vec<String>)
    ensures
        texts(r@) == docker_established(),
{
    let r = strings(
        &[
            "-I", "DOCKER-USER", "1", "-m", "comment", "--comment", "dockerwall:established", "-m",
            "conntrack", "--ctstate", "ESTABLISHED,RELATED", "-j", "ACCEPT",
        ],
    );
    assert(texts(r@) =~= docker_established());
    r
}

fn docker_allow_args(plan: &NetworkPlan) -> (r: Vec<String>)
    ensures
        texts(r@) == docker_allow(plan@),
{
    let comment = to_comment(plan.name.as_str(), "allow");
    let r = strings(
        &[
            "-I", "DOCKER-USER", "2", "-m", "comment", "--comment", comment.as_str(), "-s",
            plan.subnet.as_str(), "-m", "set", "--match-set", plan.name.as_str(), "dst", "-j",
            "ACCEPT",
        ],
    );
    assert(texts(r@) =~= docker_allow(plan@));
    r
}

fn docker_drop_args(plan: &NetworkPlan) -> (r: Vec<String>)
    ensures
        texts(r@) == docker_drop(plan@),
{
    let comment = to_comment(plan.name.as_str(), "drop");
    let r = strings(
        &[
            "-I", "DOCKER-USER", "3", "-m", "comment", "--comment", comment.as_str(), "-s",
            plan.subnet.as_str(), "-j", "DROP",
        ],
    );
    assert(texts(r@) =~= docker_drop(plan@));
    r
}

fn docker_dns_args(plan: &NetworkPlan, protocol: &str) -> (r: Vec<String>)
    ensures
        texts(r@) == docker_dns(plan@, protocol@),
{
    let mut label = "dns-".to_owned();
    label.append(protocol);
    let comment = to_comment(plan.name.as_str(), label.as_str());
    let mut target = plan.gateway.clone();
    target.append(":");
    push_decimal(&mut target, plan.dns_port as u64);
    let r = strings(
        &[
            "-t", "nat", "-I", "PREROUTING", "-m", "comment", "--comment", comment.as_str(), "-s",
            plan.subnet.as_str(), "-p", protocol, "--dport", "53", "-j", "DNAT",
            "--to-destination", target.as_str(),
        ],
    );
    assert(texts(r@) =~= docker_dns(plan@, protocol@));
    r
}

/// The texts of several lists of arguments.
pub open spec fn all_texts(v: Seq<Vec<String>>) -> Seq<Seq<Seq<char>>> {
    v.map_values(|args: Vec<String>| texts(args@))
}

/// The rules of a Docker network, in the order in which they are put in.
pub fn docker_rules_of(plan: &NetworkPlan) -> (r: Vec<Vec<String>>)
    ensures
        all_texts(r@) == docker_rules(plan@),
{
    let mut r: Vec<Vec<String>> = Vec::new();
    r.push(docker_established_args());
    r.push(docker_allow_args(plan));
    r.push(docker_drop_args(plan));
    r.push(docker_dns_args(plan, "udp"));
    r.push(docker_dns_args(plan, "tcp"));
    assert(all_texts(r@) =~= docker_rules(plan@));
    r
}

// ---------------------------------------------------------------------------
// Rootless Podman

/// What a rootless Podman network sends goes through the chain for such networks.
pub open spec fn podman_hook(name: Seq<char>, cidr: Seq<char>) -> Seq<Seq<char>> {
    seq![
        "-I"@, "OUTPUT"@, "1"@, "-s"@, cidr, "-m"@, "comment"@, "--comment"@, comment(
            name,
            "output-hook"@,
        ), "-j"@, PODMAN_OUTPUT_CHAIN@,
    ]
}

/// Packets of a connection that was accepted before go through.
pub open spec fn podman_established(name: Seq<char>, cidr: Seq<char>) -> Seq<Seq<char>> {
    seq![
        "-I"@, PODMAN_OUTPUT_CHAIN@, "1"@, "-s"@, cidr, "-m"@, "comment"@, "--comment"@, comment(
            name,
            "established"@,
        ), "-m"@, "conntrack"@, "--ctstate"@, "ESTABLISHED,RELATED"@, "-j"@, "ACCEPT"@,
    ]
}

/// Where questions for names go.
pub open spec fn dns_destination(dns_port: u16) -> Seq<char> {
    if dns_port == 53 {
        ROOTLESS_DNS_CIDR@
    } else {
        ROOTLESS_DNS_REDIRECT_CIDR@
    }
}

/// Questions for names go through.
pub open spec fn podman_query(
    name: Seq<char>,
    cidr: Seq<char>,
    dns_port: u16,
    position: Seq<char>,
    protocol: Seq<char>,
) -> Seq<Seq<char>> {
    seq![
        "-I"@, PODMAN_OUTPUT_CHAIN@, position, "-s"@, cidr, "-d"@, dns_destination(dns_port),
        "-p"@, protocol, "--dport"@, decimal(dns_port as nat), "-m"@, "comment"@, "--comment"@,
        comment(name, "dns-"@ + protocol), "-j"@, "ACCEPT"@,
    ]
}

/// Answers to questions for names go through.
pub open spec fn podman_response(
    name: Seq<char>,
    cidr: Seq<char>,
    dns_port: u16,
    position: Seq<char>,
    protocol: Seq<char>,
) -> Seq<Seq<char>> {
    seq![
        "-I"@, PODMAN_OUTPUT_CHAIN@, position, "-s"@, cidr, "-d"@, cidr, "-p"@, protocol,
        "--sport"@, decimal(dns_port as nat), "-m"@, "comment"@, "--comment"@, comment(
            name,
            "dns-response-"@ + protocol,
        ), "-j"@, "ACCEPT"@,
    ]
}

/// Packets to an address in the ipset go through.
pub open spec fn podman_allow(name: Seq<char>, cidr: Seq<char>) -> Seq<Seq<char>> {
    seq![
        "-I"@, PODMAN_OUTPUT_CHAIN@, "6"@, "-s"@, cidr, "-m"@, "comment"@, "--comment"@, comment(
            name,
            "allow"@,
        ), "-m"@, "set"@, "--match-set"@, name, "dst"@, "-j"@, "ACCEPT"@,
    ]
}

/// All other packets are dropped.
pub open spec fn podman_drop(name: Seq<char>, cidr: Seq<char>) -> Seq<Seq<char>> {
    seq![
        "-I"@, PODMAN_OUTPUT_CHAIN@, "7"@, "-s"@, cidr, "-m"@, "comment"@, "--comment"@, comment(
            name,
            "drop"@,
        ), "-j"@, "DROP"@,
    ]
}

/// Questions for names go to the port on which the daemon listens.
pub open spec fn podman_redirect(
    name: Seq<char>,
    cidr: Seq<char>,
    dns_port: u16,
    chain: Seq<char>,
    protocol: Seq<char>,
) -> Seq<Seq<char>> {
    seq![
        "-t"@, "nat"@, "-I"@, chain, "1"@, "-s"@, cidr, "-d"@, ROOTLESS_DNS_CIDR@, "-p"@, protocol,
        "--dport"@, "53"@, "-m"@, "comment"@, "--comment"@, comment(
            name,
            "dns-"@ + chain + "-"@ + protocol,
        ), "-j"@, "REDIRECT"@, "--to-ports"@, decimal(dns_port as nat),
    ]
}

/// Answers to questions for names come from the address that was asked.
pub open spec fn podman_response_source(
    name: Seq<char>,
    cidr: Seq<char>,
    dns_port: u16,
    protocol: Seq<char>,
) -> Seq<Seq<char>> {
    seq![
        "-t"@, "nat"@, "-I"@, "POSTROUTING"@, "1"@, "-s"@, cidr, "-d"@, cidr, "-p"@, protocol,
        "--sport"@, decimal(dns_port as nat), "-m"@, "comment"@, "--comment"@, comment(
            name,
            "dns-response-snat-"@ + protocol,
        ), "-j"@, "SNAT"@, "--to-source"@, "127.0.0.1"@,
    ]
}

/// What leaves through the outbound interface gets the address of the interface.
pub open spec fn podman_masquerade(
    name: Seq<char>,
    cidr: Seq<char>,
    interface: Seq<char>,
) -> Seq<Seq<char>> {
    seq![
        "-t"@, "nat"@, "-I"@, "POSTROUTING"@, "1"@, "-s"@, cidr, "-o"@, interface, "-m"@,
        "comment"@, "--comment"@, comment(name, "masquerade"@), "-j"@, "MASQUERADE"@,
    ]
}

/// The rules in the chain for rootless Podman networks, in the order in which they are put in.
pub open spec fn podman_output_rules(name: Seq<char>, cidr: Seq<char>, dns_port: u16) -> Seq<
    Seq<Seq<char>>,
> {
    seq![
        podman_established(name, cidr), podman_query(name, cidr, dns_port, "2"@, "udp"@),
        podman_query(name, cidr, dns_port, "3"@, "tcp"@), podman_response(
            name,
            cidr,
            dns_port,
            "4"@,
            "udp"@,
        ), podman_response(name, cidr, dns_port, "5"@, "tcp"@), podman_allow(name, cidr),
        podman_drop(name, cidr),
    ]
}

/// The rules that bring questions and answers to and from a port other than that for DNS.
pub open spec fn podman_redirects(name: Seq<char>, cidr: Seq<char>, dns_port: u16) -> Seq<
    Seq<Seq<char>>,
> {
    seq![
        podman_redirect(name, cidr, dns_port, "OUTPUT"@, "udp"@), podman_redirect(
            name,
            cidr,
            dns_port,
            "OUTPUT"@,
            "tcp"@,
        ), podman_redirect(name, cidr, dns_port, "PREROUTING"@, "udp"@), podman_redirect(
            name,
            cidr,
            dns_port,
            "PREROUTING"@,
            "tcp"@,
        ), podman_response_source(name, cidr, dns_port, "udp"@), podman_response_source(
            name,
            cidr,
            dns_port,
            "tcp"@,
        ),
    ]
}

/// The rules of a rootless Podman network, in the order in which they are put in.
pub open spec fn podman_rules(
    name: Seq<char>,
    cidr: Seq<char>,
    interface: Seq<char>,
    dns_port: u16,
) -> Seq<Seq<Seq<char>>> {
    seq![podman_hook(name, cidr)] + podman_output_rules(name, cidr, dns_port) + (if dns_port
        == 53 {
        seq![]
    } else {
        podman_redirects(name, cidr, dns_port)
    }) + seq![podman_masquerade(name, cidr, interface)]
}

fn podman_hook_args(name: &str, cidr: &str) -> (r: Vec<String>)
    ensures
        texts(r@) == podman_hook(name@, cidr@),
{
    let comment = to_comment(name, "output-hook");
    let r = strings(
        &[
            "-I", "OUTPUT", "1", "-s", cidr, "-m", "comment", "--comment", comment.as_str(), "-j",
            PODMAN_OUTPUT_CHAIN,
        ],
    );
    assert(texts(r@) =~= podman_hook(name@, cidr@));
    r
}

fn podman_established_args(name: &str, cidr: &str) -> (r: Vec<String>)
    ensures
        texts(r@) == podman_established(name@, cidr@),
{
    let comment = to_comment(name, "established");
    let r = strings(
        &[
            "-I", PODMAN_OUTPUT_CHAIN, "1", "-s", cidr, "-m", "comment", "--comment",
            comment.as_str(), "-m", "conntrack", "--ctstate", "ESTABLISHED,RELATED", "-j",
            "ACCEPT",
        ],
    );
    assert(texts(r@) =~= podman_established(name@, cidr@));
    r
}

fn podman_query_args(
    name: &str,
    cidr: &str,
    dns_port: u16,
    position: &str,
    protocol: &str,
) -> (r: Vec<String>)
    ensures
        texts(r@) == podman_query(name@, cidr@, dns_port, position@, protocol@),
{
    let mut label = "dns-".to_owned();
    label.append(protocol);
    let comment = to_comment(name, label.as_str());
    let port = to_decimal(dns_port);
    let destination = if dns_port == 53 {
        ROOTLESS_DNS_CIDR
    } else {
        ROOTLESS_DNS_REDIRECT_CIDR
    };
    let r = strings(
        &[
            "-I", PODMAN_OUTPUT_CHAIN, position, "-s", cidr, "-d", destination, "-p", protocol,
            "--dport", port.as_str(), "-m", "comment", "--comment", comment.as_str(), "-j",
            "ACCEPT",
        ],
    );
    assert(texts(r@) =~= podman_query(name@, cidr@, dns_port, position@, protocol@));
    r
}

fn podman_response_args(
    name: &str,
    cidr: &str,
    dns_port: u16,
    position: &str,
    protocol: &str,
) -> (r: Vec<String>)
    ensures
        texts(r@) == podman_response(name@, cidr@, dns_port, position@, protocol@),
{
    let mut label = "dns-response-".to_owned();
    label.append(protocol);
    let comment = to_comment(name, label.as_str());
    let port = to_decimal(dns_port);
    let r = strings(
        &[
            "-I", PODMAN_OUTPUT_CHAIN, position, "-s", cidr, "-d", cidr, "-p", protocol, "--sport",
            port.as_str(), "-m", "comment", "--comment", comment.as_str(), "-j", "ACCEPT",
        ],
    );
    assert(texts(r@) =~= podman_response(name@, cidr@, dns_port, position@, protocol@));
    r
}

fn podman_allow_args(name: &str, cidr: &str) -> (r: Vec<String>)
    ensures
        texts(r@) == podman_allow(name@, cidr@),
{
    let comment = to_comment(name, "allow");
    let r = strings(
        &[
            "-I", PODMAN_OUTPUT_CHAIN, "6", "-s", cidr, "-m", "comment", "--comment",
            comment.as_str(), "-m", "set", "--match-set", name, "dst", "-j", "ACCEPT",
        ],
    );
    assert(texts(r@) =~= podman_allow(name@, cidr@));
    r
}

fn podman_drop_args(name: &str, cidr: &str) -> (r: Vec<String>)
    ensures
        texts(r@) == podman_drop(name@, cidr@),
{
    let comment = to_comment(name, "drop");
    let r = strings(
        &[
            "-I", PODMAN_OUTPUT_CHAIN, "7", "-s", cidr, "-m", "comment", "--comment",
            comment.as_str(), "-j", "DROP",
        ],
    );
    assert(texts(r@) =~= podman_drop(name@, cidr@));
    r
}

fn podman_redirect_args(
    name: &str,
    cidr: &str,
    dns_port: u16,
    chain: &str,
    protocol: &str,
) -> (r: Vec<String>)
    ensures
        texts(r@) == podman_redirect(name@, cidr@, dns_port, chain@, protocol@),
{
    let mut label = "dns-".to_owned();
    label.append(chain);
    label.append("-");
    label.append(protocol);
    let comment = to_comment(name, label.as_str());
    let port = to_decimal(dns_port);
    let r = strings(
        &[
            "-t", "nat", "-I", chain, "1", "-s", cidr, "-d", ROOTLESS_DNS_CIDR, "-p", protocol,
            "--dport", "53", "-m", "comment", "--comment", comment.as_str(), "-j", "REDIRECT",
            "--to-ports", port.as_str(),
        ],
    );
    assert(texts(r@) =~= podman_redirect(name@, cidr@, dns_port, chain@, protocol@));
    r
}

fn podman_response_source_args(name: &str, cidr: &str, dns_port: u16, protocol: &str) -> (r: Vec<
    String,
>)
    ensures
        texts(r@) == podman_response_source(name@, cidr@, dns_port, protocol@),
{
    let mut label = "dns-response-snat-".to_owned();
    label.append(protocol);
    let comment = to_comment(name, label.as_str());
    let port = to_decimal(dns_port);
    let r = strings(
        &[
            "-t", "nat", "-I", "POSTROUTING", "1", "-s", cidr, "-d", cidr, "-p", protocol,
            "--sport", port.as_str(), "-m", "comment", "--comment", comment.as_str(), "-j", "SNAT",
            "--to-source", "127.0.0.1",
        ],
    );
    assert(texts(r@) =~= podman_response_source(name@, cidr@, dns_port, protocol@));
    r
}

fn podman_masquerade_args(name: &str, cidr: &str, interface: &str) -> (r: Vec<String>)
    ensures
        texts(r@) == podman_masquerade(name@, cidr@, interface@),
{
    let comment = to_comment(name, "masquerade");
    let r = strings(
        &[
            "-t", "nat", "-I", "POSTROUTING", "1", "-s", cidr, "-o", interface, "-m", "comment",
            "--comment", comment.as_str(), "-j", "MASQUERADE",
        ],
    );
    assert(texts(r@) =~= podman_masquerade(name@, cidr@, interface@));
    r
}

fn push_podman_redirects(rules: &mut Vec<Vec<String>>, name: &str, cidr: &str, dns_port: u16)
    ensures
        all_texts(final(rules)@) == all_texts(old(rules)@) + podman_redirects(
            name@,
            cidr@,
            dns_port,
        ),
{
    let ghost before = all_texts(rules@);
    rules.push(podman_redirect_args(name, cidr, dns_port, "OUTPUT", "udp"));
    rules.push(podman_redirect_args(name, cidr, dns_port, "OUTPUT", "tcp"));
    rules.push(podman_redirect_args(name, cidr, dns_port, "PREROUTING", "udp"));
    rules.push(podman_redirect_args(name, cidr, dns_port, "PREROUTING", "tcp"));
    rules.push(podman_response_source_args(name, cidr, dns_port, "udp"));
    rules.push(podman_response_source_args(name, cidr, dns_port, "tcp"));
    assert(all_texts(rules@) =~= before + podman_redirects(name@, cidr@, dns_port));
}

/// The rules of a rootless Podman network, in the order in which they are put in.
pub fn podman_rules_of(name: &str, cidr: &str, interface: &str, dns_port: u16) -> (r: Vec<
    Vec<String>,
>)
    ensures
        all_texts(r@) == podman_rules(name@, cidr@, interface@, dns_port),
{
    let mut r: Vec<Vec<String>> = Vec::new();
    r.push(podman_hook_args(name, cidr));
    r.push(podman_established_args(name, cidr));
    r.push(podman_query_args(name, cidr, dns_port, "2", "udp"));
    r.push(podman_query_args(name, cidr, dns_port, "3", "tcp"));
    r.push(podman_response_args(name, cidr, dns_port, "4", "udp"));
    r.push(podman_response_args(name, cidr, dns_port, "5", "tcp"));
    r.push(podman_allow_args(name, cidr));
    r.push(podman_drop_args(name, cidr));
    let ghost filters = seq![podman_hook(name@, cidr@)] + podman_output_rules(
        name@,
        cidr@,
        dns_port,
    );
    assert(all_texts(r@) =~= filters);
    if dns_port != 53 {
        push_podman_redirects(&mut r, name, cidr, dns_port);
    }
    let ghost before = all_texts(r@);
    r.push(podman_masquerade_args(name, cidr, interface));
    proof {
        assert(all_texts(r@) =~= before.push(podman_masquerade(name@, cidr@, interface@)));
        assert(all_texts(r@) =~= podman_rules(name@, cidr@, interface@, dns_port));
    }
    r
}

// ---------------------------------------------------------------------------
// Taking a rule out again

/// Whether an argument asks to put a rule in.
pub open spec fn inserts(arg: Seq<char>) -> bool {
    arg == "-I"@ || arg == "-A"@
}

/// Where among the arguments the one stands that asks to put a rule in; how many there are
/// where none does.
pub open spec fn operation_index(args: Seq<Seq<char>>) -> int
    decreases args.len(),
{
    if args.len() == 0 || inserts(args[0]) {
        0
    } else {
        1 + operation_index(args.skip(1))
    }
}

/// Whether an argument is a position in a chain.
pub open spec fn is_position(arg: Seq<char>) -> bool {
    whole_number(arg, u32::MAX as nat) is Ok
}

/// The arguments that take out the rule that `args` put in: the operation is another one, and
/// the position after the chain is gone.
pub open spec fn deletion(args: Seq<Seq<char>>) -> Seq<Seq<char>> {
    let i = operation_index(args);
    if i >= args.len() {
        args
    } else if i + 2 < args.len() && is_position(args[i + 2]) {
        args.update(i, "-D"@).remove(i + 2)
    } else {
        args.update(i, "-D"@)
    }
}

fn find_operation(args: &[String]) -> (r: usize)
    ensures
        r == operation_index(texts(args@)),
        r <= args.len(),
{
    let ghost all = texts(args@);
    let mut i: usize = 0;
    assert(all.skip(0) =~= all);
    while i < args.len()
        invariant
            i <= args.len(),
            all == texts(args@),
            operation_index(all) == i + operation_index(all.skip(i as int)),
        decreases args.len() - i,
    {
        assert(all[i as int] == args@[i as int]@);
        assert(all.skip(i as int)[0] == all[i as int]);
        assert(all.skip(i as int).skip(1) =~= all.skip(i + 1));
        let arg = chars(args[i].as_str());
        if is_text(arg.as_slice(), "-I") || is_text(arg.as_slice(), "-A") {
            return i;
        }
        i = i + 1;
    }
    i
}

/// The arguments that take out the rule that `insert_args` put in.
pub fn delete_args(insert_args: &[String]) -> (r: Vec<String>)
    ensures
        texts(r@) == deletion(texts(insert_args@)),
{
    let ghost all = texts(insert_args@);
    let operation: usize = find_operation(insert_args);
    let n: usize = insert_args.len();
    let has_position: bool = if operation < n && n - operation > 2 {
        let arg = chars(insert_args[operation + 2].as_str());
        assert(all[operation + 2] == arg@);
        parse_uint(arg.as_slice(), u32::MAX).is_ok()
    } else {
        false
    };
    let mut out: Vec<String> = Vec::new();
    let mut i: usize = 0;
    while i < n
        invariant
            i <= n,
            n == insert_args.len(),
            operation <= n,
            has_position ==> n - operation > 2,
            out.len() == if has_position && i > operation + 2 {
                i - 1
            } else {
                i as int
            },
            forall|j: int|
                0 <= j < out.len() ==> (#[trigger] out@[j])@ == if j == operation {
                    "-D"@
                } else if has_position && j >= operation + 2 {
                    insert_args@[j + 1]@
                } else {
                    insert_args@[j]@
                },
        decreases n - i,
    {
        if i == operation {
            out.push("-D".to_owned());
        } else if !(has_position && i == operation + 2) {
            out.push(insert_args[i].clone());
        }
        i = i + 1;
    }
    assert(texts(out@) =~= deletion(all));
    out
}

// ---------------------------------------------------------------------------
// Laws

proof fn lemma_operation_index(front: Seq<Seq<char>>, op: Seq<char>, rest: Seq<Seq<char>>)
    requires
        forall|i: int| 0 <= i < front.len() ==> !inserts(#[trigger] front[i]),
    ensures
        inserts(op) ==> operation_index(front + seq![op] + rest) == front.len(),
        operation_index(front) == front.len(),
    decreases front.len(),
{
    let all = front + seq![op] + rest;
    if front.len() > 0 {
        assert(!inserts(front[0]));
        let less = front.skip(1);
        assert forall|i: int| 0 <= i < less.len() implies !inserts(#[trigger] less[i]) by {
            assert(less[i] == front[i + 1]);
        }
        lemma_operation_index(less, op, rest);
        assert(all.skip(1) =~= less + seq![op] + rest);
        assert(all[0] == front[0]);
    } else {
        assert(all[0] == op);
    }
}

/// The arguments that take a rule out are those that put it in, but for the operation, and
/// without the position behind the chain, where one stands there. Arguments that put nothing in
/// stay as they are.
pub proof fn rules_are_taken_out_as_they_were_put_in(
    front: Seq<Seq<char>>,
    op: Seq<char>,
    chain: Seq<char>,
    position: Seq<char>,
    rule: Seq<Seq<char>>,
)
    requires
        forall|i: int| 0 <= i < front.len() ==> !inserts(#[trigger] front[i]),
        op == "-I"@ || op == "-A"@,
    ensures
        is_position(position) ==> deletion(front + seq![op] + (seq![chain, position] + rule))
            == front + seq!["-D"@, chain] + rule,
        rule.len() > 0 && !is_position(rule[0]) ==> deletion(front + seq![op] + (seq![chain] + rule))
            == front + seq!["-D"@, chain] + rule,
        deletion(front + seq![op] + seq![chain]) == front + seq!["-D"@, chain],
        deletion(front) == front,
{
    let i = front.len() as int;
    lemma_operation_index(front, op, seq![chain, position] + rule);
    lemma_operation_index(front, op, seq![chain] + rule);
    lemma_operation_index(front, op, seq![chain]);
    let a = front + seq![op] + (seq![chain, position] + rule);
    assert(a[i + 2] == position);
    assert(a.update(i, "-D"@).remove(i + 2) =~= front + seq!["-D"@, chain] + rule);
    let b = front + seq![op] + (seq![chain] + rule);
    if rule.len() > 0 {
        assert(b[i + 2] == rule[0]);
        assert(b.update(i, "-D"@) =~= front + seq!["-D"@, chain] + rule);
    }
    let c = front + seq![op] + seq![chain];
    assert(c.update(i, "-D"@) =~= front + seq!["-D"@, chain]);
}

/// Questions for names are let through to the address at which rootless Podman networks ask
/// where the daemon listens on the port for names, and to the host itself where it listens on
/// another one.
pub proof fn questions_go_where_the_daemon_listens(dns_port: u16)
    ensures
        dns_port == 53 ==> dns_destination(dns_port) == "198.18.0.1/32"@,
        dns_port != 53 ==> dns_destination(dns_port) == "127.0.0.1/32"@,
{
}

/// The comments of two rules of a network are different where their labels are, and so are those
/// of two networks where their names are of the same length and different.
pub proof fn comments_tell_rules_apart(
    name: Seq<char>,
    other: Seq<char>,
    label: Seq<char>,
    another: Seq<char>,
)
    ensures
        comment(name, label) == comment(name, another) ==> label == another,
        name.len() == other.len() && comment(name, label) == comment(other, label) ==> name
            == other,
        begins(comment(name, label), "dockerwall:"@ + name + ":"@),
{
    let head = "dockerwall:"@ + name + ":"@;
    let a = comment(name, label);
    assert(a =~= head + label);
    assert(a.take(head.len() as int) =~= head);
    assert(a.skip(head.len() as int) =~= label);
    assert(comment(name, another).skip(head.len() as int) =~= another);
    if name.len() == other.len() && comment(name, label) == comment(other, label) {
        let b = comment(other, label);
        let n = "dockerwall:"@.len() as int;
        assert(a.subrange(n, n + name.len()) =~= name);
        assert(b.subrange(n, n + name.len()) =~= other);
    }
}

} // verus!
