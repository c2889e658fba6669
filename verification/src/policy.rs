//! What the rules of a network come to: which packets leave it, and where questions for names
//! go.

use vstd::prelude::*;

use crate::addr::{in_subnet, IpAddr, Ipv4Addr};
use crate::daemon::{
    after_creation, created_set_gets_what_it_allows, gave, in_step,
    kernel_holds_what_the_daemon_does, DaemonModel, ResponseModel,
};
use crate::firewall::{
    a_chain_comes_to_exist, action, after_task, all_placed, all_settled, chains_stay,
    each_chain_has_its_head, fate, insertion_of, leads, lemma_destination, lemma_destination_port,
    lemma_filter_rule, lemma_interface, lemma_jump, lemma_module, lemma_nat_rule,
    lemma_one_more_chain, lemma_positions, lemma_protocol, lemma_reaches_further, lemma_remark,
    lemma_set, lemma_source, lemma_source_port, lemma_state, new_chain, others, reaches, replayed,
    rules_come_to_stand, separate, settle, settling_again_changes_nothing, ChainId, Firewall, Head,
    Packet, Placement,
};
use crate::ipset::Sets;
use crate::network::PlanModel;
use crate::rules::{
    comment, docker_allow, docker_dns, docker_drop, docker_established,
    dns_destination, docker_rules, podman_allow, podman_drop, podman_established, podman_hook,
    podman_masquerade, podman_output_rules, podman_query, podman_redirect, podman_redirects,
    podman_response, podman_response_source, podman_rules, PODMAN_OUTPUT_CHAIN, ROOTLESS_DNS_CIDR,
};
use crate::tasks::{podman_chain_tasks, rule_tasks, Phase, TaskModel, WorkerModel};
use crate::text::{decimal, numeral};

verus! {

/// The chain that Docker passes forwarded packets through first.
pub open spec fn docker_user() -> ChainId {
    ChainId { table: "filter"@, chain: "DOCKER-USER"@ }
}

/// The chain that translates the destinations of packets that come in.
pub open spec fn prerouting() -> ChainId {
    ChainId { table: "nat"@, chain: "PREROUTING"@ }
}

/// The rules of a Docker network that decide which packets go through, as they stand in their
/// chain.
pub open spec fn docker_filter(plan: PlanModel) -> Seq<Seq<Seq<char>>> {
    seq![
        docker_established().skip(3), docker_allow(plan).skip(3), docker_drop(plan).skip(3),
    ]
}

proof fn lemma_docker_filter_differs(plan: PlanModel)
    ensures
        docker_filter(plan).no_duplicates(),
{
    let b = docker_filter(plan);
    assert(b[0].len() == 10 && b[1].len() == 13 && b[2].len() == 8);
}

proof fn lemma_docker_filter_leads(plan: PlanModel)
    ensures
        leads(docker_rules(plan).take(3), docker_heads(plan)[0]),
{
    reveal(leads);
    let rules = docker_rules(plan).take(3);
    let bodies = docker_filter(plan);
    lemma_docker_filter_differs(plan);
    lemma_positions();
    lemma_filter_rule(docker_established(), 1);
    lemma_filter_rule(docker_allow(plan), 2);
    lemma_filter_rule(docker_drop(plan), 3);
    assert(rules =~= seq![docker_established(), docker_allow(plan), docker_drop(plan)]);
    assert forall|k: int| 0 <= k < rules.len() implies insertion_of(#[trigger] rules[k]) == Some(
        Placement { id: docker_user(), position: (k + 1) as nat, rule: bodies[k] },
    ) by {
        assert(k == 0 || k == 1 || k == 2);
    }
}

/// The rule that sends the questions for names of a Docker network to the daemon, as it stands
/// in its chain.
pub open spec fn docker_dns_rule(plan: PlanModel, protocol: Seq<char>) -> Seq<Seq<char>> {
    docker_dns(plan, protocol).skip(4)
}

/// The rules that send the questions for names of a Docker network to the daemon, as they stand
/// in their chain.
pub open spec fn docker_questions(plan: PlanModel) -> Seq<Seq<Seq<char>>> {
    seq![docker_dns_rule(plan, "tcp"@), docker_dns_rule(plan, "udp"@)]
}

proof fn lemma_docker_question_leads(plan: PlanModel)
    ensures
        leads(docker_rules(plan).skip(3), docker_heads(plan)[1]),
{
    reveal(leads);
    let rules = docker_rules(plan).skip(3);
    let (a, b) = (docker_dns(plan, "udp"@), docker_dns(plan, "tcp"@));
    assert(rules =~= seq![a, b]);
    let udp = docker_dns_rule(plan, "udp"@);
    let tcp = docker_dns_rule(plan, "tcp"@);
    assert(docker_questions(plan).reverse() =~= seq![udp, tcp]);
    reveal_strlit("udp");
    reveal_strlit("tcp");
    assert("udp"@[0] != "tcp"@[0]);
    assert(udp[7] == "udp"@ && tcp[7] == "tcp"@);
    reveal_strlit("-m");
    reveal_strlit("1");
    assert("-m"@.len() != "1"@.len());
    lemma_nat_rule(a);
    lemma_nat_rule(b);
}

/// The rules of a Docker network as they stand at the heads of their chains.
pub open spec fn docker_heads(plan: PlanModel) -> Seq<Head> {
    seq![
        Head { id: docker_user(), front: docker_filter(plan) },
        Head { id: prerouting(), front: docker_questions(plan) },
    ]
}

/// The chains after the rules of a Docker network were put in.
pub open spec fn docker_firewall(f: Firewall, plan: PlanModel) -> Firewall {
    all_settled(f, docker_heads(plan))
}

proof fn lemma_docker_placed(f: Firewall, plan: PlanModel)
    requires
        f.chains.contains_key(docker_user()),
        f.chains.contains_key(prerouting()),
    ensures
        settle(f, docker_rules(plan), docker_heads(plan)),
{
    let rules = docker_rules(plan);
    let (filters, questions) = (rules.take(3), rules.skip(3));
    let none = Seq::<Seq<Seq<char>>>::empty();
    let (first, second) = (docker_heads(plan)[0], docker_heads(plan)[1]);
    lemma_docker_filter_leads(plan);
    lemma_docker_question_leads(plan);
    assert(settle(f, none, seq![]));
    lemma_one_more_chain(f, none, seq![], filters, first);
    assert(none + filters =~= filters);
    lemma_one_more_chain(f, filters, seq![].push(first), questions, second);
    assert(filters + questions =~= rules);
    assert(seq![].push(first).push(second) =~= docker_heads(plan));
}

proof fn lemma_docker_separate(plan: PlanModel)
    ensures
        separate(docker_heads(plan)),
{
    lemma_docker_chains_differ();
}

proof fn lemma_docker_chains_differ()
    ensures
        docker_user() != prerouting(),
{
    reveal_strlit("filter");
    reveal_strlit("nat");
    assert("filter"@.len() != "nat"@.len());
}

/// Whatever the chains held before: the tasks that put the rules of a Docker network in are
/// done after some number of commands. Then the rules stand at the heads of their chains, in
/// their order and each once.
pub proof fn docker_rules_come_to_stand(
    w: WorkerModel,
    f: Firewall,
    path: Seq<char>,
    plan: PlanModel,
    rest: Seq<TaskModel>,
)
    requires
        w.tasks == rule_tasks(path, docker_rules(plan)) + rest,
        w.phase == Phase::Start,
        f.chains.contains_key(docker_user()),
        f.chains.contains_key(prerouting()),
    ensures
        exists|n: nat| reaches(w, f, n, rest, docker_firewall(f, plan)),
{
    lemma_docker_placed(f, plan);
    rules_come_to_stand(w, f, path, docker_rules(plan), rest);
    assert(all_placed(f, docker_rules(plan)) == docker_firewall(f, plan));
}

/// The rules of a Docker network that are put in a second time stand as they stood: each once,
/// at its place.
pub proof fn docker_rules_put_in_again_change_nothing(f: Firewall, plan: PlanModel)
    requires
        f.chains.contains_key(docker_user()),
        f.chains.contains_key(prerouting()),
    ensures
        ({
            let rules = docker_rules(plan);
            all_placed(all_placed(f, rules), rules) == all_placed(f, rules)
        }),
{
    let all = docker_heads(plan);
    lemma_docker_placed(f, plan);
    chains_stay(f, all, docker_user());
    chains_stay(f, all, prerouting());
    lemma_docker_placed(all_settled(f, all), plan);
    lemma_docker_separate(plan);
    settling_again_changes_nothing(f, all);
}

/// The tasks that put the rules of a Docker network in, run where they were run before, are done
/// after some number of commands and leave every chain as it was.
pub proof fn docker_rules_come_to_stand_again(
    w: WorkerModel,
    f: Firewall,
    path: Seq<char>,
    plan: PlanModel,
    rest: Seq<TaskModel>,
)
    requires
        w.tasks == rule_tasks(path, docker_rules(plan)) + rest,
        w.phase == Phase::Start,
        f.chains.contains_key(docker_user()),
        f.chains.contains_key(prerouting()),
    ensures
        ({
            let g = docker_firewall(f, plan);
            exists|n: nat| reaches(w, g, n, rest, g)
        }),
{
    let g = docker_firewall(f, plan);
    chains_stay(f, docker_heads(plan), docker_user());
    chains_stay(f, docker_heads(plan), prerouting());
    docker_rules_come_to_stand(w, g, path, plan, rest);
    lemma_docker_separate(plan);
    settling_again_changes_nothing(f, docker_heads(plan));
}

/// The action of a rule that lets a packet through.
pub open spec fn accept() -> Seq<Seq<char>> {
    seq!["ACCEPT"@]
}

/// The action of a rule that drops a packet.
pub open spec fn discard() -> Seq<Seq<char>> {
    seq!["DROP"@]
}

/// `a` where `c` holds.
pub open spec fn action_if(c: bool, a: Seq<Seq<char>>) -> Option<Seq<Seq<char>>> {
    if c {
        Some(a)
    } else {
        None
    }
}

proof fn lemma_accept(packet: Packet, ipsets: Sets)
    ensures
        action(seq!["-j"@, "ACCEPT"@], packet, ipsets) == Some(accept()),
{
    lemma_jump("ACCEPT"@, seq![], packet, ipsets);
    assert(seq!["-j"@, "ACCEPT"@] + seq![] =~= seq!["-j"@, "ACCEPT"@]);
    assert(seq!["ACCEPT"@] + seq![] =~= accept());
}

proof fn lemma_discard(packet: Packet, ipsets: Sets)
    ensures
        action(seq!["-j"@, "DROP"@], packet, ipsets) == Some(discard()),
{
    lemma_jump("DROP"@, seq![], packet, ipsets);
    assert(seq!["-j"@, "DROP"@] + seq![] =~= seq!["-j"@, "DROP"@]);
    assert(seq!["DROP"@] + seq![] =~= discard());
}

proof fn lemma_docker_established_action(packet: Packet, ipsets: Sets)
    ensures
        action(docker_established().skip(3), packet, ipsets) == action_if(
            packet.established,
            accept(),
        ),
{
    let jump = seq!["-j"@, "ACCEPT"@];
    let state = seq!["--ctstate"@, "ESTABLISHED,RELATED"@] + jump;
    let module = seq!["-m"@, "conntrack"@] + state;
    let text = "dockerwall:established"@;
    lemma_accept(packet, ipsets);
    lemma_state("ESTABLISHED,RELATED"@, jump, packet, ipsets);
    lemma_module("conntrack"@, state, packet, ipsets);
    lemma_remark(text, module, packet, ipsets);
    assert(docker_established().skip(3) =~= seq!["-m"@, "comment"@, "--comment"@, text] + module);
}

proof fn lemma_docker_allow_action(plan: PlanModel, packet: Packet, ipsets: Sets)
    ensures
        action(docker_allow(plan).skip(3), packet, ipsets) == action_if(
            in_subnet(packet.source, plan.subnet) && ipsets.has(plan.name, packet.destination),
            accept(),
        ),
{
    let jump = seq!["-j"@, "ACCEPT"@];
    let set = seq!["--match-set"@, plan.name, "dst"@] + jump;
    let module = seq!["-m"@, "set"@] + set;
    let source = seq!["-s"@, plan.subnet] + module;
    let text = comment(plan.name, "allow"@);
    lemma_accept(packet, ipsets);
    lemma_set(plan.name, jump, packet, ipsets);
    lemma_module("set"@, set, packet, ipsets);
    lemma_source(plan.subnet, module, packet, ipsets);
    lemma_remark(text, source, packet, ipsets);
    assert(docker_allow(plan).skip(3) =~= seq!["-m"@, "comment"@, "--comment"@, text] + source);
}

proof fn lemma_docker_drop_action(plan: PlanModel, packet: Packet, ipsets: Sets)
    ensures
        action(docker_drop(plan).skip(3), packet, ipsets) == action_if(
            in_subnet(packet.source, plan.subnet),
            discard(),
        ),
{
    let jump = seq!["-j"@, "DROP"@];
    let source = seq!["-s"@, plan.subnet] + jump;
    let text = comment(plan.name, "drop"@);
    lemma_discard(packet, ipsets);
    lemma_source(plan.subnet, jump, packet, ipsets);
    lemma_remark(text, source, packet, ipsets);
    assert(docker_drop(plan).skip(3) =~= seq!["-m"@, "comment"@, "--comment"@, text] + source);
}

proof fn lemma_docker_filter_fate(plan: PlanModel, packet: Packet, ipsets: Sets)
    ensures
        fate(docker_filter(plan), packet, ipsets) == if packet.established {
            Some(accept())
        } else if !in_subnet(packet.source, plan.subnet) {
            None
        } else if ipsets.has(plan.name, packet.destination) {
            Some(accept())
        } else {
            Some(discard())
        },
{
    let rules = docker_filter(plan);
    lemma_docker_established_action(packet, ipsets);
    lemma_docker_allow_action(plan, packet, ipsets);
    lemma_docker_drop_action(plan, packet, ipsets);
    assert(rules.skip(1).skip(1) =~= rules.skip(2));
    reveal_with_fuel(fate, 4);
}

/// A packet from a Docker network whose rules stand goes through if and only if it belongs to
/// a connection that was accepted before, or if its destination is in the ipset of the network.
/// Any other packet from the network is dropped. What happens to packets from elsewhere is as
/// before, but for those of accepted connections.
pub proof fn docker_network_is_denied_by_default(
    f: Firewall,
    plan: PlanModel,
    packet: Packet,
    ipsets: Sets,
)
    ensures
        ({
            let rules = docker_firewall(f, plan).chains[docker_user()];
            let before = others(f.chains[docker_user()], docker_filter(plan));
            fate(rules, packet, ipsets) == if packet.established {
                Some(accept())
            } else if !in_subnet(packet.source, plan.subnet) {
                fate(before, packet, ipsets)
            } else if ipsets.has(plan.name, packet.destination) {
                Some(accept())
            } else {
                Some(discard())
            }
        }),
{
    let bodies = docker_filter(plan);
    let before = others(f.chains[docker_user()], bodies);
    lemma_docker_separate(plan);
    each_chain_has_its_head(f, docker_heads(plan), 0);
    lemma_docker_filter_fate(plan, packet, ipsets);
    lemma_fate_of_heads(bodies, before, packet, ipsets);
}

proof fn lemma_docker_dns_action(
    plan: PlanModel,
    protocol: Seq<char>,
    packet: Packet,
    ipsets: Sets,
)
    ensures
        action(docker_dns_rule(plan, protocol), packet, ipsets) == action_if(
            in_subnet(packet.source, plan.subnet) && packet.protocol == protocol && decimal(
                packet.destination_port,
            ) == "53"@,
            to_daemon(plan),
        ),
{
    let target = seq!["--to-destination"@, plan.gateway + ":"@ + decimal(plan.dns_port as nat)];
    let jump = seq!["-j"@, "DNAT"@] + target;
    let port = seq!["--dport"@, "53"@] + jump;
    let kind = seq!["-p"@, protocol] + port;
    let source = seq!["-s"@, plan.subnet] + kind;
    let text = comment(plan.name, "dns-"@ + protocol);
    lemma_jump("DNAT"@, target, packet, ipsets);
    assert(seq!["DNAT"@] + target =~= to_daemon(plan));
    lemma_destination_port("53"@, jump, packet, ipsets);
    lemma_protocol(protocol, port, packet, ipsets);
    lemma_source(plan.subnet, kind, packet, ipsets);
    lemma_remark(text, source, packet, ipsets);
    assert(docker_dns_rule(plan, protocol) =~= seq!["-m"@, "comment"@, "--comment"@, text]
        + source);
}

/// The action of a rule that sends a packet to the daemon.
pub open spec fn to_daemon(plan: PlanModel) -> Seq<Seq<char>> {
    seq![
        "DNAT"@, "--to-destination"@, plan.gateway + ":"@ + decimal(plan.dns_port as nat),
    ]
}

/// Every question for a name from a Docker network whose rules stand goes to the daemon, over
/// UDP and over TCP, whichever server it asks.
pub proof fn docker_questions_go_to_the_daemon(
    f: Firewall,
    plan: PlanModel,
    packet: Packet,
    ipsets: Sets,
)
    requires
        in_subnet(packet.source, plan.subnet),
        packet.protocol == "udp"@ || packet.protocol == "tcp"@,
        packet.destination_port == 53,
    ensures
        fate(docker_firewall(f, plan).chains[prerouting()], packet, ipsets) == Some(
            to_daemon(plan),
        ),
{
    reveal_strlit("53");
    reveal_with_fuel(numeral, 3);
    assert(decimal(53) =~= "53"@);
    lemma_docker_dns_action(plan, "udp"@, packet, ipsets);
    lemma_docker_dns_action(plan, "tcp"@, packet, ipsets);
    let questions = docker_questions(plan);
    assert(fate(questions, packet, ipsets) == Some(to_daemon(plan))) by {
        assert(questions.skip(1)[0] == docker_dns_rule(plan, "udp"@));
        reveal_with_fuel(fate, 3);
    }
    lemma_docker_separate(plan);
    each_chain_has_its_head(f, docker_heads(plan), 1);
    lemma_fate_of_heads(questions, others(f.chains[prerouting()], questions), packet, ipsets);
}

// ---------------------------------------------------------------------------
// Rootless Podman

/// The chain that packets of the host go through.
pub open spec fn output() -> ChainId {
    ChainId { table: "filter"@, chain: "OUTPUT"@ }
}

/// The chain that packets of rootless Podman networks go through.
pub open spec fn podman_output() -> ChainId {
    ChainId { table: "filter"@, chain: PODMAN_OUTPUT_CHAIN@ }
}

/// A chain that translates addresses.
pub open spec fn translation(chain: Seq<char>) -> ChainId {
    ChainId { table: "nat"@, chain }
}

/// Whether the chains of the host are there that the rules of rootless Podman networks stand in.
pub open spec fn has_host_chains(f: Firewall) -> bool {
    &&& f.chains.contains_key(output())
    &&& f.chains.contains_key(translation("OUTPUT"@))
    &&& f.chains.contains_key(translation("PREROUTING"@))
    &&& f.chains.contains_key(translation("POSTROUTING"@))
}

/// Whether the chains are there that the rules of rootless Podman networks stand in.
pub open spec fn has_podman_chains(f: Firewall) -> bool {
    has_host_chains(f) && f.chains.contains_key(podman_output())
}

/// The rules of a rootless Podman network that decide which packets go through, as they stand
/// in their chain.
pub open spec fn podman_filter(name: Seq<char>, cidr: Seq<char>, dns_port: u16) -> Seq<
    Seq<Seq<char>>,
> {
    seq![
        podman_established(name, cidr).skip(3),
        podman_query(name, cidr, dns_port, "2"@, "udp"@).skip(3),
        podman_query(name, cidr, dns_port, "3"@, "tcp"@).skip(3),
        podman_response(name, cidr, dns_port, "4"@, "udp"@).skip(3),
        podman_response(name, cidr, dns_port, "5"@, "tcp"@).skip(3),
        podman_allow(name, cidr).skip(3),
        podman_drop(name, cidr).skip(3),
    ]
}

proof fn lemma_podman_filter_differs(name: Seq<char>, cidr: Seq<char>, dns_port: u16)
    ensures
        podman_filter(name, cidr, dns_port).no_duplicates(),
{
    reveal_strlit("-m");
    reveal_strlit("-d");
    reveal_strlit("udp");
    reveal_strlit("tcp");
    reveal_strlit("--dport");
    reveal_strlit("--sport");
    assert("-m"@[1] != "-d"@[1]);
    assert("udp"@[0] != "tcp"@[0]);
    assert("--dport"@[2] != "--sport"@[2]);
    let b = podman_filter(name, cidr, dns_port);
    assert(b[0].len() == 12 && b[1].len() == 14 && b[2].len() == 14 && b[3].len() == 14
        && b[4].len() == 14 && b[5].len() == 13 && b[6].len() == 8);
    assert(b[1][5] == "udp"@ && b[2][5] == "tcp"@ && b[3][5] == "udp"@ && b[4][5] == "tcp"@);
    assert(b[1][6] == "--dport"@ && b[2][6] == "--dport"@ && b[3][6] == "--sport"@ && b[4][6]
        == "--sport"@);
}

proof fn lemma_podman_filter_leads(name: Seq<char>, cidr: Seq<char>, dns_port: u16)
    ensures
        leads(
            podman_output_rules(name, cidr, dns_port),
            podman_filter_head(name, cidr, dns_port),
        ),
{
    reveal(leads);
    let rules = podman_output_rules(name, cidr, dns_port);
    let bodies = podman_filter(name, cidr, dns_port);
    lemma_podman_filter_differs(name, cidr, dns_port);
    lemma_positions();
    lemma_filter_rule(rules[0], 1);
    lemma_filter_rule(rules[1], 2);
    lemma_filter_rule(rules[2], 3);
    lemma_filter_rule(rules[3], 4);
    lemma_filter_rule(rules[4], 5);
    lemma_filter_rule(rules[5], 6);
    lemma_filter_rule(rules[6], 7);
    assert forall|k: int| 0 <= k < rules.len() implies insertion_of(#[trigger] rules[k]) == Some(
        Placement { id: podman_output(), position: (k + 1) as nat, rule: bodies[k] },
    ) by {
        assert(k == 0 || k == 1 || k == 2 || k == 3 || k == 4 || k == 5 || k == 6);
    }
}

/// The rules that send the questions for names of a rootless Podman network to the daemon, as
/// they stand in a chain.
pub open spec fn podman_questions(
    name: Seq<char>,
    cidr: Seq<char>,
    dns_port: u16,
    chain: Seq<char>,
) -> Seq<Seq<Seq<char>>> {
    seq![
        podman_redirect(name, cidr, dns_port, chain, "tcp"@).skip(5),
        podman_redirect(name, cidr, dns_port, chain, "udp"@).skip(5),
    ]
}

/// The rules of a rootless Podman network that translate the sources of packets, as they stand
/// in their chain.
pub open spec fn podman_sources(
    name: Seq<char>,
    cidr: Seq<char>,
    interface: Seq<char>,
    dns_port: u16,
) -> Seq<Seq<Seq<char>>> {
    let masquerade = podman_masquerade(name, cidr, interface).skip(5);
    if dns_port == 53 {
        seq![masquerade]
    } else {
        seq![
            masquerade, podman_response_source(name, cidr, dns_port, "tcp"@).skip(5),
            podman_response_source(name, cidr, dns_port, "udp"@).skip(5),
        ]
    }
}

/// The rules of a rootless Podman network as they stand at the heads of their chains. Where the
/// daemon listens on the port for names there are none that send questions to another port.
pub open spec fn podman_heads(
    name: Seq<char>,
    cidr: Seq<char>,
    interface: Seq<char>,
    dns_port: u16,
) -> Seq<Head> {
    if dns_port == 53 {
        seq![
            podman_hook_head(name, cidr), podman_filter_head(name, cidr, dns_port),
            podman_source_head(name, cidr, interface, dns_port),
        ]
    } else {
        seq![
            podman_hook_head(name, cidr), podman_filter_head(name, cidr, dns_port),
            podman_question_head(name, cidr, dns_port, "OUTPUT"@),
            podman_question_head(name, cidr, dns_port, "PREROUTING"@),
            podman_source_head(name, cidr, interface, dns_port),
        ]
    }
}

/// The rule that leads the packets of a rootless Podman network to their chain, at the head of
/// the host's output chain.
pub open spec fn podman_hook_head(name: Seq<char>, cidr: Seq<char>) -> Head {
    Head { id: output(), front: seq![podman_hook(name, cidr).skip(3)] }
}

/// The rules that decide which packets of a rootless Podman network go through, at the head of
/// the chain for such networks.
pub open spec fn podman_filter_head(name: Seq<char>, cidr: Seq<char>, dns_port: u16) -> Head {
    Head { id: podman_output(), front: podman_filter(name, cidr, dns_port) }
}

/// The rules of a rootless Podman network that translate the sources of packets, at the head of
/// their chain.
pub open spec fn podman_source_head(
    name: Seq<char>,
    cidr: Seq<char>,
    interface: Seq<char>,
    dns_port: u16,
) -> Head {
    Head {
        id: translation("POSTROUTING"@),
        front: podman_sources(name, cidr, interface, dns_port),
    }
}

/// The rules that send the questions for names of a rootless Podman network to the daemon, at
/// the head of a chain.
pub open spec fn podman_question_head(
    name: Seq<char>,
    cidr: Seq<char>,
    dns_port: u16,
    chain: Seq<char>,
) -> Head {
    Head { id: translation(chain), front: podman_questions(name, cidr, dns_port, chain) }
}

/// The chains after the rules of a rootless Podman network were put in.
pub open spec fn podman_firewall(
    f: Firewall,
    name: Seq<char>,
    cidr: Seq<char>,
    interface: Seq<char>,
    dns_port: u16,
) -> Firewall {
    all_settled(f, podman_heads(name, cidr, interface, dns_port))
}

/// The rules that send the questions for names of a rootless Podman network to the daemon, in
/// the order in which they are put in.
spec fn podman_question_rules(
    name: Seq<char>,
    cidr: Seq<char>,
    dns_port: u16,
    chain: Seq<char>,
) -> Seq<Seq<Seq<char>>> {
    seq![
        podman_redirect(name, cidr, dns_port, chain, "udp"@),
        podman_redirect(name, cidr, dns_port, chain, "tcp"@),
    ]
}

proof fn lemma_podman_question_leads(
    name: Seq<char>,
    cidr: Seq<char>,
    dns_port: u16,
    chain: Seq<char>,
)
    ensures
        leads(
            podman_question_rules(name, cidr, dns_port, chain),
            podman_question_head(name, cidr, dns_port, chain),
        ),
{
    reveal(leads);
    let (a, b) = (
        podman_redirect(name, cidr, dns_port, chain, "udp"@),
        podman_redirect(name, cidr, dns_port, chain, "tcp"@),
    );
    assert(podman_questions(name, cidr, dns_port, chain).reverse() =~= seq![a.skip(5), b.skip(5)]);
    reveal_strlit("udp");
    reveal_strlit("tcp");
    assert("udp"@[0] != "tcp"@[0]);
    assert(a.skip(5)[5] == "udp"@ && b.skip(5)[5] == "tcp"@);
    lemma_nat_rule(a);
    lemma_nat_rule(b);
}

/// The rules of a rootless Podman network that translate the sources of packets, in the order in
/// which they are put in.
spec fn podman_source_rules(
    name: Seq<char>,
    cidr: Seq<char>,
    interface: Seq<char>,
    dns_port: u16,
) -> Seq<Seq<Seq<char>>> {
    if dns_port == 53 {
        seq![podman_masquerade(name, cidr, interface)]
    } else {
        seq![
            podman_response_source(name, cidr, dns_port, "udp"@),
            podman_response_source(name, cidr, dns_port, "tcp"@),
            podman_masquerade(name, cidr, interface),
        ]
    }
}

proof fn lemma_podman_source_leads(
    name: Seq<char>,
    cidr: Seq<char>,
    interface: Seq<char>,
    dns_port: u16,
)
    ensures
        leads(
            podman_source_rules(name, cidr, interface, dns_port),
            podman_source_head(name, cidr, interface, dns_port),
        ),
{
    reveal(leads);
    let (a, b, c) = (
        podman_response_source(name, cidr, dns_port, "udp"@),
        podman_response_source(name, cidr, dns_port, "tcp"@),
        podman_masquerade(name, cidr, interface),
    );
    let bodies = podman_sources(name, cidr, interface, dns_port).reverse();
    reveal_strlit("udp");
    reveal_strlit("tcp");
    assert("udp"@[0] != "tcp"@[0]);
    assert(a.skip(5)[5] == "udp"@ && b.skip(5)[5] == "tcp"@);
    assert(a.skip(5).len() == 16 && b.skip(5).len() == 16 && c.skip(5).len() == 10);
    lemma_nat_rule(a);
    lemma_nat_rule(b);
    lemma_nat_rule(c);
    if dns_port == 53 {
        assert(bodies =~= seq![c.skip(5)]);
    } else {
        assert(bodies =~= seq![a.skip(5), b.skip(5), c.skip(5)]);
    }
}

/// The rules of a rootless Podman network are those of its chains one after the other.
proof fn lemma_podman_rules_by_chain(
    name: Seq<char>,
    cidr: Seq<char>,
    interface: Seq<char>,
    dns_port: u16,
)
    ensures
        ({
            let filters = seq![podman_hook(name, cidr)] + podman_output_rules(name, cidr, dns_port);
            let sources = podman_source_rules(name, cidr, interface, dns_port);
            podman_rules(name, cidr, interface, dns_port) == if dns_port == 53 {
                filters + sources
            } else {
                filters + podman_question_rules(name, cidr, dns_port, "OUTPUT"@)
                    + podman_question_rules(name, cidr, dns_port, "PREROUTING"@) + sources
            }
        }),
{
    let filters = seq![podman_hook(name, cidr)] + podman_output_rules(name, cidr, dns_port);
    let sources = podman_source_rules(name, cidr, interface, dns_port);
    if dns_port == 53 {
        assert(filters + seq![] + sources =~= filters + sources);
    } else {
        let asked = podman_question_rules(name, cidr, dns_port, "OUTPUT"@);
        let passed = podman_question_rules(name, cidr, dns_port, "PREROUTING"@);
        let redirects = podman_redirects(name, cidr, dns_port);
        let masquerade = seq![podman_masquerade(name, cidr, interface)];
        assert(redirects + masquerade =~= asked + passed + sources);
        assert(filters + redirects + masquerade =~= filters + (redirects + masquerade));
        assert(filters + asked + passed + sources =~= filters + (asked + passed + sources));
    }
}

/// Rules of three chains come to stand at their heads.
proof fn lemma_three_chains(
    f: Firewall,
    a: Seq<Seq<Seq<char>>>,
    b: Seq<Seq<Seq<char>>>,
    c: Seq<Seq<Seq<char>>>,
    all: Seq<Head>,
)
    requires
        all.len() == 3,
        leads(a, all[0]),
        leads(b, all[1]),
        leads(c, all[2]),
        f.chains.contains_key(all[0].id),
        f.chains.contains_key(all[1].id),
        f.chains.contains_key(all[2].id),
    ensures
        settle(f, a + b + c, all),
{
    let none = Seq::<Seq<Seq<char>>>::empty();
    let heads = Seq::<Head>::empty();
    assert(settle(f, none, heads));
    lemma_one_more_chain(f, none, heads, a, all[0]);
    assert(none + a =~= a);
    let one = heads.push(all[0]);
    lemma_one_more_chain(f, a, one, b, all[1]);
    let two = one.push(all[1]);
    lemma_one_more_chain(f, a + b, two, c, all[2]);
    assert(two.push(all[2]) =~= all);
}

/// Rules of five chains come to stand at their heads.
proof fn lemma_five_chains(
    f: Firewall,
    a: Seq<Seq<Seq<char>>>,
    b: Seq<Seq<Seq<char>>>,
    c: Seq<Seq<Seq<char>>>,
    d: Seq<Seq<Seq<char>>>,
    e: Seq<Seq<Seq<char>>>,
    all: Seq<Head>,
)
    requires
        all.len() == 5,
        leads(a, all[0]),
        leads(b, all[1]),
        leads(c, all[2]),
        leads(d, all[3]),
        leads(e, all[4]),
        f.chains.contains_key(all[0].id),
        f.chains.contains_key(all[1].id),
        f.chains.contains_key(all[2].id),
        f.chains.contains_key(all[3].id),
        f.chains.contains_key(all[4].id),
    ensures
        settle(f, a + b + c + d + e, all),
{
    lemma_three_chains(f, a, b, c, all.take(3));
    lemma_one_more_chain(f, a + b + c, all.take(3), d, all[3]);
    assert(all.take(3).push(all[3]) =~= all.take(4));
    lemma_one_more_chain(f, a + b + c + d, all.take(4), e, all[4]);
    assert(all.take(4).push(all[4]) =~= all);
}

proof fn lemma_podman_short_placed(
    f: Firewall,
    name: Seq<char>,
    cidr: Seq<char>,
    interface: Seq<char>,
)
    requires
        has_podman_chains(f),
    ensures
        settle(f, podman_rules(name, cidr, interface, 53), podman_heads(name, cidr, interface, 53)),
{
    let hook = seq![podman_hook(name, cidr)];
    let filters = podman_output_rules(name, cidr, 53);
    let sources = podman_source_rules(name, cidr, interface, 53);
    let all = podman_heads(name, cidr, interface, 53);
    lemma_podman_hook_leads(name, cidr);
    lemma_podman_filter_leads(name, cidr, 53);
    lemma_podman_source_leads(name, cidr, interface, 53);
    lemma_podman_rules_by_chain(name, cidr, interface, 53);
    lemma_three_chains(f, hook, filters, sources, all);
}

/// The rules of a rootless Podman network, whose daemon does not listen on the port for names,
/// that stand in the chain of the head at place `k`.
#[verifier::opaque]
spec fn podman_part(
    k: int,
    name: Seq<char>,
    cidr: Seq<char>,
    interface: Seq<char>,
    dns_port: u16,
) -> Seq<Seq<Seq<char>>> {
    if k == 0 {
        seq![podman_hook(name, cidr)]
    } else if k == 1 {
        podman_output_rules(name, cidr, dns_port)
    } else if k == 2 {
        podman_question_rules(name, cidr, dns_port, "OUTPUT"@)
    } else if k == 3 {
        podman_question_rules(name, cidr, dns_port, "PREROUTING"@)
    } else {
        podman_source_rules(name, cidr, interface, dns_port)
    }
}

proof fn lemma_podman_part_leads(
    f: Firewall,
    k: int,
    name: Seq<char>,
    cidr: Seq<char>,
    interface: Seq<char>,
    dns_port: u16,
)
    requires
        has_podman_chains(f),
        dns_port != 53,
        0 <= k < 5,
    ensures
        ({
            let head = podman_heads(name, cidr, interface, dns_port)[k];
            &&& leads(podman_part(k, name, cidr, interface, dns_port), head)
            &&& f.chains.contains_key(head.id)
        }),
{
    reveal(podman_part);
    if k == 0 {
        lemma_podman_hook_leads(name, cidr);
    } else if k == 1 {
        lemma_podman_filter_leads(name, cidr, dns_port);
    } else if k == 2 {
        lemma_podman_question_leads(name, cidr, dns_port, "OUTPUT"@);
    } else if k == 3 {
        lemma_podman_question_leads(name, cidr, dns_port, "PREROUTING"@);
    } else {
        lemma_podman_source_leads(name, cidr, interface, dns_port);
    }
}

proof fn lemma_podman_parts(
    name: Seq<char>,
    cidr: Seq<char>,
    interface: Seq<char>,
    dns_port: u16,
)
    requires
        dns_port != 53,
    ensures
        podman_rules(name, cidr, interface, dns_port) == podman_part(
            0,
            name,
            cidr,
            interface,
            dns_port,
        ) + podman_part(1, name, cidr, interface, dns_port) + podman_part(
            2,
            name,
            cidr,
            interface,
            dns_port,
        ) + podman_part(3, name, cidr, interface, dns_port) + podman_part(
            4,
            name,
            cidr,
            interface,
            dns_port,
        ),
{
    reveal(podman_part);
    lemma_podman_rules_by_chain(name, cidr, interface, dns_port);
}

proof fn lemma_podman_long_placed(
    f: Firewall,
    name: Seq<char>,
    cidr: Seq<char>,
    interface: Seq<char>,
    dns_port: u16,
)
    requires
        has_podman_chains(f),
        dns_port != 53,
    ensures
        settle(
            f,
            podman_rules(name, cidr, interface, dns_port),
            podman_heads(name, cidr, interface, dns_port),
        ),
{
    lemma_podman_part_leads(f, 0, name, cidr, interface, dns_port);
    lemma_podman_part_leads(f, 1, name, cidr, interface, dns_port);
    lemma_podman_part_leads(f, 2, name, cidr, interface, dns_port);
    lemma_podman_part_leads(f, 3, name, cidr, interface, dns_port);
    lemma_podman_part_leads(f, 4, name, cidr, interface, dns_port);
    lemma_five_chains(
        f,
        podman_part(0, name, cidr, interface, dns_port),
        podman_part(1, name, cidr, interface, dns_port),
        podman_part(2, name, cidr, interface, dns_port),
        podman_part(3, name, cidr, interface, dns_port),
        podman_part(4, name, cidr, interface, dns_port),
        podman_heads(name, cidr, interface, dns_port),
    );
    lemma_podman_parts(name, cidr, interface, dns_port);
}

proof fn lemma_podman_placed(
    f: Firewall,
    name: Seq<char>,
    cidr: Seq<char>,
    interface: Seq<char>,
    dns_port: u16,
)
    requires
        has_podman_chains(f),
    ensures
        settle(
            f,
            podman_rules(name, cidr, interface, dns_port),
            podman_heads(name, cidr, interface, dns_port),
        ),
{
    if dns_port == 53 {
        lemma_podman_short_placed(f, name, cidr, interface);
    } else {
        lemma_podman_long_placed(f, name, cidr, interface, dns_port);
    }
}

proof fn lemma_podman_chains_differ()
    ensures
        output() != podman_output(),
        output().table != translation("OUTPUT"@).table,
        translation("OUTPUT"@) != translation("PREROUTING"@),
        translation("OUTPUT"@) != translation("POSTROUTING"@),
        translation("PREROUTING"@) != translation("POSTROUTING"@),
{
    reveal_strlit("filter");
    reveal_strlit("nat");
    reveal_strlit("OUTPUT");
    reveal_strlit("PREROUTING");
    reveal_strlit("POSTROUTING");
    reveal_strlit("DOCKERWALL-OUTPUT");
    assert("filter"@.len() == 6 && "nat"@.len() == 3);
    assert("OUTPUT"@.len() == 6 && "PREROUTING"@.len() == 10 && "POSTROUTING"@.len() == 11
        && PODMAN_OUTPUT_CHAIN@.len() == 17);
}

proof fn lemma_podman_hook_leads(name: Seq<char>, cidr: Seq<char>)
    ensures
        leads(seq![podman_hook(name, cidr)], podman_hook_head(name, cidr)),
{
    reveal(leads);
    lemma_positions();
    lemma_filter_rule(podman_hook(name, cidr), 1);
}

proof fn lemma_podman_separate(
    name: Seq<char>,
    cidr: Seq<char>,
    interface: Seq<char>,
    dns_port: u16,
)
    ensures
        separate(podman_heads(name, cidr, interface, dns_port)),
{
    lemma_podman_chains_differ();
}

/// The chains with the one for rootless Podman networks among them.
pub open spec fn with_podman_chain(f: Firewall) -> Firewall {
    match new_chain(f, podman_output()) {
        Some(g) => g,
        None => f,
    }
}

/// Whatever the chains held before, and whether or not the chain for rootless Podman networks
/// was there: the tasks that put the rules of such a network in are done after some number of
/// commands. Then the rules stand at the heads of their chains, in their order and each once.
pub proof fn podman_rules_come_to_stand(
    w: WorkerModel,
    f: Firewall,
    path: Seq<char>,
    name: Seq<char>,
    cidr: Seq<char>,
    interface: Seq<char>,
    dns_port: u16,
    rest: Seq<TaskModel>,
)
    requires
        w.tasks == podman_chain_tasks(path, name, cidr, interface, dns_port) + rest,
        w.phase == Phase::Start,
        has_host_chains(f),
    ensures
        exists|n: nat|
            reaches(
                w,
                f,
                n,
                rest,
                podman_firewall(with_podman_chain(f), name, cidr, interface, dns_port),
            ),
{
    let rules = podman_rules(name, cidr, interface, dns_port);
    let g = with_podman_chain(f);
    let h = podman_firewall(g, name, cidr, interface, dns_port);
    let v = after_task(w);
    a_chain_comes_to_exist(w, f, path, PODMAN_OUTPUT_CHAIN@);
    let k: nat = if f.chains.contains_key(podman_output()) {
        2
    } else {
        1
    };
    assert(replayed(w, f, k) == (Ok::<WorkerModel, Seq<char>>(v), g));
    assert(v.tasks =~= rule_tasks(path, rules) + rest);
    lemma_podman_placed(g, name, cidr, interface, dns_port);
    rules_come_to_stand(v, g, path, rules, rest);
    let n = choose|n: nat| reaches(v, g, n, rest, h);
    lemma_reaches_further(w, f, k, v, g, n, rest, h);
}

proof fn lemma_podman_settles(
    f: Firewall,
    name: Seq<char>,
    cidr: Seq<char>,
    interface: Seq<char>,
    dns_port: u16,
)
    requires
        has_podman_chains(f),
    ensures
        ({
            let g = podman_firewall(f, name, cidr, interface, dns_port);
            &&& has_podman_chains(g)
            &&& podman_firewall(g, name, cidr, interface, dns_port) == g
        }),
{
    let all = podman_heads(name, cidr, interface, dns_port);
    lemma_podman_separate(name, cidr, interface, dns_port);
    settling_again_changes_nothing(f, all);
    chains_stay(f, all, output());
    chains_stay(f, all, podman_output());
    chains_stay(f, all, translation("OUTPUT"@));
    chains_stay(f, all, translation("PREROUTING"@));
    chains_stay(f, all, translation("POSTROUTING"@));
}

/// The rules of a rootless Podman network that are put in a second time stand as they stood:
/// each once, at its place.
pub proof fn podman_rules_put_in_again_change_nothing(
    f: Firewall,
    name: Seq<char>,
    cidr: Seq<char>,
    interface: Seq<char>,
    dns_port: u16,
)
    requires
        has_podman_chains(f),
    ensures
        ({
            let rules = podman_rules(name, cidr, interface, dns_port);
            all_placed(all_placed(f, rules), rules) == all_placed(f, rules)
        }),
{
    let g = podman_firewall(f, name, cidr, interface, dns_port);
    lemma_podman_settles(f, name, cidr, interface, dns_port);
    lemma_podman_placed(f, name, cidr, interface, dns_port);
    lemma_podman_placed(g, name, cidr, interface, dns_port);
}

/// The tasks that put the rules of a rootless Podman network in, run where they were run before,
/// are done after some number of commands and leave every chain as it was. That the chain for
/// such networks is there is no failure.
pub proof fn podman_rules_come_to_stand_again(
    w: WorkerModel,
    f: Firewall,
    path: Seq<char>,
    name: Seq<char>,
    cidr: Seq<char>,
    interface: Seq<char>,
    dns_port: u16,
    rest: Seq<TaskModel>,
)
    requires
        w.tasks == podman_chain_tasks(path, name, cidr, interface, dns_port) + rest,
        w.phase == Phase::Start,
        has_host_chains(f),
    ensures
        ({
            let g = podman_firewall(with_podman_chain(f), name, cidr, interface, dns_port);
            exists|n: nat| reaches(w, g, n, rest, g)
        }),
{
    let g = podman_firewall(with_podman_chain(f), name, cidr, interface, dns_port);
    lemma_podman_settles(with_podman_chain(f), name, cidr, interface, dns_port);
    podman_rules_come_to_stand(w, g, path, name, cidr, interface, dns_port, rest);
}

proof fn lemma_podman_established_action(
    name: Seq<char>,
    cidr: Seq<char>,
    packet: Packet,
    ipsets: Sets,
)
    ensures
        action(podman_established(name, cidr).skip(3), packet, ipsets) == action_if(
            in_subnet(packet.source, cidr) && packet.established,
            accept(),
        ),
{
    let jump = seq!["-j"@, "ACCEPT"@];
    let state = seq!["--ctstate"@, "ESTABLISHED,RELATED"@] + jump;
    let module = seq!["-m"@, "conntrack"@] + state;
    let text = comment(name, "established"@);
    let remark = seq!["-m"@, "comment"@, "--comment"@, text] + module;
    lemma_accept(packet, ipsets);
    lemma_state("ESTABLISHED,RELATED"@, jump, packet, ipsets);
    lemma_module("conntrack"@, state, packet, ipsets);
    lemma_remark(text, module, packet, ipsets);
    lemma_source(cidr, remark, packet, ipsets);
    assert(podman_established(name, cidr).skip(3) =~= seq!["-s"@, cidr] + remark);
}

proof fn lemma_podman_query_action(
    name: Seq<char>,
    cidr: Seq<char>,
    dns_port: u16,
    position: Seq<char>,
    protocol: Seq<char>,
    packet: Packet,
    ipsets: Sets,
)
    ensures
        action(
            podman_query(name, cidr, dns_port, position, protocol).skip(3),
            packet,
            ipsets,
        ) == action_if(
            in_subnet(packet.source, cidr) && in_subnet(
                packet.destination,
                dns_destination(dns_port),
            ) && packet.protocol == protocol && decimal(packet.destination_port) == decimal(
                dns_port as nat,
            ),
            accept(),
        ),
{
    let jump = seq!["-j"@, "ACCEPT"@];
    let text = comment(name, "dns-"@ + protocol);
    let remark = seq!["-m"@, "comment"@, "--comment"@, text] + jump;
    let port = seq!["--dport"@, decimal(dns_port as nat)] + remark;
    let kind = seq!["-p"@, protocol] + port;
    let target = dns_destination(dns_port);
    let destination = seq!["-d"@, target] + kind;
    lemma_accept(packet, ipsets);
    lemma_remark(text, jump, packet, ipsets);
    lemma_destination_port(decimal(dns_port as nat), remark, packet, ipsets);
    lemma_protocol(protocol, port, packet, ipsets);
    lemma_destination(target, kind, packet, ipsets);
    lemma_source(cidr, destination, packet, ipsets);
    assert(podman_query(name, cidr, dns_port, position, protocol).skip(3) =~= seq!["-s"@, cidr]
        + destination);
}

proof fn lemma_podman_response_action(
    name: Seq<char>,
    cidr: Seq<char>,
    dns_port: u16,
    position: Seq<char>,
    protocol: Seq<char>,
    packet: Packet,
    ipsets: Sets,
)
    ensures
        action(
            podman_response(name, cidr, dns_port, position, protocol).skip(3),
            packet,
            ipsets,
        ) == action_if(
            in_subnet(packet.source, cidr) && in_subnet(packet.destination, cidr)
                && packet.protocol == protocol && decimal(packet.source_port) == decimal(
                dns_port as nat,
            ),
            accept(),
        ),
{
    let jump = seq!["-j"@, "ACCEPT"@];
    let text = comment(name, "dns-response-"@ + protocol);
    let remark = seq!["-m"@, "comment"@, "--comment"@, text] + jump;
    let port = seq!["--sport"@, decimal(dns_port as nat)] + remark;
    let kind = seq!["-p"@, protocol] + port;
    let destination = seq!["-d"@, cidr] + kind;
    lemma_accept(packet, ipsets);
    lemma_remark(text, jump, packet, ipsets);
    lemma_source_port(decimal(dns_port as nat), remark, packet, ipsets);
    lemma_protocol(protocol, port, packet, ipsets);
    lemma_destination(cidr, kind, packet, ipsets);
    lemma_source(cidr, destination, packet, ipsets);
    assert(podman_response(name, cidr, dns_port, position, protocol).skip(3) =~= seq!["-s"@, cidr]
        + destination);
}

proof fn lemma_podman_allow_action(
    name: Seq<char>,
    cidr: Seq<char>,
    packet: Packet,
    ipsets: Sets,
)
    ensures
        action(podman_allow(name, cidr).skip(3), packet, ipsets) == action_if(
            in_subnet(packet.source, cidr) && ipsets.has(name, packet.destination),
            accept(),
        ),
{
    let jump = seq!["-j"@, "ACCEPT"@];
    let set = seq!["--match-set"@, name, "dst"@] + jump;
    let module = seq!["-m"@, "set"@] + set;
    let text = comment(name, "allow"@);
    let remark = seq!["-m"@, "comment"@, "--comment"@, text] + module;
    lemma_accept(packet, ipsets);
    lemma_set(name, jump, packet, ipsets);
    lemma_module("set"@, set, packet, ipsets);
    lemma_remark(text, module, packet, ipsets);
    lemma_source(cidr, remark, packet, ipsets);
    assert(podman_allow(name, cidr).skip(3) =~= seq!["-s"@, cidr] + remark);
}

proof fn lemma_podman_drop_action(
    name: Seq<char>,
    cidr: Seq<char>,
    packet: Packet,
    ipsets: Sets,
)
    ensures
        action(podman_drop(name, cidr).skip(3), packet, ipsets) == action_if(
            in_subnet(packet.source, cidr),
            discard(),
        ),
{
    let jump = seq!["-j"@, "DROP"@];
    let text = comment(name, "drop"@);
    let remark = seq!["-m"@, "comment"@, "--comment"@, text] + jump;
    lemma_discard(packet, ipsets);
    lemma_remark(text, jump, packet, ipsets);
    lemma_source(cidr, remark, packet, ipsets);
    assert(podman_drop(name, cidr).skip(3) =~= seq!["-s"@, cidr] + remark);
}

/// Whether a packet is a question for a name that goes to the daemon, or an answer to one.
pub open spec fn about_names(packet: Packet, cidr: Seq<char>, dns_port: u16) -> bool {
    &&& packet.protocol == "udp"@ || packet.protocol == "tcp"@
    &&& {
        ||| in_subnet(packet.destination, dns_destination(dns_port)) && decimal(
            packet.destination_port,
        ) == decimal(dns_port as nat)
        ||| in_subnet(packet.destination, cidr) && decimal(packet.source_port) == decimal(
            dns_port as nat,
        )
    }
}

proof fn lemma_podman_filter_fate(
    name: Seq<char>,
    cidr: Seq<char>,
    dns_port: u16,
    packet: Packet,
    ipsets: Sets,
)
    ensures
        fate(podman_filter(name, cidr, dns_port), packet, ipsets) == if !in_subnet(
            packet.source,
            cidr,
        ) {
            None
        } else if packet.established || about_names(packet, cidr, dns_port) || ipsets.has(
            name,
            packet.destination,
        ) {
            Some(accept())
        } else {
            Some(discard())
        },
{
    let bodies = podman_filter(name, cidr, dns_port);
    lemma_podman_established_action(name, cidr, packet, ipsets);
    lemma_podman_query_action(name, cidr, dns_port, "2"@, "udp"@, packet, ipsets);
    lemma_podman_query_action(name, cidr, dns_port, "3"@, "tcp"@, packet, ipsets);
    lemma_podman_response_action(name, cidr, dns_port, "4"@, "udp"@, packet, ipsets);
    lemma_podman_response_action(name, cidr, dns_port, "5"@, "tcp"@, packet, ipsets);
    lemma_podman_allow_action(name, cidr, packet, ipsets);
    lemma_podman_drop_action(name, cidr, packet, ipsets);
    reveal_with_fuel(fate, 8);
    assert(bodies.skip(1).skip(1) =~= bodies.skip(2));
    assert(bodies.skip(2).skip(1) =~= bodies.skip(3));
    assert(bodies.skip(3).skip(1) =~= bodies.skip(4));
    assert(bodies.skip(4).skip(1) =~= bodies.skip(5));
    assert(bodies.skip(5).skip(1) =~= bodies.skip(6));
}

/// A packet from a rootless Podman network whose rules stand goes through if and only if it
/// belongs to a connection that was accepted before, if it is a question for a name or an
/// answer to one, or if its destination is in the ipset of the network. Any other packet from
/// the network is dropped. What happens to packets from elsewhere is as before.
pub proof fn podman_network_is_denied_by_default(
    f: Firewall,
    name: Seq<char>,
    cidr: Seq<char>,
    interface: Seq<char>,
    dns_port: u16,
    packet: Packet,
    ipsets: Sets,
)
    ensures
        ({
            let g = podman_firewall(f, name, cidr, interface, dns_port);
            let before = others(f.chains[podman_output()], podman_filter(name, cidr, dns_port));
            fate(g.chains[podman_output()], packet, ipsets) == if !in_subnet(packet.source, cidr) {
                fate(before, packet, ipsets)
            } else if packet.established || about_names(packet, cidr, dns_port) || ipsets.has(
                name,
                packet.destination,
            ) {
                Some(accept())
            } else {
                Some(discard())
            }
        }),
{
    let all = podman_heads(name, cidr, interface, dns_port);
    let bodies = podman_filter(name, cidr, dns_port);
    let before = others(f.chains[podman_output()], bodies);
    lemma_podman_separate(name, cidr, interface, dns_port);
    each_chain_has_its_head(f, all, 1);
    lemma_podman_filter_fate(name, cidr, dns_port, packet, ipsets);
    lemma_fate_of_heads(bodies, before, packet, ipsets);
}

/// Rules behind others decide where those do nothing.
proof fn lemma_fate_of_heads(
    first: Seq<Seq<Seq<char>>>,
    second: Seq<Seq<Seq<char>>>,
    packet: Packet,
    ipsets: Sets,
)
    ensures
        fate(first + second, packet, ipsets) == match fate(first, packet, ipsets) {
            Some(a) => Some(a),
            None => fate(second, packet, ipsets),
        },
    decreases first.len(),
{
    if first.len() == 0 {
        assert(first + second =~= second);
    } else {
        lemma_fate_of_heads(first.skip(1), second, packet, ipsets);
        assert((first + second).skip(1) =~= first.skip(1) + second);
    }
}

proof fn lemma_podman_hook_action(
    name: Seq<char>,
    cidr: Seq<char>,
    packet: Packet,
    ipsets: Sets,
)
    ensures
        action(podman_hook(name, cidr).skip(3), packet, ipsets) == action_if(
            in_subnet(packet.source, cidr),
            seq![PODMAN_OUTPUT_CHAIN@],
        ),
{
    let jump = seq!["-j"@, PODMAN_OUTPUT_CHAIN@];
    let text = comment(name, "output-hook"@);
    let remark = seq!["-m"@, "comment"@, "--comment"@, text] + jump;
    lemma_jump(PODMAN_OUTPUT_CHAIN@, seq![], packet, ipsets);
    assert(jump + seq![] =~= jump);
    assert(seq![PODMAN_OUTPUT_CHAIN@] + seq![] =~= seq![PODMAN_OUTPUT_CHAIN@]);
    lemma_remark(text, jump, packet, ipsets);
    lemma_source(cidr, remark, packet, ipsets);
    assert(podman_hook(name, cidr).skip(3) =~= seq!["-s"@, cidr] + remark);
}

/// Every packet from a rootless Podman network whose rules stand goes through the chain for
/// such networks; for other packets the host's output chain is as before.
pub proof fn podman_packets_go_through_their_chain(
    f: Firewall,
    name: Seq<char>,
    cidr: Seq<char>,
    interface: Seq<char>,
    dns_port: u16,
    packet: Packet,
    ipsets: Sets,
)
    ensures
        ({
            let g = podman_firewall(f, name, cidr, interface, dns_port);
            let before = others(f.chains[output()], seq![podman_hook(name, cidr).skip(3)]);
            fate(g.chains[output()], packet, ipsets) == if in_subnet(packet.source, cidr) {
                Some(seq![PODMAN_OUTPUT_CHAIN@])
            } else {
                fate(before, packet, ipsets)
            }
        }),
{
    let all = podman_heads(name, cidr, interface, dns_port);
    let hook = seq![podman_hook(name, cidr).skip(3)];
    let before = others(f.chains[output()], hook);
    lemma_podman_separate(name, cidr, interface, dns_port);
    each_chain_has_its_head(f, all, 0);
    lemma_podman_hook_action(name, cidr, packet, ipsets);
    assert((hook + before).skip(1) =~= before);
}

/// The action of a rule that sends a packet to a port of the host.
pub open spec fn to_port(dns_port: u16) -> Seq<Seq<char>> {
    seq!["REDIRECT"@, "--to-ports"@, decimal(dns_port as nat)]
}

proof fn lemma_podman_redirect_action(
    name: Seq<char>,
    cidr: Seq<char>,
    dns_port: u16,
    chain: Seq<char>,
    protocol: Seq<char>,
    packet: Packet,
    ipsets: Sets,
)
    ensures
        action(
            podman_redirect(name, cidr, dns_port, chain, protocol).skip(5),
            packet,
            ipsets,
        ) == action_if(
            in_subnet(packet.source, cidr) && in_subnet(packet.destination, ROOTLESS_DNS_CIDR@)
                && packet.protocol == protocol && decimal(packet.destination_port) == "53"@,
            to_port(dns_port),
        ),
{
    let target = seq!["--to-ports"@, decimal(dns_port as nat)];
    let jump = seq!["-j"@, "REDIRECT"@] + target;
    let text = comment(name, "dns-"@ + chain + "-"@ + protocol);
    let remark = seq!["-m"@, "comment"@, "--comment"@, text] + jump;
    let port = seq!["--dport"@, "53"@] + remark;
    let kind = seq!["-p"@, protocol] + port;
    let destination = seq!["-d"@, ROOTLESS_DNS_CIDR@] + kind;
    lemma_jump("REDIRECT"@, target, packet, ipsets);
    assert(seq!["REDIRECT"@] + target =~= to_port(dns_port));
    lemma_remark(text, jump, packet, ipsets);
    lemma_destination_port("53"@, remark, packet, ipsets);
    lemma_protocol(protocol, port, packet, ipsets);
    lemma_destination(ROOTLESS_DNS_CIDR@, kind, packet, ipsets);
    lemma_source(cidr, destination, packet, ipsets);
    assert(podman_redirect(name, cidr, dns_port, chain, protocol).skip(5) =~= seq!["-s"@, cidr]
        + destination);
}

proof fn lemma_podman_questions_fate(
    before: Seq<Seq<Seq<char>>>,
    name: Seq<char>,
    cidr: Seq<char>,
    dns_port: u16,
    chain: Seq<char>,
    packet: Packet,
    ipsets: Sets,
)
    requires
        in_subnet(packet.source, cidr),
        in_subnet(packet.destination, ROOTLESS_DNS_CIDR@),
        packet.protocol == "udp"@ || packet.protocol == "tcp"@,
        packet.destination_port == 53,
    ensures
        fate(podman_questions(name, cidr, dns_port, chain) + before, packet, ipsets) == Some(
            to_port(dns_port),
        ),
{
    reveal_strlit("53");
    reveal_with_fuel(numeral, 3);
    assert(decimal(53) =~= "53"@);
    lemma_podman_redirect_action(name, cidr, dns_port, chain, "udp"@, packet, ipsets);
    lemma_podman_redirect_action(name, cidr, dns_port, chain, "tcp"@, packet, ipsets);
    let questions = podman_questions(name, cidr, dns_port, chain);
    lemma_fate_of_heads(questions, before, packet, ipsets);
    assert(questions.skip(1)[0] == questions[1]);
    reveal_with_fuel(fate, 3);
}

/// Every question for a name from a rootless Podman network whose rules stand, sent to the
/// address at which such networks ask, goes to the daemon where it does not listen on the port
/// for names, over UDP and over TCP. That holds of questions that the host sends on and of those
/// that come in.
pub proof fn podman_questions_go_to_the_daemon(
    f: Firewall,
    name: Seq<char>,
    cidr: Seq<char>,
    interface: Seq<char>,
    dns_port: u16,
    packet: Packet,
    ipsets: Sets,
)
    requires
        dns_port != 53,
        in_subnet(packet.source, cidr),
        in_subnet(packet.destination, ROOTLESS_DNS_CIDR@),
        packet.protocol == "udp"@ || packet.protocol == "tcp"@,
        packet.destination_port == 53,
    ensures
        ({
            let g = podman_firewall(f, name, cidr, interface, dns_port);
            &&& fate(g.chains[translation("OUTPUT"@)], packet, ipsets) == Some(to_port(dns_port))
            &&& fate(g.chains[translation("PREROUTING"@)], packet, ipsets) == Some(
                to_port(dns_port),
            )
        }),
{
    let all = podman_heads(name, cidr, interface, dns_port);
    lemma_podman_separate(name, cidr, interface, dns_port);
    each_chain_has_its_head(f, all, 2);
    each_chain_has_its_head(f, all, 3);
    let (nat_output, nat_input) = (translation("OUTPUT"@), translation("PREROUTING"@));
    let asked = podman_questions(name, cidr, dns_port, "OUTPUT"@);
    let passed = podman_questions(name, cidr, dns_port, "PREROUTING"@);
    let (a, b) = (others(f.chains[nat_output], asked), others(f.chains[nat_input], passed));
    lemma_podman_questions_fate(a, name, cidr, dns_port, "OUTPUT"@, packet, ipsets);
    lemma_podman_questions_fate(b, name, cidr, dns_port, "PREROUTING"@, packet, ipsets);
}

/// The action of a rule that makes a packet come from the host itself.
pub open spec fn from_host() -> Seq<Seq<char>> {
    seq!["SNAT"@, "--to-source"@, "127.0.0.1"@]
}

proof fn lemma_podman_masquerade_action(
    name: Seq<char>,
    cidr: Seq<char>,
    interface: Seq<char>,
    packet: Packet,
    ipsets: Sets,
)
    ensures
        action(podman_masquerade(name, cidr, interface).skip(5), packet, ipsets) == action_if(
            in_subnet(packet.source, cidr) && packet.interface == interface,
            seq!["MASQUERADE"@],
        ),
{
    let jump = seq!["-j"@, "MASQUERADE"@];
    let text = comment(name, "masquerade"@);
    let remark = seq!["-m"@, "comment"@, "--comment"@, text] + jump;
    let leaving = seq!["-o"@, interface] + remark;
    lemma_jump("MASQUERADE"@, seq![], packet, ipsets);
    assert(jump + seq![] =~= jump);
    assert(seq!["MASQUERADE"@] + seq![] =~= seq!["MASQUERADE"@]);
    lemma_remark(text, jump, packet, ipsets);
    lemma_interface(interface, remark, packet, ipsets);
    lemma_source(cidr, leaving, packet, ipsets);
    assert(podman_masquerade(name, cidr, interface).skip(5) =~= seq!["-s"@, cidr] + leaving);
}

proof fn lemma_podman_response_source_action(
    name: Seq<char>,
    cidr: Seq<char>,
    dns_port: u16,
    protocol: Seq<char>,
    packet: Packet,
    ipsets: Sets,
)
    ensures
        action(
            podman_response_source(name, cidr, dns_port, protocol).skip(5),
            packet,
            ipsets,
        ) == action_if(
            in_subnet(packet.source, cidr) && in_subnet(packet.destination, cidr)
                && packet.protocol == protocol && decimal(packet.source_port) == decimal(
                dns_port as nat,
            ),
            from_host(),
        ),
{
    let target = seq!["--to-source"@, "127.0.0.1"@];
    let jump = seq!["-j"@, "SNAT"@] + target;
    let text = comment(name, "dns-response-snat-"@ + protocol);
    let remark = seq!["-m"@, "comment"@, "--comment"@, text] + jump;
    let port = seq!["--sport"@, decimal(dns_port as nat)] + remark;
    let kind = seq!["-p"@, protocol] + port;
    let destination = seq!["-d"@, cidr] + kind;
    lemma_jump("SNAT"@, target, packet, ipsets);
    assert(seq!["SNAT"@] + target =~= from_host());
    lemma_remark(text, jump, packet, ipsets);
    lemma_source_port(decimal(dns_port as nat), remark, packet, ipsets);
    lemma_protocol(protocol, port, packet, ipsets);
    lemma_destination(cidr, kind, packet, ipsets);
    lemma_source(cidr, destination, packet, ipsets);
    assert(podman_response_source(name, cidr, dns_port, protocol).skip(5) =~= seq!["-s"@, cidr]
        + destination);
}

proof fn lemma_podman_sources_fate(
    before: Seq<Seq<Seq<char>>>,
    name: Seq<char>,
    cidr: Seq<char>,
    interface: Seq<char>,
    dns_port: u16,
    packet: Packet,
    ipsets: Sets,
)
    ensures
        fate(podman_sources(name, cidr, interface, dns_port) + before, packet, ipsets) == if !in_subnet(
            packet.source,
            cidr,
        ) {
            fate(before, packet, ipsets)
        } else if packet.interface == interface {
            Some(seq!["MASQUERADE"@])
        } else if dns_port != 53 && in_subnet(packet.destination, cidr) && (packet.protocol
            == "udp"@ || packet.protocol == "tcp"@) && decimal(packet.source_port) == decimal(
            dns_port as nat,
        ) {
            Some(from_host())
        } else {
            fate(before, packet, ipsets)
        },
{
    let sources = podman_sources(name, cidr, interface, dns_port);
    lemma_podman_masquerade_action(name, cidr, interface, packet, ipsets);
    lemma_podman_response_source_action(name, cidr, dns_port, "udp"@, packet, ipsets);
    lemma_podman_response_source_action(name, cidr, dns_port, "tcp"@, packet, ipsets);
    lemma_fate_of_heads(sources, before, packet, ipsets);
    reveal_with_fuel(fate, 4);
    if dns_port != 53 {
        assert(sources.skip(1)[0] == sources[1]);
        assert(sources.skip(1).skip(1)[0] == sources[2]);
    }
}

/// What a rootless Podman network sends through its interface goes out with the address of the
/// interface. An answer to a question for a name comes from the host itself where the daemon does
/// not listen on the port for names. What happens to other packets is as before.
pub proof fn podman_packets_leave_through_their_interface(
    f: Firewall,
    name: Seq<char>,
    cidr: Seq<char>,
    interface: Seq<char>,
    dns_port: u16,
    packet: Packet,
    ipsets: Sets,
)
    ensures
        ({
            let g = podman_firewall(f, name, cidr, interface, dns_port);
            let id = translation("POSTROUTING"@);
            let before = others(f.chains[id], podman_sources(name, cidr, interface, dns_port));
            fate(g.chains[id], packet, ipsets) == if !in_subnet(packet.source, cidr) {
                fate(before, packet, ipsets)
            } else if packet.interface == interface {
                Some(seq!["MASQUERADE"@])
            } else if dns_port != 53 && in_subnet(packet.destination, cidr) && (packet.protocol
                == "udp"@ || packet.protocol == "tcp"@) && decimal(packet.source_port) == decimal(
                dns_port as nat,
            ) {
                Some(from_host())
            } else {
                fate(before, packet, ipsets)
            }
        }),
{
    let all = podman_heads(name, cidr, interface, dns_port);
    let id = translation("POSTROUTING"@);
    let sources = podman_sources(name, cidr, interface, dns_port);
    lemma_podman_separate(name, cidr, interface, dns_port);
    each_chain_has_its_head(
        f,
        all,
        if dns_port == 53 {
            2
        } else {
            4
        },
    );
    let before = others(f.chains[id], sources);
    lemma_podman_sources_fate(before, name, cidr, interface, dns_port, packet, ipsets);
}

// ---------------------------------------------------------------------------
// From the domain to the packet

/// The kernel's set of a network that was created, and holds what the daemon does after the
/// responses since, has an address if and only if one of the responses gave it for a domain that
/// a pattern names.
pub proof fn only_resolved_addresses_are_held(
    d: DaemonModel,
    name: Seq<char>,
    subnet: Seq<char>,
    patterns: Seq<Seq<char>>,
    responses: Seq<ResponseModel>,
    kernel: Sets,
    host: Ipv4Addr,
)
    requires
        crate::daemon::well_formed(d),
        in_step(after_creation(d, name, subnet, patterns, responses).sets, kernel),
    ensures
        kernel.has(name, IpAddr::V4(host)) <==> gave(responses, patterns, IpAddr::V4(host)),
{
    let after = after_creation(d, name, subnet, patterns, responses);
    created_set_gets_what_it_allows(d, name, subnet, patterns, responses, IpAddr::V4(host));
    kernel_holds_what_the_daemon_does(after.sets, kernel, name, host);
}

/// A Docker network whose rules stand, and whose set the kernel holds as the daemon does: once
/// it was created with patterns, and any number of responses came in, a packet that opens a
/// connection goes through if and only if one of the responses gave the address that it goes to,
/// for a domain that a pattern names.
pub proof fn only_resolved_addresses_are_reached(
    f: Firewall,
    plan: PlanModel,
    d: DaemonModel,
    patterns: Seq<Seq<char>>,
    responses: Seq<ResponseModel>,
    kernel: Sets,
    packet: Packet,
    host: Ipv4Addr,
)
    requires
        crate::daemon::well_formed(d),
        in_step(after_creation(d, plan.name, plan.subnet, patterns, responses).sets, kernel),
        in_subnet(packet.source, plan.subnet),
        !packet.established,
        packet.destination == IpAddr::V4(host),
    ensures
        fate(docker_firewall(f, plan).chains[docker_user()], packet, kernel) == if gave(
            responses,
            patterns,
            IpAddr::V4(host),
        ) {
            Some(accept())
        } else {
            Some(discard())
        },
{
    only_resolved_addresses_are_held(
        d,
        plan.name,
        plan.subnet,
        patterns,
        responses,
        kernel,
        host,
    );
    docker_network_is_denied_by_default(f, plan, packet, kernel);
}

/// A rootless Podman network whose rules stand, and whose set the kernel holds as the daemon
/// does: once it was created with patterns, and any number of responses came in, a packet that
/// opens a connection, and is neither a question for a name nor an answer to one, goes through
/// the chain for such networks. There it is let through if and only if one of the responses gave
/// the address that it goes to, for a domain that a pattern names.
pub proof fn only_resolved_addresses_are_reached_by_podman(
    f: Firewall,
    name: Seq<char>,
    cidr: Seq<char>,
    interface: Seq<char>,
    dns_port: u16,
    d: DaemonModel,
    patterns: Seq<Seq<char>>,
    responses: Seq<ResponseModel>,
    kernel: Sets,
    packet: Packet,
    host: Ipv4Addr,
)
    requires
        crate::daemon::well_formed(d),
        in_step(after_creation(d, name, cidr, patterns, responses).sets, kernel),
        in_subnet(packet.source, cidr),
        !packet.established,
        !about_names(packet, cidr, dns_port),
        packet.destination == IpAddr::V4(host),
    ensures
        ({
            let g = podman_firewall(f, name, cidr, interface, dns_port);
            &&& fate(g.chains[output()], packet, kernel) == Some(seq![PODMAN_OUTPUT_CHAIN@])
            &&& fate(g.chains[podman_output()], packet, kernel) == if gave(
                responses,
                patterns,
                IpAddr::V4(host),
            ) {
                Some(accept())
            } else {
                Some(discard())
            }
        }),
{
    only_resolved_addresses_are_held(d, name, cidr, patterns, responses, kernel, host);
    podman_packets_go_through_their_chain(f, name, cidr, interface, dns_port, packet, kernel);
    podman_network_is_denied_by_default(f, name, cidr, interface, dns_port, packet, kernel);
}

} // verus!
