//! Preparing a rootless Podman network.

use vstd::prelude::*;

use crate::addr::Ipv4Addr;
use crate::network::{
    default_route_interface, existing_source_ip, free_attempt, free_attempts_are_the_first,
    hooked_source, host_cidr, lemma_source_start, next_attempt, rootless_podman_source_ip,
    route_interface, routes_have_valid_interfaces, source_ip, taken, to_host_cidr, valid_interface,
    validate_interface_name, InterfaceError,
};
use crate::prepare::{
    copy_result, not_found, optional, told, work, worked, Action, ActionModel, Event, EventModel,
    Work, WorkModel,
};
use crate::root::{check_effective_uid, check_uid_map, effective_root, root_of_host};
use crate::rules::ROOTLESS_DNS_CIDR;
use crate::tasks::{
    add_address, next_command, podman_tasks, podman_tasks_of, started, task_models, Command,
    CommandModel, Outcome, OutcomeModel, Task, TaskModel, Worker, WorkerModel,
};
use crate::text::{
    a_text_shows_its_parts, chars, clone_strings, lines_of, shows, strings, texts,
};
use crate::trust::{candidate, judge, judged, trusted, FileFacts, Program, Search, SearchModel};

verus! {

/// How often a daemon that was started is asked for its port.
pub const DAEMON_TRIES: u32 = 50;

/// What is known in the preparation of a rootless Podman network.
#[derive(Debug)]
struct Known {
    /// The path of ip.
    ip: String,
    /// The port of the daemon.
    port: u16,
    /// The outbound interface.
    interface: String,
    /// The path of ipset.
    ipset: String,
    /// The path of iptables.
    iptables: String,
}

/// What is known in the preparation of a rootless Podman network. What is not known yet is
/// empty or 0.
pub struct KnownModel {
    pub ip: Seq<char>,
    pub port: u16,
    pub interface: Seq<char>,
    pub ipset: Seq<char>,
    pub iptables: Seq<char>,
}

impl View for Known {
    type V = KnownModel;

    closed spec fn view(&self) -> KnownModel {
        KnownModel {
            ip: self.ip@,
            port: self.port,
            interface: self.interface@,
            ipset: self.ipset@,
            iptables: self.iptables@,
        }
    }
}

#[derive(Debug)]
enum PodmanStage {
    ReadStatus,
    ReadUidMap,
    FindIp(usize),
    Alias(Worker),
    AskPort,
    StartDaemon,
    Waiting(u32),
    Pausing(u32),
    FindRouteIp(usize),
    Route(Worker),
    FindIpset(usize),
    FindIptables(usize),
    ListRules(Worker),
    Probe { rules: String, attempt: u32, worker: Worker },
    Setup { source: Ipv4Addr, worker: Worker },
    Register(Ipv4Addr),
    Finished(Result<String, String>),
}

/// How far the preparation of a rootless Podman network is.
pub enum PodmanStageModel {
    /// The effective user is not known yet.
    ReadStatus,
    /// The effective user is root, perhaps of a user namespace alone.
    ReadUidMap,
    /// The program ip is looked for.
    FindIp(nat),
    /// The address at which containers ask for names is made one of the host's own.
    Alias(WorkerModel),
    /// A daemon may run already.
    AskPort,
    /// None does.
    StartDaemon,
    /// The daemon is asked for its port, after this many tries.
    Waiting(u32),
    /// It did not answer.
    Pausing(u32),
    /// The program ip is looked for, for the default route.
    FindRouteIp(nat),
    /// The default route is looked at.
    Route(WorkerModel),
    /// The program ipset is looked for.
    FindIpset(nat),
    /// The program iptables is looked for.
    FindIptables(nat),
    /// The rules of the host's output chain are listed.
    ListRules(WorkerModel),
    /// No rule speaks of the source address of the attempt; perhaps an interface has it.
    Probe { rules: Seq<char>, attempt: u32, worker: WorkerModel },
    /// The network is set up.
    Setup { source: Ipv4Addr, worker: WorkerModel },
    /// The daemon is told of the network.
    Register(Ipv4Addr),
    /// It is over.
    Finished(Result<Seq<char>, Seq<char>>),
}

impl View for PodmanStage {
    type V = PodmanStageModel;

    closed spec fn view(&self) -> PodmanStageModel {
        match self {
            PodmanStage::ReadStatus => PodmanStageModel::ReadStatus,
            PodmanStage::ReadUidMap => PodmanStageModel::ReadUidMap,
            PodmanStage::FindIp(at) => PodmanStageModel::FindIp(*at as nat),
            PodmanStage::Alias(w) => PodmanStageModel::Alias(w@),
            PodmanStage::AskPort => PodmanStageModel::AskPort,
            PodmanStage::StartDaemon => PodmanStageModel::StartDaemon,
            PodmanStage::Waiting(tries) => PodmanStageModel::Waiting(*tries),
            PodmanStage::Pausing(tries) => PodmanStageModel::Pausing(*tries),
            PodmanStage::FindRouteIp(at) => PodmanStageModel::FindRouteIp(*at as nat),
            PodmanStage::Route(w) => PodmanStageModel::Route(w@),
            PodmanStage::FindIpset(at) => PodmanStageModel::FindIpset(*at as nat),
            PodmanStage::FindIptables(at) => PodmanStageModel::FindIptables(*at as nat),
            PodmanStage::ListRules(w) => PodmanStageModel::ListRules(w@),
            PodmanStage::Probe { rules, attempt, worker } => PodmanStageModel::Probe {
                rules: rules@,
                attempt: *attempt,
                worker: worker@,
            },
            PodmanStage::Setup { source, worker } => PodmanStageModel::Setup {
                source: *source,
                worker: worker@,
            },
            PodmanStage::Register(source) => PodmanStageModel::Register(*source),
            PodmanStage::Finished(r) => PodmanStageModel::Finished(told(*r)),
        }
    }
}

/// The preparation of a rootless Podman network.
#[derive(Debug)]
pub struct PodmanPreparation {
    name: String,
    patterns: Vec<String>,
    requested: Option<String>,
    known: Known,
    stage: PodmanStage,
}

/// What a [`PodmanPreparation`] holds.
pub struct PodmanModel {
    pub name: Seq<char>,
    /// The domains that are allowed.
    pub patterns: Seq<Seq<char>>,
    /// The interface that was asked for.
    pub requested: Option<Seq<char>>,
    pub known: KnownModel,
    pub stage: PodmanStageModel,
}

impl View for PodmanPreparation {
    type V = PodmanModel;

    closed spec fn view(&self) -> PodmanModel {
        PodmanModel {
            name: self.name@,
            patterns: texts(self.patterns@),
            requested: optional(self.requested),
            known: self.known@,
            stage: self.stage@,
        }
    }
}

/// The preparation of a rootless Podman network before its first action.
pub open spec fn podman_start(
    name: Seq<char>,
    patterns: Seq<Seq<char>>,
    requested: Option<Seq<char>>,
) -> PodmanModel {
    PodmanModel {
        name,
        patterns,
        requested,
        known: KnownModel {
            ip: seq![],
            port: 0,
            interface: seq![],
            ipset: seq![],
            iptables: seq![],
        },
        stage: PodmanStageModel::ReadStatus,
    }
}

/// A worker with one command that has to succeed.
pub open spec fn one_command(path: Seq<char>, args: Seq<Seq<char>>) -> WorkerModel {
    started(seq![TaskModel::Checked(CommandModel { path, args })])
}

/// Whether a preparation is in order: what a stage needs is known and valid.
pub open spec fn podman_ok(m: PodmanModel) -> bool {
    match m.stage {
        PodmanStageModel::FindIp(at) => at < Program::Ip.paths().len(),
        PodmanStageModel::Alias(w) => w.tasks.len() > 0,
        PodmanStageModel::Waiting(tries) => tries < 50,
        PodmanStageModel::Pausing(tries) => tries < 50,
        PodmanStageModel::FindRouteIp(at) => at < Program::Ip.paths().len(),
        PodmanStageModel::Route(w) => w.tasks.len() > 0,
        PodmanStageModel::FindIpset(at) => {
            &&& at < Program::Ipset.paths().len()
            &&& valid_interface(m.known.interface)
        },
        PodmanStageModel::FindIptables(at) => {
            &&& at < Program::Iptables.paths().len()
            &&& valid_interface(m.known.interface)
        },
        PodmanStageModel::ListRules(w) => {
            &&& w.tasks.len() > 0
            &&& valid_interface(m.known.interface)
        },
        PodmanStageModel::Probe { attempt, worker, .. } => {
            &&& attempt < 131069
            &&& worker.tasks.len() > 0
            &&& valid_interface(m.known.interface)
        },
        PodmanStageModel::Setup { worker, .. } => {
            &&& worker.tasks.len() > 0
            &&& valid_interface(m.known.interface)
        },
        PodmanStageModel::Register(_) => valid_interface(m.known.interface),
        _ => true,
    }
}

/// The preparation at another stage.
pub open spec fn at_stage(m: PodmanModel, stage: PodmanStageModel) -> PodmanModel {
    PodmanModel { stage, ..m }
}

/// The preparation that failed.
pub open spec fn failed(m: PodmanModel, error: Seq<char>) -> PodmanModel {
    at_stage(m, PodmanStageModel::Finished(Err(error)))
}

/// The preparation once the port of the daemon is known: the interface that was asked for has
/// to be valid; where none was, that of the default route is looked for.
pub open spec fn with_port(m: PodmanModel, port: u16) -> PodmanModel {
    let known = KnownModel { port, ..m.known };
    let n = PodmanModel { known, ..m };
    match m.requested {
        Some(interface) => if valid_interface(interface) {
            with_interface(n, interface)
        } else {
            failed(n, InterfaceError::InvalidName.text())
        },
        None => at_stage(n, PodmanStageModel::FindRouteIp(0)),
    }
}

/// The preparation once the interface is known.
pub open spec fn with_interface(m: PodmanModel, interface: Seq<char>) -> PodmanModel {
    PodmanModel {
        known: KnownModel { interface, ..m.known },
        stage: PodmanStageModel::FindIpset(0),
        ..m
    }
}

/// The preparation once the source address is known.
pub open spec fn with_source(m: PodmanModel, source: Ipv4Addr) -> PodmanModel {
    let k = m.known;
    at_stage(
        m,
        PodmanStageModel::Setup {
            source,
            worker: started(
                podman_tasks(
                    k.ip,
                    k.ipset,
                    k.iptables,
                    m.name,
                    host_cidr(source),
                    k.interface,
                    k.port,
                ),
            ),
        },
    )
}

/// The arguments with which ip shows whether an interface has an address.
pub open spec fn show_address(cidr: Seq<char>) -> Seq<Seq<char>> {
    seq!["-o"@, "-4"@, "addr"@, "show"@, "to"@, cidr]
}

/// The preparation that looks for a source address, from an attempt on.
pub open spec fn with_attempt(m: PodmanModel, rules: Seq<char>, from: nat) -> PodmanModel {
    match free_attempt(lines_of(rules), m.name, from) {
        Some(attempt) => at_stage(
            m,
            PodmanStageModel::Probe {
                rules,
                attempt,
                worker: one_command(
                    m.known.ip,
                    show_address(host_cidr(source_ip(m.name, attempt as nat))),
                ),
            },
        ),
        None => failed(m, "all managed rootless Podman source addresses are in use"@),
    }
}

/// The preparation once the rules of the output chain are known: a network keeps the source
/// address that it has.
pub open spec fn with_rules(m: PodmanModel, rules: Seq<char>) -> PodmanModel {
    match hooked_source(lines_of(rules), m.name) {
        Some(source) => with_source(m, source),
        None => with_attempt(m, rules, 0),
    }
}

/// What is said of a network that is ready.
pub open spec fn podman_notice(source: Ipv4Addr, interface: Seq<char>) -> Seq<char> {
    "rootless Podman source IP: "@ + source.text() + "\nrootless Podman interface: "@ + interface
        + "\npodman run --network pasta:--outbound,"@ + source.text()
        + " --dns 198.18.0.1 <image> <command>\n"@
}

/// The preparation after a candidate for ip was looked at.
pub open spec fn after_ip(m: PodmanModel, at: nat, facts: Option<FileFacts>) -> PodmanModel {
    match judged(Program::Ip, at, facts) {
        SearchModel::Found(path) => PodmanModel {
            known: KnownModel { ip: path, ..m.known },
            stage: PodmanStageModel::Alias(
                one_command(path, add_address(ROOTLESS_DNS_CIDR@, "lo"@)),
            ),
            ..m
        },
        SearchModel::Next(at) => at_stage(m, PodmanStageModel::FindIp(at)),
        SearchModel::Missing => failed(m, not_found()),
    }
}

/// The preparation after a candidate for ip was looked at, for the default route.
pub open spec fn after_route_ip(m: PodmanModel, at: nat, facts: Option<FileFacts>) -> PodmanModel {
    match judged(Program::Ip, at, facts) {
        SearchModel::Found(path) => at_stage(
            m,
            PodmanStageModel::Route(one_command(path, seq!["route"@, "show"@, "default"@])),
        ),
        SearchModel::Next(at) => at_stage(m, PodmanStageModel::FindRouteIp(at)),
        SearchModel::Missing => failed(m, not_found()),
    }
}

/// The preparation after a candidate for ipset was looked at.
pub open spec fn after_ipset(m: PodmanModel, at: nat, facts: Option<FileFacts>) -> PodmanModel {
    match judged(Program::Ipset, at, facts) {
        SearchModel::Found(path) => PodmanModel {
            known: KnownModel { ipset: path, ..m.known },
            stage: PodmanStageModel::FindIptables(0),
            ..m
        },
        SearchModel::Next(at) => at_stage(m, PodmanStageModel::FindIpset(at)),
        SearchModel::Missing => failed(m, not_found()),
    }
}

/// The preparation after a candidate for iptables was looked at.
pub open spec fn after_iptables(m: PodmanModel, at: nat, facts: Option<FileFacts>) -> PodmanModel {
    match judged(Program::Iptables, at, facts) {
        SearchModel::Found(path) => PodmanModel {
            known: KnownModel { iptables: path, ..m.known },
            stage: PodmanStageModel::ListRules(one_command(path, seq!["-S"@, "OUTPUT"@])),
            ..m
        },
        SearchModel::Next(at) => at_stage(m, PodmanStageModel::FindIptables(at)),
        SearchModel::Missing => failed(m, not_found()),
    }
}

/// The preparation after a command that makes the address for questions one of the host's own.
pub open spec fn after_alias(m: PodmanModel, w: WorkerModel, o: OutcomeModel) -> PodmanModel {
    match worked(w, o) {
        WorkModel::More(worker) => at_stage(m, PodmanStageModel::Alias(worker)),
        WorkModel::Done(output) => at_stage(m, PodmanStageModel::AskPort),
        WorkModel::Failed(e) => failed(m, e),
    }
}

/// The preparation after a command that shows the default route.
pub open spec fn after_route(m: PodmanModel, w: WorkerModel, o: OutcomeModel) -> PodmanModel {
    match worked(w, o) {
        WorkModel::More(worker) => at_stage(m, PodmanStageModel::Route(worker)),
        WorkModel::Done(output) => match route_interface(lines_of(output)) {
            Ok(interface) => with_interface(m, interface),
            Err(e) => failed(m, e.text()),
        },
        WorkModel::Failed(e) => failed(m, e),
    }
}

/// The preparation after a command that lists the rules of the output chain.
pub open spec fn after_list(m: PodmanModel, w: WorkerModel, o: OutcomeModel) -> PodmanModel {
    match worked(w, o) {
        WorkModel::More(worker) => at_stage(m, PodmanStageModel::ListRules(worker)),
        WorkModel::Done(output) => with_rules(m, output),
        WorkModel::Failed(e) => failed(m, e),
    }
}

/// The preparation after a command that shows whether an interface has the source address of
/// the attempt.
pub open spec fn after_probe(
    m: PodmanModel,
    rules: Seq<char>,
    attempt: u32,
    w: WorkerModel,
    o: OutcomeModel,
) -> PodmanModel {
    match worked(w, o) {
        WorkModel::More(worker) => at_stage(m, PodmanStageModel::Probe { rules, attempt, worker }),
        WorkModel::Done(output) => if output.len() == 0 {
            with_source(m, source_ip(m.name, attempt as nat))
        } else {
            with_attempt(m, rules, (attempt + 1) as nat)
        },
        WorkModel::Failed(e) => failed(m, e),
    }
}

/// The preparation after a command that sets the network up.
pub open spec fn after_setup(
    m: PodmanModel,
    source: Ipv4Addr,
    w: WorkerModel,
    o: OutcomeModel,
) -> PodmanModel {
    match worked(w, o) {
        WorkModel::More(worker) => at_stage(m, PodmanStageModel::Setup { source, worker }),
        WorkModel::Done(output) => at_stage(m, PodmanStageModel::Register(source)),
        WorkModel::Failed(e) => failed(m, e),
    }
}

/// The preparation after an event. An event that does not answer the action changes nothing.
pub open spec fn podman_next(m: PodmanModel, event: EventModel) -> PodmanModel {
    match (m.stage, event) {
        (PodmanStageModel::ReadStatus, EventModel::Text(Ok(text))) => match effective_root(text) {
            Ok(()) => at_stage(m, PodmanStageModel::ReadUidMap),
            Err(e) => failed(m, e.text()),
        },
        (PodmanStageModel::ReadStatus, EventModel::Text(Err(e))) => failed(m, e),
        (PodmanStageModel::ReadUidMap, EventModel::Text(Ok(text))) => match root_of_host(text) {
            Ok(()) => at_stage(m, PodmanStageModel::FindIp(0)),
            Err(e) => failed(m, e.text()),
        },
        (PodmanStageModel::ReadUidMap, EventModel::Text(Err(e))) => failed(m, e),
        (PodmanStageModel::FindIp(at), EventModel::Facts(facts)) => after_ip(m, at, facts),
        (PodmanStageModel::Alias(w), EventModel::Outcome(o)) => after_alias(m, w, o),
        (PodmanStageModel::AskPort, EventModel::Port(Ok(port))) => with_port(m, port),
        (PodmanStageModel::AskPort, EventModel::Port(Err(_))) => at_stage(
            m,
            PodmanStageModel::StartDaemon,
        ),
        (PodmanStageModel::StartDaemon, EventModel::Done(Ok(()))) => at_stage(
            m,
            PodmanStageModel::Waiting(0),
        ),
        (PodmanStageModel::StartDaemon, EventModel::Done(Err(e))) => failed(m, e),
        (PodmanStageModel::Waiting(tries), EventModel::Port(Ok(port))) => with_port(m, port),
        (PodmanStageModel::Waiting(tries), EventModel::Port(Err(_))) => at_stage(
            m,
            PodmanStageModel::Pausing(tries),
        ),
        (PodmanStageModel::Pausing(tries), EventModel::Done(_)) => if tries + 1 < 50 {
            at_stage(m, PodmanStageModel::Waiting((tries + 1) as u32))
        } else {
            failed(m, "external host Dockerwall daemon did not become ready"@)
        },
        (PodmanStageModel::FindRouteIp(at), EventModel::Facts(facts)) => after_route_ip(
            m,
            at,
            facts,
        ),
        (PodmanStageModel::Route(w), EventModel::Outcome(o)) => after_route(m, w, o),
        (PodmanStageModel::FindIpset(at), EventModel::Facts(facts)) => after_ipset(m, at, facts),
        (PodmanStageModel::FindIptables(at), EventModel::Facts(facts)) => after_iptables(
            m,
            at,
            facts,
        ),
        (PodmanStageModel::ListRules(w), EventModel::Outcome(o)) => after_list(m, w, o),
        (PodmanStageModel::Probe { rules, attempt, worker }, EventModel::Outcome(o)) => {
            after_probe(m, rules, attempt, worker, o)
        },
        (PodmanStageModel::Setup { source, worker }, EventModel::Outcome(o)) => after_setup(
            m,
            source,
            worker,
            o,
        ),
        (PodmanStageModel::Register(source), EventModel::Done(Ok(()))) => at_stage(
            m,
            PodmanStageModel::Finished(Ok(podman_notice(source, m.known.interface))),
        ),
        (PodmanStageModel::Register(source), EventModel::Done(Err(e))) => failed(m, e),
        _ => m,
    }
}

/// The action of a stage.
pub open spec fn podman_action(m: PodmanModel) -> ActionModel {
    match m.stage {
        PodmanStageModel::ReadStatus => ActionModel::ReadStatus,
        PodmanStageModel::ReadUidMap => ActionModel::ReadUidMap,
        PodmanStageModel::FindIp(at) => ActionModel::Inspect(Program::Ip.paths()[at as int]),
        PodmanStageModel::Alias(w) => ActionModel::Run(next_command(w)->0),
        PodmanStageModel::AskPort => ActionModel::AskPort,
        PodmanStageModel::StartDaemon => ActionModel::StartDaemon,
        PodmanStageModel::Waiting(_) => ActionModel::AskPort,
        PodmanStageModel::Pausing(_) => ActionModel::Pause,
        PodmanStageModel::FindRouteIp(at) => ActionModel::Inspect(Program::Ip.paths()[at as int]),
        PodmanStageModel::Route(w) => ActionModel::Run(next_command(w)->0),
        PodmanStageModel::FindIpset(at) => ActionModel::Inspect(
            Program::Ipset.paths()[at as int],
        ),
        PodmanStageModel::FindIptables(at) => ActionModel::Inspect(
            Program::Iptables.paths()[at as int],
        ),
        PodmanStageModel::ListRules(w) => ActionModel::Run(next_command(w)->0),
        PodmanStageModel::Probe { worker, .. } => ActionModel::Run(next_command(worker)->0),
        PodmanStageModel::Setup { worker, .. } => ActionModel::Run(next_command(worker)->0),
        PodmanStageModel::Register(source) => ActionModel::Register {
            name: m.name,
            subnet: host_cidr(source),
            patterns: m.patterns,
        },
        PodmanStageModel::Finished(r) => ActionModel::Finish(r),
    }
}

fn one_command_worker(path: &str, args: &[&str]) -> (r: Worker)
    ensures
        r@ == one_command(path@, args@.map_values(|s: &str| s@)),
{
    let mut tasks: Vec<Task> = Vec::new();
    tasks.push(Task::Checked(Command { path: path.to_owned(), args: strings(args) }));
    assert(task_models(tasks@) =~= seq![
        TaskModel::Checked(
            CommandModel { path: path@, args: args@.map_values(|s: &str| s@) },
        ),
    ]);
    Worker::new(tasks)
}

fn probe_worker(ip: &str, name: &str, attempt: u32) -> (r: Worker)
    requires
        attempt < 131069,
    ensures
        r@ == one_command(ip@, show_address(host_cidr(source_ip(name@, attempt as nat)))),
{
    proof {
        lemma_source_start(name@);
    }
    let cidr = to_host_cidr(rootless_podman_source_ip(name, attempt));
    let args = ["-o", "-4", "addr", "show", "to", cidr.as_str()];
    assert(args@.map_values(|s: &str| s@) =~= show_address(cidr@));
    one_command_worker(ip, &args)
}

fn alias_worker(ip: &str) -> (r: Worker)
    ensures
        r@ == one_command(ip@, add_address(ROOTLESS_DNS_CIDR@, "lo"@)),
{
    let args = ["addr", "replace", ROOTLESS_DNS_CIDR, "dev", "lo"];
    assert(args@.map_values(|s: &str| s@) =~= add_address(ROOTLESS_DNS_CIDR@, "lo"@));
    one_command_worker(ip, &args)
}

fn route_worker(ip: &str) -> (r: Worker)
    ensures
        r@ == one_command(ip@, seq!["route"@, "show"@, "default"@]),
{
    let args = ["route", "show", "default"];
    assert(args@.map_values(|s: &str| s@) =~= seq!["route"@, "show"@, "default"@]);
    one_command_worker(ip, &args)
}

fn rules_worker(iptables: &str) -> (r: Worker)
    ensures
        r@ == one_command(iptables@, seq!["-S"@, "OUTPUT"@]),
{
    let args = ["-S", "OUTPUT"];
    assert(args@.map_values(|s: &str| s@) =~= seq!["-S"@, "OUTPUT"@]);
    one_command_worker(iptables, &args)
}

fn to_podman_notice(source: Ipv4Addr, interface: &str) -> (r: String)
    ensures
        r@ == podman_notice(source, interface@),
{
    let mut out = "rootless Podman source IP: ".to_owned();
    source.push_text(&mut out);
    out.append("\nrootless Podman interface: ");
    out.append(interface);
    out.append("\npodman run --network pasta:--outbound,");
    source.push_text(&mut out);
    out.append(" --dns 198.18.0.1 <image> <command>\n");
    out
}

impl PodmanPreparation {
    /// The preparation before its first action.
    pub fn new(name: &str, patterns: &Vec<String>, interface: Option<String>) -> (r:
        PodmanPreparation)
        ensures
            r@ == podman_start(name@, texts(patterns@), optional(interface)),
            podman_ok(r@),
    {
        let r = PodmanPreparation {
            name: name.to_owned(),
            patterns: clone_strings(patterns),
            requested: interface,
            known: Known {
                ip: String::new(),
                port: 0,
                interface: String::new(),
                ipset: String::new(),
                iptables: String::new(),
            },
            stage: PodmanStage::ReadStatus,
        };
        proof {
            let k = r@.known;
            assert(k.ip =~= seq![]);
            assert(k.interface =~= seq![]);
            assert(k.ipset =~= seq![]);
            assert(k.iptables =~= seq![]);
        }
        r
    }

    /// The next action.
    pub fn action(&self) -> (r: Action)
        requires
            podman_ok(self@),
        ensures
            r@ == podman_action(self@),
    {
        match &self.stage {
            PodmanStage::ReadStatus => Action::ReadStatus,
            PodmanStage::ReadUidMap => Action::ReadUidMap,
            PodmanStage::FindIp(at) => Action::Inspect(candidate(Program::Ip, *at)),
            PodmanStage::Alias(w) => Action::Run(w.command()),
            PodmanStage::AskPort => Action::AskPort,
            PodmanStage::StartDaemon => Action::StartDaemon,
            PodmanStage::Waiting(_) => Action::AskPort,
            PodmanStage::Pausing(_) => Action::Pause,
            PodmanStage::FindRouteIp(at) => Action::Inspect(candidate(Program::Ip, *at)),
            PodmanStage::Route(w) => Action::Run(w.command()),
            PodmanStage::FindIpset(at) => Action::Inspect(candidate(Program::Ipset, *at)),
            PodmanStage::FindIptables(at) => Action::Inspect(candidate(Program::Iptables, *at)),
            PodmanStage::ListRules(w) => Action::Run(w.command()),
            PodmanStage::Probe { worker, .. } => Action::Run(worker.command()),
            PodmanStage::Setup { worker, .. } => Action::Run(worker.command()),
            PodmanStage::Register(source) => Action::Register {
                name: self.name.clone(),
                subnet: to_host_cidr(*source),
                patterns: clone_strings(&self.patterns),
            },
            PodmanStage::Finished(r) => Action::Finish(copy_result(r)),
        }
    }

    fn at(self, stage: PodmanStage) -> (r: PodmanPreparation)
        ensures
            r@ == at_stage(self@, stage@),
    {
        PodmanPreparation {
            name: self.name,
            patterns: self.patterns,
            requested: self.requested,
            known: self.known,
            stage,
        }
    }

    fn failed(self, error: String) -> (r: PodmanPreparation)
        ensures
            r@ == failed(self@, error@),
    {
        self.at(PodmanStage::Finished(Err(error)))
    }

    fn not_found(self) -> (r: PodmanPreparation)
        ensures
            r@ == failed(self@, not_found()),
    {
        self.failed("trusted binary not found".to_owned())
    }

    fn with_interface(self, interface: String) -> (r: PodmanPreparation)
        ensures
            r@ == with_interface(self@, interface@),
    {
        PodmanPreparation {
            name: self.name,
            patterns: self.patterns,
            requested: self.requested,
            known: Known {
                ip: self.known.ip,
                port: self.known.port,
                interface,
                ipset: self.known.ipset,
                iptables: self.known.iptables,
            },
            stage: PodmanStage::FindIpset(0),
        }
    }

    fn with_port(self, port: u16) -> (r: PodmanPreparation)
        ensures
            r@ == with_port(self@, port),
            podman_ok(r@),
    {
        let mut p = self;
        p.known.port = port;
        let asked_for: Option<Result<String, InterfaceError>> = match &p.requested {
            Some(interface) => match validate_interface_name(interface.as_str()) {
                Ok(name) => Some(Ok(name.to_owned())),
                Err(e) => Some(Err(e)),
            },
            None => None,
        };
        match asked_for {
            Some(Ok(interface)) => p.with_interface(interface),
            Some(Err(e)) => {
                let message = e.message();
                p.failed(message)
            },
            None => p.at(PodmanStage::FindRouteIp(0)),
        }
    }

    fn with_source(self, source: Ipv4Addr) -> (r: PodmanPreparation)
        requires
            valid_interface(self@.known.interface),
        ensures
            r@ == with_source(self@, source),
            podman_ok(r@),
    {
        let cidr = to_host_cidr(source);
        let tasks = podman_tasks_of(
            self.known.ip.as_str(),
            self.known.ipset.as_str(),
            self.known.iptables.as_str(),
            self.name.as_str(),
            cidr.as_str(),
            self.known.interface.as_str(),
            self.known.port,
        );
        let worker = Worker::new(tasks);
        self.at(PodmanStage::Setup { source, worker })
    }

    fn with_attempt(self, rules: String, from: u32) -> (r: PodmanPreparation)
        requires
            valid_interface(self@.known.interface),
        ensures
            r@ == with_attempt(self@, rules@, from as nat),
            podman_ok(r@),
    {
        match next_attempt(rules.as_str(), self.name.as_str(), from) {
            Some(attempt) => {
                proof {
                    free_attempts_are_the_first(lines_of(rules@), self.name@, from as nat);
                }
                let worker = probe_worker(self.known.ip.as_str(), self.name.as_str(), attempt);
                self.at(PodmanStage::Probe { rules, attempt, worker })
            },
            None => self.failed(
                "all managed rootless Podman source addresses are in use".to_owned(),
            ),
        }
    }

    fn with_rules(self, rules: String) -> (r: PodmanPreparation)
        requires
            valid_interface(self@.known.interface),
        ensures
            r@ == with_rules(self@, rules@),
            podman_ok(r@),
    {
        match existing_source_ip(rules.as_str(), self.name.as_str()) {
            Some(source) => self.with_source(source),
            None => self.with_attempt(rules, 0),
        }
    }

    fn on_text(self, stage: PodmanStage, text: Result<String, String>) -> (r: PodmanPreparation)
        ensures
            r@ == podman_next(at_stage(self@, stage@), EventModel::Text(told(text))),
            podman_ok(at_stage(self@, stage@)) ==> podman_ok(r@),
    {
        match (stage, text) {
            (PodmanStage::ReadStatus, Ok(text)) => match check_effective_uid(text.as_str()) {
                Ok(()) => self.at(PodmanStage::ReadUidMap),
                Err(e) => self.failed(e.message()),
            },
            (PodmanStage::ReadUidMap, Ok(text)) => match check_uid_map(text.as_str()) {
                Ok(()) => self.at(PodmanStage::FindIp(0)),
                Err(e) => self.failed(e.message()),
            },
            (PodmanStage::ReadStatus, Err(e)) => self.failed(e),
            (PodmanStage::ReadUidMap, Err(e)) => self.failed(e),
            (stage, _) => self.at(stage),
        }
    }

    fn on_port(self, stage: PodmanStage, port: Result<u16, String>) -> (r: PodmanPreparation)
        ensures
            r@ == podman_next(at_stage(self@, stage@), Event::Port(port)@),
            podman_ok(at_stage(self@, stage@)) ==> podman_ok(r@),
    {
        match (stage, port) {
            (PodmanStage::AskPort, Ok(port)) => self.with_port(port),
            (PodmanStage::AskPort, Err(_)) => self.at(PodmanStage::StartDaemon),
            (PodmanStage::Waiting(_), Ok(port)) => self.with_port(port),
            (PodmanStage::Waiting(tries), Err(_)) => self.at(PodmanStage::Pausing(tries)),
            (stage, _) => self.at(stage),
        }
    }

    fn on_done(self, stage: PodmanStage, done: Result<(), String>) -> (r: PodmanPreparation)
        requires
            podman_ok(at_stage(self@, stage@)),
        ensures
            r@ == podman_next(at_stage(self@, stage@), Event::Done(done)@),
            podman_ok(r@),
    {
        match (stage, done) {
            (PodmanStage::StartDaemon, Ok(())) => self.at(PodmanStage::Waiting(0)),
            (PodmanStage::StartDaemon, Err(e)) => self.failed(e),
            (PodmanStage::Pausing(tries), _) => if tries + 1 < DAEMON_TRIES {
                self.at(PodmanStage::Waiting(tries + 1))
            } else {
                self.failed("external host Dockerwall daemon did not become ready".to_owned())
            },
            (PodmanStage::Register(source), Ok(())) => {
                let notice = to_podman_notice(source, self.known.interface.as_str());
                self.at(PodmanStage::Finished(Ok(notice)))
            },
            (PodmanStage::Register(_), Err(e)) => self.failed(e),
            (stage, _) => self.at(stage),
        }
    }

    fn find_ip(self, at: usize, facts: Option<FileFacts>) -> (r: PodmanPreparation)
        requires
            at < Program::Ip.paths().len(),
        ensures
            r@ == after_ip(self@, at as nat, facts),
            podman_ok(r@),
    {
        match judge(Program::Ip, at, facts) {
            Search::Found(path) => {
                let worker = alias_worker(path.as_str());
                let mut p = self;
                p.known.ip = path;
                p.at(PodmanStage::Alias(worker))
            },
            Search::Next(at) => self.at(PodmanStage::FindIp(at)),
            Search::Missing => self.not_found(),
        }
    }

    fn find_route_ip(self, at: usize, facts: Option<FileFacts>) -> (r: PodmanPreparation)
        requires
            at < Program::Ip.paths().len(),
        ensures
            r@ == after_route_ip(self@, at as nat, facts),
            podman_ok(r@),
    {
        match judge(Program::Ip, at, facts) {
            Search::Found(path) => {
                self.at(PodmanStage::Route(route_worker(path.as_str())))
            },
            Search::Next(at) => self.at(PodmanStage::FindRouteIp(at)),
            Search::Missing => self.not_found(),
        }
    }

    fn find_ipset(self, at: usize, facts: Option<FileFacts>) -> (r: PodmanPreparation)
        requires
            at < Program::Ipset.paths().len(),
            valid_interface(self@.known.interface),
        ensures
            r@ == after_ipset(self@, at as nat, facts),
            podman_ok(r@),
    {
        match judge(Program::Ipset, at, facts) {
            Search::Found(path) => {
                let mut p = self;
                p.known.ipset = path;
                p.at(PodmanStage::FindIptables(0))
            },
            Search::Next(at) => self.at(PodmanStage::FindIpset(at)),
            Search::Missing => self.not_found(),
        }
    }

    fn find_iptables(self, at: usize, facts: Option<FileFacts>) -> (r: PodmanPreparation)
        requires
            at < Program::Iptables.paths().len(),
            valid_interface(self@.known.interface),
        ensures
            r@ == after_iptables(self@, at as nat, facts),
            podman_ok(r@),
    {
        match judge(Program::Iptables, at, facts) {
            Search::Found(path) => {
                let worker = rules_worker(path.as_str());
                let mut p = self;
                p.known.iptables = path;
                p.at(PodmanStage::ListRules(worker))
            },
            Search::Next(at) => self.at(PodmanStage::FindIptables(at)),
            Search::Missing => self.not_found(),
        }
    }

    fn on_facts(self, stage: PodmanStage, facts: Option<FileFacts>) -> (r: PodmanPreparation)
        requires
            podman_ok(at_stage(self@, stage@)),
        ensures
            r@ == podman_next(at_stage(self@, stage@), EventModel::Facts(facts)),
            podman_ok(r@),
    {
        match stage {
            PodmanStage::FindIp(at) => self.find_ip(at, facts),
            PodmanStage::FindRouteIp(at) => self.find_route_ip(at, facts),
            PodmanStage::FindIpset(at) => self.find_ipset(at, facts),
            PodmanStage::FindIptables(at) => self.find_iptables(at, facts),
            stage => self.at(stage),
        }
    }

    fn work_on_route(self, worker: Worker, outcome: Outcome) -> (r: PodmanPreparation)
        requires
            worker@.tasks.len() > 0,
        ensures
            r@ == after_route(self@, worker@, outcome@),
            podman_ok(r@),
    {
        match work(worker, outcome) {
            Work::More(w) => self.at(PodmanStage::Route(w)),
            Work::Done(routes) => match default_route_interface(routes.as_str()) {
                Ok(interface) => {
                    proof {
                        routes_have_valid_interfaces(lines_of(routes@));
                    }
                    self.with_interface(interface)
                },
                Err(e) => self.failed(e.message()),
            },
            Work::Failed(e) => self.failed(e),
        }
    }

    fn work_on_list(self, worker: Worker, outcome: Outcome) -> (r: PodmanPreparation)
        requires
            worker@.tasks.len() > 0,
            valid_interface(self@.known.interface),
        ensures
            r@ == after_list(self@, worker@, outcome@),
            podman_ok(r@),
    {
        match work(worker, outcome) {
            Work::More(w) => self.at(PodmanStage::ListRules(w)),
            Work::Done(rules) => self.with_rules(rules),
            Work::Failed(e) => self.failed(e),
        }
    }

    fn work_on_probe(self, rules: String, attempt: u32, worker: Worker, outcome: Outcome) -> (r:
        PodmanPreparation)
        requires
            worker@.tasks.len() > 0,
            attempt < 131069,
            valid_interface(self@.known.interface),
        ensures
            r@ == after_probe(self@, rules@, attempt, worker@, outcome@),
            podman_ok(r@),
    {
        match work(worker, outcome) {
            Work::More(worker) => self.at(PodmanStage::Probe { rules, attempt, worker }),
            Work::Done(output) => if chars(output.as_str()).len() == 0 {
                proof {
                    lemma_source_start(self.name@);
                }
                let source = rootless_podman_source_ip(self.name.as_str(), attempt);
                self.with_source(source)
            } else {
                self.with_attempt(rules, attempt + 1)
            },
            Work::Failed(e) => self.failed(e),
        }
    }

    fn on_outcome(self, stage: PodmanStage, outcome: Outcome) -> (r: PodmanPreparation)
        requires
            podman_ok(at_stage(self@, stage@)),
        ensures
            r@ == podman_next(at_stage(self@, stage@), EventModel::Outcome(outcome@)),
            podman_ok(r@),
    {
        match stage {
            PodmanStage::Alias(w) => match work(w, outcome) {
                Work::More(w) => self.at(PodmanStage::Alias(w)),
                Work::Done(_) => self.at(PodmanStage::AskPort),
                Work::Failed(e) => self.failed(e),
            },
            PodmanStage::Route(w) => self.work_on_route(w, outcome),
            PodmanStage::ListRules(w) => self.work_on_list(w, outcome),
            PodmanStage::Probe { rules, attempt, worker } => {
                self.work_on_probe(rules, attempt, worker, outcome)
            },
            PodmanStage::Setup { source, worker } => match work(worker, outcome) {
                Work::More(worker) => self.at(PodmanStage::Setup { source, worker }),
                Work::Done(_) => self.at(PodmanStage::Register(source)),
                Work::Failed(e) => self.failed(e),
            },
            stage => self.at(stage),
        }
    }

    /// The preparation after what came of its action.
    pub fn next(self, event: Event) -> (r: PodmanPreparation)
        requires
            podman_ok(self@),
        ensures
            r@ == podman_next(self@, event@),
            podman_ok(r@),
    {
        let ghost before = self@;
        let mut p = self;
        let mut stage = PodmanStage::AskPort;
        std::mem::swap(&mut p.stage, &mut stage);
        assert(at_stage(p@, stage@) == before);
        match event {
            Event::Text(text) => p.on_text(stage, text),
            Event::Port(port) => p.on_port(stage, port),
            Event::Done(done) => p.on_done(stage, done),
            Event::Facts(facts) => p.on_facts(stage, facts),
            Event::Outcome(outcome) => p.on_outcome(stage, outcome),
        }
    }
}

// ---------------------------------------------------------------------------
// Laws

/// The process is not known to be root of the host yet.
pub open spec fn unproven(stage: PodmanStageModel) -> bool {
    stage is ReadStatus || stage is ReadUidMap
}

/// The preparation of a rootless Podman network looks for no program, runs no command and
/// starts no daemon until the kernel told that the process is root, and root of the host.
pub proof fn podman_waits_for_root_of_the_host(m: PodmanModel, event: EventModel)
    requires
        unproven(m.stage),
    ensures
        podman_action(m) is ReadStatus || podman_action(m) is ReadUidMap,
        ({
            let stage = podman_next(m, event).stage;
            &&& m.stage is ReadStatus && stage is ReadUidMap ==> (event matches EventModel::Text(
                Ok(text),
            ) && effective_root(text) is Ok)
            &&& !unproven(stage) && stage !is Finished ==> m.stage is ReadUidMap && (
            event matches EventModel::Text(Ok(text)) && root_of_host(text) is Ok)
        }),
{
}

/// A rootless Podman network that is hooked into the host's output chain keeps its source
/// address. One that is not gets an address that no rule of the chain and no interface has.
pub proof fn podman_networks_keep_their_source_address(
    m: PodmanModel,
    event: EventModel,
    source: Ipv4Addr,
)
    requires
        podman_ok(m),
        m.stage !is Setup,
        podman_next(m, event).stage matches PodmanStageModel::Setup { source: s, .. } && s
            == source,
    ensures
        match m.stage {
            PodmanStageModel::ListRules(w) => {
                &&& event matches EventModel::Outcome(o)
                &&& worked(w, o) matches WorkModel::Done(rules)
                &&& hooked_source(lines_of(rules), m.name) == Some(source)
            },
            PodmanStageModel::Probe { rules, attempt, worker } => {
                &&& event matches EventModel::Outcome(o)
                &&& worked(worker, o) matches WorkModel::Done(shown)
                &&& shown.len() == 0
                &&& source == source_ip(m.name, attempt as nat)
            },
            _ => false,
        },
{
}

/// An address is looked at only if no rule of the host's output chain speaks of it.
pub proof fn podman_probes_free_addresses(m: PodmanModel, rules: Seq<char>, from: nat)
    ensures
        with_attempt(m, rules, from).stage matches PodmanStageModel::Probe { attempt, .. } ==> from
            <= attempt < 131069 && !taken(
            lines_of(rules),
            source_ip(m.name, attempt as nat),
        ),
{
    free_attempts_are_the_first(lines_of(rules), m.name, from);
}

/// The preparation of a rootless Podman network after several events.
pub open spec fn podman_after(m: PodmanModel, events: Seq<EventModel>) -> PodmanModel
    decreases events.len(),
{
    if events.len() == 0 {
        m
    } else {
        podman_next(podman_after(m, events.drop_last()), events.last())
    }
}

/// Whether tasks are those for a network with a source address, but for the first `done`.
pub open spec fn left_of(
    tasks: Seq<TaskModel>,
    k: KnownModel,
    name: Seq<char>,
    source: Ipv4Addr,
    done: int,
) -> bool {
    let all = podman_tasks(
        k.ip,
        k.ipset,
        k.iptables,
        name,
        host_cidr(source),
        k.interface,
        k.port,
    );
    0 <= done < all.len() && tasks == all.skip(done)
}

/// Whether tasks are the end of those for a network with a source address.
pub open spec fn ends_the_tasks_for(
    tasks: Seq<TaskModel>,
    k: KnownModel,
    name: Seq<char>,
    source: Ipv4Addr,
) -> bool {
    exists|done: int| left_of(tasks, k, name, source, done)
}

/// Whether the interface of a network is settled.
pub open spec fn has_interface(stage: PodmanStageModel) -> bool {
    stage is FindIpset || stage is FindIptables || stage is ListRules || stage is Probe
        || stage is Setup || stage is Register
}

/// Whether a text tells of a network that is ready.
pub open spec fn is_notice(text: Seq<char>, interface: Seq<char>) -> bool {
    exists|source: Ipv4Addr| text == #[trigger] podman_notice(source, interface)
}

/// Whether the work of a stage is what the stage is for.
pub open spec fn works_as_known(m: PodmanModel) -> bool {
    let k = m.known;
    &&& has_interface(m.stage) ==> (m.requested matches Some(interface) ==> k.interface
        == interface)
    &&& match m.stage {
        PodmanStageModel::Alias(w) => w == one_command(
            k.ip,
            seq!["addr"@, "replace"@, "198.18.0.1/32"@, "dev"@, "lo"@],
        ),
        PodmanStageModel::FindRouteIp(_) => m.requested is None,
        PodmanStageModel::Route(w) => m.requested is None && w.tasks.len() == 1 && (
        w.tasks[0] matches TaskModel::Checked(c) && c.args == seq![
            "route"@,
            "show"@,
            "default"@,
        ]),
        PodmanStageModel::ListRules(w) => w == one_command(k.iptables, seq!["-S"@, "OUTPUT"@]),
        PodmanStageModel::Probe { attempt, worker, .. } => worker == one_command(
            k.ip,
            seq![
                "-o"@,
                "-4"@,
                "addr"@,
                "show"@,
                "to"@,
                source_ip(m.name, attempt as nat).text() + "/32"@,
            ],
        ),
        PodmanStageModel::Setup { source, worker } => ends_the_tasks_for(
            worker.tasks,
            k,
            m.name,
            source,
        ),
        PodmanStageModel::Finished(Ok(text)) => is_notice(text, k.interface) && (
        m.requested matches Some(interface) ==> k.interface == interface),
        _ => true,
    }
}

proof fn lemma_tasks_left(
    w: WorkerModel,
    outcome: OutcomeModel,
    k: KnownModel,
    name: Seq<char>,
    source: Ipv4Addr,
)
    requires
        ends_the_tasks_for(w.tasks, k, name, source),
    ensures
        worked(w, outcome) matches WorkModel::More(v) ==> ends_the_tasks_for(
            v.tasks,
            k,
            name,
            source,
        ),
{
    let done = choose|done: int| left_of(w.tasks, k, name, source, done);
    let all = podman_tasks(
        k.ip,
        k.ipset,
        k.iptables,
        name,
        host_cidr(source),
        k.interface,
        k.port,
    );
    assert(all.skip(done).skip(1) =~= all.skip(done + 1));
    if let WorkModel::More(v) = worked(w, outcome) {
        if v.tasks == w.tasks {
            assert(left_of(v.tasks, k, name, source, done));
        } else {
            assert(v.tasks == w.tasks.skip(1));
            assert(left_of(v.tasks, k, name, source, done + 1));
        }
    }
}

proof fn lemma_set_up(m: PodmanModel, source: Ipv4Addr)
    ensures
        with_source(m, source).stage matches PodmanStageModel::Setup { source: s, worker } && s
            == source && ends_the_tasks_for(worker.tasks, m.known, m.name, source),
{
    let k = m.known;
    let all = podman_tasks(
        k.ip,
        k.ipset,
        k.iptables,
        m.name,
        host_cidr(source),
        k.interface,
        k.port,
    );
    assert(all.skip(0) =~= all);
    assert(left_of(all, k, m.name, source, 0));
}

proof fn lemma_one_command(w: WorkerModel, outcome: OutcomeModel)
    requires
        w.tasks.len() == 1,
        w.tasks[0] is Checked,
    ensures
        worked(w, outcome) !is More,
{
}

proof fn lemma_probe(m: PodmanModel, rules: Seq<char>, from: nat)
    requires
        has_interface(m.stage),
        works_as_known(m),
    ensures
        works_as_known(with_attempt(m, rules, from)),
{
    free_attempts_are_the_first(lines_of(rules), m.name, from);
}

/// Whether a preparation is one for the same network, in order and at work as known.
spec fn goes_on(m: PodmanModel, n: PodmanModel) -> bool {
    &&& podman_ok(n)
    &&& works_as_known(n)
    &&& n.name == m.name
    &&& n.patterns == m.patterns
    &&& n.requested == m.requested
}

proof fn lemma_after_list(m: PodmanModel, w: WorkerModel, o: OutcomeModel)
    requires
        podman_ok(m),
        works_as_known(m),
        m.stage == PodmanStageModel::ListRules(w),
    ensures
        goes_on(m, after_list(m, w, o)),
{
    lemma_one_command(w, o);
    if let WorkModel::Done(rules) = worked(w, o) {
        match hooked_source(lines_of(rules), m.name) {
            Some(source) => {
                lemma_set_up(m, source);
            },
            None => {
                lemma_probe(m, rules, 0);
                free_attempts_are_the_first(lines_of(rules), m.name, 0);
            },
        }
    }
}

proof fn lemma_after_probe(
    m: PodmanModel,
    rules: Seq<char>,
    attempt: u32,
    w: WorkerModel,
    o: OutcomeModel,
)
    requires
        podman_ok(m),
        works_as_known(m),
        m.stage == (PodmanStageModel::Probe { rules, attempt, worker: w }),
    ensures
        goes_on(m, after_probe(m, rules, attempt, w, o)),
{
    lemma_one_command(w, o);
    lemma_set_up(m, source_ip(m.name, attempt as nat));
    lemma_probe(m, rules, (attempt + 1) as nat);
    free_attempts_are_the_first(lines_of(rules), m.name, (attempt + 1) as nat);
}

proof fn lemma_after_setup(m: PodmanModel, source: Ipv4Addr, w: WorkerModel, o: OutcomeModel)
    requires
        podman_ok(m),
        works_as_known(m),
        m.stage == (PodmanStageModel::Setup { source, worker: w }),
    ensures
        goes_on(m, after_setup(m, source, w, o)),
{
    lemma_tasks_left(w, o, m.known, m.name, source);
}

proof fn lemma_after_route(m: PodmanModel, w: WorkerModel, o: OutcomeModel)
    requires
        podman_ok(m),
        works_as_known(m),
        m.stage == PodmanStageModel::Route(w),
    ensures
        goes_on(m, after_route(m, w, o)),
{
    lemma_one_command(w, o);
    if let WorkModel::Done(output) = worked(w, o) {
        routes_have_valid_interfaces(lines_of(output));
    }
}

proof fn lemma_after_alias(m: PodmanModel, w: WorkerModel, o: OutcomeModel)
    requires
        podman_ok(m),
        works_as_known(m),
        m.stage == PodmanStageModel::Alias(w),
    ensures
        goes_on(m, after_alias(m, w, o)),
{
    lemma_one_command(w, o);
}

proof fn lemma_after_outcome(m: PodmanModel, o: OutcomeModel)
    requires
        podman_ok(m),
        works_as_known(m),
    ensures
        goes_on(m, podman_next(m, EventModel::Outcome(o))),
{
    match m.stage {
        PodmanStageModel::Alias(w) => {
            lemma_after_alias(m, w, o);
        },
        PodmanStageModel::Route(w) => {
            lemma_after_route(m, w, o);
        },
        PodmanStageModel::ListRules(w) => {
            lemma_after_list(m, w, o);
        },
        PodmanStageModel::Probe { rules, attempt, worker } => {
            lemma_after_probe(m, rules, attempt, worker, o);
        },
        PodmanStageModel::Setup { source, worker } => {
            lemma_after_setup(m, source, worker, o);
        },
        _ => {},
    }
}

proof fn lemma_after_facts(m: PodmanModel, facts: Option<FileFacts>)
    requires
        podman_ok(m),
        works_as_known(m),
    ensures
        goes_on(m, podman_next(m, EventModel::Facts(facts))),
{
}

proof fn lemma_after_text(m: PodmanModel, text: Result<Seq<char>, Seq<char>>)
    requires
        podman_ok(m),
        works_as_known(m),
    ensures
        goes_on(m, podman_next(m, EventModel::Text(text))),
{
}

proof fn lemma_with_port(m: PodmanModel, port: u16)
    ensures
        goes_on(m, with_port(m, port)),
{
    let n = with_port(m, port);
    match m.requested {
        Some(interface) => {
            if valid_interface(interface) {
                assert(n.stage == PodmanStageModel::FindIpset(0));
                assert(n.known.interface == interface);
            } else {
                assert(n.stage == PodmanStageModel::Finished(
                    Err(InterfaceError::InvalidName.text()),
                ));
            }
        },
        None => {
            assert(n.stage == PodmanStageModel::FindRouteIp(0));
        },
    }
}

proof fn lemma_after_port(m: PodmanModel, port: Result<u16, Seq<char>>)
    requires
        podman_ok(m),
        works_as_known(m),
    ensures
        goes_on(m, podman_next(m, EventModel::Port(port))),
{
    if let Ok(p) = port {
        lemma_with_port(m, p);
    }
}

proof fn lemma_after_done(m: PodmanModel, done: Result<(), Seq<char>>)
    requires
        podman_ok(m),
        works_as_known(m),
    ensures
        goes_on(m, podman_next(m, EventModel::Done(done))),
{
    if let PodmanStageModel::Register(source) = m.stage {
        assert(is_notice(podman_notice(source, m.known.interface), m.known.interface));
    }
}

proof fn lemma_podman_step(m: PodmanModel, event: EventModel)
    requires
        podman_ok(m),
        works_as_known(m),
    ensures
        goes_on(m, podman_next(m, event)),
{
    match event {
        EventModel::Outcome(o) => {
            lemma_after_outcome(m, o);
        },
        EventModel::Facts(facts) => {
            lemma_after_facts(m, facts);
        },
        EventModel::Done(done) => {
            lemma_after_done(m, done);
        },
        EventModel::Port(port) => {
            lemma_after_port(m, port);
        },
        EventModel::Text(text) => {
            lemma_after_text(m, text);
        },
    }
}

proof fn lemma_podman_after(
    name: Seq<char>,
    patterns: Seq<Seq<char>>,
    requested: Option<Seq<char>>,
    events: Seq<EventModel>,
)
    ensures
        ({
            let m = podman_after(podman_start(name, patterns, requested), events);
            &&& podman_ok(m)
            &&& works_as_known(m)
            &&& m.name == name
            &&& m.patterns == patterns
            &&& m.requested == requested
        }),
    decreases events.len(),
{
    if events.len() > 0 {
        lemma_podman_after(name, patterns, requested, events.drop_last());
        let m = podman_after(podman_start(name, patterns, requested), events.drop_last());
        lemma_podman_step(m, events.last());
        assert(goes_on(m, podman_next(m, events.last())));
    }
}

/// Whatever happened since a preparation began: when the daemon is told of the network, it is
/// told the name and all the patterns that were asked for, in their order, and the source address
/// alone as the subnet. The interface is the one that was asked for, if one was.
pub proof fn podman_networks_are_registered_as_asked(
    name: Seq<char>,
    patterns: Seq<Seq<char>>,
    requested: Option<Seq<char>>,
    events: Seq<EventModel>,
)
    ensures
        ({
            let m = podman_after(podman_start(name, patterns, requested), events);
            podman_action(m) matches ActionModel::Register { name: n, subnet, patterns: p } ==> {
                &&& n == name
                &&& p == patterns
                &&& m.stage matches PodmanStageModel::Register(source)
                &&& subnet == source.text() + "/32"@
                &&& requested matches Some(interface) ==> m.known.interface == interface
            }
        }),
{
    lemma_podman_after(name, patterns, requested, events);
}

/// Whatever happened since a preparation began: a command that is run is the one that the stage
/// is for, and one that sets the network up belongs to the tasks for its name, its source address,
/// its interface and the port of the daemon.
pub proof fn podman_commands_follow_what_is_known(
    name: Seq<char>,
    patterns: Seq<Seq<char>>,
    requested: Option<Seq<char>>,
    events: Seq<EventModel>,
)
    ensures
        ({
            let m = podman_after(podman_start(name, patterns, requested), events);
            &&& podman_ok(m)
            &&& works_as_known(m)
            &&& m.name == name
            &&& m.requested == requested
        }),
{
    lemma_podman_after(name, patterns, requested, events);
}

/// What is said of a network that is ready shows its source address, its interface, and how to run
/// a container in it.
pub proof fn the_notice_shows_the_network(source: Ipv4Addr, interface: Seq<char>)
    ensures
        shows(podman_notice(source, interface), "source IP: "@ + source.text() + "\n"@),
        shows(podman_notice(source, interface), "interface: "@ + interface + "\n"@),
        shows(
            podman_notice(source, interface),
            "podman run --network pasta:--outbound,"@ + source.text() + " --dns 198.18.0.1 "@,
        ),
{
    reveal_strlit("rootless Podman source IP: ");
    reveal_strlit("\nrootless Podman interface: ");
    reveal_strlit("\npodman run --network pasta:--outbound,");
    reveal_strlit(" --dns 198.18.0.1 <image> <command>\n");
    reveal_strlit("rootless Podman ");
    reveal_strlit("source IP: ");
    reveal_strlit("\n");
    reveal_strlit("interface: ");
    reveal_strlit("podman run --network pasta:--outbound,");
    reveal_strlit(" --dns 198.18.0.1 ");
    reveal_strlit("<image> <command>\n");
    let s = source.text();
    let head = "rootless Podman "@;
    let run = "podman run --network pasta:--outbound,"@;
    let dns = " --dns 198.18.0.1 "@;
    let rest = "<image> <command>\n"@;
    let first = "source IP: "@ + s + "\n"@;
    let second = "interface: "@ + interface + "\n"@;
    let third = run + s + dns;
    assert("rootless Podman source IP: "@ =~= head + "source IP: "@);
    assert("\nrootless Podman interface: "@ =~= "\n"@ + head + "interface: "@);
    assert("\npodman run --network pasta:--outbound,"@ =~= "\n"@ + run);
    assert(" --dns 198.18.0.1 <image> <command>\n"@ =~= dns + rest);
    let all = podman_notice(source, interface);
    assert(all =~= head + first + (head + second + third + rest));
    a_text_shows_its_parts(head, first, head + second + third + rest);
    assert(all =~= head + first + head + second + (third + rest));
    a_text_shows_its_parts(head + first + head, second, third + rest);
    assert(all =~= head + first + head + second + third + rest);
    a_text_shows_its_parts(head + first + head + second, third, rest);
}

/// The port that a daemon tells is the port of the network; nothing else changes it.
pub proof fn the_port_is_what_the_daemon_tells(m: PodmanModel, event: EventModel, port: u16)
    ensures
        (m.stage is AskPort || m.stage is Waiting) && event == EventModel::Port(Ok(port))
            ==> podman_next(m, event).known.port == port,
        !((m.stage is AskPort || m.stage is Waiting) && (event matches EventModel::Port(r) && r
            is Ok)) ==> podman_next(m, event).known.port == m.known.port,
{
}

/// A daemon is started only where none answered, and then waited for.
pub proof fn a_daemon_is_started_only_if_none_answers(m: PodmanModel, event: EventModel)
    requires
        m.stage !is StartDaemon,
        podman_next(m, event).stage is StartDaemon,
    ensures
        m.stage is AskPort,
        event matches EventModel::Port(r) && r is Err,
{
}

/// Whether events are those of a daemon that does not answer: each time it is asked for its port
/// it gives none, and a pause follows.
pub open spec fn unanswered(events: Seq<EventModel>) -> bool {
    &&& events.len() % 2 == 0
    &&& forall|i: int|
        0 <= i < events.len() ==> if i % 2 == 0 {
            (#[trigger] events[i]) matches EventModel::Port(r) && r is Err
        } else {
            events[i] is Done
        }
}

/// A daemon that was started and does not answer is asked fifty times, with a pause after each
/// time; then the preparation fails.
pub proof fn a_silent_daemon_is_asked_fifty_times(m: PodmanModel, events: Seq<EventModel>)
    requires
        m.stage == PodmanStageModel::Waiting(0),
        unanswered(events),
        events.len() <= 100,
    ensures
        events.len() < 100 ==> podman_after(m, events).stage == PodmanStageModel::Waiting(
            (events.len() / 2) as u32,
        ),
        events.len() == 100 ==> (podman_after(m, events).stage matches PodmanStageModel::Finished(r)
            && r is Err),
    decreases events.len(),
{
    if events.len() > 0 {
        let one = events.drop_last();
        let two = one.drop_last();
        let n = events.len() as int;
        assert forall|i: int| 0 <= i < two.len() implies if i % 2 == 0 {
            (#[trigger] two[i]) matches EventModel::Port(r) && r is Err
        } else {
            two[i] is Done
        } by {
            assert(two[i] == events[i]);
        }
        a_silent_daemon_is_asked_fifty_times(m, two);
        assert(one.last() == events[n - 2]);
        assert(events.last() == events[n - 1]);
        assert((n - 2) % 2 == 0);
        assert((n - 1) % 2 == 1);
        let tries = (two.len() / 2) as u32;
        assert(podman_after(m, one).stage == PodmanStageModel::Pausing(tries));
        assert(podman_after(m, events) == podman_next(podman_after(m, one), events.last()));
    }
}

/// A program is run only if what was found at its path is trusted: where a search ends with a
/// command, the program of the command, or one that is kept for later commands, was just looked
/// at.
pub proof fn podman_programs_are_trusted(m: PodmanModel, event: EventModel)
    requires
        podman_ok(m),
        podman_action(m) is Inspect,
    ensures
        ({
            let n = podman_next(m, event);
            let path = podman_action(m)->Inspect_0;
            let found = event matches EventModel::Facts(facts) && trusted(facts);
            &&& podman_action(n) matches ActionModel::Run(c) ==> found && c.path == path
            &&& n.known.ip != m.known.ip ==> found && n.known.ip == path && m.stage is FindIp
            &&& n.known.ipset != m.known.ipset ==> found && n.known.ipset == path
                && m.stage is FindIpset
            &&& n.known.iptables != m.known.iptables ==> found && n.known.iptables == path
                && m.stage is FindIptables
            &&& found ==> podman_action(n) is Run || n.stage == PodmanStageModel::FindIptables(0)
        }),
{
}

/// A preparation that is over stays over, whatever happens.
pub proof fn what_is_over_stays_over(m: PodmanModel, event: EventModel)
    requires
        m.stage is Finished,
    ensures
        podman_next(m, event) == m,
        podman_action(m) matches ActionModel::Finish(r) && m.stage == PodmanStageModel::Finished(r),
{
}

/// A failure that is told is what the preparation fails with.
pub proof fn podman_failures_are_passed_on(m: PodmanModel, event: EventModel, e: Seq<char>)
    requires
        podman_ok(m),
    ensures
        (m.stage is ReadStatus || m.stage is ReadUidMap) && event == EventModel::Text(Err(e))
            ==> podman_next(m, event).stage == PodmanStageModel::Finished(Err(e)),
        (m.stage is StartDaemon || m.stage is Register) && event == EventModel::Done(Err(e))
            ==> podman_next(m, event).stage == PodmanStageModel::Finished(Err(e)),
        (m.stage matches PodmanStageModel::Setup { worker, .. } && (
        event matches EventModel::Outcome(o) && (worked(worker, o) matches WorkModel::Failed(f) && f
            == e))) ==> podman_next(m, event).stage == PodmanStageModel::Finished(Err(e)),
{
}

/// The interface of a network is the one that was asked for, or the one that the default route
/// goes through; nothing else settles it.
pub proof fn the_interface_is_asked_for_or_routed(m: PodmanModel, event: EventModel)
    requires
        podman_ok(m),
    ensures
        ({
            let n = podman_next(m, event);
            &&& n.known.interface != m.known.interface ==> m.requested == Some(n.known.interface)
                || (m.stage matches PodmanStageModel::Route(w) && (event matches EventModel::Outcome(
                o,
            ) && (worked(w, o) matches WorkModel::Done(output) && route_interface(lines_of(output))
                == Ok::<Seq<char>, InterfaceError>(n.known.interface))))
            &&& (m.stage matches PodmanStageModel::Route(w) && (event matches EventModel::Outcome(o)
                && (worked(w, o) matches WorkModel::Done(output) && route_interface(
                lines_of(output),
            ) is Err))) ==> n.stage is Finished
        }),
{
}

/// The worker of a stage at which commands are run.
pub open spec fn worker_of(stage: PodmanStageModel) -> Option<WorkerModel> {
    match stage {
        PodmanStageModel::Alias(w) => Some(w),
        PodmanStageModel::Route(w) => Some(w),
        PodmanStageModel::ListRules(w) => Some(w),
        PodmanStageModel::Probe { worker, .. } => Some(worker),
        PodmanStageModel::Setup { worker, .. } => Some(worker),
        _ => None,
    }
}

/// Work that fails ends the preparation with its error, at whichever stage; work of which more is
/// left goes on at its stage.
pub proof fn podman_work_ends_with_its_error(m: PodmanModel, o: OutcomeModel)
    requires
        worker_of(m.stage) is Some,
    ensures
        ({
            let n = podman_next(m, EventModel::Outcome(o));
            match worked(worker_of(m.stage)->0, o) {
                WorkModel::Failed(e) => n.stage == PodmanStageModel::Finished(Err(e)),
                WorkModel::More(v) => worker_of(n.stage) == Some(v) && n.known == m.known,
                WorkModel::Done(_) => true,
            }
        }),
{
}

/// Once the rules of the output chain are listed, a network that is hooked into it is set up with
/// the source address that it has, and another one looks for the first address that no rule
/// speaks of. An address that an interface has is passed over.
pub proof fn podman_looks_for_a_source_address_only_if_it_has_none(m: PodmanModel, o: OutcomeModel)
    ensures
        ({
            let n = podman_next(m, EventModel::Outcome(o));
            &&& m.stage matches PodmanStageModel::ListRules(w) ==> (worked(
                w,
                o,
            ) matches WorkModel::Done(rules) ==> match hooked_source(lines_of(rules), m.name) {
                Some(source) => n.stage matches PodmanStageModel::Setup { source: s, .. } && s
                    == source,
                None => match free_attempt(lines_of(rules), m.name, 0) {
                    Some(attempt) => n.stage matches PodmanStageModel::Probe {
                        rules: r,
                        attempt: a,
                        ..
                    } && r == rules && a == attempt,
                    None => n.stage is Finished,
                },
            })
            &&& m.stage matches PodmanStageModel::Probe { rules, attempt, worker } ==> (worked(
                worker,
                o,
            ) matches WorkModel::Done(shown) ==> if shown.len() == 0 {
                n.stage matches PodmanStageModel::Setup { source: s, .. } && s == source_ip(
                    m.name,
                    attempt as nat,
                )
            } else {
                match free_attempt(lines_of(rules), m.name, (attempt + 1) as nat) {
                    Some(next) => n.stage matches PodmanStageModel::Probe {
                        rules: r,
                        attempt: a,
                        ..
                    } && r == rules && a == next,
                    None => n.stage is Finished,
                }
            })
        }),
{
}

/// What succeeds leads on: from the address for questions to the port of the daemon, to starting
/// one where none answers, to waiting for it; and from the tasks of a network to telling the
/// daemon of it, with the source address that was set up, and to the notice on it.
pub proof fn podman_goes_from_step_to_step(m: PodmanModel, event: EventModel)
    ensures
        ({
            let n = podman_next(m, event);
            &&& (m.stage matches PodmanStageModel::Alias(w) && (event matches EventModel::Outcome(o)
                && worked(w, o) is Done)) ==> podman_action(n) is AskPort
            &&& m.stage is AskPort && (event matches EventModel::Port(r) && r is Err)
                ==> podman_action(n) is StartDaemon
            &&& m.stage is StartDaemon && (event matches EventModel::Done(r) && r is Ok) ==> n.stage
                == PodmanStageModel::Waiting(0)
            &&& (m.stage matches PodmanStageModel::Setup { worker, .. } && (
            event matches EventModel::Outcome(o) && worked(worker, o) is Done)) ==> n.stage
                == PodmanStageModel::Register(m.stage->Setup_source)
            &&& m.stage is Register && (event matches EventModel::Done(r) && r is Ok) ==> n.stage
                == PodmanStageModel::Finished(
                Ok(podman_notice(m.stage->Register_0, m.known.interface)),
            )
        }),
{
}

} // verus!
