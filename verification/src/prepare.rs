//! Preparing a network: what is done first, what follows what comes of it, and when it ends.
//!
//! A preparation names its next [`Action`]. Whoever carries it out hands back an [`Event`], and
//! gets the preparation after it.

use vstd::prelude::*;

use crate::cli::ContainerRuntime;
use crate::docker::{
    docker_action, docker_next, docker_stage_ok, docker_start, docker_step, DockerModel,
    DockerPreparation,
};
use crate::network::free_attempt;
use crate::podman::{
    podman_action, podman_next, podman_ok, podman_start, with_attempt, PodmanModel,
    PodmanPreparation, PodmanStageModel,
};
use crate::tasks::{after_command, Command, CommandModel, Outcome, OutcomeModel, Worker, WorkerModel};
use crate::text::{lines_of, texts};
use crate::trust::FileFacts;

verus! {

/// Something to be carried out.
#[derive(Debug)]
pub enum Action {
    /// The status of this process is to be read.
    ReadStatus,
    /// The user mapping of this process is to be read.
    ReadUidMap,
    /// The daemon is to be asked for its port.
    AskPort,
    /// A daemon is to be started.
    StartDaemon,
    /// A tenth of a second is to pass.
    Pause,
    /// It is to be reported why an attempt failed, and a tenth of a second is to pass.
    Retry { attempt: u32, error: String },
    /// A file is to be looked at.
    Inspect(String),
    /// A command is to be run.
    Run(Command),
    /// The daemon is to be told of a network.
    Register { name: String, subnet: String, patterns: Vec<String> },
    /// The preparation is over. What it says is to be printed, or why it failed.
    Finish(Result<String, String>),
}

/// What an [`Action`] holds.
pub enum ActionModel {
    ReadStatus,
    ReadUidMap,
    AskPort,
    StartDaemon,
    Pause,
    Retry { attempt: u32, error: Seq<char> },
    Inspect(Seq<char>),
    Run(CommandModel),
    Register { name: Seq<char>, subnet: Seq<char>, patterns: Seq<Seq<char>> },
    Finish(Result<Seq<char>, Seq<char>>),
}

/// What a result of texts holds.
pub open spec fn told(r: Result<String, String>) -> Result<Seq<char>, Seq<char>> {
    match r {
        Ok(s) => Ok(s@),
        Err(e) => Err(e@),
    }
}

impl View for Action {
    type V = ActionModel;

    open spec fn view(&self) -> ActionModel {
        match self {
            Action::ReadStatus => ActionModel::ReadStatus,
            Action::ReadUidMap => ActionModel::ReadUidMap,
            Action::AskPort => ActionModel::AskPort,
            Action::StartDaemon => ActionModel::StartDaemon,
            Action::Pause => ActionModel::Pause,
            Action::Retry { attempt, error } => ActionModel::Retry {
                attempt: *attempt,
                error: error@,
            },
            Action::Inspect(path) => ActionModel::Inspect(path@),
            Action::Run(c) => ActionModel::Run(c@),
            Action::Register { name, subnet, patterns } => ActionModel::Register {
                name: name@,
                subnet: subnet@,
                patterns: texts(patterns@),
            },
            Action::Finish(r) => ActionModel::Finish(told(*r)),
        }
    }
}

/// What came of an action.
#[derive(Debug)]
pub enum Event {
    /// What was read, or why it could not be.
    Text(Result<String, String>),
    /// The port of the daemon, or why it is not known.
    Port(Result<u16, String>),
    /// It was done, or why it could not be.
    Done(Result<(), String>),
    /// What there is to see in a file; `None` where it cannot be looked at.
    Facts(Option<FileFacts>),
    /// What came of a command.
    Outcome(Outcome),
}

/// What an [`Event`] holds.
pub enum EventModel {
    Text(Result<Seq<char>, Seq<char>>),
    Port(Result<u16, Seq<char>>),
    Done(Result<(), Seq<char>>),
    Facts(Option<FileFacts>),
    Outcome(OutcomeModel),
}

impl View for Event {
    type V = EventModel;

    open spec fn view(&self) -> EventModel {
        match self {
            Event::Text(r) => EventModel::Text(told(*r)),
            Event::Port(Ok(port)) => EventModel::Port(Ok(*port)),
            Event::Port(Err(e)) => EventModel::Port(Err(e@)),
            Event::Done(Ok(())) => EventModel::Done(Ok(())),
            Event::Done(Err(e)) => EventModel::Done(Err(e@)),
            Event::Facts(facts) => EventModel::Facts(*facts),
            Event::Outcome(o) => EventModel::Outcome(o@),
        }
    }
}

/// What is said where no candidate for a program is trusted.
pub open spec fn not_found() -> Seq<char> {
    "trusted binary not found"@
}

/// What an optional text holds.
pub open spec fn optional(s: Option<String>) -> Option<Seq<char>> {
    match s {
        Some(s) => Some(s@),
        None => None,
    }
}

/// A copy of a result of texts.
pub(crate) fn copy_result(r: &Result<String, String>) -> (c: Result<String, String>)
    ensures
        told(c) == told(*r),
{
    match r {
        Ok(s) => Ok(s.clone()),
        Err(e) => Err(e.clone()),
    }
}

// ---------------------------------------------------------------------------
// Work

/// A worker after a command.
pub enum WorkModel {
    /// There is more to do.
    More(WorkerModel),
    /// All tasks are done. The last command wrote this.
    Done(Seq<char>),
    /// A task failed.
    Failed(Seq<char>),
}

/// A worker after a command.
pub open spec fn worked(w: WorkerModel, outcome: OutcomeModel) -> WorkModel {
    match after_command(w, outcome) {
        Ok(v) => if v.tasks.len() == 0 {
            WorkModel::Done(v.output)
        } else {
            WorkModel::More(v)
        },
        Err(e) => WorkModel::Failed(e),
    }
}

/// A worker after a command.
#[derive(Debug)]
pub enum Work {
    More(Worker),
    Done(String),
    Failed(String),
}

impl View for Work {
    type V = WorkModel;

    open spec fn view(&self) -> WorkModel {
        match self {
            Work::More(w) => WorkModel::More(w@),
            Work::Done(output) => WorkModel::Done(output@),
            Work::Failed(e) => WorkModel::Failed(e@),
        }
    }
}

/// A worker after a command.
pub fn work(worker: Worker, outcome: Outcome) -> (r: Work)
    requires
        worker@.tasks.len() > 0,
    ensures
        r@ == worked(worker@, outcome@),
{
    let mut worker = worker;
    match worker.advance(outcome) {
        Err(e) => Work::Failed(e),
        Ok(()) => {
            let output = worker.output().to_owned();
            if worker.is_done() {
                Work::Done(output)
            } else {
                Work::More(worker)
            }
        },
    }
}

// ---------------------------------------------------------------------------
// Either

/// The preparation of a network.
#[derive(Debug)]
pub enum Preparation {
    Docker(DockerPreparation),
    Podman(PodmanPreparation),
}

/// What a [`Preparation`] holds.
pub enum PreparationModel {
    Docker(DockerModel),
    Podman(PodmanModel),
}

impl View for Preparation {
    type V = PreparationModel;

    open spec fn view(&self) -> PreparationModel {
        match self {
            Preparation::Docker(p) => PreparationModel::Docker(p@),
            Preparation::Podman(p) => PreparationModel::Podman(p@),
        }
    }
}

/// Whether a preparation is in order.
pub open spec fn preparation_ok(m: PreparationModel) -> bool {
    match m {
        PreparationModel::Docker(d) => docker_stage_ok(d.stage),
        PreparationModel::Podman(p) => podman_ok(p),
    }
}

/// The action of a preparation.
pub open spec fn preparation_action(m: PreparationModel) -> ActionModel {
    match m {
        PreparationModel::Docker(d) => docker_action(d),
        PreparationModel::Podman(p) => podman_action(p),
    }
}

/// The preparation after an event.
pub open spec fn preparation_next(m: PreparationModel, event: EventModel) -> PreparationModel {
    match m {
        PreparationModel::Docker(d) => PreparationModel::Docker(
            DockerModel { stage: docker_next(d.name, d.stage, event), ..d },
        ),
        PreparationModel::Podman(p) => PreparationModel::Podman(podman_next(p, event)),
    }
}

/// An interface was asked for with Docker, which picks its own.
#[derive(Clone, Copy, Debug, PartialEq, Eq, Structural)]
pub struct UnexpectedInterface;

impl UnexpectedInterface {
    /// The error in words.
    pub open spec fn text(self) -> Seq<char> {
        "--interface is only valid with --runtime podman"@
    }

    /// The error in words.
    pub fn message(&self) -> (r: String)
        ensures
            r@ == self.text(),
    {
        "--interface is only valid with --runtime podman".to_owned()
    }
}

/// The preparation of a network, before its first action. An interface can be asked for with
/// Podman alone.
pub fn prepare_network(
    name: &str,
    domain_patterns: &Vec<String>,
    runtime: ContainerRuntime,
    interface: Option<String>,
) -> (r: Result<Preparation, UnexpectedInterface>)
    ensures
        match (r, runtime) {
            (Ok(Preparation::Docker(p)), ContainerRuntime::Docker) => {
                &&& interface is None
                &&& p@ == docker_start(name@, texts(domain_patterns@))
            },
            (Ok(Preparation::Podman(p)), ContainerRuntime::Podman) => {
                p@ == podman_start(name@, texts(domain_patterns@), optional(interface))
            },
            (Err(_), ContainerRuntime::Docker) => interface is Some,
            _ => false,
        },
        r matches Ok(p) ==> preparation_ok(p@),
{
    match runtime {
        ContainerRuntime::Docker => if interface.is_some() {
            Err(UnexpectedInterface)
        } else {
            Ok(Preparation::Docker(DockerPreparation::new(name, domain_patterns)))
        },
        ContainerRuntime::Podman => Ok(
            Preparation::Podman(PodmanPreparation::new(name, domain_patterns, interface)),
        ),
    }
}

impl Preparation {
    /// The next action.
    pub fn action(&self) -> (r: Action)
        requires
            preparation_ok(self@),
        ensures
            r@ == preparation_action(self@),
    {
        match self {
            Preparation::Docker(p) => p.action(),
            Preparation::Podman(p) => p.action(),
        }
    }

    /// The preparation after what came of its action.
    pub fn next(self, event: Event) -> (r: Preparation)
        requires
            preparation_ok(self@),
        ensures
            r@ == preparation_next(self@, event@),
            preparation_ok(r@),
    {
        match self {
            Preparation::Docker(p) => Preparation::Docker(p.next(event)),
            Preparation::Podman(p) => Preparation::Podman(p.next(event)),
        }
    }
}

// ---------------------------------------------------------------------------
// Laws

/// A preparation does what the one for its runtime does, and stays with it.
pub proof fn preparations_stay_with_their_runtime(
    d: DockerModel,
    p: PodmanModel,
    event: EventModel,
)
    ensures
        preparation_action(PreparationModel::Docker(d)) == docker_action(d),
        preparation_action(PreparationModel::Podman(p)) == podman_action(p),
        preparation_next(PreparationModel::Docker(d), event) == PreparationModel::Docker(
            docker_step(d, event),
        ),
        preparation_next(PreparationModel::Podman(p), event) == PreparationModel::Podman(
            podman_next(p, event),
        ),
{
}

/// A worker is done when no task is left, and then gives what the last command wrote; it fails
/// when a task fails, and with its error.
pub proof fn work_is_done_when_no_task_is_left(w: WorkerModel, outcome: OutcomeModel)
    ensures
        match (worked(w, outcome), after_command(w, outcome)) {
            (WorkModel::More(v), Ok(u)) => v == u && u.tasks.len() > 0,
            (WorkModel::Done(output), Ok(u)) => output == u.output && u.tasks.len() == 0,
            (WorkModel::Failed(e), Err(f)) => e == f,
            _ => false,
        },
{
}

/// What stops a preparation is told in these words.
pub proof fn refusals_are_told_in_words(m: PodmanModel, rules: Seq<char>, from: nat)
    ensures
        not_found() == "trusted binary not found"@,
        UnexpectedInterface.text() == "--interface is only valid with --runtime podman"@,
        m.stage == PodmanStageModel::Pausing(49) ==> podman_next(m, EventModel::Done(Ok(()))).stage
            == PodmanStageModel::Finished(
            Err("external host Dockerwall daemon did not become ready"@),
        ),
        free_attempt(lines_of(rules), m.name, from) is None ==> with_attempt(m, rules, from).stage
            == PodmanStageModel::Finished(
            Err("all managed rootless Podman source addresses are in use"@),
        ),
{
}

} // verus!
