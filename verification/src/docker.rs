//! Preparing a Docker network.

use vstd::prelude::*;

use crate::network::{plan, NetworkPlan, PlanModel};
use crate::prepare::{
    copy_result, not_found, told, work, worked, Action, ActionModel, Event, EventModel, Work,
    WorkModel,
};
use crate::tasks::{
    docker_tasks, docker_tasks_of, next_command, started, OutcomeModel, TaskModel, Worker,
    WorkerModel,
};
use crate::text::{clone_strings, texts};
use crate::trust::{candidate, judge, judged, trusted, Program, Search, SearchModel};

verus! {

/// How often it is tried to set up a Docker network.
pub const DOCKER_ATTEMPTS: u32 = 50;

/// How far the preparation of a Docker network is.
#[derive(Debug)]
enum DockerStage {
    /// The port of the daemon is not known yet.
    AskPort,
    /// The programs are looked for. `found` holds the paths of those that were found.
    Find { port: u16, attempt: u32, found: Vec<String>, at: usize },
    /// The network is set up.
    Work { port: u16, attempt: u32, worker: Worker },
    /// The daemon is told of the network.
    Register { port: u16, attempt: u32 },
    /// The attempt failed.
    Retry { port: u16, attempt: u32, error: String },
    /// It is over.
    Finished(Result<String, String>),
}

/// How far the preparation of a Docker network is.
pub enum DockerStageModel {
    AskPort,
    Find { port: u16, attempt: u32, found: Seq<Seq<char>>, at: nat },
    Work { port: u16, attempt: u32, worker: WorkerModel },
    Register { port: u16, attempt: u32 },
    Retry { port: u16, attempt: u32, error: Seq<char> },
    Finished(Result<Seq<char>, Seq<char>>),
}

impl View for DockerStage {
    type V = DockerStageModel;

    closed spec fn view(&self) -> DockerStageModel {
        match self {
            DockerStage::AskPort => DockerStageModel::AskPort,
            DockerStage::Find { port, attempt, found, at } => DockerStageModel::Find {
                port: *port,
                attempt: *attempt,
                found: texts(found@),
                at: *at as nat,
            },
            DockerStage::Work { port, attempt, worker } => DockerStageModel::Work {
                port: *port,
                attempt: *attempt,
                worker: worker@,
            },
            DockerStage::Register { port, attempt } => DockerStageModel::Register {
                port: *port,
                attempt: *attempt,
            },
            DockerStage::Retry { port, attempt, error } => DockerStageModel::Retry {
                port: *port,
                attempt: *attempt,
                error: error@,
            },
            DockerStage::Finished(r) => DockerStageModel::Finished(told(*r)),
        }
    }
}

/// The preparation of a Docker network.
#[derive(Debug)]
pub struct DockerPreparation {
    name: String,
    patterns: Vec<String>,
    stage: DockerStage,
}

/// What a [`DockerPreparation`] holds.
pub struct DockerModel {
    pub name: Seq<char>,
    pub patterns: Seq<Seq<char>>,
    pub stage: DockerStageModel,
}

impl View for DockerPreparation {
    type V = DockerModel;

    closed spec fn view(&self) -> DockerModel {
        DockerModel { name: self.name@, patterns: texts(self.patterns@), stage: self.stage@ }
    }
}

/// The preparation of a Docker network before its first action.
pub open spec fn docker_start(name: Seq<char>, patterns: Seq<Seq<char>>) -> DockerModel {
    DockerModel { name, patterns, stage: DockerStageModel::AskPort }
}

/// The program that is looked for when `n` were found.
pub open spec fn docker_program(n: nat) -> Program {
    if n == 0 {
        Program::Ipset
    } else if n == 1 {
        Program::Docker
    } else {
        Program::Iptables
    }
}

/// Whether a stage is one that a preparation can be in.
pub open spec fn docker_stage_ok(stage: DockerStageModel) -> bool {
    match stage {
        DockerStageModel::Find { attempt, found, at, .. } => {
            &&& attempt < 50
            &&& found.len() < 3
            &&& at < docker_program(found.len()).paths().len()
        },
        DockerStageModel::Work { attempt, worker, .. } => attempt < 50 && worker.tasks.len() > 0,
        DockerStageModel::Register { attempt, .. } => attempt < 50,
        DockerStageModel::Retry { attempt, .. } => attempt < 50,
        _ => true,
    }
}

/// The start of an attempt.
pub open spec fn docker_attempt(port: u16, attempt: u32) -> DockerStageModel {
    DockerStageModel::Find { port, attempt, found: seq![], at: 0 }
}

/// The stage after a program was found.
pub open spec fn docker_found(
    name: Seq<char>,
    port: u16,
    attempt: u32,
    found: Seq<Seq<char>>,
) -> DockerStageModel {
    if found.len() < 3 {
        DockerStageModel::Find { port, attempt, found, at: 0 }
    } else {
        DockerStageModel::Work {
            port,
            attempt,
            worker: started(
                docker_tasks(found[0], found[1], found[2], plan(name, port, attempt)),
            ),
        }
    }
}

/// The stage after an event. An attempt that fails is followed by another one, with another
/// plan, up to the last one; that the daemon does not take the network is the end. An event
/// that does not answer the action changes nothing.
pub open spec fn docker_next(
    name: Seq<char>,
    stage: DockerStageModel,
    event: EventModel,
) -> DockerStageModel {
    match (stage, event) {
        (DockerStageModel::AskPort, EventModel::Port(Ok(port))) => docker_attempt(port, 0),
        (DockerStageModel::AskPort, EventModel::Port(Err(e))) => DockerStageModel::Finished(
            Err(e),
        ),
        (DockerStageModel::Find { port, attempt, found, at }, EventModel::Facts(facts)) => {
            match judged(docker_program(found.len()), at, facts) {
                SearchModel::Found(path) => docker_found(name, port, attempt, found.push(path)),
                SearchModel::Next(at) => DockerStageModel::Find { port, attempt, found, at },
                SearchModel::Missing => DockerStageModel::Retry {
                    port,
                    attempt,
                    error: not_found(),
                },
            }
        },
        (DockerStageModel::Work { port, attempt, worker }, EventModel::Outcome(o)) => {
            match worked(worker, o) {
                WorkModel::More(worker) => DockerStageModel::Work { port, attempt, worker },
                WorkModel::Done(_) => DockerStageModel::Register { port, attempt },
                WorkModel::Failed(error) => DockerStageModel::Retry { port, attempt, error },
            }
        },
        (DockerStageModel::Register { .. }, EventModel::Done(Ok(()))) => {
            DockerStageModel::Finished(Ok(seq![]))
        },
        (DockerStageModel::Register { .. }, EventModel::Done(Err(e))) => {
            DockerStageModel::Finished(Err(e))
        },
        (DockerStageModel::Retry { port, attempt, error }, EventModel::Done(_)) => {
            if attempt + 1 < 50 {
                docker_attempt(port, (attempt + 1) as u32)
            } else {
                DockerStageModel::Finished(Err(error))
            }
        },
        _ => stage,
    }
}

/// The action of a stage.
pub open spec fn docker_action(m: DockerModel) -> ActionModel {
    match m.stage {
        DockerStageModel::AskPort => ActionModel::AskPort,
        DockerStageModel::Find { found, at, .. } => ActionModel::Inspect(
            docker_program(found.len()).paths()[at as int],
        ),
        DockerStageModel::Work { worker, .. } => ActionModel::Run(next_command(worker)->0),
        DockerStageModel::Register { port, attempt } => ActionModel::Register {
            name: m.name,
            subnet: plan(m.name, port, attempt).subnet,
            patterns: m.patterns,
        },
        DockerStageModel::Retry { attempt, error, .. } => ActionModel::Retry { attempt, error },
        DockerStageModel::Finished(r) => ActionModel::Finish(r),
    }
}

fn docker_program_at(n: usize) -> (r: Program)
    ensures
        r == docker_program(n as nat),
{
    if n == 0 {
        Program::Ipset
    } else if n == 1 {
        Program::Docker
    } else {
        Program::Iptables
    }
}

fn start_attempt(port: u16, attempt: u32) -> (r: DockerStage)
    ensures
        r@ == docker_attempt(port, attempt),
{
    let found: Vec<String> = Vec::new();
    assert(texts(found@) =~= seq![]);
    DockerStage::Find { port, attempt, found, at: 0 }
}

fn after_found(name: &str, port: u16, attempt: u32, found: Vec<String>) -> (r: DockerStage)
    requires
        found@.len() <= 3,
    ensures
        r@ == docker_found(name@, port, attempt, texts(found@)),
{
    assert(texts(found@).len() == found@.len());
    if found.len() < 3 {
        return DockerStage::Find { port, attempt, found, at: 0 };
    }
    let plan = NetworkPlan::new(name, port, attempt);
    assert(texts(found@)[0] == found@[0]@);
    assert(texts(found@)[1] == found@[1]@);
    assert(texts(found@)[2] == found@[2]@);
    let tasks = docker_tasks_of(found[0].as_str(), found[1].as_str(), found[2].as_str(), &plan);
    DockerStage::Work { port, attempt, worker: Worker::new(tasks) }
}

impl DockerStage {
    fn next(self, name: &str, event: Event) -> (r: DockerStage)
        requires
            docker_stage_ok(self@),
        ensures
            r@ == docker_next(name@, self@, event@),
            docker_stage_ok(r@),
    {
        match (self, event) {
            (DockerStage::AskPort, Event::Port(Ok(port))) => start_attempt(port, 0),
            (DockerStage::AskPort, Event::Port(Err(e))) => DockerStage::Finished(Err(e)),
            (DockerStage::Find { port, attempt, found, at }, Event::Facts(facts)) => {
                assert(texts(found@).len() == found@.len());
                match judge(docker_program_at(found.len()), at, facts) {
                    Search::Found(path) => {
                        let ghost before = texts(found@);
                        let mut found = found;
                        found.push(path);
                        assert(texts(found@) =~= before.push(path@));
                        after_found(name, port, attempt, found)
                    },
                    Search::Next(at) => DockerStage::Find { port, attempt, found, at },
                    Search::Missing => DockerStage::Retry {
                        port,
                        attempt,
                        error: "trusted binary not found".to_owned(),
                    },
                }
            },
            (DockerStage::Work { port, attempt, worker }, Event::Outcome(o)) => {
                match work(worker, o) {
                    Work::More(worker) => DockerStage::Work { port, attempt, worker },
                    Work::Done(_) => DockerStage::Register { port, attempt },
                    Work::Failed(error) => DockerStage::Retry { port, attempt, error },
                }
            },
            (DockerStage::Register { .. }, Event::Done(Ok(()))) => {
                let nothing = String::new();
                assert(nothing@ =~= seq![]);
                DockerStage::Finished(Ok(nothing))
            },
            (DockerStage::Register { .. }, Event::Done(Err(e))) => DockerStage::Finished(Err(e)),
            (DockerStage::Retry { port, attempt, error }, Event::Done(_)) => {
                if attempt + 1 < DOCKER_ATTEMPTS {
                    start_attempt(port, attempt + 1)
                } else {
                    DockerStage::Finished(Err(error))
                }
            },
            (stage, _) => stage,
        }
    }
}

impl DockerPreparation {
    /// The preparation before its first action.
    pub fn new(name: &str, patterns: &Vec<String>) -> (r: DockerPreparation)
        ensures
            r@ == docker_start(name@, texts(patterns@)),
            docker_stage_ok(r@.stage),
    {
        DockerPreparation {
            name: name.to_owned(),
            patterns: clone_strings(patterns),
            stage: DockerStage::AskPort,
        }
    }

    /// The next action.
    pub fn action(&self) -> (r: Action)
        requires
            docker_stage_ok(self@.stage),
        ensures
            r@ == docker_action(self@),
    {
        match &self.stage {
            DockerStage::AskPort => Action::AskPort,
            DockerStage::Find { found, at, .. } => {
                assert(texts(found@).len() == found@.len());
                Action::Inspect(candidate(docker_program_at(found.len()), *at))
            },
            DockerStage::Work { worker, .. } => Action::Run(worker.command()),
            DockerStage::Register { port, attempt } => Action::Register {
                name: self.name.clone(),
                subnet: NetworkPlan::new(self.name.as_str(), *port, *attempt).subnet,
                patterns: clone_strings(&self.patterns),
            },
            DockerStage::Retry { attempt, error, .. } => Action::Retry {
                attempt: *attempt,
                error: error.clone(),
            },
            DockerStage::Finished(r) => Action::Finish(copy_result(r)),
        }
    }

    /// The preparation after what came of its action.
    pub fn next(self, event: Event) -> (r: DockerPreparation)
        requires
            docker_stage_ok(self@.stage),
        ensures
            r@ == (DockerModel {
                stage: docker_next(self@.name, self@.stage, event@),
                ..self@
            }),
            r@ == docker_step(self@, event@),
            docker_stage_ok(r@.stage),
    {
        let stage = self.stage.next(self.name.as_str(), event);
        DockerPreparation { name: self.name, patterns: self.patterns, stage }
    }
}

// ---------------------------------------------------------------------------
// Laws

/// The preparation of a Docker network fails only if the daemon cannot be asked for its port,
/// if the daemon does not take the network, or with the error of the last attempt.
pub proof fn docker_gives_up_after_the_last_attempt(
    name: Seq<char>,
    stage: DockerStageModel,
    event: EventModel,
    error: Seq<char>,
)
    requires
        docker_stage_ok(stage),
        stage !is Finished,
        docker_next(name, stage, event) == DockerStageModel::Finished(Err(error)),
    ensures
        match stage {
            DockerStageModel::AskPort => event == EventModel::Port(Err(error)),
            DockerStageModel::Register { .. } => event == EventModel::Done(Err(error)),
            DockerStageModel::Retry { attempt, error: e, .. } => attempt == 49 && e == error,
            _ => false,
        },
{
}

/// The daemon is told of a Docker network only once all tasks of an attempt are done, and then
/// with the subnet of that attempt.
pub proof fn docker_networks_are_registered_when_set_up(
    m: DockerModel,
    event: EventModel,
    port: u16,
    attempt: u32,
)
    requires
        docker_stage_ok(m.stage),
        m.stage !is Register,
        docker_next(m.name, m.stage, event) == (DockerStageModel::Register { port, attempt }),
    ensures
        m.stage matches DockerStageModel::Work { port: p, attempt: a, worker } && p == port && a
            == attempt && (event matches EventModel::Outcome(o) && worked(worker, o) is Done),
{
}

/// The preparation of a Docker network after an event.
pub open spec fn docker_step(m: DockerModel, event: EventModel) -> DockerModel {
    DockerModel { stage: docker_next(m.name, m.stage, event), ..m }
}

/// The preparation of a Docker network after several events.
pub open spec fn docker_after(m: DockerModel, events: Seq<EventModel>) -> DockerModel
    decreases events.len(),
{
    if events.len() == 0 {
        m
    } else {
        docker_step(docker_after(m, events.drop_last()), events.last())
    }
}

proof fn lemma_docker_after(name: Seq<char>, patterns: Seq<Seq<char>>, events: Seq<EventModel>)
    ensures
        ({
            let m = docker_after(docker_start(name, patterns), events);
            &&& m.name == name
            &&& m.patterns == patterns
            &&& docker_stage_ok(m.stage)
            &&& works_on_its_plan(m)
        }),
    decreases events.len(),
{
    if events.len() > 0 {
        lemma_docker_after(name, patterns, events.drop_last());
        let m = docker_after(docker_start(name, patterns), events.drop_last());
        lemma_docker_step(m, events.last());
    }
}

/// Whether tasks are those for a plan, with programs at three paths, but for the first `done`.
pub open spec fn left_of(
    tasks: Seq<TaskModel>,
    ipset: Seq<char>,
    docker: Seq<char>,
    iptables: Seq<char>,
    p: PlanModel,
    done: int,
) -> bool {
    let all = docker_tasks(ipset, docker, iptables, p);
    &&& Program::Ipset.paths().contains(ipset)
    &&& Program::Docker.paths().contains(docker)
    &&& Program::Iptables.paths().contains(iptables)
    &&& 0 <= done < all.len()
    &&& tasks == all.skip(done)
}

/// Whether tasks are the end of those for a plan.
pub open spec fn ends_the_tasks_for(tasks: Seq<TaskModel>, p: PlanModel) -> bool {
    exists|ipset: Seq<char>, docker: Seq<char>, iptables: Seq<char>, done: int|
        left_of(tasks, ipset, docker, iptables, p, done)
}

/// Whether what is left of the work is the end of the tasks for the plan of the attempt, with
/// programs that were looked for.
pub open spec fn works_on_its_plan(m: DockerModel) -> bool {
    match m.stage {
        DockerStageModel::Find { found, .. } => {
            &&& found.len() > 0 ==> Program::Ipset.paths().contains(found[0])
            &&& found.len() > 1 ==> Program::Docker.paths().contains(found[1])
        },
        DockerStageModel::Work { port, attempt, worker } => ends_the_tasks_for(
            worker.tasks,
            plan(m.name, port, attempt),
        ),
        _ => true,
    }
}

proof fn lemma_tasks_left(w: WorkerModel, outcome: OutcomeModel, p: PlanModel)
    requires
        ends_the_tasks_for(w.tasks, p),
    ensures
        worked(w, outcome) matches WorkModel::More(v) ==> ends_the_tasks_for(v.tasks, p),
{
    let (ipset, docker, iptables, done) = choose|
        ipset: Seq<char>,
        docker: Seq<char>,
        iptables: Seq<char>,
        done: int,
    |
        left_of(w.tasks, ipset, docker, iptables, p, done);
    let all = docker_tasks(ipset, docker, iptables, p);
    assert(all.skip(done).skip(1) =~= all.skip(done + 1));
    if let WorkModel::More(v) = worked(w, outcome) {
        if v.tasks == w.tasks {
            assert(left_of(v.tasks, ipset, docker, iptables, p, done));
        } else {
            assert(v.tasks == w.tasks.skip(1));
            assert(left_of(v.tasks, ipset, docker, iptables, p, done + 1));
        }
    }
}

proof fn lemma_docker_step(m: DockerModel, event: EventModel)
    requires
        docker_stage_ok(m.stage),
        works_on_its_plan(m),
    ensures
        docker_stage_ok(docker_step(m, event).stage),
        works_on_its_plan(docker_step(m, event)),
{
    match (m.stage, event) {
        (DockerStageModel::Find { port, attempt, found, at }, EventModel::Facts(facts)) => {
            if let SearchModel::Found(path) = judged(docker_program(found.len()), at, facts) {
                let all = found.push(path);
                let paths = docker_program(found.len()).paths();
                assert(path == paths[at as int]);
                assert(paths.contains(path));
                if all.len() == 3 {
                    let p = plan(m.name, port, attempt);
                    let tasks = docker_tasks(all[0], all[1], all[2], p);
                    assert(tasks.skip(0) =~= tasks);
                    assert(left_of(tasks, all[0], all[1], all[2], p, 0));
                }
            }
        },
        (DockerStageModel::Work { port, attempt, worker }, EventModel::Outcome(o)) => {
            lemma_tasks_left(worker, o, plan(m.name, port, attempt));
        },
        _ => {},
    }
}

/// Whatever happened since a preparation began: when the daemon is told of the network, it is
/// told the name and all the patterns that were asked for, in their order, and the subnet of the
/// network that was made.
pub proof fn docker_networks_are_registered_as_asked(
    name: Seq<char>,
    patterns: Seq<Seq<char>>,
    events: Seq<EventModel>,
)
    ensures
        ({
            let m = docker_after(docker_start(name, patterns), events);
            docker_action(m) matches ActionModel::Register { name: n, subnet, patterns: p } ==> {
                &&& n == name
                &&& p == patterns
                &&& m.stage matches DockerStageModel::Register { port, attempt }
                &&& subnet == plan(name, port, attempt).subnet
            }
        }),
{
    lemma_docker_after(name, patterns, events);
}

/// Whatever happened since a preparation began: a command that is run belongs to the tasks that
/// set the network up by the plan of the attempt.
pub proof fn docker_commands_follow_the_plan(
    name: Seq<char>,
    patterns: Seq<Seq<char>>,
    events: Seq<EventModel>,
)
    ensures
        ({
            let m = docker_after(docker_start(name, patterns), events);
            &&& m.name == name
            &&& docker_stage_ok(m.stage)
            &&& works_on_its_plan(m)
            &&& docker_action(m) is Run ==> m.stage is Work
        }),
{
    lemma_docker_after(name, patterns, events);
}

/// The port and the number of the attempt that a stage belongs to.
pub open spec fn attempt_of(stage: DockerStageModel) -> Option<(u16, u32)> {
    match stage {
        DockerStageModel::Find { port, attempt, .. } => Some((port, attempt)),
        DockerStageModel::Work { port, attempt, .. } => Some((port, attempt)),
        DockerStageModel::Register { port, attempt } => Some((port, attempt)),
        DockerStageModel::Retry { port, attempt, .. } => Some((port, attempt)),
        _ => None,
    }
}

/// Attempts are made with the port that the daemon told. They are counted from 0 on, one by one,
/// and the next one begins only when the one before it failed.
pub proof fn attempts_are_counted(name: Seq<char>, stage: DockerStageModel, event: EventModel)
    requires
        docker_stage_ok(stage),
    ensures
        match (attempt_of(stage), attempt_of(docker_next(name, stage, event))) {
            (Some((p, a)), Some((q, b))) => {
                &&& p == q
                &&& b == a || (b == a + 1 && stage is Retry)
                &&& stage is Retry && event is Done ==> b == a + 1 && docker_next(
                    name,
                    stage,
                    event,
                ) is Find
            },
            (None, Some((q, b))) => b == 0 && event == EventModel::Port(Ok(q)),
            (Some((p, a)), None) => docker_next(name, stage, event) is Finished && (stage is Register
                || (stage is Retry && a == 49)),
            (None, None) => true,
        },
{
}

/// An attempt whose work fails is over, and its error is told before the next one.
pub proof fn failed_attempts_are_told(
    m: DockerModel,
    event: EventModel,
    port: u16,
    attempt: u32,
    worker: WorkerModel,
    error: Seq<char>,
)
    requires
        m.stage == (DockerStageModel::Work { port, attempt, worker }),
        event matches EventModel::Outcome(o) && (worked(worker, o) matches WorkModel::Failed(e) && e
            == error),
    ensures
        docker_action(docker_step(m, event)) matches ActionModel::Retry { attempt: a, error: e } && a
            == attempt && e == error,
{
}

/// A program is kept for the work only if what was found at its path is trusted; the first
/// trusted candidate is. The programs are looked for one after the other: first ipset, then
/// docker, then iptables.
pub proof fn docker_programs_are_trusted(m: DockerModel, event: EventModel)
    requires
        docker_stage_ok(m.stage),
        m.stage is Find,
    ensures
        ({
            let n = docker_step(m, event);
            let found = m.stage->Find_found;
            let path = docker_action(m)->Inspect_0;
            let good = event matches EventModel::Facts(facts) && trusted(facts);
            &&& docker_action(m) is Inspect
            &&& found.len() == 0 ==> Program::Ipset.paths().contains(path)
            &&& found.len() == 1 ==> Program::Docker.paths().contains(path)
            &&& found.len() == 2 ==> Program::Iptables.paths().contains(path)
            &&& n.stage is Work ==> good && found.len() == 2
            &&& n.stage matches DockerStageModel::Find { found: f, .. } ==> f == found || (good && f
                == found.push(path))
            &&& good ==> n.stage is Work || (n.stage matches DockerStageModel::Find {
                found: f,
                at,
                ..
            } && f == found.push(path) && at == 0)
        }),
{
    if let DockerStageModel::Find { found, at, .. } = m.stage {
        let paths = docker_program(found.len()).paths();
        assert(paths.contains(paths[at as int]));
    }
}

/// A Docker network that the daemon took is ready; a preparation that is over stays over.
pub proof fn what_is_over_stays_over(m: DockerModel, event: EventModel)
    ensures
        m.stage is Register && event == EventModel::Done(Ok(())) ==> (docker_step(
            m,
            event,
        ).stage matches DockerStageModel::Finished(r) && r is Ok),
        m.stage is Finished ==> docker_step(m, event) == m,
        m.stage matches DockerStageModel::Finished(r) ==> docker_action(m) == ActionModel::Finish(
            r,
        ),
{
}

/// A daemon that cannot be asked for its port, or that does not take the network, ends the
/// preparation with its error.
pub proof fn docker_failures_are_passed_on(m: DockerModel, event: EventModel, e: Seq<char>)
    ensures
        m.stage is AskPort && event == EventModel::Port(Err(e)) ==> docker_step(m, event).stage
            == DockerStageModel::Finished(Err(e)),
        m.stage is Register && event == EventModel::Done(Err(e)) ==> docker_step(m, event).stage
            == DockerStageModel::Finished(Err(e)),
{
}

/// Once all tasks of an attempt are done, the daemon is told of the network.
pub proof fn docker_networks_that_are_set_up_are_registered(
    m: DockerModel,
    port: u16,
    attempt: u32,
    worker: WorkerModel,
    o: OutcomeModel,
)
    requires
        m.stage == (DockerStageModel::Work { port, attempt, worker }),
        worked(worker, o) is Done,
    ensures
        docker_action(docker_step(m, EventModel::Outcome(o))) is Register,
{
}

} // verus!
