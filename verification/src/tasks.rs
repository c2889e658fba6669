//! Running commands: what is run for a task, what its outcome means, and what is run next.

use vstd::prelude::*;

use crate::network::{NetworkPlan, PlanModel};
use crate::rules::{
    all_texts, delete_args, deletion, docker_rules, docker_rules_of, podman_rules, podman_rules_of,
    PODMAN_OUTPUT_CHAIN,
};
use crate::text::{
    blank, blanks_go_from_both_ends, chars, clone_strings, push_chars, separates, strings, texts,
    trim, trimmed,
};

verus! {

/// A command: the path of a program, and its arguments.
#[derive(Debug)]
pub struct Command {
    pub path: String,
    pub args: Vec<String>,
}

/// What a [`Command`] holds.
pub struct CommandModel {
    pub path: Seq<char>,
    pub args: Seq<Seq<char>>,
}

impl View for Command {
    type V = CommandModel;

    open spec fn view(&self) -> CommandModel {
        CommandModel { path: self.path@, args: texts(self.args@) }
    }
}

/// What came of a command.
#[derive(Debug)]
pub enum Outcome {
    /// It was not run; the text says why.
    NotStarted(String),
    /// It ran to its end.
    Exited { success: bool, stdout: String, stderr: String },
}

/// What an [`Outcome`] holds.
pub enum OutcomeModel {
    NotStarted(Seq<char>),
    Exited { success: bool, stdout: Seq<char>, stderr: Seq<char> },
}

impl View for Outcome {
    type V = OutcomeModel;

    open spec fn view(&self) -> OutcomeModel {
        match self {
            Outcome::NotStarted(e) => OutcomeModel::NotStarted(e@),
            Outcome::Exited { success, stdout, stderr } => OutcomeModel::Exited {
                success: *success,
                stdout: stdout@,
                stderr: stderr@,
            },
        }
    }
}

/// What is said of a command that failed: what it wrote, as far as it wrote something.
pub open spec fn failure_text(stdout: Seq<char>, stderr: Seq<char>) -> Seq<char> {
    let (out, err) = (trimmed(stdout), trimmed(stderr));
    if err.len() == 0 && out.len() == 0 {
        "command failed"@
    } else if out.len() == 0 {
        "command failed: "@ + err
    } else if err.len() == 0 {
        "command failed: stdout: "@ + out
    } else {
        "command failed: "@ + err + "; stdout: "@ + out
    }
}

/// What is said of a command that failed.
pub fn command_failure_message(stdout: &str, stderr: &str) -> (r: String)
    ensures
        r@ == failure_text(stdout@, stderr@),
{
    let stdout = chars(stdout);
    let stderr = chars(stderr);
    let out = trim(stdout.as_slice());
    let err = trim(stderr.as_slice());
    if err.len() == 0 && out.len() == 0 {
        return "command failed".to_owned();
    }
    let mut message = "command failed: ".to_owned();
    if out.len() == 0 {
        push_chars(&mut message, err);
    } else if err.len() == 0 {
        message = "command failed: stdout: ".to_owned();
        push_chars(&mut message, out);
    } else {
        push_chars(&mut message, err);
        message.append("; stdout: ");
        push_chars(&mut message, out);
    }
    message
}

// ---------------------------------------------------------------------------
// Tasks

/// Something to be brought about by commands.
#[derive(Debug)]
pub enum Task {
    /// The command is run; what comes of it does not matter.
    Attempt(Command),
    /// The command succeeds.
    Checked(Command),
    /// The rule that the arguments put in stands in its chain, once.
    EnsureRule(Command),
    /// The chain exists.
    EnsureChain { iptables: String, name: String },
    /// An empty set exists.
    CreateIpset { ipset: String, name: String },
}

/// What a [`Task`] holds.
pub enum TaskModel {
    Attempt(CommandModel),
    Checked(CommandModel),
    EnsureRule(CommandModel),
    EnsureChain { iptables: Seq<char>, name: Seq<char> },
    CreateIpset { ipset: Seq<char>, name: Seq<char> },
}

impl View for Task {
    type V = TaskModel;

    open spec fn view(&self) -> TaskModel {
        match self {
            Task::Attempt(c) => TaskModel::Attempt(c@),
            Task::Checked(c) => TaskModel::Checked(c@),
            Task::EnsureRule(c) => TaskModel::EnsureRule(c@),
            Task::EnsureChain { iptables, name } => TaskModel::EnsureChain {
                iptables: iptables@,
                name: name@,
            },
            Task::CreateIpset { ipset, name } => TaskModel::CreateIpset {
                ipset: ipset@,
                name: name@,
            },
        }
    }
}

/// How far a task is.
#[derive(Clone, Copy, Debug, PartialEq, Eq, Structural)]
pub enum Phase {
    /// The first command. For a rule: it is taken out as long as it is there.
    Start,
    /// The rule is put in.
    Inserting,
    /// The chain could not be made; perhaps it is there already.
    Listing,
    /// The set could not be made; what an earlier run left is removed.
    DestroyingOld,
    /// A set is made under another name.
    CreatingNew,
    /// The two sets change their names.
    Swapping,
    /// The set that has the other name now is removed.
    DestroyingSwapped,
    /// There was no set to change names with; the new one gets the name.
    Renaming,
}

/// The name under which a set is made that is to replace another one.
pub open spec fn spare_name(name: Seq<char>) -> Seq<char> {
    name + "-tmp"@
}

/// The command for a task.
pub open spec fn command_for(task: TaskModel, phase: Phase) -> CommandModel {
    match task {
        TaskModel::Attempt(c) => c,
        TaskModel::Checked(c) => c,
        TaskModel::EnsureRule(c) => if phase == Phase::Inserting {
            c
        } else {
            CommandModel { path: c.path, args: deletion(c.args) }
        },
        TaskModel::EnsureChain { iptables, name } => CommandModel {
            path: iptables,
            args: if phase == Phase::Listing {
                seq!["-S"@, name]
            } else {
                seq!["-N"@, name]
            },
        },
        TaskModel::CreateIpset { ipset, name } => CommandModel {
            path: ipset,
            args: match phase {
                Phase::DestroyingOld => seq!["destroy"@, spare_name(name)],
                Phase::CreatingNew => {
                    seq!["create"@, spare_name(name), "hash:ip"@, "maxelem"@, "1000000000"@]
                },
                Phase::Swapping => seq!["swap"@, name, spare_name(name)],
                Phase::DestroyingSwapped => seq!["destroy"@, spare_name(name)],
                Phase::Renaming => seq!["rename"@, spare_name(name), name],
                _ => seq!["create"@, name, "hash:ip"@, "maxelem"@, "1000000000"@, "-exist"@],
            },
        },
    }
}

/// What follows a command.
pub enum NextModel {
    /// Another command for the same task. What the text says of a failure is kept.
    Go(Phase, Seq<char>),
    /// The task is done. The text is what the command wrote.
    Done(Seq<char>),
    /// The task failed. The text says why.
    Failed(Seq<char>),
}

/// What follows a command that has to be run: `success` if it succeeded, `failure` of what is
/// said of it if it did not.
pub open spec fn if_run(
    outcome: OutcomeModel,
    success: NextModel,
    failure: spec_fn(Seq<char>) -> NextModel,
) -> NextModel {
    match outcome {
        OutcomeModel::NotStarted(e) => NextModel::Failed(e),
        OutcomeModel::Exited { success: true, stdout, stderr } => success,
        OutcomeModel::Exited { success: false, stdout, stderr } => failure(
            failure_text(stdout, stderr),
        ),
    }
}

/// What the command wrote, if it was run.
pub open spec fn written(outcome: OutcomeModel) -> Seq<char> {
    match outcome {
        OutcomeModel::NotStarted(_) => seq![],
        OutcomeModel::Exited { stdout, .. } => stdout,
    }
}

/// What follows a command for a task. `kept` is what is kept of an earlier failure.
pub open spec fn next_for(
    task: TaskModel,
    phase: Phase,
    kept: Seq<char>,
    outcome: OutcomeModel,
) -> NextModel {
    let go = |p: Phase| NextModel::Go(p, kept);
    let failed = |message: Seq<char>| NextModel::Failed(message);
    let done = NextModel::Done(written(outcome));
    match task {
        TaskModel::Attempt(_) => done,
        TaskModel::Checked(_) => if_run(outcome, done, failed),
        TaskModel::EnsureRule(_) => if phase == Phase::Inserting {
            if_run(outcome, done, failed)
        } else {
            if_run(outcome, go(Phase::Start), |message: Seq<char>| go(Phase::Inserting))
        },
        TaskModel::EnsureChain { name, .. } => if phase == Phase::Listing {
            if_run(
                outcome,
                done,
                |message: Seq<char>|
                    failed("failed to create iptables chain "@ + name + ": "@ + kept),
            )
        } else {
            if_run(
                outcome,
                done,
                |message: Seq<char>| NextModel::Go(Phase::Listing, message),
            )
        },
        TaskModel::CreateIpset { .. } => match phase {
            Phase::DestroyingOld => go(Phase::CreatingNew),
            Phase::CreatingNew => if_run(outcome, go(Phase::Swapping), failed),
            Phase::Swapping => if_run(
                outcome,
                go(Phase::DestroyingSwapped),
                |message: Seq<char>| go(Phase::Renaming),
            ),
            Phase::DestroyingSwapped => if_run(outcome, done, failed),
            Phase::Renaming => if_run(outcome, done, failed),
            _ => if_run(
                outcome,
                done,
                |message: Seq<char>| go(Phase::DestroyingOld),
            ),
        },
    }
}

/// What follows a command.
#[derive(Debug)]
enum Next {
    Go(Phase, String),
    Done(String),
    Failed(String),
}

impl View for Next {
    type V = NextModel;

    closed spec fn view(&self) -> NextModel {
        match self {
            Next::Go(phase, kept) => NextModel::Go(*phase, kept@),
            Next::Done(output) => NextModel::Done(output@),
            Next::Failed(message) => NextModel::Failed(message@),
        }
    }
}

fn to_spare_name(name: &str) -> (r: String)
    ensures
        r@ == spare_name(name@),
{
    let mut out = name.to_owned();
    out.append("-tmp");
    out
}

fn copy_command(c: &Command) -> (r: Command)
    ensures
        r@ == c@,
{
    Command { path: c.path.clone(), args: clone_strings(&c.args) }
}

fn ipset_command(ipset: &str, args: &[&str]) -> (r: Command)
    ensures
        r@.path == ipset@,
        r@.args == args@.map_values(|s: &str| s@),
{
    Command { path: ipset.to_owned(), args: strings(args) }
}

fn create_ipset_command(ipset: &str, name: &str, phase: Phase) -> (r: Command)
    ensures
        r@ == command_for(TaskModel::CreateIpset { ipset: ipset@, name: name@ }, phase),
{
    let spare = to_spare_name(name);
    let spare = spare.as_str();
    let r = match phase {
        Phase::DestroyingOld | Phase::DestroyingSwapped => ipset_command(
            ipset,
            &["destroy", spare],
        ),
        Phase::CreatingNew => ipset_command(
            ipset,
            &["create", spare, "hash:ip", "maxelem", "1000000000"],
        ),
        Phase::Swapping => ipset_command(ipset, &["swap", name, spare]),
        Phase::Renaming => ipset_command(ipset, &["rename", spare, name]),
        _ => ipset_command(
            ipset,
            &["create", name, "hash:ip", "maxelem", "1000000000", "-exist"],
        ),
    };
    assert(r@.args =~= command_for(
        TaskModel::CreateIpset { ipset: ipset@, name: name@ },
        phase,
    ).args);
    r
}

fn command_of(task: &Task, phase: Phase) -> (r: Command)
    ensures
        r@ == command_for(task@, phase),
{
    match task {
        Task::Attempt(c) => copy_command(c),
        Task::Checked(c) => copy_command(c),
        Task::EnsureRule(c) => if phase == Phase::Inserting {
            copy_command(c)
        } else {
            Command { path: c.path.clone(), args: delete_args(c.args.as_slice()) }
        },
        Task::EnsureChain { iptables, name } => {
            let operation = if phase == Phase::Listing {
                "-S"
            } else {
                "-N"
            };
            let args = strings(&[operation, name.as_str()]);
            assert(texts(args@) =~= seq![operation@, name@]);
            Command { path: iptables.clone(), args }
        },
        Task::CreateIpset { ipset, name } => create_ipset_command(
            ipset.as_str(),
            name.as_str(),
            phase,
        ),
    }
}

fn next_of(task: &Task, phase: Phase, kept: &str, outcome: Outcome) -> (r: Next)
    ensures
        r@ == next_for(task@, phase, kept@, outcome@),
{
    let (success, stdout, stderr) = match outcome {
        Outcome::NotStarted(e) => {
            return match task {
                Task::Attempt(_) => {
                    let nothing = String::new();
                    assert(nothing@ =~= seq![]);
                    Next::Done(nothing)
                },
                Task::CreateIpset { .. } => if phase == Phase::DestroyingOld {
                    Next::Go(Phase::CreatingNew, kept.to_owned())
                } else {
                    Next::Failed(e)
                },
                _ => Next::Failed(e),
            };
        },
        Outcome::Exited { success, stdout, stderr } => (success, stdout, stderr),
    };
    let message = command_failure_message(stdout.as_str(), stderr.as_str());
    match task {
        Task::Attempt(_) => Next::Done(stdout),
        Task::Checked(_) => if success {
            Next::Done(stdout)
        } else {
            Next::Failed(message)
        },
        Task::EnsureRule(_) => match (phase, success) {
            (Phase::Inserting, true) => Next::Done(stdout),
            (Phase::Inserting, false) => Next::Failed(message),
            (_, true) => Next::Go(Phase::Start, kept.to_owned()),
            (_, false) => Next::Go(Phase::Inserting, kept.to_owned()),
        },
        Task::EnsureChain { name, .. } => match (phase, success) {
            (_, true) => Next::Done(stdout),
            (Phase::Listing, false) => {
                let mut refusal = "failed to create iptables chain ".to_owned();
                refusal.append(name.as_str());
                refusal.append(": ");
                refusal.append(kept);
                Next::Failed(refusal)
            },
            (_, false) => Next::Go(Phase::Listing, message),
        },
        Task::CreateIpset { .. } => match (phase, success) {
            (Phase::DestroyingOld, _) => Next::Go(Phase::CreatingNew, kept.to_owned()),
            (Phase::CreatingNew, true) => Next::Go(Phase::Swapping, kept.to_owned()),
            (Phase::CreatingNew, false) => Next::Failed(message),
            (Phase::Swapping, true) => Next::Go(Phase::DestroyingSwapped, kept.to_owned()),
            (Phase::Swapping, false) => Next::Go(Phase::Renaming, kept.to_owned()),
            (Phase::DestroyingSwapped, true) => Next::Done(stdout),
            (Phase::DestroyingSwapped, false) => Next::Failed(message),
            (Phase::Renaming, true) => Next::Done(stdout),
            (Phase::Renaming, false) => Next::Failed(message),
            (_, true) => Next::Done(stdout),
            (_, false) => Next::Go(Phase::DestroyingOld, kept.to_owned()),
        },
    }
}

// ---------------------------------------------------------------------------
// Lists of tasks

/// The tasks that a worker has before it, and how far it is with the first of them.
#[derive(Debug)]
pub struct Worker {
    /// The tasks, the next one last.
    tasks: Vec<Task>,
    phase: Phase,
    kept: String,
    output: String,
}

/// What a [`Worker`] holds.
pub struct WorkerModel {
    /// The tasks, the next one first.
    pub tasks: Seq<TaskModel>,
    /// How far the next task is.
    pub phase: Phase,
    /// What is kept of a failure.
    pub kept: Seq<char>,
    /// What the last command of the last task wrote.
    pub output: Seq<char>,
}

/// What the tasks in a sequence hold.
pub open spec fn task_models(tasks: Seq<Task>) -> Seq<TaskModel> {
    tasks.map_values(|task: Task| task@)
}

/// A worker before its first command.
pub open spec fn started(tasks: Seq<TaskModel>) -> WorkerModel {
    WorkerModel { tasks, phase: Phase::Start, kept: seq![], output: seq![] }
}

/// The next command of a worker; `None` where all tasks are done.
pub open spec fn next_command(w: WorkerModel) -> Option<CommandModel> {
    if w.tasks.len() == 0 {
        None
    } else {
        Some(command_for(w.tasks[0], w.phase))
    }
}

/// A worker after its next command: with the same task before it, or with the one after it. A
/// task that fails is the end of the work.
pub open spec fn after_command(w: WorkerModel, outcome: OutcomeModel) -> Result<
    WorkerModel,
    Seq<char>,
> {
    match next_for(w.tasks[0], w.phase, w.kept, outcome) {
        NextModel::Go(phase, kept) => Ok(WorkerModel { phase, kept, ..w }),
        NextModel::Done(output) => Ok(
            WorkerModel { tasks: w.tasks.skip(1), phase: Phase::Start, kept: seq![], output },
        ),
        NextModel::Failed(message) => Err(message),
    }
}

impl View for Worker {
    type V = WorkerModel;

    closed spec fn view(&self) -> WorkerModel {
        WorkerModel {
            tasks: task_models(self.tasks@).reverse(),
            phase: self.phase,
            kept: self.kept@,
            output: self.output@,
        }
    }
}

impl Worker {
    /// A worker before its first command.
    pub fn new(tasks: Vec<Task>) -> (r: Worker)
        ensures
            r@ == started(task_models(tasks@)),
    {
        let ghost all = task_models(tasks@);
        let mut tasks = tasks;
        let mut reversed: Vec<Task> = Vec::new();
        assert(all.take(tasks@.len() as int) =~= all);
        loop
            invariant
                task_models(tasks@) == all.take(tasks@.len() as int),
                tasks@.len() + reversed@.len() == all.len(),
                task_models(reversed@) == all.skip(tasks@.len() as int).reverse(),
            ensures
                task_models(reversed@) == all.reverse(),
            decreases tasks@.len(),
        {
            let ghost n = tasks@.len() as int;
            let ghost before = task_models(tasks@);
            let ghost done = task_models(reversed@);
            match tasks.pop() {
                None => {
                    assert(all.skip(0) =~= all);
                    break;
                },
                Some(task) => {
                    proof {
                        assert(task@ == before[n - 1]);
                        assert(task_models(tasks@) =~= before.drop_last());
                        assert(task_models(tasks@) =~= all.take(n - 1));
                    }
                    reversed.push(task);
                    assert(task_models(reversed@) =~= done.push(task@));
                    assert(task_models(reversed@) =~= all.skip(n - 1).reverse());
                },
            }
        }
        let kept = String::new();
        let output = String::new();
        proof {
            assert(kept@ =~= seq![]);
            assert(output@ =~= seq![]);
            assert(task_models(reversed@).reverse() =~= all);
        }
        Worker { tasks: reversed, phase: Phase::Start, kept, output }
    }

    /// The next command.
    pub fn command(&self) -> (r: Command)
        requires
            self@.tasks.len() > 0,
        ensures
            next_command(self@) == Some(r@),
    {
        let n: usize = self.tasks.len();
        assert(self@.tasks[0] == self.tasks@[n - 1]@);
        command_of(&self.tasks[n - 1], self.phase)
    }

    /// Whether all tasks are done.
    pub fn is_done(&self) -> (r: bool)
        ensures
            r == (self@.tasks.len() == 0),
    {
        self.tasks.len() == 0
    }

    /// What the last command of the last task wrote.
    pub fn output(&self) -> (r: &str)
        ensures
            r@ == self@.output,
    {
        self.output.as_str()
    }

    /// Takes what came of the next command.
    pub fn advance(&mut self, outcome: Outcome) -> (r: Result<(), String>)
        requires
            old(self)@.tasks.len() > 0,
        ensures
            match r {
                Ok(()) => after_command(old(self)@, outcome@) == Ok::<WorkerModel, Seq<char>>(
                    final(self)@,
                ),
                Err(message) => {
                    &&& after_command(old(self)@, outcome@) == Err::<WorkerModel, Seq<char>>(
                        message@,
                    )
                    &&& final(self)@ == old(self)@
                },
            },
    {
        let ghost before = self@;
        let n: usize = self.tasks.len();
        assert(before.tasks[0] == self.tasks@[n - 1]@);
        match next_of(&self.tasks[n - 1], self.phase, self.kept.as_str(), outcome) {
            Next::Go(phase, kept) => {
                self.phase = phase;
                self.kept = kept;
                Ok(())
            },
            Next::Done(output) => {
                self.tasks.pop();
                self.phase = Phase::Start;
                self.kept = String::new();
                self.output = output;
                assert(self@.kept =~= seq![]);
                assert(self@.tasks =~= before.tasks.skip(1));
                Ok(())
            },
            Next::Failed(message) => Err(message),
        }
    }
}

// ---------------------------------------------------------------------------
// The tasks for a network

/// An empty set exists, which any set of the name before it has made way for.
pub open spec fn ipset_tasks(ipset: Seq<char>, name: Seq<char>) -> Seq<TaskModel> {
    seq![
        TaskModel::Attempt(CommandModel { path: ipset, args: seq!["destroy"@, name] }),
        TaskModel::CreateIpset { ipset, name },
    ]
}

/// The tasks that put rules in.
pub open spec fn rule_tasks(iptables: Seq<char>, rules: Seq<Seq<Seq<char>>>) -> Seq<TaskModel> {
    rules.map_values(
        |args: Seq<Seq<char>>| TaskModel::EnsureRule(CommandModel { path: iptables, args }),
    )
}

/// The arguments with which Docker makes the network of a plan.
pub open spec fn docker_create(plan: PlanModel) -> Seq<Seq<char>> {
    seq![
        "network"@, "create"@, "--driver"@, "bridge"@, "--subnet"@, plan.subnet, "--ip-range"@,
        plan.subnet, "--gateway"@, plan.gateway, plan.name,
    ]
}

/// The tasks for a Docker network: its set, the network itself in place of any that has the
/// name, and its rules.
pub open spec fn docker_tasks(
    ipset: Seq<char>,
    docker: Seq<char>,
    iptables: Seq<char>,
    plan: PlanModel,
) -> Seq<TaskModel> {
    ipset_tasks(ipset, plan.name) + seq![
        TaskModel::Attempt(
            CommandModel { path: docker, args: seq!["network"@, "rm"@, plan.name] },
        ),
        TaskModel::Checked(CommandModel { path: docker, args: docker_create(plan) }),
    ] + rule_tasks(iptables, docker_rules(plan))
}

/// The arguments with which an interface gets an address.
pub open spec fn add_address(cidr: Seq<char>, interface: Seq<char>) -> Seq<Seq<char>> {
    seq!["addr"@, "replace"@, cidr, "dev"@, interface]
}

/// The tasks that make the chain for rootless Podman networks and put the rules of one in.
pub open spec fn podman_chain_tasks(
    iptables: Seq<char>,
    name: Seq<char>,
    cidr: Seq<char>,
    interface: Seq<char>,
    dns_port: u16,
) -> Seq<TaskModel> {
    seq![TaskModel::EnsureChain { iptables, name: PODMAN_OUTPUT_CHAIN@ }] + rule_tasks(
        iptables,
        podman_rules(name, cidr, interface, dns_port),
    )
}

/// The tasks for a rootless Podman network: its source address, its set, and its rules.
pub open spec fn podman_tasks(
    ip: Seq<char>,
    ipset: Seq<char>,
    iptables: Seq<char>,
    name: Seq<char>,
    cidr: Seq<char>,
    interface: Seq<char>,
    dns_port: u16,
) -> Seq<TaskModel> {
    seq![TaskModel::Checked(CommandModel { path: ip, args: add_address(cidr, interface) })]
        + ipset_tasks(ipset, name) + podman_chain_tasks(iptables, name, cidr, interface, dns_port)
}

fn push_ipset_tasks(tasks: &mut Vec<Task>, ipset: &str, name: &str)
    ensures
        task_models(final(tasks)@) == task_models(old(tasks)@) + ipset_tasks(ipset@, name@),
{
    let ghost before = task_models(tasks@);
    let args = strings(&["destroy", name]);
    assert(texts(args@) =~= seq!["destroy"@, name@]);
    tasks.push(Task::Attempt(Command { path: ipset.to_owned(), args }));
    tasks.push(Task::CreateIpset { ipset: ipset.to_owned(), name: name.to_owned() });
    assert(task_models(tasks@) =~= before + ipset_tasks(ipset@, name@));
}

fn push_rule_tasks(tasks: &mut Vec<Task>, iptables: &str, rules: Vec<Vec<String>>)
    ensures
        task_models(final(tasks)@) == task_models(old(tasks)@) + rule_tasks(
            iptables@,
            all_texts(rules@),
        ),
{
    let ghost before = task_models(tasks@);
    let ghost all = rule_tasks(iptables@, all_texts(rules@));
    assert(task_models(tasks@) =~= before + all.take(0));
    for args in it: rules
        invariant
            it.seq() == rules@,
            all == rule_tasks(iptables@, all_texts(rules@)),
            task_models(tasks@) == before + all.take(it.index() as int),
    {
        let ghost i = it.index() as int;
        let ghost now = task_models(tasks@);
        tasks.push(Task::EnsureRule(Command { path: iptables.to_owned(), args }));
        proof {
            assert(task_models(tasks@) =~= now.push(all[i]));
            assert(all.take(i + 1) =~= all.take(i).push(all[i]));
            assert(task_models(tasks@) =~= before + all.take(i + 1));
        }
    }
    assert(all.take(all.len() as int) =~= all);
}

/// The tasks for a Docker network.
pub fn docker_tasks_of(ipset: &str, docker: &str, iptables: &str, plan: &NetworkPlan) -> (r: Vec<
    Task,
>)
    ensures
        task_models(r@) == docker_tasks(ipset@, docker@, iptables@, plan@),
{
    let mut tasks: Vec<Task> = Vec::new();
    let name = plan.name.as_str();
    push_ipset_tasks(&mut tasks, ipset, name);
    let ghost before = task_models(tasks@);
    let remove = strings(&["network", "rm", name]);
    let create = strings(
        &[
            "network", "create", "--driver", "bridge", "--subnet", plan.subnet.as_str(),
            "--ip-range", plan.subnet.as_str(), "--gateway", plan.gateway.as_str(), name,
        ],
    );
    proof {
        assert(texts(remove@) =~= seq!["network"@, "rm"@, name@]);
        assert(texts(create@) =~= docker_create(plan@));
    }
    tasks.push(Task::Attempt(Command { path: docker.to_owned(), args: remove }));
    tasks.push(Task::Checked(Command { path: docker.to_owned(), args: create }));
    proof {
        assert(before =~= ipset_tasks(ipset@, name@));
        assert(task_models(tasks@) =~= before + seq![
            TaskModel::Attempt(
                CommandModel { path: docker@, args: seq!["network"@, "rm"@, name@] },
            ),
            TaskModel::Checked(CommandModel { path: docker@, args: docker_create(plan@) }),
        ]);
    }
    push_rule_tasks(&mut tasks, iptables, docker_rules_of(plan));
    tasks
}

/// The task that gives an interface an address.
pub fn add_address_task(ip: &str, cidr: &str, interface: &str) -> (r: Task)
    ensures
        r@ == TaskModel::Checked(CommandModel { path: ip@, args: add_address(cidr@, interface@) }),
{
    let args = strings(&["addr", "replace", cidr, "dev", interface]);
    assert(texts(args@) =~= add_address(cidr@, interface@));
    Task::Checked(Command { path: ip.to_owned(), args })
}

/// The tasks for a rootless Podman network.
pub fn podman_tasks_of(
    ip: &str,
    ipset: &str,
    iptables: &str,
    name: &str,
    cidr: &str,
    interface: &str,
    dns_port: u16,
) -> (r: Vec<Task>)
    ensures
        task_models(r@) == podman_tasks(
            ip@,
            ipset@,
            iptables@,
            name@,
            cidr@,
            interface@,
            dns_port,
        ),
{
    let mut tasks: Vec<Task> = Vec::new();
    tasks.push(add_address_task(ip, cidr, interface));
    let ghost first = seq![
        TaskModel::Checked(CommandModel { path: ip@, args: add_address(cidr@, interface@) }),
    ];
    assert(task_models(tasks@) =~= first);
    push_ipset_tasks(&mut tasks, ipset, name);
    let ghost before = task_models(tasks@);
    tasks.push(
        Task::EnsureChain { iptables: iptables.to_owned(), name: PODMAN_OUTPUT_CHAIN.to_owned() },
    );
    assert(task_models(tasks@) =~= before + seq![
        TaskModel::EnsureChain { iptables: iptables@, name: PODMAN_OUTPUT_CHAIN@ },
    ]);
    push_rule_tasks(&mut tasks, iptables, podman_rules_of(name, cidr, interface, dns_port));
    tasks
}

// ---------------------------------------------------------------------------
// Laws

/// What is said of a command that failed tells what it wrote, without the white space around it:
/// first what it wrote on failures, then what it wrote else. What it did not write is not
/// mentioned.
pub proof fn failures_of_commands_are_told(
    a: Seq<char>,
    out: Seq<char>,
    b: Seq<char>,
    c: Seq<char>,
    err: Seq<char>,
    d: Seq<char>,
)
    requires
        blank(a, false) && blank(b, false) && blank(c, false) && blank(d, false),
        out.len() > 0 ==> !separates(out[0], false) && !separates(out.last(), false),
        err.len() > 0 ==> !separates(err[0], false) && !separates(err.last(), false),
    ensures
        ({
            let told = failure_text(a + out + b, c + err + d);
            &&& out.len() == 0 && err.len() == 0 ==> told == "command failed"@
            &&& out.len() == 0 && err.len() > 0 ==> told == "command failed"@ + ": "@ + err
            &&& out.len() > 0 && err.len() == 0 ==> told == "command failed"@ + ": "@ + "stdout: "@
                + out
            &&& out.len() > 0 && err.len() > 0 ==> told == "command failed"@ + ": "@ + err + "; "@
                + "stdout: "@ + out
        }),
{
    blanks_go_from_both_ends(a, out, b);
    blanks_go_from_both_ends(c, err, d);
    reveal_strlit("command failed");
    reveal_strlit(": ");
    reveal_strlit("; ");
    reveal_strlit("stdout: ");
    reveal_strlit("command failed: ");
    reveal_strlit("command failed: stdout: ");
    reveal_strlit("; stdout: ");
    assert("command failed: "@ =~= "command failed"@ + ": "@);
    assert("command failed: stdout: "@ =~= "command failed"@ + ": "@ + "stdout: "@);
    assert("; stdout: "@ =~= "; "@ + "stdout: "@);
    assert("command failed: "@ + err + "; stdout: "@ + out =~= "command failed"@ + ": "@ + err
        + "; "@ + "stdout: "@ + out);
}

/// An attempt is done whatever came of its command; a command that has to succeed is done only if
/// it did, and else tells why not. What was written is kept.
pub proof fn commands_have_to_succeed_unless_attempted(
    c: CommandModel,
    kept: Seq<char>,
    outcome: OutcomeModel,
)
    ensures
        command_for(TaskModel::Attempt(c), Phase::Start) == c,
        command_for(TaskModel::Checked(c), Phase::Start) == c,
        next_for(TaskModel::Attempt(c), Phase::Start, kept, outcome) is Done,
        ({
            let next = next_for(TaskModel::Checked(c), Phase::Start, kept, outcome);
            match outcome {
                OutcomeModel::NotStarted(e) => next matches NextModel::Failed(why) && why == e,
                OutcomeModel::Exited { success, stdout, stderr } => {
                    &&& success ==> (next matches NextModel::Done(output) && output == stdout)
                    &&& !success ==> (next matches NextModel::Failed(why) && why == failure_text(
                        stdout,
                        stderr,
                    ))
                },
            }
        }),
{
}

/// Tasks are worked on one after the other: a command leaves the tasks as they are, or without
/// the first of them, whose work then begins anew; or it is the end of the work.
pub proof fn tasks_are_done_one_by_one(w: WorkerModel, outcome: OutcomeModel)
    requires
        w.tasks.len() > 0,
    ensures
        match (next_for(w.tasks[0], w.phase, w.kept, outcome), after_command(w, outcome)) {
            (NextModel::Go(phase, kept), Ok(v)) => {
                &&& v.tasks == w.tasks
                &&& v.phase == phase
                &&& v.kept == kept
            },
            (NextModel::Done(output), Ok(v)) => {
                &&& v.tasks.len() + 1 == w.tasks.len()
                &&& forall|i: int|
                    0 <= i < v.tasks.len() ==> #[trigger] v.tasks[i] == w.tasks[i + 1]
                &&& v.phase == Phase::Start
                &&& v.output == output
            },
            (NextModel::Failed(why), Err(e)) => why == e,
            _ => false,
        },
        next_command(w) == Some(command_for(w.tasks[0], w.phase)),
{
}

/// A Docker network comes to be in this order: what is left of its set is destroyed, its set is
/// made, a network of its name is removed if there is one, the network is made with the subnet and
/// the gateway of its plan, and its rules come to stand, all of them and in their order.
pub proof fn docker_networks_come_to_be_in_order(
    ipset: Seq<char>,
    docker: Seq<char>,
    iptables: Seq<char>,
    plan: PlanModel,
    k: int,
)
    ensures
        ({
            let tasks = docker_tasks(ipset, docker, iptables, plan);
            &&& tasks.len() == 4 + docker_rules(plan).len()
            &&& tasks[0] matches TaskModel::Attempt(c) && c.path == ipset && c.args
                =~= seq!["destroy"@, plan.name]
            &&& tasks[1] matches TaskModel::CreateIpset { ipset: path, name } && path == ipset
                && name == plan.name
            &&& tasks[2] matches TaskModel::Attempt(c) && c.path == docker && c.args
                =~= seq!["network"@, "rm"@, plan.name]
            &&& tasks[3] matches TaskModel::Checked(c) && c.path == docker && c.args.len() == 11
                && c.args.take(4) =~= seq!["network"@, "create"@, "--driver"@, "bridge"@]
                && c.args.last() == plan.name && c.args.subrange(
                4,
                6,
            ) =~= seq!["--subnet"@, plan.subnet] && c.args.subrange(6, 8) =~= seq![
                "--ip-range"@,
                plan.subnet,
            ] && c.args.subrange(8, 10) =~= seq!["--gateway"@, plan.gateway]
            &&& 0 <= k < docker_rules(plan).len() ==> (tasks[4
                + k] matches TaskModel::EnsureRule(c) && c.path == iptables && c.args
                == docker_rules(plan)[k])
        }),
{
}

/// A rootless Podman network comes to be in this order: its source address is put on its
/// interface, what is left of its set is destroyed, its set is made, the chain for such networks
/// comes to exist, and its rules come to stand, all of them and in their order.
pub proof fn podman_networks_come_to_be_in_order(
    ip: Seq<char>,
    ipset: Seq<char>,
    iptables: Seq<char>,
    name: Seq<char>,
    cidr: Seq<char>,
    interface: Seq<char>,
    dns_port: u16,
    k: int,
)
    ensures
        ({
            let tasks = podman_tasks(ip, ipset, iptables, name, cidr, interface, dns_port);
            let rules = podman_rules(name, cidr, interface, dns_port);
            &&& tasks.len() == 4 + rules.len()
            &&& tasks[0] matches TaskModel::Checked(c) && c.path == ip && c.args =~= seq![
                "addr"@,
                "replace"@,
                cidr,
                "dev"@,
                interface,
            ]
            &&& tasks[1] matches TaskModel::Attempt(c) && c.path == ipset && c.args
                =~= seq!["destroy"@, name]
            &&& tasks[2] matches TaskModel::CreateIpset { ipset: path, name: n } && path == ipset
                && n == name
            &&& tasks[3] matches TaskModel::EnsureChain { iptables: path, name: chain } && path
                == iptables && chain == PODMAN_OUTPUT_CHAIN@
            &&& 0 <= k < rules.len() ==> (tasks[4 + k] matches TaskModel::EnsureRule(c) && c.path
                == iptables && c.args == rules[k])
        }),
{
}

/// A command that could not be started is the end of its task, with the reason, unless what comes
/// of it does not matter: that is so of attempts, and of removing what an earlier run left.
pub proof fn commands_that_do_not_start_fail(
    task: TaskModel,
    phase: Phase,
    kept: Seq<char>,
    e: Seq<char>,
)
    ensures
        ({
            let next = next_for(task, phase, kept, OutcomeModel::NotStarted(e));
            if task is Attempt {
                next is Done
            } else if task is CreateIpset && phase == Phase::DestroyingOld {
                next == NextModel::Go(Phase::CreatingNew, kept)
            } else {
                next == NextModel::Failed(e)
            }
        }),
{
}

/// A chain that can be neither made nor listed is told, with its name and why it could not be
/// made; one that can be listed is there.
pub proof fn chains_that_cannot_be_made_are_told(
    iptables: Seq<char>,
    name: Seq<char>,
    kept: Seq<char>,
    stdout: Seq<char>,
    stderr: Seq<char>,
)
    ensures
        ({
            let task = TaskModel::EnsureChain { iptables, name };
            let failure = OutcomeModel::Exited { success: false, stdout, stderr };
            let success = OutcomeModel::Exited { success: true, stdout, stderr };
            &&& next_for(task, Phase::Start, kept, failure) == NextModel::Go(
                Phase::Listing,
                failure_text(stdout, stderr),
            )
            &&& next_for(task, Phase::Listing, kept, failure) == NextModel::Failed(
                "failed to create iptables chain "@ + name + ": "@ + kept,
            )
            &&& next_for(task, Phase::Start, kept, success) is Done
            &&& next_for(task, Phase::Listing, kept, success) is Done
        }),
{
}

/// A set is made for single addresses, as many as it may get, and one that is to replace another
/// is made under another name.
pub proof fn sets_are_made_for_addresses(ipset: Seq<char>, name: Seq<char>)
    ensures
        ({
            let task = TaskModel::CreateIpset { ipset, name };
            let first = command_for(task, Phase::Start);
            let spare = command_for(task, Phase::CreatingNew);
            &&& first.path == ipset && spare.path == ipset
            &&& first.args.take(3) =~= seq!["create"@, name, "hash:ip"@]
            &&& first.args.subrange(3, 5) =~= seq!["maxelem"@, "1000000000"@]
            &&& first.args.last() == "-exist"@
            &&& spare.args.take(3) =~= seq!["create"@, name + "-tmp"@, "hash:ip"@]
            &&& spare.args.subrange(3, 5) =~= seq!["maxelem"@, "1000000000"@]
        }),
{
}

} // verus!
