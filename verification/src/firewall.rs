//! What the rules of a network do: how iptables keeps rules in chains, where the rules of a
//! network come to stand, and which packets they let through.

use vstd::prelude::*;

use crate::addr::{in_subnet, IpAddr};
use crate::ipset::Sets;
use crate::rules::{deletion, is_position, operation_index};
use crate::tasks::{
    after_command, failure_text, next_command, rule_tasks, CommandModel, OutcomeModel, Phase,
    TaskModel, WorkerModel,
};
use crate::text::{
    decimal, digit_value, digits_len, lemma_decimal_reads_back, lemma_digits_len, whole_number,
    ParseIntError,
};

verus! {

// ---------------------------------------------------------------------------
// Chains

/// A chain of rules in a table.
pub struct ChainId {
    pub table: Seq<char>,
    pub chain: Seq<char>,
}

/// The rules in each chain that there is. A rule is what follows the chain, and the position in
/// it, among the arguments that put it in.
pub struct Firewall {
    pub chains: Map<ChainId, Seq<Seq<Seq<char>>>>,
}

/// A rule and where it is put.
pub struct Placement {
    pub id: ChainId,
    /// The position in the chain, from 1 on.
    pub position: nat,
    pub rule: Seq<Seq<char>>,
}

/// The table that arguments speak of, whose operation stands at place `i`.
pub open spec fn table_of(args: Seq<Seq<char>>, i: int) -> Seq<char> {
    if i == 2 {
        args[1]
    } else {
        "filter"@
    }
}

/// Where arguments put a rule; `None` where they put none.
pub open spec fn insertion_of(args: Seq<Seq<char>>) -> Option<Placement> {
    let i = operation_index(args);
    if (i == 0 || i == 2 && args[0] == "-t"@) && i + 1 < args.len() && args[i] == "-I"@ {
        let id = ChainId { table: table_of(args, i), chain: args[i + 1] };
        if i + 2 < args.len() && is_position(args[i + 2]) {
            Some(
                Placement {
                    id,
                    position: whole_number(args[i + 2], u32::MAX as nat)->Ok_0,
                    rule: args.skip(i + 3),
                },
            )
        } else {
            Some(Placement { id, position: 1, rule: args.skip(i + 2) })
        }
    } else {
        None
    }
}

/// Which rule arguments take out of which chain; `None` where they take none out.
pub open spec fn removal_of(args: Seq<Seq<char>>) -> Option<(ChainId, Seq<Seq<char>>)> {
    let i: int = if args.len() > 0 && args[0] == "-t"@ {
        2
    } else {
        0
    };
    if i + 1 < args.len() && args[i] == "-D"@ {
        Some(
            (ChainId { table: table_of(args, i), chain: args[i + 1] }, args.skip(i + 2)),
        )
    } else {
        None
    }
}

/// What iptables does: the chains after it, or `None` where it fails. A rule is put in at a
/// position that the chain has or that follows its last rule, and taken out where it first
/// stands. A chain that there is cannot be made again, and one that there is not cannot be
/// listed.
pub open spec fn iptables(f: Firewall, args: Seq<Seq<char>>) -> Option<Firewall> {
    match (removal_of(args), insertion_of(args)) {
        (Some((id, rule)), _) => if f.chains.contains_key(id) && f.chains[id].contains(rule) {
            let rules = f.chains[id];
            Some(Firewall { chains: f.chains.insert(id, rules.remove(rules.index_of(rule))) })
        } else {
            None
        },
        (None, Some(p)) => if f.chains.contains_key(p.id) && 1 <= p.position
            <= f.chains[p.id].len() + 1 {
            Some(
                Firewall {
                    chains: f.chains.insert(
                        p.id,
                        f.chains[p.id].insert(p.position - 1, p.rule),
                    ),
                },
            )
        } else {
            None
        },
        (None, None) => if args.len() == 2 && args[0] == "-N"@ {
            new_chain(f, ChainId { table: "filter"@, chain: args[1] })
        } else if args.len() == 2 && args[0] == "-S"@ && f.chains.contains_key(
            ChainId { table: "filter"@, chain: args[1] },
        ) {
            Some(f)
        } else {
            None
        },
    }
}

/// The chains with a new one among them, which holds no rule; `None` where there is one of its
/// name.
pub open spec fn new_chain(f: Firewall, id: ChainId) -> Option<Firewall> {
    if f.chains.contains_key(id) {
        None
    } else {
        Some(Firewall { chains: f.chains.insert(id, seq![]) })
    }
}

/// What comes of a call of iptables.
pub open spec fn outcome(f: Firewall, args: Seq<Seq<char>>) -> OutcomeModel {
    OutcomeModel::Exited { success: iptables(f, args) is Some, stdout: seq![], stderr: seq![] }
}

/// The chains after a call of iptables.
pub open spec fn after_call(f: Firewall, args: Seq<Seq<char>>) -> Firewall {
    match iptables(f, args) {
        Some(g) => g,
        None => f,
    }
}

/// A worker whose commands are calls of iptables, and the chains, after `n` commands.
pub open spec fn replayed(w: WorkerModel, f: Firewall, n: nat) -> (
    Result<WorkerModel, Seq<char>>,
    Firewall,
)
    decreases n,
{
    match next_command(w) {
        Some(c) if n > 0 => {
            let g = after_call(f, c.args);
            match after_command(w, outcome(f, c.args)) {
                Ok(v) => replayed(v, g, (n - 1) as nat),
                Err(e) => (Err(e), g),
            }
        },
        _ => (Ok(w), f),
    }
}

/// The rules without one of them, wherever it stands.
pub open spec fn without(rules: Seq<Seq<Seq<char>>>, rule: Seq<Seq<char>>) -> Seq<Seq<Seq<char>>> {
    rules.filter(|r: Seq<Seq<char>>| r != rule)
}

/// Whether a rule can be put where the arguments ask for it.
pub open spec fn fits(f: Firewall, args: Seq<Seq<char>>) -> bool {
    insertion_of(args) matches Some(p) && {
        &&& f.chains.contains_key(p.id)
        &&& 1 <= p.position <= without(f.chains[p.id], p.rule).len() + 1
    }
}

/// The chains in which the rule stands where the arguments ask for it, and nowhere else in its
/// chain.
pub open spec fn placed(f: Firewall, args: Seq<Seq<char>>) -> Firewall {
    let p = insertion_of(args)->0;
    Firewall {
        chains: f.chains.insert(
            p.id,
            without(f.chains[p.id], p.rule).insert(p.position - 1, p.rule),
        ),
    }
}

/// The chains after several rules were put in, one after the other.
pub open spec fn all_placed(f: Firewall, rules: Seq<Seq<Seq<char>>>) -> Firewall
    decreases rules.len(),
{
    if rules.len() == 0 {
        f
    } else {
        placed(all_placed(f, rules.drop_last()), rules.last())
    }
}

/// Whether each rule can be put in after those before it.
pub open spec fn all_fit(f: Firewall, rules: Seq<Seq<Seq<char>>>) -> bool {
    forall|k: int| 0 <= k < rules.len() ==> fits(all_placed(f, rules.take(k)), #[trigger] rules[k])
}

// ---------------------------------------------------------------------------
// Putting rules in

/// The arguments that take a rule out speak of the rule that was put in.
pub proof fn deletion_speaks_of_the_same_rule(args: Seq<Seq<char>>)
    ensures
        insertion_of(args) matches Some(p) ==> removal_of(deletion(args)) == Some((p.id, p.rule)),
{
    reveal_strlit("-t");
    reveal_strlit("-I");
    reveal_strlit("-A");
    reveal_strlit("-D");
    assert("-t"@[1] == 't' && "-D"@[1] == 'D' && "-I"@[1] == 'I');
    if let Some(p) = insertion_of(args) {
        let i = operation_index(args);
        let d = deletion(args);
        if i + 2 < args.len() && is_position(args[i + 2]) {
            assert(d.skip(i + 2) =~= args.skip(i + 3));
        } else {
            assert(d.skip(i + 2) =~= args.skip(i + 2));
        }
        assert(d[i] == "-D"@);
        assert(d[i + 1] == args[i + 1]);
        if i == 0 {
            assert(d[0] != "-t"@);
        }
    }
}

/// Taking a rule out once changes nothing of what is left without it.
proof fn lemma_without_after_removal(rules: Seq<Seq<Seq<char>>>, rule: Seq<Seq<char>>, i: int)
    requires
        0 <= i < rules.len(),
        rules[i] == rule,
    ensures
        without(rules.remove(i), rule) == without(rules, rule),
{
    let keep = |r: Seq<Seq<char>>| r != rule;
    let (front, back) = (rules.take(i), rules.skip(i + 1));
    Seq::filter_distributes_over_add(front.push(rule), back, keep);
    Seq::filter_distributes_over_add(front, back, keep);
    reveal(Seq::filter);
    assert(front.push(rule).drop_last() =~= front);
    assert(front.push(rule).filter(keep) == front.filter(keep));
    assert(rules =~= front.push(rule) + back);
    assert(rules.remove(i) =~= front + back);
}

/// Where a rule does not stand, nothing is left out.
proof fn lemma_without_stranger(rules: Seq<Seq<Seq<char>>>, rule: Seq<Seq<char>>)
    requires
        !rules.contains(rule),
    ensures
        without(rules, rule) == rules,
    decreases rules.len(),
{
    reveal(Seq::filter);
    if rules.len() > 0 {
        let front = rules.drop_last();
        assert forall|r: Seq<Seq<char>>| front.contains(r) implies rules.contains(r) by {
            let i = choose|i: int| 0 <= i < front.len() && front[i] == r;
            assert(rules[i] == r);
        }
        lemma_without_stranger(front, rule);
        assert(rules[rules.len() - 1] != rule);
        assert(rules =~= front.push(rules.last()));
    }
}

/// More commands go on where fewer commands ended.
proof fn lemma_replayed_further(w: WorkerModel, f: Firewall, n: nat, m: nat)
    ensures
        replayed(w, f, n).0 matches Ok(v) ==> replayed(w, f, n + m) == replayed(
            v,
            replayed(w, f, n).1,
            m,
        ),
    decreases n,
{
    if n > 0 {
        if let Some(c) = next_command(w) {
            let g = after_call(f, c.args);
            if let Ok(v) = after_command(w, outcome(f, c.args)) {
                lemma_replayed_further(v, g, (n - 1) as nat, m);
            }
        }
    }
}

/// The worker after its next task, which wrote nothing.
pub open spec fn after_task(w: WorkerModel) -> WorkerModel {
    WorkerModel { tasks: w.tasks.skip(1), phase: Phase::Start, kept: seq![], output: seq![] }
}

/// Once a rule is out of its chain, it is put in by two more commands.
proof fn lemma_put_in(w: WorkerModel, f: Firewall, c: CommandModel)
    requires
        w.tasks.len() > 0,
        w.tasks[0] == TaskModel::EnsureRule(c),
        w.phase == Phase::Start,
        fits(f, c.args),
        !f.chains[insertion_of(c.args)->0.id].contains(insertion_of(c.args)->0.rule),
    ensures
        replayed(w, f, 2) == (Ok::<WorkerModel, Seq<char>>(after_task(w)), placed(f, c.args)),
{
    let p = insertion_of(c.args)->0;
    deletion_speaks_of_the_same_rule(c.args);
    lemma_without_stranger(f.chains[p.id], p.rule);
    assert(iptables(f, deletion(c.args)) is None);
    let v = WorkerModel { phase: Phase::Inserting, ..w };
    assert(after_command(w, outcome(f, deletion(c.args))) == Ok::<WorkerModel, Seq<char>>(v));
    lemma_insertion_is_no_removal(c.args);
    assert(iptables(f, c.args) == Some(placed(f, c.args)));
    assert(after_command(v, outcome(f, c.args)) == Ok::<WorkerModel, Seq<char>>(after_task(w)));
    reveal_with_fuel(replayed, 3);
}

/// Arguments that put a rule in take none out.
proof fn lemma_insertion_is_no_removal(args: Seq<Seq<char>>)
    requires
        insertion_of(args) is Some,
    ensures
        removal_of(args) is None,
{
    reveal_strlit("-t");
    reveal_strlit("-I");
    reveal_strlit("-D");
    assert("-t"@[1] == 't' && "-D"@[1] == 'D' && "-I"@[1] == 'I');
    let i = operation_index(args);
    if i == 0 {
        assert(args[0] == "-I"@);
    }
}

/// A rule comes to stand where the arguments ask for it, and nowhere else in its chain,
/// whatever the chain held before: after some number of commands the task is done.
pub proof fn a_rule_comes_to_stand_once(w: WorkerModel, f: Firewall, c: CommandModel)
    requires
        w.tasks.len() > 0,
        w.tasks[0] == TaskModel::EnsureRule(c),
        w.phase == Phase::Start,
        fits(f, c.args),
    ensures
        exists|n: nat|
            #[trigger] replayed(w, f, n) == (
                Ok::<WorkerModel, Seq<char>>(after_task(w)),
                placed(f, c.args),
            ),
    decreases f.chains[insertion_of(c.args)->0.id].len(),
{
    let p = insertion_of(c.args)->0;
    let rules = f.chains[p.id];
    if !rules.contains(p.rule) {
        lemma_put_in(w, f, c);
    } else {
        deletion_speaks_of_the_same_rule(c.args);
        let i = rules.index_of(p.rule);
        assert(0 <= i < rules.len() && rules[i] == p.rule);
        lemma_without_after_removal(rules, p.rule, i);
        let g = Firewall { chains: f.chains.insert(p.id, rules.remove(i)) };
        assert(iptables(f, deletion(c.args)) == Some(g));
        assert(after_command(w, outcome(f, deletion(c.args))) == Ok::<WorkerModel, Seq<char>>(w));
        a_rule_comes_to_stand_once(w, g, c);
        assert(placed(g, c.args).chains =~= placed(f, c.args).chains);
        let n = choose|n: nat|
            #[trigger] replayed(w, g, n) == (
                Ok::<WorkerModel, Seq<char>>(after_task(w)),
                placed(g, c.args),
            );
        assert(replayed(w, f, n + 1) == replayed(w, g, n));
    }
}

proof fn lemma_chain_commands(f: Firewall, name: Seq<char>)
    ensures
        ({
            let id = ChainId { table: "filter"@, chain: name };
            &&& iptables(f, seq!["-N"@, name]) == new_chain(f, id)
            &&& iptables(f, seq!["-S"@, name]) == if f.chains.contains_key(id) {
                Some(f)
            } else {
                None
            }
        }),
{
    reveal_strlit("-N");
    reveal_strlit("-S");
    reveal_strlit("-t");
    reveal_strlit("-D");
    reveal_strlit("-I");
    reveal_strlit("-A");
    assert("-N"@[1] == 'N' && "-S"@[1] == 'S' && "-t"@[1] == 't' && "-D"@[1] == 'D' && "-I"@[1]
        == 'I' && "-A"@[1] == 'A');
    let (make, list) = (seq!["-N"@, name], seq!["-S"@, name]);
    reveal_with_fuel(operation_index, 3);
    assert(make[0] == "-N"@ && list[0] == "-S"@);
    assert(operation_index(make) == 1 || operation_index(make) == 2);
    assert(operation_index(list) == 1 || operation_index(list) == 2);
}

/// A chain comes to exist: it is made where there is none, and left as it is where there is
/// one. The task is done after at most two commands.
pub proof fn a_chain_comes_to_exist(
    w: WorkerModel,
    f: Firewall,
    path: Seq<char>,
    name: Seq<char>,
)
    requires
        w.tasks.len() > 0,
        w.tasks[0] == (TaskModel::EnsureChain { iptables: path, name }),
        w.phase == Phase::Start,
    ensures
        ({
            let id = ChainId { table: "filter"@, chain: name };
            if f.chains.contains_key(id) {
                replayed(w, f, 2) == (Ok::<WorkerModel, Seq<char>>(after_task(w)), f)
            } else {
                replayed(w, f, 1) == (
                    Ok::<WorkerModel, Seq<char>>(after_task(w)),
                    new_chain(f, id)->0,
                )
            }
        }),
{
    let id = ChainId { table: "filter"@, chain: name };
    let (make, list) = (seq!["-N"@, name], seq!["-S"@, name]);
    lemma_chain_commands(f, name);
    assert(next_command(w) == Some(CommandModel { path, args: make }));
    if f.chains.contains_key(id) {
        let message = failure_text(seq![], seq![]);
        let v = WorkerModel { phase: Phase::Listing, kept: message, ..w };
        assert(after_command(w, outcome(f, make)) == Ok::<WorkerModel, Seq<char>>(v));
        assert(next_command(v) == Some(CommandModel { path, args: list }));
        assert(after_command(v, outcome(f, list)) == Ok::<WorkerModel, Seq<char>>(after_task(w)));
        reveal_with_fuel(replayed, 3);
    } else {
        assert(after_command(w, outcome(f, make)) == Ok::<WorkerModel, Seq<char>>(after_task(w)));
        reveal_with_fuel(replayed, 2);
    }
}

/// Whether, after `n` commands, the tasks in `rest` are left and the chains are `g`.
pub open spec fn reaches(
    w: WorkerModel,
    f: Firewall,
    n: nat,
    rest: Seq<TaskModel>,
    g: Firewall,
) -> bool {
    &&& replayed(w, f, n).0 matches Ok(v)
    &&& v.tasks == rest
    &&& v.phase == Phase::Start
    &&& replayed(w, f, n).1 == g
}

proof fn lemma_one_more_rule(
    w: WorkerModel,
    f: Firewall,
    n: nat,
    c: CommandModel,
    rest: Seq<TaskModel>,
    g: Firewall,
)
    requires
        reaches(w, f, n, seq![TaskModel::EnsureRule(c)] + rest, g),
        fits(g, c.args),
    ensures
        exists|m: nat| reaches(w, f, m, rest, placed(g, c.args)),
{
    let v = replayed(w, f, n).0->Ok_0;
    a_rule_comes_to_stand_once(v, g, c);
    let m = choose|m: nat|
        #[trigger] replayed(v, g, m) == (
            Ok::<WorkerModel, Seq<char>>(after_task(v)),
            placed(g, c.args),
        );
    lemma_replayed_further(w, f, n, m);
    assert(after_task(v).tasks =~= rest);
    assert(reaches(w, f, n + m, rest, placed(g, c.args)));
}

/// Several rules come to stand one after the other, each where its arguments ask for it.
pub proof fn rules_come_to_stand(
    w: WorkerModel,
    f: Firewall,
    path: Seq<char>,
    rules: Seq<Seq<Seq<char>>>,
    rest: Seq<TaskModel>,
)
    requires
        w.tasks == rule_tasks(path, rules) + rest,
        w.phase == Phase::Start,
        all_fit(f, rules),
    ensures
        exists|n: nat| reaches(w, f, n, rest, all_placed(f, rules)),
    decreases rules.len(),
{
    if rules.len() == 0 {
        assert(w.tasks =~= rest);
        assert(all_placed(f, rules) == f);
        assert(reaches(w, f, 0, rest, f));
    } else {
        let front = rules.drop_last();
        let c = CommandModel { path, args: rules.last() };
        let more = seq![TaskModel::EnsureRule(c)] + rest;
        assert(rule_tasks(path, rules) + rest =~= rule_tasks(path, front) + more);
        assert forall|k: int| 0 <= k < front.len() implies fits(
            all_placed(f, front.take(k)),
            #[trigger] front[k],
        ) by {
            assert(front.take(k) =~= rules.take(k));
            assert(front[k] == rules[k]);
        }
        rules_come_to_stand(w, f, path, front, more);
        let g = all_placed(f, front);
        let n = choose|n: nat| reaches(w, f, n, more, g);
        assert(rules.take(rules.len() - 1) =~= front);
        assert(fits(g, rules[rules.len() - 1]));
        assert(all_placed(f, rules) == placed(g, c.args));
        lemma_one_more_rule(w, f, n, c, rest, g);
    }
}

// ---------------------------------------------------------------------------
// Where rules stand

/// The rules that are not among `bodies`.
pub open spec fn others(rules: Seq<Seq<Seq<char>>>, bodies: Seq<Seq<Seq<char>>>) -> Seq<
    Seq<Seq<char>>,
> {
    rules.filter(|r: Seq<Seq<char>>| !bodies.contains(r))
}

/// Whether the arguments put the rules in `bodies` at the head of a chain, in their order.
pub open spec fn heads(
    rules: Seq<Seq<Seq<char>>>,
    id: ChainId,
    bodies: Seq<Seq<Seq<char>>>,
) -> bool {
    &&& rules.len() == bodies.len()
    &&& bodies.no_duplicates()
    &&& forall|k: int|
        0 <= k < rules.len() ==> insertion_of(#[trigger] rules[k]) == Some(
            Placement { id, position: (k + 1) as nat, rule: bodies[k] },
        )
}

proof fn lemma_others_further(
    rules: Seq<Seq<Seq<char>>>,
    bodies: Seq<Seq<Seq<char>>>,
    rule: Seq<Seq<char>>,
)
    ensures
        without(others(rules, bodies), rule) == others(rules, bodies.push(rule)),
    decreases rules.len(),
{
    reveal(Seq::filter);
    if rules.len() > 0 {
        let last = rules.last();
        lemma_others_further(rules.drop_last(), bodies, rule);
        let more = bodies.push(rule);
        assert(more.contains(last) <==> bodies.contains(last) || last == rule) by {
            if bodies.contains(last) {
                let i = choose|i: int| 0 <= i < bodies.len() && bodies[i] == last;
                assert(more[i] == last);
            }
            if last == rule {
                assert(more[bodies.len() as int] == last);
            }
        }
        let kept = others(rules.drop_last(), bodies);
        if !bodies.contains(last) {
            assert(others(rules, bodies) == kept.push(last));
            assert(kept.push(last).drop_last() =~= kept);
        }
    }
}

proof fn lemma_others_of_none(rules: Seq<Seq<Seq<char>>>)
    ensures
        others(rules, seq![]) == rules,
    decreases rules.len(),
{
    reveal(Seq::filter);
    if rules.len() > 0 {
        lemma_others_of_none(rules.drop_last());
        assert(rules =~= rules.drop_last().push(rules.last()));
    }
}

/// A chain that begins with rules, after one more rule was put behind them.
proof fn lemma_one_more_head(
    old: Seq<Seq<Seq<char>>>,
    bodies: Seq<Seq<Seq<char>>>,
    rule: Seq<Seq<char>>,
)
    requires
        !bodies.contains(rule),
    ensures
        without(bodies + others(old, bodies), rule) == bodies + others(old, bodies.push(rule)),
        without(bodies + others(old, bodies), rule).insert(bodies.len() as int, rule)
            == bodies.push(rule) + others(old, bodies.push(rule)),
{
    let rest = others(old, bodies);
    Seq::filter_distributes_over_add(bodies, rest, |r: Seq<Seq<char>>| r != rule);
    lemma_without_stranger(bodies, rule);
    lemma_others_further(old, bodies, rule);
    assert(without(bodies + rest, rule).insert(bodies.len() as int, rule) =~= bodies.push(rule)
        + others(old, bodies.push(rule)));
}

proof fn lemma_shorter_heads(
    rules: Seq<Seq<Seq<char>>>,
    id: ChainId,
    bodies: Seq<Seq<Seq<char>>>,
)
    requires
        heads(rules, id, bodies),
        rules.len() > 0,
    ensures
        heads(rules.drop_last(), id, bodies.drop_last()),
        !bodies.drop_last().contains(bodies.last()),
{
    let front = rules.drop_last();
    let before = bodies.drop_last();
    assert forall|j: int| 0 <= j < front.len() implies insertion_of(#[trigger] front[j]) == Some(
        Placement { id, position: (j + 1) as nat, rule: before[j] },
    ) by {
        assert(front[j] == rules[j]);
        assert(before[j] == bodies[j]);
    }
    assert forall|i: int, j: int|
        0 <= i < before.len() && 0 <= j < before.len() && i != j implies before[i]
        != before[j] by {
        assert(before[i] == bodies[i] && before[j] == bodies[j]);
    }
    if before.contains(bodies.last()) {
        let i = choose|i: int| 0 <= i < before.len() && before[i] == bodies.last();
        assert(bodies[i] == bodies[bodies.len() - 1]);
    }
}

proof fn lemma_all_fit_further(f: Firewall, rules: Seq<Seq<Seq<char>>>)
    requires
        rules.len() > 0,
        all_fit(f, rules.drop_last()),
        fits(all_placed(f, rules.drop_last()), rules.last()),
    ensures
        all_fit(f, rules),
{
    let front = rules.drop_last();
    assert forall|j: int| 0 <= j < rules.len() implies fits(
        all_placed(f, rules.take(j)),
        #[trigger] rules[j],
    ) by {
        if j < front.len() {
            assert(rules.take(j) =~= front.take(j));
            assert(front[j] == rules[j]);
        } else {
            assert(rules.take(j) =~= front);
        }
    }
}

/// Rules that are put at the head of a chain one after the other come to stand there in their
/// order, before what else the chain held. No other chain changes.
pub proof fn rules_stand_at_the_head(
    f: Firewall,
    rules: Seq<Seq<Seq<char>>>,
    id: ChainId,
    bodies: Seq<Seq<Seq<char>>>,
)
    requires
        heads(rules, id, bodies),
        f.chains.contains_key(id),
    ensures
        all_fit(f, rules),
        all_placed(f, rules) == settled(f, id, bodies),
    decreases rules.len(),
{
    let old = f.chains[id];
    if rules.len() == 0 {
        lemma_others_of_none(old);
        assert(bodies =~= seq![]);
        assert(bodies + others(old, bodies) =~= old);
        assert(f.chains.insert(id, old) =~= f.chains);
    } else {
        let front = rules.drop_last();
        let before = bodies.drop_last();
        let k = rules.len() - 1;
        let rule = bodies[k];
        lemma_shorter_heads(rules, id, bodies);
        rules_stand_at_the_head(f, front, id, before);
        let g = all_placed(f, front);
        assert(g.chains[id] == before + others(old, before));
        assert(insertion_of(rules[k]) == Some(
            Placement { id, position: (k + 1) as nat, rule },
        ));
        lemma_one_more_head(old, before, rule);
        assert(before.push(rule) =~= bodies);
        assert(placed(g, rules[k]).chains =~= f.chains.insert(id, bodies + others(old, bodies)));
        lemma_all_fit_further(f, rules);
    }
}

/// Rules after other rules are put in where those ended.
pub proof fn more_rules_go_on(
    f: Firewall,
    first: Seq<Seq<Seq<char>>>,
    second: Seq<Seq<Seq<char>>>,
)
    ensures
        all_placed(f, first + second) == all_placed(all_placed(f, first), second),
        all_fit(f, first) && all_fit(all_placed(f, first), second) ==> all_fit(f, first + second),
    decreases second.len(),
{
    let both = first + second;
    if second.len() == 0 {
        assert(both =~= first);
    } else {
        let front = second.drop_last();
        more_rules_go_on(f, first, front);
        assert(both.drop_last() =~= first + front);
        assert(both.last() == second.last());
        let g = all_placed(f, first);
        if all_fit(f, first) && all_fit(g, second) {
            assert forall|k: int| 0 <= k < front.len() implies fits(
                all_placed(g, front.take(k)),
                #[trigger] front[k],
            ) by {
                assert(front.take(k) =~= second.take(k));
                assert(front[k] == second[k]);
            }
            assert forall|k: int| 0 <= k < both.len() implies fits(
                all_placed(f, both.take(k)),
                #[trigger] both[k],
            ) by {
                let shorter = first + front;
                if k < shorter.len() {
                    assert(both.take(k) =~= shorter.take(k));
                    assert(both[k] == shorter[k]);
                } else {
                    assert(both.take(k) =~= shorter);
                    assert(second.take(second.len() - 1) =~= front);
                    assert(both[k] == second[second.len() - 1]);
                }
            }
        }
    }
}

/// The chains in which one begins with the rules in `front`, before what else it held.
pub open spec fn settled(f: Firewall, id: ChainId, front: Seq<Seq<Seq<char>>>) -> Firewall {
    Firewall { chains: f.chains.insert(id, front + others(f.chains[id], front)) }
}

/// Whether the arguments put each of the rules in `bodies` before all others of a chain.
pub open spec fn fronts(
    rules: Seq<Seq<Seq<char>>>,
    id: ChainId,
    bodies: Seq<Seq<Seq<char>>>,
) -> bool {
    &&& rules.len() == bodies.len()
    &&& bodies.no_duplicates()
    &&& forall|k: int|
        0 <= k < rules.len() ==> insertion_of(#[trigger] rules[k]) == Some(
            Placement { id, position: 1, rule: bodies[k] },
        )
}

proof fn lemma_shorter_fronts(
    rules: Seq<Seq<Seq<char>>>,
    id: ChainId,
    bodies: Seq<Seq<Seq<char>>>,
)
    requires
        fronts(rules, id, bodies),
        rules.len() > 0,
    ensures
        fronts(rules.drop_last(), id, bodies.drop_last()),
        !bodies.drop_last().contains(bodies.last()),
{
    let front = rules.drop_last();
    let before = bodies.drop_last();
    assert forall|j: int| 0 <= j < front.len() implies insertion_of(#[trigger] front[j]) == Some(
        Placement { id, position: 1, rule: before[j] },
    ) by {
        assert(front[j] == rules[j]);
        assert(before[j] == bodies[j]);
    }
    assert forall|i: int, j: int|
        0 <= i < before.len() && 0 <= j < before.len() && i != j implies before[i]
        != before[j] by {
        assert(before[i] == bodies[i] && before[j] == bodies[j]);
    }
    if before.contains(bodies.last()) {
        let i = choose|i: int| 0 <= i < before.len() && before[i] == bodies.last();
        assert(bodies[i] == bodies[bodies.len() - 1]);
    }
}

proof fn lemma_reversed_contains(bodies: Seq<Seq<Seq<char>>>, rule: Seq<Seq<char>>)
    ensures
        bodies.reverse().contains(rule) <==> bodies.contains(rule),
{
    let back = bodies.reverse();
    if bodies.contains(rule) {
        let i = choose|i: int| 0 <= i < bodies.len() && bodies[i] == rule;
        assert(back[bodies.len() - 1 - i] == rule);
    }
    if back.contains(rule) {
        let i = choose|i: int| 0 <= i < back.len() && back[i] == rule;
        assert(bodies[bodies.len() - 1 - i] == rule);
    }
}

proof fn lemma_others_of_reversed(rules: Seq<Seq<Seq<char>>>, bodies: Seq<Seq<Seq<char>>>)
    ensures
        others(rules, bodies.reverse()) == others(rules, bodies),
    decreases rules.len(),
{
    reveal(Seq::filter);
    if rules.len() > 0 {
        lemma_others_of_reversed(rules.drop_last(), bodies);
        lemma_reversed_contains(bodies, rules.last());
    }
}

/// A chain that begins with rules, after one more rule was put before them.
proof fn lemma_one_more_front(
    old: Seq<Seq<Seq<char>>>,
    bodies: Seq<Seq<Seq<char>>>,
    rule: Seq<Seq<char>>,
)
    requires
        !bodies.contains(rule),
    ensures
        without(bodies.reverse() + others(old, bodies), rule).insert(0, rule) == bodies.push(
            rule,
        ).reverse() + others(old, bodies.push(rule)),
{
    let back = bodies.reverse();
    let rest = others(old, bodies);
    lemma_reversed_contains(bodies, rule);
    Seq::filter_distributes_over_add(back, rest, |r: Seq<Seq<char>>| r != rule);
    lemma_without_stranger(back, rule);
    lemma_others_further(old, bodies, rule);
    assert(without(back + rest, rule) == back + others(old, bodies.push(rule)));
    assert((back + others(old, bodies.push(rule))).insert(0, rule) =~= bodies.push(rule).reverse()
        + others(old, bodies.push(rule)));
}

proof fn lemma_fronts_placed(
    f: Firewall,
    rules: Seq<Seq<Seq<char>>>,
    id: ChainId,
    bodies: Seq<Seq<Seq<char>>>,
)
    requires
        fronts(rules, id, bodies),
        f.chains.contains_key(id),
    ensures
        all_fit(f, rules),
        all_placed(f, rules).chains == f.chains.insert(
            id,
            bodies.reverse() + others(f.chains[id], bodies),
        ),
    decreases rules.len(),
{
    let old = f.chains[id];
    if rules.len() == 0 {
        lemma_others_of_none(old);
        assert(bodies =~= seq![]);
        assert(bodies.reverse() + others(old, bodies) =~= old);
        assert(f.chains.insert(id, old) =~= f.chains);
    } else {
        let front = rules.drop_last();
        let before = bodies.drop_last();
        let k = rules.len() - 1;
        let rule = bodies[k];
        lemma_shorter_fronts(rules, id, bodies);
        lemma_fronts_placed(f, front, id, before);
        let g = all_placed(f, front);
        assert(g.chains[id] == before.reverse() + others(old, before));
        assert(insertion_of(rules[k]) == Some(Placement { id, position: 1, rule }));
        lemma_one_more_front(old, before, rule);
        assert(before.push(rule) =~= bodies);
        assert(placed(g, rules[k]).chains =~= f.chains.insert(
            id,
            bodies.reverse() + others(old, bodies),
        ));
        lemma_all_fit_further(f, rules);
    }
}

/// Rules each of which is put before all others of a chain come to stand at its head, the last
/// one first, before what else the chain held. No other chain changes.
pub proof fn rules_stand_in_front(
    f: Firewall,
    rules: Seq<Seq<Seq<char>>>,
    id: ChainId,
    bodies: Seq<Seq<Seq<char>>>,
)
    requires
        fronts(rules, id, bodies),
        f.chains.contains_key(id),
    ensures
        all_fit(f, rules),
        all_placed(f, rules) == settled(f, id, bodies.reverse()),
{
    lemma_fronts_placed(f, rules, id, bodies);
    lemma_others_of_reversed(f.chains[id], bodies);
}

proof fn lemma_others_again(rules: Seq<Seq<Seq<char>>>, bodies: Seq<Seq<Seq<char>>>)
    ensures
        others(others(rules, bodies), bodies) == others(rules, bodies),
    decreases rules.len(),
{
    reveal(Seq::filter);
    if rules.len() > 0 {
        lemma_others_again(rules.drop_last(), bodies);
        let kept = others(rules.drop_last(), bodies);
        if !bodies.contains(rules.last()) {
            assert(others(rules, bodies) == kept.push(rules.last()));
            assert(kept.push(rules.last()).drop_last() =~= kept);
        }
    }
}

proof fn lemma_others_of_part(part: Seq<Seq<Seq<char>>>, bodies: Seq<Seq<Seq<char>>>)
    requires
        forall|i: int| 0 <= i < part.len() ==> bodies.contains(#[trigger] part[i]),
    ensures
        others(part, bodies) == Seq::<Seq<Seq<char>>>::empty(),
    decreases part.len(),
{
    reveal(Seq::filter);
    if part.len() > 0 {
        let front = part.drop_last();
        assert forall|i: int| 0 <= i < front.len() implies bodies.contains(
            #[trigger] front[i],
        ) by {
            assert(front[i] == part[i]);
        }
        lemma_others_of_part(front, bodies);
        assert(bodies.contains(part[part.len() - 1]));
    }
}

/// A chain that begins with rules, and has them nowhere else, is as it was after they were put
/// before what else it holds again.
proof fn lemma_settles(old: Seq<Seq<Seq<char>>>, front: Seq<Seq<Seq<char>>>)
    ensures
        front + others(front + others(old, front), front) == front + others(old, front),
{
    let rest = others(old, front);
    Seq::filter_distributes_over_add(front, rest, |r: Seq<Seq<char>>| !front.contains(r));
    assert forall|i: int| 0 <= i < front.len() implies front.contains(#[trigger] front[i]) by {}
    lemma_others_of_part(front, front);
    lemma_others_again(old, front);
    assert(Seq::<Seq<Seq<char>>>::empty() + rest =~= rest);
}

/// The rules with which a chain begins.
pub struct Head {
    pub id: ChainId,
    pub front: Seq<Seq<Seq<char>>>,
}

/// The chains in which several begin with rules, each before what else it held.
pub open spec fn all_settled(f: Firewall, all: Seq<Head>) -> Firewall
    decreases all.len(),
{
    if all.len() == 0 {
        f
    } else {
        settled(all_settled(f, all.drop_last()), all.last().id, all.last().front)
    }
}

/// Whether no two speak of the same chain.
pub open spec fn separate(all: Seq<Head>) -> bool {
    forall|i: int, j: int|
        0 <= i < all.len() && 0 <= j < all.len() && i != j ==> (#[trigger] all[i]).id != (
        #[trigger] all[j]).id
}

proof fn lemma_fewer_heads(all: Seq<Head>)
    requires
        all.len() > 0,
        separate(all),
    ensures
        separate(all.drop_last()),
{
    let most = all.drop_last();
    assert forall|i: int, j: int|
        0 <= i < most.len() && 0 <= j < most.len() && i != j implies (#[trigger] most[i]).id != (
    #[trigger] most[j]).id by {
        assert(most[i] == all[i] && most[j] == all[j]);
    }
}

/// A chain that none of the heads is of.
pub open spec fn elsewhere(all: Seq<Head>, id: ChainId) -> bool {
    forall|i: int| 0 <= i < all.len() ==> (#[trigger] all[i]).id != id
}

/// Chains that no head is put on are as they were.
pub proof fn other_chains_stay(f: Firewall, all: Seq<Head>, id: ChainId)
    requires
        elsewhere(all, id),
    ensures
        all_settled(f, all).chains.contains_key(id) == f.chains.contains_key(id),
        all_settled(f, all).chains[id] == f.chains[id],
    decreases all.len(),
{
    if all.len() > 0 {
        let most = all.drop_last();
        assert forall|i: int| 0 <= i < most.len() implies (#[trigger] most[i]).id != id by {
            assert(most[i] == all[i]);
        }
        assert(all[all.len() - 1].id != id);
        other_chains_stay(f, most, id);
    }
}

/// Each chain that a head is put on begins with its rules, in their order, and holds behind them
/// what else it held before.
pub proof fn each_chain_has_its_head(f: Firewall, all: Seq<Head>, k: int)
    requires
        separate(all),
        0 <= k < all.len(),
    ensures
        all_settled(f, all).chains.contains_key(all[k].id),
        all_settled(f, all).chains[all[k].id] == all[k].front + others(
            f.chains[all[k].id],
            all[k].front,
        ),
    decreases all.len(),
{
    let most = all.drop_last();
    let last = all.last();
    assert(last == all[all.len() - 1]);
    lemma_fewer_heads(all);
    if k < most.len() {
        assert(most[k] == all[k]);
        each_chain_has_its_head(f, most, k);
        assert(last.id != all[k].id);
    } else {
        assert forall|i: int| 0 <= i < most.len() implies (#[trigger] most[i]).id != last.id by {
            assert(most[i] == all[i]);
        }
        other_chains_stay(f, most, last.id);
    }
}

/// Heads that are put on a second time leave every chain as it is.
pub proof fn settling_again_changes_nothing(f: Firewall, all: Seq<Head>)
    requires
        separate(all),
    ensures
        all_settled(all_settled(f, all), all) == all_settled(f, all),
{
    let g = all_settled(f, all);
    let h = all_settled(g, all);
    assert forall|id: ChainId|
        #![trigger h.chains[id]]
        #![trigger h.chains.dom().contains(id)]
        h.chains.dom().contains(id) == g.chains.dom().contains(id) && h.chains[id]
            == g.chains[id] by {
        if elsewhere(all, id) {
            other_chains_stay(g, all, id);
        } else {
            let k = choose|k: int| 0 <= k < all.len() && (#[trigger] all[k]).id == id;
            each_chain_has_its_head(f, all, k);
            each_chain_has_its_head(g, all, k);
            lemma_settles(f.chains[id], all[k].front);
        }
    }
    assert(h.chains =~= g.chains);
}

/// No chain goes where heads are put on.
pub proof fn chains_stay(f: Firewall, all: Seq<Head>, id: ChainId)
    requires
        f.chains.contains_key(id),
    ensures
        all_settled(f, all).chains.contains_key(id),
    decreases all.len(),
{
    if all.len() > 0 {
        chains_stay(f, all.drop_last(), id);
    }
}

/// Whether the rules, put in one after the other, come to stand at the heads of their chains.
pub open spec fn settle(f: Firewall, rules: Seq<Seq<Seq<char>>>, all: Seq<Head>) -> bool {
    &&& all_fit(f, rules)
    &&& all_placed(f, rules) == all_settled(f, all)
}

/// Whether the arguments put rules at the head of a chain: one behind the other, or each before
/// the one before it.
#[verifier::opaque]
pub open spec fn leads(rules: Seq<Seq<Seq<char>>>, head: Head) -> bool {
    heads(rules, head.id, head.front) || fronts(rules, head.id, head.front.reverse())
}

/// Rules that are put in after others, and come to stand at the head of one more chain.
pub proof fn lemma_one_more_chain(
    f: Firewall,
    rules: Seq<Seq<Seq<char>>>,
    all: Seq<Head>,
    more: Seq<Seq<Seq<char>>>,
    head: Head,
)
    requires
        settle(f, rules, all),
        f.chains.contains_key(head.id),
        leads(more, head),
    ensures
        settle(f, rules + more, all.push(head)),
{
    reveal(leads);
    let g = all_placed(f, rules);
    chains_stay(f, all, head.id);
    if heads(more, head.id, head.front) {
        rules_stand_at_the_head(g, more, head.id, head.front);
    } else {
        rules_stand_in_front(g, more, head.id, head.front.reverse());
        assert(head.front.reverse().reverse() =~= head.front);
    }
    more_rules_go_on(f, rules, more);
    assert(all.push(head).drop_last() =~= all);
}

/// What more commands reach from where some commands ended.
pub proof fn lemma_reaches_further(
    w: WorkerModel,
    f: Firewall,
    k: nat,
    v: WorkerModel,
    g: Firewall,
    n: nat,
    rest: Seq<TaskModel>,
    h: Firewall,
)
    requires
        replayed(w, f, k) == (Ok::<WorkerModel, Seq<char>>(v), g),
        reaches(v, g, n, rest, h),
    ensures
        reaches(w, f, k + n, rest, h),
{
    lemma_replayed_further(w, f, k, n);
}

// ---------------------------------------------------------------------------
// Packets

/// What the rules look at in a packet.
pub struct Packet {
    pub source: IpAddr,
    pub destination: IpAddr,
    /// Whether it belongs to a connection that was accepted before.
    pub established: bool,
    pub protocol: Seq<char>,
    pub source_port: nat,
    pub destination_port: nat,
    /// The interface that it leaves through.
    pub interface: Seq<char>,
}

/// How many arguments the condition takes with which a rule begins.
pub open spec fn condition_len(rule: Seq<Seq<char>>) -> int {
    if rule[0] == "--match-set"@ {
        3
    } else {
        2
    }
}

/// Whether a packet meets the condition with which a rule begins. To load a module and to
/// remark something are conditions that every packet meets.
pub open spec fn meets(rule: Seq<Seq<char>>, packet: Packet, ipsets: Sets) -> bool {
    ||| rule[0] == "-m"@
    ||| rule[0] == "--comment"@
    ||| rule[0] == "-s"@ && in_subnet(packet.source, rule[1])
    ||| rule[0] == "-d"@ && in_subnet(packet.destination, rule[1])
    ||| rule[0] == "-p"@ && packet.protocol == rule[1]
    ||| rule[0] == "--sport"@ && decimal(packet.source_port) == rule[1]
    ||| rule[0] == "--dport"@ && decimal(packet.destination_port) == rule[1]
    ||| rule[0] == "-o"@ && packet.interface == rule[1]
    ||| rule[0] == "--ctstate"@ && rule[1] == "ESTABLISHED,RELATED"@ && packet.established
    ||| rule[0] == "--match-set"@ && rule.len() >= 3 && rule[2] == "dst"@ && ipsets.has(
        rule[1],
        packet.destination,
    )
}

/// What a rule does with a packet: what follows `-j`, where the packet meets all conditions
/// before it; `None` where it does not.
#[verifier::opaque]
pub open spec fn action(rule: Seq<Seq<char>>, packet: Packet, ipsets: Sets) -> Option<
    Seq<Seq<char>>,
>
    decreases rule.len(),
{
    if rule.len() < 2 {
        None
    } else if rule[0] == "-j"@ {
        Some(rule.skip(1))
    } else if meets(rule, packet, ipsets) && condition_len(rule) <= rule.len() {
        action(rule.skip(condition_len(rule)), packet, ipsets)
    } else {
        None
    }
}

/// What a chain does with a packet: what the first rule does that does something with it.
pub open spec fn fate(rules: Seq<Seq<Seq<char>>>, packet: Packet, ipsets: Sets) -> Option<
    Seq<Seq<char>>,
>
    decreases rules.len(),
{
    if rules.len() == 0 {
        None
    } else {
        match action(rules[0], packet, ipsets) {
            Some(a) => Some(a),
            None => fate(rules.skip(1), packet, ipsets),
        }
    }
}

/// The options of rules are different from each other.
proof fn lemma_options()
    ensures
        "-j"@ != "-m"@,
        "-j"@ != "--comment"@,
        "-j"@ != "-s"@,
        "-j"@ != "-d"@,
        "-j"@ != "--ctstate"@,
        "-j"@ != "--match-set"@,
        "-j"@ != "-p"@,
        "-j"@ != "--dport"@,
        "-j"@ != "--sport"@,
        "-m"@ != "--comment"@,
        "-m"@ != "-s"@,
        "-m"@ != "-d"@,
        "-m"@ != "--ctstate"@,
        "-m"@ != "--match-set"@,
        "-m"@ != "-p"@,
        "-m"@ != "--dport"@,
        "-m"@ != "--sport"@,
        "--comment"@ != "-s"@,
        "--comment"@ != "-d"@,
        "--comment"@ != "--ctstate"@,
        "--comment"@ != "--match-set"@,
        "--comment"@ != "-p"@,
        "--comment"@ != "--dport"@,
        "--comment"@ != "--sport"@,
        "-s"@ != "-d"@,
        "-s"@ != "--ctstate"@,
        "-s"@ != "--match-set"@,
        "-s"@ != "-p"@,
        "-s"@ != "--dport"@,
        "-s"@ != "--sport"@,
        "-d"@ != "--ctstate"@,
        "-d"@ != "--match-set"@,
        "-d"@ != "-p"@,
        "-d"@ != "--dport"@,
        "-d"@ != "--sport"@,
        "--ctstate"@ != "--match-set"@,
        "--ctstate"@ != "-p"@,
        "--ctstate"@ != "--dport"@,
        "--ctstate"@ != "--sport"@,
        "--match-set"@ != "-p"@,
        "--match-set"@ != "--dport"@,
        "--match-set"@ != "--sport"@,
        "-p"@ != "--dport"@,
        "-p"@ != "--sport"@,
        "--dport"@ != "--sport"@,
        "-o"@ != "-j"@,
        "-o"@ != "-m"@,
        "-o"@ != "-s"@,
        "-o"@ != "-d"@,
        "-o"@ != "-p"@,
        "-o"@ != "--comment"@,
        "-o"@ != "--ctstate"@,
        "-o"@ != "--match-set"@,
        "-o"@ != "--dport"@,
        "-o"@ != "--sport"@,
{
    reveal_strlit("-o");
    reveal_strlit("-j");
    reveal_strlit("-m");
    reveal_strlit("--comment");
    reveal_strlit("-s");
    reveal_strlit("-d");
    reveal_strlit("--ctstate");
    reveal_strlit("--match-set");
    reveal_strlit("-p");
    reveal_strlit("--dport");
    reveal_strlit("--sport");
    assert("-o"@[1] != "-j"@[1]);
    assert("-o"@[1] != "-m"@[1]);
    assert("-o"@[1] != "-s"@[1]);
    assert("-o"@[1] != "-d"@[1]);
    assert("-o"@[1] != "-p"@[1]);
    assert("-j"@[1] != "-m"@[1]);
    assert("-j"@[1] != "-s"@[1]);
    assert("-j"@[1] != "-d"@[1]);
    assert("-j"@[1] != "-p"@[1]);
    assert("-m"@[1] != "-s"@[1]);
    assert("-m"@[1] != "-d"@[1]);
    assert("-m"@[1] != "-p"@[1]);
    assert("--comment"@[3] != "--ctstate"@[3]);
    assert("-s"@[1] != "-d"@[1]);
    assert("-s"@[1] != "-p"@[1]);
    assert("-d"@[1] != "-p"@[1]);
    assert("--dport"@[2] != "--sport"@[2]);
}

/// Only packets from the network go on.
pub proof fn lemma_source(a: Seq<char>, rest: Seq<Seq<char>>, packet: Packet, ipsets: Sets)
    ensures
        action(seq!["-s"@, a] + rest, packet, ipsets) == if in_subnet(packet.source, a) {
            action(rest, packet, ipsets)
        } else {
            None
        },
{
    reveal(action);
    lemma_options();
    assert((seq!["-s"@, a] + rest).skip(2) =~= rest);
}

/// Only packets to the network go on.
pub proof fn lemma_destination(a: Seq<char>, rest: Seq<Seq<char>>, packet: Packet, ipsets: Sets)
    ensures
        action(seq!["-d"@, a] + rest, packet, ipsets) == if in_subnet(packet.destination, a) {
            action(rest, packet, ipsets)
        } else {
            None
        },
{
    reveal(action);
    lemma_options();
    assert((seq!["-d"@, a] + rest).skip(2) =~= rest);
}

/// Only packets of the protocol go on.
pub proof fn lemma_protocol(a: Seq<char>, rest: Seq<Seq<char>>, packet: Packet, ipsets: Sets)
    ensures
        action(seq!["-p"@, a] + rest, packet, ipsets) == if packet.protocol == a {
            action(rest, packet, ipsets)
        } else {
            None
        },
{
    reveal(action);
    lemma_options();
    assert((seq!["-p"@, a] + rest).skip(2) =~= rest);
}

/// Only packets from the port go on.
pub proof fn lemma_source_port(a: Seq<char>, rest: Seq<Seq<char>>, packet: Packet, ipsets: Sets)
    ensures
        action(seq!["--sport"@, a] + rest, packet, ipsets) == if decimal(packet.source_port) == a {
            action(rest, packet, ipsets)
        } else {
            None
        },
{
    reveal(action);
    lemma_options();
    assert((seq!["--sport"@, a] + rest).skip(2) =~= rest);
}

/// Only packets to the port go on.
pub proof fn lemma_destination_port(a: Seq<char>, rest: Seq<Seq<char>>, packet: Packet, ipsets: Sets)
    ensures
        action(seq!["--dport"@, a] + rest, packet, ipsets) == if decimal(packet.destination_port) == a {
            action(rest, packet, ipsets)
        } else {
            None
        },
{
    reveal(action);
    lemma_options();
    assert((seq!["--dport"@, a] + rest).skip(2) =~= rest);
}

/// Only packets of connections that were accepted before go on, where these are asked for.
pub proof fn lemma_state(a: Seq<char>, rest: Seq<Seq<char>>, packet: Packet, ipsets: Sets)
    ensures
        action(seq!["--ctstate"@, a] + rest, packet, ipsets) == if a == "ESTABLISHED,RELATED"@
            && packet.established {
            action(rest, packet, ipsets)
        } else {
            None
        },
{
    reveal(action);
    lemma_options();
    assert((seq!["--ctstate"@, a] + rest).skip(2) =~= rest);
}

/// Only packets that leave through the interface go on.
pub proof fn lemma_interface(a: Seq<char>, rest: Seq<Seq<char>>, packet: Packet, ipsets: Sets)
    ensures
        action(seq!["-o"@, a] + rest, packet, ipsets) == if packet.interface == a {
            action(rest, packet, ipsets)
        } else {
            None
        },
{
    reveal(action);
    lemma_options();
    assert((seq!["-o"@, a] + rest).skip(2) =~= rest);
}

/// Only packets to an address in the set go on.
pub proof fn lemma_set(a: Seq<char>, rest: Seq<Seq<char>>, packet: Packet, ipsets: Sets)
    ensures
        action(seq!["--match-set"@, a, "dst"@] + rest, packet, ipsets) == if ipsets.has(
            a,
            packet.destination,
        ) {
            action(rest, packet, ipsets)
        } else {
            None
        },
{
    reveal(action);
    lemma_options();
    assert((seq!["--match-set"@, a, "dst"@] + rest).skip(3) =~= rest);
}

/// All packets go on after a module was loaded.
pub proof fn lemma_module(a: Seq<char>, rest: Seq<Seq<char>>, packet: Packet, ipsets: Sets)
    ensures
        action(seq!["-m"@, a] + rest, packet, ipsets) == action(rest, packet, ipsets),
{
    reveal(action);
    lemma_options();
    assert((seq!["-m"@, a] + rest).skip(2) =~= rest);
}

/// All packets go on after a remark.
pub proof fn lemma_remark(a: Seq<char>, rest: Seq<Seq<char>>, packet: Packet, ipsets: Sets)
    ensures
        action(
            seq!["-m"@, "comment"@, "--comment"@, a] + rest,
            packet,
            ipsets,
        ) == action(rest, packet, ipsets),
{
    let tail = seq!["--comment"@, a] + rest;
    assert(seq!["-m"@, "comment"@, "--comment"@, a] + rest =~= seq!["-m"@, "comment"@] + tail);
    lemma_module("comment"@, tail, packet, ipsets);
    reveal(action);
    lemma_options();
    assert(tail.skip(2) =~= rest);
}

/// What follows the conditions is done.
pub proof fn lemma_jump(a: Seq<char>, rest: Seq<Seq<char>>, packet: Packet, ipsets: Sets)
    ensures
        action(seq!["-j"@, a] + rest, packet, ipsets) == Some(seq![a] + rest),
{
    reveal(action);
    assert((seq!["-j"@, a] + rest).skip(1) =~= seq![a] + rest);
}

/// A position in a chain reads as its number.
pub proof fn lemma_positions()
    ensures
        whole_number("1"@, u32::MAX as nat) == Ok::<nat, ParseIntError>(1),
        whole_number("2"@, u32::MAX as nat) == Ok::<nat, ParseIntError>(2),
        whole_number("3"@, u32::MAX as nat) == Ok::<nat, ParseIntError>(3),
        whole_number("4"@, u32::MAX as nat) == Ok::<nat, ParseIntError>(4),
        whole_number("5"@, u32::MAX as nat) == Ok::<nat, ParseIntError>(5),
        whole_number("6"@, u32::MAX as nat) == Ok::<nat, ParseIntError>(6),
        whole_number("7"@, u32::MAX as nat) == Ok::<nat, ParseIntError>(7),
{
    reveal_strlit("1");
    reveal_strlit("2");
    reveal_strlit("3");
    reveal_strlit("4");
    reveal_strlit("5");
    reveal_strlit("6");
    reveal_strlit("7");
    assert("1"@ =~= decimal(1));
    assert("2"@ =~= decimal(2));
    assert("3"@ =~= decimal(3));
    assert("4"@ =~= decimal(4));
    assert("5"@ =~= decimal(5));
    assert("6"@ =~= decimal(6));
    assert("7"@ =~= decimal(7));
    lemma_decimal_reads_back(1, u32::MAX as nat);
    lemma_decimal_reads_back(2, u32::MAX as nat);
    lemma_decimal_reads_back(3, u32::MAX as nat);
    lemma_decimal_reads_back(4, u32::MAX as nat);
    lemma_decimal_reads_back(5, u32::MAX as nat);
    lemma_decimal_reads_back(6, u32::MAX as nat);
    lemma_decimal_reads_back(7, u32::MAX as nat);
}

/// Arguments that begin with the operation put a rule into a chain of the table for filters.
pub proof fn lemma_filter_rule(args: Seq<Seq<char>>, position: nat)
    requires
        args.len() >= 3,
        args[0] == "-I"@,
        whole_number(args[2], u32::MAX as nat) == Ok::<nat, ParseIntError>(position),
    ensures
        insertion_of(args) == Some(
            Placement {
                id: ChainId { table: "filter"@, chain: args[1] },
                position,
                rule: args.skip(3),
            },
        ),
{
}

/// Arguments that name the table for address translation put a rule into a chain of it, at its
/// head if they name the first position or none.
pub proof fn lemma_nat_rule(args: Seq<Seq<char>>)
    requires
        args.len() >= 5,
        args[0] == "-t"@,
        args[1] == "nat"@,
        args[2] == "-I"@,
        args[4] == "1"@ || args[4] == "-m"@,
    ensures
        insertion_of(args) == Some(
            Placement {
                id: ChainId { table: "nat"@, chain: args[3] },
                position: 1,
                rule: args.skip(
                    if args[4] == "1"@ {
                        5
                    } else {
                        4
                    },
                ),
            },
        ),
{
    reveal_strlit("-t");
    reveal_strlit("nat");
    reveal_strlit("-I");
    reveal_strlit("-A");
    reveal_strlit("-m");
    reveal_strlit("1");
    assert("-t"@[1] == 't' && "-I"@[1] == 'I' && "-A"@[1] == 'A');
    assert("nat"@.len() == 3);
    assert(args.skip(1).skip(1)[0] == args[2]);
    assert(args.skip(1)[0] == args[1]);
    reveal_with_fuel(operation_index, 4);
    assert(operation_index(args) == 2);
    lemma_positions();
    lemma_digits_len("-m"@);
    assert("-m"@[0] == '-');
    assert(digit_value("-m"@[0], 10) is None);
    assert(digits_len("-m"@) == 0);
    assert(whole_number("-m"@, u32::MAX as nat) is Err);
}

} // verus!
