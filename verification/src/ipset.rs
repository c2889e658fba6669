//! What is handed to the program ipset.

use vstd::prelude::*;

use crate::addr::{ipv4_of, ipv4_text_is_one_line, ipv4_text_reads_back, IpAddr, Ipv4Addr};
use crate::tasks::{
    after_command, next_command, spare_name, OutcomeModel, Phase, TaskModel, WorkerModel,
};
use crate::text::{
    after, blank, blanks_go_from_both_ends, chars, ends, lacks, lemma_position, lemma_position_is,
    lines_of, position, push_chars, separates, trim, trimmed,
};

verus! {

/// The line that empties a set.
pub open spec fn flush_line(name: Seq<char>) -> Seq<char> {
    "flush "@ + name
}

/// The line that puts an address into a set.
pub open spec fn add_line(name: Seq<char>, ip: Ipv4Addr) -> Seq<char> {
    "add "@ + name + " "@ + ip.text() + " -exist"@
}

/// The IPv4 addresses among some addresses.
pub open spec fn ipv4s(ips: Seq<IpAddr>) -> Seq<Ipv4Addr>
    decreases ips.len(),
{
    if ips.len() == 0 {
        seq![]
    } else {
        match ips.last() {
            IpAddr::V4(a) => ipv4s(ips.drop_last()).push(a),
            IpAddr::V6(_) => ipv4s(ips.drop_last()),
        }
    }
}

/// The lines that put addresses into a set.
pub open spec fn add_lines(name: Seq<char>, ips: Seq<Ipv4Addr>) -> Seq<char>
    decreases ips.len(),
{
    if ips.len() == 0 {
        seq![]
    } else {
        add_lines(name, ips.drop_last()) + add_line(name, ips.last()).push('\n')
    }
}

/// The text with which a set gets the IPv4 addresses in `ips`, and no others. A set holds no
/// IPv6 addresses.
pub open spec fn restore_text(name: Seq<char>, ips: Seq<IpAddr>) -> Seq<char> {
    flush_line(name).push('\n') + add_lines(name, ipv4s(ips))
}

/// The text with which a set gets the IPv4 addresses in `ips`, and no others.
pub fn restore_payload(name: &str, ips: &Vec<IpAddr>) -> (r: String)
    ensures
        r@ == restore_text(name@, ips@),
{
    let mut out = "flush ".to_owned();
    out.append(name);
    out.push('\n');
    let ghost head = out@;
    let mut i: usize = 0;
    assert(ips@.take(0) =~= seq![]);
    assert(out@ =~= head + add_lines(name@, ipv4s(ips@.take(0))));
    while i < ips.len()
        invariant
            i <= ips.len(),
            out@ == head + add_lines(name@, ipv4s(ips@.take(i as int))),
        decreases ips.len() - i,
    {
        let ghost before = out@;
        let ghost whole = ips@.take(i + 1);
        assert(whole.drop_last() =~= ips@.take(i as int));
        if let IpAddr::V4(a) = ips[i] {
            out.append("add ");
            out.append(name);
            out.append(" ");
            a.push_text(&mut out);
            out.append(" -exist");
            out.push('\n');
            proof {
                let v4s = ipv4s(ips@.take(i as int));
                assert(ipv4s(whole) == v4s.push(a));
                assert(v4s.push(a).drop_last() =~= v4s);
                assert(out@ =~= before + add_line(name@, a).push('\n'));
                assert(out@ =~= head + add_lines(name@, ipv4s(whole)));
            }
        }
        i = i + 1;
    }
    assert(ips@.take(i as int) =~= ips@);
    out
}

/// What is said of ipset when it fails.
pub open spec fn restore_failure(stdout: Seq<char>, stderr: Seq<char>) -> Seq<char> {
    "ipset restore failed: "@ + trimmed(stderr) + "; stdout: "@ + trimmed(stdout)
}

/// What is said of ipset when it fails.
pub fn restore_failure_message(stdout: &str, stderr: &str) -> (r: String)
    ensures
        r@ == restore_failure(stdout@, stderr@),
{
    let stdout = chars(stdout);
    let stderr = chars(stderr);
    let mut out = "ipset restore failed: ".to_owned();
    push_chars(&mut out, trim(stderr.as_slice()));
    out.append("; stdout: ");
    push_chars(&mut out, trim(stdout.as_slice()));
    out
}

// ---------------------------------------------------------------------------
// What ipset reads

/// The address that a line puts into a set; `None` where it puts none.
pub open spec fn added(line: Seq<char>, name: Seq<char>) -> Option<Ipv4Addr> {
    let head = "add "@ + name + " "@;
    let tail = " -exist"@;
    match after(line, head) {
        Some(rest) => if ends(rest, tail) {
            ipv4_of(rest.take(rest.len() - tail.len()))
        } else {
            None
        },
        None => None,
    }
}

/// What a set holds after lines were read: to flush it empties it, to add puts an address in.
pub open spec fn restored(
    lines: Seq<Seq<char>>,
    name: Seq<char>,
    before: Set<Ipv4Addr>,
) -> Set<Ipv4Addr>
    decreases lines.len(),
{
    if lines.len() == 0 {
        before
    } else {
        let held = restored(lines.drop_last(), name, before);
        if lines.last() == flush_line(name) {
            Set::empty()
        } else {
            match added(lines.last(), name) {
                Some(ip) => held.insert(ip),
                None => held,
            }
        }
    }
}

/// Whether a text is a line of its own: no line feed stands in it, and no carriage return at
/// its end.
pub open spec fn is_line(s: Seq<char>) -> bool {
    lacks(s, '\n') && (s.len() > 0 ==> s.last() != '\r')
}

proof fn lemma_last_line(s: Seq<char>, line: Seq<char>)
    requires
        s.len() > 0 ==> s.last() == '\n',
        is_line(line),
    ensures
        lines_of(s + line.push('\n')) == lines_of(s).push(line),
    decreases s.len(),
{
    let all = s + line.push('\n');
    if s.len() == 0 {
        assert(all =~= line.push('\n'));
        lemma_position_is(all, '\n', line.len() as int);
        assert(all.take(line.len() as int) =~= line);
        assert(all.skip(line.len() as int + 1) =~= seq![]);
        assert(lines_of(all.skip(line.len() as int + 1)) =~= seq![]);
        assert(lines_of(all) =~= seq![line]);
        assert(lines_of(s) =~= seq![]);
    } else {
        lemma_position(s, '\n');
        let i = position(s, '\n');
        if i == s.len() {
            assert(s[s.len() - 1] != '\n');
        }
        assert forall|j: int| 0 <= j < i implies all[j] != '\n' by {
            assert(all[j] == s[j]);
        }
        lemma_position_is(all, '\n', i);
        let rest = s.skip(i + 1);
        assert(all.take(i) =~= s.take(i));
        assert(all.skip(i + 1) =~= rest + line.push('\n'));
        if rest.len() > 0 {
            assert(rest.last() == s.last());
        }
        lemma_last_line(rest, line);
        assert(lines_of(all) =~= lines_of(s).push(line));
    }
}

proof fn lemma_add_line(name: Seq<char>, ip: Ipv4Addr)
    requires
        is_line(name),
    ensures
        is_line(add_line(name, ip)),
        add_line(name, ip) != flush_line(name),
        added(add_line(name, ip), name) == Some(ip),
{
    reveal_strlit("add ");
    reveal_strlit(" ");
    reveal_strlit(" -exist");
    reveal_strlit("flush ");
    ipv4_text_reads_back(ip);
    ipv4_text_is_one_line(ip);
    let line = add_line(name, ip);
    let head = "add "@ + name + " "@;
    let rest = ip.text() + " -exist"@;
    assert(line =~= head + rest);
    assert(line.take(head.len() as int) =~= head);
    assert(line.skip(head.len() as int) =~= rest);
    assert(rest.skip(rest.len() - 7) =~= " -exist"@);
    assert(rest.take(rest.len() - 7) =~= ip.text());
    assert(line[0] == 'a' && flush_line(name)[0] == 'f');
    assert(line.last() == 't');
    assert forall|i: int| 0 <= i < line.len() implies line[i] != '\n' by {
        if i < 4 {
            assert(line[i] == "add "@[i]);
        } else if i < 4 + name.len() {
            assert(line[i] == name[i - 4]);
        } else if i >= head.len() && i < head.len() + ip.text().len() {
            assert(line[i] == ip.text()[i - head.len()]);
        }
    }
}

proof fn lemma_restored(name: Seq<char>, ips: Seq<Ipv4Addr>, before: Set<Ipv4Addr>)
    requires
        is_line(name),
    ensures
        restored(
            lines_of(flush_line(name).push('\n') + add_lines(name, ips)),
            name,
            before,
        ) == ips.to_set(),
        (flush_line(name).push('\n') + add_lines(name, ips)).last() == '\n',
    decreases ips.len(),
{
    let flush = flush_line(name);
    let text = flush.push('\n') + add_lines(name, ips);
    reveal_strlit("flush ");
    if ips.len() == 0 {
        assert forall|i: int| 0 <= i < flush.len() implies flush[i] != '\n' by {
            if i >= 6 {
                assert(flush[i] == name[i - 6]);
            }
        }
        lemma_last_line(seq![], flush);
        assert(text =~= seq![] + flush.push('\n'));
        assert(lines_of(seq![]) =~= seq![]);
        let lines = lines_of(text);
        assert(lines =~= seq![flush]);
        assert(restored(lines, name, before) =~= Set::empty());
        assert(ips.to_set() =~= Set::empty());
    } else {
        let front = ips.drop_last();
        let ip = ips.last();
        let shorter = flush.push('\n') + add_lines(name, front);
        lemma_restored(name, front, before);
        lemma_add_line(name, ip);
        lemma_last_line(shorter, add_line(name, ip));
        assert(text =~= shorter + add_line(name, ip).push('\n'));
        let lines = lines_of(text);
        assert(lines.drop_last() =~= lines_of(shorter));
        assert(lines.last() == add_line(name, ip));
        assert(ips.to_set() =~= front.to_set().insert(ip)) by {
            assert forall|x: Ipv4Addr| ips.contains(x) <==> front.contains(x) || x == ip by {
                if ips.contains(x) {
                    let i = choose|i: int| 0 <= i < ips.len() && ips[i] == x;
                    if i < front.len() {
                        assert(front[i] == x);
                    }
                }
                if front.contains(x) {
                    let i = choose|i: int| 0 <= i < front.len() && front[i] == x;
                    assert(ips[i] == x);
                }
                if x == ip {
                    assert(ips[ips.len() - 1] == x);
                }
            }
        }
    }
}

/// Whatever a set held before, ipset reads the text so that the set holds the IPv4 addresses
/// in `ips` and no others.
pub proof fn restoring_gives_a_set_its_ipv4_addresses(
    name: Seq<char>,
    ips: Seq<IpAddr>,
    before: Set<Ipv4Addr>,
)
    requires
        is_line(name),
    ensures
        restored(lines_of(restore_text(name, ips)), name, before) == ipv4s(ips).to_set(),
{
    lemma_restored(name, ipv4s(ips), before);
}

/// The IPv4 addresses among some addresses are those that are IPv4 addresses.
pub proof fn ipv4s_are_the_ipv4_addresses(ips: Seq<IpAddr>, ip: Ipv4Addr)
    ensures
        ipv4s(ips).contains(ip) <==> ips.contains(IpAddr::V4(ip)),
    decreases ips.len(),
{
    if ips.len() > 0 {
        let front = ips.drop_last();
        ipv4s_are_the_ipv4_addresses(front, ip);
        let found = ipv4s(ips);
        let kept = ipv4s(front);
        if ips.contains(IpAddr::V4(ip)) {
            let i = choose|i: int| 0 <= i < ips.len() && ips[i] == IpAddr::V4(ip);
            if i < front.len() {
                assert(front[i] == IpAddr::V4(ip));
                let k = choose|k: int| 0 <= k < kept.len() && kept[k] == ip;
                assert(found[k] == ip);
            } else {
                assert(found[found.len() - 1] == ip);
            }
        }
        if found.contains(ip) {
            let k = choose|k: int| 0 <= k < found.len() && found[k] == ip;
            if k < kept.len() {
                assert(kept[k] == ip);
                let i = choose|i: int| 0 <= i < front.len() && front[i] == IpAddr::V4(ip);
                assert(ips[i] == IpAddr::V4(ip));
            } else {
                assert(ips[ips.len() - 1] == IpAddr::V4(ip));
            }
        }
    }
}

// ---------------------------------------------------------------------------
// Making a set

/// The sets that there are, and what each holds.
pub struct Sets {
    pub held: Map<Seq<char>, Set<Ipv4Addr>>,
}

impl Sets {
    /// Whether an address is in a set. No IPv6 address is.
    pub open spec fn has(self, name: Seq<char>, ip: IpAddr) -> bool {
        match ip {
            IpAddr::V4(a) => self.held.contains_key(name) && self.held[name].contains(a),
            IpAddr::V6(_) => false,
        }
    }
}

/// What ipset does with a command: the sets after it, or `None` where it fails. A set is made
/// under a name that is free; that one has the name already is in order where that was said. A
/// set is removed or renamed where it is there, and two sets that are there change their names.
pub open spec fn ipset(s: Sets, args: Seq<Seq<char>>) -> Option<Sets> {
    let held = s.held;
    if args.len() >= 2 && args[0] == "create"@ && !held.contains_key(args[1]) {
        Some(Sets { held: held.insert(args[1], Set::empty()) })
    } else if args.len() == 6 && args[0] == "create"@ && args[5] == "-exist"@ {
        Some(s)
    } else if args.len() == 2 && args[0] == "destroy"@ && held.contains_key(args[1]) {
        Some(Sets { held: held.remove(args[1]) })
    } else if args.len() == 3 && args[0] == "swap"@ && held.contains_key(args[1])
        && held.contains_key(args[2]) {
        Some(
            Sets { held: held.insert(args[1], held[args[2]]).insert(args[2], held[args[1]]) },
        )
    } else if args.len() == 3 && args[0] == "rename"@ && held.contains_key(args[1])
        && !held.contains_key(args[2]) {
        Some(Sets { held: held.insert(args[2], held[args[1]]).remove(args[1]) })
    } else {
        None
    }
}

/// A worker whose commands are calls of ipset, and the sets, after `n` commands.
pub open spec fn replayed(w: WorkerModel, s: Sets, n: nat) -> (
    Result<WorkerModel, Seq<char>>,
    Sets,
)
    decreases n,
{
    match next_command(w) {
        Some(c) if n > 0 => {
            let done = ipset(s, c.args);
            let outcome = OutcomeModel::Exited {
                success: done is Some,
                stdout: seq![],
                stderr: seq![],
            };
            let t = match done {
                Some(t) => t,
                None => s,
            };
            match after_command(w, outcome) {
                Ok(v) => replayed(v, t, (n - 1) as nat),
                Err(e) => (Err(e), t),
            }
        },
        _ => (Ok(w), s),
    }
}

/// The sets in which an empty one has the name, and none has the name for spare ones.
pub open spec fn with_fresh_set(s: Sets, name: Seq<char>) -> Sets {
    Sets { held: s.held.insert(name, Set::empty()).remove(spare_name(name)) }
}

proof fn lemma_verbs()
    ensures
        "create"@ != "destroy"@,
        "create"@ != "swap"@,
        "create"@ != "rename"@,
        "destroy"@ != "swap"@,
        "destroy"@ != "rename"@,
        "swap"@ != "rename"@,
{
    reveal_strlit("create");
    reveal_strlit("destroy");
    reveal_strlit("swap");
    reveal_strlit("rename");
    assert("create"@[0] == 'c' && "destroy"@[0] == 'd' && "swap"@[0] == 's' && "rename"@[0] == 'r');
}

proof fn lemma_spare_name(name: Seq<char>)
    ensures
        spare_name(name) != name,
{
    reveal_strlit("-tmp");
    assert(spare_name(name).len() == name.len() + 4);
}

/// Where no set has the name, one command makes an empty one.
pub proof fn a_set_is_made(w: WorkerModel, s: Sets, path: Seq<char>, name: Seq<char>)
    requires
        w.tasks.len() > 0,
        w.tasks[0] == (TaskModel::CreateIpset { ipset: path, name }),
        w.phase == Phase::Start,
        !s.held.contains_key(name),
    ensures
        replayed(w, s, 1).0 matches Ok(v) && v.tasks == w.tasks.skip(1),
        replayed(w, s, 1).1 == (Sets { held: s.held.insert(name, Set::empty()) }),
{
    lemma_verbs();
    reveal_with_fuel(replayed, 2);
}

/// The sets after the spare one was made.
spec fn with_spare(s: Sets, name: Seq<char>) -> Sets {
    Sets { held: s.held.insert(spare_name(name), Set::empty()) }
}

proof fn lemma_spare_is_made(w: WorkerModel, s: Sets, path: Seq<char>, name: Seq<char>)
    requires
        w.tasks.len() > 0,
        w.tasks[0] == (TaskModel::CreateIpset { ipset: path, name }),
        w.phase == Phase::DestroyingOld,
    ensures
        replayed(w, s, 4) == replayed(
            WorkerModel { phase: Phase::Swapping, ..w },
            with_spare(s, name),
            2,
        ),
{
    lemma_verbs();
    lemma_spare_name(name);
    let spare = spare_name(name);
    let v = WorkerModel { phase: Phase::CreatingNew, ..w };
    let u = WorkerModel { phase: Phase::Swapping, ..w };
    let clean = Sets { held: s.held.remove(spare) };
    let destroy = seq!["destroy"@, spare];
    let t = match ipset(s, destroy) {
        Some(t) => t,
        None => s,
    };
    assert(t.held =~= clean.held);
    assert(next_command(w)->0.args == destroy);
    assert(replayed(w, s, 4) == replayed(v, t, 3));
    let create = seq!["create"@, spare, "hash:ip"@, "maxelem"@, "1000000000"@];
    assert(next_command(v)->0.args == create);
    assert(ipset(t, create)->0.held =~= with_spare(s, name).held);
    assert(replayed(v, t, 3) == replayed(u, with_spare(s, name), 2));
}

/// Where a set cannot be made under its name, an empty one is made under another name and gets
/// the name, in place of any that had it. Nothing is left of the other name, and no other set
/// changes.
pub proof fn a_fresh_set_takes_the_name(w: WorkerModel, s: Sets, path: Seq<char>, name: Seq<char>)
    requires
        w.tasks.len() > 0,
        w.tasks[0] == (TaskModel::CreateIpset { ipset: path, name }),
        w.phase == Phase::DestroyingOld,
    ensures
        replayed(w, s, 4).0 matches Ok(v) && v.tasks == w.tasks.skip(1),
        replayed(w, s, 4).1 == with_fresh_set(s, name),
{
    lemma_verbs();
    lemma_spare_name(name);
    lemma_spare_is_made(w, s, path, name);
    let spare = spare_name(name);
    let u = WorkerModel { phase: Phase::Swapping, ..w };
    let a = with_spare(s, name);
    let swap = seq!["swap"@, name, spare];
    assert(next_command(u)->0.args == swap);
    if s.held.contains_key(name) {
        let v = WorkerModel { phase: Phase::DestroyingSwapped, ..w };
        let b = ipset(a, swap)->0;
        assert(replayed(u, a, 2) == replayed(v, b, 1));
        let destroy = seq!["destroy"@, spare];
        assert(next_command(v)->0.args == destroy);
        assert(ipset(b, destroy)->0.held =~= with_fresh_set(s, name).held);
    } else {
        let v = WorkerModel { phase: Phase::Renaming, ..w };
        assert(ipset(a, swap) is None);
        assert(replayed(u, a, 2) == replayed(v, a, 1));
        let rename = seq!["rename"@, spare, name];
        assert(next_command(v)->0.args == rename);
        assert(ipset(a, rename)->0.held =~= with_fresh_set(s, name).held);
    }
    reveal_with_fuel(replayed, 2);
}

/// What is said of ipset when it fails tells what it wrote, on both ways, without the white space
/// around it.
pub proof fn failures_of_ipset_are_told(
    a: Seq<char>,
    out: Seq<char>,
    b: Seq<char>,
    c: Seq<char>,
    err: Seq<char>,
    d: Seq<char>,
)
    requires
        blank(a, false) && blank(b, false) && blank(c, false) && blank(d, false),
        out.len() > 0 ==> !separates(out[0], false) && !separates(out.last(), false),
        err.len() > 0 ==> !separates(err[0], false) && !separates(err.last(), false),
    ensures
        restore_failure(a + out + b, c + err + d) == "ipset restore failed: "@ + err
            + "; stdout: "@ + out,
{
    blanks_go_from_both_ends(a, out, b);
    blanks_go_from_both_ends(c, err, d);
}

} // verus!
