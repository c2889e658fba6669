//! Which programs are run: those that only root can have put in place.

use vstd::prelude::*;

use crate::text::{ends, strings, texts};

verus! {

/// What is looked at in a file.
#[derive(Clone, Copy, Debug, PartialEq, Eq, Structural)]
pub struct FileFacts {
    /// Whether it is a regular file.
    pub is_file: bool,
    /// Who owns it.
    pub uid: u32,
    /// Who may do what with it.
    pub mode: u32,
}

/// Whether a program is trusted: a regular file that root owns, and that neither its group nor
/// others may write to. What is not there is not trusted.
pub open spec fn trusted(facts: Option<FileFacts>) -> bool {
    match facts {
        Some(f) => f.is_file && f.uid == 0 && f.mode & 0o022 == 0,
        None => false,
    }
}

/// Whether a program is trusted.
pub fn is_trusted_binary(facts: Option<FileFacts>) -> (r: bool)
    ensures
        r == trusted(facts),
{
    match facts {
        Some(f) => f.is_file && f.uid == 0 && f.mode & 0o022 == 0,
        None => false,
    }
}

/// A trusted program cannot be written to by its group or by others, whatever else its mode
/// holds.
pub proof fn trusted_programs_are_not_writable(facts: FileFacts)
    requires
        trusted(Some(facts)),
    ensures
        facts.mode & 0o020 == 0,
        facts.mode & 0o002 == 0,
{
    let mode = facts.mode;
    assert(mode & 0o022 == 0 ==> mode & 0o020 == 0 && mode & 0o002 == 0) by (bit_vector);
}

/// The programs that are run.
#[derive(Clone, Copy, Debug, PartialEq, Eq, Structural)]
pub enum Program {
    Ipset,
    Docker,
    Iptables,
    Ip,
}

impl Program {
    /// Where a program is looked for, in this order.
    pub open spec fn paths(self) -> Seq<Seq<char>> {
        match self {
            Program::Ipset => seq!["/usr/sbin/ipset"@, "/sbin/ipset"@, "/usr/bin/ipset"@],
            Program::Docker => {
                seq!["/usr/bin/docker"@, "/bin/docker"@, "/usr/local/bin/docker"@]
            },
            Program::Iptables => seq!["/usr/sbin/iptables"@, "/sbin/iptables"@],
            Program::Ip => seq!["/usr/sbin/ip"@, "/sbin/ip"@, "/usr/bin/ip"@],
        }
    }

    /// Where a program is looked for, in this order.
    pub fn candidates(&self) -> (r: Vec<String>)
        ensures
            texts(r@) == self.paths(),
    {
        let r = match self {
            Program::Ipset => strings(&["/usr/sbin/ipset", "/sbin/ipset", "/usr/bin/ipset"]),
            Program::Docker => {
                strings(&["/usr/bin/docker", "/bin/docker", "/usr/local/bin/docker"])
            },
            Program::Iptables => strings(&["/usr/sbin/iptables", "/sbin/iptables"]),
            Program::Ip => strings(&["/usr/sbin/ip", "/sbin/ip", "/usr/bin/ip"]),
        };
        assert(texts(r@) =~= self.paths());
        r
    }
}

/// What comes of looking at a candidate.
pub enum SearchModel {
    /// The program is at this path.
    Found(Seq<char>),
    /// The next candidate is at this place among them.
    Next(nat),
    /// There is no trusted one.
    Missing,
}

/// What comes of looking at the candidate at place `at`.
pub open spec fn judged(program: Program, at: nat, facts: Option<FileFacts>) -> SearchModel {
    let paths = program.paths();
    if trusted(facts) {
        SearchModel::Found(paths[at as int])
    } else if at + 1 < paths.len() {
        SearchModel::Next(at + 1)
    } else {
        SearchModel::Missing
    }
}

/// What comes of looking at a candidate.
#[derive(Debug)]
pub enum Search {
    Found(String),
    Next(usize),
    Missing,
}

impl View for Search {
    type V = SearchModel;

    open spec fn view(&self) -> SearchModel {
        match self {
            Search::Found(path) => SearchModel::Found(path@),
            Search::Next(at) => SearchModel::Next(*at as nat),
            Search::Missing => SearchModel::Missing,
        }
    }
}

/// The path of the candidate at place `at`.
pub fn candidate(program: Program, at: usize) -> (r: String)
    requires
        at < program.paths().len(),
    ensures
        r@ == program.paths()[at as int],
{
    let candidates = program.candidates();
    assert(texts(candidates@).len() == candidates@.len());
    assert(texts(candidates@)[at as int] == candidates@[at as int]@);
    candidates[at].clone()
}

/// What comes of looking at the candidate at place `at`: the first trusted one is taken.
pub fn judge(program: Program, at: usize, facts: Option<FileFacts>) -> (r: Search)
    requires
        at < program.paths().len(),
    ensures
        r@ == judged(program, at as nat, facts),
{
    let candidates = program.candidates();
    assert(texts(candidates@).len() == candidates@.len());
    if is_trusted_binary(facts) {
        assert(texts(candidates@)[at as int] == candidates@[at as int]@);
        Search::Found(candidates[at].clone())
    } else if at + 1 < candidates.len() {
        Search::Next(at + 1)
    } else {
        Search::Missing
    }
}

/// A regular file of root that neither its group nor others may write to is trusted, whatever
/// else its mode holds; nothing else is.
pub proof fn files_of_root_alone_are_trusted(facts: FileFacts)
    ensures
        trusted(Some(facts)) <==> facts.is_file && facts.uid == 0 && facts.mode & 0o020 == 0
            && facts.mode & 0o002 == 0,
        !trusted(None),
{
    let mode = facts.mode;
    assert(mode & 0o022 == 0 <==> mode & 0o020 == 0 && mode & 0o002 == 0) by (bit_vector);
}

/// What came of looking at the candidates for a program one after the other, from place `at` on.
/// `facts` are what is found at each place.
pub open spec fn searched(
    program: Program,
    facts: spec_fn(nat) -> Option<FileFacts>,
    at: nat,
) -> Option<Seq<char>>
    decreases program.paths().len() - at,
{
    if at >= program.paths().len() {
        None
    } else {
        match judged(program, at, facts(at)) {
            SearchModel::Found(path) => Some(path),
            SearchModel::Next(next) => if next > at {
                searched(program, facts, next)
            } else {
                None
            },
            SearchModel::Missing => None,
        }
    }
}

/// The first trusted candidate is taken, wherever the others are; where none is trusted, none is.
pub proof fn the_first_trusted_candidate_is_taken(
    program: Program,
    facts: spec_fn(nat) -> Option<FileFacts>,
    at: nat,
    k: nat,
)
    requires
        at <= k < program.paths().len(),
        forall|i: nat| at <= i < k ==> !trusted(#[trigger] facts(i)),
    ensures
        trusted(facts(k)) ==> searched(program, facts, at) == Some(program.paths()[k as int]),
        !trusted(facts(k)) && k + 1 == program.paths().len() ==> searched(
            program,
            facts,
            at,
        ) is None,
    decreases k - at,
{
    if at < k {
        assert(!trusted(facts(at)));
        the_first_trusted_candidate_is_taken(program, facts, at + 1, k);
    }
}

/// Every candidate for a program is named by its whole path, which ends with its name.
pub proof fn candidates_are_whole_paths(program: Program, i: int)
    requires
        0 <= i < program.paths().len(),
    ensures
        ({
            let path = program.paths()[i];
            &&& path.len() > 0
            &&& path[0] == '/'
            &&& program == Program::Ipset ==> ends(path, "/ipset"@)
            &&& program == Program::Docker ==> ends(path, "/docker"@)
            &&& program == Program::Iptables ==> ends(path, "/iptables"@)
            &&& program == Program::Ip ==> ends(path, "/ip"@)
        }),
{
    reveal_strlit("/ipset");
    reveal_strlit("/usr/sbin/ipset");
    reveal_strlit("/sbin/ipset");
    reveal_strlit("/usr/bin/ipset");
    reveal_strlit("/docker");
    reveal_strlit("/usr/bin/docker");
    reveal_strlit("/bin/docker");
    reveal_strlit("/usr/local/bin/docker");
    reveal_strlit("/iptables");
    reveal_strlit("/usr/sbin/iptables");
    reveal_strlit("/sbin/iptables");
    reveal_strlit("/ip");
    reveal_strlit("/usr/sbin/ip");
    reveal_strlit("/sbin/ip");
    reveal_strlit("/usr/bin/ip");
    let path = program.paths()[i];
    match program {
        Program::Ipset => {
            assert(path.skip(path.len() - 6) =~= "/ipset"@);
        },
        Program::Docker => {
            assert(path.skip(path.len() - 7) =~= "/docker"@);
        },
        Program::Iptables => {
            assert(path.skip(path.len() - 9) =~= "/iptables"@);
        },
        Program::Ip => {
            assert(path.skip(path.len() - 3) =~= "/ip"@);
        },
    }
}

} // verus!
