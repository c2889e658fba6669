//! The ipsets that the daemon manages: which domains each one allows, and which
//! addresses it holds.

use vstd::prelude::*;

use crate::addr::IpAddr;
use crate::text::{
    begins, chars, ends, ends_with, lower, lower_case_by_number, lowered, same, string_of,
    strip_prefix, texts, to_lower, trailing_characters_go, trim_trailing, without_trailing,
};

verus! {

// ---------------------------------------------------------------------------
// Domains and patterns

/// A domain name without trailing dots, in lower case.
pub open spec fn normalized(name: Seq<char>) -> Seq<char> {
    lowered(without_trailing(name, '.'))
}

/// Whether a domain is one that a pattern names. The pattern `*.suffix` names the suffix
/// and every domain under it; any other pattern names itself alone.
pub open spec fn matches_pattern(domain: Seq<char>, pattern: Seq<char>) -> bool {
    let d = normalized(domain);
    let p = normalized(pattern);
    if begins(p, seq!['*', '.']) {
        d == p.skip(2) || ends(d, seq!['.'] + p.skip(2))
    } else {
        d == p
    }
}

/// A domain name without trailing dots, in lower case.
pub fn normalize_domain(name: &str) -> (r: String)
    ensures
        r@ == normalized(name@),
{
    let name = chars(name);
    let lowered = to_lower(trim_trailing(name.as_slice(), '.'));
    string_of(lowered.as_slice())
}

/// Whether a domain is one that a pattern names.
pub fn domain_matches_pattern(domain: &str, pattern: &str) -> (r: bool)
    ensures
        r == matches_pattern(domain@, pattern@),
{
    let domain = chars(domain);
    let pattern = chars(pattern);
    let domain = to_lower(trim_trailing(domain.as_slice(), '.'));
    let pattern = to_lower(trim_trailing(pattern.as_slice(), '.'));
    let d = domain.as_slice();
    let p = pattern.as_slice();
    proof {
        reveal_strlit("*.");
        assert("*."@ =~= seq!['*', '.']);
    }
    match strip_prefix(p, "*.") {
        Some(suffix) => {
            let dotted: &[char] = &p[1..p.len()];
            assert(p@[1] == p@.take(2)[1]);
            assert(dotted@ =~= seq!['.'] + p@.skip(2));
            same(d, suffix) || ends_with(d, dotted)
        },
        None => same(d, p),
    }
}

// ---------------------------------------------------------------------------
// The managed sets

/// What one managed ipset holds.
#[derive(Clone, Debug)]
pub struct ManagedIpset {
    /// The patterns of the domains that the set allows.
    pub allowed_domain_patterns: Vec<String>,
    /// The addresses in the set, none of them twice.
    pub ips: Vec<IpAddr>,
}

/// A managed ipset under its name.
#[derive(Debug)]
pub struct NamedIpset {
    pub name: String,
    pub set: ManagedIpset,
}

/// What a managed ipset is, under its name.
pub struct IpsetModel {
    pub name: Seq<char>,
    pub patterns: Seq<Seq<char>>,
    pub ips: Seq<IpAddr>,
}

impl View for NamedIpset {
    type V = IpsetModel;

    open spec fn view(&self) -> IpsetModel {
        IpsetModel {
            name: self.name@,
            patterns: texts(self.set.allowed_domain_patterns@),
            ips: self.set.ips@,
        }
    }
}

/// All managed ipsets.
#[derive(Debug)]
pub struct State {
    sets: Vec<NamedIpset>,
}

impl View for State {
    type V = Seq<IpsetModel>;

    closed spec fn view(&self) -> Seq<IpsetModel> {
        models(self.sets@)
    }
}

/// What each of the sets is.
spec fn models(sets: Seq<NamedIpset>) -> Seq<IpsetModel> {
    sets.map_values(|s: NamedIpset| s@)
}

/// Whether no name stands twice, and no address twice in one set.
pub open spec fn well_formed(sets: Seq<IpsetModel>) -> bool {
    &&& forall|i: int, j: int|
        0 <= i < j < sets.len() ==> (#[trigger] sets[i]).name != (#[trigger] sets[j]).name
    &&& forall|i: int| 0 <= i < sets.len() ==> (#[trigger] sets[i]).ips.no_duplicates()
}

/// Where the set with this name stands; the number of sets where there is none.
pub open spec fn set_index(sets: Seq<IpsetModel>, name: Seq<char>) -> int
    decreases sets.len(),
{
    if sets.len() == 0 || sets[0].name == name {
        0
    } else {
        1 + set_index(sets.skip(1), name)
    }
}

/// The set with this name.
pub open spec fn lookup(sets: Seq<IpsetModel>, name: Seq<char>) -> Option<IpsetModel> {
    let i = set_index(sets, name);
    if i < sets.len() {
        Some(sets[i])
    } else {
        None
    }
}

/// The sets after one was created: it has the patterns and no address, and stands in the
/// place of the set that had its name.
pub open spec fn created(
    sets: Seq<IpsetModel>,
    name: Seq<char>,
    patterns: Seq<Seq<char>>,
) -> Seq<IpsetModel> {
    let fresh = IpsetModel { name, patterns, ips: seq![] };
    let i = set_index(sets, name);
    if i < sets.len() {
        sets.update(i, fresh)
    } else {
        sets.push(fresh)
    }
}

/// The sets after the one with this name was removed.
pub open spec fn removed(sets: Seq<IpsetModel>, name: Seq<char>) -> Seq<IpsetModel> {
    let i = set_index(sets, name);
    if i < sets.len() {
        sets.remove(i)
    } else {
        sets
    }
}

/// Whether one of the patterns names the domain.
pub open spec fn allows(patterns: Seq<Seq<char>>, domain: Seq<char>) -> bool {
    exists|i: int| 0 <= i < patterns.len() && matches_pattern(domain, #[trigger] patterns[i])
}

/// Whether one of the patterns names one of the domains.
pub open spec fn allows_some(patterns: Seq<Seq<char>>, domains: Seq<Seq<char>>) -> bool {
    exists|i: int| 0 <= i < domains.len() && allows(patterns, #[trigger] domains[i])
}

/// Whether a network with this name exists and allows the domain.
pub open spec fn accepted(sets: Seq<IpsetModel>, domain: Seq<char>, name: Seq<char>) -> bool {
    match lookup(sets, name) {
        Some(set) => allows(set.patterns, domain),
        None => false,
    }
}

/// `ips`, and after them those of `more` that are not there yet.
pub open spec fn extended(ips: Seq<IpAddr>, more: Seq<IpAddr>) -> Seq<IpAddr>
    decreases more.len(),
{
    if more.len() == 0 {
        ips
    } else {
        let front = extended(ips, more.drop_last());
        if front.contains(more.last()) {
            front
        } else {
            front.push(more.last())
        }
    }
}

/// A set after domains were resolved: where it allows one of them, it has the addresses.
pub open spec fn updated(
    set: IpsetModel,
    domains: Seq<Seq<char>>,
    resolved: Seq<IpAddr>,
) -> IpsetModel {
    if allows_some(set.patterns, domains) {
        IpsetModel { ips: extended(set.ips, resolved), ..set }
    } else {
        set
    }
}

/// All sets after domains were resolved.
pub open spec fn all_updated(
    sets: Seq<IpsetModel>,
    domains: Seq<Seq<char>>,
    resolved: Seq<IpAddr>,
) -> Seq<IpsetModel> {
    sets.map_values(|s: IpsetModel| updated(s, domains, resolved))
}

/// The sets that grew when domains were resolved, each with all addresses that it has then.
pub open spec fn grown(
    sets: Seq<IpsetModel>,
    domains: Seq<Seq<char>>,
    resolved: Seq<IpAddr>,
) -> Seq<(Seq<char>, Seq<IpAddr>)>
    decreases sets.len(),
{
    if sets.len() == 0 {
        seq![]
    } else {
        let front = grown(sets.drop_last(), domains, resolved);
        let set = sets.last();
        let ips = updated(set, domains, resolved).ips;
        if ips.len() != set.ips.len() {
            front.push((set.name, ips))
        } else {
            front
        }
    }
}

/// The names and addresses in a list of changed sets.
pub open spec fn changes(v: Seq<(String, Vec<IpAddr>)>) -> Seq<(Seq<char>, Seq<IpAddr>)> {
    v.map_values(|c: (String, Vec<IpAddr>)| (c.0@, c.1@))
}

/// Whether the set allows the domain.
fn set_allows(patterns: &Vec<String>, domain: &str) -> (r: bool)
    ensures
        r == allows(texts(patterns@), domain@),
{
    let mut i: usize = 0;
    while i < patterns.len()
        invariant
            i <= patterns.len(),
            forall|j: int| 0 <= j < i ==> !matches_pattern(domain@, #[trigger] texts(patterns@)[j]),
        decreases patterns.len() - i,
    {
        assert(texts(patterns@)[i as int] == patterns@[i as int]@);
        if domain_matches_pattern(domain, patterns[i].as_str()) {
            return true;
        }
        i = i + 1;
    }
    false
}

/// Whether the set allows one of the domains.
fn set_allows_some(patterns: &Vec<String>, domains: &Vec<String>) -> (r: bool)
    ensures
        r == allows_some(texts(patterns@), texts(domains@)),
{
    let mut i: usize = 0;
    while i < domains.len()
        invariant
            i <= domains.len(),
            forall|j: int| 0 <= j < i ==> !allows(texts(patterns@), #[trigger] texts(domains@)[j]),
        decreases domains.len() - i,
    {
        assert(texts(domains@)[i as int] == domains@[i as int]@);
        if set_allows(patterns, domains[i].as_str()) {
            return true;
        }
        i = i + 1;
    }
    false
}

/// Whether `ip` is one of `ips`.
fn holds(ips: &Vec<IpAddr>, ip: IpAddr) -> (r: bool)
    ensures
        r == ips@.contains(ip),
{
    let mut i: usize = 0;
    while i < ips.len()
        invariant
            i <= ips.len(),
            forall|j: int| 0 <= j < i ==> ips@[j] != ip,
        decreases ips.len() - i,
    {
        if ips[i] == ip {
            assert(ips@[i as int] == ip);
            return true;
        }
        i = i + 1;
    }
    false
}

/// `ips`, and after them those of `more` that are not there yet.
fn extend(ips: &Vec<IpAddr>, more: &Vec<IpAddr>) -> (r: Vec<IpAddr>)
    ensures
        r@ == extended(ips@, more@),
{
    let mut out: Vec<IpAddr> = copy_ips(ips);
    let mut i: usize = 0;
    assert(more@.take(0) =~= seq![]);
    while i < more.len()
        invariant
            i <= more.len(),
            out@ == extended(ips@, more@.take(i as int)),
        decreases more.len() - i,
    {
        assert(more@.take(i + 1).drop_last() =~= more@.take(i as int));
        if !holds(&out, more[i]) {
            out.push(more[i]);
        }
        i = i + 1;
    }
    assert(more@.take(i as int) =~= more@);
    out
}

/// A copy of `ips`.
pub fn copy_ips(ips: &Vec<IpAddr>) -> (r: Vec<IpAddr>)
    ensures
        r@ == ips@,
{
    let mut out: Vec<IpAddr> = Vec::new();
    let mut i: usize = 0;
    while i < ips.len()
        invariant
            i <= ips.len(),
            out@ == ips@.take(i as int),
        decreases ips.len() - i,
    {
        out.push(ips[i]);
        i = i + 1;
        assert(ips@.take(i as int) =~= ips@.take(i - 1).push(ips@[i - 1]));
    }
    assert(ips@.take(i as int) =~= ips@);
    out
}

impl State {
    /// Every state has its sets in order.
    #[verifier::type_invariant]
    pub open spec fn in_order(self) -> bool {
        well_formed(self@)
    }

    /// No set at all.
    pub fn new() -> (r: State)
        ensures
            r@ == Seq::<IpsetModel>::empty(),
            well_formed(r@),
    {
        let sets: Vec<NamedIpset> = Vec::new();
        assert(models(sets@) =~= Seq::<IpsetModel>::empty());
        State { sets }
    }

    /// Where the set with this name stands.
    fn index_of(&self, name: &str) -> (r: usize)
        ensures
            r == set_index(self@, name@),
            r <= self.sets.len(),
            r < self.sets.len() ==> self@[r as int].name == name@,
    {
        let wanted = chars(name);
        let mut i: usize = 0;
        assert(self@.skip(0) =~= self@);
        while i < self.sets.len()
            invariant
                i <= self.sets.len(),
                wanted@ == name@,
                self@.len() == self.sets.len(),
                set_index(self@, name@) == i + set_index(self@.skip(i as int), name@),
            decreases self.sets.len() - i,
        {
            assert(self@[i as int] == self.sets@[i as int]@);
            let other = chars(self.sets[i].name.as_str());
            if same(other.as_slice(), wanted.as_slice()) {
                return i;
            }
            assert(self@.skip(i as int).skip(1) =~= self@.skip(i + 1));
            i = i + 1;
        }
        i
    }

    /// The set with this name.
    pub fn get(&self, name: &str) -> (r: Option<&ManagedIpset>)
        ensures
            match r {
                Some(set) => lookup(self@, name@) == Some(
                    IpsetModel {
                        name: name@,
                        patterns: texts(set.allowed_domain_patterns@),
                        ips: set.ips@,
                    },
                ),
                None => lookup(self@, name@) is None,
            },
    {
        let i: usize = self.index_of(name);
        if i < self.sets.len() {
            assert(self@[i as int] == self.sets@[i as int]@);
            Some(&self.sets[i].set)
        } else {
            None
        }
    }

    /// Creates a set without addresses, in the place of the set that had its name.
    pub fn create(&mut self, name: String, patterns: Vec<String>)
        ensures
            well_formed(old(self)@),
            final(self)@ == created(old(self)@, name@, texts(patterns@)),
            well_formed(final(self)@),
    {
        proof {
            use_type_invariant(&*self);
        }
        let ghost before = self@;
        let i: usize = self.index_of(name.as_str());
        let set = ManagedIpset { allowed_domain_patterns: patterns, ips: Vec::new() };
        let named = NamedIpset { name, set };
        let ghost fresh = named@;
        assert(fresh.ips =~= seq![]);
        proof {
            lemma_set_index(before, name@);
        }
        let mut sets = self.take_sets();
        if i < sets.len() {
            sets.set(i, named);
            assert(models(sets@) =~= before.update(i as int, fresh));
        } else {
            sets.push(named);
            assert(models(sets@) =~= before.push(fresh));
        }
        assert(well_formed(models(sets@)));
        self.sets = sets;
    }

    /// Takes all sets out.
    fn take_sets(&mut self) -> (r: Vec<NamedIpset>)
        ensures
            r@ == old(self).sets@,
    {
        let mut sets: Vec<NamedIpset> = Vec::new();
        assert(models(sets@) =~= Seq::<IpsetModel>::empty());
        std::mem::swap(&mut sets, &mut self.sets);
        sets
    }

    /// Removes the set with this name.
    pub fn remove(&mut self, name: &str)
        ensures
            well_formed(old(self)@),
            final(self)@ == removed(old(self)@, name@),
            well_formed(final(self)@),
    {
        proof {
            use_type_invariant(&*self);
        }
        let ghost before = self@;
        let i: usize = self.index_of(name);
        if i < self.sets.len() {
            let mut sets = self.take_sets();
            sets.remove(i);
            assert(models(sets@) =~= before.remove(i as int));
            assert(well_formed(models(sets@)));
            self.sets = sets;
        }
    }

    /// Whether a network with this name exists and allows the domain.
    pub fn is_domain_accepted_by_network(&self, domain: &str, name: &str) -> (r: bool)
        ensures
            r == accepted(self@, domain@, name@),
    {
        match self.get(name) {
            Some(set) => set_allows(&set.allowed_domain_patterns, domain),
            None => false,
        }
    }

    /// Puts the resolved addresses into every set that allows one of the domains. Returns
    /// the sets that grew, each with all addresses that it has now.
    pub fn apply_resolved_ips(&mut self, domains: &Vec<String>, resolved_ips: &Vec<IpAddr>) -> (r:
        Vec<(String, Vec<IpAddr>)>)
        ensures
            well_formed(old(self)@),
            final(self)@ == all_updated(old(self)@, texts(domains@), resolved_ips@),
            changes(r@) == grown(old(self)@, texts(domains@), resolved_ips@),
            well_formed(final(self)@),
    {
        proof {
            use_type_invariant(&*self);
        }
        let mut changed: Vec<(String, Vec<IpAddr>)> = Vec::new();
        let ghost before = self@;
        let mut sets = self.take_sets();
        let ghost sets0 = sets@;
        let ghost d = texts(domains@);
        let ghost new = resolved_ips@;
        let mut i: usize = 0;
        assert(before.take(0) =~= seq![]);
        assert(changes(changed@) =~= seq![]);
        while i < sets.len()
            invariant
                i <= sets.len(),
                d == texts(domains@),
                new == resolved_ips@,
                sets.len() == sets0.len(),
                before == models(sets0),
                forall|j: int|
                    0 <= j < i ==> (#[trigger] sets@[j])@ == updated(before[j], d, new),
                forall|j: int| i <= j < sets0.len() ==> sets@[j] == sets0[j],
                changes(changed@) == grown(before.take(i as int), d, new),
            decreases sets.len() - i,
        {
            let ghost whole = before.take(i + 1);
            let ghost changed0 = changed@;
            let ghost sets1 = sets@;
            proof {
                assert(whole.drop_last() =~= before.take(i as int));
                assert(whole.last() == before[i as int]);
                assert(before[i as int] == sets@[i as int]@);
            }
            if set_allows_some(&sets[i].set.allowed_domain_patterns, domains) {
                let before_len: usize = sets[i].set.ips.len();
                let ips = extend(&sets[i].set.ips, resolved_ips);
                let grew: bool = ips.len() != before_len;
                if grew {
                    changed.push((sets[i].name.clone(), copy_ips(&ips)));
                    assert(changes(changed@) =~= changes(changed0).push(
                        (before[i as int].name, ips@),
                    ));
                }
                sets[i].set.ips = ips;
                assert(sets@[i as int]@ == updated(before[i as int], d, new));
            }
            i = i + 1;
        }
        proof {
            assert(before.take(i as int) =~= before);
            let after = models(sets@);
            assert(after =~= all_updated(before, d, new));
            assert forall|j: int| 0 <= j < before.len() implies (
            #[trigger] after[j]).ips.no_duplicates() by {
                assert(before[j].ips.no_duplicates());
                lemma_extended(before[j].ips, new);
            }
            assert(well_formed(after));
        }
        self.sets = sets;
        changed
    }
}

// ---------------------------------------------------------------------------
// Laws

/// [`set_index`] finds the first set with the name.
pub proof fn lemma_set_index(sets: Seq<IpsetModel>, name: Seq<char>)
    ensures
        0 <= set_index(sets, name) <= sets.len(),
        forall|i: int| 0 <= i < set_index(sets, name) ==> (#[trigger] sets[i]).name != name,
        set_index(sets, name) < sets.len() ==> sets[set_index(sets, name)].name == name,
    decreases sets.len(),
{
    if sets.len() > 0 && sets[0].name != name {
        lemma_set_index(sets.skip(1), name);
        assert forall|i: int| 0 <= i < set_index(sets, name) implies (#[trigger] sets[i]).name
            != name by {
            if i > 0 {
                assert(sets[i] == sets.skip(1)[i - 1]);
            }
        }
    }
}

/// Where the only set with the name stands, [`set_index`] finds it.
proof fn lemma_set_index_is(sets: Seq<IpsetModel>, name: Seq<char>, i: int)
    requires
        0 <= i <= sets.len(),
        forall|j: int| 0 <= j < i ==> (#[trigger] sets[j]).name != name,
        i < sets.len() ==> sets[i].name == name,
    ensures
        set_index(sets, name) == i,
{
    lemma_set_index(sets, name);
    let k = set_index(sets, name);
    if k < i {
        assert(sets[k].name != name);
    } else if i < k {
        assert(sets[i].name != name);
    }
}

/// An extended list holds the addresses of both lists and no others; what was there stays in
/// its place; nothing stands in it twice; and it is longer only if something was new.
pub proof fn lemma_extended(ips: Seq<IpAddr>, more: Seq<IpAddr>)
    requires
        ips.no_duplicates(),
    ensures
        extended(ips, more).no_duplicates(),
        ips.len() <= extended(ips, more).len(),
        extended(ips, more).take(ips.len() as int) == ips,
        forall|ip: IpAddr|
            extended(ips, more).contains(ip) <==> ips.contains(ip) || more.contains(ip),
        extended(ips, more).len() == ips.len() <==> (forall|ip: IpAddr|
            more.contains(ip) ==> ips.contains(ip)),
    decreases more.len(),
{
    let all = extended(ips, more);
    if more.len() == 0 {
        assert(all.take(ips.len() as int) =~= ips);
    } else {
        let front = extended(ips, more.drop_last());
        lemma_extended(ips, more.drop_last());
        assert(front.take(ips.len() as int) == ips);
        assert forall|ip: IpAddr| more.contains(ip) <==> more.drop_last().contains(ip) || ip
            == more.last() by {
            if more.contains(ip) {
                let i = choose|i: int| 0 <= i < more.len() && more[i] == ip;
                if i < more.len() - 1 {
                    assert(more.drop_last()[i] == ip);
                }
            }
            if more.drop_last().contains(ip) {
                let i = choose|i: int|
                    0 <= i < more.drop_last().len() && more.drop_last()[i] == ip;
                assert(more[i] == ip);
            }
            assert(more[more.len() - 1] == more.last());
        }
        if !front.contains(more.last()) {
            assert(all == front.push(more.last()));
            assert forall|ip: IpAddr| all.contains(ip) <==> front.contains(ip) || ip
                == more.last() by {
                if all.contains(ip) {
                    let i = choose|i: int| 0 <= i < all.len() && all[i] == ip;
                    if i < front.len() {
                        assert(front[i] == ip);
                    }
                }
                if front.contains(ip) {
                    let i = choose|i: int| 0 <= i < front.len() && front[i] == ip;
                    assert(all[i] == ip);
                }
                assert(all[front.len() as int] == more.last());
            }
            assert(all.take(ips.len() as int) =~= front.take(ips.len() as int));
            assert(more.contains(more.last())) by {
                assert(more[more.len() - 1] == more.last());
            }
            assert(!ips.contains(more.last()));
        }
    }
}

proof fn lemma_without_trailing(s: Seq<char>, c: char)
    ensures
        without_trailing(s, c).len() <= s.len(),
        without_trailing(s, c) == s.take(without_trailing(s, c).len() as int),
        without_trailing(s, c).len() > 0 ==> without_trailing(s, c).last() != c,
    decreases s.len(),
{
    if s.len() > 0 && s.last() == c {
        lemma_without_trailing(s.drop_last(), c);
        let t = without_trailing(s, c);
        assert(s.drop_last().take(t.len() as int) =~= s.take(t.len() as int));
    } else {
        assert(s.take(s.len() as int) =~= s);
    }
}

/// Normalizing a name once more changes nothing.
pub proof fn normalizing_again_changes_nothing(name: Seq<char>)
    ensures
        normalized(normalized(name)) == normalized(name),
{
    let t = without_trailing(name, '.');
    let n = normalized(name);
    lemma_without_trailing(name, '.');
    if n.len() > 0 {
        assert(n.last() == lower(t.last()));
        assert(n.last() != '.');
    }
    assert(without_trailing(n, '.') == n);
    assert(lowered(n) =~= n);
}

/// Case and trailing dots make no difference, neither in the domain nor in the pattern.
pub proof fn matching_ignores_case_and_trailing_dots(domain: Seq<char>, pattern: Seq<char>)
    ensures
        matches_pattern(normalized(domain), pattern) == matches_pattern(domain, pattern),
        matches_pattern(domain, normalized(pattern)) == matches_pattern(domain, pattern),
{
    normalizing_again_changes_nothing(domain);
    normalizing_again_changes_nothing(pattern);
}

proof fn lemma_without_trailing_prefix(p: Seq<char>, s: Seq<char>, c: char)
    requires
        without_trailing(s, c).len() > 0,
    ensures
        without_trailing(p + s, c) == p + without_trailing(s, c),
    decreases s.len(),
{
    if s.len() > 0 && s.last() == c {
        assert((p + s).drop_last() =~= p + s.drop_last());
        lemma_without_trailing_prefix(p, s.drop_last(), c);
    }
}

/// The pattern `*.suffix` names the suffix itself and the domains that end with a dot and
/// the suffix.
pub proof fn wildcard_names_suffix_and_subdomains(domain: Seq<char>, suffix: Seq<char>)
    requires
        normalized(suffix).len() > 0,
    ensures
        matches_pattern(domain, seq!['*', '.'] + suffix) <==> {
            ||| normalized(domain) == normalized(suffix)
            ||| ends(normalized(domain), seq!['.'] + normalized(suffix))
        },
{
    let star = seq!['*', '.'];
    lemma_without_trailing_prefix(star, suffix, '.');
    let p = normalized(star + suffix);
    assert(p =~= star + normalized(suffix));
    assert(p.take(2) =~= star);
    assert(p.skip(2) =~= normalized(suffix));
}

/// A created set is found under its name, with its patterns and no address. Other sets are
/// found as before.
pub proof fn created_set_is_found(
    sets: Seq<IpsetModel>,
    name: Seq<char>,
    patterns: Seq<Seq<char>>,
    other: Seq<char>,
)
    ensures
        lookup(created(sets, name, patterns), name) == Some(
            (IpsetModel { name, patterns, ips: seq![] }),
        ),
        other != name ==> lookup(created(sets, name, patterns), other) == lookup(sets, other),
{
    let after = created(sets, name, patterns);
    let i = set_index(sets, name);
    lemma_set_index(sets, name);
    assert forall|j: int| 0 <= j < i implies (#[trigger] after[j]).name != name by {
        assert(after[j] == sets[j]);
    }
    lemma_set_index_is(after, name, i);
    if other != name {
        lemma_set_index(sets, other);
        let k = set_index(sets, other);
        if k < sets.len() {
            assert forall|j: int| 0 <= j < k implies (#[trigger] after[j]).name != other by {
                if j != i {
                    assert(after[j] == sets[j]);
                }
            }
            lemma_set_index_is(after, other, k);
        } else {
            assert forall|j: int| 0 <= j < after.len() implies (#[trigger] after[j]).name
                != other by {
                if j != i {
                    assert(after[j] == sets[j]);
                }
            }
            lemma_set_index_is(after, other, after.len() as int);
        }
    }
}

/// A removed set is not found any more. Other sets are found as before.
pub proof fn removed_set_is_gone(sets: Seq<IpsetModel>, name: Seq<char>, other: Seq<char>)
    requires
        well_formed(sets),
    ensures
        lookup(removed(sets, name), name) is None,
        other != name ==> lookup(removed(sets, name), other) == lookup(sets, other),
{
    let after = removed(sets, name);
    let i = set_index(sets, name);
    lemma_set_index(sets, name);
    if i < sets.len() {
        assert forall|j: int| 0 <= j < after.len() implies (#[trigger] after[j]).name != name by {
            if j < i {
                assert(after[j] == sets[j]);
            } else {
                assert(after[j] == sets[j + 1]);
                assert(sets[i].name != sets[j + 1].name);
            }
        }
        lemma_set_index_is(after, name, after.len() as int);
        if other != name {
            lemma_set_index(sets, other);
            let k = set_index(sets, other);
            let m = if k > i {
                k - 1
            } else {
                k
            };
            assert forall|j: int| 0 <= j < m implies (#[trigger] after[j]).name != other by {
                if j < i {
                    assert(after[j] == sets[j]);
                } else {
                    assert(after[j] == sets[j + 1]);
                }
            }
            lemma_set_index_is(after, other, m);
        }
    }
}

/// After domains were resolved, an address stands in a set exactly if it stood there before,
/// or if the set allows one of the domains and the address is one that they resolved to.
pub proof fn only_allowed_addresses_enter(
    sets: Seq<IpsetModel>,
    domains: Seq<Seq<char>>,
    resolved: Seq<IpAddr>,
    i: int,
    ip: IpAddr,
)
    requires
        well_formed(sets),
        0 <= i < sets.len(),
    ensures
        all_updated(sets, domains, resolved)[i].name == sets[i].name,
        all_updated(sets, domains, resolved)[i].patterns == sets[i].patterns,
        all_updated(sets, domains, resolved)[i].ips.contains(ip) <==> {
            ||| sets[i].ips.contains(ip)
            ||| allows_some(sets[i].patterns, domains) && resolved.contains(ip)
        },
{
    assert(sets[i].ips.no_duplicates());
    lemma_extended(sets[i].ips, resolved);
}

/// A set is reported as grown exactly if it allows one of the domains and lacked one of the
/// addresses, and then with all addresses that it has afterwards.
pub proof fn every_growth_is_reported(
    sets: Seq<IpsetModel>,
    domains: Seq<Seq<char>>,
    resolved: Seq<IpAddr>,
    i: int,
)
    requires
        well_formed(sets),
        0 <= i < sets.len(),
    ensures
        grown(sets, domains, resolved).contains(
            (sets[i].name, all_updated(sets, domains, resolved)[i].ips),
        ) <==> (allows_some(sets[i].patterns, domains) && exists|ip: IpAddr|
            resolved.contains(ip) && !sets[i].ips.contains(ip)),
        forall|c: (Seq<char>, Seq<IpAddr>)|
            c.0 == sets[i].name && grown(sets, domains, resolved).contains(c) ==> c.1
                == all_updated(sets, domains, resolved)[i].ips,
{
    assert(sets[i].ips.no_duplicates());
    lemma_extended(sets[i].ips, resolved);
    lemma_grown(sets, domains, resolved, i);
}

/// Which entries of [`grown`] have the name of the set at place `i`.
proof fn lemma_grown(
    sets: Seq<IpsetModel>,
    domains: Seq<Seq<char>>,
    resolved: Seq<IpAddr>,
    i: int,
)
    requires
        well_formed(sets),
        0 <= i < sets.len(),
    ensures
        ({
            let g = grown(sets, domains, resolved);
            let ips = updated(sets[i], domains, resolved).ips;
            &&& ips.len() != sets[i].ips.len() <==> g.contains((sets[i].name, ips))
            &&& forall|c: (Seq<char>, Seq<IpAddr>)|
                c.0 == sets[i].name && g.contains(c) ==> c.1 == ips
        }),
    decreases sets.len(),
{
    let g = grown(sets, domains, resolved);
    let front = grown(sets.drop_last(), domains, resolved);
    let last = sets.last();
    let last_ips = updated(last, domains, resolved).ips;
    let ips = updated(sets[i], domains, resolved).ips;
    assert forall|c: (Seq<char>, Seq<IpAddr>)| g.contains(c) <==> front.contains(c) || (
    last_ips.len() != last.ips.len() && c == (last.name, last_ips)) by {
        if g.contains(c) {
            let k = choose|k: int| 0 <= k < g.len() && g[k] == c;
            if k < front.len() {
                assert(front[k] == c);
            }
        }
        if front.contains(c) {
            let k = choose|k: int| 0 <= k < front.len() && front[k] == c;
            assert(g[k] == c);
        }
        if last_ips.len() != last.ips.len() {
            assert(g[front.len() as int] == (last.name, last_ips));
        }
    }
    let short = sets.drop_last();
    if i < sets.len() - 1 {
        assert forall|a: int, b: int| 0 <= a < b < short.len() implies (#[trigger] short[a]).name
            != (#[trigger] short[b]).name by {
            assert(sets[a].name != sets[b].name);
        }
        assert forall|a: int| 0 <= a < short.len() implies (
        #[trigger] short[a]).ips.no_duplicates() by {
            assert(sets[a].ips.no_duplicates());
        }
        lemma_grown(short, domains, resolved, i);
        assert(sets[i].name != sets[sets.len() - 1].name);
    } else {
        lemma_grown_names(short, domains, resolved, last.name, sets);
    }
}

/// No entry of [`grown`] has a name that no set has.
proof fn lemma_grown_names(
    sets: Seq<IpsetModel>,
    domains: Seq<Seq<char>>,
    resolved: Seq<IpAddr>,
    name: Seq<char>,
    whole: Seq<IpsetModel>,
)
    requires
        well_formed(whole),
        sets.len() < whole.len(),
        sets == whole.take(sets.len() as int),
        name == whole.last().name,
    ensures
        forall|c: (Seq<char>, Seq<IpAddr>)|
            grown(sets, domains, resolved).contains(c) ==> c.0 != name,
    decreases sets.len(),
{
    let g = grown(sets, domains, resolved);
    if sets.len() > 0 {
        let short = sets.drop_last();
        assert(short =~= whole.take(short.len() as int));
        lemma_grown_names(short, domains, resolved, name, whole);
        let front = grown(short, domains, resolved);
        assert(whole[sets.len() - 1].name != whole[whole.len() - 1].name);
        assert forall|c: (Seq<char>, Seq<IpAddr>)| g.contains(c) implies c.0 != name by {
            let k = choose|k: int| 0 <= k < g.len() && g[k] == c;
            if k < front.len() {
                assert(front[k] == c);
                assert(front.contains(c));
            }
        }
    }
}

/// Resolving the same domains to the same addresses once more changes nothing, and no set is
/// reported as grown.
pub proof fn resolving_again_changes_nothing(
    sets: Seq<IpsetModel>,
    domains: Seq<Seq<char>>,
    resolved: Seq<IpAddr>,
)
    requires
        well_formed(sets),
    ensures
        all_updated(all_updated(sets, domains, resolved), domains, resolved) == all_updated(
            sets,
            domains,
            resolved,
        ),
        grown(all_updated(sets, domains, resolved), domains, resolved) == Seq::<
            (Seq<char>, Seq<IpAddr>),
        >::empty(),
{
    let after = all_updated(sets, domains, resolved);
    assert forall|i: int| 0 <= i < after.len() implies #[trigger] updated(
        after[i],
        domains,
        resolved,
    ) == after[i] by {
        assert(sets[i].ips.no_duplicates());
        lemma_extended(sets[i].ips, resolved);
        lemma_extended(after[i].ips, resolved);
        let again = extended(after[i].ips, resolved);
        if allows_some(sets[i].patterns, domains) {
            assert(again.len() == after[i].ips.len());
            assert(again =~= again.take(after[i].ips.len() as int));
        }
    }
    assert(all_updated(after, domains, resolved) =~= after);
    lemma_nothing_grown(after, domains, resolved);
}

proof fn lemma_nothing_grown(
    sets: Seq<IpsetModel>,
    domains: Seq<Seq<char>>,
    resolved: Seq<IpAddr>,
)
    requires
        forall|i: int|
            0 <= i < sets.len() ==> #[trigger] updated(sets[i], domains, resolved) == sets[i],
    ensures
        grown(sets, domains, resolved) == Seq::<(Seq<char>, Seq<IpAddr>)>::empty(),
    decreases sets.len(),
{
    if sets.len() > 0 {
        let short = sets.drop_last();
        assert forall|i: int| 0 <= i < short.len() implies #[trigger] updated(
            short[i],
            domains,
            resolved,
        ) == short[i] by {
            assert(updated(sets[i], domains, resolved) == sets[i]);
        }
        lemma_nothing_grown(short, domains, resolved);
        assert(updated(sets[sets.len() - 1], domains, resolved) == sets[sets.len() - 1]);
    }
}

/// Resolving domains changes no name: a set is found as before, with what it got.
pub proof fn updated_set_is_found(
    sets: Seq<IpsetModel>,
    domains: Seq<Seq<char>>,
    resolved: Seq<IpAddr>,
    name: Seq<char>,
)
    ensures
        lookup(all_updated(sets, domains, resolved), name) == match lookup(sets, name) {
            Some(set) => Some(updated(set, domains, resolved)),
            None => None,
        },
{
    let after = all_updated(sets, domains, resolved);
    lemma_set_index(sets, name);
    let i = set_index(sets, name);
    assert forall|j: int| 0 <= j < i implies (#[trigger] after[j]).name != name by {
        assert(after[j].name == sets[j].name);
    }
    lemma_set_index_is(after, name, i);
}

/// A pattern that does not begin with a star and a dot names itself alone: neither the domains
/// under it nor those above it.
pub proof fn other_patterns_name_themselves_alone(domain: Seq<char>, pattern: Seq<char>)
    requires
        !(normalized(pattern).len() >= 2 && normalized(pattern)[0] == '*' && normalized(
            pattern,
        )[1] == '.'),
    ensures
        matches_pattern(domain, pattern) <==> normalized(domain) == normalized(pattern),
{
    let p = normalized(pattern);
    if begins(p, seq!['*', '.']) {
        assert(p.take(2)[0] == '*' && p.take(2)[1] == '.');
    }
}

/// A name is taken without the dots at its end and with its ASCII letters in lower case; nothing
/// else of it changes.
pub proof fn names_lose_trailing_dots_and_case(t: Seq<char>, dots: Seq<char>)
    requires
        forall|i: int| 0 <= i < dots.len() ==> #[trigger] dots[i] == '.',
        t.len() > 0 ==> t.last() != '.',
    ensures
        normalized(t + dots).len() == t.len(),
        forall|i: int|
            0 <= i < t.len() ==> (#[trigger] normalized(t + dots)[i]) as int == if 65 <= t[i] as int
                <= 90 {
                t[i] as int + 32
            } else {
                t[i] as int
            },
{
    trailing_characters_go(t, dots, '.');
    assert forall|i: int| 0 <= i < t.len() implies (#[trigger] normalized(t + dots)[i]) as int
        == if 65 <= t[i] as int <= 90 {
        t[i] as int + 32
    } else {
        t[i] as int
    } by {
        lower_case_by_number(t, i);
    }
}

/// A list of patterns allows what one of them names: what the first ones allow, and what the
/// others do. No pattern allows nothing.
pub proof fn each_pattern_allows_on_its_own(
    a: Seq<Seq<char>>,
    b: Seq<Seq<char>>,
    pattern: Seq<char>,
    domain: Seq<char>,
)
    ensures
        allows(a + b, domain) <==> allows(a, domain) || allows(b, domain),
        allows(seq![pattern], domain) <==> matches_pattern(domain, pattern),
        !allows(seq![], domain),
{
    let all = a + b;
    if allows(all, domain) {
        let i = choose|i: int| 0 <= i < all.len() && matches_pattern(domain, #[trigger] all[i]);
        if i < a.len() {
            assert(matches_pattern(domain, a[i]));
        } else {
            assert(matches_pattern(domain, b[i - a.len()]));
        }
    }
    if allows(a, domain) {
        let i = choose|i: int| 0 <= i < a.len() && matches_pattern(domain, #[trigger] a[i]);
        assert(matches_pattern(domain, all[i]));
    }
    if allows(b, domain) {
        let i = choose|i: int| 0 <= i < b.len() && matches_pattern(domain, #[trigger] b[i]);
        assert(matches_pattern(domain, all[i + a.len()]));
    }
    if matches_pattern(domain, pattern) {
        assert(matches_pattern(domain, seq![pattern][0]));
    }
}

/// Patterns allow some of several domains if they allow one of the first ones or one of the
/// others.
pub proof fn each_domain_is_allowed_on_its_own(
    patterns: Seq<Seq<char>>,
    a: Seq<Seq<char>>,
    b: Seq<Seq<char>>,
    domain: Seq<char>,
)
    ensures
        allows_some(patterns, a + b) <==> allows_some(patterns, a) || allows_some(patterns, b),
        allows_some(patterns, seq![domain]) <==> allows(patterns, domain),
        !allows_some(patterns, seq![]),
{
    let all = a + b;
    if allows_some(patterns, all) {
        let i = choose|i: int| 0 <= i < all.len() && allows(patterns, #[trigger] all[i]);
        if i < a.len() {
            assert(allows(patterns, a[i]));
        } else {
            assert(allows(patterns, b[i - a.len()]));
        }
    }
    if allows_some(patterns, a) {
        let i = choose|i: int| 0 <= i < a.len() && allows(patterns, #[trigger] a[i]);
        assert(allows(patterns, all[i]));
    }
    if allows_some(patterns, b) {
        let i = choose|i: int| 0 <= i < b.len() && allows(patterns, #[trigger] b[i]);
        assert(allows(patterns, all[i + a.len()]));
    }
    if allows(patterns, domain) {
        assert(allows(patterns, seq![domain][0]));
    }
}

/// A network that was created accepts the domains that one of its patterns names; one that was
/// removed accepts none; for any other network nothing changes.
pub proof fn networks_accept_what_their_patterns_name(
    sets: Seq<IpsetModel>,
    name: Seq<char>,
    patterns: Seq<Seq<char>>,
    domain: Seq<char>,
    other: Seq<char>,
)
    requires
        well_formed(sets),
    ensures
        accepted(created(sets, name, patterns), domain, name) <==> exists|i: int|
            0 <= i < patterns.len() && matches_pattern(domain, #[trigger] patterns[i]),
        !accepted(removed(sets, name), domain, name),
        other != name ==> accepted(created(sets, name, patterns), domain, other) == accepted(
            sets,
            domain,
            other,
        ) && accepted(removed(sets, name), domain, other) == accepted(sets, domain, other),
{
    created_set_is_found(sets, name, patterns, other);
    removed_set_is_gone(sets, name, other);
}

/// Only sets are reported as grown, each at most once and with the addresses that it has then.
pub proof fn only_sets_are_reported(
    sets: Seq<IpsetModel>,
    domains: Seq<Seq<char>>,
    resolved: Seq<IpAddr>,
    k: int,
)
    requires
        0 <= k < grown(sets, domains, resolved).len(),
    ensures
        exists|i: int|
            0 <= i < sets.len() && (#[trigger] sets[i]).name == grown(sets, domains, resolved)[k].0
                && updated(sets[i], domains, resolved).ips == grown(sets, domains, resolved)[k].1,
        grown(sets, domains, resolved).len() <= sets.len(),
    decreases sets.len(),
{
    let front = grown(sets.drop_last(), domains, resolved);
    if k < front.len() {
        only_sets_are_reported(sets.drop_last(), domains, resolved, k);
        let i = choose|i: int|
            0 <= i < sets.drop_last().len() && (#[trigger] sets.drop_last()[i]).name == front[k].0
                && updated(sets.drop_last()[i], domains, resolved).ips == front[k].1;
        assert(sets[i] == sets.drop_last()[i]);
    } else {
        assert(sets[sets.len() - 1] == sets.last());
        if front.len() > 0 {
            only_sets_are_reported(sets.drop_last(), domains, resolved, 0);
        }
    }
}

/// Addresses enter a set one after the other, behind those that it has; one that it has already
/// does not enter again.
pub proof fn addresses_enter_one_by_one(
    ips: Seq<IpAddr>,
    a: Seq<IpAddr>,
    b: Seq<IpAddr>,
    ip: IpAddr,
)
    ensures
        extended(ips, a + b) == extended(extended(ips, a), b),
        extended(ips, seq![ip]) == if ips.contains(ip) {
            ips
        } else {
            ips.push(ip)
        },
        extended(ips, seq![]) == ips,
    decreases b.len(),
{
    let none: Seq<IpAddr> = seq![];
    assert(seq![ip].drop_last() =~= none);
    assert(extended(ips, none) == ips);
    if b.len() == 0 {
        assert(a + b =~= a);
    } else {
        addresses_enter_one_by_one(ips, a, b.drop_last(), ip);
        assert((a + b).drop_last() =~= a + b.drop_last());
    }
}

} // verus!
