//! The daemon's memory: the managed ipsets, the registered networks and the statistics, and
//! what requests and DNS responses do to them.

use vstd::prelude::*;

use crate::addr::{in_subnet, IpAddr, Ipv4Addr};
use crate::control::{
    info_reply_text, parse_request, reply_to, request_of, ControlError, Request, RequestModel,
};
use crate::ipset::{
    ipv4s, ipv4s_are_the_ipv4_addresses, is_line, restore_text, restored,
    restoring_gives_a_set_its_ipv4_addresses, Sets,
};
use crate::proxy::{addresses, decoded, domains_of, inspect_response, Resolution};
use crate::state::{
    accepted, all_updated, allows_some, changes, created, created_set_is_found, grown,
    lemma_extended, lemma_set_index, lookup, matches_pattern,
    networks_accept_what_their_patterns_name, removed, removed_set_is_gone, set_index, updated,
    updated_set_is_found, IpsetModel, State,
};
use crate::stats::{
    count_in, distinct_rows, home, home_name, lemma_home_index, lemma_room_after_recording,
    lemma_subnet_index, live_counts_after_recording, live_rows, number_for, occurrences,
    occurrences_add_up, recorded, recording_keeps_the_other_rows, registered,
    registered_network_is_found, report, room_for, subnet_index, NetworkRegistry, RegistryModel,
    RowModel, StatEntry, Stats,
};
use crate::text::{
    after, is_space, lacks, lemma_position, lemma_trimmed_start, lines_of, position, texts, trimmed,
    trimmed_end, trimmed_start, without_trailing,
};

verus! {

/// What the daemon knows.
pub struct DaemonModel {
    pub sets: Seq<IpsetModel>,
    pub registry: RegistryModel,
    pub rows: Seq<RowModel>,
}

/// The daemon's memory.
#[derive(Debug)]
pub struct Daemon {
    pub state: State,
    pub registry: NetworkRegistry,
    pub stats: Stats,
}

impl View for Daemon {
    type V = DaemonModel;

    open spec fn view(&self) -> DaemonModel {
        DaemonModel { sets: self.state@, registry: self.registry@, rows: self.stats@ }
    }
}

/// Whether each part is in order.
pub open spec fn well_formed(d: DaemonModel) -> bool {
    &&& crate::state::well_formed(d.sets)
    &&& crate::stats::well_formed(d.registry)
    &&& distinct_rows(d.rows)
}

/// What the daemon knows after a request.
pub open spec fn after_request(d: DaemonModel, request: RequestModel) -> DaemonModel {
    match request {
        RequestModel::Create { name, subnet, patterns } => DaemonModel {
            sets: created(d.sets, name, patterns),
            registry: if subnet.len() > 0 {
                registered(d.registry, name, subnet)
            } else {
                d.registry
            },
            ..d
        },
        RequestModel::Remove { name } => DaemonModel { sets: removed(d.sets, name), ..d },
        _ => d,
    }
}

/// Whether the network that holds `origin` allows the domain; `None` where no network does.
pub open spec fn verdict(d: DaemonModel, domain: Seq<char>, origin: IpAddr) -> Option<bool> {
    match home_name(d.registry, origin) {
        Some(name) => Some(accepted(d.sets, domain, name)),
        None => None,
    }
}

/// What the daemon knows after `origin` had a domain resolved.
pub open spec fn after_resolve(
    d: DaemonModel,
    domain: Seq<char>,
    origin: IpAddr,
    now: u64,
    ttl: u128,
) -> DaemonModel {
    DaemonModel {
        rows: recorded(
            d.rows,
            domain,
            origin,
            home(d.registry, origin),
            verdict(d, domain, origin),
            now,
            ttl,
        ),
        ..d
    }
}

/// What the daemon knows after `origin` had domains resolved, one after the other.
pub open spec fn after_resolves(
    d: DaemonModel,
    domains: Seq<Seq<char>>,
    origin: IpAddr,
    now: u64,
    ttl: u128,
) -> DaemonModel
    decreases domains.len(),
{
    if domains.len() == 0 {
        d
    } else {
        after_resolve(
            after_resolves(d, domains.drop_last(), origin, now, ttl),
            domains.last(),
            origin,
            now,
            ttl,
        )
    }
}

/// What the daemon knows after `origin` got a response: the domains are recorded, and the sets
/// that allow one of them have the addresses.
pub open spec fn after_response(
    d: DaemonModel,
    domains: Seq<Seq<char>>,
    ips: Seq<IpAddr>,
    origin: IpAddr,
    now: u64,
    ttl: u128,
) -> DaemonModel {
    DaemonModel {
        sets: all_updated(d.sets, domains, ips),
        ..after_resolves(d, domains, origin, now, ttl)
    }
}

/// What a response told, and when and for whom it came.
pub struct ResponseModel {
    pub domains: Seq<Seq<char>>,
    pub ips: Seq<IpAddr>,
    pub origin: IpAddr,
    pub now: u64,
    pub ttl: u128,
}

/// What the daemon knows after several responses.
pub open spec fn after_responses(d: DaemonModel, responses: Seq<ResponseModel>) -> DaemonModel
    decreases responses.len(),
{
    if responses.len() == 0 {
        d
    } else {
        let r = responses.last();
        after_response(
            after_responses(d, responses.drop_last()),
            r.domains,
            r.ips,
            r.origin,
            r.now,
            r.ttl,
        )
    }
}

/// What the daemon knows after a network was created and several responses came in.
pub open spec fn after_creation(
    d: DaemonModel,
    name: Seq<char>,
    subnet: Seq<char>,
    patterns: Seq<Seq<char>>,
    responses: Seq<ResponseModel>,
) -> DaemonModel {
    after_responses(
        after_request(d, RequestModel::Create { name, subnet, patterns }),
        responses,
    )
}

/// Whether a response gave an address for a domain that one of the patterns names.
pub open spec fn gives(r: ResponseModel, patterns: Seq<Seq<char>>, ip: IpAddr) -> bool {
    allows_some(patterns, r.domains) && r.ips.contains(ip)
}

/// Whether one of the responses gave an address for a domain that one of the patterns names.
pub open spec fn gave(
    responses: Seq<ResponseModel>,
    patterns: Seq<Seq<char>>,
    ip: IpAddr,
) -> bool {
    exists|i: int| 0 <= i < responses.len() && gives(#[trigger] responses[i], patterns, ip)
}

/// The counts in the statistics have no room for the domains of a response: one of them was
/// resolved for the address more often than can be counted.
#[derive(Clone, Copy, Debug, PartialEq, Eq, Structural)]
pub struct CountersFull;

impl Daemon {
    /// A daemon that knows nothing yet.
    pub fn new() -> (r: Daemon)
        ensures
            r@.sets == Seq::<IpsetModel>::empty(),
            r@.registry.next_id == 1,
            r@.registry.subnets == Seq::<(Seq<char>, u32)>::empty(),
            r@.registry.networks == Seq::<crate::stats::NetworkModel>::empty(),
            r@.rows == Seq::<RowModel>::empty(),
            well_formed(r@),
    {
        Daemon { state: State::new(), registry: NetworkRegistry::new(), stats: Stats::new() }
    }

    /// Takes a line from the control socket: does what it asks for, and returns the reply.
    pub fn handle_control_line(&mut self, line: &str, dns_port: u16, now: u64) -> (r: Result<
        String,
        ControlError,
    >)
        ensures
            well_formed(old(self)@),
            final(self)@ == after_request(old(self)@, request_of(line@)),
            well_formed(final(self)@),
            match r {
                Ok(reply) => reply_to(
                    request_of(line@),
                    dns_port,
                    report(old(self)@.rows, old(self)@.registry.networks, now),
                ) == Ok::<Seq<char>, ControlError>(reply@),
                Err(e) => reply_to(
                    request_of(line@),
                    dns_port,
                    report(old(self)@.rows, old(self)@.registry.networks, now),
                ) == Err::<Seq<char>, ControlError>(e),
            },
    {
        proof {
            use_type_invariant(&self.state);
            use_type_invariant(&self.registry);
            use_type_invariant(&self.stats);
        }
        match parse_request(line) {
            Request::Stats => Ok(self.stats.get_stats_report(&self.registry, now)),
            Request::Info => Ok(info_reply_text(dns_port)),
            Request::Create { name, subnet, patterns } => {
                if !subnet.as_str().is_empty() {
                    self.registry.register_network(name.clone(), subnet);
                }
                self.state.create(name, patterns);
                Ok("OK\tcreated\n".to_owned())
            },
            Request::Remove { name } => {
                self.state.remove(name.as_str());
                Ok("OK\tremoved\n".to_owned())
            },
            Request::MissingName => Ok("ERR\tmissing ipset name\n".to_owned()),
            Request::MissingSubnet => Err(ControlError::MissingSubnet),
            Request::MissingDomains => Err(ControlError::MissingDomains),
            Request::Unknown => Ok("ERR\tunknown command\n".to_owned()),
        }
    }

    /// Records that `origin` had a domain resolved.
    pub fn record_resolve(&mut self, domain: &str, origin: IpAddr, now: u64, ttl: u128)
        requires
            count_in(live_rows(old(self)@.rows, now, ttl), domain@, origin) < u64::MAX,
        ensures
            well_formed(old(self)@),
            final(self)@ == after_resolve(old(self)@, domain@, origin, now, ttl),
            well_formed(final(self)@),
    {
        proof {
            use_type_invariant(&self.state);
            use_type_invariant(&self.registry);
            use_type_invariant(&self.stats);
        }
        let network_id = self.registry.home_of(origin);
        let accepted = match network_id {
            Some(id) => match self.registry.network(id) {
                Some(info) => Some(
                    self.state.is_domain_accepted_by_network(domain, info.name.as_str()),
                ),
                None => None,
            },
            None => None,
        };
        self.stats.record(domain, origin, network_id, accepted, now, ttl);
    }

    /// Takes what a response tells: records its domains, and puts its addresses into the sets
    /// that allow one of them. Returns the sets that grew, each with all its addresses.
    pub fn observe(&mut self, resolution: &Resolution, origin: IpAddr, now: u64, ttl: u128) -> (r:
        Vec<(String, Vec<IpAddr>)>)
        requires
            room_for(old(self)@.rows, texts(resolution.domains@), origin, now, ttl),
        ensures
            well_formed(old(self)@),
            final(self)@ == after_response(
                old(self)@,
                texts(resolution.domains@),
                resolution.ips@,
                origin,
                now,
                ttl,
            ),
            changes(r@) == grown(
                old(self)@.sets,
                texts(resolution.domains@),
                resolution.ips@,
            ),
            well_formed(final(self)@),
    {
        proof {
            use_type_invariant(&self.state);
            use_type_invariant(&self.registry);
            use_type_invariant(&self.stats);
        }
        let ghost before = self@;
        let ghost domains = texts(resolution.domains@);
        let mut i: usize = 0;
        assert(domains.take(0) =~= seq![]);
        assert(domains.skip(0) =~= domains);
        while i < resolution.domains.len()
            invariant
                i <= resolution.domains.len(),
                domains == texts(resolution.domains@),
                self@ == after_resolves(before, domains.take(i as int), origin, now, ttl),
                self@.sets == before.sets,
                well_formed(self@),
                room_for(self@.rows, domains.skip(i as int), origin, now, ttl),
            decreases resolution.domains.len() - i,
        {
            proof {
                assert(domains[i as int] == resolution.domains@[i as int]@);
                assert(domains.take(i + 1).drop_last() =~= domains.take(i as int));
                assert(domains.take(i + 1).last() == domains[i as int]);
                assert(domains.skip(i as int)[0] == domains[i as int]);
                assert(domains.skip(i as int).skip(1) =~= domains.skip(i + 1));
                lemma_room_after_recording(
                    self@.rows,
                    domains.skip(i as int),
                    origin,
                    home(self@.registry, origin),
                    verdict(self@, domains[i as int], origin),
                    now,
                    ttl,
                );
            }
            self.record_resolve(resolution.domains[i].as_str(), origin, now, ttl);
            i = i + 1;
        }
        assert(domains.take(i as int) =~= domains);
        self.state.apply_resolved_ips(&resolution.domains, &resolution.ips)
    }

    /// Takes a response that `origin` got. Bytes that are no DNS message change nothing.
    /// Returns the sets that grew, each with all its addresses. Where the counts of the domains
    /// for `origin` cannot grow any more, nothing changes either.
    pub fn inspect_and_update_state(
        &mut self,
        response: &[u8],
        origin: IpAddr,
        now: u64,
        ttl: u128,
    ) -> (r: Result<Vec<(String, Vec<IpAddr>)>, CountersFull>)
        ensures
            well_formed(old(self)@),
            well_formed(final(self)@),
            match decoded(response@) {
                None => {
                    &&& final(self)@ == old(self)@
                    &&& r matches Ok(changed) && changed@.len() == 0
                },
                Some((queries, answers)) => if room_for(
                    old(self)@.rows,
                    domains_of(queries),
                    origin,
                    now,
                    ttl,
                ) {
                    &&& final(self)@ == after_response(
                        old(self)@,
                        domains_of(queries),
                        addresses(answers),
                        origin,
                        now,
                        ttl,
                    )
                    &&& r matches Ok(changed) && changes(changed@) == grown(
                        old(self)@.sets,
                        domains_of(queries),
                        addresses(answers),
                    )
                } else {
                    &&& final(self)@ == old(self)@
                    &&& r is Err
                },
            },
    {
        proof {
            use_type_invariant(&self.state);
            use_type_invariant(&self.registry);
            use_type_invariant(&self.stats);
        }
        match inspect_response(response) {
            None => Ok(Vec::new()),
            Some(resolution) => {
                if self.stats.has_room_for(&resolution.domains, origin, now, ttl) {
                    Ok(self.observe(&resolution, origin, now, ttl))
                } else {
                    Err(CountersFull)
                }
            },
        }
    }
}

// ---------------------------------------------------------------------------
// Laws

/// What a set without addresses holds after several responses.
proof fn lemma_fresh_set_after_responses(
    d: DaemonModel,
    name: Seq<char>,
    patterns: Seq<Seq<char>>,
    responses: Seq<ResponseModel>,
    ip: IpAddr,
)
    requires
        lookup(d.sets, name) == Some((IpsetModel { name, patterns, ips: seq![] })),
    ensures
        lookup(after_responses(d, responses).sets, name) matches Some(set) && {
            &&& set.patterns == patterns
            &&& set.ips.no_duplicates()
            &&& set.ips.contains(ip) <==> gave(responses, patterns, ip)
        },
    decreases responses.len(),
{
    if responses.len() > 0 {
        let front = responses.drop_last();
        let last = responses.last();
        lemma_fresh_set_after_responses(d, name, patterns, front, ip);
        let before = after_responses(d, front).sets;
        let set = lookup(before, name)->0;
        updated_set_is_found(before, last.domains, last.ips, name);
        lemma_extended(set.ips, last.ips);
        assert(responses[responses.len() - 1] == last);
        assert(gave(responses, patterns, ip) <==> gave(front, patterns, ip) || gives(
            last,
            patterns,
            ip,
        )) by {
            if gave(responses, patterns, ip) {
                let i = choose|i: int|
                    0 <= i < responses.len() && gives(#[trigger] responses[i], patterns, ip);
                if i < front.len() {
                    assert(front[i] == responses[i]);
                }
            }
            if gave(front, patterns, ip) {
                let i = choose|i: int|
                    0 <= i < front.len() && gives(#[trigger] front[i], patterns, ip);
                assert(front[i] == responses[i]);
            }
        }
    }
}

/// A set that was created holds, after any number of responses, exactly the addresses that one
/// of them gave for a domain that it allows.
pub proof fn created_set_gets_what_it_allows(
    d: DaemonModel,
    name: Seq<char>,
    subnet: Seq<char>,
    patterns: Seq<Seq<char>>,
    responses: Seq<ResponseModel>,
    ip: IpAddr,
)
    requires
        well_formed(d),
    ensures
        lookup(after_creation(d, name, subnet, patterns, responses).sets, name) matches Some(
            set,
        ) && {
            &&& set.patterns == patterns
            &&& set.ips.contains(ip) <==> gave(responses, patterns, ip)
        },
{
    let fresh = after_request(d, RequestModel::Create { name, subnet, patterns });
    created_set_is_found(d.sets, name, patterns, name);
    lemma_fresh_set_after_responses(fresh, name, patterns, responses, ip);
}

proof fn lemma_missing_set_after_responses(
    d: DaemonModel,
    name: Seq<char>,
    responses: Seq<ResponseModel>,
)
    requires
        lookup(d.sets, name) is None,
    ensures
        lookup(after_responses(d, responses).sets, name) is None,
    decreases responses.len(),
{
    if responses.len() > 0 {
        let front = responses.drop_last();
        let last = responses.last();
        lemma_missing_set_after_responses(d, name, front);
        updated_set_is_found(after_responses(d, front).sets, last.domains, last.ips, name);
    }
}

/// A set that was removed does not come back with any number of responses, and gets nothing.
pub proof fn removed_set_gets_nothing(
    d: DaemonModel,
    name: Seq<char>,
    responses: Seq<ResponseModel>,
)
    requires
        well_formed(d),
    ensures
        lookup(
            after_responses(after_request(d, RequestModel::Remove { name }), responses).sets,
            name,
        ) is None,
{
    let after = after_request(d, RequestModel::Remove { name });
    removed_set_is_gone(d.sets, name, name);
    lemma_missing_set_after_responses(after, name, responses);
}

/// A network that was created is home to the addresses of its subnet, under its name, where no
/// subnet that was there before holds them.
pub proof fn created_network_is_home_to_its_addresses(
    d: DaemonModel,
    name: Seq<char>,
    subnet: Seq<char>,
    patterns: Seq<Seq<char>>,
    ip: IpAddr,
)
    requires
        well_formed(d),
        in_subnet(ip, subnet),
        subnet.len() > 0,
        forall|i: int|
            0 <= i < d.registry.subnets.len() && (#[trigger] d.registry.subnets[i]).0 != subnet
                ==> !in_subnet(ip, d.registry.subnets[i].0),
    ensures
        home_name(
            after_request(d, RequestModel::Create { name, subnet, patterns }).registry,
            ip,
        ) == Some(name),
{
    let r = d.registry;
    let after = registered(r, name, subnet);
    registered_network_is_found(r, name, subnet, 0);
    lemma_subnet_index(r.subnets, subnet);
    let k = subnet_index(r.subnets, subnet);
    assert(after.subnets[k].0 == subnet);
    assert(after.subnets[k].1 == number_for(r, subnet));
    assert forall|i: int| 0 <= i < k implies !in_subnet(ip, (#[trigger] after.subnets[i]).0) by {
        assert(after.subnets[i] == r.subnets[i]);
    }
    lemma_home_index(after.subnets, ip, k);
}

/// Whether the kernel's sets hold the IPv4 addresses of the daemon's.
pub open spec fn in_step(sets: Seq<IpsetModel>, kernel: Sets) -> bool {
    forall|i: int|
        0 <= i < sets.len() ==> {
            let set = #[trigger] sets[i];
            kernel.held.contains_key(set.name) && kernel.held[set.name] == ipv4s(set.ips).to_set()
        }
}

/// The kernel's sets after those that grew were handed to ipset, one after the other.
pub open spec fn handed_over(kernel: Sets, changed: Seq<(Seq<char>, Seq<IpAddr>)>) -> Sets
    decreases changed.len(),
{
    if changed.len() == 0 {
        kernel
    } else {
        let before = handed_over(kernel, changed.drop_last());
        let (name, ips) = changed.last();
        let held = restored(lines_of(restore_text(name, ips)), name, before.held[name]);
        Sets { held: before.held.insert(name, held) }
    }
}

/// Whether no set has this name.
spec fn is_free(sets: Seq<IpsetModel>, name: Seq<char>) -> bool {
    forall|i: int| 0 <= i < sets.len() ==> (#[trigger] sets[i]).name != name
}

/// Whether there is the same set under a name on both sides, or on neither.
spec fn same_there(a: Sets, b: Sets, name: Seq<char>) -> bool {
    (a.held.contains_key(name) <==> b.held.contains_key(name)) && a.held[name] == b.held[name]
}

/// Whether the name of each set is a line of its own.
pub open spec fn names_are_lines(sets: Seq<IpsetModel>) -> bool {
    forall|i: int| 0 <= i < sets.len() ==> is_line((#[trigger] sets[i]).name)
}

/// What holds of all sets holds of all but the last.
proof fn lemma_shorter(sets: Seq<IpsetModel>, kernel: Sets)
    requires
        sets.len() > 0,
        crate::state::well_formed(sets),
        in_step(sets, kernel),
        names_are_lines(sets),
    ensures
        crate::state::well_formed(sets.drop_last()),
        in_step(sets.drop_last(), kernel),
        names_are_lines(sets.drop_last()),
        is_free(sets.drop_last(), sets.last().name),
{
    let front = sets.drop_last();
    assert forall|i: int, j: int| 0 <= i < j < front.len() implies (#[trigger] front[i]).name != (
    #[trigger] front[j]).name by {
        assert(sets[i].name != sets[j].name);
    }
    assert forall|i: int| 0 <= i < front.len() implies (
    #[trigger] front[i]).ips.no_duplicates() by {
        assert(sets[i].ips.no_duplicates());
    }
    assert forall|i: int| 0 <= i < front.len() implies {
        let set = #[trigger] front[i];
        kernel.held.contains_key(set.name) && kernel.held[set.name] == ipv4s(set.ips).to_set()
    } by {
        assert(sets[i] == front[i]);
    }
    assert forall|i: int| 0 <= i < front.len() implies is_line((#[trigger] front[i]).name) by {
        assert(is_line(sets[i].name));
    }
    assert forall|i: int| 0 <= i < front.len() implies (#[trigger] front[i]).name
        != sets.last().name by {
        assert(sets[i].name != sets[sets.len() - 1].name);
    }
}

/// What is handed over of the last set gives it its addresses.
proof fn lemma_last_handed_over(
    sets: Seq<IpsetModel>,
    kernel: Sets,
    domains: Seq<Seq<char>>,
    resolved: Seq<IpAddr>,
)
    requires
        sets.len() > 0,
        crate::state::well_formed(sets),
        in_step(sets, kernel),
        names_are_lines(sets),
        handed_over(kernel, grown(sets.drop_last(), domains, resolved)).held.contains_key(
            sets.last().name,
        ),
        handed_over(kernel, grown(sets.drop_last(), domains, resolved)).held[sets.last().name]
            == kernel.held[sets.last().name],
    ensures
        ({
            let before = handed_over(kernel, grown(sets.drop_last(), domains, resolved));
            let now = handed_over(kernel, grown(sets, domains, resolved));
            let set = updated(sets.last(), domains, resolved);
            &&& now.held.contains_key(set.name)
            &&& now.held[set.name] == ipv4s(set.ips).to_set()
            &&& forall|name: Seq<char>|
                name != set.name ==> #[trigger] same_there(now, before, name)
        }),
{
    let front = sets.drop_last();
    let set = sets[sets.len() - 1];
    let before = handed_over(kernel, grown(front, domains, resolved));
    let changed = grown(sets, domains, resolved);
    let ips = updated(set, domains, resolved).ips;
    assert(is_line(set.name));
    assert(set.ips.no_duplicates());
    lemma_extended(set.ips, resolved);
    if ips.len() != set.ips.len() {
        assert(changed.drop_last() =~= grown(front, domains, resolved));
        restoring_gives_a_set_its_ipv4_addresses(set.name, ips, before.held[set.name]);
    } else {
        assert(ips.take(set.ips.len() as int) =~= ips);
        assert(ips == set.ips);
        assert(kernel.held[set.name] == ipv4s(set.ips).to_set());
    }
}

proof fn lemma_handed_over(
    sets: Seq<IpsetModel>,
    kernel: Sets,
    domains: Seq<Seq<char>>,
    resolved: Seq<IpAddr>,
)
    requires
        crate::state::well_formed(sets),
        in_step(sets, kernel),
        names_are_lines(sets),
    ensures
        in_step(
            all_updated(sets, domains, resolved),
            handed_over(kernel, grown(sets, domains, resolved)),
        ),
        forall|name: Seq<char>|
            #![trigger is_free(sets, name)]
            is_free(sets, name) ==> same_there(
                handed_over(kernel, grown(sets, domains, resolved)),
                kernel,
                name,
            ),
    decreases sets.len(),
{
    let after = all_updated(sets, domains, resolved);
    if sets.len() > 0 {
        let front = sets.drop_last();
        let set = sets[sets.len() - 1];
        lemma_shorter(sets, kernel);
        lemma_handed_over(front, kernel, domains, resolved);
        let before = handed_over(kernel, grown(front, domains, resolved));
        let now = handed_over(kernel, grown(sets, domains, resolved));
        assert(same_there(before, kernel, set.name));
        assert(kernel.held.contains_key(set.name));
        lemma_last_handed_over(sets, kernel, domains, resolved);
        let updated_front = all_updated(front, domains, resolved);
        assert forall|i: int| 0 <= i < after.len() implies {
            let s = #[trigger] after[i];
            now.held.contains_key(s.name) && now.held[s.name] == ipv4s(s.ips).to_set()
        } by {
            if i < front.len() {
                assert(updated_front[i] == after[i]);
                assert(front[i].name != set.name);
                assert(same_there(now, before, after[i].name));
            }
        }
        assert forall|name: Seq<char>| #[trigger] is_free(sets, name) implies same_there(
            now,
            kernel,
            name,
        ) by {
            assert(sets[sets.len() - 1].name != name);
            assert forall|i: int| 0 <= i < front.len() implies (#[trigger] front[i]).name
                != name by {
                assert(sets[i].name != name);
            }
            assert(is_free(front, name));
            assert(same_there(now, before, name));
        }
    }
}

/// Where the kernel's sets hold the IPv4 addresses of the daemon's, they do so again once the
/// sets that grew with a response were handed to ipset.
pub proof fn kernel_stays_in_step(
    d: DaemonModel,
    kernel: Sets,
    domains: Seq<Seq<char>>,
    ips: Seq<IpAddr>,
    origin: IpAddr,
    now: u64,
    ttl: u128,
)
    requires
        well_formed(d),
        in_step(d.sets, kernel),
        names_are_lines(d.sets),
    ensures
        in_step(
            after_response(d, domains, ips, origin, now, ttl).sets,
            handed_over(kernel, grown(d.sets, domains, ips)),
        ),
{
    lemma_handed_over(d.sets, kernel, domains, ips);
}

/// The kernel's sets after, with each of several responses, those that grew were handed to
/// ipset.
pub open spec fn kernel_after(
    kernel: Sets,
    d: DaemonModel,
    responses: Seq<ResponseModel>,
) -> Sets
    decreases responses.len(),
{
    if responses.len() == 0 {
        kernel
    } else {
        let front = responses.drop_last();
        let r = responses.last();
        handed_over(
            kernel_after(kernel, d, front),
            grown(after_responses(d, front).sets, r.domains, r.ips),
        )
    }
}

proof fn lemma_updated_well_formed(
    sets: Seq<IpsetModel>,
    domains: Seq<Seq<char>>,
    resolved: Seq<IpAddr>,
)
    requires
        crate::state::well_formed(sets),
        names_are_lines(sets),
    ensures
        crate::state::well_formed(all_updated(sets, domains, resolved)),
        names_are_lines(all_updated(sets, domains, resolved)),
{
    let after = all_updated(sets, domains, resolved);
    assert forall|i: int, j: int| 0 <= i < j < after.len() implies (#[trigger] after[i]).name != (
    #[trigger] after[j]).name by {
        assert(sets[i].name != sets[j].name);
    }
    assert forall|i: int| 0 <= i < after.len() implies (
    #[trigger] after[i]).ips.no_duplicates() by {
        assert(sets[i].ips.no_duplicates());
        lemma_extended(sets[i].ips, resolved);
    }
    assert forall|i: int| 0 <= i < after.len() implies is_line((#[trigger] after[i]).name) by {
        assert(is_line(sets[i].name));
    }
}

proof fn lemma_kernel_in_step(d: DaemonModel, kernel: Sets, responses: Seq<ResponseModel>)
    requires
        crate::state::well_formed(d.sets),
        in_step(d.sets, kernel),
        names_are_lines(d.sets),
    ensures
        crate::state::well_formed(after_responses(d, responses).sets),
        names_are_lines(after_responses(d, responses).sets),
        in_step(after_responses(d, responses).sets, kernel_after(kernel, d, responses)),
    decreases responses.len(),
{
    if responses.len() > 0 {
        let front = responses.drop_last();
        let r = responses.last();
        lemma_kernel_in_step(d, kernel, front);
        let before = after_responses(d, front).sets;
        lemma_updated_well_formed(before, r.domains, r.ips);
        lemma_handed_over(before, kernel_after(kernel, d, front), r.domains, r.ips);
    }
}

/// Where the kernel's sets hold the IPv4 addresses of the daemon's, they do so after any number
/// of responses, with each of which the sets that grew were handed to ipset.
pub proof fn kernel_stays_in_step_throughout(
    d: DaemonModel,
    kernel: Sets,
    responses: Seq<ResponseModel>,
)
    requires
        well_formed(d),
        in_step(d.sets, kernel),
        names_are_lines(d.sets),
    ensures
        in_step(after_responses(d, responses).sets, kernel_after(kernel, d, responses)),
{
    lemma_kernel_in_step(d, kernel, responses);
}

/// What is left of a text at the ends of which something was taken away has nothing in it that
/// the text had not.
proof fn lemma_part_lacks(s: Seq<char>, i: int, j: int, c: char)
    requires
        lacks(s, c),
        0 <= i <= j <= s.len(),
    ensures
        lacks(s.subrange(i, j), c),
{
    assert forall|k: int| 0 <= k < j - i implies s.subrange(i, j)[k] != c by {
        assert(s[i + k] != c);
    }
}

proof fn lemma_trimmed_end_is_line(s: Seq<char>)
    requires
        lacks(s, '\n'),
    ensures
        is_line(trimmed_end(s)),
    decreases s.len(),
{
    if s.len() > 0 && is_space(s.last()) {
        lemma_part_lacks(s, 0, s.len() - 1, '\n');
        assert(s.drop_last() =~= s.subrange(0, s.len() - 1));
        lemma_trimmed_end_is_line(s.drop_last());
    }
}

/// A text in which no line feed stands is a line once the white space around it is gone.
proof fn lemma_trimmed_is_line(s: Seq<char>)
    requires
        lacks(s, '\n'),
    ensures
        is_line(trimmed(s)),
{
    let t = trimmed_start(s, false);
    lemma_trimmed_start(s, false);
    lemma_part_lacks(s, s.len() - t.len(), s.len() as int, '\n');
    assert(t =~= s.subrange(s.len() - t.len(), s.len() as int));
    lemma_trimmed_end_is_line(t);
}

/// Whether line feeds stand at the end of a text alone.
pub open spec fn is_one_line(line: Seq<char>) -> bool {
    lacks(without_trailing(line, '\n'), '\n')
}

/// A text whose last character alone may be a line feed is one line.
pub proof fn a_line_read_up_to_its_end_is_one_line(line: Seq<char>)
    requires
        line.len() > 0,
        lacks(line.drop_last(), '\n'),
    ensures
        is_one_line(line),
{
    let front = line.drop_last();
    if line.last() == '\n' {
        assert(front.len() > 0 ==> front.last() == front[front.len() - 1]);
        assert(without_trailing(front, '\n') == front);
    } else {
        assert forall|i: int| 0 <= i < line.len() implies line[i] != '\n' by {
            if i < front.len() {
                assert(front[i] == line[i]);
            }
        }
    }
}

proof fn lemma_created_name_is_line(line: Seq<char>)
    requires
        is_one_line(line),
    ensures
        request_of(line) matches RequestModel::Create { name, subnet, patterns } ==> is_line(name),
{
    let command = without_trailing(line, '\n');
    if let Some(rest) = after(command, "CREATE\t"@) {
        let n = "CREATE\t"@.len() as int;
        lemma_part_lacks(command, n, command.len() as int, '\n');
        assert(rest =~= command.subrange(n, command.len() as int));
        let i = position(rest, '\t');
        lemma_position(rest, '\t');
        if i < rest.len() {
            lemma_part_lacks(rest, 0, i, '\n');
            assert(rest.take(i) =~= rest.subrange(0, i));
            lemma_trimmed_is_line(rest.take(i));
        }
    }
}

/// Where the names of all sets are lines of their own, they are so after any request that is
/// one line.
pub proof fn requests_keep_names_lines(d: DaemonModel, line: Seq<char>)
    requires
        names_are_lines(d.sets),
        is_one_line(line),
    ensures
        names_are_lines(after_request(d, request_of(line)).sets),
{
    lemma_created_name_is_line(line);
    let sets = after_request(d, request_of(line)).sets;
    match request_of(line) {
        RequestModel::Create { name, subnet, patterns } => {
            lemma_set_index(d.sets, name);
            assert forall|i: int| 0 <= i < sets.len() implies is_line((#[trigger] sets[i]).name) by {
                if i < d.sets.len() {
                    assert(is_line(d.sets[i].name));
                }
            }
        },
        RequestModel::Remove { name } => {
            let k = set_index(d.sets, name);
            lemma_set_index(d.sets, name);
            assert forall|i: int| 0 <= i < sets.len() implies is_line((#[trigger] sets[i]).name) by {
                assert(is_line(d.sets[i].name));
                if k < d.sets.len() && i >= k {
                    assert(is_line(d.sets[i + 1].name));
                }
            }
        },
        _ => {},
    }
}

/// Where the names of all sets are lines of their own, they are so after any response.
pub proof fn responses_keep_names_lines(
    d: DaemonModel,
    domains: Seq<Seq<char>>,
    ips: Seq<IpAddr>,
    origin: IpAddr,
    now: u64,
    ttl: u128,
)
    requires
        names_are_lines(d.sets),
    ensures
        names_are_lines(after_response(d, domains, ips, origin, now, ttl).sets),
{
    let sets = after_response(d, domains, ips, origin, now, ttl).sets;
    assert forall|i: int| 0 <= i < sets.len() implies is_line((#[trigger] sets[i]).name) by {
        assert(is_line(d.sets[i].name));
    }
}

/// What the kernel holds of a set of the daemon.
pub proof fn kernel_holds_what_the_daemon_does(
    sets: Seq<IpsetModel>,
    kernel: Sets,
    name: Seq<char>,
    ip: Ipv4Addr,
)
    requires
        in_step(sets, kernel),
    ensures
        lookup(sets, name) matches Some(set) ==> (kernel.has(name, IpAddr::V4(ip))
            <==> set.ips.contains(IpAddr::V4(ip))),
{
    lemma_set_index(sets, name);
    if let Some(set) = lookup(sets, name) {
        ipv4s_are_the_ipv4_addresses(set.ips, ip);
        assert(sets[set_index(sets, name)] == set);
        assert(ipv4s(set.ips).to_set().contains(ip) <==> ipv4s(set.ips).contains(ip));
    }
}

/// What a request changes: the set that it names, and the registry if a subnet came with it. No
/// other set changes, and no request changes what was counted.
pub proof fn requests_change_what_they_name(
    d: DaemonModel,
    request: RequestModel,
    other: Seq<char>,
)
    requires
        well_formed(d),
    ensures
        ({
            let after = after_request(d, request);
            &&& after.rows == d.rows
            &&& match request {
                RequestModel::Create { name, subnet, patterns } => {
                    &&& lookup(after.sets, name) == Some(
                        (IpsetModel { name, patterns, ips: seq![] }),
                    )
                    &&& other != name ==> lookup(after.sets, other) == lookup(d.sets, other)
                    &&& subnet.len() == 0 ==> after.registry == d.registry
                    &&& subnet.len() > 0 ==> after.registry == registered(d.registry, name, subnet)
                },
                RequestModel::Remove { name } => {
                    &&& lookup(after.sets, name) is None
                    &&& other != name ==> lookup(after.sets, other) == lookup(d.sets, other)
                    &&& after.registry == d.registry
                },
                _ => after == d,
            }
        }),
{
    match request {
        RequestModel::Create { name, subnet, patterns } => {
            created_set_is_found(d.sets, name, patterns, other);
        },
        RequestModel::Remove { name } => {
            removed_set_is_gone(d.sets, name, other);
        },
        _ => {},
    }
}

proof fn lemma_room_for_fewer(
    rows: Seq<RowModel>,
    domains: Seq<Seq<char>>,
    origin: IpAddr,
    now: u64,
    ttl: u128,
)
    requires
        domains.len() > 0,
        room_for(rows, domains, origin, now, ttl),
    ensures
        room_for(rows, domains.drop_last(), origin, now, ttl),
        count_in(live_rows(rows, now, ttl), domains.last(), origin) + occurrences(
            domains.drop_last(),
            domains.last(),
        ) < u64::MAX,
{
    let front = domains.drop_last();
    let last = domains[domains.len() - 1];
    assert(domains =~= front + seq![last]);
    assert forall|k: int| 0 <= k < front.len() implies count_in(
        live_rows(rows, now, ttl),
        #[trigger] front[k],
        origin,
    ) + occurrences(front, front[k]) <= u64::MAX by {
        assert(domains[k] == front[k]);
        occurrences_add_up(front, seq![last], last, front[k]);
    }
    occurrences_add_up(front, seq![last], last, last);
}

/// A response counts each of its domains as often as it names it, for the address that got it,
/// and counts nothing for any other domain or address.
pub proof fn responses_count_their_domains(
    d: DaemonModel,
    domains: Seq<Seq<char>>,
    origin: IpAddr,
    now: u64,
    ttl: u128,
    domain: Seq<char>,
    other: IpAddr,
)
    requires
        well_formed(d),
        ttl > 0,
        room_for(d.rows, domains, origin, now, ttl),
    ensures
        ({
            let after = after_resolves(d, domains, origin, now, ttl);
            &&& distinct_rows(after.rows)
            &&& after.sets == d.sets
            &&& after.registry == d.registry
            &&& count_in(live_rows(after.rows, now, ttl), domain, origin) == count_in(
                live_rows(d.rows, now, ttl),
                domain,
                origin,
            ) + occurrences(domains, domain)
            &&& other != origin ==> count_in(live_rows(after.rows, now, ttl), domain, other)
                == count_in(live_rows(d.rows, now, ttl), domain, other)
        }),
    decreases domains.len(),
{
    if domains.len() > 0 {
        let front = domains.drop_last();
        let last = domains[domains.len() - 1];
        lemma_room_for_fewer(d.rows, domains, origin, now, ttl);
        responses_count_their_domains(d, front, origin, now, ttl, domain, other);
        responses_count_their_domains(d, front, origin, now, ttl, last, other);
        let before = after_resolves(d, front, origin, now, ttl);
        let (id, verdict) = (home(before.registry, origin), verdict(before, last, origin));
        live_counts_after_recording(
            before.rows,
            last,
            origin,
            id,
            verdict,
            now,
            ttl,
            domain,
            origin,
        );
        live_counts_after_recording(
            before.rows,
            last,
            origin,
            id,
            verdict,
            now,
            ttl,
            domain,
            other,
        );
        let stranger = RowModel {
            domain: last.push('.'),
            origin,
            entry: StatEntry { count: 0, last_seen: 0, network_id: None, accepted: None },
        };
        assert(last.push('.').len() != last.len());
        recording_keeps_the_other_rows(
            before.rows,
            last,
            origin,
            id,
            verdict,
            now,
            ttl,
            stranger,
        );
        assert(domains =~= front + seq![last]);
        occurrences_add_up(front, seq![last], last, domain);
    }
}

/// A domain that an address asked for is recorded with the network that the address is at home
/// in, and with whether that network allows the domain; both are left open for an address at home
/// in none.
pub proof fn resolves_are_recorded_with_their_verdict(
    d: DaemonModel,
    domain: Seq<char>,
    origin: IpAddr,
    now: u64,
    ttl: u128,
) -> (i: int)
    requires
        well_formed(d),
    ensures
        0 <= i < after_resolve(d, domain, origin, now, ttl).rows.len(),
        ({
            let row = after_resolve(d, domain, origin, now, ttl).rows[i];
            &&& row.domain == domain
            &&& row.origin == origin
            &&& row.entry.last_seen == now
            &&& row.entry.network_id == home(d.registry, origin)
            &&& home_name(d.registry, origin) is None ==> row.entry.accepted is None
            &&& home_name(d.registry, origin) matches Some(name) ==> row.entry.accepted == Some(
                accepted(d.sets, domain, name),
            )
        }),
{
    let stranger = RowModel {
        domain: domain.push('.'),
        origin,
        entry: StatEntry { count: 0, last_seen: 0, network_id: None, accepted: None },
    };
    assert(domain.push('.').len() != domain.len());
    let (id, allowed) = (home(d.registry, origin), verdict(d, domain, origin));
    recording_keeps_the_other_rows(d.rows, domain, origin, id, allowed, now, ttl, stranger);
    let rows = recorded(d.rows, domain, origin, id, allowed, now, ttl);
    choose|i: int|
        0 <= i < rows.len() && (#[trigger] rows[i]).domain == domain && rows[i].origin == origin
            && rows[i].entry.network_id == id && rows[i].entry.accepted == allowed
            && rows[i].entry.last_seen == now
}

/// What an address of a created network asks for is judged by the patterns of that network: a
/// domain is allowed if and only if one of them names it. That holds where no subnet that was
/// there before holds the address.
pub proof fn networks_judge_by_their_patterns(
    d: DaemonModel,
    name: Seq<char>,
    subnet: Seq<char>,
    patterns: Seq<Seq<char>>,
    ip: IpAddr,
    domain: Seq<char>,
)
    requires
        well_formed(d),
        in_subnet(ip, subnet),
        subnet.len() > 0,
        forall|i: int|
            0 <= i < d.registry.subnets.len() && (#[trigger] d.registry.subnets[i]).0 != subnet
                ==> !in_subnet(ip, d.registry.subnets[i].0),
    ensures
        verdict(
            after_request(d, RequestModel::Create { name, subnet, patterns }),
            domain,
            ip,
        ) matches Some(allowed) && (allowed <==> exists|i: int|
            0 <= i < patterns.len() && matches_pattern(domain, #[trigger] patterns[i])),
{
    created_network_is_home_to_its_addresses(d, name, subnet, patterns, ip);
    networks_accept_what_their_patterns_name(d.sets, name, patterns, domain, name);
}

/// A response changes what was counted as its domains do, and the sets as its addresses do, each
/// on its own and without regard to who got it; it registers no network.
pub proof fn responses_count_and_fill(
    d: DaemonModel,
    domains: Seq<Seq<char>>,
    ips: Seq<IpAddr>,
    origin: IpAddr,
    now: u64,
    ttl: u128,
    i: int,
)
    ensures
        ({
            let after = after_response(d, domains, ips, origin, now, ttl);
            &&& after.registry == d.registry
            &&& after.rows == after_resolves(d, domains, origin, now, ttl).rows
            &&& after.sets.len() == d.sets.len()
            &&& 0 <= i < d.sets.len() ==> after.sets[i] == updated(d.sets[i], domains, ips)
        }),
{
    lemma_resolves_keep_networks(d, domains, origin, now, ttl);
}

proof fn lemma_resolves_keep_networks(
    d: DaemonModel,
    domains: Seq<Seq<char>>,
    origin: IpAddr,
    now: u64,
    ttl: u128,
)
    ensures
        after_resolves(d, domains, origin, now, ttl).registry == d.registry,
        after_resolves(d, domains, origin, now, ttl).sets == d.sets,
    decreases domains.len(),
{
    if domains.len() > 0 {
        lemma_resolves_keep_networks(d, domains.drop_last(), origin, now, ttl);
    }
}

} // verus!
