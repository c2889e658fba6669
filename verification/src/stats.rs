//! Statistics on resolved domains: which container asked for which domain, how often, and
//! whether its network allows the domain.

use vstd::prelude::*;

use crate::addr::{in_subnet, ip_in_subnet, IpAddr};
use crate::text::{
    a_text_shows_its_parts, a_text_shows_what_its_parts_show, begins, chars, decimal,
    lemma_numeral, padded, padding_is_spaces_on_the_right, push_decimal, push_padded, same, shows,
    texts,
};

verus! {

// ---------------------------------------------------------------------------
// Networks

/// A registered network.
#[derive(Clone, Debug)]
pub struct NetworkInfo {
    pub name: String,
    /// The network's addresses in CIDR notation.
    pub subnet: String,
}

/// A registered network under its number.
#[derive(Debug)]
pub struct NumberedNetwork {
    pub id: u32,
    pub info: NetworkInfo,
}

/// The number of the network with a subnet.
#[derive(Debug)]
pub struct SubnetId {
    pub subnet: String,
    pub id: u32,
}

/// What a registered network is.
pub struct NetworkModel {
    pub id: u32,
    pub name: Seq<char>,
    pub subnet: Seq<char>,
}

impl View for NumberedNetwork {
    type V = NetworkModel;

    open spec fn view(&self) -> NetworkModel {
        NetworkModel { id: self.id, name: self.info.name@, subnet: self.info.subnet@ }
    }
}

impl View for SubnetId {
    type V = (Seq<char>, u32);

    open spec fn view(&self) -> (Seq<char>, u32) {
        (self.subnet@, self.id)
    }
}

/// What the registry holds.
pub struct RegistryModel {
    /// The number that the next new subnet gets.
    pub next_id: u32,
    /// The subnets and their numbers, in the order in which they came.
    pub subnets: Seq<(Seq<char>, u32)>,
    /// The networks, by their numbers.
    pub networks: Seq<NetworkModel>,
}

/// Whether the subnets are different, the networks stand in the order of their numbers, and
/// the same numbers stand on both sides.
pub open spec fn well_formed(r: RegistryModel) -> bool {
    &&& forall|i: int, j: int|
        0 <= i < j < r.subnets.len() ==> (#[trigger] r.subnets[i]).0 != (#[trigger] r.subnets[j]).0
    &&& forall|i: int, j: int|
        0 <= i < j < r.networks.len() ==> (#[trigger] r.networks[i]).id < (
        #[trigger] r.networks[j]).id
    &&& forall|i: int|
        0 <= i < r.subnets.len() ==> network_with(r.networks, (#[trigger] r.subnets[i]).1) is Some
    &&& forall|i: int|
        0 <= i < r.networks.len() ==> exists|j: int|
            0 <= j < r.subnets.len() && (#[trigger] r.subnets[j]).1 == (
            #[trigger] r.networks[i]).id
}

/// Where the subnet stands; the number of subnets where it does not.
pub open spec fn subnet_index(subnets: Seq<(Seq<char>, u32)>, subnet: Seq<char>) -> int
    decreases subnets.len(),
{
    if subnets.len() == 0 || subnets[0].0 == subnet {
        0
    } else {
        1 + subnet_index(subnets.skip(1), subnet)
    }
}

/// The place of the first subnet that holds the address; the number of subnets where none
/// does.
pub open spec fn home_index(subnets: Seq<(Seq<char>, u32)>, ip: IpAddr) -> int
    decreases subnets.len(),
{
    if subnets.len() == 0 || in_subnet(ip, subnets[0].0) {
        0
    } else {
        1 + home_index(subnets.skip(1), ip)
    }
}

/// How many networks at the front have a smaller number.
pub open spec fn rank(networks: Seq<NetworkModel>, id: u32) -> int
    decreases networks.len(),
{
    if networks.len() == 0 || networks[0].id >= id {
        0
    } else {
        1 + rank(networks.skip(1), id)
    }
}

/// The network with this number.
pub open spec fn network_with(networks: Seq<NetworkModel>, id: u32) -> Option<NetworkModel> {
    let i = rank(networks, id);
    if i < networks.len() && networks[i].id == id {
        Some(networks[i])
    } else {
        None
    }
}

/// The networks after one was put in: in the place of the one with its number, or between
/// those with smaller and greater numbers.
pub open spec fn put(networks: Seq<NetworkModel>, network: NetworkModel) -> Seq<NetworkModel> {
    let i = rank(networks, network.id);
    if i < networks.len() && networks[i].id == network.id {
        networks.update(i, network)
    } else {
        networks.insert(i, network)
    }
}

/// The number after `id`; after the greatest, zero.
pub open spec fn next_after(id: u32) -> u32 {
    if id == u32::MAX {
        0
    } else {
        (id + 1) as u32
    }
}

/// The registry after a network was registered. A subnet that is known keeps its number, and
/// gets the new name; a new subnet gets the next number.
pub open spec fn registered(r: RegistryModel, name: Seq<char>, subnet: Seq<char>) -> RegistryModel {
    let i = subnet_index(r.subnets, subnet);
    if i < r.subnets.len() {
        RegistryModel {
            networks: put(r.networks, NetworkModel { id: r.subnets[i].1, name, subnet }),
            ..r
        }
    } else {
        RegistryModel {
            next_id: next_after(r.next_id),
            subnets: r.subnets.push((subnet, r.next_id)),
            networks: put(r.networks, NetworkModel { id: r.next_id, name, subnet }),
        }
    }
}

/// The number of the network that holds an address.
pub open spec fn home(r: RegistryModel, ip: IpAddr) -> Option<u32> {
    let i = home_index(r.subnets, ip);
    if i < r.subnets.len() {
        Some(r.subnets[i].1)
    } else {
        None
    }
}

/// The name of the network that holds an address.
pub open spec fn home_name(r: RegistryModel, ip: IpAddr) -> Option<Seq<char>> {
    match home(r, ip) {
        Some(id) => match network_with(r.networks, id) {
            Some(network) => Some(network.name),
            None => None,
        },
        None => None,
    }
}

/// The registered networks.
#[derive(Debug)]
pub struct NetworkRegistry {
    next_id: u32,
    subnets: Vec<SubnetId>,
    networks: Vec<NumberedNetwork>,
}

impl View for NetworkRegistry {
    type V = RegistryModel;

    closed spec fn view(&self) -> RegistryModel {
        RegistryModel {
            next_id: self.next_id,
            subnets: subnet_models(self.subnets@),
            networks: network_models(self.networks@),
        }
    }
}

/// What each of the subnets is.
spec fn subnet_models(subnets: Seq<SubnetId>) -> Seq<(Seq<char>, u32)> {
    subnets.map_values(|s: SubnetId| s@)
}

/// What each of the networks is.
spec fn network_models(networks: Seq<NumberedNetwork>) -> Seq<NetworkModel> {
    networks.map_values(|n: NumberedNetwork| n@)
}

/// How many networks at the front have a smaller number.
fn rank_of(networks: &Vec<NumberedNetwork>, id: u32) -> (r: usize)
    ensures
        r == rank(network_models(networks@), id),
        r <= networks.len(),
        network_models(networks@).len() == networks.len(),
{
    let mut i: usize = 0;
    assert(network_models(networks@).skip(0) =~= network_models(networks@));
    while i < networks.len() && networks[i].id < id
        invariant
            i <= networks.len(),
            network_models(networks@).len() == networks.len(),
            rank(network_models(networks@), id) == i + rank(network_models(networks@).skip(i as int), id),
        decreases networks.len() - i,
    {
        assert(network_models(networks@)[i as int].id == networks@[i as int].id);
        assert(network_models(networks@).skip(i as int).skip(1) =~= network_models(networks@).skip(i + 1));
        i = i + 1;
    }
    assert(i < networks.len() ==> network_models(networks@)[i as int].id
        == networks@[i as int].id);
    i
}

/// Puts a network in, in the place of the one with its number.
fn put_network(networks: &mut Vec<NumberedNetwork>, network: NumberedNetwork)
    ensures
        network_models(final(networks)@) == put(network_models(old(networks)@), network@),
{
    let ghost before = network_models(networks@);
    let ghost model = network@;
    let i: usize = rank_of(networks, network.id);
    if i < networks.len() {
        assert(before[i as int] == networks@[i as int]@);
    }
    if i < networks.len() && networks[i].id == network.id {
        networks.set(i, network);
        assert(network_models(networks@) =~= before.update(i as int, model));
    } else {
        networks.insert(i, network);
        assert(network_models(networks@) =~= before.insert(i as int, model));
    }
}


impl NetworkRegistry {
    /// Every registry is in order.
    #[verifier::type_invariant]
    pub open spec fn in_order(self) -> bool {
        well_formed(self@)
    }

    /// No network; the first will get the number 1.
    pub fn new() -> (r: NetworkRegistry)
        ensures
            r@.next_id == 1,
            r@.subnets == Seq::<(Seq<char>, u32)>::empty(),
            r@.networks == Seq::<NetworkModel>::empty(),
            well_formed(r@),
    {
        let subnets: Vec<SubnetId> = Vec::new();
        let networks: Vec<NumberedNetwork> = Vec::new();
        assert(subnet_models(subnets@) =~= Seq::<(Seq<char>, u32)>::empty());
        assert(network_models(networks@) =~= Seq::<NetworkModel>::empty());
        NetworkRegistry { next_id: 1, subnets, networks }
    }

    /// The network with this number.
    pub fn network(&self, id: u32) -> (r: Option<&NetworkInfo>)
        ensures
            match r {
                Some(info) => network_with(self@.networks, id) == Some(
                    NetworkModel { id, name: info.name@, subnet: info.subnet@ },
                ),
                None => network_with(self@.networks, id) is None,
            },
    {
        let i: usize = rank_of(&self.networks, id);
        if i < self.networks.len() {
            assert(self@.networks[i as int] == self.networks@[i as int]@);
            if self.networks[i].id == id {
                return Some(&self.networks[i].info);
            }
        }
        None
    }

    /// The number of the network that holds an address.
    pub fn home_of(&self, ip: IpAddr) -> (r: Option<u32>)
        ensures
            r == home(self@, ip),
    {
        let mut i: usize = 0;
        let ghost subnets = self@.subnets;
        assert(subnets.skip(0) =~= subnets);
        while i < self.subnets.len()
            invariant
                i <= self.subnets.len(),
                subnets == self@.subnets,
                subnets.len() == self.subnets.len(),
                home_index(subnets, ip) == i + home_index(subnets.skip(i as int), ip),
            decreases self.subnets.len() - i,
        {
            assert(subnets[i as int] == self.subnets@[i as int]@);
            if ip_in_subnet(ip, self.subnets[i].subnet.as_str()) {
                return Some(self.subnets[i].id);
            }
            assert(subnets.skip(i as int).skip(1) =~= subnets.skip(i + 1));
            i = i + 1;
        }
        None
    }

    /// Where the subnet stands.
    fn index_of(&self, subnet: &str) -> (r: usize)
        ensures
            r == subnet_index(self@.subnets, subnet@),
            r <= self.subnets.len(),
            self@.subnets.len() == self.subnets.len(),
    {
        let wanted = chars(subnet);
        let ghost subnets = self@.subnets;
        let mut i: usize = 0;
        assert(subnets.skip(0) =~= subnets);
        while i < self.subnets.len()
            invariant
                i <= self.subnets.len(),
                wanted@ == subnet@,
                subnets == self@.subnets,
                subnets.len() == self.subnets.len(),
                subnet_index(subnets, subnet@) == i + subnet_index(subnets.skip(i as int), subnet@),
            decreases self.subnets.len() - i,
        {
            assert(subnets[i as int] == self.subnets@[i as int]@);
            let other = chars(self.subnets[i].subnet.as_str());
            if same(other.as_slice(), wanted.as_slice()) {
                return i;
            }
            assert(subnets.skip(i as int).skip(1) =~= subnets.skip(i + 1));
            i = i + 1;
        }
        i
    }

    /// Registers a network. A subnet that is known keeps its number, and gets the new name; a
    /// new subnet gets the next number.
    pub fn register_network(&mut self, name: String, subnet: String)
        ensures
            well_formed(old(self)@),
            final(self)@ == registered(old(self)@, name@, subnet@),
            well_formed(final(self)@),
    {
        let ghost before = self@;
        proof {
            use_type_invariant(&*self);
            lemma_registered(before, name@, subnet@);
        }
        let i: usize = self.index_of(subnet.as_str());
        let mut whole = NetworkRegistry::new();
        std::mem::swap(self, &mut whole);
        let NetworkRegistry { next_id, mut subnets, mut networks } = whole;
        if i < subnets.len() {
            assert(before.subnets[i as int] == subnets@[i as int]@);
            let id: u32 = subnets[i].id;
            put_network(&mut networks, NumberedNetwork { id, info: NetworkInfo { name, subnet } });
            *self = NetworkRegistry { next_id, subnets, networks };
        } else {
            subnets.push(SubnetId { subnet: subnet.clone(), id: next_id });
            assert(subnet_models(subnets@) =~= before.subnets.push((subnet@, next_id)));
            put_network(
                &mut networks,
                NumberedNetwork { id: next_id, info: NetworkInfo { name, subnet } },
            );
            *self = NetworkRegistry { next_id: next_id.wrapping_add(1), subnets, networks };
        }
    }
}

/// [`rank`] divides the networks into those with smaller numbers and the others.
pub proof fn lemma_rank(networks: Seq<NetworkModel>, id: u32)
    ensures
        0 <= rank(networks, id) <= networks.len(),
        forall|i: int| 0 <= i < rank(networks, id) ==> (#[trigger] networks[i]).id < id,
        rank(networks, id) < networks.len() ==> networks[rank(networks, id)].id >= id,
    decreases networks.len(),
{
    if networks.len() > 0 && networks[0].id < id {
        lemma_rank(networks.skip(1), id);
        assert forall|i: int| 0 <= i < rank(networks, id) implies (#[trigger] networks[i]).id
            < id by {
            if i > 0 {
                assert(networks[i] == networks.skip(1)[i - 1]);
            }
        }
    }
}

proof fn lemma_rank_is(networks: Seq<NetworkModel>, id: u32, i: int)
    requires
        0 <= i <= networks.len(),
        forall|j: int| 0 <= j < i ==> (#[trigger] networks[j]).id < id,
        i < networks.len() ==> networks[i].id >= id,
    ensures
        rank(networks, id) == i,
{
    lemma_rank(networks, id);
    let k = rank(networks, id);
    if k < i {
        assert(networks[k].id < id);
    } else if i < k {
        assert(networks[i].id < id);
    }
}

/// Whether networks stand in the order of their numbers.
pub open spec fn ascending(networks: Seq<NetworkModel>) -> bool {
    forall|i: int, j: int|
        0 <= i < j < networks.len() ==> (#[trigger] networks[i]).id < (#[trigger] networks[j]).id
}

/// A network that was put in is found under its number; other networks are found as before;
/// and the order stays.
pub proof fn lemma_put(networks: Seq<NetworkModel>, network: NetworkModel)
    requires
        ascending(networks),
    ensures
        ascending(put(networks, network)),
        network_with(put(networks, network), network.id) == Some(network),
        forall|id: u32|
            id != network.id ==> #[trigger] network_with(put(networks, network), id)
                == network_with(networks, id),
        forall|i: int|
            0 <= i < put(networks, network).len() ==> (#[trigger] put(networks, network)[i]).id
                == network.id || network_with(networks, put(networks, network)[i].id) is Some,
{
    let after = put(networks, network);
    let k = rank(networks, network.id);
    lemma_rank(networks, network.id);
    let there = k < networks.len() && networks[k].id == network.id;
    if there {
        assert forall|i: int, j: int| 0 <= i < j < after.len() implies (#[trigger] after[i]).id < (
        #[trigger] after[j]).id by {
            assert(networks[i].id < networks[j].id);
        }
    } else {
        assert forall|i: int, j: int| 0 <= i < j < after.len() implies (#[trigger] after[i]).id < (
        #[trigger] after[j]).id by {
            if i < k && j < k {
                assert(networks[i].id < networks[j].id);
            } else if i < k && j == k {
                assert(networks[i].id < network.id);
            } else if i < k {
                assert(networks[i].id < networks[j - 1].id);
            } else if i == k {
                if j - 1 > k {
                    assert(networks[k].id < networks[j - 1].id);
                }
            } else {
                assert(networks[i - 1].id < networks[j - 1].id);
            }
        }
    }
    assert(after[k] == network);
    assert forall|j: int| 0 <= j < k implies (#[trigger] after[j]).id < network.id by {
        assert(after[j] == networks[j]);
    }
    lemma_rank_is(after, network.id, k);
    assert forall|id: u32| id != network.id implies #[trigger] network_with(after, id)
        == network_with(networks, id) by {
        lemma_rank(networks, id);
        let m = rank(networks, id);
        if there {
            lemma_rank_is_update(networks, after, id, m);
        } else if id < network.id {
            assert(m <= k) by {
                if m > k {
                    assert(networks[k].id < id);
                }
            }
            assert forall|j: int| 0 <= j < m implies (#[trigger] after[j]).id < id by {
                assert(after[j] == networks[j]);
            }
            if m < k {
                assert(after[m] == networks[m]);
            }
            lemma_rank_is(after, id, m);
            if m == k && m < networks.len() {
                assert(networks[m].id > id);
            }
        } else {
            assert(m >= k) by {
                if m < k {
                    assert(networks[m].id < network.id);
                }
            }
            assert forall|j: int| 0 <= j < m + 1 implies (#[trigger] after[j]).id < id by {
                if j < k {
                    assert(after[j] == networks[j]);
                } else if j > k {
                    assert(after[j] == networks[j - 1]);
                }
            }
            if m < networks.len() {
                assert(after[m + 1] == networks[m]);
            }
            lemma_rank_is(after, id, m + 1);
        }
    }
    assert forall|i: int| 0 <= i < after.len() implies (#[trigger] after[i]).id == network.id
        || network_with(networks, after[i].id) is Some by {
        if i != k {
            let j = if there || i < k {
                i
            } else {
                i - 1
            };
            assert(after[i] == networks[j]);
            assert forall|n: int| 0 <= n < j implies (#[trigger] networks[n]).id
                < networks[j].id by {
                assert(networks[n].id < networks[j].id);
            }
            lemma_rank_is(networks, networks[j].id, j);
        }
    }
}

proof fn lemma_rank_is_update(
    before: Seq<NetworkModel>,
    after: Seq<NetworkModel>,
    id: u32,
    m: int,
)
    requires
        before.len() == after.len(),
        forall|i: int|
            0 <= i < before.len() ==> (#[trigger] before[i]).id == (#[trigger] after[i]).id,
        m == rank(before, id),
    ensures
        rank(after, id) == m,
{
    lemma_rank(before, id);
    assert forall|j: int| 0 <= j < m implies (#[trigger] after[j]).id < id by {
        assert(before[j].id == after[j].id);
    }
    if m < before.len() {
        assert(before[m].id == after[m].id);
    }
    lemma_rank_is(after, id, m);
}

/// [`subnet_index`] finds the first place of the subnet.
pub proof fn lemma_subnet_index(subnets: Seq<(Seq<char>, u32)>, subnet: Seq<char>)
    ensures
        0 <= subnet_index(subnets, subnet) <= subnets.len(),
        forall|i: int| 0 <= i < subnet_index(subnets, subnet) ==> (#[trigger] subnets[i]).0 != subnet,
        subnet_index(subnets, subnet) < subnets.len() ==> subnets[subnet_index(
            subnets,
            subnet,
        )].0 == subnet,
    decreases subnets.len(),
{
    if subnets.len() > 0 && subnets[0].0 != subnet {
        lemma_subnet_index(subnets.skip(1), subnet);
        assert forall|i: int| 0 <= i < subnet_index(subnets, subnet) implies (
        #[trigger] subnets[i]).0 != subnet by {
            if i > 0 {
                assert(subnets[i] == subnets.skip(1)[i - 1]);
            }
        }
    }
}

/// Registering a network keeps the registry in order.
proof fn lemma_registered(r: RegistryModel, name: Seq<char>, subnet: Seq<char>)
    requires
        well_formed(r),
    ensures
        well_formed(registered(r, name, subnet)),
{
    let after = registered(r, name, subnet);
    let k = subnet_index(r.subnets, subnet);
    lemma_subnet_index(r.subnets, subnet);
    let id = if k < r.subnets.len() {
        r.subnets[k].1
    } else {
        r.next_id
    };
    let network = NetworkModel { id, name, subnet };
    lemma_put(r.networks, network);
    assert forall|i: int| 0 <= i < after.subnets.len() implies network_with(
        after.networks,
        (#[trigger] after.subnets[i]).1,
    ) is Some by {
        if after.subnets[i].1 != id {
            assert(after.subnets[i] == r.subnets[i]);
            assert(network_with(r.networks, r.subnets[i].1) is Some);
        }
    }
    assert forall|i: int| 0 <= i < after.networks.len() implies exists|j: int|
        0 <= j < after.subnets.len() && (#[trigger] after.subnets[j]).1 == (
        #[trigger] after.networks[i]).id by {
        let wanted = after.networks[i].id;
        if wanted == id {
            assert(after.subnets[k].1 == id);
        } else {
            lemma_rank(r.networks, wanted);
            let m = rank(r.networks, wanted);
            assert(r.networks[m].id == wanted);
            let j = choose|j: int|
                0 <= j < r.subnets.len() && (#[trigger] r.subnets[j]).1 == r.networks[m].id;
            assert(after.subnets[j] == r.subnets[j]);
        }
    }
}

/// The first subnet that holds an address is the place that [`home_index`] finds.
pub proof fn lemma_home_index(subnets: Seq<(Seq<char>, u32)>, ip: IpAddr, k: int)
    requires
        0 <= k < subnets.len(),
        in_subnet(ip, subnets[k].0),
        forall|i: int| 0 <= i < k ==> !in_subnet(ip, (#[trigger] subnets[i]).0),
    ensures
        home_index(subnets, ip) == k,
    decreases k,
{
    if k > 0 {
        let rest = subnets.skip(1);
        assert(!in_subnet(ip, subnets[0].0));
        assert forall|i: int| 0 <= i < k - 1 implies !in_subnet(ip, (#[trigger] rest[i]).0) by {
            assert(rest[i] == subnets[i + 1]);
        }
        lemma_home_index(rest, ip, k - 1);
    }
}

/// The number that the registry gives a subnet: the one that it has, or the next.
pub open spec fn number_for(r: RegistryModel, subnet: Seq<char>) -> u32 {
    let i = subnet_index(r.subnets, subnet);
    if i < r.subnets.len() {
        r.subnets[i].1
    } else {
        r.next_id
    }
}

/// A registered network is found under the number of its subnet. Registering the subnet again
/// does not change its number. Networks with other numbers are found as before.
pub proof fn registered_network_is_found(
    r: RegistryModel,
    name: Seq<char>,
    subnet: Seq<char>,
    other: u32,
)
    requires
        well_formed(r),
    ensures
        ({
            let after = registered(r, name, subnet);
            let id = number_for(r, subnet);
            &&& network_with(after.networks, id) == Some((NetworkModel { id, name, subnet }))
            &&& number_for(after, subnet) == id
            &&& other != id ==> network_with(after.networks, other) == network_with(
                r.networks,
                other,
            )
        }),
{
    let after = registered(r, name, subnet);
    let id = number_for(r, subnet);
    let k = subnet_index(r.subnets, subnet);
    lemma_put(r.networks, NetworkModel { id, name, subnet });
    lemma_subnet_index(r.subnets, subnet);
    lemma_subnet_index(after.subnets, subnet);
    let m = subnet_index(after.subnets, subnet);
    assert(after.subnets[k].0 == subnet);
    if m < k {
        assert(after.subnets[m] == r.subnets[m]);
    }
    assert(m == k);
}

/// Whether the numbers of the subnets rise, and stay below the next one.
pub open spec fn numbers_rise(r: RegistryModel) -> bool {
    &&& forall|i: int, j: int|
        0 <= i < j < r.subnets.len() ==> (#[trigger] r.subnets[i]).1 < (#[trigger] r.subnets[j]).1
    &&& forall|i: int| 0 <= i < r.subnets.len() ==> (#[trigger] r.subnets[i]).1 < r.next_id
}

/// As long as the numbers have not run out, different subnets have different numbers: they
/// rise, and keep rising.
pub proof fn different_subnets_have_different_numbers(
    r: RegistryModel,
    name: Seq<char>,
    subnet: Seq<char>,
)
    requires
        numbers_rise(r),
        r.next_id < u32::MAX,
    ensures
        numbers_rise(registered(r, name, subnet)),
{
}

// ---------------------------------------------------------------------------
// Resolved domains

/// What is known of a domain that one address asked for.
#[derive(Clone, Copy, Debug, PartialEq, Eq, Structural)]
pub struct StatEntry {
    /// How often it was resolved.
    pub count: u64,
    /// When it was last resolved, in nanoseconds since the Unix epoch.
    pub last_seen: u64,
    /// The number of the network that the address stands in.
    pub network_id: Option<u32>,
    /// Whether that network allows the domain.
    pub accepted: Option<bool>,
}

/// An entry under its domain and the address that asked for it.
#[derive(Debug)]
pub struct StatRow {
    pub domain: String,
    pub origin: IpAddr,
    pub entry: StatEntry,
}

/// What a row is.
pub struct RowModel {
    pub domain: Seq<char>,
    pub origin: IpAddr,
    pub entry: StatEntry,
}

impl View for StatRow {
    type V = RowModel;

    open spec fn view(&self) -> RowModel {
        RowModel { domain: self.domain@, origin: self.origin, entry: self.entry }
    }
}

/// The time since `then`; none where `then` is still to come.
pub open spec fn elapsed(now: u64, then: u64) -> nat {
    if then <= now {
        (now - then) as nat
    } else {
        0
    }
}

/// Whether a row was seen less than `ttl` nanoseconds ago.
pub open spec fn live(row: RowModel, now: u64, ttl: u128) -> bool {
    elapsed(now, row.entry.last_seen) < ttl
}

/// The rows that were seen less than `ttl` nanoseconds ago.
pub open spec fn live_rows(rows: Seq<RowModel>, now: u64, ttl: u128) -> Seq<RowModel> {
    rows.filter(|row: RowModel| live(row, now, ttl))
}

/// Where the row of a domain and an address stands; the number of rows where there is none.
pub open spec fn row_index(rows: Seq<RowModel>, domain: Seq<char>, origin: IpAddr) -> int
    decreases rows.len(),
{
    if rows.len() == 0 || (rows[0].domain == domain && rows[0].origin == origin) {
        0
    } else {
        1 + row_index(rows.skip(1), domain, origin)
    }
}

/// How often a domain was resolved for an address, as far as the rows tell.
pub open spec fn count_in(rows: Seq<RowModel>, domain: Seq<char>, origin: IpAddr) -> nat {
    let i = row_index(rows, domain, origin);
    if i < rows.len() {
        rows[i].entry.count as nat
    } else {
        0
    }
}

/// The rows after a domain was resolved: rows that are too old are gone, and the row of the
/// domain and the address counts one more and is as of now.
pub open spec fn recorded(
    rows: Seq<RowModel>,
    domain: Seq<char>,
    origin: IpAddr,
    network_id: Option<u32>,
    accepted: Option<bool>,
    now: u64,
    ttl: u128,
) -> Seq<RowModel> {
    let kept = live_rows(rows, now, ttl);
    let i = row_index(kept, domain, origin);
    let row = RowModel {
        domain,
        origin,
        entry: StatEntry {
            count: (count_in(kept, domain, origin) + 1) as u64,
            last_seen: now,
            network_id,
            accepted,
        },
    };
    if i < kept.len() {
        kept.update(i, row)
    } else {
        kept.push(row)
    }
}

/// Whether no domain has two rows for one address.
pub open spec fn distinct_rows(rows: Seq<RowModel>) -> bool {
    forall|i: int, j: int|
        0 <= i < j < rows.len() ==> (#[trigger] rows[i]).domain != (#[trigger] rows[j]).domain
            || rows[i].origin != rows[j].origin
}

/// How often a domain stands among some domains.
pub open spec fn occurrences(domains: Seq<Seq<char>>, domain: Seq<char>) -> nat
    decreases domains.len(),
{
    if domains.len() == 0 {
        0
    } else {
        occurrences(domains.skip(1), domain) + if domains[0] == domain {
            1nat
        } else {
            0
        }
    }
}

/// Whether the counts of the domains for an address can grow by how often each of them is to be
/// recorded. What other rows count, and what rows count that are too old, makes no difference.
pub open spec fn room_for(
    rows: Seq<RowModel>,
    domains: Seq<Seq<char>>,
    origin: IpAddr,
    now: u64,
    ttl: u128,
) -> bool {
    forall|k: int|
        0 <= k < domains.len() ==> count_in(
            live_rows(rows, now, ttl),
            #[trigger] domains[k],
            origin,
        ) + occurrences(domains, domains[k]) <= u64::MAX
}

/// The statistics.
#[derive(Debug)]
pub struct Stats {
    rows: Vec<StatRow>,
}

impl View for Stats {
    type V = Seq<RowModel>;

    closed spec fn view(&self) -> Seq<RowModel> {
        row_models(self.rows@)
    }
}

/// What each of the rows is.
spec fn row_models(rows: Seq<StatRow>) -> Seq<RowModel> {
    rows.map_values(|r: StatRow| r@)
}

/// Whether an entry was seen less than `ttl` nanoseconds ago.
fn is_live(entry: &StatEntry, now: u64, ttl: u128) -> (r: bool)
    ensures
        r == (elapsed(now, entry.last_seen) < ttl),
{
    let age: u64 = if entry.last_seen <= now {
        now - entry.last_seen
    } else {
        0
    };
    (age as u128) < ttl
}

/// How often a domain stands among some domains.
fn count_occurrences(domains: &Vec<String>, domain: &str) -> (r: usize)
    ensures
        r == occurrences(texts(domains@), domain@),
        r <= domains.len(),
{
    let wanted = chars(domain);
    let ghost all = texts(domains@);
    let mut n: usize = 0;
    let mut i: usize = domains.len();
    assert(all.skip(i as int) =~= seq![]);
    while i > 0
        invariant
            i <= domains.len(),
            n <= domains.len() - i,
            all == texts(domains@),
            wanted@ == domain@,
            n == occurrences(all.skip(i as int), domain@),
        decreases i,
    {
        i = i - 1;
        assert(all[i as int] == domains@[i as int]@);
        assert(all.skip(i as int).skip(1) =~= all.skip(i + 1));
        assert(all.skip(i as int)[0] == all[i as int]);
        let other = chars(domains[i].as_str());
        if same(other.as_slice(), wanted.as_slice()) {
            n = n + 1;
        }
    }
    assert(all.skip(0) =~= all);
    n
}

/// Where the row of a domain and an address stands.
fn index_of_row(rows: &Vec<StatRow>, domain: &str, origin: IpAddr) -> (r: usize)
    ensures
        r == row_index(row_models(rows@), domain@, origin),
        r <= rows.len(),
        row_models(rows@).len() == rows.len(),
        r < rows.len() ==> row_models(rows@)[r as int] == rows@[r as int]@
            && row_models(rows@)[r as int].domain == domain@ && row_models(rows@)[r as int].origin == origin,
{
    let wanted = chars(domain);
    let mut i: usize = 0;
    assert(row_models(rows@).skip(0) =~= row_models(rows@));
    while i < rows.len()
        invariant
            i <= rows.len(),
            wanted@ == domain@,
            row_models(rows@).len() == rows.len(),
            row_index(row_models(rows@), domain@, origin) == i + row_index(
                row_models(rows@).skip(i as int),
                domain@,
                origin,
            ),
        decreases rows.len() - i,
    {
        assert(row_models(rows@)[i as int] == rows@[i as int]@);
        let other = chars(rows[i].domain.as_str());
        if same(other.as_slice(), wanted.as_slice()) && rows[i].origin == origin {
            return i;
        }
        assert(row_models(rows@).skip(i as int).skip(1) =~= row_models(rows@).skip(i + 1));
        i = i + 1;
    }
    i
}

impl Stats {
    /// No statistics have two rows for a domain and an address.
    #[verifier::type_invariant]
    pub open spec fn in_order(self) -> bool {
        distinct_rows(self@)
    }

    /// No row at all.
    pub fn new() -> (r: Stats)
        ensures
            r@ == Seq::<RowModel>::empty(),
            distinct_rows(r@),
    {
        let rows: Vec<StatRow> = Vec::new();
        assert(row_models(rows@) =~= Seq::<RowModel>::empty());
        Stats { rows }
    }

    /// The entry of a domain and an address.
    pub fn get(&self, domain: &str, origin: IpAddr) -> (r: Option<StatEntry>)
        ensures
            ({
                let i = row_index(self@, domain@, origin);
                r == if i < self@.len() {
                    Some(self@[i].entry)
                } else {
                    None
                }
            }),
    {
        let i: usize = index_of_row(&self.rows, domain, origin);
        if i < self.rows.len() {
            Some(self.rows[i].entry)
        } else {
            None
        }
    }

    /// How many rows there are.
    pub fn len(&self) -> (r: usize)
        ensures
            r == self@.len(),
    {
        self.rows.len()
    }

    /// How often a domain was resolved for an address, as far as the rows tell that are not too
    /// old.
    fn live_count(&self, domain: &str, origin: IpAddr, now: u64, ttl: u128) -> (r: u64)
        ensures
            r == count_in(live_rows(self@, now, ttl), domain@, origin),
    {
        proof {
            use_type_invariant(self);
            lemma_live_count(self@, domain@, origin, now, ttl);
        }
        let i: usize = index_of_row(&self.rows, domain, origin);
        if i < self.rows.len() && is_live(&self.rows[i].entry, now, ttl) {
            self.rows[i].entry.count
        } else {
            0
        }
    }

    /// Whether the counts of the domains for an address can grow by how often each of them is
    /// to be recorded.
    pub fn has_room_for(
        &self,
        domains: &Vec<String>,
        origin: IpAddr,
        now: u64,
        ttl: u128,
    ) -> (r: bool)
        ensures
            r == room_for(self@, texts(domains@), origin, now, ttl),
    {
        let ghost all = texts(domains@);
        let mut k: usize = 0;
        while k < domains.len()
            invariant
                k <= domains.len(),
                all == texts(domains@),
                forall|j: int|
                    0 <= j < k ==> count_in(
                        live_rows(self@, now, ttl),
                        #[trigger] all[j],
                        origin,
                    ) + occurrences(all, all[j]) <= u64::MAX,
            decreases domains.len() - k,
        {
            assert(all[k as int] == domains@[k as int]@);
            let count: u64 = self.live_count(domains[k].as_str(), origin, now, ttl);
            let n: usize = count_occurrences(domains, domains[k].as_str());
            if count > u64::MAX - n as u64 {
                return false;
            }
            k = k + 1;
        }
        true
    }

    /// Takes the rows out, and hands out those that are not too old.
    fn take_live(&mut self, now: u64, ttl: u128) -> (r: Vec<StatRow>)
        ensures
            row_models(r@) == live_rows(old(self)@, now, ttl),
    {
        let ghost before = self@;
        let ghost keep = |row: RowModel| live(row, now, ttl);
        let mut rows: Vec<StatRow> = Vec::new();
        assert(row_models(rows@) =~= Seq::<RowModel>::empty());
        std::mem::swap(&mut rows, &mut self.rows);
        let ghost all = rows@;
        let mut kept: Vec<StatRow> = Vec::new();
        assert(before == row_models(all));
        assert(row_models(kept@) =~= before.take(0).filter(keep)) by {
            reveal(Seq::filter);
        }
        for row in it: rows
            invariant
                it.seq() == all,
                before == row_models(all),
                keep == (|row: RowModel| live(row, now, ttl)),
                row_models(kept@) == before.take(it.index() as int).filter(keep),
        {
            let ghost i = it.index() as int;
            let ghost sofar = row_models(kept@);
            let ghost model = row@;
            proof {
                assert(row == all[i]);
                assert(before[i] == model);
                assert(before.take(i + 1).drop_last() =~= before.take(i));
                reveal(Seq::filter);
            }
            if is_live(&row.entry, now, ttl) {
                kept.push(row);
                assert(row_models(kept@) =~= sofar.push(model));
            }
        }
        assert(before.take(before.len() as int) =~= before);
        kept
    }

    /// Records that an address had a domain resolved: rows that are too old go, and the row of
    /// the domain and the address counts one more and is as of now.
    pub fn record(
        &mut self,
        domain: &str,
        origin: IpAddr,
        network_id: Option<u32>,
        accepted: Option<bool>,
        now: u64,
        ttl: u128,
    )
        requires
            count_in(live_rows(old(self)@, now, ttl), domain@, origin) < u64::MAX,
        ensures
            distinct_rows(old(self)@),
            final(self)@ == recorded(
                old(self)@,
                domain@,
                origin,
                network_id,
                accepted,
                now,
                ttl,
            ),
            distinct_rows(final(self)@),
    {
        let ghost after = recorded(self@, domain@, origin, network_id, accepted, now, ttl);
        proof {
            use_type_invariant(&*self);
            lemma_recorded_distinct(self@, domain@, origin, network_id, accepted, now, ttl);
        }
        let mut rows = self.take_live(now, ttl);
        let i: usize = index_of_row(&rows, domain, origin);
        if i < rows.len() {
            let count: u64 = rows[i].entry.count + 1;
            rows[i].entry = StatEntry { count, last_seen: now, network_id, accepted };
            assert(row_models(rows@) =~= after);
        } else {
            rows.push(
                StatRow {
                    domain: domain.to_owned(),
                    origin,
                    entry: StatEntry { count: 1, last_seen: now, network_id, accepted },
                },
            );
            assert(row_models(rows@) =~= after);
        }
        self.rows = rows;
    }
}

/// [`row_index`] finds the first row of a domain and an address.
pub proof fn lemma_row_index(rows: Seq<RowModel>, domain: Seq<char>, origin: IpAddr)
    ensures
        0 <= row_index(rows, domain, origin) <= rows.len(),
        forall|i: int|
            0 <= i < row_index(rows, domain, origin) ==> (#[trigger] rows[i]).domain != domain
                || rows[i].origin != origin,
        row_index(rows, domain, origin) < rows.len() ==> rows[row_index(
            rows,
            domain,
            origin,
        )].domain == domain && rows[row_index(rows, domain, origin)].origin == origin,
    decreases rows.len(),
{
    if rows.len() > 0 && !(rows[0].domain == domain && rows[0].origin == origin) {
        lemma_row_index(rows.skip(1), domain, origin);
        assert forall|i: int| 0 <= i < row_index(rows, domain, origin) implies (
        #[trigger] rows[i]).domain != domain || rows[i].origin != origin by {
            if i > 0 {
                assert(rows[i] == rows.skip(1)[i - 1]);
            }
        }
    }
}

proof fn lemma_row_index_is(rows: Seq<RowModel>, domain: Seq<char>, origin: IpAddr, i: int)
    requires
        0 <= i <= rows.len(),
        forall|j: int|
            0 <= j < i ==> (#[trigger] rows[j]).domain != domain || rows[j].origin != origin,
        i < rows.len() ==> rows[i].domain == domain && rows[i].origin == origin,
    ensures
        row_index(rows, domain, origin) == i,
{
    lemma_row_index(rows, domain, origin);
    let k = row_index(rows, domain, origin);
    if k < i {
        assert(rows[k].domain != domain || rows[k].origin != origin);
    } else if i < k {
        assert(rows[i].domain != domain || rows[i].origin != origin);
    }
}

/// The live rows are rows, and among them those that are live; different rows stay different.
pub proof fn lemma_live_rows(rows: Seq<RowModel>, now: u64, ttl: u128)
    requires
        distinct_rows(rows),
    ensures
        forall|row: RowModel|
            live_rows(rows, now, ttl).contains(row) <==> rows.contains(row) && live(row, now, ttl),
        distinct_rows(live_rows(rows, now, ttl)),
        live_rows(rows, now, ttl).len() <= rows.len(),
    decreases rows.len(),
{
    let keep = |row: RowModel| live(row, now, ttl);
    let kept = live_rows(rows, now, ttl);
    reveal(Seq::filter);
    if rows.len() > 0 {
        let short = rows.drop_last();
        let last = rows.last();
        assert forall|i: int, j: int| 0 <= i < j < short.len() implies (#[trigger] short[i]).domain
            != (#[trigger] short[j]).domain || short[i].origin != short[j].origin by {
            assert(rows[i].domain != rows[j].domain || rows[i].origin != rows[j].origin);
        }
        lemma_live_rows(short, now, ttl);
        let front = live_rows(short, now, ttl);
        assert(kept == if keep(last) {
            front.push(last)
        } else {
            front
        });
        assert forall|row: RowModel| rows.contains(row) <==> short.contains(row) || row == last by {
            if rows.contains(row) {
                let i = choose|i: int| 0 <= i < rows.len() && rows[i] == row;
                if i < short.len() {
                    assert(short[i] == row);
                }
            }
            if short.contains(row) {
                let i = choose|i: int| 0 <= i < short.len() && short[i] == row;
                assert(rows[i] == row);
            }
            assert(rows[rows.len() - 1] == last);
        }
        assert forall|row: RowModel| kept.contains(row) <==> front.contains(row) || (row == last
            && keep(last)) by {
            if kept.contains(row) {
                let i = choose|i: int| 0 <= i < kept.len() && kept[i] == row;
                if i < front.len() {
                    assert(front[i] == row);
                }
            }
            if front.contains(row) {
                let i = choose|i: int| 0 <= i < front.len() && front[i] == row;
                assert(kept[i] == row);
            }
            if keep(last) {
                assert(kept[front.len() as int] == last);
            }
        }
        assert forall|i: int, j: int| 0 <= i < j < kept.len() implies (#[trigger] kept[i]).domain
            != (#[trigger] kept[j]).domain || kept[i].origin != kept[j].origin by {
            if j < front.len() {
                assert(front[i].domain != front[j].domain || front[i].origin != front[j].origin);
            } else {
                assert(front.contains(front[i]));
                assert(short.contains(front[i]));
                let k = choose|k: int| 0 <= k < short.len() && short[k] == front[i];
                assert(rows[k] == kept[i]);
                assert(rows[k].domain != rows[rows.len() - 1].domain || rows[k].origin
                    != rows[rows.len() - 1].origin);
            }
        }
    }
}

proof fn lemma_recorded_distinct(
    rows: Seq<RowModel>,
    domain: Seq<char>,
    origin: IpAddr,
    network_id: Option<u32>,
    accepted: Option<bool>,
    now: u64,
    ttl: u128,
)
    requires
        distinct_rows(rows),
    ensures
        distinct_rows(recorded(rows, domain, origin, network_id, accepted, now, ttl)),
{
    lemma_live_rows(rows, now, ttl);
    let kept = live_rows(rows, now, ttl);
    lemma_row_index(kept, domain, origin);
    let after = recorded(rows, domain, origin, network_id, accepted, now, ttl);
    let k = row_index(kept, domain, origin);
    assert forall|i: int, j: int| 0 <= i < j < after.len() implies (#[trigger] after[i]).domain != (
    #[trigger] after[j]).domain || after[i].origin != after[j].origin by {
        if i < kept.len() && j < kept.len() {
            assert(kept[i].domain != kept[j].domain || kept[i].origin != kept[j].origin);
        } else {
            assert(kept[i].domain != domain || kept[i].origin != origin);
        }
    }
}

/// Recording counts one more for the domain and the address, from what their live row told.
/// For any other domain or address the counts of the live rows stay.
pub proof fn recording_counts_one_more(
    rows: Seq<RowModel>,
    domain: Seq<char>,
    origin: IpAddr,
    network_id: Option<u32>,
    accepted: Option<bool>,
    now: u64,
    ttl: u128,
    other_domain: Seq<char>,
    other_origin: IpAddr,
)
    requires
        distinct_rows(rows),
        count_in(live_rows(rows, now, ttl), domain, origin) < u64::MAX,
    ensures
        ({
            let kept = live_rows(rows, now, ttl);
            let after = recorded(rows, domain, origin, network_id, accepted, now, ttl);
            &&& count_in(after, domain, origin) == count_in(kept, domain, origin) + 1
            &&& other_domain != domain || other_origin != origin ==> count_in(
                after,
                other_domain,
                other_origin,
            ) == count_in(kept, other_domain, other_origin)
        }),
{
    let kept = live_rows(rows, now, ttl);
    let after = recorded(rows, domain, origin, network_id, accepted, now, ttl);
    let k = row_index(kept, domain, origin);
    lemma_row_index(kept, domain, origin);
    assert forall|j: int| 0 <= j < k implies (#[trigger] after[j]).domain != domain
        || after[j].origin != origin by {
        assert(after[j] == kept[j]);
    }
    lemma_row_index_is(after, domain, origin, k);
    if other_domain != domain || other_origin != origin {
        let m = row_index(kept, other_domain, other_origin);
        lemma_row_index(kept, other_domain, other_origin);
        if m < kept.len() {
            assert forall|j: int| 0 <= j < m implies (#[trigger] after[j]).domain != other_domain
                || after[j].origin != other_origin by {
                if j != k {
                    assert(after[j] == kept[j]);
                }
            }
            lemma_row_index_is(after, other_domain, other_origin, m);
        } else {
            assert forall|j: int| 0 <= j < after.len() implies (#[trigger] after[j]).domain
                != other_domain || after[j].origin != other_origin by {
                if j != k {
                    assert(after[j] == kept[j]);
                }
            }
            lemma_row_index_is(after, other_domain, other_origin, after.len() as int);
        }
    }
}

/// After recording, every row but the one of the domain and the address was there before and
/// is not too old.
pub proof fn recording_leaves_only_live_rows(
    rows: Seq<RowModel>,
    domain: Seq<char>,
    origin: IpAddr,
    network_id: Option<u32>,
    accepted: Option<bool>,
    now: u64,
    ttl: u128,
    row: RowModel,
)
    requires
        distinct_rows(rows),
        recorded(rows, domain, origin, network_id, accepted, now, ttl).contains(row),
    ensures
        row.domain != domain || row.origin != origin ==> rows.contains(row) && live(row, now, ttl),
        row.domain == domain && row.origin == origin ==> row.entry.last_seen == now,
{
    let kept = live_rows(rows, now, ttl);
    let after = recorded(rows, domain, origin, network_id, accepted, now, ttl);
    lemma_live_rows(rows, now, ttl);
    lemma_row_index(kept, domain, origin);
    let k = row_index(kept, domain, origin);
    let i = choose|i: int| 0 <= i < after.len() && after[i] == row;
    if i != k {
        assert(kept[i] == row);
        assert(kept.contains(row));
        if row.domain == domain && row.origin == origin {
            if k < kept.len() {
                if i < k {
                    assert(kept[i].domain != kept[k].domain || kept[i].origin != kept[k].origin);
                } else {
                    assert(kept[k].domain != kept[i].domain || kept[k].origin != kept[i].origin);
                }
            }
        }
    }
}

/// Of the row of a domain and an address the live rows tell as much as all rows, if it is live,
/// and nothing otherwise.
proof fn lemma_live_count(
    rows: Seq<RowModel>,
    domain: Seq<char>,
    origin: IpAddr,
    now: u64,
    ttl: u128,
)
    requires
        distinct_rows(rows),
    ensures
        ({
            let i = row_index(rows, domain, origin);
            count_in(live_rows(rows, now, ttl), domain, origin) == if i < rows.len() && live(
                rows[i],
                now,
                ttl,
            ) {
                rows[i].entry.count as nat
            } else {
                0
            }
        }),
{
    let kept = live_rows(rows, now, ttl);
    let i = row_index(rows, domain, origin);
    let k = row_index(kept, domain, origin);
    lemma_live_rows(rows, now, ttl);
    lemma_row_index(rows, domain, origin);
    lemma_row_index(kept, domain, origin);
    if k < kept.len() {
        let row = kept[k];
        assert(kept.contains(row));
        assert(rows.contains(row));
        let m = choose|m: int| 0 <= m < rows.len() && rows[m] == row;
        if m < i {
            assert(rows[m].domain != domain || rows[m].origin != origin);
        } else if i < m {
            assert(rows[i].domain != rows[m].domain || rows[i].origin != rows[m].origin);
        }
    } else if i < rows.len() && live(rows[i], now, ttl) {
        assert(rows.contains(rows[i]));
        let j = choose|j: int| 0 <= j < kept.len() && kept[j] == rows[i];
        assert(kept[j].domain != domain || kept[j].origin != origin);
    }
}

/// Where there is room for some domains, the first can be recorded, and then there is room for
/// the others.
pub proof fn lemma_room_after_recording(
    rows: Seq<RowModel>,
    domains: Seq<Seq<char>>,
    origin: IpAddr,
    network_id: Option<u32>,
    accepted: Option<bool>,
    now: u64,
    ttl: u128,
)
    requires
        distinct_rows(rows),
        domains.len() > 0,
        room_for(rows, domains, origin, now, ttl),
    ensures
        count_in(live_rows(rows, now, ttl), domains[0], origin) < u64::MAX,
        room_for(
            recorded(rows, domains[0], origin, network_id, accepted, now, ttl),
            domains.skip(1),
            origin,
            now,
            ttl,
        ),
{
    let first = domains[0];
    let rest = domains.skip(1);
    let after = recorded(rows, first, origin, network_id, accepted, now, ttl);
    lemma_recorded_distinct(rows, first, origin, network_id, accepted, now, ttl);
    assert forall|k: int| 0 <= k < rest.len() implies count_in(
        live_rows(after, now, ttl),
        #[trigger] rest[k],
        origin,
    ) + occurrences(rest, rest[k]) <= u64::MAX by {
        let domain = domains[k + 1];
        assert(rest[k] == domain);
        recording_counts_one_more(
            rows,
            first,
            origin,
            network_id,
            accepted,
            now,
            ttl,
            domain,
            origin,
        );
        lemma_live_count(after, domain, origin, now, ttl);
    }
}

// ---------------------------------------------------------------------------
// The report

/// A time span in words: whole seconds, minutes, hours or days.
pub open spec fn age_text(secs: nat) -> Seq<char> {
    if secs < 60 {
        decimal(secs) + "s ago"@
    } else if secs < 3600 {
        decimal(secs / 60) + "m ago"@
    } else if secs < 86400 {
        decimal(secs / 3600) + "h ago"@
    } else {
        decimal(secs / 86400) + "d ago"@
    }
}

/// A time span in words. `secs` is its length in whole seconds.
pub fn format_duration(secs: u64) -> (r: String)
    ensures
        r@ == age_text(secs as nat),
{
    let mut out = String::new();
    if secs < 60 {
        push_decimal(&mut out, secs);
        out.append("s ago");
    } else if secs < 3600 {
        push_decimal(&mut out, secs / 60);
        out.append("m ago");
    } else if secs < 86400 {
        push_decimal(&mut out, secs / 3600);
        out.append("h ago");
    } else {
        push_decimal(&mut out, secs / 86400);
        out.append("d ago");
    }
    assert(out@ =~= age_text(secs as nat));
    out
}

/// How the lines of the report look.
#[derive(Clone, Copy, Debug, PartialEq, Eq, Structural)]
pub enum LineStyle {
    /// The address stands in the line: it is the network's only one.
    Alone,
    /// The address stands in a line of its own above.
    Grouped,
    /// As `Grouped`; the network is not known.
    Unknown,
}

/// How often an entry was resolved, and whether that was allowed.
pub open spec fn status_text(entry: StatEntry) -> Seq<char> {
    if entry.count == 0 {
        seq![]
    } else if entry.accepted == Some(true) {
        decimal(entry.count as nat) + "✅ "@
    } else if entry.accepted == Some(false) {
        decimal(entry.count as nat) + "❌ "@
    } else {
        seq![]
    }
}

/// What stands before the domain in the line of a row.
pub open spec fn line_front(row: RowModel, style: LineStyle) -> Seq<char> {
    match style {
        LineStyle::Alone => "  "@ + padded(row.origin.text(), 15) + " "@,
        _ => "    "@,
    }
}

/// The counts in the line of a row.
pub open spec fn line_status(row: RowModel, style: LineStyle) -> Seq<char> {
    match style {
        LineStyle::Unknown => decimal(row.entry.count as nat) + " resolves"@,
        _ => status_text(row.entry),
    }
}

/// The line of a row.
pub open spec fn row_text(row: RowModel, now: u64, style: LineStyle) -> Seq<char> {
    line_front(row, style) + padded(row.domain, 30) + " "@ + padded(line_status(row, style), 10)
        + " "@ + age_text(elapsed(now, row.entry.last_seen) / 1_000_000_000) + "\n"@
}

/// The lines of the rows that an address of a network has.
pub open spec fn rows_text(
    rows: Seq<RowModel>,
    id: Option<u32>,
    ip: IpAddr,
    now: u64,
    style: LineStyle,
) -> Seq<char>
    decreases rows.len(),
{
    if rows.len() == 0 {
        seq![]
    } else {
        let front = rows_text(rows.drop_last(), id, ip, now, style);
        let row = rows.last();
        if row.entry.network_id == id && row.origin == ip {
            front + row_text(row, now, style)
        } else {
            front
        }
    }
}

/// How many addresses at the front stand before `ip`.
pub open spec fn ip_rank(ips: Seq<IpAddr>, ip: IpAddr) -> int
    decreases ips.len(),
{
    if ips.len() == 0 || !ips[0].before(ip) {
        0
    } else {
        1 + ip_rank(ips.skip(1), ip)
    }
}

/// Addresses in their order, with `ip` among them.
pub open spec fn with_ip(ips: Seq<IpAddr>, ip: IpAddr) -> Seq<IpAddr> {
    let i = ip_rank(ips, ip);
    if i < ips.len() && ips[i] == ip {
        ips
    } else {
        ips.insert(i, ip)
    }
}

/// The addresses that the rows of a network name, each once, in their order.
pub open spec fn origins(rows: Seq<RowModel>, id: Option<u32>) -> Seq<IpAddr>
    decreases rows.len(),
{
    if rows.len() == 0 {
        seq![]
    } else {
        let front = origins(rows.drop_last(), id);
        let row = rows.last();
        if row.entry.network_id == id {
            with_ip(front, row.origin)
        } else {
            front
        }
    }
}

/// The lines of several addresses, each under a line of its own.
pub open spec fn groups_text(
    rows: Seq<RowModel>,
    id: Option<u32>,
    ips: Seq<IpAddr>,
    now: u64,
    style: LineStyle,
) -> Seq<char>
    decreases ips.len(),
{
    if ips.len() == 0 {
        seq![]
    } else {
        groups_text(rows, id, ips.drop_last(), now, style) + "  IP: "@ + ips.last().text() + "\n"@
            + rows_text(rows, id, ips.last(), now, style)
    }
}

/// What the report says of one network.
pub open spec fn network_text(rows: Seq<RowModel>, network: NetworkModel, now: u64) -> Seq<char> {
    let id = Some(network.id);
    let ips = origins(rows, id);
    let head = "Network: "@ + network.name + " ("@ + network.subnet + ")\n"@;
    if ips.len() == 0 {
        head + "  No activity\n\n"@
    } else if ips.len() == 1 {
        head + rows_text(rows, id, ips[0], now, LineStyle::Alone) + "\n"@
    } else {
        head + groups_text(rows, id, ips, now, LineStyle::Grouped) + "\n"@
    }
}

/// What the report says of the networks, one after the other.
pub open spec fn networks_text(
    rows: Seq<RowModel>,
    networks: Seq<NetworkModel>,
    now: u64,
) -> Seq<char>
    decreases networks.len(),
{
    if networks.len() == 0 {
        seq![]
    } else {
        networks_text(rows, networks.drop_last(), now) + network_text(rows, networks.last(), now)
    }
}

/// What the report says of addresses in no network.
pub open spec fn unknown_text(rows: Seq<RowModel>, now: u64) -> Seq<char> {
    let ips = origins(rows, None);
    if ips.len() == 0 {
        seq![]
    } else {
        "Unknown Networks:\n"@ + groups_text(rows, None, ips, now, LineStyle::Unknown)
    }
}

/// The report: the networks by their numbers, and then the addresses in none of them.
pub open spec fn report(rows: Seq<RowModel>, networks: Seq<NetworkModel>, now: u64) -> Seq<char> {
    networks_text(rows, networks, now) + unknown_text(rows, now)
}

/// Whether addresses rise, so that none stands twice.
pub open spec fn rising(ips: Seq<IpAddr>) -> bool {
    forall|i: int, j: int| 0 <= i < j < ips.len() ==> (#[trigger] ips[i]).before(#[trigger] ips[j])
}

proof fn lemma_ip_rank(ips: Seq<IpAddr>, ip: IpAddr)
    requires
        rising(ips),
    ensures
        0 <= ip_rank(ips, ip) <= ips.len(),
        forall|i: int| 0 <= i < ip_rank(ips, ip) ==> (#[trigger] ips[i]).before(ip),
        forall|i: int| ip_rank(ips, ip) <= i < ips.len() ==> !(#[trigger] ips[i]).before(ip),
    decreases ips.len(),
{
    if ips.len() > 0 {
        if ips[0].before(ip) {
            let rest = ips.skip(1);
            lemma_ip_rank(rest, ip);
            assert forall|i: int| 0 <= i < ip_rank(ips, ip) implies (#[trigger] ips[i]).before(
                ip,
            ) by {
                if i > 0 {
                    assert(ips[i] == rest[i - 1]);
                }
            }
            assert forall|i: int| ip_rank(ips, ip) <= i < ips.len() implies !(
            #[trigger] ips[i]).before(ip) by {
                assert(ips[i] == rest[i - 1]);
            }
        } else {
            assert forall|i: int| 0 <= i < ips.len() implies !(#[trigger] ips[i]).before(ip) by {
                if i > 0 {
                    assert(ips[0].before(ips[i]));
                }
            }
        }
    }
}

proof fn lemma_with_ip(ips: Seq<IpAddr>, ip: IpAddr)
    requires
        rising(ips),
    ensures
        rising(with_ip(ips, ip)),
        forall|x: IpAddr| with_ip(ips, ip).contains(x) <==> ips.contains(x) || x == ip,
{
    lemma_ip_rank(ips, ip);
    let k = ip_rank(ips, ip);
    let all = with_ip(ips, ip);
    if k < ips.len() && ips[k] == ip {
        assert(ips.contains(ip));
    } else {
        assert forall|i: int, j: int| 0 <= i < j < all.len() implies (#[trigger] all[i]).before(
            #[trigger] all[j],
        ) by {
            if i == k {
                assert(all[j] == ips[j - 1]);
                assert(!ips[j - 1].before(ip));
                if ips[j - 1] == ip && j - 1 > k {
                    assert(ips[k].before(ips[j - 1]));
                }
            } else if j == k {
                assert(all[i] == ips[i]);
            }
        }
        assert forall|x: IpAddr| all.contains(x) <==> ips.contains(x) || x == ip by {
            if all.contains(x) {
                let i = choose|i: int| 0 <= i < all.len() && all[i] == x;
                if i < k {
                    assert(ips[i] == x);
                } else if i > k {
                    assert(ips[i - 1] == x);
                }
            }
            if ips.contains(x) {
                let i = choose|i: int| 0 <= i < ips.len() && ips[i] == x;
                if i < k {
                    assert(all[i] == x);
                } else {
                    assert(all[i + 1] == x);
                }
            }
            assert(all[k] == ip);
        }
    }
}

/// The report names the addresses of a network in their order and each once: exactly those
/// that a row of the network has.
pub proof fn origins_are_the_addresses_in_order(rows: Seq<RowModel>, id: Option<u32>, ip: IpAddr)
    ensures
        rising(origins(rows, id)),
        origins(rows, id).contains(ip) <==> exists|i: int|
            0 <= i < rows.len() && (#[trigger] rows[i]).entry.network_id == id && rows[i].origin
                == ip,
    decreases rows.len(),
{
    if rows.len() > 0 {
        let front = rows.drop_last();
        origins_are_the_addresses_in_order(front, id, ip);
        let row = rows[rows.len() - 1];
        lemma_with_ip(origins(front, id), row.origin);
        if origins(rows, id).contains(ip) {
            if origins(front, id).contains(ip) {
                let i = choose|i: int|
                    0 <= i < front.len() && (#[trigger] front[i]).entry.network_id == id
                        && front[i].origin == ip;
                assert(rows[i].origin == ip);
            } else {
                assert(row.origin == ip);
            }
        }
        if exists|i: int|
            0 <= i < rows.len() && (#[trigger] rows[i]).entry.network_id == id && rows[i].origin
                == ip {
            let i = choose|i: int|
                0 <= i < rows.len() && (#[trigger] rows[i]).entry.network_id == id
                    && rows[i].origin == ip;
            if i < front.len() {
                assert(front[i].origin == ip);
            }
        }
    }
}

/// The counts in the line of a row.
fn status_of(row: &StatRow, style: LineStyle) -> (r: String)
    ensures
        r@ == line_status(row@, style),
{
    let mut status = String::new();
    let count: u64 = row.entry.count;
    let suffix: &str = match style {
        LineStyle::Unknown => " resolves",
        _ => {
            if count == 0 {
                return status;
            }
            match row.entry.accepted {
                Some(true) => "✅ ",
                Some(false) => "❌ ",
                None => {
                    return status;
                },
            }
        },
    };
    push_decimal(&mut status, count);
    status.append(suffix);
    assert(status@ =~= decimal(count as nat) + suffix@);
    status
}

/// Appends what stands before the domain in the line of a row to `out`.
fn push_front(out: &mut String, row: &StatRow, style: LineStyle)
    ensures
        final(out)@ == old(out)@ + line_front(row@, style),
{
    match style {
        LineStyle::Alone => {
            out.append("  ");
            push_padded(out, row.origin.to_text().as_str(), 15);
            out.append(" ");
            assert(out@ =~= old(out)@ + ("  "@ + padded(row.origin.text(), 15) + " "@));
        },
        _ => {
            out.append("    ");
        },
    }
}

/// Appends the line of a row to `out`.
fn push_row(out: &mut String, row: &StatRow, now: u64, style: LineStyle)
    ensures
        final(out)@ == old(out)@ + row_text(row@, now, style),
{
    let status = status_of(row, style);
    let age: u64 = if row.entry.last_seen <= now {
        now - row.entry.last_seen
    } else {
        0
    };
    let ago = format_duration(age / 1_000_000_000);
    push_front(out, row, style);
    push_padded(out, row.domain.as_str(), 30);
    out.append(" ");
    push_padded(out, status.as_str(), 10);
    out.append(" ");
    out.append(ago.as_str());
    out.append("\n");
    proof {
        let front = line_front(row@, style);
        let domain = padded(row@.domain, 30);
        let counts = padded(status@, 10);
        assert(old(out)@ + front + domain + " "@ + counts + " "@ + ago@ + "\n"@ =~= old(out)@ + (
        front + domain + " "@ + counts + " "@ + ago@ + "\n"@));
    }
}

impl Stats {
    /// Appends the lines of the rows that an address of a network has to `out`.
    fn push_rows(&self, out: &mut String, id: Option<u32>, ip: IpAddr, now: u64, style: LineStyle)
        ensures
            final(out)@ == old(out)@ + rows_text(self@, id, ip, now, style),
    {
        let mut i: usize = 0;
        assert(self@.take(0) =~= seq![]);
        assert(out@ =~= old(out)@ + rows_text(self@.take(0), id, ip, now, style));
        while i < self.rows.len()
            invariant
                i <= self.rows.len(),
                self@.len() == self.rows.len(),
                out@ == old(out)@ + rows_text(self@.take(i as int), id, ip, now, style),
            decreases self.rows.len() - i,
        {
            let ghost sofar = out@;
            proof {
                assert(self@[i as int] == self.rows@[i as int]@);
                assert(self@.take(i + 1).drop_last() =~= self@.take(i as int));
                assert(self@.take(i + 1).last() == self@[i as int]);
            }
            if self.rows[i].entry.network_id == id && self.rows[i].origin == ip {
                push_row(out, &self.rows[i], now, style);
                assert(out@ =~= old(out)@ + (rows_text(self@.take(i as int), id, ip, now, style)
                    + row_text(self@[i as int], now, style)));
            }
            i = i + 1;
        }
        assert(self@.take(i as int) =~= self@);
    }

    /// The addresses that the rows of a network name, each once, in their order.
    fn origins_of(&self, id: Option<u32>) -> (r: Vec<IpAddr>)
        ensures
            r@ == origins(self@, id),
    {
        let mut ips: Vec<IpAddr> = Vec::new();
        let mut i: usize = 0;
        assert(self@.take(0) =~= seq![]);
        while i < self.rows.len()
            invariant
                i <= self.rows.len(),
                self@.len() == self.rows.len(),
                ips@ == origins(self@.take(i as int), id),
            decreases self.rows.len() - i,
        {
            proof {
                assert(self@[i as int] == self.rows@[i as int]@);
                assert(self@.take(i + 1).drop_last() =~= self@.take(i as int));
                assert(self@.take(i + 1).last() == self@[i as int]);
            }
            if self.rows[i].entry.network_id == id {
                insert_ip(&mut ips, self.rows[i].origin);
            }
            i = i + 1;
        }
        assert(self@.take(i as int) =~= self@);
        ips
    }

    /// Appends the lines of several addresses to `out`, each under a line of its own.
    fn push_groups(
        &self,
        out: &mut String,
        id: Option<u32>,
        ips: &Vec<IpAddr>,
        now: u64,
        style: LineStyle,
    )
        ensures
            final(out)@ == old(out)@ + groups_text(self@, id, ips@, now, style),
    {
        let mut i: usize = 0;
        assert(ips@.take(0) =~= seq![]);
        assert(out@ =~= old(out)@ + groups_text(self@, id, ips@.take(0), now, style));
        while i < ips.len()
            invariant
                i <= ips.len(),
                out@ == old(out)@ + groups_text(self@, id, ips@.take(i as int), now, style),
            decreases ips.len() - i,
        {
            assert(ips@.take(i + 1).drop_last() =~= ips@.take(i as int));
            out.append("  IP: ");
            ips[i].push_text(out);
            out.append("\n");
            self.push_rows(out, id, ips[i], now, style);
            assert(out@ =~= old(out)@ + groups_text(self@, id, ips@.take(i + 1), now, style));
            i = i + 1;
        }
        assert(ips@.take(i as int) =~= ips@);
    }

    /// Appends what the report says of one network to `out`.
    fn push_network(&self, out: &mut String, network: &NumberedNetwork, now: u64)
        ensures
            final(out)@ == old(out)@ + network_text(self@, network@, now),
    {
        let id: Option<u32> = Some(network.id);
        let ips = self.origins_of(id);
        out.append("Network: ");
        out.append(network.info.name.as_str());
        out.append(" (");
        out.append(network.info.subnet.as_str());
        out.append(")\n");
        if ips.len() == 0 {
            out.append("  No activity\n\n");
        } else if ips.len() == 1 {
            self.push_rows(out, id, ips[0], now, LineStyle::Alone);
            out.append("\n");
        } else {
            self.push_groups(out, id, &ips, now, LineStyle::Grouped);
            out.append("\n");
        }
        assert(out@ =~= old(out)@ + network_text(self@, network@, now));
    }

    /// The report: the networks by their numbers, and then the addresses in none of them.
    pub fn get_stats_report(&self, registry: &NetworkRegistry, now: u64) -> (r: String)
        ensures
            r@ == report(self@, registry@.networks, now),
    {
        let mut out = String::new();
        let mut i: usize = 0;
        let ghost networks = registry@.networks;
        assert(networks.take(0) =~= seq![]);
        assert(out@ =~= networks_text(self@, networks.take(0), now));
        while i < registry.networks.len()
            invariant
                i <= registry.networks.len(),
                networks == registry@.networks,
                networks.len() == registry.networks.len(),
                out@ == networks_text(self@, networks.take(i as int), now),
            decreases registry.networks.len() - i,
        {
            proof {
                assert(networks[i as int] == registry.networks@[i as int]@);
                assert(networks.take(i + 1).drop_last() =~= networks.take(i as int));
                assert(networks.take(i + 1).last() == networks[i as int]);
            }
            self.push_network(&mut out, &registry.networks[i], now);
            i = i + 1;
        }
        assert(networks.take(i as int) =~= networks);
        let unknown = self.origins_of(None);
        if unknown.len() > 0 {
            out.append("Unknown Networks:\n");
            self.push_groups(&mut out, None, &unknown, now, LineStyle::Unknown);
        }
        assert(out@ =~= report(self@, networks, now));
        out
    }
}

/// Puts `ip` among addresses in their order.
fn insert_ip(ips: &mut Vec<IpAddr>, ip: IpAddr)
    ensures
        final(ips)@ == with_ip(old(ips)@, ip),
{
    let mut i: usize = 0;
    assert(ips@.skip(0) =~= ips@);
    while i < ips.len() && ips[i].is_before(&ip)
        invariant
            i <= ips.len(),
            ips@ == old(ips)@,
            ip_rank(ips@, ip) == i + ip_rank(ips@.skip(i as int), ip),
        decreases ips.len() - i,
    {
        assert(ips@.skip(i as int).skip(1) =~= ips@.skip(i + 1));
        i = i + 1;
    }
    if i < ips.len() && ips[i] == ip {
        return;
    }
    ips.insert(i, ip);
}

// ---------------------------------------------------------------------------
// Laws on the report

/// In the line of a row of a known network the count is followed by a mark, if it is not zero
/// and it is known whether the network allows the domain: one mark if and only if it does, the
/// other if and only if it does not. That holds whether the network has one address or several.
pub proof fn lines_mark_what_was_allowed(row: RowModel, style: LineStyle)
    requires
        style == LineStyle::Alone || style == LineStyle::Grouped,
        row.entry.count > 0,
    ensures
        line_status(row, style) == decimal(row.entry.count as nat) + "✅ "@
            <==> row.entry.accepted == Some(true),
        line_status(row, style) == decimal(row.entry.count as nat) + "❌ "@
            <==> row.entry.accepted == Some(false),
        line_status(row, style).len() == 0 <==> row.entry.accepted is None,
{
    reveal_strlit("✅ ");
    reveal_strlit("❌ ");
    let n = decimal(row.entry.count as nat);
    lemma_numeral(row.entry.count as nat, 10);
    let (yes, no) = (n + "✅ "@, n + "❌ "@);
    assert(yes[n.len() as int] == '✅' && no[n.len() as int] == '❌');
    assert(yes != no && yes.len() > 0 && no.len() > 0);
    match row.entry.accepted {
        Some(true) => {
            assert(line_status(row, style) == yes);
        },
        Some(false) => {
            assert(line_status(row, style) == no);
        },
        None => {
            assert(line_status(row, style).len() == 0);
        },
    }
}

/// A time span is told in whole units: the largest of seconds, minutes, hours and days that it
/// is at least one of.
pub proof fn ages_are_told_in_whole_units(secs: nat, n: nat)
    ensures
        secs < 60 ==> age_text(secs) == decimal(secs) + "s ago"@,
        60 <= secs < 3600 && 60 * n <= secs < 60 * n + 60 ==> age_text(secs) == decimal(n)
            + "m ago"@,
        3600 <= secs < 86400 && 3600 * n <= secs < 3600 * n + 3600 ==> age_text(secs) == decimal(n)
            + "h ago"@,
        86400 <= secs && 86400 * n <= secs < 86400 * n + 86400 ==> age_text(secs) == decimal(n)
            + "d ago"@,
{
    if 60 * n <= secs < 60 * n + 60 {
        assert(secs / 60 == n);
    }
    if 3600 * n <= secs < 3600 * n + 3600 {
        assert(secs / 3600 == n);
    }
    if 86400 * n <= secs < 86400 * n + 86400 {
        assert(secs / 86400 == n);
    }
}

/// A row counts as long as less than the time to live passed since it was last seen. One that was
/// seen later than now was seen now.
pub proof fn rows_live_for_their_time(row: RowModel, now: u64, ttl: u128)
    ensures
        live(row, now, ttl) <==> (if row.entry.last_seen <= now {
            now < row.entry.last_seen + ttl
        } else {
            ttl > 0
        }),
{
}

/// What stands in the line of a row: the address where it is the network's only one, the domain,
/// how often it was resolved, and how long ago.
pub proof fn lines_tell_of_their_row(row: RowModel, now: u64, style: LineStyle)
    ensures
        ({
            let secs = (if row.entry.last_seen <= now {
                now - row.entry.last_seen
            } else {
                0
            }) / 1_000_000_000;
            let count = decimal(row.entry.count as nat);
            let front = if style == LineStyle::Alone {
                "  "@ + padded(row.origin.text(), 15) + " "@
            } else {
                "    "@
            };
            let status = if style == LineStyle::Unknown {
                count + " resolves"@
            } else if row.entry.count == 0 || row.entry.accepted is None {
                seq![]
            } else if row.entry.accepted == Some(true) {
                count + "✅ "@
            } else {
                count + "❌ "@
            };
            row_text(row, now, style) == front + padded(row.domain, 30) + " "@ + padded(status, 10)
                + " "@ + age_text(secs as nat) + "\n"@
        }),
{
    let count = decimal(row.entry.count as nat);
    let status = line_status(row, style);
    match (style, row.entry.accepted) {
        (LineStyle::Unknown, _) => {
            assert(status == count + " resolves"@);
        },
        (_, None) => {
            assert(status == Seq::<char>::empty());
        },
        (_, Some(true)) => {
            assert(row.entry.count > 0 ==> status == count + "✅ "@);
        },
        (_, Some(false)) => {
            assert(row.entry.count > 0 ==> status == count + "❌ "@);
        },
    }
}

/// The lines of rows are those of the first ones, and then those of the others.
pub proof fn lines_follow_the_rows(
    a: Seq<RowModel>,
    b: Seq<RowModel>,
    id: Option<u32>,
    ip: IpAddr,
    now: u64,
    style: LineStyle,
)
    ensures
        rows_text(a + b, id, ip, now, style) == rows_text(a, id, ip, now, style) + rows_text(
            b,
            id,
            ip,
            now,
            style,
        ),
    decreases b.len(),
{
    if b.len() == 0 {
        assert(a + b =~= a);
        assert(rows_text(a, id, ip, now, style) + rows_text(b, id, ip, now, style) =~= rows_text(
            a,
            id,
            ip,
            now,
            style,
        ));
    } else {
        lines_follow_the_rows(a, b.drop_last(), id, ip, now, style);
        assert((a + b).drop_last() =~= a + b.drop_last());
        assert(rows_text(a + b, id, ip, now, style) =~= rows_text(a, id, ip, now, style)
            + rows_text(b, id, ip, now, style));
    }
}

/// A row has a line under its own network and address, and under no other.
pub proof fn a_row_has_one_line(
    row: RowModel,
    id: Option<u32>,
    ip: IpAddr,
    now: u64,
    style: LineStyle,
)
    ensures
        rows_text(seq![row], id, ip, now, style) == if row.entry.network_id == id && row.origin
            == ip {
            row_text(row, now, style)
        } else {
            seq![]
        },
{
    assert(seq![row].drop_last() =~= seq![]);
    assert(rows_text(seq![], id, ip, now, style) =~= seq![]);
    assert(seq![] + row_text(row, now, style) =~= row_text(row, now, style));
}

/// The groups of addresses are those of the first ones, and then those of the others; the group
/// of one address is a line with it, and the lines of its rows.
#[verifier::rlimit(40)]
pub proof fn groups_follow_the_addresses(
    rows: Seq<RowModel>,
    id: Option<u32>,
    a: Seq<IpAddr>,
    b: Seq<IpAddr>,
    ip: IpAddr,
    now: u64,
    style: LineStyle,
)
    ensures
        groups_text(rows, id, a + b, now, style) == groups_text(rows, id, a, now, style)
            + groups_text(rows, id, b, now, style),
        groups_text(rows, id, seq![ip], now, style) == "  IP: "@ + ip.text() + "\n"@ + rows_text(
            rows,
            id,
            ip,
            now,
            style,
        ),
    decreases b.len(),
{
    let none: Seq<char> = seq![];
    assert(seq![ip].drop_last() =~= seq![]);
    assert(groups_text(rows, id, seq![], now, style) =~= none);
    assert(none + "  IP: "@ =~= "  IP: "@);
    if b.len() == 0 {
        assert(a + b =~= a);
        assert(groups_text(rows, id, a, now, style) + groups_text(rows, id, b, now, style)
            =~= groups_text(rows, id, a, now, style));
    } else {
        groups_follow_the_addresses(rows, id, a, b.drop_last(), ip, now, style);
        assert((a + b).drop_last() =~= a + b.drop_last());
        assert(groups_text(rows, id, a + b, now, style) =~= groups_text(rows, id, a, now, style)
            + groups_text(rows, id, b, now, style));
    }
}

/// The report tells of networks one after the other, in their order.
pub proof fn sections_follow_the_networks(
    rows: Seq<RowModel>,
    a: Seq<NetworkModel>,
    b: Seq<NetworkModel>,
    network: NetworkModel,
    now: u64,
)
    ensures
        networks_text(rows, a + b, now) == networks_text(rows, a, now) + networks_text(
            rows,
            b,
            now,
        ),
        networks_text(rows, seq![network], now) == network_text(rows, network, now),
    decreases b.len(),
{
    let none: Seq<char> = seq![];
    assert(seq![network].drop_last() =~= seq![]);
    assert(networks_text(rows, seq![], now) =~= none);
    assert(none + network_text(rows, network, now) =~= network_text(rows, network, now));
    if b.len() == 0 {
        assert(a + b =~= a);
        assert(networks_text(rows, a, now) + networks_text(rows, b, now) =~= networks_text(
            rows,
            a,
            now,
        ));
    } else {
        sections_follow_the_networks(rows, a, b.drop_last(), network, now);
        assert((a + b).drop_last() =~= a + b.drop_last());
        assert(networks_text(rows, a + b, now) =~= networks_text(rows, a, now) + networks_text(
            rows,
            b,
            now,
        ));
    }
}

/// Whether a row is one of a network, or of none.
pub open spec fn is_row_of(rows: Seq<RowModel>, i: int, id: Option<u32>) -> bool {
    0 <= i < rows.len() && rows[i].entry.network_id == id
}

/// What the report says of a network begins with its name and subnet. It says that there was no
/// activity if and only if no row is of the network; where all its rows are of one address, that
/// stands in their lines; where they are of several, the rows stand under theirs, which rise.
pub proof fn sections_tell_of_their_network(
    rows: Seq<RowModel>,
    network: NetworkModel,
    now: u64,
    i: int,
    j: int,
)
    ensures
        ({
            let id = Some(network.id);
            let head = "Network: "@ + network.name + " ("@ + network.subnet + ")\n"@;
            let text = network_text(rows, network, now);
            &&& (forall|k: int| !is_row_of(rows, k, id)) ==> text == head + "  No activity\n\n"@
            &&& is_row_of(rows, i, id) && (forall|k: int|
                is_row_of(rows, k, id) ==> rows[k].origin == rows[i].origin) ==> text == head
                + rows_text(rows, id, rows[i].origin, now, LineStyle::Alone) + "\n"@
            &&& is_row_of(rows, i, id) && is_row_of(rows, j, id) && rows[i].origin
                != rows[j].origin ==> text == head + groups_text(
                rows,
                id,
                origins(rows, id),
                now,
                LineStyle::Grouped,
            ) + "\n"@
        }),
{
    let id = Some(network.id);
    let ips = origins(rows, id);
    if forall|k: int| !is_row_of(rows, k, id) {
        if ips.len() > 0 {
            origins_are_the_addresses_in_order(rows, id, ips[0]);
            assert(ips.contains(ips[0]));
            let k = choose|k: int|
                0 <= k < rows.len() && (#[trigger] rows[k]).entry.network_id == id
                    && rows[k].origin == ips[0];
            assert(is_row_of(rows, k, id));
        }
    }
    if is_row_of(rows, i, id) {
        origins_are_the_addresses_in_order(rows, id, rows[i].origin);
        let m = choose|m: int| 0 <= m < ips.len() && ips[m] == rows[i].origin;
        if forall|k: int| is_row_of(rows, k, id) ==> rows[k].origin == rows[i].origin {
            if ips.len() > 1 {
                let other = if m == 0 {
                    ips[1]
                } else {
                    ips[0]
                };
                assert(ips[0].before(ips[1]));
                assert(ips.contains(other));
                origins_are_the_addresses_in_order(rows, id, other);
                let k = choose|k: int|
                    0 <= k < rows.len() && (#[trigger] rows[k]).entry.network_id == id
                        && rows[k].origin == other;
                assert(is_row_of(rows, k, id));
                if m > 0 {
                    assert(ips[0].before(ips[m]));
                }
            }
        }
        if is_row_of(rows, j, id) && rows[i].origin != rows[j].origin {
            origins_are_the_addresses_in_order(rows, id, rows[j].origin);
            let n = choose|n: int| 0 <= n < ips.len() && ips[n] == rows[j].origin;
            assert(m != n);
        }
    }
}

proof fn lemma_rows_show(
    rows: Seq<RowModel>,
    i: int,
    id: Option<u32>,
    now: u64,
    style: LineStyle,
)
    requires
        is_row_of(rows, i, id),
    ensures
        shows(rows_text(rows, id, rows[i].origin, now, style), row_text(rows[i], now, style)),
{
    let row = rows[i];
    let ip = row.origin;
    let (a, b) = (rows.take(i), rows.skip(i + 1));
    assert(rows =~= a + seq![row] + b);
    lines_follow_the_rows(a + seq![row], b, id, ip, now, style);
    lines_follow_the_rows(a, seq![row], id, ip, now, style);
    a_row_has_one_line(row, id, ip, now, style);
    a_text_shows_its_parts(
        rows_text(a, id, ip, now, style),
        row_text(row, now, style),
        rows_text(b, id, ip, now, style),
    );
}

proof fn lemma_groups_show(
    rows: Seq<RowModel>,
    i: int,
    id: Option<u32>,
    now: u64,
    style: LineStyle,
)
    requires
        is_row_of(rows, i, id),
    ensures
        ({
            let text = groups_text(rows, id, origins(rows, id), now, style);
            &&& shows(text, row_text(rows[i], now, style))
            &&& shows(text, "  IP: "@ + rows[i].origin.text() + "\n"@)
        }),
{
    let ip = rows[i].origin;
    let ips = origins(rows, id);
    origins_are_the_addresses_in_order(rows, id, ip);
    let m = choose|m: int| 0 <= m < ips.len() && ips[m] == ip;
    let (a, b) = (ips.take(m), ips.skip(m + 1));
    assert(ips =~= a + seq![ip] + b);
    groups_follow_the_addresses(rows, id, a + seq![ip], b, ip, now, style);
    groups_follow_the_addresses(rows, id, a, seq![ip], ip, now, style);
    let group = groups_text(rows, id, seq![ip], now, style);
    let text = groups_text(rows, id, ips, now, style);
    a_text_shows_its_parts(
        groups_text(rows, id, a, now, style),
        group,
        groups_text(rows, id, b, now, style),
    );
    let lines = rows_text(rows, id, ip, now, style);
    let head = "  IP: "@ + ip.text() + "\n"@;
    a_text_shows_its_parts(head, lines, seq![]);
    a_text_shows_its_parts(seq![], head, lines);
    lemma_rows_show(rows, i, id, now, style);
    a_text_shows_what_its_parts_show(group, lines, row_text(rows[i], now, style));
    a_text_shows_what_its_parts_show(text, group, row_text(rows[i], now, style));
    a_text_shows_what_its_parts_show(text, group, head);
}

/// A domain, how often it was resolved with the mark for whether that was allowed, and how long
/// ago.
pub open spec fn marked_line(row: RowModel, allowed: bool, now: u64) -> Seq<char> {
    padded(row.domain, 30) + " "@ + padded(
        decimal(row.entry.count as nat) + (if allowed {
            "✅ "@
        } else {
            "❌ "@
        }),
        10,
    ) + " "@ + age_text(elapsed(now, row.entry.last_seen) / 1_000_000_000) + "\n"@
}

proof fn lemma_alone_shows(row: RowModel, allowed: bool, now: u64)
    requires
        row.entry.count > 0,
        row.entry.accepted == Some(allowed),
    ensures
        shows(row_text(row, now, LineStyle::Alone), marked_line(row, allowed, now)),
        shows(row_text(row, now, LineStyle::Alone), row.origin.text()),
{
    let line = marked_line(row, allowed, now);
    let whole = row_text(row, now, LineStyle::Alone);
    let ip = row.origin.text();
    let front = "  "@ + padded(ip, 15) + " "@;
    assert(whole =~= front + line);
    a_text_shows_its_parts(front, line, seq![]);
    padding_is_spaces_on_the_right(ip, 15);
    let spaces = padded(ip, 15).skip(ip.len() as int);
    assert(padded(ip, 15) =~= ip + spaces);
    let behind = spaces + " "@ + line;
    assert(whole =~= "  "@ + ip + behind);
    a_text_shows_its_parts("  "@, ip, behind);
}

proof fn lemma_grouped_shows(row: RowModel, allowed: bool, now: u64)
    requires
        row.entry.count > 0,
        row.entry.accepted == Some(allowed),
    ensures
        shows(row_text(row, now, LineStyle::Grouped), marked_line(row, allowed, now)),
{
    let line = marked_line(row, allowed, now);
    assert(row_text(row, now, LineStyle::Grouped) =~= "    "@ + line);
    a_text_shows_its_parts("    "@, line, seq![]);
}

proof fn lemma_section_shows(
    rows: Seq<RowModel>,
    network: NetworkModel,
    now: u64,
    i: int,
    allowed: bool,
)
    requires
        is_row_of(rows, i, Some(network.id)),
        rows[i].entry.count > 0,
        rows[i].entry.accepted == Some(allowed),
    ensures
        shows(network_text(rows, network, now), marked_line(rows[i], allowed, now)),
        shows(network_text(rows, network, now), rows[i].origin.text()),
        begins(
            network_text(rows, network, now),
            "Network: "@ + network.name + " ("@ + network.subnet + ")\n"@,
        ),
{
    let row = rows[i];
    let id = Some(network.id);
    let section = network_text(rows, network, now);
    let head = "Network: "@ + network.name + " ("@ + network.subnet + ")\n"@;
    let line = marked_line(row, allowed, now);
    let ip = row.origin.text();
    let ips = origins(rows, id);
    origins_are_the_addresses_in_order(rows, id, row.origin);
    let body = if ips.len() == 1 {
        rows_text(rows, id, row.origin, now, LineStyle::Alone)
    } else {
        groups_text(rows, id, ips, now, LineStyle::Grouped)
    };
    assert(section == head + body + "\n"@);
    a_text_shows_its_parts(head, body, "\n"@);
    if ips.len() == 1 {
        let whole = row_text(row, now, LineStyle::Alone);
        lemma_rows_show(rows, i, id, now, LineStyle::Alone);
        lemma_alone_shows(row, allowed, now);
        a_text_shows_what_its_parts_show(body, whole, line);
        a_text_shows_what_its_parts_show(body, whole, ip);
    } else {
        let whole = row_text(row, now, LineStyle::Grouped);
        lemma_groups_show(rows, i, id, now, LineStyle::Grouped);
        lemma_grouped_shows(row, allowed, now);
        a_text_shows_what_its_parts_show(body, whole, line);
        let named = "  IP: "@ + ip + "\n"@;
        a_text_shows_its_parts("  IP: "@, ip, "\n"@);
        a_text_shows_what_its_parts_show(body, named, ip);
    }
    a_text_shows_what_its_parts_show(section, body, line);
    a_text_shows_what_its_parts_show(section, body, ip);
    assert(section =~= head + (body + "\n"@));
    assert(section.take(head.len() as int) =~= head);
}

/// The report shows every row of a registered network, in what it says of that network: the
/// domain, how often it was resolved with the mark for whether that was allowed, and how long ago.
/// The address of the row is shown as well.
pub proof fn the_report_shows_every_row(
    rows: Seq<RowModel>,
    networks: Seq<NetworkModel>,
    now: u64,
    i: int,
    k: int,
    allowed: bool,
)
    requires
        0 <= k < networks.len(),
        is_row_of(rows, i, Some(networks[k].id)),
        rows[i].entry.count > 0,
        rows[i].entry.accepted == Some(allowed),
    ensures
        ({
            let section = network_text(rows, networks[k], now);
            &&& shows(report(rows, networks, now), section)
            &&& shows(section, marked_line(rows[i], allowed, now))
            &&& shows(section, rows[i].origin.text())
            &&& begins(
                section,
                "Network: "@ + networks[k].name + " ("@ + networks[k].subnet + ")\n"@,
            )
        }),
{
    let network = networks[k];
    let section = network_text(rows, network, now);
    let (a, b) = (networks.take(k), networks.skip(k + 1));
    assert(networks =~= a + seq![network] + b);
    sections_follow_the_networks(rows, a + seq![network], b, network, now);
    sections_follow_the_networks(rows, a, seq![network], network, now);
    let all = networks_text(rows, networks, now);
    a_text_shows_its_parts(networks_text(rows, a, now), section, networks_text(rows, b, now));
    a_text_shows_its_parts(seq![], all, unknown_text(rows, now));
    a_text_shows_what_its_parts_show(report(rows, networks, now), all, section);
    lemma_section_shows(rows, network, now, i, allowed);
}

/// The report ends with the addresses that stand in no network, under a line that says so, if
/// there are any; each of their rows is shown with how often its domain was resolved.
pub proof fn the_report_shows_rows_of_no_network(
    rows: Seq<RowModel>,
    networks: Seq<NetworkModel>,
    now: u64,
    i: int,
)
    ensures
        (forall|k: int| !is_row_of(rows, k, None)) ==> report(rows, networks, now)
            == networks_text(rows, networks, now),
        is_row_of(rows, i, None) ==> {
            let row = rows[i];
            let line = "    "@ + padded(row.domain, 30) + " "@ + padded(
                decimal(row.entry.count as nat) + " resolves"@,
                10,
            ) + " "@ + age_text(elapsed(now, row.entry.last_seen) / 1_000_000_000) + "\n"@;
            let text = report(rows, networks, now);
            &&& begins(text, networks_text(rows, networks, now) + "Unknown Networks:\n"@)
            &&& shows(text, line)
            &&& shows(text, "  IP: "@ + row.origin.text() + "\n"@)
        },
{
    let ips = origins(rows, None);
    let above = networks_text(rows, networks, now);
    let text = report(rows, networks, now);
    if forall|k: int| !is_row_of(rows, k, None) {
        if ips.len() > 0 {
            origins_are_the_addresses_in_order(rows, None, ips[0]);
            assert(ips.contains(ips[0]));
            let k = choose|k: int|
                0 <= k < rows.len() && (#[trigger] rows[k]).entry.network_id == None::<u32>
                    && rows[k].origin == ips[0];
            assert(is_row_of(rows, k, None));
        }
        assert(text =~= above);
    }
    if is_row_of(rows, i, None) {
        let row = rows[i];
        origins_are_the_addresses_in_order(rows, None, row.origin);
        let head = "Unknown Networks:\n"@;
        let groups = groups_text(rows, None, ips, now, LineStyle::Unknown);
        lemma_groups_show(rows, i, None, now, LineStyle::Unknown);
        assert(text =~= above + head + groups);
        assert(text.take((above + head).len() as int) =~= above + head);
        a_text_shows_its_parts(above + head, groups, seq![]);
        a_text_shows_what_its_parts_show(text, groups, row_text(row, now, LineStyle::Unknown));
        a_text_shows_what_its_parts_show(
            text,
            groups,
            "  IP: "@ + row.origin.text() + "\n"@,
        );
    }
}

/// After recording there is exactly one row of the domain and the address, with the network and
/// the verdict that came with it and as of now; every other row that is not too old is still
/// there, and no other row is.
pub proof fn recording_keeps_the_other_rows(
    rows: Seq<RowModel>,
    domain: Seq<char>,
    origin: IpAddr,
    network_id: Option<u32>,
    accepted: Option<bool>,
    now: u64,
    ttl: u128,
    row: RowModel,
)
    requires
        distinct_rows(rows),
        row.domain != domain || row.origin != origin,
    ensures
        ({
            let after = recorded(rows, domain, origin, network_id, accepted, now, ttl);
            &&& after.contains(row) <==> rows.contains(row) && live(row, now, ttl)
            &&& exists|i: int|
                0 <= i < after.len() && (#[trigger] after[i]).domain == domain && after[i].origin
                    == origin && after[i].entry.network_id == network_id
                    && after[i].entry.accepted == accepted && after[i].entry.last_seen == now
            &&& distinct_rows(after)
        }),
{
    let kept = live_rows(rows, now, ttl);
    let after = recorded(rows, domain, origin, network_id, accepted, now, ttl);
    lemma_live_rows(rows, now, ttl);
    lemma_row_index(kept, domain, origin);
    lemma_recorded_distinct(rows, domain, origin, network_id, accepted, now, ttl);
    let k = row_index(kept, domain, origin);
    assert(after[k].domain == domain && after[k].origin == origin);
    if after.contains(row) {
        recording_leaves_only_live_rows(
            rows,
            domain,
            origin,
            network_id,
            accepted,
            now,
            ttl,
            row,
        );
    }
    if rows.contains(row) && live(row, now, ttl) {
        assert(kept.contains(row));
        let i = choose|i: int| 0 <= i < kept.len() && kept[i] == row;
        assert(i != k);
        assert(after[i] == row);
    }
}

/// An address is at home in the first registered subnet that holds it, and in none if none does.
pub proof fn the_first_subnet_is_home(r: RegistryModel, ip: IpAddr, k: int)
    ensures
        0 <= k < r.subnets.len() && in_subnet(ip, r.subnets[k].0) && (forall|i: int|
            0 <= i < k ==> !in_subnet(ip, (#[trigger] r.subnets[i]).0)) ==> home(r, ip) == Some(
            r.subnets[k].1,
        ),
        (forall|i: int|
            0 <= i < r.subnets.len() ==> !in_subnet(ip, (#[trigger] r.subnets[i]).0)) ==> home(
            r,
            ip,
        ) is None,
{
    if 0 <= k < r.subnets.len() && in_subnet(ip, r.subnets[k].0) && (forall|i: int|
        0 <= i < k ==> !in_subnet(ip, (#[trigger] r.subnets[i]).0)) {
        lemma_home_index(r.subnets, ip, k);
    }
    if forall|i: int| 0 <= i < r.subnets.len() ==> !in_subnet(ip, (#[trigger] r.subnets[i]).0) {
        lemma_no_home(r.subnets, ip);
    }
}

proof fn lemma_no_home(subnets: Seq<(Seq<char>, u32)>, ip: IpAddr)
    requires
        forall|i: int| 0 <= i < subnets.len() ==> !in_subnet(ip, (#[trigger] subnets[i]).0),
    ensures
        home_index(subnets, ip) == subnets.len(),
    decreases subnets.len(),
{
    if subnets.len() > 0 {
        assert(!in_subnet(ip, subnets[0].0));
        let rest = subnets.skip(1);
        assert forall|i: int| 0 <= i < rest.len() implies !in_subnet(
            ip,
            (#[trigger] rest[i]).0,
        ) by {
            assert(rest[i] == subnets[i + 1]);
        }
        lemma_no_home(rest, ip);
    }
}

/// Registering a network whose subnet is known changes neither the subnets nor the next number.
/// A new subnet comes behind the others, with the number that was next, and the next number is
/// one more.
pub proof fn new_subnets_come_last(r: RegistryModel, name: Seq<char>, subnet: Seq<char>, i: int)
    ensures
        ({
            let after = registered(r, name, subnet);
            &&& 0 <= i < r.subnets.len() && r.subnets[i].0 == subnet ==> after.subnets == r.subnets
                && after.next_id == r.next_id
            &&& (forall|j: int|
                0 <= j < r.subnets.len() ==> (#[trigger] r.subnets[j]).0 != subnet)
                ==> after.subnets == r.subnets.push((subnet, r.next_id)) && (r.next_id < u32::MAX
                ==> after.next_id == r.next_id + 1)
        }),
{
    lemma_subnet_index(r.subnets, subnet);
}

/// How often a domain stands among domains is how often it stands among the first ones, and how
/// often among the others.
pub proof fn occurrences_add_up(
    a: Seq<Seq<char>>,
    b: Seq<Seq<char>>,
    x: Seq<char>,
    domain: Seq<char>,
)
    ensures
        occurrences(a + b, domain) == occurrences(a, domain) + occurrences(b, domain),
        occurrences(seq![x], domain) == if x == domain {
            1nat
        } else {
            0
        },
        occurrences(seq![], domain) == 0,
    decreases a.len(),
{
    let none: Seq<Seq<char>> = seq![];
    assert(seq![x].skip(1) =~= none);
    assert(occurrences(none, domain) == 0);
    if a.len() == 0 {
        assert(a + b =~= b);
    } else {
        occurrences_add_up(a.skip(1), b, x, domain);
        assert((a + b).skip(1) =~= a.skip(1) + b);
    }
}

/// Where every row just counted lives on, what the live rows count after recording is one more
/// for the domain and the address, and for any other what it was.
pub proof fn live_counts_after_recording(
    rows: Seq<RowModel>,
    domain: Seq<char>,
    origin: IpAddr,
    network_id: Option<u32>,
    accepted: Option<bool>,
    now: u64,
    ttl: u128,
    other_domain: Seq<char>,
    other_origin: IpAddr,
)
    requires
        distinct_rows(rows),
        ttl > 0,
        count_in(live_rows(rows, now, ttl), domain, origin) < u64::MAX,
    ensures
        ({
            let kept = live_rows(rows, now, ttl);
            let after = live_rows(
                recorded(rows, domain, origin, network_id, accepted, now, ttl),
                now,
                ttl,
            );
            count_in(after, other_domain, other_origin) == count_in(
                kept,
                other_domain,
                other_origin,
            ) + if other_domain == domain && other_origin == origin {
                1nat
            } else {
                0
            }
        }),
{
    let after = recorded(rows, domain, origin, network_id, accepted, now, ttl);
    recording_counts_one_more(
        rows,
        domain,
        origin,
        network_id,
        accepted,
        now,
        ttl,
        other_domain,
        other_origin,
    );
    lemma_recorded_distinct(rows, domain, origin, network_id, accepted, now, ttl);
    lemma_live_count(after, other_domain, other_origin, now, ttl);
    let i = row_index(after, other_domain, other_origin);
    lemma_row_index(after, other_domain, other_origin);
    if i < after.len() {
        let row = after[i];
        assert(after.contains(row));
        recording_leaves_only_live_rows(
            rows,
            domain,
            origin,
            network_id,
            accepted,
            now,
            ttl,
            row,
        );
        assert(live(row, now, ttl));
    }
}

/// There is room for domains as long as no count grows beyond the largest number of 64 bits.
pub proof fn there_is_room_until_a_count_is_full(
    rows: Seq<RowModel>,
    domains: Seq<Seq<char>>,
    origin: IpAddr,
    now: u64,
    ttl: u128,
)
    ensures
        room_for(rows, domains, origin, now, ttl) <==> forall|domain: Seq<char>|
            domains.contains(domain) ==> #[trigger] count_in(
                live_rows(rows, now, ttl),
                domain,
                origin,
            ) + occurrences(domains, domain) <= 0xffff_ffff_ffff_ffff,
{
    if room_for(rows, domains, origin, now, ttl) {
        assert forall|domain: Seq<char>| domains.contains(domain) implies #[trigger] count_in(
            live_rows(rows, now, ttl),
            domain,
            origin,
        ) + occurrences(domains, domain) <= 0xffff_ffff_ffff_ffff by {
            let k = choose|k: int| 0 <= k < domains.len() && domains[k] == domain;
            assert(domains[k] == domain);
        }
    }
    if forall|domain: Seq<char>|
        domains.contains(domain) ==> #[trigger] count_in(live_rows(rows, now, ttl), domain, origin)
            + occurrences(domains, domain) <= 0xffff_ffff_ffff_ffff {
        assert forall|k: int| 0 <= k < domains.len() implies count_in(
            live_rows(rows, now, ttl),
            #[trigger] domains[k],
            origin,
        ) + occurrences(domains, domains[k]) <= u64::MAX by {
            assert(domains.contains(domains[k]));
        }
    }
}

/// Numbers are given one after the other, and after the largest number of 32 bits comes 0.
pub proof fn numbers_go_round(r: RegistryModel, name: Seq<char>, subnet: Seq<char>)
    ensures
        (forall|i: int| 0 <= i < r.subnets.len() ==> (#[trigger] r.subnets[i]).0 != subnet)
            ==> registered(r, name, subnet).next_id == (r.next_id + 1) % 0x1_0000_0000,
        (exists|i: int| 0 <= i < r.subnets.len() && (#[trigger] r.subnets[i]).0 == subnet)
            ==> registered(r, name, subnet).next_id == r.next_id,
{
    lemma_subnet_index(r.subnets, subnet);
}

/// The name of the network that an address is at home in is the name of the network with the
/// number of its first subnet.
pub proof fn home_has_the_name_of_its_network(r: RegistryModel, ip: IpAddr, i: int)
    requires
        well_formed(r),
        0 <= i < r.networks.len(),
    ensures
        home(r, ip) == Some(r.networks[i].id) ==> home_name(r, ip) == Some(r.networks[i].name),
        home(r, ip) is None ==> home_name(r, ip) is None,
{
    lemma_rank(r.networks, r.networks[i].id);
    let k = rank(r.networks, r.networks[i].id);
    assert(k <= i);
    if k < i {
        assert(r.networks[k].id < r.networks[i].id);
    }
}

} // verus!
