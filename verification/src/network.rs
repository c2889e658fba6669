//! The addresses of a prepared network: subnet and gateway of a Docker network, the source
//! address and the outbound interface of a rootless Podman network.

use std::collections::hash_map::DefaultHasher;
use std::hash::Hasher;

use vstd::bytes::{spec_u32_to_le_bytes, u32_to_le_bytes};
use vstd::prelude::*;
use vstd::std_specs::hash::DefaultHasherAdditionalSpecFns;
use vstd::utf8::encode_utf8;

use crate::addr::{
    in_subnet, ip_of, ip_text_reads_back, ipv4_addresses_have_one_text, ipv4_of,
    ipv4_text_reads_back, local, parse_ipv4, IpAddr, Ipv4Addr,
};
use crate::text::{
    chars, contains, decimal, digit_value, ends, ends_with, find_text, index_of_text, is_text,
    lemma_decimal_reads_back, lemma_first_piece, lemma_index_of_text, lemma_numeral, lemma_one_piece, lines, lines_of,
    numeral, occurs, pieces, push_decimal, slices, string_of, whole_number, words, words_of,
    ParseIntError,
};

verus! {

// ---------------------------------------------------------------------------
// Docker

/// How many hosts a subnet has room for.
pub const USABLE_HOSTS_PER_SUBNET: u16 = 14;

/// How many pairs of a subnet and a gateway there are.
pub const SUBNET_SLOTS: u64 = 3584;

/// The hash from which the addresses of a network come: std's default hasher over the bytes of
/// the name, a byte that no text holds, and the four bytes of the attempt, lowest first.
pub open spec fn plan_hash(name: Seq<char>, attempt: u32) -> u64 {
    DefaultHasher::spec_finish(
        seq![encode_utf8(name), seq![0xffu8], spec_u32_to_le_bytes(attempt)],
    )
}

/// The third octet of the addresses that a hash gives.
pub open spec fn third_octet(hash: u64) -> nat {
    hash as nat % 3584 / 14
}

/// The subnet that a hash gives: one of 172.30.0.0/28 to 172.30.255.0/28.
pub open spec fn subnet_text(hash: u64) -> Seq<char> {
    "172.30."@ + decimal(third_octet(hash)) + ".0/28"@
}

/// The gateway that a hash gives: one of the 14 hosts of its subnet.
pub open spec fn gateway_text(hash: u64) -> Seq<char> {
    "172.30."@ + decimal(third_octet(hash)) + "."@ + decimal(hash as nat % 3584 % 14 + 1)
}

/// The subnet and the gateway that a hash gives.
pub fn subnet_and_gateway_of(hash: u64) -> (r: (String, String))
    ensures
        r.0@ == subnet_text(hash),
        r.1@ == gateway_text(hash),
{
    let slot: u16 = (hash % SUBNET_SLOTS) as u16;
    let third: u16 = slot / USABLE_HOSTS_PER_SUBNET;
    let fourth: u16 = slot % USABLE_HOSTS_PER_SUBNET;

    let mut subnet = "172.30.".to_owned();
    push_decimal(&mut subnet, third as u64);
    subnet.append(".0/28");

    let mut gateway = "172.30.".to_owned();
    push_decimal(&mut gateway, third as u64);
    gateway.append(".");
    push_decimal(&mut gateway, fourth as u64 + 1);
    (subnet, gateway)
}

/// The subnet and the gateway of a network at an attempt to set it up.
pub fn subnet_and_gateway(name: &str, attempt: u32) -> (r: (String, String))
    ensures
        r.0@ == subnet_text(plan_hash(name@, attempt)),
        r.1@ == gateway_text(plan_hash(name@, attempt)),
{
    let mut hasher = DefaultHasher::new();
    hasher.write(name.as_bytes());
    let mark: [u8; 1] = [0xff];
    hasher.write(&mark);
    hasher.write(u32_to_le_bytes(attempt).as_slice());
    assert(mark@ =~= seq![0xffu8]);
    assert(hasher@ =~= seq![
        encode_utf8(name@),
        seq![0xffu8],
        spec_u32_to_le_bytes(attempt),
    ]);
    subnet_and_gateway_of(hasher.finish())
}

/// What a Docker network is set up with.
#[derive(Debug)]
pub struct NetworkPlan {
    pub name: String,
    pub subnet: String,
    pub gateway: String,
    pub dns_port: u16,
}

/// What a [`NetworkPlan`] holds.
pub struct PlanModel {
    pub name: Seq<char>,
    pub subnet: Seq<char>,
    pub gateway: Seq<char>,
    pub dns_port: u16,
}

impl View for NetworkPlan {
    type V = PlanModel;

    open spec fn view(&self) -> PlanModel {
        PlanModel {
            name: self.name@,
            subnet: self.subnet@,
            gateway: self.gateway@,
            dns_port: self.dns_port,
        }
    }
}

/// The plan for a network at an attempt to set it up.
pub open spec fn plan(name: Seq<char>, dns_port: u16, attempt: u32) -> PlanModel {
    PlanModel {
        name,
        subnet: subnet_text(plan_hash(name, attempt)),
        gateway: gateway_text(plan_hash(name, attempt)),
        dns_port,
    }
}

impl NetworkPlan {
    /// The plan for a network at an attempt to set it up.
    pub fn new(name: &str, dns_port: u16, attempt: u32) -> (r: NetworkPlan)
        ensures
            r@ == plan(name@, dns_port, attempt),
    {
        let (subnet, gateway) = subnet_and_gateway(name, attempt);
        NetworkPlan { name: name.to_owned(), subnet, gateway, dns_port }
    }
}

// ---------------------------------------------------------------------------
// Rootless Podman

/// How many source addresses are managed.
pub const SOURCE_SLOTS: u32 = 131069;

/// The 64-bit FNV-1a hash.
pub open spec fn fnv1a(bytes: Seq<u8>) -> u64
    decreases bytes.len(),
{
    if bytes.len() == 0 {
        0xcbf29ce484222325
    } else {
        (fnv1a(bytes.drop_last()) ^ (bytes.last() as u64)).wrapping_mul(0x100000001b3)
    }
}

/// Where among the managed addresses the search for a source address begins.
pub open spec fn source_start(name: Seq<char>) -> nat {
    (fnv1a(encode_utf8(name)) % 131069) as nat
}

/// The source address of a network at an attempt to find a free one: one of 198.18.0.2 to
/// 198.19.255.254.
pub open spec fn source_ip(name: Seq<char>, attempt: nat) -> Ipv4Addr {
    Ipv4Addr { bits: (0xc612_0000 + (source_start(name) + attempt) % 131069 + 2) as u32 }
}

/// The search for a source address begins at a managed one.
pub proof fn lemma_source_start(name: Seq<char>)
    ensures
        source_start(name) < 131069,
{
}

/// The network that holds one address alone.
pub open spec fn host_cidr(ip: Ipv4Addr) -> Seq<char> {
    ip.text() + "/32"@
}

/// The network that holds one address alone.
pub fn to_host_cidr(ip: Ipv4Addr) -> (r: String)
    ensures
        r@ == host_cidr(ip),
{
    let mut out = ip.to_text();
    out.append("/32");
    out
}

fn fnv1a_of(bytes: &[u8]) -> (r: u64)
    ensures
        r == fnv1a(bytes@),
{
    let mut hash: u64 = 0xcbf29ce484222325;
    let mut i: usize = 0;
    assert(bytes@.take(0) =~= seq![]);
    while i < bytes.len()
        invariant
            i <= bytes.len(),
            hash == fnv1a(bytes@.take(i as int)),
        decreases bytes.len() - i,
    {
        assert(bytes@.take(i + 1).drop_last() =~= bytes@.take(i as int));
        hash = (hash ^ bytes[i] as u64).wrapping_mul(0x100000001b3);
        i = i + 1;
    }
    assert(bytes@.take(i as int) =~= bytes@);
    hash
}

/// The source address of a network at an attempt to find a free one.
pub fn rootless_podman_source_ip(name: &str, attempt: u32) -> (r: Ipv4Addr)
    requires
        source_start(name@) + attempt <= u32::MAX,
    ensures
        r == source_ip(name@, attempt as nat),
{
    let hash: u64 = fnv1a_of(name.as_bytes());
    let offset: u32 = ((hash % 131069) as u32 + attempt) % 131069 + 2;
    Ipv4Addr { bits: 0xc612_0000 + offset }
}

/// The source address that a firewall rule names: the address before `/32` in the word after
/// the first `-s`.
pub open spec fn rule_source(rule: Seq<char>) -> Option<Ipv4Addr> {
    let w = words_of(rule, true);
    let i = index_of_text(w, "-s"@) + 1;
    if 0 <= i < w.len() && ends(w[i], "/32"@) {
        ipv4_of(w[i].take(w[i].len() - 3))
    } else {
        None
    }
}

/// The source address that a firewall rule names.
pub fn output_rule_source_ip(rule: &[char]) -> (r: Option<Ipv4Addr>)
    ensures
        r == rule_source(rule@),
{
    let w = words(rule, true);
    let suffix = chars("/32");
    proof {
        reveal_strlit("/32");
    }
    let i: usize = find_text(w.as_slice(), "-s");
    if i >= w.len() || i + 1 >= w.len() {
        return None;
    }
    let word = w[i + 1];
    assert(slices(w@)[i + 1] == word@);
    if !ends_with(word, suffix.as_slice()) {
        return None;
    }
    let address: &[char] = &word[0..word.len() - 3];
    assert(address@ =~= word@.take(word@.len() - 3));
    parse_ipv4(address)
}

/// The comment by which the rule that hooks a network into the output chain is found again.
pub open spec fn hook_marker(name: Seq<char>) -> Seq<char> {
    "dockerwall:"@ + name + ":output-hook"@
}

/// The source address that a network has already: the one in the first of its hooks that names
/// one.
pub open spec fn hooked_source(rules: Seq<Seq<char>>, name: Seq<char>) -> Option<Ipv4Addr>
    decreases rules.len(),
{
    if rules.len() == 0 {
        None
    } else if occurs(rules[0], hook_marker(name)) && rule_source(rules[0]) is Some {
        rule_source(rules[0])
    } else {
        hooked_source(rules.skip(1), name)
    }
}

/// The source address that a network has already, by the rules of the output chain.
pub fn existing_source_ip(rules: &str, name: &str) -> (r: Option<Ipv4Addr>)
    ensures
        r == hooked_source(lines_of(rules@), name@),
{
    let mut marker = "dockerwall:".to_owned();
    marker.append(name);
    marker.append(":output-hook");
    let marker = chars(marker.as_str());
    let text = chars(rules);
    let lines = lines(text.as_slice());
    let ghost all = slices(lines@);
    let mut i: usize = 0;
    assert(all.skip(0) =~= all);
    while i < lines.len()
        invariant
            i <= lines.len(),
            all == slices(lines@),
            all == lines_of(rules@),
            marker@ == hook_marker(name@),
            hooked_source(all, name@) == hooked_source(all.skip(i as int), name@),
        decreases lines.len() - i,
    {
        assert(all[i as int] == lines@[i as int]@);
        assert(all.skip(i as int).skip(1) =~= all.skip(i + 1));
        if contains(lines[i], marker.as_slice()) {
            let source = output_rule_source_ip(lines[i]);
            if source.is_some() {
                return source;
            }
        }
        i = i + 1;
    }
    None
}

/// Whether a line of `rules` speaks of the address alone.
pub open spec fn taken(rules: Seq<Seq<char>>, ip: Ipv4Addr) -> bool {
    exists|i: int| 0 <= i < rules.len() && #[trigger] occurs(rules[i], host_cidr(ip))
}

/// The first attempt from `from` on whose source address no rule speaks of.
pub open spec fn free_attempt(rules: Seq<Seq<char>>, name: Seq<char>, from: nat) -> Option<u32>
    decreases 131069 - from,
{
    if from >= 131069 {
        None
    } else if taken(rules, source_ip(name, from)) {
        free_attempt(rules, name, from + 1)
    } else {
        Some(from as u32)
    }
}

/// The first attempt from `from` on whose source address no rule speaks of.
pub fn next_attempt(rules: &str, name: &str, from: u32) -> (r: Option<u32>)
    ensures
        r == free_attempt(lines_of(rules@), name@, from as nat),
{
    let text = chars(rules);
    let lines = lines(text.as_slice());
    let ghost all = slices(lines@);
    let mut attempt: u32 = from;
    proof {
        lemma_source_start(name@);
    }
    while attempt < SOURCE_SLOTS
        invariant
            all == slices(lines@),
            all == lines_of(rules@),
            source_start(name@) < 131069,
            free_attempt(all, name@, from as nat) == free_attempt(all, name@, attempt as nat),
        decreases SOURCE_SLOTS - attempt,
    {
        let ip = rootless_podman_source_ip(name, attempt);
        if !is_taken(&lines, ip) {
            return Some(attempt);
        }
        attempt = attempt + 1;
    }
    None
}

fn is_taken(lines: &Vec<&[char]>, ip: Ipv4Addr) -> (r: bool)
    ensures
        r == taken(slices(lines@), ip),
{
    let cidr = to_host_cidr(ip);
    let cidr = chars(cidr.as_str());
    let ghost all = slices(lines@);
    let mut i: usize = 0;
    while i < lines.len()
        invariant
            i <= lines.len(),
            all == slices(lines@),
            cidr@ == host_cidr(ip),
            forall|j: int| 0 <= j < i ==> !#[trigger] occurs(all[j], host_cidr(ip)),
        decreases lines.len() - i,
    {
        assert(all[i as int] == lines@[i as int]@);
        if contains(lines[i], cidr.as_slice()) {
            assert(occurs(all[i as int], host_cidr(ip)));
            return true;
        }
        i = i + 1;
    }
    false
}

// ---------------------------------------------------------------------------
// Interfaces

/// A character that may stand in the name of an interface.
pub open spec fn is_interface_char(c: char) -> bool {
    ||| '0' <= c <= '9'
    ||| 'A' <= c <= 'Z'
    ||| 'a' <= c <= 'z'
    ||| c == '.'
    ||| c == '_'
    ||| c == '-'
}

/// The names of interfaces that are accepted: 1 to 15 ASCII letters, digits, dots,
/// underscores and hyphens.
pub open spec fn valid_interface(s: Seq<char>) -> bool {
    &&& 1 <= s.len() <= 15
    &&& forall|i: int| 0 <= i < s.len() ==> is_interface_char(#[trigger] s[i])
}

/// Why no interface was determined.
#[derive(Clone, Copy, Debug, PartialEq, Eq, Structural)]
pub enum InterfaceError {
    /// The name is not accepted.
    InvalidName,
    /// A default route names no interface.
    RouteWithoutInterface,
    /// There is no default route with an interface.
    NoDefaultRoute,
}

impl InterfaceError {
    /// The error in words.
    pub open spec fn text(self) -> Seq<char> {
        match self {
            InterfaceError::InvalidName => {
                "interface name must be 1-15 ASCII alphanumeric, '.', '_', or '-' characters"@
            },
            InterfaceError::RouteWithoutInterface => "default route has no interface"@,
            InterfaceError::NoDefaultRoute => "could not determine the default-route interface"@,
        }
    }

    /// The error in words.
    pub fn message(&self) -> (r: String)
        ensures
            r@ == self.text(),
    {
        match self {
            InterfaceError::InvalidName => {
                "interface name must be 1-15 ASCII alphanumeric, '.', '_', or '-' characters".to_owned()
            },
            InterfaceError::RouteWithoutInterface => "default route has no interface".to_owned(),
            InterfaceError::NoDefaultRoute => {
                "could not determine the default-route interface".to_owned()
            },
        }
    }
}

fn is_valid_interface(s: &[char]) -> (r: bool)
    ensures
        r == valid_interface(s@),
{
    if s.len() == 0 || s.len() > 15 {
        return false;
    }
    let mut i: usize = 0;
    while i < s.len()
        invariant
            i <= s.len(),
            forall|j: int| 0 <= j < i ==> is_interface_char(#[trigger] s@[j]),
        decreases s.len() - i,
    {
        let c = s[i];
        if !(('0' <= c && c <= '9') || ('A' <= c && c <= 'Z') || ('a' <= c && c <= 'z') || c == '.'
            || c == '_' || c == '-') {
            assert(!is_interface_char(s@[i as int]));
            return false;
        }
        i = i + 1;
    }
    true
}

/// Passes the name of an interface on, where it is accepted.
pub fn validate_interface_name(interface: &str) -> (r: Result<&str, InterfaceError>)
    ensures
        match r {
            Ok(name) => valid_interface(interface@) && name@ == interface@,
            Err(e) => !valid_interface(interface@) && e == InterfaceError::InvalidName,
        },
{
    let name = chars(interface);
    if is_valid_interface(name.as_slice()) {
        Ok(interface)
    } else {
        Err(InterfaceError::InvalidName)
    }
}

/// The interface of the first default route that has `dev` in it: the word after `dev`.
pub open spec fn route_interface(routes: Seq<Seq<char>>) -> Result<Seq<char>, InterfaceError>
    decreases routes.len(),
{
    if routes.len() == 0 {
        Err(InterfaceError::NoDefaultRoute)
    } else {
        let fields = words_of(routes[0], true);
        let rest = fields.skip(1);
        let i = index_of_text(rest, "dev"@);
        if fields.len() > 0 && fields[0] == "default"@ && i < rest.len() {
            if i + 1 >= rest.len() {
                Err(InterfaceError::RouteWithoutInterface)
            } else if valid_interface(rest[i + 1]) {
                Ok(rest[i + 1])
            } else {
                Err(InterfaceError::InvalidName)
            }
        } else {
            route_interface(routes.skip(1))
        }
    }
}

/// The interface of the default route, by a list of routes, one on a line.
pub fn default_route_interface(routes: &str) -> (r: Result<String, InterfaceError>)
    ensures
        match r {
            Ok(name) => route_interface(lines_of(routes@)) == Ok::<Seq<char>, InterfaceError>(
                name@,
            ),
            Err(e) => route_interface(lines_of(routes@)) == Err::<Seq<char>, InterfaceError>(e),
        },
{
    let text = chars(routes);
    let lines = lines(text.as_slice());
    let ghost all = slices(lines@);
    let mut k: usize = 0;
    assert(all.skip(0) =~= all);
    while k < lines.len()
        invariant
            k <= lines.len(),
            all == slices(lines@),
            all == lines_of(routes@),
            route_interface(all) == route_interface(all.skip(k as int)),
        decreases lines.len() - k,
    {
        assert(all[k as int] == lines@[k as int]@);
        assert(all.skip(k as int).skip(1) =~= all.skip(k + 1));
        let fields = words(lines[k], true);
        if fields.len() > 0 {
            assert(slices(fields@)[0] == fields@[0]@);
            let rest: &[&[char]] = &fields.as_slice()[1..fields.len()];
            assert(slices(rest@) =~= slices(fields@).skip(1));
            let i: usize = find_text(rest, "dev");
            if is_text(fields[0], "default") && i < rest.len() {
                if i + 1 >= rest.len() {
                    return Err(InterfaceError::RouteWithoutInterface);
                }
                assert(slices(rest@)[i + 1] == rest@[i + 1]@);
                if !is_valid_interface(rest[i + 1]) {
                    return Err(InterfaceError::InvalidName);
                }
                return Ok(string_of(rest[i + 1]));
            }
        }
        k = k + 1;
    }
    Err(InterfaceError::NoDefaultRoute)
}

// ---------------------------------------------------------------------------
// Laws

/// The address with the first two octets 172 and 30.
pub open spec fn docker_ip(third: nat, fourth: nat) -> Ipv4Addr {
    Ipv4Addr { bits: (0xac1e_0000 + third * 256 + fourth) as u32 }
}

/// The text of an address in 172.30.0.0/16.
proof fn lemma_docker_ip(third: nat, fourth: nat)
    requires
        third < 256,
        fourth < 256,
    ensures
        docker_ip(third, fourth).text() == "172.30."@ + decimal(third) + "."@ + decimal(fourth),
        docker_ip(third, fourth).octet(0) == 172,
        docker_ip(third, fourth).octet(1) == 30,
{
    let a = docker_ip(third, fourth);
    assert(a.octet(0) == 172 && a.octet(1) == 30 && a.octet(2) == third && a.octet(3) == fourth);
    reveal_strlit("172.30.");
    reveal_strlit(".");
    reveal_with_fuel(numeral, 4);
    assert(decimal(172) =~= seq!['1', '7', '2']);
    assert(decimal(30) =~= seq!['3', '0']);
    assert(a.text() =~= "172.30."@ + decimal(third) + "."@ + decimal(fourth));
}

/// A network in CIDR notation reads as its address and the length of its prefix.
proof fn lemma_cidr(net: Ipv4Addr, len: nat)
    requires
        len <= 32,
    ensures
        pieces(net.text() + "/"@ + decimal(len), '/') == seq![net.text(), decimal(len)],
        ip_of(net.text()) == Some(IpAddr::V4(net)),
        whole_number(decimal(len), u32::MAX as nat) == Ok::<nat, ParseIntError>(len),
{
    reveal_strlit("/");
    ipv4_text_reads_back(net);
    ip_text_reads_back(IpAddr::V4(net));
    lemma_decimal_reads_back(len, u32::MAX as nat);
    lemma_numeral(len, 10);
    let digits = decimal(len);
    assert forall|i: int| 0 <= i < digits.len() implies digits[i] != '/' by {
        assert(digit_value(digits[i], 10) is Some);
    }
    lemma_one_piece(digits, '/');
    lemma_first_piece(net.text(), '/', digits);
    assert(net.text() + "/"@ + digits =~= net.text().push('/') + digits);
    assert(seq![net.text()] + seq![digits] =~= seq![net.text(), digits]);
}

/// An address stands in the subnet that a hash gives if and only if its first 28 bits are
/// those of the subnet.
proof fn lemma_in_docker_subnet(hash: u64, a: Ipv4Addr)
    ensures
        in_subnet(IpAddr::V4(a), subnet_text(hash)) <==> a.bits / 16 == docker_ip(
            third_octet(hash),
            0,
        ).bits / 16,
{
    let net = docker_ip(third_octet(hash), 0);
    lemma_docker_ip(third_octet(hash), 0);
    lemma_cidr(net, 28);
    reveal_strlit(".");
    reveal_strlit("/");
    reveal_strlit(".0/28");
    reveal_with_fuel(numeral, 3);
    assert(decimal(0) =~= seq!['0']);
    assert(decimal(28) =~= seq!['2', '8']);
    assert(subnet_text(hash) =~= net.text() + "/"@ + decimal(28));
    vstd::arithmetic::power2::lemma2_to64();
}

/// A host of a subnet shares its first 28 bits.
proof fn lemma_docker_host(third: nat, fourth: nat)
    requires
        third < 256,
        1 <= fourth <= 14,
    ensures
        docker_ip(third, fourth).bits / 16 == docker_ip(third, 0).bits / 16,
        docker_ip(third, fourth).bits % 16 == fourth,
{
    let net = 0xac1e_0000 + third * 256;
    assert(net == 16 * (0xac1_e000 + third * 16));
}

/// The gateway of a network is an address in the subnet of the network, and neither the first
/// nor the last one.
pub proof fn gateways_are_valid_for_their_subnets(hash: u64)
    ensures
        ipv4_of(gateway_text(hash)) matches Some(gateway) && {
            &&& in_subnet(IpAddr::V4(gateway), subnet_text(hash))
            &&& 1 <= gateway.bits % 16 <= 14
        },
{
    let third = third_octet(hash);
    let fourth = hash as nat % 3584 % 14 + 1;
    let gateway = docker_ip(third, fourth);
    lemma_docker_ip(third, fourth);
    ipv4_text_reads_back(gateway);
    lemma_in_docker_subnet(hash, gateway);
    lemma_docker_host(third, fourth);
}

/// The proxy takes every address of a Docker network for a local one.
pub proof fn docker_addresses_are_local(hash: u64, a: Ipv4Addr)
    requires
        in_subnet(IpAddr::V4(a), subnet_text(hash)),
    ensures
        local(IpAddr::V4(a)),
{
    lemma_in_docker_subnet(hash, a);
    assert(a.bits / 0x1_0000 == 0xac1e);
    assert(a.octet(0) == 172 && a.octet(1) == 30);
}

/// A source address lies in the range for benchmarks, 198.18.0.0/15. It is neither the first
/// nor the last address of the range, nor the one at which the daemon is asked, 198.18.0.1.
/// The proxy takes it for a local one.
pub proof fn source_ips_stand_in_the_benchmark_range(name: Seq<char>, attempt: nat)
    ensures
        0xc612_0001 < source_ip(name, attempt).bits < 0xc613_ffff,
        local(IpAddr::V4(source_ip(name, attempt))),
{
    let offset = (source_start(name) + attempt) % 131069;
    assert(0 <= offset < 131069);
    let a = source_ip(name, attempt);
    assert(a.bits == 0xc612_0000 + offset + 2);
    assert(a.octet(0) == 198);
    assert(18 <= a.octet(1) <= 19);
}

/// No two attempts of a search give the same source address.
pub proof fn different_attempts_give_different_source_ips(name: Seq<char>, a: nat, b: nat)
    requires
        a < b < 131069,
    ensures
        source_ip(name, a) != source_ip(name, b),
{
    let h = source_start(name);
    lemma_source_start(name);
    let (x, y) = ((h + a) % 131069, (h + b) % 131069);
    assert(x == h + a || x == h + a - 131069);
    assert(y == h + b || y == h + b - 131069);
    assert(x != y);
    assert(source_ip(name, a).bits == 0xc612_0000 + x + 2);
    assert(source_ip(name, b).bits == 0xc612_0000 + y + 2);
}

/// A search goes through all managed addresses: each is the source address of some attempt.
pub proof fn every_managed_address_is_tried(name: Seq<char>, ip: Ipv4Addr)
    requires
        0xc612_0001 < ip.bits < 0xc613_ffff,
    ensures
        exists|attempt: nat| attempt < 131069 && #[trigger] source_ip(name, attempt) == ip,
{
    let h = source_start(name);
    lemma_source_start(name);
    let offset = ip.bits - 0xc612_0002;
    let attempt = if offset >= h {
        (offset - h) as nat
    } else {
        (offset - h + 131069) as nat
    };
    assert((h + attempt) % 131069 == offset);
    assert(source_ip(name, attempt) == ip);
}

/// A search passes over an address only if a rule speaks of it.
pub proof fn free_attempts_are_the_first(rules: Seq<Seq<char>>, name: Seq<char>, from: nat)
    ensures
        match free_attempt(rules, name, from) {
            Some(n) => {
                &&& from <= n < 131069
                &&& !taken(rules, source_ip(name, n as nat))
                &&& forall|k: nat| from <= k < n ==> taken(rules, #[trigger] source_ip(name, k))
            },
            None => forall|k: nat|
                from <= k < 131069 ==> taken(rules, #[trigger] source_ip(name, k)),
        },
    decreases 131069 - from,
{
    if from < 131069 && taken(rules, source_ip(name, from)) {
        free_attempts_are_the_first(rules, name, from + 1);
        assert forall|k: nat| from <= k < 131069 && (free_attempt(rules, name, from) matches Some(
            n,
        ) ==> k < n) implies taken(rules, #[trigger] source_ip(name, k)) by {
            if k > from {
                assert(from + 1 <= k);
            }
        }
    }
}

/// The interface of a default route has a name that is accepted.
pub proof fn routes_have_valid_interfaces(routes: Seq<Seq<char>>)
    ensures
        route_interface(routes) matches Ok(name) ==> valid_interface(name),
    decreases routes.len(),
{
    if routes.len() > 0 {
        routes_have_valid_interfaces(routes.skip(1));
    }
}

/// The network of one address holds that address alone.
pub proof fn host_networks_hold_one_address(a: Ipv4Addr, ip: Ipv4Addr)
    ensures
        in_subnet(IpAddr::V4(ip), host_cidr(a)) <==> ip == a,
{
    lemma_cidr(a, 32);
    reveal_strlit("/");
    reveal_strlit("/32");
    reveal_with_fuel(numeral, 3);
    assert(decimal(32) =~= seq!['3', '2']);
    assert(host_cidr(a) =~= a.text() + "/"@ + decimal(32));
}

/// Whether a line of a list of routes is a default route that names a device: its first word is
/// `default`, and the word `dev` stands behind it.
pub open spec fn is_default_route(line: Seq<char>) -> bool {
    let w = words_of(line, true);
    w.len() > 0 && w[0] == "default"@ && exists|i: int| 1 <= i < w.len() && #[trigger] w[i]
        == "dev"@
}

proof fn lemma_device(line: Seq<char>)
    ensures
        ({
            let w = words_of(line, true);
            let rest = w.skip(1);
            let i = index_of_text(rest, "dev"@);
            w.len() > 0 ==> {
                &&& 0 <= i <= rest.len()
                &&& i < rest.len() <==> exists|j: int| 1 <= j < w.len() && #[trigger] w[j]
                    == "dev"@
                &&& i < rest.len() ==> w[i + 1] == "dev"@
                &&& forall|j: int| 1 <= j < i + 1 ==> #[trigger] w[j] != "dev"@
            }
        }),
{
    let w = words_of(line, true);
    let rest = w.skip(1);
    lemma_index_of_text(rest, "dev"@);
    let i = index_of_text(rest, "dev"@);
    if w.len() > 0 {
        assert forall|j: int| 1 <= j < i + 1 implies #[trigger] w[j] != "dev"@ by {
            assert(rest[j - 1] == w[j]);
        }
        if i < rest.len() {
            assert(w[i + 1] == rest[i]);
        }
    }
}

/// The first default route that names a device decides alone, whatever lines follow it: the
/// interface is the word after its first `dev`.
pub proof fn the_first_default_route_decides(routes: Seq<Seq<char>>, k: int, i: int)
    requires
        0 <= k < routes.len(),
        is_default_route(routes[k]),
        forall|j: int| 0 <= j < k ==> !is_default_route(#[trigger] routes[j]),
        1 <= i < words_of(routes[k], true).len(),
        words_of(routes[k], true)[i] == "dev"@,
        forall|j: int| 1 <= j < i ==> #[trigger] words_of(routes[k], true)[j] != "dev"@,
    ensures
        ({
            let w = words_of(routes[k], true);
            route_interface(routes) == if i + 1 == w.len() {
                Err(InterfaceError::RouteWithoutInterface)
            } else if valid_interface(w[i + 1]) {
                Ok(w[i + 1])
            } else {
                Err(InterfaceError::InvalidName)
            }
        }),
    decreases k,
{
    let w = words_of(routes[0], true);
    lemma_device(routes[0]);
    if k == 0 {
        let rest = w.skip(1);
        let n = index_of_text(rest, "dev"@);
        if n + 1 < i {
            assert(w[n + 1] != "dev"@);
        } else if i < n + 1 {
            assert(w[i] != "dev"@);
        }
        assert(n + 1 == i);
        if i + 1 < w.len() {
            assert(rest[n + 1] == w[i + 1]);
        }
    } else {
        assert(!is_default_route(routes[0]));
        let later = routes.skip(1);
        assert forall|j: int| 0 <= j < k - 1 implies !is_default_route(#[trigger] later[j]) by {
            assert(later[j] == routes[j + 1]);
        }
        assert(later[k - 1] == routes[k]);
        the_first_default_route_decides(later, k - 1, i);
    }
}

/// Without a default route that names a device there is no interface.
pub proof fn without_a_default_route_there_is_no_interface(routes: Seq<Seq<char>>)
    requires
        forall|j: int| 0 <= j < routes.len() ==> !is_default_route(#[trigger] routes[j]),
    ensures
        route_interface(routes) == Err::<Seq<char>, InterfaceError>(InterfaceError::NoDefaultRoute),
    decreases routes.len(),
{
    if routes.len() > 0 {
        lemma_device(routes[0]);
        assert(!is_default_route(routes[0]));
        let later = routes.skip(1);
        assert forall|j: int| 0 <= j < later.len() implies !is_default_route(
            #[trigger] later[j],
        ) by {
            assert(later[j] == routes[j + 1]);
        }
        without_a_default_route_there_is_no_interface(later);
    }
}

/// The gateway that a hash gives, as an address: the slot of the hash, which is its remainder by
/// 3584, picks one of 256 subnets and one of 14 hosts in it.
pub proof fn slots_give_gateways(hash: u64, third: nat, host: nat)
    requires
        third < 256,
        1 <= host <= 14,
        hash as nat % 3584 == third * 14 + host - 1,
    ensures
        ipv4_of(gateway_text(hash)) matches Some(gateway) && gateway.bits == 0xac1e_0000 + third
            * 256 + host,
        subnet_text(hash) == (Ipv4Addr { bits: (0xac1e_0000 + third * 256) as u32 }).text()
            + "/28"@,
{
    let slot = hash as nat % 3584;
    assert(slot / 14 == third && slot % 14 == host - 1) by {
        vstd::arithmetic::div_mod::lemma_fundamental_div_mod_converse(
            slot as int,
            14,
            third as int,
            host - 1,
        );
    }
    lemma_docker_ip(third, host);
    lemma_docker_ip(third, 0);
    ipv4_text_reads_back(docker_ip(third, host));
    reveal_strlit("/28");
    reveal_strlit(".");
    reveal_strlit(".0/28");
    reveal_with_fuel(numeral, 2);
    assert(decimal(0) =~= seq!['0']);
    assert(subnet_text(hash) =~= docker_ip(third, 0).text() + "/28"@);
}

/// A subnet that a hash gives holds the 16 addresses from its own on.
pub proof fn docker_subnets_hold_sixteen_addresses(hash: u64, a: Ipv4Addr)
    ensures
        ({
            let first = 0xac1e_0000 + 256 * (hash as nat % 3584 / 14);
            in_subnet(IpAddr::V4(a), subnet_text(hash)) <==> first <= a.bits < first + 16
        }),
{
    lemma_in_docker_subnet(hash, a);
    let third = third_octet(hash);
    let net = 0xac1e_0000 + third * 256;
    assert(net == 16 * (0xac1_e000 + third * 16));
    assert(docker_ip(third, 0).bits == net);
    let q = a.bits as nat / 16;
    assert(a.bits == q * 16 + a.bits as nat % 16);
}

/// A plan has the name and the port that it was made for, and the addresses of one hash.
pub proof fn plans_are_for_their_network(name: Seq<char>, dns_port: u16, attempt: u32)
    ensures
        ({
            let p = plan(name, dns_port, attempt);
            let hash = plan_hash(name, attempt);
            &&& p.name == name
            &&& p.dns_port == dns_port
            &&& p.subnet == subnet_text(hash)
            &&& p.gateway == gateway_text(hash)
            &&& ipv4_of(p.gateway) matches Some(gateway) && in_subnet(
                IpAddr::V4(gateway),
                p.subnet,
            )
        }),
{
    gateways_are_valid_for_their_subnets(plan_hash(name, attempt));
}

/// The hash of a name: one more byte is mixed in by an exclusive or and a multiplication modulo
/// two to the 64.
pub proof fn one_more_byte_is_hashed(bytes: Seq<u8>, b: u8)
    ensures
        fnv1a(seq![]) == 14695981039346656037,
        fnv1a(bytes.push(b)) as int == ((fnv1a(bytes) ^ (b as u64)) as int * 1099511628211)
            % 0x1_0000_0000_0000_0000,
{
    assert(bytes.push(b).drop_last() =~= bytes);
}

/// The source address of an attempt is that of the first one, as many addresses further, where
/// the first address follows the last.
pub proof fn attempts_go_from_address_to_address(name: Seq<char>, attempt: nat)
    ensures
        source_ip(name, 0).bits == 0xc612_0002 + fnv1a(encode_utf8(name)) % 131069,
        source_ip(name, attempt + 1).bits == if source_ip(name, attempt).bits == 0xc613_fffe {
            0xc612_0002u32
        } else {
            (source_ip(name, attempt).bits + 1) as u32
        },
{
    lemma_source_start(name);
    let h = source_start(name);
    let x = (h + attempt) % 131069;
    let y = (h + attempt + 1) % 131069;
    vstd::arithmetic::div_mod::lemma_fundamental_div_mod((h + attempt) as int, 131069);
    let q = (h + attempt) / 131069;
    assert(h + attempt == 131069 * q + x);
    if x == 131068 {
        vstd::arithmetic::div_mod::lemma_fundamental_div_mod_converse(
            (h + attempt + 1) as int,
            131069,
            (q + 1) as int,
            0,
        );
    } else {
        vstd::arithmetic::div_mod::lemma_fundamental_div_mod_converse(
            (h + attempt + 1) as int,
            131069,
            q as int,
            (x + 1) as int,
        );
    }
    vstd::arithmetic::div_mod::lemma_small_mod(h, 131069);
}

/// Whether a line is a hook of a network that names a source address.
pub open spec fn names_source(line: Seq<char>, name: Seq<char>) -> bool {
    occurs(line, "dockerwall:"@ + name + ":output-hook"@) && rule_source(line) is Some
}

/// A network has the source address of the first of its hooks that names one, whatever other
/// lines there are.
pub proof fn the_first_hook_decides(rules: Seq<Seq<char>>, name: Seq<char>, k: int)
    requires
        0 <= k < rules.len(),
        names_source(rules[k], name),
        forall|j: int| 0 <= j < k ==> !names_source(#[trigger] rules[j], name),
    ensures
        hooked_source(rules, name) == rule_source(rules[k]),
    decreases k,
{
    if k > 0 {
        assert(!names_source(rules[0], name));
        let later = rules.skip(1);
        assert forall|j: int| 0 <= j < k - 1 implies !names_source(#[trigger] later[j], name) by {
            assert(later[j] == rules[j + 1]);
        }
        assert(later[k - 1] == rules[k]);
        the_first_hook_decides(later, name, k - 1);
    }
}

/// A network without a hook that names a source address has none.
pub proof fn without_a_hook_there_is_no_source(rules: Seq<Seq<char>>, name: Seq<char>)
    requires
        forall|j: int| 0 <= j < rules.len() ==> !names_source(#[trigger] rules[j], name),
    ensures
        hooked_source(rules, name) is None,
    decreases rules.len(),
{
    if rules.len() > 0 {
        assert(!names_source(rules[0], name));
        let later = rules.skip(1);
        assert forall|j: int| 0 <= j < later.len() implies !names_source(
            #[trigger] later[j],
            name,
        ) by {
            assert(later[j] == rules[j + 1]);
        }
        without_a_hook_there_is_no_source(later, name);
    }
}

/// A rule names a source address if and only if the word after its first `-s` is that address
/// and `/32`.
pub proof fn rules_name_the_source_after_the_option(rule: Seq<char>, i: int, ip: Ipv4Addr)
    requires
        0 <= i < words_of(rule, true).len(),
        words_of(rule, true)[i] == "-s"@,
        forall|j: int| 0 <= j < i ==> #[trigger] words_of(rule, true)[j] != "-s"@,
    ensures
        rule_source(rule) == Some(ip) <==> i + 1 < words_of(rule, true).len() && words_of(
            rule,
            true,
        )[i + 1] == ip.text() + "/32"@,
{
    let w = words_of(rule, true);
    lemma_index_of_text(w, "-s"@);
    let n = index_of_text(w, "-s"@);
    if n < i {
        assert(w[n] != "-s"@);
    } else if i < n {
        assert(w[i] != "-s"@);
    }
    reveal_strlit("/32");
    if i + 1 < w.len() {
        let x = w[i + 1];
        if ends(x, "/32"@) {
            let front = x.take(x.len() - 3);
            assert(x =~= front + "/32"@);
            ipv4_addresses_have_one_text(front, ip);
            if x == ip.text() + "/32"@ {
                assert(front =~= ip.text());
            }
        }
        if x == ip.text() + "/32"@ {
            assert(x.skip(x.len() - 3) =~= "/32"@);
        }
    }
}

/// The names that are accepted, by the numbers of their characters.
pub proof fn interface_names_by_number(s: Seq<char>)
    ensures
        valid_interface(s) <==> 0 < s.len() < 16 && forall|i: int|
            0 <= i < s.len() ==> {
                let c = #[trigger] s[i] as int;
                48 <= c <= 57 || 65 <= c <= 90 || 97 <= c <= 122 || c == 45 || c == 46 || c == 95
            },
{
    if valid_interface(s) {
        assert forall|i: int| 0 <= i < s.len() implies {
            let c = #[trigger] s[i] as int;
            48 <= c <= 57 || 65 <= c <= 90 || 97 <= c <= 122 || c == 45 || c == 46 || c == 95
        } by {
            assert(is_interface_char(s[i]));
        }
    }
}

/// An address is taken if and only if it stands in a line with `/32` behind it.
pub proof fn taken_addresses_stand_in_a_line(rules: Seq<Seq<char>>, ip: Ipv4Addr)
    ensures
        taken(rules, ip) <==> exists|i: int|
            0 <= i < rules.len() && occurs(#[trigger] rules[i], ip.text() + "/32"@),
{
    if taken(rules, ip) {
        let i = choose|i: int| 0 <= i < rules.len() && #[trigger] occurs(rules[i], host_cidr(ip));
        assert(occurs(rules[i], ip.text() + "/32"@));
    }
    if exists|i: int| 0 <= i < rules.len() && occurs(#[trigger] rules[i], ip.text() + "/32"@) {
        let i = choose|i: int|
            0 <= i < rules.len() && occurs(#[trigger] rules[i], ip.text() + "/32"@);
        assert(occurs(rules[i], host_cidr(ip)));
    }
}

/// What is hashed for a plan is the name of the network, a byte that ends it, and the number of
/// the attempt in four bytes, the lowest first.
pub proof fn plans_hash_the_name_and_the_attempt(name: Seq<char>, attempt: u32, dns_port: u16)
    ensures
        ({
            let hash = DefaultHasher::spec_finish(
                seq![encode_utf8(name), seq![0xffu8], spec_u32_to_le_bytes(attempt)],
            );
            &&& plan(name, dns_port, attempt).subnet == subnet_text(hash)
            &&& plan(name, dns_port, attempt).gateway == gateway_text(hash)
        }),
{
}

/// Where there is no interface, it is told in these words.
pub proof fn missing_interfaces_are_told_in_words(e: InterfaceError)
    ensures
        e == InterfaceError::InvalidName ==> e.text() == "interface name must be 1-15 ASCII alphanumeric, '.', '_', or '-' characters"@,
        e == InterfaceError::RouteWithoutInterface ==> e.text() == "default route has no interface"@,
        e == InterfaceError::NoDefaultRoute ==> e.text() == "could not determine the default-route interface"@,
{
}

} // verus!
