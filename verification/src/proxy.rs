//! The DNS proxy: what it takes from a DNS response, and which packets it serves.

use hickory_proto::op::Message;
use hickory_proto::rr::RData;
use vstd::prelude::*;

use crate::addr::{is_local_ip, local, IpAddr, Ipv4Addr, Ipv6Addr};
use crate::state::{normalize_domain, normalized};
use crate::text::texts;

verus! {

// ---------------------------------------------------------------------------
// Responses

/// The data of a record in the answer section of a DNS message.
#[derive(Clone, Copy, Debug, PartialEq, Eq, Structural)]
pub enum Record {
    /// An IPv4 address.
    A(Ipv4Addr),
    /// An IPv6 address.
    Aaaa(Ipv6Addr),
    /// Anything else.
    Other,
}

/// What the proxy reads of a DNS message.
#[derive(Debug)]
pub struct DnsMessage {
    /// The names in the question section.
    pub queries: Vec<String>,
    /// The data in the answer section.
    pub answers: Vec<Record>,
}

/// The names in the question section and the data in the answer section of the DNS message
/// that `bytes` encode, as the crate hickory-proto reads them: `Message::from_vec` decodes the
/// message, and `Name::to_utf8` gives a name its text. `None` where the bytes are no message.
pub uninterp spec fn decoded(bytes: Seq<u8>) -> Option<(Seq<Seq<char>>, Seq<Record>)>;

/// `Message::from_vec` of hickory-proto, with the names of its `queries` by `Name::to_utf8`,
/// and of its `answers` the addresses in the A and AAAA records. The result depends on the
/// bytes alone; [`decoded`] names it. Which bytes are a message, and what it says, is left to
/// the crate.
#[verifier::external_body]
fn decode_message(bytes: &[u8]) -> (r: Option<DnsMessage>)
    ensures
        match r {
            Some(message) => decoded(bytes@) == Some((texts(message.queries@), message.answers@)),
            None => decoded(bytes@) is None,
        },
{
    let message = Message::from_vec(bytes).ok()?;
    let queries = message.queries.iter().map(|query| query.name().to_utf8()).collect();
    let answers = message.answers.iter().map(|answer| match &answer.data {
        RData::A(a) => Record::A(Ipv4Addr { bits: u32::from(a.0) }),
        RData::AAAA(a) => Record::Aaaa(Ipv6Addr { bits: u128::from(a.0) }),
        _ => Record::Other,
    }).collect();
    Some(DnsMessage { queries, answers })
}

/// The addresses in the answers.
pub open spec fn addresses(answers: Seq<Record>) -> Seq<IpAddr>
    decreases answers.len(),
{
    if answers.len() == 0 {
        seq![]
    } else {
        let front = addresses(answers.drop_last());
        match answers.last() {
            Record::A(a) => front.push(IpAddr::V4(a)),
            Record::Aaaa(a) => front.push(IpAddr::V6(a)),
            Record::Other => front,
        }
    }
}

/// The normalized names of the domains that were asked for.
pub open spec fn domains_of(queries: Seq<Seq<char>>) -> Seq<Seq<char>> {
    queries.map_values(|name: Seq<char>| normalized(name))
}

/// The domains that a response speaks of, and the addresses that it gives.
#[derive(Debug)]
pub struct Resolution {
    pub domains: Vec<String>,
    pub ips: Vec<IpAddr>,
}

/// The addresses in the answers of a message.
pub fn collect_resolved_ips(message: &DnsMessage) -> (r: Vec<IpAddr>)
    ensures
        r@ == addresses(message.answers@),
{
    let mut ips: Vec<IpAddr> = Vec::new();
    let mut i: usize = 0;
    assert(message.answers@.take(0) =~= seq![]);
    while i < message.answers.len()
        invariant
            i <= message.answers.len(),
            ips@ == addresses(message.answers@.take(i as int)),
        decreases message.answers.len() - i,
    {
        assert(message.answers@.take(i + 1).drop_last() =~= message.answers@.take(i as int));
        match message.answers[i] {
            Record::A(a) => ips.push(IpAddr::V4(a)),
            Record::Aaaa(a) => ips.push(IpAddr::V6(a)),
            Record::Other => {},
        }
        i = i + 1;
    }
    assert(message.answers@.take(i as int) =~= message.answers@);
    ips
}

/// The domains that a message speaks of, and the addresses that it gives.
pub fn resolution_of(message: &DnsMessage) -> (r: Resolution)
    ensures
        texts(r.domains@) == domains_of(texts(message.queries@)),
        r.ips@ == addresses(message.answers@),
{
    let mut domains: Vec<String> = Vec::new();
    let mut i: usize = 0;
    while i < message.queries.len()
        invariant
            i <= message.queries.len(),
            domains.len() == i,
            forall|j: int|
                0 <= j < i ==> (#[trigger] domains@[j])@ == normalized(message.queries@[j]@),
        decreases message.queries.len() - i,
    {
        domains.push(normalize_domain(message.queries[i].as_str()));
        i = i + 1;
    }
    assert(texts(domains@) =~= domains_of(texts(message.queries@)));
    Resolution { domains, ips: collect_resolved_ips(message) }
}

/// The domains that a response speaks of, and the addresses that it gives. `None` where the
/// bytes are no DNS message.
pub fn inspect_response(response: &[u8]) -> (r: Option<Resolution>)
    ensures
        match r {
            Some(resolution) => {
                &&& decoded(response@) is Some
                &&& texts(resolution.domains@) == domains_of((decoded(response@)->0).0)
                &&& resolution.ips@ == addresses((decoded(response@)->0).1)
            },
            None => decoded(response@) is None,
        },
{
    match decode_message(response) {
        Some(message) => Some(resolution_of(&message)),
        None => None,
    }
}

// ---------------------------------------------------------------------------
// Packets

/// How many queries of one client are forwarded at a time.
pub const MAX_CONCURRENT_PER_IP: usize = 32;

/// How many queries are forwarded at a time.
pub const MAX_CONCURRENT_GLOBAL: usize = 10000;

/// What the proxy does with a packet.
#[derive(Clone, Copy, Debug, PartialEq, Eq, Structural)]
pub enum Admission {
    /// It forwards the query.
    Forward,
    /// It drops the packet: the sender is not local.
    NotLocal,
    /// It drops the packet: too many queries are on their way.
    Overload,
}

/// What the proxy does with a packet from `client`. `free` is how many more queries may be on
/// their way.
pub open spec fn admitted(client: IpAddr, free: nat) -> Admission {
    if !local(client) {
        Admission::NotLocal
    } else if free == 0 {
        Admission::Overload
    } else {
        Admission::Forward
    }
}

/// What the proxy does with a packet from `client`. `free` is how many more queries may be on
/// their way.
pub fn admission(client: IpAddr, free: usize) -> (r: Admission)
    ensures
        r == admitted(client, free as nat),
        r == if !local(client) {
            Admission::NotLocal
        } else if free == 0 {
            Admission::Overload
        } else {
            Admission::Forward
        },
{
    if !is_local_ip(client) {
        Admission::NotLocal
    } else if free == 0 {
        Admission::Overload
    } else {
        Admission::Forward
    }
}

/// Why a received packet is no query.
#[derive(Clone, Copy, Debug, PartialEq, Eq, Structural)]
pub enum PacketError {
    /// It is longer than the buffer.
    Truncated,
    /// It names no sender.
    NoSource,
    /// It names no address that it was sent to.
    NoDestination,
}

impl PacketError {
    /// The error in words.
    pub open spec fn text(self) -> Seq<char> {
        match self {
            PacketError::Truncated => "truncated DNS packet"@,
            PacketError::NoSource => "DNS packet has no source address"@,
            PacketError::NoDestination => "DNS packet has no destination address"@,
        }
    }

    /// The error in words.
    pub fn message(&self) -> (r: String)
        ensures
            r@ == self.text(),
    {
        match self {
            PacketError::Truncated => "truncated DNS packet".to_owned(),
            PacketError::NoSource => "DNS packet has no source address".to_owned(),
            PacketError::NoDestination => "DNS packet has no destination address".to_owned(),
        }
    }
}

/// The sender of a packet: an address and a port.
#[derive(Clone, Copy, Debug, PartialEq, Eq, Structural)]
pub struct Endpoint {
    pub ip: IpAddr,
    pub port: u16,
}

/// Where a packet came from and which address it was sent to, which is where the reply has to
/// come from. A packet without one of them, or of which a part was lost, is refused.
pub open spec fn ends_of_packet(
    truncated: bool,
    source: Option<Endpoint>,
    destination: Option<Ipv4Addr>,
) -> Result<(Endpoint, Ipv4Addr), PacketError> {
    if truncated {
        Err(PacketError::Truncated)
    } else {
        match (source, destination) {
            (None, _) => Err(PacketError::NoSource),
            (Some(_), None) => Err(PacketError::NoDestination),
            (Some(from), Some(to)) => Ok((from, to)),
        }
    }
}

/// Where a packet came from and which address it was sent to, which is where the reply has to
/// come from. A packet without one of them, or of which a part was lost, is refused.
pub fn packet_ends(truncated: bool, source: Option<Endpoint>, destination: Option<Ipv4Addr>) -> (r:
    Result<(Endpoint, Ipv4Addr), PacketError>)
    ensures
        r == ends_of_packet(truncated, source, destination),
        r == if truncated {
            Err(PacketError::Truncated)
        } else if source is None {
            Err(PacketError::NoSource)
        } else if destination is None {
            Err(PacketError::NoDestination)
        } else {
            Ok((source->0, destination->0))
        },
{
    if truncated {
        return Err(PacketError::Truncated);
    }
    match (source, destination) {
        (None, _) => Err(PacketError::NoSource),
        (Some(_), None) => Err(PacketError::NoDestination),
        (Some(source), Some(destination)) => Ok((source, destination)),
    }
}

/// How a response is sent.
#[derive(Clone, Copy, Debug, PartialEq, Eq, Structural)]
pub enum ReplyRoute {
    /// From whichever address the system picks.
    Plain,
    /// From this address, to this IPv4 client.
    From { source: Ipv4Addr, client: Ipv4Addr, port: u16 },
    /// Not at all: an IPv6 client cannot be answered from an IPv4 address.
    FamilyMismatch,
}

/// How a response is sent to `client`, where the query had been sent to `reply_source`.
pub open spec fn route_of_reply(reply_source: Option<Ipv4Addr>, client: Endpoint) -> ReplyRoute {
    match (reply_source, client.ip) {
        (None, _) => ReplyRoute::Plain,
        (Some(source), IpAddr::V4(ip)) => ReplyRoute::From { source, client: ip, port: client.port },
        (Some(_), IpAddr::V6(_)) => ReplyRoute::FamilyMismatch,
    }
}

/// How a response is sent to `client`, where the query had been sent to `reply_source`.
pub fn reply_route(reply_source: Option<Ipv4Addr>, client: Endpoint) -> (r: ReplyRoute)
    ensures
        r == route_of_reply(reply_source, client),
        r == match (reply_source, client.ip) {
            (None, _) => ReplyRoute::Plain,
            (Some(source), IpAddr::V4(ip)) => ReplyRoute::From {
                source,
                client: ip,
                port: client.port,
            },
            (Some(_), IpAddr::V6(_)) => ReplyRoute::FamilyMismatch,
        },
{
    match (reply_source, client.ip) {
        (None, _) => ReplyRoute::Plain,
        (Some(source), IpAddr::V4(ip)) => ReplyRoute::From { source, client: ip, port: client.port },
        (Some(_), IpAddr::V6(_)) => ReplyRoute::FamilyMismatch,
    }
}

// ---------------------------------------------------------------------------
// Laws

/// The address that a record gives; `None` where it gives none.
pub open spec fn given(record: Record) -> Option<IpAddr> {
    match record {
        Record::A(a) => Some(IpAddr::V4(a)),
        Record::Aaaa(a) => Some(IpAddr::V6(a)),
        Record::Other => None,
    }
}

/// What the answers give is what the first ones give, and then what the others give.
pub proof fn addresses_follow_the_answers(first: Seq<Record>, second: Seq<Record>)
    ensures
        addresses(first + second) == addresses(first) + addresses(second),
    decreases second.len(),
{
    if second.len() == 0 {
        assert(first + second =~= first);
        assert(addresses(first) + addresses(second) =~= addresses(first));
    } else {
        addresses_follow_the_answers(first, second.drop_last());
        assert((first + second).drop_last() =~= first + second.drop_last());
        assert(addresses(first + second) =~= addresses(first) + addresses(second));
    }
}

/// Every A and AAAA record among the answers gives its address, and nothing else does: one
/// address for each of these records, and those records' addresses alone.
pub proof fn every_address_record_gives_its_address(answers: Seq<Record>, ip: IpAddr)
    ensures
        addresses(answers).contains(ip) <==> exists|i: int|
            0 <= i < answers.len() && (#[trigger] answers[i] == match ip {
                IpAddr::V4(a) => Record::A(a),
                IpAddr::V6(a) => Record::Aaaa(a),
            }),
        addresses(answers).len() == answers.filter(
            |record: Record| record is A || record is Aaaa,
        ).len(),
    decreases answers.len(),
{
    reveal(Seq::filter);
    let wanted = match ip {
        IpAddr::V4(a) => Record::A(a),
        IpAddr::V6(a) => Record::Aaaa(a),
    };
    if answers.len() > 0 {
        let front = answers.drop_last();
        let last = answers[answers.len() - 1];
        let (all, before) = (addresses(answers), addresses(front));
        every_address_record_gives_its_address(front, ip);
        if all.contains(ip) {
            let k = choose|k: int| 0 <= k < all.len() && all[k] == ip;
            if k < before.len() {
                assert(before[k] == ip);
                let i = choose|i: int| 0 <= i < front.len() && front[i] == wanted;
                assert(answers[i] == wanted);
            } else {
                assert(last == wanted);
            }
        }
        if exists|i: int| 0 <= i < answers.len() && answers[i] == wanted {
            let i = choose|i: int| 0 <= i < answers.len() && answers[i] == wanted;
            if i < front.len() {
                assert(front[i] == wanted);
                let k = choose|k: int| 0 <= k < before.len() && before[k] == ip;
                assert(all[k] == ip);
            } else {
                assert(all[all.len() - 1] == ip);
            }
        }
    }
}

/// One record gives its own address or none.
pub proof fn a_record_gives_its_own_address(record: Record)
    ensures
        addresses(seq![record]) == match given(record) {
            Some(ip) => seq![ip],
            None => seq![],
        },
{
    assert(seq![record].drop_last() =~= seq![]);
    assert(addresses(seq![]) =~= seq![]);
    assert(addresses(seq![record]) =~= match given(record) {
        Some(ip) => seq![ip],
        None => seq![],
    });
}

/// Every name that was asked for is one of the domains, at its place, without trailing dots and
/// in lower case.
pub proof fn every_question_names_a_domain(queries: Seq<Seq<char>>, i: int)
    requires
        0 <= i < queries.len(),
    ensures
        domains_of(queries).len() == queries.len(),
        domains_of(queries)[i] == normalized(queries[i]),
{
}

/// Only local senders are served, and those as long as a query more may be on its way.
pub proof fn only_local_senders_are_served(client: IpAddr, free: nat)
    ensures
        admitted(client, free) == Admission::Forward <==> local(client) && free > 0,
        admitted(client, free) == Admission::NotLocal <==> !local(client),
        admitted(client, free) == Admission::Overload <==> local(client) && free == 0,
{
}

/// A packet that is whole and names both its ends is taken with just these ends; any other is
/// refused, and the refusal tells what is missing.
pub proof fn whole_packets_are_taken_with_their_ends(
    truncated: bool,
    source: Option<Endpoint>,
    destination: Option<Ipv4Addr>,
)
    ensures
        ({
            let r = ends_of_packet(truncated, source, destination);
            &&& r is Ok <==> !truncated && source is Some && destination is Some
            &&& r matches Ok((from, to)) ==> source == Some(from) && destination == Some(to)
            &&& r matches Err(e) ==> {
                &&& e == PacketError::Truncated <==> truncated
                &&& e == PacketError::NoSource <==> !truncated && source is None
                &&& e == PacketError::NoDestination <==> !truncated && source is Some
                    && destination is None
            }
        }),
{
}

/// A reply goes back to the sender, and comes from the address that the query went to: a packet
/// with IPv4 ends is answered the other way round.
pub proof fn replies_go_back_the_other_way(client: Endpoint, destination: Ipv4Addr)
    ensures
        ends_of_packet(false, Some(client), Some(destination)) matches Ok((from, to)) && match (
            route_of_reply(Some(to), from),
            client.ip,
        ) {
            (ReplyRoute::From { source, client: c, port }, IpAddr::V4(ip)) => {
                &&& source == destination
                &&& c == ip
                &&& port == client.port
            },
            (ReplyRoute::FamilyMismatch, IpAddr::V6(_)) => true,
            _ => false,
        },
        route_of_reply(None, client) is Plain,
{
}

/// Packets are refused in these words.
pub proof fn packets_are_refused_in_words(e: PacketError)
    ensures
        e == PacketError::Truncated ==> e.text() == "truncated DNS packet"@,
        e == PacketError::NoSource ==> e.text() == "DNS packet has no source address"@,
        e == PacketError::NoDestination ==> e.text() == "DNS packet has no destination address"@,
{
}

} // verus!
