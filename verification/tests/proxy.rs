use dockerwall::addr::{IpAddr, Ipv4Addr, Ipv6Addr};
use dockerwall::proxy::{
    admission, collect_resolved_ips, inspect_response, packet_ends, reply_route, resolution_of,
    Admission, DnsMessage, Endpoint, PacketError, Record, ReplyRoute, MAX_CONCURRENT_GLOBAL,
    MAX_CONCURRENT_PER_IP,
};

fn v4(a: u8, b: u8, c: u8, d: u8) -> IpAddr {
    IpAddr::V4(Ipv4Addr::new(a, b, c, d))
}

/// A response for `WWW.Example.com` with a CNAME, an A and an AAAA record.
fn response() -> Vec<u8> {
    let mut bytes = vec![
        0x12, 0x34, 0x81, 0x80, 0, 1, 0, 3, 0, 0, 0, 0, // header: one question, three answers
        3, b'W', b'W', b'W', 7, b'E', b'x', b'a', b'm', b'p', b'l', b'e', 3, b'c', b'o', b'm', 0,
        0, 1, 0, 1, // A, IN
    ];
    bytes.extend([0xc0, 12, 0, 5, 0, 1, 0, 0, 0, 60, 0, 2, 0xc0, 16]);
    bytes.extend([0xc0, 16, 0, 1, 0, 1, 0, 0, 0, 60, 0, 4, 93, 184, 216, 34]);
    bytes.extend([0xc0, 16, 0, 28, 0, 1, 0, 0, 0, 60, 0, 16]);
    bytes.extend([0x20, 0x01, 0x0d, 0xb8, 0, 0, 0, 0, 0, 0, 0, 0, 0, 0, 0, 0x22]);
    bytes
}

#[test]
fn a_response_tells_domains_and_addresses() {
    let resolution = inspect_response(&response()).unwrap();
    assert_eq!(resolution.domains, ["www.example.com"]);
    assert_eq!(
        resolution.ips,
        [
            v4(93, 184, 216, 34),
            IpAddr::V6(Ipv6Addr { bits: 0x2001_0db8_0000_0000_0000_0000_0000_0022 }),
        ]
    );
}

#[test]
fn bytes_that_are_no_message_tell_nothing() {
    assert!(inspect_response(&[]).is_none());
    assert!(inspect_response(&[0; 11]).is_none());
    let whole = response();
    for n in [12, 20, 33, 40, whole.len() - 1] {
        assert!(inspect_response(&whole[..n]).is_none(), "{n}");
    }
    let empty = inspect_response(&[0; 12]).unwrap();
    assert!(empty.domains.is_empty() && empty.ips.is_empty());
}

#[test]
fn a_message_is_read_in_order() {
    let a = Ipv4Addr::new(1, 2, 3, 4);
    let b = Ipv6Addr { bits: 7 };
    let message = DnsMessage {
        queries: vec!["A.Example.COM.".to_string(), "b.org".to_string(), ".".to_string()],
        answers: vec![Record::Aaaa(b), Record::Other, Record::A(a), Record::A(a)],
    };
    assert_eq!(
        collect_resolved_ips(&message),
        [IpAddr::V6(b), IpAddr::V4(a), IpAddr::V4(a)]
    );
    let resolution = resolution_of(&message);
    assert_eq!(resolution.domains, ["a.example.com", "b.org", ""]);
    assert_eq!(resolution.ips, collect_resolved_ips(&message));
}

#[test]
fn packets_are_admitted_by_sender_and_load() {
    assert_eq!(admission(v4(10, 0, 0, 1), 1), Admission::Forward);
    assert_eq!(admission(v4(10, 0, 0, 1), 0), Admission::Overload);
    assert_eq!(admission(v4(8, 8, 8, 8), 1), Admission::NotLocal);
    assert_eq!(admission(v4(8, 8, 8, 8), 0), Admission::NotLocal);
    assert_eq!(MAX_CONCURRENT_PER_IP, 32);
    assert_eq!(MAX_CONCURRENT_GLOBAL, 10000);
}

#[test]
fn packets_without_ends_are_refused() {
    let source = Endpoint { ip: v4(10, 0, 0, 1), port: 4000 };
    let own = Ipv4Addr::new(10, 0, 0, 254);
    assert_eq!(packet_ends(false, Some(source), Some(own)), Ok((source, own)));
    assert_eq!(packet_ends(true, Some(source), Some(own)), Err(PacketError::Truncated));
    assert_eq!(packet_ends(true, None, None), Err(PacketError::Truncated));
    assert_eq!(packet_ends(false, None, Some(own)), Err(PacketError::NoSource));
    assert_eq!(packet_ends(false, None, None), Err(PacketError::NoSource));
    assert_eq!(packet_ends(false, Some(source), None), Err(PacketError::NoDestination));
    assert_eq!(PacketError::Truncated.message(), "truncated DNS packet");
    assert_eq!(PacketError::NoSource.message(), "DNS packet has no source address");
    assert_eq!(PacketError::NoDestination.message(), "DNS packet has no destination address");
}

#[test]
fn replies_come_from_the_address_that_was_asked() {
    let own = Ipv4Addr::new(10, 0, 0, 254);
    let client = Endpoint { ip: v4(10, 0, 0, 1), port: 4000 };
    let client6 = Endpoint { ip: IpAddr::V6(Ipv6Addr { bits: 1 }), port: 4000 };
    assert_eq!(reply_route(None, client), ReplyRoute::Plain);
    assert_eq!(reply_route(None, client6), ReplyRoute::Plain);
    assert_eq!(
        reply_route(Some(own), client),
        ReplyRoute::From { source: own, client: Ipv4Addr::new(10, 0, 0, 1), port: 4000 }
    );
    assert_eq!(reply_route(Some(own), client6), ReplyRoute::FamilyMismatch);
}
