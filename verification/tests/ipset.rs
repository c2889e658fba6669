use dockerwall::addr::{IpAddr, Ipv4Addr, Ipv6Addr};
use dockerwall::ipset::{restore_failure_message, restore_payload};

#[test]
fn a_set_is_restored_with_its_ipv4_addresses() {
    let ips = vec![
        IpAddr::V4(Ipv4Addr::new(1, 2, 3, 4)),
        IpAddr::V6(Ipv6Addr { bits: 1 }),
        IpAddr::V4(Ipv4Addr::new(10, 0, 0, 255)),
    ];
    assert_eq!(
        restore_payload("net", &ips),
        "flush net\nadd net 1.2.3.4 -exist\nadd net 10.0.0.255 -exist\n"
    );
    assert_eq!(restore_payload("net", &vec![]), "flush net\n");
}

#[test]
fn failures_to_restore_are_told() {
    assert_eq!(
        restore_failure_message(" out\n", "\tbad \n"),
        "ipset restore failed: bad; stdout: out"
    );
    assert_eq!(restore_failure_message("", ""), "ipset restore failed: ; stdout: ");
}
