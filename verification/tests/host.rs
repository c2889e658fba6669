use dockerwall::record::check_record_response;
use dockerwall::root::{check_effective_uid, check_uid_map, RootError};
use dockerwall::trust::{candidate, is_trusted_binary, judge, FileFacts, Program, Search};
use dockerwall::upstream::{choose_upstream, resolve_upstream_from_resolv_conf};

fn upstream(text: &str) -> Option<String> {
    resolve_upstream_from_resolv_conf(text)
}

#[test]
fn the_first_nameserver_counts() {
    assert_eq!(upstream("nameserver 9.9.9.9\nnameserver 8.8.8.8\n"), Some("9.9.9.9:53".to_string()));
    assert_eq!(upstream("nameserver 2001:db8::1"), Some("[2001:db8::1]:53".to_string()));
    assert_eq!(
        upstream("# nameserver 1.1.1.1\nsearch lan\n  nameserver\t8.8.4.4 extra # remark\n"),
        Some("8.8.4.4:53".to_string())
    );
    assert_eq!(
        upstream("nameserver\nnameserver x\nnameserver fe80::1%eth0\nnameservers 1.2.3.4\nnameserver 1.2.3.4#5\n"),
        Some("1.2.3.4:53".to_string())
    );
    assert_eq!(upstream("nameserver # 1.2.3.4\n"), None);
    assert_eq!(upstream(""), None);
}

#[test]
fn the_upstream_is_chosen() {
    let some = |s: &str| Some(s.to_string());
    assert_eq!(choose_upstream(some("x"), some("nameserver 1.2.3.4")), "x");
    assert_eq!(choose_upstream(None, some("nameserver 1.2.3.4")), "1.2.3.4:53");
    assert_eq!(choose_upstream(None, some("search lan")), "1.1.1.1:53");
    assert_eq!(choose_upstream(None, None), "1.1.1.1:53");
}

#[test]
fn record_streams_are_agreed_on() {
    assert!(check_record_response("OK\n").is_ok());
    assert!(check_record_response("OK \r\n").is_ok());
    assert_eq!(
        check_record_response(" OK\n").unwrap_err(),
        "daemon rejected record stream: OK"
    );
    assert_eq!(
        check_record_response("ERR\tunknown command\n").unwrap_err(),
        "daemon rejected record stream: ERR\tunknown command"
    );
    assert_eq!(check_record_response("").unwrap_err(), "daemon rejected record stream: ");
}

#[test]
fn programs_of_root_are_trusted() {
    let facts = FileFacts { is_file: true, uid: 0, mode: 0o100755 };
    assert!(is_trusted_binary(Some(facts)));
    assert!(!is_trusted_binary(None));
    assert!(!is_trusted_binary(Some(FileFacts { is_file: false, ..facts })));
    assert!(!is_trusted_binary(Some(FileFacts { uid: 1000, ..facts })));
    assert!(!is_trusted_binary(Some(FileFacts { mode: 0o100775, ..facts })));
    assert!(!is_trusted_binary(Some(FileFacts { mode: 0o100757, ..facts })));
    assert!(is_trusted_binary(Some(FileFacts { mode: 0o104755, ..facts })));
}

#[test]
fn the_first_trusted_candidate_is_taken() {
    let good = Some(FileFacts { is_file: true, uid: 0, mode: 0o755 });
    assert_eq!(
        Program::Ipset.candidates(),
        ["/usr/sbin/ipset", "/sbin/ipset", "/usr/bin/ipset"]
    );
    assert_eq!(
        Program::Docker.candidates(),
        ["/usr/bin/docker", "/bin/docker", "/usr/local/bin/docker"]
    );
    assert_eq!(Program::Iptables.candidates(), ["/usr/sbin/iptables", "/sbin/iptables"]);
    assert_eq!(Program::Ip.candidates(), ["/usr/sbin/ip", "/sbin/ip", "/usr/bin/ip"]);
    assert_eq!(candidate(Program::Ip, 2), "/usr/bin/ip");
    assert!(matches!(judge(Program::Iptables, 0, good), Search::Found(path) if path == "/usr/sbin/iptables"));
    assert!(matches!(judge(Program::Iptables, 1, good), Search::Found(path) if path == "/sbin/iptables"));
    assert!(matches!(judge(Program::Iptables, 0, None), Search::Next(1)));
    assert!(matches!(judge(Program::Iptables, 1, None), Search::Missing));
}

#[test]
fn root_of_the_host_is_recognized() {
    let status = "Name:\tx\nUid:\t1000\t0\t0\t0\nGid:\t0\t0\t0\t0\n";
    assert_eq!(check_effective_uid(status), Ok(()));
    assert_eq!(check_effective_uid("Uid:\t0\t1000\t0\t0\n"), Err(RootError::NotRoot));
    assert_eq!(check_effective_uid("Uid:\t0\n"), Err(RootError::UnknownUid));
    assert_eq!(check_effective_uid(" Uid:\t0\t0\n"), Err(RootError::UnknownUid));
    assert_eq!(check_effective_uid("Uid: 0 00\nUid: 0 0\n"), Err(RootError::NotRoot));
    assert_eq!(check_uid_map("         0          0 4294967295\n"), Ok(()));
    assert_eq!(check_uid_map("0 1000 1\n"), Err(RootError::NamespaceRoot));
    assert_eq!(check_uid_map("0\n0 0\n"), Err(RootError::UnknownMapping));
    assert_eq!(check_uid_map(""), Err(RootError::UnknownMapping));
    assert_eq!(RootError::UnknownUid.message(), "could not determine effective UID");
    assert_eq!(RootError::NotRoot.message(), "rootless Podman preparation must run as host root");
    assert_eq!(RootError::UnknownMapping.message(), "could not determine host UID mapping");
    assert_eq!(
        RootError::NamespaceRoot.message(),
        "rootless Podman preparation must run as host root, not a user namespace root"
    );
}
