use dockerwall::control::{
    check_command_response, info_reply_text, parse_port_response, parse_request, ControlError,
    Request, ResponseError, CONTROL_SOCKET_PATH,
};
use dockerwall::manage::{create_payload, remove_payload};
use dockerwall::text::ParseIntError;

fn strings(items: &[&str]) -> Vec<String> {
    items.iter().map(|item| item.to_string()).collect()
}

#[test]
fn requests_stand_in_a_line() {
    assert_eq!(CONTROL_SOCKET_PATH, "/run/dockerwall.sock");
    assert!(matches!(parse_request("STATS\n"), Request::Stats));
    assert!(matches!(parse_request("STATS"), Request::Stats));
    assert!(matches!(parse_request("INFO\n\n"), Request::Info));
    for line in ["", "\n", "stats\n", "STATS \n", "INFO\r\n", "CREATE", "CREATE \ta\tb\tc", "REMOVE\n", "RECORD\n"] {
        assert!(matches!(parse_request(line), Request::Unknown), "{line:?}");
    }
}

#[test]
fn creations_have_three_fields() {
    match parse_request("CREATE\t net \t 10.0.0.0/8\t*.a.com, b.org ,,\tc \n") {
        Request::Create { name, subnet, patterns } => {
            assert_eq!(name, "net");
            assert_eq!(subnet, "10.0.0.0/8");
            assert_eq!(patterns, ["*.a.com", "b.org", "c"]);
        }
        other => panic!("{other:?}"),
    }
    match parse_request("CREATE\tnet\t\t\n") {
        Request::Create { name, subnet, patterns } => {
            assert_eq!(name, "net");
            assert_eq!(subnet, "");
            assert!(patterns.is_empty());
        }
        other => panic!("{other:?}"),
    }
    assert!(matches!(parse_request("CREATE\t\n"), Request::MissingSubnet));
    assert!(matches!(parse_request("CREATE\tnet\n"), Request::MissingSubnet));
    assert!(matches!(parse_request("CREATE\tnet\t10.0.0.0/8\n"), Request::MissingDomains));
    assert!(matches!(parse_request("CREATE\t \t\ta.com\n"), Request::MissingName));
    assert_eq!(ControlError::MissingSubnet.message(), "missing subnet");
    assert_eq!(ControlError::MissingDomains.message(), "missing domains");
}

#[test]
fn removals_have_a_name() {
    match parse_request("REMOVE\t net \n") {
        Request::Remove { name } => assert_eq!(name, "net"),
        other => panic!("{other:?}"),
    }
    assert!(matches!(parse_request("REMOVE\t \n"), Request::MissingName));
}

#[test]
fn payloads_read_back() {
    let domains = strings(&["*.example.com", "a.org"]);
    let payload = create_payload("net", Some("10.0.0.0/8"), &domains);
    assert_eq!(payload, "CREATE\tnet\t10.0.0.0/8\t*.example.com,a.org\n");
    match parse_request(&payload) {
        Request::Create { name, subnet, patterns } => {
            assert_eq!((name.as_str(), subnet.as_str()), ("net", "10.0.0.0/8"));
            assert_eq!(patterns, domains);
        }
        other => panic!("{other:?}"),
    }
    assert_eq!(create_payload("net", None, &strings(&[])), "CREATE\tnet\t\t\n");
    assert_eq!(remove_payload("net"), "REMOVE\tnet\n");
    assert!(matches!(parse_request(&remove_payload("net")), Request::Remove { name } if name == "net"));
}

#[test]
fn responses_to_commands_are_read() {
    assert!(check_command_response("OK\tcreated\n").is_ok());
    assert!(check_command_response("OK\t").is_ok());
    let message = |s: &str| check_command_response(s).unwrap_err().message();
    assert_eq!(message("ERR\tmissing ipset name\n"), "missing ipset name");
    assert_eq!(message("ERR\tx \r\n"), "x");
    assert_eq!(message("OK\n"), "invalid daemon response");
    assert_eq!(message(""), "invalid daemon response");
    assert_eq!(message("ERR\t\n"), "invalid daemon response");
    assert!(matches!(check_command_response("ERR\tx"), Err(ResponseError::Rejected(m)) if m == "x"));
    assert!(matches!(check_command_response("?"), Err(ResponseError::Invalid)));
}

#[test]
fn ports_are_read() {
    assert_eq!(info_reply_text(5353), "OK\t5353\n");
    for port in [0, 53, 65535] {
        assert_eq!(parse_port_response(&info_reply_text(port)).unwrap(), port);
    }
    assert_eq!(parse_port_response("OK\t+53 \r\n").unwrap(), 53);
    let message = |s: &str| parse_port_response(s).unwrap_err().message();
    assert_eq!(message("OK\t65536\n"), "number too large to fit in target type");
    assert_eq!(message("OK\t\n"), "cannot parse integer from empty string");
    assert_eq!(message("OK\t 53\n"), "invalid digit found in string");
    assert_eq!(message("ERR\tno\n"), "no");
    assert_eq!(message("53\n"), "invalid daemon response");
    assert!(matches!(
        parse_port_response("OK\tx"),
        Err(ResponseError::BadPort(ParseIntError::InvalidDigit))
    ));
}
