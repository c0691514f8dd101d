use llama_switcher::trust::{is_trusted, validate_networks};

#[test]
fn validates_ip_networks() {
    assert!(validate_networks(&["192.168.1.0/24".into(), "2001:db8::1".into()]).is_ok());
    assert!(validate_networks(&["not-an-ip".into()]).is_err());
}

#[test]
fn first_invalid_value_is_named() {
    assert_eq!(
        validate_networks(&["10.0.0.1".into(), "bad".into(), "worse".into()]),
        Err("Invalid trusted IP or CIDR: bad".to_string())
    );
}

#[test]
fn trusted_clients_are_loopback_listed_or_inside_a_network() {
    let nets = vec!["192.168.1.0/24".to_string(), "2001:db8::1".to_string(), "junk".to_string()];
    assert!(is_trusted("127.0.0.1", true, &[]));
    assert!(is_trusted("192.168.1.77", false, &nets));
    assert!(is_trusted("2001:db8:0:0:0:0:0:1", false, &nets));
    assert!(!is_trusted("192.168.2.1", false, &nets));
    assert!(!is_trusted("203.0.113.7", false, &[]));
}
