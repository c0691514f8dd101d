use llama_switcher::security::{
    client_source, gateway_decision, header, is_public_path, purge_expired, register_failure,
    remove_bans, replace_ban, request_path, BanEntry, ClientCheck, GatewayDecision, NetworkAccessMode,
};

fn ok_client() -> Result<ClientCheck, String> {
    Ok(ClientCheck { loopback: false, trusted: false, banned: false })
}

fn status(d: &GatewayDecision) -> u16 {
    match d {
        GatewayDecision::Reject { status, .. } => *status,
        GatewayDecision::InvalidKey => 401,
        GatewayDecision::Forward => 0,
    }
}

#[test]
fn public_paths_and_request_paths() {
    assert!(is_public_path("/health"));
    assert!(is_public_path("/v1/models"));
    assert!(!is_public_path("/v1/chat/completions"));
    assert_eq!(request_path("/v1/models?x=1"), "/v1/models");
    assert_eq!(request_path("/a"), "/a");
}

#[test]
fn headers_are_found_without_case() {
    let h = vec![
        ("Host".to_string(), "x".to_string()),
        ("cf-connecting-ip".to_string(), " 203.0.113.77 ".to_string()),
    ];
    assert_eq!(header(&h, "CF-Connecting-IP").as_deref(), Some("203.0.113.77"));
    assert_eq!(header(&h, "Authorization"), None);
}

#[test]
fn gateway_refuses_in_order() {
    let m = NetworkAccessMode::CloudflareTunnel;
    let d = gateway_decision(false, m, "/health", false, ok_client(), None, None);
    assert_eq!(status(&d), 503);
    let d = gateway_decision(true, NetworkAccessMode::LocalOnly, "/health", true, ok_client(), None, None);
    assert_eq!(status(&d), 403);
    let d = gateway_decision(true, m, "/x", false, Err("Invalid CF-Connecting-IP".into()), None, None);
    match d {
        GatewayDecision::Reject { status, message } => {
            assert_eq!((status, message.as_str()), (400, "Invalid CF-Connecting-IP"))
        }
        _ => panic!("expected a rejection"),
    }
    let d = gateway_decision(true, NetworkAccessMode::WhitelistOnly, "/x", false, ok_client(), None, None);
    assert_eq!(status(&d), 403);
    let banned = Ok(ClientCheck { loopback: true, trusted: true, banned: true });
    let d = gateway_decision(true, m, "/health", false, banned, None, None);
    assert_eq!(status(&d), 403);
}

#[test]
fn api_key_is_checked_off_public_paths() {
    let m = NetworkAccessMode::CloudflareTunnel;
    let d = gateway_decision(true, m, "/v1/chat/completions", true, ok_client(), Some("correct-key"), Some("Bearer wrong-key"));
    assert!(matches!(d, GatewayDecision::InvalidKey));
    let d = gateway_decision(true, m, "/v1/chat/completions", true, ok_client(), Some("correct-key"), Some("Bearer correct-key"));
    assert!(matches!(d, GatewayDecision::Forward));
    let d = gateway_decision(true, m, "/health", true, ok_client(), Some("correct-key"), None);
    assert!(matches!(d, GatewayDecision::Forward));
    let d = gateway_decision(true, m, "/v1/x", true, ok_client(), None, None);
    assert!(matches!(d, GatewayDecision::Forward));
}

#[test]
fn repeated_failures_reach_the_threshold() {
    let (kept, ban) = register_failure(vec![], 1000, 60, 2);
    assert_eq!((kept.clone(), ban), (vec![1000], false));
    let (kept, ban) = register_failure(kept, 1030, 60, 2);
    assert_eq!((kept, ban), (vec![1000, 1030], true));
    let (kept, ban) = register_failure(vec![900, 950], 1000, 60, 3);
    assert_eq!((kept, ban), (vec![950, 1000], false));
    let (_, ban) = register_failure(vec![], 5, 0, 0);
    assert!(ban);
}

fn ban(ip: &str, reason: &str) -> BanEntry {
    BanEntry {
        ip: ip.into(),
        reason: reason.into(),
        failure_count: 0,
        created_at: "t".into(),
        expires_at: None,
        automatic: false,
    }
}

#[test]
fn bans_are_replaced_and_removed_by_address() {
    let bans = vec![ban("1.1.1.1", "a"), ban("2.2.2.2", "b"), ban("1.1.1.1", "c")];
    let r = replace_ban(&bans, ban("1.1.1.1", "new"));
    let got: Vec<(&str, &str)> = r.iter().map(|b| (b.ip.as_str(), b.reason.as_str())).collect();
    assert_eq!(got, vec![("2.2.2.2", "b"), ("1.1.1.1", "new")]);
    assert_eq!(remove_bans(&bans, "2.2.2.2").len(), 2);
}

fn expiring(ip: &str, expires_at: Option<&str>) -> BanEntry {
    BanEntry {
        ip: ip.to_string(),
        reason: "r".to_string(),
        failure_count: 1,
        created_at: "2024-01-01T00:00:00Z".to_string(),
        expires_at: expires_at.map(str::to_string),
        automatic: true,
    }
}

#[test]
fn expired_bans_are_purged() {
    // 2024-01-01T00:00:00Z is 1704067200 seconds after the epoch.
    let bans = vec![
        expiring("1.1.1.1", Some("2024-01-01T00:00:00Z")),
        expiring("2.2.2.2", Some("2024-01-01T00:00:00.5Z")),
        expiring("3.3.3.3", None),
        expiring("4.4.4.4", Some("not a time")),
        expiring("5.5.5.5", Some("2024-01-01T01:00:00+02:00")),
        expiring("6.6.6.6", Some("2024-01-01T02:00:00+01:00")),
    ];
    let kept: Vec<String> = purge_expired(&bans, 1_704_067_200, 0).into_iter().map(|b| b.ip).collect();
    assert_eq!(kept, vec!["2.2.2.2", "3.3.3.3", "4.4.4.4", "6.6.6.6"]);
    let later: Vec<String> = purge_expired(&bans, 1_704_067_200, 600_000_000).into_iter().map(|b| b.ip).collect();
    assert_eq!(later, vec!["3.3.3.3", "4.4.4.4", "6.6.6.6"]);
}

#[test]
fn client_address_comes_from_the_tunnel_header_only_behind_loopback() {
    let h = vec![("cf-connecting-ip".to_string(), " 203.0.113.77 ".to_string())];
    let bad = vec![("CF-Connecting-IP".to_string(), "nope".to_string())];
    assert_eq!(client_source(NetworkAccessMode::CloudflareTunnel, true, &h), Ok(Some("203.0.113.77".to_string())));
    assert_eq!(client_source(NetworkAccessMode::WhitelistOnly, true, &h), Ok(Some("203.0.113.77".to_string())));
    assert_eq!(client_source(NetworkAccessMode::CloudflareTunnel, false, &h), Ok(None));
    assert_eq!(client_source(NetworkAccessMode::DirectInternet, true, &h), Ok(None));
    assert_eq!(client_source(NetworkAccessMode::LocalOnly, true, &h), Ok(None));
    assert_eq!(client_source(NetworkAccessMode::CloudflareTunnel, true, &[]), Ok(None));
    assert_eq!(
        client_source(NetworkAccessMode::CloudflareTunnel, true, &bad),
        Err("Invalid CF-Connecting-IP".to_string())
    );
}
