use llama_switcher::local_api::{
    authorized, refusal, route, status_code, switch_target, ApiOutcome, ApiRoute, SwitchTarget,
};
use llama_switcher::process_manager::Json;

#[test]
fn health_is_public_and_the_rest_needs_the_token() {
    assert_eq!(route("GET", "/health?x", false, false), ApiRoute::Health);
    assert_eq!(route("GET", "/status", false, false), ApiRoute::Unauthorized);
    assert_eq!(route("GET", "/status", true, false), ApiRoute::Status);
    assert_eq!(route("POST", "/status", true, false), ApiRoute::NotFound);
    assert_eq!(route("GET", "/profiles", true, false), ApiRoute::Profiles);
    assert_eq!(route("POST", "/rescan", true, false), ApiRoute::Rescan);
    assert_eq!(route("POST", "/switch", true, false), ApiRoute::Activate);
    assert_eq!(route("POST", "/switch-by-alias", true, false), ApiRoute::SwitchByAlias);
    assert_eq!(route("POST", "/open-dashboard", true, false), ApiRoute::OpenDashboard);
    assert_eq!(route("POST", "/stop", true, true), ApiRoute::BenchmarkBusy);
    assert_eq!(route("GET", "/stop", true, true), ApiRoute::BenchmarkBusy);
    assert_eq!(route("GET", "/status", true, true), ApiRoute::Status);
}

#[test]
fn bearer_token_is_matched_exactly() {
    let h = vec![("authorization".to_string(), "Bearer secret".to_string())];
    assert!(authorized(&h, "secret"));
    assert!(!authorized(&h, "other"));
    let spaced = vec![("Authorization".to_string(), "Bearer secret ".to_string())];
    assert!(!authorized(&spaced, "secret"));
}

#[test]
fn switch_targets_come_from_the_body() {
    let body = Json::Object(vec![("profileId".to_string(), Json::Text("p1".into()))]);
    assert!(matches!(switch_target(ApiRoute::Activate, &body), Some(Ok(SwitchTarget::ProfileId(ref id))) if id == "p1"));
    match switch_target(ApiRoute::SwitchByName, &body) {
        Some(Err(e)) => assert_eq!(e, "Missing 'model' or 'feature'"),
        _ => panic!("expected an error"),
    }
    match switch_target(ApiRoute::SwitchByAlias, &Json::Null) {
        Some(Err(e)) => assert_eq!(e, "Missing 'alias'"),
        _ => panic!("expected an error"),
    }
    assert!(switch_target(ApiRoute::Status, &body).is_none());
}

#[test]
fn refusals_carry_their_status_and_message() {
    let (o, m) = refusal(ApiRoute::Unauthorized).unwrap();
    assert_eq!((status_code(o), m), (401, "Unauthorized"));
    let (o, m) = refusal(ApiRoute::BenchmarkBusy).unwrap();
    assert_eq!(status_code(o), 409);
    assert_eq!(m, "A benchmark is running; server controls are disabled until it finishes.");
    let (o, m) = refusal(ApiRoute::NotFound).unwrap();
    assert_eq!((status_code(o), m), (404, "Not found"));
    assert!(refusal(ApiRoute::Status).is_none());
    assert_eq!(status_code(ApiOutcome::Unresolved), 409);
    assert_eq!(status_code(ApiOutcome::BadRequest), 400);
    assert_eq!(status_code(ApiOutcome::Done), 200);
}
