use llama_switcher::settings::Settings;

#[test]
fn default_settings_use_port_8080() {
    let s = Settings::default();
    assert_eq!(s.server_port, 8080);
    assert_eq!(s.health_url, "http://127.0.0.1:8080/health");
    assert_eq!(s.agent_api_port, 47891);
    assert_eq!(s.agent_api_token.len(), 40);
}
