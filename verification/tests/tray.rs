use llama_switcher::script_scanner::Profile;
use llama_switcher::state::UsageState;
use llama_switcher::tray::{
    icon_color, menu_action, menu_groups, status_text, tray_tooltip, usage_label, MenuAction,
    TrayStatus,
};

fn status(running: bool, healthy: bool, reachable: bool, usage: UsageState) -> TrayStatus {
    TrayStatus {
        running,
        healthy,
        server_reachable: reachable,
        usage_state: usage,
        alias: None,
        current_profile_name: None,
    }
}

#[test]
fn labels_follow_the_server_state() {
    assert_eq!(usage_label(&status(true, true, false, UsageState::Busy)), "Down");
    assert_eq!(usage_label(&status(true, true, true, UsageState::Busy)), "In use");
    assert_eq!(usage_label(&status(true, true, true, UsageState::Free)), "Free");
    assert_eq!(usage_label(&status(true, false, true, UsageState::Unknown)), "Starting");
    assert_eq!(usage_label(&status(false, false, true, UsageState::Unknown)), "Healthy");
}

#[test]
fn tooltip_status_line_and_colour() {
    let mut s = status(true, true, true, UsageState::Free);
    assert_eq!(tray_tooltip(&s), "Llama Switcher - Free");
    assert_eq!(status_text(&s), "Status: Running (Free)");
    s.current_profile_name = Some("Profile".into());
    assert_eq!(tray_tooltip(&s), "Profile - Free");
    s.alias = Some("Qwen-27B MTP".into());
    assert_eq!(tray_tooltip(&s), "Qwen-27B MTP - Free");
    assert_eq!(status_text(&s), "Status: Qwen-27B MTP (Free)");
    assert_eq!(icon_color(&s), (76, 214, 140));
    let external = status(false, false, true, UsageState::Busy);
    assert_eq!(status_text(&external), "Status: External server (In use)");
    assert_eq!(icon_color(&external), (242, 194, 97));
    let down = status(false, false, false, UsageState::Unknown);
    assert_eq!(status_text(&down), "Status: Down");
    assert_eq!(icon_color(&down), (240, 106, 106));
}

fn profile(id: &str, model: &str, feature: &str) -> Profile {
    Profile {
        id: id.into(),
        raw_model: model.into(),
        raw_feature: feature.into(),
        pretty_model: model.into(),
        pretty_feature: feature.into(),
        alias: format!("{model} {feature}"),
        display_name: format!("{model} {feature}"),
        script_path: "s".into(),
        working_directory: "w".into(),
        extension: ".cmd".into(),
    }
}

#[test]
fn menu_groups_profiles_by_model() {
    let ps = vec![
        profile("a", "Qwen", "MTP"),
        profile("b", "Llama", "CPU"),
        profile("c", "Qwen", "Vision"),
    ];
    let groups = menu_groups(&ps);
    assert_eq!(groups.len(), 2);
    assert_eq!(groups[0].0, "Qwen");
    assert_eq!(groups[0].1, vec![("a".to_string(), "MTP".to_string()), ("c".to_string(), "Vision".to_string())]);
    assert_eq!(groups[1].0, "Llama");
    assert!(menu_groups(&[]).is_empty());
}

#[test]
fn menu_items_map_to_actions() {
    assert!(matches!(menu_action("profile::qwen__mtp"), MenuAction::Activate(ref id) if id == "qwen__mtp"));
    assert!(matches!(menu_action("stop"), MenuAction::Stop));
    assert!(matches!(menu_action("settings"), MenuAction::OpenSettings));
    assert!(matches!(menu_action("open_logs"), MenuAction::OpenLogsFolder));
    assert!(matches!(menu_action("nonsense"), MenuAction::Nothing));
}
