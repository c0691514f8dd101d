use llama_switcher::script_scanner::Profile;
use llama_switcher::state::find_profile;

fn profile(id: &str, alias: &str) -> Profile {
    Profile {
        id: id.into(),
        raw_model: "m".into(),
        raw_feature: "f".into(),
        pretty_model: "M".into(),
        pretty_feature: "F".into(),
        alias: alias.into(),
        display_name: alias.into(),
        script_path: "s".into(),
        working_directory: "w".into(),
        extension: ".cmd".into(),
    }
}

#[test]
fn profiles_are_found_by_id() {
    let ps = vec![profile("a", "first"), profile("b", "second"), profile("a", "third")];
    assert_eq!(find_profile(&ps, "a").map(|p| p.alias), Some("first".to_string()));
    assert_eq!(find_profile(&ps, "b").map(|p| p.alias), Some("second".to_string()));
    assert!(find_profile(&ps, "c").is_none());
}
