use llama_switcher::hermes_install::{agent_base_url, copies_entry, skills_dir_choice, upsert_env_value, SkillsDirChoice};

#[test]
fn env_values_are_replaced_or_appended() {
    let mut env = "EXISTING=value\nLLAMA_SWITCHER_API_TOKEN=old\n".to_string();
    upsert_env_value(&mut env, "LLAMA_SWITCHER_BASE_URL", "http://127.0.0.1:1234");
    upsert_env_value(&mut env, "LLAMA_SWITCHER_API_TOKEN", "new-token");
    assert_eq!(
        env,
        "EXISTING=value\nLLAMA_SWITCHER_API_TOKEN=new-token\nLLAMA_SWITCHER_BASE_URL=http://127.0.0.1:1234\n"
    );
    let mut empty = String::new();
    upsert_env_value(&mut empty, "K", "v");
    assert_eq!(empty, "K=v\n");
    let mut indented = "  K=1\nKX=2".to_string();
    upsert_env_value(&mut indented, "K", "3");
    assert_eq!(indented, "K=3\nKX=2\n");
}

#[test]
fn skills_folder_is_used_as_given() {
    assert_eq!(skills_dir_choice(Some("Skills"), true), SkillsDirChoice::AsGiven);
    assert_eq!(skills_dir_choice(Some("tools"), false), SkillsDirChoice::AsGiven);
}

#[test]
fn hermes_home_gets_its_skills_child() {
    assert_eq!(skills_dir_choice(Some(".HERMES"), false), SkillsDirChoice::SkillsChild);
    assert_eq!(skills_dir_choice(Some("profile-a"), true), SkillsDirChoice::SkillsChild);
    assert_eq!(skills_dir_choice(None, true), SkillsDirChoice::SkillsChild);
}

#[test]
fn packages_and_credentials_are_not_copied() {
    assert!(!copies_entry("node_modules"));
    assert!(!copies_entry(".env"));
    assert!(copies_entry("SKILL.md"));
    assert!(copies_entry(".env.example"));
}

#[test]
fn agent_base_url_names_the_port() {
    assert_eq!(agent_base_url(47891), "http://127.0.0.1:47891");
}
