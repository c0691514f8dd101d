use llama_switcher::script_scanner::{
    match_stem, parse_pattern, scan_entries, short_hash, ScanResult, ScriptFile,
};
use llama_switcher::settings::Settings;

fn file(name: &str) -> ScriptFile {
    ScriptFile {
        path: format!("D:\\llama\\{name}"),
        file_name: name.to_string(),
    }
}

fn settings() -> Settings {
    let mut s = Settings::default();
    s.scripts_folder = "D:\\llama".into();
    s
}

#[test]
fn pattern_splits_around_placeholders() {
    let p = parse_pattern("start - {model} - {feature}").unwrap();
    assert_eq!(p.before, "start - ");
    assert_eq!(p.between, " - ");
    assert_eq!(p.after, "");
    assert!(parse_pattern("{feature} then {model}").is_none());
    assert!(parse_pattern("start - {model}").is_none());
    let q = parse_pattern("{model}{feature}.run").unwrap();
    assert_eq!((q.before.as_str(), q.between.as_str(), q.after.as_str()), ("", "", ".run"));
}

#[test]
fn stems_yield_model_and_feature() {
    let p = parse_pattern("start - {model} - {feature}").unwrap();
    assert_eq!(
        match_stem("start - qwen-27B - MTP", &p),
        Some(("qwen-27B".to_string(), "MTP".to_string()))
    );
    assert_eq!(match_stem("begin - qwen - MTP", &p), None);
    assert_eq!(match_stem("start - qwen", &p), None);
    assert_eq!(match_stem("start -  - MTP", &p), None);
    let touching = parse_pattern("{model}{feature}").unwrap();
    assert_eq!(
        match_stem("llama - Vision", &touching),
        Some(("llama".to_string(), "Vision".to_string()))
    );
}

#[test]
fn short_hash_is_six_hex_digits_of_fnv() {
    // FNV-1a of the empty text is the offset basis 0xcbf29ce484222325.
    assert_eq!(short_hash(""), "222325");
    let h = short_hash("D:\\llama\\a.cmd");
    assert_eq!(h.len(), 6);
    assert!(h.chars().all(|c| c.is_ascii_hexdigit() && !c.is_ascii_uppercase()));
}

#[test]
fn scan_builds_sorted_profiles_and_ignores_the_rest() {
    let files = vec![
        file("start - qwen-9B - MTP.cmd"),
        file("readme.txt"),
        file("start - llama-70B - vision.PS1"),
        file("other.bat"),
        file("start - qwen-27B - CPU.bat"),
    ];
    let result = scan_entries(&settings(), Ok(files));
    let aliases: Vec<&str> = result.profiles.iter().map(|p| p.alias.as_str()).collect();
    assert_eq!(aliases, vec!["Llama-70B Vision", "Qwen-27B CPU", "Qwen-9B MTP"]);
    let first = &result.profiles[0];
    assert_eq!(first.id, "llama-70b__vision");
    assert_eq!(first.extension, ".ps1");
    assert_eq!(first.working_directory, "D:\\llama");
    assert_eq!(first.script_path, "D:\\llama\\start - llama-70B - vision.PS1");
    assert_eq!(first.display_name, first.alias);
    let ignored: Vec<(&str, &str)> = result
        .ignored_files
        .iter()
        .map(|f| (f.filename.as_str(), f.reason.as_str()))
        .collect();
    assert_eq!(
        ignored,
        vec![
            ("readme.txt", "Unsupported extension"),
            ("other.bat", "Does not match naming pattern"),
        ]
    );
}

#[test]
fn duplicate_ids_get_a_path_hash() {
    let files = vec![file("start - qwen - MTP.cmd"), file("start - qwen - MTP.bat")];
    let result = scan_entries(&settings(), Ok(files));
    assert_eq!(result.profiles.len(), 2);
    assert_eq!(result.profiles[0].id, "qwen__mtp");
    assert_eq!(
        result.profiles[1].id,
        format!("qwen__mtp-{}", short_hash("D:\\llama\\start - qwen - MTP.bat"))
    );
}

#[test]
fn scan_reports_bad_pattern_and_unreadable_folder() {
    let mut s = settings();
    s.scan_pattern = "no placeholders".into();
    let r = scan_entries(&s, Ok(vec![file("start - a - b.cmd")]));
    assert!(r.profiles.is_empty());
    assert_eq!(r.ignored_files.len(), 1);
    assert_eq!(r.ignored_files[0].filename, "no placeholders");
    assert_eq!(r.ignored_files[0].reason, "Invalid scan pattern (need {model} and {feature})");
    let r = scan_entries(&settings(), Err("access denied".into()));
    assert_eq!(r.ignored_files[0].filename, "D:\\llama");
    assert_eq!(r.ignored_files[0].reason, "Cannot read scripts folder: access denied");
}

#[test]
fn default_scan_is_empty() {
    let r = ScanResult::default();
    assert!(r.profiles.is_empty() && r.ignored_files.is_empty());
}

#[test]
fn documented_examples_become_these_aliases() {
    let files = vec![
        file("start - qwen-27B - MTP.cmd"),
        file("start - qwen-27B - Vision.cmd"),
        file("start - qwen-4B - Vision.cmd"),
        file("start - llama-70B - Standard.cmd"),
        file("start - mistral-7B - CPU.cmd"),
    ];
    let result = scan_entries(&settings(), Ok(files));
    let aliases: Vec<&str> = result.profiles.iter().map(|p| p.alias.as_str()).collect();
    assert_eq!(
        aliases,
        vec![
            "Llama-70B Standard",
            "Mistral-7B CPU",
            "Qwen-27B MTP",
            "Qwen-27B Vision",
            "Qwen-4B Vision",
        ]
    );
    assert!(result.ignored_files.is_empty());
}
