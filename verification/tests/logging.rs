use llama_switcher::logging::{
    is_log_file, latest_log_path, log_line, newest_first, old_log_paths, run_log_header, run_log_name,
    LogEntry,
};
use llama_switcher::script_scanner::Profile;

fn entry(name: &str, modified: &str) -> LogEntry {
    LogEntry {
        filename: name.into(),
        path: format!("/logs/{name}"),
        modified_at: modified.into(),
        size_bytes: 1,
    }
}

#[test]
fn logs_are_listed_newest_first() {
    let logs = vec![
        entry("a.log", "2024-01-02 10:00:00"),
        entry("b.log", "2024-03-01 09:00:00"),
        entry("c.log", "2024-01-02 10:00:00"),
        entry("d.log", ""),
    ];
    let names: Vec<String> = newest_first(logs).into_iter().map(|e| e.filename).collect();
    assert_eq!(names, vec!["b.log", "a.log", "c.log", "d.log"]);
}

#[test]
fn latest_and_old_logs() {
    let logs = || vec![entry("a.log", "2024-01-01 00:00:00"), entry("b.log", "2024-02-01 00:00:00")];
    assert_eq!(latest_log_path(logs()).as_deref(), Some("/logs/b.log"));
    assert_eq!(latest_log_path(vec![]), None);
    assert_eq!(old_log_paths(logs()), vec!["/logs/a.log".to_string()]);
    assert!(old_log_paths(vec![]).is_empty());
}

#[test]
fn only_log_extension_counts() {
    assert!(is_log_file("run.log"));
    assert!(!is_log_file("run.LOG"));
    assert!(!is_log_file(".log"));
    assert!(!is_log_file("log"));
    assert!(!is_log_file("run.log.txt"));
}

#[test]
fn run_log_text() {
    assert_eq!(run_log_name("qwen__mtp", "2024-01-02-030405"), "qwen__mtp-2024-01-02-030405.log");
    assert_eq!(log_line("12:00:01", "Stop requested."), "[12:00:01] Stop requested.");
    let p = Profile {
        id: "id1".into(),
        raw_model: "m".into(),
        raw_feature: "f".into(),
        pretty_model: "M".into(),
        pretty_feature: "F".into(),
        alias: "M F".into(),
        display_name: "M F".into(),
        script_path: "s.cmd".into(),
        working_directory: "w".into(),
        extension: ".cmd".into(),
    };
    let h = run_log_header(&p, "2024-01-02T03:04:05", Some(77));
    assert!(h.starts_with("==== Llama Switcher run log ====\nalias:            M F\n"));
    assert!(h.contains("pid:              77\n"));
    assert!(h.ends_with("================================\n---- process output ----\n"));
    assert!(!run_log_header(&p, "t", None).contains("pid:"));
}
