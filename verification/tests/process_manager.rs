use llama_switcher::process_manager::{
    auto_start_profile_id, clean_script_value, health_of, infer_usage_state, is_llama_server_process,
    is_port_free, launch_command, listener_on_port, match_profile_command_lines, non_empty,
    parse_active_gpu_pids, parse_api_key_from_script, parse_compute_apps, parse_env_assignment,
    parse_flag_value, parse_gpu_memory, reconcile_vram_processes, resolve_alias, resolve_api_key,
    resolve_name, restart_has_replacement_listener, server_origin, vram_summary,
    windows_vram_processes, Json, VramProcess,
};
use llama_switcher::script_scanner::Profile;
use llama_switcher::settings::{DefaultProfileMode, Settings};
use llama_switcher::state::UsageState;
use std::collections::HashSet;

fn vram_process(pid: u32, name: &str, used_mib: u64) -> VramProcess {
    VramProcess {
        pid,
        name: name.into(),
        used_mib,
    }
}

#[test]
fn filters_impossible_overlapping_windows_vram_allocations() {
    let processes = vec![
        vram_process(40_120, "llama-server", 23_000),
        vram_process(22_184, "firefox", 20_000),
        vram_process(12_832, "explorer", 80),
    ];

    let reconciled = reconcile_vram_processes(processes, 24_576, Some(11_736));

    assert!(reconciled.iter().any(|process| process.name == "llama-server"));
    assert!(reconciled.iter().any(|process| process.name == "explorer"));
    assert!(!reconciled.iter().any(|process| process.name == "firefox"));
    assert!(reconciled.iter().map(|process| process.used_mib).sum::<u64>() <= 24_576);
}

#[test]
fn retains_multiple_real_allocations_that_fit() {
    let processes = vec![
        vram_process(101, "llama-server", 12_000),
        vram_process(202, "renderer", 10_000),
    ];

    let reconciled = reconcile_vram_processes(processes, 24_576, Some(101));
    assert_eq!(reconciled.len(), 2);
}

#[test]
fn parses_only_live_pids_from_nvidia_pmon() {
    let output = "# gpu pid type fb ccpm command\n\
                     0  42928 C 20480 0 llama-server.exe\n\
                     0  12832 G 112 0 explorer.exe\n";
    let active = parse_active_gpu_pids(output);
    assert!(active.contains(&42_928));
    assert!(active.contains(&12_832));
    assert!(!active.contains(&22_184));
}

#[test]
fn restart_requires_a_new_listener_process() {
    assert!(!restart_has_replacement_listener(Some(9_148), None));
    assert!(!restart_has_replacement_listener(Some(9_148), Some(9_148)));
    assert!(restart_has_replacement_listener(Some(9_148), Some(35_456)));
    assert!(restart_has_replacement_listener(None, Some(35_456)));
}

fn profile(path: &str, id: &str) -> Profile {
    Profile {
        id: id.into(),
        raw_model: "qwen-27B".into(),
        raw_feature: "Vision".into(),
        pretty_model: "Qwen-27B".into(),
        pretty_feature: "Vision".into(),
        alias: "Qwen-27B Vision".into(),
        display_name: "Qwen-27B Vision".into(),
        script_path: path.into(),
        working_directory: r"D:\llama".into(),
        extension: ".cmd".into(),
    }
}

#[test]
fn matches_external_profile_from_parent_command_line() {
    let profiles = vec![
        profile(r"D:\llama\start - qwen-9B - MTP.cmd", "qwen-9b-mtp"),
        profile(
            r"D:\llama\start - qwen-27B - Vision.cmd",
            "qwen-27b-vision",
        ),
    ];
    let lines = vec![
        r#"E:\llama.cpp\llama-server.exe --port 1234"#.to_string(),
        r#""cmd" /C "D:\llama\start - qwen-27B - Vision.cmd""#.to_string(),
    ];

    let matched = match_profile_command_lines(&profiles, &lines).unwrap();
    assert_eq!(matched.id, "qwen-27b-vision");
}

#[test]
fn external_profile_match_is_case_insensitive() {
    let profiles = vec![profile(
        r"D:\llama\start - qwen-27B - Vision.cmd",
        "qwen-27b-vision",
    )];
    let lines = vec![r#"CMD /C "START - QWEN-27B - VISION.CMD""#.to_string()];

    assert!(match_profile_command_lines(&profiles, &lines).is_some());
}

#[test]
fn parses_cmd_llama_api_key_assignment() {
    let script = r#"
        @echo off
        set "LLAMA_API_KEY=sk-test-123"
        llama-server.exe --port 1234
    "#;

    assert_eq!(parse_api_key_from_script(script).as_deref(), Some("sk-test-123"));
}

#[test]
fn parses_api_key_flag_assignment() {
    let script = r#"
        llama-server.exe ^
          --api-key sk-flag-456 ^
          --port 1234
    "#;

    assert_eq!(parse_api_key_from_script(script).as_deref(), Some("sk-flag-456"));
}

fn object(entries: Vec<(&str, Json)>) -> Json {
    Json::Object(entries.into_iter().map(|(k, v)| (k.to_string(), v)).collect())
}

#[test]
fn infers_busy_usage_from_slots_payload() {
    // {"slots": [{"id": 0, "state": "idle"}, {"id": 1, "is_processing": true}]}
    let payload = object(vec![(
        "slots",
        Json::Array(vec![
            object(vec![("id", Json::Number(Some(0))), ("state", Json::Text("idle".into()))]),
            object(vec![("id", Json::Number(Some(1))), ("is_processing", Json::Bool(true))]),
        ]),
    )]);

    assert_eq!(infer_usage_state(&payload), Some(UsageState::Busy));
}

#[test]
fn infers_free_usage_from_slots_payload() {
    // [{"id": 0, "is_processing": false}, {"id": 1, "status": "idle"}]
    let payload = Json::Array(vec![
        object(vec![("id", Json::Number(Some(0))), ("is_processing", Json::Bool(false))]),
        object(vec![("id", Json::Number(Some(1))), ("status", Json::Text("idle".into()))]),
    ]);

    assert_eq!(infer_usage_state(&payload), Some(UsageState::Free));
}

#[test]
fn usage_reads_idle_flags_counts_and_nothing_else() {
    assert_eq!(infer_usage_state(&object(vec![("is_idle", Json::Bool(false))])), Some(UsageState::Busy));
    assert_eq!(infer_usage_state(&object(vec![("idle", Json::Bool(true))])), Some(UsageState::Free));
    assert_eq!(
        infer_usage_state(&object(vec![("n_processing", Json::Number(Some(2)))])),
        Some(UsageState::Busy)
    );
    assert_eq!(
        infer_usage_state(&object(vec![("queued_requests", Json::Number(Some(0)))])),
        Some(UsageState::Free)
    );
    // A status text naming neither state says nothing.
    assert_eq!(infer_usage_state(&object(vec![("state", Json::Text("unknown".into()))])), None);
    assert_eq!(infer_usage_state(&Json::Null), None);
    assert_eq!(infer_usage_state(&Json::Array(vec![])), None);
    // A non-boolean flag is passed over for the next key.
    assert_eq!(
        infer_usage_state(&object(vec![
            ("is_processing", Json::Text("yes".into())),
            ("busy", Json::Bool(false)),
        ])),
        Some(UsageState::Free)
    );
    // Text is matched without case: "Generating" is busy.
    assert_eq!(
        infer_usage_state(&object(vec![("status", Json::Text("Generating".into()))])),
        Some(UsageState::Busy)
    );
}

#[test]
fn env_assignments_in_script_forms() {
    assert_eq!(parse_env_assignment("set LLAMA_API_KEY=abc", "LLAMA_API_KEY").as_deref(), Some("abc"));
    assert_eq!(
        parse_env_assignment(r#"$env:LLAMA_API_KEY = "ps-key""#, "LLAMA_API_KEY").as_deref(),
        Some("ps-key")
    );
    assert_eq!(parse_env_assignment("llama_api_key=x", "LLAMA_API_KEY").as_deref(), Some("x"));
    assert_eq!(parse_env_assignment("OTHER=x", "LLAMA_API_KEY"), None);
    assert_eq!(parse_env_assignment("no assignment", "LLAMA_API_KEY"), None);
    assert_eq!(parse_flag_value("--API-KEY=k1 --port 1", "--api-key").as_deref(), Some("k1 --port 1"));
    assert_eq!(parse_flag_value("--port 1", "--api-key"), None);
    assert_eq!(clean_script_value(r#"  "quoted" ^ "#), "quoted");
}

#[test]
fn script_comments_are_skipped() {
    let script = "rem set LLAMA_API_KEY=no\n# --api-key nope\nset LLAMA_API_KEY=yes\n";
    assert_eq!(parse_api_key_from_script(script).as_deref(), Some("yes"));
    assert_eq!(parse_api_key_from_script("echo hi\n"), None);
}

#[test]
fn api_key_prefers_script_then_settings() {
    assert_eq!(
        resolve_api_key(Some("set LLAMA_API_KEY= sk-1 \n"), Some("fallback")).as_deref(),
        Some("sk-1")
    );
    assert_eq!(resolve_api_key(Some("echo\n"), Some(" fallback ")).as_deref(), Some("fallback"));
    assert_eq!(resolve_api_key(None, Some("   ")), None);
    assert_eq!(resolve_api_key(None, None), None);
    assert_eq!(non_empty(""), None);
    assert_eq!(non_empty("a").as_deref(), Some("a"));
}

#[test]
fn server_origin_from_health_url() {
    assert_eq!(server_origin("http://127.0.0.1:1234/health", 9), "http://127.0.0.1:1234");
    assert_eq!(server_origin("https://host.example", 9), "https://host.example");
    assert_eq!(server_origin("health", 1234), "http://127.0.0.1:1234");
    assert_eq!(server_origin("http:///health", 8080), "http://127.0.0.1:8080");
}

#[test]
fn netstat_listener_for_port() {
    let out = "\n  Proto  Local Address          Foreign Address        State           PID\n  \
               TCP    0.0.0.0:135            0.0.0.0:0              LISTENING       1100\n  \
               TCP    127.0.0.1:1234         0.0.0.0:0              LISTENING       4242\n  \
               TCP    [::1]:8080             [::]:0                 LISTENING       77\n  \
               TCP    127.0.0.1:1234         127.0.0.1:5555         ESTABLISHED     9\n";
    assert_eq!(listener_on_port(out, 1234), Some(4242));
    assert_eq!(listener_on_port(out, 8080), Some(77));
    assert_eq!(listener_on_port(out, 35), None);
    assert!(is_port_free(out, 4000));
    assert!(!is_port_free(out, 1234));
}

#[test]
fn health_verdicts() {
    assert!(health_of(Some(200)).healthy);
    assert!(health_of(Some(302)).healthy);
    assert!(!health_of(Some(503)).healthy);
    assert!(health_of(Some(503)).reachable);
    assert!(!health_of(None).reachable);
}

#[test]
fn llama_server_names() {
    assert!(is_llama_server_process("LLAMA-SERVER.exe"));
    assert!(is_llama_server_process("llama-server"));
    assert!(!is_llama_server_process("server-llama"));
}

fn named(alias: &str, model: &str, feature: &str, id: &str) -> Profile {
    let mut p = profile(r"D:\llama\x.cmd", id);
    p.alias = alias.into();
    p.pretty_model = model.into();
    p.pretty_feature = feature.into();
    p
}

#[test]
fn aliases_and_names_resolve_to_one_profile() {
    let profiles = vec![
        named("Qwen-27B MTP", "Qwen-27B", "MTP", "qwen-27b__mtp"),
        named("Qwen-4B MTP", "Qwen-4B", "MTP", "qwen-4b__mtp"),
        named("Qwen 4B MTP", "Qwen 4B", "MTP", "qwen-4b__mtp-2"),
    ];
    assert_eq!(resolve_alias(&profiles, "qwen 27b mtp"), Ok("qwen-27b__mtp".to_string()));
    assert_eq!(
        resolve_alias(&profiles, "nope"),
        Err("No profile matches alias 'nope'.".to_string())
    );
    assert_eq!(
        resolve_alias(&profiles, "qwen-4b-mtp"),
        Err("Alias 'qwen-4b-mtp' is ambiguous. Matches: Qwen-4B MTP, Qwen 4B MTP".to_string())
    );
    assert_eq!(resolve_name(&profiles, "qwen_27b", "mtp"), Ok("qwen-27b__mtp".to_string()));
    assert_eq!(
        resolve_name(&profiles, "x", "y"),
        Err("No profile matches model 'x' feature 'y'.".to_string())
    );
    assert_eq!(
        resolve_name(&profiles, "qwen 4b", "MTP"),
        Err("Model 'qwen 4b' feature 'MTP' is ambiguous. Matches: Qwen-4B MTP, Qwen 4B MTP".to_string())
    );
}

#[test]
fn auto_start_follows_the_default_mode() {
    let mut settings = Settings::default();
    settings.last_used_profile_id = Some("last".into());
    settings.default_profile_id = Some("fixed".into());
    assert_eq!(auto_start_profile_id(&settings), None);
    settings.default_profile_mode = DefaultProfileMode::LastUsed;
    assert_eq!(auto_start_profile_id(&settings).as_deref(), Some("last"));
    settings.default_profile_mode = DefaultProfileMode::Specific;
    assert_eq!(auto_start_profile_id(&settings).as_deref(), Some("fixed"));
}

#[test]
fn gpu_memory_reports() {
    assert_eq!(parse_gpu_memory("24576, 1000, 23576\n"), Some((24576, 1000, 23576)));
    assert_eq!(parse_gpu_memory("10, 1, 9\n20, 2, 18\n"), Some((30, 3, 27)));
    assert_eq!(parse_gpu_memory("[N/A], 1, 2\n"), None);
    let apps = parse_compute_apps("42, llama-server.exe, 1000\n42, llama-server.exe, 500\n7, x, 3\nbad\n");
    assert_eq!(apps.len(), 2);
    assert_eq!((apps[0].pid, apps[0].name.as_str(), apps[0].used_mib), (42, "llama-server.exe", 1500));
    assert_eq!((apps[1].pid, apps[1].used_mib), (7, 3));
}

#[test]
fn windows_rows_are_live_and_largest_first() {
    let out = "10|small|1048576\n20|big|10485760\n30|stale|20971520\nbroken\n";
    let mut live = HashSet::new();
    live.insert(10);
    live.insert(20);
    let rows = windows_vram_processes(out, Some(&live));
    assert_eq!(rows.len(), 2);
    assert_eq!((rows[0].pid, rows[0].used_mib), (20, 10));
    assert_eq!((rows[1].pid, rows[1].used_mib), (10, 1));
    assert_eq!(windows_vram_processes(out, None).len(), 3);
}

#[test]
fn vram_summary_prefers_windows_accounting() {
    let windows = vec![
        vram_process(5, "llama-server", 8000),
        vram_process(6, "dwm", 300),
        vram_process(7, "app", 200),
    ];
    let status = vram_summary(Some((24576, 20000, 4576)), vec![], windows, Some(1));
    assert_eq!(status.total_mib, Some(24576));
    assert_eq!(status.used_mib, Some(8200));
    assert_eq!(status.free_mib, Some(24576 - 8200));
    assert_eq!(status.model_mib, Some(8000));
    assert_eq!(status.processes.len(), 2);
    let none = vram_summary(None, vec![], vec![], None);
    assert_eq!(none.total_mib, None);
    let nvidia_only = vram_summary(Some((100, 60, 40)), vec![vram_process(3, "x", 50)], vec![], Some(3));
    assert_eq!(nvidia_only.used_mib, Some(60));
    assert_eq!(nvidia_only.model_mib, Some(50));
}

#[test]
fn scripts_launch_through_their_shell() {
    let ps = launch_command(r"D:\a b\s.ps1", ".PS1");
    assert_eq!(ps.program, "powershell");
    assert_eq!(ps.args, vec!["-NoProfile", "-ExecutionPolicy", "Bypass", "-File", r"D:\a b\s.ps1"]);
    let cmd = launch_command(r"D:\a b\s.cmd", ".cmd");
    assert_eq!(cmd.program, "cmd");
    assert_eq!(cmd.args, vec!["/C".to_string(), "\"D:\\a b\\s.cmd\"".to_string()]);
}

#[test]
fn largest_server_allocation_is_kept() {
    let processes = vec![
        vram_process(7, "llama-server", 4_000),
        vram_process(8, "llama-server.exe", 20_000),
        vram_process(9, "renderer", 3_000),
    ];
    let reconciled = reconcile_vram_processes(processes, 24_576, None);
    assert!(reconciled.iter().any(|p| p.pid == 8 && p.used_mib == 20_000));
    assert!(reconciled.iter().map(|p| p.used_mib).sum::<u64>() <= 24_576);
}
