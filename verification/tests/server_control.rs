use llama_switcher::script_scanner::Profile;
use llama_switcher::server_control::activation_steps;
use llama_switcher::server_control::ActivationStep::{ClearPort, Launch, StopRunning, SweepStrays};
use llama_switcher::server_control::{
    activation_error, probe_step, ProbeStep,
    parent_tree_root, parse_process_images, port_in_use_error, port_step, restart_reused_error,
    restart_timeout_error, restart_verified_line, stop_summary_line, stray_server_pids,
    stray_sweep_warning, wait_step, watchdog_root, watchdog_warning, PortStep, WaitStep,
};

#[test]
fn port_is_cleared_by_killing_the_listener_parent() {
    assert_eq!(port_step(true, Some(5)), PortStep::Free);
    assert_eq!(port_step(false, Some(5)), PortStep::KillParentTree(5));
    assert_eq!(port_step(false, None), PortStep::Wait);
}

#[test]
fn parent_tree_root_prefers_the_parent() {
    let snapshot = vec![(10, 1), (20, 10), (30, 0)];
    assert_eq!(parent_tree_root(20, &snapshot), 10);
    assert_eq!(parent_tree_root(30, &snapshot), 30);
    assert_eq!(parent_tree_root(99, &snapshot), 99);
}

#[test]
fn wait_ends_on_supersession_then_readiness_then_deadline() {
    assert_eq!(wait_step(false, true, false), WaitStep::Superseded);
    assert_eq!(wait_step(true, true, true), WaitStep::Ready);
    assert_eq!(wait_step(true, false, true), WaitStep::TimedOut);
    assert_eq!(wait_step(true, false, false), WaitStep::Again);
}

#[test]
fn watchdog_spares_the_managed_tree_first() {
    assert_eq!(watchdog_root(Some(7), true, Some(8)), Some(7));
    assert_eq!(watchdog_root(None, true, Some(8)), Some(8));
    assert_eq!(watchdog_root(None, false, Some(8)), None);
}

#[test]
fn stray_servers_are_matched_by_image_name_ignoring_case() {
    let rows = parse_process_images("4|llama-server.exe\n5|explorer.exe\nbad line\n6 | LLAMA-SERVER.EXE \n");
    assert_eq!(rows, vec![
        (4, "llama-server.exe".to_string()),
        (5, "explorer.exe".to_string()),
        (6, "LLAMA-SERVER.EXE".to_string()),
    ]);
    let names = vec!["llama-server.exe".to_string()];
    assert_eq!(stray_server_pids(&rows, &names, &[]), vec![4, 6]);
    assert_eq!(stray_server_pids(&rows, &names, &[6]), vec![4]);
    assert!(stray_server_pids(&rows, &[], &[]).is_empty());
}

#[test]
fn server_messages_spell_out_counts() {
    assert_eq!(port_in_use_error(1234, 10), "Port 1234 is still in use after 10s.");
    assert_eq!(
        restart_timeout_error(42, 90),
        "Replacement server launched as PID 42 but did not become healthy within 90 seconds."
    );
    assert_eq!(
        restart_reused_error(7),
        "Restart reused the old shell PID 7 instead of launching a replacement."
    );
    assert_eq!(
        restart_verified_line(42, None),
        "Restart verified: new shell PID 42, listener PID 0, health endpoint ready."
    );
    assert_eq!(
        stray_sweep_warning("Stop", 1),
        "Stop: terminated 1 stray server process to enforce a single instance."
    );
    assert_eq!(watchdog_warning(3), "Watchdog terminated 3 rogue or stale server processes.");
    assert_eq!(
        stop_summary_line("2024-01-02T03:04:05", 1234, true, 0),
        "Stopped at 2024-01-02T03:04:05. Port 1234 free: true. Killed 0 extra processes."
    );
}

#[test]
fn probe_takes_over_an_external_listener_once() {
    let first = probe_step(false, true, true, Some(9), None, false);
    assert_eq!(first.step, ProbeStep::Takeover(9));
    assert!(first.probe_usage && first.probe_speed);
    assert_eq!(probe_step(false, true, true, Some(9), Some(9), true).step, ProbeStep::External(Some(9)));
    assert!(!probe_step(false, true, true, Some(9), Some(9), true).probe_usage);
    assert_eq!(probe_step(true, true, false, None, None, false).step, ProbeStep::Managed);
    assert_eq!(probe_step(false, false, false, None, Some(9), false).step, ProbeStep::Down);
    assert_eq!(probe_step(false, true, false, None, None, false).step, ProbeStep::External(None));
}

#[test]
fn activation_is_refused_for_missing_profile_script_or_folder() {
    let p = Profile {
        id: "p".into(),
        raw_model: "m".into(),
        raw_feature: "f".into(),
        pretty_model: "M".into(),
        pretty_feature: "F".into(),
        alias: "M F".into(),
        display_name: "M F".into(),
        script_path: "D:\\s.cmd".into(),
        working_directory: "D:\\w".into(),
        extension: ".cmd".into(),
    };
    assert_eq!(activation_error("x", None, false, false).as_deref(), Some("Unknown profile id: x"));
    assert_eq!(activation_error("p", Some(&p), false, true).as_deref(), Some("Script not found: D:\\s.cmd"));
    assert_eq!(activation_error("p", Some(&p), true, false).as_deref(), Some("Working directory not found: D:\\w"));
    assert_eq!(activation_error("p", Some(&p), true, true), None);
}

#[test]
fn activation_stops_clears_sweeps_then_launches() {
    assert_eq!(activation_steps(true, false), vec![StopRunning, ClearPort, SweepStrays, Launch]);
    assert_eq!(activation_steps(false, true), vec![SweepStrays, Launch]);
}
