use llama_switcher::benchmark::resume_key;
use llama_switcher::benchmark_catalog::GradeTally;
use llama_switcher::benchmark_run::RunAction::{Finish, PrepareModel, Repetition, SummarizePrompt};
use llama_switcher::benchmark_run::{
    reply_content, run_step, RunAction, RunCursor, RunEvent,
    checkpoint_accepts, model_start_failure, prompt_outcome, repetition_error, restore_action,
    run_end_status, summarize_grades, timeout_feedback, RestoreAction,
};
use llama_switcher::process_manager::Json;
use llama_switcher::script_scanner::Profile;

fn profile(id: &str) -> Profile {
    Profile {
        id: id.into(),
        raw_model: "m".into(),
        raw_feature: "f".into(),
        pretty_model: "M".into(),
        pretty_feature: "F".into(),
        alias: id.into(),
        display_name: id.into(),
        script_path: "s".into(),
        working_directory: "w".into(),
        extension: ".cmd".into(),
    }
}

fn grade(passed: usize, total: usize, status: &str) -> GradeTally {
    GradeTally {
        passed,
        failed: total - passed,
        total,
        status: status.into(),
        feedback: vec![],
    }
}

fn meta(complete: bool, run_index: u64) -> Json {
    Json::Object(vec![
        ("checkpointComplete".to_string(), Json::Bool(complete)),
        ("resumeKey".to_string(), Json::Text("00ff".into())),
        ("profileId".to_string(), Json::Text("p1".into())),
        ("alias".to_string(), Json::Text("Qwen".into())),
        ("promptId".to_string(), Json::Text("prompt1".into())),
        ("runIndex".to_string(), Json::Number(Some(run_index))),
    ])
}

#[test]
fn previous_profile_is_relaunched_after_a_run() {
    let profiles = vec![profile("a"), profile("b")];
    assert_eq!(restore_action(Some("a"), &profiles, Some("b")), RestoreAction::Relaunch);
    assert_eq!(restore_action(Some("a"), &profiles, None), RestoreAction::Relaunch);
}

#[test]
fn running_previous_profile_is_kept() {
    let profiles = vec![profile("a")];
    assert_eq!(restore_action(Some("a"), &profiles, Some("a")), RestoreAction::Keep);
}

#[test]
fn server_stops_when_nothing_ran_before_or_profile_is_gone() {
    let profiles = vec![profile("a")];
    assert_eq!(restore_action(None, &profiles, Some("a")), RestoreAction::Stop);
    assert_eq!(restore_action(Some("gone"), &profiles, Some("a")), RestoreAction::Stop);
}

#[test]
fn run_ends_finished_cancelled_or_silently() {
    assert_eq!(run_end_status(true, false), Some("finished"));
    assert_eq!(run_end_status(true, true), Some("cancelled"));
    assert_eq!(run_end_status(false, false), None);
}

#[test]
fn failed_repetition_line_names_the_run() {
    assert_eq!(repetition_error(3, "Request failed: boom"), "Run 3: Request failed: boom");
}

#[test]
fn prompt_with_some_failures_is_done_with_a_message() {
    let errors = vec!["Run 1: a".to_string(), "Run 3: b".to_string()];
    let outcome = prompt_outcome(1, &errors, 3);
    assert_eq!(outcome.status, "done");
    assert_eq!(
        outcome.message.as_deref(),
        Some("2 of 3 repetitions failed: Run 1: a; Run 3: b")
    );
}

#[test]
fn prompt_without_success_is_an_error() {
    let errors = vec!["Run 1: a".to_string()];
    let outcome = prompt_outcome(0, &errors, 1);
    assert_eq!(outcome.status, "error");
    assert_eq!(outcome.message.as_deref(), Some("1 of 1 repetitions failed: Run 1: a"));
}

#[test]
fn prompt_without_failures_has_no_message() {
    let outcome = prompt_outcome(2, &[], 2);
    assert_eq!(outcome.status, "done");
    assert!(outcome.message.is_none());
}

#[test]
fn grade_totals_sum_over_repetitions() {
    let summary = summarize_grades(&[grade(3, 4, "failed"), grade(4, 4, "passed")]);
    assert_eq!(summary.passed_tests, Some(7));
    assert_eq!(summary.total_tests, Some(8));
    assert_eq!(summary.all_passed, Some(false));
    let summary = summarize_grades(&[grade(4, 4, "passed"), grade(4, 4, "passed")]);
    assert_eq!(summary.all_passed, Some(true));
}

#[test]
fn no_grades_give_no_totals() {
    let summary = summarize_grades(&[]);
    assert_eq!(summary.passed_tests, None);
    assert_eq!(summary.total_tests, None);
    assert_eq!(summary.all_passed, None);
}

#[test]
fn matching_complete_checkpoint_is_accepted() {
    assert!(checkpoint_accepts(&meta(true, 2), "00ff", "p1", "Qwen", "prompt1", 2));
}

#[test]
fn incomplete_or_foreign_checkpoint_is_refused() {
    assert!(!checkpoint_accepts(&meta(false, 2), "00ff", "p1", "Qwen", "prompt1", 2));
    assert!(!checkpoint_accepts(&meta(true, 1), "00ff", "p1", "Qwen", "prompt1", 2));
    assert!(!checkpoint_accepts(&meta(true, 2), "0100", "p1", "Qwen", "prompt1", 2));
    assert!(!checkpoint_accepts(&meta(true, 2), "00ff", "p2", "Qwen", "prompt1", 2));
    assert!(!checkpoint_accepts(&Json::Null, "00ff", "p1", "Qwen", "prompt1", 2));
}

#[test]
fn timeout_messages_use_at_least_one_second() {
    assert_eq!(model_start_failure(0), "Server did not become healthy within 1 seconds.");
    assert_eq!(model_start_failure(300), "Server did not become healthy within 300 seconds.");
    assert_eq!(timeout_feedback(45), "Generation exceeded the 45 second per-test timeout.");
}

#[test]
fn checkpoint_requires_matching_prompt_fingerprint() {
    let key = resume_key("custom-1", "custom", "original prompt");
    let meta = Json::Object(vec![
        ("checkpointComplete".to_string(), Json::Bool(true)),
        ("resumeKey".to_string(), Json::Text(key.clone())),
        ("profileId".to_string(), Json::Text("profile-1".into())),
        ("alias".to_string(), Json::Text("Model".into())),
        ("promptId".to_string(), Json::Text("custom-1".into())),
        ("runIndex".to_string(), Json::Number(Some(1))),
        ("durationSeconds".to_string(), Json::Number(None)),
        ("grade".to_string(), Json::Null),
    ]);
    assert!(checkpoint_accepts(&meta, &key, "profile-1", "Model", "custom-1", 1));
    let changed = resume_key("custom-1", "custom", "changed prompt");
    assert!(!checkpoint_accepts(&meta, &changed, "profile-1", "Model", "custom-1", 1));
}

fn drive(models: usize, items: usize, runs: u32, skip_model: Option<usize>) -> Vec<RunAction> {
    let mut seen = Vec::new();
    let (mut cursor, mut action) = run_step(RunCursor { model: 0, item: 0, run: 1 }, RunEvent::Begin, models, items, runs);
    loop {
        seen.push(action);
        let event = match action {
            RunAction::Finish => break,
            RunAction::PrepareModel(m) if Some(m) == skip_model => RunEvent::ModelSkipped,
            RunAction::PrepareModel(_) => RunEvent::ModelReady,
            RunAction::Repetition(..) => RunEvent::RepetitionDone,
            RunAction::SummarizePrompt(..) => RunEvent::PromptSummarized,
        };
        (cursor, action) = run_step(cursor, event, models, items, runs);
    }
    seen
}

#[test]
fn run_visits_models_items_and_repetitions_in_order() {
    assert_eq!(
        drive(2, 2, 2, Some(0)),
        vec![
            PrepareModel(0),
            PrepareModel(1),
            Repetition(1, 0, 1),
            Repetition(1, 0, 2),
            SummarizePrompt(1, 0),
            Repetition(1, 1, 1),
            Repetition(1, 1, 2),
            SummarizePrompt(1, 1),
            Finish,
        ]
    );
    assert_eq!(drive(0, 3, 1, None), vec![Finish]);
}

#[test]
fn halted_run_finishes_at_once() {
    let c = RunCursor { model: 1, item: 0, run: 2 };
    assert_eq!(run_step(c, RunEvent::Halted, 3, 3, 3), (c, RunAction::Finish));
}

#[test]
fn reply_text_is_the_first_choice_message() {
    let message = Json::Object(vec![("content".to_string(), Json::Text("hello".into()))]);
    let choice = Json::Object(vec![("message".to_string(), message)]);
    let body = Json::Object(vec![("choices".to_string(), Json::Array(vec![choice]))]);
    assert_eq!(reply_content(&body), "hello");
    assert_eq!(reply_content(&Json::Object(vec![("choices".to_string(), Json::Array(vec![]))])), "");
    assert_eq!(reply_content(&Json::Null), "");
}
