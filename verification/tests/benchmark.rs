use llama_switcher::benchmark::{
    benchmark_completion_notification, default_config, extract_code_blocks, is_timeout_error,
    map_code_files, migrate_case_ids, needs_switch, optional_sum, output_folder_name, resume_key, run_folder_name,
    sanitize_alias, validate_start,
};

#[test]
fn sanitizes_alias_for_folder() {
    assert_eq!(sanitize_alias("Qwen3.6-35B MTP"), "Qwen3.6-35B-MTP");
    assert_eq!(sanitize_alias("Gemma4-31B  MTP"), "Gemma4-31B-MTP");
    assert_eq!(sanitize_alias("a/b:c"), "a-b-c");
}

#[test]
fn professional_output_folders_use_difficulty() {
    assert_eq!(
        output_folder_name(
            "professional",
            Some("hard"),
            "professional-js-v2-hard-01-build-batches",
            "Hard"
        ),
        vec!["professional-js-v2-hard".to_string(), "01-build-batches".to_string()]
    );
}

#[test]
fn custom_output_folder_uses_the_test_title() {
    assert_eq!(
        output_folder_name("custom", None, "prompt1", "Chess PGN to SVG"),
        vec!["custom-Chess-PGN-to-SVG-prompt1".to_string()]
    );
}

#[test]
fn recognizes_transport_timeout_messages() {
    assert!(is_timeout_error("Request failed: Network timed out"));
    assert!(is_timeout_error("request timeout"));
    assert!(is_timeout_error("socket error WSAETIMEDOUT"));
    assert!(is_timeout_error(
        "connected host has failed to respond. (os error 10060)"
    ));
    assert!(!is_timeout_error("Request failed: connection refused"));
}

#[test]
fn extracts_and_names_code_blocks() {
    let md = "intro\n```html\n<html></html>\n```\nmid\n```svg\n<svg></svg>\n```\n```html\n<html>2</html>\n```";
    let blocks = extract_code_blocks(md);
    assert_eq!(blocks.len(), 3);
    let files = map_code_files(&blocks);
    let names: Vec<&str> = files.iter().map(|(n, _)| n.as_str()).collect();
    assert_eq!(names, vec!["index.html", "image.svg", "index_2.html"]);
}

#[test]
fn infers_svg_without_lang() {
    let files = map_code_files(&[(String::new(), "<svg>x</svg>".into())]);
    assert_eq!(files[0].0, "image.svg");
}

#[test]
fn completion_notification_only_shows_for_finished_runs() {
    assert_eq!(
        benchmark_completion_notification("finished"),
        Some((
            "Benchmark complete",
            "All selected model and prompt runs have finished."
        ))
    );
    assert_eq!(benchmark_completion_notification("cancelled"), None);
    assert_eq!(benchmark_completion_notification("error"), None);
}

#[test]
fn code_blocks_keep_language_and_body_and_drop_unclosed() {
    let md = "  ```  JavaScript  \r\nconst a = 1;\r\n```\n```py\nprint(1)\n";
    let blocks = extract_code_blocks(md);
    assert_eq!(blocks, vec![("JavaScript".to_string(), "const a = 1;\n".to_string())]);
}

#[test]
fn other_languages_get_numbered_blocks() {
    let blocks = vec![
        ("C++".to_string(), "int main(){}".to_string()),
        ("".to_string(), "plain".to_string()),
        ("".to_string(), "plain again".to_string()),
        ("HTM".to_string(), "x".to_string()),
        ("".to_string(), "<!DOCTYPE html><p>".to_string()),
        ("".to_string(), "  <html>".to_string()),
    ];
    let names: Vec<String> = map_code_files(&blocks).into_iter().map(|(n, _)| n).collect();
    assert_eq!(
        names,
        vec!["block1.c", "block2.txt", "block3.txt", "index.html", "index_2.html", "index_3.html"]
    );
}

#[test]
fn default_config_selects_given_cases() {
    let config = default_config(vec!["a".to_string(), "b".to_string()]);
    assert_eq!(config.professional_case_ids, vec!["a".to_string(), "b".to_string()]);
    assert_eq!(config.model_start_timeout_seconds, 300);
    assert_eq!(config.timeout_seconds, 300);
    assert_eq!(config.grading_timeout_seconds, 30);
    assert_eq!(config.runs_per_prompt, 1);
    assert!(config.prompts.iter().all(|prompt| prompt.enabled));
    assert_eq!(config.prompts[0].id, "prompt1");
    assert_eq!(config.prompts[1].id, "prompt2");
    assert!(config.generate_html_report && config.resume_completed_runs);
    assert!(!config.open_report_when_complete);
}

#[test]
fn start_validation_reports_the_first_problem() {
    let mut config = default_config(vec![]);
    assert_eq!(validate_start(&config, 2).unwrap_err(), "Select at least one model.");
    config.profile_ids.push("p".into());
    assert_eq!(
        validate_start(&config, 0).unwrap_err(),
        "Select at least one custom or professional benchmark."
    );
    config.output_dir = "   ".into();
    assert_eq!(validate_start(&config, 1).unwrap_err(), "Choose an output folder.");
    config.output_dir = "D:\\out".into();
    config.runs_per_prompt = 101;
    assert_eq!(
        validate_start(&config, 1).unwrap_err(),
        "Runs per prompt must be between 1 and 100."
    );
    config.runs_per_prompt = 100;
    config.grading_timeout_seconds = 0;
    assert_eq!(
        validate_start(&config, 1).unwrap_err(),
        "Grading timeout must be between 1 and 300 seconds."
    );
    config.grading_timeout_seconds = 300;
    assert!(validate_start(&config, 1).is_ok());
}

#[test]
fn sums_and_folder_numbers() {
    assert_eq!(optional_sum(&[]), None);
    assert_eq!(optional_sum(&[100, 300]), Some(400));
    assert_eq!(run_folder_name(1), "run-01");
    assert_eq!(run_folder_name(12), "run-12");
    assert_eq!(run_folder_name(100), "run-100");
}

#[test]
fn resume_key_is_the_fnv_fingerprint() {
    assert_eq!(resume_key("custom-1", "custom", "original prompt"), "131a639f29144b26");
    assert_eq!(resume_key("a", "b", ""), "d010221552298310");
    assert_ne!(
        resume_key("custom-1", "custom", "original prompt"),
        resume_key("custom-1", "custom", "changed prompt")
    );
}

#[test]
fn other_kinds_use_the_sanitized_id() {
    assert_eq!(output_folder_name("custom", None, "p 1", "  "), vec!["custom-untitled-p-1".to_string()]);
    assert_eq!(output_folder_name("professional", None, "x:y", "t"), vec!["x-y".to_string()]);
    assert_eq!(
        output_folder_name("professional", Some("easy"), "other-id", "t"),
        vec!["professional-js-v2-easy".to_string(), "other-id".to_string()]
    );
}

fn entry(id: &str, difficulty: &str) -> llama_switcher::benchmark::CatalogEntry {
    llama_switcher::benchmark::CatalogEntry {
        id: id.into(),
        title: format!("title {id}"),
        prompt: format!("prompt {id}"),
        difficulty: difficulty.into(),
    }
}

#[test]
fn selected_professional_items_keep_catalog_order() {
    let catalog = vec![entry("e1", "easy"), entry("m1", "medium"), entry("h1", "hard")];
    let mut config = default_config(vec![]);
    config.prompts[1].enabled = false;
    config.professional_case_ids = vec!["h1".into(), "e1".into()];
    let items = llama_switcher::benchmark::selected_items(&config, &catalog);
    let got: Vec<(&str, &str, Option<&str>)> = items
        .iter()
        .map(|i| (i.id.as_str(), i.kind.as_str(), i.difficulty.as_deref()))
        .collect();
    assert_eq!(
        got,
        vec![("prompt1", "custom", None), ("e1", "professional", Some("easy")), ("h1", "professional", Some("hard"))]
    );
    assert_eq!(items[1].text, "prompt e1");
    assert_eq!(items[1].grading_timeout_seconds, 30);
}

#[test]
fn selected_professional_items_follow_catalog_order() {
    let mut catalog = Vec::new();
    for difficulty in ["easy", "medium", "hard"] {
        for n in 1..=6 {
            catalog.push(entry(&format!("professional-js-v2-{difficulty}-{n:02}"), difficulty));
        }
    }
    assert_eq!(catalog.len(), 18);
    let mut config = default_config(vec![]);
    config.prompts.iter_mut().for_each(|prompt| prompt.enabled = false);
    config.professional_case_ids = catalog.iter().rev().map(|case| case.id.clone()).collect();
    let items = llama_switcher::benchmark::selected_items(&config, &catalog);
    let difficulties = items.iter().map(|item| item.difficulty.as_deref().unwrap()).collect::<Vec<_>>();
    assert_eq!(&difficulties[..6], &["easy"; 6]);
    assert_eq!(&difficulties[6..12], &["medium"; 6]);
    assert_eq!(&difficulties[12..], &["hard"; 6]);
}

#[test]
fn running_healthy_model_is_not_restarted() {
    assert!(!needs_switch(Some("p1"), true, "p1"));
    assert!(needs_switch(Some("p1"), false, "p1"));
    assert!(needs_switch(Some("p2"), true, "p1"));
    assert!(needs_switch(None, true, "p1"));
}

fn strings(v: &[&str]) -> Vec<String> {
    v.iter().map(|s| s.to_string()).collect()
}

#[test]
fn file_without_case_ids_selects_the_whole_catalog() {
    let available = strings(&["b-case", "a-case", "c-case"]);
    assert_eq!(migrate_case_ids(false, &[], &available), available);
}

#[test]
fn retired_case_ids_are_dropped_keeping_saved_order() {
    let available = strings(&["a", "b", "c"]);
    let saved = strings(&["c", "old", "a"]);
    assert_eq!(migrate_case_ids(true, &saved, &available), strings(&["c", "a"]));
}

#[test]
fn selection_of_only_retired_cases_becomes_the_sorted_catalog() {
    let available = strings(&["b", "c", "a", "b"]);
    let saved = strings(&["gone-1", "gone-2"]);
    assert_eq!(migrate_case_ids(true, &saved, &available), strings(&["a", "b", "c"]));
}

#[test]
fn intentionally_empty_selection_stays_empty() {
    let available = strings(&["a", "b"]);
    assert!(migrate_case_ids(true, &[], &available).is_empty());
}

#[test]
fn sanitized_alias_keeps_its_other_characters_in_order() {
    assert_eq!(sanitize_alias("a/b:c").replace('-', ""), "abc");
    assert_eq!(sanitize_alias("  Qwen3.6-35B <MTP> ").replace('-', ""), "Qwen3.635BMTP");
}

#[test]
fn repeated_and_reordered_selection_gives_the_same_items() {
    let catalog = vec![entry("e1", "easy"), entry("m1", "medium"), entry("h1", "hard")];
    let mut a = default_config(vec![]);
    a.professional_case_ids = vec!["h1".into(), "e1".into()];
    let mut b = default_config(vec![]);
    b.professional_case_ids = vec!["e1".into(), "h1".into(), "e1".into()];
    let ids = |c| -> Vec<String> {
        llama_switcher::benchmark::selected_items(&c, &catalog).into_iter().map(|i| i.id).collect()
    };
    assert_eq!(ids(a), ids(b));
}
