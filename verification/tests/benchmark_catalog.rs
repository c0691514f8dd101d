use llama_switcher::benchmark_catalog::{check_submission, forbidden_construct, tally_outcomes};

#[test]
fn safety_scan_matches_identifiers_without_rejecting_prefixes() {
    assert_eq!(forbidden_construct("const processed = new Set();"), None);
    assert_eq!(forbidden_construct("const denormalized = true;"), None);
    assert_eq!(forbidden_construct("process.exit(1);"), Some("process"));
    assert_eq!(
        forbidden_construct("new Function('return 1')"),
        Some("Function constructor")
    );
}

#[test]
fn safety_scan_reports_first_listed_identifier_in_any_case() {
    assert_eq!(forbidden_construct("EVAL(x); Deno.exit()"), Some("Deno"));
    assert_eq!(forbidden_construct("new\n  function x() {}"), Some("Function constructor"));
    assert_eq!(forbidden_construct("new FunctionFactory()"), None);
    assert_eq!(forbidden_construct("$fetch = 1; my_eval = 2"), None);
    assert_eq!(forbidden_construct("await fetch(url)"), Some("fetch"));
}

#[test]
fn submissions_need_one_javascript_block() {
    assert_eq!(
        check_submission("no code here").unwrap_err(),
        "Expected exactly one fenced JavaScript block; received 0."
    );
    assert_eq!(
        check_submission("```js\na\n```\n```js\nb\n```").unwrap_err(),
        "Expected exactly one fenced JavaScript block; received 2."
    );
    assert_eq!(
        check_submission("```python\nx = 1\n```").unwrap_err(),
        "The submission must use a ```javascript code block."
    );
    assert_eq!(
        check_submission("```JavaScript\nrequire('fs')\n```").unwrap_err(),
        "The submission uses a disallowed host or dynamic-code construct: require."
    );
    assert_eq!(
        check_submission("text\n``` js \nfunction f(x) { return x; }\n```\nmore").unwrap(),
        "function f(x) { return x; }\n"
    );
}

#[test]
fn oversized_submissions_are_refused() {
    let body = "a".repeat(131_073);
    let md = format!("```javascript\n{}\n```", &body[..131_072]);
    assert_eq!(
        check_submission(&md).unwrap_err(),
        "Submission exceeds the 128 KiB limit."
    );
    let md = format!("```javascript\n{}\n```", &body[..131_071]);
    assert!(check_submission(&md).is_ok());
}

#[test]
fn tallies_count_failures_and_keep_six_lines() {
    let tests: Vec<(String, String)> = (0..8).map(|i| (format!("t{i}"), format!("case {i}"))).collect();
    let mut outcomes: Vec<Option<String>> = (0..8).map(|i| Some(format!("bad {i}"))).collect();
    outcomes[1] = None;
    let tally = tally_outcomes(&tests, &outcomes);
    assert_eq!(tally.total, 8);
    assert_eq!(tally.passed, 1);
    assert_eq!(tally.failed, 7);
    assert_eq!(tally.status, "failed");
    assert_eq!(tally.feedback.len(), 6);
    assert_eq!(tally.feedback[0], "t0 (case 0): bad 0");
    assert_eq!(tally.feedback[1], "t2 (case 2): bad 2");
    let all_pass = tally_outcomes(&tests[..2], &[None, None]);
    assert_eq!(all_pass.status, "passed");
    assert!(all_pass.feedback.is_empty());
}
