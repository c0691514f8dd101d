use boa_engine::{Context, JsError, Source};
use llama_switcher::benchmark_catalog::{check_submission, loop_budget, test_harness};
use llama_switcher::grading::{grade_submission, parse_failure, test_outcome, EngineRun, Grade};

fn error_text(error: JsError, context: &mut Context) -> String {
    error
        .to_opaque(context)
        .to_string(context)
        .map(|v| v.to_std_string_escaped())
        .unwrap_or_else(|_| "JavaScript evaluation failed".to_string())
}

fn eval(script: &str, loop_limit: u64) -> EngineRun {
    let mut context = Context::default();
    let limits = context.runtime_limits_mut();
    limits.set_loop_iteration_limit(loop_limit);
    limits.set_recursion_limit(256);
    limits.set_stack_size_limit(4096);
    match context.eval(Source::from_bytes(script.as_bytes())) {
        Ok(value) => Ok(match value.to_string(&mut context) {
            Ok(text) => Ok(text.to_std_string_escaped()),
            Err(error) => Err(error_text(error, &mut context)),
        }),
        Err(error) => Err(error_text(error, &mut context)),
    }
}

/// Grade a reply the way the application does: the engine runs here, the
/// library judges what it gave back.
fn grade(markdown: &str, function_name: &str, tests: &[(String, String, String, String)], timeout: u64) -> Grade {
    let budget = loop_budget(timeout);
    let Ok(code) = check_submission(markdown) else {
        return grade_submission(markdown, tests, &Ok(()), &[]);
    };
    let parse = match eval(&code, budget) {
        Err(error) => Err(error),
        Ok(_) => Ok(()),
    };
    let runs: Vec<EngineRun> = if parse.is_ok() {
        tests.iter().map(|t| eval(&test_harness(&code, &t.2, function_name), budget)).collect()
    } else {
        Vec::new()
    };
    grade_submission(markdown, tests, &parse, &runs)
}

fn tests() -> Vec<(String, String, String, String)> {
    vec![
        ("t1".into(), "small".into(), "2".into(), "4".into()),
        ("t2".into(), "odd".into(), "3".into(), "7".into()),
    ]
}

#[test]
fn graded_reply_tallies_each_test() {
    let reply = "```javascript\nfunction double(x) { return x * 2; }\n```\n";
    match grade(reply, "double", &tests(), 30) {
        Grade::Graded(t) => {
            assert_eq!((t.passed, t.failed, t.total), (1, 1, 2));
            assert_eq!(t.status, "failed");
            assert_eq!(t.feedback, vec!["t2 (odd): returned value did not match the expected result".to_string()]);
        }
        _ => panic!("expected a graded reply"),
    }
}

#[test]
fn mutating_the_input_fails_the_test() {
    let reply = "```js\nfunction push(a) { a.push(1); return a.length; }\n```\n";
    let tests = vec![("m".to_string(), "mut".to_string(), "[]".to_string(), "1".to_string())];
    match grade(reply, "push", &tests, 30) {
        Grade::Graded(t) => assert_eq!(t.feedback, vec!["m (mut): the function mutated its input".to_string()]),
        _ => panic!("expected a graded reply"),
    }
}

#[test]
fn reply_without_one_block_is_refused() {
    match grade("no code here", "double", &tests(), 30) {
        Grade::Invalid(f) => assert_eq!(f, "Expected exactly one fenced JavaScript block; received 0."),
        _ => panic!("expected a refusal"),
    }
}

#[test]
fn unparsable_code_is_a_syntax_error() {
    match grade("```javascript\nfunction (\n```\n", "double", &tests(), 30) {
        Grade::SyntaxError(f) => assert!(f.starts_with("The submission could not be parsed: ")),
        _ => panic!("expected a syntax error"),
    }
}

#[test]
fn correct_easy_submission_passes() {
    let code = "```javascript
function compactRanges(values) {
  const sorted = [...new Set(values)].sort((a,b) => a-b);
  const out = [];
  for (let i = 0; i < sorted.length; i++) {
    let start = sorted[i], end = start;
    while (i + 1 < sorted.length && sorted[i + 1] === end + 1) { i++; end = sorted[i]; }
    out.push(start === end ? String(start) : `${start}-${end}`);
  }
  return out;
}
```";
    let case_tests: Vec<(String, String, String, String)> = [
        ("easy-1", "mixed unsorted values", "[3,2,1,7,5,8,8]", "[\"1-3\",\"5\",\"7-8\"]"),
        ("easy-2", "empty input", "[]", "[]"),
        ("easy-3", "negative values", "[-3,-2,-1,1,3,4]", "[\"-3--1\",\"1\",\"3-4\"]"),
        ("easy-4", "duplicates and gaps", "[1,1,2,4,6,7,8,10]", "[\"1-2\",\"4\",\"6-8\",\"10\"]"),
        ("easy-5", "single value", "[42]", "[\"42\"]"),
        ("easy-6", "negative gap", "[-2,0,1,2,4]", "[\"-2\",\"0-2\",\"4\"]"),
    ]
    .iter()
    .map(|(id, label, input, expected)| (id.to_string(), label.to_string(), input.to_string(), expected.to_string()))
    .collect();
    match grade(code, "compactRanges", &case_tests, 30) {
        Grade::Graded(t) => {
            assert_eq!(t.status, "passed");
            assert_eq!(t.passed, t.total);
            assert_eq!(t.total, 6);
        }
        _ => panic!("expected a graded reply"),
    }
}

#[test]
fn parse_failure_prefixes_the_engine_error() {
    assert_eq!(parse_failure("SyntaxError: x"), "The submission could not be parsed: SyntaxError: x");
}

#[test]
fn test_outcome_judges_each_kind_of_run() {
    let ok = |s: &str| -> EngineRun { Ok(Ok(s.to_string())) };
    assert_eq!(test_outcome(&Err("RangeError: limit".into()), "1"), Some("RangeError: limit".to_string()));
    assert_eq!(test_outcome(&Ok(Err("TypeError: cyclic".into())), "1"), Some("TypeError: cyclic".to_string()));
    assert_eq!(
        test_outcome(&ok("not json"), "1"),
        Some("the function did not return JSON-serializable data".to_string())
    );
    assert_eq!(test_outcome(&ok("{\"result\":1,\"before\":\"[]\",\"after\":\"[]\"}"), "1"), None);
    assert_eq!(
        test_outcome(&ok("{\"result\":2,\"before\":\"[]\",\"after\":\"[]\"}"), "1"),
        Some("returned value did not match the expected result".to_string())
    );
    assert_eq!(
        test_outcome(&ok("{\"before\":\"[]\",\"after\":\"[]\"}"), "1"),
        Some("the function returned undefined".to_string())
    );
    assert_eq!(
        test_outcome(&ok("{\"result\":1,\"before\":\"[]\",\"after\":\"[1]\"}"), "1"),
        Some("the function mutated its input".to_string())
    );
}

#[test]
fn refused_reply_ignores_engine_results() {
    match grade_submission("no code", &tests(), &Err("x".into()), &[]) {
        Grade::Invalid(_) => {}
        _ => panic!("expected a refusal"),
    }
}
