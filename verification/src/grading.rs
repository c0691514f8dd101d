//! Grading a submitted JavaScript function against the hidden tests of a
//! professional case. The reply is checked here; the engine runs outside the
//! library (the code once on its own, then the harness of each test in a
//! fresh engine), and what it gave back is judged here: a parse failure, or
//! for each test the JSON envelope the harness returned.
use crate::benchmark_catalog::{
    check_submission, count_failed, envelope_verdict, envelope_verdict_of, failure_lines,
    feedback_views, submission_problem, tally_outcomes, GradeTally,
};
use crate::text::{chars_of, string_of};
use vstd::prelude::*;

verus! {

/// What `serde_json` reads of a test envelope: the JSON texts of its
/// `before` and `after` members (`null` when missing) and of its `result`
/// member when present; nothing when the text is not JSON.
pub uninterp spec fn json_envelope(encoded: Seq<char>) -> Option<(Seq<char>, Seq<char>, Option<Seq<char>>)>;

/// Parse a test envelope with `serde_json::from_str` and print its members
/// back with `Value::to_string`; the result is `json_envelope` of the text.
#[verifier::external_body]
fn envelope_fields(encoded: &str) -> (r: Option<(String, String, Option<String>)>)
    ensures
        match r {
            Some((b, a, res)) => json_envelope(encoded@) == Some(
                (
                    b@,
                    a@,
                    match res {
                        Some(x) => Some(x@),
                        None => None,
                    },
                ),
            ),
            None => json_envelope(encoded@) is None,
        },
{
    let v: serde_json::Value = serde_json::from_str(encoded).ok()?;
    Some((v["before"].to_string(), v["after"].to_string(), v.get("result").map(|x| x.to_string())))
}

/// The outcome of grading one reply.
pub enum Grade {
    /// The reply cannot be graded (status `invalid_response`).
    Invalid(String),
    /// The code does not parse (status `syntax_error`).
    SyntaxError(String),
    /// Every test ran.
    Graded(GradeTally),
}

pub open spec fn test_labels(tests: Seq<(String, String, String, String)>) -> Seq<(String, String)> {
    tests.map_values(|t: (String, String, String, String)| (t.0, t.1))
}

pub open spec fn parse_failure_prefix() -> Seq<char> {
    "The submission could not be parsed: "@
}

/// What the engine gave back for one script: `Err` with the error text when
/// evaluation failed, else the completion value converted to a string
/// (`Err` with the error text when that conversion failed).
pub type EngineRun = Result<Result<String, String>, String>;

pub open spec fn outcome_view(o: Option<String>) -> Option<Seq<char>> {
    match o {
        Some(m) => Some(m@),
        None => None,
    }
}

/// The outcome of one test from what its harness run gave back: `None` when
/// it passed, else why it failed.
pub open spec fn test_outcome_of(run: EngineRun, expected: Seq<char>) -> Option<Seq<char>> {
    match run {
        Err(e) => Some(e@),
        Ok(Err(e)) => Some(e@),
        Ok(Ok(encoded)) => match json_envelope(encoded@) {
            None => Some("the function did not return JSON-serializable data"@),
            Some((before, after, result)) => match envelope_verdict_of(before, after, result, expected) {
                Ok(()) => None,
                Err(m) => Some(m),
            },
        },
    }
}

/// Judge one test from what its harness run gave back.
pub fn test_outcome(run: &EngineRun, expected_json: &str) -> (r: Option<String>)
    ensures
        outcome_view(r) == test_outcome_of(*run, expected_json@),
{
    match run {
        Err(e) => Some(e.clone()),
        Ok(Err(e)) => Some(e.clone()),
        Ok(Ok(encoded)) => match envelope_fields(encoded.as_str()) {
            None => Some(String::from_str("the function did not return JSON-serializable data")),
            Some((before, after, result)) => {
                let res = match &result {
                    Some(x) => Some(x.as_str()),
                    None => None,
                };
                match envelope_verdict(before.as_str(), after.as_str(), res, expected_json) {
                    Ok(()) => None,
                    Err(m) => Some(m),
                }
            },
        },
    }
}

/// The message of a reply whose code does not parse.
pub fn parse_failure(error: &str) -> (r: String)
    ensures
        r@ == parse_failure_prefix() + error@,
{
    let mut msg = chars_of("The submission could not be parsed: ");
    let mut rest = chars_of(error);
    msg.append(&mut rest);
    string_of(&msg)
}

/// Grade a reply against the tests of a case, each test given as
/// `(id, label, input JSON, expected JSON)`, from what the engine gave back:
/// `parse` for the submitted code on its own and `runs[i]` for the harness
/// of test `i`. A reply that cannot be graded is refused with the reason,
/// code that does not parse is reported with the engine's error, and
/// otherwise each test is judged from its run and tallied.
pub fn grade_submission(
    markdown: &str,
    tests: &[(String, String, String, String)],
    parse: &Result<(), String>,
    runs: &[EngineRun],
) -> (r: Grade)
    requires
        submission_problem(markdown@) is None && parse is Ok ==> runs@.len() == tests@.len(),
    ensures
        r is Invalid <==> submission_problem(markdown@) is Some,
        r matches Grade::Invalid(f) ==> submission_problem(markdown@) == Some(f@),
        submission_problem(markdown@) is None ==> (r is SyntaxError <==> parse is Err),
        r matches Grade::SyntaxError(f) ==> (parse matches Err(e) && f@ == parse_failure_prefix() + e@),
        r matches Grade::Graded(t) ==> {
            &&& t.total == tests@.len()
            &&& t.passed + t.failed == t.total
            &&& t.status@ == (if t.failed == 0 {
                "passed"@
            } else {
                "failed"@
            })
            &&& exists|o: Seq<Option<String>>|
                o.len() == tests@.len() && (forall|i: int|
                    0 <= i < o.len() ==> outcome_view(#[trigger] o[i]) == test_outcome_of(
                        runs@[i],
                        tests@[i].3@,
                    )) && t.failed == count_failed(o) && feedback_views(t.feedback@)
                    == failure_lines(test_labels(tests@), o)
        },
{
    match check_submission(markdown) {
        Ok(_) => {},
        Err(f) => return Grade::Invalid(f),
    }
    match parse {
        Err(e) => return Grade::SyntaxError(parse_failure(e.as_str())),
        Ok(()) => {},
    }
    let mut labels: Vec<(String, String)> = Vec::new();
    let mut outcomes: Vec<Option<String>> = Vec::new();
    let mut i: usize = 0;
    while i < tests.len()
        invariant
            i <= tests.len(),
            runs@.len() == tests@.len(),
            labels@.len() == i,
            outcomes@.len() == i,
            forall|k: int| 0 <= k < i ==> #[trigger] labels@[k] == test_labels(tests@)[k],
            forall|k: int|
                0 <= k < i ==> outcome_view(#[trigger] outcomes@[k]) == test_outcome_of(
                    runs@[k],
                    tests@[k].3@,
                ),
        decreases tests.len() - i,
    {
        let o = test_outcome(&runs[i], tests[i].3.as_str());
        outcomes.push(o);
        let id = tests[i].0.clone();
        let label = tests[i].1.clone();
        labels.push((id, label));
        i = i + 1;
    }
    assert(labels@ =~= test_labels(tests@));
    let t = tally_outcomes(&labels, &outcomes);
    Grade::Graded(t)
}

} // verus!
