//! Decisions of the benchmark runner.
//!
//! The runner switches models, sends prompts and writes files; between
//! those steps it decides what to report and what to do next. Those
//! decisions are here, on plain values: the outcome of a prompt's
//! repetitions, the totals of its grades, whether a checkpoint on disk may
//! stand for a repetition, how a run ends and what happens to the server
//! afterwards.
use crate::benchmark_catalog::GradeTally;
use crate::local_api::{text_field, text_member};
use crate::process_manager::{entry_index, find_entry, Json};
use crate::script_scanner::Profile;
use crate::state::find_profile;
use crate::text::{chars_of, decimal, decimal_of, join, join_with, string_of, views};
use vstd::prelude::*;

verus! {

// ---------------------------------------------------------------------------
// The end of a run
// ---------------------------------------------------------------------------

/// What happens to the server once a run is over.
#[derive(Clone, Copy, Debug, PartialEq, Eq, Structural)]
pub enum RestoreAction {
    /// Launch again the profile that ran before the benchmark.
    Relaunch,
    /// That profile is the one running now: leave it.
    Keep,
    /// Nothing ran before, or its profile is gone: stop the server.
    Stop,
}

pub open spec fn has_profile(profiles: Seq<Profile>, id: Seq<char>) -> bool {
    exists|i: int| 0 <= i < profiles.len() && profiles[i].id@ == id
}

pub open spec fn restore_of(
    previous: Option<Seq<char>>,
    known: bool,
    current: Option<Seq<char>>,
) -> RestoreAction {
    match previous {
        Some(p) => if !known {
            RestoreAction::Stop
        } else if current == Some(p) {
            RestoreAction::Keep
        } else {
            RestoreAction::Relaunch
        },
        None => RestoreAction::Stop,
    }
}

pub open spec fn opt_view(o: Option<&str>) -> Option<Seq<char>> {
    match o {
        Some(s) => Some(s@),
        None => None,
    }
}

/// Restore what ran before the benchmark: relaunch that profile unless it
/// is already the running one; stop the server when nothing ran before or
/// the profile no longer exists.
pub fn restore_action(previous: Option<&str>, profiles: &[Profile], current: Option<&str>) -> (r:
    RestoreAction)
    ensures
        r == restore_of(
            opt_view(previous),
            previous is Some && has_profile(profiles@, previous->0@),
            opt_view(current),
        ),
{
    match previous {
        Some(id) => {
            match find_profile(profiles, id) {
                Some(_) => {
                    let same = match current {
                        Some(c) => crate::text::str_eq(c, id),
                        None => false,
                    };
                    if same {
                        RestoreAction::Keep
                    } else {
                        RestoreAction::Relaunch
                    }
                },
                None => {
                    assert(!has_profile(profiles@, id@));
                    RestoreAction::Stop
                },
            }
        },
        None => RestoreAction::Stop,
    }
}

/// The status a run ends with, or `None` when a newer run has replaced it
/// and it must end silently.
pub fn run_end_status(still_current: bool, cancelled: bool) -> (r: Option<&'static str>)
    ensures
        !still_current ==> r is None,
        still_current ==> r is Some && r->0@ == (if cancelled {
            "cancelled"@
        } else {
            "finished"@
        }),
{
    if !still_current {
        None
    } else if cancelled {
        Some("cancelled")
    } else {
        Some("finished")
    }
}

// ---------------------------------------------------------------------------
// The outcome of a prompt's repetitions
// ---------------------------------------------------------------------------

/// `Run {run_index}: {error}`, the line kept for a failed repetition.
pub fn repetition_error(run_index: u32, error: &str) -> (r: String)
    ensures
        r@ == "Run "@ + decimal(run_index as nat) + ": "@ + error@,
{
    let mut line = chars_of("Run ");
    let mut n = decimal_of(run_index as u64);
    line.append(&mut n);
    let mut colon = chars_of(": ");
    line.append(&mut colon);
    let mut e = chars_of(error);
    line.append(&mut e);
    string_of(&line)
}

/// The final state of one prompt after all its repetitions.
pub struct PromptOutcome {
    /// `done` when at least one repetition succeeded, else `error`.
    pub status: &'static str,
    /// Why repetitions failed, when any did.
    pub message: Option<String>,
}

pub open spec fn string_views(v: Seq<String>) -> Seq<Seq<char>> {
    v.map_values(|s: String| s@)
}

/// `{failed} of {runs} repetitions failed: {errors joined by "; "}`.
pub open spec fn failure_summary(errors: Seq<Seq<char>>, runs_per_prompt: nat) -> Seq<char> {
    decimal(errors.len()) + " of "@ + decimal(runs_per_prompt) + " repetitions failed: "@ + join(
        errors,
        "; "@,
    )
}

/// The state and message reported for a prompt: `error` when no
/// repetition succeeded, `done` otherwise; a message only when some
/// repetitions failed.
pub fn prompt_outcome(successful_runs: usize, errors: &[String], runs_per_prompt: u32) -> (r:
    PromptOutcome)
    ensures
        r.status@ == (if successful_runs == 0 {
            "error"@
        } else {
            "done"@
        }),
        errors@.len() == 0 ==> r.message is None,
        errors@.len() > 0 ==> r.message is Some && r.message->0@ == failure_summary(
            string_views(errors@),
            runs_per_prompt as nat,
        ),
{
    let status = if successful_runs == 0 {
        "error"
    } else {
        "done"
    };
    if errors.len() == 0 {
        return PromptOutcome { status, message: None };
    }
    let mut parts: Vec<Vec<char>> = Vec::new();
    let mut i: usize = 0;
    while i < errors.len()
        invariant
            i <= errors.len(),
            views(parts@) =~= string_views(errors@).take(i as int),
        decreases errors.len() - i,
    {
        let p = chars_of(errors[i].as_str());
        let ghost before = parts@;
        parts.push(p);
        assert(views(parts@) =~= views(before).push(p@));
        i = i + 1;
    }
    assert(string_views(errors@).take(errors.len() as int) =~= string_views(errors@));
    let mut text = decimal_of(errors.len() as u64);
    let mut of = chars_of(" of ");
    text.append(&mut of);
    let mut runs = decimal_of(runs_per_prompt as u64);
    text.append(&mut runs);
    let mut failed = chars_of(" repetitions failed: ");
    text.append(&mut failed);
    let sep = chars_of("; ");
    let mut joined = join_with(&parts, &sep);
    text.append(&mut joined);
    PromptOutcome { status, message: Some(string_of(&text)) }
}

// ---------------------------------------------------------------------------
// Totals over the graded repetitions of a prompt
// ---------------------------------------------------------------------------

pub open spec fn passed_sum(g: Seq<GradeTally>) -> nat
    decreases g.len(),
{
    if g.len() == 0 {
        0
    } else {
        passed_sum(g.drop_last()) + g.last().passed as nat
    }
}

pub open spec fn total_sum(g: Seq<GradeTally>) -> nat
    decreases g.len(),
{
    if g.len() == 0 {
        0
    } else {
        total_sum(g.drop_last()) + g.last().total as nat
    }
}

pub open spec fn all_passed(g: Seq<GradeTally>) -> bool {
    forall|i: int| 0 <= i < g.len() ==> g[i].status@ == "passed"@
}

/// Test counts summed over the graded repetitions, and whether every one
/// of them passed; all three are `None` when no repetition was graded.
pub struct GradeSummary {
    pub passed_tests: Option<usize>,
    pub total_tests: Option<usize>,
    pub all_passed: Option<bool>,
}

proof fn lemma_sums_prefix(g: Seq<GradeTally>, i: int)
    requires
        0 <= i <= g.len(),
    ensures
        passed_sum(g.take(i)) <= passed_sum(g),
        total_sum(g.take(i)) <= total_sum(g),
    decreases g.len(),
{
    if i < g.len() {
        assert(g.drop_last().take(i) =~= g.take(i));
        lemma_sums_prefix(g.drop_last(), i);
    } else {
        assert(g.take(i) =~= g);
    }
}

/// Sum the passed and total tests of the graded repetitions; the grade
/// status is `passed` only when every repetition passed.
pub fn summarize_grades(grades: &[GradeTally]) -> (r: GradeSummary)
    requires
        passed_sum(grades@) <= usize::MAX,
        total_sum(grades@) <= usize::MAX,
    ensures
        grades@.len() == 0 ==> r.passed_tests is None && r.total_tests is None && r.all_passed is None,
        grades@.len() > 0 ==> r.passed_tests == Some(passed_sum(grades@) as usize) && r.total_tests
            == Some(total_sum(grades@) as usize) && r.all_passed == Some(all_passed(grades@)),
{
    if grades.len() == 0 {
        return GradeSummary { passed_tests: None, total_tests: None, all_passed: None };
    }
    let mut passed: usize = 0;
    let mut total: usize = 0;
    let mut every: bool = true;
    let mut i: usize = 0;
    while i < grades.len()
        invariant
            i <= grades.len(),
            passed == passed_sum(grades@.take(i as int)),
            total == total_sum(grades@.take(i as int)),
            every == all_passed(grades@.take(i as int)),
            passed_sum(grades@) <= usize::MAX,
            total_sum(grades@) <= usize::MAX,
        decreases grades.len() - i,
    {
        let ghost t = grades@.take(i + 1);
        assert(t.drop_last() =~= grades@.take(i as int));
        proof {
            lemma_sums_prefix(grades@, i + 1);
        }
        passed = passed + grades[i].passed;
        total = total + grades[i].total;
        let ok = crate::text::str_eq(grades[i].status.as_str(), "passed");
        proof {
            if every && ok {
                assert forall|j: int| 0 <= j < i + 1 implies t[j].status@ == "passed"@ by {
                    if j < i {
                        assert(grades@.take(i as int)[j] == t[j]);
                    }
                }
            }
            if !ok {
                assert(t[i as int] == grades@[i as int]);
            }
            if !every {
                let w = choose|j: int| 0 <= j < i && !(grades@.take(i as int)[j].status@ == "passed"@);
                assert(t[w] == grades@.take(i as int)[w]);
            }
        }
        every = every && ok;
        i = i + 1;
    }
    assert(grades@.take(grades.len() as int) =~= grades@);
    GradeSummary { passed_tests: Some(passed), total_tests: Some(total), all_passed: Some(every) }
}

// ---------------------------------------------------------------------------
// Checkpoints
// ---------------------------------------------------------------------------

/// The member `key` of a JSON object.
pub open spec fn member_of(body: Json, key: Seq<char>) -> Option<Json> {
    match body {
        Json::Object(entries) => {
            let k = entry_index(entries@, key);
            if 0 <= k < entries@.len() {
                Some(entries@[k].1)
            } else {
                None
            }
        },
        _ => None,
    }
}

/// A repetition's metadata may stand for it only when it was completely
/// written and names the same fingerprint, profile, alias, prompt and
/// repetition.
pub open spec fn checkpoint_matches(
    meta: Json,
    resume_key: Seq<char>,
    profile_id: Seq<char>,
    alias: Seq<char>,
    prompt_id: Seq<char>,
    run_index: u32,
) -> bool {
    &&& member_of(meta, "checkpointComplete"@) == Some(Json::Bool(true))
    &&& text_member(meta, "resumeKey"@) == Some(resume_key)
    &&& text_member(meta, "profileId"@) == Some(profile_id)
    &&& text_member(meta, "alias"@) == Some(alias)
    &&& text_member(meta, "promptId"@) == Some(prompt_id)
    &&& member_of(meta, "runIndex"@) == Some(Json::Number(Some(run_index as u64)))
}

fn member_is_true(meta: &Json, key: &str) -> (r: bool)
    ensures
        r == (member_of(*meta, key@) == Some(Json::Bool(true))),
{
    match meta {
        Json::Object(entries) => match find_entry(entries, key) {
            Some(k) => match &entries[k].1 {
                Json::Bool(b) => *b,
                _ => false,
            },
            None => false,
        },
        _ => false,
    }
}

fn member_is_number(meta: &Json, key: &str, n: u64) -> (r: bool)
    ensures
        r == (member_of(*meta, key@) == Some(Json::Number(Some(n)))),
{
    match meta {
        Json::Object(entries) => match find_entry(entries, key) {
            Some(k) => match &entries[k].1 {
                Json::Number(Some(m)) => *m == n,
                _ => false,
            },
            None => false,
        },
        _ => false,
    }
}

fn member_is_text(meta: &Json, key: &str, expected: &str) -> (r: bool)
    ensures
        r == (text_member(*meta, key@) == Some(expected@)),
{
    match text_field(meta, key) {
        Some(v) => crate::text::str_eq(v.as_str(), expected),
        None => false,
    }
}

/// Whether the metadata of a repetition written earlier may be reused for
/// this repetition.
pub fn checkpoint_accepts(
    meta: &Json,
    resume_key: &str,
    profile_id: &str,
    alias: &str,
    prompt_id: &str,
    run_index: u32,
) -> (r: bool)
    ensures
        r == checkpoint_matches(*meta, resume_key@, profile_id@, alias@, prompt_id@, run_index),
{
    member_is_true(meta, "checkpointComplete") && member_is_text(meta, "resumeKey", resume_key)
        && member_is_text(meta, "profileId", profile_id) && member_is_text(meta, "alias", alias)
        && member_is_text(meta, "promptId", prompt_id) && member_is_number(
        meta,
        "runIndex",
        run_index as u64,
    )
}

// ---------------------------------------------------------------------------
// Messages
// ---------------------------------------------------------------------------

/// The timeout as the runner applies it: at least one second.
pub open spec fn at_least_one(seconds: u64) -> u64 {
    if seconds < 1 {
        1
    } else {
        seconds
    }
}

/// `Server did not become healthy within {seconds} seconds.`
pub fn model_start_failure(timeout_seconds: u64) -> (r: String)
    ensures
        r@ == "Server did not become healthy within "@ + decimal(at_least_one(timeout_seconds) as nat)
            + " seconds."@,
{
    let t: u64 = if timeout_seconds < 1 {
        1
    } else {
        timeout_seconds
    };
    let mut text = chars_of("Server did not become healthy within ");
    let mut n = decimal_of(t);
    text.append(&mut n);
    let mut tail = chars_of(" seconds.");
    text.append(&mut tail);
    string_of(&text)
}

/// The feedback of a professional case whose generation timed out.
pub fn timeout_feedback(timeout_seconds: u64) -> (r: String)
    ensures
        r@ == "Generation exceeded the "@ + decimal(at_least_one(timeout_seconds) as nat)
            + " second per-test timeout."@,
{
    let t: u64 = if timeout_seconds < 1 {
        1
    } else {
        timeout_seconds
    };
    let mut text = chars_of("Generation exceeded the ");
    let mut n = decimal_of(t);
    text.append(&mut n);
    let mut tail = chars_of(" second per-test timeout.");
    text.append(&mut tail);
    string_of(&text)
}

// ---------------------------------------------------------------------------
// The order of the run
// ---------------------------------------------------------------------------

/// Where a run stands: the model, the item (custom prompt or professional
/// case) and the repetition (from 1) being worked on.
#[derive(Clone, Copy, Debug, PartialEq, Eq, Structural)]
pub struct RunCursor {
    pub model: usize,
    pub item: usize,
    pub run: u32,
}

/// What the runner reports back after doing an action.
#[derive(Clone, Copy, Debug, PartialEq, Eq, Structural)]
pub enum RunEvent {
    /// The run starts.
    Begin,
    /// The run must stop: it was cancelled (while paused, between
    /// evaluations, or while a request was in flight).
    Halted,
    /// The model cannot be used: unknown, or it did not start or become
    /// healthy.
    ModelSkipped,
    /// The model is serving.
    ModelReady,
    /// A repetition ended: resumed from a checkpoint, answered, or failed.
    RepetitionDone,
    /// The prompt's outcome over its repetitions was reported.
    PromptSummarized,
}

/// What the runner does next. Before preparing a model and before each
/// repetition it waits while the run is paused, and reports `Halted` when
/// the run is cancelled.
#[derive(Clone, Copy, Debug, PartialEq, Eq, Structural)]
pub enum RunAction {
    /// Make the model the running, healthy one (model index).
    PrepareModel(usize),
    /// Run one repetition (model, item, repetition from 1).
    Repetition(usize, usize, u32),
    /// Report the prompt's outcome over its repetitions (model, item).
    SummarizePrompt(usize, usize),
    /// Write the report and restore the server.
    Finish,
}

pub open spec fn next_model_of(cursor: RunCursor, models: usize) -> (RunCursor, RunAction) {
    if cursor.model + 1 < models {
        (RunCursor { model: (cursor.model + 1) as usize, item: 0, run: 1 }, RunAction::PrepareModel((cursor.model + 1) as usize))
    } else {
        (cursor, RunAction::Finish)
    }
}

pub open spec fn start_item_of(model: usize, item: usize, runs: u32) -> (RunCursor, RunAction) {
    if runs == 0 {
        (RunCursor { model, item, run: 1 }, RunAction::SummarizePrompt(model, item))
    } else {
        (RunCursor { model, item, run: 1 }, RunAction::Repetition(model, item, 1))
    }
}

/// Models in order; for each model every item in order; for each item its
/// repetitions 1..=runs, then its summary.
pub open spec fn run_step_of(cursor: RunCursor, event: RunEvent, models: usize, items: usize, runs: u32) -> (
    RunCursor,
    RunAction,
) {
    match event {
        RunEvent::Begin => if models == 0 {
            (RunCursor { model: 0, item: 0, run: 1 }, RunAction::Finish)
        } else {
            (RunCursor { model: 0, item: 0, run: 1 }, RunAction::PrepareModel(0))
        },
        RunEvent::Halted => (cursor, RunAction::Finish),
        RunEvent::ModelSkipped => next_model_of(cursor, models),
        RunEvent::ModelReady => if items == 0 {
            next_model_of(cursor, models)
        } else {
            start_item_of(cursor.model, 0, runs)
        },
        RunEvent::RepetitionDone => if cursor.run < runs {
            (
                RunCursor { run: (cursor.run + 1) as u32, ..cursor },
                RunAction::Repetition(cursor.model, cursor.item, (cursor.run + 1) as u32),
            )
        } else {
            (cursor, RunAction::SummarizePrompt(cursor.model, cursor.item))
        },
        RunEvent::PromptSummarized => if cursor.item + 1 < items {
            start_item_of(cursor.model, (cursor.item + 1) as usize, runs)
        } else {
            next_model_of(cursor, models)
        },
    }
}

fn next_model(cursor: RunCursor, models: usize) -> (r: (RunCursor, RunAction))
    ensures
        r == next_model_of(cursor, models),
{
    if cursor.model < models && cursor.model + 1 < models {
        (RunCursor { model: cursor.model + 1, item: 0, run: 1 }, RunAction::PrepareModel(cursor.model + 1))
    } else {
        (cursor, RunAction::Finish)
    }
}

fn start_item(model: usize, item: usize, runs: u32) -> (r: (RunCursor, RunAction))
    ensures
        r == start_item_of(model, item, runs),
{
    if runs == 0 {
        (RunCursor { model, item, run: 1 }, RunAction::SummarizePrompt(model, item))
    } else {
        (RunCursor { model, item, run: 1 }, RunAction::Repetition(model, item, 1))
    }
}

/// The runner's next action after an event: models in order, each item of
/// a ready model in order, each item's repetitions then its summary; a
/// skipped model moves on to the next one, and a halt ends the run.
pub fn run_step(cursor: RunCursor, event: RunEvent, models: usize, items: usize, runs: u32) -> (r: (
    RunCursor,
    RunAction,
))
    ensures
        r == run_step_of(cursor, event, models, items, runs),
{
    match event {
        RunEvent::Begin => if models == 0 {
            (RunCursor { model: 0, item: 0, run: 1 }, RunAction::Finish)
        } else {
            (RunCursor { model: 0, item: 0, run: 1 }, RunAction::PrepareModel(0))
        },
        RunEvent::Halted => (cursor, RunAction::Finish),
        RunEvent::ModelSkipped => next_model(cursor, models),
        RunEvent::ModelReady => if items == 0 {
            next_model(cursor, models)
        } else {
            start_item(cursor.model, 0, runs)
        },
        RunEvent::RepetitionDone => if cursor.run < runs {
            (
                RunCursor { model: cursor.model, item: cursor.item, run: cursor.run + 1 },
                RunAction::Repetition(cursor.model, cursor.item, cursor.run + 1),
            )
        } else {
            (cursor, RunAction::SummarizePrompt(cursor.model, cursor.item))
        },
        RunEvent::PromptSummarized => if cursor.item < items && cursor.item + 1 < items {
            start_item(cursor.model, cursor.item + 1, runs)
        } else {
            next_model(cursor, models)
        },
    }
}

/// A cursor of the run: inside the model, item and repetition ranges.
pub open spec fn cursor_in_range(c: RunCursor, models: usize, items: usize, runs: u32) -> bool {
    c.model < models && c.item < items && 1 <= c.run && (runs > 0 ==> c.run <= runs)
}

/// The runner never leaves the ranges: from `Begin`, or from a cursor in
/// range, every repetition it asks for names an existing model and item
/// and a repetition in 1..=runs, every model it prepares exists, and the
/// new cursor is in range unless the run finishes.
pub proof fn law_run_stays_in_range(cursor: RunCursor, event: RunEvent, models: usize, items: usize, runs: u32)
    requires
        event == RunEvent::Begin || event == RunEvent::Halted || (event == RunEvent::ModelSkipped && cursor.model < models)
            || (event == RunEvent::ModelReady && cursor.model < models) || cursor_in_range(cursor, models, items, runs),
    ensures
        ({
            let (c, a) = run_step_of(cursor, event, models, items, runs);
            &&& (a matches RunAction::Repetition(m, i, k) ==> m < models && i < items && 1 <= k <= runs && c
                == RunCursor { model: m, item: i, run: k })
            &&& (a matches RunAction::PrepareModel(m) ==> m < models && c.model == m)
            &&& (a matches RunAction::SummarizePrompt(m, i) ==> m < models && i < items)
        }),
{
}

// ---------------------------------------------------------------------------
// The reply of a chat completion
// ---------------------------------------------------------------------------

/// The text of the first choice's message (`choices[0].message.content`),
/// or nothing when the reply holds no such text.
pub open spec fn reply_content_of(body: Json) -> Seq<char> {
    match member_of(body, "choices"@) {
        Some(Json::Array(items)) => if items@.len() > 0 {
            match member_of(items@[0], "message"@) {
                Some(m) => match member_of(m, "content"@) {
                    Some(Json::Text(t)) => t@,
                    _ => Seq::empty(),
                },
                None => Seq::empty(),
            }
        } else {
            Seq::empty()
        },
        _ => Seq::empty(),
    }
}

fn member<'a>(body: &'a Json, key: &str) -> (r: Option<&'a Json>)
    ensures
        match r {
            Some(v) => member_of(*body, key@) == Some(*v),
            None => member_of(*body, key@) is None,
        },
{
    match body {
        Json::Object(entries) => match find_entry(entries, key) {
            Some(k) => Some(&entries[k].1),
            None => None,
        },
        _ => None,
    }
}

/// The answer text of a chat-completion reply; empty when it has none.
pub fn reply_content(body: &Json) -> (r: String)
    ensures
        r@ == reply_content_of(*body),
{
    let empty = String::new();
    assert(empty@ =~= Seq::<char>::empty());
    match member(body, "choices") {
        Some(Json::Array(items)) => {
            if items.len() == 0 {
                return empty;
            }
            match member(&items[0], "message") {
                Some(m) => match member(m, "content") {
                    Some(Json::Text(t)) => t.clone(),
                    _ => empty,
                },
                None => empty,
            }
        },
        _ => empty,
    }
}

} // verus!
