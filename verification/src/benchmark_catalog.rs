//! Grading rules for the locally graded professional benchmark cases: which
//! replies are accepted for evaluation, which host or dynamic-code constructs
//! are refused, and how test outcomes are tallied.
use crate::benchmark::{code_blocks, code_blocks_of};
use crate::text::{
    ascii_lower_seq, ascii_lowercase, chars_of, has_prefix, is_ascii_alnum, matches_at, occurs_at, same_chars, starts_with, string_of, trim, trim_start,
    trim_start_with, trim_with, ascii_alnum, CharSet, decimal, decimal_of,
};
use vstd::prelude::*;

verus! {

/// Identifier of the bundled suite.
pub const SUITE_ID: &'static str = "professional-js";

/// Version of the bundled suite.
pub const SUITE_VERSION: u32 = 2;

/// Largest accepted submission, in bytes.
pub const MAX_SUBMISSION_BYTES: usize = 131072;

// ---------------------------------------------------------------------------
// Identifier scan
// ---------------------------------------------------------------------------

/// A character that can continue a JavaScript identifier (ASCII view).
pub open spec fn is_ident_continue(c: char) -> bool {
    is_ascii_alnum(c) || c == '_' || c == '$'
}

pub fn is_identifier_continue(character: char) -> (r: bool)
    ensures
        r == is_ident_continue(character),
{
    ascii_alnum(character) || character == '_' || character == '$'
}

/// An identifier made of identifier characters only.
pub open spec fn plain_identifier(id: Seq<char>) -> bool {
    id.len() > 0 && forall|i: int| 0 <= i < id.len() ==> is_ident_continue(#[trigger] id[i])
}

/// `id` occurs at `i` and is not part of a longer identifier.
pub open spec fn whole_word_at(code: Seq<char>, id: Seq<char>, i: int) -> bool {
    &&& occurs_at(code, id, i)
    &&& !(i > 0 && is_ident_continue(code[i - 1]))
    &&& !(i + id.len() < code.len() && is_ident_continue(code[i + id.len()]))
}

pub open spec fn has_identifier(code: Seq<char>, id: Seq<char>) -> bool {
    exists|i: int| whole_word_at(code, id, i)
}

fn word_boundary_at(code: &[char], id: &[char], i: usize) -> (r: bool)
    ensures
        r == whole_word_at(code@, id@, i as int),
{
    if !matches_at(code, id, i) {
        return false;
    }
    if i > 0 && is_identifier_continue(code[i - 1]) {
        return false;
    }
    let end = i + id.len();
    if end < code.len() && is_identifier_continue(code[end]) {
        return false;
    }
    true
}

/// Does `identifier` occur in `code` as a whole identifier (not as part of a
/// longer one)? The names screened for are plain identifiers, for which
/// looking at every position finds what a left-to-right search of
/// non-overlapping matches finds.
fn contains_identifier(code: &[char], identifier: &[char]) -> (r: bool)
    requires
        plain_identifier(identifier@),
    ensures
        r == has_identifier(code@, identifier@),
{
    let mut i: usize = 0;
    while i < code.len()
        invariant
            i <= code.len(),
            forall|j: int| 0 <= j < i ==> !whole_word_at(code@, identifier@, j),
        decreases code.len() - i,
    {
        if word_boundary_at(code, identifier, i) {
            return true;
        }
        i = i + 1;
    }
    assert forall|j: int| !whole_word_at(code@, identifier@, j) by {
        if 0 <= j && j + identifier@.len() <= code@.len() {
            assert(j < i);
        }
    }
    false
}

/// `first` occurs at `i` as the start of an identifier and is followed,
/// after optional whitespace, by the whole identifier `second`.
pub open spec fn sequence_at(code: Seq<char>, first: Seq<char>, second: Seq<char>, i: int) -> bool {
    &&& occurs_at(code, first, i)
    &&& !(i > 0 && is_ident_continue(code[i - 1]))
    &&& {
        let rest = trim_start(code.skip(i + first.len()), CharSet::Whitespace);
        &&& starts_with(rest, second)
        &&& !(second.len() < rest.len() && is_ident_continue(rest[second.len() as int]))
    }
}

pub open spec fn has_identifier_sequence(code: Seq<char>, first: Seq<char>, second: Seq<char>) -> bool {
    exists|i: int| sequence_at(code, first, second, i)
}

fn sequence_at_index(code: &[char], first: &[char], second: &[char], i: usize) -> (r: bool)
    ensures
        r == sequence_at(code@, first@, second@, i as int),
{
    if !matches_at(code, first, i) {
        return false;
    }
    if i > 0 && is_identifier_continue(code[i - 1]) {
        return false;
    }
    let start = i + first.len();
    let rest_all = crate::text::copy_range(code, start, code.len());
    assert(rest_all@ =~= code@.skip(start as int));
    let rest = trim_start_with(&rest_all, CharSet::Whitespace);
    if !has_prefix(&rest, second) {
        return false;
    }
    if second.len() < rest.len() && is_identifier_continue(rest[second.len()]) {
        return false;
    }
    true
}

/// Does `first` start an identifier that is followed, after optional
/// whitespace, by the whole identifier `second`?
fn contains_identifier_sequence(code: &[char], first: &[char], second: &[char]) -> (r: bool)
    requires
        plain_identifier(first@),
    ensures
        r == has_identifier_sequence(code@, first@, second@),
{
    let mut i: usize = 0;
    while i < code.len()
        invariant
            i <= code.len(),
            forall|j: int| 0 <= j < i ==> !sequence_at(code@, first@, second@, j),
        decreases code.len() - i,
    {
        if sequence_at_index(code, first, second, i) {
            return true;
        }
        i = i + 1;
    }
    assert forall|j: int| !sequence_at(code@, first@, second@, j) by {
        if 0 <= j && j + first@.len() <= code@.len() {
            assert(j < i);
        }
    }
    false
}

// ---------------------------------------------------------------------------
// Forbidden constructs
// ---------------------------------------------------------------------------

/// The refused identifiers, as (lowercase spelling, reported name), in the
/// order they are checked.
pub open spec fn forbidden_identifiers() -> Seq<(Seq<char>, Seq<char>)> {
    seq![
        ("import"@, "import"@),
        ("require"@, "require"@),
        ("process"@, "process"@),
        ("deno"@, "Deno"@),
        ("fetch"@, "fetch"@),
        ("xmlhttprequest"@, "XMLHttpRequest"@),
        ("websocket"@, "WebSocket"@),
        ("__dirname"@, "__dirname"@),
        ("__filename"@, "__filename"@),
        ("readfile"@, "readFile"@),
        ("writefile"@, "writeFile"@),
        ("eval"@, "eval"@),
    ]
}

/// What the safety scan reports for a submission: the first refused
/// identifier that occurs (any ASCII case) as a whole identifier, else the
/// `Function` constructor (`new Function`), else nothing.
pub open spec fn forbidden_of(code: Seq<char>) -> Option<Seq<char>> {
    let lowered = ascii_lower_seq(code);
    let ids = forbidden_identifiers();
    if exists|k: int|
        0 <= k < ids.len() && has_identifier(lowered, #[trigger] ids[k].0) && forall|j: int|
            0 <= j < k ==> !has_identifier(lowered, #[trigger] ids[j].0) {
        let k = choose|k: int|
            0 <= k < ids.len() && has_identifier(lowered, #[trigger] ids[k].0) && forall|j: int|
                0 <= j < k ==> !has_identifier(lowered, #[trigger] ids[j].0);
        Some(ids[k].1)
    } else if has_identifier_sequence(lowered, "new"@, "function"@) {
        Some("Function constructor"@)
    } else {
        None
    }
}

fn identifier_entry(k: usize) -> (r: (Vec<char>, &'static str))
    requires
        k < 12,
    ensures
        r.0@ == forbidden_identifiers()[k as int].0,
        r.1@ == forbidden_identifiers()[k as int].1,
        plain_identifier(r.0@),
{
    proof {
        reveal_strlit("import");
        reveal_strlit("require");
        reveal_strlit("process");
        reveal_strlit("deno");
        reveal_strlit("Deno");
        reveal_strlit("fetch");
        reveal_strlit("xmlhttprequest");
        reveal_strlit("XMLHttpRequest");
        reveal_strlit("websocket");
        reveal_strlit("WebSocket");
        reveal_strlit("__dirname");
        reveal_strlit("__filename");
        reveal_strlit("readfile");
        reveal_strlit("readFile");
        reveal_strlit("writefile");
        reveal_strlit("writeFile");
        reveal_strlit("eval");
    }
    let name: &'static str = if k == 0 {
        "import"
    } else if k == 1 {
        "require"
    } else if k == 2 {
        "process"
    } else if k == 3 {
        "Deno"
    } else if k == 4 {
        "fetch"
    } else if k == 5 {
        "XMLHttpRequest"
    } else if k == 6 {
        "WebSocket"
    } else if k == 7 {
        "__dirname"
    } else if k == 8 {
        "__filename"
    } else if k == 9 {
        "readFile"
    } else if k == 10 {
        "writeFile"
    } else {
        "eval"
    };
    let spelling: &'static str = if k == 0 {
        "import"
    } else if k == 1 {
        "require"
    } else if k == 2 {
        "process"
    } else if k == 3 {
        "deno"
    } else if k == 4 {
        "fetch"
    } else if k == 5 {
        "xmlhttprequest"
    } else if k == 6 {
        "websocket"
    } else if k == 7 {
        "__dirname"
    } else if k == 8 {
        "__filename"
    } else if k == 9 {
        "readfile"
    } else if k == 10 {
        "writefile"
    } else {
        "eval"
    };
    let s = chars_of(spelling);
    (s, name)
}

/// The first disallowed host or dynamic-code construct in a submission.
pub fn forbidden_construct(code: &str) -> (r: Option<&'static str>)
    ensures
        match r {
            Some(name) => forbidden_of(code@) == Some(name@),
            None => forbidden_of(code@) is None,
        },
{
    let lowered = ascii_lowercase(&chars_of(code));
    let ghost ids = forbidden_identifiers();
    let mut k: usize = 0;
    while k < 12
        invariant
            k <= 12,
            ids == forbidden_identifiers(),
            lowered@ == ascii_lower_seq(code@),
            forall|j: int| 0 <= j < k ==> !has_identifier(lowered@, #[trigger] ids[j].0),
        decreases 12 - k,
    {
        let (spelling, name) = identifier_entry(k);
        if contains_identifier(&lowered, &spelling) {
            assert(0 <= k < ids.len() && has_identifier(lowered@, ids[k as int].0) && forall|
                j: int,
            | 0 <= j < k ==> !has_identifier(lowered@, #[trigger] ids[j].0));
            proof {
                let c = choose|c: int|
                    0 <= c < ids.len() && has_identifier(lowered@, #[trigger] ids[c].0) && forall|
                        j: int,
                    | 0 <= j < c ==> !has_identifier(lowered@, #[trigger] ids[j].0);
                if c < k {
                } else if c > k {
                    assert(!has_identifier(lowered@, ids[k as int].0));
                }
            }
            return Some(name);
        }
        k = k + 1;
    }
    let new_word = chars_of("new");
    let function_word = chars_of("function");
    proof {
        reveal_strlit("new");
        reveal_strlit("Function constructor");
    }
    if contains_identifier_sequence(&lowered, &new_word, &function_word) {
        Some("Function constructor")
    } else {
        None
    }
}

// ---------------------------------------------------------------------------
// Submission checks and tallies
// ---------------------------------------------------------------------------

pub open spec fn is_javascript_tag(lang: Seq<char>) -> bool {
    let l = ascii_lower_seq(trim(lang, CharSet::Whitespace));
    l == "javascript"@ || l == "js"@
}

/// Why a reply is not graded at all, checked in this order: it must hold
/// exactly one fenced block, tagged JavaScript, at most 128 KiB long, using
/// no refused construct.
pub open spec fn submission_problem(markdown: Seq<char>) -> Option<Seq<char>> {
    let blocks = code_blocks_of(markdown);
    if blocks.len() != 1 {
        Some(
            "Expected exactly one fenced JavaScript block; received "@ + decimal(
                blocks.len(),
            ) + "."@,
        )
    } else if !is_javascript_tag(blocks[0].0) {
        Some("The submission must use a ```javascript code block."@)
    } else if vstd::utf8::encode_utf8(blocks[0].1).len() > 131072 {
        Some("Submission exceeds the 128 KiB limit."@)
    } else if forbidden_of(blocks[0].1) is Some {
        Some(
            "The submission uses a disallowed host or dynamic-code construct: "@ + forbidden_of(
                blocks[0].1,
            )->0 + "."@,
        )
    } else {
        None
    }
}

/// The JavaScript of a reply that may be graded, or the feedback that
/// explains why the reply is refused (status `invalid_response`).
pub fn check_submission(markdown: &str) -> (r: Result<String, String>)
    ensures
        match r {
            Ok(code) => submission_problem(markdown@) is None && code@ == code_blocks_of(
                markdown@,
            )[0].1,
            Err(feedback) => submission_problem(markdown@) == Some(feedback@),
        },
{
    let md = chars_of(markdown);
    let blocks = code_blocks(&md);
    let ghost bv = code_blocks_of(markdown@);
    proof {
        assert(crate::benchmark::pair_char_views(blocks@).len() == blocks@.len());
        assert(bv.len() == blocks@.len());
    }
    if blocks.len() != 1 {
        let mut msg = chars_of("Expected exactly one fenced JavaScript block; received ");
        let mut n = decimal_of(blocks.len() as u64);
        msg.append(&mut n);
        let mut dot = chars_of(".");
        msg.append(&mut dot);
        assert(msg@ =~= "Expected exactly one fenced JavaScript block; received "@ + decimal(
            bv.len(),
        ) + "."@);
        return Err(string_of(&msg));
    }
    let lang = ascii_lowercase(&trim_with(blocks[0].0.as_slice(), CharSet::Whitespace));
    let javascript = chars_of("javascript");
    let js = chars_of("js");
    assert(crate::benchmark::pair_char_views(blocks@)[0] == (blocks@[0].0@, blocks@[0].1@));
    assert(bv[0] == (blocks@[0].0@, blocks@[0].1@));
    if !same_chars(&lang, &javascript) && !same_chars(&lang, &js) {
        assert(!is_javascript_tag(bv[0].0));
        return Err(String::from_str("The submission must use a ```javascript code block."));
    }
    assert(is_javascript_tag(bv[0].0));
    let code = string_of(blocks[0].1.as_slice());
    assert(code@ == bv[0].1);
    let code_text = code.as_str();
    let byte_len = code_text.as_bytes().len();
    assert(byte_len == vstd::utf8::encode_utf8(bv[0].1).len());
    if byte_len > MAX_SUBMISSION_BYTES {
        return Err(String::from_str("Submission exceeds the 128 KiB limit."));
    }
    assert(vstd::utf8::encode_utf8(bv[0].1).len() <= 131072);
    match forbidden_construct(code.as_str()) {
        Some(name) => {
            let mut msg = chars_of(
                "The submission uses a disallowed host or dynamic-code construct: ",
            );
            let mut n = chars_of(name);
            msg.append(&mut n);
            let mut dot = chars_of(".");
            msg.append(&mut dot);
            assert(msg@ =~= "The submission uses a disallowed host or dynamic-code construct: "@
                + forbidden_of(bv[0].1)->0 + "."@);
            Err(string_of(&msg))
        },
        None => {
            assert(submission_problem(markdown@) is None);
            Ok(code)
        },
    }
}

/// Passed, failed and total test counts, the status and the feedback lines
/// of one graded submission.
pub struct GradeTally {
    pub passed: usize,
    pub failed: usize,
    pub total: usize,
    pub status: String,
    pub feedback: Vec<String>,
}

pub open spec fn count_failed(outcomes: Seq<Option<String>>) -> nat
    decreases outcomes.len(),
{
    if outcomes.len() == 0 {
        0
    } else {
        count_failed(outcomes.drop_last()) + if outcomes.last() is Some {
            1nat
        } else {
            0nat
        }
    }
}

/// The feedback lines of the first six failures: `id (label): message`.
pub open spec fn failure_lines(
    tests: Seq<(String, String)>,
    outcomes: Seq<Option<String>>,
) -> Seq<Seq<char>>
    decreases outcomes.len(),
{
    if outcomes.len() == 0 {
        Seq::empty()
    } else {
        let prev = failure_lines(tests.take(outcomes.len() - 1), outcomes.drop_last());
        match outcomes.last() {
            Some(m) => if prev.len() < 6 {
                let t = tests[outcomes.len() - 1];
                prev.push(t.0@ + " ("@ + t.1@ + "): "@ + m@)
            } else {
                prev
            },
            None => prev,
        }
    }
}

pub open spec fn feedback_views(v: Seq<String>) -> Seq<Seq<char>> {
    v.map_values(|x: String| x@)
}

/// Tally the outcome of each test (`None` when it passed, else why it
/// failed): counts, `passed` when no test failed and `failed` otherwise, and
/// feedback for at most the first six failures.
pub fn tally_outcomes(tests: &[(String, String)], outcomes: &[Option<String>]) -> (r: GradeTally)
    requires
        tests@.len() == outcomes@.len(),
    ensures
        r.total == outcomes@.len(),
        r.failed == count_failed(outcomes@),
        r.passed + r.failed == r.total,
        r.status@ == (if r.failed == 0 {
            "passed"@
        } else {
            "failed"@
        }),
        feedback_views(r.feedback@) == failure_lines(tests@, outcomes@),
{
    let mut passed: usize = 0;
    let mut failed: usize = 0;
    let mut feedback: Vec<String> = Vec::new();
    let mut i: usize = 0;
    while i < outcomes.len()
        invariant
            i <= outcomes.len(),
            tests@.len() == outcomes@.len(),
            passed + failed == i,
            failed == count_failed(outcomes@.take(i as int)),
            feedback_views(feedback@) == failure_lines(tests@.take(i as int), outcomes@.take(
                i as int,
            )),
            feedback@.len() <= 6,
        decreases outcomes.len() - i,
    {
        assert(outcomes@.take(i + 1).drop_last() =~= outcomes@.take(i as int));
        assert(tests@.take(i + 1).take(i as int) =~= tests@.take(i as int));
        match &outcomes[i] {
            Some(message) => {
                failed = failed + 1;
                if feedback.len() < 6 {
                    let mut line = chars_of(tests[i].0.as_str());
                    let mut a = chars_of(" (");
                    line.append(&mut a);
                    let mut b = chars_of(tests[i].1.as_str());
                    line.append(&mut b);
                    let mut c = chars_of("): ");
                    line.append(&mut c);
                    let mut m = chars_of(message.as_str());
                    line.append(&mut m);
                    let ghost before = feedback@;
                    let s = string_of(&line);
                    feedback.push(s);
                    assert(feedback_views(feedback@) =~= feedback_views(before).push(s@));
                }
            },
            None => {
                passed = passed + 1;
            },
        }
        i = i + 1;
    }
    assert(outcomes@.take(outcomes.len() as int) =~= outcomes@);
    assert(tests@.take(outcomes.len() as int) =~= tests@);
    let status = if failed == 0 {
        String::from_str("passed")
    } else {
        String::from_str("failed")
    };
    GradeTally { passed, failed, total: outcomes.len(), status, feedback }
}

// ---------------------------------------------------------------------------
// Running one test of a submission
// ---------------------------------------------------------------------------

/// The VM loop budget for a grading limit in seconds: the limit clamped to
/// 1..=300, times 8333.
pub open spec fn loop_budget_of(grading_timeout_seconds: u64) -> u64 {
    let t = if grading_timeout_seconds < 1 {
        1
    } else if grading_timeout_seconds > 300 {
        300
    } else {
        grading_timeout_seconds
    };
    (t * 8333) as u64
}

pub fn loop_budget(grading_timeout_seconds: u64) -> (r: u64)
    ensures
        r == loop_budget_of(grading_timeout_seconds),
        8333 <= r <= 2_499_900,
{
    let t: u64 = if grading_timeout_seconds < 1 {
        1
    } else if grading_timeout_seconds > 300 {
        300
    } else {
        grading_timeout_seconds
    };
    t * 8333
}

/// The script that runs one test: the submission, then the input, the call
/// and a JSON envelope holding the result and the input before and after
/// the call.
pub open spec fn harness_of(code: Seq<char>, input_json: Seq<char>, function_name: Seq<char>) -> Seq<char> {
    code + "\nconst __benchmarkInput = "@ + input_json
        + ";\nconst __benchmarkBefore = JSON.stringify(__benchmarkInput);\nconst __benchmarkResult = "@
        + function_name
        + "(__benchmarkInput);\nJSON.stringify({result: __benchmarkResult, before: __benchmarkBefore, after: JSON.stringify(__benchmarkInput)})"@
}

pub fn test_harness(code: &str, input_json: &str, function_name: &str) -> (r: String)
    ensures
        r@ == harness_of(code@, input_json@, function_name@),
{
    let mut out = chars_of(code);
    let mut a = chars_of("\nconst __benchmarkInput = ");
    out.append(&mut a);
    let mut i = chars_of(input_json);
    out.append(&mut i);
    let mut b = chars_of(";\nconst __benchmarkBefore = JSON.stringify(__benchmarkInput);\nconst __benchmarkResult = ");
    out.append(&mut b);
    let mut f = chars_of(function_name);
    out.append(&mut f);
    let mut c = chars_of(
        "(__benchmarkInput);\nJSON.stringify({result: __benchmarkResult, before: __benchmarkBefore, after: JSON.stringify(__benchmarkInput)})",
    );
    out.append(&mut c);
    string_of(&out)
}

/// The verdict on one test from the envelope the harness returned, each part
/// in canonical JSON text (`result` is absent when the function returned
/// `undefined`): the input must be left as it was and the result must equal
/// the expected value.
pub open spec fn envelope_verdict_of(
    before: Seq<char>,
    after: Seq<char>,
    result: Option<Seq<char>>,
    expected: Seq<char>,
) -> Result<(), Seq<char>> {
    if before != after {
        Err("the function mutated its input"@)
    } else {
        match result {
            None => Err("the function returned undefined"@),
            Some(actual) => if actual != expected {
                Err("returned value did not match the expected result"@)
            } else {
                Ok(())
            },
        }
    }
}

pub fn envelope_verdict(before: &str, after: &str, result: Option<&str>, expected: &str) -> (r: Result<
    (),
    String,
>)
    ensures
        match r {
            Ok(()) => envelope_verdict_of(
                before@,
                after@,
                match result {
                    Some(x) => Some(x@),
                    None => None,
                },
                expected@,
            ) is Ok,
            Err(e) => envelope_verdict_of(
                before@,
                after@,
                match result {
                    Some(x) => Some(x@),
                    None => None,
                },
                expected@,
            ) == Err::<(), Seq<char>>(e@),
        },
{
    if !crate::text::str_eq(before, after) {
        return Err(String::from_str("the function mutated its input"));
    }
    match result {
        None => Err(String::from_str("the function returned undefined")),
        Some(actual) => {
            if !crate::text::str_eq(actual, expected) {
                Err(String::from_str("returned value did not match the expected result"))
            } else {
                Ok(())
            }
        },
    }
}

} // verus!
