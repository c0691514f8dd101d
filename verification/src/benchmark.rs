//! Benchmark configuration, output naming and response post-processing.
//!
//! The runner cycles selected models through prompts; this module holds the
//! decisions it makes on plain values: validating a run request, naming
//! output folders and files, extracting fenced code from replies and
//! recognising transport timeouts.
use crate::order::{lemma_lex_total, lemma_lex_transitive, lex_less, lex_lt};
use crate::script_scanner::{code_points, lemma_code_points};
use crate::text::{
    ascii_lower_seq, ascii_lowercase, chars_of, contains_chars, contains_seq,
    copy_range, decimal, decimal_of, digit_char, digits_value, hex_digits, hex_of, is_ws,
    is_whitespace, is_alphanumeric, join, join_with, keep_nonempty, lines, nonempty,
    same_chars, split_by, in_set, split_lines, split_on, starts_with, has_prefix, string_of, to_lowercase,
    trim, trim_start, trim_start_with, trim_with, unicode_alphanumeric, unicode_lowercase, views,
    CharSet, fnv1a, fnv1a_of, contains_name,
};
use vstd::prelude::*;

verus! {

/// Identifier of the bundled professional suite.
pub open spec fn suite_id() -> Seq<char> {
    seq!['p', 'r', 'o', 'f', 'e', 's', 's', 'i', 'o', 'n', 'a', 'l', '-', 'j', 's']
}

/// Version of the bundled professional suite.
pub const SUITE_VERSION: u32 = 2;

fn suite_id_chars() -> (r: Vec<char>)
    ensures
        r@ == suite_id(),
{
    let r = vec!['p', 'r', 'o', 'f', 'e', 's', 's', 'i', 'o', 'n', 'a', 'l', '-', 'j', 's'];
    assert(r@ =~= suite_id());
    r
}

// ---------------------------------------------------------------------------
// Configuration
// ---------------------------------------------------------------------------

/// A custom, editable benchmark prompt.
#[derive(Clone, Debug)]
pub struct BenchmarkPrompt {
    pub id: String,
    pub title: String,
    pub text: String,
    pub enabled: bool,
}

/// What a benchmark run covers and how it is run.
#[derive(Clone, Debug)]
pub struct BenchmarkConfig {
    pub profile_ids: Vec<String>,
    /// Legacy/custom editable prompts.
    pub prompts: Vec<BenchmarkPrompt>,
    pub professional_case_ids: Vec<String>,
    pub output_dir: String,
    pub timeout_seconds: u64,
    pub model_start_timeout_seconds: u64,
    pub grading_timeout_seconds: u64,
    pub runs_per_prompt: u32,
    pub generate_html_report: bool,
    pub open_report_when_complete: bool,
    /// Reuse only fully written, fingerprint-matching run metadata.
    pub resume_completed_runs: bool,
}

pub fn default_enabled() -> (r: bool)
    ensures
        r,
{
    true
}

pub fn default_timeout() -> (r: u64)
    ensures
        r == 300,
{
    300
}

pub fn default_model_start_timeout() -> (r: u64)
    ensures
        r == 300,
{
    300
}

pub fn default_grading_timeout() -> (r: u64)
    ensures
        r == 30,
{
    30
}

pub fn default_runs_per_prompt() -> (r: u32)
    ensures
        r == 1,
{
    1
}

pub fn default_generate_html_report() -> (r: bool)
    ensures
        r,
{
    true
}

pub fn default_resume_completed_runs() -> (r: bool)
    ensures
        r,
{
    true
}

pub open spec fn chess_prompt_id() -> Seq<char> {
    seq!['p', 'r', 'o', 'm', 'p', 't', '1']
}

pub open spec fn car_prompt_id() -> Seq<char> {
    seq!['p', 'r', 'o', 'm', 'p', 't', '2']
}

/// The default configuration: no models, the two bundled custom prompts
/// (enabled), the given professional cases selected, no output folder and
/// the default timeouts and switches.
pub fn default_config(professional_case_ids: Vec<String>) -> (c: BenchmarkConfig)
    ensures
        c.profile_ids@.len() == 0,
        c.prompts@.len() == 2,
        c.prompts@[0].id@ == chess_prompt_id(),
        c.prompts@[1].id@ == car_prompt_id(),
        c.prompts@[0].enabled && c.prompts@[1].enabled,
        c.professional_case_ids@ == professional_case_ids@,
        c.output_dir@.len() == 0,
        c.timeout_seconds == 300,
        c.model_start_timeout_seconds == 300,
        c.grading_timeout_seconds == 30,
        c.runs_per_prompt == 1,
        c.generate_html_report,
        !c.open_report_when_complete,
        c.resume_completed_runs,
{
    let chess_id = vec!['p', 'r', 'o', 'm', 'p', 't', '1'];
    let car_id = vec!['p', 'r', 'o', 'm', 'p', 't', '2'];
    assert(chess_id@ =~= chess_prompt_id());
    assert(car_id@ =~= car_prompt_id());
    let mut prompts: Vec<BenchmarkPrompt> = Vec::new();
    prompts.push(
        BenchmarkPrompt {
            id: string_of(&chess_id),
            title: String::from_str("Chess PGN → SVG"),
            text: String::from_str(CHESS_PROMPT),
            enabled: default_enabled(),
        },
    );
    prompts.push(
        BenchmarkPrompt {
            id: string_of(&car_id),
            title: String::from_str("Parallax car canvas"),
            text: String::from_str(CAR_PROMPT),
            enabled: default_enabled(),
        },
    );
    BenchmarkConfig {
        profile_ids: Vec::new(),
        prompts,
        professional_case_ids,
        output_dir: String::new(),
        timeout_seconds: default_timeout(),
        model_start_timeout_seconds: default_model_start_timeout(),
        grading_timeout_seconds: default_grading_timeout(),
        runs_per_prompt: default_runs_per_prompt(),
        generate_html_report: default_generate_html_report(),
        open_report_when_complete: false,
        resume_completed_runs: default_resume_completed_runs(),
    }
}

pub const CHESS_PROMPT: &'static str = "Given this PGN string of a chess game:\n\n1. b3 e5 2. Nf3 h5 3. d4 exd4 4. Nxd4 Nf6 5. f4 Ke7 6. Qd3 d5 7. h4 *\n\nFigure out the current state of the chessboard, create an image in SVG code, also highlight the last move.";

pub const CAR_PROMPT: &'static str = "Write a single HTML file with a full-page canvas and no libraries. Simulate a realistic side-view of a moving car as the main subject. Keep the car visible in the foreground while the background landscape scrolls continuously to create the feeling that the car is driving forward. Use layered scenery for depth: nearby ground, roadside elements, trees, poles, and distant hills or mountains should move at different speeds for a natural parallax effect. Animate the wheels spinning realistically and add subtle body motion so the car feels connected to the road. Let the environment pass smoothly behind it, with repeating but varied scenery that makes the movement feel believable. Use cinematic lighting and a cohesive sky, such as sunset, dusk, or daylight, to enhance atmosphere. The overall motion should feel calm, immersive, and realistic, with a seamless looping animation";


// ---------------------------------------------------------------------------
// Run plan
// ---------------------------------------------------------------------------

/// One benchmark of a run: an enabled custom prompt or a selected
/// professional case.
pub struct BenchmarkItem {
    pub id: String,
    pub title: String,
    pub text: String,
    /// `custom` or `professional`.
    pub kind: String,
    pub difficulty: Option<String>,
    pub grading_timeout_seconds: u64,
}

/// A professional case as a run plan reads it.
pub struct CatalogEntry {
    pub id: String,
    pub title: String,
    pub prompt: String,
    pub difficulty: String,
}

pub struct ItemView {
    pub id: Seq<char>,
    pub title: Seq<char>,
    pub text: Seq<char>,
    pub kind: Seq<char>,
    pub difficulty: Option<Seq<char>>,
    pub grading_timeout_seconds: u64,
}

pub open spec fn item_view(i: BenchmarkItem) -> ItemView {
    ItemView {
        id: i.id@,
        title: i.title@,
        text: i.text@,
        kind: i.kind@,
        difficulty: match i.difficulty {
            Some(d) => Some(d@),
            None => None,
        },
        grading_timeout_seconds: i.grading_timeout_seconds,
    }
}

pub open spec fn item_views(v: Seq<BenchmarkItem>) -> Seq<ItemView> {
    v.map_values(|i: BenchmarkItem| item_view(i))
}

/// The enabled custom prompts, in order.
pub open spec fn custom_items(prompts: Seq<BenchmarkPrompt>, timeout: u64) -> Seq<ItemView>
    decreases prompts.len(),
{
    if prompts.len() == 0 {
        Seq::empty()
    } else {
        let prev = custom_items(prompts.drop_last(), timeout);
        let p = prompts.last();
        if p.enabled {
            prev.push(
                ItemView {
                    id: p.id@,
                    title: p.title@,
                    text: p.text@,
                    kind: "custom"@,
                    difficulty: None,
                    grading_timeout_seconds: timeout,
                },
            )
        } else {
            prev
        }
    }
}

/// The selected professional cases, in catalog order.
pub open spec fn professional_items(catalog: Seq<CatalogEntry>, selected: Seq<Seq<char>>, timeout: u64) -> Seq<
    ItemView,
>
    decreases catalog.len(),
{
    if catalog.len() == 0 {
        Seq::empty()
    } else {
        let prev = professional_items(catalog.drop_last(), selected, timeout);
        let c = catalog.last();
        if selected.contains(c.id@) {
            prev.push(
                ItemView {
                    id: c.id@,
                    title: c.title@,
                    text: c.prompt@,
                    kind: "professional"@,
                    difficulty: Some(c.difficulty@),
                    grading_timeout_seconds: timeout,
                },
            )
        } else {
            prev
        }
    }
}

pub open spec fn string_seq_views(v: Seq<String>) -> Seq<Seq<char>> {
    v.map_values(|s: String| s@)
}

/// The benchmarks a run covers: the enabled custom prompts, then the
/// selected professional cases in catalog order.
pub fn selected_items(config: &BenchmarkConfig, catalog: &[CatalogEntry]) -> (r: Vec<BenchmarkItem>)
    ensures
        item_views(r@) == custom_items(config.prompts@, config.grading_timeout_seconds) + professional_items(
            catalog@,
            string_seq_views(config.professional_case_ids@),
            config.grading_timeout_seconds,
        ),
{
    let timeout = config.grading_timeout_seconds;
    let ghost ps = config.prompts@;
    let mut r: Vec<BenchmarkItem> = Vec::new();
    let mut i: usize = 0;
    while i < config.prompts.len()
        invariant
            i <= ps.len(),
            ps == config.prompts@,
            timeout == config.grading_timeout_seconds,
            item_views(r@) == custom_items(ps.take(i as int), timeout),
        decreases ps.len() - i,
    {
        let p = &config.prompts[i];
        assert(ps.take(i + 1).drop_last() =~= ps.take(i as int));
        assert(ps.take(i + 1).last() == *p);
        if p.enabled {
            let item = BenchmarkItem {
                id: p.id.clone(),
                title: p.title.clone(),
                text: p.text.clone(),
                kind: String::from_str("custom"),
                difficulty: None,
                grading_timeout_seconds: timeout,
            };
            let ghost before = r@;
            let ghost iv = item_view(item);
            r.push(item);
            assert(item_views(r@) =~= item_views(before).push(iv));
        }
        i = i + 1;
    }
    assert(ps.take(ps.len() as int) =~= ps);
    let ghost custom = item_views(r@);
    let ghost sel = string_seq_views(config.professional_case_ids@);
    let mut selected: Vec<Vec<char>> = Vec::new();
    let mut s: usize = 0;
    while s < config.professional_case_ids.len()
        invariant
            s <= config.professional_case_ids@.len(),
            sel == string_seq_views(config.professional_case_ids@),
            views(selected@) == sel.take(s as int),
        decreases config.professional_case_ids@.len() - s,
    {
        let c = chars_of(config.professional_case_ids[s].as_str());
        let ghost before = selected@;
        selected.push(c);
        proof {
            crate::text::lemma_views_push(before, c);
        }
        s = s + 1;
        assert(sel.take(s as int) =~= sel.take(s - 1).push(c@));
    }
    assert(sel.take(config.professional_case_ids@.len() as int) =~= sel);
    let mut k: usize = 0;
    while k < catalog.len()
        invariant
            k <= catalog@.len(),
            timeout == config.grading_timeout_seconds,
            views(selected@) == sel,
            item_views(r@) == custom + professional_items(catalog@.take(k as int), sel, timeout),
        decreases catalog@.len() - k,
    {
        let c = &catalog[k];
        assert(catalog@.take(k + 1).drop_last() =~= catalog@.take(k as int));
        assert(catalog@.take(k + 1).last() == *c);
        if contains_name(&selected, &chars_of(c.id.as_str())) {
            let item = BenchmarkItem {
                id: c.id.clone(),
                title: c.title.clone(),
                text: c.prompt.clone(),
                kind: String::from_str("professional"),
                difficulty: Some(c.difficulty.clone()),
                grading_timeout_seconds: timeout,
            };
            let ghost before = r@;
            let ghost iv = item_view(item);
            r.push(item);
            assert(item_views(r@) =~= item_views(before).push(iv));
        }
        k = k + 1;
    }
    assert(catalog@.take(catalog@.len() as int) =~= catalog@);
    r
}

/// A model needs starting unless it is already the running, healthy one.
pub fn needs_switch(current_profile_id: Option<&str>, healthy: bool, profile_id: &str) -> (r: bool)
    ensures
        r == !(healthy && match current_profile_id {
            Some(c) => c@ == profile_id@,
            None => false,
        }),
{
    match current_profile_id {
        Some(c) => !(healthy && crate::text::str_eq(c, profile_id)),
        None => true,
    }
}

// ---------------------------------------------------------------------------
// Run validation
// ---------------------------------------------------------------------------

/// Why a run request is refused, checked in this order.
pub open spec fn start_error(
    config: BenchmarkConfig,
    selected_items: nat,
) -> Option<Seq<char>> {
    if config.profile_ids@.len() == 0 {
        Some("Select at least one model."@)
    } else if selected_items == 0 {
        Some("Select at least one custom or professional benchmark."@)
    } else if trim(config.output_dir@, CharSet::Whitespace).len() == 0 {
        Some("Choose an output folder."@)
    } else if !(1 <= config.runs_per_prompt <= 100) {
        Some("Runs per prompt must be between 1 and 100."@)
    } else if !(1 <= config.grading_timeout_seconds <= 300) {
        Some("Grading timeout must be between 1 and 300 seconds."@)
    } else {
        None
    }
}

/// Validate a run request before the runner starts: at least one model and
/// one benchmark, an output folder, and repetitions and grading limits in range.
pub fn validate_start(config: &BenchmarkConfig, selected_items: usize) -> (r: Result<(), String>)
    ensures
        r is Ok <==> start_error(*config, selected_items as nat) is None,
        r matches Err(e) ==> start_error(*config, selected_items as nat) == Some(e@),
{
    if config.profile_ids.len() == 0 {
        return Err(String::from_str("Select at least one model."));
    }
    if selected_items == 0 {
        return Err(String::from_str("Select at least one custom or professional benchmark."));
    }
    let dir = chars_of(config.output_dir.as_str());
    let trimmed = crate::text::trim_ws(&dir);
    if trimmed.len() == 0 {
        return Err(String::from_str("Choose an output folder."));
    }
    if !(1 <= config.runs_per_prompt && config.runs_per_prompt <= 100) {
        return Err(String::from_str("Runs per prompt must be between 1 and 100."));
    }
    if !(1 <= config.grading_timeout_seconds && config.grading_timeout_seconds <= 300) {
        return Err(String::from_str("Grading timeout must be between 1 and 300 seconds."));
    }
    Ok(())
}

/// `"Benchmark complete"` and its body, shown only for a finished run.
pub fn benchmark_completion_notification(status: &str) -> (r: Option<(&'static str, &'static str)>)
    ensures
        r is Some <==> status@ == "finished"@,
        r matches Some((title, body)) ==> title@ == "Benchmark complete"@ && body@
            == "All selected model and prompt runs have finished."@,
{
    let s = chars_of(status);
    let finished = vec!['f', 'i', 'n', 'i', 's', 'h', 'e', 'd'];
    proof {
        reveal_strlit("finished");
    }
    assert(finished@ =~= "finished"@);
    if same_chars(&s, &finished) {
        Some(("Benchmark complete", "All selected model and prompt runs have finished."))
    } else {
        None
    }
}

pub open spec fn seq_sum(v: Seq<u64>) -> nat
    decreases v.len(),
{
    if v.len() == 0 {
        0
    } else {
        seq_sum(v.drop_last()) + v.last() as nat
    }
}

/// Total of the values, or `None` when there are none.
pub fn optional_sum(values: &[u64]) -> (r: Option<u64>)
    requires
        seq_sum(values@) <= u64::MAX,
    ensures
        values@.len() == 0 <==> r is None,
        r matches Some(t) ==> t == seq_sum(values@),
{
    if values.len() == 0 {
        return None;
    }
    let mut total: u64 = 0;
    let mut i: usize = 0;
    while i < values.len()
        invariant
            i <= values.len(),
            total == seq_sum(values@.take(i as int)),
            seq_sum(values@) <= u64::MAX,
        decreases values.len() - i,
    {
        assert(values@.take(i + 1).drop_last() =~= values@.take(i as int));
        proof {
            lemma_seq_sum_prefix(values@, i + 1);
        }
        total = total + values[i];
        i = i + 1;
    }
    assert(values@.take(values.len() as int) =~= values@);
    Some(total)
}

proof fn lemma_seq_sum_prefix(v: Seq<u64>, i: int)
    requires
        0 <= i <= v.len(),
    ensures
        seq_sum(v.take(i)) <= seq_sum(v),
    decreases v.len(),
{
    if i < v.len() {
        assert(v.drop_last().take(i) =~= v.take(i));
        lemma_seq_sum_prefix(v.drop_last(), i);
    } else {
        assert(v.take(i) =~= v);
    }
}

// ---------------------------------------------------------------------------
// Folder naming
// ---------------------------------------------------------------------------

/// Whitespace and the characters that Windows forbids in file names.
pub open spec fn illegal_in_name(c: char) -> bool {
    is_ws(c) || c == '<' || c == '>' || c == ':' || c == '"' || c == '/' || c == '\\' || c == '|'
        || c == '?' || c == '*'
}

pub open spec fn dash_for_illegal(s: Seq<char>) -> Seq<char> {
    s.map_values(|c: char| if illegal_in_name(c) { '-' } else { c })
}

/// Illegal characters become dashes, then runs of dashes collapse and dashes
/// at either end go: `Qwen3.6-35B MTP` -> `Qwen3.6-35B-MTP`.
pub open spec fn sanitized_alias(alias: Seq<char>) -> Seq<char> {
    join(nonempty(split_by(dash_for_illegal(alias), CharSet::One('-'))), seq!['-'])
}

fn sanitize_chars(alias: &[char]) -> (r: Vec<char>)
    ensures
        r@ == sanitized_alias(alias@),
{
    let mut mapped: Vec<char> = Vec::new();
    let mut i: usize = 0;
    while i < alias.len()
        invariant
            i <= alias.len(),
            mapped@ == dash_for_illegal(alias@.take(i as int)),
        decreases alias.len() - i,
    {
        let c = alias[i];
        let illegal = is_whitespace(c) || c == '<' || c == '>' || c == ':' || c == '"' || c == '/'
            || c == '\\' || c == '|' || c == '?' || c == '*';
        mapped.push(if illegal { '-' } else { c });
        i = i + 1;
        assert(mapped@ =~= dash_for_illegal(alias@.take(i as int)));
    }
    assert(alias@.take(alias.len() as int) =~= alias@);
    let parts = split_on(&mapped, CharSet::One('-'));
    let kept = keep_nonempty(&parts);
    let dash = vec!['-'];
    assert(dash@ =~= seq!['-']);
    join_with(&kept, &dash)
}

/// `Qwen3.6-35B MTP` -> `Qwen3.6-35B-MTP`; strips filesystem-illegal chars.
pub fn sanitize_alias(alias: &str) -> (r: String)
    ensures
        r@ == sanitized_alias(alias@),
{
    let a = chars_of(alias);
    string_of(&sanitize_chars(&a))
}

pub open spec fn professional_parent(difficulty: Seq<char>) -> Seq<char> {
    suite_id() + seq!['-', 'v', '2', '-'] + difficulty
}

pub open spec fn strip_prefix_or_self(s: Seq<char>, p: Seq<char>) -> Seq<char> {
    if starts_with(s, p) {
        s.skip(p.len() as int)
    } else {
        s
    }
}

/// The output folder of one benchmark item, as path components.
/// Professional cases go to `<suite>-v<version>-<difficulty>/<case>`; custom
/// prompts to `custom-<title>-<id>`; anything else to its sanitized id.
pub open spec fn output_folder_of(
    kind: Seq<char>,
    difficulty: Option<Seq<char>>,
    id: Seq<char>,
    title: Seq<char>,
) -> Seq<Seq<char>> {
    if kind == "professional"@ && difficulty is Some {
        let parent = professional_parent(difficulty->0);
        let leaf = strip_prefix_or_self(id, parent + seq!['-']);
        seq![sanitized_alias(parent), sanitized_alias(leaf)]
    } else if kind == "custom"@ {
        let t = sanitized_alias(title);
        let t = if t.len() == 0 {
            "untitled"@
        } else {
            t
        };
        seq![seq!['c', 'u', 's', 't', 'o', 'm', '-'] + t + seq!['-'] + sanitized_alias(id)]
    } else {
        seq![sanitized_alias(id)]
    }
}

pub open spec fn string_views(v: Seq<String>) -> Seq<Seq<char>> {
    v.map_values(|x: String| x@)
}

pub fn output_folder_name(kind: &str, difficulty: Option<&str>, id: &str, title: &str) -> (r: Vec<
    String,
>)
    ensures
        string_views(r@) == output_folder_of(
            kind@,
            match difficulty {
                Some(d) => Some(d@),
                None => None,
            },
            id@,
            title@,
        ),
{
    let k = chars_of(kind);
    let professional = vec!['p', 'r', 'o', 'f', 'e', 's', 's', 'i', 'o', 'n', 'a', 'l'];
    let custom = vec!['c', 'u', 's', 't', 'o', 'm'];
    proof {
        reveal_strlit("professional");
        reveal_strlit("custom");
        reveal_strlit("untitled");
    }
    assert(professional@ =~= "professional"@);
    assert(custom@ =~= "custom"@);
    let i = chars_of(id);
    let ghost dv = match difficulty {
        Some(d) => Some(d@),
        None => None,
    };
    let mut r: Vec<String> = Vec::new();
    if same_chars(&k, &professional) && difficulty.is_some() {
        let d = chars_of(difficulty.unwrap());
        let mut parent = suite_id_chars();
        parent.push('-');
        parent.push('v');
        parent.push('2');
        parent.push('-');
        let mut dd = copy_range(&d, 0, d.len());
        parent.append(&mut dd);
        assert(parent@ =~= professional_parent(d@));
        let mut prefix = copy_range(&parent, 0, parent.len());
        prefix.push('-');
        assert(prefix@ =~= parent@ + seq!['-']);
        let leaf = if has_prefix(&i, &prefix) {
            let l = copy_range(&i, prefix.len(), i.len());
            assert(l@ =~= i@.skip(prefix@.len() as int));
            l
        } else {
            let l = copy_range(&i, 0, i.len());
            assert(l@ =~= i@);
            l
        };
        let p1 = string_of(&sanitize_chars(&parent));
        let p2 = string_of(&sanitize_chars(&leaf));
        r.push(p1);
        r.push(p2);
        assert(string_views(r@) =~= seq![p1@, p2@]);
    } else if same_chars(&k, &custom) {
        let tc = chars_of(title);
        let mut t = sanitize_chars(&tc);
        if t.len() == 0 {
            t = vec!['u', 'n', 't', 'i', 't', 'l', 'e', 'd'];
            assert(t@ =~= "untitled"@);
        }
        let ghost tv = t@;
        let mut name = vec!['c', 'u', 's', 't', 'o', 'm', '-'];
        name.append(&mut t);
        name.push('-');
        let mut sid = sanitize_chars(&i);
        name.append(&mut sid);
        assert(name@ =~= seq!['c', 'u', 's', 't', 'o', 'm', '-'] + tv + seq!['-']
            + sanitized_alias(i@));
        let n = string_of(&name);
        r.push(n);
        assert(string_views(r@) =~= seq![n@]);
    } else {
        let n = string_of(&sanitize_chars(&i));
        r.push(n);
        assert(string_views(r@) =~= seq![n@]);
    }
    r
}

pub open spec fn run_folder_of(run_index: nat) -> Seq<char> {
    let d = decimal(run_index);
    seq!['r', 'u', 'n', '-'] + if d.len() < 2 {
        seq!['0'] + d
    } else {
        d
    }
}

/// The folder of one repetition when a prompt runs more than once:
/// `run-01`, `run-02`, ... (`format!("run-{:02}", n)`).
pub fn run_folder_name(run_index: u32) -> (r: String)
    ensures
        r@ == run_folder_of(run_index as nat),
{
    let d = decimal_of(run_index as u64);
    let mut r = vec!['r', 'u', 'n', '-'];
    if d.len() < 2 {
        r.push('0');
    }
    let mut dd = d;
    r.append(&mut dd);
    assert(r@ =~= run_folder_of(run_index as nat));
    string_of(&r)
}

// ---------------------------------------------------------------------------
// Transport errors
// ---------------------------------------------------------------------------

/// A request error message that reports a timeout (any ASCII case).
pub open spec fn is_timeout_message(message: Seq<char>) -> bool {
    let m = ascii_lower_seq(message);
    contains_seq(m, "timed out"@) || contains_seq(m, "timeout"@) || contains_seq(m, "10060"@)
        || contains_seq(m, "wsaetimedout"@) || contains_seq(m, "failed to respond"@)
}

pub fn is_timeout_error(message: &str) -> (r: bool)
    ensures
        r == is_timeout_message(message@),
{
    let m = ascii_lowercase(&chars_of(message));
    let a = chars_of("timed out");
    let b = chars_of("timeout");
    let c = chars_of("10060");
    let d = chars_of("wsaetimedout");
    let e = chars_of("failed to respond");
    contains_chars(&m, &a) || contains_chars(&m, &b) || contains_chars(&m, &c) || contains_chars(
        &m,
        &d,
    ) || contains_chars(&m, &e)
}


// ---------------------------------------------------------------------------
// Fenced code blocks
// ---------------------------------------------------------------------------

/// Where a scan of a reply's lines stands: the blocks closed so far, whether
/// a block is open, and the open block's language and body.
pub struct FenceScan {
    pub blocks: Seq<(Seq<char>, Seq<char>)>,
    pub in_block: bool,
    pub lang: Seq<char>,
    pub body: Seq<char>,
}

pub open spec fn fence() -> Seq<char> {
    seq!['`', '`', '`']
}

/// One line of the scan: a line starting with three backticks (after
/// leading whitespace) opens a block, taking its language from the rest of
/// the line, or closes the open one; other lines inside a block are kept.
pub open spec fn fence_step(st: FenceScan, line: Seq<char>) -> FenceScan {
    let t = trim_start(line, CharSet::Whitespace);
    if starts_with(t, fence()) {
        if st.in_block {
            FenceScan {
                blocks: st.blocks.push((st.lang, st.body)),
                in_block: false,
                lang: st.lang,
                body: Seq::<char>::empty(),
            }
        } else {
            FenceScan {
                blocks: st.blocks,
                in_block: true,
                lang: trim(trim_start(t, CharSet::One('`')), CharSet::Whitespace),
                body: Seq::<char>::empty(),
            }
        }
    } else if st.in_block {
        FenceScan { body: st.body + line + seq!['\n'], ..st }
    } else {
        st
    }
}

pub open spec fn fence_scan(ls: Seq<Seq<char>>) -> FenceScan
    decreases ls.len(),
{
    if ls.len() == 0 {
        FenceScan {
            blocks: Seq::empty(),
            in_block: false,
            lang: Seq::<char>::empty(),
            body: Seq::<char>::empty(),
        }
    } else {
        fence_step(fence_scan(ls.drop_last()), ls.last())
    }
}

/// The closed ``` fenced blocks of a Markdown reply as (language, code); an
/// unclosed block at the end is dropped.
pub open spec fn code_blocks_of(md: Seq<char>) -> Seq<(Seq<char>, Seq<char>)> {
    fence_scan(lines(md)).blocks
}

pub open spec fn pair_views(v: Seq<(String, String)>) -> Seq<(Seq<char>, Seq<char>)> {
    v.map_values(|p: (String, String)| (p.0@, p.1@))
}

pub open spec fn pair_char_views(v: Seq<(Vec<char>, Vec<char>)>) -> Seq<(Seq<char>, Seq<char>)> {
    v.map_values(|p: (Vec<char>, Vec<char>)| (p.0@, p.1@))
}

pub fn code_blocks(md: &[char]) -> (r: Vec<(Vec<char>, Vec<char>)>)
    ensures
        pair_char_views(r@) == code_blocks_of(md@),
{
    let ls = split_lines(md);
    let ghost lv = views(ls@);
    let mut blocks: Vec<(Vec<char>, Vec<char>)> = Vec::new();
    let mut in_block = false;
    let mut lang: Vec<char> = Vec::new();
    let mut body: Vec<char> = Vec::new();
    let open = vec!['`', '`', '`'];
    assert(open@ =~= fence());
    let mut i: usize = 0;
    assert(lv.take(0) =~= Seq::<Seq<char>>::empty());
    assert(pair_char_views(blocks@) =~= Seq::empty());
    while i < ls.len()
        invariant
            i <= ls.len(),
            lv == views(ls@),
            lv == lines(md@),
            open@ == fence(),
            fence_scan(lv.take(i as int)).blocks == pair_char_views(blocks@),
            fence_scan(lv.take(i as int)).in_block == in_block,
            fence_scan(lv.take(i as int)).lang == lang@,
            fence_scan(lv.take(i as int)).body == body@,
        decreases ls.len() - i,
    {
        let line = ls[i].as_slice();
        assert(lv.take(i + 1).drop_last() =~= lv.take(i as int));
        assert(lv.take(i + 1).last() == line@);
        let t = trim_start_with(line, CharSet::Whitespace);
        if has_prefix(&t, &open) {
            if in_block {
                let ghost before = blocks@;
                let l2 = copy_range(&lang, 0, lang.len());
                let b2 = copy_range(&body, 0, body.len());
                assert(l2@ =~= lang@);
                assert(b2@ =~= body@);
                blocks.push((l2, b2));
                assert(pair_char_views(blocks@) =~= pair_char_views(before).push((lang@, body@)));
                in_block = false;
                body = Vec::new();
            } else {
                in_block = true;
                let ticks = trim_start_with(&t, CharSet::One('`'));
                lang = trim_with(&ticks, CharSet::Whitespace);
                body = Vec::new();
            }
        } else if in_block {
            let mut l = copy_range(line, 0, line.len());
            assert(l@ =~= line@);
            let ghost b0 = body@;
            body.append(&mut l);
            body.push('\n');
            assert(body@ =~= b0 + line@ + seq!['\n']);
        }
        i = i + 1;
    }
    assert(lv.take(ls.len() as int) =~= lv);
    blocks
}

/// Extract ``` fenced code blocks as (lang, code) pairs.
pub fn extract_code_blocks(md: &str) -> (r: Vec<(String, String)>)
    ensures
        pair_views(r@) == code_blocks_of(md@),
{
    let m = chars_of(md);
    let blocks = code_blocks(&m);
    let mut r: Vec<(String, String)> = Vec::new();
    let mut i: usize = 0;
    while i < blocks.len()
        invariant
            i <= blocks.len(),
            pair_views(r@) == pair_char_views(blocks@).take(i as int),
        decreases blocks.len() - i,
    {
        let a = string_of(blocks[i].0.as_slice());
        let b = string_of(blocks[i].1.as_slice());
        let ghost before = r@;
        r.push((a, b));
        assert(pair_views(r@) =~= pair_views(before).push((a@, b@)));
        i = i + 1;
        assert(pair_char_views(blocks@).take(i as int) =~= pair_char_views(blocks@).take(
            i - 1,
        ).push((blocks@[i - 1].0@, blocks@[i - 1].1@)));
    }
    assert(pair_char_views(blocks@).take(blocks.len() as int) =~= pair_char_views(blocks@));
    r
}


// ---------------------------------------------------------------------------
// Output file names for extracted code
// ---------------------------------------------------------------------------

/// The characters of `l` that are alphanumeric, in order.
pub open spec fn alnum_only(l: Seq<char>) -> Seq<char>
    decreases l.len(),
{
    if l.len() == 0 {
        l
    } else if unicode_alphanumeric(l.last()) {
        alnum_only(l.drop_last()).push(l.last())
    } else {
        alnum_only(l.drop_last())
    }
}

/// The file a code block is saved to before de-duplication: HTML (by
/// language or by content) goes to `index.html`, SVG to `image.svg`, and
/// block number `n` (counting from one) otherwise to `block<n>.<ext>`, the
/// extension being the alphanumeric characters of the lowercased language,
/// or `txt`.
pub open spec fn base_file_name(index: nat, lang: Seq<char>, code: Seq<char>) -> Seq<char> {
    let l = unicode_lowercase(lang);
    let head = unicode_lowercase(trim_start(code, CharSet::Whitespace));
    if l == "html"@ || l == "htm"@ || starts_with(head, "<!doctype html"@) || starts_with(
        head,
        "<html"@,
    ) {
        "index.html"@
    } else if l == "svg"@ || starts_with(head, "<svg"@) {
        "image.svg"@
    } else {
        let ext = alnum_only(l);
        seq!['b', 'l', 'o', 'c', 'k'] + decimal(index + 1) + seq!['.'] + if ext.len() == 0 {
            "txt"@
        } else {
            ext
        }
    }
}

/// The index of the last `'.'` in `name`, if any.
pub open spec fn last_dot(name: Seq<char>, j: int) -> bool {
    0 <= j < name.len() && name[j] == '.' && forall|k: int| j < k < name.len() ==> name[k] != '.'
}

/// `name` with `_<n>` put before its last extension (`a.html` -> `a_2.html`;
/// `a` -> `a_2`).
pub open spec fn numbered(name: Seq<char>, n: nat) -> Seq<char> {
    if exists|j: int| last_dot(name, j) {
        let j = choose|j: int| last_dot(name, j);
        name.take(j) + seq!['_'] + decimal(n) + name.skip(j)
    } else {
        name + seq!['_'] + decimal(n)
    }
}

/// `out` is what de-duplicating `name` against `used` gives: `name` itself
/// when unused, else `numbered(name, n)` for the least `n >= 2` that is unused.
pub open spec fn deduped(name: Seq<char>, used: Seq<Seq<char>>, out: Seq<char>) -> bool {
    if !used.contains(name) {
        out == name
    } else {
        exists|n: nat|
            #![trigger numbered(name, n)]
            n >= 2 && out == numbered(name, n) && !used.contains(out) && forall|m: nat|
                2 <= m < n ==> used.contains(#[trigger] numbered(name, m))
    }
}

proof fn lemma_decimal_value(n: nat)
    ensures
        digits_value(decimal(n)) == n,
        decimal(n).len() >= 1,
    decreases n,
{
    assert(((48 + n % 10) as char) as u32 == 48 + n % 10);
    let d = decimal(n);
    if n >= 10 {
        lemma_decimal_value(n / 10);
        assert(d.drop_last() =~= decimal(n / 10));
        assert(d.last() == digit_char(n % 10));
        assert(digits_value(d) == digits_value(decimal(n / 10)) * 10 + n % 10);
    } else {
        assert(d.drop_last() =~= Seq::<char>::empty());
        assert(n % 10 == n);
        assert(d.last() == digit_char(n));
        assert(digits_value(d) == digits_value(Seq::<char>::empty()) * 10 + n % 10);
    }
}

proof fn lemma_numbered_injective(name: Seq<char>, a: nat, b: nat)
    requires
        numbered(name, a) == numbered(name, b),
    ensures
        a == b,
{
    lemma_decimal_value(a);
    lemma_decimal_value(b);
    if exists|j: int| last_dot(name, j) {
        let j = choose|j: int| last_dot(name, j);
        let x = name.take(j) + seq!['_'] + decimal(a) + name.skip(j);
        let y = name.take(j) + seq!['_'] + decimal(b) + name.skip(j);
        assert(x.len() == y.len());
        assert(decimal(a) =~= x.subrange(j + 1, j + 1 + decimal(a).len()));
        assert(decimal(b) =~= y.subrange(j + 1, j + 1 + decimal(b).len()));
    } else {
        let x = name + seq!['_'] + decimal(a);
        let y = name + seq!['_'] + decimal(b);
        assert(decimal(a) =~= x.skip(name.len() as int + 1));
        assert(decimal(b) =~= y.skip(name.len() as int + 1));
    }
}

/// At most `used.len()` distinct numbered names can be taken already.
proof fn lemma_numbered_bound(name: Seq<char>, used: Seq<Seq<char>>, n: nat)
    requires
        n >= 2,
        forall|m: nat| 2 <= m < n ==> used.contains(#[trigger] numbered(name, m)),
    ensures
        n - 2 <= used.len(),
{
    let f = |m: int| numbered(name, m as nat);
    let x = vstd::set_lib::set_int_range(2, n as int);
    vstd::set_lib::lemma_int_range(2, n as int);
    let y = x.map(f);
    assert(vstd::relations::injective_on(f, x)) by {
        assert forall|a: int, b: int| x.contains(a) && x.contains(b) && #[trigger] f(a) == #[trigger] f(b)
            implies a == b by {
            lemma_numbered_injective(name, a as nat, b as nat);
        }
    }
    vstd::set_lib::lemma_map_size(x, y, f);
    assert(y.subset_of(used.to_set())) by {
        assert forall|e: Seq<char>| y.contains(e) implies used.to_set().contains(e) by {
            let a = choose|a: int| x.contains(a) && f(a) == e;
            assert(used.contains(numbered(name, a as nat)));
        }
    }
    used.lemma_cardinality_of_set();
    vstd::set_lib::lemma_len_subset(y, used.to_set());
}

fn last_dot_index(name: &[char]) -> (r: Option<usize>)
    ensures
        r matches Some(j) ==> last_dot(name@, j as int),
        r is None ==> !exists|j: int| last_dot(name@, j),
{
    let mut j: usize = name.len();
    while j > 0
        invariant
            j <= name.len(),
            forall|k: int| j <= k < name.len() ==> name@[k] != '.',
        decreases j,
    {
        if name[j - 1] == '.' {
            return Some(j - 1);
        }
        j = j - 1;
    }
    None
}

fn numbered_name(name: &[char], n: u64) -> (r: Vec<char>)
    ensures
        r@ == numbered(name@, n as nat),
{
    let mut r: Vec<char> = Vec::new();
    match last_dot_index(name) {
        Some(j) => {
            let mut stem = copy_range(name, 0, j);
            r.append(&mut stem);
            r.push('_');
            let mut d = decimal_of(n);
            r.append(&mut d);
            let mut ext = copy_range(name, j, name.len());
            r.append(&mut ext);
            proof {
                let jj = choose|k: int| last_dot(name@, k);
                if jj < j {
                    assert(name@[j as int] != '.');
                } else if jj > j {
                    assert(name@[jj] != '.');
                }
            }
            assert(r@ =~= numbered(name@, n as nat));
        },
        None => {
            let mut whole = copy_range(name, 0, name.len());
            r.append(&mut whole);
            r.push('_');
            let mut d = decimal_of(n);
            r.append(&mut d);
            assert(r@ =~= numbered(name@, n as nat));
        },
    }
    r
}

/// Return `name`, or `name` numbered `_2`, `_3`, ... before its extension,
/// whichever is first not yet in `used`; the result is added to `used`.
pub fn dedupe_name(name: Vec<char>, used: &mut Vec<Vec<char>>) -> (r: Vec<char>)
    requires
        old(used)@.len() < u64::MAX - 2,
    ensures
        deduped(name@, views(old(used)@), r@),
        views(final(used)@) == views(old(used)@).push(r@),
{
    if !contains_name(used, &name) {
        let r = copy_range(&name, 0, name.len());
        assert(r@ =~= name@);
        let ghost u0 = used@;
        used.push(name);
        proof {
            crate::text::lemma_views_push(u0, r);
        }
        return r;
    }
    let ghost u0 = views(used@);
    let mut n: u64 = 2;
    loop
        invariant
            2 <= n <= used@.len() + 2,
            views(used@) == u0,
            u0 == views(old(used)@),
            u0.contains(name@),
            used@.len() < u64::MAX - 2,
            forall|m: nat| 2 <= m < n ==> u0.contains(#[trigger] numbered(name@, m)),
        decreases used@.len() + 2 - n,
    {
        let candidate = numbered_name(&name, n);
        if !contains_name(used, &candidate) {
            let r = copy_range(&candidate, 0, candidate.len());
            assert(r@ =~= candidate@);
            let ghost uv = used@;
            used.push(candidate);
            proof {
                crate::text::lemma_views_push(uv, r);
                assert(deduped(name@, u0, r@)) by {
                    assert(r@ == numbered(name@, n as nat));
                }
            }
            return r;
        }
        proof {
            lemma_numbered_bound(name@, u0, (n + 1) as nat);
        }
        n = n + 1;
    }
}

pub open spec fn code_file_names(
    blocks: Seq<(Seq<char>, Seq<char>)>,
    names: Seq<Seq<char>>,
) -> bool {
    &&& names.len() == blocks.len()
    &&& forall|i: int|
        0 <= i < blocks.len() ==> deduped(
            base_file_name(i as nat, blocks[i].0, blocks[i].1),
            names.take(i),
            #[trigger] names[i],
        )
}

fn base_name(index: usize, lang: &[char], code: &[char]) -> (r: Vec<char>)
    requires
        index < u64::MAX,
    ensures
        r@ == base_file_name(index as nat, lang@, code@),
{
    proof {
        reveal_strlit("html");
        reveal_strlit("htm");
        reveal_strlit("<!doctype html");
        reveal_strlit("<html");
        reveal_strlit("svg");
        reveal_strlit("<svg");
        reveal_strlit("index.html");
        reveal_strlit("image.svg");
        reveal_strlit("txt");
    }
    let l = to_lowercase(lang);
    let head = to_lowercase(&trim_start_with(code, CharSet::Whitespace));
    let html = vec!['h', 't', 'm', 'l'];
    let htm = vec!['h', 't', 'm'];
    let doctype = vec!['<', '!', 'd', 'o', 'c', 't', 'y', 'p', 'e', ' ', 'h', 't', 'm', 'l'];
    let html_tag = vec!['<', 'h', 't', 'm', 'l'];
    let svg = vec!['s', 'v', 'g'];
    let svg_tag = vec!['<', 's', 'v', 'g'];
    assert(html@ =~= "html"@);
    assert(htm@ =~= "htm"@);
    assert(doctype@ =~= "<!doctype html"@);
    assert(html_tag@ =~= "<html"@);
    assert(svg@ =~= "svg"@);
    assert(svg_tag@ =~= "<svg"@);
    if same_chars(&l, &html) || same_chars(&l, &htm) || has_prefix(&head, &doctype) || has_prefix(
        &head,
        &html_tag,
    ) {
        let r = vec!['i', 'n', 'd', 'e', 'x', '.', 'h', 't', 'm', 'l'];
        assert(r@ =~= "index.html"@);
        r
    } else if same_chars(&l, &svg) || has_prefix(&head, &svg_tag) {
        let r = vec!['i', 'm', 'a', 'g', 'e', '.', 's', 'v', 'g'];
        assert(r@ =~= "image.svg"@);
        r
    } else {
        let mut ext: Vec<char> = Vec::new();
        let mut i: usize = 0;
        while i < l.len()
            invariant
                i <= l.len(),
                ext@ == alnum_only(l@.take(i as int)),
            decreases l.len() - i,
        {
            assert(l@.take(i + 1).drop_last() =~= l@.take(i as int));
            if is_alphanumeric(l[i]) {
                ext.push(l[i]);
            }
            i = i + 1;
        }
        assert(l@.take(l.len() as int) =~= l@);
        if ext.len() == 0 {
            ext = vec!['t', 'x', 't'];
            assert(ext@ =~= "txt"@);
        }
        let ghost ev = ext@;
        let mut r = vec!['b', 'l', 'o', 'c', 'k'];
        let mut d = decimal_of(index as u64 + 1);
        r.append(&mut d);
        r.push('.');
        r.append(&mut ext);
        assert(r@ =~= seq!['b', 'l', 'o', 'c', 'k'] + decimal((index + 1) as nat) + seq!['.']
            + ev);
        r
    }
}

/// Map code blocks to output filenames (html -> index.html, svg -> image.svg,
/// otherwise block{n}.<ext>), de-duplicating repeats; each file keeps its code.
pub fn map_code_files(blocks: &[(String, String)]) -> (r: Vec<(String, String)>)
    requires
        blocks@.len() < u64::MAX - 2,
    ensures
        code_file_names(pair_views(blocks@), pair_views(r@).map_values(|p: (Seq<char>, Seq<char>)| p.0)),
        forall|i: int| 0 <= i < r@.len() ==> (#[trigger] r@[i]).1@ == blocks@[i].1@,
{
    let mut out: Vec<(String, String)> = Vec::new();
    let mut used: Vec<Vec<char>> = Vec::new();
    let ghost bv = pair_views(blocks@);
    let mut i: usize = 0;
    while i < blocks.len()
        invariant
            i <= blocks.len(),
            blocks@.len() < u64::MAX - 2,
            bv == pair_views(blocks@),
            used@.len() == i,
            out@.len() == i,
            forall|k: int| 0 <= k < i ==> (#[trigger] out@[k]).0@ == views(used@)[k],
            forall|k: int| 0 <= k < i ==> (#[trigger] out@[k]).1@ == blocks@[k].1@,
            forall|k: int|
                0 <= k < i ==> deduped(
                    base_file_name(k as nat, bv[k].0, bv[k].1),
                    views(used@).take(k),
                    #[trigger] views(used@)[k],
                ),
        decreases blocks.len() - i,
    {
        let lang = chars_of(blocks[i].0.as_str());
        let code = chars_of(blocks[i].1.as_str());
        let base = base_name(i, &lang, &code);
        let ghost u0 = views(used@);
        let name = dedupe_name(base, &mut used);
        proof {
            assert forall|k: int| 0 <= k < i implies views(used@).take(k) == u0.take(k) by {
                assert(views(used@).take(k) =~= u0.take(k));
            }
            assert(views(used@).take(i as int) =~= u0);
        }
        out.push((string_of(&name), blocks[i].1.clone()));
        i = i + 1;
    }
    proof {
        let names = pair_views(out@).map_values(|p: (Seq<char>, Seq<char>)| p.0);
        assert(names =~= views(used@));
    }
    out
}


// ---------------------------------------------------------------------------
// Checkpoint fingerprints
// ---------------------------------------------------------------------------

/// The text a checkpoint fingerprint covers: id, kind, prompt text and the
/// suite version, separated by NUL characters.
pub open spec fn resume_source(id: Seq<char>, kind: Seq<char>, text: Seq<char>) -> Seq<char> {
    id + seq!['\0'] + kind + seq!['\0'] + text + seq!['\0', '2']
}

/// 16 lowercase hex digits of the FNV-1a hash of the UTF-8 source.
pub open spec fn resume_key_of(id: Seq<char>, kind: Seq<char>, text: Seq<char>) -> Seq<char> {
    hex_digits(fnv1a(vstd::utf8::encode_utf8(resume_source(id, kind, text))) as nat, 16)
}

/// Stable fingerprint of an item: an on-disk iteration is accepted as a
/// checkpoint only when it was written for the same id, kind, prompt text
/// and suite version.
pub fn resume_key(id: &str, kind: &str, text: &str) -> (r: String)
    ensures
        r@ == resume_key_of(id@, kind@, text@),
{
    let mut src = chars_of(id);
    src.push('\0');
    let mut k = chars_of(kind);
    src.append(&mut k);
    src.push('\0');
    let mut t = chars_of(text);
    src.append(&mut t);
    src.push('\0');
    src.push('2');
    assert(src@ =~= resume_source(id@, kind@, text@));
    let source = string_of(&src);
    let hash = fnv1a_of(source.as_str().as_bytes());
    string_of(&hex_of(hash, 16))
}


// ---------------------------------------------------------------------------
// Laws
// ---------------------------------------------------------------------------

/// A sanitized alias is a usable folder name: it holds no whitespace or
/// character that Windows forbids, never starts or ends with a dash, and
/// never holds two dashes in a row.
pub proof fn law_sanitized_alias_is_clean(alias: Seq<char>)
    ensures
        ({
            let r = sanitized_alias(alias);
            &&& forall|m: int| 0 <= m < r.len() ==> !illegal_in_name(#[trigger] r[m])
            &&& r.len() > 0 ==> r[0] != '-' && r.last() != '-'
            &&& forall|m: int| 0 <= m < r.len() - 1 ==> !(#[trigger] r[m] == '-' && r[m + 1] == '-')
        }),
{
    let mapped = dash_for_illegal(alias);
    let k = CharSet::One('-');
    let q = |c: char| !illegal_in_name(c);
    assert forall|m: int| 0 <= m < mapped.len() implies q(#[trigger] mapped[m]) || in_set(
        k,
        mapped[m],
    ) by {}
    crate::text::lemma_split_by_chars(mapped, k, q);
    let parts = split_by(mapped, k);
    crate::text::lemma_nonempty_pieces(parts);
    let kept = nonempty(parts);
    assert forall|i: int, j: int| 0 <= i < kept.len() && 0 <= j < kept[i].len() implies q(
        #[trigger] kept[i][j],
    ) && kept[i][j] != '-' by {
        let w = choose|w: int| 0 <= w < parts.len() && #[trigger] kept[i] == parts[w];
        assert(kept[i][j] == parts[w][j]);
    }
    crate::text::lemma_join_single_separator(kept, '-', q);
}


/// Sanitizing is idempotent: a sanitized alias sanitizes to itself.
pub proof fn law_sanitize_alias_idempotent(alias: Seq<char>)
    ensures
        sanitized_alias(sanitized_alias(alias)) == sanitized_alias(alias),
{
    law_sanitized_alias_is_clean(alias);
    let r = sanitized_alias(alias);
    assert(dash_for_illegal(r) =~= r);
    let mapped = dash_for_illegal(alias);
    let k = CharSet::One('-');
    let q = |c: char| !illegal_in_name(c);
    assert forall|m: int| 0 <= m < mapped.len() implies q(#[trigger] mapped[m]) || in_set(
        k,
        mapped[m],
    ) by {}
    crate::text::lemma_split_by_chars(mapped, k, q);
    let parts = split_by(mapped, k);
    crate::text::lemma_nonempty_pieces(parts);
    let kept = nonempty(parts);
    assert forall|i: int, j: int| 0 <= i < kept.len() && 0 <= j < kept[i].len() implies !in_set(
        k,
        #[trigger] kept[i][j],
    ) by {
        let w = choose|w: int| 0 <= w < parts.len() && #[trigger] kept[i] == parts[w];
        assert(kept[i][j] == parts[w][j]);
    }
    if kept.len() == 0 {
        assert(r =~= Seq::<char>::empty());
        let one = seq![Seq::<char>::empty()];
        assert(split_by(r, k) =~= one);
        assert(one.drop_last() =~= Seq::<Seq<char>>::empty());
        assert(nonempty(one.drop_last()) =~= Seq::<Seq<char>>::empty());
        assert(nonempty(one) =~= Seq::<Seq<char>>::empty());
    } else {
        crate::text::lemma_split_join(kept, '-', k);
        crate::text::lemma_nonempty_all(kept);
    }
}

/// Which professional cases a run covers, and in which order, depends only
/// on which ids are selected: the order of the selected ids and repeats
/// among them make no difference.
pub proof fn law_selection_order_irrelevant(
    catalog: Seq<CatalogEntry>,
    a: Seq<Seq<char>>,
    b: Seq<Seq<char>>,
    timeout: u64,
)
    requires
        forall|x: Seq<char>| a.contains(x) <==> b.contains(x),
    ensures
        professional_items(catalog, a, timeout) == professional_items(catalog, b, timeout),
    decreases catalog.len(),
{
    if catalog.len() > 0 {
        law_selection_order_irrelevant(catalog.drop_last(), a, b, timeout);
        assert(a.contains(catalog.last().id@) == b.contains(catalog.last().id@));
    }
}

/// The characters an alias keeps in its folder name.
pub open spec fn kept_in_name() -> spec_fn(char) -> bool {
    |c: char| !illegal_in_name(c) && c != '-'
}

proof fn lemma_dash_for_illegal_keeps(s: Seq<char>)
    ensures
        dash_for_illegal(s).filter(crate::text::outside(CharSet::One('-'))) == s.filter(kept_in_name()),
    decreases s.len(),
{
    let f = crate::text::outside(CharSet::One('-'));
    if s.len() == 0 {
        assert(dash_for_illegal(s) =~= s);
        assert(s.filter(f) =~= Seq::<char>::empty() && s.filter(kept_in_name()) =~= Seq::<char>::empty())
            by {
            reveal(Seq::filter);
        }
    } else {
        let init = s.drop_last();
        let c = s.last();
        lemma_dash_for_illegal_keeps(init);
        let d = if illegal_in_name(c) {
            '-'
        } else {
            c
        };
        assert(s =~= init.push(c));
        assert(dash_for_illegal(s) =~= dash_for_illegal(init).push(d));
        init.lemma_filter_push(c, kept_in_name());
        dash_for_illegal(init).lemma_filter_push(d, f);
    }
}

/// Sanitizing only removes and re-places dashes: leaving the dashes out, a
/// sanitized alias holds every character of the alias that is neither a
/// dash, whitespace nor forbidden in file names, in order.
pub proof fn law_sanitize_alias_keeps_characters(alias: Seq<char>)
    ensures
        sanitized_alias(alias).filter(crate::text::outside(CharSet::One('-'))) == alias.filter(
            kept_in_name(),
        ),
{
    crate::text::lemma_rejoin_keeps_others(dash_for_illegal(alias), '-');
    lemma_dash_for_illegal_keeps(alias);
}

/// A line that opens or closes a fenced block: three backticks after its
/// leading whitespace.
pub open spec fn is_fence_line(line: Seq<char>) -> bool {
    starts_with(trim_start(line, CharSet::Whitespace), fence())
}

/// Lines written out one after another, each followed by a newline.
pub open spec fn newline_terminated(ls: Seq<Seq<char>>) -> Seq<char> {
    crate::text::concat(ls.map_values(|l: Seq<char>| l + seq!['\n']))
}

proof fn lemma_inside_block(prefix: Seq<Seq<char>>, mid: Seq<Seq<char>>)
    requires
        fence_scan(prefix).in_block,
        forall|i: int| 0 <= i < mid.len() ==> !is_fence_line(#[trigger] mid[i]),
    ensures
        fence_scan(prefix + mid) == (FenceScan {
            body: fence_scan(prefix).body + newline_terminated(mid),
            ..fence_scan(prefix)
        }),
    decreases mid.len(),
{
    if mid.len() == 0 {
        assert(prefix + mid =~= prefix);
        assert(mid.map_values(|l: Seq<char>| l + seq!['\n']) =~= Seq::<Seq<char>>::empty());
        assert(fence_scan(prefix).body + newline_terminated(mid) =~= fence_scan(prefix).body);
    } else {
        let init = mid.drop_last();
        assert forall|i: int| 0 <= i < init.len() implies !is_fence_line(#[trigger] init[i]) by {
            assert(init[i] == mid[i]);
        }
        lemma_inside_block(prefix, init);
        assert((prefix + mid).drop_last() =~= prefix + init);
        assert((prefix + mid).last() == mid.last());
        let m = mid.map_values(|l: Seq<char>| l + seq!['\n']);
        assert(m.drop_last() =~= init.map_values(|l: Seq<char>| l + seq!['\n']));
        assert(newline_terminated(mid) == newline_terminated(init) + (mid.last() + seq!['\n']));
        assert(fence_scan(prefix).body + newline_terminated(mid) =~= fence_scan(prefix).body
            + newline_terminated(init) + mid.last() + seq!['\n']);
    }
}

/// A fenced block keeps its code verbatim: every line strictly between the
/// opening and the closing fence, leading whitespace and all, followed by a
/// newline, in order; the blocks closed before stay as they were.
pub proof fn law_block_body_verbatim(
    before: Seq<Seq<char>>,
    open: Seq<char>,
    mid: Seq<Seq<char>>,
    close: Seq<char>,
)
    requires
        !fence_scan(before).in_block,
        is_fence_line(open),
        is_fence_line(close),
        forall|i: int| 0 <= i < mid.len() ==> !is_fence_line(#[trigger] mid[i]),
    ensures
        fence_scan(before.push(open) + mid.push(close)).blocks == fence_scan(before).blocks.push(
            (fence_scan(before.push(open)).lang, newline_terminated(mid)),
        ),
        !fence_scan(before.push(open) + mid.push(close)).in_block,
{
    let opened = before.push(open);
    assert(opened.drop_last() =~= before);
    assert(fence_scan(opened).in_block);
    assert(fence_scan(opened).body == Seq::<char>::empty());
    lemma_inside_block(opened, mid);
    let all = opened + mid.push(close);
    assert(all.drop_last() =~= opened + mid);
    assert(all.last() == close);
    assert(Seq::<char>::empty() + newline_terminated(mid) =~= newline_terminated(mid));
}

/// A reply holding one fenced block yields that block with its code lines
/// verbatim, each followed by a newline: the reply is the opening fence,
/// the code lines and the closing fence, each line ended by `\n`.
pub proof fn law_reply_block_verbatim(open: Seq<char>, mid: Seq<Seq<char>>, close: Seq<char>)
    requires
        is_fence_line(open),
        is_fence_line(close),
        forall|i: int| 0 <= i < mid.len() ==> !is_fence_line(#[trigger] mid[i]),
        forall|i: int, j: int|
            0 <= i < (seq![open] + mid.push(close)).len() && 0 <= j < (seq![open] + mid.push(
                close,
            ))[i].len() ==> #[trigger] (seq![open] + mid.push(close))[i][j] != '\n',
        forall|i: int|
            0 <= i < (seq![open] + mid.push(close)).len() ==> !((#[trigger] (seq![open] + mid.push(
                close,
            ))[i]).len() > 0 && (seq![open] + mid.push(close))[i].last() == '\r'),
    ensures
        code_blocks_of(join((seq![open] + mid.push(close)).push(Seq::<char>::empty()), seq!['\n']))
            == seq![(fence_scan(seq![open]).lang, newline_terminated(mid))],
{
    let ls = seq![open] + mid.push(close);
    crate::text::law_lines_verbatim(ls);
    let before = Seq::<Seq<char>>::empty();
    assert(before.push(open) =~= seq![open]);
    assert(before.push(open) + mid.push(close) =~= ls);
    law_block_body_verbatim(before, open, mid, close);
    assert(fence_scan(before).blocks == Seq::<(Seq<char>, Seq<char>)>::empty());
    assert(Seq::<(Seq<char>, Seq<char>)>::empty().push((fence_scan(seq![open]).lang, newline_terminated(mid)))
        =~= seq![(fence_scan(seq![open]).lang, newline_terminated(mid))]);
}

/// The language of a block is the text after the opening backticks,
/// trimmed: "```python" opens a `python` block, "  ``` js " a `js` block.
pub proof fn law_block_language(indent: Seq<char>, lang: Seq<char>)
    requires
        forall|i: int| 0 <= i < indent.len() ==> crate::text::is_ws(#[trigger] indent[i]),
        lang.len() > 0 ==> lang[0] != '`',
    ensures
        is_fence_line(indent + fence() + lang),
        fence_scan(seq![indent + fence() + lang]).lang == trim(lang, CharSet::Whitespace),
{
    let line = indent + fence() + lang;
    let k = CharSet::Whitespace;
    assert forall|j: int| 0 <= j < indent.len() implies in_set(k, #[trigger] line[j]) by {
        assert(line[j] == indent[j]);
    }
    assert(line[indent.len() as int] == '`');
    crate::text::lemma_trim_start_skip(line, k, indent.len() as int);
    assert(line.skip(indent.len() as int) =~= fence() + lang);
    let t = fence() + lang;
    assert(starts_with(t, fence())) by {
        assert(t.take(3) =~= fence());
    }
    let bt = CharSet::One('`');
    assert forall|j: int| 0 <= j < 3 implies in_set(bt, #[trigger] t[j]) by {}
    if t.len() > 3 {
        assert(t[3] == lang[0]);
    }
    crate::text::lemma_trim_start_skip(t, bt, 3);
    assert(t.skip(3) =~= lang);
    let one = seq![line];
    assert(one.drop_last() =~= Seq::<Seq<char>>::empty());
    assert(one.last() == line);
    assert(!fence_scan(one.drop_last()).in_block);
    assert(trim_start(line, k) == t);
    assert(trim_start(t, bt) == lang);
    assert(fence_scan(one) == fence_step(fence_scan(one.drop_last()), line));
    assert(fence_step(fence_scan(one.drop_last()), line).lang == trim(lang, k));
}

/// A block that is never closed yields nothing: the blocks found are those
/// closed before it.
pub proof fn law_unclosed_block_dropped(before: Seq<Seq<char>>, open: Seq<char>, rest: Seq<Seq<char>>)
    requires
        !fence_scan(before).in_block,
        is_fence_line(open),
        forall|i: int| 0 <= i < rest.len() ==> !is_fence_line(#[trigger] rest[i]),
    ensures
        fence_scan(before.push(open) + rest).blocks == fence_scan(before).blocks,
{
    let opened = before.push(open);
    assert(opened.drop_last() =~= before);
    lemma_inside_block(opened, rest);
}

/// Extracted code files never share a name.
pub proof fn law_code_file_names_distinct(
    blocks: Seq<(Seq<char>, Seq<char>)>,
    names: Seq<Seq<char>>,
)
    requires
        code_file_names(blocks, names),
    ensures
        forall|i: int, j: int| 0 <= i < j < names.len() ==> names[i] != names[j],
{
    assert forall|i: int, j: int| 0 <= i < j < names.len() implies names[i] != names[j] by {
        let base = base_file_name(j as nat, blocks[j].0, blocks[j].1);
        assert(deduped(base, names.take(j), names[j]));
        assert(names.take(j)[i] == names[i]);
        assert(names.take(j).contains(names[i]));
    }
}

// ---------------------------------------------------------------------------
// Loading a saved configuration
// ---------------------------------------------------------------------------

/// `a` sorts before `b` as Rust orders strings (by code point).
pub open spec fn id_before(a: Seq<char>, b: Seq<char>) -> bool {
    lex_lt(code_points(a), code_points(b))
}

/// `r` lists exactly the texts of `ids`, each once, in ascending order.
pub open spec fn sorted_unique_of(r: Seq<Seq<char>>, ids: Seq<Seq<char>>) -> bool {
    &&& forall|i: int, j: int| 0 <= i < j < r.len() ==> id_before(#[trigger] r[i], #[trigger] r[j])
    &&& forall|x: Seq<char>| r.contains(x) <==> ids.contains(x)
}

/// The saved case ids that the catalog still has, in their saved order.
pub open spec fn kept_ids(ids: Seq<Seq<char>>, available: Seq<Seq<char>>) -> Seq<Seq<char>>
    decreases ids.len(),
{
    if ids.len() == 0 {
        Seq::empty()
    } else {
        let p = kept_ids(ids.drop_last(), available);
        if available.contains(ids.last()) {
            p.push(ids.last())
        } else {
            p
        }
    }
}

/// Some saved case id is no longer in the catalog.
pub open spec fn has_retired(ids: Seq<Seq<char>>, available: Seq<Seq<char>>) -> bool {
    exists|i: int| 0 <= i < ids.len() && !available.contains(#[trigger] ids[i])
}

fn point_key(s: &str) -> (r: Vec<u64>)
    ensures
        r@ == code_points(s@),
{
    let c = chars_of(s);
    let mut r: Vec<u64> = Vec::new();
    let mut i: usize = 0;
    while i < c.len()
        invariant
            i <= c.len(),
            c@ == s@,
            r@ == code_points(c@.take(i as int)),
        decreases c.len() - i,
    {
        r.push((c[i] as u32) as u64 + 1);
        i = i + 1;
        assert(r@ =~= code_points(c@.take(i as int)));
    }
    assert(c@.take(c.len() as int) =~= c@);
    r
}

/// Strictly ascending keys, one per text.
pub open spec fn keyed_ascending(out: Seq<String>, keys: Seq<Vec<u64>>) -> bool {
    &&& keys.len() == out.len()
    &&& forall|i: int| 0 <= i < out.len() ==> #[trigger] keys[i]@ == code_points(out[i]@)
    &&& forall|i: int, j: int| 0 <= i < j < out.len() ==> lex_lt(#[trigger] keys[i]@, #[trigger] keys[j]@)
}

proof fn lemma_contains_push(s: Seq<Seq<char>>, a: Seq<char>)
    ensures
        forall|y: Seq<char>| s.push(a).contains(y) <==> (s.contains(y) || y == a),
{
    assert forall|y: Seq<char>| s.push(a).contains(y) <==> (s.contains(y) || y == a) by {
        if s.push(a).contains(y) {
            let k = choose|k: int| 0 <= k < s.push(a).len() && #[trigger] s.push(a)[k] == y;
            if k < s.len() {
                assert(s[k] == y);
            }
        }
        if s.contains(y) {
            let k = choose|k: int| 0 <= k < s.len() && #[trigger] s[k] == y;
            assert(s.push(a)[k] == y);
        }
        if y == a {
            assert(s.push(a)[s.len() as int] == y);
        }
    }
}

/// Every id of the catalog once, in ascending order.
fn sorted_unique_ids(available: &[String]) -> (r: Vec<String>)
    ensures
        sorted_unique_of(string_views(r@), string_views(available@)),
{
    let mut out: Vec<String> = Vec::new();
    let mut keys: Vec<Vec<u64>> = Vec::new();
    let mut i: usize = 0;
    while i < available.len()
        invariant
            i <= available.len(),
            keyed_ascending(out@, keys@),
            forall|x: Seq<char>| string_views(out@).contains(x) <==> string_views(available@).take(
                i as int,
            ).contains(x),
        decreases available.len() - i,
    {
        let x = available[i].clone();
        let ghost xv = x@;
        let kx = point_key(x.as_str());
        let ghost av = string_views(available@);
        assert(av.take(i + 1) =~= av.take(i as int).push(x@));
        proof {
            lemma_contains_push(av.take(i as int), x@);
        }
        let mut p: usize = 0;
        while p < out.len() && lex_less(&keys[p], &kx)
            invariant
                p <= out.len(),
                keyed_ascending(out@, keys@),
                kx@ == code_points(x@),
                forall|j: int| 0 <= j < p ==> lex_lt(#[trigger] keys@[j]@, kx@),
            decreases out.len() - p,
        {
            p = p + 1;
        }
        let present = p < out.len() && !lex_less(&kx, &keys[p]);
        if present {
            proof {
                lemma_lex_total(keys@[p as int]@, kx@);
                lemma_code_points(out@[p as int]@, x@);
                assert(string_views(out@)[p as int] == x@);
                assert forall|y: Seq<char>| string_views(out@).contains(y) <==> (string_views(
                    available@,
                ).take(i as int).contains(y) || y == x@) by {
                    if y == x@ {
                        assert(string_views(out@)[p as int] == y);
                    }
                }
            }
        } else {
            let ghost before = out@;
            let ghost bkeys = keys@;
            proof {
                assert forall|j: int| p <= j < out@.len() implies lex_lt(kx@, #[trigger] bkeys[j]@) by {
                    if j > p {
                        lemma_lex_transitive(kx@, bkeys[p as int]@, bkeys[j]@);
                    }
                }
            }
            out.insert(p, x);
            keys.insert(p, kx);
            proof {
                assert forall|a: int, b: int| 0 <= a < b < out@.len() implies lex_lt(
                    #[trigger] keys@[a]@,
                    #[trigger] keys@[b]@,
                ) by {
                    if b < p {
                        assert(keys@[a] == bkeys[a] && keys@[b] == bkeys[b]);
                    } else if a < p && b == p {
                        assert(keys@[a] == bkeys[a]);
                    } else if a < p {
                        assert(keys@[a] == bkeys[a] && keys@[b] == bkeys[b - 1]);
                        lemma_lex_transitive(bkeys[a]@, kx@, bkeys[b - 1]@);
                    } else if a == p {
                        assert(keys@[b] == bkeys[b - 1]);
                    } else {
                        assert(keys@[a] == bkeys[a - 1] && keys@[b] == bkeys[b - 1]);
                    }
                }
                assert forall|a: int| 0 <= a < out@.len() implies #[trigger] keys@[a]@ == code_points(
                    out@[a]@,
                ) by {
                    if a < p {
                        assert(keys@[a] == bkeys[a] && out@[a] == before[a]);
                    } else if a > p {
                        assert(keys@[a] == bkeys[a - 1] && out@[a] == before[a - 1]);
                    }
                }
                assert(string_views(out@) =~= string_views(before).insert(p as int, x@));
                assert forall|y: Seq<char>| string_views(out@).contains(y) <==> string_views(
                    before,
                ).contains(y) || y == x@ by {
                    if string_views(out@).contains(y) {
                        let k = choose|k: int| 0 <= k < string_views(out@).len() && #[trigger] string_views(out@)[k] == y;
                        if k < p {
                            assert(string_views(before)[k] == y);
                        } else if k > p {
                            assert(string_views(before)[k - 1] == y);
                        }
                    }
                    if string_views(before).contains(y) {
                        let k = choose|k: int| 0 <= k < string_views(before).len() && #[trigger] string_views(before)[k] == y;
                        if k < p {
                            assert(string_views(out@)[k] == y);
                        } else {
                            assert(string_views(out@)[k + 1] == y);
                        }
                    }
                    if y == x@ {
                        assert(string_views(out@)[p as int] == y);
                    }
                }
                assert forall|y: Seq<char>| string_views(out@).contains(y) <==> (string_views(
                    available@,
                ).take(i as int).contains(y) || y == xv) by {
                    if string_views(before).contains(y) {
                        assert(string_views(available@).take(i as int).contains(y));
                    }
                    if string_views(available@).take(i as int).contains(y) {
                        assert(string_views(before).contains(y));
                    }
                }
            }
        }
        assert forall|y: Seq<char>| string_views(out@).contains(y) <==> string_views(available@).take(
            i + 1,
        ).contains(y) by {
            assert(string_views(available@).take(i + 1) =~= string_views(available@).take(i as int).push(
                xv,
            ));
            lemma_contains_push(string_views(available@).take(i as int), xv);
        }
        i = i + 1;
    }
    assert(string_views(available@).take(available.len() as int) =~= string_views(available@));
    proof {
        assert forall|a: int, b: int| 0 <= a < b < string_views(out@).len() implies id_before(
            #[trigger] string_views(out@)[a],
            #[trigger] string_views(out@)[b],
        ) by {
            assert(lex_lt(keys@[a]@, keys@[b]@));
        }
    }
    out
}

/// The professional case ids of a saved configuration, read against the
/// catalog. A file written before the field existed selects the whole
/// catalog. Otherwise retired ids are dropped; when that leaves nothing of a
/// selection that held retired ids, every catalog id is selected, sorted.
/// An intentionally empty selection stays empty.
pub fn migrate_case_ids(has_field: bool, ids: &[String], available: &[String]) -> (r: Vec<String>)
    ensures
        !has_field ==> string_views(r@) == string_views(available@),
        has_field && has_retired(string_views(ids@), string_views(available@)) && kept_ids(
            string_views(ids@),
            string_views(available@),
        ).len() == 0 ==> sorted_unique_of(string_views(r@), string_views(available@)),
        has_field && !(has_retired(string_views(ids@), string_views(available@)) && kept_ids(
            string_views(ids@),
            string_views(available@),
        ).len() == 0) ==> string_views(r@) == kept_ids(string_views(ids@), string_views(available@)),
        forall|k: int|
            0 <= k < r@.len() ==> string_views(available@).contains(#[trigger] string_views(r@)[k]),
{
    proof {
        lemma_kept_in_catalog(string_views(ids@), string_views(available@));
    }
    if !has_field {
        let mut all: Vec<String> = Vec::new();
        let mut k: usize = 0;
        while k < available.len()
            invariant
                k <= available.len(),
                string_views(all@) == string_views(available@).take(k as int),
            decreases available.len() - k,
        {
            let ghost before = all@;
            let s = available[k].clone();
            all.push(s);
            assert(string_views(all@) =~= string_views(before).push(s@));
            assert(string_views(available@).take(k + 1) =~= string_views(available@).take(k as int).push(s@));
            k = k + 1;
        }
        assert(string_views(available@).take(available.len() as int) =~= string_views(available@));
        assert forall|k: int| 0 <= k < all@.len() implies string_views(available@).contains(
            #[trigger] string_views(all@)[k],
        ) by {
            assert(string_views(available@)[k] == string_views(all@)[k]);
        }
        return all;
    }
    let ghost av = string_views(available@);
    let ghost iv = string_views(ids@);
    let mut kept: Vec<String> = Vec::new();
    let mut retired = false;
    let mut i: usize = 0;
    while i < ids.len()
        invariant
            i <= ids.len(),
            av == string_views(available@),
            iv == string_views(ids@),
            string_views(kept@) == kept_ids(iv.take(i as int), av),
            retired == has_retired(iv.take(i as int), av),
        decreases ids.len() - i,
    {
        let mut found = false;
        let mut k: usize = 0;
        while k < available.len()
            invariant
                k <= available.len(),
                i < ids.len(),
                av == string_views(available@),
                found == av.take(k as int).contains(ids@[i as int]@),
            decreases available.len() - k,
        {
            let eq = crate::text::str_eq(available[k].as_str(), ids[i].as_str());
            proof {
                assert(av.take(k + 1) =~= av.take(k as int).push(av[k as int]));
                if av.take(k as int).contains(ids@[i as int]@) {
                    let w = choose|w: int| 0 <= w < k && #[trigger] av.take(k as int)[w] == ids@[i as int]@;
                    assert(av.take(k + 1)[w] == ids@[i as int]@);
                }
                if eq {
                    assert(av.take(k + 1)[k as int] == ids@[i as int]@);
                }
                if av.take(k + 1).contains(ids@[i as int]@) {
                    let w = choose|w: int| 0 <= w < k + 1 && #[trigger] av.take(k + 1)[w] == ids@[i as int]@;
                    if w < k {
                        assert(av.take(k as int)[w] == ids@[i as int]@);
                    }
                }
            }
            found = found || eq;
            k = k + 1;
        }
        assert(av.take(available.len() as int) =~= av);
        let ghost t = iv.take(i + 1);
        assert(t.drop_last() =~= iv.take(i as int));
        assert(t.last() == ids@[i as int]@);
        if found {
            let ghost before = kept@;
            let s = ids[i].clone();
            kept.push(s);
            assert(string_views(kept@) =~= string_views(before).push(s@));
        }
        proof {
            if !found {
                assert(!av.contains(t[i as int]));
                assert(has_retired(t, av));
            }
            if retired {
                let w = choose|w: int| 0 <= w < i && !av.contains(#[trigger] iv.take(i as int)[w]);
                assert(t[w] == iv.take(i as int)[w]);
            }
            if has_retired(t, av) {
                let w = choose|w: int| 0 <= w < t.len() && !av.contains(#[trigger] t[w]);
                if w < i {
                    assert(iv.take(i as int)[w] == t[w]);
                }
            }
        }
        retired = retired || !found;
        i = i + 1;
    }
    assert(iv.take(ids.len() as int) =~= iv);
    if retired && kept.len() == 0 {
        let r = sorted_unique_ids(available);
        assert forall|k: int| 0 <= k < r@.len() implies string_views(available@).contains(
            #[trigger] string_views(r@)[k],
        ) by {
            assert(string_views(r@).contains(string_views(r@)[k]));
        }
        r
    } else {
        kept
    }
}

proof fn lemma_kept_in_catalog(ids: Seq<Seq<char>>, available: Seq<Seq<char>>)
    ensures
        forall|k: int| 0 <= k < kept_ids(ids, available).len() ==> available.contains(
            #[trigger] kept_ids(ids, available)[k],
        ),
    decreases ids.len(),
{
    if ids.len() > 0 {
        lemma_kept_in_catalog(ids.drop_last(), available);
        let prev = kept_ids(ids.drop_last(), available);
        let cur = kept_ids(ids, available);
        assert forall|k: int| 0 <= k < cur.len() implies available.contains(#[trigger] cur[k]) by {
            if k < prev.len() {
                assert(cur[k] == prev[k]);
            }
        }
    }
}

} // verus!
