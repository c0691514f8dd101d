//! Turn the files of the scripts folder that are named like
//! `start - {model} - {feature}.ext` into launchable profiles.
//!
//! Reading the folder is left to the caller, which hands over the regular
//! files it found; everything decided about them is here.
use crate::alias_formatter::{
    build_alias, build_id, id_of, pretty_feature, pretty_feature_of, pretty_model, pretty_model_of,
};
use crate::order::{
    apply_order, key_views, lemma_lex_asymmetric, lemma_lex_irreflexive, lex_lt, stable_order,
    stable_sort_indices,
};
use crate::settings::Settings;
use crate::text::{
    chars_of, copy_range, ends_with, find, find_in, fnv1a, fnv1a_of, has_prefix, has_suffix,
    hex_digits, hex_of, starts_with, string_of, to_lowercase, trim, trim_with, unicode_lowercase,
    contains_name, views, CharSet,
};
use vstd::prelude::*;

verus! {

/// A launchable profile built from one startup script.
pub struct Profile {
    pub id: String,
    pub raw_model: String,
    pub raw_feature: String,
    pub pretty_model: String,
    pub pretty_feature: String,
    pub alias: String,
    pub display_name: String,
    pub script_path: String,
    pub working_directory: String,
    pub extension: String,
}

/// The text of every field of a profile.
pub struct ProfileView {
    pub id: Seq<char>,
    pub raw_model: Seq<char>,
    pub raw_feature: Seq<char>,
    pub pretty_model: Seq<char>,
    pub pretty_feature: Seq<char>,
    pub alias: Seq<char>,
    pub display_name: Seq<char>,
    pub script_path: Seq<char>,
    pub working_directory: Seq<char>,
    pub extension: Seq<char>,
}

impl View for Profile {
    type V = ProfileView;

    open spec fn view(&self) -> ProfileView {
        ProfileView {
            id: self.id@,
            raw_model: self.raw_model@,
            raw_feature: self.raw_feature@,
            pretty_model: self.pretty_model@,
            pretty_feature: self.pretty_feature@,
            alias: self.alias@,
            display_name: self.display_name@,
            script_path: self.script_path@,
            working_directory: self.working_directory@,
            extension: self.extension@,
        }
    }
}

impl Clone for Profile {
    fn clone(&self) -> (r: Self)
        ensures
            r@ == self@,
    {
        Profile {
            id: self.id.clone(),
            raw_model: self.raw_model.clone(),
            raw_feature: self.raw_feature.clone(),
            pretty_model: self.pretty_model.clone(),
            pretty_feature: self.pretty_feature.clone(),
            alias: self.alias.clone(),
            display_name: self.display_name.clone(),
            script_path: self.script_path.clone(),
            working_directory: self.working_directory.clone(),
            extension: self.extension.clone(),
        }
    }
}

/// A file of the scripts folder that did not become a profile, and why.
pub struct IgnoredFile {
    pub filename: String,
    pub reason: String,
}

impl View for IgnoredFile {
    type V = (Seq<char>, Seq<char>);

    open spec fn view(&self) -> (Seq<char>, Seq<char>) {
        (self.filename@, self.reason@)
    }
}

/// The outcome of one scan of the scripts folder.
pub struct ScanResult {
    pub profiles: Vec<Profile>,
    pub ignored_files: Vec<IgnoredFile>,
    pub scanned_at: String,
}

/// A regular file found in the scripts folder: its full path and its name.
pub struct ScriptFile {
    pub path: String,
    pub file_name: String,
}

impl View for ScriptFile {
    type V = (Seq<char>, Seq<char>);

    open spec fn view(&self) -> (Seq<char>, Seq<char>) {
        (self.path@, self.file_name@)
    }
}

/// The literal text around the `{model}` and `{feature}` placeholders of a
/// naming pattern.
pub struct PatternParts {
    pub before: String,
    pub between: String,
    pub after: String,
}

// ---------------------------------------------------------------------------
// File names
// ---------------------------------------------------------------------------

/// The index of the last `'.'` in `name`, or -1.
pub open spec fn last_dot_of(name: Seq<char>) -> int
    decreases name.len(),
{
    if name.len() == 0 {
        -1
    } else if name.last() == '.' {
        name.len() - 1
    } else {
        last_dot_of(name.drop_last())
    }
}

/// A file name split at its last dot, as `Path::file_stem` and
/// `Path::extension` do: `..` and names whose only dot leads have no
/// extension; otherwise the stem is what precedes the last dot and the
/// extension what follows it.
pub open spec fn has_extension(name: Seq<char>) -> bool {
    name != seq!['.', '.'] && last_dot_of(name) > 0
}

pub open spec fn file_stem_of(name: Seq<char>) -> Seq<char> {
    if has_extension(name) {
        name.take(last_dot_of(name))
    } else {
        name
    }
}

/// `"." + lowercase(extension)`, or empty text for a name without extension.
pub open spec fn dotted_extension_of(name: Seq<char>) -> Seq<char> {
    if has_extension(name) {
        seq!['.'] + unicode_lowercase(name.skip(last_dot_of(name) + 1))
    } else {
        Seq::<char>::empty()
    }
}

pub fn last_dot(name: &[char]) -> (r: Option<usize>)
    ensures
        match r {
            Some(j) => last_dot_of(name@) == j as int && j < name@.len(),
            None => last_dot_of(name@) == -1,
        },
{
    let mut j: usize = name.len();
    assert(name@.take(j as int) =~= name@);
    while j > 0
        invariant
            j <= name.len(),
            last_dot_of(name@) == last_dot_of(name@.take(j as int)),
        decreases j,
    {
        assert(name@.take(j as int).drop_last() =~= name@.take(j - 1));
        if name[j - 1] == '.' {
            return Some(j - 1);
        }
        j = j - 1;
    }
    None
}

fn split_file_name(name: &[char]) -> (r: (Vec<char>, Vec<char>))
    ensures
        r.0@ == file_stem_of(name@),
        r.1@ == dotted_extension_of(name@),
{
    let is_parent = name.len() == 2 && name[0] == '.' && name[1] == '.';
    proof {
        if name@ == seq!['.', '.'] {
            assert(name@[0] == '.' && name@[1] == '.');
        }
        if is_parent {
            assert(name@ =~= seq!['.', '.']);
        }
    }
    match last_dot(name) {
        Some(j) => {
            if j > 0 && !is_parent {
                let stem = copy_range(name, 0, j);
                let raw_ext = copy_range(name, j + 1, name.len());
                let mut ext: Vec<char> = vec!['.'];
                let mut lower = to_lowercase(&raw_ext);
                ext.append(&mut lower);
                assert(stem@ =~= name@.take(j as int));
                assert(raw_ext@ =~= name@.skip(j + 1));
                assert(ext@ =~= seq!['.'] + unicode_lowercase(name@.skip(j + 1)));
                (stem, ext)
            } else {
                let whole = copy_range(name, 0, name.len());
                assert(whole@ =~= name@);
                (whole, Vec::new())
            }
        },
        None => {
            let whole = copy_range(name, 0, name.len());
            assert(whole@ =~= name@);
            (whole, Vec::new())
        },
    }
}

// ---------------------------------------------------------------------------
// Naming pattern
// ---------------------------------------------------------------------------

pub open spec fn model_tag() -> Seq<char> {
    seq!['{', 'm', 'o', 'd', 'e', 'l', '}']
}

pub open spec fn feature_tag() -> Seq<char> {
    seq!['{', 'f', 'e', 'a', 't', 'u', 'r', 'e', '}']
}

/// The text before `{model}`, between the placeholders and after
/// `{feature}`; none when a placeholder is missing or `{feature}` (first
/// occurrence) comes before `{model}` (first occurrence).
pub open spec fn pattern_parts_of(pattern: Seq<char>) -> Option<(Seq<char>, Seq<char>, Seq<char>)> {
    match (find_in(pattern, model_tag()), find_in(pattern, feature_tag())) {
        (Some(m), Some(f)) => {
            if f < m {
                None
            } else {
                Some(
                    (
                        pattern.take(m),
                        pattern.subrange(m + model_tag().len(), f),
                        pattern.skip(f + feature_tag().len()),
                    ),
                )
            }
        },
        _ => None,
    }
}

/// Split a `start - {model} - {feature}` style pattern into the literal parts
/// surrounding the placeholders.
pub fn parse_pattern(pattern: &str) -> (r: Option<PatternParts>)
    ensures
        match r {
            Some(p) => pattern_parts_of(pattern@) == Some((p.before@, p.between@, p.after@)),
            None => pattern_parts_of(pattern@) is None,
        },
{
    let s = chars_of(pattern);
    let model: Vec<char> = vec!['{', 'm', 'o', 'd', 'e', 'l', '}'];
    let feature: Vec<char> = vec!['{', 'f', 'e', 'a', 't', 'u', 'r', 'e', '}'];
    assert(model@ =~= model_tag());
    assert(feature@ =~= feature_tag());
    let m = match find(&s, &model) {
        Some(m) => m,
        None => return None,
    };
    let f = match find(&s, &feature) {
        Some(f) => f,
        None => return None,
    };
    if f < m {
        return None;
    }
    proof {
        // The placeholders cannot overlap: `{` opens `{feature}` and appears
        // in `{model}` only at its start, whose next character differs.
        assert(s@.subrange(m as int, m + 7) == model_tag());
        assert(s@.subrange(f as int, f + 9) == feature_tag());
        assert(s@[f as int] == '{') by {
            assert(s@.subrange(f as int, f + 9)[0] == '{');
        }
        if f < m + 7 {
            assert(s@.subrange(m as int, m + 7)[f - m] == s@[f as int]);
            if f == m {
                assert(s@.subrange(f as int, f + 9)[1] == s@[f + 1]);
                assert(s@.subrange(m as int, m + 7)[1] == s@[m + 1]);
            }
        }
        assert(m + 7 <= f);
    }
    assert(feature@.len() == 9);
    assert(f + feature@.len() <= s@.len());
    assert(f + 9 <= s.len());
    let before = copy_range(&s, 0, m);
    let between = copy_range(&s, m + 7, f);
    let after = copy_range(&s, f + 9, s.len());
    assert(before@ =~= s@.take(m as int));
    assert(between@ =~= s@.subrange(m + 7, f as int));
    assert(after@ =~= s@.skip(f + 9));
    Some(PatternParts { before: string_of(&before), between: string_of(&between), after: string_of(&after) })
}

/// The separator looked for between model and feature: the pattern's own,
/// or ` - ` when the placeholders touch.
pub open spec fn separator_of(between: Seq<char>) -> Seq<char> {
    if between.len() == 0 {
        seq![' ', '-', ' ']
    } else {
        between
    }
}

/// `(raw_model, raw_feature)` read from a file stem: the stem must start with
/// `before` and end with `after`; what remains is split at the first
/// separator, and both halves, trimmed of whitespace, must be non-empty.
pub open spec fn stem_match_of(stem: Seq<char>, before: Seq<char>, between: Seq<char>, after: Seq<char>) -> Option<
    (Seq<char>, Seq<char>),
> {
    let rest = stem.skip(before.len() as int);
    let inner = rest.take(rest.len() - after.len());
    let sep = separator_of(between);
    if !starts_with(stem, before) || !ends_with(rest, after) {
        None
    } else {
        match find_in(inner, sep) {
            Some(i) => {
                let model = trim(inner.take(i), CharSet::Whitespace);
                let feature = trim(inner.skip(i + sep.len()), CharSet::Whitespace);
                if model.len() == 0 || feature.len() == 0 {
                    None
                } else {
                    Some((model, feature))
                }
            },
            None => None,
        }
    }
}

/// Try to extract (raw_model, raw_feature) from a filename stem.
pub fn match_stem(stem: &str, parts: &PatternParts) -> (r: Option<(String, String)>)
    ensures
        match r {
            Some((m, f)) => stem_match_of(stem@, parts.before@, parts.between@, parts.after@) == Some(
                (m@, f@),
            ),
            None => stem_match_of(stem@, parts.before@, parts.between@, parts.after@) is None,
        },
{
    let s = chars_of(stem);
    let before = chars_of(parts.before.as_str());
    let between = chars_of(parts.between.as_str());
    let after = chars_of(parts.after.as_str());
    let ghost rest = s@.skip(before@.len() as int);
    if !has_prefix(&s, &before) {
        return None;
    }
    let rest_v = copy_range(&s, before.len(), s.len());
    assert(rest_v@ =~= rest);
    if !has_suffix(&rest_v, &after) {
        return None;
    }
    let inner = copy_range(&rest_v, 0, rest_v.len() - after.len());
    assert(inner@ =~= rest.take(rest.len() - after@.len()));
    let sep: Vec<char> = if between.len() == 0 {
        let d: Vec<char> = vec![' ', '-', ' '];
        assert(d@ =~= seq![' ', '-', ' ']);
        d
    } else {
        between
    };
    let i = match find(&inner, &sep) {
        Some(i) => i,
        None => return None,
    };
    let head = copy_range(&inner, 0, i);
    let tail = copy_range(&inner, i + sep.len(), inner.len());
    assert(head@ =~= inner@.take(i as int));
    assert(tail@ =~= inner@.skip(i + sep@.len()));
    let model = trim_with(&head, CharSet::Whitespace);
    let feature = trim_with(&tail, CharSet::Whitespace);
    if model.len() == 0 || feature.len() == 0 {
        return None;
    }
    Some((string_of(&model), string_of(&feature)))
}

// ---------------------------------------------------------------------------
// Short hash
// ---------------------------------------------------------------------------

/// Six lowercase hex digits of the low 24 bits of the FNV-1a hash of the
/// UTF-8 text.
pub open spec fn short_hash_of(s: Seq<char>) -> Seq<char> {
    hex_digits((fnv1a(vstd::utf8::encode_utf8(s)) % 0x1000000) as nat, 6)
}

/// Tiny non-cryptographic hash rendered as 6 hex chars, for id disambiguation.
pub fn short_hash(s: &str) -> (r: String)
    ensures
        r@ == short_hash_of(s@),
{
    let hash = fnv1a_of(s.as_bytes());
    let low = hash & 0xffffff;
    assert(low == hash % 0x1000000) by (bit_vector)
        requires
            low == hash & 0xffffff,
    ;
    string_of(&hex_of(low, 6))
}

// ---------------------------------------------------------------------------
// Scanning
// ---------------------------------------------------------------------------

/// The allowed extensions, lowercased.
pub open spec fn lowered(exts: Seq<String>) -> Seq<Seq<char>> {
    exts.map_values(|e: String| unicode_lowercase(e@))
}

pub open spec fn file_views(files: Seq<ScriptFile>) -> Seq<(Seq<char>, Seq<char>)> {
    files.map_values(|f: ScriptFile| f@)
}

pub open spec fn ignored_views(v: Seq<IgnoredFile>) -> Seq<(Seq<char>, Seq<char>)> {
    v.map_values(|f: IgnoredFile| f@)
}

pub open spec fn profile_views(v: Seq<Profile>) -> Seq<ProfileView> {
    v.map_values(|p: Profile| p@)
}

/// Why the file named `name` does not become a profile, if it does not.
pub open spec fn rejection_of(
    allowed: Seq<Seq<char>>,
    parts: (Seq<char>, Seq<char>, Seq<char>),
    name: Seq<char>,
) -> Option<Seq<char>> {
    if !allowed.contains(dotted_extension_of(name)) {
        Some("Unsupported extension"@)
    } else if stem_match_of(file_stem_of(name), parts.0, parts.1, parts.2) is None {
        Some("Does not match naming pattern"@)
    } else {
        None
    }
}

/// The rejected files of a listing, in listing order, with their reasons.
pub open spec fn ignored_of(
    allowed: Seq<Seq<char>>,
    parts: (Seq<char>, Seq<char>, Seq<char>),
    files: Seq<(Seq<char>, Seq<char>)>,
) -> Seq<(Seq<char>, Seq<char>)>
    decreases files.len(),
{
    if files.len() == 0 {
        Seq::empty()
    } else {
        let prev = ignored_of(allowed, parts, files.drop_last());
        let name = files.last().1;
        match rejection_of(allowed, parts, name) {
            Some(reason) => prev.push((name, reason)),
            None => prev,
        }
    }
}

/// The accepted files of a listing, in listing order: path, dotted lowercase
/// extension, raw model and raw feature.
pub open spec fn matches_of(
    allowed: Seq<Seq<char>>,
    parts: (Seq<char>, Seq<char>, Seq<char>),
    files: Seq<(Seq<char>, Seq<char>)>,
) -> Seq<(Seq<char>, Seq<char>, Seq<char>, Seq<char>)>
    decreases files.len(),
{
    if files.len() == 0 {
        Seq::empty()
    } else {
        let prev = matches_of(allowed, parts, files.drop_last());
        let (path, name) = files.last();
        if rejection_of(allowed, parts, name) is None {
            let (model, feature) = stem_match_of(file_stem_of(name), parts.0, parts.1, parts.2)->0;
            prev.push((path, dotted_extension_of(name), model, feature))
        } else {
            prev
        }
    }
}

pub open spec fn base_id_of(m: (Seq<char>, Seq<char>, Seq<char>, Seq<char>)) -> Seq<char> {
    id_of(m.2, m.3)
}

/// The id of the `i`-th accepted file: its base id, or, when an earlier
/// accepted file has the same base id, the base id, `-` and the short hash of
/// its path.
pub open spec fn profile_id_at(ms: Seq<(Seq<char>, Seq<char>, Seq<char>, Seq<char>)>, i: int) -> Seq<char> {
    let base = base_id_of(ms[i]);
    if ms.take(i).map_values(|m: (Seq<char>, Seq<char>, Seq<char>, Seq<char>)| base_id_of(m)).contains(
        base,
    ) {
        base + seq!['-'] + short_hash_of(ms[i].0)
    } else {
        base
    }
}

pub open spec fn profile_at(
    ms: Seq<(Seq<char>, Seq<char>, Seq<char>, Seq<char>)>,
    i: int,
    folder: Seq<char>,
) -> ProfileView {
    let (path, ext, model, feature) = ms[i];
    let pm = pretty_model_of(model);
    let pf = pretty_feature_of(feature);
    let alias = pm + seq![' '] + pf;
    ProfileView {
        id: profile_id_at(ms, i),
        raw_model: model,
        raw_feature: feature,
        pretty_model: pm,
        pretty_feature: pf,
        alias: alias,
        display_name: alias,
        script_path: path,
        working_directory: folder,
        extension: ext,
    }
}

/// The profiles of the accepted files, in listing order.
pub open spec fn candidates_of(
    ms: Seq<(Seq<char>, Seq<char>, Seq<char>, Seq<char>)>,
    folder: Seq<char>,
) -> Seq<ProfileView> {
    Seq::new(ms.len(), |i: int| profile_at(ms, i, folder))
}

/// Characters as ordered numbers, each shifted up by one so that the
/// separator 0 sorts below every character.
pub open spec fn code_points(s: Seq<char>) -> Seq<u64> {
    s.map_values(|c: char| (c as u32 as u64 + 1) as u64)
}

/// Profiles are ordered by lowercase pretty model, then lowercase pretty
/// feature, comparing characters by code point.
pub open spec fn sort_key_of(pretty_model: Seq<char>, pretty_feature: Seq<char>) -> Seq<u64> {
    code_points(unicode_lowercase(pretty_model)) + seq![0u64] + code_points(
        unicode_lowercase(pretty_feature),
    )
}

pub open spec fn profile_keys(ps: Seq<ProfileView>) -> Seq<Seq<u64>> {
    ps.map_values(|p: ProfileView| sort_key_of(p.pretty_model, p.pretty_feature))
}

/// `out` is `ps` stably sorted by the profile sort key.
pub open spec fn sorted_profiles(ps: Seq<ProfileView>, out: Seq<ProfileView>) -> bool {
    exists|order: Seq<usize>|
        #![trigger stable_order(profile_keys(ps), order)]
        stable_order(profile_keys(ps), order) && out.len() == order.len() && forall|k: int|
            0 <= k < out.len() ==> out[k] == ps[#[trigger] order[k] as int]
}

/// The current local time, `%Y-%m-%dT%H:%M:%S` (`chrono::Local::now`). It
/// depends on the clock: nothing is stated of it.
#[verifier::external_body]
fn now_iso() -> String {
    chrono::Local::now().format("%Y-%m-%dT%H:%M:%S").to_string()
}

impl Default for ScanResult {
    /// An empty scan, stamped with the current time.
    fn default() -> (r: ScanResult)
        ensures
            r.profiles@.len() == 0,
            r.ignored_files@.len() == 0,
    {
        ScanResult { profiles: Vec::new(), ignored_files: Vec::new(), scanned_at: now_iso() }
    }
}

fn sort_key(pretty_model: &str, pretty_feature: &str) -> (r: Vec<u64>)
    ensures
        r@ == sort_key_of(pretty_model@, pretty_feature@),
{
    let m = to_lowercase(&chars_of(pretty_model));
    let f = to_lowercase(&chars_of(pretty_feature));
    let mut r: Vec<u64> = Vec::new();
    let mut i: usize = 0;
    while i < m.len()
        invariant
            i <= m.len(),
            r@ == code_points(m@.take(i as int)),
        decreases m.len() - i,
    {
        r.push((m[i] as u32) as u64 + 1);
        i = i + 1;
        assert(r@ =~= code_points(m@.take(i as int)));
    }
    assert(m@.take(m.len() as int) =~= m@);
    r.push(0);
    let ghost head = r@;
    let mut j: usize = 0;
    while j < f.len()
        invariant
            j <= f.len(),
            r@ == head + code_points(f@.take(j as int)),
        decreases f.len() - j,
    {
        r.push((f[j] as u32) as u64 + 1);
        j = j + 1;
        assert(r@ =~= head + code_points(f@.take(j as int)));
    }
    assert(f@.take(f.len() as int) =~= f@);
    assert(r@ =~= sort_key_of(pretty_model@, pretty_feature@));
    r
}

fn lowered_extensions(exts: &Vec<String>) -> (r: Vec<Vec<char>>)
    ensures
        views(r@) == lowered(exts@),
{
    let mut r: Vec<Vec<char>> = Vec::new();
    let mut i: usize = 0;
    while i < exts.len()
        invariant
            i <= exts.len(),
            views(r@) == lowered(exts@.take(i as int)),
        decreases exts.len() - i,
    {
        let l = to_lowercase(&chars_of(exts[i].as_str()));
        let ghost before = r@;
        r.push(l);
        proof {
            crate::text::lemma_views_push(before, l);
        }
        i = i + 1;
        assert(lowered(exts@.take(i as int)) =~= lowered(exts@.take(i - 1)).push(
            unicode_lowercase(exts@[i - 1]@),
        ));
    }
    assert(exts@.take(exts.len() as int) =~= exts@);
    r
}

proof fn lemma_candidates_push(
    ms: Seq<(Seq<char>, Seq<char>, Seq<char>, Seq<char>)>,
    x: (Seq<char>, Seq<char>, Seq<char>, Seq<char>),
    folder: Seq<char>,
)
    ensures
        candidates_of(ms.push(x), folder) == candidates_of(ms, folder).push(
            profile_at(ms.push(x), ms.len() as int, folder),
        ),
{
    let ext = ms.push(x);
    assert forall|i: int| 0 <= i < ms.len() implies #[trigger] profile_at(ext, i, folder) == profile_at(
        ms,
        i,
        folder,
    ) by {
        assert(ext.take(i) =~= ms.take(i));
        assert(ext[i] == ms[i]);
    }
    assert(candidates_of(ext, folder) =~= candidates_of(ms, folder).push(
        profile_at(ext, ms.len() as int, folder),
    ));
}

pub open spec fn base_ids(ms: Seq<(Seq<char>, Seq<char>, Seq<char>, Seq<char>)>) -> Seq<Seq<char>> {
    ms.map_values(|m: (Seq<char>, Seq<char>, Seq<char>, Seq<char>)| base_id_of(m))
}

/// Profiles from the regular files of the scripts folder. `listing` is the
/// folder's files, or the message of the error that kept it from being read.
/// Files whose extension is not allowed, or whose stem does not match the
/// naming pattern, are listed as ignored with the reason; the others become
/// profiles, ordered by model then feature.
pub fn scan_entries(settings: &Settings, listing: Result<Vec<ScriptFile>, String>) -> (r: ScanResult)
    ensures
        match pattern_parts_of(settings.scan_pattern@) {
            None => {
                &&& r.profiles@.len() == 0
                &&& ignored_views(r.ignored_files@) == seq![
                    (settings.scan_pattern@, "Invalid scan pattern (need {model} and {feature})"@),
                ]
            },
            Some(parts) => match listing {
                Err(e) => {
                    &&& r.profiles@.len() == 0
                    &&& ignored_views(r.ignored_files@) == seq![
                        (settings.scripts_folder@, "Cannot read scripts folder: "@ + e@),
                    ]
                },
                Ok(files) => {
                    let allowed = lowered(settings.allowed_extensions@);
                    &&& ignored_views(r.ignored_files@) == ignored_of(allowed, parts, file_views(files@))
                    &&& sorted_profiles(
                        candidates_of(matches_of(allowed, parts, file_views(files@)), settings.scripts_folder@),
                        profile_views(r.profiles@),
                    )
                },
            },
        },
{
    let parts = match parse_pattern(settings.scan_pattern.as_str()) {
        Some(p) => p,
        None => {
            let mut ignored: Vec<IgnoredFile> = Vec::new();
            ignored.push(
                IgnoredFile {
                    filename: settings.scan_pattern.clone(),
                    reason: String::from_str("Invalid scan pattern (need {model} and {feature})"),
                },
            );
            assert(ignored_views(ignored@) =~= seq![
                (settings.scan_pattern@, "Invalid scan pattern (need {model} and {feature})"@),
            ]);
            return ScanResult { profiles: Vec::new(), ignored_files: ignored, scanned_at: now_iso() };
        },
    };
    let ghost pv = (parts.before@, parts.between@, parts.after@);
    let files = match listing {
        Ok(files) => files,
        Err(e) => {
            let mut msg = chars_of("Cannot read scripts folder: ");
            let mut detail = chars_of(e.as_str());
            msg.append(&mut detail);
            let mut ignored: Vec<IgnoredFile> = Vec::new();
            ignored.push(IgnoredFile { filename: settings.scripts_folder.clone(), reason: string_of(&msg) });
            assert(ignored_views(ignored@) =~= seq![
                (settings.scripts_folder@, "Cannot read scripts folder: "@ + e@),
            ]);
            return ScanResult { profiles: Vec::new(), ignored_files: ignored, scanned_at: now_iso() };
        },
    };
    let allowed = lowered_extensions(&settings.allowed_extensions);
    let ghost al = lowered(settings.allowed_extensions@);
    let ghost fv = file_views(files@);
    let ghost folder = settings.scripts_folder@;
    let mut ignored: Vec<IgnoredFile> = Vec::new();
    let mut cands: Vec<Profile> = Vec::new();
    let mut keys: Vec<Vec<u64>> = Vec::new();
    let mut bases: Vec<Vec<char>> = Vec::new();
    let mut i: usize = 0;
    while i < files.len()
        invariant
            i <= files.len(),
            fv == file_views(files@),
            views(allowed@) == al,
            pv == (parts.before@, parts.between@, parts.after@),
            folder == settings.scripts_folder@,
            ignored_views(ignored@) == ignored_of(al, pv, fv.take(i as int)),
            profile_views(cands@) == candidates_of(matches_of(al, pv, fv.take(i as int)), folder),
            views(bases@) == base_ids(matches_of(al, pv, fv.take(i as int))),
            key_views(keys@) == profile_keys(profile_views(cands@)),
        decreases files.len() - i,
    {
        let file = &files[i];
        let ghost prefix = fv.take(i as int);
        let ghost next = fv.take(i + 1);
        assert(next.drop_last() =~= prefix);
        assert(next.last() == file@);
        let ghost ms = matches_of(al, pv, prefix);
        let name = chars_of(file.file_name.as_str());
        let (stem, ext) = split_file_name(&name);
        if !contains_name(&allowed, &ext) {
            let ghost before = ignored@;
            ignored.push(
                IgnoredFile { filename: file.file_name.clone(), reason: String::from_str("Unsupported extension") },
            );
            assert(ignored_views(ignored@) =~= ignored_views(before).push(
                (file.file_name@, "Unsupported extension"@),
            ));
        } else {
            let stem_text = string_of(&stem);
            match match_stem(stem_text.as_str(), &parts) {
                None => {
                    let ghost before = ignored@;
                    ignored.push(
                        IgnoredFile {
                            filename: file.file_name.clone(),
                            reason: String::from_str("Does not match naming pattern"),
                        },
                    );
                    assert(ignored_views(ignored@) =~= ignored_views(before).push(
                        (file.file_name@, "Does not match naming pattern"@),
                    ));
                },
                Some((raw_model, raw_feature)) => {
                    let ghost x = (file.path@, ext@, raw_model@, raw_feature@);
                    assert(matches_of(al, pv, next) == ms.push(x));
                    proof {
                        lemma_candidates_push(ms, x, folder);
                    }
                    let pm = pretty_model(raw_model.as_str());
                    let pf = pretty_feature(raw_feature.as_str());
                    let alias = build_alias(pm.as_str(), pf.as_str());
                    let base = build_id(raw_model.as_str(), raw_feature.as_str());
                    let base_chars = chars_of(base.as_str());
                    let seen = contains_name(&bases, &base_chars);
                    assert(ms.push(x).take(ms.len() as int) =~= ms);
                    assert(base_ids(ms) =~= ms.push(x).take(ms.len() as int).map_values(
                        |m: (Seq<char>, Seq<char>, Seq<char>, Seq<char>)| base_id_of(m),
                    ));
                    let id = if seen {
                        let mut id_chars = copy_range(&base_chars, 0, base_chars.len());
                        id_chars.push('-');
                        let h = short_hash(file.path.as_str());
                        let mut hc = chars_of(h.as_str());
                        id_chars.append(&mut hc);
                        assert(id_chars@ =~= base@ + seq!['-'] + short_hash_of(file.path@));
                        string_of(&id_chars)
                    } else {
                        base
                    };
                    let key = sort_key(pm.as_str(), pf.as_str());
                    let ghost before_bases = bases@;
                    bases.push(base_chars);
                    proof {
                        crate::text::lemma_views_push(before_bases, base_chars);
                        assert(base_ids(ms.push(x)) =~= base_ids(ms).push(base_id_of(x)));
                    }
                    let profile = Profile {
                        id: id,
                        raw_model: raw_model,
                        raw_feature: raw_feature,
                        pretty_model: pm,
                        pretty_feature: pf,
                        display_name: alias.clone(),
                        alias: alias,
                        script_path: file.path.clone(),
                        working_directory: settings.scripts_folder.clone(),
                        extension: string_of(&ext),
                    };
                    assert(profile@ == profile_at(ms.push(x), ms.len() as int, folder));
                    let ghost before_cands = cands@;
                    cands.push(profile);
                    assert(profile_views(cands@) =~= profile_views(before_cands).push(profile@));
                    let ghost before_keys = keys@;
                    keys.push(key);
                    assert(key_views(keys@) =~= key_views(before_keys).push(key@));
                    assert(profile_keys(profile_views(cands@)) =~= profile_keys(
                        profile_views(before_cands),
                    ).push(sort_key_of(profile@.pretty_model, profile@.pretty_feature)));
                },
            }
        }
        i = i + 1;
    }
    assert(fv.take(files.len() as int) =~= fv);
    let order = stable_sort_indices(&keys);
    let ghost cv = profile_views(cands@);
    let profiles = apply_order(cands, &order);
    assert(profile_views(profiles@).len() == order@.len());
    assert forall|k: int| 0 <= k < profile_views(profiles@).len() implies profile_views(profiles@)[k]
        == cv[#[trigger] order@[k] as int] by {}
    assert(stable_order(profile_keys(cv), order@));
    ScanResult { profiles, ignored_files: ignored, scanned_at: now_iso() }
}

/// Every file of a listing is accounted for: it becomes a profile or is
/// listed as ignored, never both and never neither.
pub proof fn law_every_file_accounted(
    allowed: Seq<Seq<char>>,
    parts: (Seq<char>, Seq<char>, Seq<char>),
    files: Seq<(Seq<char>, Seq<char>)>,
    folder: Seq<char>,
    profiles: Seq<ProfileView>,
)
    requires
        sorted_profiles(candidates_of(matches_of(allowed, parts, files), folder), profiles),
    ensures
        profiles.len() + ignored_of(allowed, parts, files).len() == files.len(),
{
    lemma_accounted(allowed, parts, files);
}

proof fn lemma_accounted(
    allowed: Seq<Seq<char>>,
    parts: (Seq<char>, Seq<char>, Seq<char>),
    files: Seq<(Seq<char>, Seq<char>)>,
)
    ensures
        matches_of(allowed, parts, files).len() + ignored_of(allowed, parts, files).len() == files.len(),
    decreases files.len(),
{
    if files.len() > 0 {
        lemma_accounted(allowed, parts, files.drop_last());
    }
}

/// `a` sorts before `b`: comparing characters by code point, a proper
/// prefix first.
pub open spec fn text_before(a: Seq<char>, b: Seq<char>) -> bool {
    lex_lt(code_points(a), code_points(b))
}

pub open spec fn no_zero(x: Seq<u64>) -> bool {
    forall|i: int| 0 <= i < x.len() ==> #[trigger] x[i] != 0
}

pub proof fn lemma_code_points(a: Seq<char>, b: Seq<char>)
    ensures
        no_zero(code_points(a)),
        code_points(a) == code_points(b) ==> a == b,
{
    if code_points(a) == code_points(b) {
        assert(a.len() == code_points(a).len() && b.len() == code_points(b).len());
        assert(a.len() == b.len());
        assert forall|i: int| 0 <= i < a.len() implies a[i] == b[i] by {
            let ua = a[i] as u32;
            let ub = b[i] as u32;
            assert(code_points(a)[i] == code_points(b)[i]);
            assert(code_points(a)[i] == (ua as u64 + 1) as u64);
            assert(code_points(b)[i] == (ub as u64 + 1) as u64);
            assert(ua == ub);
            vstd::utf8::char_u32_cast(a[i], ua);
            vstd::utf8::char_u32_cast(b[i], ub);
        }
        assert(a =~= b);
    }
}

/// Keys joined by a separator below every element compare by their first
/// parts, then by their second parts.
proof fn lemma_joined_keys(x: Seq<u64>, u: Seq<u64>, y: Seq<u64>, v: Seq<u64>)
    requires
        no_zero(x),
        no_zero(y),
    ensures
        lex_lt(x + seq![0u64] + u, y + seq![0u64] + v) <==> (lex_lt(x, y) || (x == y && lex_lt(u, v))),
        (x + seq![0u64] + u == y + seq![0u64] + v) <==> (x == y && u == v),
    decreases x.len(),
{
    let a = x + seq![0u64] + u;
    let b = y + seq![0u64] + v;
    if x.len() == 0 {
        assert(a[0] == 0);
        assert(a.drop_first() =~= u);
        if y.len() == 0 {
            assert(b[0] == 0);
            assert(b.drop_first() =~= v);
            assert(x =~= y);
        } else {
            assert(b[0] == y[0] && y[0] != 0);
            assert(a[0] != b[0]);
        }
    } else if y.len() == 0 {
        assert(b[0] == 0);
        assert(a[0] == x[0] && x[0] != 0);
        assert(a[0] != b[0]);
    } else {
        assert(a[0] == x[0] && b[0] == y[0]);
        assert(a.drop_first() =~= x.drop_first() + seq![0u64] + u);
        assert(b.drop_first() =~= y.drop_first() + seq![0u64] + v);
        assert(no_zero(x.drop_first())) by {
            assert forall|i: int| 0 <= i < x.drop_first().len() implies #[trigger] x.drop_first()[i] != 0 by {
                assert(x.drop_first()[i] == x[i + 1]);
            }
        }
        assert(no_zero(y.drop_first())) by {
            assert forall|i: int| 0 <= i < y.drop_first().len() implies #[trigger] y.drop_first()[i] != 0 by {
                assert(y.drop_first()[i] == y[i + 1]);
            }
        }
        lemma_joined_keys(x.drop_first(), u, y.drop_first(), v);
        if x[0] == y[0] && x.drop_first() == y.drop_first() {
            assert(x =~= seq![x[0]] + x.drop_first());
            assert(y =~= seq![y[0]] + y.drop_first());
        }
        if x == y {
            assert(x.drop_first() =~= y.drop_first());
        }
        if a == b {
            assert(a[0] == b[0]);
            assert(a.drop_first() == b.drop_first());
        }
    }
}

/// Profiles come ordered by pretty model, then pretty feature, both
/// lowercased and compared by code point; profiles that tie keep the order
/// in which their files were listed.
pub proof fn law_profiles_ordered_by_model_then_feature(ps: Seq<ProfileView>, out: Seq<ProfileView>)
    requires
        sorted_profiles(ps, out),
    ensures
        forall|k: int, l: int|
            0 <= k < l < out.len() ==> {
                let m1 = unicode_lowercase(#[trigger] out[k].pretty_model);
                let m2 = unicode_lowercase(#[trigger] out[l].pretty_model);
                let f1 = unicode_lowercase(out[k].pretty_feature);
                let f2 = unicode_lowercase(out[l].pretty_feature);
                text_before(m1, m2) || (m1 == m2 && !text_before(f2, f1))
            },
{
    let keys = profile_keys(ps);
    let order = choose|order: Seq<usize>|
        #![trigger stable_order(profile_keys(ps), order)]
        stable_order(profile_keys(ps), order) && out.len() == order.len() && forall|k: int|
            0 <= k < out.len() ==> out[k] == ps[#[trigger] order[k] as int];
    assert forall|k: int, l: int| 0 <= k < l < out.len() implies {
        let m1 = unicode_lowercase(#[trigger] out[k].pretty_model);
        let m2 = unicode_lowercase(#[trigger] out[l].pretty_model);
        let f1 = unicode_lowercase(out[k].pretty_feature);
        let f2 = unicode_lowercase(out[l].pretty_feature);
        text_before(m1, m2) || (m1 == m2 && !text_before(f2, f1))
    } by {
        let a = order[k] as int;
        let b = order[l] as int;
        assert(crate::order::before_in(keys, a, b));
        let m1 = unicode_lowercase(out[k].pretty_model);
        let m2 = unicode_lowercase(out[l].pretty_model);
        let f1 = unicode_lowercase(out[k].pretty_feature);
        let f2 = unicode_lowercase(out[l].pretty_feature);
        assert(out[k] == ps[a] && out[l] == ps[b]);
        assert(keys[a] == code_points(m1) + seq![0u64] + code_points(f1));
        assert(keys[b] == code_points(m2) + seq![0u64] + code_points(f2));
        lemma_code_points(m1, m2);
        lemma_code_points(m2, m1);
        lemma_code_points(f1, f2);
        lemma_code_points(f2, f1);
        lemma_joined_keys(code_points(m1), code_points(f1), code_points(m2), code_points(f2));
        lemma_lex_asymmetric(code_points(f1), code_points(f2));
        lemma_lex_irreflexive(code_points(f1));
    }
}

/// The last dot: `last_dot_of` is the index of a `'.'` with no `'.'` after
/// it, or -1 when the name holds no `'.'` at all.
pub proof fn law_last_dot(name: Seq<char>)
    ensures
        -1 <= last_dot_of(name) < name.len(),
        last_dot_of(name) >= 0 ==> name[last_dot_of(name)] == '.',
        forall|i: int| last_dot_of(name) < i < name.len() ==> name[i] != '.',
    decreases name.len(),
{
    if name.len() > 0 && name.last() != '.' {
        law_last_dot(name.drop_last());
        assert forall|i: int| last_dot_of(name) < i < name.len() implies name[i] != '.' by {
            if i < name.len() - 1 {
                assert(name[i] == name.drop_last()[i]);
            }
        }
    }
}

/// A file name is split at its last dot: for a nonempty stem and an
/// extension without dots, the stem comes back whatever dots it holds, and
/// the extension is the lowercased text after the dot. (The name `..` is
/// the one such name without an extension.)
pub proof fn law_split_at_last_dot(stem: Seq<char>, ext: Seq<char>)
    requires
        stem.len() > 0,
        !(stem == seq!['.'] && ext.len() == 0),
        forall|i: int| 0 <= i < ext.len() ==> ext[i] != '.',
    ensures
        file_stem_of(stem + seq!['.'] + ext) == stem,
        dotted_extension_of(stem + seq!['.'] + ext) == seq!['.'] + unicode_lowercase(ext),
{
    let name = stem + seq!['.'] + ext;
    law_last_dot(name);
    let j = last_dot_of(name);
    let d = stem.len() as int;
    assert(name[d] == '.');
    if j < d {
        assert(false);
    }
    if j > d {
        assert(name[j] == ext[j - d - 1]);
        assert(false);
    }
    assert(name != seq!['.', '.']) by {
        if name =~= seq!['.', '.'] {
            let t = stem + seq!['.'];
            assert(name.len() == 2);
            assert(ext.len() == 0 && stem.len() == 1);
            assert(name[0] == t[0] && t[0] == stem[0]);
            assert(seq!['.', '.'][0] == '.');
            assert(stem =~= seq!['.']);
            assert(false);
        }
    }
    assert(name.take(d) =~= stem);
    assert(name.skip(d + 1) =~= ext);
}

/// A startup script named `<stem>.cmd` has the extension `.cmd` and the
/// stem `<stem>`, whatever dots the stem holds.
pub proof fn law_cmd_script_split(stem: Seq<char>)
    requires
        stem.len() > 0,
    ensures
        file_stem_of(stem + ".cmd"@) == stem,
        dotted_extension_of(stem + ".cmd"@) == ".cmd"@,
{
    reveal_strlit(".cmd");
    let ext = seq!['c', 'm', 'd'];
    assert(stem + ".cmd"@ =~= stem + seq!['.'] + ext);
    law_split_at_last_dot(stem, ext);
    assert(crate::text::all_ascii(ext)) by {
        assert forall|i: int| 0 <= i < ext.len() implies crate::text::is_ascii_char(#[trigger] ext[i]) by {}
    }
    assert(unicode_lowercase(ext) =~= ext);
    assert(seq!['.'] + ext =~= ".cmd"@);
}

/// A name with no dot after its first character (`start - x`, `.bashrc`)
/// has no extension and is its own stem.
pub proof fn law_no_dot_no_extension(name: Seq<char>)
    requires
        forall|i: int| 0 < i < name.len() ==> name[i] != '.',
    ensures
        file_stem_of(name) == name,
        dotted_extension_of(name) == Seq::<char>::empty(),
{
    law_last_dot(name);
}

} // verus!
