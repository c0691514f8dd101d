//! One log file per server run. Reading the logs directory and writing files
//! is left to the caller; this module names the files, writes their text and
//! orders them.
use crate::order::{key_views, lemma_lex_asymmetric, lemma_lex_irreflexive, lex_lt, sort_by_keys, stably_sorted};
use crate::script_scanner::{code_points, text_before};
use crate::script_scanner::{has_extension, last_dot, last_dot_of, Profile};
use crate::text::{chars_of, copy_range, decimal, decimal_of, string_of};
use vstd::prelude::*;

verus! {

/// A run log in the logs directory.
pub struct LogEntry {
    pub filename: String,
    pub path: String,
    /// Last modification, local time, `%Y-%m-%d %H:%M:%S`.
    pub modified_at: String,
    pub size_bytes: u64,
}

impl View for LogEntry {
    type V = (Seq<char>, Seq<char>, Seq<char>, u64);

    open spec fn view(&self) -> (Seq<char>, Seq<char>, Seq<char>, u64) {
        (self.filename@, self.path@, self.modified_at@, self.size_bytes)
    }
}

pub open spec fn log_views(v: Seq<LogEntry>) -> Seq<(Seq<char>, Seq<char>, Seq<char>, u64)> {
    v.map_values(|e: LogEntry| e@)
}

/// A file of the logs directory is a run log when its extension is exactly
/// `log`.
pub open spec fn is_log_name(name: Seq<char>) -> bool {
    has_extension(name) && name.skip(last_dot_of(name) + 1) == seq!['l', 'o', 'g']
}

pub fn is_log_file(name: &str) -> (r: bool)
    ensures
        r == is_log_name(name@),
{
    let n = chars_of(name);
    let is_parent = n.len() == 2 && n[0] == '.' && n[1] == '.';
    proof {
        if n@ == seq!['.', '.'] {
            assert(n@[0] == '.' && n@[1] == '.');
        }
        if is_parent {
            assert(n@ =~= seq!['.', '.']);
        }
    }
    match last_dot(&n) {
        Some(j) => {
            if j == 0 || is_parent {
                return false;
            }
            let ext = copy_range(&n, j + 1, n.len());
            assert(ext@ =~= n@.skip(j + 1));
            let log: Vec<char> = vec!['l', 'o', 'g'];
            assert(log@ =~= seq!['l', 'o', 'g']);
            crate::text::same_chars(&ext, &log)
        },
        None => false,
    }
}

/// Newer first: text compared in reverse, each character mapped below its
/// predecessors' and the end of the text placed above every character.
pub open spec fn newest_first_key(modified_at: Seq<char>) -> Seq<u64> {
    modified_at.map_values(|c: char| (0x1_0000_0000u64 - c as u32 as u64) as u64) + seq![0x1_0000_0001u64]
}

pub open spec fn newest_first_keys(v: Seq<(Seq<char>, Seq<char>, Seq<char>, u64)>) -> Seq<Seq<u64>> {
    v.map_values(|e: (Seq<char>, Seq<char>, Seq<char>, u64)| newest_first_key(e.2))
}

fn newest_first_key_of(modified_at: &str) -> (r: Vec<u64>)
    ensures
        r@ == newest_first_key(modified_at@),
{
    let m = chars_of(modified_at);
    let mut r: Vec<u64> = Vec::new();
    let mut i: usize = 0;
    while i < m.len()
        invariant
            i <= m@.len(),
            r@ == m@.take(i as int).map_values(|c: char| (0x1_0000_0000u64 - c as u32 as u64) as u64),
        decreases m@.len() - i,
    {
        r.push(0x1_0000_0000u64 - (m[i] as u32) as u64);
        i = i + 1;
        assert(r@ =~= m@.take(i as int).map_values(|c: char| (0x1_0000_0000u64 - c as u32 as u64) as u64));
    }
    assert(m@.take(m@.len() as int) =~= m@);
    r.push(0x1_0000_0001u64);
    assert(r@ =~= newest_first_key(modified_at@));
    r
}

/// The logs, newest first (by modification time; ties keep their order).
pub fn newest_first(entries: Vec<LogEntry>) -> (r: Vec<LogEntry>)
    ensures
        stably_sorted(log_views(entries@), newest_first_keys(log_views(entries@)), log_views(r@)),
{
    let mut keys: Vec<Vec<u64>> = Vec::new();
    let mut i: usize = 0;
    while i < entries.len()
        invariant
            i <= entries@.len(),
            key_views(keys@) == newest_first_keys(log_views(entries@).take(i as int)),
        decreases entries@.len() - i,
    {
        let k = newest_first_key_of(entries[i].modified_at.as_str());
        let ghost kb = keys@;
        keys.push(k);
        assert(key_views(keys@) =~= key_views(kb).push(k@));
        i = i + 1;
        assert(newest_first_keys(log_views(entries@).take(i as int)) =~= newest_first_keys(
            log_views(entries@).take(i - 1),
        ).push(newest_first_key(entries@[i - 1].modified_at@)));
    }
    assert(log_views(entries@).take(entries@.len() as int) =~= log_views(entries@));
    let ghost ev = entries@;
    let r = sort_by_keys(entries, &keys);
    assert(stably_sorted(log_views(ev), newest_first_keys(log_views(ev)), log_views(r@))) by {
        let order = choose|order: Seq<usize>|
            #![trigger crate::order::stable_order(key_views(keys@), order)]
            crate::order::stable_order(key_views(keys@), order) && r@.len() == order.len() && forall|k: int|
                0 <= k < r@.len() ==> r@[k] == ev[#[trigger] order[k] as int];
        assert forall|k: int| 0 <= k < log_views(r@).len() implies log_views(r@)[k] == log_views(
            ev,
        )[#[trigger] order[k] as int] by {}
    }
    r
}

/// The path of the newest log, if there is any log.
pub fn latest_log_path(entries: Vec<LogEntry>) -> (r: Option<String>)
    ensures
        match r {
            Some(p) => exists|out: Seq<(Seq<char>, Seq<char>, Seq<char>, u64)>|
                stably_sorted(log_views(entries@), newest_first_keys(log_views(entries@)), out)
                    && out.len() > 0 && p@ == out[0].1,
            None => entries@.len() == 0,
        },
{
    let ghost ev = log_views(entries@);
    let sorted = newest_first(entries);
    proof {
        let order = choose|order: Seq<usize>|
            #![trigger crate::order::stable_order(newest_first_keys(ev), order)]
            crate::order::stable_order(newest_first_keys(ev), order) && log_views(sorted@).len()
                == order.len() && forall|k: int|
                0 <= k < log_views(sorted@).len() ==> log_views(sorted@)[k] == ev[#[trigger] order[k] as int];
    }
    if sorted.len() == 0 {
        None
    } else {
        assert(log_views(sorted@)[0].1 == sorted@[0].path@);
        Some(sorted[0].path.clone())
    }
}

/// The paths of every entry but the first.
pub open spec fn paths_after_first(out: Seq<(Seq<char>, Seq<char>, Seq<char>, u64)>) -> Seq<Seq<char>> {
    if out.len() == 0 {
        Seq::empty()
    } else {
        out.skip(1).map_values(|e: (Seq<char>, Seq<char>, Seq<char>, u64)| e.1)
    }
}

pub open spec fn string_views(v: Seq<String>) -> Seq<Seq<char>> {
    v.map_values(|s: String| s@)
}

/// The paths of every log but the newest: those "clear old logs" removes.
pub fn old_log_paths(entries: Vec<LogEntry>) -> (r: Vec<String>)
    ensures
        exists|out: Seq<(Seq<char>, Seq<char>, Seq<char>, u64)>|
            #![trigger paths_after_first(out)]
            stably_sorted(log_views(entries@), newest_first_keys(log_views(entries@)), out)
                && string_views(r@) == paths_after_first(out),
{
    let sorted = newest_first(entries);
    let ghost sv = log_views(sorted@);
    let mut r: Vec<String> = Vec::new();
    if sorted.len() == 0 {
        assert(string_views(r@) =~= paths_after_first(sv));
        return r;
    }
    let mut i: usize = 1;
    while i < sorted.len()
        invariant
            1 <= i <= sorted@.len(),
            sv == log_views(sorted@),
            string_views(r@) == paths_after_first(sv).take(i - 1),
        decreases sorted@.len() - i,
    {
        let p = sorted[i].path.clone();
        let ghost rb = r@;
        r.push(p);
        assert(string_views(r@) =~= string_views(rb).push(p@));
        i = i + 1;
        assert(paths_after_first(sv).take(i - 1) =~= paths_after_first(sv).take(i - 2).push(sv[i - 1].1));
    }
    assert(paths_after_first(sv).take(sorted@.len() - 1) =~= paths_after_first(sv));
    r
}

/// The file name of a run log: the profile id and the start stamp
/// (`%Y-%m-%d-%H%M%S`).
pub fn run_log_name(profile_id: &str, stamp: &str) -> (r: String)
    ensures
        r@ == profile_id@ + seq!['-'] + stamp@ + seq!['.', 'l', 'o', 'g'],
{
    let mut out = chars_of(profile_id);
    out.push('-');
    let mut s = chars_of(stamp);
    out.append(&mut s);
    out.push('.');
    out.push('l');
    out.push('o');
    out.push('g');
    string_of(&out)
}

pub open spec fn header_line(label: Seq<char>, value: Seq<char>) -> Seq<char> {
    label + value + seq!['\n']
}

/// The header written at the top of a run log.
pub open spec fn run_log_header_of(p: crate::script_scanner::ProfileView, start_time: Seq<char>, pid: Option<u32>) -> Seq<
    char,
> {
    "==== Llama Switcher run log ====\n"@ + header_line("alias:            "@, p.alias) + header_line(
        "profileId:        "@,
        p.id,
    ) + header_line("model:            "@, p.pretty_model) + header_line(
        "feature:          "@,
        p.pretty_feature,
    ) + header_line("scriptPath:       "@, p.script_path) + header_line(
        "workingDirectory: "@,
        p.working_directory,
    ) + header_line("startTime:        "@, start_time) + match pid {
        Some(n) => header_line("pid:              "@, decimal(n as nat)),
        None => Seq::<char>::empty(),
    } + "================================\n"@ + "---- process output ----\n"@
}

fn append_line_text(out: &mut Vec<char>, label: &str, value: &str)
    ensures
        final(out)@ == old(out)@ + header_line(label@, value@),
{
    let mut l = chars_of(label);
    out.append(&mut l);
    let mut v = chars_of(value);
    out.append(&mut v);
    out.push('\n');
}

/// The header of a run log: the profile, the start time and, when known,
/// the process id.
pub fn run_log_header(profile: &Profile, start_time: &str, pid: Option<u32>) -> (r: String)
    ensures
        r@ == run_log_header_of(profile@, start_time@, pid),
{
    let mut out = chars_of("==== Llama Switcher run log ====\n");
    append_line_text(&mut out, "alias:            ", profile.alias.as_str());
    append_line_text(&mut out, "profileId:        ", profile.id.as_str());
    append_line_text(&mut out, "model:            ", profile.pretty_model.as_str());
    append_line_text(&mut out, "feature:          ", profile.pretty_feature.as_str());
    append_line_text(&mut out, "scriptPath:       ", profile.script_path.as_str());
    append_line_text(&mut out, "workingDirectory: ", profile.working_directory.as_str());
    append_line_text(&mut out, "startTime:        ", start_time);
    let ghost before_pid = out@;
    match pid {
        Some(n) => {
            let d = string_of(&decimal_of(n as u64));
            append_line_text(&mut out, "pid:              ", d.as_str());
        },
        None => {},
    }
    let mut a = chars_of("================================\n");
    out.append(&mut a);
    let mut b = chars_of("---- process output ----\n");
    out.append(&mut b);
    assert(out@ =~= run_log_header_of(profile@, start_time@, pid));
    string_of(&out)
}

/// A line appended to a run log: `[time] text`.
pub fn log_line(time: &str, line: &str) -> (r: String)
    ensures
        r@ == seq!['['] + time@ + seq![']', ' '] + line@,
{
    let mut out: Vec<char> = vec!['['];
    let mut t = chars_of(time);
    out.append(&mut t);
    out.push(']');
    out.push(' ');
    let mut l = chars_of(line);
    out.append(&mut l);
    string_of(&out)
}

proof fn lemma_newest_key(a: Seq<char>, b: Seq<char>)
    ensures
        lex_lt(newest_first_key(a), newest_first_key(b)) ==> lex_lt(code_points(b), code_points(a)),
        newest_first_key(a) == newest_first_key(b) ==> a == b,
    decreases a.len(),
{
    let ka = newest_first_key(a);
    let kb = newest_first_key(b);
    if a.len() == 0 {
        if b.len() > 0 {
            assert(kb[0] == (0x1_0000_0000u64 - b[0] as u32 as u64) as u64);
            assert(ka[0] == 0x1_0000_0001u64);
            assert(ka[0] > kb[0]);
            assert(!lex_lt(ka, kb));
        } else {
            assert(a =~= b);
            lemma_lex_irreflexive(ka);
        }
    } else if b.len() == 0 {
        assert(ka[0] == (0x1_0000_0000u64 - a[0] as u32 as u64) as u64);
        assert(kb[0] == 0x1_0000_0001u64);
        assert(ka[0] != kb[0]);
        assert(code_points(b).len() == 0 && code_points(a).len() > 0);
        assert(lex_lt(code_points(b), code_points(a)));
    } else {
        let ua = a[0] as u32;
        let ub = b[0] as u32;
        assert(ka[0] == (0x1_0000_0000u64 - ua as u64) as u64);
        assert(kb[0] == (0x1_0000_0000u64 - ub as u64) as u64);
        assert(code_points(a)[0] == (ua as u64 + 1) as u64);
        assert(code_points(b)[0] == (ub as u64 + 1) as u64);
        assert(ka.drop_first() =~= newest_first_key(a.drop_first()));
        assert(kb.drop_first() =~= newest_first_key(b.drop_first()));
        assert(code_points(a).drop_first() =~= code_points(a.drop_first()));
        assert(code_points(b).drop_first() =~= code_points(b.drop_first()));
        lemma_newest_key(a.drop_first(), b.drop_first());
        if ua > ub {
            assert(ka[0] < kb[0]);
            assert(code_points(b)[0] < code_points(a)[0]);
            assert(lex_lt(code_points(b), code_points(a)));
        }
        if ua < ub {
            assert(ka[0] > kb[0]);
            assert(!lex_lt(ka, kb));
        }
        if ua == ub {
            assert(ka[0] == kb[0]);
            assert(code_points(b)[0] == code_points(a)[0]);
            if lex_lt(ka, kb) {
                assert(lex_lt(ka.drop_first(), kb.drop_first()));
                assert(lex_lt(code_points(b).drop_first(), code_points(a).drop_first()));
                assert(lex_lt(code_points(b), code_points(a)));
            }
            vstd::utf8::char_u32_cast(a[0], ua);
            vstd::utf8::char_u32_cast(b[0], ub);
            assert(a[0] == b[0]);
            if a.drop_first() == b.drop_first() {
                assert(a =~= seq![a[0]] + a.drop_first());
                assert(b =~= seq![b[0]] + b.drop_first());
            }
        }
        if ka == kb {
            assert(ka[0] == kb[0]);
            assert(ka.drop_first() == kb.drop_first());
        }
    }
}

/// Logs come newest first: no log is followed by one modified later
/// (modification times compared as text, by code point).
pub proof fn law_logs_newest_first(
    entries: Seq<(Seq<char>, Seq<char>, Seq<char>, u64)>,
    out: Seq<(Seq<char>, Seq<char>, Seq<char>, u64)>,
)
    requires
        stably_sorted(entries, newest_first_keys(entries), out),
    ensures
        forall|k: int, l: int|
            0 <= k < l < out.len() ==> !text_before(#[trigger] out[k].2, #[trigger] out[l].2),
{
    let keys = newest_first_keys(entries);
    let order = choose|order: Seq<usize>|
        #![trigger crate::order::stable_order(keys, order)]
        crate::order::stable_order(keys, order) && out.len() == order.len() && forall|k: int|
            0 <= k < out.len() ==> out[k] == entries[#[trigger] order[k] as int];
    assert forall|k: int, l: int| 0 <= k < l < out.len() implies !text_before(
        #[trigger] out[k].2,
        #[trigger] out[l].2,
    ) by {
        let a = order[k] as int;
        let b = order[l] as int;
        assert(crate::order::before_in(keys, a, b));
        assert(out[k] == entries[a] && out[l] == entries[b]);
        assert(keys[a] == newest_first_key(out[k].2));
        assert(keys[b] == newest_first_key(out[l].2));
        lemma_newest_key(out[k].2, out[l].2);
        lemma_lex_asymmetric(code_points(out[l].2), code_points(out[k].2));
        lemma_lex_irreflexive(code_points(out[k].2));
    }
}

/// The latest log is the newest: no listed log was modified later than the
/// first one of the newest-first listing.
pub proof fn law_latest_log_is_newest(
    entries: Seq<(Seq<char>, Seq<char>, Seq<char>, u64)>,
    out: Seq<(Seq<char>, Seq<char>, Seq<char>, u64)>,
)
    requires
        stably_sorted(entries, newest_first_keys(entries), out),
        out.len() > 0,
    ensures
        forall|j: int| 0 <= j < entries.len() ==> !text_before(out[0].2, #[trigger] entries[j].2),
{
    law_logs_newest_first(entries, out);
    let keys = newest_first_keys(entries);
    let order = choose|order: Seq<usize>|
        #![trigger crate::order::stable_order(keys, order)]
        crate::order::stable_order(keys, order) && out.len() == order.len() && forall|k: int|
            0 <= k < out.len() ==> out[k] == entries[#[trigger] order[k] as int];
    assert forall|j: int| 0 <= j < entries.len() implies !text_before(out[0].2, #[trigger] entries[j].2) by {
        crate::order::lemma_order_surjective(keys, order, j);
        let p = choose|p: int| 0 <= p < order.len() && order[p] == j;
        assert(out[p] == entries[j]);
        if p == 0 {
            lemma_lex_irreflexive(code_points(out[0].2));
        } else {
            assert(!text_before(out[0].2, out[p].2));
        }
    }
}

} // verus!
