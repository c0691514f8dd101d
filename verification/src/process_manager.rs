//! Decisions of the server manager: reading GPU memory reports, finding the
//! listener of a port, recognising a restart, reading API keys out of
//! startup scripts, matching an external server to a profile, resolving
//! aliases and judging what a server is busy with.
//!
//! Running commands, HTTP probes and sleeping stay with the caller, which
//! hands their output here.
use crate::alias_formatter::{normalize_alias, normalized_alias};
use crate::order::{key_views, sort_by_keys, stably_sorted};
use crate::script_scanner::{Profile, ProfileView};
use crate::settings::{DefaultProfileMode, Settings};
use crate::state::UsageState;
use crate::text::{
    ascii_lower_seq, ascii_lowercase, chars_of, contains_chars, contains_seq, copy_range, find,
    find_in, has_prefix, lines, parse_unsigned, parse_unsigned_max, split_lines, split_words,
    starts_with, str_eq, string_of, to_lowercase, trim, trim_start, trim_start_with, trim_with,
    unicode_lowercase, views, words, CharSet,
};
use std::collections::HashSet;
use vstd::prelude::*;

verus! {

// ---------------------------------------------------------------------------
// GPU memory
// ---------------------------------------------------------------------------

/// A process holding GPU memory: its id, image name and MiB in use.
pub struct VramProcess {
    pub pid: u32,
    pub name: String,
    pub used_mib: u64,
}

impl View for VramProcess {
    type V = (u32, Seq<char>, u64);

    open spec fn view(&self) -> (u32, Seq<char>, u64) {
        (self.pid, self.name@, self.used_mib)
    }
}

impl Clone for VramProcess {
    fn clone(&self) -> (r: Self)
        ensures
            r@ == self@,
    {
        VramProcess { pid: self.pid, name: self.name.clone(), used_mib: self.used_mib }
    }
}

pub open spec fn vram_views(v: Seq<VramProcess>) -> Seq<(u32, Seq<char>, u64)> {
    v.map_values(|p: VramProcess| p@)
}

pub open spec fn llama_server_prefix() -> Seq<char> {
    seq!['l', 'l', 'a', 'm', 'a', '-', 's', 'e', 'r', 'v', 'e', 'r']
}

/// An image name of the llama.cpp server: it starts with `llama-server`,
/// ignoring ASCII case.
pub open spec fn is_llama_server_name(name: Seq<char>) -> bool {
    starts_with(ascii_lower_seq(name), llama_server_prefix())
}

pub fn is_llama_server_process(name: &str) -> (r: bool)
    ensures
        r == is_llama_server_name(name@),
{
    let lower = ascii_lowercase(&chars_of(name));
    let prefix: Vec<char> = vec!['l', 'l', 'a', 'm', 'a', '-', 's', 'e', 'r', 'v', 'e', 'r'];
    assert(prefix@ =~= llama_server_prefix());
    has_prefix(&lower, &prefix)
}

/// The server's own process: the tracked id, or a llama.cpp server image.
pub open spec fn is_server_process(p: (u32, Seq<char>, u64), server_pid: Option<u32>) -> bool {
    server_pid == Some(p.0) || is_llama_server_name(p.1)
}

/// The allocations that can be real: more than nothing and at most the
/// GPU's total, in their original order.
pub open spec fn plausible(ps: Seq<(u32, Seq<char>, u64)>, total: u64) -> Seq<(u32, Seq<char>, u64)>
    decreases ps.len(),
{
    if ps.len() == 0 {
        Seq::empty()
    } else {
        let prev = plausible(ps.drop_last(), total);
        let p = ps.last();
        if 0 < p.2 && p.2 <= total {
            prev.push(p)
        } else {
            prev
        }
    }
}

pub open spec fn used_sum(ps: Seq<(u32, Seq<char>, u64)>) -> nat
    decreases ps.len(),
{
    if ps.len() == 0 {
        0
    } else {
        used_sum(ps.drop_last()) + ps.last().2 as nat
    }
}

/// Taking the allocations in order, each one that still fits beside those
/// already taken.
pub open spec fn fitting(ps: Seq<(u32, Seq<char>, u64)>, total: u64) -> Seq<(u32, Seq<char>, u64)>
    decreases ps.len(),
{
    if ps.len() == 0 {
        Seq::empty()
    } else {
        let prev = fitting(ps.drop_last(), total);
        let p = ps.last();
        if used_sum(prev) + p.2 <= total {
            prev.push(p)
        } else {
            prev
        }
    }
}

/// Server first, then larger allocations first.
pub open spec fn server_first_key(p: (u32, Seq<char>, u64), server_pid: Option<u32>) -> Seq<u64> {
    seq![if is_server_process(p, server_pid) { 0u64 } else { 1u64 }, (u64::MAX - p.2) as u64]
}

pub open spec fn server_first_keys(ps: Seq<(u32, Seq<char>, u64)>, server_pid: Option<u32>) -> Seq<
    Seq<u64>,
> {
    ps.map_values(|p: (u32, Seq<char>, u64)| server_first_key(p, server_pid))
}

/// Larger allocations first.
pub open spec fn size_keys(ps: Seq<(u32, Seq<char>, u64)>) -> Seq<Seq<u64>> {
    ps.map_values(|p: (u32, Seq<char>, u64)| seq![(u64::MAX - p.2) as u64])
}

/// What `reconcile_vram_processes` keeps: the plausible allocations, ordered
/// server first and then by size, taken while they fit, and finally ordered
/// by size (ties in their previous order).
pub open spec fn reconciled(
    ps: Seq<(u32, Seq<char>, u64)>,
    total: u64,
    server_pid: Option<u32>,
    out: Seq<(u32, Seq<char>, u64)>,
) -> bool {
    exists|mid: Seq<(u32, Seq<char>, u64)>|
        #![trigger fitting(mid, total)]
        stably_sorted(plausible(ps, total), server_first_keys(plausible(ps, total), server_pid), mid)
            && stably_sorted(fitting(mid, total), size_keys(fitting(mid, total)), out)
}

fn server_first_key_of(p: &VramProcess, server_pid: Option<u32>) -> (r: Vec<u64>)
    ensures
        r@ == server_first_key(p@, server_pid),
{
    let is_server = match server_pid {
        Some(pid) => pid == p.pid,
        None => false,
    } || is_llama_server_process(p.name.as_str());
    let mut r: Vec<u64> = Vec::new();
    r.push(if is_server { 0 } else { 1 });
    r.push(u64::MAX - p.used_mib);
    assert(r@ =~= server_first_key(p@, server_pid));
    r
}

/// Windows GPU Process Memory counters can retain an allocation after a PID is
/// reused and can report overlapping WDDM allocations for multiple processes.
/// Prefer the active server and only expose a physically possible combination.
pub fn reconcile_vram_processes(
    processes: Vec<VramProcess>,
    total_mib: u64,
    server_pid: Option<u32>,
) -> (r: Vec<VramProcess>)
    ensures
        reconciled(vram_views(processes@), total_mib, server_pid, vram_views(r@)),
{
    let ghost input = vram_views(processes@);
    // Plausible allocations, each with its ordering key.
    let mut kept: Vec<VramProcess> = Vec::new();
    let mut keys: Vec<Vec<u64>> = Vec::new();
    let n = processes.len();
    let mut i: usize = 0;
    while i < n
        invariant
            i <= n,
            n == processes@.len(),
            input == vram_views(processes@),
            vram_views(kept@) == plausible(input.take(i as int), total_mib),
            key_views(keys@) == server_first_keys(vram_views(kept@), server_pid),
        decreases n - i,
    {
        let p = &processes[i];
        assert(input.take(i + 1).drop_last() =~= input.take(i as int));
        assert(input.take(i + 1).last() == p@);
        if p.used_mib > 0 && p.used_mib <= total_mib {
            let k = server_first_key_of(p, server_pid);
            let q = p.clone();
            let ghost kb = keys@;
            let ghost vb = kept@;
            kept.push(q);
            keys.push(k);
            assert(vram_views(kept@) =~= vram_views(vb).push(q@));
            assert(key_views(keys@) =~= key_views(kb).push(k@));
            assert(server_first_keys(vram_views(kept@), server_pid) =~= server_first_keys(
                vram_views(vb),
                server_pid,
            ).push(server_first_key(q@, server_pid)));
        }
        i = i + 1;
    }
    assert(input.take(n as int) =~= input);
    let ghost kept_seq = kept@;
    let ordered = sort_by_keys(kept, &keys);
    let ghost mid = vram_views(ordered@);
    assert(stably_sorted(plausible(input, total_mib), server_first_keys(plausible(input, total_mib), server_pid), mid)) by {
        let order = choose|order: Seq<usize>|
            #![trigger crate::order::stable_order(key_views(keys@), order)]
            crate::order::stable_order(key_views(keys@), order) && ordered@.len() == order.len()
                && forall|k: int| 0 <= k < ordered@.len() ==> ordered@[k] == kept_seq[#[trigger] order[k] as int];
        assert forall|k: int| 0 <= k < mid.len() implies mid[k] == vram_views(kept_seq)[#[trigger] order[k] as int] by {}
    }
    // Take allocations while they fit.
    let mut fit: Vec<VramProcess> = Vec::new();
    let mut fit_keys: Vec<Vec<u64>> = Vec::new();
    let mut accounted: u64 = 0;
    let mut j: usize = 0;
    while j < ordered.len()
        invariant
            j <= ordered@.len(),
            mid == vram_views(ordered@),
            vram_views(fit@) == fitting(mid.take(j as int), total_mib),
            accounted as nat == used_sum(vram_views(fit@)),
            accounted <= total_mib,
            key_views(fit_keys@) == size_keys(vram_views(fit@)),
        decreases ordered@.len() - j,
    {
        let p = &ordered[j];
        assert(mid.take(j + 1).drop_last() =~= mid.take(j as int));
        assert(mid.take(j + 1).last() == p@);
        if p.used_mib <= total_mib - accounted {
            let q = p.clone();
            let ghost fb = fit@;
            let ghost kb = fit_keys@;
            let mut k: Vec<u64> = Vec::new();
            k.push(u64::MAX - q.used_mib);
            accounted = accounted + q.used_mib;
            fit.push(q);
            fit_keys.push(k);
            assert(vram_views(fit@) =~= vram_views(fb).push(q@));
            assert(vram_views(fit@).drop_last() =~= vram_views(fb));
            assert(key_views(fit_keys@) =~= key_views(kb).push(k@));
            assert(size_keys(vram_views(fit@)) =~= size_keys(vram_views(fb)).push(seq![(u64::MAX - q.used_mib) as u64]));
            assert(k@ =~= seq![(u64::MAX - q.used_mib) as u64]);
        }
        j = j + 1;
    }
    assert(mid.take(ordered@.len() as int) =~= mid);
    let ghost fv = vram_views(fit@);
    let ghost fit_seq = fit@;
    let out = sort_by_keys(fit, &fit_keys);
    assert(stably_sorted(fitting(mid, total_mib), size_keys(fitting(mid, total_mib)), vram_views(out@))) by {
        let order = choose|order: Seq<usize>|
            #![trigger crate::order::stable_order(key_views(fit_keys@), order)]
            crate::order::stable_order(key_views(fit_keys@), order) && out@.len() == order.len()
                && forall|k: int| 0 <= k < out@.len() ==> out@[k] == fit_seq[#[trigger] order[k] as int];
        assert forall|k: int| 0 <= k < vram_views(out@).len() implies vram_views(out@)[k] == fv[#[trigger] order[k] as int] by {}
    }
    out
}

/// The process id of one line of `nvidia-smi pmon`: its second field read
/// as a `u32`; comment lines (first non-blank character `#`) have none.
pub open spec fn pmon_pid(line: Seq<char>) -> Option<u32> {
    let t = trim_start(line, CharSet::Whitespace);
    let w = words(line);
    if t.len() > 0 && t[0] == '#' {
        None
    } else if w.len() > 1 {
        match parse_unsigned(w[1], u32::MAX as nat) {
            Some(v) => Some(v as u32),
            None => None,
        }
    } else {
        None
    }
}

pub open spec fn pmon_pids(ls: Seq<Seq<char>>) -> Seq<u32>
    decreases ls.len(),
{
    if ls.len() == 0 {
        Seq::empty()
    } else {
        match pmon_pid(ls.last()) {
            Some(pid) => pmon_pids(ls.drop_last()).push(pid),
            None => pmon_pids(ls.drop_last()),
        }
    }
}

fn pmon_line_pid(line: &[char]) -> (r: Option<u32>)
    ensures
        r == pmon_pid(line@),
{
    let t = trim_start_with(line, CharSet::Whitespace);
    if t.len() > 0 && t[0] == '#' {
        return None;
    }
    let w = split_words(line);
    if w.len() > 1 {
        assert(views(w@)[1] == w@[1]@);
        match parse_unsigned_max(w[1].as_slice(), 0xffff_ffff) {
            Some(v) => Some(v as u32),
            None => None,
        }
    } else {
        None
    }
}

/// The process ids that `nvidia-smi pmon` lists as live.
pub fn parse_active_gpu_pids(output: &str) -> (r: HashSet<u32>)
    ensures
        r@ == pmon_pids(lines(output@)).to_set(),
{
    broadcast use vstd::std_specs::hash::group_hash_axioms;

    let ls = split_lines(&chars_of(output));
    let ghost lv = views(ls@);
    let mut r: HashSet<u32> = HashSet::new();
    let mut i: usize = 0;
    while i < ls.len()
        invariant
            i <= ls@.len(),
            lv == views(ls@),
            r@ == pmon_pids(lv.take(i as int)).to_set(),
        decreases ls@.len() - i,
    {
        assert(lv.take(i + 1).drop_last() =~= lv.take(i as int));
        assert(lv.take(i + 1).last() == ls@[i as int]@);
        match pmon_line_pid(ls[i].as_slice()) {
            Some(pid) => {
                r.insert(pid);
                assert(pmon_pids(lv.take(i + 1)) == pmon_pids(lv.take(i as int)).push(pid));
                assert(pmon_pids(lv.take(i + 1)).to_set() =~= pmon_pids(lv.take(i as int)).to_set().insert(pid)) by {
                    let a = pmon_pids(lv.take(i as int));
                    assert forall|x: u32| a.push(pid).contains(x) <==> (a.contains(x) || x == pid) by {
                        if a.push(pid).contains(x) {
                            let k = choose|k: int| 0 <= k < a.push(pid).len() && a.push(pid)[k] == x;
                            if k < a.len() {
                                assert(a[k] == x);
                            }
                        }
                        if a.contains(x) {
                            let k = choose|k: int| 0 <= k < a.len() && a[k] == x;
                            assert(a.push(pid)[k] == x);
                        }
                        if x == pid {
                            assert(a.push(pid)[a.len() as int] == x);
                        }
                    }
                }
            },
            None => {},
        }
        i = i + 1;
    }
    assert(lv.take(ls@.len() as int) =~= lv);
    r
}

// ---------------------------------------------------------------------------
// Listeners
// ---------------------------------------------------------------------------

/// A restart has produced its replacement once a listener holds the port and
/// it is not the listener from before the restart.
pub fn restart_has_replacement_listener(old_listener: Option<u32>, current_listener: Option<u32>) -> (r:
    bool)
    ensures
        r == (current_listener is Some && (old_listener is None || current_listener != old_listener)),
{
    match (old_listener, current_listener) {
        (_, None) => false,
        (None, Some(_)) => true,
        (Some(old), Some(current)) => old != current,
    }
}

pub open spec fn listening_word() -> Seq<char> {
    seq!['L', 'I', 'S', 'T', 'E', 'N', 'I', 'N', 'G']
}

/// The listener a line of `netstat -ano -p TCP` reports for `needle`
/// (`:port`): a `TCP` row (any case) in state `LISTENING` whose local
/// address ends with the needle and whose fifth field is a `u32`.
pub open spec fn netstat_listener(line: Seq<char>, needle: Seq<char>) -> Option<u32> {
    let f = words(line);
    if f.len() >= 5 && ascii_lower_seq(f[0]) == seq!['t', 'c', 'p'] && f[3] == listening_word()
        && crate::text::ends_with(f[1], needle) {
        match parse_unsigned(f[4], u32::MAX as nat) {
            Some(v) => Some(v as u32),
            None => None,
        }
    } else {
        None
    }
}

/// The first line of the listing that names a listener.
pub open spec fn first_listener(ls: Seq<Seq<char>>, needle: Seq<char>) -> Option<u32>
    decreases ls.len(),
{
    if ls.len() == 0 {
        None
    } else {
        match netstat_listener(ls[0], needle) {
            Some(pid) => Some(pid),
            None => first_listener(ls.drop_first(), needle),
        }
    }
}

pub open spec fn port_needle(port: u16) -> Seq<char> {
    seq![':'] + crate::text::decimal(port as nat)
}

/// The process listening on `port` according to `netstat -ano -p TCP`
/// output; IPv4 (`127.0.0.1:port`) and IPv6 (`[::1]:port`) rows alike.
pub fn listener_on_port(netstat_output: &str, port: u16) -> (r: Option<u32>)
    ensures
        r == first_listener(lines(netstat_output@), port_needle(port)),
{
    let mut needle: Vec<char> = vec![':'];
    let mut digits = crate::text::decimal_of(port as u64);
    needle.append(&mut digits);
    assert(needle@ =~= port_needle(port));
    let tcp: Vec<char> = vec!['t', 'c', 'p'];
    let listening: Vec<char> = vec!['L', 'I', 'S', 'T', 'E', 'N', 'I', 'N', 'G'];
    assert(tcp@ =~= seq!['t', 'c', 'p']);
    assert(listening@ =~= listening_word());
    let text = chars_of(netstat_output);
    let ls = split_lines(&text);
    let ghost lv = views(ls@);
    assert(lv == lines(netstat_output@));
    assert(lv.skip(0) =~= lv);
    let mut i: usize = 0;
    while i < ls.len()
        invariant
            i <= ls@.len(),
            lv == views(ls@),
            lv == lines(netstat_output@),
            needle@ == port_needle(port),
            tcp@ == seq!['t', 'c', 'p'],
            listening@ == listening_word(),
            first_listener(lv, needle@) == first_listener(lv.skip(i as int), needle@),
        decreases ls@.len() - i,
    {
        let f = split_words(ls[i].as_slice());
        let ghost fv = views(f@);
        assert(lv.skip(i as int)[0] == ls@[i as int]@);
        assert(lv.skip(i as int).drop_first() =~= lv.skip(i + 1));
        if f.len() >= 5 {
            assert(fv[0] == f@[0]@ && fv[1] == f@[1]@ && fv[3] == f@[3]@ && fv[4] == f@[4]@);
            let proto = ascii_lowercase(f[0].as_slice());
            if crate::text::same_chars(&proto, &tcp) && crate::text::same_chars(f[3].as_slice(), &listening)
                && crate::text::has_suffix(f[1].as_slice(), &needle) {
                match parse_unsigned_max(f[4].as_slice(), 0xffff_ffff) {
                    Some(pid) => {
                        assert(netstat_listener(ls@[i as int]@, needle@) == Some(pid as u32));
                        assert(lv.skip(i as int).len() > 0);
                        assert(first_listener(lv.skip(i as int), needle@) == Some(pid as u32));
                        return Some(pid as u32);
                    },
                    None => {},
                }
            }
        }
        i = i + 1;
    }
    None
}

// ---------------------------------------------------------------------------
// API keys in startup scripts
// ---------------------------------------------------------------------------

pub open spec fn ws() -> CharSet {
    CharSet::Whitespace
}

/// A script value without surrounding blanks, line-continuation carets and
/// quotes.
pub open spec fn cleaned_value(v: Seq<char>) -> Seq<char> {
    let a = trim(v, ws());
    let b = trim(a, CharSet::One('^'));
    let c = trim(b, ws());
    let d = trim(c, CharSet::One('"'));
    let e = trim(d, CharSet::One('\''));
    trim(e, ws())
}

pub fn clean_script_value(value: &str) -> (r: String)
    ensures
        r@ == cleaned_value(value@),
{
    let v = chars_of(value);
    let a = trim_with(&v, CharSet::Whitespace);
    let b = trim_with(&a, CharSet::One('^'));
    let c = trim_with(&b, CharSet::Whitespace);
    let d = trim_with(&c, CharSet::One('"'));
    let e = trim_with(&d, CharSet::One('\''));
    string_of(&trim_with(&e, CharSet::Whitespace))
}

pub open spec fn set_word() -> Seq<char> {
    seq!['s', 'e', 't', ' ']
}

pub open spec fn env_word() -> Seq<char> {
    seq!['e', 'n', 'v', ':']
}

/// The value assigned to `name` on a script line written as `set NAME=v`,
/// `set "NAME=v"`, `$env:NAME = "v"` or `NAME=v` (the name compared without
/// ASCII case).
pub open spec fn env_assignment_of(line: Seq<char>, name: Seq<char>) -> Option<Seq<char>> {
    let s0 = trim(line, ws());
    let s1 = if starts_with(ascii_lower_seq(s0), set_word()) {
        trim(s0.skip(4), ws())
    } else {
        s0
    };
    let s2 = if s1.len() > 0 && s1[0] == '$' {
        let t = trim_start(s1, CharSet::One('$'));
        if starts_with(t, env_word()) {
            t.skip(4)
        } else {
            t
        }
    } else {
        s1
    };
    let s3 = trim(trim(trim(s2, CharSet::One('"')), CharSet::One('\'')), ws());
    match find_in(s3, seq!['=']) {
        Some(k) => {
            let left = trim(trim(trim(s3.take(k), ws()), CharSet::One('"')), CharSet::One('\''));
            if crate::text::eq_ignore_ascii_case(left, name) {
                Some(cleaned_value(s3.skip(k + 1)))
            } else {
                None
            }
        },
        None => None,
    }
}

pub fn parse_env_assignment(line: &str, name: &str) -> (r: Option<String>)
    ensures
        match r {
            Some(v) => env_assignment_of(line@, name@) == Some(v@),
            None => env_assignment_of(line@, name@) is None,
        },
{
    let l = chars_of(line);
    let s0 = trim_with(&l, CharSet::Whitespace);
    let set: Vec<char> = vec!['s', 'e', 't', ' '];
    assert(set@ =~= set_word());
    let lower = ascii_lowercase(&s0);
    let s1 = if has_prefix(&lower, &set) {
        let rest = copy_range(&s0, 4, s0.len());
        assert(rest@ =~= s0@.skip(4));
        trim_with(&rest, CharSet::Whitespace)
    } else {
        s0
    };
    let s2 = if s1.len() > 0 && s1[0] == '$' {
        let t = crate::text::trim_start_with(&s1, CharSet::One('$'));
        let env: Vec<char> = vec!['e', 'n', 'v', ':'];
        assert(env@ =~= env_word());
        if has_prefix(&t, &env) {
            let rest = copy_range(&t, 4, t.len());
            assert(rest@ =~= t@.skip(4));
            rest
        } else {
            t
        }
    } else {
        s1
    };
    let s3 = trim_with(&trim_with(&trim_with(&s2, CharSet::One('"')), CharSet::One('\'')), CharSet::Whitespace);
    let eq: Vec<char> = vec!['='];
    assert(eq@ =~= seq!['=']);
    match find(&s3, &eq) {
        Some(k) => {
            assert(k + eq@.len() <= s3@.len());
            assert(k + 1 <= s3.len());
            let head = copy_range(&s3, 0, k);
            assert(head@ =~= s3@.take(k as int));
            let left = trim_with(&trim_with(&trim_with(&head, CharSet::Whitespace), CharSet::One('"')), CharSet::One('\''));
            if crate::text::equals_ignore_ascii_case(&left, &chars_of(name)) {
                let tail = copy_range(&s3, k + 1, s3.len());
                assert(tail@ =~= s3@.skip(k + 1));
                Some(clean_script_value(string_of(&tail).as_str()))
            } else {
                None
            }
        },
        None => None,
    }
}

/// The value following `flag` on a script line (the flag found without ASCII
/// case), with an optional `=` between them.
pub open spec fn flag_value_of(line: Seq<char>, flag: Seq<char>) -> Option<Seq<char>> {
    match find_in(ascii_lower_seq(line), ascii_lower_seq(flag)) {
        Some(p) => {
            let after = trim_start(line.skip(p + flag.len()), ws());
            let value = if after.len() > 0 && after[0] == '=' {
                trim_start(after.drop_first(), ws())
            } else {
                after
            };
            Some(cleaned_value(value))
        },
        None => None,
    }
}

pub fn parse_flag_value(line: &str, flag: &str) -> (r: Option<String>)
    ensures
        match r {
            Some(v) => flag_value_of(line@, flag@) == Some(v@),
            None => flag_value_of(line@, flag@) is None,
        },
{
    let l = chars_of(line);
    let f = chars_of(flag);
    let lower = ascii_lowercase(&l);
    let flag_lower = ascii_lowercase(&f);
    match find(&lower, &flag_lower) {
        Some(p) => {
            assert(lower@.len() == l@.len() && flag_lower@.len() == f@.len());
            assert(p + flag_lower@.len() <= lower@.len());
            assert(p + f.len() <= l.len());
            let rest = copy_range(&l, p + f.len(), l.len());
            assert(rest@ =~= l@.skip(p + f@.len()));
            let after = crate::text::trim_start_with(&rest, CharSet::Whitespace);
            let value = if after.len() > 0 && after[0] == '=' {
                let tail = copy_range(&after, 1, after.len());
                assert(tail@ =~= after@.drop_first());
                crate::text::trim_start_with(&tail, CharSet::Whitespace)
            } else {
                after
            };
            Some(clean_script_value(string_of(&value).as_str()))
        },
        None => None,
    }
}

pub open spec fn api_key_name() -> Seq<char> {
    seq!['L', 'L', 'A', 'M', 'A', '_', 'A', 'P', 'I', '_', 'K', 'E', 'Y']
}

pub open spec fn api_key_flag() -> Seq<char> {
    seq!['-', '-', 'a', 'p', 'i', '-', 'k', 'e', 'y']
}

/// The key a script line sets, if it sets one: comment lines (`rem `, `#`)
/// and blank lines set none; `LLAMA_API_KEY` assignments come before
/// `--api-key` flags.
pub open spec fn line_api_key(line: Seq<char>) -> Option<Seq<char>> {
    let t = trim(line, ws());
    let lower = ascii_lower_seq(t);
    if t.len() == 0 || starts_with(lower, seq!['r', 'e', 'm', ' ']) || starts_with(lower, seq!['#']) {
        None
    } else {
        match env_assignment_of(t, api_key_name()) {
            Some(v) => Some(v),
            None => flag_value_of(t, api_key_flag()),
        }
    }
}

/// The key of the first line that sets one.
pub open spec fn first_api_key(ls: Seq<Seq<char>>) -> Option<Seq<char>>
    decreases ls.len(),
{
    if ls.len() == 0 {
        None
    } else {
        match line_api_key(ls[0]) {
            Some(v) => Some(v),
            None => first_api_key(ls.drop_first()),
        }
    }
}

/// The llama.cpp API key a startup script sets, through `LLAMA_API_KEY` or
/// the `--api-key` flag.
pub fn parse_api_key_from_script(text: &str) -> (r: Option<String>)
    ensures
        match r {
            Some(v) => first_api_key(lines(text@)) == Some(v@),
            None => first_api_key(lines(text@)) is None,
        },
{
    let t = chars_of(text);
    let ls = split_lines(&t);
    let ghost lv = views(ls@);
    assert(lv == lines(text@));
    assert(lv.skip(0) =~= lv);
    let name = string_of(&vec!['L', 'L', 'A', 'M', 'A', '_', 'A', 'P', 'I', '_', 'K', 'E', 'Y']);
    let flag = string_of(&vec!['-', '-', 'a', 'p', 'i', '-', 'k', 'e', 'y']);
    assert(name@ =~= api_key_name());
    assert(flag@ =~= api_key_flag());
    let rem: Vec<char> = vec!['r', 'e', 'm', ' '];
    let hash: Vec<char> = vec!['#'];
    assert(rem@ =~= seq!['r', 'e', 'm', ' ']);
    assert(hash@ =~= seq!['#']);
    let mut i: usize = 0;
    while i < ls.len()
        invariant
            i <= ls@.len(),
            lv == views(ls@),
            lv == lines(text@),
            name@ == api_key_name(),
            flag@ == api_key_flag(),
            rem@ == seq!['r', 'e', 'm', ' '],
            hash@ == seq!['#'],
            first_api_key(lv) == first_api_key(lv.skip(i as int)),
        decreases ls@.len() - i,
    {
        assert(lv.skip(i as int)[0] == ls@[i as int]@);
        assert(lv.skip(i as int).drop_first() =~= lv.skip(i + 1));
        let trimmed = trim_with(ls[i].as_slice(), CharSet::Whitespace);
        let lower = ascii_lowercase(&trimmed);
        if !(trimmed.len() == 0 || has_prefix(&lower, &rem) || has_prefix(&lower, &hash)) {
            let line = string_of(&trimmed);
            match parse_env_assignment(line.as_str(), name.as_str()) {
                Some(v) => {
                    assert(line_api_key(ls@[i as int]@) == Some(v@));
                    return Some(v);
                },
                None => {},
            }
            match parse_flag_value(line.as_str(), flag.as_str()) {
                Some(v) => {
                    assert(line_api_key(ls@[i as int]@) == Some(v@));
                    return Some(v);
                },
                None => {},
            }
        }
        i = i + 1;
    }
    None
}

/// `value` as an owned string, unless it is empty.
pub fn non_empty(value: &str) -> (r: Option<String>)
    ensures
        match r {
            Some(v) => value@.len() > 0 && v@ == value@,
            None => value@.len() == 0,
        },
{
    let c = chars_of(value);
    if c.len() == 0 {
        None
    } else {
        Some(string_of(&c))
    }
}

/// A usable key: trimmed of whitespace and not empty.
pub open spec fn usable_key(k: Seq<char>) -> Option<Seq<char>> {
    let t = trim(k, ws());
    if t.len() == 0 {
        None
    } else {
        Some(t)
    }
}

/// The key the script sets, when usable; else the configured fallback key,
/// when usable.
pub open spec fn resolved_key(script_text: Option<Seq<char>>, fallback: Option<Seq<char>>) -> Option<Seq<char>> {
    let from_script = match script_text {
        Some(t) => match first_api_key(lines(t)) {
            Some(k) => usable_key(k),
            None => None,
        },
        None => None,
    };
    match from_script {
        Some(k) => Some(k),
        None => match fallback {
            Some(k) => usable_key(k),
            None => None,
        },
    }
}

fn usable(k: &str) -> (r: Option<String>)
    ensures
        match r {
            Some(v) => usable_key(k@) == Some(v@),
            None => usable_key(k@) is None,
        },
{
    let t = trim_with(&chars_of(k), CharSet::Whitespace);
    non_empty(string_of(&t).as_str())
}

/// The llama.cpp bearer key: the profile script's `LLAMA_API_KEY` /
/// `--api-key` first (`script_text` is the script, when it could be read),
/// then the key from the settings.
pub fn resolve_api_key(script_text: Option<&str>, settings_key: Option<&str>) -> (r: Option<String>)
    ensures
        match r {
            Some(v) => resolved_key(opt_view(script_text), opt_view(settings_key)) == Some(v@),
            None => resolved_key(opt_view(script_text), opt_view(settings_key)) is None,
        },
{
    let from_script = match script_text {
        Some(t) => match parse_api_key_from_script(t) {
            Some(k) => usable(k.as_str()),
            None => None,
        },
        None => None,
    };
    match from_script {
        Some(k) => Some(k),
        None => match settings_key {
            Some(k) => usable(k),
            None => None,
        },
    }
}

pub open spec fn opt_view(o: Option<&str>) -> Option<Seq<char>> {
    match o {
        Some(s) => Some(s@),
        None => None,
    }
}

// ---------------------------------------------------------------------------
// Server origin
// ---------------------------------------------------------------------------

pub open spec fn scheme_separator() -> Seq<char> {
    seq![':', '/', '/']
}

pub open spec fn local_origin_prefix() -> Seq<char> {
    seq!['h', 't', 't', 'p', ':', '/', '/', '1', '2', '7', '.', '0', '.', '0', '.', '1', ':']
}

/// `scheme://host` of the health URL; `http://127.0.0.1:{port}` when the URL
/// has no scheme or no host.
pub open spec fn origin_of(health_url: Seq<char>, port: u16) -> Seq<char> {
    let fallback = local_origin_prefix() + crate::text::decimal(port as nat);
    match find_in(health_url, scheme_separator()) {
        Some(k) => {
            let rest = health_url.skip(k + 3);
            let host = match find_in(rest, seq!['/']) {
                Some(j) => rest.take(j),
                None => rest,
            };
            if host.len() > 0 {
                health_url.take(k) + scheme_separator() + host
            } else {
                fallback
            }
        },
        None => fallback,
    }
}

/// The origin of the llama.cpp server, taken from its health URL.
pub fn server_origin(health_url: &str, server_port: u16) -> (r: String)
    ensures
        r@ == origin_of(health_url@, server_port),
{
    let u = chars_of(health_url);
    let sep: Vec<char> = vec![':', '/', '/'];
    assert(sep@ =~= scheme_separator());
    if let Some(k) = find(&u, &sep) {
        assert(k + sep@.len() <= u@.len());
        assert(k + 3 <= u.len());
        let rest = copy_range(&u, k + 3, u.len());
        assert(rest@ =~= u@.skip(k + 3));
        let slash: Vec<char> = vec!['/'];
        assert(slash@ =~= seq!['/']);
        let host = match find(&rest, &slash) {
            Some(j) => {
                let h = copy_range(&rest, 0, j);
                assert(h@ =~= rest@.take(j as int));
                h
            },
            None => rest,
        };
        if host.len() > 0 {
            let mut out = copy_range(&u, 0, k);
            out.push(':');
            out.push('/');
            out.push('/');
            let mut h = host;
            let ghost hv = h@;
            out.append(&mut h);
            assert(out@ =~= u@.take(k as int) + scheme_separator() + hv);
            return string_of(&out);
        }
    }
    let mut out: Vec<char> = vec!['h', 't', 't', 'p', ':', '/', '/', '1', '2', '7', '.', '0', '.', '0', '.', '1', ':'];
    let mut digits = crate::text::decimal_of(server_port as u64);
    let ghost dv = digits@;
    out.append(&mut digits);
    assert(out@ =~= local_origin_prefix() + dv);
    string_of(&out)
}

// ---------------------------------------------------------------------------
// Matching an external server to a profile
// ---------------------------------------------------------------------------

/// The index of the last character of the set in `s`, or -1.
pub open spec fn last_in(s: Seq<char>, k: CharSet) -> int
    decreases s.len(),
{
    if s.len() == 0 {
        -1
    } else if crate::text::in_set(k, s.last()) {
        s.len() - 1
    } else {
        last_in(s.drop_last(), k)
    }
}

fn last_index_in(s: &[char], k: CharSet) -> (r: Option<usize>)
    ensures
        match r {
            Some(j) => last_in(s@, k) == j as int && j < s@.len(),
            None => last_in(s@, k) == -1,
        },
{
    let mut j: usize = s.len();
    assert(s@.take(j as int) =~= s@);
    while j > 0
        invariant
            j <= s.len(),
            last_in(s@, k) == last_in(s@.take(j as int), k),
        decreases j,
    {
        assert(s@.take(j as int).drop_last() =~= s@.take(j - 1));
        if crate::text::member(k, s[j - 1]) {
            return Some(j - 1);
        }
        j = j - 1;
    }
    None
}

/// The file a Windows path names: the text after its last `\` or `/`,
/// trailing separators ignored. Empty text, `.` and `..` name no file.
pub open spec fn windows_file_name(path: Seq<char>) -> Option<Seq<char>> {
    let t = crate::text::trim_end(path, CharSet::PathSeparators);
    let name = t.skip(last_in(t, CharSet::PathSeparators) + 1);
    if name.len() == 0 || name == seq!['.'] || name == seq!['.', '.'] {
        None
    } else {
        Some(name)
    }
}

fn file_name_of(path: &[char]) -> (r: Option<Vec<char>>)
    ensures
        match r {
            Some(n) => windows_file_name(path@) == Some(n@),
            None => windows_file_name(path@) is None,
        },
{
    let mut b: usize = path.len();
    while b > 0 && crate::text::member(CharSet::PathSeparators, path[b - 1])
        invariant
            b <= path.len(),
            forall|m: int| b <= m < path@.len() ==> crate::text::in_set(CharSet::PathSeparators, #[trigger] path@[m]),
        decreases b,
    {
        b = b - 1;
    }
    proof {
        crate::text::lemma_trim_end_take(path@, CharSet::PathSeparators, b as int);
    }
    let t = copy_range(path, 0, b);
    assert(t@ =~= path@.take(b as int));
    let start = match last_index_in(&t, CharSet::PathSeparators) {
        Some(j) => j + 1,
        None => 0,
    };
    let name = copy_range(&t, start, t.len());
    assert(name@ =~= t@.skip(last_in(t@, CharSet::PathSeparators) + 1));
    if name.len() == 0 || (name.len() == 1 && name[0] == '.') || (name.len() == 2 && name[0] == '.'
        && name[1] == '.') {
        proof {
            if name.len() == 1 {
                assert(name@ =~= seq!['.']);
            }
            if name.len() == 2 {
                assert(name@ =~= seq!['.', '.']);
            }
        }
        None
    } else {
        proof {
            if name@ == seq!['.'] {
                assert(name@.len() == 1 && name@[0] == '.');
            }
            if name@ == seq!['.', '.'] {
                assert(name@.len() == 2 && name@[0] == '.' && name@[1] == '.');
            }
        }
        Some(name)
    }
}

/// The command lines, lowercased.
pub open spec fn lowered_lines(lines: Seq<String>) -> Seq<Seq<char>> {
    lines.map_values(|l: String| unicode_lowercase(l@))
}

/// Some command line names the profile's script: its full path or, when the
/// path names a file, that file name (both compared lowercased).
pub open spec fn names_script(p: ProfileView, lower_lines: Seq<Seq<char>>) -> bool {
    match windows_file_name(p.script_path) {
        Some(name) => exists|i: int|
            0 <= i < lower_lines.len() && (contains_seq(
                #[trigger] lower_lines[i],
                unicode_lowercase(p.script_path),
            ) || contains_seq(lower_lines[i], unicode_lowercase(name))),
        None => false,
    }
}

fn any_line_contains(lines: &Vec<Vec<char>>, a: &[char], b: &[char]) -> (r: bool)
    ensures
        r == exists|i: int|
            0 <= i < lines@.len() && (contains_seq(#[trigger] views(lines@)[i], a@) || contains_seq(
                views(lines@)[i],
                b@,
            )),
{
    let mut i: usize = 0;
    while i < lines.len()
        invariant
            i <= lines@.len(),
            forall|j: int|
                0 <= j < i ==> !(contains_seq(#[trigger] views(lines@)[j], a@) || contains_seq(
                    views(lines@)[j],
                    b@,
                )),
        decreases lines@.len() - i,
    {
        assert(views(lines@)[i as int] == lines@[i as int]@);
        if contains_chars(lines[i].as_slice(), a) || contains_chars(lines[i].as_slice(), b) {
            return true;
        }
        i = i + 1;
    }
    false
}

/// The first profile (in the given order) whose startup script one of the
/// command lines names, ignoring case; `command_lines` are the command lines
/// of a listener and of its ancestors.
pub fn match_profile_command_lines(profiles: &[Profile], command_lines: &[String]) -> (r: Option<
    Profile,
>)
    ensures
        match r {
            Some(p) => exists|k: int|
                0 <= k < profiles@.len() && names_script(
                    #[trigger] profiles@[k]@,
                    lowered_lines(command_lines@),
                ) && p@ == profiles@[k]@ && forall|j: int|
                    0 <= j < k ==> !names_script(profiles@[j]@, lowered_lines(command_lines@)),
            None => forall|k: int|
                0 <= k < profiles@.len() ==> !names_script(
                    #[trigger] profiles@[k]@,
                    lowered_lines(command_lines@),
                ),
        },
{
    let ghost ll = lowered_lines(command_lines@);
    let mut lower: Vec<Vec<char>> = Vec::new();
    let mut i: usize = 0;
    while i < command_lines.len()
        invariant
            i <= command_lines@.len(),
            ll == lowered_lines(command_lines@),
            views(lower@) == ll.take(i as int),
        decreases command_lines@.len() - i,
    {
        let l = to_lowercase(&chars_of(command_lines[i].as_str()));
        let ghost before = lower@;
        lower.push(l);
        proof {
            crate::text::lemma_views_push(before, l);
        }
        i = i + 1;
        assert(ll.take(i as int) =~= ll.take(i - 1).push(l@));
    }
    assert(ll.take(command_lines@.len() as int) =~= ll);
    let mut k: usize = 0;
    while k < profiles.len()
        invariant
            k <= profiles@.len(),
            views(lower@) == ll,
            ll == lowered_lines(command_lines@),
            forall|j: int| 0 <= j < k ==> !names_script(#[trigger] profiles@[j]@, ll),
        decreases profiles@.len() - k,
    {
        let p = &profiles[k];
        let path = chars_of(p.script_path.as_str());
        if let Some(name) = file_name_of(&path) {
            let lower_path = to_lowercase(&path);
            let lower_name = to_lowercase(&name);
            if any_line_contains(&lower, &lower_path, &lower_name) {
                let q = p.clone();
                assert(names_script(profiles@[k as int]@, ll));
                return Some(q);
            }
            assert(!names_script(profiles@[k as int]@, ll));
        }
        k = k + 1;
    }
    None
}

// ---------------------------------------------------------------------------
// Alias and name resolution
// ---------------------------------------------------------------------------

/// The profiles whose alias normalizes to `target`, in order.
pub open spec fn alias_matches(ps: Seq<ProfileView>, target: Seq<char>) -> Seq<ProfileView>
    decreases ps.len(),
{
    if ps.len() == 0 {
        Seq::empty()
    } else if normalized_alias(ps.last().alias) == target {
        alias_matches(ps.drop_last(), target).push(ps.last())
    } else {
        alias_matches(ps.drop_last(), target)
    }
}

/// The profiles whose pretty model and pretty feature normalize to `m` and
/// `f`, in order.
pub open spec fn name_matches(ps: Seq<ProfileView>, m: Seq<char>, f: Seq<char>) -> Seq<ProfileView>
    decreases ps.len(),
{
    if ps.len() == 0 {
        Seq::empty()
    } else if normalized_alias(ps.last().pretty_model) == m && normalized_alias(ps.last().pretty_feature) == f {
        name_matches(ps.drop_last(), m, f).push(ps.last())
    } else {
        name_matches(ps.drop_last(), m, f)
    }
}

pub open spec fn pviews(ps: Seq<Profile>) -> Seq<ProfileView> {
    ps.map_values(|p: Profile| p@)
}

pub open spec fn aliases_of(ps: Seq<ProfileView>) -> Seq<Seq<char>> {
    ps.map_values(|p: ProfileView| p.alias)
}

pub open spec fn quoted(s: Seq<char>) -> Seq<char> {
    seq!['\''] + s + seq!['\'']
}

/// `Ok(id)` of the one matching profile; otherwise the message for no match
/// or for several, naming the matching aliases.
pub open spec fn resolution(
    matches: Seq<ProfileView>,
    none_message: Seq<char>,
    ambiguous_prefix: Seq<char>,
) -> Result<Seq<char>, Seq<char>> {
    if matches.len() == 1 {
        Ok(matches[0].id)
    } else if matches.len() == 0 {
        Err(none_message)
    } else {
        Err(ambiguous_prefix + crate::text::join(aliases_of(matches), seq![',', ' ']))
    }
}

pub open spec fn result_view(r: Result<String, String>) -> Result<Seq<char>, Seq<char>> {
    match r {
        Ok(s) => Ok(s@),
        Err(s) => Err(s@),
    }
}

fn resolve_matching(matches: Vec<Profile>, none_message: Vec<char>, ambiguous_prefix: Vec<char>) -> (r: Result<
    String,
    String,
>)
    ensures
        result_view(r) == resolution(pviews(matches@), none_message@, ambiguous_prefix@),
{
    if matches.len() == 1 {
        Ok(matches[0].id.clone())
    } else if matches.len() == 0 {
        Err(string_of(&none_message))
    } else {
        let mut aliases: Vec<Vec<char>> = Vec::new();
        let mut i: usize = 0;
        while i < matches.len()
            invariant
                i <= matches@.len(),
                views(aliases@) == aliases_of(pviews(matches@)).take(i as int),
            decreases matches@.len() - i,
        {
            let a = chars_of(matches[i].alias.as_str());
            let ghost before = aliases@;
            aliases.push(a);
            proof {
                crate::text::lemma_views_push(before, a);
            }
            i = i + 1;
            assert(aliases_of(pviews(matches@)).take(i as int) =~= aliases_of(pviews(matches@)).take(
                i - 1,
            ).push(a@));
        }
        assert(aliases_of(pviews(matches@)).take(matches@.len() as int) =~= aliases_of(pviews(matches@)));
        let sep: Vec<char> = vec![',', ' '];
        assert(sep@ =~= seq![',', ' ']);
        let mut msg = ambiguous_prefix;
        let mut joined = crate::text::join_with(&aliases, &sep);
        msg.append(&mut joined);
        Err(string_of(&msg))
    }
}

pub open spec fn no_alias_message(alias: Seq<char>) -> Seq<char> {
    "No profile matches alias "@ + quoted(alias) + seq!['.']
}

pub open spec fn ambiguous_alias_prefix(alias: Seq<char>) -> Seq<char> {
    "Alias "@ + quoted(alias) + " is ambiguous. Matches: "@
}

/// Resolve a human alias to exactly one profile id, or return an ambiguity error.
pub fn resolve_alias(profiles: &[Profile], alias: &str) -> (r: Result<String, String>)
    ensures
        result_view(r) == resolution(
            alias_matches(pviews(profiles@), normalized_alias(alias@)),
            no_alias_message(alias@),
            ambiguous_alias_prefix(alias@),
        ),
{
    let target = normalize_alias(alias);
    let ghost pv = pviews(profiles@);
    let mut matches: Vec<Profile> = Vec::new();
    let mut i: usize = 0;
    while i < profiles.len()
        invariant
            i <= profiles@.len(),
            pv == pviews(profiles@),
            target@ == normalized_alias(alias@),
            pviews(matches@) == alias_matches(pv.take(i as int), target@),
        decreases profiles@.len() - i,
    {
        assert(pv.take(i + 1).drop_last() =~= pv.take(i as int));
        assert(pv.take(i + 1).last() == profiles@[i as int]@);
        let a = normalize_alias(profiles[i].alias.as_str());
        if str_eq(a.as_str(), target.as_str()) {
            let q = profiles[i].clone();
            let ghost before = matches@;
            matches.push(q);
            assert(pviews(matches@) =~= pviews(before).push(q@));
        }
        i = i + 1;
    }
    assert(pv.take(profiles@.len() as int) =~= pv);
    let a = chars_of(alias);
    let mut none = chars_of("No profile matches alias '");
    let mut a1 = copy_range(&a, 0, a.len());
    none.append(&mut a1);
    none.push('\'');
    none.push('.');
    let mut amb = chars_of("Alias '");
    let mut a2 = copy_range(&a, 0, a.len());
    amb.append(&mut a2);
    let mut tail = chars_of("' is ambiguous. Matches: ");
    amb.append(&mut tail);
    proof {
        reveal_strlit("No profile matches alias '");
        reveal_strlit("No profile matches alias ");
        reveal_strlit("Alias '");
        reveal_strlit("Alias ");
        reveal_strlit("' is ambiguous. Matches: ");
        reveal_strlit(" is ambiguous. Matches: ");
    }
    assert(none@ =~= no_alias_message(alias@));
    assert(amb@ =~= ambiguous_alias_prefix(alias@));
    resolve_matching(matches, none, amb)
}

pub open spec fn no_name_message(model: Seq<char>, feature: Seq<char>) -> Seq<char> {
    "No profile matches model "@ + quoted(model) + " feature "@ + quoted(feature) + seq!['.']
}

pub open spec fn ambiguous_name_prefix(model: Seq<char>, feature: Seq<char>) -> Seq<char> {
    "Model "@ + quoted(model) + " feature "@ + quoted(feature) + " is ambiguous. Matches: "@
}

/// Resolve a model and feature to exactly one profile id, or return an
/// ambiguity error.
pub fn resolve_name(profiles: &[Profile], model: &str, feature: &str) -> (r: Result<String, String>)
    ensures
        result_view(r) == resolution(
            name_matches(pviews(profiles@), normalized_alias(model@), normalized_alias(feature@)),
            no_name_message(model@, feature@),
            ambiguous_name_prefix(model@, feature@),
        ),
{
    let m = normalize_alias(model);
    let f = normalize_alias(feature);
    let ghost pv = pviews(profiles@);
    let mut matches: Vec<Profile> = Vec::new();
    let mut i: usize = 0;
    while i < profiles.len()
        invariant
            i <= profiles@.len(),
            pv == pviews(profiles@),
            m@ == normalized_alias(model@),
            f@ == normalized_alias(feature@),
            pviews(matches@) == name_matches(pv.take(i as int), m@, f@),
        decreases profiles@.len() - i,
    {
        assert(pv.take(i + 1).drop_last() =~= pv.take(i as int));
        assert(pv.take(i + 1).last() == profiles@[i as int]@);
        let pm = normalize_alias(profiles[i].pretty_model.as_str());
        let pf = normalize_alias(profiles[i].pretty_feature.as_str());
        if str_eq(pm.as_str(), m.as_str()) && str_eq(pf.as_str(), f.as_str()) {
            let q = profiles[i].clone();
            let ghost before = matches@;
            matches.push(q);
            assert(pviews(matches@) =~= pviews(before).push(q@));
        }
        i = i + 1;
    }
    assert(pv.take(profiles@.len() as int) =~= pv);
    let mc = chars_of(model);
    let fc = chars_of(feature);
    let mut none = chars_of("No profile matches model '");
    let mut x = copy_range(&mc, 0, mc.len());
    none.append(&mut x);
    let mut mid = chars_of("' feature '");
    none.append(&mut mid);
    let mut y = copy_range(&fc, 0, fc.len());
    none.append(&mut y);
    none.push('\'');
    none.push('.');
    let mut amb = chars_of("Model '");
    let mut x2 = copy_range(&mc, 0, mc.len());
    amb.append(&mut x2);
    let mut mid2 = chars_of("' feature '");
    amb.append(&mut mid2);
    let mut y2 = copy_range(&fc, 0, fc.len());
    amb.append(&mut y2);
    let mut tail = chars_of("' is ambiguous. Matches: ");
    amb.append(&mut tail);
    proof {
        reveal_strlit("No profile matches model '");
        reveal_strlit("No profile matches model ");
        reveal_strlit("' feature '");
        reveal_strlit(" feature ");
        reveal_strlit("Model '");
        reveal_strlit("Model ");
        reveal_strlit("' is ambiguous. Matches: ");
        reveal_strlit(" is ambiguous. Matches: ");
    }
    assert(none@ =~= no_name_message(model@, feature@));
    assert(amb@ =~= ambiguous_name_prefix(model@, feature@));
    resolve_matching(matches, none, amb)
}

// ---------------------------------------------------------------------------
// Auto-start
// ---------------------------------------------------------------------------

pub open spec fn opt_string_view(o: Option<String>) -> Option<Seq<char>> {
    match o {
        Some(s) => Some(s@),
        None => None,
    }
}

/// The profile to start at launch: none, the last used one, or the
/// configured one, as the settings say.
pub fn auto_start_profile_id(settings: &Settings) -> (r: Option<String>)
    ensures
        opt_string_view(r) == match settings.default_profile_mode {
            DefaultProfileMode::NoDefault => None,
            DefaultProfileMode::LastUsed => opt_string_view(settings.last_used_profile_id),
            DefaultProfileMode::Specific => opt_string_view(settings.default_profile_id),
        },
{
    match settings.default_profile_mode {
        DefaultProfileMode::NoDefault => None,
        DefaultProfileMode::LastUsed => match &settings.last_used_profile_id {
            Some(id) => Some(id.clone()),
            None => None,
        },
        DefaultProfileMode::Specific => match &settings.default_profile_id {
            Some(id) => Some(id.clone()),
            None => None,
        },
    }
}

// ---------------------------------------------------------------------------
// Usage of a running server
// ---------------------------------------------------------------------------

/// A JSON document as the usage probe reads it. A number keeps only what is
/// read of it: its value when it is a whole number that fits in `u64`.
pub enum Json {
    Null,
    Bool(bool),
    Number(Option<u64>),
    Text(String),
    Array(Vec<Json>),
    Object(Vec<(String, Json)>),
}

/// The index of the first entry named `key`, or -1.
pub open spec fn entry_index(entries: Seq<(String, Json)>, key: Seq<char>) -> int
    decreases entries.len(),
{
    if entries.len() == 0 {
        -1
    } else if entries[0].0@ == key {
        0
    } else {
        let r = entry_index(entries.drop_first(), key);
        if r < 0 {
            -1
        } else {
            r + 1
        }
    }
}

pub proof fn lemma_entry_index(entries: Seq<(String, Json)>, key: Seq<char>)
    ensures
        -1 <= entry_index(entries, key) < entries.len(),
        entry_index(entries, key) >= 0 ==> entries[entry_index(entries, key)].0@ == key,
    decreases entries.len(),
{
    if entries.len() > 0 && entries[0].0@ != key {
        lemma_entry_index(entries.drop_first(), key);
    }
}

pub(crate) fn find_entry(entries: &Vec<(String, Json)>, key: &str) -> (r: Option<usize>)
    ensures
        match r {
            Some(k) => entry_index(entries@, key@) == k as int && k < entries@.len(),
            None => entry_index(entries@, key@) == -1,
        },
{
    let mut i: usize = 0;
    while i < entries.len()
        invariant
            i <= entries@.len(),
            forall|j: int| 0 <= j < i ==> entries@[j].0@ != key@,
        decreases entries@.len() - i,
    {
        if str_eq(entries[i].0.as_str(), key) {
            proof {
                lemma_first_entry(entries@, key@, i as int);
            }
            return Some(i);
        }
        i = i + 1;
    }
    proof {
        lemma_no_entry(entries@, key@);
    }
    None
}

proof fn lemma_first_entry(entries: Seq<(String, Json)>, key: Seq<char>, i: int)
    requires
        0 <= i < entries.len(),
        entries[i].0@ == key,
        forall|j: int| 0 <= j < i ==> entries[j].0@ != key,
    ensures
        entry_index(entries, key) == i,
    decreases i,
{
    if i > 0 {
        let t = entries.drop_first();
        assert forall|j: int| 0 <= j < i - 1 implies t[j].0@ != key by {
            assert(t[j] == entries[j + 1]);
        }
        lemma_first_entry(t, key, i - 1);
    }
}

proof fn lemma_no_entry(entries: Seq<(String, Json)>, key: Seq<char>)
    requires
        forall|j: int| 0 <= j < entries.len() ==> entries[j].0@ != key,
    ensures
        entry_index(entries, key) == -1,
    decreases entries.len(),
{
    if entries.len() > 0 {
        let t = entries.drop_first();
        assert forall|j: int| 0 <= j < t.len() implies t[j].0@ != key by {
            assert(t[j] == entries[j + 1]);
        }
        lemma_no_entry(t, key);
    }
}

/// Where a status payload nests its slots.
pub open spec fn nested_keys() -> Seq<Seq<char>> {
    seq!["slots"@, "data"@, "result"@, "items"@, "list"@, "slot"@, "value"@]
}

/// Flags that say a slot is busy (or, for the idle ones, free).
pub open spec fn flag_keys() -> Seq<Seq<char>> {
    seq![
        "is_processing"@,
        "processing"@,
        "is_generating"@,
        "generating"@,
        "busy"@,
        "is_busy"@,
        "active"@,
        "is_idle"@,
        "idle"@,
        "in_use"@,
    ]
}

pub open spec fn is_idle_key(key: Seq<char>) -> bool {
    key == "is_idle"@ || key == "idle"@
}

pub open spec fn text_keys() -> Seq<Seq<char>> {
    seq!["state"@, "status"@]
}

pub open spec fn busy_words() -> Seq<Seq<char>> {
    seq!["busy"@, "processing"@, "generating"@, "running"@, "prompt"@, "decode"@]
}

pub open spec fn free_words() -> Seq<Seq<char>> {
    seq!["free"@, "idle"@, "ready"@, "available"@, "waiting"@]
}

pub open spec fn count_keys() -> Seq<Seq<char>> {
    seq!["n_processing"@, "processing_count"@, "active_requests"@, "queued_requests"@]
}

/// The state the first present flag among `keys` gives.
pub open spec fn flag_usage(entries: Seq<(String, Json)>, keys: Seq<Seq<char>>) -> Option<UsageState>
    decreases keys.len(),
{
    if keys.len() == 0 {
        None
    } else {
        let k = entry_index(entries, keys[0]);
        if 0 <= k < entries.len() && entries[k].1 is Bool {
            let flag = entries[k].1->Bool_0;
            Some(
                if is_idle_key(keys[0]) == flag {
                    UsageState::Free
                } else {
                    UsageState::Busy
                },
            )
        } else {
            flag_usage(entries, keys.drop_first())
        }
    }
}

pub open spec fn mentions_any(text: Seq<char>, words: Seq<Seq<char>>) -> bool {
    exists|i: int| 0 <= i < words.len() && contains_seq(text, #[trigger] words[i])
}

/// The state the first present status text among `keys` names.
pub open spec fn text_usage(entries: Seq<(String, Json)>, keys: Seq<Seq<char>>) -> Option<UsageState>
    decreases keys.len(),
{
    if keys.len() == 0 {
        None
    } else {
        let k = entry_index(entries, keys[0]);
        let rest = text_usage(entries, keys.drop_first());
        if 0 <= k < entries.len() && entries[k].1 is Text {
            let t = ascii_lower_seq(entries[k].1->Text_0@);
            if mentions_any(t, busy_words()) {
                Some(UsageState::Busy)
            } else if mentions_any(t, free_words()) {
                Some(UsageState::Free)
            } else {
                rest
            }
        } else {
            rest
        }
    }
}

/// The state the first present request count among `keys` gives.
pub open spec fn count_usage(entries: Seq<(String, Json)>, keys: Seq<Seq<char>>) -> Option<UsageState>
    decreases keys.len(),
{
    if keys.len() == 0 {
        None
    } else {
        let k = entry_index(entries, keys[0]);
        let rest = count_usage(entries, keys.drop_first());
        if 0 <= k < entries.len() {
            match entries[k].1 {
                Json::Number(Some(count)) => Some(
                    if count > 0 {
                        UsageState::Busy
                    } else {
                        UsageState::Free
                    },
                ),
                _ => rest,
            }
        } else {
            rest
        }
    }
}

/// The state the first nested payload among `keys` of the object `v` gives.
pub open spec fn nested_usage(v: Json, keys: Seq<Seq<char>>) -> Option<UsageState>
    decreases v, keys.len(),
{
    match v {
        Json::Object(entries) => {
            if keys.len() == 0 {
                None
            } else {
                let e = entries@;
                let k = entry_index(e, keys[0]);
                let here = if 0 <= k < e.len() {
                    usage_of(e[k].1)
                } else {
                    None
                };
                if here is Some {
                    here
                } else {
                    nested_usage(v, keys.drop_first())
                }
            }
        },
        _ => None,
    }
}

/// What a `/slots` payload says of the server: busy when any slot is busy,
/// free when a slot is free and none is busy. An object is read through its
/// nested slot lists first, then its flags, its status text and its request
/// counts.
pub open spec fn usage_of(v: Json) -> Option<UsageState>
    decreases v, 8nat,
{
    match v {
        Json::Array(items) => {
            if exists|i: int| 0 <= i < items@.len() && usage_of(#[trigger] items@[i]) == Some(UsageState::Busy) {
                Some(UsageState::Busy)
            } else if exists|i: int| 0 <= i < items@.len() && usage_of(#[trigger] items@[i]) == Some(UsageState::Free) {
                Some(UsageState::Free)
            } else {
                None
            }
        },
        Json::Object(entries) => {
            let e = entries@;
            let nested = nested_usage(v, nested_keys());
            if nested is Some {
                nested
            } else {
                let flag = flag_usage(e, flag_keys());
                if flag is Some {
                    flag
                } else {
                    let text = text_usage(e, text_keys());
                    if text is Some {
                        text
                    } else {
                        count_usage(e, count_keys())
                    }
                }
            }
        },
        _ => None,
    }
}

pub open spec fn str_views(v: Seq<&str>) -> Seq<Seq<char>> {
    v.map_values(|s: &str| s@)
}

fn nested_key_list() -> (r: Vec<&'static str>)
    ensures
        str_views(r@) == nested_keys(),
{
    let r = vec!["slots", "data", "result", "items", "list", "slot", "value"];
    assert(str_views(r@) =~= nested_keys());
    r
}

fn flag_key_list() -> (r: Vec<&'static str>)
    ensures
        str_views(r@) == flag_keys(),
{
    let r = vec![
        "is_processing",
        "processing",
        "is_generating",
        "generating",
        "busy",
        "is_busy",
        "active",
        "is_idle",
        "idle",
        "in_use",
    ];
    assert(str_views(r@) =~= flag_keys());
    r
}

fn text_key_list() -> (r: Vec<&'static str>)
    ensures
        str_views(r@) == text_keys(),
{
    let r = vec!["state", "status"];
    assert(str_views(r@) =~= text_keys());
    r
}

fn count_key_list() -> (r: Vec<&'static str>)
    ensures
        str_views(r@) == count_keys(),
{
    let r = vec!["n_processing", "processing_count", "active_requests", "queued_requests"];
    assert(str_views(r@) =~= count_keys());
    r
}

fn mentions_any_of(text: &[char], words: &Vec<&str>) -> (r: bool)
    ensures
        r == mentions_any(text@, str_views(words@)),
{
    let mut i: usize = 0;
    while i < words.len()
        invariant
            i <= words@.len(),
            forall|j: int| 0 <= j < i ==> !contains_seq(text@, #[trigger] str_views(words@)[j]),
        decreases words@.len() - i,
    {
        if contains_chars(text, &chars_of(words[i])) {
            assert(contains_seq(text@, str_views(words@)[i as int]));
            return true;
        }
        i = i + 1;
    }
    false
}

fn flag_state(entries: &Vec<(String, Json)>) -> (r: Option<UsageState>)
    ensures
        r == flag_usage(entries@, flag_keys()),
{
    let keys = flag_key_list();
    let ghost ks = str_views(keys@);
    assert(ks.skip(0) =~= ks);
    let mut i: usize = 0;
    while i < keys.len()
        invariant
            i <= keys@.len(),
            ks == str_views(keys@),
            ks == flag_keys(),
            flag_usage(entries@, ks) == flag_usage(entries@, ks.skip(i as int)),
        decreases keys@.len() - i,
    {
        assert(ks.skip(i as int)[0] == keys@[i as int]@);
        assert(ks.skip(i as int).drop_first() =~= ks.skip(i + 1));
        match find_entry(entries, keys[i]) {
            Some(k) => match &entries[k].1 {
                Json::Bool(flag) => {
                    let idle = str_eq(keys[i], "is_idle") || str_eq(keys[i], "idle");
                    return Some(
                        if idle == *flag {
                            UsageState::Free
                        } else {
                            UsageState::Busy
                        },
                    );
                },
                _ => {},
            },
            None => {},
        }
        i = i + 1;
    }
    None
}

fn text_state(entries: &Vec<(String, Json)>) -> (r: Option<UsageState>)
    ensures
        r == text_usage(entries@, text_keys()),
{
    let keys = text_key_list();
    let busy = vec!["busy", "processing", "generating", "running", "prompt", "decode"];
    let free = vec!["free", "idle", "ready", "available", "waiting"];
    assert(str_views(busy@) =~= busy_words());
    assert(str_views(free@) =~= free_words());
    let ghost ks = str_views(keys@);
    assert(ks.skip(0) =~= ks);
    let mut i: usize = 0;
    while i < keys.len()
        invariant
            i <= keys@.len(),
            ks == str_views(keys@),
            ks == text_keys(),
            str_views(busy@) == busy_words(),
            str_views(free@) == free_words(),
            text_usage(entries@, ks) == text_usage(entries@, ks.skip(i as int)),
        decreases keys@.len() - i,
    {
        assert(ks.skip(i as int)[0] == keys@[i as int]@);
        assert(ks.skip(i as int).drop_first() =~= ks.skip(i + 1));
        match find_entry(entries, keys[i]) {
            Some(k) => match &entries[k].1 {
                Json::Text(t) => {
                    let lower = ascii_lowercase(&chars_of(t.as_str()));
                    if mentions_any_of(&lower, &busy) {
                        return Some(UsageState::Busy);
                    }
                    if mentions_any_of(&lower, &free) {
                        return Some(UsageState::Free);
                    }
                },
                _ => {},
            },
            None => {},
        }
        i = i + 1;
    }
    None
}

fn count_state(entries: &Vec<(String, Json)>) -> (r: Option<UsageState>)
    ensures
        r == count_usage(entries@, count_keys()),
{
    let keys = count_key_list();
    let ghost ks = str_views(keys@);
    assert(ks.skip(0) =~= ks);
    let mut i: usize = 0;
    while i < keys.len()
        invariant
            i <= keys@.len(),
            ks == str_views(keys@),
            ks == count_keys(),
            count_usage(entries@, ks) == count_usage(entries@, ks.skip(i as int)),
        decreases keys@.len() - i,
    {
        assert(ks.skip(i as int)[0] == keys@[i as int]@);
        assert(ks.skip(i as int).drop_first() =~= ks.skip(i + 1));
        match find_entry(entries, keys[i]) {
            Some(k) => match &entries[k].1 {
                Json::Number(Some(count)) => {
                    return Some(
                        if *count > 0 {
                            UsageState::Busy
                        } else {
                            UsageState::Free
                        },
                    );
                },
                _ => {},
            },
            None => {},
        }
        i = i + 1;
    }
    None
}

/// Whether the llama.cpp server is busy, from its `/slots` payload.
pub fn infer_usage_state(value: &Json) -> (r: Option<UsageState>)
    ensures
        r == usage_of(*value),
    decreases value,
{
    match value {
        Json::Array(items) => {
            let mut saw_free = false;
            let mut i: usize = 0;
            while i < items.len()
                invariant
                    i <= items@.len(),
                    *value == Json::Array(*items),
                    forall|j: int| 0 <= j < i ==> usage_of(#[trigger] items@[j]) != Some(UsageState::Busy),
                    saw_free == exists|j: int| 0 <= j < i && usage_of(#[trigger] items@[j]) == Some(UsageState::Free),
                decreases items@.len() - i,
            {
                let u = infer_usage_state(&items[i]);
                match u {
                    Some(UsageState::Busy) => {
                        return Some(UsageState::Busy);
                    },
                    Some(UsageState::Free) => {
                        saw_free = true;
                    },
                    _ => {},
                }
                i = i + 1;
            }
            if saw_free {
                Some(UsageState::Free)
            } else {
                None
            }
        },
        Json::Object(entries) => {
            let keys = nested_key_list();
            let ghost ks = str_views(keys@);
            assert(ks.skip(0) =~= ks);
            let mut i: usize = 0;
            while i < keys.len()
                invariant
                    i <= keys@.len(),
                    *value == Json::Object(*entries),
                    ks == str_views(keys@),
                    ks == nested_keys(),
                    nested_usage(*value, ks) == nested_usage(*value, ks.skip(i as int)),
                decreases keys@.len() - i,
            {
                assert(ks.skip(i as int)[0] == keys@[i as int]@);
                assert(ks.skip(i as int).drop_first() =~= ks.skip(i + 1));
                match find_entry(entries, keys[i]) {
                    Some(k) => {
                        let u = infer_usage_state(&entries[k].1);
                        if u.is_some() {
                            return u;
                        }
                    },
                    None => {},
                }
                i = i + 1;
            }
            let flag = flag_state(entries);
            if flag.is_some() {
                return flag;
            }
            let text = text_state(entries);
            if text.is_some() {
                return text;
            }
            count_state(entries)
        },
        _ => None,
    }
}

// ---------------------------------------------------------------------------
// Ports and health
// ---------------------------------------------------------------------------

/// Whether `port` is free: no process listens on it according to the
/// `netstat -ano -p TCP` output.
pub fn is_port_free(netstat_output: &str, port: u16) -> (r: bool)
    ensures
        r == (first_listener(lines(netstat_output@), port_needle(port)) is None),
{
    listener_on_port(netstat_output, port).is_none()
}

/// The outcome of a health probe.
#[derive(Clone, Copy, Debug, PartialEq, Eq, Structural)]
pub struct HealthProbe {
    /// Something answered with an HTTP response (any status).
    pub reachable: bool,
    /// It answered with a 2xx or 3xx status.
    pub healthy: bool,
}

/// The probe's verdict from the HTTP status that came back, or `None` when
/// no response came (connection refused, timeout, ...).
pub fn health_of(status: Option<u16>) -> (r: HealthProbe)
    ensures
        r.reachable == (status is Some),
        r.healthy == (status matches Some(code) && 200 <= code < 400),
{
    match status {
        Some(code) => HealthProbe { reachable: true, healthy: 200 <= code && code < 400 },
        None => HealthProbe { reachable: false, healthy: false },
    }
}

// ---------------------------------------------------------------------------
// GPU memory reports
// ---------------------------------------------------------------------------

/// `a + b`, held at `u64::MAX`.
pub open spec fn sat_add(a: u64, b: u64) -> u64 {
    if a + b > u64::MAX {
        u64::MAX
    } else {
        (a + b) as u64
    }
}

pub open spec fn parse_u64(s: Seq<char>) -> Option<u64> {
    match parse_unsigned(s, u64::MAX as nat) {
        Some(v) => Some(v as u64),
        None => None,
    }
}

pub open spec fn parse_u32(s: Seq<char>) -> Option<u32> {
    match parse_unsigned(s, u32::MAX as nat) {
        Some(v) => Some(v as u32),
        None => None,
    }
}

fn parse_u64_text(s: &[char]) -> (r: Option<u64>)
    ensures
        r == parse_u64(s@),
{
    parse_unsigned_max(s, u64::MAX)
}

fn parse_u32_text(s: &[char]) -> (r: Option<u32>)
    ensures
        r == parse_u32(s@),
{
    match parse_unsigned_max(s, 0xffff_ffff) {
        Some(v) => Some(v as u32),
        None => None,
    }
}

/// A row of `nvidia-smi --query-gpu=memory.total,memory.used,memory.free`:
/// exactly three comma-separated numbers (MiB).
pub open spec fn gpu_row(row: Seq<char>) -> Option<(u64, u64, u64)> {
    let p = crate::text::split_by(row, CharSet::One(','));
    if p.len() == 3 {
        match (
            parse_u64(trim(p[0], CharSet::Whitespace)),
            parse_u64(trim(p[1], CharSet::Whitespace)),
            parse_u64(trim(p[2], CharSet::Whitespace)),
        ) {
            (Some(t), Some(u), Some(f)) => Some((t, u, f)),
            _ => None,
        }
    } else {
        None
    }
}

/// Whether any row is a GPU row, and the sums of the GPU rows.
pub open spec fn gpu_totals(ls: Seq<Seq<char>>) -> (bool, u64, u64, u64)
    decreases ls.len(),
{
    if ls.len() == 0 {
        (false, 0, 0, 0)
    } else {
        let prev = gpu_totals(ls.drop_last());
        match gpu_row(ls.last()) {
            Some((t, u, f)) => (true, sat_add(prev.1, t), sat_add(prev.2, u), sat_add(prev.3, f)),
            None => prev,
        }
    }
}

fn gpu_row_of(row: &[char]) -> (r: Option<(u64, u64, u64)>)
    ensures
        r == gpu_row(row@),
{
    let p = crate::text::split_on(row, CharSet::One(','));
    if p.len() != 3 {
        return None;
    }
    assert(views(p@)[0] == p@[0]@ && views(p@)[1] == p@[1]@ && views(p@)[2] == p@[2]@);
    let t = parse_u64_text(&trim_with(p[0].as_slice(), CharSet::Whitespace));
    let u = parse_u64_text(&trim_with(p[1].as_slice(), CharSet::Whitespace));
    let f = parse_u64_text(&trim_with(p[2].as_slice(), CharSet::Whitespace));
    match (t, u, f) {
        (Some(t), Some(u), Some(f)) => Some((t, u, f)),
        _ => None,
    }
}

/// Total, used and free GPU memory (MiB) summed over the GPUs that
/// `nvidia-smi` reports; `None` when it reports none. Sums are held at
/// `u64::MAX`.
pub fn parse_gpu_memory(output: &str) -> (r: Option<(u64, u64, u64)>)
    ensures
        ({
            let g = gpu_totals(lines(output@));
            &&& r is None <==> !g.0
            &&& g.0 ==> r == Some((g.1, g.2, g.3))
        }),
{
    let ls = split_lines(&chars_of(output));
    let ghost lv = views(ls@);
    assert(lv == lines(output@));
    let mut found = false;
    let mut total: u64 = 0;
    let mut used: u64 = 0;
    let mut free: u64 = 0;
    let mut i: usize = 0;
    while i < ls.len()
        invariant
            i <= ls@.len(),
            lv == views(ls@),
            gpu_totals(lv.take(i as int)) == (found, total, used, free),
        decreases ls@.len() - i,
    {
        assert(lv.take(i + 1).drop_last() =~= lv.take(i as int));
        assert(lv.take(i + 1).last() == ls@[i as int]@);
        match gpu_row_of(ls[i].as_slice()) {
            Some((t, u, f)) => {
                found = true;
                total = total.saturating_add(t);
                used = used.saturating_add(u);
                free = free.saturating_add(f);
            },
            None => {},
        }
        i = i + 1;
    }
    assert(lv.take(ls@.len() as int) =~= lv);
    if found {
        Some((total, used, free))
    } else {
        None
    }
}

/// A row of `nvidia-smi --query-compute-apps=pid,process_name,used_memory`:
/// the first three comma-separated fields, trimmed.
pub open spec fn app_row(row: Seq<char>) -> Option<(u32, Seq<char>, u64)> {
    let p = crate::text::split_by(row, CharSet::One(','));
    if p.len() >= 3 {
        match (parse_u32(trim(p[0], CharSet::Whitespace)), parse_u64(trim(p[2], CharSet::Whitespace))) {
            (Some(pid), Some(used)) => Some((pid, trim(p[1], CharSet::Whitespace), used)),
            _ => None,
        }
    } else {
        None
    }
}

/// The index of the process with id `pid`, or -1.
pub open spec fn pid_index(ps: Seq<(u32, Seq<char>, u64)>, pid: u32) -> int
    decreases ps.len(),
{
    if ps.len() == 0 {
        -1
    } else if ps.last().0 == pid {
        ps.len() - 1
    } else {
        pid_index(ps.drop_last(), pid)
    }
}

/// The processes of the report, in order of first appearance; a process
/// listed once per GPU is shown once with its memory summed (held at
/// `u64::MAX`).
pub open spec fn merged_apps(ls: Seq<Seq<char>>) -> Seq<(u32, Seq<char>, u64)>
    decreases ls.len(),
{
    if ls.len() == 0 {
        Seq::empty()
    } else {
        let prev = merged_apps(ls.drop_last());
        match app_row(ls.last()) {
            Some(p) => {
                let k = pid_index(prev, p.0);
                if k >= 0 {
                    prev.update(k, (prev[k].0, prev[k].1, sat_add(prev[k].2, p.2)))
                } else {
                    prev.push(p)
                }
            },
            None => prev,
        }
    }
}

fn app_row_of(row: &[char]) -> (r: Option<VramProcess>)
    ensures
        match r {
            Some(p) => app_row(row@) == Some(p@),
            None => app_row(row@) is None,
        },
{
    let p = crate::text::split_on(row, CharSet::One(','));
    if p.len() < 3 {
        return None;
    }
    assert(views(p@)[0] == p@[0]@ && views(p@)[1] == p@[1]@ && views(p@)[2] == p@[2]@);
    let pid = parse_u32_text(&trim_with(p[0].as_slice(), CharSet::Whitespace));
    let used = parse_u64_text(&trim_with(p[2].as_slice(), CharSet::Whitespace));
    match (pid, used) {
        (Some(pid), Some(used)) => Some(
            VramProcess { pid, name: string_of(&trim_with(p[1].as_slice(), CharSet::Whitespace)), used_mib: used },
        ),
        _ => None,
    }
}

fn pid_position(ps: &Vec<VramProcess>, pid: u32) -> (r: Option<usize>)
    ensures
        match r {
            Some(k) => pid_index(vram_views(ps@), pid) == k as int && k < ps@.len(),
            None => pid_index(vram_views(ps@), pid) == -1,
        },
{
    let ghost v = vram_views(ps@);
    let mut j: usize = ps.len();
    assert(v.take(j as int) =~= v);
    while j > 0
        invariant
            j <= ps@.len(),
            v == vram_views(ps@),
            pid_index(v, pid) == pid_index(v.take(j as int), pid),
        decreases j,
    {
        assert(v.take(j as int).drop_last() =~= v.take(j - 1));
        assert(v.take(j as int).last() == ps@[j - 1]@);
        if ps[j - 1].pid == pid {
            return Some(j - 1);
        }
        j = j - 1;
    }
    None
}

/// The processes `nvidia-smi --query-compute-apps` reports.
pub fn parse_compute_apps(output: &str) -> (r: Vec<VramProcess>)
    ensures
        vram_views(r@) == merged_apps(lines(output@)),
{
    let ls = split_lines(&chars_of(output));
    let ghost lv = views(ls@);
    assert(lv == lines(output@));
    let mut r: Vec<VramProcess> = Vec::new();
    let mut i: usize = 0;
    while i < ls.len()
        invariant
            i <= ls@.len(),
            lv == views(ls@),
            vram_views(r@) == merged_apps(lv.take(i as int)),
        decreases ls@.len() - i,
    {
        assert(lv.take(i + 1).drop_last() =~= lv.take(i as int));
        assert(lv.take(i + 1).last() == ls@[i as int]@);
        match app_row_of(ls[i].as_slice()) {
            Some(p) => {
                let ghost before = r@;
                match pid_position(&r, p.pid) {
                    Some(k) => {
                        let old_entry = r[k].clone();
                        let entry = VramProcess {
                            pid: old_entry.pid,
                            name: old_entry.name,
                            used_mib: old_entry.used_mib.saturating_add(p.used_mib),
                        };
                        let ghost ev = entry@;
                        r.set(k, entry);
                        assert(vram_views(r@) =~= vram_views(before).update(k as int, ev));
                    },
                    None => {
                        let ghost pv = p@;
                        r.push(p);
                        assert(vram_views(r@) =~= vram_views(before).push(pv));
                    },
                }
            },
            None => {},
        }
        i = i + 1;
    }
    assert(lv.take(ls@.len() as int) =~= lv);
    r
}

/// A row of the Windows GPU memory query, `pid|name|bytes`: the name
/// trimmed, the bytes rounded to MiB.
pub open spec fn windows_row(row: Seq<char>) -> Option<(u32, Seq<char>, u64)> {
    let t = trim(row, CharSet::Whitespace);
    match find_in(t, seq!['|']) {
        Some(i) => {
            let rest = t.skip(i + 1);
            match find_in(rest, seq!['|']) {
                Some(j) => match (parse_u32(t.take(i)), parse_u64(rest.skip(j + 1))) {
                    (Some(pid), Some(bytes)) => Some(
                        (pid, trim(rest.take(j), CharSet::Whitespace), ((bytes + 524288) / 1048576) as u64),
                    ),
                    _ => None,
                },
                None => None,
            }
        },
        None => None,
    }
}

pub open spec fn windows_rows(ls: Seq<Seq<char>>, active: Option<Set<u32>>) -> Seq<(u32, Seq<char>, u64)>
    decreases ls.len(),
{
    if ls.len() == 0 {
        Seq::empty()
    } else {
        let prev = windows_rows(ls.drop_last(), active);
        match windows_row(ls.last()) {
            Some(p) => if active matches Some(set) && !set.contains(p.0) {
                prev
            } else {
                prev.push(p)
            },
            None => prev,
        }
    }
}

fn windows_row_of(row: &[char]) -> (r: Option<VramProcess>)
    ensures
        match r {
            Some(p) => windows_row(row@) == Some(p@),
            None => windows_row(row@) is None,
        },
{
    let t = trim_with(row, CharSet::Whitespace);
    let bar: Vec<char> = vec!['|'];
    assert(bar@ =~= seq!['|']);
    let i = match find(&t, &bar) {
        Some(i) => i,
        None => return None,
    };
    assert(i + 1 <= t@.len());
    let rest = copy_range(&t, i + 1, t.len());
    assert(rest@ =~= t@.skip(i + 1));
    let j = match find(&rest, &bar) {
        Some(j) => j,
        None => return None,
    };
    assert(j + 1 <= rest@.len());
    let head = copy_range(&t, 0, i);
    assert(head@ =~= t@.take(i as int));
    let name = copy_range(&rest, 0, j);
    assert(name@ =~= rest@.take(j as int));
    let tail = copy_range(&rest, j + 1, rest.len());
    assert(tail@ =~= rest@.skip(j + 1));
    match (parse_u32_text(&head), parse_u64_text(&tail)) {
        (Some(pid), Some(bytes)) => {
            let mib: u128 = (bytes as u128 + 524288) / 1048576;
            assert(mib <= u64::MAX);
            Some(
                VramProcess {
                    pid,
                    name: string_of(&trim_with(&name, CharSet::Whitespace)),
                    used_mib: mib as u64,
                },
            )
        },
        _ => None,
    }
}

pub open spec fn active_set(active: Option<&HashSet<u32>>) -> Option<Set<u32>> {
    match active {
        Some(h) => Some(h@),
        None => None,
    }
}

/// The processes of the Windows GPU memory query (`pid|name|bytes` rows),
/// kept only when `nvidia-smi pmon` lists them as live (when it could be
/// asked), larger allocations first.
pub fn windows_vram_processes(output: &str, active: Option<&HashSet<u32>>) -> (r: Vec<VramProcess>)
    ensures
        stably_sorted(
            windows_rows(lines(output@), active_set(active)),
            size_keys(windows_rows(lines(output@), active_set(active))),
            vram_views(r@),
        ),
{
    broadcast use vstd::std_specs::hash::group_hash_axioms;

    let ls = split_lines(&chars_of(output));
    let ghost lv = views(ls@);
    let ghost act = active_set(active);
    assert(lv == lines(output@));
    let mut kept: Vec<VramProcess> = Vec::new();
    let mut keys: Vec<Vec<u64>> = Vec::new();
    let mut i: usize = 0;
    while i < ls.len()
        invariant
            i <= ls@.len(),
            lv == views(ls@),
            act == active_set(active),
            vram_views(kept@) == windows_rows(lv.take(i as int), act),
            key_views(keys@) == size_keys(vram_views(kept@)),
        decreases ls@.len() - i,
    {
        assert(lv.take(i + 1).drop_last() =~= lv.take(i as int));
        assert(lv.take(i + 1).last() == ls@[i as int]@);
        match windows_row_of(ls[i].as_slice()) {
            Some(p) => {
                let live = match active {
                    Some(set) => set.contains(&p.pid),
                    None => true,
                };
                if live {
                    let mut k: Vec<u64> = Vec::new();
                    k.push(u64::MAX - p.used_mib);
                    let ghost vb = kept@;
                    let ghost kb = keys@;
                    let ghost pv = p@;
                    kept.push(p);
                    keys.push(k);
                    assert(vram_views(kept@) =~= vram_views(vb).push(pv));
                    assert(key_views(keys@) =~= key_views(kb).push(k@));
                    assert(k@ =~= seq![(u64::MAX - pv.2) as u64]);
                    assert(size_keys(vram_views(kept@)) =~= size_keys(vram_views(vb)).push(
                        seq![(u64::MAX - pv.2) as u64],
                    ));
                }
            },
            None => {},
        }
        i = i + 1;
    }
    assert(lv.take(ls@.len() as int) =~= lv);
    let ghost kept_seq = kept@;
    let ghost kv = vram_views(kept@);
    let out = sort_by_keys(kept, &keys);
    assert(stably_sorted(kv, size_keys(kv), vram_views(out@))) by {
        let order = choose|order: Seq<usize>|
            #![trigger crate::order::stable_order(key_views(keys@), order)]
            crate::order::stable_order(key_views(keys@), order) && out@.len() == order.len()
                && forall|k: int| 0 <= k < out@.len() ==> out@[k] == kept_seq[#[trigger] order[k] as int];
        assert forall|k: int| 0 <= k < vram_views(out@).len() implies vram_views(out@)[k] == kv[#[trigger] order[k] as int] by {}
    }
    out
}

/// GPU memory as the status shows it (MiB).
pub struct VramStatus {
    pub total_mib: Option<u64>,
    pub used_mib: Option<u64>,
    pub free_mib: Option<u64>,
    /// What the running model's server holds.
    pub model_mib: Option<u64>,
    pub processes: Vec<VramProcess>,
}

impl Default for VramStatus {
    fn default() -> (r: VramStatus)
        ensures
            r.total_mib is None && r.used_mib is None && r.free_mib is None && r.model_mib is None
                && r.processes@.len() == 0,
    {
        VramStatus { total_mib: None, used_mib: None, free_mib: None, model_mib: None, processes: Vec::new() }
    }
}

/// The processes other than the desktop compositor `dwm`, whose memory is
/// already counted with the applications it draws.
pub open spec fn without_dwm(ps: Seq<(u32, Seq<char>, u64)>) -> Seq<(u32, Seq<char>, u64)>
    decreases ps.len(),
{
    if ps.len() == 0 {
        Seq::empty()
    } else if crate::text::eq_ignore_ascii_case(ps.last().1, seq!['d', 'w', 'm']) {
        without_dwm(ps.drop_last())
    } else {
        without_dwm(ps.drop_last()).push(ps.last())
    }
}

/// The first process (in order) satisfying the condition on index `k`.
pub open spec fn first_pid_index(ps: Seq<(u32, Seq<char>, u64)>, pid: u32) -> int
    decreases ps.len(),
{
    if ps.len() == 0 {
        -1
    } else if ps[0].0 == pid {
        0
    } else {
        let r = first_pid_index(ps.drop_first(), pid);
        if r < 0 {
            -1
        } else {
            r + 1
        }
    }
}

pub open spec fn first_server_index(ps: Seq<(u32, Seq<char>, u64)>) -> int
    decreases ps.len(),
{
    if ps.len() == 0 {
        -1
    } else if is_llama_server_name(ps[0].1) {
        0
    } else {
        let r = first_server_index(ps.drop_first());
        if r < 0 {
            -1
        } else {
            r + 1
        }
    }
}

/// The memory of the running model: that of the tracked process, or else
/// that of the first llama.cpp server process (the tracked process is
/// usually the launch shell, whose child holds the memory).
pub open spec fn model_usage(ps: Seq<(u32, Seq<char>, u64)>, server_pid: Option<u32>) -> Option<u64> {
    let by_pid = match server_pid {
        Some(pid) => first_pid_index(ps, pid),
        None => -1,
    };
    if 0 <= by_pid < ps.len() {
        Some(ps[by_pid].2)
    } else {
        let k = first_server_index(ps);
        if 0 <= k < ps.len() {
            Some(ps[k].2)
        } else {
            None
        }
    }
}

fn model_usage_of(ps: &Vec<VramProcess>, server_pid: Option<u32>) -> (r: Option<u64>)
    ensures
        r == model_usage(vram_views(ps@), server_pid),
{
    let ghost v = vram_views(ps@);
    if let Some(pid) = server_pid {
        let mut i: usize = 0;
        assert(v.skip(0) =~= v);
        while i < ps.len()
            invariant
                i <= ps@.len(),
                v == vram_views(ps@),
                server_pid == Some(pid),
                first_pid_index(v, pid) == (if first_pid_index(v.skip(i as int), pid) < 0 {
                    -1
                } else {
                    first_pid_index(v.skip(i as int), pid) + i
                }),
            decreases ps@.len() - i,
        {
            assert(v.skip(i as int)[0] == ps@[i as int]@);
            assert(v.skip(i as int).drop_first() =~= v.skip(i + 1));
            if ps[i].pid == pid {
                assert(first_pid_index(v.skip(i as int), pid) == 0);
                assert(first_pid_index(v, pid) == i);
                assert(v[i as int] == ps@[i as int]@);
                assert(server_pid == Some(pid));
                assert(model_usage(v, server_pid) == Some(ps@[i as int].used_mib));
                return Some(ps[i].used_mib);
            }
            i = i + 1;
        }
    }
    let mut i: usize = 0;
    assert(v.skip(0) =~= v);
    while i < ps.len()
        invariant
            i <= ps@.len(),
            v == vram_views(ps@),
            match server_pid {
                Some(pid) => first_pid_index(v, pid) < 0,
                None => true,
            },
            first_server_index(v) == (if first_server_index(v.skip(i as int)) < 0 {
                -1
            } else {
                first_server_index(v.skip(i as int)) + i
            }),
        decreases ps@.len() - i,
    {
        assert(v.skip(i as int)[0] == ps@[i as int]@);
        assert(v.skip(i as int).drop_first() =~= v.skip(i + 1));
        if is_llama_server_process(ps[i].name.as_str()) {
            assert(first_server_index(v.skip(i as int)) == 0);
            assert(first_server_index(v) == i);
            return Some(ps[i].used_mib);
        }
        i = i + 1;
    }
    None
}

fn drop_dwm(ps: Vec<VramProcess>) -> (r: Vec<VramProcess>)
    ensures
        vram_views(r@) == without_dwm(vram_views(ps@)),
{
    let ghost v = vram_views(ps@);
    let dwm: Vec<char> = vec!['d', 'w', 'm'];
    assert(dwm@ =~= seq!['d', 'w', 'm']);
    let mut r: Vec<VramProcess> = Vec::new();
    let mut i: usize = 0;
    while i < ps.len()
        invariant
            i <= ps@.len(),
            v == vram_views(ps@),
            dwm@ == seq!['d', 'w', 'm'],
            vram_views(r@) == without_dwm(v.take(i as int)),
        decreases ps@.len() - i,
    {
        assert(v.take(i + 1).drop_last() =~= v.take(i as int));
        assert(v.take(i + 1).last() == ps@[i as int]@);
        if !crate::text::equals_ignore_ascii_case(&chars_of(ps[i].name.as_str()), &dwm) {
            let q = ps[i].clone();
            let ghost before = r@;
            r.push(q);
            assert(vram_views(r@) =~= vram_views(before).push(q@));
        }
        i = i + 1;
    }
    assert(v.take(ps@.len() as int) =~= v);
    r
}

/// The GPU memory shown: the totals `nvidia-smi` reported (`gpu`), and the
/// processes, reconciled, of the Windows query when it listed any (the
/// compositor left out) or else of `nvidia-smi`. When the Windows processes
/// are used and their memory is physically possible, used and free memory
/// follow their sum.
pub fn vram_summary(
    gpu: Option<(u64, u64, u64)>,
    nvidia: Vec<VramProcess>,
    windows: Vec<VramProcess>,
    server_pid: Option<u32>,
) -> (r: VramStatus)
    ensures
        match gpu {
            None => r.total_mib is None && r.used_mib is None && r.free_mib is None && r.model_mib is None
                && r.processes@.len() == 0,
            Some((total, used, free)) => {
                let source = if windows@.len() == 0 {
                    vram_views(nvidia@)
                } else {
                    without_dwm(vram_views(windows@))
                };
                let procs = vram_views(r.processes@);
                let sum = used_sum(procs);
                &&& reconciled(source, total, server_pid, procs)
                &&& r.total_mib == Some(total)
                &&& if windows@.len() > 0 && 0 < sum && sum <= total {
                    r.used_mib == Some(sum as u64) && r.free_mib == Some((total - sum) as u64)
                } else {
                    r.used_mib == Some(used) && r.free_mib == Some(free)
                }
                &&& r.model_mib == model_usage(procs, server_pid)
            },
        },
{
    let (total, used, free) = match gpu {
        None => return VramStatus::default(),
        Some(g) => g,
    };
    let from_windows = windows.len() > 0;
    let processes = if from_windows {
        reconcile_vram_processes(drop_dwm(windows), total, server_pid)
    } else {
        reconcile_vram_processes(nvidia, total, server_pid)
    };
    let ghost pv = vram_views(processes@);
    // Sum the allocations; an overflow means more than the total.
    let mut sum: u64 = 0;
    let mut over = false;
    let mut i: usize = 0;
    while i < processes.len()
        invariant
            i <= processes@.len(),
            pv == vram_views(processes@),
            !over ==> sum as nat == used_sum(pv.take(i as int)),
            over ==> used_sum(pv.take(i as int)) > u64::MAX,
        decreases processes@.len() - i,
    {
        assert(pv.take(i + 1).drop_last() =~= pv.take(i as int));
        assert(pv.take(i + 1).last() == processes@[i as int]@);
        if !over {
            match sum.checked_add(processes[i].used_mib) {
                Some(v) => {
                    sum = v;
                },
                None => {
                    over = true;
                },
            }
        }
        i = i + 1;
    }
    assert(pv.take(processes@.len() as int) =~= pv);
    let (shown_used, shown_free) = if from_windows && !over && sum > 0 && sum <= total {
        (sum, total - sum)
    } else {
        (used, free)
    };
    let model = model_usage_of(&processes, server_pid);
    VramStatus {
        total_mib: Some(total),
        used_mib: Some(shown_used),
        free_mib: Some(shown_free),
        model_mib: model,
        processes,
    }
}

// ---------------------------------------------------------------------------
// Laws of the GPU memory reconciliation
// ---------------------------------------------------------------------------

proof fn lemma_used_sum_remove(s: Seq<(u32, Seq<char>, u64)>, p: int)
    requires
        0 <= p < s.len(),
    ensures
        used_sum(s) == used_sum(s.remove(p)) + s[p].2,
    decreases s.len(),
{
    if p == s.len() - 1 {
        assert(s.remove(p) =~= s.drop_last());
    } else {
        let t = s.remove(p);
        assert(t.drop_last() =~= s.drop_last().remove(p));
        assert(t.last() == s.last());
        lemma_used_sum_remove(s.drop_last(), p);
    }
}

proof fn lemma_used_sum_permuted(
    items: Seq<(u32, Seq<char>, u64)>,
    order: Seq<usize>,
    out: Seq<(u32, Seq<char>, u64)>,
)
    requires
        order.len() == items.len(),
        out.len() == items.len(),
        forall|k: int| 0 <= k < order.len() ==> #[trigger] order[k] < items.len(),
        forall|k: int, l: int| 0 <= k < l < order.len() ==> order[k] != order[l],
        forall|k: int| 0 <= k < out.len() ==> out[k] == items[#[trigger] order[k] as int],
    ensures
        used_sum(out) == used_sum(items),
    decreases items.len(),
{
    let n = items.len();
    if n > 0 {
        crate::order::lemma_indices_surjective(order, n, n - 1);
        let p = choose|p: int| 0 <= p < order.len() && order[p] == n - 1;
        let order2 = order.remove(p);
        let out2 = out.remove(p);
        let items2 = items.drop_last();
        assert forall|k: int| 0 <= k < order2.len() implies #[trigger] order2[k] < items2.len() by {
            if k < p {
                assert(order2[k] == order[k] && order[k] != order[p]);
            } else {
                assert(order2[k] == order[k + 1] && order[k + 1] != order[p]);
            }
        }
        assert forall|k: int, l: int| 0 <= k < l < order2.len() implies order2[k] != order2[l] by {
            let kk = if k < p { k } else { k + 1 };
            let ll = if l < p { l } else { l + 1 };
            assert(order2[k] == order[kk] && order2[l] == order[ll]);
        }
        assert forall|k: int| 0 <= k < out2.len() implies out2[k] == items2[#[trigger] order2[k] as int] by {
            let kk = if k < p { k } else { k + 1 };
            assert(out2[k] == out[kk] && order2[k] == order[kk]);
        }
        lemma_used_sum_permuted(items2, order2, out2);
        lemma_used_sum_remove(out, p);
        assert(out[p] == items[n - 1]);
    }
}

proof fn lemma_used_sum_sorted(
    items: Seq<(u32, Seq<char>, u64)>,
    keys: Seq<Seq<u64>>,
    out: Seq<(u32, Seq<char>, u64)>,
)
    requires
        stably_sorted(items, keys, out),
        keys.len() == items.len(),
    ensures
        used_sum(out) == used_sum(items),
        forall|k: int| 0 <= k < out.len() ==> items.contains(#[trigger] out[k]),
{
    let order = choose|order: Seq<usize>|
        #![trigger crate::order::stable_order(keys, order)]
        crate::order::stable_order(keys, order) && out.len() == order.len() && forall|k: int|
            0 <= k < out.len() ==> out[k] == items[#[trigger] order[k] as int];
    lemma_used_sum_permuted(items, order, out);
    assert forall|k: int| 0 <= k < out.len() implies items.contains(#[trigger] out[k]) by {
        assert(out[k] == items[order[k] as int]);
    }
}

proof fn lemma_fitting(ps: Seq<(u32, Seq<char>, u64)>, total: u64)
    ensures
        used_sum(fitting(ps, total)) <= total,
        forall|k: int| 0 <= k < fitting(ps, total).len() ==> ps.contains(#[trigger] fitting(ps, total)[k]),
        ps.len() > 0 && ps[0].2 <= total ==> fitting(ps, total).len() > 0 && fitting(ps, total)[0]
            == ps[0],
    decreases ps.len(),
{
    if ps.len() > 0 {
        let prev = ps.drop_last();
        lemma_fitting(prev, total);
        let f = fitting(ps, total);
        if used_sum(fitting(prev, total)) + ps.last().2 <= total {
            assert(f.drop_last() =~= fitting(prev, total));
        }
        assert forall|k: int| 0 <= k < f.len() implies ps.contains(#[trigger] f[k]) by {
            if k < fitting(prev, total).len() {
                assert(prev.contains(f[k]));
                let w = choose|w: int| 0 <= w < prev.len() && prev[w] == f[k];
                assert(ps[w] == f[k]);
            } else {
                assert(f[k] == ps.last());
                assert(ps[ps.len() - 1] == f[k]);
            }
        }
        if ps.len() == 1 && ps[0].2 <= total {
            assert(fitting(prev, total) =~= Seq::<(u32, Seq<char>, u64)>::empty());
        }
        if ps.len() > 1 && ps[0].2 <= total {
            assert(prev[0] == ps[0]);
        }
    }
}

proof fn lemma_plausible(ps: Seq<(u32, Seq<char>, u64)>, total: u64)
    ensures
        forall|k: int| 0 <= k < plausible(ps, total).len() ==> 0 < #[trigger] plausible(ps, total)[k].2
            <= total,
        forall|k: int| 0 <= k < plausible(ps, total).len() ==> ps.contains(#[trigger] plausible(ps, total)[k]),
        forall|k: int| 0 <= k < ps.len() && 0 < #[trigger] ps[k].2 <= total ==> plausible(ps, total).contains(ps[k]),
    decreases ps.len(),
{
    if ps.len() > 0 {
        let prev = ps.drop_last();
        lemma_plausible(prev, total);
        let q = plausible(ps, total);
        assert forall|k: int| 0 <= k < q.len() implies ps.contains(#[trigger] q[k]) by {
            if k < plausible(prev, total).len() {
                let w = choose|w: int| 0 <= w < prev.len() && prev[w] == q[k];
                assert(ps[w] == q[k]);
            } else {
                assert(ps[ps.len() - 1] == q[k]);
            }
        }
        assert forall|k: int| 0 <= k < ps.len() && 0 < #[trigger] ps[k].2 <= total implies q.contains(ps[k]) by {
            if k < prev.len() {
                assert(prev[k] == ps[k]);
                let w = choose|w: int| 0 <= w < plausible(prev, total).len() && plausible(prev, total)[w] == ps[k];
                assert(q[w] == ps[k]);
            } else {
                assert(q[q.len() - 1] == ps[k]);
            }
        }
    }
}

/// The memory shown for the processes is physically possible: each
/// allocation is more than nothing and at most the GPU's total, together
/// they fit in it, each comes from the report, and larger allocations come
/// first.
pub proof fn law_reconciled_allocations_fit(
    ps: Seq<(u32, Seq<char>, u64)>,
    total: u64,
    server_pid: Option<u32>,
    out: Seq<(u32, Seq<char>, u64)>,
)
    requires
        reconciled(ps, total, server_pid, out),
    ensures
        used_sum(out) <= total,
        forall|k: int| 0 <= k < out.len() ==> 0 < #[trigger] out[k].2 <= total,
        forall|k: int| 0 <= k < out.len() ==> ps.contains(#[trigger] out[k]),
        forall|k: int, l: int| 0 <= k < l < out.len() ==> #[trigger] out[k].2 >= #[trigger] out[l].2,
{
    let mid = choose|mid: Seq<(u32, Seq<char>, u64)>|
        #![trigger fitting(mid, total)]
        stably_sorted(plausible(ps, total), server_first_keys(plausible(ps, total), server_pid), mid)
            && stably_sorted(fitting(mid, total), size_keys(fitting(mid, total)), out);
    let pl = plausible(ps, total);
    let f = fitting(mid, total);
    lemma_plausible(ps, total);
    lemma_used_sum_sorted(pl, server_first_keys(pl, server_pid), mid);
    lemma_fitting(mid, total);
    lemma_used_sum_sorted(f, size_keys(f), out);
    assert forall|k: int| 0 <= k < out.len() implies 0 < #[trigger] out[k].2 <= total && ps.contains(out[k]) by {
        assert(f.contains(out[k]));
        let a = choose|a: int| 0 <= a < f.len() && f[a] == out[k];
        assert(mid.contains(f[a]));
        let b = choose|b: int| 0 <= b < mid.len() && mid[b] == f[a];
        assert(pl.contains(mid[b]));
        let c = choose|c: int| 0 <= c < pl.len() && pl[c] == mid[b];
        assert(0 < pl[c].2 <= total);
        assert(ps.contains(pl[c]));
    }
    let order = choose|order: Seq<usize>|
        #![trigger crate::order::stable_order(size_keys(f), order)]
        crate::order::stable_order(size_keys(f), order) && out.len() == order.len() && forall|k: int|
            0 <= k < out.len() ==> out[k] == f[#[trigger] order[k] as int];
    assert forall|k: int, l: int| 0 <= k < l < out.len() implies #[trigger] out[k].2 >= #[trigger] out[l].2 by {
        let a = order[k] as int;
        let b = order[l] as int;
        assert(crate::order::before_in(size_keys(f), a, b));
        let ka = size_keys(f)[a];
        let kb = size_keys(f)[b];
        assert(ka == seq![(u64::MAX - f[a].2) as u64]);
        assert(kb == seq![(u64::MAX - f[b].2) as u64]);
        if crate::order::lex_lt(ka, kb) {
            assert(ka[0] <= kb[0]);
        } else {
            assert(ka == kb);
            assert(ka[0] == kb[0]);
        }
        assert(out[k] == f[a] && out[l] == f[b]);
    }
}

/// The running server's memory is never hidden: when the report holds a
/// possible allocation of the server process, a server allocation at least
/// as large is shown, so the largest possible server allocation is always
/// kept.
pub proof fn law_server_allocation_kept(
    ps: Seq<(u32, Seq<char>, u64)>,
    total: u64,
    server_pid: Option<u32>,
    out: Seq<(u32, Seq<char>, u64)>,
    k: int,
)
    requires
        reconciled(ps, total, server_pid, out),
        0 <= k < ps.len(),
        is_server_process(ps[k], server_pid),
        0 < ps[k].2 <= total,
    ensures
        exists|j: int|
            0 <= j < out.len() && is_server_process(#[trigger] out[j], server_pid) && out[j].2
                >= ps[k].2,
{
    let mid = choose|mid: Seq<(u32, Seq<char>, u64)>|
        #![trigger fitting(mid, total)]
        stably_sorted(plausible(ps, total), server_first_keys(plausible(ps, total), server_pid), mid)
            && stably_sorted(fitting(mid, total), size_keys(fitting(mid, total)), out);
    let pl = plausible(ps, total);
    let f = fitting(mid, total);
    lemma_plausible(ps, total);
    assert(pl.contains(ps[k]));
    let w = choose|w: int| 0 <= w < pl.len() && pl[w] == ps[k];
    let keys = server_first_keys(pl, server_pid);
    let order = choose|order: Seq<usize>|
        #![trigger crate::order::stable_order(keys, order)]
        crate::order::stable_order(keys, order) && mid.len() == order.len() && forall|i: int|
            0 <= i < mid.len() ==> mid[i] == pl[#[trigger] order[i] as int];
    crate::order::lemma_indices_surjective(order, pl.len(), w);
    let pw = choose|p: int| 0 <= p < order.len() && order[p] == w;
    // The first allocation in server-first order belongs to a server.
    assert(mid.len() > 0);
    let a = order[0] as int;
    assert(is_server_process(mid[0], server_pid)) by {
        if pw > 0 {
            assert(crate::order::before_in(keys, order[0] as int, order[pw] as int));
            assert(keys[w][0] == 0u64);
            let k0 = keys[a];
            assert(k0 == server_first_key(pl[a], server_pid));
            if !is_server_process(pl[a], server_pid) {
                assert(k0[0] == 1u64);
                if crate::order::lex_lt(k0, keys[w]) {
                    assert(k0[0] <= keys[w][0]);
                }
            }
        }
        assert(mid[0] == pl[a]);
    }
    assert(0 < mid[0].2 <= total) by {
        assert(0 < pl[a].2 <= total);
    }
    assert(mid[0].2 >= ps[k].2) by {
        if pw > 0 {
            assert(crate::order::before_in(keys, order[0] as int, order[pw] as int));
            let ka = keys[a];
            let kw = keys[w];
            assert(ka == server_first_key(pl[a], server_pid));
            assert(kw == server_first_key(pl[w], server_pid));
            assert(is_server_process(pl[a], server_pid));
            assert(ka[0] == 0u64 && kw[0] == 0u64);
            let x = ka.drop_first();
            let y = kw.drop_first();
            assert(x =~= seq![(u64::MAX - pl[a].2) as u64]);
            assert(y =~= seq![(u64::MAX - pl[w].2) as u64]);
            if crate::order::lex_lt(ka, kw) {
                assert(crate::order::lex_lt(x, y));
                if x[0] > y[0] {
                    assert(!crate::order::lex_lt(x, y));
                }
            } else {
                assert(ka == kw);
                assert(ka[1] == kw[1]);
            }
        }
        assert(mid[0] == pl[a]);
    }
    lemma_fitting(mid, total);
    assert(f[0] == mid[0]);
    let ord2 = choose|o: Seq<usize>|
        #![trigger crate::order::stable_order(size_keys(f), o)]
        crate::order::stable_order(size_keys(f), o) && out.len() == o.len() && forall|i: int|
            0 <= i < out.len() ==> out[i] == f[#[trigger] o[i] as int];
    crate::order::lemma_indices_surjective(ord2, f.len(), 0);
    let j = choose|p: int| 0 <= p < ord2.len() && ord2[p] == 0;
    assert(out[j] == f[0]);
}

// ---------------------------------------------------------------------------
// Launching a profile
// ---------------------------------------------------------------------------

/// The command that runs a startup script: PowerShell for `.ps1` scripts
/// (any case), `cmd /C "<path>"` otherwise (the path quoted so that spaces
/// survive cmd's parser; the caller passes the arguments verbatim).
pub struct LaunchCommand {
    pub program: String,
    pub args: Vec<String>,
}

pub open spec fn launch_args_of(script_path: Seq<char>, extension: Seq<char>) -> (Seq<char>, Seq<Seq<char>>) {
    if unicode_lowercase(extension) == ".ps1"@ {
        ("powershell"@, seq!["-NoProfile"@, "-ExecutionPolicy"@, "Bypass"@, "-File"@, script_path])
    } else {
        ("cmd"@, seq!["/C"@, seq!['"'] + script_path + seq!['"']])
    }
}

pub fn launch_command(script_path: &str, extension: &str) -> (r: LaunchCommand)
    ensures
        (r.program@, r.args@.map_values(|a: String| a@)) == launch_args_of(script_path@, extension@),
{
    let ext = to_lowercase(&chars_of(extension));
    let mut args: Vec<String> = Vec::new();
    if str_eq(string_of(&ext).as_str(), ".ps1") {
        args.push(String::from_str("-NoProfile"));
        args.push(String::from_str("-ExecutionPolicy"));
        args.push(String::from_str("Bypass"));
        args.push(String::from_str("-File"));
        args.push(string_of(&chars_of(script_path)));
        assert(args@.map_values(|a: String| a@) =~= seq![
            "-NoProfile"@,
            "-ExecutionPolicy"@,
            "Bypass"@,
            "-File"@,
            script_path@,
        ]);
        LaunchCommand { program: String::from_str("powershell"), args }
    } else {
        args.push(String::from_str("/C"));
        let mut quoted: Vec<char> = vec!['"'];
        let mut p = chars_of(script_path);
        quoted.append(&mut p);
        quoted.push('"');
        assert(quoted@ =~= seq!['"'] + script_path@ + seq!['"']);
        args.push(string_of(&quoted));
        assert(args@.map_values(|a: String| a@) =~= seq!["/C"@, seq!['"'] + script_path@ + seq!['"']]);
        LaunchCommand { program: String::from_str("cmd"), args }
    }
}

} // verus!
