//! Decisions of the loops that start, stop and restart the managed server.
//!
//! Each loop polls the machine (the port's listener, the health endpoint,
//! the clock) and then decides; the deciding step is here, from what was
//! observed to what to do next, together with the messages the loops log
//! and report.
use crate::text::{
    chars_of, decimal, decimal_of, eq_ignore_ascii_case, equals_ignore_ascii_case, lines,
    parse_unsigned, parse_unsigned_max, split_by, split_lines, split_on, string_of, trim, trim_ws,
    views, CharSet,
};
use vstd::prelude::*;

verus! {

// ---------------------------------------------------------------------------
// Clearing the server port
// ---------------------------------------------------------------------------

/// What to do about the server port on one pass of the clearing loop.
#[derive(Clone, Copy, Debug, PartialEq, Eq, Structural)]
pub enum PortStep {
    /// The port is free: done.
    Free,
    /// Kill the tree of the parent of this listener, then look again.
    KillParentTree(u32),
    /// Busy but nobody listens (a closing socket): wait and look again.
    Wait,
}

pub fn port_step(port_free: bool, listener: Option<u32>) -> (r: PortStep)
    ensures
        port_free ==> r == PortStep::Free,
        !port_free && listener is Some ==> r == PortStep::KillParentTree(listener->0),
        !port_free && listener is None ==> r == PortStep::Wait,
{
    if port_free {
        PortStep::Free
    } else {
        match listener {
            Some(pid) => PortStep::KillParentTree(pid),
            None => PortStep::Wait,
        }
    }
}

/// The root of the tree to kill for a listener: its parent (the script
/// that would start it again) when the snapshot names one, else itself.
pub open spec fn parent_root_of(pid: u32, snapshot: Seq<(u32, u32)>) -> u32
    decreases snapshot.len(),
{
    if snapshot.len() == 0 {
        pid
    } else if snapshot[0].0 == pid {
        if snapshot[0].1 != 0 {
            snapshot[0].1
        } else {
            pid
        }
    } else {
        parent_root_of(pid, snapshot.drop_first())
    }
}

/// The parent of `pid` in a `(pid, parent)` snapshot (its first entry),
/// unless it has none; then `pid` itself.
pub fn parent_tree_root(pid: u32, snapshot: &[(u32, u32)]) -> (r: u32)
    ensures
        r == parent_root_of(pid, snapshot@),
{
    let mut i: usize = 0;
    assert(snapshot@.skip(0) =~= snapshot@);
    while i < snapshot.len()
        invariant
            i <= snapshot.len(),
            parent_root_of(pid, snapshot@) == parent_root_of(pid, snapshot@.skip(i as int)),
        decreases snapshot.len() - i,
    {
        assert(snapshot@.skip(i as int).drop_first() =~= snapshot@.skip(i + 1));
        assert(snapshot@.skip(i as int)[0] == snapshot@[i as int]);
        let (p, parent) = snapshot[i];
        if p == pid {
            return if parent != 0 {
                parent
            } else {
                pid
            };
        }
        i = i + 1;
    }
    pid
}

/// `Port {port} is still in use after {seconds}s.`
pub fn port_in_use_error(port: u16, stop_timeout_seconds: u64) -> (r: String)
    ensures
        r@ == "Port "@ + decimal(port as nat) + " is still in use after "@ + decimal(
            stop_timeout_seconds as nat,
        ) + "s."@,
{
    let mut t = chars_of("Port ");
    let mut p = decimal_of(port as u64);
    t.append(&mut p);
    let mut mid = chars_of(" is still in use after ");
    t.append(&mut mid);
    let mut s = decimal_of(stop_timeout_seconds);
    t.append(&mut s);
    let mut tail = chars_of("s.");
    t.append(&mut tail);
    string_of(&t)
}

// ---------------------------------------------------------------------------
// Waiting for a launched server
// ---------------------------------------------------------------------------

/// The outcome of one pass of the loop that waits for a launched server.
#[derive(Clone, Copy, Debug, PartialEq, Eq, Structural)]
pub enum WaitStep {
    /// Another run replaced this one (or it exited): stop waiting.
    Superseded,
    /// The server answers: mark the run healthy.
    Ready,
    /// The startup window is over.
    TimedOut,
    /// Look again shortly.
    Again,
}

/// Decide after one health probe: a superseded run ends the wait first, a
/// ready server next, then the deadline.
pub fn wait_step(still_current: bool, ready: bool, past_deadline: bool) -> (r: WaitStep)
    ensures
        r == (if !still_current {
            WaitStep::Superseded
        } else if ready {
            WaitStep::Ready
        } else if past_deadline {
            WaitStep::TimedOut
        } else {
            WaitStep::Again
        }),
{
    if !still_current {
        WaitStep::Superseded
    } else if ready {
        WaitStep::Ready
    } else if past_deadline {
        WaitStep::TimedOut
    } else {
        WaitStep::Again
    }
}

/// `Replacement server launched as PID {pid} but did not become healthy
/// within {seconds} seconds.`
pub fn restart_timeout_error(new_shell_pid: u32, health_timeout_seconds: u64) -> (r: String)
    ensures
        r@ == "Replacement server launched as PID "@ + decimal(new_shell_pid as nat)
            + " but did not become healthy within "@ + decimal(health_timeout_seconds as nat)
            + " seconds."@,
{
    let mut t = chars_of("Replacement server launched as PID ");
    let mut p = decimal_of(new_shell_pid as u64);
    t.append(&mut p);
    let mut mid = chars_of(" but did not become healthy within ");
    t.append(&mut mid);
    let mut s = decimal_of(health_timeout_seconds);
    t.append(&mut s);
    let mut tail = chars_of(" seconds.");
    t.append(&mut tail);
    string_of(&t)
}

/// `Restart reused the old shell PID {pid} instead of launching a
/// replacement.`
pub fn restart_reused_error(old_shell_pid: u32) -> (r: String)
    ensures
        r@ == "Restart reused the old shell PID "@ + decimal(old_shell_pid as nat)
            + " instead of launching a replacement."@,
{
    let mut t = chars_of("Restart reused the old shell PID ");
    let mut p = decimal_of(old_shell_pid as u64);
    t.append(&mut p);
    let mut tail = chars_of(" instead of launching a replacement.");
    t.append(&mut tail);
    string_of(&t)
}

/// `Restart verified: new shell PID {shell}, listener PID {listener}, health
/// endpoint ready.` (listener 0 when none was seen).
pub fn restart_verified_line(new_shell_pid: u32, listener: Option<u32>) -> (r: String)
    ensures
        r@ == "Restart verified: new shell PID "@ + decimal(new_shell_pid as nat)
            + ", listener PID "@ + decimal(
            match listener {
                Some(p) => p as nat,
                None => 0nat,
            },
        ) + ", health endpoint ready."@,
{
    let l: u32 = match listener {
        Some(p) => p,
        None => 0,
    };
    let mut t = chars_of("Restart verified: new shell PID ");
    let mut p = decimal_of(new_shell_pid as u64);
    t.append(&mut p);
    let mut mid = chars_of(", listener PID ");
    t.append(&mut mid);
    let mut q = decimal_of(l as u64);
    t.append(&mut q);
    let mut tail = chars_of(", health endpoint ready.");
    t.append(&mut tail);
    string_of(&t)
}

// ---------------------------------------------------------------------------
// Keeping a single server
// ---------------------------------------------------------------------------

/// Whose process tree the watchdog spares: the managed run's, else the
/// listener of a reachable server started elsewhere, else nobody's.
pub fn watchdog_root(managed: Option<u32>, reachable: bool, listener: Option<u32>) -> (r: Option<u32>)
    ensures
        managed is Some ==> r == managed,
        managed is None ==> r == (if reachable {
            listener
        } else {
            None
        }),
{
    match managed {
        Some(pid) => Some(pid),
        None => if reachable {
            listener
        } else {
            None
        },
    }
}

/// `process` or, for any count but one, `processes`.
pub open spec fn processes_word(count: nat) -> Seq<char> {
    if count == 1 {
        "process"@
    } else {
        "processes"@
    }
}

fn processes_text(count: u64) -> (r: Vec<char>)
    ensures
        r@ == processes_word(count as nat),
{
    if count == 1 {
        chars_of("process")
    } else {
        chars_of("processes")
    }
}

/// `{reason}: terminated {count} stray server process(es) to enforce a
/// single instance.`
pub fn stray_sweep_warning(reason: &str, count: u64) -> (r: String)
    ensures
        r@ == reason@ + ": terminated "@ + decimal(count as nat) + " stray server "@
            + processes_word(count as nat) + " to enforce a single instance."@,
{
    let mut t = chars_of(reason);
    let mut a = chars_of(": terminated ");
    t.append(&mut a);
    let mut n = decimal_of(count);
    t.append(&mut n);
    let mut b = chars_of(" stray server ");
    t.append(&mut b);
    let mut w = processes_text(count);
    t.append(&mut w);
    let mut c = chars_of(" to enforce a single instance.");
    t.append(&mut c);
    string_of(&t)
}

/// `Watchdog terminated {count} rogue or stale server process(es).`
pub fn watchdog_warning(count: u64) -> (r: String)
    ensures
        r@ == "Watchdog terminated "@ + decimal(count as nat) + " rogue or stale server "@
            + processes_word(count as nat) + "."@,
{
    let mut t = chars_of("Watchdog terminated ");
    let mut n = decimal_of(count);
    t.append(&mut n);
    let mut b = chars_of(" rogue or stale server ");
    t.append(&mut b);
    let mut w = processes_text(count);
    t.append(&mut w);
    let mut c = chars_of(".");
    t.append(&mut c);
    string_of(&t)
}

/// `true` or `false`, as `{}` prints a `bool`.
pub open spec fn bool_text(b: bool) -> Seq<char> {
    if b {
        "true"@
    } else {
        "false"@
    }
}

/// The last line of a stop: `Stopped at {time}. Port {port} free: {free}.
/// Killed {killed} extra process(es).`
pub fn stop_summary_line(time: &str, port: u16, port_free: bool, killed: u64) -> (r: String)
    ensures
        r@ == "Stopped at "@ + time@ + ". Port "@ + decimal(port as nat) + " free: "@ + bool_text(
            port_free,
        ) + ". Killed "@ + decimal(killed as nat) + " extra "@ + processes_word(killed as nat)
            + "."@,
{
    let mut t = chars_of("Stopped at ");
    let mut a = chars_of(time);
    t.append(&mut a);
    let mut b = chars_of(". Port ");
    t.append(&mut b);
    let mut p = decimal_of(port as u64);
    t.append(&mut p);
    let mut c = chars_of(" free: ");
    t.append(&mut c);
    let mut f = if port_free {
        chars_of("true")
    } else {
        chars_of("false")
    };
    t.append(&mut f);
    let mut d = chars_of(". Killed ");
    t.append(&mut d);
    let mut k = decimal_of(killed);
    t.append(&mut k);
    let mut e = chars_of(" extra ");
    t.append(&mut e);
    let mut w = processes_text(killed);
    t.append(&mut w);
    let mut g = chars_of(".");
    t.append(&mut g);
    string_of(&t)
}

// ---------------------------------------------------------------------------
// Server processes by image name
// ---------------------------------------------------------------------------

/// A process listing line `"<pid>|<image name>"`, fields trimmed.
pub open spec fn image_row(line: Seq<char>) -> Option<(u32, Seq<char>)> {
    let f = split_by(line, CharSet::One('|'));
    if f.len() == 2 {
        match parse_unsigned(trim(f[0], CharSet::Whitespace), u32::MAX as nat) {
            Some(pid) => Some((pid as u32, trim(f[1], CharSet::Whitespace))),
            None => None,
        }
    } else {
        None
    }
}

pub open spec fn image_rows(ls: Seq<Seq<char>>) -> Seq<(u32, Seq<char>)>
    decreases ls.len(),
{
    if ls.len() == 0 {
        Seq::empty()
    } else {
        match image_row(ls.last()) {
            Some(r) => image_rows(ls.drop_last()).push(r),
            None => image_rows(ls.drop_last()),
        }
    }
}

pub open spec fn row_views(v: Seq<(u32, String)>) -> Seq<(u32, Seq<char>)> {
    v.map_values(|r: (u32, String)| (r.0, r.1@))
}

/// The processes of a listing with one `"<pid>|<image name>"` line each;
/// other lines are skipped.
pub fn parse_process_images(output: &str) -> (r: Vec<(u32, String)>)
    ensures
        row_views(r@) == image_rows(lines(output@)),
{
    let ls = split_lines(&chars_of(output));
    let ghost lv = views(ls@);
    let mut r: Vec<(u32, String)> = Vec::new();
    let mut i: usize = 0;
    while i < ls.len()
        invariant
            i <= ls@.len(),
            lv == views(ls@),
            lv == lines(output@),
            row_views(r@) == image_rows(lv.take(i as int)),
        decreases ls@.len() - i,
    {
        assert(lv.take(i + 1).drop_last() =~= lv.take(i as int));
        assert(lv.take(i + 1).last() == ls@[i as int]@);
        let f = split_on(ls[i].as_slice(), CharSet::One('|'));
        if f.len() == 2 {
            assert(views(f@)[0] == f@[0]@ && views(f@)[1] == f@[1]@);
            let pid_text = trim_ws(f[0].as_slice());
            match parse_unsigned_max(&pid_text, 0xffff_ffff) {
                Some(pid) => {
                    let name = string_of(&trim_ws(f[1].as_slice()));
                    let ghost before = r@;
                    r.push((pid as u32, name));
                    assert(row_views(r@) =~= row_views(before).push((pid as u32, name@)));
                },
                None => {},
            }
        }
        i = i + 1;
    }
    assert(lv.take(ls@.len() as int) =~= lv);
    r
}

/// The image is one of the configured server names (ASCII case ignored).
pub open spec fn is_server_image(image: Seq<char>, names: Seq<String>) -> bool {
    exists|k: int| 0 <= k < names.len() && eq_ignore_ascii_case(image, #[trigger] names[k]@)
}

/// The pids of server processes that may not stay: a configured image name
/// and not spared.
pub open spec fn strays(rows: Seq<(u32, Seq<char>)>, names: Seq<String>, spared: Seq<u32>) -> Seq<u32>
    decreases rows.len(),
{
    if rows.len() == 0 {
        Seq::empty()
    } else {
        let prev = strays(rows.drop_last(), names, spared);
        let row = rows.last();
        if is_server_image(row.1, names) && !spared.contains(row.0) {
            prev.push(row.0)
        } else {
            prev
        }
    }
}

fn is_server_name(image: &str, names: &[String]) -> (r: bool)
    ensures
        r == is_server_image(image@, names@),
{
    let img = chars_of(image);
    let mut k: usize = 0;
    while k < names.len()
        invariant
            k <= names.len(),
            img@ == image@,
            forall|j: int| 0 <= j < k ==> !eq_ignore_ascii_case(image@, #[trigger] names@[j]@),
        decreases names.len() - k,
    {
        if equals_ignore_ascii_case(&img, &chars_of(names[k].as_str())) {
            return true;
        }
        k = k + 1;
    }
    false
}

fn spares(spared: &[u32], pid: u32) -> (r: bool)
    ensures
        r == spared@.contains(pid),
{
    let mut k: usize = 0;
    while k < spared.len()
        invariant
            k <= spared.len(),
            forall|j: int| 0 <= j < k ==> spared@[j] != pid,
        decreases spared.len() - k,
    {
        if spared[k] == pid {
            assert(spared@[k as int] == pid);
            return true;
        }
        k = k + 1;
    }
    false
}

/// The server processes to terminate so that a single server remains:
/// every process whose image is a configured server name, except the
/// spared ones (the tree of the server that is kept).
pub fn stray_server_pids(processes: &[(u32, String)], names: &[String], spared: &[u32]) -> (r: Vec<u32>)
    ensures
        r@ == strays(row_views(processes@), names@, spared@),
{
    let ghost rv = row_views(processes@);
    let mut r: Vec<u32> = Vec::new();
    let mut i: usize = 0;
    while i < processes.len()
        invariant
            i <= processes.len(),
            rv == row_views(processes@),
            r@ == strays(rv.take(i as int), names@, spared@),
        decreases processes.len() - i,
    {
        assert(rv.take(i + 1).drop_last() =~= rv.take(i as int));
        assert(rv.take(i + 1).last() == (processes@[i as int].0, processes@[i as int].1@));
        let (pid, image) = (processes[i].0, processes[i].1.as_str());
        if is_server_name(image, names) && !spares(spared, pid) {
            r.push(pid);
        }
        i = i + 1;
    }
    assert(rv.take(processes.len() as int) =~= rv);
    r
}

/// A single server remains: every listed process with a configured server
/// image is terminated unless it is spared, a spared process never is, and
/// nothing but configured server images is.
pub proof fn law_spared_servers_survive(rows: Seq<(u32, Seq<char>)>, names: Seq<String>, spared: Seq<u32>)
    ensures
        forall|j: int|
            0 <= j < rows.len() && is_server_image(#[trigger] rows[j].1, names) && !spared.contains(
                rows[j].0,
            ) ==> strays(rows, names, spared).contains(rows[j].0),
        forall|k: int|
            0 <= k < strays(rows, names, spared).len() ==> !spared.contains(
                #[trigger] strays(rows, names, spared)[k],
            ),
        forall|k: int|
            0 <= k < strays(rows, names, spared).len() ==> exists|j: int|
                0 <= j < rows.len() && rows[j].0 == #[trigger] strays(rows, names, spared)[k]
                    && is_server_image(rows[j].1, names),
    decreases rows.len(),
{
    if rows.len() > 0 {
        let init = rows.drop_last();
        law_spared_servers_survive(init, names, spared);
        let prev = strays(init, names, spared);
        let cur = strays(rows, names, spared);
        assert forall|j: int|
            0 <= j < rows.len() && is_server_image(#[trigger] rows[j].1, names) && !spared.contains(
                rows[j].0,
            ) implies cur.contains(rows[j].0) by {
            if j < init.len() {
                assert(init[j] == rows[j]);
                assert(prev.contains(rows[j].0));
                let k = choose|k: int| 0 <= k < prev.len() && prev[k] == rows[j].0;
                assert(cur[k] == prev[k]);
            } else {
                assert(rows[j] == rows.last());
                assert(cur[prev.len() as int] == rows[j].0);
            }
        }
        assert forall|k: int| 0 <= k < cur.len() implies !spared.contains(#[trigger] cur[k]) by {
            if k < prev.len() {
                assert(cur[k] == prev[k]);
            }
        }
        assert forall|k: int| 0 <= k < cur.len() implies exists|j: int|
            0 <= j < rows.len() && rows[j].0 == #[trigger] cur[k] && is_server_image(rows[j].1, names) by {
            if k < prev.len() {
                assert(cur[k] == prev[k]);
                let j = choose|j: int| 0 <= j < init.len() && init[j].0 == prev[k] && is_server_image(init[j].1, names);
                assert(rows[j] == init[j]);
            } else {
                assert(rows[rows.len() - 1] == rows.last());
            }
        }
    }
}

// ---------------------------------------------------------------------------
// Probing the server's status
// ---------------------------------------------------------------------------

/// What a status probe does about the server on the port.
#[derive(Clone, Copy, Debug, PartialEq, Eq, Structural)]
pub enum ProbeStep {
    /// A managed run: report it, with the health the probe saw.
    Managed,
    /// A reachable server started elsewhere whose listener was not looked
    /// at yet: remember the listener, and when its process ancestry names a
    /// profile's script, relaunch that profile under management.
    Takeover(u32),
    /// A reachable server started elsewhere that is left alone: report its
    /// listener, when there is one.
    External(Option<u32>),
    /// Nothing answers: forget the listener looked at before.
    Down,
}

/// The step of a probe, and whether to ask the server for its usage and
/// its generation speed.
pub struct ProbeAction {
    pub step: ProbeStep,
    pub probe_usage: bool,
    pub probe_speed: bool,
}

pub open spec fn probe_step_of(
    running: bool,
    reachable: bool,
    listener: Option<u32>,
    checked: Option<u32>,
) -> ProbeStep {
    if running {
        ProbeStep::Managed
    } else if reachable {
        match listener {
            Some(pid) => if checked == Some(pid) {
                ProbeStep::External(Some(pid))
            } else {
                ProbeStep::Takeover(pid)
            },
            None => ProbeStep::External(None),
        }
    } else {
        ProbeStep::Down
    }
}

/// Decide a status probe from what it saw: a managed run, or a reachable
/// server started elsewhere (taken over once per listener), or nothing.
/// Usage and speed are asked of a healthy server only, usage not once the
/// server refused the key.
pub fn probe_step(
    running: bool,
    reachable: bool,
    healthy: bool,
    listener: Option<u32>,
    checked: Option<u32>,
    usage_probe_disabled: bool,
) -> (r: ProbeAction)
    ensures
        r.step == probe_step_of(running, reachable, listener, checked),
        r.probe_usage == (healthy && !usage_probe_disabled),
        r.probe_speed == healthy,
{
    let step = if running {
        ProbeStep::Managed
    } else if reachable {
        match listener {
            Some(pid) => {
                let seen = match checked {
                    Some(c) => c == pid,
                    None => false,
                };
                if seen {
                    ProbeStep::External(Some(pid))
                } else {
                    ProbeStep::Takeover(pid)
                }
            },
            None => ProbeStep::External(None),
        }
    } else {
        ProbeStep::Down
    };
    ProbeAction { step, probe_usage: healthy && !usage_probe_disabled, probe_speed: healthy }
}

/// Why a profile cannot be launched, checked in this order: it is unknown,
/// its script is gone, or its working directory is.
pub fn activation_error(
    profile_id: &str,
    profile: Option<&crate::script_scanner::Profile>,
    script_is_file: bool,
    directory_exists: bool,
) -> (r: Option<String>)
    ensures
        profile is None ==> r is Some && r->0@ == "Unknown profile id: "@ + profile_id@,
        profile is Some && !script_is_file ==> r is Some && r->0@ == "Script not found: "@
            + profile->0.script_path@,
        profile is Some && script_is_file && !directory_exists ==> r is Some && r->0@
            == "Working directory not found: "@ + profile->0.working_directory@,
        profile is Some && script_is_file && directory_exists ==> r is None,
{
    let (prefix, detail) = match profile {
        None => (chars_of("Unknown profile id: "), chars_of(profile_id)),
        Some(p) => if !script_is_file {
            (chars_of("Script not found: "), chars_of(p.script_path.as_str()))
        } else if !directory_exists {
            (chars_of("Working directory not found: "), chars_of(p.working_directory.as_str()))
        } else {
            return None;
        },
    };
    let mut t = prefix;
    let mut d = detail;
    t.append(&mut d);
    Some(string_of(&t))
}

// ---------------------------------------------------------------------------
// Starting or switching
// ---------------------------------------------------------------------------

/// One step of starting or switching to a profile.
#[derive(Clone, Copy, Debug, PartialEq, Eq, Structural)]
pub enum ActivationStep {
    /// Stop the managed run (its whole tree) first.
    StopRunning,
    /// Take the server port from whatever else listens on it.
    ClearPort,
    /// Terminate every other configured server binary.
    SweepStrays,
    /// Launch the profile's script and start watching its health.
    Launch,
}

pub open spec fn activation_steps_of(running: bool, port_free: bool) -> Seq<ActivationStep> {
    (if running {
        seq![ActivationStep::StopRunning]
    } else {
        Seq::empty()
    }) + (if port_free {
        Seq::empty()
    } else {
        seq![ActivationStep::ClearPort]
    }) + seq![ActivationStep::SweepStrays, ActivationStep::Launch]
}

/// The steps of a start or switch, in order: the managed run is stopped,
/// the port is taken from any other listener (one started elsewhere too),
/// stray servers are terminated, and only then is the profile launched, so
/// that a single server remains. `port_free` is what was seen before the
/// stop; clearing a port that the stop already freed ends at once.
pub fn activation_steps(running: bool, port_free: bool) -> (r: Vec<ActivationStep>)
    ensures
        r@ == activation_steps_of(running, port_free),
{
    let mut r: Vec<ActivationStep> = Vec::new();
    if running {
        r.push(ActivationStep::StopRunning);
    }
    if !port_free {
        r.push(ActivationStep::ClearPort);
    }
    r.push(ActivationStep::SweepStrays);
    r.push(ActivationStep::Launch);
    assert(r@ =~= activation_steps_of(running, port_free));
    r
}

} // verus!
