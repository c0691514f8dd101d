//! What the system tray shows and what its menu items do. Drawing the icon
//! and building the native menu is left to the caller.
use crate::script_scanner::{Profile, ProfileView};
use crate::state::UsageState;
use crate::text::{chars_of, copy_range, has_prefix, starts_with, str_eq, string_of};
use vstd::prelude::*;

verus! {

/// The part of the server status that the tray shows.
pub struct TrayStatus {
    pub running: bool,
    pub healthy: bool,
    pub server_reachable: bool,
    pub usage_state: UsageState,
    pub alias: Option<String>,
    pub current_profile_name: Option<String>,
}

pub open spec fn usage_label_of(s: TrayStatus) -> Seq<char> {
    if !s.server_reachable {
        "Down"@
    } else {
        match s.usage_state {
            UsageState::Busy => "In use"@,
            UsageState::Free => "Free"@,
            UsageState::Unknown => if s.running && !s.healthy {
                "Starting"@
            } else {
                "Healthy"@
            },
        }
    }
}

/// One word for what the server is doing.
pub fn usage_label(status: &TrayStatus) -> (r: &'static str)
    ensures
        r@ == usage_label_of(*status),
{
    if !status.server_reachable {
        "Down"
    } else {
        match status.usage_state {
            UsageState::Busy => "In use",
            UsageState::Free => "Free",
            UsageState::Unknown => {
                if status.running && !status.healthy {
                    "Starting"
                } else {
                    "Healthy"
                }
            },
        }
    }
}

pub open spec fn opt_text(o: Option<String>) -> Option<Seq<char>> {
    match o {
        Some(s) => Some(s@),
        None => None,
    }
}

/// The tooltip: the alias (or else the profile name, or else the app name),
/// a dash and the usage label.
pub open spec fn tooltip_of(s: TrayStatus) -> Seq<char> {
    let name = match opt_text(s.alias) {
        Some(a) => a,
        None => match opt_text(s.current_profile_name) {
            Some(n) => n,
            None => "Llama Switcher"@,
        },
    };
    name + " - "@ + usage_label_of(s)
}

pub fn tray_tooltip(status: &TrayStatus) -> (r: String)
    ensures
        r@ == tooltip_of(*status),
{
    let mut out = match &status.alias {
        Some(a) => chars_of(a.as_str()),
        None => match &status.current_profile_name {
            Some(n) => chars_of(n.as_str()),
            None => chars_of("Llama Switcher"),
        },
    };
    let mut dash = chars_of(" - ");
    out.append(&mut dash);
    let mut label = chars_of(usage_label(status));
    out.append(&mut label);
    string_of(&out)
}

/// The icon colour: red when the server is down, amber while it is busy or
/// starting, green otherwise.
pub open spec fn icon_color_of(s: TrayStatus) -> (u8, u8, u8) {
    if !s.server_reachable {
        (240, 106, 106)
    } else if s.usage_state == UsageState::Busy || (s.running && !s.healthy) {
        (242, 194, 97)
    } else {
        (76, 214, 140)
    }
}

pub fn icon_color(status: &TrayStatus) -> (r: (u8, u8, u8))
    ensures
        r == icon_color_of(*status),
{
    if !status.server_reachable {
        (240, 106, 106)
    } else if status.usage_state == UsageState::Busy || (status.running && !status.healthy) {
        (242, 194, 97)
    } else {
        (76, 214, 140)
    }
}

/// The status line of the menu.
pub open spec fn status_text_of(s: TrayStatus) -> Seq<char> {
    if s.running {
        "Status: "@ + match opt_text(s.alias) {
            Some(a) => a,
            None => "Running"@,
        } + " ("@ + usage_label_of(s) + ")"@
    } else if s.server_reachable {
        "Status: External server ("@ + usage_label_of(s) + ")"@
    } else {
        "Status: Down"@
    }
}

pub fn status_text(status: &TrayStatus) -> (r: String)
    ensures
        r@ == status_text_of(*status),
{
    let label = chars_of(usage_label(status));
    if status.running {
        let mut out = chars_of("Status: ");
        let mut name = match &status.alias {
            Some(a) => chars_of(a.as_str()),
            None => chars_of("Running"),
        };
        out.append(&mut name);
        let mut open = chars_of(" (");
        out.append(&mut open);
        let mut l = label;
        out.append(&mut l);
        out.push(')');
        proof {
            reveal_strlit(")");
        }
        string_of(&out)
    } else if status.server_reachable {
        let mut out = chars_of("Status: External server (");
        let mut l = label;
        out.append(&mut l);
        out.push(')');
        proof {
            reveal_strlit(")");
        }
        string_of(&out)
    } else {
        String::from_str("Status: Down")
    }
}

/// The distinct pretty models, in order of first appearance.
pub open spec fn models_of(ps: Seq<ProfileView>) -> Seq<Seq<char>>
    decreases ps.len(),
{
    if ps.len() == 0 {
        Seq::empty()
    } else {
        let prev = models_of(ps.drop_last());
        if prev.contains(ps.last().pretty_model) {
            prev
        } else {
            prev.push(ps.last().pretty_model)
        }
    }
}

/// `(id, pretty feature)` of the profiles of one model, in order.
pub open spec fn entries_of(ps: Seq<ProfileView>, model: Seq<char>) -> Seq<(Seq<char>, Seq<char>)>
    decreases ps.len(),
{
    if ps.len() == 0 {
        Seq::empty()
    } else {
        let prev = entries_of(ps.drop_last(), model);
        if ps.last().pretty_model == model {
            prev.push((ps.last().id, ps.last().pretty_feature))
        } else {
            prev
        }
    }
}

pub open spec fn entry_views(v: Seq<(String, String)>) -> Seq<(Seq<char>, Seq<char>)> {
    v.map_values(|e: (String, String)| (e.0@, e.1@))
}

pub open spec fn group_views(g: Seq<(String, Vec<(String, String)>)>) -> Seq<(Seq<char>, Seq<(Seq<char>, Seq<char>)>)> {
    g.map_values(|x: (String, Vec<(String, String)>)| (x.0@, entry_views(x.1@)))
}

pub open spec fn menu_groups_of(ps: Seq<ProfileView>) -> Seq<(Seq<char>, Seq<(Seq<char>, Seq<char>)>)> {
    models_of(ps).map_values(|m: Seq<char>| (m, entries_of(ps, m)))
}

pub open spec fn profile_views(ps: Seq<Profile>) -> Seq<ProfileView> {
    ps.map_values(|p: Profile| p@)
}

fn contains_text(v: &Vec<String>, x: &str) -> (r: bool)
    ensures
        r == v@.map_values(|s: String| s@).contains(x@),
{
    let ghost vv = v@.map_values(|s: String| s@);
    let mut i: usize = 0;
    while i < v.len()
        invariant
            i <= v@.len(),
            vv == v@.map_values(|s: String| s@),
            forall|j: int| 0 <= j < i ==> vv[j] != x@,
        decreases v@.len() - i,
    {
        if str_eq(v[i].as_str(), x) {
            assert(vv[i as int] == x@);
            return true;
        }
        i = i + 1;
    }
    false
}

fn model_entries(profiles: &[Profile], model: &str) -> (r: Vec<(String, String)>)
    ensures
        entry_views(r@) == entries_of(profile_views(profiles@), model@),
{
    let ghost pv = profile_views(profiles@);
    let mut r: Vec<(String, String)> = Vec::new();
    let mut i: usize = 0;
    while i < profiles.len()
        invariant
            i <= profiles@.len(),
            pv == profile_views(profiles@),
            entry_views(r@) == entries_of(pv.take(i as int), model@),
        decreases profiles@.len() - i,
    {
        assert(pv.take(i + 1).drop_last() =~= pv.take(i as int));
        assert(pv.take(i + 1).last() == profiles@[i as int]@);
        if str_eq(profiles[i].pretty_model.as_str(), model) {
            let e = (profiles[i].id.clone(), profiles[i].pretty_feature.clone());
            let ghost before = r@;
            r.push(e);
            assert(entry_views(r@) =~= entry_views(before).push((e.0@, e.1@)));
        }
        i = i + 1;
    }
    assert(pv.take(profiles@.len() as int) =~= pv);
    r
}

/// The "Start / Switch Profile" submenu: one entry per model, in order of
/// first appearance, each listing `(profile id, pretty feature)` of the
/// profiles of that model, in order.
pub fn menu_groups(profiles: &[Profile]) -> (r: Vec<(String, Vec<(String, String)>)>)
    ensures
        group_views(r@) == menu_groups_of(profile_views(profiles@)),
{
    let ghost pv = profile_views(profiles@);
    let mut models: Vec<String> = Vec::new();
    let mut i: usize = 0;
    while i < profiles.len()
        invariant
            i <= profiles@.len(),
            pv == profile_views(profiles@),
            models@.map_values(|s: String| s@) == models_of(pv.take(i as int)),
        decreases profiles@.len() - i,
    {
        assert(pv.take(i + 1).drop_last() =~= pv.take(i as int));
        assert(pv.take(i + 1).last() == profiles@[i as int]@);
        if !contains_text(&models, profiles[i].pretty_model.as_str()) {
            let m = profiles[i].pretty_model.clone();
            let ghost before = models@;
            models.push(m);
            assert(models@.map_values(|s: String| s@) =~= before.map_values(|s: String| s@).push(m@));
        }
        i = i + 1;
    }
    assert(pv.take(profiles@.len() as int) =~= pv);
    let ghost mv = models_of(pv);
    let mut r: Vec<(String, Vec<(String, String)>)> = Vec::new();
    let mut k: usize = 0;
    while k < models.len()
        invariant
            k <= models@.len(),
            pv == profile_views(profiles@),
            mv == models_of(pv),
            models@.map_values(|s: String| s@) == mv,
            group_views(r@) == menu_groups_of(pv).take(k as int),
        decreases models@.len() - k,
    {
        let m = models[k].clone();
        let es = model_entries(profiles, m.as_str());
        let ghost before = r@;
        let ghost mg = m@;
        let ghost eg = entry_views(es@);
        assert(mv[k as int] == mg);
        assert(menu_groups_of(pv)[k as int] == (mg, eg));
        r.push((m, es));
        assert(group_views(r@) =~= group_views(before).push((mg, eg)));
        k = k + 1;
        assert(group_views(r@) =~= menu_groups_of(pv).take(k as int));
    }
    assert(menu_groups_of(pv).take(models@.len() as int) =~= menu_groups_of(pv));
    r
}

/// What a tray menu item does.
pub enum MenuAction {
    Activate(String),
    OpenDashboard,
    OpenSettings,
    Restart,
    Stop,
    Rescan,
    OpenScriptsFolder,
    OpenLogsFolder,
    Quit,
    Nothing,
}

pub open spec fn profile_item_prefix() -> Seq<char> {
    "profile::"@
}

/// The action of the menu item with the given id; `profile::<id>` starts or
/// switches to that profile.
pub open spec fn menu_action_of(id: Seq<char>) -> (int, Seq<char>) {
    if starts_with(id, profile_item_prefix()) {
        (0, id.skip(9))
    } else if id == "open_dashboard"@ {
        (1, Seq::empty())
    } else if id == "settings"@ {
        (2, Seq::empty())
    } else if id == "restart"@ {
        (3, Seq::empty())
    } else if id == "stop"@ {
        (4, Seq::empty())
    } else if id == "rescan"@ {
        (5, Seq::empty())
    } else if id == "open_scripts"@ {
        (6, Seq::empty())
    } else if id == "open_logs"@ {
        (7, Seq::empty())
    } else if id == "quit"@ {
        (8, Seq::empty())
    } else {
        (9, Seq::empty())
    }
}

pub open spec fn action_code(a: MenuAction) -> (int, Seq<char>) {
    match a {
        MenuAction::Activate(p) => (0, p@),
        MenuAction::OpenDashboard => (1, Seq::empty()),
        MenuAction::OpenSettings => (2, Seq::empty()),
        MenuAction::Restart => (3, Seq::empty()),
        MenuAction::Stop => (4, Seq::empty()),
        MenuAction::Rescan => (5, Seq::empty()),
        MenuAction::OpenScriptsFolder => (6, Seq::empty()),
        MenuAction::OpenLogsFolder => (7, Seq::empty()),
        MenuAction::Quit => (8, Seq::empty()),
        MenuAction::Nothing => (9, Seq::empty()),
    }
}

pub fn menu_action(id: &str) -> (r: MenuAction)
    ensures
        action_code(r) == menu_action_of(id@),
{
    let c = chars_of(id);
    let prefix = chars_of("profile::");
    proof {
        reveal_strlit("profile::");
    }
    if has_prefix(&c, &prefix) {
        let rest = copy_range(&c, 9, c.len());
        assert(rest@ =~= id@.skip(9));
        return MenuAction::Activate(string_of(&rest));
    }
    if str_eq(id, "open_dashboard") {
        MenuAction::OpenDashboard
    } else if str_eq(id, "settings") {
        MenuAction::OpenSettings
    } else if str_eq(id, "restart") {
        MenuAction::Restart
    } else if str_eq(id, "stop") {
        MenuAction::Stop
    } else if str_eq(id, "rescan") {
        MenuAction::Rescan
    } else if str_eq(id, "open_scripts") {
        MenuAction::OpenScriptsFolder
    } else if str_eq(id, "open_logs") {
        MenuAction::OpenLogsFolder
    } else if str_eq(id, "quit") {
        MenuAction::Quit
    } else {
        MenuAction::Nothing
    }
}

} // verus!
