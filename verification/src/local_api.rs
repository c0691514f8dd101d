//! Routing of the local HTTP control API used by agents. Every endpoint but
//! `/health` needs `Authorization: Bearer <token>`. Serving HTTP and running
//! the chosen action is left to the caller.
use crate::process_manager::{entry_index, Json};
use crate::security::path_of;
use crate::text::{chars_of, eq_ignore_ascii_case, equals_ignore_ascii_case, same_chars, str_eq};
use vstd::prelude::*;

verus! {

/// What a request to the control API asks for.
#[derive(Clone, Copy, Debug, PartialEq, Eq, Structural)]
pub enum ApiRoute {
    /// `GET /health`, answered without a token.
    Health,
    /// The bearer token is missing or wrong (401).
    Unauthorized,
    /// A server control while a benchmark owns the server (409).
    BenchmarkBusy,
    Status,
    Profiles,
    Rescan,
    /// `POST /start` or `POST /switch` with a `profileId`.
    Activate,
    SwitchByName,
    SwitchByAlias,
    Restart,
    Stop,
    OpenDashboard,
    /// Anything else (404).
    NotFound,
}

/// Paths that control the server and are refused while a benchmark runs.
pub open spec fn mutating_path(path: Seq<char>) -> bool {
    path == "/start"@ || path == "/switch"@ || path == "/switch-by-name"@ || path == "/switch-by-alias"@
        || path == "/restart"@ || path == "/stop"@
}

pub open spec fn route_of(method: Seq<char>, url: Seq<char>, authorized: bool, benchmark_running: bool) -> ApiRoute {
    let path = path_of(url);
    let get = method == "GET"@;
    let post = method == "POST"@;
    if get && path == "/health"@ {
        ApiRoute::Health
    } else if !authorized {
        ApiRoute::Unauthorized
    } else if mutating_path(path) && benchmark_running {
        ApiRoute::BenchmarkBusy
    } else if get && path == "/status"@ {
        ApiRoute::Status
    } else if get && path == "/profiles"@ {
        ApiRoute::Profiles
    } else if post && path == "/rescan"@ {
        ApiRoute::Rescan
    } else if post && (path == "/start"@ || path == "/switch"@) {
        ApiRoute::Activate
    } else if post && path == "/switch-by-name"@ {
        ApiRoute::SwitchByName
    } else if post && path == "/switch-by-alias"@ {
        ApiRoute::SwitchByAlias
    } else if post && path == "/restart"@ {
        ApiRoute::Restart
    } else if post && path == "/stop"@ {
        ApiRoute::Stop
    } else if post && path == "/open-dashboard"@ {
        ApiRoute::OpenDashboard
    } else {
        ApiRoute::NotFound
    }
}

/// The route of a request: its method (`GET`, `POST`, ...), its URL, whether
/// it carries the right token and whether a benchmark is running.
pub fn route(method: &str, url: &str, authorized: bool, benchmark_running: bool) -> (r: ApiRoute)
    ensures
        r == route_of(method@, url@, authorized, benchmark_running),
{
    let path_text = crate::security::request_path(url);
    let path = path_text.as_str();
    let get = str_eq(method, "GET");
    let post = str_eq(method, "POST");
    if get && str_eq(path, "/health") {
        return ApiRoute::Health;
    }
    if !authorized {
        return ApiRoute::Unauthorized;
    }
    let mutating = str_eq(path, "/start") || str_eq(path, "/switch") || str_eq(path, "/switch-by-name")
        || str_eq(path, "/switch-by-alias") || str_eq(path, "/restart") || str_eq(path, "/stop");
    if mutating && benchmark_running {
        return ApiRoute::BenchmarkBusy;
    }
    if get && str_eq(path, "/status") {
        ApiRoute::Status
    } else if get && str_eq(path, "/profiles") {
        ApiRoute::Profiles
    } else if post && str_eq(path, "/rescan") {
        ApiRoute::Rescan
    } else if post && (str_eq(path, "/start") || str_eq(path, "/switch")) {
        ApiRoute::Activate
    } else if post && str_eq(path, "/switch-by-name") {
        ApiRoute::SwitchByName
    } else if post && str_eq(path, "/switch-by-alias") {
        ApiRoute::SwitchByAlias
    } else if post && str_eq(path, "/restart") {
        ApiRoute::Restart
    } else if post && str_eq(path, "/stop") {
        ApiRoute::Stop
    } else if post && str_eq(path, "/open-dashboard") {
        ApiRoute::OpenDashboard
    } else {
        ApiRoute::NotFound
    }
}

/// Some header is named `Authorization` (ASCII case ignored) and holds
/// exactly `Bearer <token>`.
pub open spec fn has_bearer(headers: Seq<(Seq<char>, Seq<char>)>, token: Seq<char>) -> bool {
    exists|i: int|
        0 <= i < headers.len() && eq_ignore_ascii_case(#[trigger] headers[i].0, "Authorization"@)
            && headers[i].1 == "Bearer "@ + token
}

pub fn authorized(headers: &[(String, String)], token: &str) -> (r: bool)
    ensures
        r == has_bearer(crate::security::header_views(headers@), token@),
{
    let ghost hv = crate::security::header_views(headers@);
    let mut expected = chars_of("Bearer ");
    let mut t = chars_of(token);
    expected.append(&mut t);
    let name = chars_of("Authorization");
    let mut i: usize = 0;
    while i < headers.len()
        invariant
            i <= headers@.len(),
            hv == crate::security::header_views(headers@),
            expected@ == "Bearer "@ + token@,
            name@ == "Authorization"@,
            forall|j: int|
                0 <= j < i ==> !(eq_ignore_ascii_case(#[trigger] hv[j].0, "Authorization"@) && hv[j].1
                    == "Bearer "@ + token@),
        decreases headers@.len() - i,
    {
        assert(hv[i as int] == (headers@[i as int].0@, headers@[i as int].1@));
        if equals_ignore_ascii_case(&chars_of(headers[i].0.as_str()), &name) && same_chars(
            &chars_of(headers[i].1.as_str()),
            &expected,
        ) {
            assert(eq_ignore_ascii_case(hv[i as int].0, "Authorization"@) && hv[i as int].1 == "Bearer "@
                + token@);
            return true;
        }
        i = i + 1;
    }
    false
}

/// The text value of the member `key` of a JSON object body.
pub open spec fn text_member(body: Json, key: Seq<char>) -> Option<Seq<char>> {
    match body {
        Json::Object(entries) => {
            let k = entry_index(entries@, key);
            if 0 <= k < entries@.len() {
                match entries@[k].1 {
                    Json::Text(t) => Some(t@),
                    _ => None,
                }
            } else {
                None
            }
        },
        _ => None,
    }
}

pub fn text_field(body: &Json, key: &str) -> (r: Option<String>)
    ensures
        match r {
            Some(v) => text_member(*body, key@) == Some(v@),
            None => text_member(*body, key@) is None,
        },
{
    match body {
        Json::Object(entries) => {
            let mut i: usize = 0;
            while i < entries.len()
                invariant
                    i <= entries@.len(),
                    *body == Json::Object(*entries),
                    forall|j: int| 0 <= j < i ==> entries@[j].0@ != key@,
                decreases entries@.len() - i,
            {
                if str_eq(entries[i].0.as_str(), key) {
                    proof {
                        crate::process_manager::lemma_entry_index(entries@, key@);
                        lemma_first_named(entries@, key@, i as int);
                    }
                    return match &entries[i].1 {
                        Json::Text(t) => Some(t.clone()),
                        _ => None,
                    };
                }
                i = i + 1;
            }
            proof {
                crate::process_manager::lemma_entry_index(entries@, key@);
                if entry_index(entries@, key@) >= 0 {
                    assert(entries@[entry_index(entries@, key@)].0@ == key@);
                }
            }
            None
        },
        _ => None,
    }
}

proof fn lemma_first_named(entries: Seq<(String, Json)>, key: Seq<char>, i: int)
    requires
        0 <= i < entries.len(),
        entries[i].0@ == key,
        forall|j: int| 0 <= j < i ==> entries[j].0@ != key,
    ensures
        entry_index(entries, key) == i,
    decreases i,
{
    if i > 0 {
        let t = entries.drop_first();
        assert forall|j: int| 0 <= j < i - 1 implies t[j].0@ != key by {
            assert(t[j] == entries[j + 1]);
        }
        lemma_first_named(t, key, i - 1);
    }
}

/// The profile a control request names.
pub enum SwitchTarget {
    ProfileId(String),
    ModelFeature(String, String),
    Alias(String),
}

/// What a start, switch-by-name or switch-by-alias request names, read from
/// its JSON body, or the message of the 400 answer when a field is missing.
pub open spec fn target_of(route: ApiRoute, body: Json) -> Option<Result<(Seq<char>, Seq<char>), Seq<char>>> {
    match route {
        ApiRoute::Activate => Some(
            match text_member(body, "profileId"@) {
                Some(id) => Ok((id, Seq::empty())),
                None => Err("Missing 'profileId'"@),
            },
        ),
        ApiRoute::SwitchByName => Some(
            match (text_member(body, "model"@), text_member(body, "feature"@)) {
                (Some(m), Some(f)) => Ok((m, f)),
                _ => Err("Missing 'model' or 'feature'"@),
            },
        ),
        ApiRoute::SwitchByAlias => Some(
            match text_member(body, "alias"@) {
                Some(a) => Ok((a, Seq::empty())),
                None => Err("Missing 'alias'"@),
            },
        ),
        _ => None,
    }
}

pub open spec fn target_view(t: SwitchTarget) -> (Seq<char>, Seq<char>) {
    match t {
        SwitchTarget::ProfileId(id) => (id@, Seq::empty()),
        SwitchTarget::ModelFeature(m, f) => (m@, f@),
        SwitchTarget::Alias(a) => (a@, Seq::empty()),
    }
}

/// The target of a switching route, read from the request body.
pub fn switch_target(route: ApiRoute, body: &Json) -> (r: Option<Result<SwitchTarget, String>>)
    ensures
        match r {
            Some(Ok(t)) => target_of(route, *body) == Some(Ok::<(Seq<char>, Seq<char>), Seq<char>>(target_view(t)))
                && (route == ApiRoute::Activate ==> t is ProfileId) && (route == ApiRoute::SwitchByName
                ==> t is ModelFeature) && (route == ApiRoute::SwitchByAlias ==> t is Alias),
            Some(Err(e)) => target_of(route, *body) == Some(Err::<(Seq<char>, Seq<char>), Seq<char>>(e@)),
            None => target_of(route, *body) is None,
        },
{
    match route {
        ApiRoute::Activate => Some(
            match text_field(body, "profileId") {
                Some(id) => Ok(SwitchTarget::ProfileId(id)),
                None => Err(String::from_str("Missing 'profileId'")),
            },
        ),
        ApiRoute::SwitchByName => {
            let m = text_field(body, "model");
            let f = text_field(body, "feature");
            Some(
                match (m, f) {
                    (Some(m), Some(f)) => Ok(SwitchTarget::ModelFeature(m, f)),
                    _ => Err(String::from_str("Missing 'model' or 'feature'")),
                },
            )
        },
        ApiRoute::SwitchByAlias => Some(
            match text_field(body, "alias") {
                Some(a) => Ok(SwitchTarget::Alias(a)),
                None => Err(String::from_str("Missing 'alias'")),
            },
        ),
        _ => None,
    }
}

/// Without the token, a request reaches nothing but `GET /health`.
pub proof fn law_token_required(method: Seq<char>, url: Seq<char>, benchmark_running: bool)
    ensures
        route_of(method, url, false, benchmark_running) == ApiRoute::Health || route_of(
            method,
            url,
            false,
            benchmark_running,
        ) == ApiRoute::Unauthorized,
        route_of(method, url, false, benchmark_running) == ApiRoute::Health ==> method == "GET"@
            && path_of(url) == "/health"@,
{
}

/// While a benchmark runs, no request starts, switches, restarts or stops
/// the server.
pub proof fn law_benchmark_blocks_server_control(method: Seq<char>, url: Seq<char>, authorized: bool)
    ensures
        ({
            let r = route_of(method, url, authorized, true);
            r != ApiRoute::Activate && r != ApiRoute::SwitchByName && r != ApiRoute::SwitchByAlias && r
                != ApiRoute::Restart && r != ApiRoute::Stop
        }),
{
}

/// Each server action is reached by exactly one method and path: an
/// authorized request, while no benchmark runs, goes to the action its
/// method and path name, and no other request reaches that action. In
/// particular only `POST /restart` restarts and only `POST /stop` stops.
pub proof fn law_actions_by_method_and_path(method: Seq<char>, url: Seq<char>, authorized: bool, busy: bool)
    ensures
        ({
            let r = route_of(method, url, authorized, busy);
            let p = path_of(url);
            let post = method == "POST"@;
            let get = method == "GET"@;
            let free = authorized && !busy;
            &&& r == ApiRoute::Health <==> get && p == "/health"@
            &&& r == ApiRoute::Restart <==> post && p == "/restart"@ && free
            &&& r == ApiRoute::Stop <==> post && p == "/stop"@ && free
            &&& r == ApiRoute::Activate <==> post && (p == "/start"@ || p == "/switch"@) && free
            &&& r == ApiRoute::SwitchByName <==> post && p == "/switch-by-name"@ && free
            &&& r == ApiRoute::SwitchByAlias <==> post && p == "/switch-by-alias"@ && free
            &&& r == ApiRoute::Rescan <==> post && p == "/rescan"@ && authorized
            &&& r == ApiRoute::OpenDashboard <==> post && p == "/open-dashboard"@ && authorized
            &&& r == ApiRoute::Status <==> get && p == "/status"@ && authorized
            &&& r == ApiRoute::Profiles <==> get && p == "/profiles"@ && authorized
            &&& r == ApiRoute::Unauthorized <==> !authorized && !(get && p == "/health"@)
            &&& r == ApiRoute::BenchmarkBusy <==> authorized && busy && mutating_path(p)
        }),
{
    reveal_strlit("GET");
    reveal_strlit("POST");
    reveal_strlit("/health");
    reveal_strlit("/status");
    reveal_strlit("/profiles");
    reveal_strlit("/rescan");
    reveal_strlit("/start");
    reveal_strlit("/switch");
    reveal_strlit("/switch-by-name");
    reveal_strlit("/switch-by-alias");
    reveal_strlit("/restart");
    reveal_strlit("/stop");
    reveal_strlit("/open-dashboard");
    // Each pair of texts differs at the index shown (or in length).
    assert("/health"@[1] != "/status"@[1]);
    assert("/health"@[1] != "/profiles"@[1]);
    assert("/health"@[1] != "/rescan"@[1]);
    assert("/health"@[1] != "/start"@[1]);
    assert("/health"@[1] != "/switch"@[1]);
    assert("/health"@[1] != "/switch-by-name"@[1]);
    assert("/health"@[1] != "/switch-by-alias"@[1]);
    assert("/health"@[1] != "/restart"@[1]);
    assert("/health"@[1] != "/stop"@[1]);
    assert("/health"@[1] != "/open-dashboard"@[1]);
    assert("/status"@[1] != "/profiles"@[1]);
    assert("/status"@[1] != "/rescan"@[1]);
    assert("/status"@[4] != "/start"@[4]);
    assert("/status"@[2] != "/switch"@[2]);
    assert("/status"@[2] != "/switch-by-name"@[2]);
    assert("/status"@[2] != "/switch-by-alias"@[2]);
    assert("/status"@[1] != "/restart"@[1]);
    assert("/status"@[3] != "/stop"@[3]);
    assert("/status"@[1] != "/open-dashboard"@[1]);
    assert("/profiles"@[1] != "/rescan"@[1]);
    assert("/profiles"@[1] != "/start"@[1]);
    assert("/profiles"@[1] != "/switch"@[1]);
    assert("/profiles"@[1] != "/switch-by-name"@[1]);
    assert("/profiles"@[1] != "/switch-by-alias"@[1]);
    assert("/profiles"@[1] != "/restart"@[1]);
    assert("/profiles"@[1] != "/stop"@[1]);
    assert("/profiles"@[1] != "/open-dashboard"@[1]);
    assert("/rescan"@[1] != "/start"@[1]);
    assert("/rescan"@[1] != "/switch"@[1]);
    assert("/rescan"@[1] != "/switch-by-name"@[1]);
    assert("/rescan"@[1] != "/switch-by-alias"@[1]);
    assert("/rescan"@[4] != "/restart"@[4]);
    assert("/rescan"@[1] != "/stop"@[1]);
    assert("/rescan"@[1] != "/open-dashboard"@[1]);
    assert("/start"@[2] != "/switch"@[2]);
    assert("/start"@[2] != "/switch-by-name"@[2]);
    assert("/start"@[2] != "/switch-by-alias"@[2]);
    assert("/start"@[1] != "/restart"@[1]);
    assert("/start"@[3] != "/stop"@[3]);
    assert("/start"@[1] != "/open-dashboard"@[1]);
    assert("/switch"@.len() != "/switch-by-name"@.len());
    assert("/switch"@.len() != "/switch-by-alias"@.len());
    assert("/switch"@[1] != "/restart"@[1]);
    assert("/switch"@[2] != "/stop"@[2]);
    assert("/switch"@[1] != "/open-dashboard"@[1]);
    assert("/switch-by-name"@[11] != "/switch-by-alias"@[11]);
    assert("/switch-by-name"@[1] != "/restart"@[1]);
    assert("/switch-by-name"@[2] != "/stop"@[2]);
    assert("/switch-by-name"@[1] != "/open-dashboard"@[1]);
    assert("/switch-by-alias"@[1] != "/restart"@[1]);
    assert("/switch-by-alias"@[2] != "/stop"@[2]);
    assert("/switch-by-alias"@[1] != "/open-dashboard"@[1]);
    assert("/restart"@[1] != "/stop"@[1]);
    assert("/restart"@[1] != "/open-dashboard"@[1]);
    assert("/stop"@[1] != "/open-dashboard"@[1]);
    assert("GET"@[0] != "POST"@[0]);
}

// ---------------------------------------------------------------------------
// Answers
// ---------------------------------------------------------------------------

/// How an agent request ends.
#[derive(Clone, Copy, Debug, PartialEq, Eq, Structural)]
pub enum ApiOutcome {
    /// Answered with its result.
    Done,
    /// No valid bearer token.
    Unauthorized,
    /// A server control while a benchmark owns the server.
    BenchmarkBusy,
    /// An unknown method or path.
    NotFound,
    /// The body lacks a field the request needs.
    BadRequest,
    /// A model and feature, or an alias, that names no single profile.
    Unresolved,
    /// Starting, stopping or restarting the server failed.
    ActionFailed,
}

/// The HTTP status an outcome is answered with.
pub fn status_code(outcome: ApiOutcome) -> (r: u16)
    ensures
        r == match outcome {
            ApiOutcome::Done => 200u16,
            ApiOutcome::Unauthorized => 401u16,
            ApiOutcome::BenchmarkBusy => 409u16,
            ApiOutcome::NotFound => 404u16,
            ApiOutcome::BadRequest => 400u16,
            ApiOutcome::Unresolved => 409u16,
            ApiOutcome::ActionFailed => 400u16,
        },
{
    match outcome {
        ApiOutcome::Done => 200,
        ApiOutcome::Unauthorized => 401,
        ApiOutcome::BenchmarkBusy => 409,
        ApiOutcome::NotFound => 404,
        ApiOutcome::BadRequest => 400,
        ApiOutcome::Unresolved => 409,
        ApiOutcome::ActionFailed => 400,
    }
}

/// Routes answered without doing anything, with their message.
pub open spec fn refusal_of(route: ApiRoute) -> Option<(ApiOutcome, Seq<char>)> {
    match route {
        ApiRoute::Unauthorized => Some((ApiOutcome::Unauthorized, "Unauthorized"@)),
        ApiRoute::BenchmarkBusy => Some(
            (
                ApiOutcome::BenchmarkBusy,
                "A benchmark is running; server controls are disabled until it finishes."@,
            ),
        ),
        ApiRoute::NotFound => Some((ApiOutcome::NotFound, "Not found"@)),
        _ => None,
    }
}

/// Routes answered without doing anything: the refusal and its message.
pub fn refusal(route: ApiRoute) -> (r: Option<(ApiOutcome, &'static str)>)
    ensures
        match r {
            Some((o, m)) => refusal_of(route) == Some((o, m@)),
            None => refusal_of(route) is None,
        },
{
    match route {
        ApiRoute::Unauthorized => Some((ApiOutcome::Unauthorized, "Unauthorized")),
        ApiRoute::BenchmarkBusy => Some(
            (
                ApiOutcome::BenchmarkBusy,
                "A benchmark is running; server controls are disabled until it finishes.",
            ),
        ),
        ApiRoute::NotFound => Some((ApiOutcome::NotFound, "Not found")),
        _ => None,
    }
}

} // verus!
