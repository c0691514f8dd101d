//! The decisions of the HTTP security gateway in front of llama-server:
//! which requests pass, which are refused and with what answer, and when
//! repeated failures earn a ban. Sockets, address parsing and forwarding are
//! left to the caller.
use crate::text::{
    chars_of, copy_range, eq_ignore_ascii_case, equals_ignore_ascii_case, find,
    find_in, same_chars, str_eq, string_of, trim, trim_with, CharSet,
};
use vstd::prelude::*;

verus! {

/// A banned client address.
pub struct BanEntry {
    pub ip: String,
    pub reason: String,
    pub failure_count: u32,
    pub created_at: String,
    pub expires_at: Option<String>,
    pub automatic: bool,
}

impl Clone for BanEntry {
    fn clone(&self) -> (r: Self)
        ensures
            r == *self,
    {
        BanEntry {
            ip: self.ip.clone(),
            reason: self.reason.clone(),
            failure_count: self.failure_count,
            created_at: self.created_at.clone(),
            expires_at: match &self.expires_at {
                Some(e) => Some(e.clone()),
                None => None,
            },
            automatic: self.automatic,
        }
    }
}

/// From where the gateway accepts requests.
#[derive(Clone, Copy, Debug, PartialEq, Eq, Structural)]
pub enum NetworkAccessMode {
    LocalOnly,
    CloudflareTunnel,
    WhitelistOnly,
    DirectInternet,
}

/// Paths that llama-server serves without an API key.
pub open spec fn public_path(path: Seq<char>) -> bool {
    path == "/health"@ || path == "/v1/health"@ || path == "/models"@ || path == "/v1/models"@
        || path == "/"@ || path == "/index.html"@ || path == "/bundle.js"@ || path == "/bundle.css"@
}

pub fn is_public_path(path: &str) -> (r: bool)
    ensures
        r == public_path(path@),
{
    str_eq(path, "/health") || str_eq(path, "/v1/health") || str_eq(path, "/models") || str_eq(
        path,
        "/v1/models",
    ) || str_eq(path, "/") || str_eq(path, "/index.html") || str_eq(path, "/bundle.js") || str_eq(
        path,
        "/bundle.css",
    )
}

/// The path of a request URL: the text before the first `?`.
pub open spec fn path_of(url: Seq<char>) -> Seq<char> {
    match find_in(url, seq!['?']) {
        Some(i) => url.take(i),
        None => url,
    }
}

pub fn request_path(url: &str) -> (r: String)
    ensures
        r@ == path_of(url@),
{
    let u = chars_of(url);
    let q: Vec<char> = vec!['?'];
    assert(q@ =~= seq!['?']);
    match find(&u, &q) {
        Some(i) => {
            let p = copy_range(&u, 0, i);
            assert(p@ =~= u@.take(i as int));
            string_of(&p)
        },
        None => string_of(&u),
    }
}

pub open spec fn header_views(h: Seq<(String, String)>) -> Seq<(Seq<char>, Seq<char>)> {
    h.map_values(|x: (String, String)| (x.0@, x.1@))
}

/// The first header named `name` (ASCII case ignored), its value trimmed.
pub open spec fn header_of(headers: Seq<(Seq<char>, Seq<char>)>, name: Seq<char>) -> Option<Seq<char>>
    decreases headers.len(),
{
    if headers.len() == 0 {
        None
    } else if eq_ignore_ascii_case(headers[0].0, name) {
        Some(trim(headers[0].1, CharSet::Whitespace))
    } else {
        header_of(headers.drop_first(), name)
    }
}

/// The value of the first header named `name`, ignoring ASCII case in the
/// name; surrounding whitespace is trimmed from the value.
pub fn header(headers: &[(String, String)], name: &str) -> (r: Option<String>)
    ensures
        match r {
            Some(v) => header_of(header_views(headers@), name@) == Some(v@),
            None => header_of(header_views(headers@), name@) is None,
        },
{
    let ghost hv = header_views(headers@);
    let n = chars_of(name);
    assert(hv.skip(0) =~= hv);
    let mut i: usize = 0;
    while i < headers.len()
        invariant
            i <= headers@.len(),
            hv == header_views(headers@),
            n@ == name@,
            header_of(hv, name@) == header_of(hv.skip(i as int), name@),
        decreases headers@.len() - i,
    {
        assert(hv.skip(i as int)[0] == (headers@[i as int].0@, headers@[i as int].1@));
        assert(hv.skip(i as int).drop_first() =~= hv.skip(i + 1));
        if equals_ignore_ascii_case(&chars_of(headers[i].0.as_str()), &n) {
            let v = trim_with(&chars_of(headers[i].1.as_str()), CharSet::Whitespace);
            return Some(string_of(&v));
        }
        i = i + 1;
    }
    None
}

/// What the gateway found out about a request's client address.
#[derive(Clone, Copy, Debug, PartialEq, Eq, Structural)]
pub struct ClientCheck {
    /// The address is a loopback address.
    pub loopback: bool,
    /// The address is loopback or within a trusted network.
    pub trusted: bool,
    /// The address is banned.
    pub banned: bool,
}

/// The gateway's answer to a request.
pub enum GatewayDecision {
    /// Refuse with this HTTP status and message.
    Reject { status: u16, message: String },
    /// Refuse with 401 "Invalid API Key" and count a failure for the client.
    InvalidKey,
    /// Pass the request on to llama-server.
    Forward,
}

pub open spec fn bearer(key: Seq<char>) -> Seq<char> {
    "Bearer "@ + key
}

/// The status and message of a refusal, `None` for the outcomes without one.
pub open spec fn rejection(d: GatewayDecision) -> Option<(u16, Seq<char>)> {
    match d {
        GatewayDecision::Reject { status, message } => Some((status, message@)),
        _ => None,
    }
}

/// The checks, in order: the gateway is enabled; in local-only mode no
/// tunnelled request (`CF-Connecting-IP`) comes in; the client address is
/// known; in local-only mode it is loopback; in whitelist mode it is
/// trusted; it is not banned; and, off the public paths, the request
/// carries `Bearer <key>` when the server has a key.
pub open spec fn gateway_verdict(
    enabled: bool,
    mode: NetworkAccessMode,
    path: Seq<char>,
    tunnelled: bool,
    client: Result<ClientCheck, Seq<char>>,
    expected_key: Option<Seq<char>>,
    authorization: Option<Seq<char>>,
) -> (int, Seq<char>) {
    if !enabled {
        (503, "Security gateway is disabled"@)
    } else if mode == NetworkAccessMode::LocalOnly && tunnelled {
        (403, "Local-only mode"@)
    } else {
        match client {
            Err(e) => (400, e),
            Ok(c) => {
                if mode == NetworkAccessMode::LocalOnly && !c.loopback {
                    (403, "Local-only mode"@)
                } else if mode == NetworkAccessMode::WhitelistOnly && !c.trusted {
                    (403, "Address is not whitelisted"@)
                } else if c.banned {
                    (403, "Address is temporarily banned"@)
                } else if !public_path(path) && expected_key is Some && authorization != Some(
                    bearer(expected_key->0),
                ) {
                    (401, "Invalid API Key"@)
                } else {
                    (0, Seq::empty())
                }
            },
        }
    }
}

/// The gateway's decision for one request. `path` is the request path,
/// `tunnelled` whether a `CF-Connecting-IP` header came with it, `client`
/// the checks on the client address (or why it is unknown),
/// `expected_key` the server's API key if it has one and `authorization`
/// the request's `Authorization` header.
pub fn gateway_decision(
    enabled: bool,
    mode: NetworkAccessMode,
    path: &str,
    tunnelled: bool,
    client: Result<ClientCheck, String>,
    expected_key: Option<&str>,
    authorization: Option<&str>,
) -> (r: GatewayDecision)
    ensures
        ({
            let v = gateway_verdict(
                enabled,
                mode,
                path@,
                tunnelled,
                match client {
                    Ok(c) => Ok(c),
                    Err(e) => Err(e@),
                },
                match expected_key {
                    Some(k) => Some(k@),
                    None => None,
                },
                match authorization {
                    Some(a) => Some(a@),
                    None => None,
                },
            );
            &&& v.0 == 0 <==> r is Forward
            &&& v.0 == 401 <==> r is InvalidKey
            &&& v.0 != 0 && v.0 != 401 ==> rejection(r) == Some((v.0 as u16, v.1))
        }),
{
    if !enabled {
        return GatewayDecision::Reject {
            status: 503,
            message: String::from_str("Security gateway is disabled"),
        };
    }
    if mode == NetworkAccessMode::LocalOnly && tunnelled {
        return GatewayDecision::Reject { status: 403, message: String::from_str("Local-only mode") };
    }
    let c = match client {
        Err(e) => {
            return GatewayDecision::Reject { status: 400, message: e };
        },
        Ok(c) => c,
    };
    if mode == NetworkAccessMode::LocalOnly && !c.loopback {
        return GatewayDecision::Reject { status: 403, message: String::from_str("Local-only mode") };
    }
    if mode == NetworkAccessMode::WhitelistOnly && !c.trusted {
        return GatewayDecision::Reject {
            status: 403,
            message: String::from_str("Address is not whitelisted"),
        };
    }
    if c.banned {
        return GatewayDecision::Reject {
            status: 403,
            message: String::from_str("Address is temporarily banned"),
        };
    }
    if !is_public_path(path) {
        if let Some(key) = expected_key {
            let mut want = chars_of("Bearer ");
            let mut k = chars_of(key);
            want.append(&mut k);
            proof {
                reveal_strlit("Bearer ");
            }
            assert(want@ =~= bearer(key@));
            let ok = match authorization {
                Some(a) => same_chars(&chars_of(a), &want),
                None => false,
            };
            if !ok {
                return GatewayDecision::InvalidKey;
            }
        }
    }
    GatewayDecision::Forward
}

// ---------------------------------------------------------------------------
// Automatic bans
// ---------------------------------------------------------------------------

pub open spec fn window_of(window_seconds: u64) -> int {
    if window_seconds == 0 {
        1
    } else {
        window_seconds as int
    }
}

pub open spec fn at_or_after(cutoff: int) -> spec_fn(i64) -> bool {
    |t: i64| t >= cutoff
}

/// The failures still inside the window, then the new one.
pub open spec fn recent_failures(attempts: Seq<i64>, now: i64, window_seconds: u64) -> Seq<i64> {
    attempts.filter(at_or_after(now - window_of(window_seconds))).push(now)
}

/// Whether the failures reach the threshold (at least one).
pub open spec fn reaches_threshold(count: nat, threshold: u32) -> bool {
    count >= if threshold == 0 {
        1
    } else {
        threshold as nat
    }
}

/// Count one more invalid key at time `now` (seconds) against the client's
/// earlier failures: failures older than the window (at least one second)
/// are forgotten. Returns the failures kept, and whether they now reach
/// the threshold (at least one), which bans the client.
pub fn register_failure(attempts: Vec<i64>, now: i64, window_seconds: u64, threshold: u32) -> (r: (
    Vec<i64>,
    bool,
))
    ensures
        r.0@ == recent_failures(attempts@, now, window_seconds),
        r.1 == reaches_threshold(r.0@.len(), threshold),
{
    let window: u64 = if window_seconds == 0 {
        1
    } else {
        window_seconds
    };
    let cutoff: i128 = now as i128 - window as i128;
    let ghost f = at_or_after(now - window_of(window_seconds));
    let mut kept: Vec<i64> = Vec::new();
    let mut i: usize = 0;
    while i < attempts.len()
        invariant
            i <= attempts@.len(),
            cutoff == now - window_of(window_seconds),
            f == at_or_after(now - window_of(window_seconds)),
            kept@ == attempts@.take(i as int).filter(f),
        decreases attempts@.len() - i,
    {
        let t = attempts[i];
        proof {
            assert(attempts@.take(i + 1) =~= attempts@.take(i as int).push(t));
            attempts@.take(i as int).lemma_filter_push(t, f);
        }
        if t as i128 >= cutoff {
            kept.push(t);
        }
        i = i + 1;
    }
    assert(attempts@.take(attempts@.len() as int) =~= attempts@);
    kept.push(now);
    let limit: u32 = if threshold == 0 {
        1
    } else {
        threshold
    };
    let ban = kept.len() as u64 >= limit as u64;
    (kept, ban)
}

pub open spec fn other_ip(ip: Seq<char>) -> spec_fn(BanEntry) -> bool {
    |b: BanEntry| b.ip@ != ip
}

/// Lift the bans on `ip`: the bans of every other address, in order.
pub fn remove_bans(bans: &Vec<BanEntry>, ip: &str) -> (r: Vec<BanEntry>)
    ensures
        r@ == bans@.filter(other_ip(ip@)),
{
    let ghost f = other_ip(ip@);
    let mut r: Vec<BanEntry> = Vec::new();
    let mut i: usize = 0;
    while i < bans.len()
        invariant
            i <= bans@.len(),
            f == other_ip(ip@),
            r@ == bans@.take(i as int).filter(f),
        decreases bans@.len() - i,
    {
        let b = bans[i].clone();
        proof {
            assert(bans@.take(i + 1) =~= bans@.take(i as int).push(b));
            bans@.take(i as int).lemma_filter_push(b, f);
        }
        if !str_eq(b.ip.as_str(), ip) {
            r.push(b);
        }
        i = i + 1;
    }
    assert(bans@.take(bans@.len() as int) =~= bans@);
    r
}

/// Ban an address: any earlier ban of it is replaced by `entry`, which goes
/// last.
pub fn replace_ban(bans: &Vec<BanEntry>, entry: BanEntry) -> (r: Vec<BanEntry>)
    ensures
        r@ == bans@.filter(other_ip(entry.ip@)).push(entry),
{
    let mut r = remove_bans(bans, entry.ip.as_str());
    r.push(entry);
    r
}

/// The instant an RFC 3339 timestamp names, as whole seconds since the Unix
/// epoch and the nanoseconds past that second; nothing when the text is not
/// such a timestamp.
pub uninterp spec fn rfc3339_instant(text: Seq<char>) -> Option<(i64, u32)>;

/// Parse with `chrono::DateTime::parse_from_rfc3339` and read the instant
/// back with `timestamp` and `timestamp_subsec_nanos`; the result is
/// `rfc3339_instant` of the text.
#[verifier::external_body]
fn parse_instant(text: &str) -> (r: Option<(i64, u32)>)
    ensures
        r == rfc3339_instant(text@),
{
    chrono::DateTime::parse_from_rfc3339(text).ok().map(|t| (t.timestamp(), t.timestamp_subsec_nanos()))
}

/// `a` comes strictly after `b`, both as seconds and nanoseconds.
pub open spec fn instant_after(a: (i64, u32), b: (i64, u32)) -> bool {
    a.0 > b.0 || (a.0 == b.0 && a.1 > b.1)
}

/// A ban still holds at `now` unless it has an expiry that reads as a
/// timestamp and that instant is not after `now`.
pub open spec fn ban_holds(b: BanEntry, now: (i64, u32)) -> bool {
    match b.expires_at {
        None => true,
        Some(t) => match rfc3339_instant(t@) {
            None => true,
            Some(end) => instant_after(end, now),
        },
    }
}

pub open spec fn holds_at(now: (i64, u32)) -> spec_fn(BanEntry) -> bool {
    |b: BanEntry| ban_holds(b, now)
}

/// Drop the bans that have expired at `now` (seconds and nanoseconds since
/// the Unix epoch); the others stay, in order.
pub fn purge_expired(bans: &Vec<BanEntry>, now_seconds: i64, now_nanos: u32) -> (r: Vec<BanEntry>)
    ensures
        r@ == bans@.filter(holds_at((now_seconds, now_nanos))),
{
    let ghost f = holds_at((now_seconds, now_nanos));
    let mut r: Vec<BanEntry> = Vec::new();
    let mut i: usize = 0;
    while i < bans.len()
        invariant
            i <= bans@.len(),
            f == holds_at((now_seconds, now_nanos)),
            r@ == bans@.take(i as int).filter(f),
        decreases bans@.len() - i,
    {
        let b = bans[i].clone();
        proof {
            assert(bans@.take(i + 1) =~= bans@.take(i as int).push(b));
            bans@.take(i as int).lemma_filter_push(b, f);
        }
        let keep = match &b.expires_at {
            None => true,
            Some(t) => match parse_instant(t.as_str()) {
                None => true,
                Some((secs, nanos)) => secs > now_seconds || (secs == now_seconds && nanos > now_nanos),
            },
        };
        if keep {
            r.push(b);
        }
        i = i + 1;
    }
    assert(bans@.take(bans@.len() as int) =~= bans@);
    r
}

/// Where the gateway reads a request's client address: `Ok(None)` for the
/// socket's peer, `Ok(Some(v))` for the `CF-Connecting-IP` value `v`, or the
/// refusal. The header is read only behind a tunnel or in whitelist mode,
/// and only when the peer is loopback.
pub open spec fn client_source_of(
    mode: NetworkAccessMode,
    peer_loopback: bool,
    forwarded: Option<Seq<char>>,
) -> Result<Option<Seq<char>>, Seq<char>> {
    if (mode == NetworkAccessMode::CloudflareTunnel || mode == NetworkAccessMode::WhitelistOnly)
        && peer_loopback {
        match forwarded {
            Some(v) => if crate::trust::ip_text(v) {
                Ok(Some(v))
            } else {
                Err("Invalid CF-Connecting-IP"@)
            },
            None => Ok(None),
        }
    } else {
        Ok(None)
    }
}

/// Choose the client address of a request from the access mode, whether the
/// socket's peer is loopback and the request headers.
pub fn client_source(mode: NetworkAccessMode, peer_loopback: bool, headers: &[(String, String)]) -> (r: Result<
    Option<String>,
    String,
>)
    ensures
        match r {
            Ok(Some(v)) => client_source_of(
                mode,
                peer_loopback,
                header_of(header_views(headers@), "CF-Connecting-IP"@),
            ) == Ok::<Option<Seq<char>>, Seq<char>>(Some(v@)),
            Ok(None) => client_source_of(
                mode,
                peer_loopback,
                header_of(header_views(headers@), "CF-Connecting-IP"@),
            ) == Ok::<Option<Seq<char>>, Seq<char>>(None),
            Err(e) => client_source_of(
                mode,
                peer_loopback,
                header_of(header_views(headers@), "CF-Connecting-IP"@),
            ) == Err::<Option<Seq<char>>, Seq<char>>(e@),
        },
{
    let behind = match mode {
        NetworkAccessMode::CloudflareTunnel => true,
        NetworkAccessMode::WhitelistOnly => true,
        _ => false,
    };
    if !(behind && peer_loopback) {
        return Ok(None);
    }
    match header(headers, "CF-Connecting-IP") {
        None => Ok(None),
        Some(v) => if crate::trust::parses_ip(v.as_str()) {
            Ok(Some(v))
        } else {
            Err(String::from_str("Invalid CF-Connecting-IP"))
        },
    }
}

/// What every forwarded request has passed: the gateway is enabled, the
/// client address is known and not banned; in local-only mode the request
/// is not tunnelled and its client is loopback; in whitelist mode its
/// client is trusted; off the public paths it carries the server's key.
/// So, in particular, in local-only mode a client that is not loopback is
/// never let through, whatever path, headers or key it sends.
pub proof fn law_forwarded_requests(
    enabled: bool,
    mode: NetworkAccessMode,
    path: Seq<char>,
    tunnelled: bool,
    client: Result<ClientCheck, Seq<char>>,
    expected_key: Option<Seq<char>>,
    authorization: Option<Seq<char>>,
)
    ensures
        gateway_verdict(enabled, mode, path, tunnelled, client, expected_key, authorization).0 == 0 ==> ({
            &&& enabled
            &&& client is Ok
            &&& !client->Ok_0.banned
            &&& mode == NetworkAccessMode::LocalOnly ==> !tunnelled && client->Ok_0.loopback
            &&& mode == NetworkAccessMode::WhitelistOnly ==> client->Ok_0.trusted
            &&& !public_path(path) && expected_key is Some ==> authorization == Some(
                bearer(expected_key->0),
            )
        }),
{
}

/// In local-only mode a client that is not loopback is refused with 403
/// `Local-only mode` when the gateway is enabled, whatever path, headers or
/// key it sends.
pub proof fn law_local_only_refuses_remote_clients(
    path: Seq<char>,
    tunnelled: bool,
    client: ClientCheck,
    expected_key: Option<Seq<char>>,
    authorization: Option<Seq<char>>,
)
    requires
        !client.loopback,
    ensures
        gateway_verdict(true, NetworkAccessMode::LocalOnly, path, tunnelled, Ok(client), expected_key, authorization)
            == (403int, "Local-only mode"@),
{
}

/// Why a request is refused, in the order the checks run: a disabled
/// gateway answers 503; in local-only mode a tunnelled request or a client
/// that is not loopback gets 403 `Local-only mode`; an unknown client
/// address gets 400 with the reason; in whitelist mode an untrusted client
/// gets 403 `Address is not whitelisted`.
pub proof fn law_refusals_in_order(
    enabled: bool,
    mode: NetworkAccessMode,
    path: Seq<char>,
    tunnelled: bool,
    client: Result<ClientCheck, Seq<char>>,
    expected_key: Option<Seq<char>>,
    authorization: Option<Seq<char>>,
)
    ensures
        ({
            let v = gateway_verdict(enabled, mode, path, tunnelled, client, expected_key, authorization);
            &&& !enabled ==> v == (503int, "Security gateway is disabled"@)
            &&& enabled && mode == NetworkAccessMode::LocalOnly && (tunnelled || (client is Ok
                && !client->Ok_0.loopback)) ==> v == (403int, "Local-only mode"@)
            &&& enabled && !(mode == NetworkAccessMode::LocalOnly && tunnelled) && client is Err ==> v == (
                400int,
                client->Err_0,
            )
            &&& enabled && mode == NetworkAccessMode::WhitelistOnly && client is Ok
                && !client->Ok_0.trusted ==> v == (403int, "Address is not whitelisted"@)
        }),
{
}

/// The path of a URL is everything before its query: a path without `?`
/// comes back whole, with or without a query string after it.
pub proof fn law_path_drops_query(path: Seq<char>, query: Seq<char>)
    requires
        forall|i: int| 0 <= i < path.len() ==> path[i] != '?',
    ensures
        path_of(path) == path,
        path_of(path + seq!['?'] + query) == path,
{
    let q = seq!['?'];
    crate::text::lemma_find_in(path, q);
    if crate::text::contains_seq(path, q) {
        let i = choose|i: int| crate::text::occurs_at(path, q, i);
        assert(path.subrange(i, i + 1)[0] == path[i]);
    }
    let url = path + q + query;
    crate::text::lemma_find_in(url, q);
    let d = path.len() as int;
    assert(url.subrange(d, d + 1) =~= q);
    assert(crate::text::occurs_at(url, q, d));
    let i = find_in(url, q)->0;
    if i < d {
        assert(url.subrange(i, i + 1)[0] == url[i]);
        assert(url[i] == path[i]);
    }
    assert(url.take(d) =~= path);
}

/// A banned client is never let through, whatever it sends.
pub proof fn law_banned_never_forwarded(
    enabled: bool,
    mode: NetworkAccessMode,
    path: Seq<char>,
    tunnelled: bool,
    client: ClientCheck,
    expected_key: Option<Seq<char>>,
    authorization: Option<Seq<char>>,
)
    requires
        client.banned,
    ensures
        gateway_verdict(enabled, mode, path, tunnelled, Ok(client), expected_key, authorization).0 != 0,
{
}

/// Off the public paths, a request without the server's key is never let
/// through; on them, the key is never asked for.
pub proof fn law_key_checked_off_public_paths(
    enabled: bool,
    mode: NetworkAccessMode,
    path: Seq<char>,
    tunnelled: bool,
    client: Result<ClientCheck, Seq<char>>,
    key: Seq<char>,
    authorization: Option<Seq<char>>,
)
    ensures
        !public_path(path) && authorization != Some(bearer(key)) ==> gateway_verdict(
            enabled,
            mode,
            path,
            tunnelled,
            client,
            Some(key),
            authorization,
        ).0 != 0,
        public_path(path) ==> gateway_verdict(enabled, mode, path, tunnelled, client, Some(key), authorization).0
            != 401,
{
}

} // verus!
