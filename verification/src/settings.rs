//! Application settings and the agent control API token.
use crate::text::string_of;
use rand::Rng;
use vstd::prelude::*;

verus! {

/// Which profile, if any, to start when the application launches.
#[derive(Clone, Copy, Debug, PartialEq, Eq, Structural)]
pub enum DefaultProfileMode {
    /// Start nothing.
    NoDefault,
    LastUsed,
    Specific,
}

/// Everything the user configures.
#[derive(Clone, Debug)]
pub struct Settings {
    pub scripts_folder: String,
    pub scan_pattern: String,
    pub allowed_extensions: Vec<String>,
    pub server_port: u16,
    pub health_url: String,
    /// Optional llama.cpp server API key, used for protected status probes.
    pub llama_server_api_key: Option<String>,
    pub agent_api_port: u16,
    pub agent_api_token: String,
    pub auto_rescan_on_startup: bool,
    pub auto_rescan_interval_seconds: Option<u64>,
    pub default_profile_mode: DefaultProfileMode,
    pub default_profile_id: Option<String>,
    pub last_used_profile_id: Option<String>,
    pub stop_timeout_seconds: u64,
    pub health_check_timeout_seconds: u64,
    /// Image names of the llama.cpp server binary; every process with one of
    /// these names is stopped so that a single server runs.
    pub server_process_names: Vec<String>,
}

/// The characters a token is drawn from.
pub open spec fn token_charset() -> Seq<char> {
    "ABCDEFGHIJKLMNOPQRSTUVWXYZabcdefghijklmnopqrstuvwxyz0123456789"@
}

pub open spec fn is_token(t: Seq<char>) -> bool {
    t.len() == 40 && forall|i: int| 0 <= i < t.len() ==> token_charset().contains(#[trigger] t[i])
}

/// Draws a number below `n` from the thread-local generator of `rand`
/// (`thread_rng().gen_range(0..n)`); only the bound is stated.
#[verifier::external_body]
fn random_below(n: usize) -> (r: usize)
    requires
        n > 0,
    ensures
        r < n,
{
    rand::thread_rng().gen_range(0..n)
}

/// Generate a random URL-safe token used to authenticate the agent control
/// API: 40 characters, each an ASCII letter or digit.
pub fn generate_token() -> (t: String)
    ensures
        is_token(t@),
{
    let charset = crate::text::chars_of(
        "ABCDEFGHIJKLMNOPQRSTUVWXYZabcdefghijklmnopqrstuvwxyz0123456789",
    );
    proof {
        reveal_strlit("ABCDEFGHIJKLMNOPQRSTUVWXYZabcdefghijklmnopqrstuvwxyz0123456789");
    }
    assert(charset@.len() == 62);
    let mut out: Vec<char> = Vec::new();
    let mut i: usize = 0;
    while i < 40
        invariant
            i <= 40,
            charset@ == token_charset(),
            charset@.len() == 62,
            out@.len() == i,
            forall|k: int| 0 <= k < out@.len() ==> token_charset().contains(#[trigger] out@[k]),
        decreases 40 - i,
    {
        let idx = random_below(charset.len());
        let c = charset[idx];
        assert(token_charset()[idx as int] == c);
        out.push(c);
        i = i + 1;
    }
    string_of(&out)
}

pub fn default_server_process_names() -> (r: Vec<String>)
    ensures
        r@.len() == 1,
        r@[0]@ == "llama-server.exe"@,
{
    let mut r: Vec<String> = Vec::new();
    r.push(String::from_str("llama-server.exe"));
    r
}

impl Default for Settings {
    /// First-launch settings: scripts in `D:\llama`, the standard naming
    /// pattern, `.cmd`/`.bat`/`.ps1` scripts, server on port 8080, agent API
    /// on port 47891 with a fresh token, rescan at startup, no default profile.
    fn default() -> (s: Settings)
        ensures
            s.scripts_folder@ == "D:\\llama"@,
            s.scan_pattern@ == "start - {model} - {feature}"@,
            s.allowed_extensions@.len() == 3,
            s.allowed_extensions@[0]@ == ".cmd"@,
            s.allowed_extensions@[1]@ == ".bat"@,
            s.allowed_extensions@[2]@ == ".ps1"@,
            s.server_port == 8080,
            s.health_url@ == "http://127.0.0.1:8080/health"@,
            s.llama_server_api_key is None,
            s.agent_api_port == 47891,
            is_token(s.agent_api_token@),
            s.auto_rescan_on_startup,
            s.auto_rescan_interval_seconds is None,
            s.default_profile_mode == DefaultProfileMode::NoDefault,
            s.default_profile_id is None,
            s.last_used_profile_id is None,
            s.stop_timeout_seconds == 15,
            s.health_check_timeout_seconds == 60,
            s.server_process_names@.len() == 1,
            s.server_process_names@[0]@ == "llama-server.exe"@,
    {
        let mut allowed: Vec<String> = Vec::new();
        allowed.push(String::from_str(".cmd"));
        allowed.push(String::from_str(".bat"));
        allowed.push(String::from_str(".ps1"));
        Settings {
            scripts_folder: String::from_str("D:\\llama"),
            scan_pattern: String::from_str("start - {model} - {feature}"),
            allowed_extensions: allowed,
            server_port: 8080,
            health_url: String::from_str("http://127.0.0.1:8080/health"),
            llama_server_api_key: None,
            agent_api_port: 47891,
            agent_api_token: generate_token(),
            auto_rescan_on_startup: true,
            auto_rescan_interval_seconds: None,
            default_profile_mode: DefaultProfileMode::NoDefault,
            default_profile_id: None,
            last_used_profile_id: None,
            stop_timeout_seconds: 15,
            health_check_timeout_seconds: 60,
            server_process_names: default_server_process_names(),
        }
    }
}

} // verus!
