//! Cluster configuration: checking each entry of the configuration file and
//! normalizing its host and port.

use vstd::prelude::*;
use crate::text::{
    lemma_seq_lt_total, lemma_seq_lt_transitive, seq_lt, str_lt,
    concat, decimal, decimal_string, strip_trailing_slashes, trim, trim_trailing_slashes,
    trim_white_space,
};

verus! {

/// Authentication method for a cluster connection.
#[derive(Debug, Clone)]
pub enum Auth {
    Basic { username: String, password: String },
    ApiKey(String),
}

/// Fully validated and normalized cluster connection configuration.
#[derive(Debug, Clone)]
pub struct ClusterConfig {
    pub alias: String,
    pub host: String,
    pub port: u16,
    pub auth: Auth,
    pub verify_certs: bool,
    pub ca_certs: Option<String>,
}

/// One entry of the configuration file, as written there.
#[derive(Debug)]
pub struct RawClusterEntry {
    pub host: String,
    pub port: Option<u16>,
    pub username: Option<String>,
    pub password: Option<String>,
    pub api_key: Option<String>,
    pub verify_certs: bool,
    pub ca_certs: Option<String>,
}

/// How a conflict between the port in the host URL and the `port` field is
/// settled: not at all when nobody can be asked, or by the line the user typed
/// (`1` or nothing: the URL's port; `2`: the field's port).
#[derive(Debug)]
pub enum PortChoice {
    NonInteractive,
    Answer(String),
}

/// Host and port of an entry after sanitizing, or the two sides of a port
/// conflict that someone has to settle.
#[derive(Debug)]
pub enum HostPort {
    Resolved { host: String, port: u16 },
    Conflict { clean_host: String, url_port: u16, field_port: u16 },
}

/// Why a cluster configuration is refused.
#[derive(Debug)]
pub enum ConfigError {
    MissingPort { alias: String },
    PortConflict { alias: String, url_port: u16, field_port: u16 },
    InvalidPortChoice { alias: String, choice: String },
    MissingPassword { alias: String },
    MissingCredentials { alias: String },
    CaCertsNotFound { alias: String, path: String },
    DefaultConfigMissing,
}

/// Default of the `verify_certs` field.
pub fn default_verify_certs() -> (r: bool)
    ensures
        r,
{
    true
}

// ── The URL parser ──────────────────────────────────────────────────────────

/// What `url::Url::parse` makes of `input`: `None` where it refuses it, else
/// the serialization of the parsed URL once `Url::set_port(None)` has been
/// applied, the port that `Url::port` returned before that, and what
/// `Url::port_or_known_default` returned.
pub uninterp spec fn url_port_split(input: Seq<char>) -> Option<(Seq<char>, Option<u16>, Option<u16>)>;

/// Parses `input` with `url::Url::parse`; on success returns the serialization
/// left by `Url::set_port(None)` (read with `Url::as_str`), the port that
/// `Url::port` reported and the one `Url::port_or_known_default` reported.
/// The contract ties the result to `url_port_split` of the input and claims
/// nothing else of it.
#[verifier::external_body]
fn parse_url_port(input: &str) -> (r: Option<(String, Option<u16>, Option<u16>)>)
    ensures
        match r {
            Some((s, p, d)) => url_port_split(input@) == Some((s@, p, d)),
            None => url_port_split(input@) is None,
        },
{
    match url::Url::parse(input) {
        Ok(mut url) => {
            let port = url.port();
            let known = url.port_or_known_default();
            let _ = url.set_port(None);
            Some((url.as_str().to_string(), port, known))
        },
        Err(_) => None,
    }
}

/// Index of the first `:` of `s` at or after `i` (the length if none).
pub open spec fn colon_from(s: Seq<char>, i: int) -> int
    decreases s.len() - i,
{
    if i < 0 || i >= s.len() {
        s.len() as int
    } else if s[i] == ':' {
        i
    } else {
        colon_from(s, i + 1)
    }
}

/// Characters that end the authority of a URL.
pub open spec fn ends_authority(c: char) -> bool {
    c == '/' || c == '?' || c == '#'
}

/// Index of the first character of `s` at or after `i` that ends the
/// authority (the length if none).
pub open spec fn authority_end_from(s: Seq<char>, i: int) -> int
    decreases s.len() - i,
{
    if i < 0 || i >= s.len() {
        s.len() as int
    } else if ends_authority(s[i]) {
        i
    } else {
        authority_end_from(s, i + 1)
    }
}

/// The authority written in `s` (what follows the first `:` and `//`, up to
/// `/`, `?`, `#` or the end); none when the scheme is not followed by `//`.
pub open spec fn written_authority(s: Seq<char>) -> Option<Seq<char>> {
    let c = colon_from(s, 0);
    if c + 2 < s.len() && s[c + 1] == '/' && s[c + 2] == '/' {
        Some(s.subrange(c + 3, authority_end_from(s, c + 3)))
    } else {
        None
    }
}

pub open spec fn is_digit(c: char) -> bool {
    48 <= (c as int) <= 57
}

/// Number of decimal digits at the end of `a`.
pub open spec fn trailing_digits(a: Seq<char>) -> nat
    decreases a.len(),
{
    if a.len() > 0 && is_digit(a.last()) {
        1 + trailing_digits(a.drop_last())
    } else {
        0
    }
}

/// `a` ends with `:` followed by at least one digit.
pub open spec fn ends_with_port(a: Seq<char>) -> bool {
    let d = trailing_digits(a);
    d > 0 && d < a.len() && a[a.len() - 1 - d] == ':'
}

/// The URL text `s` writes a port after its host.
pub open spec fn written_port(s: Seq<char>) -> bool {
    written_authority(s) matches Some(a) && ends_with_port(a)
}

fn digit_at(s: &str, i: usize) -> (r: bool)
    requires
        i < s@.len(),
    ensures
        r == is_digit(s@[i as int]),
{
    let v = s.get_char(i) as u32;
    48 <= v && v <= 57
}

/// Whether the URL text `s` writes a port after its host.
pub fn has_written_port(s: &str) -> (r: bool)
    ensures
        r == written_port(s@),
{
    let n = s.unicode_len();
    let mut c: usize = 0;
    while c < n && s.get_char(c) != ':'
        invariant
            n == s@.len(),
            c <= n,
            colon_from(s@, 0) == colon_from(s@, c as int),
        decreases n - c,
    {
        c = c + 1;
    }
    if !(c < n && n - c > 2 && s.get_char(c + 1) == '/' && s.get_char(c + 2) == '/') {
        return false;
    }
    let st = c + 3;
    let mut e = st;
    while e < n && !(s.get_char(e) == '/' || s.get_char(e) == '?' || s.get_char(e) == '#')
        invariant
            n == s@.len(),
            st <= e <= n,
            authority_end_from(s@, st as int) == authority_end_from(s@, e as int),
        decreases n - e,
    {
        e = e + 1;
    }
    let ghost a = s@.subrange(st as int, e as int);
    let len = e - st;
    let mut d: usize = 0;
    proof {
        assert(a.take(len as int) =~= a);
    }
    while d < len && digit_at(s, e - 1 - d)
        invariant
            a == s@.subrange(st as int, e as int),
            len == a.len(),
            st <= e <= n == s@.len(),
            d <= len,
            trailing_digits(a) == d + trailing_digits(a.take(len - d)),
        decreases len - d,
    {
        proof {
            let t = a.take(len - d);
            assert(t.last() == s@[e - 1 - d]);
            assert(t.drop_last() =~= a.take(len - d - 1));
        }
        d = d + 1;
    }
    proof {
        if d < len {
            let t = a.take(len - d);
            assert(t.last() == s@[e - 1 - d]);
        } else {
            assert(a.take(0) =~= Seq::<char>::empty());
        }
    }
    d > 0 && d < len && s.get_char(e - 1 - d) == ':'
}

/// The parse result as character sequences.
pub open spec fn parsed_view(parsed: Option<(String, Option<u16>, Option<u16>)>) -> Option<(Seq<char>, Option<u16>, Option<u16>)> {
    match parsed {
        Some((s, p, d)) => Some((s@, p, d)),
        None => None,
    }
}

/// The host without an embedded port, and that port, given what the URL
/// parser made of `host`: the port it reports, or, where it reports none
/// because the written port is the scheme's default, that default.
pub open spec fn port_split_of(host: Seq<char>, parsed: Option<(Seq<char>, Option<u16>, Option<u16>)>) -> (Seq<char>, Option<u16>) {
    match parsed {
        Some((portless, Some(port), _)) => (strip_trailing_slashes(portless), Some(port)),
        Some((portless, None, Some(default))) => if written_port(host) {
            (strip_trailing_slashes(portless), Some(default))
        } else {
            (host, None)
        },
        _ => (host, None),
    }
}

/// Split the port off `host` given the URL parser's result for it: the
/// serialization without port and trailing `/`, with the port; or `host`
/// unchanged and `None` where it holds no port.
pub fn port_from_parse(host: &str, parsed: Option<(String, Option<u16>, Option<u16>)>) -> (r: (String, Option<u16>))
    ensures
        (r.0@, r.1) == port_split_of(host@, parsed_view(parsed)),
{
    match parsed {
        Some((portless, Some(port), _)) => (trim_trailing_slashes(portless.as_str()), Some(port)),
        Some((portless, None, Some(default))) => {
            if has_written_port(host) {
                (trim_trailing_slashes(portless.as_str()), Some(default))
            } else {
                (String::from_str(host), None)
            }
        },
        _ => (String::from_str(host), None),
    }
}

/// The host without an embedded port, and that port, as `extract_port_from_url`
/// finds them.
pub open spec fn split_port(host: Seq<char>) -> (Seq<char>, Option<u16>) {
    port_split_of(host, url_port_split(host))
}

/// Try to extract an embedded port from a URL string.
/// Returns the URL without its port and without trailing `/` together with the
/// port where the URL holds one, else `host` unchanged and `None`.
pub fn extract_port_from_url(host: &str) -> (r: (String, Option<u16>))
    ensures
        (r.0@, r.1) == split_port(host@),
{
    let parsed = parse_url_port(host);
    port_from_parse(host, parsed)
}

// ── Sanitizing host and port ────────────────────────────────────────────────

/// Sanitize the `host` and `port` of an entry: strip trailing `/` from the
/// host, extract a port embedded in it, and compare that port with the `port`
/// field.
pub fn sanitize_host_port(alias: &str, host: &str, port: Option<u16>) -> (r: Result<HostPort, ConfigError>)
    ensures
        ({
            let h = strip_trailing_slashes(host@);
            let (clean, embedded) = split_port(h);
            match (embedded, port) {
                (None, None) => r matches Err(ConfigError::MissingPort { alias: a }) && a@ == alias@,
                (None, Some(p)) => r matches Ok(HostPort::Resolved { host: rh, port: rp })
                    && rh@ == h && rp == p,
                (Some(ep), None) => r matches Ok(HostPort::Resolved { host: rh, port: rp })
                    && rh@ == clean && rp == ep,
                (Some(ep), Some(fp)) => if ep == fp {
                    r matches Ok(HostPort::Resolved { host: rh, port: rp }) && rh@ == clean && rp == fp
                } else {
                    r matches Ok(HostPort::Conflict { clean_host, url_port, field_port })
                        && clean_host@ == clean && url_port == ep && field_port == fp
                },
            }
        }),
{
    let host = trim_trailing_slashes(host);
    let (clean_host, embedded) = extract_port_from_url(host.as_str());
    match (embedded, port) {
        (None, None) => Err(ConfigError::MissingPort { alias: String::from_str(alias) }),
        (None, Some(p)) => Ok(HostPort::Resolved { host, port: p }),
        (Some(ep), None) => Ok(HostPort::Resolved { host: clean_host, port: ep }),
        (Some(ep), Some(fp)) => {
            if ep == fp {
                Ok(HostPort::Resolved { host: clean_host, port: fp })
            } else {
                Ok(HostPort::Conflict { clean_host, url_port: ep, field_port: fp })
            }
        },
    }
}

/// The answer picks the URL's port: nothing, or `1`.
pub open spec fn picks_url_port(answer: Seq<char>) -> bool {
    trim(answer).len() == 0 || trim(answer) == seq!['1']
}

/// The answer picks the `port` field: `2`.
pub open spec fn picks_field_port(answer: Seq<char>) -> bool {
    trim(answer) == seq!['2']
}

/// Settle a port conflict: without an answer it is an error; an answer picks
/// the URL's port or the field's port, either with the port-free host, and any
/// other answer is an error naming it.
pub fn resolve_port_conflict(
    alias: &str,
    clean_host: String,
    url_port: u16,
    field_port: u16,
    choice: &PortChoice,
) -> (r: Result<(String, u16), ConfigError>)
    ensures
        match choice {
            PortChoice::NonInteractive => r matches Err(ConfigError::PortConflict { alias: a, url_port: u, field_port: f })
                && a@ == alias@ && u == url_port && f == field_port,
            PortChoice::Answer(answer) => if picks_url_port(answer@) {
                r matches Ok((h, p)) && h@ == clean_host@ && p == url_port
            } else if picks_field_port(answer@) {
                r matches Ok((h, p)) && h@ == clean_host@ && p == field_port
            } else {
                r matches Err(ConfigError::InvalidPortChoice { alias: a, choice: c })
                    && a@ == alias@ && c@ == trim(answer@)
            },
        },
{
    match choice {
        PortChoice::NonInteractive => Err(
            ConfigError::PortConflict { alias: String::from_str(alias), url_port, field_port },
        ),
        PortChoice::Answer(answer) => {
            let t = trim_white_space(answer.as_str());
            let n = t.as_str().unicode_len();
            if n == 0 {
                Ok((clean_host, url_port))
            } else if n == 1 && t.as_str().get_char(0) == '1' {
                assert(t@ =~= seq!['1']);
                Ok((clean_host, url_port))
            } else if n == 1 && t.as_str().get_char(0) == '2' {
                assert(t@ =~= seq!['2']);
                Ok((clean_host, field_port))
            } else {
                Err(ConfigError::InvalidPortChoice { alias: String::from_str(alias), choice: t })
            }
        },
    }
}

/// The final host and port of an entry, or `None` where sanitizing it fails.
pub open spec fn host_port_outcome(host: Seq<char>, port: Option<u16>, choice: PortChoice) -> Option<(Seq<char>, u16)> {
    let h = strip_trailing_slashes(host);
    let (clean, embedded) = split_port(h);
    match (embedded, port) {
        (None, None) => None,
        (None, Some(p)) => Some((h, p)),
        (Some(ep), None) => Some((clean, ep)),
        (Some(ep), Some(fp)) => if ep == fp {
            Some((clean, fp))
        } else {
            match choice {
                PortChoice::NonInteractive => None,
                PortChoice::Answer(answer) => if picks_url_port(answer@) {
                    Some((clean, ep))
                } else if picks_field_port(answer@) {
                    Some((clean, fp))
                } else {
                    None
                },
            }
        },
    }
}

/// The error reported where sanitizing host and port fails.
pub open spec fn host_port_error(alias: Seq<char>, host: Seq<char>, port: Option<u16>, choice: PortChoice, e: ConfigError) -> bool {
    let h = strip_trailing_slashes(host);
    let (clean, embedded) = split_port(h);
    match (embedded, port) {
        (None, None) => e matches ConfigError::MissingPort { alias: a } && a@ == alias,
        (Some(ep), Some(fp)) => match choice {
            PortChoice::NonInteractive => e matches ConfigError::PortConflict { alias: a, url_port, field_port }
                && a@ == alias && url_port == ep && field_port == fp,
            PortChoice::Answer(answer) => e matches ConfigError::InvalidPortChoice { alias: a, choice: c }
                && a@ == alias && c@ == trim(answer@),
        },
        _ => false,
    }
}

/// A field counts as set when it is present and not empty.
pub open spec fn is_set(field: Option<String>) -> bool {
    field matches Some(s) && s@.len() > 0
}

/// The authentication an entry asks for: an API key takes priority over a
/// username and password; `None` where the entry has neither.
pub open spec fn auth_of(entry: RawClusterEntry) -> Option<Auth> {
    if is_set(entry.api_key) {
        Some(Auth::ApiKey(entry.api_key->0))
    } else if is_set(entry.username) && is_set(entry.password) {
        Some(Auth::Basic { username: entry.username->0, password: entry.password->0 })
    } else {
        None
    }
}

/// The error reported where an entry names no usable authentication.
pub open spec fn auth_error(alias: Seq<char>, entry: RawClusterEntry, e: ConfigError) -> bool {
    if is_set(entry.username) {
        e matches ConfigError::MissingPassword { alias: a } && a@ == alias
    } else {
        e matches ConfigError::MissingCredentials { alias: a } && a@ == alias
    }
}

/// What `validate_entry` returns: host and port are checked first, then the
/// authentication, then that the CA certificate file exists.
pub open spec fn entry_outcome(
    alias: String,
    entry: RawClusterEntry,
    choice: PortChoice,
    ca_exists: bool,
    r: Result<ClusterConfig, ConfigError>,
) -> bool {
    match host_port_outcome(entry.host@, entry.port, choice) {
        None => r matches Err(e) && host_port_error(alias@, entry.host@, entry.port, choice, e),
        Some((h, p)) => match auth_of(entry) {
            None => r matches Err(e) && auth_error(alias@, entry, e),
            Some(auth) => if entry.ca_certs is Some && !ca_exists {
                r matches Err(ConfigError::CaCertsNotFound { alias: a, path })
                    && a@ == alias@ && path == entry.ca_certs->0
            } else {
                &&& r matches Ok(c)
                &&& c.alias == alias
                &&& c.host@ == h
                &&& c.port == p
                &&& c.auth == auth
                &&& c.verify_certs == entry.verify_certs
                &&& c.ca_certs == entry.ca_certs
            },
        },
    }
}

/// Check one configuration entry and turn it into a `ClusterConfig`.
/// `choice` settles a port conflict; `ca_exists` tells whether the file named
/// by `ca_certs` exists (it is not read when `ca_certs` is absent).
pub fn validate_entry(alias: String, entry: RawClusterEntry, choice: &PortChoice, ca_exists: bool) -> (r: Result<ClusterConfig, ConfigError>)
    ensures
        entry_outcome(alias, entry, *choice, ca_exists, r),
{
    let ghost entry0 = entry;
    let (host, port) = match sanitize_host_port(alias.as_str(), entry.host.as_str(), entry.port) {
        Err(e) => {
            return Err(e);
        },
        Ok(HostPort::Resolved { host, port }) => (host, port),
        Ok(HostPort::Conflict { clean_host, url_port, field_port }) => {
            match resolve_port_conflict(alias.as_str(), clean_host, url_port, field_port, choice) {
                Ok(hp) => hp,
                Err(e) => {
                    return Err(e);
                },
            }
        },
    };
    let RawClusterEntry { host: _, port: _, username, password, api_key, verify_certs, ca_certs } = entry;
    let api_key_set = match &api_key {
        Some(k) => k.as_str().unicode_len() > 0,
        None => false,
    };
    let username_set = match &username {
        Some(u) => u.as_str().unicode_len() > 0,
        None => false,
    };
    let password_set = match &password {
        Some(p) => p.as_str().unicode_len() > 0,
        None => false,
    };
    let auth = if api_key_set {
        Auth::ApiKey(api_key.unwrap())
    } else if username_set {
        if password_set {
            Auth::Basic { username: username.unwrap(), password: password.unwrap() }
        } else {
            return Err(ConfigError::MissingPassword { alias });
        }
    } else {
        return Err(ConfigError::MissingCredentials { alias });
    };
    if ca_certs.is_some() && !ca_exists {
        return Err(ConfigError::CaCertsNotFound { alias, path: ca_certs.unwrap() });
    }
    Ok(ClusterConfig { alias, host, port, auth, verify_certs, ca_certs })
}

/// An API key takes priority over a username and password: where the entry
/// sets a non-empty `api_key`, its host and port sanitize and its CA file (if
/// any) exists, `validate_entry` succeeds with that key as its authentication,
/// whatever `username` and `password` hold.
pub proof fn law_api_key_takes_priority(
    alias: String,
    entry: RawClusterEntry,
    choice: PortChoice,
    ca_exists: bool,
    r: Result<ClusterConfig, ConfigError>,
)
    requires
        entry_outcome(alias, entry, choice, ca_exists, r),
        entry.api_key matches Some(k) && k@.len() > 0,
        host_port_outcome(entry.host@, entry.port, choice) is Some,
        entry.ca_certs is Some ==> ca_exists,
    ensures
        r matches Ok(c) && c.auth == Auth::ApiKey(entry.api_key->0) && c.alias == alias,
{
}

/// A missing password is an error only where no API key is set: when
/// `validate_entry` reports that the password is missing, the entry has no
/// non-empty `api_key`, a non-empty `username` and no non-empty `password`.
pub proof fn law_missing_password_needs_no_api_key(
    alias: String,
    entry: RawClusterEntry,
    choice: PortChoice,
    ca_exists: bool,
    r: Result<ClusterConfig, ConfigError>,
)
    requires
        entry_outcome(alias, entry, choice, ca_exists, r),
        r matches Err(ConfigError::MissingPassword { .. }),
    ensures
        !(entry.api_key matches Some(k) && k@.len() > 0),
        entry.username matches Some(u) && u@.len() > 0,
        !(entry.password matches Some(p) && p@.len() > 0),
{
}

/// The authentication of a validated entry comes from its credentials: an API
/// key only where `api_key` is set (non-empty), and then that key; a username
/// and password only where no API key is set and both are, and then those
/// two. An entry is refused for missing credentials only where it sets
/// neither an API key nor a username.
pub proof fn law_auth_follows_credentials(
    alias: String,
    entry: RawClusterEntry,
    choice: PortChoice,
    ca_exists: bool,
    r: Result<ClusterConfig, ConfigError>,
)
    requires
        entry_outcome(alias, entry, choice, ca_exists, r),
    ensures
        (r is Ok && r->Ok_0.auth is ApiKey) ==> (entry.api_key is Some && entry.api_key->0@.len() > 0
            && r->Ok_0.auth == Auth::ApiKey(entry.api_key->0)),
        (r is Ok && r->Ok_0.auth is Basic) ==> (!(entry.api_key is Some && entry.api_key->0@.len() > 0)
            && entry.username is Some && entry.username->0@.len() > 0
            && entry.password is Some && entry.password->0@.len() > 0
            && r->Ok_0.auth == (Auth::Basic { username: entry.username->0, password: entry.password->0 })),
        (r is Err && r->Err_0 is MissingCredentials) ==> (!(entry.api_key is Some && entry.api_key->0@.len() > 0)
            && !(entry.username is Some && entry.username->0@.len() > 0)),
{
}

// ── Sorting and messages ────────────────────────────────────────────────────

/// `configs` is ordered strictly by alias.
pub open spec fn sorted_by_alias(configs: Seq<ClusterConfig>) -> bool {
    forall|i: int, j: int| 0 <= i < j < configs.len() ==> seq_lt(#[trigger] configs[i].alias@, #[trigger] configs[j].alias@)
}

/// No two configurations share an alias.
pub open spec fn distinct_aliases(configs: Seq<ClusterConfig>) -> bool {
    forall|i: int, j: int| 0 <= i < configs.len() && 0 <= j < configs.len() && i != j
        ==> #[trigger] configs[i].alias@ != #[trigger] configs[j].alias@
}

/// Insert `c` into `out`, which is ordered by alias and holds no alias of `c`,
/// keeping the order; returns where it went.
fn insert_by_alias(out: &mut Vec<ClusterConfig>, c: ClusterConfig) -> (k: usize)
    requires
        sorted_by_alias(old(out)@),
        forall|i: int| 0 <= i < old(out)@.len() ==> #[trigger] old(out)@[i].alias@ != c.alias@,
    ensures
        k <= old(out)@.len(),
        final(out)@ == old(out)@.insert(k as int, c),
        sorted_by_alias(final(out)@),
{
    let len = out.len();
    let mut k: usize = 0;
    while k < len && !str_lt(c.alias.as_str(), out[k].alias.as_str())
        invariant
            len == out@.len(),
            k <= len,
            forall|i: int| 0 <= i < k ==> !seq_lt(c.alias@, #[trigger] out@[i].alias@),
        decreases len - k,
    {
        k = k + 1;
    }
    let ghost old_out = out@;
    proof {
        assert forall|i: int| 0 <= i < k implies seq_lt(#[trigger] old_out[i].alias@, c.alias@) by {
            lemma_seq_lt_total(old_out[i].alias@, c.alias@);
        }
        if k < len {
            assert forall|i: int| k <= i < len implies seq_lt(c.alias@, #[trigger] old_out[i].alias@) by {
                if i > k {
                    lemma_seq_lt_transitive(c.alias@, old_out[k as int].alias@, old_out[i].alias@);
                }
            }
        }
    }
    out.insert(k, c);
    proof {
        let s = out@;
        assert forall|i: int, j: int| 0 <= i < j < s.len() implies seq_lt(#[trigger] s[i].alias@, #[trigger] s[j].alias@) by {
            if j < k {
                assert(s[i] == old_out[i] && s[j] == old_out[j]);
            } else if j == k {
                assert(s[i] == old_out[i]);
            } else if i == k {
                assert(s[j] == old_out[j - 1]);
            } else if i < k {
                assert(s[i] == old_out[i] && s[j] == old_out[j - 1]);
                lemma_seq_lt_transitive(old_out[i].alias@, c.alias@, old_out[j - 1].alias@);
            } else {
                assert(s[i] == old_out[i - 1] && s[j] == old_out[j - 1]);
            }
        }
    }
    k
}

/// The configurations ordered by alias. Aliases are the keys of the
/// configuration file's mapping, so they are distinct.
pub fn sort_by_alias(configs: Vec<ClusterConfig>) -> (r: Vec<ClusterConfig>)
    requires
        distinct_aliases(configs@),
    ensures
        r@.to_multiset() == configs@.to_multiset(),
        sorted_by_alias(r@),
{
    let ghost orig = configs@;
    let n = configs.len();
    let mut rest = configs;
    let mut out: Vec<ClusterConfig> = Vec::new();
    proof {
        assert(orig.skip(n as int) =~= Seq::<ClusterConfig>::empty());
        assert(out@ =~= Seq::<ClusterConfig>::empty());
    }
    while rest.len() > 0
        invariant
            n == orig.len(),
            rest@ == orig.take(rest@.len() as int),
            rest@.len() <= n,
            out@.to_multiset() == orig.skip(rest@.len() as int).to_multiset(),
            sorted_by_alias(out@),
            distinct_aliases(orig),
        decreases rest@.len(),
    {
        let m = rest.len();
        let ghost old_out = out@;
        let c = rest.pop().unwrap();
        proof {
            assert(c == orig[m - 1]);
            assert(rest@ =~= orig.take(m - 1));
            assert forall|i: int| 0 <= i < old_out.len() implies #[trigger] old_out[i].alias@ != c.alias@ by {
                let x = old_out[i];
                assert(old_out.contains(x));
                vstd::seq_lib::to_multiset_contains(old_out, x);
                vstd::seq_lib::to_multiset_contains(orig.skip(m as int), x);
                assert(orig.skip(m as int).contains(x));
                let j = choose|j: int| 0 <= j < orig.skip(m as int).len() && orig.skip(m as int)[j] == x;
                assert(orig[m + j] == x);
            }
        }
        let k = insert_by_alias(&mut out, c);
        proof {
            assert(orig.skip(m - 1) =~= orig.skip(m as int).insert(0, c));
            vstd::seq_lib::to_multiset_insert(old_out, k as int, c);
            vstd::seq_lib::to_multiset_insert(orig.skip(m as int), 0, c);
        }
    }
    proof {
        assert(orig.skip(0) =~= orig);
    }
    out
}

/// The message of a configuration error.
pub open spec fn config_error_text(e: ConfigError) -> Seq<char> {
    match e {
        ConfigError::MissingPort { alias } => "Cluster '"@ + alias@
            + "': 'port' is required when host does not contain an embedded port"@,
        ConfigError::PortConflict { alias, url_port, field_port } => "Cluster '"@ + alias@
            + "': port conflict \u{2014} host URL contains port "@ + decimal(url_port as nat)
            + " but port field is "@ + decimal(field_port as nat)
            + ". Fix cluster.yml to resolve."@,
        ConfigError::InvalidPortChoice { alias, choice } => "Cluster '"@ + alias@
            + "': invalid choice '"@ + choice@ + "' for port conflict resolution"@,
        ConfigError::MissingPassword { alias } => "Cluster '"@ + alias@
            + "': 'username' is set but 'password' is missing"@,
        ConfigError::MissingCredentials { alias } => "Cluster '"@ + alias@
            + "': requires either 'api_key' or 'username'/'password'"@,
        ConfigError::CaCertsNotFound { alias, path } => "Cluster '"@ + alias@
            + "': ca_certs file not found: "@ + path@,
        ConfigError::DefaultConfigMissing => "no --config flag provided and the default `cluster.yml` was not found in the current directory"@,
    }
}

impl ConfigError {
    /// The message shown for this error.
    pub fn message(&self) -> (s: String)
        ensures
            s@ == config_error_text(*self),
    {
        match self {
            ConfigError::MissingPort { alias } => {
                let mut s = concat("Cluster '", alias.as_str());
                s.append("': 'port' is required when host does not contain an embedded port");
                s
            },
            ConfigError::PortConflict { alias, url_port, field_port } => {
                let mut s = concat("Cluster '", alias.as_str());
                s.append("': port conflict \u{2014} host URL contains port ");
                s.append(decimal_string(*url_port as u64).as_str());
                s.append(" but port field is ");
                s.append(decimal_string(*field_port as u64).as_str());
                s.append(". Fix cluster.yml to resolve.");
                s
            },
            ConfigError::InvalidPortChoice { alias, choice } => {
                let mut s = concat("Cluster '", alias.as_str());
                s.append("': invalid choice '");
                s.append(choice.as_str());
                s.append("' for port conflict resolution");
                s
            },
            ConfigError::MissingPassword { alias } => {
                let mut s = concat("Cluster '", alias.as_str());
                s.append("': 'username' is set but 'password' is missing");
                s
            },
            ConfigError::MissingCredentials { alias } => {
                let mut s = concat("Cluster '", alias.as_str());
                s.append("': requires either 'api_key' or 'username'/'password'");
                s
            },
            ConfigError::CaCertsNotFound { alias, path } => {
                let mut s = concat("Cluster '", alias.as_str());
                s.append("': ca_certs file not found: ");
                s.append(path.as_str());
                s
            },
            ConfigError::DefaultConfigMissing => String::from_str(
                "no --config flag provided and the default `cluster.yml` was not found in the current directory",
            ),
        }
    }
}

/// A sanitized host never ends with `/`.
pub proof fn law_sanitized_host_has_no_trailing_slash(host: Seq<char>, port: Option<u16>, choice: PortChoice)
    ensures
        host_port_outcome(host, port, choice) matches Some((h, _)) ==> h.len() == 0 || h.last() != '/',
{
    crate::text::lemma_strip_trailing_slashes(host);
    let h = strip_trailing_slashes(host);
    match url_port_split(h) {
        Some((portless, _, _)) => {
            crate::text::lemma_strip_trailing_slashes(portless);
        },
        _ => {},
    }
}

} // verus!
