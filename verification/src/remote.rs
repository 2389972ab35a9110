//! The remote counter: where it is asked, how, and what its reply is worth.

use crate::messages::{Message, SystemMessage, Tool};
use crate::text;
use crate::token;
use vstd::prelude::*;

verus! {

/// The TLS implementation of an HTTP client.
#[derive(Debug, Clone, Copy, PartialEq, Eq, Structural)]
pub enum TlsBackend {
    Rustls,
    NativeTls,
}

impl Default for TlsBackend {
    fn default() -> (r: Self)
        ensures
            r == TlsBackend::Rustls,
    {
        TlsBackend::Rustls
    }
}

/// A proxy for outgoing requests.
#[derive(Debug, Clone)]
pub struct ProxyConfig {
    pub url: String,
    pub username: Option<String>,
    pub password: Option<String>,
}

/// How the remote counter is reached.
#[derive(Debug, Clone)]
pub struct CountTokensConfig {
    /// Its address.
    pub api_url: Option<String>,
    /// The key it asks for.
    pub api_key: Option<String>,
    /// How the key is sent: `bearer`, or else in the header `x-api-key`.
    pub auth_type: String,
    /// The proxy on the way.
    pub proxy: Option<ProxyConfig>,
    pub tls_backend: TlsBackend,
}

impl Default for CountTokensConfig {
    fn default() -> (r: Self)
        ensures
            r.api_url is None,
            r.api_key is None,
            r.auth_type@.len() == 0,
            r.proxy is None,
            r.tls_backend == TlsBackend::Rustls,
    {
        CountTokensConfig {
            api_url: None,
            api_key: None,
            auth_type: String::new(),
            proxy: None,
            tls_backend: TlsBackend::Rustls,
        }
    }
}

/// A place for one configuration, filled at most once.
#[derive(Debug)]
pub struct ConfigSlot {
    value: Option<CountTokensConfig>,
}

impl View for ConfigSlot {
    type V = Option<CountTokensConfig>;

    closed spec fn view(&self) -> Option<CountTokensConfig> {
        self.value
    }
}

impl ConfigSlot {
    /// An empty place.
    pub fn new() -> (r: Self)
        ensures
            r@ is None,
    {
        ConfigSlot { value: None }
    }
}

/// Fills the place. What it already holds stays.
pub fn init_config(slot: &mut ConfigSlot, config: CountTokensConfig)
    ensures
        final(slot)@ == match old(slot)@ {
            Some(first) => Some(first),
            None => Some(config),
        },
{
    if slot.value.is_none() {
        slot.value = Some(config);
    }
}

/// What the place holds.
pub fn get_config(slot: &ConfigSlot) -> (r: Option<&CountTokensConfig>)
    ensures
        match r {
            Some(c) => slot@ == Some(*c),
            None => slot@ is None,
        },
{
    slot.value.as_ref()
}

/// A POST request to the remote counter.
#[derive(Debug)]
pub struct RemoteRequest {
    pub url: String,
    /// Names and values, in order.
    pub headers: Vec<(String, String)>,
    pub timeout_secs: u64,
}

/// Seconds until a request is given up.
pub const TIMEOUT_SECS: u64 = 300;

/// The header that carries the key, where there is one.
pub open spec fn auth_header(config: CountTokensConfig) -> Option<(Seq<char>, Seq<char>)> {
    match config.api_key {
        Some(key) => if config.auth_type@ == "bearer"@ {
            Some(("Authorization"@, "Bearer "@ + key@))
        } else {
            Some(("x-api-key"@, key@))
        },
        None => None,
    }
}

/// The headers of a request, in order.
pub open spec fn request_headers(config: CountTokensConfig) -> Seq<(Seq<char>, Seq<char>)> {
    let content_type = ("Content-Type"@, "application/json"@);
    match auth_header(config) {
        Some(auth) => seq![auth, content_type],
        None => seq![content_type],
    }
}

/// The request to send; none where no remote counter is configured.
pub fn remote_request(config: Option<&CountTokensConfig>) -> (r: Option<RemoteRequest>)
    ensures
        r is Some <==> (config is Some && config->0.api_url is Some),
        r matches Some(request) ==> {
            &&& request.url@ == config->0.api_url->0@
            &&& crate::json::pair_views(request.headers@) == request_headers(*config->0)
            &&& request.timeout_secs == TIMEOUT_SECS
        },
{
    match config {
        None => None,
        Some(c) => match &c.api_url {
            None => None,
            Some(url) => {
                let mut headers: Vec<(String, String)> = Vec::new();
                if let Some(key) = &c.api_key {
                    if text::same(c.auth_type.as_str(), "bearer") {
                        let mut value = "Bearer ".to_owned();
                        value.append(key.as_str());
                        headers.push(("Authorization".to_owned(), value));
                    } else {
                        headers.push(("x-api-key".to_owned(), key.clone()));
                    }
                }
                headers.push(("Content-Type".to_owned(), "application/json".to_owned()));
                assert(crate::json::pair_views(headers@) =~= request_headers(*c));
                Some(RemoteRequest { url: url.clone(), headers, timeout_secs: TIMEOUT_SECS })
            },
        },
    }
}

/// What came of a request.
#[derive(Debug, Clone, Copy)]
pub enum RemoteOutcome {
    /// No reply came.
    Failed,
    /// A reply with this HTTP status; the count, where its body held one.
    Replied { status: u16, input_tokens: Option<i32> },
}

/// Why a request gave no count.
#[derive(Debug, Clone, Copy, PartialEq, Eq, Structural)]
pub enum RemoteError {
    NoReply,
    Status(u16),
    NoCount,
}

/// A signed 32-bit number as an unsigned 64-bit one, by its sign-extended bits.
pub open spec fn as_u64(n: i32) -> int {
    if n >= 0 {
        n as int
    } else {
        n + 0x1_0000_0000_0000_0000
    }
}

/// The count that a request gave: that of a reply with a status from 200 to 299.
pub open spec fn remote_value(outcome: RemoteOutcome) -> Result<int, RemoteError> {
    match outcome {
        RemoteOutcome::Failed => Err(RemoteError::NoReply),
        RemoteOutcome::Replied { status, input_tokens } => if !(200 <= status <= 299) {
            Err(RemoteError::Status(status))
        } else {
            match input_tokens {
                Some(n) => Ok(as_u64(n)),
                None => Err(RemoteError::NoCount),
            }
        },
    }
}

/// The count that a request gave.
pub fn remote_count(outcome: RemoteOutcome) -> (r: Result<u64, RemoteError>)
    ensures
        match r {
            Ok(n) => remote_value(outcome) == Ok::<int, RemoteError>(n as int),
            Err(e) => remote_value(outcome) == Err::<int, RemoteError>(e),
        },
{
    match outcome {
        RemoteOutcome::Failed => Err(RemoteError::NoReply),
        RemoteOutcome::Replied { status, input_tokens } => {
            if status < 200 || status > 299 {
                return Err(RemoteError::Status(status));
            }
            match input_tokens {
                Some(n) => if n >= 0 {
                    Ok(n as u64)
                } else {
                    Ok((n as i128 + 0x1_0000_0000_0000_0000) as u64)
                },
                None => Err(RemoteError::NoCount),
            }
        },
    }
}

/// The number of tokens in a request: the remote count where one was asked for
/// and came, else the count made here.
pub fn count_all_tokens(
    remote: Option<RemoteOutcome>,
    system: Option<&[SystemMessage]>,
    messages: &[Message],
    tools: Option<&[Tool]>,
) -> (r: u64)
    ensures
        r == match remote {
            Some(outcome) => match remote_value(outcome) {
                Ok(n) => n,
                Err(_) => token::request_tokens(
                    token::items(system),
                    messages@,
                    token::items(tools),
                ) as int,
            },
            None => token::request_tokens(
                token::items(system),
                messages@,
                token::items(tools),
            ) as int,
        },
{
    if let Some(outcome) = remote {
        if let Ok(n) = remote_count(outcome) {
            return n;
        }
    }
    token::count_all_tokens_local(system, messages, tools)
}

/// The key goes into one header before that of the content: as a bearer token
/// where that is asked for, under its own name for every other kind, and nowhere
/// where there is none.
pub proof fn key_is_sent_as_asked(config: CountTokensConfig)
    ensures
        ({
            let headers = request_headers(config);
            let json = ("Content-Type"@, "application/json"@);
            &&& headers.last() == json
            &&& config.api_key is None ==> headers.len() == 1
            &&& config.api_key matches Some(key) ==> headers.len() == 2 && (config.auth_type@
                == "bearer"@ ==> headers[0] == ("Authorization"@, "Bearer "@ + key@)) && (
            config.auth_type@ != "bearer"@ ==> headers[0] == ("x-api-key"@, key@))
            &&& TIMEOUT_SECS == 300
        }),
{
}

/// A count comes exactly of a reply with a status from 200 to 299 that holds one;
/// a negative one is read by its bits. Every other outcome has its own error.
pub proof fn only_good_replies_count(status: u16, n: i32)
    ensures
        ({
            let with = remote_value(RemoteOutcome::Replied { status, input_tokens: Some(n) });
            let without = remote_value(RemoteOutcome::Replied { status, input_tokens: None });
            let bad = Err::<int, RemoteError>(RemoteError::Status(status));
            &&& remote_value(RemoteOutcome::Failed) == Err::<int, RemoteError>(
                RemoteError::NoReply,
            )
            &&& status < 200 || status > 299 ==> with == bad && without == bad
            &&& 200 <= status <= 299 ==> without == Err::<int, RemoteError>(
                RemoteError::NoCount,
            ) && (with matches Ok(v) && 0 <= v <= u64::MAX && (n >= 0 ==> v == n) && (n < 0
                ==> v - n == 0x1_0000_0000_0000_0000))
        }),
{
}

} // verus!
