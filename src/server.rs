use crate::registry::ClientRegistry;
use vstd::prelude::*;
use vstd::string::StrSliceExecFns;
use vstd::string::StringExecFns;

verus! {

/// The port that the streaming server listens on.
pub const SERVER_PORT: u16 = 5901;

/// The body size from which a response of unknown length is sent chunked.
pub const CHUNKED_THRESHOLD: usize = 8192;

/// The request methods that the server tells apart.
#[derive(Debug, Clone, Copy, PartialEq, Eq, Structural)]
pub enum HttpMethod {
    Get,
    Head,
    Post,
    Other,
}

/// What a request asks for.
#[derive(Debug, Clone, Copy, PartialEq, Eq, Structural)]
pub enum Route {
    /// Any method on any path but the streaming path.
    NotFound,
    /// GET on the streaming path: the audio stream itself.
    Stream,
    /// HEAD on the streaming path: the stream's headers, no body.
    Probe,
    /// POST on the streaming path: a bare acknowledgement.
    Ping,
    /// Another method on the streaming path: left unanswered.
    Unsupported,
}

/// Whether the body is sent at a fixed length or chunked.
#[derive(Debug, Clone, Copy, PartialEq, Eq, Structural)]
pub struct TransferPolicy {
    pub content_length: Option<usize>,
    pub chunked_threshold: usize,
}

/// The part of the configuration that a request reads, taken when it is accepted.
#[derive(Debug, Clone, Copy, PartialEq, Eq, Structural)]
pub struct StreamConfig {
    pub use_wave_format: bool,
    pub disable_chunked: bool,
}

/// Whether a connection started or ended streaming.
#[derive(Debug, Clone, Copy, PartialEq, Eq, Structural)]
pub enum StreamingState {
    Started,
    Ended,
}

/// A connection event for the controlling layer.
#[derive(Debug, Clone)]
pub struct StreamerFeedBack {
    pub remote_ip: String,
    pub streaming_state: StreamingState,
}

/// A response to send: status, headers in order, and for the stream its
/// transfer policy.
#[derive(Debug, Clone)]
pub struct ResponsePlan {
    pub status: u16,
    pub headers: Vec<(String, String)>,
    pub transfer: Option<TransferPolicy>,
}

pub open spec fn route_spec(method: HttpMethod, url: Seq<char>, path: Seq<char>) -> Route {
    if url != path {
        Route::NotFound
    } else {
        match method {
            HttpMethod::Get => Route::Stream,
            HttpMethod::Head => Route::Probe,
            HttpMethod::Post => Route::Ping,
            HttpMethod::Other => Route::Unsupported,
        }
    }
}

/// Picks the route of a request for `url` when the stream is served at `path`.
pub fn route(method: HttpMethod, url: &str, path: &str) -> (r: Route)
    ensures
        r == route_spec(method, url@, path@),
{
    if !str_eq(url, path) {
        Route::NotFound
    } else {
        match method {
            HttpMethod::Get => Route::Stream,
            HttpMethod::Head => Route::Probe,
            HttpMethod::Post => Route::Ping,
            HttpMethod::Other => Route::Unsupported,
        }
    }
}

/// Compares two strings character by character.
pub fn str_eq(a: &str, b: &str) -> (r: bool)
    ensures
        r == (a@ == b@),
{
    let n = a.unicode_len();
    if n != b.unicode_len() {
        return false;
    }
    let mut i: usize = 0;
    while i < n
        invariant
            n == a@.len(),
            n == b@.len(),
            i <= n,
            forall|j: int| 0 <= j < i ==> a@[j] == b@[j],
        decreases n - i,
    {
        if a.get_char(i) != b.get_char(i) {
            return false;
        }
        i = i + 1;
    }
    proof {
        assert(a@ =~= b@);
    }
    true
}

/// The transfer policy: with chunking disabled a fixed, practically endless
/// length below the threshold, so the body is never chunked; otherwise no
/// length, and chunks from 8192 bytes on.
pub fn transfer_policy(disable_chunked: bool) -> (r: TransferPolicy)
    ensures
        disable_chunked ==> r.content_length == Some((usize::MAX - 1) as usize) && r.chunked_threshold
            == usize::MAX,
        disable_chunked ==> r.content_length.unwrap() < r.chunked_threshold,
        !disable_chunked ==> r.content_length is None && r.chunked_threshold == CHUNKED_THRESHOLD,
{
    if disable_chunked {
        TransferPolicy { content_length: Some(usize::MAX - 1), chunked_threshold: usize::MAX }
    } else {
        TransferPolicy { content_length: None, chunked_threshold: CHUNKED_THRESHOLD }
    }
}

pub open spec fn digit_char(d: nat) -> char {
    (48 + d) as char
}

/// Decimal digits of `n`, without leading zeros.
pub open spec fn decimal(n: nat) -> Seq<char>
    decreases n,
{
    if n < 10 {
        seq![digit_char(n)]
    } else {
        decimal(n / 10).push(digit_char(n % 10))
    }
}

fn digit_str(d: u32) -> (r: &'static str)
    requires
        d < 10,
    ensures
        r@ == seq![digit_char(d as nat)],
{
    proof {
        reveal_strlit("0");
        reveal_strlit("1");
        reveal_strlit("2");
        reveal_strlit("3");
        reveal_strlit("4");
        reveal_strlit("5");
        reveal_strlit("6");
        reveal_strlit("7");
        reveal_strlit("8");
        reveal_strlit("9");
    }
    if d == 0 {
        "0"
    } else if d == 1 {
        "1"
    } else if d == 2 {
        "2"
    } else if d == 3 {
        "3"
    } else if d == 4 {
        "4"
    } else if d == 5 {
        "5"
    } else if d == 6 {
        "6"
    } else if d == 7 {
        "7"
    } else if d == 8 {
        "8"
    } else {
        "9"
    }
}

/// Writes `n` in decimal.
pub fn decimal_string(n: u32) -> (r: String)
    ensures
        r@ == decimal(n as nat),
    decreases n,
{
    if n < 10 {
        digit_str(n).to_owned()
    } else {
        let mut s = decimal_string(n / 10);
        s.append(digit_str(n % 10));
        s
    }
}

pub open spec fn content_type_spec(use_wave_format: bool, sample_rate: u32) -> Seq<char> {
    if use_wave_format {
        "audio/vnd.wave;codec=1"@
    } else {
        "audio/L16;rate="@ + decimal(sample_rate as nat) + ";channels=2"@
    }
}

/// The Content-Type of the stream: the wave container, or raw big-endian
/// PCM16 at the source's rate, two channels.
pub fn content_type(use_wave_format: bool, sample_rate: u32) -> (r: String)
    ensures
        r@ == content_type_spec(use_wave_format, sample_rate),
{
    if use_wave_format {
        "audio/vnd.wave;codec=1".to_owned()
    } else {
        let mut s = "audio/L16;rate=".to_owned();
        let d = decimal_string(sample_rate);
        s.append(d.as_str());
        s.append(";channels=2");
        s
    }
}

pub open spec fn server_header() -> (Seq<char>, Seq<char>) {
    ("Server"@, "UPnP/1.0 DLNADOC/1.50 LAB/1.0"@)
}

pub open spec fn name_header() -> (Seq<char>, Seq<char>) {
    ("icy-name"@, "swyh-rs"@)
}

pub open spec fn close_header() -> (Seq<char>, Seq<char>) {
    ("Connection"@, "close"@)
}

pub open spec fn transfer_mode_header() -> (Seq<char>, Seq<char>) {
    ("TransferMode.DLNA.ORG"@, "Streaming"@)
}

/// The headers of every response: Connection, Server, icy-name.
pub open spec fn minimal_headers() -> Seq<(Seq<char>, Seq<char>)> {
    seq![close_header(), server_header(), name_header()]
}

/// The headers of a stream or probe response.
pub open spec fn stream_headers(content_type: Seq<char>) -> Seq<(Seq<char>, Seq<char>)> {
    seq![
        close_header(),
        ("Content-Type"@, content_type),
        transfer_mode_header(),
        server_header(),
        name_header(),
    ]
}

pub open spec fn headers_view(h: Seq<(String, String)>) -> Seq<(Seq<char>, Seq<char>)> {
    h.map_values(|p: (String, String)| (p.0@, p.1@))
}

fn header(name: &str, value: String) -> (r: (String, String))
    ensures
        r.0@ == name@,
        r.1@ == value@,
{
    (name.to_owned(), value)
}

fn minimal_header_list() -> (r: Vec<(String, String)>)
    ensures
        headers_view(r@) == minimal_headers(),
{
    let mut v: Vec<(String, String)> = Vec::new();
    v.push(header("Connection", "close".to_owned()));
    v.push(header("Server", "UPnP/1.0 DLNADOC/1.50 LAB/1.0".to_owned()));
    v.push(header("icy-name", "swyh-rs".to_owned()));
    proof {
        assert(headers_view(v@) =~= minimal_headers());
    }
    v
}

fn stream_header_list(ct: String) -> (r: Vec<(String, String)>)
    ensures
        headers_view(r@) == stream_headers(ct@),
{
    let ghost c = ct@;
    let mut v: Vec<(String, String)> = Vec::new();
    v.push(header("Connection", "close".to_owned()));
    v.push(header("Content-Type", ct));
    v.push(header("TransferMode.DLNA.ORG", "Streaming".to_owned()));
    v.push(header("Server", "UPnP/1.0 DLNADOC/1.50 LAB/1.0".to_owned()));
    v.push(header("icy-name", "swyh-rs".to_owned()));
    proof {
        assert(headers_view(v@) =~= stream_headers(c));
    }
    v
}

/// The response to a request, from its method and url, the streaming path,
/// the configuration taken at accept time and the source's sample rate.
/// `None` for a request that is left unanswered.
pub fn plan_response(
    method: HttpMethod,
    url: &str,
    path: &str,
    config: StreamConfig,
    sample_rate: u32,
) -> (r: Option<ResponsePlan>)
    ensures
        match route_spec(method, url@, path@) {
            Route::NotFound => r matches Some(p) && p.status == 404 && headers_view(p.headers@)
                == minimal_headers() && p.transfer is None,
            Route::Stream => r matches Some(p) && p.status == 200 && headers_view(p.headers@)
                == stream_headers(content_type_spec(config.use_wave_format, sample_rate))
                && p.transfer == Some(
                if config.disable_chunked {
                    TransferPolicy {
                        content_length: Some((usize::MAX - 1) as usize),
                        chunked_threshold: usize::MAX,
                    }
                } else {
                    TransferPolicy { content_length: None, chunked_threshold: CHUNKED_THRESHOLD }
                }),
            Route::Probe => r matches Some(p) && p.status == 200 && headers_view(p.headers@)
                == stream_headers(content_type_spec(config.use_wave_format, sample_rate))
                && p.transfer is None,
            Route::Ping => r matches Some(p) && p.status == 200 && headers_view(p.headers@)
                == minimal_headers() && p.transfer is None,
            Route::Unsupported => r is None,
        },
{
    match route(method, url, path) {
        Route::NotFound => Some(
            ResponsePlan { status: 404, headers: minimal_header_list(), transfer: None },
        ),
        Route::Stream => {
            let ct = content_type(config.use_wave_format, sample_rate);
            Some(
                ResponsePlan {
                    status: 200,
                    headers: stream_header_list(ct),
                    transfer: Some(transfer_policy(config.disable_chunked)),
                },
            )
        },
        Route::Probe => {
            let ct = content_type(config.use_wave_format, sample_rate);
            Some(ResponsePlan { status: 200, headers: stream_header_list(ct), transfer: None })
        },
        Route::Ping => Some(
            ResponsePlan { status: 200, headers: minimal_header_list(), transfer: None },
        ),
        Route::Unsupported => None,
    }
}

/// The host part of a `host:port` address: what precedes its last ':'
/// (the whole text where there is none).
pub open spec fn host_of(addr: Seq<char>) -> Seq<char> {
    if exists|i: int| 0 <= i < addr.len() && addr[i] == ':' {
        let i = choose|i: int|
            0 <= i < addr.len() && addr[i] == ':' && forall|j: int|
                i < j < addr.len() ==> addr[j] != ':';
        addr.subrange(0, i)
    } else {
        addr
    }
}

/// The ip of a remote address, its port stripped.
pub fn remote_ip_of(addr: &str) -> (r: String)
    ensures
        r@ == host_of(addr@),
{
    let n = addr.unicode_len();
    let mut i: usize = n;
    while i > 0
        invariant
            n == addr@.len(),
            i <= n,
            forall|j: int| i <= j < n ==> addr@[j] != ':',
        decreases i,
    {
        if addr.get_char(i - 1) == ':' {
            let ghost k = (i - 1) as int;
            proof {
                let c = choose|c: int|
                    0 <= c < addr@.len() && addr@[c] == ':' && forall|j: int|
                        c < j < addr@.len() ==> addr@[j] != ':';
                assert(addr@[k] == ':' && forall|j: int| k < j < addr@.len() ==> addr@[j] != ':');
                if c < k {
                    assert(addr@[k] != ':');
                }
                if c > k {
                    assert(addr@[c] != ':');
                }
            }
            return addr.substring_char(0, i - 1).to_owned();
        }
        i = i - 1;
    }
    addr.to_owned()
}

/// A GET request was accepted: its adapter is registered under `key`, and
/// the event to report is `Started` for `ip`.
pub fn stream_started<T>(
    clients: &mut ClientRegistry<T>,
    key: String,
    ip: String,
    value: T,
) -> (r: StreamerFeedBack)
    requires
        old(clients).wf(),
    ensures
        final(clients).wf(),
        final(clients).key_set() == old(clients).key_set().insert(key@),
        final(clients).has_ip(ip@),
        final(clients).has_key(key@),
        final(clients).ips()[final(clients).keys().index_of(key@)] == ip@,
        final(clients).values()[final(clients).keys().index_of(key@)] == value,
        r.remote_ip@ == ip@,
        r.streaming_state == StreamingState::Started,
{
    let ghost k = key@;
    let ghost v = ip@;
    let ghost val = value;
    let ip2 = ip.clone();
    clients.insert(key, ip, value);
    proof {
        let ks = clients.keys();
        let j: int = if old(clients).has_key(k) {
            old(clients).keys().index_of(k)
        } else {
            ks.len() - 1
        };
        if old(clients).has_key(k) {
            old(clients).keys().index_of_first_ensures(k);
        }
        assert(0 <= j < ks.len() && ks[j] == k);
        assert(clients.ips()[j] == v);
        assert(clients.values()[j] == val);
        assert(ks.contains(k));
        let c = ks.index_of(k);
        assert(0 <= c < ks.len() && ks[c] == k);
        assert(c == j);
    }
    StreamerFeedBack { remote_ip: ip2, streaming_state: StreamingState::Started }
}

/// A stream's response is over, however it ended: its entry under `key` is
/// removed. `Ended` is reported for `ip` exactly when no connection from that
/// ip is left; while another one is, nothing is reported.
pub fn stream_ended<T>(clients: &mut ClientRegistry<T>, key: &String, ip: &String) -> (r: Option<
    StreamerFeedBack,
>)
    requires
        old(clients).wf(),
    ensures
        final(clients).wf(),
        final(clients).key_set() == old(clients).key_set().remove(key@),
        r is Some <==> !final(clients).has_ip(ip@),
        r matches Some(f) ==> f.remote_ip@ == ip@ && f.streaming_state == StreamingState::Ended,
        (exists|j: int|
            0 <= j < old(clients).keys().len() && old(clients).keys()[j] != key@ && old(
                clients,
            ).ips()[j] == ip@) ==> r is None,
        (forall|j: int|
            0 <= j < old(clients).keys().len() && old(clients).ips()[j] == ip@ ==> old(
                clients,
            ).keys()[j] == key@) ==> r is Some,
{
    let ghost old_keys = clients.keys();
    let ghost old_ips = clients.ips();
    let _ = clients.remove(key);
    proof {
        let ks = clients.keys();
        let is = clients.ips();
        if old_keys.contains(key@) {
            let i = old_keys.index_of(key@);
            old_keys.index_of_first_ensures(key@);
            assert(ks == old_keys.remove(i));
            assert(is == old_ips.remove(i));
            if exists|j: int| 0 <= j < old_keys.len() && old_keys[j] != key@ && old_ips[j] == ip@ {
                let j = choose|j: int|
                    0 <= j < old_keys.len() && old_keys[j] != key@ && old_ips[j] == ip@;
                if j < i {
                    assert(is[j] == ip@);
                } else {
                    assert(is[j - 1] == ip@);
                }
            }
            if forall|j: int|
                0 <= j < old_keys.len() && old_ips[j] == ip@ ==> old_keys[j] == key@ {
                assert forall|j: int| 0 <= j < is.len() implies is[j] != ip@ by {
                    if j < i {
                        assert(ks[j] == old_keys[j]);
                        assert(old_keys[j] != key@);
                    } else {
                        assert(ks[j] == old_keys[j + 1]);
                        assert(old_keys[j + 1] != key@);
                    }
                }
            }
        } else {
            if exists|j: int| 0 <= j < old_keys.len() && old_keys[j] != key@ && old_ips[j] == ip@ {
                let j = choose|j: int|
                    0 <= j < old_keys.len() && old_keys[j] != key@ && old_ips[j] == ip@;
                assert(is[j] == ip@);
            }
            if forall|j: int|
                0 <= j < old_keys.len() && old_ips[j] == ip@ ==> old_keys[j] == key@ {
                assert forall|j: int| 0 <= j < is.len() implies is[j] != ip@ by {
                    assert(old_keys[j] != key@);
                }
            }
        }
    }
    if clients.contains_ip(ip) {
        None
    } else {
        Some(StreamerFeedBack { remote_ip: ip.clone(), streaming_state: StreamingState::Ended })
    }
}

} // verus!
