//! What the network transports share: which hosts are served, who is let in,
//! and what a health check says.

use subtle::ConstantTimeEq;
use vstd::prelude::*;

use crate::text::{lemma_bytes_are_text, same};

verus! {

/// Shared state for the middleware.
#[derive(Clone, Debug)]
pub struct AppState {
    pub token: Option<String>,
}

/// What the address a server is bound to names.
#[derive(Debug, Clone, PartialEq, Eq)]
pub enum BindAddress {
    /// An address and a port, and the address is every one of the machine.
    Wildcard,
    /// An address and a port: the address, as text.
    Address(String),
    /// No address: a name, as far as anybody knows.
    Name,
}

/// A list of hosts as text.
pub open spec fn host_views(hosts: Seq<String>) -> Seq<Seq<char>> {
    hosts.map_values(|h: String| h@)
}

/// The names by which a machine reaches itself.
pub open spec fn loopback() -> Seq<Seq<char>> {
    seq!["localhost"@, "127.0.0.1"@, "::1"@]
}

/// `StreamableHttpServerConfig::default` of rmcp: the `Host` values it accepts
/// without being told any, which are the loopback names.
#[verifier::external_body]
fn loopback_hosts() -> (hosts: Vec<String>)
    ensures
        host_views(hosts@) == loopback(),
{
    rmcp::transport::streamable_http_server::tower::StreamableHttpServerConfig::default()
        .allowed_hosts
}

/// Where the last colon before `at` stands.
pub open spec fn last_colon(s: Seq<char>, at: int) -> Option<int>
    decreases at,
{
    if at <= 0 {
        None
    } else if s[at - 1] == ':' {
        Some(at - 1)
    } else {
        last_colon(s, at - 1)
    }
}

/// What the address of a server names, as text.
pub enum BoundView {
    Wildcard,
    Address(Seq<char>),
    Name,
}

impl View for BindAddress {
    type V = BoundView;

    open spec fn view(&self) -> BoundView {
        match self {
            BindAddress::Wildcard => BoundView::Wildcard,
            BindAddress::Address(address) => BoundView::Address(address@),
            BindAddress::Name => BoundView::Name,
        }
    }
}

/// The host that a server is bound as: the address without its port, or the
/// name in front of the last colon. A wildcard names none.
pub open spec fn bound_host(bind: Seq<char>, address: BoundView) -> Option<Seq<char>> {
    match address {
        BoundView::Wildcard => None,
        BoundView::Address(address) => Some(address),
        BoundView::Name => if bind == "[::]"@ {
            None
        } else {
            match last_colon(bind, bind.len() as int) {
                Some(at) => Some(bind.take(at)),
                None => None,
            }
        },
    }
}

/// The `Host` values that are accepted: the loopback names, and the host that
/// the server is bound as where it is not among them.
pub open spec fn accepted_hosts(bind: Seq<char>, address: BoundView) -> Seq<Seq<char>> {
    match bound_host(bind, address) {
        Some(host) if !loopback().contains(host) => loopback().push(host),
        _ => loopback(),
    }
}

/// The name in front of the last colon.
fn name_before_port(bind: &str) -> (name: Option<String>)
    ensures
        (match name {
            Some(name) => Some(name@),
            None => None,
        }) == (match last_colon(bind@, bind@.len() as int) {
            Some(at) => Some(bind@.take(at)),
            None => None,
        }),
{
    let n: usize = bind.unicode_len();
    let mut at: usize = n;
    while at > 0
        invariant
            at <= n,
            n == bind@.len(),
            last_colon(bind@, at as int) == last_colon(bind@, n as int),
        decreases at,
    {
        if bind.get_char(at - 1) == ':' {
            let name = bind.substring_char(0, at - 1);
            assert(name@ =~= bind@.take(at - 1));
            return Some(name.to_owned());
        }
        at -= 1;
    }
    None
}

/// Whether a host is among some.
fn lists(hosts: &Vec<String>, host: &str) -> (found: bool)
    ensures
        found == host_views(hosts@).contains(host@),
{
    let ghost views = host_views(hosts@);
    let mut i: usize = 0;
    while i < hosts.len()
        invariant
            i <= hosts@.len(),
            views == host_views(hosts@),
            forall|k: int| 0 <= k < i ==> #[trigger] views[k] != host@,
        decreases hosts@.len() - i,
    {
        assert(views[i as int] == hosts@[i as int]@);
        if same(hosts[i].as_str(), host) {
            return true;
        }
        i += 1;
    }
    false
}

/// The `Host` values the server accepts: the loopback defaults plus the
/// concrete address in `bind`, so a server bound to one LAN address answers
/// clients that name that address. A wildcard bind (`0.0.0.0`, `[::]`) names no
/// address, so it adds nothing and such a server answers loopback clients only.
/// Entries carry no port: any port is then accepted for that host.
///
/// `address` says what address `bind` is, if it is one.
pub fn allowed_hosts(bind: &str, address: &BindAddress) -> (hosts: Vec<String>)
    ensures
        host_views(hosts@) == accepted_hosts(bind@, address@),
{
    let mut hosts = loopback_hosts();
    let bound = match address {
        BindAddress::Wildcard => None,
        BindAddress::Address(address) => Some(address.clone()),
        BindAddress::Name => if same(bind, "[::]") {
            None
        } else {
            name_before_port(bind)
        },
    };
    if let Some(host) = bound {
        if !lists(&hosts, host.as_str()) {
            let ghost before = host_views(hosts@);
            let ghost text = host@;
            hosts.push(host);
            assert(host_views(hosts@) =~= before.push(text));
        }
    }
    hosts
}

/// The loopback names are accepted whatever a server is bound as, a wildcard
/// adds nothing to them, and no host is listed twice.
pub proof fn loopback_is_always_accepted(bind: Seq<char>, address: BoundView)
    ensures
        accepted_hosts(bind, address).take(3) == loopback(),
        address is Wildcard ==> accepted_hosts(bind, address) == loopback(),
        accepted_hosts(bind, address).len() <= 4,
        accepted_hosts(bind, address).len() == 4 ==> !loopback().contains(
            accepted_hosts(bind, address)[3],
        ),
        bound_host(bind, address) matches Some(host) ==> accepted_hosts(bind, address).contains(
            host,
        ),
{
    let hosts = accepted_hosts(bind, address);
    assert(hosts.take(3) =~= loopback());
    if let Some(host) = bound_host(bind, address) {
        if !loopback().contains(host) {
            assert(hosts[3] == host);
        }
    }
}

/// What the middleware does with a request.
#[derive(Debug, Clone, Copy, PartialEq, Eq, Structural)]
pub enum Verdict {
    /// Let it through.
    Allow,
    /// Refuse it: the token is not the one that is set.
    InvalidToken,
    /// Refuse it: it carries no bearer token.
    TokenRequired,
}

/// Whether a request is let through: a health check always, any request where
/// no token is set, and else one that carries the token.
pub open spec fn judged(
    path: Seq<char>,
    token: Option<Seq<char>>,
    authorization: Option<Seq<char>>,
) -> Verdict {
    if path == "/health"@ {
        Verdict::Allow
    } else {
        match token {
            None => Verdict::Allow,
            Some(token) => match authorization {
                Some(header) if header.len() >= 7 && header.take(7) == "Bearer "@ => if header.skip(
                    7,
                ) == token {
                    Verdict::Allow
                } else {
                    Verdict::InvalidToken
                },
                _ => Verdict::TokenRequired,
            },
        }
    }
}

/// A value that may be missing, as text.
pub open spec fn header_view(value: Option<&str>) -> Option<Seq<char>> {
    match value {
        Some(value) => Some(value@),
        None => None,
    }
}

/// The token that is set, as text.
pub open spec fn token_view(state: AppState) -> Option<Seq<char>> {
    match state.token {
        Some(token) => Some(token@),
        None => None,
    }
}

/// `ConstantTimeEq::ct_eq` of subtle on byte slices: whether the two are equal,
/// length and bytes. How long it takes is no part of the claim.
#[verifier::external_body]
fn equal_bytes(a: &[u8], b: &[u8]) -> (equal: bool)
    ensures
        equal == (a@ == b@),
{
    a.ct_eq(b).into()
}

/// Bearer token authentication.
///
/// If no token is configured, all requests are allowed. The `/health` endpoint
/// is always accessible without a token.
pub fn authorize(path: &str, state: &AppState, authorization: Option<&str>) -> (verdict: Verdict)
    ensures
        verdict == judged(path@, token_view(*state), header_view(authorization)),
{
    if same(path, "/health") {
        return Verdict::Allow;
    }
    let expected = match &state.token {
        Some(token) => token,
        None => {
            return Verdict::Allow;
        },
    };
    let header = match authorization {
        Some(header) => header,
        None => {
            return Verdict::TokenRequired;
        },
    };
    let n: usize = header.unicode_len();
    if n < 7 {
        return Verdict::TokenRequired;
    }
    let scheme = header.substring_char(0, 7);
    assert(scheme@ =~= header@.take(7));
    if !same(scheme, "Bearer ") {
        return Verdict::TokenRequired;
    }
    let provided = header.substring_char(7, n);
    assert(provided@ =~= header@.skip(7));
    let matched = equal_bytes(provided.as_bytes(), expected.as_str().as_bytes());
    proof {
        if matched {
            lemma_bytes_are_text(provided@, expected@);
        }
    }
    if matched {
        Verdict::Allow
    } else {
        Verdict::InvalidToken
    }
}

impl Verdict {
    /// What a refused request is answered, with the status `401`.
    pub fn refusal(&self) -> (message: Option<&'static str>)
        ensures
            match *self {
                Verdict::Allow => message is None,
                Verdict::InvalidToken => message matches Some(m) && m@ == "Invalid bearer token"@,
                Verdict::TokenRequired => message matches Some(m) && m@
                    == "Bearer token required"@,
            },
    {
        match self {
            Verdict::Allow => None,
            Verdict::InvalidToken => Some("Invalid bearer token"),
            Verdict::TokenRequired => Some("Bearer token required"),
        }
    }
}

/// With a token set, only the health check and a request that carries exactly
/// this token get through.
pub proof fn only_the_token_opens(
    path: Seq<char>,
    token: Seq<char>,
    authorization: Option<Seq<char>>,
)
    ensures
        judged(path, Some(token), authorization) == Verdict::Allow <==> path == "/health"@
            || authorization == Some("Bearer "@ + token),
{
    reveal_strlit("Bearer ");
    if let Some(header) = authorization {
        if header == "Bearer "@ + token {
            assert(header.take(7) =~= "Bearer "@);
            assert(header.skip(7) =~= token);
        }
        if header.len() >= 7 && header.take(7) == "Bearer "@ && header.skip(7) == token {
            assert(header =~= header.take(7) + header.skip(7));
        }
    }
}

/// What a health check says.
#[derive(Debug, Clone, PartialEq, Eq)]
pub struct Health {
    pub status: String,
    pub version: String,
    /// Set where the transport is encrypted, and missing elsewhere.
    pub tls: Option<bool>,
}

/// What a health check says of this version.
pub fn health(version: &str, tls_enabled: bool) -> (answer: Health)
    ensures
        answer.status@ == "ok"@,
        answer.version@ == version@,
        answer.tls == (if tls_enabled {
            Some(true)
        } else {
            None
        }),
{
    let tls = if tls_enabled {
        Some(true)
    } else {
        None
    };
    Health { status: "ok".to_owned(), version: version.to_owned(), tls }
}

/// A signal that ends the server.
#[derive(Debug, Clone, Copy, PartialEq, Eq, Structural)]
pub enum Shutdown {
    /// What `docker stop` and systemd send.
    Terminate,
    /// What Ctrl-C sends.
    Interrupt,
}

impl Shutdown {
    /// The number of the signal, so a caller that must exit with the code a
    /// shell expects does not have to invent one.
    pub fn number(&self) -> (number: i32)
        ensures
            number == (match *self {
                Shutdown::Terminate => 15i32,
                Shutdown::Interrupt => 2i32,
            }),
    {
        match self {
            Shutdown::Terminate => 15,
            Shutdown::Interrupt => 2,
        }
    }
}

/// Where a server that is bound to `bind` is reached.
pub fn endpoint(bind: &str) -> (url: String)
    ensures
        url@ == "http://"@ + bind@ + "/mcp"@,
{
    let mut url = "http://".to_owned();
    url.append(bind);
    url.append("/mcp");
    url
}

/// What is said of an address that cannot be bound.
pub fn bind_failure(bind: &str, error: &str) -> (message: String)
    ensures
        message@ == "Failed to bind to "@ + bind@ + ": "@ + error@,
{
    let mut message = "Failed to bind to ".to_owned();
    message.append(bind);
    message.append(": ");
    message.append(error);
    message
}

/// What is said of a server that failed.
pub fn serve_failure(error: &str) -> (message: String)
    ensures
        message@ == "HTTP server error: "@ + error@,
{
    let mut message = "HTTP server error: ".to_owned();
    message.append(error);
    message
}

/// Why a request is refused where a token is set. One with a bearer token is
/// refused for the token alone, and only where it is another one. One without,
/// whatever else it carries, is asked for one. The health check is never
/// refused, and without a token nothing is.
pub proof fn why_a_request_is_refused(
    path: Seq<char>,
    token: Seq<char>,
    authorization: Option<Seq<char>>,
)
    ensures
        judged(path, Some(token), authorization) == Verdict::InvalidToken <==> path != "/health"@
            && (exists|given: Seq<char>|
            given != token && authorization == Some(#[trigger] ("Bearer "@ + given))),
        judged(path, Some(token), authorization) == Verdict::TokenRequired <==> path != "/health"@
            && !(exists|given: Seq<char>| authorization == Some(#[trigger] ("Bearer "@ + given))),
        judged(path, None, authorization) == Verdict::Allow,
        judged("/health"@, Some(token), authorization) == Verdict::Allow,
{
    reveal_strlit("Bearer ");
    if let Some(header) = authorization {
        if header.len() >= 7 && header.take(7) == "Bearer "@ {
            let given = header.skip(7);
            assert(header =~= "Bearer "@ + given);
        }
        assert forall|given: Seq<char>|
            authorization == Some(#[trigger] ("Bearer "@ + given)) implies header.len() >= 7
            && header.take(7) == "Bearer "@ && header.skip(7) == given by {
            assert(header.take(7) =~= "Bearer "@);
            assert(header.skip(7) =~= given);
        }
    }
}

/// A server that is bound to a name is reached by what stands before the last
/// colon, and by nothing more where there is no colon. The wildcard in brackets
/// is no name.
pub proof fn a_name_ends_before_the_last_colon(name: Seq<char>, port: Seq<char>)
    requires
        !port.contains(':'),
    ensures
        name + seq![':'] + port != "[::]"@ ==> bound_host(
            name + seq![':'] + port,
            BoundView::Name,
        ) == Some(name),
        bound_host(port, BoundView::Name) is None,
        bound_host("[::]"@, BoundView::Name) is None,
{
    let bind = name + seq![':'] + port;
    lemma_last_colon(bind, bind.len() as int, name.len() as int);
    assert(bind.take(name.len() as int) =~= name);
    lemma_last_colon(port, port.len() as int, -1);
}

proof fn lemma_last_colon(s: Seq<char>, at: int, colon: int)
    requires
        -1 <= colon < at <= s.len() || colon == -1 && 0 <= at <= s.len(),
        colon >= 0 ==> s[colon] == ':',
        forall|i: int| colon < i < at ==> #[trigger] s[i] != ':',
    ensures
        last_colon(s, at) == if colon >= 0 {
            Some(colon)
        } else {
            None
        },
    decreases at,
{
    if at > 0 && at - 1 > colon {
        assert(s[at - 1] != ':');
        lemma_last_colon(s, at - 1, colon);
    }
}

/// The hosts that are accepted are the three loopback names, in their order, and
/// behind them the host that a server is bound as, unless it is one of them or
/// the address names none.
pub proof fn which_hosts_are_accepted(bind: Seq<char>, address: Seq<char>)
    ensures
        accepted_hosts(bind, BoundView::Wildcard) == seq!["localhost"@, "127.0.0.1"@, "::1"@],
        address == "localhost"@ || address == "127.0.0.1"@ || address == "::1"@ ==> accepted_hosts(
            bind,
            BoundView::Address(address),
        ) == seq!["localhost"@, "127.0.0.1"@, "::1"@],
        address != "localhost"@ && address != "127.0.0.1"@ && address != "::1"@ ==> accepted_hosts(
            bind,
            BoundView::Address(address),
        ) == seq!["localhost"@, "127.0.0.1"@, "::1"@, address],
{
    let names = loopback();
    assert(names[0] == "localhost"@ && names[1] == "127.0.0.1"@ && names[2] == "::1"@);
    assert(names.push(address) =~= seq!["localhost"@, "127.0.0.1"@, "::1"@, address]);
}

} // verus!
