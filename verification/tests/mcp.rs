//! What the network transports share.

use mdkb::mcp::common::{
    allowed_hosts, authorize, bind_failure, endpoint, health, serve_failure, AppState,
    BindAddress, Shutdown, Verdict,
};

fn address(text: &str) -> BindAddress {
    BindAddress::Address(text.to_string())
}

/// The loopback names stay on every list: a browser on the same machine
/// reaches the server as `localhost` whatever it is bound as.
fn assert_loopback(hosts: &[String]) {
    for name in ["localhost", "127.0.0.1", "::1"] {
        assert!(
            hosts.iter().any(|h| h == name),
            "{name} missing from {hosts:?}"
        );
    }
}

#[test]
fn allowed_hosts_default_bind_is_loopback_only() {
    let hosts = allowed_hosts("127.0.0.1:8080", &address("127.0.0.1"));
    assert_loopback(&hosts);
    assert_eq!(hosts.len(), 3, "loopback bind adds no duplicate: {hosts:?}");
}

#[test]
fn allowed_hosts_lan_bind_adds_that_address() {
    let hosts = allowed_hosts("192.168.1.20:8080", &address("192.168.1.20"));
    assert_loopback(&hosts);
    assert!(hosts.contains(&"192.168.1.20".to_string()), "{hosts:?}");
}

#[test]
fn allowed_hosts_ipv6_bind_adds_bare_address() {
    // rmcp strips the brackets from the `Host` header before matching,
    // so the entry must be the bare address.
    let hosts = allowed_hosts("[fd00::7]:8080", &address("fd00::7"));
    assert!(hosts.contains(&"fd00::7".to_string()), "{hosts:?}");
}

#[test]
fn allowed_hosts_wildcard_bind_adds_nothing() {
    for bind in ["0.0.0.0:8080", "[::]:8080"] {
        let hosts = allowed_hosts(bind, &BindAddress::Wildcard);
        assert_loopback(&hosts);
        assert_eq!(
            hosts.len(),
            3,
            "{bind} must not allow every Host: {hosts:?}"
        );
    }
}

#[test]
fn allowed_hosts_hostname_bind_adds_the_name() {
    let hosts = allowed_hosts("mdkb.internal:8080", &BindAddress::Name);
    assert!(hosts.contains(&"mdkb.internal".to_string()), "{hosts:?}");
}

#[test]
fn a_bind_without_a_port_names_no_host() {
    for bind in ["mdkb.internal", "[::]", ""] {
        assert_eq!(allowed_hosts(bind, &BindAddress::Name).len(), 3, "{bind}");
    }
    assert_eq!(
        allowed_hosts("a:b:1", &BindAddress::Name).last().map(String::as_str),
        Some("a:b")
    );
    assert_eq!(allowed_hosts("localhost:80", &BindAddress::Name).len(), 3);
}

/// What a server with `token` does with a request.
fn verdict(token: Option<&str>, path: &str, authorization: Option<&str>) -> Verdict {
    let state = AppState {
        token: token.map(str::to_string),
    };
    authorize(path, &state, authorization)
}

#[test]
fn test_auth_no_token_configured_allows_all() {
    assert_eq!(verdict(None, "/mcp", None), Verdict::Allow);
}

#[test]
fn test_auth_health_bypasses_token_check() {
    assert_eq!(verdict(Some("secret"), "/health", None), Verdict::Allow);
}

#[test]
fn test_auth_valid_token_allowed() {
    assert_eq!(
        verdict(Some("secret"), "/mcp", Some("Bearer secret")),
        Verdict::Allow
    );
}

#[test]
fn test_auth_invalid_token_rejected() {
    let refused = verdict(Some("secret"), "/mcp", Some("Bearer wrong"));
    assert_eq!(refused, Verdict::InvalidToken);
    assert_eq!(refused.refusal(), Some("Invalid bearer token"));
}

#[test]
fn test_auth_missing_header_rejected() {
    let refused = verdict(Some("secret"), "/mcp", None);
    assert_eq!(refused, Verdict::TokenRequired);
    assert_eq!(refused.refusal(), Some("Bearer token required"));
}

#[test]
fn test_auth_non_bearer_scheme_rejected() {
    let refused = verdict(Some("secret"), "/mcp", Some("Basic dXNlcjpwYXNz"));
    assert_eq!(refused, Verdict::TokenRequired);
    assert!(refused.refusal().is_some());
}

#[test]
fn only_the_whole_token_opens() {
    for header in ["Bearer", "Bearer ", "Bearer secre", "Bearer secret ", "bearer secret"] {
        assert_ne!(verdict(Some("secret"), "/mcp", Some(header)), Verdict::Allow, "{header}");
    }
    assert_eq!(verdict(Some(""), "/mcp", Some("Bearer ")), Verdict::Allow);
    assert_eq!(verdict(Some("secret"), "/health/", None), Verdict::TokenRequired);
    assert_eq!(Verdict::Allow.refusal(), None);
}

#[test]
fn a_health_check_names_the_version() {
    let plain = health("1.2.3", false);
    assert_eq!((plain.status.as_str(), plain.version.as_str()), ("ok", "1.2.3"));
    assert_eq!(plain.tls, None);
    assert_eq!(health("1.2.3", true).tls, Some(true));
}

#[test]
fn a_signal_has_the_number_a_shell_expects() {
    assert_eq!(Shutdown::Terminate.number(), 15);
    assert_eq!(Shutdown::Interrupt.number(), 2);
}

#[test]
fn what_a_server_says() {
    assert_eq!(endpoint("127.0.0.1:1"), "http://127.0.0.1:1/mcp");
    assert_eq!(bind_failure("a:1", "in use"), "Failed to bind to a:1: in use");
    assert_eq!(serve_failure("gone"), "HTTP server error: gone");
}
