use presence_gateway::origin::{entry_admits, origin_allowed};

fn allowed(origin: Option<&str>, entries: &[&str]) -> bool {
    let wl: Vec<String> = entries.iter().map(|e| e.to_string()).collect();
    let o = origin.map(|s| s.to_string());
    origin_allowed(o.as_ref(), &wl)
}

#[test]
fn wildcard_admits_everything() {
    assert!(allowed(Some("https://anything.example"), &["*"]));
    assert!(allowed(None, &["*"]));
    assert!(allowed(Some("not a url"), &["*"]));
    assert!(allowed(Some("https://x.example"), &["https://other.example", " * "]));
}

#[test]
fn url_entry_matches_normalized_origin() {
    let wl = ["https://example.com"];
    assert!(allowed(Some("https://example.com"), &wl));
    assert!(allowed(Some("https://example.com:443"), &wl));
    assert!(!allowed(Some("http://example.com"), &wl));
    assert!(!allowed(Some("https://sub.example.com"), &wl));
    assert!(!allowed(Some("https://example.com:8443"), &wl));
}

#[test]
fn url_entry_normalizes_case_and_default_port() {
    // the entry itself is normalized the same way the origin is
    assert!(allowed(Some("https://example.com"), &["HTTPS://Example.COM"]));
    assert!(allowed(Some("https://example.com"), &["https://example.com:443"]));
    assert!(allowed(Some("HTTPS://EXAMPLE.COM"), &["https://example.com"]));
    assert!(allowed(Some("https://example.com"), &["https://example.com/"]));
}

#[test]
fn suffix_entry_matches_subdomains_and_apex() {
    let wl = ["*.example.com"];
    assert!(allowed(Some("https://a.example.com"), &wl));
    assert!(allowed(Some("https://example.com"), &wl));
    assert!(!allowed(Some("https://evil.com"), &wl));
    assert!(!allowed(Some("https://badexample.com"), &wl));
    let dot = [".example.com"];
    assert!(allowed(Some("https://a.example.com"), &dot));
    assert!(allowed(Some("https://example.com"), &dot));
}

#[test]
fn host_port_entry_demands_that_port() {
    let wl = ["example.com:8443"];
    assert!(allowed(Some("https://example.com:8443"), &wl));
    assert!(!allowed(Some("https://example.com"), &wl));
    assert!(!allowed(Some("https://example.com:9000"), &wl));
    assert!(!allowed(Some("https://other.com:8443"), &wl));
}

#[test]
fn bare_host_entry_ignores_port_and_scheme() {
    let wl = ["example.com"];
    assert!(allowed(Some("https://example.com"), &wl));
    assert!(allowed(Some("http://example.com"), &wl));
    assert!(allowed(Some("https://example.com:9000"), &wl));
    assert!(!allowed(Some("https://sub.example.com"), &wl));
}

#[test]
fn opaque_scheme_host_is_lowercased_for_matching() {
    // a non-web scheme keeps its host's case through URL parsing; the
    // policy lowercases it before matching, as entries are lowercased
    assert!(allowed(Some("foo://HOST"), &["host"]));
    assert!(allowed(Some("foo://A.Example.COM"), &["*.example.com"]));
}

#[test]
fn absent_or_malformed_origin_is_rejected() {
    let wl = ["https://good.example"];
    assert!(!allowed(None, &wl));
    assert!(!allowed(Some(""), &wl));
    assert!(!allowed(Some("   "), &wl));
    assert!(!allowed(Some("not a url"), &wl));
}

#[test]
fn rejection_scenario() {
    // whitelist ["https://good.example"], upgrade from https://evil.example
    assert!(!allowed(Some("https://evil.example"), &["https://good.example"]));
}

#[test]
fn entry_matcher_on_plain_parts() {
    // the matcher sees the origin already parsed into scheme, host, port
    assert!(entry_admits("example.com", "https", "example.com", Some(443)));
    assert!(!entry_admits("example.com", "https", "other.com", Some(443)));
    assert!(entry_admits("*.example.com", "https", "deep.a.example.com", Some(443)));
    assert!(entry_admits("example.com:443", "https", "example.com", Some(443)));
    assert!(!entry_admits("example.com:443", "https", "example.com", None));
    assert!(!entry_admits("", "https", "example.com", Some(443)));
    assert!(!entry_admits("example.com:notaport", "https", "example.com", Some(443)));
}
