use vela_federation::ip::format_ip_for_url;
use vela_federation::ip::ip_text;
use vela_federation::ip::is_blocked_ip;
use vela_federation::ip::is_loopback;
use vela_federation::ip::parse_ip;
use vela_federation::ip::IpAddress;
use vela_federation::resolver::host_only;
use vela_federation::resolver::lookup_srv;
use vela_federation::resolver::parse_max_age_seconds;
use vela_federation::resolver::parse_server_name;
use vela_federation::resolver::FederationPolicy;
use vela_federation::resolver::FederationResolver;
use vela_federation::resolver::ResolveError;
use vela_federation::resolver::ResolveFacts;
use vela_federation::resolver::ResolveStep;
use vela_federation::resolver::ResolvedServer;
use vela_federation::resolver::SrvRecord;
use vela_federation::resolver::WellKnownCache;
use vela_federation::resolver::WellKnownReply;

const NOW: u64 = 1_700_000_000_000;

fn ip(s: &str) -> IpAddress {
    parse_ip(s).unwrap()
}

/// Resolves a name in a world without delegation, service records or DNS, but
/// for what is given.
fn resolve_with(
    r: &mut FederationResolver,
    name: &str,
    srv: Option<(&str, u16)>,
    ips: &[&str],
) -> Result<ResolvedServer, ResolveError> {
    let mut f = ResolveFacts {
        server_name: name.to_string(),
        delegated: None,
        srv: None,
        legacy_srv: None,
        ips: None,
    };
    for _ in 0..10 {
        match r.resolve(&f) {
            ResolveStep::LookupWellKnown { hostname } => {
                f.delegated = Some(r.well_known.lookup(&hostname, NOW).unwrap_or(None));
            }
            ResolveStep::LookupSrv { name } => {
                if name.starts_with("_matrix-fed._tcp.") {
                    f.srv = Some(srv.map(|(t, p)| (t.to_string(), p)));
                } else {
                    assert!(name.starts_with("_matrix._tcp."));
                    f.legacy_srv = Some(None);
                }
            }
            ResolveStep::LookupIps { host: _ } => {
                f.ips = Some(ips.iter().map(|s| ip(s)).collect());
            }
            ResolveStep::Found(s) => return Ok(s),
            ResolveStep::Failed(e) => return Err(e),
        }
    }
    panic!("no answer");
}

fn resolve(r: &mut FederationResolver, name: &str) -> Result<ResolvedServer, ResolveError> {
    resolve_with(r, name, None, &[])
}

fn strict(name: &str) -> FederationResolver {
    FederationResolver::with_policy(FederationPolicy::strict(name.to_string()))
}

#[test]
fn parse_bare_hostname() {
    let p = parse_server_name("example.com").unwrap();
    assert!(p.ip.is_none());
    assert_eq!(p.hostname.as_deref(), Some("example.com"));
    assert_eq!(p.port, None);
}

#[test]
fn parse_hostname_with_port() {
    let p = parse_server_name("example.com:8090").unwrap();
    assert_eq!(p.hostname.as_deref(), Some("example.com"));
    assert_eq!(p.port, Some(8090));
}

#[test]
fn parse_ipv4_literal() {
    let p = parse_server_name("1.2.3.4").unwrap();
    assert_eq!(ip_text(p.ip.unwrap()), "1.2.3.4");
    assert_eq!(p.port, None);
}

#[test]
fn parse_ipv4_with_port() {
    let p = parse_server_name("1.2.3.4:8448").unwrap();
    assert_eq!(ip_text(p.ip.unwrap()), "1.2.3.4");
    assert_eq!(p.port, Some(8448));
}

#[test]
fn parse_ipv6_literal() {
    let p = parse_server_name("[::1]").unwrap();
    assert_eq!(ip_text(p.ip.unwrap()), "::1");
    assert_eq!(p.port, None);
}

#[test]
fn parse_ipv6_with_port() {
    let p = parse_server_name("[fd00::1]:8448").unwrap();
    assert_eq!(ip_text(p.ip.unwrap()), "fd00::1");
    assert_eq!(p.port, Some(8448));
}

#[test]
fn parse_rejects_empty() {
    assert!(parse_server_name("").is_err());
}

#[test]
fn parse_rejects_bad_port() {
    assert!(parse_server_name("example.com:not-a-port").is_err());
}

#[test]
fn resolve_ip_literal_uses_default_port() {
    let mut r = FederationResolver::new();
    let resolved = resolve(&mut r, "1.2.3.4").unwrap();
    assert_eq!(resolved.target_host, "1.2.3.4");
    assert_eq!(resolved.target_port, 8448);
    assert_eq!(resolved.host_header, "1.2.3.4");
    assert_eq!(resolved.tls_server_name, "1.2.3.4");
    assert!(resolved.resolved_ips.is_empty());
}

#[test]
fn resolve_ip_literal_preserves_port() {
    let mut r = FederationResolver::new();
    let resolved = resolve(&mut r, "1.2.3.4:9000").unwrap();
    assert_eq!(resolved.target_host, "1.2.3.4");
    assert_eq!(resolved.target_port, 9000);
}

#[test]
fn resolve_ipv6_wraps_target_in_brackets() {
    let mut r = FederationResolver::new();
    let resolved = resolve(&mut r, "[::1]:8448").unwrap();
    assert_eq!(resolved.target_host, "[::1]");
    assert_eq!(resolved.target_port, 8448);
}

#[test]
fn resolve_hostname_with_port_uses_port_directly() {
    let mut r = FederationResolver::new();
    let resolved = resolve(&mut r, "nonexistent.example:8090").unwrap();
    assert_eq!(resolved.target_host, "nonexistent.example");
    assert_eq!(resolved.target_port, 8090);
    assert_eq!(resolved.host_header, "nonexistent.example:8090");
    assert_eq!(resolved.tls_server_name, "nonexistent.example");
}

#[test]
fn resolve_follows_well_known_delegation() {
    let mut r = FederationResolver::new();
    r.well_known.seed_well_known(
        "example.com",
        Some("matrix.example.com:8090".to_string()),
        60_000,
        NOW,
    );
    let resolved = resolve(&mut r, "example.com").unwrap();
    assert_eq!(resolved.target_host, "matrix.example.com");
    assert_eq!(resolved.target_port, 8090);
    assert_eq!(resolved.host_header, "matrix.example.com:8090");
    assert_eq!(resolved.tls_server_name, "example.com");
}

#[test]
fn delegation_keeps_the_certificate_of_the_original_name() {
    let mut r = FederationResolver::new();
    r.well_known.seed_well_known("a.example", Some("b.example".to_string()), 60_000, NOW);
    let found = resolve_with(&mut r, "a.example", Some(("node1.internal", 8443)), &["1.1.1.1"]).unwrap();
    assert_eq!(found.target_host, "node1.internal");
    assert_eq!(found.host_header, "b.example");
    assert_eq!(found.tls_server_name, "a.example");
    r.well_known.seed_well_known("c.example", Some("1.1.1.1:8090".to_string()), 60_000, NOW);
    let found = resolve(&mut r, "c.example").unwrap();
    assert_eq!(found.target_host, "1.1.1.1");
    assert_eq!(found.target_port, 8090);
    assert_eq!(found.host_header, "1.1.1.1:8090");
    assert_eq!(found.tls_server_name, "c.example");
    assert_eq!(found.resolved_ips, vec![ip("1.1.1.1")]);
}

#[test]
fn a_strict_policy_fails_closed_without_addresses() {
    let mut r = strict("our.example");
    match resolve(&mut r, "ghost.example:8448") {
        Err(ResolveError::DnsFailure(name)) => assert_eq!(name, "ghost.example:8448"),
        other => panic!("{other:?}"),
    }
    assert!(r.policy.check_resolved_ips("ghost.example", &vec![]).is_err());
    assert!(r.policy.check_resolved_ips("our.example", &vec![]).is_ok());
    assert!(FederationPolicy::permissive().check_resolved_ips("ghost.example", &vec![]).is_ok());
    assert!(resolve(&mut r, "8.8.8.8").unwrap().resolved_ips.is_empty());
}

#[test]
fn resolve_uses_service_records_under_the_original_name() {
    let mut r = FederationResolver::new();
    let resolved =
        resolve_with(&mut r, "example.com", Some(("node1.internal", 8443)), &["1.1.1.1"]).unwrap();
    assert_eq!(resolved.target_host, "node1.internal");
    assert_eq!(resolved.target_port, 8443);
    assert_eq!(resolved.tls_server_name, "example.com");
    assert_eq!(resolved.host_header, "example.com");
    assert_eq!(resolved.resolved_ips, vec![ip("1.1.1.1")]);
}

#[test]
fn resolve_falls_back_to_the_default_port() {
    let mut r = FederationResolver::new();
    let resolved = resolve(&mut r, "example.com").unwrap();
    assert_eq!(resolved.target_host, "example.com");
    assert_eq!(resolved.target_port, 8448);
    assert_eq!(resolved.host_header, "example.com");
}

#[test]
fn max_age_parser_handles_directives() {
    assert_eq!(parse_max_age_seconds("max-age=3600"), Some(3600));
    assert_eq!(
        parse_max_age_seconds("public, max-age=7200, must-revalidate"),
        Some(7200)
    );
    assert_eq!(parse_max_age_seconds("no-cache"), None);
    assert_eq!(parse_max_age_seconds(""), None);
}

fn pinned(ips: &[&str]) -> ResolvedServer {
    ResolvedServer {
        target_host: "node1.internal".to_string(),
        target_port: 8443,
        tls_server_name: "example.com".to_string(),
        host_header: "example.com".to_string(),
        resolved_ips: ips.iter().map(|s| ip(s)).collect(),
    }
}

#[test]
fn resolved_server_base_url_uses_tls_server_name() {
    assert_eq!(pinned(&["10.0.0.1"]).base_url(), "https://example.com:8443");
}

#[test]
fn resolved_server_socket_addrs_uses_target_port() {
    let addrs = pinned(&["10.0.0.1", "10.0.0.2"]).socket_addrs();
    assert_eq!(addrs.len(), 2);
    for a in &addrs {
        assert_eq!(a.1, 8443);
    }
    let ips: Vec<IpAddress> = addrs.iter().map(|a| a.0).collect();
    assert!(ips.contains(&ip("10.0.0.1")));
    assert!(ips.contains(&ip("10.0.0.2")));
}

#[test]
fn classifier_blocks_ipv4_rfc1918() {
    for s in [
        "10.0.0.1",
        "10.255.255.255",
        "172.16.0.1",
        "172.31.255.255",
        "192.168.0.1",
        "192.168.1.1",
    ] {
        assert!(is_blocked_ip(ip(s)), "should be blocked: {s}");
    }
}

#[test]
fn classifier_blocks_ipv4_loopback_link_local_cgnat() {
    for s in [
        "127.0.0.1",
        "127.255.255.255",
        "169.254.0.1",
        "169.254.169.254",
        "100.64.0.1",
        "100.127.255.255",
    ] {
        assert!(is_blocked_ip(ip(s)), "should be blocked: {s}");
    }
}

#[test]
fn classifier_blocks_ipv4_special_ranges() {
    for s in [
        "0.0.0.0",
        "0.1.2.3",
        "255.255.255.255",
        "224.0.0.1",
        "198.18.0.1",
        "198.19.255.255",
        "192.0.2.1",
    ] {
        assert!(is_blocked_ip(ip(s)), "should be blocked: {s}");
    }
}

#[test]
fn classifier_blocks_ipv6_private() {
    for s in [
        "::1",
        "::",
        "fc00::1",
        "fd00::1",
        "fdff:ffff:ffff:ffff:ffff:ffff:ffff:ffff",
        "fe80::1",
        "febf::1",
        "ff00::1",
    ] {
        assert!(is_blocked_ip(ip(s)), "should be blocked: {s}");
    }
}

#[test]
fn classifier_blocks_ipv4_mapped_and_compat() {
    assert!(is_blocked_ip(ip("::ffff:127.0.0.1")));
    assert!(is_blocked_ip(ip("::ffff:10.0.0.1")));
    assert!(is_blocked_ip(ip("::7f00:1")));
}

#[test]
fn classifier_allows_public_ipv4() {
    for s in ["1.1.1.1", "8.8.8.8", "140.82.121.4"] {
        assert!(!is_blocked_ip(ip(s)), "should be allowed: {s}");
    }
}

#[test]
fn classifier_allows_public_ipv6() {
    for s in ["2001:4860:4860::8888", "2606:4700:4700::1111"] {
        assert!(!is_blocked_ip(ip(s)), "should be allowed: {s}");
    }
}

#[test]
fn resolve_blocks_private_ipv4_literal() {
    let mut r = strict("our.example");
    match resolve(&mut r, "10.0.0.1").unwrap_err() {
        ResolveError::PrivateIpBlocked { ip: got, .. } => {
            assert_eq!(got, ip("10.0.0.1"));
        }
        other => panic!("expected PrivateIpBlocked, got {other:?}"),
    }
}

#[test]
fn resolve_blocks_loopback_when_destination_is_not_self() {
    let mut r = strict("our.example");
    let err = resolve(&mut r, "127.0.0.1:8448").unwrap_err();
    assert!(matches!(err, ResolveError::PrivateIpBlocked { .. }));
}

#[test]
fn resolve_allows_loopback_for_self_loop() {
    let mut r = strict("localhost:8008");
    for ips in [&["127.0.0.1", "::1"][..], &[][..]] {
        let resolved = resolve_with(&mut r, "localhost:8008", None, ips);
        assert!(resolved.is_ok(), "self-loop resolution failed: {resolved:?}");
    }
}

#[test]
fn resolve_allows_loopback_for_self_loop_ipv4_literal() {
    let mut r = strict("127.0.0.1:8008");
    let resolved = resolve(&mut r, "127.0.0.1:8008").unwrap();
    assert_eq!(resolved.target_port, 8008);
}

#[test]
fn resolve_blocks_via_delegation() {
    let mut r = strict("our.example");
    r.well_known.seed_well_known("evil.example", Some("192.168.0.1:8448".to_string()), 60_000, NOW);
    let err = resolve(&mut r, "evil.example").unwrap_err();
    assert!(matches!(err, ResolveError::PrivateIpBlocked { .. }));
}

#[test]
fn resolve_blocks_names_with_private_addresses() {
    let mut r = strict("our.example");
    let err = resolve_with(&mut r, "evil.example", None, &["1.1.1.1", "10.0.0.7"]).unwrap_err();
    match err {
        ResolveError::PrivateIpBlocked { server_name, ip: got } => {
            assert_eq!(server_name, "evil.example");
            assert_eq!(got, ip("10.0.0.7"));
        }
        other => panic!("{other:?}"),
    }
}

#[test]
fn resolve_respects_allow_list_match() {
    let mut policy = FederationPolicy::strict("our.example".to_string());
    policy.private_ip_block = false;
    policy.allow_list = vec!["good.example".to_string(), "trusted.example:8090".to_string()];
    let mut r = FederationResolver::with_policy(policy);
    let resolved = resolve(&mut r, "good.example:8090").unwrap();
    assert_eq!(resolved.target_host, "good.example");
}

#[test]
fn resolve_respects_allow_list_miss() {
    let policy = FederationPolicy {
        private_ip_block: false,
        allow_list: vec!["good.example".to_string()],
        our_server_name: "our.example".to_string(),
    };
    let mut r = FederationResolver::with_policy(policy);
    let err = resolve(&mut r, "bad.example").unwrap_err();
    assert!(matches!(err, ResolveError::NotAllowed(_)));
}

#[test]
fn resolve_permissive_policy_passes_loopback() {
    let mut r = FederationResolver::with_policy(FederationPolicy::permissive());
    let resolved = resolve(&mut r, "127.0.0.1:8448").unwrap();
    assert_eq!(resolved.target_port, 8448);
}

#[test]
fn resolve_reports_malformed_names() {
    let mut r = FederationResolver::new();
    assert!(matches!(resolve(&mut r, "").unwrap_err(), ResolveError::InvalidServerName(_)));
    assert!(matches!(resolve(&mut r, "[::1").unwrap_err(), ResolveError::InvalidServerName(_)));
    assert!(matches!(resolve(&mut r, "a:99999").unwrap_err(), ResolveError::InvalidServerName(_)));
}

#[test]
fn host_only_strips_port() {
    assert_eq!(host_only("acme.com"), "acme.com");
    assert_eq!(host_only("acme.com:8448"), "acme.com");
    assert_eq!(host_only("1.2.3.4:8448"), "1.2.3.4");
    assert_eq!(host_only("[::1]:8448"), "[::1]");
    assert_eq!(host_only("[::1]"), "[::1]");
}

fn permitted(r: &FederationResolver, host: &str, ips: &[&str]) -> bool {
    r.policy.well_known_ips_permitted(host, &ips.iter().map(|s| ip(s)).collect())
}

#[test]
fn well_known_guard_refuses_private_and_unresolvable() {
    let r = strict("our.example");
    assert!(permitted(&r, "evil.example", &["1.1.1.1"]));
    assert!(!permitted(&r, "evil.example", &["127.0.0.1"]));
    assert!(!permitted(&r, "evil.example", &["10.0.0.5"]));
    assert!(!permitted(&r, "evil.example", &["169.254.169.254"]));
    assert!(!permitted(&r, "evil.example", &["1.1.1.1", "127.0.0.1"]));
    assert!(!permitted(&r, "evil.example", &[]));
}

#[test]
fn well_known_guard_allows_self_loopback_only() {
    let r = strict("our.example");
    assert!(permitted(&r, "our.example", &["127.0.0.1"]));
    assert!(!permitted(&r, "our.example", &["10.0.0.5"]));
}

#[test]
fn well_known_guard_off_permits_everything() {
    let r = FederationResolver::with_policy(FederationPolicy::permissive());
    assert!(permitted(&r, "anything", &["127.0.0.1"]));
    assert!(permitted(&r, "anything", &[]));
}

#[test]
fn default_policy_blocks_private_addresses() {
    let p = FederationPolicy::default();
    assert!(p.private_ip_block);
    assert!(p.allow_list.is_empty());
    assert_eq!(p.our_server_name, "");
}

#[test]
fn delegations_are_remembered_for_a_while() {
    let mut c = WellKnownCache::new();
    assert_eq!(c.lookup("a", NOW), None);
    let answered = |age: Option<&str>, to: Option<&str>| WellKnownReply::Answered {
        cache_control: age.map(|s| s.to_string()),
        delegated: to.map(|s| s.to_string()),
    };
    assert_eq!(
        c.lookup_well_known("a", &answered(Some("max-age=60"), Some("b:1")), NOW),
        Some("b:1".to_string())
    );
    assert_eq!(c.lookup("a", NOW + 59_999), Some(Some("b:1".to_string())));
    assert_eq!(c.lookup("a", NOW + 60_000), None);
    // No header: a day. A longer one: two days at most. No delegation: an hour.
    c.lookup_well_known("a", &answered(None, Some("b")), NOW);
    assert!(c.lookup("a", NOW + 86_399_999).is_some());
    assert!(c.lookup("a", NOW + 86_400_000).is_none());
    c.lookup_well_known("a", &answered(Some("max-age=99999999999999999"), Some("b")), NOW);
    assert!(c.lookup("a", NOW + 172_799_999).is_some());
    assert!(c.lookup("a", NOW + 172_800_000).is_none());
    assert_eq!(c.lookup_well_known("a", &WellKnownReply::Failed, NOW), None);
    assert_eq!(c.lookup("a", NOW + 3_599_999), Some(None));
    assert!(c.lookup("a", NOW + 3_600_000).is_none());
    assert_eq!(c.lookup_well_known("a", &answered(None, Some("")), NOW), None);
}

#[test]
fn service_records_are_picked_by_priority_and_weight() {
    let record = |priority: u16, weight: u16, port: u16, target: &str| SrvRecord {
        priority,
        weight,
        port,
        target: target.to_string(),
    };
    let found = lookup_srv(&vec![
        record(20, 90, 1, "far."),
        record(10, 5, 2, "light."),
        record(10, 50, 3, "heavy.example."),
    ]);
    assert_eq!(found, Some(("heavy.example".to_string(), 3)));
    assert_eq!(lookup_srv(&vec![]), None);
}

#[test]
fn addresses_are_read_and_written() {
    for s in ["0.0.0.0", "255.255.255.255", "1.20.255.4", "::", "::1", "fe80::1:0:0:2"] {
        assert_eq!(ip_text(ip(s)), s);
    }
    assert_eq!(ip_text(ip("2001:DB8:0:0:0:0:0:1")), "2001:db8::1");
    assert_eq!(ip_text(ip("::ffff:1.2.3.4")), "::ffff:1.2.3.4");
    for s in ["", "1.2.3", "1.2.3.4.5", "256.1.1.1", "01.2.3.4", "1::2::3", "12345::", ":1", "1:2:3:4:5:6:7:8:9"] {
        assert!(parse_ip(s).is_none(), "{s}");
    }
    assert_eq!(format_ip_for_url(ip("::1")), "[::1]");
    assert_eq!(format_ip_for_url(ip("1.2.3.4")), "1.2.3.4");
    assert!(is_loopback(ip("127.1.2.3")));
    assert!(is_loopback(ip("::1")));
    assert!(!is_loopback(ip("128.0.0.1")));
}
