use vela_federation::api::FORBIDDEN;
use vela_federation::json::Json;
use vela_federation::server_acl::check_server_acl;
use vela_federation::server_acl::check_server_acl_db;
use vela_federation::server_acl::deny_if_blocked;
use vela_federation::server_acl::glob_match;
use vela_federation::server_acl::is_ip_literal;

#[test]
fn glob_match_wildcards() {
    assert!(glob_match("*", "anything"));
    assert!(glob_match("*", ""));
    assert!(glob_match("*.example.com", "evil.example.com"));
    assert!(!glob_match("*.example.com", "example.com"));
    assert!(glob_match("evil.com", "evil.com"));
    assert!(!glob_match("evil.com", "evil.com.attacker.tld"));
    assert!(glob_match("a?c", "abc"));
    assert!(!glob_match("a?c", "ac"));
}

#[test]
fn globs_backtrack() {
    assert!(glob_match("*a*b", "xaabab"));
    assert!(!glob_match("*a*b", "xaabac"));
    assert!(glob_match("*", "*a"));
    assert!(glob_match("**?", "x"));
    assert!(!glob_match("?", ""));
    assert!(glob_match("", ""));
}

#[test]
fn ip_literal_detection() {
    assert!(is_ip_literal("127.0.0.1"));
    assert!(is_ip_literal("127.0.0.1:8448"));
    assert!(is_ip_literal("[::1]"));
    assert!(is_ip_literal("[::1]:8448"));
    assert!(!is_ip_literal("example.com"));
    assert!(!is_ip_literal("matrix.org:8448"));
    assert!(!is_ip_literal("1.2.3.4.example.com"));
}

fn list(v: &[&str]) -> Json {
    Json::array(v.iter().map(|s| Json::text(s)).collect())
}

fn acl(allow: Option<&[&str]>, deny: &[&str], literals: Option<bool>) -> Json {
    let mut m = Vec::new();
    if let Some(a) = allow {
        m.push(("allow".to_string(), list(a)));
    }
    m.push(("deny".to_string(), list(deny)));
    if let Some(b) = literals {
        m.push(("allow_ip_literals".to_string(), Json::Bool(b)));
    }
    Json::object(m)
}

#[test]
fn lists_decide_in_order() {
    assert_eq!(check_server_acl(None, "a.example"), None);
    let open = acl(None, &[], None);
    assert_eq!(check_server_acl(Some(&open), "1.2.3.4"), None);
    let closed = acl(Some(&[]), &[], None);
    assert_eq!(
        check_server_acl(Some(&closed), "a.example"),
        Some("sender a.example matches no allow pattern".to_string())
    );
    let denied = acl(Some(&["*"]), &["*.evil"], None);
    assert_eq!(
        check_server_acl(Some(&denied), "x.evil"),
        Some("sender x.evil matches deny pattern *.evil".to_string())
    );
    assert_eq!(check_server_acl(Some(&denied), "evil"), None);
    let named = acl(Some(&["*"]), &["1.*"], Some(false));
    assert_eq!(
        check_server_acl(Some(&named), "1.2.3.4"),
        Some("sender 1.2.3.4 is an IP literal but allow_ip_literals=false".to_string())
    );
}

#[test]
fn events_and_requests_are_checked() {
    let closed = acl(Some(&[]), &[], None);
    let event = Json::object(vec![("content".to_string(), closed.copy())]);
    assert!(check_server_acl_db(Some(&event), "a").is_some());
    assert!(check_server_acl_db(Some(&Json::object(vec![])), "a").is_none());
    assert!(check_server_acl_db(None, "a").is_none());
    assert!(deny_if_blocked(None, "a").is_ok());
    let e = deny_if_blocked(Some(&closed), "a").unwrap_err();
    assert_eq!(e.status, FORBIDDEN);
    assert_eq!(e.status, 403);
    assert_eq!(e.body.str_at("errcode"), Some("M_FORBIDDEN"));
    assert_eq!(e.body.str_at("error"), Some("server_acl: sender a matches no allow pattern"));
}
