use vela_federation::json::Json;
use vela_federation::xmatrix::build_x_matrix_header;
use vela_federation::xmatrix::parse_x_matrix_auth;
use vela_federation::xmatrix::sign_federation_request;
use vela_federation::xmatrix::split_auth_params;
use vela_federation::xmatrix::verify_federation_request;

#[test]
fn parse_standard_x_matrix() {
    let h = r#"X-Matrix origin="example.com",destination="dest.com",key="ed25519:abc",sig="SIGNATURE""#;
    let parsed = parse_x_matrix_auth(h).unwrap();
    assert_eq!(parsed.origin, "example.com");
    assert_eq!(parsed.destination.as_deref(), Some("dest.com"));
    assert_eq!(parsed.key, "ed25519:abc");
    assert_eq!(parsed.sig, "SIGNATURE");
}

#[test]
fn parse_reorders_params() {
    let h = r#"X-Matrix sig="S",key="ed25519:x",origin="o.com",destination="d.com""#;
    let parsed = parse_x_matrix_auth(h).unwrap();
    assert_eq!(parsed.origin, "o.com");
    assert_eq!(parsed.key, "ed25519:x");
    assert_eq!(parsed.sig, "S");
}

#[test]
fn parse_case_insensitive_names() {
    let h = r#"X-Matrix ORIGIN="o.com",Key="ed25519:x",SIG="S""#;
    let parsed = parse_x_matrix_auth(h).unwrap();
    assert_eq!(parsed.origin, "o.com");
    assert_eq!(parsed.key, "ed25519:x");
    assert_eq!(parsed.sig, "S");
}

#[test]
fn parse_scheme_case_insensitive() {
    let h = r#"x-matrix origin="o.com",key="ed25519:x",sig="S""#;
    assert!(parse_x_matrix_auth(h).is_some());
}

#[test]
fn parse_backslash_escape_in_quoted_value() {
    let h = r#"X-Matrix origin="o.com",key="ed25519:x",sig="S\"X""#;
    let parsed = parse_x_matrix_auth(h).unwrap();
    assert_eq!(parsed.sig, "S\"X");
}

#[test]
fn parse_accepts_signature_alias() {
    let h = r#"X-Matrix origin="o.com",key="ed25519:x",signature="S""#;
    let parsed = parse_x_matrix_auth(h).unwrap();
    assert_eq!(parsed.sig, "S");
}

#[test]
fn parse_unquoted_values_with_colon() {
    let h = "X-Matrix origin=o.com,key=ed25519:abc,sig=SIGNATURE";
    let parsed = parse_x_matrix_auth(h).unwrap();
    assert_eq!(parsed.origin, "o.com");
    assert_eq!(parsed.key, "ed25519:abc");
    assert_eq!(parsed.sig, "SIGNATURE");
}

#[test]
fn parse_ignores_unknown_parameters() {
    let h = r#"X-Matrix origin="o.com",key="ed25519:x",sig="S",foo="bar""#;
    assert!(parse_x_matrix_auth(h).is_some());
}

#[test]
fn parse_rejects_non_xmatrix_scheme() {
    assert!(parse_x_matrix_auth("Bearer tok").is_none());
}

#[test]
fn scheme_needs_a_space_behind_it() {
    assert!(parse_x_matrix_auth("X-Matrixorigin=\"o.com\",key=\"ed25519:x\",sig=\"S\"").is_none());
    assert!(parse_x_matrix_auth("X-Matrix,origin=\"o.com\",key=\"ed25519:x\",sig=\"S\"").is_none());
}

#[test]
fn escaped_values_are_read_in_any_order() {
    let h = r#"X-Matrix sig="a\"b\\c",foo="\"",key="k",ORIGIN="o\\",destination="d\"""#;
    let a = parse_x_matrix_auth(h).unwrap();
    assert_eq!(a.sig, "a\"b\\c");
    assert_eq!(a.key, "k");
    assert_eq!(a.origin, "o\\");
    assert_eq!(a.destination.as_deref(), Some("d\""));
}

#[test]
fn parse_rejects_missing_required() {
    let h = r#"X-Matrix origin="o.com",key="ed25519:x""#;
    assert!(parse_x_matrix_auth(h).is_none());
}

#[test]
fn parse_destination_optional() {
    let h = r#"X-Matrix origin="o.com",key="ed25519:x",sig="S""#;
    let parsed = parse_x_matrix_auth(h).unwrap();
    assert!(parsed.destination.is_none());
}

#[test]
fn parse_empty_input() {
    assert!(parse_x_matrix_auth("").is_none());
}

#[test]
fn parse_only_scheme() {
    assert!(parse_x_matrix_auth("X-Matrix").is_none());
    assert!(parse_x_matrix_auth("X-Matrix ").is_none());
}

#[test]
fn parse_unterminated_quoted_value() {
    let h = r#"X-Matrix origin="o.com,key="ed25519:x",sig="S""#;
    assert!(parse_x_matrix_auth(h).is_none());
}

#[test]
fn parse_trailing_backslash_in_quoted_value() {
    let h = r#"X-Matrix origin="o.com",key="ed25519:x",sig="S\"#;
    let _ = parse_x_matrix_auth(h);
}

#[test]
fn parse_value_with_null_byte() {
    let h = "X-Matrix origin=\"o.com\",key=\"ed25519:x\",sig=\"\0SIG\"";
    let _ = parse_x_matrix_auth(h);
}

#[test]
fn parse_extremely_long_input() {
    let big = "a=b,".repeat(250_000);
    let h = format!("X-Matrix {big}origin=\"o.com\",key=\"ed25519:x\",sig=\"S\"");
    let _ = parse_x_matrix_auth(&h);
}

#[test]
fn parse_value_with_internal_equals() {
    let h = r#"X-Matrix origin="o.com",key="ed25519:x",sig="abcd==""#;
    let parsed = parse_x_matrix_auth(h).unwrap();
    assert_eq!(parsed.sig, "abcd==");
}

#[test]
fn parse_only_commas() {
    assert!(parse_x_matrix_auth("X-Matrix ,,,,,,,,").is_none());
}

#[test]
fn parse_param_without_equals() {
    assert!(parse_x_matrix_auth("X-Matrix origin").is_none());
}

#[test]
fn parse_lots_of_unknown_params() {
    let mut h = String::from("X-Matrix ");
    for i in 0..1000 {
        h.push_str(&format!("p{i}=\"v\","));
    }
    h.push_str(r#"origin="o.com",key="ed25519:x",sig="S""#);
    let parsed = parse_x_matrix_auth(&h).unwrap();
    assert_eq!(parsed.origin, "o.com");
}

#[test]
fn parse_unicode_in_values() {
    let h = "X-Matrix origin=\"o.com\",key=\"ed25519:x\",sig=\"sig with 🎉\"";
    let parsed = parse_x_matrix_auth(h).unwrap();
    assert!(parsed.sig.contains("🎉"));
}

#[test]
fn parse_repeated_required_param() {
    let h = r#"X-Matrix origin="first.com",origin="second.com",key="ed25519:x",sig="S""#;
    let parsed = parse_x_matrix_auth(h).unwrap();
    assert_eq!(parsed.origin, "second.com");
}

#[test]
fn header_reads_back_what_was_written() {
    let h = build_x_matrix_header("us.example", "them.example", "ed25519:a_1", "c2ln");
    assert_eq!(
        h,
        "X-Matrix origin=\"us.example\",destination=\"them.example\",key=\"ed25519:a_1\",sig=\"c2ln\""
    );
    let parsed = parse_x_matrix_auth(&h).unwrap();
    assert_eq!(parsed.origin, "us.example");
    assert_eq!(parsed.destination.as_deref(), Some("them.example"));
    assert_eq!(parsed.key, "ed25519:a_1");
    assert_eq!(parsed.sig, "c2ln");
}

#[test]
fn scheme_cut_inside_a_character_is_refused() {
    assert!(parse_x_matrix_auth("X-Matri\u{e9} origin=\"o\"").is_none());
}

#[test]
fn parameters_are_split_and_unescaped() {
    let v = split_auth_params("a=\"x\\\\y\" , b = c d ,e=\"\"");
    assert_eq!(v.len(), 3);
    assert_eq!(v[0], Some(("a".to_string(), "x\\y".to_string())));
    assert_eq!(v[1], Some(("b".to_string(), "c d".to_string())));
    assert_eq!(v[2], Some(("e".to_string(), "".to_string())));
    let w = split_auth_params("a=\"open");
    assert_eq!(w, vec![None]);
    assert!(split_auth_params("   ").is_empty());
}

#[test]
fn documents_to_sign_and_to_verify_agree() {
    let body = Json::object(vec![("n".to_string(), Json::number(42))]);
    let s = sign_federation_request("PUT", "/x", "us", "them", Some(&body));
    let v = verify_federation_request("PUT", "/x", "us", "them", Some(&body), "ed25519:k", "sig");
    for field in ["method", "uri", "origin", "destination"] {
        assert_eq!(s.str_at(field), v.str_at(field));
    }
    assert_eq!(s.str_at("method"), Some("PUT"));
    assert_eq!(s.str_at("uri"), Some("/x"));
    assert_eq!(s.get("content").and_then(|c| c.u64_at("n")), Some(42));
    assert!(s.get("signatures").is_none());
    assert_eq!(
        v.get("signatures").and_then(|x| x.str_within("us", "ed25519:k")),
        Some("sig")
    );
    let bare = sign_federation_request("GET", "/y", "us", "them", None);
    assert!(bare.get("content").is_none());
}
