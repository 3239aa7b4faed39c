use serde_json::Value;
use vela_federation::json::Json;
use vela_federation::json::JsonNumber;

use vela_federation::client::event_in;
use vela_federation::client::media_in;
use vela_federation::client::millis;
use vela_federation::client::now_ms;
use vela_federation::client::url_query_encode;
use vela_federation::client::CappedBody;
use vela_federation::client::ClientChoice;
use vela_federation::client::FederationClient;
use vela_federation::client::Method;
use vela_federation::client::Request;
use vela_federation::keys::FederationClientError;
use vela_federation::media::parse_filename_from_content_disposition;
use vela_federation::media::parse_multipart_boundary;
use vela_federation::media::parse_multipart_media;
use vela_federation::resolver::ResolvedServer;

fn from_value(v: &Value) -> Json {
    match v {
        Value::Null => Json::Null,
        Value::Bool(b) => Json::Bool(*b),
        Value::Number(n) => match (n.as_u64(), n.as_i64()) {
            (Some(u), _) => Json::Number(JsonNumber::Unsigned(u)),
            (None, Some(i)) => Json::Number(JsonNumber::Negative(i)),
            (None, None) => Json::Number(JsonNumber::Float(n.to_string())),
        },
        Value::String(s) => Json::text(s),
        Value::Array(a) => Json::array(a.iter().map(from_value).collect()),
        Value::Object(m) => {
            Json::object(m.iter().map(|(k, v)| (k.clone(), from_value(v))).collect())
        }
    }
}

fn json(s: &str) -> Json {
    from_value(&serde_json::from_str::<Value>(s).unwrap())
}

fn sorted(j: &Json) -> Json {
    match j {
        Json::Array(a) => Json::array(a.iter().map(sorted).collect()),
        Json::Object(m) => {
            let mut v: Vec<(String, Json)> = m.iter().map(|(k, v)| (k.clone(), sorted(v))).collect();
            v.sort_by(|a, b| a.0.cmp(&b.0));
            Json::object(v)
        }
        other => other.copy(),
    }
}

fn assert_json(got: &Json, want: &str) {
    assert_eq!(format!("{:?}", sorted(got)), format!("{:?}", sorted(&json(want))));
}

fn names(v: &[&str]) -> Vec<String> {
    v.iter().map(|s| s.to_string()).collect()
}

fn check_boundaries() {
    assert_eq!(
        parse_multipart_boundary("multipart/mixed; boundary=abc").as_deref(),
        Some("abc")
    );
    assert_eq!(
        parse_multipart_boundary("multipart/mixed; BOUNDARY=\"x-y-z\"").as_deref(),
        Some("x-y-z")
    );
    assert_eq!(parse_multipart_boundary("multipart/mixed"), None);
}

#[test]
fn boundary_parsing_handles_quotes_and_case() {
    check_boundaries();
}

#[test]
fn federation_client_boundary_parsing_handles_quotes_and_case() {
    check_boundaries();
}

fn two_parts(boundary: &str, headers: &[u8], inner: &[u8]) -> Vec<u8> {
    let mut body = Vec::new();
    body.extend_from_slice(format!("--{boundary}\r\n").as_bytes());
    body.extend_from_slice(b"Content-Type: application/json\r\n\r\n");
    body.extend_from_slice(b"{}\r\n");
    body.extend_from_slice(format!("--{boundary}\r\n").as_bytes());
    body.extend_from_slice(headers);
    body.extend_from_slice(inner);
    body.extend_from_slice(b"\r\n");
    body.extend_from_slice(format!("--{boundary}--\r\n").as_bytes());
    body
}

#[test]
fn multipart_extracts_media_part_round_trip() {
    let boundary = "vela-test-boundary";
    let body_inner = b"hello world".to_vec();
    let body =
        two_parts(boundary, b"Content-Type: text/plain; charset=utf-8\r\n\r\n", &body_inner);
    let media = parse_multipart_media(&body, boundary).unwrap();
    assert_eq!(media.content_type, "text/plain; charset=utf-8");
    assert_eq!(media.bytes, body_inner);
    assert!(media.filename.is_none(), "no Content-Disposition means no name");
}

#[test]
fn federation_client_multipart_extracts_media_part_round_trip() {
    let boundary = "vela-test-boundary";
    let body_inner = b"hello world".to_vec();
    let body =
        two_parts(boundary, b"Content-Type: text/plain; charset=utf-8\r\n\r\n", &body_inner);
    let media = parse_multipart_media(&body, boundary).unwrap();
    assert_eq!(media.content_type, "text/plain; charset=utf-8");
    assert_eq!(media.bytes, body_inner);
}

#[test]
fn multipart_extracts_unicode_filename_from_part_content_disposition() {
    let boundary = "vela-unicode";
    let body_inner = b"\xe2\x98\x95".to_vec();
    let headers = b"Content-Type: image/png\r\nContent-Disposition: inline; filename=\"\"; filename*=UTF-8''%E2%98%95\r\n\r\n";
    let body = two_parts(boundary, headers, &body_inner);
    let media = parse_multipart_media(&body, boundary).unwrap();
    assert_eq!(media.content_type, "image/png");
    assert_eq!(media.filename.as_deref(), Some("☕"));
    assert_eq!(media.bytes, body_inner);
}

#[test]
fn parse_filename_prefers_rfc5987_over_plain() {
    assert_eq!(
        parse_filename_from_content_disposition("inline; filename=\"hello.txt\""),
        Some("hello.txt".to_string())
    );
    assert_eq!(
        parse_filename_from_content_disposition(
            "inline; filename=\"fallback\"; filename*=UTF-8''%E2%98%95"
        ),
        Some("☕".to_string())
    );
    assert!(parse_filename_from_content_disposition("inline").is_none());
}

#[test]
fn broken_multipart_bodies_are_refused() {
    assert!(parse_multipart_media(b"", "b").is_err());
    assert!(parse_multipart_media(b"--b\r\n", "b").is_err());
    assert!(parse_multipart_media(b"--b\r\n--b\r\n--b--", "b").is_err());
    assert!(parse_multipart_media(b"--b\r\nx\r\n--b\r\nno end of headers", "b").is_err());
    let mut body = two_parts("b", b"Content-Type: \xff\r\n\r\n", b"x");
    assert!(parse_multipart_media(&body, "b").is_err());
    body = two_parts("b", b"X: y\r\n\r\n", b"x");
    let media = parse_multipart_media(&body, "b").unwrap();
    assert_eq!(media.bytes, b"x".to_vec());
}

fn check_unreserved() {
    assert_eq!(url_query_encode("Abc-123_xyz.~"), "Abc-123_xyz.~");
}

fn check_reserved() {
    assert_eq!(url_query_encode("#alias:host"), "%23alias%3Ahost");
    assert_eq!(url_query_encode("@user:host"), "%40user%3Ahost");
    assert_eq!(url_query_encode("a b/c?d"), "a%20b%2Fc%3Fd");
}

fn check_multibyte() {
    let alias = "#老虎:hs1";
    let encoded = url_query_encode(alias);
    assert!(encoded.is_ascii(), "encoded form must be pure ASCII: {encoded}");
    assert!(encoded.starts_with("%23"));
    assert!(encoded.contains("%3A"));
    assert!(encoded.contains("%E8%80%81"));
}

#[test]
fn url_query_encode_preserves_unreserved() {
    check_unreserved();
}

#[test]
fn federation_client_url_query_encode_preserves_unreserved() {
    check_unreserved();
}

#[test]
fn url_query_encode_percent_encodes_reserved() {
    check_reserved();
}

#[test]
fn federation_client_url_query_encode_percent_encodes_reserved() {
    check_reserved();
}

#[test]
fn url_query_encode_percent_encodes_multibyte_utf8() {
    check_multibyte();
}

#[test]
fn federation_client_url_query_encode_percent_encodes_multibyte_utf8() {
    check_multibyte();
}

fn server(host: &str, name: &str, ips: Vec<vela_federation::ip::IpAddress>) -> ResolvedServer {
    ResolvedServer {
        target_host: host.to_string(),
        target_port: 8443,
        tls_server_name: name.to_string(),
        host_header: name.to_string(),
        resolved_ips: ips,
    }
}

#[test]
fn client_cache_keys_by_sni_and_port() {
    let mut client = FederationClient::new("us.example".to_string());
    let ip = vela_federation::ip::parse_ip("10.0.0.1").unwrap();
    let r1 = server("node1.internal", "matrix.example.com", vec![ip]);
    let r2 = server("node2.internal", "other.example.com", vec![ip]);
    match client.client_for(&r1) {
        ClientChoice::Build(n) => {
            assert_eq!(n, 0);
            assert!(client.clients.contains_key("matrix.example.com:8443"));
        }
        _ => panic!("the first request builds a client"),
    }
    assert!(matches!(client.client_for(&r2), ClientChoice::Build(1)));
    assert_eq!(client.clients.len(), 2);
    match client.client_for(&r1) {
        ClientChoice::Kept(n) => assert_eq!(n, 0),
        _ => panic!("the second request keeps it"),
    }
    assert_eq!(client.clients.len(), 2, "client_for should memoise");
}

#[test]
fn client_for_falls_back_to_default_on_empty_ips() {
    let mut client = FederationClient::new("us.example".to_string());
    assert!(matches!(
        client.client_for(&server("example.com", "example.com", vec![])),
        ClientChoice::Default
    ));
    assert_eq!(client.clients.len(), 0);
}

fn expect(r: Request, put: &str, destination: &str, path: &str, body: Option<&str>) {
    let method = match r.method {
        Method::Get => "GET",
        Method::Put => "PUT",
        Method::Post => "POST",
    };
    assert_eq!(method, put);
    assert_eq!(r.destination, destination);
    assert_eq!(r.path, path);
    match (r.body, body) {
        (Some(b), Some(want)) => assert_json(&b, want),
        (None, None) => {}
        (got, want) => panic!("{got:?} {want:?}"),
    }
}

#[test]
fn requests_name_their_targets() {
    let c = FederationClient::new("us.example".to_string());
    let d = "them";
    let f = "/_matrix/federation";
    let body = || json("{\"a\":1}");
    let b = Some("{\"a\":1}");
    expect(c.send_transaction(d, "t1", body()), "PUT", d, &format!("{f}/v1/send/t1"), b);
    expect(
        c.make_join(d, "!r:x", "@u:us", &names(&["11", "12"])),
        "GET",
        d,
        &format!("{f}/v1/make_join/!r:x/@u:us?ver=11&ver=12"),
        None,
    );
    expect(
        c.send_join_v2(d, "!r:x", "$e", body(), true),
        "PUT",
        d,
        &format!("{f}/v2/send_join/!r:x/$e?omit_members=true"),
        b,
    );
    expect(
        c.send_join_v2(d, "!r:x", "$e", body(), false),
        "PUT",
        d,
        &format!("{f}/v2/send_join/!r:x/$e"),
        b,
    );
    expect(c.make_leave(d, "!r", "@u"), "GET", d, &format!("{f}/v1/make_leave/!r/@u"), None);
    expect(
        c.send_leave_v2(d, "!r", "$e", body()),
        "PUT",
        d,
        &format!("{f}/v2/send_leave/!r/$e"),
        b,
    );
    expect(
        c.query_directory(d, "#a:b"),
        "GET",
        d,
        &format!("{f}/v1/query/directory?room_alias=%23a%3Ab"),
        None,
    );
    expect(
        c.fetch_event_pdu(d, "$e"),
        "GET",
        d,
        &format!("{f}/v1/event/{}", url_query_encode("$e")),
        None,
    );
    expect(
        c.backfill(d, "!r", &names(&["$a", "$b"]), 50),
        "GET",
        d,
        &format!("{f}/v1/backfill/!r?v=$a&v=$b&limit=50"),
        None,
    );
    expect(
        c.make_knock(d, "!r", "@u", &names(&["12"])),
        "GET",
        d,
        &format!("{f}/v1/make_knock/!r/@u?ver=12"),
        None,
    );
    expect(c.send_knock_v1(d, "!r", "$e", body()), "PUT", d, &format!("{f}/v1/send_knock/!r/$e"), b);
    expect(c.send_invite_v2(d, "!r", "$e", body()), "PUT", d, &format!("{f}/v2/invite/!r/$e"), b);
    expect(
        c.state_ids(d, "!r", "$e"),
        "GET",
        d,
        &format!("{f}/v1/state_ids/%21r?event_id=%24e"),
        None,
    );
    expect(
        c.timestamp_to_event(d, "!r", 5, "b"),
        "GET",
        d,
        &format!("{f}/v1/timestamp_to_event/%21r?ts=5&dir=b"),
        None,
    );
    expect(c.claim_user_keys(d, body()), "POST", d, &format!("{f}/v1/user/keys/claim"), b);
    expect(
        c.query_user_keys(d, body()),
        "POST",
        d,
        &format!("{f}/v1/user/keys/query"),
        b,
    );
}

#[test]
fn replies_end_requests() {
    let c = FederationClient::new("us.example".to_string());
    assert!(c.signed_request(true, "200 OK", "", json("{}")).is_ok());
    match c.signed_request(false, "404 Not Found", "gone", Json::Null) {
        Err(FederationClientError::Http(e)) => assert_eq!(e, "status 404 Not Found: gone"),
        other => panic!("{other:?}"),
    }
    let off = FederationClient::new_with_enabled("us.example".to_string(), false);
    assert!(matches!(
        off.signed_request(true, "200 OK", "", json("{}")),
        Err(FederationClientError::FederationDisabled)
    ));
}

#[test]
fn overrides_come_before_resolution() {
    let mut c = FederationClient::new("us.example".to_string());
    c.set_base_url_override("peer", "http://10.0.0.5:8008".to_string());
    let nowhere = Err("no such host".to_string());
    assert_eq!(
        c.key_target("peer", &nowhere).unwrap(),
        ("http://10.0.0.5:8008/_matrix/key/v2/server".to_string(), "peer".to_string())
    );
    let found = Ok(server("node", "matrix.other", vec![]));
    assert_eq!(
        c.request_target("other", &found, "/x").unwrap(),
        ("https://matrix.other:8443/x".to_string(), "matrix.other".to_string())
    );
    match c.request_target("other", &nowhere, "/x") {
        Err(FederationClientError::Http(e)) => assert_eq!(e, "resolve: no such host"),
        other => panic!("{other:?}"),
    }
    let off = FederationClient::new_with_enabled("us".to_string(), false);
    assert!(matches!(
        off.request_target("other", &found, "/x"),
        Err(FederationClientError::FederationDisabled)
    ));
    assert!(off.check_enabled().is_err() && c.check_enabled().is_ok());
    assert!(off.key_target("other", &found).is_ok(), "keys are fetched all the same");
}

#[test]
fn replies_are_capped() {
    match CappedBody::start(Some(11), 10) {
        Err(FederationClientError::Http(e)) => {
            assert_eq!(e, "response too large: 11 bytes (cap 10)")
        }
        _ => panic!("too long"),
    }
    let mut b = CappedBody::start(Some(10), 10).unwrap_or_else(|_| panic!("fits"));
    assert!(b.read_capped_json(b"12345").is_ok());
    assert!(b.read_capped_json(b"67890").is_ok());
    match b.read_capped_json(b"1") {
        Err(FederationClientError::Http(e)) => assert_eq!(e, "response exceeds 10-byte cap"),
        _ => panic!("too long"),
    }
    assert_eq!(b.bytes, b"1234567890".to_vec());
}

#[test]
fn events_and_media_are_taken_from_replies() {
    assert_json(&event_in(&json("{\"pdus\":[{\"a\":1},{}]}")).unwrap(), "{\"a\":1}");
    assert!(matches!(event_in(&json("{\"pdus\":[]}")), Err(FederationClientError::BadJson(_))));
    assert!(matches!(event_in(&json("{}")), Err(FederationClientError::BadJson(_))));
    let m = media_in(Some("image/png"), Some("inline; filename=\"a.png\""), b"xyz".to_vec()).unwrap();
    assert_eq!(m.content_type, "image/png");
    assert_eq!(m.filename.as_deref(), Some("a.png"));
    assert_eq!(m.bytes, b"xyz".to_vec());
    let body = two_parts("b", b"Content-Type: text/plain\r\n\r\n", b"inner");
    let m = media_in(Some("multipart/mixed; boundary=b"), None, body).unwrap();
    assert_eq!(m.content_type, "text/plain");
    assert_eq!(m.bytes, b"inner".to_vec());
    assert_eq!(media_in(Some("multipart/mixed"), None, b"x".to_vec()).unwrap().bytes, b"x".to_vec());
    assert_eq!(media_in(None, None, vec![]).unwrap().content_type, "application/octet-stream");
    match media_in(Some("multipart/mixed; boundary=b"), None, b"x".to_vec()) {
        Err(FederationClientError::BadJson(e)) => assert!(e.starts_with("multipart: ")),
        other => panic!("{other:?}"),
    }
}

#[test]
fn clocks_run_forwards() {
    assert_eq!(millis(None), 0);
    assert_eq!(millis(Some(5)), 5);
    assert_eq!(millis(Some(0x1_0000_0000_0000_0007)), 7);
    assert!(now_ms() > 1_600_000_000_000);
}
