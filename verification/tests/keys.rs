use ed25519_dalek::Signature;
use ed25519_dalek::Signer;
use ed25519_dalek::SigningKey;
use ed25519_dalek::Verifier;
use ed25519_dalek::VerifyingKey;
use serde_json::Value;
use vela_federation::client::FederationClient;
use vela_federation::json::Json;
use vela_federation::json::JsonNumber;
use vela_federation::key_cache::CacheStep;
use vela_federation::key_cache::RemoteKeyCache;
use vela_federation::keys::cache_suffices;
use vela_federation::keys::next_signature;
use vela_federation::keys::validate_key_response;
use vela_federation::keys::FederationClientError;
use vela_federation::keys::RemoteKeys;
use vela_federation::keys::SignatureStep;
use vela_federation::keys::KEY_VALIDITY_CAP_MS;
use vela_federation::keys::MIN_KEY_REFETCH_MS;
use vela_federation::server_keys::build_notary_entry_for;
use vela_federation::server_keys::build_server_key_response;
use vela_federation::server_keys::query_keys_batch;
use vela_federation::server_keys::query_keys_reply;
use vela_federation::server_keys::query_keys_single;
use vela_federation::server_keys::version;
use vela_federation::server_keys::NotarySource;
use vela_federation::server_keys::OldKey;
use vela_federation::table::TextMap;
use vela_federation::xmatrix::build_x_matrix_header;
use vela_federation::xmatrix::parse_x_matrix_auth;
use vela_federation::xmatrix::sign_federation_request;
use vela_federation::xmatrix::verify_federation_request;

const ALPHABET: &[u8; 64] = b"ABCDEFGHIJKLMNOPQRSTUVWXYZabcdefghijklmnopqrstuvwxyz0123456789+/";

fn base64(bytes: &[u8]) -> String {
    let mut out = String::new();
    for chunk in bytes.chunks(3) {
        let mut word: u32 = 0;
        for i in 0..3 {
            word = word << 8 | *chunk.get(i).unwrap_or(&0) as u32;
        }
        for i in 0..chunk.len() + 1 {
            out.push(ALPHABET[(word >> (18 - 6 * i) & 63) as usize] as char);
        }
    }
    out
}

fn unbase64(s: &str) -> Option<Vec<u8>> {
    let mut out = Vec::new();
    let mut word: u32 = 0;
    let mut bits = 0;
    for b in s.bytes() {
        let v = ALPHABET.iter().position(|a| *a == b)? as u32;
        word = (word << 6 | v) & 0xffff;
        bits += 6;
        if bits >= 8 {
            bits -= 8;
            out.push((word >> bits & 0xff) as u8);
        }
    }
    Some(out)
}

fn to_value(j: &Json) -> Value {
    match j {
        Json::Null => Value::Null,
        Json::Bool(b) => Value::Bool(*b),
        Json::Number(JsonNumber::Unsigned(n)) => Value::from(*n),
        Json::Number(JsonNumber::Negative(n)) => Value::from(*n),
        Json::Number(JsonNumber::Float(_)) => unreachable!(),
        Json::Str(s) => Value::from(s.as_str()),
        Json::Array(v) => Value::Array(v.iter().map(to_value).collect()),
        Json::Object(m) => {
            let mut out = serde_json::Map::new();
            for (k, v) in m {
                out.insert(k.clone(), to_value(v));
            }
            Value::Object(out)
        }
    }
}

fn signable(j: &Json) -> String {
    let mut v = to_value(j);
    let m = v.as_object_mut().unwrap();
    m.remove("signatures");
    m.remove("unsigned");
    v.to_string()
}

struct Key {
    id: String,
    key: SigningKey,
}

impl Key {
    fn numbered(n: u8) -> Key {
        Key { id: format!("ed25519:k{n}"), key: SigningKey::from_bytes(&[n; 32]) }
    }

    fn public(&self) -> String {
        base64(self.key.verifying_key().as_bytes())
    }

    fn sign(&self, j: &Json) -> String {
        base64(&self.key.sign(signable(j).as_bytes()).to_bytes())
    }

    fn sign_json(&self, m: &mut Vec<(String, Json)>, server: &str) {
        let sig = self.sign(&Json::object(m.iter().map(|(k, v)| (k.clone(), v.copy())).collect()));
        let by_key = object(vec![(&self.id, Json::text(&sig))]);
        m.push(("signatures".to_string(), object(vec![(server, by_key)])));
    }
}

fn object(m: Vec<(&str, Json)>) -> Json {
    Json::object(m.into_iter().map(|(k, v)| (k.to_string(), v)).collect())
}

fn verify(doc: &Json, server: &str, key_id: &str, key: &VerifyingKey) -> bool {
    let sig = match doc.get("signatures").and_then(|s| s.str_within(server, key_id)) {
        Some(s) => s,
        None => return false,
    };
    let bytes = match unbase64(sig) {
        Some(b) if b.len() == 64 => b,
        _ => return false,
    };
    let mut raw = [0u8; 64];
    raw.copy_from_slice(&bytes);
    key.verify(signable(doc).as_bytes(), &Signature::from_bytes(&raw)).is_ok()
}

fn decode_key(s: &str) -> Option<VerifyingKey> {
    let bytes = unbase64(s)?;
    if bytes.len() != 32 {
        return None;
    }
    let mut raw = [0u8; 32];
    raw.copy_from_slice(&bytes);
    VerifyingKey::from_bytes(&raw).ok()
}

fn validate(body: &Json, name: &str) -> Result<RemoteKeys, FederationClientError> {
    validate_key_response(
        body,
        name,
        now_ms_fixed(),
        |k: &str| match decode_key(k) {
            Some(_) => None,
            None => Some("bad key".to_string()),
        },
        |id: &str, k: &str| verify(body, name, id, &decode_key(k).unwrap()),
    )
}

fn now_ms_fixed() -> u64 {
    1_700_000_000_000
}

fn key_members(key: &Key, valid_until_ts: u64) -> Vec<(String, Json)> {
    let entry = object(vec![("key", Json::text(&key.public()))]);
    vec![
        ("server_name".to_string(), Json::text("them.example")),
        ("verify_keys".to_string(), object(vec![(&key.id, entry)])),
        ("old_verify_keys".to_string(), object(vec![])),
        ("valid_until_ts".to_string(), Json::number(valid_until_ts)),
    ]
}

fn sign_key_response(key: &Key, valid_until_ts: u64) -> Json {
    let mut m = key_members(key, valid_until_ts);
    key.sign_json(&mut m, "them.example");
    Json::object(m)
}

fn table(entries: &[(&str, &str)]) -> TextMap<String> {
    let mut t = TextMap::new();
    for (k, v) in entries {
        t.insert(k, v.to_string());
    }
    t
}

fn keys_doc(valid_until_ts: u64, fetched_at: u64, key_ids: &[&str]) -> RemoteKeys {
    let mut verify_keys = TextMap::new();
    for k in key_ids {
        verify_keys.insert(k, "AAAA".to_string());
    }
    RemoteKeys { verify_keys, old_verify_keys: TextMap::new(), valid_until_ts, fetched_at }
}

fn wanted(ids: &[&str]) -> Vec<String> {
    ids.iter().map(|s| s.to_string()).collect()
}

#[test]
fn cache_suffices_when_valid_and_has_key() {
    let now = now_ms_fixed();
    let doc = keys_doc(now + 60_000, now - 60_000, &["ed25519:a"]);
    assert!(cache_suffices(&doc, &wanted(&["ed25519:a"]), now, MIN_KEY_REFETCH_MS));
}

#[test]
fn cache_refetches_when_valid_but_missing_key_and_cooled_down() {
    let now = now_ms_fixed();
    let doc = keys_doc(now + 60_000, now - 60_000, &["ed25519:old"]);
    assert!(!cache_suffices(&doc, &wanted(&["ed25519:new"]), now, MIN_KEY_REFETCH_MS));
}

#[test]
fn cache_suffices_when_missing_key_but_within_cooldown() {
    let now = now_ms_fixed();
    let doc = keys_doc(now + 60_000, now - 10, &["ed25519:old"]);
    assert!(cache_suffices(&doc, &wanted(&["ed25519:new"]), now, MIN_KEY_REFETCH_MS));
}

#[test]
fn cache_never_suffices_when_expired() {
    let now = now_ms_fixed();
    let doc = keys_doc(now - 1, now, &["ed25519:a"]);
    assert!(!cache_suffices(&doc, &wanted(&["ed25519:a"]), now, MIN_KEY_REFETCH_MS));
}

#[test]
fn cache_suffices_with_empty_wanted_mirrors_time_check() {
    let now = now_ms_fixed();
    assert!(cache_suffices(&keys_doc(now + 1, now, &[]), &wanted(&[]), now, MIN_KEY_REFETCH_MS));
    assert!(!cache_suffices(&keys_doc(now - 1, now, &[]), &wanted(&[]), now, MIN_KEY_REFETCH_MS));
}

#[test]
fn event_verify_key_uses_current_then_old() {
    let keys = RemoteKeys {
        verify_keys: table(&[("ed25519:cur", "CURRENT")]),
        old_verify_keys: table(&[("ed25519:old", "OLDKEY")]),
        valid_until_ts: 0,
        fetched_at: 0,
    };
    assert_eq!(keys.event_verify_key("ed25519:cur"), Some("CURRENT"));
    assert_eq!(keys.event_verify_key("ed25519:old"), Some("OLDKEY"));
    assert_eq!(keys.event_verify_key("ed25519:nope"), None);
}

#[test]
fn cache_suffices_covers_old_verify_keys() {
    let now = now_ms_fixed();
    let doc = RemoteKeys {
        verify_keys: table(&[("ed25519:cur", "C")]),
        old_verify_keys: table(&[("ed25519:old", "O")]),
        valid_until_ts: now + 60_000,
        fetched_at: now - 60_000,
    };
    assert!(cache_suffices(&doc, &wanted(&["ed25519:old"]), now, MIN_KEY_REFETCH_MS));
    assert!(!cache_suffices(&doc, &wanted(&["ed25519:unknown"]), now, MIN_KEY_REFETCH_MS));
}

#[test]
fn validates_response_with_old_verify_keys() {
    let cur = Key::numbered(1);
    let old = Key::numbered(2);
    let old_pub = old.public();
    let mut m = key_members(&cur, now_ms_fixed() + 60_000);
    m[2].1 = object(vec![(
        &old.id,
        object(vec![("key", Json::text(&old_pub)), ("expired_ts", Json::number(1000))]),
    )]);
    cur.sign_json(&mut m, "them.example");
    let parsed = validate(&Json::object(m), "them.example").expect("valid response");
    assert!(parsed.verify_keys.contains_key(&cur.id));
    assert_eq!(parsed.old_verify_keys.get(&old.id).map(String::as_str), Some(old_pub.as_str()));
}

#[test]
fn validates_well_formed_self_signed_response() {
    let key = Key::numbered(1);
    let body = sign_key_response(&key, now_ms_fixed() + 60_000);
    let parsed = validate(&body, "them.example").expect("valid response");
    assert_eq!(parsed.verify_keys.len(), 1);
    assert!(parsed.verify_keys.contains_key(&key.id));
    assert!(parsed.is_valid_at(now_ms_fixed()));
}

#[test]
fn rejects_server_name_mismatch() {
    let key = Key::numbered(1);
    let body = sign_key_response(&key, now_ms_fixed() + 60_000);
    let err = validate(&body, "someone-else.example").expect_err("must reject");
    assert!(matches!(err, FederationClientError::ServerNameMismatch { .. }));
}

#[test]
fn rejects_tampered_body() {
    let key = Key::numbered(1);
    let mut m = key_members(&key, now_ms_fixed() + 60_000);
    key.sign_json(&mut m, "them.example");
    m.push(("sneaky".to_string(), Json::text("injected")));
    let err = validate(&Json::object(m), "them.example").expect_err("must reject");
    assert!(matches!(err, FederationClientError::NoValidSelfSignature));
}

#[test]
fn rejects_expired_response() {
    let key = Key::numbered(1);
    let body = sign_key_response(&key, now_ms_fixed() - 1);
    let err = validate(&body, "them.example").expect_err("must reject");
    assert!(matches!(err, FederationClientError::ExpiredKeyResponse));
}

#[test]
fn rejects_far_future_valid_until_ts() {
    let key = Key::numbered(1);
    let body = sign_key_response(&key, u64::MAX);
    let err = validate(&body, "them.example").expect_err("must reject");
    assert!(matches!(err, FederationClientError::FarFutureKeyResponse));
}

#[test]
fn caps_validity_at_seven_days() {
    let key = Key::numbered(1);
    let claimed = now_ms_fixed() + 30 * 24 * 60 * 60 * 1000;
    let body = sign_key_response(&key, claimed);
    let parsed = validate(&body, "them.example").unwrap();
    let expected_cap = now_ms_fixed() + KEY_VALIDITY_CAP_MS;
    assert_eq!(parsed.valid_until_ts, expected_cap);
    assert_eq!(expected_cap - now_ms_fixed(), 604_800_000);
}

#[test]
fn rejects_malformed_verify_key() {
    let key = Key::numbered(1);
    let mut m = vec![
        ("server_name".to_string(), Json::text("them.example")),
        (
            "verify_keys".to_string(),
            object(vec![(
                "ed25519:bad",
                object(vec![("key", Json::text("not-valid-base64!"))]),
            )]),
        ),
        ("valid_until_ts".to_string(), Json::number(now_ms_fixed() + 60_000)),
    ];
    key.sign_json(&mut m, "them.example");
    let err = validate(&Json::object(m), "them.example").expect_err("must reject");
    assert!(matches!(err, FederationClientError::MalformedKey { .. }));
}

#[test]
fn key_documents_are_checked_in_order() {
    let key = Key::numbered(1);
    let expired = Json::object(key_members(&key, now_ms_fixed() - 1));
    assert!(matches!(
        validate(&expired, "them.example"),
        Err(FederationClientError::MissingField(f)) if f == "signatures"
    ));
    let other = Key::numbered(2);
    let mut m = key_members(&key, now_ms_fixed() - 1);
    other.sign_json(&mut m, "them.example");
    assert!(matches!(
        validate(&Json::object(m), "them.example"),
        Err(FederationClientError::NoValidSelfSignature)
    ));
    let mut m = key_members(&key, now_ms_fixed() - 1);
    let good = object(vec![("key", Json::text(&key.public()))]);
    let bad = object(vec![("key", Json::text("not-valid-base64!"))]);
    m[1].1 = object(vec![(&key.id, good), ("ed25519:bad", bad)]);
    key.sign_json(&mut m, "them.example");
    assert!(matches!(
        validate(&Json::object(m), "them.example"),
        Err(FederationClientError::ExpiredKeyResponse)
    ));
}

#[test]
fn rejects_when_no_signature_matches_verify_keys() {
    let advertised = Key::numbered(1);
    let different = Key::numbered(2);
    let mut m = key_members(&advertised, now_ms_fixed() + 60_000);
    different.sign_json(&mut m, "them.example");
    let err = validate(&Json::object(m), "them.example").expect_err("must reject");
    assert!(matches!(err, FederationClientError::NoValidSelfSignature));
}

#[test]
fn key_documents_miss_fields() {
    let missing = |j: Json, what: &str| match validate(&j, "them.example") {
        Err(FederationClientError::MissingField(f)) => assert_eq!(f, what),
        other => panic!("{other:?}"),
    };
    missing(object(vec![]), "server_name");
    missing(object(vec![("server_name", Json::text("them.example"))]), "verify_keys");
    missing(
        object(vec![
            ("server_name", Json::text("them.example")),
            ("verify_keys", object(vec![])),
        ]),
        "verify_keys (empty)",
    );
    let key = Key::numbered(1);
    let mut m = key_members(&key, now_ms_fixed() + 60_000);
    missing(Json::object(m.iter().take(3).map(|(k, v)| (k.clone(), v.copy())).collect()), "valid_until_ts");
    m.truncate(4);
    missing(Json::object(m), "signatures");
    match validate(&Json::text("x"), "them.example") {
        Err(FederationClientError::BadJson(e)) => assert_eq!(e, "not an object"),
        other => panic!("{other:?}"),
    }
}

#[test]
fn fetched_documents_are_validated() {
    let key = Key::numbered(1);
    let client = FederationClient::new("us.example".to_string());
    let name = "them.example";
    let fetch = |success: bool, body: Result<Json, FederationClientError>| {
        let doc = match &body {
            Ok(b) => b.copy(),
            Err(_) => Json::Null,
        };
        client.fetch_server_keys(
            name,
            success,
            "502 Bad Gateway",
            body,
            now_ms_fixed(),
            |k: &str| match decode_key(k) {
                Some(_) => None,
                None => Some("bad key".to_string()),
            },
            |id: &str, k: &str| verify(&doc, name, id, &decode_key(k).unwrap()),
        )
    };
    let body = sign_key_response(&key, now_ms_fixed() + 60_000);
    assert!(fetch(true, Ok(body.copy())).is_ok());
    match fetch(false, Ok(body)) {
        Err(FederationClientError::Http(e)) => assert_eq!(e, "status 502 Bad Gateway"),
        other => panic!("{other:?}"),
    }
    match fetch(true, Err(FederationClientError::BadJson("eof".to_string()))) {
        Err(FederationClientError::BadJson(e)) => assert_eq!(e, "eof"),
        other => panic!("{other:?}"),
    }
}

#[test]
fn build_header_matches_spec_format() {
    let key = Key::numbered(1);
    let doc = sign_federation_request("GET", "/_matrix/key/v2/server", "us.example", "them.example", None);
    let header = build_x_matrix_header("us.example", "them.example", &key.id, &key.sign(&doc));
    assert!(header.starts_with("X-Matrix "));
    assert!(header.contains(r#"origin="us.example""#));
    assert!(header.contains(r#"destination="them.example""#));
    assert!(header.contains(&format!(r#"key="{}""#, key.id)));
    assert!(header.contains(r#"sig=""#));
}

fn signature_in_header(key: &Key, method: &str, uri: &str, body: Option<&Json>) -> String {
    let doc = sign_federation_request(method, uri, "us.example", "them.example", body);
    let header = build_x_matrix_header("us.example", "them.example", &key.id, &key.sign(&doc));
    parse_x_matrix_auth(&header).unwrap().sig
}

fn verifies(key: &Key, method: &str, uri: &str, destination: &str, body: Option<&Json>, sig: &str) -> bool {
    let doc = verify_federation_request(method, uri, "us.example", destination, body, &key.id, sig);
    verify(&doc, "us.example", &key.id, &key.key.verifying_key())
}

#[test]
fn sign_verify_roundtrip_get() {
    let key = Key::numbered(1);
    let sig = signature_in_header(&key, "GET", "/_matrix/foo", None);
    assert!(verifies(&key, "GET", "/_matrix/foo", "them.example", None, &sig));
}

#[test]
fn sign_verify_roundtrip_post_with_body() {
    let key = Key::numbered(1);
    let body = object(vec![("foo", Json::text("bar")), ("n", Json::number(42))]);
    let sig = signature_in_header(&key, "POST", "/_matrix/bar", Some(&body));
    assert!(verifies(&key, "POST", "/_matrix/bar", "them.example", Some(&body), &sig));
}

#[test]
fn verify_rejects_tampered_body() {
    let key = Key::numbered(1);
    let body = object(vec![("foo", Json::text("bar"))]);
    let sig = signature_in_header(&key, "POST", "/_matrix/bar", Some(&body));
    let tampered = object(vec![("foo", Json::text("EVIL"))]);
    assert!(!verifies(&key, "POST", "/_matrix/bar", "them.example", Some(&tampered), &sig));
}

#[test]
fn verify_rejects_wrong_destination() {
    let key = Key::numbered(1);
    let sig = signature_in_header(&key, "GET", "/_matrix/foo", None);
    assert!(!verifies(&key, "GET", "/_matrix/foo", "attacker.example", None, &sig));
}

fn signed_own_document(key: &Key, old: &Vec<OldKey>) -> Json {
    let mut m = match build_server_key_response(&key.id, &key.public(), "example.com", 1_700_000_000_000, old) {
        Json::Object(m) => m,
        other => panic!("{other:?}"),
    };
    key.sign_json(&mut m, "example.com");
    Json::object(m)
}

#[test]
fn server_key_response_is_self_signed() {
    let key = Key::numbered(1);
    let response = signed_own_document(&key, &vec![]);
    assert_eq!(response.str_at("server_name"), Some("example.com"));
    assert!(response.get("verify_keys").is_some());
    assert!(response.get("old_verify_keys").is_some());
    assert!(response.get("valid_until_ts").is_some());
    assert!(response.get("signatures").is_some());
    let entry = response.get("verify_keys").and_then(|v| v.get(&key.id)).unwrap();
    assert_eq!(entry.str_at("key"), Some(key.public().as_str()));
    assert_eq!(response.object_at("old_verify_keys").unwrap().len(), 0);
    let expected_vut = 1_700_000_000_000u64 + 7 * 24 * 60 * 60 * 1000;
    assert_eq!(response.u64_at("valid_until_ts"), Some(expected_vut));
    assert!(verify(&response, "example.com", &key.id, &key.key.verifying_key()));
}

#[test]
fn server_key_response_emits_old_verify_keys() {
    let key = Key::numbered(1);
    let old = vec![
        OldKey {
            key_id: "ed25519:retired1".to_string(),
            public_key: "AAAA".to_string(),
            expired_ts: 1_600_000_000_000u64,
        },
        OldKey {
            key_id: "ed25519:retired2".to_string(),
            public_key: "BBBB".to_string(),
            expired_ts: 1_650_000_000_000u64,
        },
    ];
    let response = signed_own_document(&key, &old);
    let old_map = response.get("old_verify_keys").unwrap();
    assert_eq!(old_map.as_object().unwrap().len(), 2);
    let r1 = old_map.get("ed25519:retired1").unwrap();
    assert_eq!(r1.str_at("key"), Some("AAAA"));
    assert_eq!(r1.u64_at("expired_ts"), Some(1_600_000_000_000u64));
    let r2 = old_map.get("ed25519:retired2").unwrap();
    assert_eq!(r2.str_at("key"), Some("BBBB"));
    assert_eq!(r2.u64_at("expired_ts"), Some(1_650_000_000_000u64));
    assert!(verify(&response, "example.com", &key.id, &key.key.verifying_key()));
}

#[test]
fn notary_queries() {
    assert!(matches!(build_notary_entry_for("us", "us"), NotarySource::Own));
    assert!(matches!(build_notary_entry_for("them", "us"), NotarySource::Fetched));
    let req = object(vec![(
        "server_keys",
        object(vec![("a.example", object(vec![])), ("b.example", object(vec![]))]),
    )]);
    assert_eq!(query_keys_batch(&req), wanted(&["a.example", "b.example"]));
    assert!(query_keys_batch(&object(vec![])).is_empty());
    let reply = query_keys_reply(&vec![None, Some(Json::text("x")), None]);
    assert_eq!(to_value(&reply).to_string(), "{\"server_keys\":[\"x\"]}");
    assert_eq!(to_value(&query_keys_single(None)).to_string(), "{\"server_keys\":[]}");
    assert_eq!(
        to_value(&query_keys_single(Some(Json::text("x")))).to_string(),
        "{\"server_keys\":[\"x\"]}"
    );
    assert_eq!(
        to_value(&version("1.2.3")).to_string(),
        "{\"server\":{\"name\":\"vela\",\"version\":\"1.2.3\"}}"
    );
}

#[test]
fn key_cache_serves_refetches_and_forgets() {
    let now = now_ms_fixed();
    let mut cache = RemoteKeyCache::new();
    assert!(matches!(cache.get_or_fetch("them", now), CacheStep::LoadStored));
    cache.insert_for_test("them", keys_doc(now + 60_000, now - 60_000, &["ed25519:a"]));
    assert!(matches!(cache.get_or_fetch("them", now), CacheStep::Serve(_)));
    assert!(matches!(
        cache.get_or_fetch_signed("them", &wanted(&["ed25519:b"]), now),
        CacheStep::Refetch(_)
    ));
    // The refetch was noted: a second request within a second is served.
    assert!(matches!(
        cache.get_or_fetch_signed("them", &wanted(&["ed25519:b"]), now + 1),
        CacheStep::Serve(_)
    ));
    // Another server is unaffected.
    assert!(matches!(cache.get_or_fetch("other", now), CacheStep::LoadStored));
    // Expired documents are dropped.
    assert!(matches!(cache.get_or_fetch("them", now + 60_000), CacheStep::LoadStored));
    assert!(matches!(
        cache.loaded("them", &wanted(&[]), now, Some(keys_doc(now - 1, now, &[]))),
        CacheStep::Fetch
    ));
    let keys = cache.refetch_or(
        "them",
        Err(FederationClientError::Http("down".to_string())),
        keys_doc(now + 5, now, &["ed25519:c"]),
    );
    assert!(keys.verify_keys.contains_key("ed25519:c"));
}

#[test]
fn signatures_are_searched_with_current_and_old_keys() {
    let keys = RemoteKeys {
        verify_keys: table(&[("ed25519:cur", "C")]),
        old_verify_keys: table(&[("ed25519:old", "O")]),
        valid_until_ts: 0,
        fetched_at: 0,
    };
    let event = object(vec![(
        "signatures",
        object(vec![(
            "them",
            object(vec![
                ("ed25519:unknown", Json::text("s")),
                ("ed25519:old", Json::text("s")),
                ("ed25519:cur", Json::text("s")),
            ]),
        )]),
    )]);
    match next_signature(&event, "them", &keys, &vec![]) {
        SignatureStep::Check { key_id, key } => {
            assert_eq!(key_id, "ed25519:old");
            assert_eq!(key, "O");
        }
        _ => panic!("a check is due"),
    }
    match next_signature(&event, "them", &keys, &vec![false]) {
        SignatureStep::Check { key_id, key } => {
            assert_eq!(key_id, "ed25519:cur");
            assert_eq!(key, "C");
        }
        _ => panic!("a check is due"),
    }
    assert!(matches!(next_signature(&event, "them", &keys, &vec![false, true]), SignatureStep::Verified));
    assert!(matches!(
        next_signature(&event, "them", &keys, &vec![false, false]),
        SignatureStep::Unverified
    ));
    assert!(matches!(next_signature(&event, "us", &keys, &vec![]), SignatureStep::Unsigned));
}

#[test]
fn errors_read_as_sentences() {
    assert_eq!(FederationClientError::Http("x".to_string()).message(), "http error: x");
    assert_eq!(
        FederationClientError::BadJson("y".to_string()).message(),
        "response is not valid JSON: y"
    );
}

#[test]
fn own_documents_are_accepted_by_others() {
    let key = Key::numbered(3);
    let old = vec![
        OldKey { key_id: "ed25519:o".to_string(), public_key: "AAAA".to_string(), expired_ts: 1 },
        OldKey { key_id: "ed25519:o".to_string(), public_key: key.public(), expired_ts: 2 },
    ];
    let document = signed_own_document(&key, &old);
    let keys = validate(&document, "example.com").expect("valid response");
    assert!(keys.verify_keys.contains_key(&key.id));
    assert_eq!(keys.old_verify_keys.get("ed25519:o").map(String::as_str), Some(key.public().as_str()));
    assert_eq!(keys.valid_until_ts, now_ms_fixed() + 604_800_000);
}
