use serde_json::Value;
use vela_federation::json::Json;
use vela_federation::json::JsonNumber;
use vela_federation::edu::dispatch_edu;
use vela_federation::edu::handle_device_list_update;
use vela_federation::edu::handle_direct_to_device;
use vela_federation::edu::handle_presence;
use vela_federation::edu::handle_signing_key_update;
use vela_federation::edu::target_belongs_to_us;
use vela_federation::edu::user_belongs_to_origin;
use vela_federation::edu::DeviceListFacts;
use vela_federation::edu::DeviceListStep;
use vela_federation::edu::DeviceListStream;
use vela_federation::edu::EduKind;
use vela_federation::edu::SigningKeyFacts;
use vela_federation::edu::SigningKeyStep;
use vela_federation::edu::SigningKeyUpdateStream;
use vela_federation::observers::Member;
use vela_federation::receipts::handle_receipt;
use vela_federation::receipts::ReceiptStream;
use vela_federation::receipts::StreamEntry;
use vela_federation::typing::handle_typing;
use vela_federation::typing::update_typers;
use vela_federation::typing::TypingStream;

fn from_value(v: &Value) -> Json {
    match v {
        Value::Null => Json::Null,
        Value::Bool(b) => Json::Bool(*b),
        Value::Number(n) => match (n.as_u64(), n.as_i64()) {
            (Some(u), _) => Json::Number(JsonNumber::Unsigned(u)),
            (None, Some(i)) => Json::Number(JsonNumber::Negative(i)),
            (None, None) => Json::Number(JsonNumber::Float(n.to_string())),
        },
        Value::String(s) => Json::text(s),
        Value::Array(a) => Json::array(a.iter().map(from_value).collect()),
        Value::Object(m) => {
            Json::object(m.iter().map(|(k, v)| (k.clone(), from_value(v))).collect())
        }
    }
}

fn json(s: &str) -> Json {
    from_value(&serde_json::from_str::<Value>(s).unwrap())
}

fn sorted(j: &Json) -> Json {
    match j {
        Json::Array(a) => Json::array(a.iter().map(sorted).collect()),
        Json::Object(m) => {
            let mut v: Vec<(String, Json)> = m.iter().map(|(k, v)| (k.clone(), sorted(v))).collect();
            v.sort_by(|a, b| a.0.cmp(&b.0));
            Json::object(v)
        }
        other => other.copy(),
    }
}

fn assert_json(got: &Json, want: &str) {
    assert_eq!(format!("{:?}", sorted(got)), format!("{:?}", sorted(&json(want))));
}

fn names(v: &[&str]) -> Vec<String> {
    v.iter().map(|s| s.to_string()).collect()
}

#[test]
fn user_domain_match() {
    assert!(user_belongs_to_origin("@alice:peer.example", "peer.example"));
    assert!(!user_belongs_to_origin("@alice:peer.example", "evil.example"));
    assert!(!user_belongs_to_origin("@alice:peer.example", "peer"));
    assert!(!user_belongs_to_origin("alice", "peer.example"));
    assert!(target_belongs_to_us("@bob:us:8448", "us:8448"));
    assert!(!target_belongs_to_us("@bob:us:8448", "us"));
}

#[test]
fn device_list_enqueue_and_scan_yields_expected_edu() {
    let content = json(
        "{\"user_id\":\"@alice:us.example\",\"device_id\":\"DEV1\",\"stream_id\":7,\"deleted\":false}",
    );
    let stream = DeviceListStream::new();
    assert_eq!(stream.name(), "device_list");
    let (edus, cursor) = stream.scan_since(&vec![content], 1);
    assert_eq!(edus.len(), 1);
    assert!(cursor > 0);
    assert_eq!(edus[0].str_at("edu_type"), Some("m.device_list_update"));
    assert_eq!(edus[0].str_within("content", "user_id"), Some("@alice:us.example"));
    assert_eq!(edus[0].str_within("content", "device_id"), Some("DEV1"));
    assert_eq!(edus[0].get("content").and_then(|c| c.u64_at("stream_id")), Some(7));
}

#[test]
fn signing_key_enqueue_and_scan_yields_expected_edu() {
    let content = json(
        "{\"user_id\":\"@alice:us.example\",\"master_key\":{\"keys\":{\"ed25519:abc\":\"AAA\"}},\
         \"self_signing_key\":{\"keys\":{\"ed25519:def\":\"BBB\"}}}",
    );
    let stream = SigningKeyUpdateStream::new();
    let (edus, cursor) = stream.scan_since(&vec![content], 1);
    assert_eq!(edus.len(), 1);
    assert!(cursor > 0);
    assert_eq!(edus[0].str_at("edu_type"), Some("m.signing_key_update"));
    assert_eq!(edus[0].str_within("content", "user_id"), Some("@alice:us.example"));
    let keys = edus[0].get("content").and_then(|c| c.get("master_key")).unwrap();
    assert_eq!(keys.str_within("keys", "ed25519:abc"), Some("AAA"));
}

const ROOM: u64 = 1;
const ALICE: u64 = 2;

fn receipt_entry(position: u64, event_id: &str, ts: u64, thread: Option<&str>) -> StreamEntry {
    let mut m = vec![
        ("room".to_string(), Json::number(ROOM)),
        ("type".to_string(), Json::text("m.read")),
        ("user".to_string(), Json::number(ALICE)),
        ("event_id".to_string(), Json::text(event_id)),
        ("ts".to_string(), Json::number(ts)),
    ];
    if let Some(t) = thread {
        m.push(("thread_id".to_string(), Json::text(t)));
    }
    StreamEntry { position, entry: Json::object(m) }
}

fn scan(destination: &str, cursor: u64, stored: Vec<StreamEntry>) -> (Vec<Json>, u64) {
    let stream = ReceiptStream::new("us.example".to_string());
    let entries: Vec<StreamEntry> = stored.into_iter().filter(|e| e.position > cursor).collect();
    let end = entries.last().map(|e| e.position).unwrap_or(cursor);
    stream.scan_since(
        destination,
        cursor,
        &entries,
        end,
        |room: u64| if room == ROOM { Some(names(&["peer.example"])) } else { None },
        |nid: u64| match nid {
            ROOM => Some("!room:us.example".to_string()),
            ALICE => Some("@alice:us.example".to_string()),
            _ => None,
        },
    )
}

fn alice_in(edu: &Json) -> &Json {
    edu.get("content")
        .and_then(|c| c.get("!room:us.example"))
        .and_then(|r| r.get("m.read"))
        .and_then(|t| t.get("@alice:us.example"))
        .unwrap()
}

#[test]
fn scan_returns_aggregated_edu_for_destination_in_room() {
    let (edus, cursor) = scan(
        "peer.example",
        0,
        vec![receipt_entry(1, "$msg1", 100, None), receipt_entry(2, "$msg2", 200, None)],
    );
    assert_eq!(edus.len(), 1, "single aggregated EDU");
    assert!(cursor > 0, "cursor advances past scanned entries");
    assert_eq!(edus[0].str_at("edu_type"), Some("m.receipt"));
    assert_json(alice_in(&edus[0]), "{\"event_ids\":[\"$msg2\"],\"data\":{\"ts\":200}}");
}

#[test]
fn scan_filters_destinations_not_in_room() {
    let (edus, cursor) = scan("other.example", 0, vec![receipt_entry(1, "$msg", 100, None)]);
    assert!(edus.is_empty(), "no EDU when destination is not in room");
    assert!(cursor > 0, "cursor advances past skipped entries");
}

#[test]
fn scan_strictly_after_cursor() {
    let pos1 = 1;
    let (edus, cursor) = scan(
        "peer.example",
        pos1,
        vec![receipt_entry(pos1, "$msg1", 100, None), receipt_entry(2, "$msg2", 200, None)],
    );
    assert_eq!(edus.len(), 1);
    let ids = alice_in(&edus[0]).array_at("event_ids").unwrap();
    assert_eq!(ids[0].as_str(), Some("$msg2"));
    assert!(cursor > pos1);
}

#[test]
fn unthreaded_receipts_prevail() {
    let (edus, _) = scan(
        "peer.example",
        0,
        vec![receipt_entry(1, "$main", 100, None), receipt_entry(2, "$t", 200, Some("$root"))],
    );
    assert_json(alice_in(&edus[0]), "{\"event_ids\":[\"$main\"],\"data\":{\"ts\":100}}");
    let (edus, _) = scan(
        "peer.example",
        0,
        vec![receipt_entry(1, "$t", 100, Some("$root")), receipt_entry(2, "$main", 200, None)],
    );
    assert_json(alice_in(&edus[0]), "{\"event_ids\":[\"$main\"],\"data\":{\"ts\":200}}");
}

#[test]
fn nothing_to_scan() {
    let (edus, cursor) = scan("peer.example", 9, vec![]);
    assert!(edus.is_empty());
    assert_eq!(cursor, 9);
}

#[test]
fn inbound_receipts_are_filtered() {
    let content = json(
        "{\"!known\":{\"m.read\":{\"@a:peer\":{\"event_ids\":[\"$1\",7,\"$2\"],\"data\":{\"ts\":5,\"thread_id\":\"main\"}},\
         \"@b:other\":{\"event_ids\":[\"$3\"]}},\"m.read.private\":{\"@a:peer\":{\"event_ids\":[\"$4\"]}}},\
         \"!closed\":{\"m.read\":{\"@a:peer\":{\"event_ids\":[\"$5\"]}}},\
         \"!unknown\":{\"m.read\":{\"@a:peer\":{\"event_ids\":[\"$6\"]}}},\"!odd\":3}",
    );
    let (receipts, woken) = handle_receipt(&content, "peer", |room: &str| match room {
        "!known" => Some(None),
        "!odd" => Some(None),
        "!closed" => Some(Some(json("{\"allow\":[]}"))),
        _ => None,
    });
    assert_eq!(woken, names(&["!known"]));
    let got: Vec<(&str, &str, u64, Option<&str>)> = receipts
        .iter()
        .map(|r| (r.user_id.as_str(), r.event_id.as_str(), r.ts, r.thread_id.as_deref()))
        .collect();
    assert_eq!(
        got,
        vec![("@a:peer", "$1", 5, Some("main")), ("@a:peer", "$2", 5, Some("main"))]
    );
    assert_eq!(receipts[0].receipt_type, "m.read");
    assert_eq!(receipts[0].room_id, "!known");
}

fn typing_stream() -> TypingStream {
    TypingStream::new("us.example".to_string())
}

fn peer() -> Vec<String> {
    names(&["peer.example"])
}

#[test]
fn enqueue_emits_per_destination_in_room() {
    let mut stream = typing_stream();
    stream.enqueue("!r:us.example", "@alice:us.example", &peer(), None, true);
    let (edus, cursor) = stream.scan_since("peer.example", 0);
    assert_eq!(edus.len(), 1);
    assert!(cursor > 0);
    assert_json(
        &edus[0],
        "{\"edu_type\":\"m.typing\",\"content\":{\"room_id\":\"!r:us.example\",\"user_id\":\"@alice:us.example\",\"typing\":true}}",
    );
}

#[test]
fn drain_empties_buffer() {
    let mut stream = typing_stream();
    stream.enqueue("!r", "@alice:us.example", &peer(), None, true);
    let (first, _) = stream.scan_since("peer.example", 0);
    assert_eq!(first.len(), 1);
    let (second, _) = stream.scan_since("peer.example", 1);
    assert!(second.is_empty());
}

#[test]
fn clobber_collapses_repeated_state_for_same_user() {
    let mut stream = typing_stream();
    stream.enqueue("!r", "@alice:us.example", &peer(), None, true);
    stream.enqueue("!r", "@alice:us.example", &peer(), None, true);
    stream.enqueue("!r", "@alice:us.example", &peer(), None, false);
    let (edus, _) = stream.scan_since("peer.example", 0);
    assert_eq!(edus.len(), 1, "clobber to single entry per (room, user)");
    let typing = edus[0].get("content").and_then(|c| c.get("typing")).and_then(|t| t.as_bool());
    assert_eq!(typing, Some(false), "latest state wins");
}

#[test]
fn skips_destinations_not_in_room() {
    let mut stream = typing_stream();
    stream.enqueue("!r", "@alice:us.example", &peer(), None, true);
    let (edus, cursor) = stream.scan_since("other.example", 0);
    assert!(edus.is_empty());
    assert_eq!(cursor, 0, "empty batch leaves cursor unchanged");
}

#[test]
fn denied_typing_is_not_staged() {
    let mut stream = typing_stream();
    stream.enqueue("!r", "@alice:us.example", &peer(), Some(&json("{\"allow\":[]}")), true);
    assert!(stream.scan_since("peer.example", 0).0.is_empty());
}

#[test]
fn inbound_typing_is_of_the_origin() {
    let content = json("{\"room_id\":\"!r\",\"user_id\":\"@a:peer\",\"typing\":true}");
    let open = |_: &str| Some(None);
    let n = handle_typing(&content, "peer", open).unwrap();
    assert_eq!(n.room_id, "!r");
    assert_eq!(n.user_id, "@a:peer");
    assert!(n.typing);
    assert!(handle_typing(&content, "other", open).is_none());
    assert!(handle_typing(&json("{\"user_id\":\"@a:peer\"}"), "peer", open).is_none());
    assert!(handle_typing(&content, "peer", |_: &str| None).is_none());
    let closed = |_: &str| Some(Some(json("{\"allow\":[]}")));
    assert!(handle_typing(&content, "peer", closed).is_none());
}

#[test]
fn typers_come_and_go() {
    let mut typers: Vec<(u64, u64)> = vec![(1, 50), (2, 500)];
    assert!(update_typers(&mut typers, 3, true, 100));
    assert_eq!(typers[0], (2, 500));
    assert_eq!(typers[1].0, 3);
    assert!(update_typers(&mut typers, 2, false, 100));
    assert_eq!(typers.len(), 1);
    assert!(!update_typers(&mut typers, 2, false, 100));
}

#[test]
fn units_are_dispatched_by_type() {
    let edu = |t: &str| json(&format!("{{\"edu_type\":\"{t}\",\"content\":{{}}}}"));
    assert!(matches!(dispatch_edu(&edu("m.receipt")), Some((EduKind::Receipt, _))));
    assert!(matches!(dispatch_edu(&edu("m.presence")), Some((EduKind::Presence, _))));
    assert!(matches!(dispatch_edu(&edu("m.typing")), Some((EduKind::Typing, _))));
    assert!(matches!(
        dispatch_edu(&edu("m.direct_to_device")),
        Some((EduKind::DirectToDevice, _))
    ));
    assert!(matches!(
        dispatch_edu(&edu("m.device_list_update")),
        Some((EduKind::DeviceListUpdate, _))
    ));
    assert!(matches!(
        dispatch_edu(&edu("m.signing_key_update")),
        Some((EduKind::SigningKeyUpdate, _))
    ));
    assert!(dispatch_edu(&edu("m.other")).is_none());
    assert!(dispatch_edu(&json("{\"edu_type\":\"m.typing\"}")).is_none());
}

#[test]
fn messages_reach_local_devices_only() {
    let content = json(
        "{\"sender\":\"@a:peer\",\"type\":\"m.x\",\"message_id\":\"1\",\"messages\":\
         {\"@b:us\":{\"DEV\":{\"k\":1},\"*\":{\"k\":2}},\"@c:else\":{\"DEV\":{}},\"@d:us\":3}}",
    );
    let d = handle_direct_to_device(&content, "peer", "us").unwrap();
    assert_eq!(d.sender, "@a:peer");
    assert_eq!(d.event_type, "m.x");
    assert_eq!(d.message_id, "1");
    assert_eq!(d.deliveries.len(), 2);
    let devices = vec![json("{\"device_id\":\"A\"}"), json("{}"), json("{\"device_id\":\"B\"}")];
    for x in &d.deliveries {
        assert_eq!(x.user_id, "@b:us");
        if x.is_for_all() {
            assert_eq!(x.targets(Some(&devices)), names(&["A", "B"]));
            assert!(x.targets(None).is_empty());
            assert_eq!(x.content.u64_at("k"), Some(2));
        } else {
            assert_eq!(x.targets(None), names(&["DEV"]));
            assert_eq!(x.content.u64_at("k"), Some(1));
        }
    }
    assert!(d.to_deliver(&Ok(true)).is_empty());
    let d = handle_direct_to_device(&content, "peer", "us").unwrap();
    assert_eq!(d.to_deliver(&Ok(false)).len(), 2);
    let d = handle_direct_to_device(&content, "peer", "us").unwrap();
    assert_eq!(d.to_deliver(&Err("db".to_string())).len(), 2);
    assert!(handle_direct_to_device(&content, "other", "us").is_none());
    assert!(handle_direct_to_device(&json("{\"sender\":\"@a:peer\",\"type\":\"t\"}"), "peer", "us").is_none());
}

#[test]
fn presence_is_of_the_origin() {
    let content = json(
        "{\"push\":[{\"user_id\":\"@a:peer\",\"presence\":\"online\",\"last_active_ago\":30},\
         {\"user_id\":\"@b:other\",\"presence\":\"online\"},7]}",
    );
    let v = handle_presence(&content, "peer", 100);
    assert_eq!(v.len(), 1);
    assert_eq!(v[0].user_id, "@a:peer");
    assert_eq!(v[0].record.str_at("presence"), Some("online"));
    assert!(handle_presence(&json("{}"), "peer", 100).is_empty());
}

fn member(nid: u64, user: &str) -> Member {
    Member { nid, user_id: Some(user.to_string()) }
}

#[test]
fn device_lists_are_told_to_local_users() {
    let mut f = DeviceListFacts {
        content: json("{\"user_id\":\"@a:peer\",\"device_id\":\"D\",\"stream_id\":3}"),
        origin: "peer".to_string(),
        server_name: "us".to_string(),
        user: None,
        is_new: None,
        cache_dropped: false,
        rooms: None,
        noted: false,
        told: false,
    };
    assert!(matches!(handle_device_list_update(&f), DeviceListStep::LookupUser { user_id } if user_id == "@a:peer"));
    f.user = Some(Some(9));
    assert!(matches!(
        handle_device_list_update(&f),
        DeviceListStep::CheckNew { user: 9, device_id, stream_id: 3 } if device_id == "D"
    ));
    f.is_new = Some(Some(false));
    assert!(matches!(handle_device_list_update(&f), DeviceListStep::Done));
    f.is_new = Some(Some(true));
    assert!(matches!(handle_device_list_update(&f), DeviceListStep::DropCache { user: 9 }));
    f.cache_dropped = true;
    assert!(matches!(handle_device_list_update(&f), DeviceListStep::LoadRooms { user: 9 }));
    f.rooms = Some(Some(vec![vec![member(1, "@x:else")]]));
    assert!(matches!(handle_device_list_update(&f), DeviceListStep::Note { user: 9 }));
    f.rooms = Some(Some(vec![vec![member(1, "@x:us"), member(2, "@y:else")], vec![member(1, "@x:us")]]));
    match handle_device_list_update(&f) {
        DeviceListStep::Tell { user, observers } => {
            assert_eq!(user, 9);
            assert_eq!(observers, vec![1]);
        }
        _ => panic!("observers are told"),
    }
    f.told = true;
    assert!(matches!(handle_device_list_update(&f), DeviceListStep::Done));
    f.origin = "evil".to_string();
    f.told = false;
    assert!(matches!(handle_device_list_update(&f), DeviceListStep::Done));
}

#[test]
fn signing_keys_are_stored_and_told() {
    let mut f = SigningKeyFacts {
        content: json("{\"user_id\":\"@a:peer\",\"master_key\":{\"k\":1},\"self_signing_key\":null}"),
        origin: "peer".to_string(),
        server_name: "us".to_string(),
        user: Some(Some(9)),
        stored: false,
        rooms: None,
        told: false,
    };
    match handle_signing_key_update(&f) {
        SigningKeyStep::Store { user: 9, master_key: Some(k), self_signing_key: None } => {
            assert_json(&k, "{\"k\":1}")
        }
        _ => panic!("the master key is stored"),
    }
    f.stored = true;
    assert!(matches!(handle_signing_key_update(&f), SigningKeyStep::LoadRooms { user: 9 }));
    f.rooms = Some(Some(vec![vec![member(4, "@x:us")]]));
    assert!(matches!(
        handle_signing_key_update(&f),
        SigningKeyStep::Tell { user: 9, observers } if observers == vec![4]
    ));
}
