use serde_json::Value;
use vela_federation::edu::dispatch_edu;
use vela_federation::edu::DeviceListStream;
use vela_federation::edu::EduKind;
use vela_federation::fetch::get_state;
use vela_federation::fetch::get_state_ids;
use vela_federation::fetch::MemberRecord;
use vela_federation::fetch::RoomFacts;
use vela_federation::fetch::StateResult;
use vela_federation::filler::fetch_state_via_state_ids;
use vela_federation::filler::merge_state_response;
use vela_federation::filler::MergeFacts;
use vela_federation::filler::MergeStep;
use vela_federation::filler::StateIdsFacts;
use vela_federation::filler::StateIdsStep;
use vela_federation::join::make_join;
use vela_federation::join::send_join_v2;
use vela_federation::join::MakeJoinFacts;
use vela_federation::join::MakeJoinStep;
use vela_federation::join::SendJoinFacts;
use vela_federation::join::SendJoinStep;
use vela_federation::intake::PersistKind;
use vela_federation::json::Json;
use vela_federation::json::JsonNumber;
use vela_federation::persist::known_references;
use vela_federation::receipts::handle_receipt;
use vela_federation::receipts::ReceiptStream;
use vela_federation::receipts::StreamEntry;
use vela_federation::sender::send_edu_txn;
use vela_federation::sender::send_room_txn;
use vela_federation::sender::QueueEntry;
use vela_federation::sender::RoomTxnStep;
use vela_federation::transaction::receive_transaction;
use vela_federation::typing::handle_typing;
use vela_federation::typing::TypingStream;

fn from_value(v: &Value) -> Json {
    match v {
        Value::Null => Json::Null,
        Value::Bool(b) => Json::Bool(*b),
        Value::Number(n) => match (n.as_u64(), n.as_i64()) {
            (Some(u), _) => Json::Number(JsonNumber::Unsigned(u)),
            (None, Some(i)) => Json::Number(JsonNumber::Negative(i)),
            (None, None) => Json::Number(JsonNumber::Float(n.to_string())),
        },
        Value::String(s) => Json::text(s),
        Value::Array(a) => Json::array(a.iter().map(from_value).collect()),
        Value::Object(m) => {
            Json::object(m.iter().map(|(k, v)| (k.clone(), from_value(v))).collect())
        }
    }
}

fn json(s: &str) -> Json {
    from_value(&serde_json::from_str::<Value>(s).unwrap())
}

fn sorted(j: &Json) -> Json {
    match j {
        Json::Array(a) => Json::array(a.iter().map(sorted).collect()),
        Json::Object(m) => {
            let mut v: Vec<(String, Json)> = m.iter().map(|(k, v)| (k.clone(), sorted(v))).collect();
            v.sort_by(|a, b| a.0.cmp(&b.0));
            Json::object(v)
        }
        other => other.copy(),
    }
}

fn assert_json(got: &Json, want: &str) {
    assert_eq!(format!("{:?}", sorted(got)), format!("{:?}", sorted(&json(want))));
}

fn names(v: &[&str]) -> Vec<String> {
    v.iter().map(|s| s.to_string()).collect()
}

#[test]
fn sent_transactions_are_taken_apart() {
    let batch: Vec<QueueEntry> = (0..50)
        .map(|i| QueueEntry {
            position: i,
            event: Some(json(&format!("{{\"room_id\":\"!r\",\"event_id\":\"$x\",\"n\":{i}}}"))),
        })
        .collect();
    let body = match send_room_txn(Some(&batch), "a", 1) {
        RoomTxnStep::Send { body, .. } => body,
        _ => panic!("a transaction is due"),
    };
    let plan = receive_transaction(Some(&body)).unwrap_or_else(|_| panic!("there is a body"));
    assert_eq!(plan.batches.len(), 1);
    assert_eq!(plan.batches[0].places, (0..50).collect::<Vec<usize>>());
    assert!(body.array_at("pdus").unwrap().iter().all(|e| e.get("event_id").is_none()));
    let (_, body) = send_edu_txn((0..100).map(Json::number).collect(), "a", 1).unwrap();
    let plan = receive_transaction(Some(&body)).unwrap_or_else(|_| panic!("there is a body"));
    assert_eq!(plan.edus.len(), 100);
    assert_eq!(plan.edus[99].as_u64(), Some(99));
}

#[test]
fn typing_notices_arrive() {
    let mut stream = TypingStream::new("a".to_string());
    stream.enqueue("!r", "@u:a", &names(&["b"]), None, true);
    let (edus, _) = stream.scan_since("b", 0);
    let (kind, content) = dispatch_edu(&edus[0]).unwrap();
    assert_eq!(kind, EduKind::Typing);
    let notice = handle_typing(content, "a", |_: &str| Some(None)).unwrap();
    assert_eq!(notice.room_id, "!r");
    assert_eq!(notice.user_id, "@u:a");
    assert!(notice.typing);
}

#[test]
fn receipts_arrive() {
    let entry = |position: u64, event: &str, thread: Option<&str>| StreamEntry {
        position,
        entry: match thread {
            Some(t) => json(&format!(
                "{{\"room\":1,\"type\":\"m.read\",\"user\":2,\"event_id\":\"{event}\",\"ts\":9,\"thread_id\":\"{t}\"}}"
            )),
            None => json(&format!(
                "{{\"room\":1,\"type\":\"m.read\",\"user\":2,\"event_id\":\"{event}\",\"ts\":9}}"
            )),
        },
    };
    let entries = vec![entry(4, "$1", Some("$t1")), entry(6, "$2", Some("$t2"))];
    let stream = ReceiptStream::new("a".to_string());
    let (edus, cursor) = stream.scan_since(
        "b",
        3,
        &entries,
        3,
        |_: u64| Some(names(&["b"])),
        |n: u64| Some(if n == 1 { "!r".to_string() } else { "@u:a".to_string() }),
    );
    assert_eq!(cursor, 6);
    let (kind, content) = dispatch_edu(&edus[0]).unwrap();
    assert_eq!(kind, EduKind::Receipt);
    let (receipts, woken) = handle_receipt(content, "a", |_: &str| Some(None));
    assert_eq!(woken, names(&["!r"]));
    assert_eq!(receipts.len(), 1);
    assert_eq!(receipts[0].event_id, "$2");
    assert_eq!(receipts[0].user_id, "@u:a");
    assert_eq!(receipts[0].ts, 9);
    assert_eq!(receipts[0].thread_id.as_deref(), Some("$t2"));
}

#[test]
fn full_receipt_units_leave_the_rest() {
    let entries: Vec<StreamEntry> = (0..120)
        .map(|i| StreamEntry {
            position: 10 + 2 * i,
            entry: json(&format!(
                "{{\"room\":1,\"type\":\"m.read\",\"user\":{i},\"event_id\":\"$e\",\"ts\":9}}"
            )),
        })
        .collect();
    let stream = ReceiptStream::new("a".to_string());
    let (edus, cursor) = stream.scan_since(
        "b",
        0,
        &entries,
        0,
        |_: u64| Some(names(&["b"])),
        |n: u64| Some(format!("@{n}:a")),
    );
    assert_eq!(edus.len(), 1);
    assert_eq!(cursor, 10 + 2 * 100 - 1);
}

#[test]
fn wrapped_units_arrive() {
    let (edus, _) = DeviceListStream::new().scan_since(&vec![json("{\"user_id\":\"@u:a\"}")], 5);
    let (kind, content) = dispatch_edu(&edus[0]).unwrap();
    assert_eq!(kind, EduKind::DeviceListUpdate);
    assert_json(content, "{\"user_id\":\"@u:a\"}");
}

#[test]
fn state_arrives_by_ids_and_whole() {
    let room = Some(RoomFacts {
        members: vec![MemberRecord { user_id: Some("@u:b".to_string()), membership: 1 }],
        partial_state: false,
    });
    let ids = get_state_ids(&room, "b", &StateResult::Found((names(&["$s"]), names(&["$x"])))).unwrap();
    let mut f = StateIdsFacts { ids: Some(Ok(ids)), auth: vec![], state: vec![] };
    assert!(matches!(fetch_state_via_state_ids(&f), StateIdsStep::FetchAuth(id) if id == "$x"));
    f.auth.push(Ok(json("{\"x\":1}")));
    assert!(matches!(fetch_state_via_state_ids(&f), StateIdsStep::FetchState(id) if id == "$s"));
    let whole =
        get_state(&room, "b", StateResult::Found((vec![json("{\"s\":1}")], vec![json("{\"x\":1}")]))).unwrap();
    let mut m = MergeFacts { response: whole, auth_tried: 0, persisted: vec![], join: None };
    assert!(matches!(merge_state_response(&m), MergeStep::PersistAuth { place: 0, kind: PersistKind::Outlier }));
    m.auth_tried = 1;
    assert!(matches!(merge_state_response(&m), MergeStep::PersistState { place: 0, kind: PersistKind::StateBundleOnly }));
}

#[test]
fn templates_can_be_submitted() {
    let f = MakeJoinFacts {
        room_id: "!r".to_string(),
        user_id: "@u:b".to_string(),
        origin: "b".to_string(),
        versions: names(&["12"]),
        room: Some(Some(1)),
        acl: Some(None),
        join_rules: Some(Some(json("{\"join_rule\":\"public\"}"))),
        membership: Some(Ok(None)),
        qualifies: None,
        authoriser: None,
        auth_events: Some(vec![]),
        extremities: Some(Ok(vec![])),
        now: 5,
    };
    let template = match make_join(&f) {
        MakeJoinStep::Reply { template, sign: false } => template,
        _ => panic!("a template is due"),
    };
    let submitted = SendJoinFacts {
        event_id: "$j".to_string(),
        origin: "b".to_string(),
        body: Some(template),
        sender_keys: None,
        sender_checks: vec![],
        voucher_keys: None,
        voucher_checks: vec![],
        room: None,
        acl: None,
        join_rules: None,
        membership: None,
        computed_id: None,
        content_hash: None,
        effective: None,
        current_membership: None,
        auth_found: vec![],
        auth_refusal: None,
        reply: None,
        stored: None,
        server_name: "us".to_string(),
        members: None,
        told: false,
    };
    assert!(matches!(send_join_v2(&submitted), SendJoinStep::FetchKeys { server } if server == "b"));
}

#[test]
fn unknown_references_are_left_out() {
    assert_eq!(known_references(&vec![Some(3), None, Some(1)]), vec![3, 1]);
}
