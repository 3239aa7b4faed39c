use serde_json::Value;
use vela_federation::json::Json;
use vela_federation::json::JsonNumber;
use vela_federation::sender::load_event_json_for_send;
use vela_federation::sender::plan_cycle;
use vela_federation::sender::send_edu_txn;
use vela_federation::sender::send_outcome;
use vela_federation::sender::send_room_txn;
use vela_federation::sender::DestinationState;
use vela_federation::sender::DestinationStep;
use vela_federation::sender::EduDrain;
use vela_federation::sender::FederationSender;
use vela_federation::sender::QueueEntry;
use vela_federation::sender::RoomTxnStep;
use vela_federation::sender::SendOutcome;

fn from_value(v: &Value) -> Json {
    match v {
        Value::Null => Json::Null,
        Value::Bool(b) => Json::Bool(*b),
        Value::Number(n) => match (n.as_u64(), n.as_i64()) {
            (Some(u), _) => Json::Number(JsonNumber::Unsigned(u)),
            (None, Some(i)) => Json::Number(JsonNumber::Negative(i)),
            (None, None) => Json::Number(JsonNumber::Float(n.to_string())),
        },
        Value::String(s) => Json::text(s),
        Value::Array(a) => Json::array(a.iter().map(from_value).collect()),
        Value::Object(m) => {
            Json::object(m.iter().map(|(k, v)| (k.clone(), from_value(v))).collect())
        }
    }
}

fn json(s: &str) -> Json {
    from_value(&serde_json::from_str::<Value>(s).unwrap())
}

fn sorted(j: &Json) -> Json {
    match j {
        Json::Array(a) => Json::array(a.iter().map(sorted).collect()),
        Json::Object(m) => {
            let mut v: Vec<(String, Json)> = m.iter().map(|(k, v)| (k.clone(), sorted(v))).collect();
            v.sort_by(|a, b| a.0.cmp(&b.0));
            Json::object(v)
        }
        other => other.copy(),
    }
}

fn assert_json(got: &Json, want: &str) {
    assert_eq!(format!("{:?}", sorted(got)), format!("{:?}", sorted(&json(want))));
}

fn names(v: &[&str]) -> Vec<String> {
    v.iter().map(|s| s.to_string()).collect()
}

#[test]
fn failures_double_the_delay() {
    let mut d = DestinationState::new();
    let mut delays = Vec::new();
    for _ in 0..10 {
        match d.run_destination(&vec![SendOutcome::Failure, SendOutcome::Empty], 1) {
            DestinationStep::Retry(ms) => delays.push(ms),
            other => panic!("{other:?}"),
        }
    }
    assert_eq!(
        delays,
        vec![2000, 4000, 8000, 16000, 32000, 64000, 128000, 256000, 300000, 300000]
    );
    let step = d.run_destination(&vec![SendOutcome::Failure, SendOutcome::Success], 77);
    assert_eq!(step, DestinationStep::Continue);
    assert_eq!(d.backoff_ms, 2000);
    assert_eq!(d.failing_since_ms, None);
}

#[test]
fn dead_destinations_are_given_up() {
    let day = 86_400_000;
    let mut d = DestinationState::new();
    assert_eq!(d.run_destination(&vec![SendOutcome::Failure], 5), DestinationStep::Retry(2000));
    assert_eq!(d.run_destination(&vec![SendOutcome::Failure], 5 + day), DestinationStep::Retry(4000));
    assert_eq!(d.run_destination(&vec![SendOutcome::Failure], 6 + day), DestinationStep::Dead);
    assert_eq!(d.run_destination(&vec![SendOutcome::Empty], 6 + day), DestinationStep::Continue);
}

#[test]
fn a_quiet_day_is_no_failure() {
    let day = 86_400_000;
    let mut d = DestinationState::new();
    assert_eq!(d.run_destination(&vec![SendOutcome::Success], 5), DestinationStep::Continue);
    assert_eq!(d.run_destination(&vec![SendOutcome::Failure], 5 + 3 * day), DestinationStep::Retry(2000));
    assert_eq!(d.run_destination(&vec![SendOutcome::Failure], 7 + 3 * day), DestinationStep::Retry(4000));
    assert_eq!(d.failing_since_ms, Some(5 + 3 * day));
}

#[test]
fn cycles_are_planned() {
    assert_eq!(plan_cycle(None, 3), DestinationStep::Retry(2000));
    assert_eq!(plan_cycle(Some(0), 0), DestinationStep::Idle(60_000));
    assert_eq!(plan_cycle(Some(1), 0), DestinationStep::Send);
    assert_eq!(plan_cycle(Some(0), 1), DestinationStep::Send);
    assert_eq!(send_outcome(true), SendOutcome::Success);
    assert_eq!(send_outcome(false), SendOutcome::Failure);
}

#[test]
fn events_are_sent_without_their_id() {
    let e = json("{\"event_id\":\"$x\",\"type\":\"t\",\"content\":{\"event_id\":\"$kept\"}}");
    assert_json(&load_event_json_for_send(&e), "{\"type\":\"t\",\"content\":{\"event_id\":\"$kept\"}}");
    assert_json(&load_event_json_for_send(&json("[1]")), "[1]");
}

fn entry(position: u64, event: Option<&str>) -> QueueEntry {
    QueueEntry { position, event: event.map(json) }
}

#[test]
fn room_transactions_carry_stored_events() {
    assert!(matches!(send_room_txn(None, "us", 9), RoomTxnStep::Failed));
    assert!(matches!(send_room_txn(Some(&vec![]), "us", 9), RoomTxnStep::Empty));
    match send_room_txn(Some(&vec![entry(3, None), entry(4, None)]), "us", 9) {
        RoomTxnStep::Discard { positions } => assert_eq!(positions, vec![3, 4]),
        _ => panic!("dangling entries are dropped"),
    }
    let batch = vec![entry(3, None), entry(4, Some("{\"event_id\":\"$a\",\"x\":1}"))];
    match send_room_txn(Some(&batch), "us", 9) {
        RoomTxnStep::Send { txn_id, body, positions } => {
            assert_eq!(txn_id.len(), 32);
            assert!(txn_id.chars().all(|c| c.is_ascii_digit() || ('a'..='f').contains(&c)));
            assert_json(&body, "{\"origin\":\"us\",\"origin_server_ts\":9,\"pdus\":[{\"x\":1}],\"edus\":[]}");
            assert_eq!(positions, vec![3, 4]);
        }
        _ => panic!("a transaction is due"),
    }
}

#[test]
fn unit_transactions_have_fresh_ids() {
    assert!(send_edu_txn(vec![], "us", 9).is_none());
    let (a, body) = send_edu_txn(vec![json("{\"e\":1}")], "us", 9).unwrap();
    let (b, _) = send_edu_txn(vec![json("{\"e\":1}")], "us", 9).unwrap();
    assert_ne!(a, b);
    assert_json(&body, "{\"origin\":\"us\",\"origin_server_ts\":9,\"pdus\":[],\"edus\":[{\"e\":1}]}");
}

#[test]
fn streams_are_drained_up_to_the_limit() {
    let mut d = EduDrain::new();
    d.drain_edu_streams("a", Some((vec![], 5)));
    d.drain_edu_streams("b", None);
    assert!(d.wants_more());
    d.drain_edu_streams("c", Some(((0..60).map(Json::number).collect(), 7)));
    assert!(d.wants_more());
    d.drain_edu_streams("d", Some(((0..60).map(Json::number).collect(), 8)));
    assert!(!d.wants_more());
    let (edus, advances) = d.finish();
    assert_eq!(edus.len(), 100);
    assert_eq!(edus[99].as_u64(), Some(39));
    assert_eq!(advances, vec![("c".to_string(), 7), ("d".to_string(), 8)]);
}

#[test]
fn broadcasts_reach_the_servers_concerned() {
    let s = FederationSender::new("us".to_string());
    let kick = json("{\"state_key\":\"@bob:them:8448\"}");
    assert_eq!(s.target_server_for_member_event(true, Some(&kick)).as_deref(), Some("them:8448"));
    assert_eq!(s.target_server_for_member_event(false, Some(&kick)), None);
    assert_eq!(s.target_server_for_member_event(true, Some(&json("{\"state_key\":\"@a:us\"}"))), None);
    assert_eq!(s.target_server_for_member_event(true, None), None);
    let remote = names(&["a", "b"]);
    assert_eq!(s.broadcast(Some(&remote), Some("c".to_string())), names(&["a", "b", "c"]));
    assert_eq!(s.broadcast(Some(&remote), Some("a".to_string())), remote);
    assert!(s.broadcast(None, Some("c".to_string())).is_empty());
    assert_eq!(s.notify_room(Some(&remote)), remote);
    assert_eq!(
        s.broadcast_excluding(Some(&remote), Some("c".to_string()), Some("a")),
        names(&["b", "c"])
    );
    assert_eq!(s.broadcast_excluding(Some(&remote), None, Some("x")), remote);
    assert!(s.notify_destination(true));
    assert!(!s.notify_destination(false), "no task is started for this");
    let rooms = vec![Some(names(&["a", "b"])), None, Some(names(&["b", "c"]))];
    assert_eq!(s.notify_user_subscribers(&rooms), names(&["a", "b", "c"]));
    let (off, started) = FederationSender::new_with_enabled("us".to_string(), false, Some(names(&["a"])));
    assert!(started.is_empty());
    assert!(off.broadcast(Some(&remote), None).is_empty());
    assert!(off.notify_user_subscribers(&rooms).is_empty());
    assert!(!off.notify_destination(true));
    let (_, started) = FederationSender::new_with_enabled("us".to_string(), true, Some(names(&["a"])));
    assert_eq!(started, names(&["a"]));
}
