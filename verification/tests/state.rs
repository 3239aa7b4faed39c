use serde_json::Value;
use vela_federation::json::Json;
use vela_federation::json::JsonNumber;
use vela_federation::auth_chain::auth_chain_event_ids;
use vela_federation::auth_chain::auth_chain_including_seeds;
use vela_federation::auth_chain::auth_chain_pdu_json;
use vela_federation::auth_chain::auth_chain_union_event_ids;
use vela_federation::auth_chain::auth_chain_union_pdu_json;
use vela_federation::pdu::Pdu;
use vela_federation::intake::FetchKind;
use vela_federation::room_state::auth_events_declare_prior_membership_allowing_leave;
use vela_federation::room_state::auth_view;
use vela_federation::room_state::build_current_state;
use vela_federation::room_state::complete_state;
use vela_federation::room_state::compute_state_at_event;
use vela_federation::room_state::ensure_create_in_state;
use vela_federation::room_state::ensure_sender_member_in_state;
use vela_federation::room_state::named_step;
use vela_federation::room_state::prev_answer;
use vela_federation::room_state::prev_step;
use vela_federation::room_state::promote_sender_member_during_partial_state;
use vela_federation::room_state::snapshot_state;
use vela_federation::room_state::state_before_event;
use vela_federation::room_state::state_before_event_ids;
use vela_federation::room_state::AuthEvent;
use vela_federation::room_state::EventLookup;
use vela_federation::room_state::NamedFacts;
use vela_federation::room_state::NamedStep;
use vela_federation::room_state::PrevAnswer;
use vela_federation::room_state::PrevFacts;
use vela_federation::room_state::PrevStep;
use vela_federation::room_state::SnapshotLookup;
use vela_federation::room_state::SnapshotRow;
use vela_federation::room_state::StateBeforeStep;
use vela_federation::room_state::StateEntry;
use vela_federation::room_state::Strictness;

fn from_value(v: &Value) -> Json {
    match v {
        Value::Null => Json::Null,
        Value::Bool(b) => Json::Bool(*b),
        Value::Number(n) => match (n.as_u64(), n.as_i64()) {
            (Some(u), _) => Json::Number(JsonNumber::Unsigned(u)),
            (None, Some(i)) => Json::Number(JsonNumber::Negative(i)),
            (None, None) => Json::Number(JsonNumber::Float(n.to_string())),
        },
        Value::String(s) => Json::text(s),
        Value::Array(a) => Json::array(a.iter().map(from_value).collect()),
        Value::Object(m) => {
            Json::object(m.iter().map(|(k, v)| (k.clone(), from_value(v))).collect())
        }
    }
}

fn json(s: &str) -> Json {
    from_value(&serde_json::from_str::<Value>(s).unwrap())
}

fn sorted(j: &Json) -> Json {
    match j {
        Json::Array(a) => Json::array(a.iter().map(sorted).collect()),
        Json::Object(m) => {
            let mut v: Vec<(String, Json)> = m.iter().map(|(k, v)| (k.clone(), sorted(v))).collect();
            v.sort_by(|a, b| a.0.cmp(&b.0));
            Json::object(v)
        }
        other => other.copy(),
    }
}

fn assert_json(got: &Json, want: &str) {
    assert_eq!(format!("{:?}", sorted(got)), format!("{:?}", sorted(&json(want))));
}

fn names(v: &[&str]) -> Vec<String> {
    v.iter().map(|s| s.to_string()).collect()
}

fn graph(id: &str) -> Result<Option<Vec<String>>, String> {
    match id {
        "$d" => Ok(Some(names(&["$b", "$c"]))),
        "$c" => Ok(Some(names(&["$a"]))),
        "$b" => Ok(Some(names(&["$a"]))),
        "$a" => Ok(Some(vec![])),
        "$broken" => Err("io".to_string()),
        _ => Ok(None),
    }
}

#[test]
fn auth_chains_are_walked() {
    assert_eq!(auth_chain_union_event_ids(&names(&["$d"]), graph).unwrap(), names(&["$b", "$c", "$a"]));
    assert_eq!(
        auth_chain_including_seeds(&names(&["$c", "$b"]), graph).unwrap(),
        names(&["$c", "$b", "$a"])
    );
    assert!(auth_chain_union_event_ids(&names(&["$unknown"]), graph).unwrap().is_empty());
    assert_eq!(auth_chain_union_event_ids(&names(&["$broken"]), graph).unwrap_err(), "db: io");
}

#[test]
fn auth_chains_are_read() {
    let load = |id: &str| if id == "$c" { None } else { Some(Json::text(id)) };
    let texts = |v: Vec<Json>| -> Vec<String> { v.iter().map(|j| j.as_str().unwrap().to_string()).collect() };
    assert_eq!(
        texts(auth_chain_union_pdu_json(&names(&["$d"]), graph, load).unwrap()),
        names(&["$b", "$a"])
    );
    assert_eq!(texts(auth_chain_pdu_json(Ok(names(&["$c", "$x"])), load).unwrap()), names(&["$x"]));
    assert_eq!(auth_chain_pdu_json(Err("e".to_string()), load).unwrap_err(), "e");
    let chain = Ok(vec![Ok(Some("$1".to_string())), Ok(None), Ok(Some("$2".to_string()))]);
    assert_eq!(auth_chain_event_ids("$e", &Ok(true), &chain).unwrap(), names(&["$1", "$2"]));
    assert_eq!(auth_chain_event_ids("$e", &Ok(false), &chain).unwrap_err(), "unknown event $e");
    assert_eq!(
        auth_chain_event_ids("$e", &Ok(true), &Ok(vec![Err("io".to_string())])).unwrap_err(),
        "db: io"
    );
}

fn row(event_type: &str, state_key: &str, event_id: &str) -> SnapshotRow {
    SnapshotRow::Entry {
        event_type: event_type.to_string(),
        state_key: Some(state_key.to_string()),
        event_id: event_id.to_string(),
    }
}

#[test]
fn snapshots_spell_state() {
    let rows = vec![row("t", "", "$1"), row("t", "", "$2"), row("u", "k", "$3")];
    let t = snapshot_state(&rows, Strictness::Corruption).unwrap_or_else(|e| panic!("{e}"));
    assert_eq!(t.get("t", "").map(String::as_str), Some("$2"));
    assert_eq!(t.get("u", "k").map(String::as_str), Some("$3"));
    let gone = || vec![SnapshotRow::Gone { nid: 7 }];
    assert!(snapshot_state(&gone(), Strictness::Lenient).is_ok());
    match snapshot_state(&gone(), Strictness::Missing) {
        Err(e) => assert_eq!(e, "state snapshot references missing event_nid 7"),
        Ok(_) => panic!("a row is gone"),
    }
}

fn pdu(event_id: &str, prev: &[&str]) -> Pdu {
    Pdu {
        event_id: event_id.to_string(),
        event_type: "m.room.message".to_string(),
        sender: "@a:x".to_string(),
        room_id: "!r".to_string(),
        state_key: None,
        content: json("{}"),
        prev_events: names(prev),
        auth_events: vec![],
        depth: 1,
        origin_server_ts: 1,
    }
}

#[test]
fn state_before_an_event_is_gathered() {
    let e = pdu("$e", &["$p", "$q"]);
    assert!(matches!(compute_state_at_event(&pdu("$e", &[]), &vec![], None), StateBeforeStep::NoState));
    match compute_state_at_event(&e, &vec![], None) {
        StateBeforeStep::LookupPrev { event_id } => assert_eq!(event_id, "$p"),
        _ => panic!("the predecessors are looked up"),
    }
    let prevs = vec![PrevAnswer::Stored(vec![row("t", "", "$1")]), PrevAnswer::Rejected];
    match compute_state_at_event(&e, &prevs, None) {
        StateBeforeStep::Resolve { sets } => assert_eq!(sets.len(), 1),
        _ => panic!("the state can be resolved"),
    }
    match state_before_event("$e", &EventLookup::Unknown, &vec![]) {
        Err(e) => assert_eq!(e, "unknown event $e"),
        Ok(_) => panic!("the event is unknown"),
    }
    assert!(matches!(state_before_event("$e", &EventLookup::Stored, &vec![]), Ok(None)));
    let snaps = vec![SnapshotLookup::Rows(vec![row("t", "", "$1")])];
    match state_before_event("$e", &EventLookup::Stored, &snaps) {
        Ok(Some(sets)) => assert_eq!(sets.len(), 1),
        _ => panic!("there is state"),
    }
}

#[test]
fn state_is_completed() {
    let entry = |t: &str, p: Option<Pdu>| StateEntry {
        event_type: t.to_string(),
        state_key: Some("".to_string()),
        pdu: p,
    };
    let mut state = build_current_state(&vec![entry("m.room.name", Some(pdu("$n", &[]))), entry("m.x", None)]);
    assert_eq!(state_before_event_ids(&state), names(&["$n"]));
    ensure_create_in_state(&mut state, Some(&pdu("$invite-stripped:1", &[])));
    assert!(state.get("m.room.create", "").is_none());
    ensure_create_in_state(&mut state, Some(&pdu("$create", &[])));
    assert_eq!(state.get("m.room.create", "").unwrap().event_id, "$create");
    ensure_create_in_state(&mut state, Some(&pdu("$other", &[])));
    assert_eq!(state.get("m.room.create", "").unwrap().event_id, "$create");
    let auth = vec![AuthEvent {
        json: Some(json("{\"type\":\"m.room.member\",\"state_key\":\"@a:x\",\"content\":{\"membership\":\"join\"}}")),
        pdu: Some(pdu("$member", &[])),
        nid: Some(42),
    }];
    ensure_sender_member_in_state(&mut state, "@a:x", &auth);
    assert_eq!(state.get("m.room.member", "@a:x").unwrap().event_id, "$member");
    assert!(auth_events_declare_prior_membership_allowing_leave("@a:x", &auth));
    assert!(!auth_events_declare_prior_membership_allowing_leave("@b:x", &auth));
    assert_eq!(promote_sender_member_during_partial_state(&pdu("$e", &[]), true, false, &auth), Some(42));
    assert_eq!(promote_sender_member_during_partial_state(&pdu("$e", &[]), false, false, &auth), None);
    assert_eq!(promote_sender_member_during_partial_state(&pdu("$e", &[]), true, true, &auth), None);
}

#[test]
fn events_are_checked_over_completed_views() {
    let mut member = pdu("$m1", &[]);
    member.event_type = "m.room.member".to_string();
    member.state_key = Some("@a:x".to_string());
    let mut later = member.copy();
    later.event_id = "$m2".to_string();
    let view = auth_view(&vec![member, pdu("$message", &[]), later], Some(&pdu("$create", &[])));
    assert_eq!(view.get("m.room.member", "@a:x").unwrap().event_id, "$m2");
    assert_eq!(view.get("m.room.create", "").unwrap().event_id, "$create");
    assert_eq!(view.entries.len(), 2);
    let auth = vec![AuthEvent {
        json: Some(json("{\"type\":\"m.room.member\",\"state_key\":\"@b:x\"}")),
        pdu: Some(pdu("$b", &[])),
        nid: Some(1),
    }];
    let mut state = view;
    complete_state(&mut state, Some(&pdu("$other", &[])), "@b:x", &auth);
    assert_eq!(state.get("m.room.create", "").unwrap().event_id, "$create");
    assert_eq!(state.get("m.room.member", "@b:x").unwrap().event_id, "$b");
}

fn unknown_prev() -> PrevFacts {
    PrevFacts {
        event_id: "$p".to_string(),
        stored: None,
        rejected: None,
        fetched: None,
        taken: None,
        stored_now: None,
        snapshot: None,
    }
}

#[test]
fn predecessors_are_looked_up_before_they_are_fetched() {
    let mut f = unknown_prev();
    assert!(matches!(prev_step(&f), PrevStep::Lookup));
    f.stored = Some(Ok(Some(4)));
    assert!(matches!(prev_step(&f), PrevStep::LoadSnapshot { event: 4 }));
    f.snapshot = Some(Ok(None));
    assert!(matches!(prev_step(&f), PrevStep::Done));
    assert!(matches!(prev_answer(f), PrevAnswer::Stored(rows) if rows.is_empty()));

    let mut f = unknown_prev();
    f.stored = Some(Err("disk".to_string()));
    assert!(matches!(prev_step(&f), PrevStep::Done));
    assert!(matches!(prev_answer(f), PrevAnswer::Failed(e) if e == "disk"));

    let mut f = unknown_prev();
    f.stored = Some(Ok(None));
    assert!(matches!(prev_step(&f), PrevStep::CheckRejected));
    f.rejected = Some(true);
    assert!(matches!(prev_step(&f), PrevStep::Done));
    assert!(matches!(prev_answer(f), PrevAnswer::Rejected));
}

#[test]
fn predecessors_that_are_unknown_are_fetched() {
    let unknown = || {
        let mut f = unknown_prev();
        f.stored = Some(Ok(None));
        f.rejected = Some(false);
        f
    };
    let mut f = unknown();
    assert!(matches!(prev_step(&f), PrevStep::Fetch));
    f.fetched = Some(None);
    assert!(matches!(prev_step(&f), PrevStep::Done));
    assert!(matches!(prev_answer(f), PrevAnswer::Missing));

    let mut f = unknown();
    f.fetched = Some(Some(Json::text("event")));
    assert!(matches!(
        prev_step(&f),
        PrevStep::TakeIn { event, kind: FetchKind::MissingTimeline } if event.as_str() == Some("event")
    ));
    f.taken = Some(false);
    assert!(matches!(prev_step(&f), PrevStep::Done));
    f.taken = Some(true);
    assert!(matches!(prev_step(&f), PrevStep::LookupAgain));
    f.stored_now = Some(Ok(Some(6)));
    assert!(matches!(prev_step(&f), PrevStep::LoadSnapshot { event: 6 }));
    f.snapshot = Some(Ok(Some(vec![SnapshotRow::Gone { nid: 1 }])));
    assert!(matches!(prev_step(&f), PrevStep::Done));
    assert!(matches!(prev_answer(f), PrevAnswer::Fetched(rows) if rows.len() == 1));

    let mut f = unknown();
    f.fetched = Some(Some(Json::text("event")));
    f.taken = Some(true);
    f.stored_now = Some(Ok(None));
    assert!(matches!(prev_step(&f), PrevStep::Done));
    assert!(matches!(prev_answer(f), PrevAnswer::Missing));
}

#[test]
fn named_state_is_put_together_event_by_event() {
    let mut f = NamedFacts {
        reply: None,
        found: vec![],
        stored: None,
        fetched: None,
        taken: false,
        stored_now: None,
    };
    assert!(matches!(named_step(&f), NamedStep::Ask));
    f.reply = Some(Err("down".to_string()));
    assert!(matches!(named_step(&f), NamedStep::Done { events } if events.is_empty()));
    let ids = Json::array(vec![Json::text("$1"), Json::text("$2")]);
    f.reply = Some(Ok(Json::object(vec![("pdu_ids".to_string(), ids)])));
    assert!(matches!(named_step(&f), NamedStep::Lookup { event_id } if event_id == "$1"));
    f.stored = Some(Some(7));
    assert!(matches!(named_step(&f), NamedStep::Note { found: Some(7) }));
    f.found = vec![Some(7)];
    f.stored = Some(None);
    assert!(matches!(named_step(&f), NamedStep::Fetch { event_id } if event_id == "$2"));
    f.fetched = Some(Some(Json::text("event")));
    assert!(matches!(named_step(&f), NamedStep::TakeIn { kind: FetchKind::AuthChain, .. }));
    f.taken = true;
    assert!(matches!(named_step(&f), NamedStep::LookupAgain { event_id } if event_id == "$2"));
    f.stored_now = Some(None);
    assert!(matches!(named_step(&f), NamedStep::Note { found: None }));
    f.found = vec![Some(7), None];
    assert!(matches!(named_step(&f), NamedStep::Done { events } if events == vec![7]));
}
