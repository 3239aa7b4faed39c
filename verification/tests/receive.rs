use serde_json::Value;
use vela_federation::json::Json;
use vela_federation::json::JsonNumber;
use vela_federation::backfill::attempt_backfill;
use vela_federation::backfill::backfill_candidates;
use vela_federation::backfill::persist_backfilled;
use vela_federation::backfill::persist_one;
use vela_federation::backfill::BackfillFacts;
use vela_federation::backfill::BackfillStep;
use vela_federation::backfill::BackfilledFacts;
use vela_federation::backfill::BackfilledStep;
use vela_federation::gaps::budget_exhausted;
use vela_federation::gaps::consume_budget;
use vela_federation::gaps::fetch_auth_chain;
use vela_federation::gaps::fetch_auth_via_state_ids;
use vela_federation::gaps::fetch_missing_events;
use vela_federation::gaps::find_state_ids_boundary;
use vela_federation::gaps::new_fetch_budget;
use vela_federation::gaps::AuthChainFetch;
use vela_federation::gaps::FetchStep;
use vela_federation::gaps::IdWalk;
use vela_federation::gaps::Ingest;
use vela_federation::gaps::MissingEventsFetch;
use vela_federation::intake::persist_fetched_event;
use vela_federation::intake::persist_remote_event;
use vela_federation::intake::FetchKind;
use vela_federation::intake::FetchedFacts;
use vela_federation::intake::FetchedStep;
use vela_federation::intake::Intake;
use vela_federation::intake::IntakeStep;
use vela_federation::intake::PersistKind;
use vela_federation::intake::RemoteFacts;
use vela_federation::intake::RemoteStep;
use vela_federation::keys::RemoteKeys;
use vela_federation::pdu::membership_byte;
use vela_federation::pdu::Pdu;
use vela_federation::persist::apply_invite_rescind;
use vela_federation::persist::fails_a_join;
use vela_federation::persist::persist_invite_event;
use vela_federation::persist::persist_join_event;
use vela_federation::persist::persist_past_event;
use vela_federation::persist::persist_received_pdu;
use vela_federation::persist::track_membership;
use vela_federation::persist::try_apply_redaction_marker;
use vela_federation::persist::try_record_relation;
use vela_federation::persist::Effect;
use vela_federation::persist::RescindFacts;
use vela_federation::persist::RescindStep;
use vela_federation::receive::process_pdu;
use vela_federation::receive::AuthLookup;
use vela_federation::receive::CurrentCheck;
use vela_federation::receive::PduFacts;
use vela_federation::receive::PduOutcome;
use vela_federation::receive::PduStep;
use vela_federation::receive::RoomLookup;
use vela_federation::receive::StateCheck;
use vela_federation::receive::MAX_MISSING_FETCH_PER_PDU;
use vela_federation::table::TextMap;
use vela_federation::transaction::group_by_room;
use vela_federation::transaction::receive_transaction;
use vela_federation::transaction::record_outcome;
use vela_federation::transaction::transaction_reply;
use vela_federation::transaction::PduResult;

fn from_value(v: &Value) -> Json {
    match v {
        Value::Null => Json::Null,
        Value::Bool(b) => Json::Bool(*b),
        Value::Number(n) => match (n.as_u64(), n.as_i64()) {
            (Some(u), _) => Json::Number(JsonNumber::Unsigned(u)),
            (None, Some(i)) => Json::Number(JsonNumber::Negative(i)),
            (None, None) => Json::Number(JsonNumber::Float(n.to_string())),
        },
        Value::String(s) => Json::text(s),
        Value::Array(a) => Json::array(a.iter().map(from_value).collect()),
        Value::Object(m) => {
            Json::object(m.iter().map(|(k, v)| (k.clone(), from_value(v))).collect())
        }
    }
}

fn json(s: &str) -> Json {
    from_value(&serde_json::from_str::<Value>(s).unwrap())
}

fn sorted(j: &Json) -> Json {
    match j {
        Json::Array(a) => Json::array(a.iter().map(sorted).collect()),
        Json::Object(m) => {
            let mut v: Vec<(String, Json)> = m.iter().map(|(k, v)| (k.clone(), sorted(v))).collect();
            v.sort_by(|a, b| a.0.cmp(&b.0));
            Json::object(v)
        }
        other => other.copy(),
    }
}

fn assert_json(got: &Json, want: &str) {
    assert_eq!(format!("{:?}", sorted(got)), format!("{:?}", sorted(&json(want))));
}

fn names(v: &[&str]) -> Vec<String> {
    v.iter().map(|s| s.to_string()).collect()
}

fn text_at(j: &Json, key: &str) -> Option<String> {
    j.str_at(key).map(|s| s.to_string())
}

fn list_at(j: &Json, key: &str) -> Vec<String> {
    match j.array_at(key) {
        Some(v) => v.iter().filter_map(|x| x.as_str().map(|s| s.to_string())).collect(),
        None => vec![],
    }
}

fn read_pdu(event_id: &str, j: &Json) -> Option<Pdu> {
    Some(Pdu {
        event_id: event_id.to_string(),
        event_type: text_at(j, "type")?,
        sender: text_at(j, "sender")?,
        room_id: text_at(j, "room_id").unwrap_or_default(),
        state_key: text_at(j, "state_key"),
        content: j.get("content")?.copy(),
        prev_events: list_at(j, "prev_events"),
        auth_events: list_at(j, "auth_events"),
        depth: j.u64_at("depth")?,
        origin_server_ts: j.u64_at("origin_server_ts")?,
    })
}

fn keys() -> RemoteKeys {
    let mut verify_keys = TextMap::new();
    verify_keys.insert("ed25519:k", "KEY".to_string());
    RemoteKeys { verify_keys, old_verify_keys: TextMap::new(), valid_until_ts: 9, fetched_at: 1 }
}

fn facts(j: Json) -> PduFacts {
    PduFacts {
        json: j,
        server_name: "test.example".to_string(),
        bad_number: None,
        identity: None,
        known: None,
        room: None,
        acl: None,
        sender_keys: None,
        sig_checks: vec![],
        content_hash: None,
        effective: None,
        target_membership: None,
        inviter: None,
        rescinded: None,
        auth_rejected: vec![],
        auth_lookups: vec![],
        auth_refusal: None,
        prev_missing: vec![],
        gap_filled: false,
        gap_marked: false,
        state_check: None,
        partial_state: None,
        current_check: None,
        stored: None,
        sender_promoted: false,
    }
}

/// A world in which events arrive.
struct World {
    room_known: bool,
    event_known: bool,
    acl: Option<&'static str>,
    signature: bool,
    rejected: Vec<&'static str>,
    /// Found at the first look, after the auth chain, after the state ids.
    found: [bool; 3],
    auth_refusal: Option<&'static str>,
    prev_missing: bool,
    state_check: fn() -> StateCheck,
    partial: bool,
    current: CurrentCheck,
    membership: Option<u8>,
    inviter: Option<&'static str>,
}

fn allowed() -> StateCheck {
    StateCheck::Allowed
}

fn refused() -> StateCheck {
    StateCheck::Refused("sender not in room".to_string())
}

fn unresolved() -> StateCheck {
    StateCheck::Unresolved
}

fn no_state() -> StateCheck {
    StateCheck::NoState
}

fn fine() -> World {
    World {
        room_known: true,
        event_known: false,
        acl: None,
        signature: true,
        rejected: vec![],
        found: [true, true, true],
        auth_refusal: None,
        prev_missing: false,
        state_check: allowed,
        partial: false,
        current: CurrentCheck::Allowed,
        membership: None,
        inviter: None,
    }
}

/// Plays the dialogue to its end; tells the outcome and the steps.
fn play(w: &World, j: Json) -> (String, PduOutcome, Vec<&'static str>) {
    let mut f = facts(j);
    let mut log = Vec::new();
    for _ in 0..200 {
        match process_pdu(&f) {
            PduStep::CheckNumbers => f.bad_number = Some(None),
            PduStep::Identify => {
                let id = "$event".to_string();
                let pdu = read_pdu(&id, &f.json);
                f.identity = Some((id, pdu));
            }
            PduStep::LookupEvent { .. } => f.known = Some(w.event_known),
            PduStep::LookupRoom { .. } => {
                f.room = Some(if w.room_known { RoomLookup::Known(3) } else { RoomLookup::Unknown })
            }
            PduStep::LoadAcl { .. } => f.acl = Some(w.acl.map(json)),
            PduStep::FetchKeys { server } => {
                assert_eq!(server, "remote.example");
                log.push("keys");
                f.sender_keys = Some(Some(keys()));
            }
            PduStep::VerifySignature { key, .. } => {
                assert_eq!(key, "KEY");
                f.sig_checks.push(w.signature);
            }
            PduStep::HashContent => f.content_hash = Some("H".to_string()),
            PduStep::ReadEffective { redacted } => {
                if redacted {
                    log.push("redacted");
                }
                f.effective = Some(read_pdu("$event", &f.json));
            }
            PduStep::LookupMembership { .. } => f.target_membership = Some(w.membership),
            PduStep::LookupInviter { .. } => f.inviter = Some(w.inviter.map(|s| s.to_string())),
            PduStep::Rescind { .. } => {
                log.push("rescind");
                f.rescinded = Some(PduOutcome::Accepted);
            }
            PduStep::IsRejected { event_id } => {
                f.auth_rejected.push(w.rejected.contains(&event_id.as_str()))
            }
            PduStep::LoadAuthEvent { .. } => f.auth_lookups.push(AuthLookup {
                found: w.found[0],
                chain_fetched: false,
                rejected: None,
                found_in_chain: None,
                ids_fetched: false,
                found_in_ids: None,
            }),
            PduStep::FetchAuthChain { .. } => {
                log.push("chain");
                f.auth_lookups.last_mut().unwrap().chain_fetched = true;
            }
            PduStep::RecheckRejected { .. } => {
                f.auth_lookups.last_mut().unwrap().rejected = Some(false)
            }
            PduStep::ReloadAuthEvent { .. } => {
                let l = f.auth_lookups.last_mut().unwrap();
                if l.ids_fetched {
                    l.found_in_ids = Some(w.found[2]);
                } else {
                    l.found_in_chain = Some(w.found[1]);
                }
            }
            PduStep::FetchStateIds { .. } => {
                log.push("ids");
                f.auth_lookups.last_mut().unwrap().ids_fetched = true;
            }
            PduStep::CheckAuthEvents { .. } => {
                f.auth_refusal = Some(w.auth_refusal.map(|s| s.to_string()))
            }
            PduStep::LookupPrev { .. } => f.prev_missing.push(w.prev_missing),
            PduStep::FillGap { .. } => {
                log.push("gap");
                f.gap_filled = true;
            }
            PduStep::MarkGap { room: 3 } => {
                log.push("mark");
                f.gap_marked = true;
            }
            PduStep::MarkGap { .. } => panic!("another room"),
            PduStep::CheckStateBefore { .. } => f.state_check = Some((w.state_check)()),
            PduStep::IsPartialState { .. } => f.partial_state = Some(w.partial),
            PduStep::CheckCurrentState { .. } => f.current_check = Some(w.current),
            PduStep::Store { soft_failed, kind, .. } => {
                log.push(if soft_failed { "hide" } else { "store" });
                let expected = if soft_failed { PersistKind::SoftFailed } else { PersistKind::Live };
                assert_eq!(kind, expected);
                f.stored = Some(None);
            }
            PduStep::PromoteSender { .. } => {
                log.push("promote");
                f.sender_promoted = true;
            }
            PduStep::Done { event_id, outcome } => return (event_id, outcome, log),
        }
    }
    panic!("no outcome");
}

fn reason(w: &World, j: Json) -> String {
    match play(w, j).1 {
        PduOutcome::Rejected(r) => r,
        other => panic!("{other:?}"),
    }
}

const SIGNED: &str = ",\"hashes\":{\"sha256\":\"H\"},\"signatures\":{\"remote.example\":{\"ed25519:k\":\"S\"}}}";

fn message() -> Json {
    json(&format!(
        "{{\"type\":\"m.room.message\",\"sender\":\"@alice:remote.example\",\"room_id\":\"!room\",\
         \"origin_server_ts\":1700000000000,\"content\":{{\"msgtype\":\"m.text\",\"body\":\"hi\"}},\"depth\":5,\
         \"prev_events\":[\"$prev\"],\"auth_events\":[\"$a\",\"$b\"]{SIGNED}"
    ))
}

#[test]
fn reject_non_object_pdu() {
    let (_, outcome, _) = play(&fine(), json("[1,2,3]"));
    assert!(matches!(outcome, PduOutcome::Rejected(ref r) if r.contains("not a JSON object")));
}

#[test]
fn reject_missing_room_id() {
    let pdu = json(
        "{\"type\":\"m.room.message\",\"sender\":\"@alice:remote.example\",\"origin_server_ts\":1700000000000,\
         \"content\":{\"msgtype\":\"m.text\",\"body\":\"hi\"},\"depth\":5,\"prev_events\":[],\"auth_events\":[]}",
    );
    let (_, outcome, _) = play(&fine(), pdu);
    assert!(matches!(outcome, PduOutcome::Rejected(ref r) if r.contains("room_id")));
}

#[test]
fn reject_unknown_room() {
    let pdu = json(
        "{\"type\":\"m.room.message\",\"sender\":\"@alice:remote.example\",\"room_id\":\"!never-seen-this-room\",\
         \"origin_server_ts\":1700000000000,\"content\":{\"msgtype\":\"m.text\",\"body\":\"hi\"},\"depth\":5,\
         \"prev_events\":[\"$some_prev\"],\"auth_events\":[\"$some_auth\"]}",
    );
    let mut w = fine();
    w.room_known = false;
    let (_, outcome, _) = play(&w, pdu);
    assert!(matches!(outcome, PduOutcome::Rejected(ref r) if r.contains("unknown room")));
}

#[test]
fn reject_m_room_create_over_send() {
    let pdu = json(
        "{\"type\":\"m.room.create\",\"sender\":\"@alice:remote.example\",\"origin_server_ts\":1700000000000,\
         \"content\":{\"room_version\":\"12\"},\"depth\":0,\"prev_events\":[],\"auth_events\":[]}",
    );
    let (_, outcome, _) = play(&fine(), pdu);
    match outcome {
        PduOutcome::Rejected(r) => assert!(
            r.contains("m.room.create"),
            "expected dedicated m.room.create rejection, got {r:?}"
        ),
        other => panic!("expected rejection, got {other:?}"),
    }
}

#[test]
fn reject_too_many_auth_events() {
    let ids: Vec<String> = (0..15).map(|i| format!("\"$a{i}\"")).collect();
    let pdu = json(&format!(
        "{{\"type\":\"m.room.message\",\"sender\":\"@alice:remote.example\",\"room_id\":\"!room\",\
         \"origin_server_ts\":1700000000000,\"content\":{{\"msgtype\":\"m.text\",\"body\":\"hi\"}},\"depth\":5,\
         \"prev_events\":[],\"auth_events\":[{}]}}",
        ids.join(",")
    ));
    let (_, outcome, _) = play(&fine(), pdu);
    assert!(matches!(outcome, PduOutcome::Rejected(ref r) if r.contains("auth_events")));
}

#[test]
fn good_events_are_stored() {
    let (id, outcome, log) = play(&fine(), message());
    assert_eq!(id, "$event");
    assert!(matches!(outcome, PduOutcome::Accepted));
    assert_eq!(log, vec!["keys", "store", "promote"]);
}

#[test]
fn known_events_are_accepted_without_work() {
    let mut w = fine();
    w.event_known = true;
    let (_, outcome, log) = play(&w, message());
    assert!(matches!(outcome, PduOutcome::Accepted));
    assert!(log.is_empty());
}

#[test]
fn each_check_rejects_with_its_reason() {
    let mut w = fine();
    w.acl = Some("{\"allow\":[]}");
    assert_eq!(reason(&w, message()), "server_acl: sender remote.example matches no allow pattern");
    assert!(play(&w, message()).2.is_empty(), "no key is fetched for a denied server");
    let mut w = fine();
    w.signature = false;
    assert_eq!(reason(&w, message()), "signature verification failed");
    let mut w = fine();
    w.rejected = vec!["$b"];
    assert_eq!(reason(&w, message()), "auth_event $b is rejected");
    let mut w = fine();
    w.found = [false, false, false];
    assert_eq!(
        reason(&w, message()),
        "auth event $a not provided in /event_auth or /state_ids chain"
    );
    assert_eq!(play(&w, message()).2, vec!["keys", "chain", "ids"]);
    let mut w = fine();
    w.auth_refusal = Some("not allowed");
    assert_eq!(reason(&w, message()), "auth_events check failed: not allowed");
    let mut w = fine();
    w.state_check = refused;
    assert_eq!(reason(&w, message()), "state-at-event check failed: sender not in room");
    let mut w = fine();
    w.state_check = unresolved;
    assert_eq!(reason(&w, message()), "state-at-event resolution failed");
    w.partial = true;
    assert!(matches!(play(&w, message()).1, PduOutcome::Accepted));
    let mut w = fine();
    w.current = CurrentCheck::Unreadable;
    assert_eq!(reason(&w, message()), "internal error");
    let mut w = fine();
    w.state_check = no_state;
    assert!(matches!(play(&w, message()).1, PduOutcome::Accepted));
    let unsigned = json(
        "{\"type\":\"t\",\"sender\":\"@alice:remote.example\",\"room_id\":\"!room\",\"origin_server_ts\":1,\
         \"content\":{},\"depth\":5,\"prev_events\":[],\"auth_events\":[]}",
    );
    assert_eq!(reason(&fine(), unsigned), "no signature from remote.example");
}

#[test]
fn acl_changes_are_exempt_from_the_acl() {
    let mut w = fine();
    w.acl = Some("{\"allow\":[]}");
    let j = json(&format!(
        "{{\"type\":\"m.room.server_acl\",\"state_key\":\"\",\"sender\":\"@alice:remote.example\",\"room_id\":\"!room\",\
         \"origin_server_ts\":1,\"content\":{{}},\"depth\":5,\"prev_events\":[],\"auth_events\":[]{SIGNED}"
    ));
    assert!(matches!(play(&w, j).1, PduOutcome::Accepted));
}

#[test]
fn current_state_hides_events() {
    let mut w = fine();
    w.current = CurrentCheck::Refused;
    let (_, outcome, log) = play(&w, message());
    assert!(matches!(outcome, PduOutcome::SoftFailed));
    assert_eq!(log, vec!["keys", "hide"]);
    w.partial = true;
    let (_, outcome, log) = play(&w, message());
    assert!(matches!(outcome, PduOutcome::Accepted));
    assert_eq!(log, vec!["keys", "store", "promote"]);
}

#[test]
fn gaps_are_filled_once_and_hashes_redact() {
    let mut w = fine();
    w.prev_missing = true;
    w.found = [false, true, true];
    let text = format!("{:?}", play(&w, message()).2);
    assert_eq!(text, "[\"keys\", \"chain\", \"chain\", \"gap\", \"mark\", \"store\", \"promote\"]");
    let j = json(
        "{\"type\":\"t\",\"sender\":\"@alice:remote.example\",\"room_id\":\"!room\",\"origin_server_ts\":1,\
         \"content\":{},\"depth\":5,\"prev_events\":[],\"auth_events\":[],\"hashes\":{\"sha256\":\"other\"},\
         \"signatures\":{\"remote.example\":{\"ed25519:k\":\"S\"}}}",
    );
    assert_eq!(play(&fine(), j).2, vec!["keys", "redacted", "store", "promote"]);
}

fn removal(sender: &str) -> Json {
    json(&format!(
        "{{\"type\":\"m.room.member\",\"state_key\":\"@bob:test.example\",\"sender\":\"{sender}\",\"room_id\":\"!room\",\
         \"origin_server_ts\":1,\"content\":{{\"membership\":\"leave\"}},\"depth\":5,\"prev_events\":[],\"auth_events\":[]{SIGNED}"
    ))
}

#[test]
fn invites_are_withdrawn_by_the_inviter() {
    let mut w = fine();
    w.membership = Some(2);
    w.inviter = Some("@alice:remote.example");
    let (_, outcome, log) = play(&w, removal("@alice:remote.example"));
    assert!(matches!(outcome, PduOutcome::Accepted));
    assert_eq!(log, vec!["keys", "rescind"]);
    assert_eq!(
        reason(&w, removal("@eve:remote.example")),
        "only the original inviter can rescind an invite over federation"
    );
    w.membership = Some(1);
    assert_eq!(play(&w, removal("@eve:remote.example")).2, vec!["keys", "store", "promote"]);
}

#[test]
fn fetch_budget_consume_and_exhaust() {
    let mut b = new_fetch_budget();
    let max = MAX_MISSING_FETCH_PER_PDU;
    for i in 0..max {
        assert!(consume_budget(&mut b), "should succeed at {i}");
    }
    assert!(budget_exhausted(&b));
    assert!(!consume_budget(&mut b), "should fail when exhausted");
}

#[test]
fn outcome_to_json_shapes() {
    assert_json(&PduOutcome::Accepted.to_json(), "{}");
    assert_json(&PduOutcome::SoftFailed.to_json(), "{}");
    assert_json(&PduOutcome::Rejected("boom".to_string()).to_json(), "{\"error\":\"boom\"}");
}

fn missing(exhausted: bool, reply: Option<Result<Json, String>>) -> MissingEventsFetch {
    MissingEventsFetch {
        origin: "remote.example".to_string(),
        room_id: "!room:remote.example".to_string(),
        latest_event_id: "$latest".to_string(),
        earliest_event_ids: names(&["$ext-1", "$ext-2"]),
        exhausted,
        reply,
    }
}

#[test]
fn fetch_missing_events_request_shape() {
    match fetch_missing_events(&missing(false, None)) {
        FetchStep::Ask { server, path, body: Some(body) } => {
            assert_eq!(server, "remote.example");
            assert_eq!(path, "/_matrix/federation/v1/get_missing_events/!room:remote.example");
            assert_eq!(list_at(&body, "latest_events"), names(&["$latest"]));
            assert_eq!(list_at(&body, "earliest_events"), names(&["$ext-1", "$ext-2"]));
            assert_eq!(body.u64_at("limit"), Some(50));
        }
        _ => panic!("a request is due"),
    }
    match fetch_missing_events(&missing(false, Some(Ok(json("{\"events\":[]}"))))) {
        FetchStep::Ingest { events } => assert!(events.is_empty()),
        _ => panic!("expected success on empty events"),
    }
    match fetch_missing_events(&missing(false, Some(Ok(json("{}"))))) {
        FetchStep::Failed { reason } => assert_eq!(reason, "response missing events"),
        _ => panic!("the reply lacks events"),
    }
}

#[test]
fn fetch_missing_events_respects_exhausted_budget() {
    match fetch_missing_events(&missing(true, None)) {
        FetchStep::Failed { reason } => assert_eq!(reason, "fetch budget exhausted"),
        _ => panic!("no request may be made"),
    }
}

#[test]
fn auth_chains_are_asked_for_in_turn() {
    let mut f = AuthChainFetch {
        origin: "a".to_string(),
        room_id: "!r".to_string(),
        target_event_id: "$t".to_string(),
        exhausted: false,
        hints: Some(names(&["a", "b"])),
        replies: vec![Err("down".to_string())],
    };
    match fetch_auth_chain(&f) {
        FetchStep::Ask { server, path, body: None } => {
            assert_eq!(server, "b");
            assert_eq!(path, "/_matrix/federation/v1/event_auth/!r/$t");
        }
        _ => panic!("the next server is asked"),
    }
    f.replies.push(Ok(json("{\"auth_chain\":[{\"depth\":3},{\"depth\":1},{}]}")));
    match fetch_auth_chain(&f) {
        FetchStep::Ingest { events } => {
            let depths: Vec<Option<u64>> = events.iter().map(|e| e.u64_at("depth")).collect();
            assert_eq!(depths, vec![None, Some(1), Some(3)]);
        }
        _ => panic!("the chain is taken in"),
    }
    f.replies[1] = Err("gone".to_string());
    match fetch_auth_chain(&f) {
        FetchStep::Failed { reason } => {
            assert_eq!(reason, "/event_auth call failed: /event_auth via b: gone")
        }
        _ => panic!("nobody answered"),
    }
}

#[test]
fn intake_stops_with_the_budget() {
    let mut budget = new_fetch_budget();
    budget.remaining = 2;
    let mut ingest = Ingest { events: (0..3).map(Json::number).collect(), next: 0 };
    assert_eq!(ingest.advance(&mut budget).unwrap().as_u64(), Some(0));
    assert_eq!(ingest.advance(&mut budget).unwrap().as_u64(), Some(1));
    assert!(ingest.advance(&mut budget).is_none());
    let mut walk = IdWalk { ids: names(&["$known", "$new"]), next: 0 };
    budget.remaining = 2;
    assert_eq!(walk.advance(&mut budget, |id: &str| id == "$known").as_deref(), Some("$new"));
    assert!(walk.advance(&mut budget, |_: &str| false).is_none());
    let mut short = IdWalk { ids: names(&["$1", "$2", "$3"]), next: 0 };
    budget.remaining = 2;
    assert!(short.advance(&mut budget, |_: &str| true).is_none());
    assert_eq!((short.next, budget.remaining), (2, 0));
    budget.remaining = 5;
    assert!(short.advance(&mut budget, |_: &str| true).is_none());
    assert_eq!((short.next, budget.remaining), (3, 4));
    let ids = fetch_auth_via_state_ids(&Ok(json("{\"auth_chain_ids\":[\"$a\"],\"pdu_ids\":[\"$p\"]}"))).unwrap();
    assert!(ids.contains(&"$a".to_string()) && ids.contains(&"$p".to_string()));
}

#[test]
fn boundaries_are_the_nearest_unknown() {
    let mut start = read_pdu("$start", &message()).unwrap();
    start.prev_events = names(&["$1"]);
    let b = find_state_ids_boundary(&start, |id: &str| match id {
        "$1" => Some(names(&["$2"])),
        "$2" => Some(names(&["$3"])),
        _ => None,
    });
    assert_eq!(b, "$3");
}

#[test]
fn fetched_events_are_checked_and_kept_apart() {
    let event = message();
    let mut f = FetchedFacts {
        intake: Intake {
            json: event.copy(),
            identity: None,
            known: None,
            sender_keys: None,
            sig_checks: vec![],
            content_hash: None,
            effective: None,
        },
        origin: "remote.example".to_string(),
        kind: FetchKind::AuthChain,
        room: None,
        auth_rejected: vec![],
        auth_searches: vec![],
        auth_refusal: None,
        stored: None,
    };
    assert!(matches!(persist_fetched_event(&f), FetchedStep::Check(IntakeStep::Identify)));
    f.intake.identity = Some(("$event".to_string(), read_pdu("$event", &event)));
    f.intake.known = Some(Ok(false));
    f.intake.sender_keys = Some(Ok(keys()));
    f.intake.sig_checks = vec![true];
    f.intake.content_hash = Some("H".to_string());
    f.intake.effective = Some(read_pdu("$event", &event));
    assert!(matches!(persist_fetched_event(&f), FetchedStep::LookupRoom { .. }));
    f.room = Some(Ok(None));
    assert!(matches!(
        persist_fetched_event(&f),
        FetchedStep::Dropped { reason, record: None } if reason == "fetched event references unknown room !room"
    ));
    f.room = Some(Ok(Some(3)));
    f.auth_rejected = vec![false, true];
    assert!(matches!(
        persist_fetched_event(&f),
        FetchedStep::Dropped { reason, record: Some(id) }
            if reason == "auth_event $b is rejected" && id == "$event"
    ));
    f.auth_rejected = vec![false, false];
    assert!(matches!(persist_fetched_event(&f), FetchedStep::LoadAuthEvent { event_id } if event_id == "$a"));
    for _ in 0..2 {
        f.auth_searches.push(vela_federation::intake::AuthSearch {
            found: true,
            fetched: None,
            found_after: None,
            rejected: None,
        });
    }
    f.auth_refusal = Some(Some("no m.room.create in state".to_string()));
    assert!(matches!(persist_fetched_event(&f), FetchedStep::Dropped { record: None, .. }));
    f.auth_refusal = Some(Some("no".to_string()));
    assert!(matches!(persist_fetched_event(&f), FetchedStep::Dropped { record: Some(_), .. }));
    f.auth_refusal = Some(None);
    assert!(matches!(
        persist_fetched_event(&f),
        FetchedStep::Store { room: 3, kind: PersistKind::Outlier }
    ));
    f.stored = Some(None);
    assert!(matches!(persist_fetched_event(&f), FetchedStep::Done));
}

#[test]
fn events_of_the_past_are_stored_as_such() {
    let mut event = message();
    if let Json::Object(m) = &mut event {
        for (k, v) in m.iter_mut() {
            if k == "content" {
                *v = json("{\"m.relates_to\":{\"event_id\":\"$p\",\"rel_type\":\"m.thread\"}}");
            }
        }
    }
    let passed = || Intake {
        json: event.copy(),
        identity: Some(("$event".to_string(), read_pdu("$event", &event))),
        known: Some(Ok(false)),
        sender_keys: Some(Ok(keys())),
        sig_checks: vec![true],
        content_hash: Some("H".to_string()),
        effective: Some(read_pdu("$event", &event)),
    };
    let mut f = BackfilledFacts { intake: passed(), stored: None };
    match persist_one(&f) {
        BackfilledStep::Store { kind, effects } => {
            assert_eq!(kind, PersistKind::BackfillTimeline);
            assert_eq!(shapes(&effects), vec!["relate past"]);
        }
        _ => panic!("the event is to be stored"),
    }
    f.stored = Some(None);
    assert!(matches!(persist_one(&f), BackfilledStep::Done(true)));
    f.stored = Some(Some("disk".to_string()));
    assert!(matches!(persist_one(&f), BackfilledStep::Skipped { reason } if reason == "disk"));
    let mut r = RemoteFacts { intake: passed(), kind: PersistKind::StateBundleOnly, stored: None };
    assert!(matches!(
        persist_remote_event(&r),
        RemoteStep::Store { kind: PersistKind::StateBundleOnly }
    ));
    r.stored = Some(Ok(9));
    assert!(matches!(persist_remote_event(&r), RemoteStep::Done(Some(9))));
    r.intake.known = Some(Ok(true));
    assert!(matches!(persist_remote_event(&r), RemoteStep::Done(None)));
    r.intake.known = Some(Err("x".to_string()));
    assert!(matches!(persist_remote_event(&r), RemoteStep::Dropped { reason } if reason == "db: x"));
}

#[test]
fn one_server_is_asked_for_the_past() {
    assert_eq!(
        backfill_candidates(&names(&["b", "a"]), Some(&names(&["us", "c", "a"])), "us"),
        names(&["a", "b", "c"])
    );
    let mut f = BackfillFacts {
        servers: names(&["a", "b"]),
        from_event_ids: names(&["$1"]),
        limit: 2,
        reply: None,
        taken: None,
    };
    assert!(matches!(attempt_backfill(&f), BackfillStep::Ask { server, limit: 2 } if server == "a"));
    f.reply = Some(None);
    assert!(matches!(attempt_backfill(&f), BackfillStep::Done(0)));
    f.reply = Some(Some(json("{\"pdus\":[{\"depth\":9},{\"depth\":2}]}")));
    match attempt_backfill(&f) {
        BackfillStep::Store { events } => assert_eq!(events[0].u64_at("depth"), Some(2)),
        _ => panic!("the events are stored"),
    }
    f.reply = Some(Some(json("{\"pdus\":[{\"depth\":9},{\"depth\":2},{\"depth\":1}]}")));
    match attempt_backfill(&f) {
        BackfillStep::Store { events } => {
            assert_eq!(events.len(), 2);
            assert_eq!(events[0].u64_at("depth"), Some(2));
        }
        _ => panic!("the events are stored"),
    }
    f.taken = Some(vec![false, true, true]);
    assert!(matches!(attempt_backfill(&f), BackfillStep::Done(1)));
    f.limit = 0;
    assert!(matches!(attempt_backfill(&f), BackfillStep::Done(0)));
    f.from_event_ids = vec![];
    assert!(matches!(attempt_backfill(&f), BackfillStep::Done(0)));
    assert!(persist_backfilled(&vec![]).is_empty());
}

#[test]
fn membership_byte_covers_all_states() {
    assert_eq!(membership_byte(Some("leave")), 0);
    assert_eq!(membership_byte(Some("join")), 1);
    assert_eq!(membership_byte(Some("invite")), 2);
    assert_eq!(membership_byte(Some("ban")), 3);
    assert_eq!(membership_byte(Some("knock")), 4);
    assert_eq!(membership_byte(None), 0);
}

fn shapes(v: &[Effect]) -> Vec<&'static str> {
    v.iter()
        .map(|e| match e {
            Effect::Promote => "promote",
            Effect::TrackMembership => "track",
            Effect::SetMembership(_) => "set",
            Effect::RecordDeviceLeave => "left",
            Effect::RecordDeviceJoin => "joined",
            Effect::NotifyUser => "user",
            Effect::MarkSoftFailed => "hidden",
            Effect::Redact { .. } => "redact",
            Effect::Relate(_) => "relate",
            Effect::RelatePast(_) => "relate past",
            Effect::NotifyRoom => "room",
            Effect::Relay { .. } => "relay",
            Effect::Broadcast => "broadcast",
            Effect::Push => "push",
            Effect::NotifyServices => "services",
        })
        .collect()
}

#[test]
fn storing_has_effects() {
    let mut pdu = read_pdu("$event", &message()).unwrap();
    assert_eq!(shapes(&persist_received_pdu(&pdu, true, "o")), vec!["hidden"]);
    assert_eq!(
        shapes(&persist_received_pdu(&pdu, false, "o")),
        vec!["room", "relay", "push", "services"]
    );
    pdu.state_key = Some("@b:x".to_string());
    pdu.event_type = "m.room.member".to_string();
    pdu.content = json("{\"membership\":\"join\",\"m.relates_to\":{\"event_id\":\"$p\",\"rel_type\":\"m.thread\"}}");
    assert_eq!(
        shapes(&persist_received_pdu(&pdu, false, "o")),
        vec!["promote", "track", "relate", "room", "relay", "push", "services"]
    );
    assert_eq!(
        shapes(&persist_join_event(&pdu).unwrap()),
        vec!["promote", "set", "user", "room", "broadcast"]
    );
    assert!(fails_a_join(&Effect::Promote) && fails_a_join(&Effect::SetMembership(1)));
    assert!(!fails_a_join(&Effect::NotifyRoom));
    assert_eq!(shapes(&persist_invite_event()), vec!["set", "user", "room"]);
    assert!(matches!(persist_invite_event()[0], Effect::SetMembership(2)));
    assert_eq!(shapes(&persist_past_event(&pdu)), vec!["relate past"]);
    pdu.state_key = None;
    assert!(persist_join_event(&pdu).is_err());
    assert_eq!(shapes(&track_membership(Some("leave"), Some(1), false)), vec!["left", "set", "user"]);
    assert_eq!(shapes(&track_membership(Some("join"), None, true)), vec!["set", "joined", "user"]);
    assert_eq!(shapes(&track_membership(Some("join"), None, false)), vec!["set", "user"]);
    let r = try_record_relation(&pdu.content).unwrap();
    assert_eq!((r.parent.as_str(), r.rel_type.as_str(), r.thread), ("$p", "m.thread", true));
    assert!(try_record_relation(&json("{}")).is_none());
}

#[test]
fn redactions_need_a_permitted_target() {
    let mut pdu = read_pdu("$r", &message()).unwrap();
    pdu.content = json("{\"redacts\":\"$t\"}");
    let mut target = read_pdu("$t", &message()).unwrap();
    target.content = json("{\"m.relates_to\":{\"event_id\":\"$p\",\"rel_type\":\"m.annotation\"}}");
    let plan = try_apply_redaction_marker(&pdu, Some(&target), true, true, false);
    assert!(plan.mark);
    assert_eq!(plan.unrelate.unwrap().rel_type, "m.annotation");
    assert!(try_apply_redaction_marker(&pdu, Some(&target), true, true, true).unrelate.is_none());
    assert!(!try_apply_redaction_marker(&pdu, Some(&target), true, false, false).mark);
    assert!(!try_apply_redaction_marker(&pdu, None, true, true, false).mark);
    target.room_id = "!other".to_string();
    assert!(!try_apply_redaction_marker(&pdu, Some(&target), true, true, false).mark);
}

#[test]
fn withdrawn_invites_are_stored_step_by_step() {
    let mut f = RescindFacts {
        has_state_key: true,
        allotted: None,
        written: None,
        promoted: false,
        current: None,
        recorded: false,
        announced: false,
    };
    assert!(matches!(apply_invite_rescind(&f), RescindStep::Allot));
    f.allotted = Some(None);
    f.written = Some(Some("disk".to_string()));
    assert!(matches!(
        apply_invite_rescind(&f),
        RescindStep::Done(PduOutcome::Rejected(r)) if r == "persist: disk"
    ));
    f.written = None;
    assert!(matches!(apply_invite_rescind(&f), RescindStep::Write(PersistKind::Live)));
    f.written = Some(None);
    assert!(matches!(apply_invite_rescind(&f), RescindStep::Promote));
    f.promoted = true;
    assert!(matches!(apply_invite_rescind(&f), RescindStep::ReadMembership));
    f.current = Some(Some("ban".to_string()));
    assert!(matches!(apply_invite_rescind(&f), RescindStep::Track(3)));
    f.recorded = true;
    assert!(matches!(apply_invite_rescind(&f), RescindStep::Announce));
    f.announced = true;
    assert!(matches!(apply_invite_rescind(&f), RescindStep::Done(PduOutcome::Accepted)));
}

#[test]
fn transactions_are_grouped_by_room() {
    let pdus: Vec<Json> = ["!a", "!b", "!a"]
        .iter()
        .map(|r| json(&format!("{{\"room_id\":\"{r}\"}}")))
        .collect();
    let groups = group_by_room(&pdus);
    assert_eq!(groups.len(), 2);
    assert_eq!(groups[0].room_id, "!a");
    assert_eq!(groups[0].places, vec![0, 2]);
    assert_eq!(groups[1].places, vec![1]);
    let many: Vec<Json> = (0..60).map(|_| json("{}")).collect();
    assert_eq!(group_by_room(&many)[0].places.len(), 50);
    match receive_transaction(None) {
        Err(e) => assert_json(&e, "{\"errcode\":\"M_BAD_JSON\",\"error\":\"empty transaction body\"}"),
        Ok(_) => panic!("there is no body"),
    }
    let body = json("{\"pdus\":[{\"room_id\":\"!a\"}],\"edus\":[{},{}]}");
    match receive_transaction(Some(&body)) {
        Ok(plan) => {
            assert_eq!(plan.batches.len(), 1);
            assert_eq!(plan.edus.len(), 2);
            assert!(plan.excess.is_empty());
        }
        Err(_) => panic!("there is a body"),
    }
    let long = Json::object(vec![("pdus".to_string(), Json::array(many))]);
    match receive_transaction(Some(&long)) {
        Ok(plan) => assert_eq!(plan.excess, (50..60).collect::<Vec<usize>>()),
        Err(_) => panic!("there is a body"),
    }
}

#[test]
fn outcomes_are_recorded_and_reported() {
    let rejected = |r: &str| PduOutcome::Rejected(r.to_string());
    assert_eq!(record_outcome("$e", &rejected("bad")).as_deref(), Some("bad"));
    assert_eq!(record_outcome("", &rejected("bad")), None);
    assert_eq!(record_outcome("$e", &rejected("unknown room")), None);
    assert_eq!(record_outcome("$e", &rejected("x: no m.room.create in state")), None);
    assert_eq!(record_outcome("$e", &PduOutcome::SoftFailed), None);
    let result = |place: usize, id: &str, outcome: PduOutcome| PduResult {
        place,
        event_id: id.to_string(),
        outcome,
    };
    let reply = transaction_reply(vec![
        result(2, "$c", rejected("late")),
        result(0, "$a", PduOutcome::Accepted),
        result(1, "$c", PduOutcome::Accepted),
    ], &vec![]);
    assert_json(&reply, "{\"pdus\":{\"$a\":{},\"$c\":{\"error\":\"late\"}}}");
    let reply = transaction_reply(vec![result(0, "$a", PduOutcome::Accepted)], &names(&["$z", "$a"]));
    assert_json(
        &reply,
        "{\"pdus\":{\"$a\":{},\"$z\":{\"error\":\"transaction exceeds PDU limit\"}}}",
    );
}
