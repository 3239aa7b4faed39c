use serde_json::Value;
use vela_federation::intake::PersistKind;
use vela_federation::json::Json;
use vela_federation::json::JsonNumber;
use vela_federation::filler::_reset_for_test;
use vela_federation::filler::ensure_running;
use vela_federation::filler::fetch_state_via_state_ids;
use vela_federation::filler::merge_state_response;
use vela_federation::filler::notify_new_partial_room;
use vela_federation::filler::pick_anchor_event_id;
use vela_federation::filler::reconcile_device_lists;
use vela_federation::filler::try_fill_one;
use vela_federation::filler::Extremity;
use vela_federation::filler::FillAttempt;
use vela_federation::filler::FillFacts;
use vela_federation::filler::FillOutcome;
use vela_federation::filler::FillStep;
use vela_federation::filler::FillVerdict;
use vela_federation::filler::MergeFacts;
use vela_federation::filler::MergeStep;
use vela_federation::filler::PartialStateFiller;
use vela_federation::filler::Persisted;
use vela_federation::filler::StateIdsFacts;
use vela_federation::filler::StateIdsStep;
use vela_federation::filler::WorkerStep;
use vela_federation::observers::Member;

fn from_value(v: &Value) -> Json {
    match v {
        Value::Null => Json::Null,
        Value::Bool(b) => Json::Bool(*b),
        Value::Number(n) => match (n.as_u64(), n.as_i64()) {
            (Some(u), _) => Json::Number(JsonNumber::Unsigned(u)),
            (None, Some(i)) => Json::Number(JsonNumber::Negative(i)),
            (None, None) => Json::Number(JsonNumber::Float(n.to_string())),
        },
        Value::String(s) => Json::text(s),
        Value::Array(a) => Json::array(a.iter().map(from_value).collect()),
        Value::Object(m) => {
            Json::object(m.iter().map(|(k, v)| (k.clone(), from_value(v))).collect())
        }
    }
}

fn json(s: &str) -> Json {
    from_value(&serde_json::from_str::<Value>(s).unwrap())
}

fn sorted(j: &Json) -> Json {
    match j {
        Json::Array(a) => Json::array(a.iter().map(sorted).collect()),
        Json::Object(m) => {
            let mut v: Vec<(String, Json)> = m.iter().map(|(k, v)| (k.clone(), sorted(v))).collect();
            v.sort_by(|a, b| a.0.cmp(&b.0));
            Json::object(v)
        }
        other => other.copy(),
    }
}

fn assert_json(got: &Json, want: &str) {
    assert_eq!(format!("{:?}", sorted(got)), format!("{:?}", sorted(&json(want))));
}

fn names(v: &[&str]) -> Vec<String> {
    v.iter().map(|s| s.to_string()).collect()
}

#[test]
fn pick_anchor_event_id_errors_when_no_extremities() {
    let err = pick_anchor_event_id(None, &Extremity::Missing).expect_err("no extremity is an error");
    assert!(err.contains("no extremities"), "expected 'no extremities', got: {err}");
}

#[test]
fn pick_anchor_event_id_returns_extremity_event_id() {
    let got = pick_anchor_event_id(None, &Extremity::Id("$anchor".to_string())).unwrap();
    assert_eq!(got, "$anchor");
}

#[test]
fn pick_anchor_prefers_join_prev_event() {
    let prev = names(&["$resident_tip"]);
    let got = pick_anchor_event_id(Some(&prev), &Extremity::Id("$ourjoin".to_string())).unwrap();
    assert_eq!(got, "$resident_tip");
}

#[test]
fn anchors_fail_with_reasons() {
    let fail = |e: Extremity| pick_anchor_event_id(Some(&vec![]), &e).unwrap_err();
    assert_eq!(fail(Extremity::Unreadable("x".to_string())), "get_extremities: x");
    assert_eq!(fail(Extremity::Unresolved("y".to_string())), "resolve nid: y");
    assert_eq!(fail(Extremity::NoId), "extremity nid has no event_id");
}

#[test]
fn reset_for_test_clears_running_flag() {
    let mut filler = PartialStateFiller::new();
    assert!(ensure_running(&mut filler));
    assert!(filler.running());
    _reset_for_test(&mut filler);
    assert!(!filler.running());
}

#[test]
fn worker_starts_once() {
    let mut filler = PartialStateFiller::new();
    assert!(ensure_running(&mut filler));
    assert!(!ensure_running(&mut filler));
    assert!(!filler.notified());
    notify_new_partial_room(&mut filler);
    notify_new_partial_room(&mut filler);
    assert!(filler.notified());
    assert!(!filler.notified());
}

#[test]
fn failures_back_off_per_room() {
    let mut filler = PartialStateFiller::new();
    let mut now: u64 = 1_000_000;
    assert!(filler.is_due(7, now));
    let mut delays = Vec::new();
    for _ in 0..10 {
        match filler.record(7, FillOutcome::Failed, now) {
            FillVerdict::Retry(ms) => {
                assert!(!filler.is_due(7, now + ms - 1));
                assert!(filler.is_due(7, now + ms));
                delays.push(ms);
                now += ms;
            }
            other => panic!("{other:?}"),
        }
    }
    assert_eq!(
        delays,
        vec![2000, 4000, 8000, 16000, 32000, 64000, 128000, 256000, 300000, 300000]
    );
    assert!(filler.is_due(8, now));
    assert_eq!(filler.record(7, FillOutcome::AlreadyFull, now), FillVerdict::Skip);
    assert_eq!(filler.record(7, FillOutcome::Filled, now), FillVerdict::Done);
    assert_eq!(filler.record(7, FillOutcome::Failed, now), FillVerdict::Retry(2000));
}

#[test]
fn rooms_are_given_up_after_a_day() {
    let mut filler = PartialStateFiller::new();
    let day: u64 = 86_400_000;
    filler.record(1, FillOutcome::Failed, 100);
    assert_eq!(filler.record(1, FillOutcome::Failed, 100 + day), FillVerdict::Retry(4000));
    assert_eq!(filler.record(1, FillOutcome::Failed, 101 + day), FillVerdict::DeadLettered);
    assert!(!filler.is_due(1, u64::MAX));
    assert_eq!(filler.rest(Some(&vec![1]), 101 + day), WorkerStep::Wait(60_000));
}

#[test]
fn worker_rests_until_the_next_room() {
    let mut filler = PartialStateFiller::new();
    assert_eq!(filler.rest(None, 0), WorkerStep::Pause(2000));
    assert_eq!(filler.rest(Some(&vec![]), 0), WorkerStep::Wait(60_000));
    filler.record(1, FillOutcome::Failed, 1000);
    filler.record(2, FillOutcome::Failed, 1500);
    assert_eq!(filler.rest(Some(&vec![2, 1]), 2000), WorkerStep::Wait(1000));
    assert_eq!(filler.rest(Some(&vec![2, 1, 3]), 2000), WorkerStep::Wait(1000));
    assert_eq!(filler.rest(Some(&vec![3]), 2000), WorkerStep::Wait(2000));
    assert_eq!(filler.rest(Some(&vec![1, 3]), 1_000_000), WorkerStep::Wait(0));
}

fn attempt(
    ids: Option<Result<(), String>>,
    state: Option<Result<(), String>>,
    merged: Option<Result<(), String>>,
) -> FillAttempt {
    FillAttempt { via_ids: ids, via_state: state, merged }
}

fn failed(s: FillStep) -> String {
    match s {
        FillStep::Failed(e) => e,
        _ => panic!("a failure is due"),
    }
}

#[test]
fn servers_are_tried_in_order() {
    let err = |s: &str| Some(Err(s.to_string()));
    let mut f = FillFacts { servers: vec![], anchor: None, attempts: vec![], cleared: None };
    assert_eq!(failed(try_fill_one(&f)), "no servers in room hint");
    f.servers = names(&["a", "b"]);
    assert!(matches!(try_fill_one(&f), FillStep::PickAnchor));
    f.anchor = Some(Err("room has no extremities".to_string()));
    assert_eq!(failed(try_fill_one(&f)), "room has no extremities");
    f.anchor = Some(Ok("$x".to_string()));
    assert!(matches!(try_fill_one(&f), FillStep::FetchIds(0)));
    f.attempts = vec![attempt(err("e1"), None, None)];
    assert!(matches!(try_fill_one(&f), FillStep::FetchState(0)));
    f.attempts = vec![attempt(err("e1"), err("e2"), None)];
    assert!(matches!(try_fill_one(&f), FillStep::FetchIds(1)));
    f.attempts.push(attempt(Some(Ok(())), None, None));
    assert!(matches!(try_fill_one(&f), FillStep::Merge(1)));
    f.attempts[1].merged = err("m");
    assert_eq!(failed(try_fill_one(&f)), "merge from b: m");
    f.attempts[1] = attempt(err("e3"), err("e4"), None);
    assert_eq!(failed(try_fill_one(&f)), "fetch from b: e4");
    f.attempts[1] = attempt(err("e3"), Some(Ok(())), Some(Ok(())));
    assert!(matches!(try_fill_one(&f), FillStep::Clear));
    f.cleared = err("disk");
    assert_eq!(failed(try_fill_one(&f)), "clear flag: disk");
    f.cleared = Some(Ok(()));
    assert!(matches!(try_fill_one(&f), FillStep::Filled));
}

#[test]
fn state_is_assembled_from_ids() {
    let mut f = StateIdsFacts { ids: None, auth: vec![], state: vec![] };
    assert!(matches!(fetch_state_via_state_ids(&f), StateIdsStep::AskIds));
    f.ids = Some(Err("down".to_string()));
    assert!(matches!(fetch_state_via_state_ids(&f), StateIdsStep::Failed(e) if e == "state_ids: down"));
    f.ids = Some(Ok(json("{\"auth_chain_ids\":[\"$a\"],\"pdu_ids\":[]}")));
    assert!(matches!(fetch_state_via_state_ids(&f), StateIdsStep::Failed(e) if e == "state_ids: empty pdu_ids"));
    f.ids = Some(Ok(json("{\"auth_chain\":[\"$a\"],\"pdus\":[\"$1\",\"$2\",\"$3\"]}")));
    assert!(matches!(fetch_state_via_state_ids(&f), StateIdsStep::FetchAuth(id) if id == "$a"));
    f.auth = vec![Err("404".to_string())];
    assert!(matches!(
        fetch_state_via_state_ids(&f),
        StateIdsStep::Failed(e) if e == "auth_chain /event $a: 404"
    ));
    f.auth = vec![Ok(json("{\"x\":1}"))];
    assert!(matches!(fetch_state_via_state_ids(&f), StateIdsStep::FetchState(id) if id == "$1"));
    f.state = vec![Err("404".to_string()), Err("404".to_string()), Ok(json("{\"y\":3}"))];
    assert!(matches!(
        fetch_state_via_state_ids(&f),
        StateIdsStep::Failed(e) if e == "state_ids: only 1/3 pdu_ids materialised"
    ));
    f.state[0] = Ok(json("{\"y\":1}"));
    match fetch_state_via_state_ids(&f) {
        StateIdsStep::Done(v) => {
            assert_json(&v, "{\"auth_chain\":[{\"x\":1}],\"pdus\":[{\"y\":1},{\"y\":3}]}")
        }
        _ => panic!("the state is complete"),
    }
}

#[test]
fn state_is_merged() {
    let member = |user: &str, m: &str| {
        format!("{{\"type\":\"m.room.member\",\"state_key\":\"{user}\",\"content\":{{\"membership\":\"{m}\"}}}}")
    };
    let response = format!(
        "{{\"auth_chain\":[{{}}],\"pdus\":[{},{},{},{{\"type\":\"m.room.name\",\"state_key\":\"\"}}]}}",
        member("@a:x", "join"),
        member("@b:x", "leave"),
        member("@c:x", "ban")
    );
    let mut f = MergeFacts {
        response: json(&response),
        auth_tried: 0,
        persisted: vec![],
        join: Some(99),
    };
    assert!(matches!(merge_state_response(&f), MergeStep::PersistAuth { place: 0, kind: PersistKind::Outlier }));
    f.auth_tried = 1;
    assert!(matches!(merge_state_response(&f), MergeStep::PersistState { place: 0, kind: PersistKind::StateBundleOnly }));
    f.persisted = vec![
        Persisted::Failed("sig".to_string()),
        Persisted::Unresolved,
        Persisted::Failed("hash".to_string()),
        Persisted::Unresolved,
    ];
    assert!(matches!(
        merge_state_response(&f),
        MergeStep::Failed(e) if e == "no state events persisted (4 attempted; last error: hash)"
    ));
    f.persisted = vec![
        Persisted::Stored(11),
        Persisted::Stored(12),
        Persisted::Failed("hash".to_string()),
        Persisted::Stored(14),
    ];
    match merge_state_response(&f) {
        MergeStep::Merge(p) => {
            assert_eq!(p.state, vec![11, 12, 14]);
            assert_eq!(p.join_snapshot, Some((99, vec![11, 12, 14, 99])));
            assert_eq!(p.memberships, vec![("@a:x".to_string(), 1)]);
        }
        _ => panic!("the state can be merged"),
    }
    f.response = json("{\"pdus\":[]}");
    assert!(matches!(
        merge_state_response(&f),
        MergeStep::Failed(e) if e == "peer returned no state PDUs"
    ));
}

#[test]
fn new_peers_are_told_to_local_users() {
    let m = |nid: u64, id: &str| Member { nid, user_id: Some(id.to_string()) };
    let after = vec![m(1, "@a:us"), m(2, "@b:them"), m(3, "@c:them")];
    assert_eq!(reconcile_device_lists(&vec![1, 2], Some(&after), "us"), Some((vec![3], vec![1])));
    assert_eq!(reconcile_device_lists(&vec![1, 2, 3], Some(&after), "us"), None);
    assert_eq!(reconcile_device_lists(&vec![], Some(&after), "else"), None);
    assert_eq!(reconcile_device_lists(&vec![], None, "us"), None);
}
