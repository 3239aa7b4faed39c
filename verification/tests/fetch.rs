use serde_json::Value;
use vela_federation::json::Json;
use vela_federation::json::JsonNumber;
use vela_federation::directory::is_valid_server_name;
use vela_federation::directory::public_rooms_search;
use vela_federation::directory::query_directory;
use vela_federation::directory::query_profile;
use vela_federation::directory::serve_federation_public_rooms;
use vela_federation::fetch::create_event_id;
use vela_federation::fetch::event_gate;
use vela_federation::fetch::get_backfill;
use vela_federation::fetch::get_event;
use vela_federation::fetch::get_event_auth;
use vela_federation::fetch::get_missing_events;
use vela_federation::fetch::get_state;
use vela_federation::fetch::get_state_ids;
use vela_federation::fetch::origin_in_room;
use vela_federation::fetch::parse_backfill_query;
use vela_federation::fetch::serve_event_auth;
use vela_federation::fetch::serve_state;
use vela_federation::fetch::serve_state_ids;
use vela_federation::fetch::state_auth_chain;
use vela_federation::fetch::state_auth_chain_ids;
use vela_federation::fetch::FederationPublicRoomsFilter;
use vela_federation::fetch::FederationPublicRoomsRequest;
use vela_federation::fetch::GetEventFacts;
use vela_federation::fetch::GetEventStep;
use vela_federation::fetch::MemberRecord;
use vela_federation::fetch::MissingEventsRequest;
use vela_federation::fetch::ProfileQuery;
use vela_federation::fetch::RoomFacts;
use vela_federation::fetch::StateResult;
use vela_federation::fetch::StoredEvent;
use vela_federation::visibility::find_history_visibility_in_state;
use vela_federation::visibility::should_redact_for_origin;
use vela_federation::visibility::StateEvent;

fn from_value(v: &Value) -> Json {
    match v {
        Value::Null => Json::Null,
        Value::Bool(b) => Json::Bool(*b),
        Value::Number(n) => match (n.as_u64(), n.as_i64()) {
            (Some(u), _) => Json::Number(JsonNumber::Unsigned(u)),
            (None, Some(i)) => Json::Number(JsonNumber::Negative(i)),
            (None, None) => Json::Number(JsonNumber::Float(n.to_string())),
        },
        Value::String(s) => Json::text(s),
        Value::Array(a) => Json::array(a.iter().map(from_value).collect()),
        Value::Object(m) => {
            Json::object(m.iter().map(|(k, v)| (k.clone(), from_value(v))).collect())
        }
    }
}

fn json(s: &str) -> Json {
    from_value(&serde_json::from_str::<Value>(s).unwrap())
}

fn sorted(j: &Json) -> Json {
    match j {
        Json::Array(a) => Json::array(a.iter().map(sorted).collect()),
        Json::Object(m) => {
            let mut v: Vec<(String, Json)> = m.iter().map(|(k, v)| (k.clone(), sorted(v))).collect();
            v.sort_by(|a, b| a.0.cmp(&b.0));
            Json::object(v)
        }
        other => other.copy(),
    }
}

fn assert_json(got: &Json, want: &str) {
    assert_eq!(format!("{:?}", sorted(got)), format!("{:?}", sorted(&json(want))));
}

fn names(v: &[&str]) -> Vec<String> {
    v.iter().map(|s| s.to_string()).collect()
}

fn server_names_accepts_well_formed() {
    assert!(is_valid_server_name("matrix.org"));
    assert!(is_valid_server_name("matrix.org:8888"));
    assert!(is_valid_server_name("1.2.3.4"));
    assert!(is_valid_server_name("1.2.3.4:1234"));
    assert!(is_valid_server_name("[1234:5678::abcd]"));
    assert!(is_valid_server_name("[1234:5678::abcd]:5678"));
    assert!(is_valid_server_name("localhost"));
    assert!(is_valid_server_name("localhost:8008"));
    assert!(is_valid_server_name("host:65535"));
}

#[test]
fn server_name_accepts_well_formed() {
    server_names_accepts_well_formed();
}

#[test]
fn federation_fetch_server_name_accepts_well_formed() {
    server_names_accepts_well_formed();
}

fn server_names_rejects_non_numeric_port() {
    assert!(!is_valid_server_name("localhost:http"));
    assert!(!is_valid_server_name("hs1:abc"));
    assert!(!is_valid_server_name("hs1:80a"));
}

#[test]
fn server_name_rejects_non_numeric_port() {
    server_names_rejects_non_numeric_port();
}

#[test]
fn federation_fetch_server_name_rejects_non_numeric_port() {
    server_names_rejects_non_numeric_port();
}

fn server_names_rejects_other_malformed() {
    assert!(!is_valid_server_name(""));
    assert!(!is_valid_server_name("hs1:"));
    assert!(!is_valid_server_name(":8008"));
    assert!(!is_valid_server_name("hs1:123456"));
    assert!(!is_valid_server_name("[1234:5678::abcd"));
    assert!(!is_valid_server_name("[1234::abcd]xyz"));
}

#[test]
fn server_name_rejects_other_malformed() {
    server_names_rejects_other_malformed();
}

#[test]
fn federation_fetch_server_name_rejects_other_malformed() {
    server_names_rejects_other_malformed();
}

fn record(user: &str, membership: u8) -> MemberRecord {
    MemberRecord { user_id: Some(user.to_string()), membership }
}

#[test]
fn origin_in_room_matches_joined_member_domain_only() {
    let members = vec![record("@bob:good.example", 1), record("@carol:left.example", 0)];
    assert!(origin_in_room(&members, "good.example"));
    assert!(!origin_in_room(&members, "evil.example"));
    assert!(!origin_in_room(&members, "left.example"));
}

/// Answers the questions about an event of a room that one server is in.
fn serve(event_id: &str, event: &str, origin: &str, state: &Vec<StateEvent>, member: &str) -> Result<Json, u16> {
    let mut f = GetEventFacts {
        event_id: event_id.to_string(),
        origin: origin.to_string(),
        event: None,
        members: None,
        state: None,
        server_name: "local".to_string(),
        now: 7,
    };
    for _ in 0..8 {
        match get_event(&f, redacted) {
            GetEventStep::LoadEvent => f.event = Some(Some(json(event))),
            GetEventStep::LoadMembers { room_id } => {
                assert!(room_id == "!residency:local" || room_id == "!cr8:local");
                f.members = Some(Some(vec![record(member, 1)]));
            }
            GetEventStep::LoadState => {
                let copies = state.iter().map(|e| StateEvent {
                    event_type: e.event_type.clone(),
                    json: e.json.as_ref().map(|j| j.copy()),
                });
                f.state = Some(Some(copies.collect()));
            }
            GetEventStep::Reply { body } => return Ok(body),
            GetEventStep::Refuse(c) => return Err(c),
        }
    }
    panic!("no answer");
}

const MESSAGE: &str = "{\"event_id\":\"$e1\",\"type\":\"m.room.message\",\"sender\":\"@a:good.example\",\
    \"room_id\":\"!residency:local\",\"content\":{\"msgtype\":\"m.text\",\"body\":\"secret\"}}";

#[test]
fn event_not_found_for_non_resident_server() {
    assert_eq!(serve("$e1", MESSAGE, "evil.example", &vec![], "@a:good.example").unwrap_err(), 404);
    assert!(serve("$e1", MESSAGE, "good.example", &vec![], "@a:good.example").is_ok());
}

#[test]
fn event_resolves_v12_create_without_room_id() {
    let create = "{\"event_id\":\"$cr8:local\",\"type\":\"m.room.create\",\"sender\":\"@a:good.example\",\
        \"content\":{\"room_version\":\"12\"}}";
    assert!(serve("$cr8:local", create, "good.example", &vec![], "@a:good.example").is_ok());
    assert_eq!(
        serve("$cr8:local", create, "evil.example", &vec![], "@a:good.example").unwrap_err(),
        404
    );
}

fn room_of(user: &str, partial_state: bool) -> Option<RoomFacts> {
    Some(RoomFacts { members: vec![record(user, 1)], partial_state })
}

/// What a store answers about an event.
fn stored(event: &str, prevs: &[&str], state: Option<Vec<StateEvent>>) -> Option<StoredEvent> {
    Some(StoredEvent { json: Some(json(event)), prev_events: names(prevs), state })
}

fn redacted(_: &Json) -> Json {
    json("{\"type\":\"m.room.message\",\"content\":{}}")
}

#[test]
fn backfill_forbidden_for_non_resident_server() {
    let room = room_of("@a:good.example", false);
    let serve = |origin: &str| {
        get_backfill(
            &room,
            "!residency:local",
            origin,
            Some("v=$e1&limit=10"),
            "local",
            7,
            |id: &str| if id == "$e1" { stored(MESSAGE, &[], None) } else { None },
            redacted,
        )
    };
    assert_eq!(serve("evil.example").unwrap_err(), 403);
    let reply = serve("good.example").unwrap();
    let pdus = reply.array_at("pdus").unwrap();
    assert_eq!(pdus.len(), 1);
    assert_eq!(pdus[0].str_within("content", "body"), Some("secret"));
    assert_eq!(reply.str_at("origin"), Some("local"));
    assert_eq!(reply.u64_at("origin_server_ts"), Some(7));
}

const ORIGIN: &str = "remote.example";

fn state_at_message(visibility: &str, member_at_msg: Option<&str>) -> Vec<StateEvent> {
    let mut v = vec![StateEvent {
        event_type: "m.room.history_visibility".to_string(),
        json: Some(json(&format!(
            "{{\"state_key\":\"\",\"content\":{{\"history_visibility\":\"{visibility}\"}}}}"
        ))),
    }];
    if let Some(m) = member_at_msg {
        v.push(StateEvent {
            event_type: "m.room.member".to_string(),
            json: Some(json(&format!(
                "{{\"state_key\":\"@r:remote.example\",\"content\":{{\"membership\":\"{m}\"}}}}"
            ))),
        });
    }
    v
}

fn served_body(visibility: &str, member_at_msg: Option<&str>) -> Option<String> {
    let state = state_at_message(visibility, member_at_msg);
    let reply = serve("$e1", MESSAGE, ORIGIN, &state, "@r:remote.example").unwrap();
    let pdus = reply.array_at("pdus").unwrap();
    assert_eq!(pdus.len(), 1);
    pdus[0].str_within("content", "body").map(|s| s.to_string())
}

#[test]
fn event_redacted_when_message_predates_origin_membership() {
    assert_eq!(served_body("joined", None), None);
}

#[test]
fn event_not_redacted_when_origin_was_member_at_event() {
    assert_eq!(served_body("joined", Some("join")).as_deref(), Some("secret"));
}

#[test]
fn shared_visibility_serves_full_event() {
    assert_eq!(served_body("shared", None).as_deref(), Some("secret"));
}

/// The message in a room of two servers, as a store has it.
fn message_at(visibility: &str, member_at_msg: Option<&str>) -> Option<StoredEvent> {
    stored(MESSAGE, &[], Some(state_at_message(visibility, member_at_msg)))
}

fn backfilled(visibility: &str, member_at_msg: Option<&str>) -> Option<String> {
    let reply = get_backfill(
        &room_of("@r:remote.example", false),
        "!residency:local",
        ORIGIN,
        Some("v=$msg&limit=10"),
        "local",
        7,
        |id: &str| if id == "$msg" { message_at(visibility, member_at_msg) } else { None },
        redacted,
    )
    .unwrap();
    let pdus = reply.array_at("pdus").unwrap();
    assert_eq!(pdus.len(), 1);
    pdus[0].str_within("content", "body").map(|s| s.to_string())
}

#[test]
fn backfill_redacts_pre_membership_event() {
    assert_eq!(backfilled("joined", None), None);
    assert_eq!(backfilled("joined", Some("join")).as_deref(), Some("secret"));
    assert_eq!(backfilled("shared", None).as_deref(), Some("secret"));
}

fn missing(earliest: &[&str], latest: &[&str], limit: Option<u32>) -> MissingEventsRequest {
    MissingEventsRequest {
        earliest_events: names(earliest),
        latest_events: names(latest),
        limit,
        min_depth: None,
    }
}

const CHILD: &str = "{\"event_id\":\"$child\",\"type\":\"m.room.message\",\"sender\":\"@a:good.example\",\
    \"room_id\":\"!residency:local\",\"content\":{\"msgtype\":\"m.text\",\"body\":\"child\"},\"depth\":4}";

#[test]
fn get_missing_events_redacts_pre_membership_event() {
    let serve = |origin: &str, visibility: &str| {
        get_missing_events(
            &room_of("@r:remote.example", false),
            "!residency:local",
            origin,
            &missing(&[], &["$child"], None),
            |id: &str| match id {
                "$child" => stored(CHILD, &["$msg"], None),
                "$msg" => message_at(visibility, None),
                _ => None,
            },
            redacted,
        )
    };
    let reply = serve(ORIGIN, "joined").unwrap();
    let events = reply.array_at("events").unwrap();
    assert_eq!(events.len(), 1, "only the gap event should be returned");
    assert_eq!(events[0].str_within("content", "body"), None);
    let reply = serve(ORIGIN, "shared").unwrap();
    assert_eq!(reply.array_at("events").unwrap()[0].str_within("content", "body"), Some("secret"));
    assert_eq!(serve("evil.example", "shared").unwrap_err(), 403);
}

#[test]
fn nothing_is_served_of_unknown_or_other_rooms() {
    let room = room_of("@r:remote.example", false);
    let lookup = |id: &str| if id == "$msg" { message_at("shared", None) } else { None };
    let serve = |room: &Option<RoomFacts>, room_id: &str| {
        get_backfill(room, room_id, ORIGIN, Some("v=$msg"), "local", 7, lookup, redacted)
    };
    assert_eq!(serve(&None, "!residency:local").unwrap_err(), 403);
    assert!(serve(&room, "!other:local").unwrap().array_at("pdus").unwrap().is_empty());
    assert_eq!(
        get_missing_events(&None, "!r", ORIGIN, &missing(&[], &["$x"], None), lookup, redacted).unwrap_err(),
        403
    );
    assert_eq!(get_backfill(&room, "!r", ORIGIN, None, "local", 7, lookup, redacted).unwrap_err(), 400);
    assert!(get_state(&None, "good", StateResult::Found((vec![], vec![]))).is_err());
}

#[test]
fn visibility_decides_by_state() {
    let hidden = |v: &str, m: Option<&str>| should_redact_for_origin(Some(&state_at_message(v, m)), ORIGIN);
    assert!(hidden("invited", None));
    assert!(!hidden("invited", Some("invite")));
    assert!(hidden("joined", Some("invite")));
    assert!(!hidden("world_readable", None));
    assert!(!should_redact_for_origin(None, ORIGIN));
    assert_eq!(find_history_visibility_in_state(&vec![]), "shared");
    assert_eq!(find_history_visibility_in_state(&state_at_message("joined", None)), "joined");
}

#[test]
fn backfill_queries_are_parsed() {
    assert_eq!(parse_backfill_query(Some("v=$a&v=$b")).unwrap().0, names(&["$a", "$b"]));
    assert_eq!(parse_backfill_query(Some("limit=5")).unwrap_err(), 400);
    assert_eq!(parse_backfill_query(None).unwrap_err(), 400);
    let (_, all) = parse_backfill_query(Some("v=$a&limit=100000")).unwrap();
    let (_, some) = parse_backfill_query(Some("v=$a&limit=99999")).unwrap();
    assert_eq!(all, some, "the limit is capped");
}

fn numbered(id: &str, prevs: &[&str]) -> Option<StoredEvent> {
    let depth = &id[1..];
    stored(&format!("{{\"room_id\":\"!r\",\"n\":\"{id}\",\"depth\":{depth}}}"), prevs, None)
}

fn numbers(reply: &Json, key: &str) -> Vec<String> {
    reply.array_at(key).unwrap().iter().map(|e| e.str_at("n").unwrap().to_string()).collect()
}

#[test]
fn backfill_walks_breadth_first() {
    let reply = get_backfill(
        &room_of("@a:good", false),
        "!r",
        "good",
        Some("v=$1&limit=3"),
        "us",
        7,
        |id: &str| match id {
            "$1" => numbered(id, &["$2", "$3"]),
            "$2" => numbered(id, &["$4"]),
            "$3" => numbered(id, &["$1"]),
            "$4" => numbered(id, &[]),
            _ => None,
        },
        redacted,
    )
    .unwrap();
    assert_eq!(numbers(&reply, "pdus"), names(&["$1", "$2", "$3"]));
}

#[test]
fn missing_events_stop_at_earliest() {
    let reply = get_missing_events(
        &room_of("@a:good", false),
        "!r",
        "good",
        &missing(&["$1"], &["$4"], Some(10)),
        |id: &str| match id {
            "$4" => numbered(id, &["$3"]),
            "$3" => numbered(id, &["$2", "$2"]),
            "$2" => numbered(id, &["$1"]),
            "$1" => numbered(id, &["$0"]),
            _ => numbered(id, &[]),
        },
        redacted,
    )
    .unwrap();
    assert_eq!(numbers(&reply, "events"), names(&["$2", "$3"]), "oldest first, each once");
}

#[test]
fn unreadable_chains_leave_the_state() {
    let ids = names(&["$s"]);
    let auth = |_: &str| -> Result<Option<Vec<String>>, String> { Ok(Some(vec![])) };
    let broken = |_: &str| -> Result<Option<Vec<String>>, String> { Err("disk".to_string()) };
    let load = |id: &str| Some(Json::text(id));
    assert!(state_auth_chain(&ids, broken, load).is_empty());
    assert!(state_auth_chain_ids(&ids, broken).is_empty());
    assert!(state_auth_chain(&ids, auth, load).is_empty());
    let parent = |id: &str| -> Result<Option<Vec<String>>, String> {
        Ok(Some(if id == "$s" { vec!["$p".to_string()] } else { vec![] }))
    };
    assert_eq!(state_auth_chain_ids(&ids, parent), names(&["$p"]));
    assert_eq!(state_auth_chain(&ids, parent, load)[0].as_str(), Some("$p"));
}

#[test]
fn state_is_for_resident_servers() {
    let room = room_of("@a:good", false);
    let found = || StateResult::Found((vec![json("{\"a\":1}")], vec![json("{\"b\":2}")]));
    assert_json(
        &get_state(&room, "good", found()).unwrap(),
        "{\"pdus\":[{\"a\":1}],\"auth_chain\":[{\"b\":2}]}",
    );
    assert_eq!(get_state(&room, "evil", found()).unwrap_err(), 403);
    assert!(get_state(&room, "good", StateResult::Crashed).is_err());
    assert!(get_state(&room, "good", StateResult::NoState).is_err());
    let ids = StateResult::Found((names(&["$s"]), names(&["$a"])));
    assert_json(
        &get_state_ids(&room, "good", &ids).unwrap(),
        "{\"pdu_ids\":[\"$s\"],\"auth_chain_ids\":[\"$a\"]}",
    );
    assert!(get_state_ids(&room_of("@a:good", true), "good", &ids).is_err());
    assert_json(
        &get_event_auth(&room, "good", Some(vec![json("{\"x\":1}")]), None).unwrap(),
        "{\"auth_chain\":[{\"x\":1}]}",
    );
    assert!(get_event_auth(&room, "evil", Some(vec![]), None).is_err());
    assert_eq!(create_event_id("!abc").as_deref(), Some("$abc"));
}

#[test]
fn state_is_served_for_events_of_the_room_alone() {
    let room = room_of("@a:good", false);
    let own = json("{\"room_id\":\"!r\",\"type\":\"m.room.message\"}");
    let foreign = json("{\"room_id\":\"!other\",\"type\":\"m.room.message\"}");
    let create = json("{\"type\":\"m.room.create\"}");
    assert_eq!(event_gate("!r", "$e", Some(&own)), None);
    assert_eq!(event_gate("!r", "$e", Some(&foreign)), Some(404));
    assert_eq!(event_gate("!r", "$e", None), Some(404));
    assert_eq!(event_gate("!r", "$r", Some(&create)), None);
    assert_eq!(event_gate("!r", "$x", Some(&create)), Some(404));
    let found = || StateResult::Found((vec![json("{\"a\":1}")], vec![]));
    let at = |origin: &str, event: Option<&Json>| serve_state(&room, origin, "!r", "$e", event, found());
    assert_json(&at("good", Some(&own)).unwrap(), "{\"pdus\":[{\"a\":1}],\"auth_chain\":[]}");
    assert_eq!(at("good", Some(&foreign)).unwrap_err(), 404);
    assert_eq!(at("good", None).unwrap_err(), 404);
    assert_eq!(at("evil", Some(&own)).unwrap_err(), 403);
    assert_eq!(at("evil", Some(&foreign)).unwrap_err(), 403);
    let ids = StateResult::Found((names(&["$s"]), names(&["$a"])));
    let ids_at = |event: Option<&Json>| serve_state_ids(&room, "good", "!r", "$e", event, &ids);
    assert_json(&ids_at(Some(&own)).unwrap(), "{\"pdu_ids\":[\"$s\"],\"auth_chain_ids\":[\"$a\"]}");
    assert_eq!(ids_at(Some(&foreign)).unwrap_err(), 404);
    let partial = room_of("@a:good", true);
    assert_eq!(serve_state_ids(&partial, "good", "!r", "$e", Some(&own), &ids).unwrap_err(), 403);
    let chain = |event: Option<&Json>| {
        serve_event_auth(&room, "good", "!r", "$e", event, Some(vec![json("{\"x\":1}")]), Some(&create))
    };
    assert_json(
        &chain(Some(&own)).unwrap(),
        "{\"auth_chain\":[{\"type\":\"m.room.create\"},{\"x\":1}]}",
    );
    assert_eq!(chain(Some(&foreign)).unwrap_err(), 404);
}

#[test]
fn directories_and_profiles_are_answered() {
    assert_json(
        &query_directory(&Ok(Some("!r".to_string())), "us").unwrap(),
        "{\"room_id\":\"!r\",\"servers\":[\"us\"]}",
    );
    assert_eq!(query_directory(&Ok(None), "us").unwrap_err(), 404);
    assert_eq!(query_directory(&Err("db".to_string()), "us").unwrap_err(), 500);
    let q = |user: &str, field: Option<&str>| ProfileQuery {
        user_id: user.to_string(),
        field: field.map(|s| s.to_string()),
    };
    let found = Ok(Some(json("{\"displayname\":\"A\",\"avatar_url\":\"mxc://a\",\"other\":1}")));
    assert_json(
        &query_profile(&q("@a:us", None), &found).unwrap(),
        "{\"displayname\":\"A\",\"avatar_url\":\"mxc://a\"}",
    );
    assert_json(
        &query_profile(&q("@a:us", Some("displayname")), &found).unwrap(),
        "{\"displayname\":\"A\"}",
    );
    assert_eq!(query_profile(&q("a:us", None), &found).unwrap_err(), 400);
    assert_eq!(query_profile(&q("@a:us:x", None), &found).unwrap_err(), 400);
    assert_eq!(query_profile(&q("@a:us", None), &Ok(None)).unwrap_err(), 404);
}

#[test]
fn public_rooms_are_searched_in_lower_case() {
    let mut req = FederationPublicRoomsRequest {
        limit: None,
        since: None,
        include_all_networks: None,
        third_party_instance_id: None,
        generic_search_term: None,
        filter: Some(FederationPublicRoomsFilter {
            generic_search_term: Some("ÄRGER Room".to_string()),
        }),
    };
    assert_eq!(public_rooms_search(true, &req).unwrap().as_deref(), Some("ärger room"));
    req.generic_search_term = Some("TOP".to_string());
    assert_eq!(public_rooms_search(true, &req).unwrap().as_deref(), Some("top"));
    assert_eq!(public_rooms_search(false, &req).unwrap_err(), 404);
    assert_json(
        &serve_federation_public_rooms(Some(vec![json("{}")])).unwrap(),
        "{\"chunk\":[{}],\"total_room_count_estimate\":1}",
    );
    assert_eq!(serve_federation_public_rooms(None).unwrap_err(), 500);
}
