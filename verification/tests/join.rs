use serde_json::Value;
use vela_federation::intake::PersistKind;
use vela_federation::join::collect_auth_chain;
use vela_federation::persist::Effect;
use vela_federation::json::Json;
use vela_federation::json::JsonNumber;
use vela_federation::invite::invite_v2;
use vela_federation::invite::persist_stripped;
use vela_federation::invite::InviteFacts;
use vela_federation::invite::InviteStep;
use vela_federation::join::make_join;
use vela_federation::join::make_join_reply;
use vela_federation::join::parse_supported_versions_pub;
use vela_federation::join::send_join_v1;
use vela_federation::join::send_join_v2;
use vela_federation::join::Extremity;
use vela_federation::join::MakeJoinFacts;
use vela_federation::join::MakeJoinStep;
use vela_federation::join::SendJoinFacts;
use vela_federation::join::SendJoinStep;
use vela_federation::keys::RemoteKeys;
use vela_federation::observers::Member;
use vela_federation::pdu::Pdu;
use vela_federation::table::TextMap;

fn from_value(v: &Value) -> Json {
    match v {
        Value::Null => Json::Null,
        Value::Bool(b) => Json::Bool(*b),
        Value::Number(n) => match (n.as_u64(), n.as_i64()) {
            (Some(u), _) => Json::Number(JsonNumber::Unsigned(u)),
            (None, Some(i)) => Json::Number(JsonNumber::Negative(i)),
            (None, None) => Json::Number(JsonNumber::Float(n.to_string())),
        },
        Value::String(s) => Json::text(s),
        Value::Array(a) => Json::array(a.iter().map(from_value).collect()),
        Value::Object(m) => {
            Json::object(m.iter().map(|(k, v)| (k.clone(), from_value(v))).collect())
        }
    }
}

fn json(s: &str) -> Json {
    from_value(&serde_json::from_str::<Value>(s).unwrap())
}

fn sorted(j: &Json) -> Json {
    match j {
        Json::Array(a) => Json::array(a.iter().map(sorted).collect()),
        Json::Object(m) => {
            let mut v: Vec<(String, Json)> = m.iter().map(|(k, v)| (k.clone(), sorted(v))).collect();
            v.sort_by(|a, b| a.0.cmp(&b.0));
            Json::object(v)
        }
        other => other.copy(),
    }
}

fn assert_json(got: &Json, want: &str) {
    assert_eq!(format!("{:?}", sorted(got)), format!("{:?}", sorted(&json(want))));
}

fn names(v: &[&str]) -> Vec<String> {
    v.iter().map(|s| s.to_string()).collect()
}

/// A room with join rules, a user who may be in its allow list, and a local
/// member who can vouch.
struct Room {
    acl: Option<&'static str>,
    rules: &'static str,
    membership: Option<u8>,
    in_allowed_room: bool,
    authoriser: Option<&'static str>,
}

enum Reply {
    Template(Json, bool),
    Refused(u16, Option<String>),
}

fn ask(room: Room, user: &str, query: Option<&str>) -> Reply {
    let mut f = MakeJoinFacts {
        room_id: "!restricted:example.com".to_string(),
        user_id: user.to_string(),
        origin: "remote.example".to_string(),
        versions: parse_supported_versions_pub(query),
        room: None,
        acl: None,
        join_rules: None,
        membership: None,
        qualifies: None,
        authoriser: None,
        auth_events: None,
        extremities: None,
        now: 1000,
    };
    for _ in 0..12 {
        match make_join(&f) {
            MakeJoinStep::LookupRoom => f.room = Some(Some(5)),
            MakeJoinStep::LoadAcl { room: 5 } => f.acl = Some(room.acl.map(json)),
            MakeJoinStep::LoadJoinRules { room: 5 } => f.join_rules = Some(Some(json(room.rules))),
            MakeJoinStep::LookupMembership { room: 5 } => f.membership = Some(Ok(room.membership)),
            MakeJoinStep::CheckAllowList { allow } => {
                assert_eq!(allow.len(), 1);
                f.qualifies = Some(Ok(room.in_allowed_room));
            }
            MakeJoinStep::PickAuthoriser { room: 5 } => {
                f.authoriser = Some(Ok(room.authoriser.map(|s| s.to_string())))
            }
            MakeJoinStep::SelectAuthEvents { content } => {
                assert_eq!(content.str_at("membership"), Some("join"));
                f.auth_events = Some(names(&["$create", "$rules"]));
            }
            MakeJoinStep::LoadExtremities { room: 5 } => {
                f.extremities = Some(Ok(vec![
                    Extremity { event_id: Some("$tip".to_string()), depth: Some(3) },
                    Extremity { event_id: None, depth: Some(7) },
                ]))
            }
            MakeJoinStep::Reply { template, sign } => return Reply::Template(template, sign),
            MakeJoinStep::Refuse(e) => {
                return Reply::Refused(e.status, e.body.str_at("errcode").map(|s| s.to_string()))
            }
            _ => panic!("an unknown room"),
        }
    }
    panic!("no answer");
}

const RESTRICTED: &str = "{\"join_rule\":\"restricted\",\"allow\":[{\"type\":\"m.room_membership\",\"room_id\":\"!gate:example.com\"}]}";

#[test]
fn make_join_picks_local_authoriser_for_restricted_room() {
    let room = Room {
        acl: None,
        rules: RESTRICTED,
        membership: None,
        in_allowed_room: true,
        authoriser: Some("@alice:example.com"),
    };
    match ask(room, "@bob:remote.example", Some("ver=12")) {
        Reply::Template(t, sign) => {
            assert_eq!(
                t.str_within("content", "join_authorised_via_users_server"),
                Some("@alice:example.com")
            );
            assert!(sign, "the template goes out signed by the authoriser's server");
            assert_eq!(t.u64_at("depth"), Some(8));
            let reply = make_join_reply(t);
            assert_eq!(reply.str_at("room_version"), Some("12"));
            assert!(reply.get("event").is_some());
        }
        Reply::Refused(code, _) => panic!("{code}"),
    }
}

#[test]
fn make_join_rejects_when_user_not_in_allow_list() {
    let room = Room {
        acl: None,
        rules: RESTRICTED,
        membership: None,
        in_allowed_room: false,
        authoriser: Some("@alice:example.com"),
    };
    assert!(matches!(ask(room, "@bob:remote.example", Some("ver=12")), Reply::Refused(403, _)));
}

#[test]
fn make_join_rejects_invite_only_rooms() {
    let room = Room {
        acl: None,
        rules: "{\"join_rule\":\"invite\"}",
        membership: None,
        in_allowed_room: false,
        authoriser: None,
    };
    assert!(matches!(ask(room, "@bob:remote.example", Some("ver=12")), Reply::Refused(403, _)));
}

#[test]
fn make_join_weighs_membership_and_version() {
    let public = |membership: Option<u8>| Room {
        acl: None,
        rules: "{\"join_rule\":\"public\"}",
        membership,
        in_allowed_room: false,
        authoriser: None,
    };
    match ask(public(None), "@bob:remote.example", Some("ver=11&ver=12")) {
        Reply::Template(t, sign) => {
            assert!(!sign);
            assert_json(
                &t,
                "{\"type\":\"m.room.member\",\"state_key\":\"@bob:remote.example\",\"sender\":\"@bob:remote.example\",\
                 \"room_id\":\"!restricted:example.com\",\"content\":{\"membership\":\"join\"},\"origin\":\"remote.example\",\
                 \"origin_server_ts\":1000,\"depth\":8,\"prev_events\":[\"$tip\"],\"auth_events\":[\"$create\",\"$rules\"]}",
            );
        }
        Reply::Refused(code, _) => panic!("{code}"),
    }
    assert!(matches!(ask(public(Some(3)), "@bob:remote.example", Some("ver=12")), Reply::Refused(403, _)));
    assert!(matches!(ask(public(None), "@bob:other.example", Some("ver=12")), Reply::Refused(403, _)));
    match ask(public(None), "@bob:remote.example", None) {
        Reply::Refused(400, Some(code)) => assert_eq!(code, "M_INCOMPATIBLE_ROOM_VERSION"),
        _ => panic!("only version 1 was named"),
    }
    let invited = Room {
        acl: None,
        rules: "{}",
        membership: Some(2),
        in_allowed_room: false,
        authoriser: None,
    };
    assert!(matches!(ask(invited, "@bob:remote.example", Some("ver=12")), Reply::Template(_, false)));
    let nobody = Room { acl: None, rules: RESTRICTED, membership: None, in_allowed_room: true, authoriser: None };
    match ask(nobody, "@bob:remote.example", Some("ver=12")) {
        Reply::Refused(403, Some(code)) => assert_eq!(code, "M_UNABLE_TO_GRANT_JOIN"),
        _ => panic!("nobody can vouch"),
    }
}

#[test]
fn versions_are_read_from_queries() {
    assert_eq!(parse_supported_versions_pub(None), names(&["1"]));
    assert_eq!(parse_supported_versions_pub(Some("")), names(&["1"]));
    assert_eq!(parse_supported_versions_pub(Some("ver=11&x=9&ver=12")), names(&["11", "12"]));
    assert_eq!(parse_supported_versions_pub(Some("ver=10%2C11,12")), names(&["10", "11", "12"]));
    assert_eq!(parse_supported_versions_pub(Some("ver=org.matrix+x")), names(&["org.matrix x"]));
}

fn keys() -> RemoteKeys {
    let mut verify_keys = TextMap::new();
    verify_keys.insert("ed25519:k", "KEY".to_string());
    RemoteKeys { verify_keys, old_verify_keys: TextMap::new(), valid_until_ts: 9, fetched_at: 1 }
}

fn joining() -> &'static str {
    "{\"type\":\"m.room.member\",\"sender\":\"@bob:remote\",\"state_key\":\"@bob:remote\",\"room_id\":\"!r\",\
     \"content\":{\"membership\":\"join\"},\"hashes\":{\"sha256\":\"H\"},\
     \"signatures\":{\"remote\":{\"ed25519:k\":\"S\"}},\"auth_events\":[\"$a\"]}"
}

fn pdu() -> Pdu {
    Pdu {
        event_id: "$join".to_string(),
        event_type: "m.room.member".to_string(),
        sender: "@bob:remote".to_string(),
        room_id: "!r".to_string(),
        state_key: Some("@bob:remote".to_string()),
        content: json("{\"membership\":\"join\"}"),
        prev_events: vec![],
        auth_events: names(&["$a"]),
        depth: 4,
        origin_server_ts: 5,
    }
}

fn submitted(body: Option<Json>) -> SendJoinFacts {
    SendJoinFacts {
        event_id: "$join".to_string(),
        origin: "remote".to_string(),
        body,
        sender_keys: None,
        sender_checks: vec![],
        voucher_keys: None,
        voucher_checks: vec![],
        room: None,
        acl: None,
        join_rules: None,
        membership: None,
        computed_id: None,
        content_hash: None,
        effective: None,
        current_membership: None,
        auth_found: vec![],
        auth_refusal: None,
        reply: None,
        stored: None,
        server_name: "us".to_string(),
        members: None,
        told: false,
    }
}

#[test]
fn servers_that_are_kept_out_get_no_template() {
    let room = |acl: &'static str| Room {
        acl: Some(acl),
        rules: "{\"join_rule\":\"public\"}",
        membership: None,
        in_allowed_room: false,
        authoriser: None,
    };
    assert!(matches!(
        ask(room("{\"allow\":[\"*\"],\"deny\":[\"*.example\"]}"), "@bob:remote.example", Some("ver=12")),
        Reply::Refused(403, Some(code)) if code == "M_FORBIDDEN"
    ));
    assert!(matches!(
        ask(room("{\"allow\":[\"remote.*\"]}"), "@bob:remote.example", Some("ver=12")),
        Reply::Template(_, false)
    ));
}

#[test]
fn joins_are_taken_in_step_by_step() {
    let mut f = submitted(Some(json(joining())));
    assert!(matches!(send_join_v2(&f), SendJoinStep::FetchKeys { server } if server == "remote"));
    f.sender_keys = Some(Some(keys()));
    assert!(matches!(
        send_join_v2(&f),
        SendJoinStep::VerifySignature { server, key_id, key }
            if server == "remote" && key_id == "ed25519:k" && key == "KEY"
    ));
    f.sender_checks = vec![true];
    assert!(matches!(send_join_v2(&f), SendJoinStep::LookupRoom));
    f.room = Some(Some(8));
    assert!(matches!(send_join_v2(&f), SendJoinStep::LoadAcl { room: 8 }));
    f.acl = Some(Some(json("{\"allow\":[\"*\"],\"deny\":[\"rem*\"]}")));
    assert!(matches!(
        send_join_v2(&f),
        SendJoinStep::Refuse(e) if e.status == 403 && e.body.str_at("error")
            == Some("server_acl: sender remote matches deny pattern rem*")
    ));
    f.acl = Some(Some(json("{\"allow\":[\"*\"],\"deny\":[\"evil\"]}")));
    assert!(matches!(send_join_v2(&f), SendJoinStep::LoadJoinRules { room: 8 }));
    f.join_rules = Some(Some(json("{\"join_rule\":\"public\"}")));
    assert!(matches!(send_join_v2(&f), SendJoinStep::LookupMembership { room: 8, .. }));
    f.membership = Some(Ok(None));
    assert!(matches!(send_join_v2(&f), SendJoinStep::ComputeId));
    f.computed_id = Some("$join".to_string());
    assert!(matches!(send_join_v2(&f), SendJoinStep::HashContent));
    f.content_hash = Some("H".to_string());
    assert!(matches!(send_join_v2(&f), SendJoinStep::ReadEffective { redacted: false }));
    f.effective = Some(Some(pdu()));
    assert!(matches!(send_join_v2(&f), SendJoinStep::LookupCurrentMembership { room: 8, .. }));
    f.current_membership = Some(Some("ban".to_string()));
    assert!(matches!(send_join_v2(&f), SendJoinStep::Refuse(e) if e.status == 403));
    f.current_membership = Some(None);
    assert!(matches!(send_join_v2(&f), SendJoinStep::LoadAuthEvent { event_id } if event_id == "$a"));
    f.auth_found = vec![true];
    assert!(matches!(send_join_v2(&f), SendJoinStep::CheckAuthEvents { room: 8 }));
    f.auth_refusal = Some(None);
    assert!(matches!(
        send_join_v2(&f),
        SendJoinStep::CollectState { room: 8, seeds } if seeds == vec!["$a".to_string()]
    ));
    f.reply = Some((vec![json("{\"c\":1}")], vec![json("{\"s\":1}")]));
    assert!(matches!(
        send_join_v2(&f),
        SendJoinStep::Store { room: 8, kind: PersistKind::Live, effects }
            if effects.len() == 5 && matches!(effects[1], Effect::SetMembership(1))
    ));
    f.stored = Some(None);
    assert!(matches!(send_join_v2(&f), SendJoinStep::LoadMembers { room: 8, user } if user == "@bob:remote"));
    let member = |nid: u64, id: &str| Member { nid, user_id: Some(id.to_string()) };
    f.members = Some(Some((7, vec![member(7, "@bob:remote"), member(1, "@a:us"), member(2, "@c:else")])));
    assert!(matches!(
        send_join_v2(&f),
        SendJoinStep::Tell { user: 7, observers } if observers == vec![1]
    ));
    f.told = true;
    match send_join_v2(&f) {
        SendJoinStep::Reply { body } => {
            assert_json(&body, "{\"auth_chain\":[{\"c\":1}],\"state\":[{\"s\":1}],\"event\":null}");
            let v1 = send_join_v1(body);
            assert_eq!(v1.as_array().unwrap()[0].as_u64(), Some(200));
        }
        _ => panic!("a reply is due"),
    }
}

#[test]
fn auth_chains_of_joins_start_with_their_seeds() {
    let auth = |id: &str| -> Result<Option<Vec<String>>, String> {
        Ok(Some(match id {
            "$b" => vec!["$c".to_string(), "$a".to_string()],
            "$a" => vec!["$c".to_string()],
            _ => vec![],
        }))
    };
    let load = |id: &str| if id == "$c" { None } else { Some(Json::text(id)) };
    let seeds: Vec<String> = ["$b", "$a", "$b"].iter().map(|s| s.to_string()).collect();
    let chain = collect_auth_chain(&seeds, auth, load);
    let ids: Vec<&str> = chain.iter().filter_map(|e| e.as_str()).collect();
    assert_eq!(ids, vec!["$b", "$a"]);
    let whole = collect_auth_chain(&seeds, auth, |id: &str| Some(Json::text(id)));
    let ids: Vec<&str> = whole.iter().filter_map(|e| e.as_str()).collect();
    assert_eq!(ids, vec!["$b", "$a", "$c"]);
    let unreadable = |_: &str| -> Result<Option<Vec<String>>, String> { Err("disk".to_string()) };
    assert!(collect_auth_chain(&seeds, unreadable, load).is_empty());
}

#[test]
fn malformed_joins_are_refused() {
    let refused = |j: Option<Json>| match send_join_v2(&submitted(j)) {
        SendJoinStep::Refuse(e) => (e.status, e.body.str_at("error").unwrap().to_string()),
        _ => panic!("a refusal is due"),
    };
    assert_eq!(refused(None), (400, "empty send_join body".to_string()));
    assert_eq!(refused(Some(json("3"))), (400, "event is not an object".to_string()));
    assert_eq!(refused(Some(json("{}"))), (400, "missing type".to_string()));
    assert_eq!(
        refused(Some(json("{\"type\":\"m.room.name\"}"))),
        (400, "send_join event must be m.room.member".to_string())
    );
    let text = joining().replace("\"sender\":\"@bob:remote\"", "\"sender\":\"@eve:remote\"");
    assert_eq!(refused(Some(json(&text))), (400, "sender must equal state_key".to_string()));
    let text = joining().replace("@bob:remote", "@bob:other");
    assert_eq!(refused(Some(json(&text))), (403, "sender domain does not match origin".to_string()));
}

#[test]
fn vouched_joins_need_two_signatures() {
    let text = joining().replace(
        "{\"membership\":\"join\"}",
        "{\"membership\":\"join\",\"join_authorised_via_users_server\":\"@v:us\"}",
    );
    let mut f = submitted(Some(json(&text)));
    f.sender_keys = Some(Some(keys()));
    f.sender_checks = vec![true];
    assert!(matches!(send_join_v2(&f), SendJoinStep::FetchKeys { server } if server == "us"));
    f.voucher_keys = Some(Some(keys()));
    assert!(matches!(send_join_v2(&f), SendJoinStep::Refuse(e) if e.status == 401));
}

#[test]
fn invites_are_checked_signed_and_stored() {
    let body = "{\"room_version\":\"12\",\"invite_room_state\":[{\"type\":\"m.room.name\"}],\
        \"event\":{\"type\":\"m.room.member\",\"sender\":\"@a:remote\",\"state_key\":\"@b:us\",\"room_id\":\"!r\",\
        \"content\":{\"membership\":\"invite\"},\"hashes\":{\"sha256\":\"H\"},\"signatures\":{\"remote\":{\"ed25519:k\":\"S\"}}}}";
    let mut f = InviteFacts {
        room_id: "!r".to_string(),
        event_id: "$i".to_string(),
        origin: "remote".to_string(),
        server_name: "us".to_string(),
        body: None,
        version: None,
        acl: None,
        sender_keys: None,
        sig_checks: vec![],
        computed_id: None,
        content_hash: None,
        signed: None,
        prepared: None,
        stripped_stored: false,
        readable: None,
        stored: None,
    };
    assert!(matches!(invite_v2(&f), InviteStep::Refuse(e) if e.status == 400));
    f.body = Some(json(body));
    for _ in 0..14 {
        match invite_v2(&f) {
            InviteStep::CheckVersion { version } => {
                assert_eq!(version, "12");
                f.version = Some(vela_federation::invite::VersionSupport::Supported);
            }
            InviteStep::LoadAcl => {
                f.acl = Some(Some(json("{\"allow\":[\"us\"]}")));
                assert!(matches!(
                    invite_v2(&f),
                    InviteStep::Refuse(e) if e.status == 403 && e.body.str_at("error")
                        == Some("server_acl: sender remote matches no allow pattern")
                ));
                f.acl = Some(None);
            }
            InviteStep::FetchKeys { server } => {
                assert_eq!(server, "remote");
                f.sender_keys = Some(Ok(keys()));
            }
            InviteStep::VerifySignature { .. } => f.sig_checks.push(true),
            InviteStep::ComputeId => f.computed_id = Some("$i".to_string()),
            InviteStep::HashContent => f.content_hash = Some("H".to_string()),
            InviteStep::Sign { redacted } => {
                assert!(!redacted);
                f.signed = Some(json("{\"signed\":true}"));
            }
            InviteStep::Prepare { .. } => f.prepared = Some(true),
            InviteStep::StoreStripped { events } => {
                assert_eq!(events.len(), 1);
                f.stripped_stored = true;
            }
            InviteStep::ReadFields => f.readable = Some(true),
            InviteStep::Store { user, kind, effects } => {
                assert_eq!(user, "@b:us");
                assert_eq!(kind, PersistKind::Live);
                assert!(matches!(
                    effects[..],
                    [Effect::SetMembership(2), Effect::NotifyUser, Effect::NotifyRoom]
                ));
                f.stored = Some(true);
            }
            InviteStep::Reply { body } => {
                assert_json(&body, "{\"event\":{\"signed\":true}}");
                return;
            }
            InviteStep::Refuse(e) => panic!("{e:?}"),
        }
    }
    panic!("no answer");
}

#[test]
fn stripped_state_gets_ids_of_its_own() {
    let s = persist_stripped(4, &json("{\"type\":\"m.room.name\",\"state_key\":\"\",\"sender\":\"@a:x\"}")).unwrap_or_else(|e| panic!("{e}"));
    assert_eq!(s.event_type, "m.room.name");
    assert_eq!(s.state_key, "");
    assert_eq!(s.sender, "@a:x");
    assert!(s.pseudo_id.starts_with("$invite-stripped:"));
}
