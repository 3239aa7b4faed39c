//! Joins by users of other servers: the template that a server asks for, and
//! the signed event that it sends back.

use vstd::prelude::*;
use vstd::string::*;

use crate::api::api_error;
use crate::api::db_err;
use crate::api::err_response;
use crate::api::ApiError;
use crate::api::ApiErrorView;
use crate::api::BAD_REQUEST;
use crate::api::FORBIDDEN;
use crate::api::INTERNAL_SERVER_ERROR;
use crate::api::NOT_FOUND;
use crate::api::UNAUTHORIZED;
use crate::auth_chain::answers_from;
use crate::auth_chain::auth_chain_of_seeds_pdu_json;
use crate::auth_chain::chain_of;
use crate::auth_chain::held;
use crate::auth_chain::in_chain;
use crate::auth_chain::is_chain_read;
use crate::auth_chain::is_unreadable;
use crate::auth_chain::reads_from;
use crate::auth_chain::AuthGraph;
use crate::auth_chain::AuthLookup;
use crate::auth_chain::StoredEvents;
use crate::auth_chain::AUTH_CHAIN_MAX;
use crate::intake::PersistKind;
use crate::json::json_of;
use crate::json::members;
use crate::json::put;
use crate::json::text_list;
use crate::json::values;
use crate::json::Json;
use crate::json::JsonView;
use crate::json::NumberView;
use crate::keys::next_signature;
use crate::keys::signature_search;
use crate::keys::text_pairs;
use crate::keys::RemoteKeys;
use crate::keys::SignatureStep;
use crate::keys::SignatureView;
use crate::observers::local_observers;
use crate::observers::locals_among;
use crate::observers::Member;
use crate::pdu::belongs_to;
use crate::pdu::domain_of;
use crate::pdu::id_belongs_to;
use crate::pdu::server_part;
use crate::pdu::Pdu;
use crate::pdu::PduView;
use crate::persist::effects;
use crate::persist::join_effects;
use crate::persist::persist_join_event;
use crate::persist::Effect;
use crate::persist::EffectView;
use crate::receive::declares_hash;
use crate::server_acl::acl_denial;
use crate::server_acl::acl_refusal;
use crate::server_acl::deny_if_blocked;
use crate::text::cat;
use crate::text::clone_list;
use crate::text::lemma_has_push;
use crate::text::lemma_texts_push;
use crate::text::list_has;
use crate::text::opt_string;
use crate::text::opt_text;
use crate::text::pieces;
use crate::text::split;
use crate::text::str_eq;
use crate::text::texts;
use crate::text::trim;
use crate::text::trimmed;

verus! {

/// The version of the rooms that federated joins are served for.
pub open spec fn served_version() -> Seq<char> {
    "12"@
}

/// The name and value pairs of a query string in the
/// `application/x-www-form-urlencoded` syntax, as `form_urlencoded::parse`
/// reads them.
pub uninterp spec fn query_pairs(query: Seq<char>) -> Seq<(Seq<char>, Seq<char>)>;

/// `form_urlencoded::parse`: the name and value pairs of a query string, in
/// order, with their percent signs and plus signs decoded. They depend on the
/// query string alone.
#[verifier::external_body]
fn parse_query(query: &str) -> (r: Vec<(String, String)>)
    ensures
        text_pairs(r@) == query_pairs(query@),
{
    form_urlencoded::parse(query.as_bytes()).into_owned().collect()
}

/// The versions among some comma-separated pieces: what is left of each without
/// white space, if anything.
pub open spec fn listed(p: Seq<Seq<char>>) -> Seq<Seq<char>>
    decreases p.len(),
{
    if p.len() == 0 {
        seq![]
    } else if trimmed(p.last()).len() == 0 {
        listed(p.drop_last())
    } else {
        listed(p.drop_last()).push(trimmed(p.last()))
    }
}

/// The versions that the `ver` parameters of a query list.
pub open spec fn ver_parameters(pairs: Seq<(Seq<char>, Seq<char>)>) -> Seq<Seq<char>>
    decreases pairs.len(),
{
    if pairs.len() == 0 {
        seq![]
    } else if pairs.last().0 == "ver"@ {
        ver_parameters(pairs.drop_last()) + listed(pieces(pairs.last().1, ','))
    } else {
        ver_parameters(pairs.drop_last())
    }
}

/// The room versions that a query lists; version 1 when it lists none.
pub open spec fn versions_of(pairs: Seq<(Seq<char>, Seq<char>)>) -> Seq<Seq<char>> {
    if ver_parameters(pairs).len() == 0 {
        seq!["1"@]
    } else {
        ver_parameters(pairs)
    }
}

/// The room versions that the pairs of a query list.
pub fn supported_versions(pairs: &Vec<(String, String)>) -> (r: Vec<String>)
    ensures
        texts(r@) == versions_of(text_pairs(pairs@)),
{
    let ghost ps = text_pairs(pairs@);
    let mut out: Vec<String> = Vec::new();
    let mut i: usize = 0;
    proof {
        assert(texts(out@) =~= seq![]);
        assert(ps.take(0) =~= seq![]);
    }
    while i < pairs.len()
        invariant
            i <= pairs.len(),
            ps == text_pairs(pairs@),
            texts(out@) == ver_parameters(ps.take(i as int)),
        decreases pairs.len() - i,
    {
        proof {
            assert(ps.take(i + 1).drop_last() =~= ps.take(i as int));
            assert(ps.take(i + 1).last() == (pairs@[i as int].0@, pairs@[i as int].1@));
        }
        if str_eq(pairs[i].0.as_str(), "ver") {
            let parts = split(pairs[i].1.as_str(), ',');
            let ghost t = texts(parts@);
            let ghost before = texts(out@);
            let mut j: usize = 0;
            proof {
                assert(t.take(0) =~= seq![]);
                assert(before + listed(t.take(0)) =~= before);
            }
            while j < parts.len()
                invariant
                    j <= parts.len(),
                    t == texts(parts@),
                    texts(out@) == before + listed(t.take(j as int)),
                decreases parts.len() - j,
            {
                proof {
                    assert(t.take(j + 1).drop_last() =~= t.take(j as int));
                    assert(t.take(j + 1).last() == parts@[j as int]@);
                }
                let piece = trim(parts[j].as_str());
                if !piece.is_empty() {
                    let s = piece.to_owned();
                    proof {
                        lemma_texts_push(out@, s);
                    }
                    out.push(s);
                    proof {
                        assert(texts(out@) =~= before + listed(t.take(j + 1)));
                    }
                }
                j += 1;
            }
            proof {
                assert(t.take(j as int) =~= t);
            }
        }
        i += 1;
    }
    proof {
        assert(ps.take(i as int) =~= ps);
        assert(texts(out@).len() == out@.len());
    }
    if out.len() == 0 {
        let s = "1".to_owned();
        proof {
            lemma_texts_push(out@, s);
            assert(seq![].push("1"@) =~= seq!["1"@]);
        }
        out.push(s);
    }
    out
}

/// The room versions that a query string lists, repeated or comma-separated;
/// version 1 when it lists none.
pub open spec fn query_versions(query: Option<Seq<char>>) -> Seq<Seq<char>> {
    match query {
        Some(q) => versions_of(query_pairs(q)),
        None => seq!["1"@],
    }
}

/// The room versions that a query string lists.
pub fn parse_supported_versions_pub(query: Option<&str>) -> (r: Vec<String>)
    ensures
        texts(r@) == query_versions(opt_text(query)),
{
    match query {
        Some(q) => {
            let pairs = parse_query(q);
            supported_versions(&pairs)
        },
        None => {
            let pairs: Vec<(String, String)> = Vec::new();
            proof {
                assert(text_pairs(pairs@) =~= seq![]);
            }
            supported_versions(&pairs)
        },
    }
}

/// A forward extremity of a room, as far as it could be read.
pub struct Extremity {
    pub event_id: Option<String>,
    pub depth: Option<u64>,
}

/// What is known so far about a request for a join template.
pub struct MakeJoinFacts {
    pub room_id: String,
    pub user_id: String,
    /// The server that asks.
    pub origin: String,
    /// The room versions that it supports.
    pub versions: Vec<String>,
    /// The number of the room, if it is known.
    pub room: Option<Option<u64>>,
    /// The content of the room's access control list.
    pub acl: Option<Option<Json>>,
    /// The content of the room's join rules.
    pub join_rules: Option<Option<Json>>,
    /// Whether the user could be looked up: what failed, or the membership
    /// tracked for them.
    pub membership: Option<Result<Option<u8>, String>>,
    /// Whether the user is in a room of the allow list.
    pub qualifies: Option<Result<bool, String>>,
    /// A local member who may invite.
    pub authoriser: Option<Result<Option<String>, String>>,
    /// The events that authorise the join.
    pub auth_events: Option<Vec<String>>,
    /// The room's forward extremities.
    pub extremities: Option<Result<Vec<Extremity>, String>>,
    /// The time, in milliseconds since the epoch.
    pub now: u64,
}

/// What to find out next about a request for a join template, or the reply.
pub enum MakeJoinStep {
    LookupRoom,
    LoadAcl { room: u64 },
    LoadJoinRules { room: u64 },
    LookupMembership { room: u64 },
    CheckAllowList { allow: Vec<Json> },
    PickAuthoriser { room: u64 },
    SelectAuthEvents { content: Json },
    LoadExtremities { room: u64 },
    /// The template; with `sign` it goes out hashed and signed.
    Reply { template: Json, sign: bool },
    Refuse(ApiError),
}

pub enum MakeJoinView {
    LookupRoom,
    LoadAcl { room: u64 },
    LoadJoinRules { room: u64 },
    LookupMembership { room: u64 },
    CheckAllowList { allow: Seq<JsonView> },
    PickAuthoriser { room: u64 },
    SelectAuthEvents { content: JsonView },
    LoadExtremities { room: u64 },
    Reply { template: JsonView, sign: bool },
    Refuse(ApiErrorView),
}

impl MakeJoinStep {
    pub open spec fn view(&self) -> MakeJoinView {
        match self {
            MakeJoinStep::LookupRoom => MakeJoinView::LookupRoom,
            MakeJoinStep::LoadAcl { room } => MakeJoinView::LoadAcl { room: *room },
            MakeJoinStep::LoadJoinRules { room } => MakeJoinView::LoadJoinRules { room: *room },
            MakeJoinStep::LookupMembership { room } => MakeJoinView::LookupMembership {
                room: *room,
            },
            MakeJoinStep::CheckAllowList { allow } => MakeJoinView::CheckAllowList {
                allow: values(allow@),
            },
            MakeJoinStep::PickAuthoriser { room } => MakeJoinView::PickAuthoriser { room: *room },
            MakeJoinStep::SelectAuthEvents { content } => MakeJoinView::SelectAuthEvents {
                content: content@,
            },
            MakeJoinStep::LoadExtremities { room } => MakeJoinView::LoadExtremities {
                room: *room,
            },
            MakeJoinStep::Reply { template, sign } => MakeJoinView::Reply {
                template: template@,
                sign: *sign,
            },
            MakeJoinStep::Refuse(e) => MakeJoinView::Refuse(e@),
        }
    }
}

/// The join rule that some content states; without one a room is invite-only.
pub open spec fn join_rule(content: Option<JsonView>) -> Seq<char> {
    match content {
        Some(c) => match c.str_at("join_rule"@) {
            Some(r) => r,
            None => "invite"@,
        },
        None => "invite"@,
    }
}

pub open spec fn is_restricted(rule: Seq<char>) -> bool {
    rule == "restricted"@ || rule == "knock_restricted"@
}

/// Whether a user may join under a rule: anyone may join a public room, a
/// restricted room has conditions of its own, every other room needs an invite.
pub open spec fn may_join(rule: Seq<char>, membership: Option<u8>) -> bool {
    rule == "public"@ || is_restricted(rule) || membership == Some(2u8)
}

/// The rooms whose members a restricted room admits.
pub open spec fn allow_list(content: Option<JsonView>) -> Seq<JsonView> {
    match content {
        Some(c) => match c.array_at("allow"@) {
            Some(a) => a,
            None => seq![],
        },
        None => seq![],
    }
}

pub open spec fn rules_view(f: MakeJoinFacts) -> Option<JsonView> {
    match f.join_rules {
        Some(Some(c)) => Some(c@),
        _ => None,
    }
}

/// The content of a join, with the member that vouches for it in a restricted
/// room.
pub open spec fn join_content(authoriser: Option<Seq<char>>) -> JsonView {
    match authoriser {
        None => JsonView::Object(seq![("membership"@, JsonView::Str("join"@))]),
        Some(a) => JsonView::Object(
            seq![
                ("membership"@, JsonView::Str("join"@)),
                ("join_authorised_via_users_server"@, JsonView::Str(a)),
            ],
        ),
    }
}

/// The ids of the extremities that could be read.
pub open spec fn extremity_ids(v: Seq<Extremity>) -> Seq<Seq<char>>
    decreases v.len(),
{
    if v.len() == 0 {
        seq![]
    } else {
        match v.last().event_id {
            Some(id) => extremity_ids(v.drop_last()).push(id@),
            None => extremity_ids(v.drop_last()),
        }
    }
}

/// The depth of the deepest extremity.
pub open spec fn max_depth(v: Seq<Extremity>) -> u64
    decreases v.len(),
{
    if v.len() == 0 {
        0
    } else {
        match v.last().depth {
            Some(d) => if d > max_depth(v.drop_last()) {
                d
            } else {
                max_depth(v.drop_last())
            },
            None => max_depth(v.drop_last()),
        }
    }
}

/// One more than a depth, as far as depths go.
pub open spec fn next_depth(depth: u64) -> u64 {
    if depth == u64::MAX {
        u64::MAX
    } else {
        (depth + 1) as u64
    }
}

/// The template of a join: an event of the user that follows the room's
/// extremities.
pub open spec fn join_template(
    f: MakeJoinFacts,
    content: JsonView,
    auth_events: Seq<Seq<char>>,
    extremities: Seq<Extremity>,
) -> JsonView {
    JsonView::Object(
        seq![
            ("type"@, JsonView::Str("m.room.member"@)),
            ("state_key"@, JsonView::Str(f.user_id@)),
            ("sender"@, JsonView::Str(f.user_id@)),
            ("room_id"@, JsonView::Str(f.room_id@)),
            ("content"@, content),
            ("origin"@, JsonView::Str(f.origin@)),
            ("origin_server_ts"@, JsonView::Number(NumberView::Unsigned(f.now))),
            (
                "depth"@,
                JsonView::Number(NumberView::Unsigned(next_depth(max_depth(extremities)))),
            ),
            ("prev_events"@, text_list(extremity_ids(extremities))),
            ("auth_events"@, text_list(auth_events)),
        ],
    )
}

/// The refusal for a server that does not support the room's version.
pub open spec fn incompatible_version() -> ApiErrorView {
    ApiErrorView {
        status: BAD_REQUEST,
        body: JsonView::Object(
            seq![
                ("errcode"@, JsonView::Str("M_INCOMPATIBLE_ROOM_VERSION"@)),
                (
                    "error"@,
                    JsonView::Str("room is v12; requesting server does not list 12 in ver"@),
                ),
                ("room_version"@, JsonView::Str(served_version())),
            ],
        ),
    }
}

pub open spec fn forbidden(msg: Seq<char>) -> MakeJoinView {
    MakeJoinView::Refuse(api_error(FORBIDDEN, "M_FORBIDDEN"@, msg))
}

pub open spec fn store_failed(e: Seq<char>) -> ApiErrorView {
    api_error(INTERNAL_SERVER_ERROR, "M_UNKNOWN"@, "db: "@ + e)
}

/// How the member that vouches for a join is found: nobody has to in a room
/// that is not restricted; in a restricted one the user must be in a room of
/// the allow list, and a local member must be able to invite.
pub open spec fn vouch(f: MakeJoinFacts, room: u64) -> Result<Option<Seq<char>>, MakeJoinView> {
    if !is_restricted(join_rule(rules_view(f))) {
        Ok(None)
    } else {
        match f.qualifies {
            None => Err(MakeJoinView::CheckAllowList { allow: allow_list(rules_view(f)) }),
            Some(Err(e)) => Err(MakeJoinView::Refuse(store_failed(e@))),
            Some(Ok(false)) => Err(forbidden("user is not a member of any allow-list room"@)),
            Some(Ok(true)) => match f.authoriser {
                None => Err(MakeJoinView::PickAuthoriser { room }),
                Some(Err(e)) => Err(MakeJoinView::Refuse(store_failed(e@))),
                Some(Ok(None)) => Err(
                    MakeJoinView::Refuse(
                        api_error(
                            FORBIDDEN,
                            "M_UNABLE_TO_GRANT_JOIN"@,
                            "no local member with invite power to authorise join"@,
                        ),
                    ),
                ),
                Some(Ok(Some(a))) => Ok(Some(a@)),
            },
        }
    }
}

/// The template, once it is clear that the user may join.
pub open spec fn template_next(
    f: MakeJoinFacts,
    room: u64,
    authoriser: Option<Seq<char>>,
) -> MakeJoinView {
    match f.auth_events {
        None => MakeJoinView::SelectAuthEvents { content: join_content(authoriser) },
        Some(auth) => match f.extremities {
            None => MakeJoinView::LoadExtremities { room },
            Some(Err(e)) => MakeJoinView::Refuse(store_failed(e@)),
            Some(Ok(ext)) => MakeJoinView::Reply {
                template: join_template(f, join_content(authoriser), texts(auth@), ext@),
                sign: authoriser is Some,
            },
        },
    }
}

/// How a request for a join template is answered.
pub open spec fn make_join_next(f: MakeJoinFacts) -> MakeJoinView {
    if !texts(f.versions@).contains(served_version()) {
        MakeJoinView::Refuse(incompatible_version())
    } else if !belongs_to(f.user_id@, f.origin@) {
        forbidden("userId does not belong to origin"@)
    } else {
        match f.room {
            None => MakeJoinView::LookupRoom,
            Some(None) => MakeJoinView::Refuse(
                api_error(NOT_FOUND, "M_NOT_FOUND"@, "room not known locally"@),
            ),
            Some(Some(room)) => match f.acl {
                None => MakeJoinView::LoadAcl { room },
                Some(acl) => match acl_denial(json_of(acl), f.origin@) {
                    Some(e) => MakeJoinView::Refuse(e),
                    None => admitted_next(f, room),
                },
            },
        }
    }
}

/// How a request of a server that may act in the room is answered.
pub open spec fn admitted_next(f: MakeJoinFacts, room: u64) -> MakeJoinView {
    if f.join_rules is None {
        MakeJoinView::LoadJoinRules { room }
    } else {
        match f.membership {
            None => MakeJoinView::LookupMembership { room },
            Some(Err(e)) => MakeJoinView::Refuse(store_failed(e@)),
            Some(Ok(membership)) => if !may_join(join_rule(rules_view(f)), membership) {
                forbidden("room is invite-only or knock-only; federation make_join not allowed"@)
            } else if membership == Some(3u8) {
                forbidden("user is banned"@)
            } else {
                match vouch(f, room) {
                    Err(step) => step,
                    Ok(authoriser) => template_next(f, room, authoriser),
                }
            },
        }
    }
}

fn refuse_forbidden(msg: &str) -> (r: MakeJoinStep)
    ensures
        r@ == forbidden(msg@),
{
    MakeJoinStep::Refuse(err_response(FORBIDDEN, "M_FORBIDDEN", msg))
}

fn refuse_version() -> (r: ApiError)
    ensures
        r@ == incompatible_version(),
{
    let mut m: Vec<(String, Json)> = Vec::new();
    put(&mut m, "errcode", Json::text("M_INCOMPATIBLE_ROOM_VERSION"));
    put(
        &mut m,
        "error",
        Json::text("room is v12; requesting server does not list 12 in ver"),
    );
    put(&mut m, "room_version", Json::text("12"));
    proof {
        assert(members(m@) =~= incompatible_version().body->Object_0);
    }
    ApiError { status: BAD_REQUEST, body: Json::object(m) }
}

/// The join rule that some content states.
pub fn read_join_rule(content: Option<&Json>) -> (r: String)
    ensures
        r@ == join_rule(
            match content {
                Some(c) => Some(c@),
                None => None,
            },
        ),
{
    match content {
        Some(c) => match c.str_at("join_rule") {
            Some(r) => r.to_owned(),
            None => "invite".to_owned(),
        },
        None => "invite".to_owned(),
    }
}

fn restricted(rule: &str) -> (r: bool)
    ensures
        r == is_restricted(rule@),
{
    str_eq(rule, "restricted") || str_eq(rule, "knock_restricted")
}

fn admits(rule: &str, membership: Option<u8>) -> (r: bool)
    ensures
        r == may_join(rule@, membership),
{
    let invited = match membership {
        Some(2) => true,
        _ => false,
    };
    str_eq(rule, "public") || restricted(rule) || invited
}

fn member_content(authoriser: Option<&str>) -> (r: Json)
    ensures
        r@ == join_content(opt_text(authoriser)),
{
    let mut m: Vec<(String, Json)> = Vec::new();
    put(&mut m, "membership", Json::text("join"));
    match authoriser {
        Some(a) => {
            put(&mut m, "join_authorised_via_users_server", Json::text(a));
        },
        None => {},
    }
    proof {
        assert(members(m@) =~= join_content(opt_text(authoriser))->Object_0);
    }
    Json::object(m)
}

fn build_template(
    f: &MakeJoinFacts,
    content: Json,
    auth_events: &Vec<String>,
    ext: &Vec<Extremity>,
) -> (r: Json)
    ensures
        r@ == join_template(*f, content@, texts(auth_events@), ext@),
{
    let mut ids: Vec<String> = Vec::new();
    let mut depth: u64 = 0;
    let mut i: usize = 0;
    proof {
        assert(texts(ids@) =~= seq![]);
        assert(ext@.take(0) =~= seq![]);
    }
    while i < ext.len()
        invariant
            i <= ext.len(),
            texts(ids@) == extremity_ids(ext@.take(i as int)),
            depth == max_depth(ext@.take(i as int)),
        decreases ext.len() - i,
    {
        proof {
            assert(ext@.take(i + 1).drop_last() =~= ext@.take(i as int));
            assert(ext@.take(i + 1).last() == ext@[i as int]);
        }
        match ext[i].depth {
            Some(d) => {
                if d > depth {
                    depth = d;
                }
            },
            None => {},
        }
        match &ext[i].event_id {
            Some(id) => {
                let s = id.clone();
                proof {
                    lemma_texts_push(ids@, s);
                }
                ids.push(s);
            },
            None => {},
        }
        i += 1;
    }
    proof {
        assert(ext@.take(i as int) =~= ext@);
    }
    let ghost content_view = content@;
    let mut m: Vec<(String, Json)> = Vec::new();
    put(&mut m, "type", Json::text("m.room.member"));
    put(&mut m, "state_key", Json::text(f.user_id.as_str()));
    put(&mut m, "sender", Json::text(f.user_id.as_str()));
    put(&mut m, "room_id", Json::text(f.room_id.as_str()));
    put(&mut m, "content", content);
    put(&mut m, "origin", Json::text(f.origin.as_str()));
    put(&mut m, "origin_server_ts", Json::number(f.now));
    put(&mut m, "depth", Json::number(depth.saturating_add(1)));
    put(&mut m, "prev_events", Json::text_array(&ids));
    put(&mut m, "auth_events", Json::text_array(auth_events));
    proof {
        assert(members(m@) =~= join_template(
            *f,
            content_view,
            texts(auth_events@),
            ext@,
        )->Object_0);
    }
    Json::object(m)
}

fn find_voucher(f: &MakeJoinFacts, room: u64) -> (r: Result<Option<String>, MakeJoinStep>)
    ensures
        match r {
            Ok(a) => vouch(*f, room) == Ok::<Option<Seq<char>>, MakeJoinView>(
                match a {
                    Some(s) => Some(s@),
                    None => None,
                },
            ),
            Err(s) => vouch(*f, room) == Err::<Option<Seq<char>>, MakeJoinView>(s@),
        },
{
    let rules = match &f.join_rules {
        Some(Some(c)) => Some(c),
        _ => None,
    };
    let rule = read_join_rule(rules);
    if !restricted(rule.as_str()) {
        return Ok(None);
    }
    match &f.qualifies {
        None => {
            let allow: Vec<Json> = match rules {
                Some(c) => match c.array_at("allow") {
                    Some(a) => copy_values(a),
                    None => Vec::new(),
                },
                None => Vec::new(),
            };
            proof {
                assert(values(allow@) =~= allow_list(rules_view(*f)));
            }
            Err(MakeJoinStep::CheckAllowList { allow })
        },
        Some(Err(e)) => Err(MakeJoinStep::Refuse(db_err(e.as_str()))),
        Some(Ok(false)) => Err(refuse_forbidden("user is not a member of any allow-list room")),
        Some(Ok(true)) => match &f.authoriser {
            None => Err(MakeJoinStep::PickAuthoriser { room }),
            Some(Err(e)) => Err(MakeJoinStep::Refuse(db_err(e.as_str()))),
            Some(Ok(None)) => Err(
                MakeJoinStep::Refuse(
                    err_response(
                        FORBIDDEN,
                        "M_UNABLE_TO_GRANT_JOIN",
                        "no local member with invite power to authorise join",
                    ),
                ),
            ),
            Some(Ok(Some(a))) => Ok(Some(a.clone())),
        },
    }
}

/// A copy of a list of JSON values.
pub fn copy_values(v: &Vec<Json>) -> (r: Vec<Json>)
    ensures
        values(r@) == values(v@),
{
    let mut out: Vec<Json> = Vec::new();
    let mut i: usize = 0;
    while i < v.len()
        invariant
            i <= v.len(),
            values(out@) =~= values(v@).take(i as int),
        decreases v.len() - i,
    {
        let x = v[i].copy();
        proof {
            crate::json::lemma_values_push(out@, x);
            assert(values(v@).take(i + 1) =~= values(v@).take(i as int).push(x@));
        }
        out.push(x);
        i += 1;
    }
    proof {
        assert(values(v@).take(i as int) =~= values(v@));
    }
    out
}

/// Names what to find out next about a request for a join template, or the
/// reply.
pub fn make_join(f: &MakeJoinFacts) -> (r: MakeJoinStep)
    ensures
        r@ == make_join_next(*f),
{
    if !list_has(&f.versions, "12") {
        return MakeJoinStep::Refuse(refuse_version());
    }
    if !id_belongs_to(f.user_id.as_str(), f.origin.as_str()) {
        return refuse_forbidden("userId does not belong to origin");
    }
    let room = match f.room {
        None => {
            return MakeJoinStep::LookupRoom;
        },
        Some(None) => {
            return MakeJoinStep::Refuse(
                err_response(NOT_FOUND, "M_NOT_FOUND", "room not known locally"),
            );
        },
        Some(Some(n)) => n,
    };
    match &f.acl {
        None => {
            return MakeJoinStep::LoadAcl { room };
        },
        Some(acl) => match deny_if_blocked(acl.as_ref(), f.origin.as_str()) {
            Err(e) => {
                return MakeJoinStep::Refuse(e);
            },
            Ok(_) => {},
        },
    }
    let rule = match &f.join_rules {
        None => {
            return MakeJoinStep::LoadJoinRules { room };
        },
        Some(c) => read_join_rule(c.as_ref()),
    };
    let membership = match &f.membership {
        None => {
            return MakeJoinStep::LookupMembership { room };
        },
        Some(Err(e)) => {
            return MakeJoinStep::Refuse(db_err(e.as_str()));
        },
        Some(Ok(m)) => *m,
    };
    if !admits(rule.as_str(), membership) {
        return refuse_forbidden(
            "room is invite-only or knock-only; federation make_join not allowed",
        );
    }
    match membership {
        Some(3) => {
            return refuse_forbidden("user is banned");
        },
        _ => {},
    }
    let authoriser = match find_voucher(f, room) {
        Ok(a) => a,
        Err(s) => {
            return s;
        },
    };
    let voucher = match &authoriser {
        Some(a) => Some(a.as_str()),
        None => None,
    };
    let content = member_content(voucher);
    let auth = match &f.auth_events {
        None => {
            return MakeJoinStep::SelectAuthEvents { content };
        },
        Some(a) => a,
    };
    match &f.extremities {
        None => MakeJoinStep::LoadExtremities { room },
        Some(Err(e)) => MakeJoinStep::Refuse(db_err(e.as_str())),
        Some(Ok(ext)) => MakeJoinStep::Reply {
            template: build_template(f, content, auth, ext),
            sign: authoriser.is_some(),
        },
    }
}

/// The reply to a request for a join template.
pub fn make_join_reply(template: Json) -> (r: Json)
    ensures
        r@ == JsonView::Object(
            seq![("room_version"@, JsonView::Str(served_version())), ("event"@, template@)],
        ),
{
    let ghost t = template@;
    let mut m: Vec<(String, Json)> = Vec::new();
    put(&mut m, "room_version", Json::text("12"));
    put(&mut m, "event", template);
    proof {
        assert(members(m@) =~= seq![
            ("room_version"@, JsonView::Str(served_version())),
            ("event"@, t),
        ]);
    }
    Json::object(m)
}

/// What is known so far about a join that a server submits.
pub struct SendJoinFacts {
    /// The id under which the event is submitted.
    pub event_id: String,
    /// The server that submits it.
    pub origin: String,
    /// The event.
    pub body: Option<Json>,
    /// The keys of the submitting server, if they could be had.
    pub sender_keys: Option<Option<RemoteKeys>>,
    /// For each of its signatures that can be checked, whether it verified.
    pub sender_checks: Vec<bool>,
    /// The keys of the server that vouches, if they could be had.
    pub voucher_keys: Option<Option<RemoteKeys>>,
    /// For each of its signatures that can be checked, whether it verified.
    pub voucher_checks: Vec<bool>,
    /// The number of the room, if it is known.
    pub room: Option<Option<u64>>,
    /// The content of the room's access control list.
    pub acl: Option<Option<Json>>,
    /// The content of the room's join rules.
    pub join_rules: Option<Option<Json>>,
    /// What failed in looking the user up, or the membership tracked for them.
    pub membership: Option<Result<Option<u8>, String>>,
    /// The id that the event's hash gives it.
    pub computed_id: Option<String>,
    /// The hash of the event's content.
    pub content_hash: Option<String>,
    /// The fields of the event as it counts: redacted if its hash is wrong.
    pub effective: Option<Option<Pdu>>,
    /// The user's membership in the room's current state.
    pub current_membership: Option<Option<String>>,
    /// For each auth event, whether it is stored.
    pub auth_found: Vec<bool>,
    /// The verdict of the rules over the auth events: the reason of a refusal.
    pub auth_refusal: Option<Option<String>>,
    /// The auth chain and the state before the join.
    pub reply: Option<(Vec<Json>, Vec<Json>)>,
    /// The result of storing the event: what failed, if anything.
    pub stored: Option<Option<String>>,
    /// The name of this server.
    pub server_name: String,
    /// The number of the user and the members of the room after the join, if
    /// they could be read.
    pub members: Option<Option<(u64, Vec<Member>)>>,
    /// Whether the local users in the room were told of the user.
    pub told: bool,
}

/// What to find out or to do next about a join that a server submits, or the
/// reply.
pub enum SendJoinStep {
    FetchKeys { server: String },
    VerifySignature { server: String, key_id: String, key: String },
    LookupRoom,
    LoadAcl { room: u64 },
    LoadJoinRules { room: u64 },
    LookupMembership { room: u64, user: String },
    ComputeId,
    HashContent,
    ReadEffective { redacted: bool },
    LookupCurrentMembership { room: u64, user: String },
    LoadAuthEvent { event_id: String },
    CheckAuthEvents { room: u64 },
    /// Collect the auth chain of an event with these auth events, as
    /// [`collect_auth_chain`] does, and the state before the join.
    CollectState { room: u64, seeds: Vec<String> },
    /// Store the event in this way, and do what that entails.
    Store { room: u64, kind: PersistKind, effects: Vec<Effect> },
    /// Read the members of the room.
    LoadMembers { room: u64, user: String },
    /// Tell local users that the user's keys are new to them.
    Tell { user: u64, observers: Vec<u64> },
    Reply { body: Json },
    Refuse(ApiError),
}

pub enum SendJoinView {
    FetchKeys { server: Seq<char> },
    VerifySignature { server: Seq<char>, key_id: Seq<char>, key: Seq<char> },
    LookupRoom,
    LoadAcl { room: u64 },
    LoadJoinRules { room: u64 },
    LookupMembership { room: u64, user: Seq<char> },
    ComputeId,
    HashContent,
    ReadEffective { redacted: bool },
    LookupCurrentMembership { room: u64, user: Seq<char> },
    LoadAuthEvent { event_id: Seq<char> },
    CheckAuthEvents { room: u64 },
    CollectState { room: u64, seeds: Seq<Seq<char>> },
    Store { room: u64, kind: PersistKind, effects: Seq<EffectView> },
    LoadMembers { room: u64, user: Seq<char> },
    Tell { user: u64, observers: Seq<u64> },
    Reply { body: JsonView },
    Refuse(ApiErrorView),
}

impl SendJoinStep {
    pub open spec fn view(&self) -> SendJoinView {
        match self {
            SendJoinStep::FetchKeys { server } => SendJoinView::FetchKeys { server: server@ },
            SendJoinStep::VerifySignature { server, key_id, key } =>
                SendJoinView::VerifySignature { server: server@, key_id: key_id@, key: key@ },
            SendJoinStep::LookupRoom => SendJoinView::LookupRoom,
            SendJoinStep::LoadAcl { room } => SendJoinView::LoadAcl { room: *room },
            SendJoinStep::LoadJoinRules { room } => SendJoinView::LoadJoinRules { room: *room },
            SendJoinStep::LookupMembership { room, user } => SendJoinView::LookupMembership {
                room: *room,
                user: user@,
            },
            SendJoinStep::ComputeId => SendJoinView::ComputeId,
            SendJoinStep::HashContent => SendJoinView::HashContent,
            SendJoinStep::ReadEffective { redacted } => SendJoinView::ReadEffective {
                redacted: *redacted,
            },
            SendJoinStep::LookupCurrentMembership { room, user } =>
                SendJoinView::LookupCurrentMembership { room: *room, user: user@ },
            SendJoinStep::LoadAuthEvent { event_id } => SendJoinView::LoadAuthEvent {
                event_id: event_id@,
            },
            SendJoinStep::CheckAuthEvents { room } => SendJoinView::CheckAuthEvents {
                room: *room,
            },
            SendJoinStep::CollectState { room, seeds } => SendJoinView::CollectState {
                room: *room,
                seeds: texts(seeds@),
            },
            SendJoinStep::Store { room, kind, effects: e } => SendJoinView::Store {
                room: *room,
                kind: *kind,
                effects: effects(e@),
            },
            SendJoinStep::LoadMembers { room, user } => SendJoinView::LoadMembers {
                room: *room,
                user: user@,
            },
            SendJoinStep::Tell { user, observers } => SendJoinView::Tell {
                user: *user,
                observers: observers@,
            },
            SendJoinStep::Reply { body } => SendJoinView::Reply { body: body@ },
            SendJoinStep::Refuse(e) => SendJoinView::Refuse(e@),
        }
    }
}

pub open spec fn bad_json(msg: Seq<char>) -> ApiErrorView {
    api_error(BAD_REQUEST, "M_BAD_JSON"@, msg)
}

pub open spec fn unauthorized(msg: Seq<char>) -> ApiErrorView {
    api_error(UNAUTHORIZED, "M_UNAUTHORIZED"@, msg)
}

/// The server part of an identifier, empty if it has none.
pub open spec fn server_or_empty(id: Seq<char>) -> Seq<char> {
    match server_part(id) {
        Some(s) => s,
        None => ""@,
    }
}

/// What is wrong with the shape of a submitted join, or the user that joins.
pub open spec fn join_shape(body: Option<JsonView>, origin: Seq<char>) -> Result<
    Seq<char>,
    ApiErrorView,
> {
    match body {
        None => Err(bad_json("empty send_join body"@)),
        Some(event) => if event.as_object() is None {
            Err(bad_json("event is not an object"@))
        } else if event.str_at("type"@) is None {
            Err(bad_json("missing type"@))
        } else if event.str_at("type"@) != Some("m.room.member"@) {
            Err(bad_json("send_join event must be m.room.member"@))
        } else if event.str_within("content"@, "membership"@) is None {
            Err(bad_json("missing membership"@))
        } else if event.str_within("content"@, "membership"@) != Some("join"@) {
            Err(bad_json("send_join membership must be join"@))
        } else if event.str_at("sender"@) is None {
            Err(bad_json("missing sender"@))
        } else if event.str_at("state_key"@) is None {
            Err(bad_json("missing state_key"@))
        } else if event.str_at("sender"@) != event.str_at("state_key"@) {
            Err(bad_json("sender must equal state_key"@))
        } else if server_or_empty(event.str_at("sender"@)->0) != origin {
            Err(api_error(FORBIDDEN, "M_FORBIDDEN"@, "sender domain does not match origin"@))
        } else {
            Ok(event.str_at("sender"@)->0)
        },
    }
}

/// The check that a join is signed by a server.
pub open spec fn signed_by(
    event: JsonView,
    server: Seq<char>,
    keys: Option<Option<RemoteKeys>>,
    checks: Seq<bool>,
    no_keys: Seq<char>,
    unsigned: Seq<char>,
    unverified: Seq<char>,
) -> Option<SendJoinView> {
    match keys {
        None => Some(SendJoinView::FetchKeys { server }),
        Some(None) => Some(SendJoinView::Refuse(unauthorized(no_keys))),
        Some(Some(k)) => match signature_search(event, server, k, checks) {
            SignatureView::Unsigned => Some(SendJoinView::Refuse(unauthorized(unsigned))),
            SignatureView::Check { key_id, key } => Some(
                SendJoinView::VerifySignature { server, key_id, key },
            ),
            SignatureView::Empty | SignatureView::Unverified => Some(
                SendJoinView::Refuse(unauthorized(unverified)),
            ),
            SignatureView::Verified => None,
        },
    }
}

/// The checks of the signatures on a join: that of the submitting server, and,
/// where somebody vouches for the join, that of their server.
pub open spec fn join_signatures(f: SendJoinFacts, event: JsonView, domain: Seq<char>) -> Option<
    SendJoinView,
> {
    match signed_by(
        event,
        domain,
        f.sender_keys,
        f.sender_checks@,
        "cannot fetch origin keys"@,
        "missing signature from origin"@,
        "signature verification failed"@,
    ) {
        Some(s) => Some(s),
        None => match event.str_within("content"@, "join_authorised_via_users_server"@) {
            None => None,
            Some(voucher) => {
                let server = server_or_empty(voucher);
                if server.len() == 0 {
                    Some(
                        SendJoinView::Refuse(
                            bad_json("join_authorised_via_users_server has no domain"@),
                        ),
                    )
                } else if server == domain {
                    None
                } else {
                    signed_by(
                        event,
                        server,
                        f.voucher_keys,
                        f.voucher_checks@,
                        "cannot fetch authoriser keys"@,
                        "missing signature from authoriser server"@,
                        "authoriser signature verification failed"@,
                    )
                }
            },
        },
    }
}

/// The checks of the room: it is known, the submitting server may act in it, and
/// the user may join it.
pub open spec fn join_room(f: SendJoinFacts, user: Seq<char>) -> Result<u64, SendJoinView> {
    match f.room {
        None => Err(SendJoinView::LookupRoom),
        Some(None) => Err(
            SendJoinView::Refuse(api_error(NOT_FOUND, "M_NOT_FOUND"@, "room unknown"@)),
        ),
        Some(Some(room)) => match f.acl {
            None => Err(SendJoinView::LoadAcl { room }),
            Some(acl) => match acl_denial(json_of(acl), f.origin@) {
                Some(e) => Err(SendJoinView::Refuse(e)),
                None => join_admitted(f, user, room),
            },
        },
    }
}

/// The check that the user may join a room in which their server may act.
pub open spec fn join_admitted(f: SendJoinFacts, user: Seq<char>, room: u64) -> Result<
    u64,
    SendJoinView,
> {
    match f.join_rules {
        None => Err(SendJoinView::LoadJoinRules { room }),
        Some(rules) => match f.membership {
            None => Err(SendJoinView::LookupMembership { room, user }),
            Some(Err(e)) => Err(SendJoinView::Refuse(store_failed(e@))),
            Some(Ok(membership)) => if may_join(join_rule(json_of(rules)), membership) {
                Ok(room)
            } else {
                Err(
                    SendJoinView::Refuse(
                        api_error(
                            FORBIDDEN,
                            "M_FORBIDDEN"@,
                            "room is invite-only or knock-only; send_join not allowed"@,
                        ),
                    ),
                )
            },
        },
    }
}

/// The checks of the event itself: its id is the one that its hash gives it, and
/// it has the fields of an event in the form in which it counts.
pub open spec fn join_identity(f: SendJoinFacts, event: JsonView) -> Option<SendJoinView> {
    match f.computed_id {
        None => Some(SendJoinView::ComputeId),
        Some(id) => if id@ != f.event_id@ {
            Some(
                SendJoinView::Refuse(
                    bad_json("URL event_id does not match the event's reference hash"@),
                ),
            )
        } else {
            match f.content_hash {
                None => Some(SendJoinView::HashContent),
                Some(hash) => match f.effective {
                    None => Some(
                        SendJoinView::ReadEffective {
                            redacted: event.str_within("hashes"@, "sha256"@) != Some(hash@),
                        },
                    ),
                    Some(None) => Some(
                        SendJoinView::Refuse(
                            bad_json("malformed event fields after hash check"@),
                        ),
                    ),
                    Some(Some(_)) => None,
                },
            }
        },
    }
}

/// The sweep over the auth events: all must be stored.
pub open spec fn join_auth(auth: Seq<Seq<char>>, found: Seq<bool>, k: int) -> Option<SendJoinView>
    decreases auth.len() - k,
{
    if k >= auth.len() {
        None
    } else if k >= found.len() {
        Some(SendJoinView::LoadAuthEvent { event_id: auth[k] })
    } else if found[k] {
        join_auth(auth, found, k + 1)
    } else {
        Some(
            SendJoinView::Refuse(api_error(FORBIDDEN, "M_FORBIDDEN"@, "unknown auth event"@)),
        )
    }
}

/// The reply to a join: the auth chain and the state before it.
pub open spec fn join_reply(auth_chain: Seq<JsonView>, state: Seq<JsonView>) -> JsonView {
    JsonView::Object(
        seq![
            ("auth_chain"@, JsonView::Array(auth_chain)),
            ("state"@, JsonView::Array(state)),
            ("event"@, JsonView::Null),
        ],
    )
}

/// The end of a join that was stored: the local users in the room are told of
/// the user before the server gets its reply.
pub open spec fn join_told(
    f: SendJoinFacts,
    user: Seq<char>,
    room: u64,
    body: JsonView,
) -> SendJoinView {
    match f.members {
        None => SendJoinView::LoadMembers { room, user },
        Some(None) => SendJoinView::Reply { body },
        Some(Some((nid, members))) => {
            let observers = locals_among(members@, f.server_name@, Some(nid));
            if f.told || observers.len() == 0 {
                SendJoinView::Reply { body }
            } else {
                SendJoinView::Tell { user: nid, observers }
            }
        },
    }
}

/// The last checks of a join: the user is not banned now, whatever the event's
/// auth events say; the rules allow the join; the reply is put together before
/// the event is stored.
pub open spec fn join_finish(
    f: SendJoinFacts,
    pdu: PduView,
    user: Seq<char>,
    room: u64,
) -> SendJoinView {
    let auth = pdu.auth_events;
    match f.current_membership {
        None => SendJoinView::LookupCurrentMembership { room, user },
        Some(current) => if opt_string(current) == Some("ban"@) {
            SendJoinView::Refuse(
                api_error(FORBIDDEN, "M_FORBIDDEN"@, "user is banned from this room"@),
            )
        } else {
            match join_auth(auth, f.auth_found@, 0) {
                Some(s) => s,
                None => match f.auth_refusal {
                    None => SendJoinView::CheckAuthEvents { room },
                    Some(Some(reason)) => SendJoinView::Refuse(
                        api_error(FORBIDDEN, "M_FORBIDDEN"@, "auth check failed: "@ + reason@),
                    ),
                    Some(None) => match f.reply {
                        None => SendJoinView::CollectState { room, seeds: auth },
                        Some((chain, state)) => match f.stored {
                            None => if pdu.state_key is None {
                                SendJoinView::Refuse(
                                    not_persisted("join event has no state_key"@),
                                )
                            } else {
                                SendJoinView::Store {
                                    room,
                                    kind: PersistKind::Live,
                                    effects: join_effects(),
                                }
                            },
                            Some(Some(reason)) => SendJoinView::Refuse(not_persisted(reason@)),
                            Some(None) => join_told(
                                f,
                                user,
                                room,
                                join_reply(values(chain@), values(state@)),
                            ),
                        },
                    },
                },
            }
        },
    }
}

/// The refusal of a join that could not be stored.
pub open spec fn not_persisted(reason: Seq<char>) -> ApiErrorView {
    api_error(INTERNAL_SERVER_ERROR, "M_UNKNOWN"@, "persist failed: "@ + reason)
}

/// How a join that a server submits is answered.
pub open spec fn send_join_next(f: SendJoinFacts) -> SendJoinView {
    let body = match f.body {
        Some(b) => Some(b@),
        None => None,
    };
    match join_shape(body, f.origin@) {
        Err(e) => SendJoinView::Refuse(e),
        Ok(user) => match join_signatures(f, body->0, f.origin@) {
            Some(s) => s,
            None => match join_room(f, user) {
                Err(s) => s,
                Ok(room) => match join_identity(f, body->0) {
                    Some(s) => s,
                    None => match f.effective {
                        Some(Some(pdu)) => join_finish(f, pdu@, user, room),
                        _ => SendJoinView::HashContent,
                    },
                },
            },
        },
    }
}

fn bad(msg: &str) -> (r: ApiError)
    ensures
        r@ == bad_json(msg@),
{
    err_response(BAD_REQUEST, "M_BAD_JSON", msg)
}

fn deny(msg: &str) -> (r: SendJoinStep)
    ensures
        r@ == SendJoinView::Refuse(unauthorized(msg@)),
{
    SendJoinStep::Refuse(err_response(UNAUTHORIZED, "M_UNAUTHORIZED", msg))
}

/// The server part of an identifier, empty if it has none.
pub fn domain_or_empty(id: &str) -> (r: &str)
    ensures
        r@ == server_or_empty(id@),
{
    match domain_of(id) {
        Some(d) => d,
        None => "",
    }
}

fn check_shape<'a>(body: Option<&'a Json>, origin: &str) -> (r: Result<&'a str, ApiError>)
    ensures
        match r {
            Ok(user) => join_shape(
                match body {
                    Some(b) => Some(b@),
                    None => None,
                },
                origin@,
            ) == Ok::<Seq<char>, ApiErrorView>(user@),
            Err(e) => join_shape(
                match body {
                    Some(b) => Some(b@),
                    None => None,
                },
                origin@,
            ) == Err::<Seq<char>, ApiErrorView>(e@),
        },
{
    let event = match body {
        None => {
            return Err(bad("empty send_join body"));
        },
        Some(e) => e,
    };
    if event.as_object().is_none() {
        return Err(bad("event is not an object"));
    }
    match event.str_at("type") {
        None => {
            return Err(bad("missing type"));
        },
        Some(t) => {
            if !str_eq(t, "m.room.member") {
                return Err(bad("send_join event must be m.room.member"));
            }
        },
    }
    match event.str_within("content", "membership") {
        None => {
            return Err(bad("missing membership"));
        },
        Some(m) => {
            if !str_eq(m, "join") {
                return Err(bad("send_join membership must be join"));
            }
        },
    }
    let sender = match event.str_at("sender") {
        None => {
            return Err(bad("missing sender"));
        },
        Some(s) => s,
    };
    let state_key = match event.str_at("state_key") {
        None => {
            return Err(bad("missing state_key"));
        },
        Some(s) => s,
    };
    if !str_eq(sender, state_key) {
        return Err(bad("sender must equal state_key"));
    }
    if !str_eq(domain_or_empty(sender), origin) {
        return Err(
            err_response(FORBIDDEN, "M_FORBIDDEN", "sender domain does not match origin"),
        );
    }
    Ok(sender)
}

pub open spec fn opt_send_join(s: Option<SendJoinStep>) -> Option<SendJoinView> {
    match s {
        Some(s) => Some(s@),
        None => None,
    }
}

fn check_signed(
    event: &Json,
    server: &str,
    keys: &Option<Option<RemoteKeys>>,
    checks: &Vec<bool>,
    no_keys: &str,
    unsigned: &str,
    unverified: &str,
) -> (r: Option<SendJoinStep>)
    ensures
        opt_send_join(r) == signed_by(
            event@,
            server@,
            *keys,
            checks@,
            no_keys@,
            unsigned@,
            unverified@,
        ),
{
    match keys {
        None => Some(SendJoinStep::FetchKeys { server: server.to_owned() }),
        Some(None) => Some(deny(no_keys)),
        Some(Some(k)) => match next_signature(event, server, k, checks) {
            SignatureStep::Unsigned => Some(deny(unsigned)),
            SignatureStep::Check { key_id, key } => Some(
                SendJoinStep::VerifySignature { server: server.to_owned(), key_id, key },
            ),
            SignatureStep::Empty | SignatureStep::Unverified => Some(deny(unverified)),
            SignatureStep::Verified => None,
        },
    }
}

fn check_signatures(f: &SendJoinFacts, event: &Json, domain: &str) -> (r: Option<SendJoinStep>)
    ensures
        opt_send_join(r) == join_signatures(*f, event@, domain@),
{
    match check_signed(
        event,
        domain,
        &f.sender_keys,
        &f.sender_checks,
        "cannot fetch origin keys",
        "missing signature from origin",
        "signature verification failed",
    ) {
        Some(s) => {
            return Some(s);
        },
        None => {},
    }
    let voucher = match event.str_within("content", "join_authorised_via_users_server") {
        None => {
            return None;
        },
        Some(v) => v,
    };
    let server = domain_or_empty(voucher);
    if server.is_empty() {
        return Some(
            SendJoinStep::Refuse(bad("join_authorised_via_users_server has no domain")),
        );
    }
    if str_eq(server, domain) {
        return None;
    }
    check_signed(
        event,
        server,
        &f.voucher_keys,
        &f.voucher_checks,
        "cannot fetch authoriser keys",
        "missing signature from authoriser server",
        "authoriser signature verification failed",
    )
}

fn check_room(f: &SendJoinFacts, user: &str) -> (r: Result<u64, SendJoinStep>)
    ensures
        match r {
            Ok(room) => join_room(*f, user@) == Ok::<u64, SendJoinView>(room),
            Err(s) => join_room(*f, user@) == Err::<u64, SendJoinView>(s@),
        },
{
    let room = match f.room {
        None => {
            return Err(SendJoinStep::LookupRoom);
        },
        Some(None) => {
            return Err(
                SendJoinStep::Refuse(err_response(NOT_FOUND, "M_NOT_FOUND", "room unknown")),
            );
        },
        Some(Some(n)) => n,
    };
    match &f.acl {
        None => {
            return Err(SendJoinStep::LoadAcl { room });
        },
        Some(acl) => match deny_if_blocked(acl.as_ref(), f.origin.as_str()) {
            Err(e) => {
                return Err(SendJoinStep::Refuse(e));
            },
            Ok(_) => {},
        },
    }
    let rule = match &f.join_rules {
        None => {
            return Err(SendJoinStep::LoadJoinRules { room });
        },
        Some(c) => read_join_rule(c.as_ref()),
    };
    match &f.membership {
        None => Err(SendJoinStep::LookupMembership { room, user: user.to_owned() }),
        Some(Err(e)) => Err(SendJoinStep::Refuse(db_err(e.as_str()))),
        Some(Ok(m)) => {
            if admits(rule.as_str(), *m) {
                Ok(room)
            } else {
                Err(
                    SendJoinStep::Refuse(
                        err_response(
                            FORBIDDEN,
                            "M_FORBIDDEN",
                            "room is invite-only or knock-only; send_join not allowed",
                        ),
                    ),
                )
            }
        },
    }
}

fn check_identity(f: &SendJoinFacts, event: &Json) -> (r: Option<SendJoinStep>)
    ensures
        opt_send_join(r) == join_identity(*f, event@),
{
    match &f.computed_id {
        None => {
            return Some(SendJoinStep::ComputeId);
        },
        Some(id) => {
            if !str_eq(id.as_str(), f.event_id.as_str()) {
                return Some(
                    SendJoinStep::Refuse(
                        bad("URL event_id does not match the event's reference hash"),
                    ),
                );
            }
        },
    }
    match &f.content_hash {
        None => Some(SendJoinStep::HashContent),
        Some(hash) => match &f.effective {
            None => {
                let same = declares_hash(event, hash.as_str());
                Some(SendJoinStep::ReadEffective { redacted: !same })
            },
            Some(None) => Some(
                SendJoinStep::Refuse(bad("malformed event fields after hash check")),
            ),
            Some(Some(_)) => None,
        },
    }
}

fn check_auth_stored(auth: &Vec<String>, found: &Vec<bool>) -> (r: Option<SendJoinStep>)
    ensures
        opt_send_join(r) == join_auth(texts(auth@), found@, 0),
{
    let mut k: usize = 0;
    proof {
        assert(texts(auth@).len() == auth@.len());
    }
    while k < auth.len()
        invariant
            k <= auth.len(),
            texts(auth@).len() == auth@.len(),
            join_auth(texts(auth@), found@, 0) == join_auth(texts(auth@), found@, k as int),
        decreases auth.len() - k,
    {
        proof {
            assert(texts(auth@)[k as int] == auth@[k as int]@);
        }
        if k >= found.len() {
            return Some(SendJoinStep::LoadAuthEvent { event_id: auth[k].clone() });
        }
        if !found[k] {
            return Some(
                SendJoinStep::Refuse(err_response(FORBIDDEN, "M_FORBIDDEN", "unknown auth event")),
            );
        }
        k += 1;
    }
    None
}

fn reply_to_join(chain: &Vec<Json>, state: &Vec<Json>) -> (r: Json)
    ensures
        r@ == join_reply(values(chain@), values(state@)),
{
    let mut m: Vec<(String, Json)> = Vec::new();
    put(&mut m, "auth_chain", Json::array(copy_values(chain)));
    put(&mut m, "state", Json::array(copy_values(state)));
    put(&mut m, "event", Json::Null);
    proof {
        assert(members(m@) =~= join_reply(values(chain@), values(state@))->Object_0);
    }
    Json::object(m)
}

fn refuse_unstored(reason: &str) -> (r: SendJoinStep)
    ensures
        r@ == SendJoinView::Refuse(not_persisted(reason@)),
{
    let text = cat("persist failed: ", reason);
    SendJoinStep::Refuse(err_response(INTERNAL_SERVER_ERROR, "M_UNKNOWN", text.as_str()))
}

/// Collects the auth chain of an event from what is stored: the events that it
/// lists as its auth events and all theirs, each once. If the store cannot be
/// read there is none.
pub fn collect_auth_chain<F: Fn(&str) -> AuthLookup, L: Fn(&str) -> Option<Json>>(
    seeds: &Vec<String>,
    auth_of: F,
    load: L,
) -> (r: Vec<Json>)
    requires
        forall|s: &str| #[trigger] auth_of.requires((s,)),
        forall|s: &str| #[trigger] load.requires((s,)),
        seeds@.len() <= usize::MAX - AUTH_CHAIN_MAX,
    ensures
        ({
            ||| exists|ids: Seq<Seq<char>>| #[trigger]
                is_chain_read(auth_of, load, texts(seeds@), ids, values(r@))
            ||| r@.len() == 0 && exists|e: Seq<char>| #[trigger]
                is_unreadable(auth_of, texts(seeds@), e)
        }),
{
    match auth_chain_of_seeds_pdu_json(seeds, auth_of, load) {
        Ok(v) => v,
        Err(e) => {
            proof {
                assert(is_unreadable(auth_of, texts(seeds@), e@));
            }
            Vec::new()
        },
    }
}

/// Names what to find out or to do next about a join that a server submits, or
/// the reply.
pub fn send_join_v2(f: &SendJoinFacts) -> (r: SendJoinStep)
    ensures
        r@ == send_join_next(*f),
{
    let user = match check_shape(f.body.as_ref(), f.origin.as_str()) {
        Ok(u) => u,
        Err(e) => {
            return SendJoinStep::Refuse(e);
        },
    };
    let event = match &f.body {
        Some(b) => b,
        None => {
            return SendJoinStep::HashContent;
        },
    };
    match check_signatures(f, event, f.origin.as_str()) {
        Some(s) => {
            return s;
        },
        None => {},
    }
    let room = match check_room(f, user) {
        Ok(n) => n,
        Err(s) => {
            return s;
        },
    };
    match check_identity(f, event) {
        Some(s) => {
            return s;
        },
        None => {},
    }
    let pdu = match &f.effective {
        Some(Some(p)) => p,
        _ => {
            return SendJoinStep::HashContent;
        },
    };
    let banned = match &f.current_membership {
        None => {
            return SendJoinStep::LookupCurrentMembership { room, user: user.to_owned() };
        },
        Some(Some(m)) => str_eq(m.as_str(), "ban"),
        Some(None) => false,
    };
    if banned {
        return SendJoinStep::Refuse(
            err_response(FORBIDDEN, "M_FORBIDDEN", "user is banned from this room"),
        );
    }
    match check_auth_stored(&pdu.auth_events, &f.auth_found) {
        Some(s) => {
            return s;
        },
        None => {},
    }
    match &f.auth_refusal {
        None => {
            return SendJoinStep::CheckAuthEvents { room };
        },
        Some(Some(reason)) => {
            let text = cat("auth check failed: ", reason.as_str());
            return SendJoinStep::Refuse(err_response(FORBIDDEN, "M_FORBIDDEN", text.as_str()));
        },
        Some(None) => {},
    }
    match &f.reply {
        None => SendJoinStep::CollectState { room, seeds: clone_list(&pdu.auth_events) },
        Some((chain, state)) => match &f.stored {
            None => match persist_join_event(pdu) {
                Ok(e) => SendJoinStep::Store { room, kind: PersistKind::Live, effects: e },
                Err(reason) => refuse_unstored(reason.as_str()),
            },
            Some(Some(reason)) => refuse_unstored(reason.as_str()),
            Some(None) => {
                match &f.members {
                    None => {
                        return SendJoinStep::LoadMembers { room, user: user.to_owned() };
                    },
                    Some(None) => {},
                    Some(Some((nid, in_room))) => {
                        let observers = local_observers(
                            in_room,
                            f.server_name.as_str(),
                            Some(*nid),
                        );
                        if !f.told && observers.len() > 0 {
                            return SendJoinStep::Tell { user: *nid, observers };
                        }
                    },
                }
                SendJoinStep::Reply { body: reply_to_join(chain, state) }
            },
        },
    }
}

/// The reply of the first version of the endpoint: the status and the reply of
/// the second, in an array.
pub fn send_join_v1(v2: Json) -> (r: Json)
    ensures
        r@ == JsonView::Array(seq![JsonView::Number(NumberView::Unsigned(200)), v2@]),
{
    let ghost b = v2@;
    let mut v: Vec<Json> = Vec::new();
    v.push(Json::number(200));
    v.push(v2);
    proof {
        assert(values(v@) =~= seq![JsonView::Number(NumberView::Unsigned(200)), b]);
    }
    Json::array(v)
}

/// A join template is handed out only to the user's own server, for a room
/// version that it supports, never to a server that the room keeps out, and never
/// for a user who is banned.
pub proof fn law_templates(f: MakeJoinFacts)
    requires
        make_join_next(f) is Reply,
    ensures
        belongs_to(f.user_id@, f.origin@),
        f.acl matches Some(acl) && acl_refusal(json_of(acl), f.origin@) is None,
        texts(f.versions@).contains(served_version()),
        f.membership matches Some(Ok(m)) && m != Some(3u8) && may_join(
            join_rule(rules_view(f)),
            m,
        ),
        is_restricted(join_rule(rules_view(f))) ==> {
            &&& f.qualifies == Some(Ok::<bool, String>(true))
            &&& f.authoriser matches Some(Ok(Some(_)))
        },
{
    reveal(acl_denial);
}

/// The template of a join, submitted as it was handed out, has the shape of a
/// join by that user from that server.
pub proof fn law_template_shape(f: MakeJoinFacts)
    requires
        make_join_next(f) is Reply,
    ensures
        make_join_next(f) matches MakeJoinView::Reply { template, .. } && join_shape(
            Some(template),
            f.origin@,
        ) == Ok::<Seq<char>, ApiErrorView>(f.user_id@),
{
    reveal_with_fuel(crate::json::member, 6);
    reveal_strlit("type");
    reveal_strlit("state_key");
    reveal_strlit("sender");
    reveal_strlit("content");
    reveal_strlit("membership");
    reveal_strlit("room_id");
    reveal_strlit("join_authorised_via_users_server");
    let auth = f.auth_events->0;
    let ext = f.extremities->0->Ok_0;
    let voucher = vouch(f, f.room->0->0)->Ok_0;
    let content = join_content(voucher);
    let t = join_template(f, content, texts(auth@), ext@);
    let m = t->Object_0;
    assert(m[0].0 == "type"@);
    let m1 = m.drop_first();
    let m2 = m1.drop_first();
    let m3 = m2.drop_first();
    let m4 = m3.drop_first();
    assert(m1[0] == m[1] && m2[0] == m[2] && m3[0] == m[3] && m4[0] == m[4]);
    assert("type"@.len() == 4 && "state_key"@.len() == 9 && "sender"@.len() == 6
        && "content"@.len() == 7 && "room_id"@.len() == 7);
    assert("content"@[0] == 'c' && "room_id"@[0] == 'r');
    assert(t.str_at("type"@) == Some("m.room.member"@));
    assert(t.str_at("state_key"@) == Some(f.user_id@));
    assert(t.str_at("sender"@) == Some(f.user_id@));
    assert(t.get("content"@) == Some(content));
    assert(content->Object_0[0] == ("membership"@, JsonView::Str("join"@)));
    assert(content.str_at("membership"@) == Some("join"@));
}

/// The reply to a join holds the state before it, and the events of its auth
/// chain: its own auth events first and in their order, then theirs, each once;
/// the join itself is not among them.
pub proof fn law_join_reply<F: Fn(&str) -> AuthLookup, L: Fn(&str) -> Option<Json>>(
    f: SendJoinFacts,
    auth_of: F,
    load: L,
    ids: Seq<Seq<char>>,
    g: AuthGraph,
    stored: StoredEvents,
)
    requires
        send_join_next(f) is Reply,
        f.reply is Some,
        f.effective matches Some(Some(_)),
        is_chain_read(
            auth_of,
            load,
            f.effective->0->0@.auth_events,
            ids,
            values((f.reply->0).0@),
        ),
        answers_from(auth_of, g),
        reads_from(load, stored),
    ensures
        ({
            let auth = f.effective->0->0@.auth_events;
            let body = send_join_next(f)->body;
            &&& body.array_at("auth_chain"@) == Some(held(ids, stored))
            &&& body.array_at("state"@) == Some(values((f.reply->0).1@))
            &&& chain_of(g, auth, ids)
            &&& !in_chain(g, auth, f.event_id@) ==> !ids.contains(f.event_id@)
        }),
{
    reveal_with_fuel(crate::json::member, 3);
    reveal_strlit("auth_chain");
    reveal_strlit("state");
    lemma_join_auth_kind(f.effective->0->0@.auth_events, f.auth_found@, 0);
    let body = join_reply(values((f.reply->0).0@), values((f.reply->0).1@));
    let m = body->Object_0;
    assert(m[0].0 == "auth_chain"@);
    assert(m.drop_first()[0] == m[1]);
    assert("auth_chain"@.len() == 10 && "state"@.len() == 5);
    assert(chain_of(g, f.effective->0->0@.auth_events, ids));
}

/// A join is stored only if its sender's server submitted and signed it and may
/// act in the room, the user may join, is not banned now, all its auth events are
/// stored, and the rules allow it. Once it is stored the user counts as joined.
pub proof fn law_submitted_joins(f: SendJoinFacts)
    requires
        send_join_next(f) is Store || send_join_next(f) is Reply,
    ensures
        f.body is Some,
        join_shape(Some(f.body->0@), f.origin@) is Ok,
        join_signatures(f, f.body->0@, f.origin@) is None,
        f.acl matches Some(acl) && acl_refusal(json_of(acl), f.origin@) is None,
        f.current_membership is Some,
        opt_string(f.current_membership->0) != Some("ban"@),
        f.auth_refusal == Some(None::<String>),
        f.computed_id matches Some(id) && id@ == f.event_id@,
        send_join_next(f) is Reply ==> f.stored == Some(None::<String>),
        send_join_next(f) is Store ==> {
            &&& send_join_next(f)->kind == PersistKind::Live
            &&& send_join_next(f)->effects == join_effects()
            &&& join_effects().contains(EffectView::SetMembership(1))
        },
{
    reveal(acl_denial);
    assert(join_effects()[1] == EffectView::SetMembership(1));
    match f.effective {
        Some(Some(pdu)) => {
            lemma_join_auth_kind(pdu@.auth_events, f.auth_found@, 0);
        },
        _ => {},
    }
}

proof fn lemma_join_auth_kind(auth: Seq<Seq<char>>, found: Seq<bool>, k: int)
    requires
        0 <= k,
    ensures
        match join_auth(auth, found, k) {
            None => true,
            Some(s) => s is LoadAuthEvent || s is Refuse,
        },
    decreases auth.len() - k,
{
    if k < auth.len() {
        lemma_join_auth_kind(auth, found, k + 1);
    }
}

/// A version is listed by a query exactly if one of the comma-separated parts of
/// one of its `ver` parameters is it, but for white space around it; a query that
/// lists none stands for version 1.
pub proof fn law_listed_versions(pairs: Seq<(Seq<char>, Seq<char>)>, v: Seq<char>)
    ensures
        ver_parameters(pairs).contains(v) <==> v.len() > 0 && exists|i: int, j: int|
            0 <= i < pairs.len() && (#[trigger] pairs[i]).0 == "ver"@ && 0 <= j < pieces(
                pairs[i].1,
                ',',
            ).len() && trimmed(#[trigger] pieces(pairs[i].1, ',')[j]) == v,
        versions_of(pairs).contains(v) <==> ver_parameters(pairs).contains(v) || (v == "1"@
            && forall|w: Seq<char>| !#[trigger] ver_parameters(pairs).contains(w)),
{
    lemma_ver_parameters(pairs, v);
    let all = ver_parameters(pairs);
    if all.len() == 0 {
        assert(versions_of(pairs)[0] == "1"@);
        assert forall|w: Seq<char>| !#[trigger] all.contains(w) by {}
    } else {
        assert(all.contains(all[0]));
    }
}

proof fn lemma_listed(p: Seq<Seq<char>>, v: Seq<char>)
    ensures
        listed(p).contains(v) <==> v.len() > 0 && exists|j: int|
            0 <= j < p.len() && trimmed(#[trigger] p[j]) == v,
    decreases p.len(),
{
    if p.len() > 0 {
        let front = p.drop_last();
        lemma_listed(front, v);
        if trimmed(p.last()).len() > 0 {
            lemma_has_push(listed(front), trimmed(p.last()), v);
        }
        if exists|j: int| 0 <= j < p.len() && trimmed(#[trigger] p[j]) == v {
            let j = choose|j: int| 0 <= j < p.len() && trimmed(#[trigger] p[j]) == v;
            if j < front.len() {
                assert(front[j] == p[j]);
            }
        }
        if exists|j: int| 0 <= j < front.len() && trimmed(#[trigger] front[j]) == v {
            let j = choose|j: int| 0 <= j < front.len() && trimmed(#[trigger] front[j]) == v;
            assert(p[j] == front[j]);
        }
        assert(p[p.len() - 1] == p.last());
    }
}

proof fn lemma_ver_parameters(pairs: Seq<(Seq<char>, Seq<char>)>, v: Seq<char>)
    ensures
        ver_parameters(pairs).contains(v) <==> v.len() > 0 && exists|i: int, j: int|
            0 <= i < pairs.len() && (#[trigger] pairs[i]).0 == "ver"@ && 0 <= j < pieces(
                pairs[i].1,
                ',',
            ).len() && trimmed(#[trigger] pieces(pairs[i].1, ',')[j]) == v,
    decreases pairs.len(),
{
    if pairs.len() > 0 {
        let front = pairs.drop_last();
        let last = pairs.len() - 1;
        let p = pieces(pairs[last].1, ',');
        let a = ver_parameters(front);
        let b = listed(p);
        let all = ver_parameters(pairs);
        lemma_ver_parameters(front, v);
        lemma_listed(p, v);
        if a.contains(v) {
            let k = choose|k: int| 0 <= k < a.len() && a[k] == v;
            assert(all[k] == v);
            let (i, j) = choose|i: int, j: int|
                0 <= i < front.len() && (#[trigger] front[i]).0 == "ver"@ && 0 <= j < pieces(
                    front[i].1,
                    ',',
                ).len() && trimmed(#[trigger] pieces(front[i].1, ',')[j]) == v;
            assert(pairs[i] == front[i]);
            assert(trimmed(pieces(pairs[i].1, ',')[j]) == v);
        } else if pairs[last].0 == "ver"@ && b.contains(v) {
            let k = choose|k: int| 0 <= k < b.len() && b[k] == v;
            assert(all[a.len() + k] == v);
            let j = choose|j: int| 0 <= j < p.len() && trimmed(#[trigger] p[j]) == v;
            assert(trimmed(pieces(pairs[last].1, ',')[j]) == v);
        } else {
            assert(!all.contains(v)) by {
                if all.contains(v) {
                    let k = choose|k: int| 0 <= k < all.len() && all[k] == v;
                    if k < a.len() {
                        assert(a[k] == v);
                    } else {
                        assert(b[k - a.len()] == v);
                    }
                }
            }
            assert forall|i: int, j: int|
                0 <= i < pairs.len() && (#[trigger] pairs[i]).0 == "ver"@ && 0 <= j < pieces(
                    pairs[i].1,
                    ',',
                ).len() && v.len() > 0 implies trimmed(#[trigger] pieces(pairs[i].1, ',')[j]) != v by {
                if i < front.len() {
                    assert(front[i] == pairs[i]);
                    if trimmed(pieces(front[i].1, ',')[j]) == v {
                        assert(a.contains(v));
                    }
                } else if trimmed(p[j]) == v {
                    assert(b.contains(v));
                }
            }
        }
    }
}

/// The predecessors in a join template are all the room's forward extremities that
/// could be read, in turn, and nothing else.
pub proof fn law_extremity_ids(v: Seq<Extremity>)
    ensures
        extremity_ids(v) == v.filter_map(
            |e: Extremity|
                match e.event_id {
                    Some(id) => Some(id@),
                    None => None,
                },
        ),
        forall|i: int|
            0 <= i < v.len() && (#[trigger] v[i]).event_id is Some ==> extremity_ids(v).contains(
                v[i].event_id->0@,
            ),
        forall|id: Seq<char>| #[trigger]
            extremity_ids(v).contains(id) ==> exists|i: int|
                0 <= i < v.len() && ((#[trigger] v[i]).event_id matches Some(x) && x@ == id),
    decreases v.len(),
{
    if v.len() > 0 {
        let front = v.drop_last();
        let r = extremity_ids(v);
        let s = extremity_ids(front);
        law_extremity_ids(front);
        if v.last().event_id is Some {
            let x = v.last().event_id->0@;
            assert(s.push(x) =~= s + seq![x]);
            assert(r[s.len() as int] == x);
        }
        assert forall|i: int|
            0 <= i < v.len() && (#[trigger] v[i]).event_id is Some implies r.contains(
            v[i].event_id->0@,
        ) by {
            if i < front.len() {
                assert(front[i] == v[i]);
                let x = v[i].event_id->0@;
                assert(s.contains(x));
                let k = choose|k: int| 0 <= k < s.len() && s[k] == x;
                assert(r[k] == x);
            }
        }
        assert forall|id: Seq<char>| #[trigger] r.contains(id) implies exists|i: int|
            0 <= i < v.len() && ((#[trigger] v[i]).event_id matches Some(x) && x@ == id) by {
            let k = choose|k: int| 0 <= k < r.len() && r[k] == id;
            if k < s.len() {
                assert(s[k] == id);
                assert(s.contains(id));
                let i = choose|i: int|
                    0 <= i < front.len() && ((#[trigger] front[i]).event_id matches Some(x) && x@
                        == id);
                assert(v[i] == front[i]);
            } else {
                assert(v[v.len() - 1].event_id->0@ == id);
            }
        }
    }
}

proof fn lemma_max_depth(v: Seq<Extremity>)
    ensures
        forall|i: int|
            0 <= i < v.len() ==> ((#[trigger] v[i]).depth matches Some(d) ==> d <= max_depth(v)),
        max_depth(v) == 0 || exists|i: int|
            0 <= i < v.len() && (#[trigger] v[i]).depth == Some(max_depth(v)),
    decreases v.len(),
{
    if v.len() > 0 {
        let front = v.drop_last();
        lemma_max_depth(front);
        assert forall|i: int| 0 <= i < v.len() implies ((#[trigger] v[i]).depth matches Some(d)
            ==> d <= max_depth(v)) by {
            if i < front.len() {
                assert(front[i] == v[i]);
            }
        }
        if max_depth(v) == max_depth(front) && max_depth(v) != 0 {
            let i = choose|i: int|
                0 <= i < front.len() && (#[trigger] front[i]).depth == Some(max_depth(front));
            assert(v[i] == front[i]);
        } else if max_depth(v) != 0 {
            assert(v[v.len() - 1].depth == Some(max_depth(v)));
        }
    }
}

/// What a join template says: it is the joining user's own member event in the
/// room, by their server, at the time; it follows every forward extremity that
/// could be read and lies one deeper than the deepest; it names the chosen auth
/// events. In a restricted room it names the member that vouches for the join and
/// is signed, and elsewhere neither.
pub proof fn law_template_says(f: MakeJoinFacts)
    requires
        make_join_next(f) is Reply,
    ensures
        f.extremities matches Some(Ok(_)),
        f.auth_events is Some,
        ({
            let t = make_join_next(f)->template;
            let ext = f.extremities->0->Ok_0@;
            let restricted = f.join_rules matches Some(Some(c)) && (c@.get("join_rule"@) == Some(
                JsonView::Str("restricted"@),
            ) || c@.get("join_rule"@) == Some(JsonView::Str("knock_restricted"@)));
            &&& t.get("type"@) == Some(JsonView::Str("m.room.member"@))
            &&& t.get("state_key"@) == Some(JsonView::Str(f.user_id@))
            &&& t.get("sender"@) == Some(JsonView::Str(f.user_id@))
            &&& t.get("room_id"@) == Some(JsonView::Str(f.room_id@))
            &&& t.get("origin"@) == Some(JsonView::Str(f.origin@))
            &&& t.get("origin_server_ts"@) == Some(JsonView::Number(NumberView::Unsigned(f.now)))
            &&& t.get("prev_events"@) == Some(
                JsonView::Array(
                    ext.filter_map(
                        |e: Extremity|
                            match e.event_id {
                                Some(id) => Some(id@),
                                None => None,
                            },
                    ).map_values(|s: Seq<char>| JsonView::Str(s)),
                ),
            )
            &&& t.get("auth_events"@) == Some(
                JsonView::Array(f.auth_events->0@.map_values(|s: String| JsonView::Str(s@))),
            )
            &&& (t.get("depth"@) matches Some(JsonView::Number(NumberView::Unsigned(d))) && {
                &&& forall|i: int|
                    0 <= i < ext.len() ==> ((#[trigger] ext[i]).depth matches Some(x) ==> x < d || x
                        == u64::MAX)
                &&& d == 1 || exists|i: int|
                    0 <= i < ext.len() && ((#[trigger] ext[i]).depth matches Some(x) && (d == x + 1
                        || x == u64::MAX))
            })
            &&& (t.get("content"@) matches Some(c) && {
                &&& c.get("membership"@) == Some(JsonView::Str("join"@))
                &&& restricted ==> (f.authoriser matches Some(Ok(Some(a))) && c.get(
                    "join_authorised_via_users_server"@,
                ) == Some(JsonView::Str(a@)))
                &&& !restricted ==> c.get("join_authorised_via_users_server"@) is None
            })
            &&& make_join_next(f)->sign <==> restricted
        }),
{
    let auth = f.auth_events->0;
    let ext = f.extremities->0->Ok_0;
    let voucher = vouch(f, f.room->0->0)->Ok_0;
    let content = join_content(voucher);
    law_extremity_ids(ext@);
    lemma_max_depth(ext@);
    lemma_template(f, content, texts(auth@), ext@);
    lemma_join_content(voucher);
    reveal_strlit("invite");
    reveal_strlit("restricted");
    reveal_strlit("knock_restricted");
    assert("invite"@.len() == 6 && "restricted"@.len() == 10 && "knock_restricted"@.len() == 16);
    assert(texts(auth@).map_values(|s: Seq<char>| JsonView::Str(s)) =~= auth@.map_values(
        |s: String| JsonView::Str(s@),
    ));
}

proof fn lemma_join_content(authoriser: Option<Seq<char>>)
    ensures
        join_content(authoriser).get("membership"@) == Some(JsonView::Str("join"@)),
        join_content(authoriser).get("join_authorised_via_users_server"@) == (match authoriser {
            Some(a) => Some(JsonView::Str(a)),
            None => None,
        }),
{
    reveal_with_fuel(crate::json::member, 3);
    reveal_strlit("membership");
    reveal_strlit("join_authorised_via_users_server");
    let m = join_content(authoriser)->Object_0;
    assert(m[0].0 == "membership"@);
    assert("membership"@.len() == 10 && "join_authorised_via_users_server"@.len() == 32);
    if authoriser is Some {
        assert(m.drop_first()[0] == m[1]);
    }
}

proof fn lemma_template(
    f: MakeJoinFacts,
    content: JsonView,
    auth_events: Seq<Seq<char>>,
    extremities: Seq<Extremity>,
)
    ensures
        ({
            let t = join_template(f, content, auth_events, extremities);
            &&& t.get("type"@) == Some(JsonView::Str("m.room.member"@))
            &&& t.get("state_key"@) == Some(JsonView::Str(f.user_id@))
            &&& t.get("sender"@) == Some(JsonView::Str(f.user_id@))
            &&& t.get("room_id"@) == Some(JsonView::Str(f.room_id@))
            &&& t.get("content"@) == Some(content)
            &&& t.get("origin"@) == Some(JsonView::Str(f.origin@))
            &&& t.get("origin_server_ts"@) == Some(JsonView::Number(NumberView::Unsigned(f.now)))
            &&& t.get("depth"@) == Some(
                JsonView::Number(NumberView::Unsigned(next_depth(max_depth(extremities)))),
            )
            &&& t.get("prev_events"@) == Some(text_list(extremity_ids(extremities)))
            &&& t.get("auth_events"@) == Some(text_list(auth_events))
        }),
{
    reveal_with_fuel(crate::json::member, 11);
    reveal_strlit("type");
    reveal_strlit("state_key");
    reveal_strlit("sender");
    reveal_strlit("room_id");
    reveal_strlit("content");
    reveal_strlit("origin");
    reveal_strlit("origin_server_ts");
    reveal_strlit("depth");
    reveal_strlit("prev_events");
    reveal_strlit("auth_events");
    let m = join_template(f, content, auth_events, extremities)->Object_0;
    let m1 = m.drop_first();
    let m2 = m1.drop_first();
    let m3 = m2.drop_first();
    let m4 = m3.drop_first();
    let m5 = m4.drop_first();
    let m6 = m5.drop_first();
    let m7 = m6.drop_first();
    let m8 = m7.drop_first();
    let m9 = m8.drop_first();
    assert(m[0].0 == "type"@);
    assert(m1[0] == m[1] && m2[0] == m[2] && m3[0] == m[3] && m4[0] == m[4] && m5[0] == m[5]);
    assert(m6[0] == m[6] && m7[0] == m[7] && m8[0] == m[8] && m9[0] == m[9]);
    assert("type"@.len() == 4 && "state_key"@.len() == 9 && "sender"@.len() == 6);
    assert("room_id"@.len() == 7 && "content"@.len() == 7 && "origin"@.len() == 6);
    assert("origin_server_ts"@.len() == 16 && "depth"@.len() == 5);
    assert("prev_events"@.len() == 11 && "auth_events"@.len() == 11);
    assert("sender"@[0] == 's' && "origin"@[0] == 'o');
    assert("room_id"@[0] == 'r' && "content"@[0] == 'c');
    assert("prev_events"@[0] == 'p' && "auth_events"@[0] == 'a');
}

/// A join template is handed out exactly if the asking server lists version 12 and
/// is the user's own, the room is known and does not keep the server out, the user
/// is not banned, and the room is public, or restricted and somebody vouches for
/// the user, who is in a room of the allow list, or the user is invited.
pub proof fn law_who_gets_a_template(f: MakeJoinFacts)
    ensures
        make_join_next(f) is Reply <==> {
            let rule = match f.join_rules {
                Some(Some(c)) => match c@.get("join_rule"@) {
                    Some(JsonView::Str(r)) => r,
                    _ => "invite"@,
                },
                _ => "invite"@,
            };
            let restricted = rule == "restricted"@ || rule == "knock_restricted"@;
            &&& exists|i: int| 0 <= i < f.versions@.len() && (#[trigger] f.versions@[i])@ == "12"@
            &&& belongs_to(f.user_id@, f.origin@)
            &&& f.room matches Some(Some(_))
            &&& (f.acl matches Some(acl) && acl_refusal(json_of(acl), f.origin@) is None)
            &&& f.join_rules is Some
            &&& (f.membership matches Some(Ok(m)) && m != Some(3u8) && (rule == "public"@
                || restricted || m == Some(2u8)))
            &&& restricted ==> f.qualifies == Some(Ok::<bool, String>(true)) && (
            f.authoriser matches Some(Ok(Some(_))))
            &&& f.auth_events is Some
            &&& f.extremities matches Some(Ok(_))
        },
{
    reveal(acl_denial);
    let v = texts(f.versions@);
    if v.contains("12"@) {
        let i = choose|i: int| 0 <= i < v.len() && v[i] == "12"@;
        assert(f.versions@[i]@ == "12"@);
    }
    assert forall|i: int|
        0 <= i < f.versions@.len() && (#[trigger] f.versions@[i])@ == "12"@ implies v.contains(
        "12"@,
    ) by {
        assert(v[i] == "12"@);
    }
}

proof fn lemma_join_auth_found(auth: Seq<Seq<char>>, found: Seq<bool>, k: int)
    requires
        0 <= k,
    ensures
        join_auth(auth, found, k) is None <==> (k >= auth.len() || auth.len() <= found.len()) && (
        forall|j: int| k <= j < auth.len() ==> #[trigger] found[j]),
    decreases auth.len() - k,
{
    if k < auth.len() {
        lemma_join_auth_found(auth, found, k + 1);
        if join_auth(auth, found, k) is None {
            assert(found[k]);
        } else if k < found.len() && found[k] {
            assert(join_auth(auth, found, k + 1) is Some);
        }
    }
}

/// A submitted join is stored exactly if it is a user's own join, sent and signed
/// by their server and, where somebody of another server vouches for it, signed by
/// that server too; the room is known and does not keep the server out; its rules
/// let the user join; the event's id is the one that it was submitted under; the
/// user is not banned now; all auth events are stored and allow it; the reply is
/// ready, and it was not stored yet.
pub proof fn law_stored_joins(f: SendJoinFacts)
    ensures
        send_join_next(f) is Store <==> {
            let event = f.body->0@;
            let rule = match f.join_rules {
                Some(Some(c)) => match c@.get("join_rule"@) {
                    Some(JsonView::Str(r)) => r,
                    _ => "invite"@,
                },
                _ => "invite"@,
            };
            &&& f.body is Some
            &&& event.get("type"@) == Some(JsonView::Str("m.room.member"@))
            &&& (event.get("content"@) matches Some(c) && c.get("membership"@) == Some(
                JsonView::Str("join"@),
            ))
            &&& (event.get("sender"@) matches Some(JsonView::Str(user)) && event.get("state_key"@)
                == Some(JsonView::Str(user)) && (belongs_to(user, f.origin@) || (server_part(user)
                is None && f.origin@ == ""@)))
            &&& (f.sender_keys matches Some(Some(k)) && signature_search(
                event,
                f.origin@,
                k,
                f.sender_checks@,
            ) is Verified)
            &&& (event.get("content"@)->0.get("join_authorised_via_users_server"@) matches Some(
                JsonView::Str(voucher),
            ) ==> (server_part(voucher) matches Some(s) && s.len() > 0 && (s == f.origin@ || (
            f.voucher_keys matches Some(Some(k)) && signature_search(
                event,
                s,
                k,
                f.voucher_checks@,
            ) is Verified))))
            &&& f.room matches Some(Some(_))
            &&& (f.acl matches Some(acl) && acl_refusal(json_of(acl), f.origin@) is None)
            &&& f.join_rules is Some
            &&& (f.membership matches Some(Ok(m)) && (rule == "public"@ || rule == "restricted"@
                || rule == "knock_restricted"@ || m == Some(2u8)))
            &&& (f.computed_id matches Some(id) && id@ == f.event_id@)
            &&& f.content_hash is Some
            &&& (f.effective matches Some(Some(pdu)) && pdu@.state_key is Some
                && pdu@.auth_events.len() <= f.auth_found@.len() && (forall|j: int|
                0 <= j < pdu@.auth_events.len() ==> #[trigger] f.auth_found@[j]))
            &&& (f.current_membership matches Some(m) && !(m matches Some(x) && x@ == "ban"@))
            &&& f.auth_refusal == Some(None::<String>)
            &&& f.reply is Some
            &&& f.stored is None
        },
{
    reveal(acl_denial);
    reveal_strlit("");
    match f.effective {
        Some(Some(pdu)) => {
            lemma_join_auth_kind(pdu@.auth_events, f.auth_found@, 0);
            lemma_join_auth_found(pdu@.auth_events, f.auth_found@, 0);
        },
        _ => {},
    }
}

/// What is asked for on the way to a join's reply is what the join itself names:
/// its server's keys and those of the server that vouches for it, its room, its
/// user, its auth events, and the chain of those. The join counts in redacted form
/// exactly if its content has another hash than it states. The local users in the
/// room are told once, and before the server gets its reply.
pub proof fn law_join_steps(f: SendJoinFacts)
    ensures
        ({
            let event = f.body->0@;
            let q = f.effective->0->0@;
            let room = f.room->0->0;
            match send_join_next(f) {
                SendJoinView::FetchKeys { server } => server == f.origin@ || (event.get(
                    "content"@,
                ) matches Some(c) && (c.get("join_authorised_via_users_server"@) matches Some(
                    JsonView::Str(v),
                ) && server_part(v) == Some(server))),
                SendJoinView::VerifySignature { server, .. } => server == f.origin@ || (event.get(
                    "content"@,
                ) matches Some(c) && (c.get("join_authorised_via_users_server"@) matches Some(
                    JsonView::Str(v),
                ) && server_part(v) == Some(server))),
                SendJoinView::LookupMembership { room: r, user } => r == room && event.get(
                    "sender"@,
                ) == Some(JsonView::Str(user)),
                SendJoinView::LookupCurrentMembership { room: r, user } => r == room && event.get(
                    "sender"@,
                ) == Some(JsonView::Str(user)),
                SendJoinView::ReadEffective { redacted } => f.content_hash is Some && (redacted
                    <==> !(event.get("hashes"@) matches Some(h) && h.get("sha256"@) == Some(
                    JsonView::Str(f.content_hash->0@),
                ))),
                SendJoinView::CheckAuthEvents { room: r } => r == room,
                SendJoinView::CollectState { room: r, seeds } => r == room && seeds
                    == q.auth_events,
                SendJoinView::Store { room: r, kind, .. } => r == room && kind == PersistKind::Live,
                SendJoinView::LoadMembers { room: r, user } => r == room && event.get("sender"@)
                    == Some(JsonView::Str(user)) && f.stored == Some(None::<String>),
                SendJoinView::Tell { user, observers } => f.stored == Some(None::<String>) && (
                f.members matches Some(Some((nid, members))) && user == nid && observers
                    == locals_among(members@, f.server_name@, Some(nid)) && observers.len() > 0
                    && !f.told),
                SendJoinView::Reply { body } => f.stored == Some(None::<String>) && f.members
                    is Some && (f.reply matches Some((chain, state)) && body == join_reply(
                    values(chain@),
                    values(state@),
                )) && (f.members matches Some(Some((nid, members))) ==> f.told || locals_among(
                    members@,
                    f.server_name@,
                    Some(nid),
                ).len() == 0),
                _ => true,
            }
        }),
{
    reveal(acl_denial);
    reveal_strlit("");
    match f.effective {
        Some(Some(pdu)) => {
            lemma_join_auth_kind(pdu@.auth_events, f.auth_found@, 0);
        },
        _ => {},
    }
}

} // verus!
