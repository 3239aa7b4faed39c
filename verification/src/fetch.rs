//! What other servers may read of rooms: events, state, history, profiles and
//! the directory.

use vstd::prelude::*;
use vstd::string::*;

use crate::api::BAD_REQUEST;
use crate::api::FORBIDDEN;
use crate::api::INTERNAL_SERVER_ERROR;
use crate::api::NOT_FOUND;
use crate::auth_chain::answers_from;
use crate::auth_chain::auth_chain_union_event_ids;
use crate::auth_chain::auth_chain_union_pdu_json;
use crate::auth_chain::is_union_read;
use crate::auth_chain::is_unreadable;
use crate::auth_chain::union_of;
use crate::auth_chain::AuthGraph;
use crate::auth_chain::AuthLookup;
use crate::auth_chain::AUTH_CHAIN_MAX;
use crate::gaps::by_depth;
use crate::gaps::law_unvisited;
use crate::gaps::sort_by_depth;
use crate::gaps::unvisited;
use crate::json::lemma_values_push;
use crate::json::members;
use crate::json::opt_json;
use crate::json::put;
use crate::json::text_list;
use crate::json::values;
use crate::json::Json;
use crate::json::JsonView;
use crate::json::NumberView;
use crate::pdu::belongs_to;
use crate::pdu::id_belongs_to;
use crate::text::cat;
use crate::text::chars_of;
use crate::text::clone_list;
use crate::text::lemma_has_push;
use crate::text::lemma_texts_push;
use crate::text::list_has;
use crate::text::number_of;
use crate::text::opt_string;
use crate::text::parse_number;
use crate::text::pieces;
use crate::text::split;
use crate::text::split_once;
use crate::text::split_once_at;
use crate::text::str_eq;
use crate::text::texts;
use crate::visibility::hidden_from;
use crate::visibility::redact_for_origin_if_hidden;
use crate::visibility::redacts_by;
use crate::visibility::seen_by;
use crate::visibility::should_redact_for_origin;
use crate::visibility::state_views;
use crate::visibility::StateEvent;
use crate::visibility::StateEventView;

verus! {

/// How many missing events are given unless the request says otherwise.
pub const DEFAULT_MISSING_LIMIT: u32 = 10;

/// The most missing events that are given.
pub const MAX_MISSING_LIMIT: u32 = 100;

/// The query of a request for state.
pub struct StateQuery {
    pub event_id: String,
}

/// The body of a request for missing events.
pub struct MissingEventsRequest {
    pub earliest_events: Vec<String>,
    pub latest_events: Vec<String>,
    pub limit: Option<u32>,
    pub min_depth: Option<u32>,
}

/// The query of a request for a room alias.
pub struct DirectoryQuery {
    pub room_alias: String,
}

/// The query of a request for a profile.
pub struct ProfileQuery {
    pub user_id: String,
    pub field: Option<String>,
}

/// What is asked of the list of public rooms.
pub struct FederationPublicRoomsRequest {
    pub limit: Option<usize>,
    pub since: Option<String>,
    pub include_all_networks: Option<bool>,
    pub third_party_instance_id: Option<String>,
    pub generic_search_term: Option<String>,
    pub filter: Option<FederationPublicRoomsFilter>,
}

/// The filter of a request for public rooms.
pub struct FederationPublicRoomsFilter {
    pub generic_search_term: Option<String>,
}

/// The tracked membership of a user in a room.
pub struct MemberRecord {
    pub user_id: Option<String>,
    pub membership: u8,
}

/// Whether a record is of a joined user of a server.
pub open spec fn is_joined_from(m: MemberRecord, server: Seq<char>) -> bool {
    m.membership == 1 && match m.user_id {
        Some(id) => belongs_to(id@, server),
        None => false,
    }
}

/// Whether a server is in a room: one of its users is joined. Users that are
/// invited, knocking or gone do not count.
pub open spec fn resident(members: Seq<MemberRecord>, server: Seq<char>) -> bool {
    exists|i: int| 0 <= i < members.len() && is_joined_from(#[trigger] members[i], server)
}

/// Whether a server is in a room.
pub fn origin_in_room(members: &Vec<MemberRecord>, origin: &str) -> (r: bool)
    ensures
        r == resident(members@, origin@),
{
    let mut i: usize = 0;
    while i < members.len()
        invariant
            i <= members.len(),
            forall|j: int| 0 <= j < i ==> !is_joined_from(#[trigger] members@[j], origin@),
        decreases members.len() - i,
    {
        let m = &members[i];
        let local = match &m.user_id {
            Some(id) => id_belongs_to(id.as_str(), origin),
            None => false,
        };
        if m.membership == 1 && local {
            proof {
                assert(is_joined_from(members@[i as int], origin@));
            }
            return true;
        }
        i += 1;
    }
    false
}

/// The room of an event. A create event need not name it: its room's id is its
/// own with another sigil.
pub open spec fn event_room(event: JsonView, event_id: Seq<char>) -> Option<Seq<char>> {
    match event.str_at("room_id"@) {
        Some(r) => Some(r),
        None => if event.str_at("type"@) == Some("m.room.create"@) && event_id.len() > 0
            && event_id[0] == '$' {
            Some("!"@ + event_id.skip(1))
        } else {
            None
        },
    }
}

fn room_of_event(event: &Json, event_id: &str) -> (r: Option<String>)
    ensures
        opt_string(r) == event_room(event@, event_id@),
{
    match event.str_at("room_id") {
        Some(r) => Some(r.to_owned()),
        None => {
            let create = match event.str_at("type") {
                Some(t) => str_eq(t, "m.room.create"),
                None => false,
            };
            if !create {
                return None;
            }
            let chars = chars_of(event_id);
            let n: usize = chars.len();
            if n > 0 && chars[0] == '$' {
                let rest = event_id.substring_char(1, n);
                proof {
                    assert(rest@ =~= event_id@.skip(1));
                }
                Some(cat("!", rest))
            } else {
                None
            }
        },
    }
}

/// What is known so far about a request for an event.
pub struct GetEventFacts {
    pub event_id: String,
    pub origin: String,
    /// The event, if it is stored.
    pub event: Option<Option<Json>>,
    /// The members of its room, if that is known.
    pub members: Option<Option<Vec<MemberRecord>>>,
    /// The state at the event, if there is a record of it.
    pub state: Option<Option<Vec<StateEvent>>>,
    pub server_name: String,
    pub now: u64,
}

/// What to find out next about a request for an event, or the reply.
pub enum GetEventStep {
    LoadEvent,
    LoadMembers { room_id: String },
    /// Load the state at the event.
    LoadState,
    Reply { body: Json },
    Refuse(u16),
}

pub enum GetEventView {
    LoadEvent,
    LoadMembers { room_id: Seq<char> },
    LoadState,
    Reply { body: JsonView },
    Refuse(u16),
}

impl GetEventStep {
    pub open spec fn view(&self) -> GetEventView {
        match self {
            GetEventStep::LoadEvent => GetEventView::LoadEvent,
            GetEventStep::LoadMembers { room_id } => GetEventView::LoadMembers {
                room_id: room_id@,
            },
            GetEventStep::LoadState => GetEventView::LoadState,
            GetEventStep::Reply { body } => GetEventView::Reply { body: body@ },
            GetEventStep::Refuse(c) => GetEventView::Refuse(*c),
        }
    }
}

/// A reply in the shape of a transaction.
pub open spec fn transaction_json(server_name: Seq<char>, now: u64, pdus: Seq<JsonView>) -> JsonView {
    JsonView::Object(
        seq![
            ("origin"@, JsonView::Str(server_name)),
            ("origin_server_ts"@, JsonView::Number(NumberView::Unsigned(now))),
            ("pdus"@, JsonView::Array(pdus)),
        ],
    )
}

/// A reply in the shape of a transaction.
pub fn transaction_body(server_name: &str, now: u64, pdus: Vec<Json>) -> (r: Json)
    ensures
        r@ == transaction_json(server_name@, now, values(pdus@)),
{
    let ghost v = values(pdus@);
    let mut m: Vec<(String, Json)> = Vec::new();
    put(&mut m, "origin", Json::text(server_name));
    put(&mut m, "origin_server_ts", Json::number(now));
    put(&mut m, "pdus", Json::array(pdus));
    proof {
        assert(members(m@) =~= transaction_json(server_name@, now, v)->Object_0);
    }
    Json::object(m)
}

/// How a request for an event is answered. A server that is not in the event's
/// room learns no more than that there is no such event; any other gets the
/// event as it may see it.
pub open spec fn get_event_next(
    f: GetEventFacts,
    redacted: spec_fn(JsonView) -> JsonView,
) -> GetEventView {
    match f.event {
        None => GetEventView::LoadEvent,
        Some(None) => GetEventView::Refuse(NOT_FOUND),
        Some(Some(event)) => match event_room(event@, f.event_id@) {
            None => GetEventView::Refuse(NOT_FOUND),
            Some(room_id) => match f.members {
                None => GetEventView::LoadMembers { room_id },
                Some(None) => GetEventView::Refuse(NOT_FOUND),
                Some(Some(members)) => if !resident(members@, f.origin@) {
                    GetEventView::Refuse(NOT_FOUND)
                } else {
                    match f.state {
                        None => GetEventView::LoadState,
                        Some(state) => GetEventView::Reply {
                            body: transaction_json(
                                f.server_name@,
                                f.now,
                                seq![seen_by(recorded_state(state), f.origin@, event@, redacted)],
                            ),
                        },
                    }
                },
            },
        },
    }
}

/// The state at an event, if there is a record of it.
pub open spec fn recorded_state(state: Option<Vec<StateEvent>>) -> Option<Seq<StateEventView>> {
    match state {
        Some(s) => Some(state_views(s@)),
        None => None,
    }
}

/// Names what to find out next about a request for an event, or the reply.
pub fn get_event<R: Fn(&Json) -> Json>(f: &GetEventFacts, redact: R) -> (r: GetEventStep)
    requires
        forall|e: &Json| #[trigger] redact.requires((e,)),
    ensures
        forall|h: spec_fn(JsonView) -> JsonView| #[trigger]
            redacts_by(redact, h) ==> r@ == get_event_next(*f, h),
{
    let event = match &f.event {
        None => {
            return GetEventStep::LoadEvent;
        },
        Some(None) => {
            return GetEventStep::Refuse(NOT_FOUND);
        },
        Some(Some(e)) => e,
    };
    let room_id = match room_of_event(event, f.event_id.as_str()) {
        None => {
            return GetEventStep::Refuse(NOT_FOUND);
        },
        Some(r) => r,
    };
    match &f.members {
        None => {
            return GetEventStep::LoadMembers { room_id };
        },
        Some(None) => {
            return GetEventStep::Refuse(NOT_FOUND);
        },
        Some(Some(members)) => {
            if !origin_in_room(members, f.origin.as_str()) {
                return GetEventStep::Refuse(NOT_FOUND);
            }
        },
    }
    match &f.state {
        None => GetEventStep::LoadState,
        Some(state) => {
            let v = redact_for_origin_if_hidden(state.as_ref(), f.origin.as_str(), event, redact);
            let mut pdus: Vec<Json> = Vec::new();
            pdus.push(v);
            proof {
                assert(values(pdus@) =~= seq![v@]);
            }
            GetEventStep::Reply { body: transaction_body(f.server_name.as_str(), f.now, pdus) }
        },
    }
}

/// What is known of a room that a request names.
pub struct RoomFacts {
    pub members: Vec<MemberRecord>,
    /// Whether the room's state is still being fetched.
    pub partial_state: bool,
}

/// Whether a request about a room is refused: the server is not in it, or it is
/// not known who is.
pub open spec fn not_resident(room: Option<RoomFacts>, origin: Seq<char>) -> bool {
    match room {
        Some(r) => !resident(r.members@, origin),
        None => true,
    }
}

/// Whether a request for a room's state is refused: the server is not in the
/// room, or the state is not complete.
pub open spec fn state_refused(room: Option<RoomFacts>, origin: Seq<char>) -> bool {
    not_resident(room, origin) || room->0.partial_state
}

/// The refusal of a request about a room by a server that is not in it.
pub fn room_gate(room: &Option<RoomFacts>, origin: &str) -> (r: Option<u16>)
    ensures
        r == (if not_resident(*room, origin@) {
            Some(FORBIDDEN)
        } else {
            None
        }),
{
    match room {
        Some(f) => {
            if origin_in_room(&f.members, origin) {
                None
            } else {
                Some(FORBIDDEN)
            }
        },
        None => Some(FORBIDDEN),
    }
}

/// The refusal of a request for a room's state.
pub fn state_gate(room: &Option<RoomFacts>, origin: &str) -> (r: Option<u16>)
    ensures
        r == (if state_refused(*room, origin@) {
            Some(FORBIDDEN)
        } else {
            None
        }),
{
    match room {
        Some(f) => {
            if !origin_in_room(&f.members, origin) || f.partial_state {
                Some(FORBIDDEN)
            } else {
                None
            }
        },
        None => Some(FORBIDDEN),
    }
}

/// Whether an event is stored and of a room.
pub open spec fn is_of_room(
    room_id: Seq<char>,
    event_id: Seq<char>,
    event: Option<JsonView>,
) -> bool {
    event is Some && event_room(event->0, event_id) == Some(room_id)
}

/// The refusal of a request about an event and a room to which it does not
/// belong: the answer is the same as for an event that is not stored.
pub fn event_gate(room_id: &str, event_id: &str, event: Option<&Json>) -> (r: Option<u16>)
    ensures
        r == (if event is Some && event_room(event->0@, event_id@) == Some(room_id@) {
            None
        } else {
            Some(NOT_FOUND)
        }),
{
    match event {
        None => Some(NOT_FOUND),
        Some(e) => match room_of_event(e, event_id) {
            Some(room) => {
                if str_eq(room.as_str(), room_id) {
                    None
                } else {
                    Some(NOT_FOUND)
                }
            },
            None => Some(NOT_FOUND),
        },
    }
}

/// The refusal of a request for the state at an event of a room, if there is
/// one: the server is not in the room, the state is not complete, or the event
/// is none of the room's.
pub open spec fn state_withheld(
    room: Option<RoomFacts>,
    origin: Seq<char>,
    room_id: Seq<char>,
    event_id: Seq<char>,
    event: Option<JsonView>,
) -> Option<u16> {
    if state_refused(room, origin) {
        Some(FORBIDDEN)
    } else if !is_of_room(room_id, event_id, event) {
        Some(NOT_FOUND)
    } else {
        None
    }
}

/// The refusal of a request for the auth chain of an event of a room, if there
/// is one: the server is not in the room, or the event is none of the room's.
pub open spec fn chain_withheld(
    room: Option<RoomFacts>,
    origin: Seq<char>,
    room_id: Seq<char>,
    event_id: Seq<char>,
    event: Option<JsonView>,
) -> Option<u16> {
    if not_resident(room, origin) {
        Some(FORBIDDEN)
    } else if !is_of_room(room_id, event_id, event) {
        Some(NOT_FOUND)
    } else {
        None
    }
}

/// What working out the state before an event came to.
pub enum StateResult<T> {
    /// The work could not be done.
    Crashed,
    /// The event is not stored, or its state cannot be read.
    Failed,
    /// The event has no state before it.
    NoState,
    Found(T),
}

/// The auth chain that goes with a room's state: all ancestors of its events that
/// are stored, each once. If the store cannot be read there is none.
pub fn state_auth_chain<F: Fn(&str) -> AuthLookup, L: Fn(&str) -> Option<Json>>(
    state_ids: &Vec<String>,
    auth_of: F,
    load: L,
) -> (r: Vec<Json>)
    requires
        forall|s: &str| #[trigger] auth_of.requires((s,)),
        forall|s: &str| #[trigger] load.requires((s,)),
        state_ids@.len() <= usize::MAX - AUTH_CHAIN_MAX,
    ensures
        ({
            ||| exists|ids: Seq<Seq<char>>| #[trigger]
                is_union_read(auth_of, load, texts(state_ids@), ids, values(r@))
            ||| r@.len() == 0 && exists|e: Seq<char>| #[trigger]
                is_unreadable(auth_of, texts(state_ids@), e)
        }),
{
    match auth_chain_union_pdu_json(state_ids, auth_of, load) {
        Ok(v) => v,
        Err(e) => {
            proof {
                assert(is_unreadable(auth_of, texts(state_ids@), e@));
            }
            Vec::new()
        },
    }
}

/// The ids of the auth chain that goes with a room's state. If the store cannot
/// be read there are none.
pub fn state_auth_chain_ids<F: Fn(&str) -> AuthLookup>(
    state_ids: &Vec<String>,
    auth_of: F,
) -> (r: Vec<String>)
    requires
        forall|s: &str| #[trigger] auth_of.requires((s,)),
        state_ids@.len() <= usize::MAX - AUTH_CHAIN_MAX,
    ensures
        ({
            ||| forall|g: AuthGraph| #[trigger]
                answers_from(auth_of, g) ==> union_of(g, texts(state_ids@), texts(r@))
            ||| r@.len() == 0 && exists|e: Seq<char>| #[trigger]
                is_unreadable(auth_of, texts(state_ids@), e)
        }),
{
    match auth_chain_union_event_ids(state_ids, auth_of) {
        Ok(v) => v,
        Err(e) => {
            proof {
                assert(is_unreadable(auth_of, texts(state_ids@), e@));
            }
            Vec::new()
        },
    }
}

/// A room's state and its auth chain, whole.
pub open spec fn state_reply(state: Seq<JsonView>, chain: Seq<JsonView>) -> JsonView {
    JsonView::Object(
        seq![("pdus"@, JsonView::Array(state)), ("auth_chain"@, JsonView::Array(chain))],
    )
}

/// A room's state and its auth chain by ids.
pub open spec fn state_ids_reply(state: Seq<Seq<char>>, chain: Seq<Seq<char>>) -> JsonView {
    JsonView::Object(
        seq![("pdu_ids"@, text_list(state)), ("auth_chain_ids"@, text_list(chain))],
    )
}

/// Whether a reply is the one to what working out a room's state came to.
pub open spec fn tells_state(
    result: StateResult<(Vec<Json>, Vec<Json>)>,
    r: Result<Json, u16>,
) -> bool {
    match result {
        StateResult::Crashed => r == Err::<Json, u16>(INTERNAL_SERVER_ERROR),
        StateResult::Failed => r == Err::<Json, u16>(NOT_FOUND),
        StateResult::NoState => r == Err::<Json, u16>(BAD_REQUEST),
        StateResult::Found((pdus, chain)) => r matches Ok(b) && b@ == state_reply(
            values(pdus@),
            values(chain@),
        ),
    }
}

/// The reply to a request for a room's state at an event: the state and its auth
/// chain.
pub fn get_state(
    room: &Option<RoomFacts>,
    origin: &str,
    result: StateResult<(Vec<Json>, Vec<Json>)>,
) -> (r: Result<Json, u16>)
    ensures
        if state_refused(*room, origin@) {
            r == Err::<Json, u16>(FORBIDDEN)
        } else {
            tells_state(result, r)
        },
{
    match state_gate(room, origin) {
        Some(c) => {
            return Err(c);
        },
        None => {},
    }
    match result {
        StateResult::Crashed => Err(INTERNAL_SERVER_ERROR),
        StateResult::Failed => Err(NOT_FOUND),
        StateResult::NoState => Err(BAD_REQUEST),
        StateResult::Found((pdus, chain)) => {
            let ghost a = values(pdus@);
            let ghost b = values(chain@);
            let mut m: Vec<(String, Json)> = Vec::new();
            put(&mut m, "pdus", Json::array(pdus));
            put(&mut m, "auth_chain", Json::array(chain));
            proof {
                assert(members(m@) =~= state_reply(a, b)->Object_0);
            }
            Ok(Json::object(m))
        },
    }
}

/// The reply to a request for the state at an event of a room. The event must be
/// one of the room's.
pub fn serve_state(
    room: &Option<RoomFacts>,
    origin: &str,
    room_id: &str,
    event_id: &str,
    event: Option<&Json>,
    result: StateResult<(Vec<Json>, Vec<Json>)>,
) -> (r: Result<Json, u16>)
    ensures
        match state_withheld(*room, origin@, room_id@, event_id@, opt_json(event)) {
            Some(status) => r == Err::<Json, u16>(status),
            None => tells_state(result, r),
        },
{
    match (state_gate(room, origin), event_gate(room_id, event_id, event)) {
        (None, Some(status)) => Err(status),
        (_, _) => get_state(room, origin, result),
    }
}

/// Whether a reply is the one to what working out the ids of a room's state came
/// to.
pub open spec fn tells_state_ids(
    result: StateResult<(Vec<String>, Vec<String>)>,
    r: Result<Json, u16>,
) -> bool {
    match result {
        StateResult::Crashed => r == Err::<Json, u16>(INTERNAL_SERVER_ERROR),
        StateResult::Failed => r == Err::<Json, u16>(NOT_FOUND),
        StateResult::NoState => r == Err::<Json, u16>(BAD_REQUEST),
        StateResult::Found((ids, chain)) => r matches Ok(b) && b@ == state_ids_reply(
            texts(ids@),
            texts(chain@),
        ),
    }
}

/// The reply to a request for the ids of a room's state at an event.
pub fn get_state_ids(
    room: &Option<RoomFacts>,
    origin: &str,
    result: &StateResult<(Vec<String>, Vec<String>)>,
) -> (r: Result<Json, u16>)
    ensures
        if state_refused(*room, origin@) {
            r == Err::<Json, u16>(FORBIDDEN)
        } else {
            tells_state_ids(*result, r)
        },
{
    match state_gate(room, origin) {
        Some(c) => {
            return Err(c);
        },
        None => {},
    }
    match result {
        StateResult::Crashed => Err(INTERNAL_SERVER_ERROR),
        StateResult::Failed => Err(NOT_FOUND),
        StateResult::NoState => Err(BAD_REQUEST),
        StateResult::Found((ids, chain)) => {
            let mut m: Vec<(String, Json)> = Vec::new();
            put(&mut m, "pdu_ids", Json::text_array(ids));
            put(&mut m, "auth_chain_ids", Json::text_array(chain));
            proof {
                assert(members(m@) =~= state_ids_reply(texts(ids@), texts(chain@))->Object_0);
            }
            Ok(Json::object(m))
        },
    }
}

/// The reply to a request for the ids of the state at an event of a room. The
/// event must be one of the room's.
pub fn serve_state_ids(
    room: &Option<RoomFacts>,
    origin: &str,
    room_id: &str,
    event_id: &str,
    event: Option<&Json>,
    result: &StateResult<(Vec<String>, Vec<String>)>,
) -> (r: Result<Json, u16>)
    ensures
        match state_withheld(*room, origin@, room_id@, event_id@, opt_json(event)) {
            Some(status) => r == Err::<Json, u16>(status),
            None => tells_state_ids(*result, r),
        },
{
    match (state_gate(room, origin), event_gate(room_id, event_id, event)) {
        (None, Some(status)) => Err(status),
        (_, _) => get_state_ids(room, origin, result),
    }
}

/// The id of a room's create event: the room's with another sigil.
pub open spec fn create_id(room_id: Seq<char>) -> Option<Seq<char>> {
    if room_id.len() > 0 && room_id[0] == '!' {
        Some("$"@ + room_id.skip(1))
    } else {
        None
    }
}

/// The id of a room's create event.
pub fn create_event_id(room_id: &str) -> (r: Option<String>)
    ensures
        opt_string(r) == create_id(room_id@),
{
    let chars = chars_of(room_id);
    let n: usize = chars.len();
    if n > 0 && chars[0] == '!' {
        let rest = room_id.substring_char(1, n);
        proof {
            assert(rest@ =~= room_id@.skip(1));
        }
        Some(cat("$", rest))
    } else {
        None
    }
}

/// Whether a reply is the one to a request for an auth chain: the create event of
/// the room, if it is stored, and the chain.
pub open spec fn tells_chain(
    chain: Option<Vec<Json>>,
    create: Option<JsonView>,
    r: Result<Json, u16>,
) -> bool {
    match chain {
        None => r == Err::<Json, u16>(NOT_FOUND),
        Some(c) => r matches Ok(b) && b@ == JsonView::Object(
            seq![
                (
                    "auth_chain"@,
                    JsonView::Array(
                        match create {
                            Some(e) => seq![e] + values(c@),
                            None => values(c@),
                        },
                    ),
                ),
            ],
        ),
    }
}

/// The reply to a request for an event's auth chain: the create event of the
/// room, if it is stored, and the chain.
pub fn get_event_auth(
    room: &Option<RoomFacts>,
    origin: &str,
    chain: Option<Vec<Json>>,
    create: Option<&Json>,
) -> (r: Result<Json, u16>)
    ensures
        if not_resident(*room, origin@) {
            r == Err::<Json, u16>(FORBIDDEN)
        } else {
            tells_chain(chain, opt_json(create), r)
        },
{
    match room_gate(room, origin) {
        Some(c) => {
            return Err(c);
        },
        None => {},
    }
    match chain {
        None => Err(NOT_FOUND),
        Some(c) => {
            let ghost before = values(c@);
            let mut list = c;
            match create {
                Some(e) => {
                    let x = e.copy();
                    proof {
                        assert(values(list@.insert(0, x)) =~= seq![e@] + before);
                    }
                    list.insert(0, x);
                },
                None => {},
            }
            let ghost all = values(list@);
            let mut m: Vec<(String, Json)> = Vec::new();
            put(&mut m, "auth_chain", Json::array(list));
            proof {
                assert(members(m@) =~= seq![("auth_chain"@, JsonView::Array(all))]);
            }
            Ok(Json::object(m))
        },
    }
}

/// The reply to a request for the auth chain of an event of a room. The event
/// must be one of the room's.
pub fn serve_event_auth(
    room: &Option<RoomFacts>,
    origin: &str,
    room_id: &str,
    event_id: &str,
    event: Option<&Json>,
    chain: Option<Vec<Json>>,
    create: Option<&Json>,
) -> (r: Result<Json, u16>)
    ensures
        match chain_withheld(*room, origin@, room_id@, event_id@, opt_json(event)) {
            Some(status) => r == Err::<Json, u16>(status),
            None => tells_chain(chain, opt_json(create), r),
        },
{
    match (room_gate(room, origin), event_gate(room_id, event_id, event)) {
        (None, Some(status)) => Err(status),
        (_, _) => get_event_auth(room, origin, chain, create),
    }
}

/// The values of the `v` parameters of a query.
pub open spec fn v_parameters(pairs: Seq<Seq<char>>) -> Seq<Seq<char>>
    decreases pairs.len(),
{
    if pairs.len() == 0 {
        seq![]
    } else {
        let before = v_parameters(pairs.drop_last());
        match split_once_at(pairs.last(), '=') {
            Some((k, val)) => if k == "v"@ {
                before.push(val)
            } else {
                before
            },
            None => before,
        }
    }
}

/// The number that the last `limit` parameter of a query states.
pub open spec fn limit_parameter(pairs: Seq<Seq<char>>) -> Option<nat>
    decreases pairs.len(),
{
    if pairs.len() == 0 {
        None
    } else {
        match split_once_at(pairs.last(), '=') {
            Some((k, val)) => if k == "limit"@ {
                number_of(val, u32::MAX as nat)
            } else {
                limit_parameter(pairs.drop_last())
            },
            None => limit_parameter(pairs.drop_last()),
        }
    }
}

/// How many events a request for a room's past gets: ten unless it says
/// otherwise, a hundred at most.
pub open spec fn capped_limit(limit: Option<nat>) -> nat {
    match limit {
        None => 10,
        Some(n) => if n <= 100 {
            n
        } else {
            100
        },
    }
}

/// The starting points and the limit of a request for a room's past, from its
/// query; one without starting points is refused. Values are taken as they
/// stand, without decoding.
pub fn parse_backfill_query(raw: Option<&str>) -> (r: Result<(Vec<String>, usize), u16>)
    ensures
        ({
            let pairs = query_pieces(raw);
            if v_parameters(pairs).len() == 0 {
                r == Err::<(Vec<String>, usize), u16>(BAD_REQUEST)
            } else {
                r matches Ok((v, limit)) && texts(v@) == v_parameters(pairs) && limit
                    == capped_limit(limit_parameter(pairs))
            }
        }),
{
    let ghost pairs = match raw {
        Some(q) => pieces(q@, '&'),
        None => seq![],
    };
    let mut v: Vec<String> = Vec::new();
    let mut limit: Option<u64> = None;
    proof {
        assert(texts(v@) =~= seq![]);
    }
    match raw {
        Some(q) => {
            let parts = split(q, '&');
            let mut i: usize = 0;
            proof {
                assert(pairs.take(0) =~= seq![]);
            }
            while i < parts.len()
                invariant
                    i <= parts.len(),
                    pairs == texts(parts@),
                    texts(v@) == v_parameters(pairs.take(i as int)),
                    limit_parameter(pairs.take(i as int)) == (match limit {
                        Some(n) => Some(n as nat),
                        None => None,
                    }),
                decreases parts.len() - i,
            {
                proof {
                    assert(pairs.take(i + 1).drop_last() =~= pairs.take(i as int));
                    assert(pairs.take(i + 1).last() == parts@[i as int]@);
                }
                match split_once(parts[i].as_str(), '=') {
                    Some((k, val)) => {
                        proof {
                            reveal_strlit("v");
                            reveal_strlit("limit");
                            assert("v"@.len() != "limit"@.len());
                        }
                        if str_eq(k, "v") {
                            let s = val.to_owned();
                            proof {
                                lemma_texts_push(v@, s);
                            }
                            v.push(s);
                        } else if str_eq(k, "limit") {
                            limit = parse_number(val, u32::MAX as u64);
                        }
                    },
                    None => {},
                }
                i += 1;
            }
            proof {
                assert(pairs.take(i as int) =~= pairs);
            }
        },
        None => {},
    }
    proof {
        assert(texts(v@).len() == v@.len());
    }
    if v.len() == 0 {
        return Err(BAD_REQUEST);
    }
    let n: usize = match limit {
        None => 10,
        Some(n) => {
            if n <= 100 {
                n as usize
            } else {
                100
            }
        },
    };
    Ok((v, n))
}

/// What is stored of an event.
pub struct StoredEvent {
    /// The event, if it can be read.
    pub json: Option<Json>,
    pub prev_events: Vec<String>,
    /// The state at the event, if there is a record of it.
    pub state: Option<Vec<StateEvent>>,
}

/// The mathematical value of what is stored of an event.
pub struct StoredView {
    pub json: Option<JsonView>,
    pub prev_events: Seq<Seq<char>>,
    pub state: Option<Seq<StateEventView>>,
}

impl StoredEvent {
    pub open spec fn view(&self) -> StoredView {
        StoredView {
            json: match self.json {
                Some(j) => Some(j@),
                None => None,
            },
            prev_events: texts(self.prev_events@),
            state: recorded_state(self.state),
        }
    }
}

/// The stored events by id; `None` for an event that is not stored.
pub type EventStore = spec_fn(Seq<char>) -> Option<StoredView>;

/// Whether a lookup answers from what is stored.
pub open spec fn looks_up<F: Fn(&str) -> Option<StoredEvent>>(f: F, g: EventStore) -> bool {
    forall|s: &str, a: Option<StoredEvent>| #[trigger]
        f.ensures((s,), a) ==> g(s@) == (match a {
            Some(e) => Some(e@),
            None => None,
        })
}

/// The events that a request about a room can reach: whether each can be served,
/// and its predecessors.
pub type EventGraph = spec_fn(Seq<char>) -> Option<(bool, Seq<Seq<char>>)>;

/// What a request about a room can reach of an event: nothing, if the event is
/// of another room.
pub open spec fn reachable(e: Option<StoredView>, id: Seq<char>, room_id: Seq<char>) -> Option<
    (bool, Seq<Seq<char>>),
> {
    match e {
        None => None,
        Some(v) => match v.json {
            None => Some((false, v.prev_events)),
            Some(j) => if event_room(j, id) == Some(room_id) {
                Some((true, v.prev_events))
            } else {
                None
            },
        },
    }
}

/// The events of a room.
pub open spec fn room_graph(g: EventStore, room_id: Seq<char>) -> EventGraph {
    |id: Seq<char>| reachable(g(id), id, room_id)
}

/// Whether an event can be served in a request about a room, if it can be
/// reached at all.
fn reach(e: &StoredEvent, id: &str, room_id: &str) -> (r: Option<bool>)
    ensures
        match r {
            Some(b) => reachable(Some(e@), id@, room_id@) == Some((b, texts(e.prev_events@))),
            None => reachable(Some(e@), id@, room_id@) is None,
        },
        r == Some(true) ==> e.json is Some,
{
    match &e.json {
        None => Some(false),
        Some(j) => match room_of_event(j, id) {
            Some(r) => {
                if str_eq(r.as_str(), room_id) {
                    Some(true)
                } else {
                    None
                }
            },
            None => None,
        },
    }
}

/// Some stored events as a server may see them.
pub open spec fn served(
    ids: Seq<Seq<char>>,
    g: EventStore,
    origin: Seq<char>,
    redacted: spec_fn(JsonView) -> JsonView,
) -> Seq<JsonView>
    decreases ids.len(),
{
    if ids.len() == 0 {
        seq![]
    } else {
        let front = served(ids.drop_last(), g, origin, redacted);
        match g(ids.last()) {
            Some(v) => match v.json {
                Some(j) => front.push(seen_by(v.state, origin, j, redacted)),
                None => front,
            },
            None => front,
        }
    }
}

/// The walk back from some events, breadth first: every event once, as long as
/// it is stored and can be read, up to a limit.
pub open spec fn backfill_walk(
    g: EventGraph,
    queue: Seq<Seq<char>>,
    seen: Seq<Seq<char>>,
    out: Seq<Seq<char>>,
    limit: int,
) -> Seq<Seq<char>>
    decreases limit - out.len(), queue.len(),
{
    if queue.len() == 0 || out.len() >= limit {
        out
    } else {
        let id = queue[0];
        let rest = queue.drop_first();
        let now_seen = seen.push(id);
        if seen.contains(id) {
            backfill_walk(g, rest, seen, out, limit)
        } else {
            match g(id) {
                Some((true, prevs)) => backfill_walk(
                    g,
                    rest + unvisited(prevs, now_seen),
                    now_seen,
                    out.push(id),
                    limit,
                ),
                _ => backfill_walk(g, rest, now_seen, out, limit),
            }
        }
    }
}

/// Appends to a queue what was not seen.
fn enqueue_unseen(queue: &mut Vec<String>, prevs: &Vec<String>, seen: &Vec<String>)
    ensures
        texts(final(queue)@) == texts(old(queue)@) + unvisited(texts(prevs@), texts(seen@)),
{
    let ghost base = texts(queue@);
    let ghost t = texts(prevs@);
    let mut j: usize = 0;
    proof {
        assert(t.take(0) =~= seq![]);
        assert(base + unvisited(t.take(0), texts(seen@)) =~= base);
    }
    while j < prevs.len()
        invariant
            j <= prevs.len(),
            t == texts(prevs@),
            texts(queue@) == base + unvisited(t.take(j as int), texts(seen@)),
        decreases prevs.len() - j,
    {
        proof {
            assert(t.take(j + 1).drop_last() =~= t.take(j as int));
            assert(t.take(j + 1).last() == prevs@[j as int]@);
        }
        if !list_has(seen, prevs[j].as_str()) {
            let p = prevs[j].clone();
            proof {
                lemma_texts_push(queue@, p);
            }
            queue.push(p);
            proof {
                assert(texts(queue@) =~= base + unvisited(t.take(j + 1), texts(seen@)));
            }
        }
        j += 1;
    }
    proof {
        assert(t.take(j as int) =~= t);
    }
}

/// The pieces of a query.
pub open spec fn query_pieces(raw: Option<&str>) -> Seq<Seq<char>> {
    match raw {
        Some(q) => pieces(q@, '&'),
        None => seq![],
    }
}

/// The events of a room's past that a query asks for.
pub open spec fn backfilled_ids(g: EventStore, room_id: Seq<char>, raw: Option<&str>) -> Seq<
    Seq<char>,
> {
    backfill_walk(
        room_graph(g, room_id),
        v_parameters(query_pieces(raw)),
        seq![],
        seq![],
        capped_limit(limit_parameter(query_pieces(raw))) as int,
    )
}

/// Answers a request for a room's past: the events of the room before those that
/// the query names, near ones first, as the server may see them. Only a server
/// in the room gets any.
pub fn get_backfill<F: Fn(&str) -> Option<StoredEvent>, R: Fn(&Json) -> Json>(
    room: &Option<RoomFacts>,
    room_id: &str,
    origin: &str,
    query: Option<&str>,
    server_name: &str,
    now: u64,
    lookup: F,
    redact: R,
) -> (r: Result<Json, u16>)
    requires
        forall|s: &str| #[trigger] lookup.requires((s,)),
        forall|e: &Json| #[trigger] redact.requires((e,)),
    ensures
        if not_resident(*room, origin@) {
            r == Err::<Json, u16>(FORBIDDEN)
        } else if v_parameters(query_pieces(query)).len() == 0 {
            r == Err::<Json, u16>(BAD_REQUEST)
        } else {
            r is Ok && forall|g: EventStore, h: spec_fn(JsonView) -> JsonView|
                #![trigger looks_up(lookup, g), redacts_by(redact, h)]
                looks_up(lookup, g) && redacts_by(redact, h) ==> r->Ok_0@ == transaction_json(
                    server_name@,
                    now,
                    served(backfilled_ids(g, room_id@, query), g, origin@, h),
                )
        },
{
    match room_gate(room, origin) {
        Some(c) => {
            return Err(c);
        },
        None => {},
    }
    let (starts, limit) = match parse_backfill_query(query) {
        Ok(p) => p,
        Err(c) => {
            return Err(c);
        },
    };
    let mut queue: Vec<String> = clone_list(&starts);
    let mut head: usize = 0;
    let mut seen: Vec<String> = Vec::new();
    let mut out: Vec<String> = Vec::new();
    let mut events: Vec<Json> = Vec::new();
    let ghost q0 = texts(starts@);
    proof {
        assert(texts(seen@) =~= seq![]);
        assert(texts(out@) =~= seq![]);
        assert(values(events@) =~= seq![]);
        assert(texts(queue@).skip(0) =~= q0);
    }
    while head < queue.len() && out.len() < limit
        invariant
            forall|s: &str| #[trigger] lookup.requires((s,)),
            forall|e: &Json| #[trigger] redact.requires((e,)),
            head <= queue.len(),
            q0 == texts(starts@),
            out.len() <= limit,
            forall|g: EventStore| #[trigger]
                looks_up(lookup, g) ==> backfill_walk(
                    room_graph(g, room_id@),
                    q0,
                    seq![],
                    seq![],
                    limit as int,
                ) == backfill_walk(
                    room_graph(g, room_id@),
                    texts(queue@).skip(head as int),
                    texts(seen@),
                    texts(out@),
                    limit as int,
                ),
            forall|g: EventStore, h: spec_fn(JsonView) -> JsonView|
                #![trigger looks_up(lookup, g), redacts_by(redact, h)]
                looks_up(lookup, g) && redacts_by(redact, h) ==> values(events@) == served(
                    texts(out@),
                    g,
                    origin@,
                    h,
                ),
        decreases limit - out.len(), queue.len() - head,
    {
        let ghost rest0 = texts(queue@).skip(head as int);
        let id = queue[head].clone();
        head += 1;
        let ghost rest = texts(queue@).skip(head as int);
        proof {
            assert(rest0[0] == id@);
            assert(rest0.drop_first() =~= rest);
            assert(texts(out@).len() == out@.len());
        }
        if !list_has(&seen, id.as_str()) {
            let s = id.clone();
            proof {
                lemma_texts_push(seen@, s);
            }
            seen.push(s);
            match lookup(id.as_str()) {
                Some(e) => match (reach(&e, id.as_str(), room_id), &e.json) {
                    (Some(true), Some(j)) => {
                        let v = if should_redact_for_origin(e.state.as_ref(), origin) {
                            redact(j)
                        } else {
                            j.copy()
                        };
                        proof {
                            lemma_texts_push(out@, id);
                            lemma_values_push(events@, v);
                            assert(texts(out@).push(id@).drop_last() =~= texts(out@));
                        }
                        events.push(v);
                        out.push(id);
                        enqueue_unseen(&mut queue, &e.prev_events, &seen);
                        proof {
                            assert(texts(queue@).skip(head as int) =~= rest + unvisited(
                                texts(e.prev_events@),
                                texts(seen@),
                            ));
                        }
                    },
                    _ => {},
                },
                None => {},
            }
        }
    }
    proof {
        assert(texts(out@).len() == out@.len());
        assert(texts(queue@).len() == queue@.len());
    }
    Ok(transaction_body(server_name, now, events))
}

/// How many events of a list were not seen.
pub open spec fn unseen_count(v: Seq<Seq<char>>, seen: Seq<Seq<char>>) -> nat {
    unvisited(v, seen).len()
}

proof fn lemma_unseen_shrinks(v: Seq<Seq<char>>, seen: Seq<Seq<char>>, x: Seq<char>)
    ensures
        unseen_count(v, seen.push(x)) <= unseen_count(v, seen),
        v.contains(x) && !seen.contains(x) ==> unseen_count(v, seen.push(x)) < unseen_count(
            v,
            seen,
        ),
    decreases v.len(),
{
    if v.len() > 0 {
        let last = v.last();
        lemma_unseen_shrinks(v.drop_last(), seen, x);
        let more = seen.push(x);
        if seen.contains(last) {
            let i = choose|i: int| 0 <= i < seen.len() && seen[i] == last;
            assert(more[i] == last);
        }
        if more.contains(last) && !seen.contains(last) {
            let i = choose|i: int| 0 <= i < more.len() && more[i] == last;
            assert(i == seen.len());
            assert(last == x);
        }
        if last == x {
            assert(more[seen.len() as int] == x);
        }
        if v.contains(x) && last != x {
            let i = choose|i: int| 0 <= i < v.len() && v[i] == x;
            assert(v.drop_last()[i] == x);
        }
    }
}

/// What of some predecessors a search for missing events goes on with: those
/// that were not seen and do not end it.
pub open spec fn further(
    prevs: Seq<Seq<char>>,
    seen: Seq<Seq<char>>,
    earliest: Seq<Seq<char>>,
) -> Seq<Seq<char>> {
    unvisited(unvisited(prevs, seen), earliest)
}

/// The walk back from the latest events to the earliest, breadth first: the
/// events in between, each once, up to a limit. The latest events themselves are
/// not among them.
pub open spec fn missing_walk(
    g: EventGraph,
    queue: Seq<Seq<char>>,
    seen: Seq<Seq<char>>,
    out: Seq<Seq<char>>,
    limit: int,
    earliest: Seq<Seq<char>>,
    latest: Seq<Seq<char>>,
) -> Seq<Seq<char>>
    decreases limit - out.len() + unseen_count(latest, seen), queue.len(),
    via missing_walk_shrinks
{
    if queue.len() == 0 || out.len() >= limit {
        out
    } else {
        let id = queue[0];
        let rest = queue.drop_first();
        let now_seen = seen.push(id);
        if earliest.contains(id) || seen.contains(id) {
            missing_walk(g, rest, seen, out, limit, earliest, latest)
        } else {
            match g(id) {
                None => missing_walk(g, rest, now_seen, out, limit, earliest, latest),
                Some((readable, prevs)) => {
                    let next = rest + further(prevs, now_seen, earliest);
                    if latest.contains(id) {
                        missing_walk(g, next, now_seen, out, limit, earliest, latest)
                    } else if readable {
                        missing_walk(g, next, now_seen, out.push(id), limit, earliest, latest)
                    } else {
                        missing_walk(g, rest, now_seen, out, limit, earliest, latest)
                    }
                },
            }
        }
    }
}

#[via_fn]
proof fn missing_walk_shrinks(
    g: EventGraph,
    queue: Seq<Seq<char>>,
    seen: Seq<Seq<char>>,
    out: Seq<Seq<char>>,
    limit: int,
    earliest: Seq<Seq<char>>,
    latest: Seq<Seq<char>>,
) {
    if queue.len() > 0 {
        lemma_unseen_shrinks(latest, seen, queue[0]);
    }
}

/// How many missing events a request gets.
pub open spec fn missing_limit(limit: Option<u32>) -> u32 {
    match limit {
        None => DEFAULT_MISSING_LIMIT,
        Some(n) => if n <= MAX_MISSING_LIMIT {
            n
        } else {
            MAX_MISSING_LIMIT
        },
    }
}

proof fn lemma_unvisited_push(v: Seq<Seq<char>>, x: Seq<char>, seen: Seq<Seq<char>>)
    ensures
        unvisited(v.push(x), seen) == (if seen.contains(x) {
            unvisited(v, seen)
        } else {
            unvisited(v, seen).push(x)
        }),
{
    assert(v.push(x).drop_last() =~= v);
}

fn enqueue_further(
    queue: &mut Vec<String>,
    prevs: &Vec<String>,
    seen: &Vec<String>,
    earliest: &Vec<String>,
)
    ensures
        texts(final(queue)@) == texts(old(queue)@) + further(
            texts(prevs@),
            texts(seen@),
            texts(earliest@),
        ),
{
    let ghost base = texts(queue@);
    let ghost t = texts(prevs@);
    let ghost s = texts(seen@);
    let ghost e = texts(earliest@);
    let mut j: usize = 0;
    proof {
        assert(t.take(0) =~= seq![]);
        assert(unvisited(t.take(0), s) =~= seq![]);
        assert(base + further(t.take(0), s, e) =~= base);
    }
    while j < prevs.len()
        invariant
            j <= prevs.len(),
            t == texts(prevs@),
            s == texts(seen@),
            e == texts(earliest@),
            texts(queue@) == base + further(t.take(j as int), s, e),
        decreases prevs.len() - j,
    {
        proof {
            assert(t.take(j + 1) =~= t.take(j as int).push(prevs@[j as int]@));
            lemma_unvisited_push(t.take(j as int), prevs@[j as int]@, s);
            lemma_unvisited_push(unvisited(t.take(j as int), s), prevs@[j as int]@, e);
        }
        if !list_has(seen, prevs[j].as_str()) && !list_has(earliest, prevs[j].as_str()) {
            let p = prevs[j].clone();
            proof {
                lemma_texts_push(queue@, p);
            }
            queue.push(p);
            proof {
                assert(texts(queue@) =~= base + further(t.take(j + 1), s, e));
            }
        }
        j += 1;
    }
    proof {
        assert(t.take(j as int) =~= t);
    }
}

/// The events of a room between the latest and the earliest that a request
/// names.
pub open spec fn missing_ids(g: EventStore, room_id: Seq<char>, req: MissingEventsRequest) -> Seq<
    Seq<char>,
> {
    missing_walk(
        room_graph(g, room_id),
        texts(req.latest_events@),
        seq![],
        seq![],
        missing_limit(req.limit) as int,
        texts(req.earliest_events@),
        texts(req.latest_events@),
    )
}

/// Answers a request for missing events: the events of the room between the
/// latest and the earliest that the server names, oldest first, as the server
/// may see them. Only a server in the room gets any.
pub fn get_missing_events<F: Fn(&str) -> Option<StoredEvent>, R: Fn(&Json) -> Json>(
    room: &Option<RoomFacts>,
    room_id: &str,
    origin: &str,
    req: &MissingEventsRequest,
    lookup: F,
    redact: R,
) -> (r: Result<Json, u16>)
    requires
        forall|s: &str| #[trigger] lookup.requires((s,)),
        forall|e: &Json| #[trigger] redact.requires((e,)),
    ensures
        if not_resident(*room, origin@) {
            r == Err::<Json, u16>(FORBIDDEN)
        } else {
            r is Ok && forall|g: EventStore, h: spec_fn(JsonView) -> JsonView|
                #![trigger looks_up(lookup, g), redacts_by(redact, h)]
                looks_up(lookup, g) && redacts_by(redact, h) ==> r->Ok_0@ == missing_reply(
                    served(missing_ids(g, room_id@, *req), g, origin@, h),
                )
        },
{
    match room_gate(room, origin) {
        Some(c) => {
            return Err(c);
        },
        None => {},
    }
    let limit: usize = match req.limit {
        None => DEFAULT_MISSING_LIMIT as usize,
        Some(n) => {
            if n <= MAX_MISSING_LIMIT {
                n as usize
            } else {
                MAX_MISSING_LIMIT as usize
            }
        },
    };
    let mut queue: Vec<String> = clone_list(&req.latest_events);
    let mut head: usize = 0;
    let mut seen: Vec<String> = Vec::new();
    let mut out: Vec<String> = Vec::new();
    let mut events: Vec<Json> = Vec::new();
    let ghost early = texts(req.earliest_events@);
    let ghost late = texts(req.latest_events@);
    proof {
        assert(texts(seen@) =~= seq![]);
        assert(texts(out@) =~= seq![]);
        assert(values(events@) =~= seq![]);
        assert(texts(queue@).skip(0) =~= late);
    }
    while head < queue.len() && out.len() < limit
        invariant
            forall|s: &str| #[trigger] lookup.requires((s,)),
            forall|e: &Json| #[trigger] redact.requires((e,)),
            head <= queue.len(),
            limit == missing_limit(req.limit),
            early == texts(req.earliest_events@),
            late == texts(req.latest_events@),
            out.len() <= limit,
            forall|g: EventStore| #[trigger]
                looks_up(lookup, g) ==> missing_walk(
                    room_graph(g, room_id@),
                    late,
                    seq![],
                    seq![],
                    limit as int,
                    early,
                    late,
                ) == missing_walk(
                    room_graph(g, room_id@),
                    texts(queue@).skip(head as int),
                    texts(seen@),
                    texts(out@),
                    limit as int,
                    early,
                    late,
                ),
            forall|g: EventStore, h: spec_fn(JsonView) -> JsonView|
                #![trigger looks_up(lookup, g), redacts_by(redact, h)]
                looks_up(lookup, g) && redacts_by(redact, h) ==> values(events@) == served(
                    texts(out@),
                    g,
                    origin@,
                    h,
                ),
        decreases limit - out.len() + unseen_count(late, texts(seen@)), queue.len() - head,
    {
        let ghost rest0 = texts(queue@).skip(head as int);
        let ghost seen0 = texts(seen@);
        let id = queue[head].clone();
        head += 1;
        let ghost rest = texts(queue@).skip(head as int);
        proof {
            assert(rest0[0] == id@);
            assert(rest0.drop_first() =~= rest);
            assert(texts(out@).len() == out@.len());
            lemma_unseen_shrinks(late, seen0, id@);
        }
        if !list_has(&req.earliest_events, id.as_str()) && !list_has(&seen, id.as_str()) {
            let s = id.clone();
            proof {
                lemma_texts_push(seen@, s);
            }
            seen.push(s);
            match lookup(id.as_str()) {
                Some(e) => {
                    let is_latest = list_has(&req.latest_events, id.as_str());
                    let here = reach(&e, id.as_str(), room_id);
                    let goes_on = match here {
                        Some(readable) => is_latest || readable,
                        None => false,
                    };
                    if goes_on {
                        if !is_latest {
                            match &e.json {
                                Some(j) => {
                                    let v = if should_redact_for_origin(
                                        e.state.as_ref(),
                                        origin,
                                    ) {
                                        redact(j)
                                    } else {
                                        j.copy()
                                    };
                                    proof {
                                        lemma_texts_push(out@, id);
                                        lemma_values_push(events@, v);
                                        assert(texts(out@).push(id@).drop_last() =~= texts(out@));
                                    }
                                    events.push(v);
                                    out.push(id);
                                },
                                None => {},
                            }
                        }
                        enqueue_further(&mut queue, &e.prev_events, &seen, &req.earliest_events);
                        proof {
                            assert(texts(queue@).skip(head as int) =~= rest + further(
                                texts(e.prev_events@),
                                texts(seen@),
                                early,
                            ));
                        }
                    }
                },
                None => {},
            }
        }
    }
    proof {
        assert(texts(out@).len() == out@.len());
        assert(texts(queue@).len() == queue@.len());
    }
    Ok(missing_events_reply(&events))
}

/// The reply to a request for missing events: oldest first, events without a
/// depth last.
pub open spec fn missing_reply(events: Seq<JsonView>) -> JsonView {
    JsonView::Object(seq![("events"@, JsonView::Array(by_depth(events, u64::MAX)))])
}

/// The reply to a request for missing events: oldest first, events without a
/// depth last.
fn missing_events_reply(events: &Vec<Json>) -> (r: Json)
    ensures
        r@ == missing_reply(values(events@)),
{
    let sorted = sort_by_depth(events, u64::MAX);
    let ghost v = values(sorted@);
    let mut m: Vec<(String, Json)> = Vec::new();
    put(&mut m, "events", Json::array(sorted));
    proof {
        assert(members(m@) =~= seq![("events"@, JsonView::Array(v))]);
    }
    Json::object(m)
}

proof fn lemma_backfill(
    g: EventGraph,
    queue: Seq<Seq<char>>,
    seen: Seq<Seq<char>>,
    out: Seq<Seq<char>>,
    limit: int,
)
    requires
        out.len() <= limit,
        out.no_duplicates(),
        forall|i: int| 0 <= i < out.len() ==> seen.contains(#[trigger] out[i]),
        forall|i: int| 0 <= i < out.len() ==> is_readable(g, #[trigger] out[i]),
    ensures
        ({
            let r = backfill_walk(g, queue, seen, out, limit);
            &&& r.len() <= limit
            &&& r.no_duplicates()
            &&& forall|i: int| 0 <= i < r.len() ==> is_readable(g, #[trigger] r[i])
        }),
    decreases limit - out.len(), queue.len(),
{
    if queue.len() > 0 && out.len() < limit {
        let id = queue[0];
        let rest = queue.drop_first();
        let more = seen.push(id);
        if seen.contains(id) {
            lemma_backfill(g, rest, seen, out, limit);
        } else {
            assert forall|i: int| 0 <= i < out.len() implies more.contains(#[trigger] out[i]) by {
                let j = choose|j: int| 0 <= j < seen.len() && seen[j] == out[i];
                assert(more[j] == out[i]);
            }
            match g(id) {
                Some((true, prevs)) => {
                    let next = out.push(id);
                    assert forall|i: int| 0 <= i < next.len() implies more.contains(
                        #[trigger] next[i],
                    ) && is_readable(g, next[i]) by {
                        if i < out.len() {
                            assert(next[i] == out[i]);
                        } else {
                            assert(more[seen.len() as int] == id);
                        }
                    }
                    assert(next.no_duplicates()) by {
                        assert forall|i: int, j: int|
                            0 <= i < next.len() && 0 <= j < next.len() && i != j implies next[i]
                            != next[j] by {
                            if i == out.len() {
                                assert(seen.contains(out[j]));
                            } else if j == out.len() {
                                assert(seen.contains(out[i]));
                            }
                        }
                    }
                    lemma_backfill(g, rest + unvisited(prevs, more), more, next, limit);
                },
                _ => {
                    lemma_backfill(g, rest, more, out, limit);
                },
            }
        }
    }
}

/// Whether an event can be served.
pub open spec fn is_readable(g: EventGraph, id: Seq<char>) -> bool {
    match g(id) {
        Some((readable, _)) => readable,
        None => false,
    }
}

/// A request for a room's past gets each event once, a hundred at most, ten
/// unless it says otherwise, and only events of the room that are stored.
pub proof fn law_backfill(g: EventStore, room_id: Seq<char>, raw: Option<&str>)
    ensures
        ({
            let r = backfilled_ids(g, room_id, raw);
            let limit = limit_parameter(query_pieces(raw));
            &&& r.no_duplicates()
            &&& r.len() <= 100
            &&& limit is None ==> r.len() <= 10
            &&& limit is Some ==> r.len() <= limit->0
            &&& forall|i: int|
                0 <= i < r.len() ==> is_readable(room_graph(g, room_id), #[trigger] r[i])
        }),
{
    lemma_backfill(
        room_graph(g, room_id),
        v_parameters(query_pieces(raw)),
        seq![],
        seq![],
        capped_limit(limit_parameter(query_pieces(raw))) as int,
    );
}

proof fn lemma_missing(
    g: EventGraph,
    queue: Seq<Seq<char>>,
    seen: Seq<Seq<char>>,
    out: Seq<Seq<char>>,
    limit: int,
    earliest: Seq<Seq<char>>,
    latest: Seq<Seq<char>>,
)
    requires
        out.len() <= limit,
        out.no_duplicates(),
        forall|i: int|
            0 <= i < out.len() ==> seen.contains(#[trigger] out[i]) && is_readable(g, out[i])
                && !earliest.contains(out[i]) && !latest.contains(out[i]),
    ensures
        ({
            let r = missing_walk(g, queue, seen, out, limit, earliest, latest);
            &&& r.len() <= limit
            &&& r.no_duplicates()
            &&& forall|i: int|
                0 <= i < r.len() ==> is_readable(g, #[trigger] r[i]) && !earliest.contains(r[i])
                    && !latest.contains(r[i])
        }),
    decreases limit - out.len() + unseen_count(latest, seen), queue.len(),
{
    if queue.len() > 0 && out.len() < limit {
        let id = queue[0];
        let rest = queue.drop_first();
        let more = seen.push(id);
        lemma_unseen_shrinks(latest, seen, id);
        if earliest.contains(id) || seen.contains(id) {
            lemma_missing(g, rest, seen, out, limit, earliest, latest);
        } else {
            assert forall|i: int| 0 <= i < out.len() implies more.contains(#[trigger] out[i]) by {
                let j = choose|j: int| 0 <= j < seen.len() && seen[j] == out[i];
                assert(more[j] == out[i]);
            }
            match g(id) {
                None => {
                    lemma_missing(g, rest, more, out, limit, earliest, latest);
                },
                Some((readable, prevs)) => {
                    let next = rest + further(prevs, more, earliest);
                    if latest.contains(id) {
                        lemma_missing(g, next, more, out, limit, earliest, latest);
                    } else if readable {
                        let longer = out.push(id);
                        assert forall|i: int| 0 <= i < longer.len() implies more.contains(
                            #[trigger] longer[i],
                        ) && is_readable(g, longer[i]) && !earliest.contains(longer[i])
                            && !latest.contains(longer[i]) by {
                            if i < out.len() {
                                assert(longer[i] == out[i]);
                            } else {
                                assert(more[seen.len() as int] == id);
                            }
                        }
                        assert(longer.no_duplicates()) by {
                            assert forall|i: int, j: int|
                                0 <= i < longer.len() && 0 <= j < longer.len() && i
                                    != j implies longer[i] != longer[j] by {
                                if i == out.len() {
                                    assert(seen.contains(out[j]));
                                } else if j == out.len() {
                                    assert(seen.contains(out[i]));
                                }
                            }
                        }
                        lemma_missing(g, next, more, longer, limit, earliest, latest);
                    } else {
                        lemma_missing(g, rest, more, out, limit, earliest, latest);
                    }
                },
            }
        }
    }
}

/// A request for missing events gets neither end of the gap, no event twice, no
/// more events than it may have, and only events of the room that are stored.
pub proof fn law_missing_events(g: EventStore, room_id: Seq<char>, req: MissingEventsRequest)
    ensures
        ({
            let r = missing_ids(g, room_id, req);
            &&& r.no_duplicates()
            &&& r.len() <= missing_limit(req.limit) <= MAX_MISSING_LIMIT
            &&& forall|i: int|
                0 <= i < r.len() ==> is_readable(room_graph(g, room_id), #[trigger] r[i])
                    && !texts(req.earliest_events@).contains(r[i]) && !texts(
                    req.latest_events@,
                ).contains(r[i])
        }),
{
    lemma_missing(
        room_graph(g, room_id),
        texts(req.latest_events@),
        seq![],
        seq![],
        missing_limit(req.limit) as int,
        texts(req.earliest_events@),
        texts(req.latest_events@),
    );
}

/// Of a room's past and of what is missing of it, a server gets events of that
/// room alone, each as it stands if the visibility at the event lets the server
/// see it, and redacted if not.
pub proof fn law_served_events(
    g: EventStore,
    room_id: Seq<char>,
    origin: Seq<char>,
    redacted: spec_fn(JsonView) -> JsonView,
    ids: Seq<Seq<char>>,
    i: int,
)
    requires
        forall|k: int| 0 <= k < ids.len() ==> is_readable(room_graph(g, room_id), #[trigger] ids[k]),
        0 <= i < ids.len(),
    ensures
        served(ids, g, origin, redacted).len() == ids.len(),
        g(ids[i]) is Some,
        g(ids[i])->0.json is Some,
        event_room(g(ids[i])->0.json->0, ids[i]) == Some(room_id),
        served(ids, g, origin, redacted)[i] == (if hidden_from(g(ids[i])->0.state, origin) {
            redacted(g(ids[i])->0.json->0)
        } else {
            g(ids[i])->0.json->0
        }),
    decreases ids.len(),
{
    reveal_with_fuel(served, 2);
    let front = ids.drop_last();
    assert(is_readable(room_graph(g, room_id), ids[i]));
    assert(is_readable(room_graph(g, room_id), ids[ids.len() - 1]));
    assert forall|k: int| 0 <= k < front.len() implies is_readable(
        room_graph(g, room_id),
        #[trigger] front[k],
    ) by {
        assert(front[k] == ids[k]);
    }
    if i < front.len() {
        law_served_events(g, room_id, origin, redacted, front, i);
        assert(front[i] == ids[i]);
    } else if front.len() > 0 {
        law_served_events(g, room_id, origin, redacted, front, 0);
    }
}

/// The state at an event, and its auth chain, go only to a server with a joined
/// user in the event's own room: it does not help to be in another room and to
/// ask about the event under that room's name.
pub proof fn law_state_stays_in_the_room(
    room: Option<RoomFacts>,
    origin: Seq<char>,
    room_id: Seq<char>,
    event_id: Seq<char>,
    event: Option<JsonView>,
)
    ensures
        state_withheld(room, origin, room_id, event_id, event) is None ==> {
            &&& room is Some
            &&& resident(room->0.members@, origin)
            &&& !room->0.partial_state
            &&& event is Some
            &&& event_room(event->0, event_id) == Some(room_id)
        },
        chain_withheld(room, origin, room_id, event_id, event) is None ==> {
            &&& room is Some
            &&& resident(room->0.members@, origin)
            &&& event is Some
            &&& event_room(event->0, event_id) == Some(room_id)
        },
        (event is Some && event_room(event->0, event_id) != Some(room_id)) ==> {
            &&& state_withheld(room, origin, room_id, event_id, event) == state_withheld(
                room,
                origin,
                room_id,
                event_id,
                None,
            )
            &&& chain_withheld(room, origin, room_id, event_id, event) == chain_withheld(
                room,
                origin,
                room_id,
                event_id,
                None,
            )
        },
{
}

/// An event goes only to a server with a joined user in its room, redacted if
/// the visibility at the event hides it from that server; to any other server the
/// answer is the same as for an event that is not stored.
pub proof fn law_events_stay_in_the_room(
    f: GetEventFacts,
    members: Seq<MemberRecord>,
    redacted: spec_fn(JsonView) -> JsonView,
)
    requires
        f.members matches Some(Some(v)) && v@ == members,
    ensures
        get_event_next(f, redacted) is Reply || get_event_next(f, redacted) is LoadState
            ==> resident(members, f.origin@),
        get_event_next(f, redacted) is Reply && hidden_from(recorded_state(f.state->0), f.origin@)
            ==> get_event_next(f, redacted)->body == transaction_json(
            f.server_name@,
            f.now,
            seq![redacted(f.event->0->0@)],
        ),
        !resident(members, f.origin@) && f.event is Some ==> get_event_next(f, redacted)
            == GetEventView::Refuse(NOT_FOUND),
        f.event == Some(None::<Json>) ==> get_event_next(f, redacted) == GetEventView::Refuse(
            NOT_FOUND,
        ),
{
}

/// Whether an event is a predecessor of another, as far as a request can reach.
pub open spec fn precedes(g: EventGraph, p: Seq<char>, id: Seq<char>) -> bool {
    match g(id) {
        Some((_, prevs)) => prevs.contains(p),
        None => false,
    }
}

proof fn lemma_in_rest(queue: Seq<Seq<char>>, more: Seq<Seq<char>>, x: Seq<char>)
    requires
        queue.len() > 0,
    ensures
        (queue.drop_first() + more).contains(x) <==> queue.drop_first().contains(x)
            || more.contains(x),
        queue.contains(x) <==> queue[0] == x || queue.drop_first().contains(x),
{
    let rest = queue.drop_first();
    let all = rest + more;
    if all.contains(x) {
        let i = choose|i: int| 0 <= i < all.len() && all[i] == x;
        if i < rest.len() {
            assert(rest[i] == x);
        } else {
            assert(more[i - rest.len()] == x);
        }
    }
    if rest.contains(x) {
        let i = choose|i: int| 0 <= i < rest.len() && rest[i] == x;
        assert(all[i] == x);
        assert(queue[i + 1] == x);
    }
    if more.contains(x) {
        let i = choose|i: int| 0 <= i < more.len() && more[i] == x;
        assert(all[rest.len() + i] == x);
    }
    if queue.contains(x) && queue[0] != x {
        let i = choose|i: int| 0 <= i < queue.len() && queue[i] == x;
        assert(rest[i - 1] == x);
    }
}

/// Whether a walk back has got as far as it should: whatever comes before an event
/// that it has taken was looked at or waits its turn, and so were the starting
/// points; what was looked at and can be served was taken; and everything that was
/// taken or waits is a starting point or comes before an event that was taken.
spec fn on_track(
    g: EventGraph,
    start: Seq<Seq<char>>,
    queue: Seq<Seq<char>>,
    seen: Seq<Seq<char>>,
    out: Seq<Seq<char>>,
) -> bool {
    &&& forall|x: Seq<char>, p: Seq<char>|
        out.contains(x) && #[trigger] precedes(g, p, x) ==> seen.contains(p) || queue.contains(p)
    &&& forall|x: Seq<char>| #[trigger]
        seen.contains(x) && is_readable(g, x) ==> out.contains(x)
    &&& forall|x: Seq<char>| #[trigger]
        start.contains(x) ==> seen.contains(x) || queue.contains(x)
    &&& forall|x: Seq<char>| #[trigger]
        out.contains(x) ==> start.contains(x) || exists|y: Seq<char>|
            out.contains(y) && #[trigger] precedes(g, x, y)
    &&& forall|x: Seq<char>| #[trigger]
        queue.contains(x) ==> start.contains(x) || exists|y: Seq<char>|
            out.contains(y) && #[trigger] precedes(g, x, y)
}

proof fn lemma_on_track(
    g: EventGraph,
    start: Seq<Seq<char>>,
    queue: Seq<Seq<char>>,
    seen: Seq<Seq<char>>,
    out: Seq<Seq<char>>,
    limit: int,
)
    requires
        on_track(g, start, queue, seen, out),
    ensures
        ({
            let r = backfill_walk(g, queue, seen, out, limit);
            &&& r.len() < limit ==> {
                &&& forall|x: Seq<char>| #[trigger]
                    start.contains(x) && is_readable(g, x) ==> r.contains(x)
                &&& forall|x: Seq<char>, p: Seq<char>|
                    r.contains(x) && is_readable(g, p) && #[trigger] precedes(g, p, x)
                        ==> r.contains(p)
            }
            &&& forall|x: Seq<char>| #[trigger]
                r.contains(x) ==> start.contains(x) || exists|y: Seq<char>|
                    r.contains(y) && #[trigger] precedes(g, x, y)
        }),
    decreases limit - out.len(), queue.len(),
{
    if queue.len() > 0 && out.len() < limit {
        let id = queue[0];
        let rest = queue.drop_first();
        let now_seen = seen.push(id);
        assert forall|x: Seq<char>|
            #![trigger now_seen.contains(x)]
            #![trigger seen.contains(x)]
            now_seen.contains(x) <==> seen.contains(x) || x
            == id by {
            lemma_has_push(seen, id, x);
        }
        assert forall|x: Seq<char>|
            #![trigger queue.contains(x)]
            #![trigger rest.contains(x)]
            queue.contains(x) <==> id == x || rest.contains(
            x,
        ) by {
            lemma_in_rest(queue, seq![], x);
        }
        if seen.contains(id) {
            lemma_on_track(g, start, rest, seen, out, limit);
        } else {
            match g(id) {
                Some((true, prevs)) => {
                    let more = unvisited(prevs, now_seen);
                    let next = rest + more;
                    let longer = out.push(id);
                    law_unvisited(prevs, now_seen);
                    assert forall|x: Seq<char>|
                        #![trigger next.contains(x)]
                        #![trigger rest.contains(x)]
                        #![trigger more.contains(x)]
                        next.contains(x) <==> rest.contains(x)
                        || more.contains(x) by {
                        lemma_in_rest(queue, more, x);
                    }
                    assert forall|x: Seq<char>|
                        #![trigger longer.contains(x)]
                        #![trigger out.contains(x)]
                        longer.contains(x) <==> out.contains(x)
                        || x == id by {
                        lemma_has_push(out, id, x);
                    }
                    assert forall|x: Seq<char>, p: Seq<char>|
                        longer.contains(x) && #[trigger] precedes(
                            g,
                            p,
                            x,
                        ) implies now_seen.contains(p) || next.contains(p) by {
                        if x == id {
                            assert(prevs.contains(p));
                            assert(more.contains(p) <==> prevs.contains(p) && !now_seen.contains(p));
                        }
                    }
                    assert forall|x: Seq<char>|
                        #![trigger longer.contains(x)]
                        #![trigger next.contains(x)]
                        longer.contains(x) || next.contains(x) implies start.contains(x) || exists|
                        y: Seq<char>,
                    |
                        longer.contains(y) && #[trigger] precedes(g, x, y) by {
                        if more.contains(x) && !rest.contains(x) && !out.contains(x) && x != id {
                            assert(longer.contains(id) && precedes(g, x, id));
                        } else if out.contains(x) && !start.contains(x) {
                            let y = choose|y: Seq<char>|
                                out.contains(y) && #[trigger] precedes(g, x, y);
                            assert(longer.contains(y) && precedes(g, x, y));
                        } else if !start.contains(x) {
                            assert(queue.contains(x));
                            let y = choose|y: Seq<char>|
                                out.contains(y) && #[trigger] precedes(g, x, y);
                            assert(longer.contains(y) && precedes(g, x, y));
                        }
                    }
                    assert(on_track(g, start, next, now_seen, longer));
                    lemma_on_track(g, start, next, now_seen, longer, limit);
                },
                _ => {
                    lemma_on_track(g, start, rest, now_seen, out, limit);
                },
            }
        }
    }
}

proof fn lemma_starts_first(
    g: EventGraph,
    queue: Seq<Seq<char>>,
    seen: Seq<Seq<char>>,
    out: Seq<Seq<char>>,
    limit: int,
    k: int,
)
    requires
        0 <= k <= queue.len(),
        out.len() + k <= limit,
        queue.take(k).no_duplicates(),
        forall|i: int|
            0 <= i < k ==> is_readable(g, #[trigger] queue[i]) && !seen.contains(queue[i]),
    ensures
        (out + queue.take(k)).is_prefix_of(backfill_walk(g, queue, seen, out, limit)),
    decreases limit - out.len(), queue.len(),
{
    let r = backfill_walk(g, queue, seen, out, limit);
    if k == 0 {
        assert(out + queue.take(0) =~= out);
        lemma_walk_keeps(g, queue, seen, out, limit);
    } else {
        let id = queue[0];
        let rest = queue.drop_first();
        let now_seen = seen.push(id);
        assert(is_readable(g, queue[0]));
        let prevs = (g(id)->0).1;
        let next = rest + unvisited(prevs, now_seen);
        assert(next.take(k - 1) =~= queue.take(k).drop_first());
        assert forall|i: int| 0 <= i < k - 1 implies is_readable(g, #[trigger] next[i])
            && !now_seen.contains(next[i]) by {
            assert(next[i] == queue[i + 1]);
            lemma_has_push(seen, id, next[i]);
            assert(queue.take(k)[0] != queue.take(k)[i + 1]);
        }
        lemma_starts_first(g, next, now_seen, out.push(id), limit, k - 1);
        assert(out.push(id) + next.take(k - 1) =~= out + queue.take(k));
    }
}

proof fn lemma_walk_keeps(
    g: EventGraph,
    queue: Seq<Seq<char>>,
    seen: Seq<Seq<char>>,
    out: Seq<Seq<char>>,
    limit: int,
)
    ensures
        out.is_prefix_of(backfill_walk(g, queue, seen, out, limit)),
    decreases limit - out.len(), queue.len(),
{
    if queue.len() > 0 && out.len() < limit {
        let id = queue[0];
        let rest = queue.drop_first();
        let now_seen = seen.push(id);
        if seen.contains(id) {
            lemma_walk_keeps(g, rest, seen, out, limit);
        } else {
            match g(id) {
                Some((true, prevs)) => {
                    lemma_walk_keeps(
                        g,
                        rest + unvisited(prevs, now_seen),
                        now_seen,
                        out.push(id),
                        limit,
                    );
                },
                _ => {
                    lemma_walk_keeps(g, rest, now_seen, out, limit);
                },
            }
        }
    }
}

/// A room's past is walked back whole: unless the limit ended it, the walk takes
/// every starting point that can be served, and with each event every predecessor
/// that can. It takes nothing but starting points and what precedes an event that
/// it took, and the starting points first.
pub proof fn law_the_past_is_whole(g: EventStore, room_id: Seq<char>, raw: Option<&str>)
    ensures
        ({
            let r = backfilled_ids(g, room_id, raw);
            let start = v_parameters(query_pieces(raw));
            let of_room = room_graph(g, room_id);
            let limit = capped_limit(limit_parameter(query_pieces(raw)));
            &&& r.len() < limit ==> {
                &&& forall|x: Seq<char>| #[trigger]
                    start.contains(x) && is_readable(of_room, x) ==> r.contains(x)
                &&& forall|x: Seq<char>, p: Seq<char>|
                    r.contains(x) && is_readable(of_room, p) && #[trigger] precedes(of_room, p, x)
                        ==> r.contains(p)
            }
            &&& forall|x: Seq<char>| #[trigger]
                r.contains(x) ==> start.contains(x) || exists|y: Seq<char>|
                    r.contains(y) && #[trigger] precedes(of_room, x, y)
            &&& start.no_duplicates() && start.len() <= limit && (forall|i: int|
                0 <= i < start.len() ==> is_readable(of_room, #[trigger] start[i]))
                ==> start.is_prefix_of(r)
        }),
{
    let of_room = room_graph(g, room_id);
    let start = v_parameters(query_pieces(raw));
    let limit = capped_limit(limit_parameter(query_pieces(raw))) as int;
    lemma_on_track(of_room, start, start, seq![], seq![], limit);
    if start.no_duplicates() && start.len() <= limit && (forall|i: int|
        0 <= i < start.len() ==> is_readable(of_room, #[trigger] start[i])) {
        assert(start.take(start.len() as int) =~= start);
        lemma_starts_first(of_room, start, seq![], seq![], limit, start.len() as int);
        assert(Seq::<Seq<char>>::empty() + start =~= start);
    }
}

/// An event of the room is served, with its predecessors, exactly if it is stored
/// and names the room; a create event's room is named by its id.
pub proof fn law_events_of_a_room(g: EventStore, room_id: Seq<char>, id: Seq<char>)
    ensures
        is_readable(room_graph(g, room_id), id) <==> (g(id) matches Some(v) && (v.json matches Some(
            j,
        ) && match j.get("room_id"@) {
            Some(JsonView::Str(r)) => r == room_id,
            _ => j.get("type"@) == Some(JsonView::Str("m.room.create"@)) && id.len() > 0 && id[0]
                == '$' && room_id == seq!['!'] + id.skip(1),
        })),
        is_readable(room_graph(g, room_id), id) ==> forall|p: Seq<char>| #[trigger]
            precedes(room_graph(g, room_id), p, id) <==> g(id)->0.prev_events.contains(p),
{
    reveal_strlit("!");
    assert("!"@ =~= seq!['!']);
}

/// The id of a room and that of its create event give each other.
pub proof fn law_create_ids(room_id: Seq<char>, event: JsonView)
    requires
        room_id.len() > 0,
        room_id[0] == '!',
        event.get("type"@) == Some(JsonView::Str("m.room.create"@)),
        event.get("room_id"@) is None,
    ensures
        create_id(room_id) matches Some(id) && event_room(event, id) == Some(room_id),
{
    reveal_strlit("!");
    reveal_strlit("$");
    let id = "$"@ + room_id.skip(1);
    assert(id[0] == '$');
    assert(id.skip(1) =~= room_id.skip(1));
    assert("!"@ + id.skip(1) =~= room_id);
}

spec fn gap_on_track(
    g: EventGraph,
    queue: Seq<Seq<char>>,
    seen: Seq<Seq<char>>,
    out: Seq<Seq<char>>,
    earliest: Seq<Seq<char>>,
    latest: Seq<Seq<char>>,
) -> bool {
    &&& forall|x: Seq<char>, p: Seq<char>|
        (out.contains(x) || (latest.contains(x) && seen.contains(x))) && #[trigger] precedes(
            g,
            p,
            x,
        ) ==> seen.contains(p) || queue.contains(p) || earliest.contains(p)
    &&& forall|x: Seq<char>| #[trigger]
        seen.contains(x) && is_readable(g, x) ==> out.contains(x) || latest.contains(x)
    &&& forall|x: Seq<char>| #[trigger]
        latest.contains(x) ==> seen.contains(x) || queue.contains(x) || earliest.contains(x)
    &&& forall|x: Seq<char>| #[trigger]
        out.contains(x) || queue.contains(x) ==> latest.contains(x) || exists|y: Seq<char>|
            (out.contains(y) || latest.contains(y)) && #[trigger] precedes(g, x, y)
}

proof fn lemma_gap_on_track(
    g: EventGraph,
    queue: Seq<Seq<char>>,
    seen: Seq<Seq<char>>,
    out: Seq<Seq<char>>,
    limit: int,
    earliest: Seq<Seq<char>>,
    latest: Seq<Seq<char>>,
)
    requires
        gap_on_track(g, queue, seen, out, earliest, latest),
    ensures
        ({
            let r = missing_walk(g, queue, seen, out, limit, earliest, latest);
            &&& r.len() < limit ==> forall|x: Seq<char>, p: Seq<char>|
                (r.contains(x) || (latest.contains(x) && !earliest.contains(x))) && is_readable(
                    g,
                    p,
                ) && !earliest.contains(p) && !latest.contains(p) && #[trigger] precedes(g, p, x)
                    ==> r.contains(p)
            &&& forall|x: Seq<char>| #[trigger]
                r.contains(x) ==> latest.contains(x) || exists|y: Seq<char>|
                    (r.contains(y) || latest.contains(y)) && #[trigger] precedes(g, x, y)
        }),
    decreases limit - out.len() + unseen_count(latest, seen), queue.len(),
{
    if queue.len() > 0 && out.len() < limit {
        let id = queue[0];
        let rest = queue.drop_first();
        let now_seen = seen.push(id);
        lemma_unseen_shrinks(latest, seen, id);
        assert forall|x: Seq<char>|
            #![trigger now_seen.contains(x)]
            #![trigger seen.contains(x)]
            now_seen.contains(x) <==> seen.contains(x) || x
            == id by {
            lemma_has_push(seen, id, x);
        }
        assert forall|x: Seq<char>|
            #![trigger queue.contains(x)]
            #![trigger rest.contains(x)]
            queue.contains(x) <==> id == x || rest.contains(
            x,
        ) by {
            lemma_in_rest(queue, seq![], x);
        }
        if earliest.contains(id) || seen.contains(id) {
            lemma_gap_on_track(g, rest, seen, out, limit, earliest, latest);
        } else {
            match g(id) {
                None => {
                    lemma_gap_on_track(g, rest, now_seen, out, limit, earliest, latest);
                },
                Some((readable, prevs)) => {
                    let more = further(prevs, now_seen, earliest);
                    let next = rest + more;
                    law_unvisited(prevs, now_seen);
                    law_unvisited(unvisited(prevs, now_seen), earliest);
                    assert forall|x: Seq<char>| #[trigger] more.contains(x) <==> prevs.contains(x)
                        && !now_seen.contains(x) && !earliest.contains(x) by {
                        assert(unvisited(prevs, now_seen).contains(x) <==> prevs.contains(x)
                            && !now_seen.contains(x));
                    }
                    assert forall|x: Seq<char>|
                        #![trigger next.contains(x)]
                        #![trigger rest.contains(x)]
                        #![trigger more.contains(x)]
                        next.contains(x) <==> rest.contains(x)
                        || more.contains(x) by {
                        lemma_in_rest(queue, more, x);
                    }
                    if latest.contains(id) {
                        lemma_gap_step(g, queue, seen, out, out, earliest, latest);
                        lemma_gap_on_track(g, next, now_seen, out, limit, earliest, latest);
                    } else if readable {
                        let longer = out.push(id);
                        assert forall|x: Seq<char>|
                            #![trigger longer.contains(x)]
                            #![trigger out.contains(x)]
                            longer.contains(x) <==> out.contains(x) || x == id by {
                            lemma_has_push(out, id, x);
                        }
                        lemma_gap_step(g, queue, seen, out, longer, earliest, latest);
                        lemma_gap_on_track(g, next, now_seen, longer, limit, earliest, latest);
                    } else {
                        lemma_gap_on_track(g, rest, now_seen, out, limit, earliest, latest);
                    }
                },
            }
        }
    } else if out.len() < limit {
        assert(queue =~= seq![]);
        assert forall|x: Seq<char>, p: Seq<char>|
            (out.contains(x) || (latest.contains(x) && !earliest.contains(x))) && is_readable(g, p)
                && !earliest.contains(p) && !latest.contains(p) && #[trigger] precedes(
                g,
                p,
                x,
            ) implies out.contains(p) by {
            assert(!queue.contains(x) && !queue.contains(p));
            if !out.contains(x) {
                assert(seen.contains(x));
            }
            assert(seen.contains(p));
        }
    }
}

proof fn lemma_gap_step(
    g: EventGraph,
    queue: Seq<Seq<char>>,
    seen: Seq<Seq<char>>,
    out: Seq<Seq<char>>,
    longer: Seq<Seq<char>>,
    earliest: Seq<Seq<char>>,
    latest: Seq<Seq<char>>,
)
    requires
        gap_on_track(g, queue, seen, out, earliest, latest),
        queue.len() > 0,
        !earliest.contains(queue[0]),
        !seen.contains(queue[0]),
        g(queue[0]) is Some,
        latest.contains(queue[0]) && longer == out || is_readable(g, queue[0]) && longer
            == out.push(queue[0]),
    ensures
        gap_on_track(
            g,
            queue.drop_first() + further((g(queue[0])->0).1, seen.push(queue[0]), earliest),
            seen.push(queue[0]),
            longer,
            earliest,
            latest,
        ),
{
    let id = queue[0];
    let rest = queue.drop_first();
    let now_seen = seen.push(id);
    let prevs = (g(id)->0).1;
    let more = further(prevs, now_seen, earliest);
    let next = rest + more;
    law_unvisited(prevs, now_seen);
    law_unvisited(unvisited(prevs, now_seen), earliest);
    assert forall|x: Seq<char>|
            #![trigger now_seen.contains(x)]
            #![trigger seen.contains(x)]
            now_seen.contains(x) <==> seen.contains(x) || x == id by {
        lemma_has_push(seen, id, x);
    }
    assert forall|x: Seq<char>|
            #![trigger queue.contains(x)]
            #![trigger rest.contains(x)]
            queue.contains(x) <==> id == x || rest.contains(x) by {
        lemma_in_rest(queue, seq![], x);
    }
    assert forall|x: Seq<char>| #[trigger] more.contains(x) <==> prevs.contains(x)
        && !now_seen.contains(x) && !earliest.contains(x) by {
        assert(unvisited(prevs, now_seen).contains(x) <==> prevs.contains(x) && !now_seen.contains(
            x,
        ));
    }
    assert forall|x: Seq<char>|
                        #![trigger next.contains(x)]
                        #![trigger rest.contains(x)]
                        #![trigger more.contains(x)]
                        next.contains(x) <==> rest.contains(x)
        || more.contains(x) by {
        lemma_in_rest(queue, more, x);
    }
    assert forall|x: Seq<char>|
                        #![trigger longer.contains(x)]
                        #![trigger out.contains(x)]
                        longer.contains(x) <==> out.contains(x) || (x == id
        && longer != out) by {
        lemma_has_push(out, id, x);
        if longer == out && longer == out.push(id) {
            assert(out.push(id).len() == out.len() + 1);
        }
    }
    assert forall|x: Seq<char>, p: Seq<char>|
        (longer.contains(x) || (latest.contains(x) && now_seen.contains(x))) && #[trigger] precedes(
            g,
            p,
            x,
        ) implies now_seen.contains(p) || next.contains(p) || earliest.contains(p) by {
        if x == id {
            assert(prevs.contains(p));
            assert(more.contains(p) || now_seen.contains(p) || earliest.contains(p));
        }
    }
    assert forall|x: Seq<char>| #[trigger]
        longer.contains(x) || next.contains(x) implies latest.contains(x) || exists|y: Seq<char>|
        (longer.contains(y) || latest.contains(y)) && #[trigger] precedes(g, x, y) by {
        if out.contains(x) || queue.contains(x) {
            if !latest.contains(x) {
                let y = choose|y: Seq<char>|
                    (out.contains(y) || latest.contains(y)) && #[trigger] precedes(g, x, y);
                assert((longer.contains(y) || latest.contains(y)) && precedes(g, x, y));
            }
        } else {
            assert(more.contains(x));
            assert((longer.contains(id) || latest.contains(id)) && precedes(g, x, id));
        }
    }
    assert forall|x: Seq<char>| #[trigger]
        now_seen.contains(x) && is_readable(g, x) implies longer.contains(x) || latest.contains(
        x,
    ) by {
        if x != id {
            assert(seen.contains(x));
        } else if !latest.contains(id) {
            assert(longer == out.push(id));
            lemma_has_push(out, id, id);
        }
    }
}

/// A gap is told whole: unless the limit ended it, the walk takes, of what precedes
/// the latest events and of what precedes an event that it took, all that can be
/// served and is not an end of the gap; and it takes nothing else.
pub proof fn law_the_gap_is_whole(g: EventStore, room_id: Seq<char>, req: MissingEventsRequest)
    ensures
        ({
            let r = missing_ids(g, room_id, req);
            let earliest = texts(req.earliest_events@);
            let latest = texts(req.latest_events@);
            let of_room = room_graph(g, room_id);
            &&& r.len() < missing_limit(req.limit) ==> forall|x: Seq<char>, p: Seq<char>|
                (r.contains(x) || (latest.contains(x) && !earliest.contains(x))) && is_readable(
                    of_room,
                    p,
                ) && !earliest.contains(p) && !latest.contains(p) && #[trigger] precedes(
                    of_room,
                    p,
                    x,
                ) ==> r.contains(p)
            &&& forall|x: Seq<char>| #[trigger]
                r.contains(x) ==> exists|y: Seq<char>|
                    (r.contains(y) || latest.contains(y)) && #[trigger] precedes(of_room, x, y)
        }),
{
    let earliest = texts(req.earliest_events@);
    let latest = texts(req.latest_events@);
    lemma_gap_on_track(
        room_graph(g, room_id),
        latest,
        seq![],
        seq![],
        missing_limit(req.limit) as int,
        earliest,
        latest,
    );
    law_missing_events(g, room_id, req);
    let r = missing_ids(g, room_id, req);
    assert forall|x: Seq<char>| #[trigger] r.contains(x) implies !latest.contains(x) by {
        let i = choose|i: int| 0 <= i < r.len() && r[i] == x;
        assert(!latest.contains(r[i]));
    }
}

/// How many events a request gets: as many as it asks for up to a hundred, and ten
/// if it does not say.
pub proof fn law_limits(stated: Option<nat>, limit: Option<u32>)
    ensures
        stated is None ==> capped_limit(stated) == 10,
        stated matches Some(n) ==> capped_limit(stated) <= n && capped_limit(stated) <= 100 && (
        capped_limit(stated) == n || capped_limit(stated) == 100),
        limit is None ==> missing_limit(limit) == 10,
        limit matches Some(n) ==> missing_limit(limit) <= n && missing_limit(limit) <= 100 && (
        missing_limit(limit) == n || missing_limit(limit) == 100),
{
}

/// The starting points of a request for a room's past are the values of all its
/// `v` parameters, in their order; a piece without an equals sign is none.
pub proof fn law_starting_points(pairs: Seq<Seq<char>>)
    ensures
        v_parameters(pairs) == pairs.filter_map(
            |p: Seq<char>|
                match split_once_at(p, '=') {
                    Some((k, val)) => if k == seq!['v'] {
                        Some(val)
                    } else {
                        None
                    },
                    None => None,
                },
        ),
    decreases pairs.len(),
{
    reveal_strlit("v");
    assert("v"@ =~= seq!['v']);
    if pairs.len() > 0 {
        law_starting_points(pairs.drop_last());
        let before = v_parameters(pairs.drop_last());
        if let Some((_, val)) = split_once_at(pairs.last(), '=') {
            assert(before.push(val) =~= before + seq![val]);
        }
    }
}

/// The limit of a request is what its last `limit` parameter says: none if there
/// is no such parameter or the last one is no number.
pub proof fn law_limit_parameter(pairs: Seq<Seq<char>>)
    ensures
        match limit_parameter(pairs) {
            Some(n) => exists|i: int|
                0 <= i < pairs.len() && (split_once_at(#[trigger] pairs[i], '=') matches Some(
                    (k, val),
                ) && k == "limit"@ && number_of(val, u32::MAX as nat) == Some(n)) && forall|j: int|
                    i < j < pairs.len() ==> !(split_once_at(#[trigger] pairs[j], '=') matches Some(
                        (k, _),
                    ) && k == "limit"@),
            None => (forall|j: int|
                0 <= j < pairs.len() ==> !(split_once_at(#[trigger] pairs[j], '=') matches Some(
                    (k, _),
                ) && k == "limit"@)) || exists|i: int|
                0 <= i < pairs.len() && (split_once_at(#[trigger] pairs[i], '=') matches Some(
                    (k, val),
                ) && k == "limit"@ && number_of(val, u32::MAX as nat) is None) && forall|j: int|
                    i < j < pairs.len() ==> !(split_once_at(#[trigger] pairs[j], '=') matches Some(
                        (k, _),
                    ) && k == "limit"@),
        },
    decreases pairs.len(),
{
    if pairs.len() > 0 {
        let last = pairs.len() - 1;
        let front = pairs.drop_last();
        let here = split_once_at(pairs[last], '=') matches Some((k, _)) && k == "limit"@;
        if here {
            assert(split_once_at(pairs[last], '=') is Some);
        } else {
            law_limit_parameter(front);
            assert forall|i: int| 0 <= i < front.len() implies front[i] == #[trigger] pairs[i] by {}
            if forall|j: int|
                0 <= j < front.len() ==> !(split_once_at(#[trigger] front[j], '=') matches Some(
                    (k, _),
                ) && k == "limit"@) {
                assert forall|j: int| 0 <= j < pairs.len() implies !(split_once_at(
                    #[trigger] pairs[j],
                    '=',
                ) matches Some((k, _)) && k == "limit"@) by {
                    if j < front.len() {
                        assert(front[j] == pairs[j]);
                    }
                }
            } else {
                let i = choose|i: int|
                    0 <= i < front.len() && (split_once_at(#[trigger] front[i], '=') matches Some(
                        (k, val),
                    ) && k == "limit"@ && number_of(val, u32::MAX as nat) == limit_parameter(pairs))
                        && forall|j: int|
                        i < j < front.len() ==> !(split_once_at(#[trigger] front[j], '=') matches Some(
                            (k, _),
                        ) && k == "limit"@);
                assert(pairs[i] == front[i]);
                assert forall|j: int| i < j < pairs.len() implies !(split_once_at(
                    #[trigger] pairs[j],
                    '=',
                ) matches Some((k, _)) && k == "limit"@) by {
                    if j < front.len() {
                        assert(front[j] == pairs[j]);
                    }
                }
            }
        }
    }
}

/// A server is in a room exactly if one of its users is recorded as joined.
pub proof fn law_residents(members: Seq<MemberRecord>, server: Seq<char>)
    ensures
        resident(members, server) <==> exists|i: int|
            0 <= i < members.len() && (#[trigger] members[i]).membership == 1
                && (members[i].user_id matches Some(id) && belongs_to(id@, server)),
{
    if resident(members, server) {
        let i = choose|i: int| 0 <= i < members.len() && is_joined_from(#[trigger] members[i], server);
        assert(members[i].membership == 1);
    }
    if exists|i: int|
        0 <= i < members.len() && (#[trigger] members[i]).membership == 1 && (
        members[i].user_id matches Some(id) && belongs_to(id@, server)) {
        let i = choose|i: int|
            0 <= i < members.len() && (#[trigger] members[i]).membership == 1 && (
            members[i].user_id matches Some(id) && belongs_to(id@, server));
        assert(is_joined_from(members[i], server));
    }
}

/// A request for an event is answered with the event, in the shape of a
/// transaction by this server that carries nothing else, exactly if the event is
/// stored, its room known, the server in it, and the state at the event looked up.
pub proof fn law_event_replies(f: GetEventFacts, redacted: spec_fn(JsonView) -> JsonView)
    ensures
        get_event_next(f, redacted) is Reply <==> {
            &&& (f.event matches Some(Some(e)) && event_room(e@, f.event_id@) is Some)
            &&& (f.members matches Some(Some(m)) && resident(m@, f.origin@))
            &&& f.state is Some
        },
        get_event_next(f, redacted) matches GetEventView::Reply { body } ==> {
            &&& body.get("origin"@) == Some(JsonView::Str(f.server_name@))
            &&& body.get("origin_server_ts"@) == Some(
                JsonView::Number(NumberView::Unsigned(f.now)),
            )
            &&& body.get("pdus"@) == Some(
                JsonView::Array(
                    seq![
                        if hidden_from(recorded_state(f.state->0), f.origin@) {
                            redacted(f.event->0->0@)
                        } else {
                            f.event->0->0@
                        },
                    ],
                ),
            )
        },
        get_event_next(f, redacted) matches GetEventView::LoadMembers { room_id } ==> event_room(
            f.event->0->0@,
            f.event_id@,
        ) == Some(room_id),
{
    lemma_transaction_json(
        f.server_name@,
        f.now,
        seq![seen_by(recorded_state(f.state->0), f.origin@, f.event->0->0@, redacted)],
    );
}

proof fn lemma_transaction_json(server_name: Seq<char>, now: u64, pdus: Seq<JsonView>)
    ensures
        ({
            let t = transaction_json(server_name, now, pdus);
            &&& t.get("origin"@) == Some(JsonView::Str(server_name))
            &&& t.get("origin_server_ts"@) == Some(JsonView::Number(NumberView::Unsigned(now)))
            &&& t.get("pdus"@) == Some(JsonView::Array(pdus))
        }),
{
    reveal_with_fuel(crate::json::member, 4);
    reveal_strlit("origin");
    reveal_strlit("origin_server_ts");
    reveal_strlit("pdus");
    let m = transaction_json(server_name, now, pdus)->Object_0;
    assert("origin"@.len() == 6 && "origin_server_ts"@.len() == 16 && "pdus"@.len() == 4);
    let m1 = m.drop_first();
    let m2 = m1.drop_first();
    assert(m1[0] == m[1] && m2[0] == m[2]);
}

/// The replies about a room's state carry the state and its auth chain, whole and
/// in order, each under its own name; the reply about an auth chain carries the
/// create event first.
pub proof fn law_state_replies(
    state: Seq<JsonView>,
    chain: Seq<JsonView>,
    ids: Seq<Seq<char>>,
    chain_ids: Seq<Seq<char>>,
)
    ensures
        state_reply(state, chain).get("pdus"@) == Some(JsonView::Array(state)),
        state_reply(state, chain).get("auth_chain"@) == Some(JsonView::Array(chain)),
        state_ids_reply(ids, chain_ids).get("pdu_ids"@) == Some(
            JsonView::Array(ids.map_values(|s: Seq<char>| JsonView::Str(s))),
        ),
        state_ids_reply(ids, chain_ids).get("auth_chain_ids"@) == Some(
            JsonView::Array(chain_ids.map_values(|s: Seq<char>| JsonView::Str(s))),
        ),
        missing_reply(state).get("events"@) == Some(JsonView::Array(by_depth(state, u64::MAX))),
{
    reveal_with_fuel(crate::json::member, 3);
    reveal_strlit("pdus");
    reveal_strlit("auth_chain");
    reveal_strlit("pdu_ids");
    reveal_strlit("auth_chain_ids");
    assert("pdus"@.len() == 4 && "auth_chain"@.len() == 10);
    assert("pdu_ids"@.len() == 7 && "auth_chain_ids"@.len() == 14);
    let a = state_reply(state, chain)->Object_0;
    let b = state_ids_reply(ids, chain_ids)->Object_0;
    assert(a.drop_first()[0] == a[1] && b.drop_first()[0] == b[1]);
    assert(a[0].0 == "pdus"@ && b[0].0 == "pdu_ids"@);
}

} // verus!
