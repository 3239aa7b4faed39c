//! Invites of this server's users by other servers.

use vstd::prelude::*;
use vstd::string::*;

use crate::api::api_error;
use crate::api::err_response;
use crate::api::ApiError;
use crate::api::ApiErrorView;
use crate::api::BAD_REQUEST;
use crate::api::FORBIDDEN;
use crate::api::INTERNAL_SERVER_ERROR;
use crate::intake::PersistKind;
use crate::join::bad_json;
use crate::join::domain_or_empty;
use crate::join::server_or_empty;
use crate::json::json_of;
use crate::json::members;
use crate::json::put;
use crate::json::values;
use crate::json::Json;
use crate::json::JsonView;
use crate::keys::law_signatures_to_check;
use crate::keys::next_signature;
use crate::keys::signature_search;
use crate::keys::RemoteKeys;
use crate::keys::SignatureStep;
use crate::keys::SignatureView;
use crate::pdu::belongs_to;
use crate::pdu::server_part;
use crate::persist::effects;
use crate::persist::invite_effects;
use crate::persist::law_effects_of_invites;
use crate::persist::persist_invite_event;
use crate::persist::Effect;
use crate::persist::EffectView;
use crate::receive::declares_hash;
use crate::room_state::is_stripped_id;
use crate::server_acl::acl_denial;
use crate::server_acl::acl_refusal;
use crate::server_acl::deny_if_blocked;
use crate::text::cat;
use crate::text::decimal;
use crate::text::number_text;
use crate::text::opt_text;
use crate::text::str_eq;

verus! {

/// Whether a room version can be served.
#[derive(Clone, Copy, PartialEq, Eq, Structural, Debug)]
pub enum VersionSupport {
    /// It is not known.
    Unknown,
    /// It is older than the operator allows.
    TooOld,
    Supported,
}

/// What is known so far about an invite that a server sends.
pub struct InviteFacts {
    pub room_id: String,
    /// The id under which the event is sent.
    pub event_id: String,
    /// The server that sends it.
    pub origin: String,
    /// The name of this server.
    pub server_name: String,
    pub body: Option<Json>,
    /// Whether the room's version can be served.
    pub version: Option<VersionSupport>,
    /// The content of the room's access control list, if the room is known and
    /// has one.
    pub acl: Option<Option<Json>>,
    /// The keys of the sending server, or what failed.
    pub sender_keys: Option<Result<RemoteKeys, String>>,
    /// For each of its signatures that can be checked, whether it verified.
    pub sig_checks: Vec<bool>,
    /// The id that the event's hash gives it.
    pub computed_id: Option<String>,
    /// The hash of the event's content.
    pub content_hash: Option<String>,
    /// The event with this server's signature.
    pub signed: Option<Json>,
    /// Whether the room could be set up in the store.
    pub prepared: Option<bool>,
    /// Whether the stripped state was stored as far as possible.
    pub stripped_stored: bool,
    /// Whether the signed event has the fields of an event.
    pub readable: Option<bool>,
    /// Whether the event could be stored.
    pub stored: Option<bool>,
}

/// What to find out or to do next about an invite, or the reply.
pub enum InviteStep {
    CheckVersion { version: String },
    LoadAcl,
    FetchKeys { server: String },
    VerifySignature { server: String, key_id: String, key: String },
    ComputeId,
    HashContent,
    /// Sign the event, redacted or as it arrived.
    Sign { redacted: bool },
    Prepare { version: String },
    StoreStripped { events: Vec<Json> },
    ReadFields,
    /// Store the event in this way, and do what that entails for the user.
    Store { user: String, kind: PersistKind, effects: Vec<Effect> },
    Reply { body: Json },
    Refuse(ApiError),
}

pub enum InviteView {
    CheckVersion { version: Seq<char> },
    LoadAcl,
    FetchKeys { server: Seq<char> },
    VerifySignature { server: Seq<char>, key_id: Seq<char>, key: Seq<char> },
    ComputeId,
    HashContent,
    Sign { redacted: bool },
    Prepare { version: Seq<char> },
    StoreStripped { events: Seq<JsonView> },
    ReadFields,
    Store { user: Seq<char>, kind: PersistKind, effects: Seq<EffectView> },
    Reply { body: JsonView },
    Refuse(ApiErrorView),
}

impl InviteStep {
    pub open spec fn view(&self) -> InviteView {
        match self {
            InviteStep::CheckVersion { version } => InviteView::CheckVersion { version: version@ },
            InviteStep::LoadAcl => InviteView::LoadAcl,
            InviteStep::FetchKeys { server } => InviteView::FetchKeys { server: server@ },
            InviteStep::VerifySignature { server, key_id, key } => InviteView::VerifySignature {
                server: server@,
                key_id: key_id@,
                key: key@,
            },
            InviteStep::ComputeId => InviteView::ComputeId,
            InviteStep::HashContent => InviteView::HashContent,
            InviteStep::Sign { redacted } => InviteView::Sign { redacted: *redacted },
            InviteStep::Prepare { version } => InviteView::Prepare { version: version@ },
            InviteStep::StoreStripped { events } => InviteView::StoreStripped {
                events: values(events@),
            },
            InviteStep::ReadFields => InviteView::ReadFields,
            InviteStep::Store { user, kind, effects: e } => InviteView::Store {
                user: user@,
                kind: *kind,
                effects: effects(e@),
            },
            InviteStep::Reply { body } => InviteView::Reply { body: body@ },
            InviteStep::Refuse(e) => InviteView::Refuse(e@),
        }
    }
}

/// The version of the room that an invite is for, 12 if the body names none.
pub open spec fn invite_version(body: JsonView) -> Seq<char> {
    match body.str_at("room_version"@) {
        Some(v) => v,
        None => "12"@,
    }
}

pub open spec fn incompatible(msg: Seq<char>) -> ApiErrorView {
    api_error(BAD_REQUEST, "M_INCOMPATIBLE_ROOM_VERSION"@, msg)
}

pub open spec fn forbidden(msg: Seq<char>) -> ApiErrorView {
    api_error(FORBIDDEN, "M_FORBIDDEN"@, msg)
}

/// The refusal for a failure of the store: its details stay here.
pub open spec fn internal_error() -> ApiErrorView {
    api_error(INTERNAL_SERVER_ERROR, "M_UNKNOWN"@, "internal error"@)
}

/// What is wrong with the event of an invite, if anything: it is a membership
/// event that invites a user of this server, sent by a user of the sending
/// server, for the room that the request names.
pub open spec fn invite_fault(
    event: JsonView,
    room_id: Seq<char>,
    origin: Seq<char>,
    us: Seq<char>,
) -> Option<ApiErrorView> {
    if event.str_at("type"@) != Some("m.room.member"@) {
        Some(bad_json("type must be m.room.member"@))
    } else if event.str_within("content"@, "membership"@) != Some("invite"@) {
        Some(bad_json("content.membership must be invite"@))
    } else if event.str_at("sender"@) is None {
        Some(bad_json("missing sender"@))
    } else if event.str_at("state_key"@) is None {
        Some(bad_json("missing state_key"@))
    } else if server_or_empty(event.str_at("sender"@)->0) != origin {
        Some(forbidden("sender domain does not match origin"@))
    } else if server_or_empty(event.str_at("state_key"@)->0) != us {
        Some(forbidden("invite target is not on this server"@))
    } else if event.str_at("room_id"@) is None {
        Some(bad_json("missing room_id"@))
    } else if event.str_at("room_id"@) != Some(room_id) {
        Some(bad_json("event room_id doesn't match URL"@))
    } else {
        None
    }
}

/// The event of an invite, once the request around it is in order.
pub open spec fn invite_event(f: InviteFacts) -> Result<JsonView, InviteView> {
    match f.body {
        None => Err(InviteView::Refuse(bad_json("empty body"@))),
        Some(body) => if body@.as_object() is None {
            Err(InviteView::Refuse(bad_json("body not an object"@)))
        } else {
            match f.version {
                None => Err(InviteView::CheckVersion { version: invite_version(body@) }),
                Some(VersionSupport::Unknown) => Err(
                    InviteView::Refuse(incompatible("unsupported room_version"@)),
                ),
                Some(VersionSupport::TooOld) => Err(
                    InviteView::Refuse(incompatible("room_version below operator minimum"@)),
                ),
                Some(VersionSupport::Supported) => match body@.get("event"@) {
                    Some(event) => if event.as_object() is Some {
                        match invite_fault(event, f.room_id@, f.origin@, f.server_name@) {
                            Some(e) => Err(InviteView::Refuse(e)),
                            None => Ok(event),
                        }
                    } else {
                        Err(InviteView::Refuse(bad_json("missing event"@)))
                    },
                    None => Err(InviteView::Refuse(bad_json("missing event"@))),
                },
            }
        },
    }
}

/// The check that the inviting server may act in the room.
pub open spec fn invite_admitted(f: InviteFacts) -> Option<InviteView> {
    match f.acl {
        None => Some(InviteView::LoadAcl),
        Some(acl) => match acl_denial(json_of(acl), f.origin@) {
            Some(e) => Some(InviteView::Refuse(e)),
            None => None,
        },
    }
}

/// The checks of an invite's signature, id and hash, up to its being signed.
pub open spec fn invite_signed(f: InviteFacts, event: JsonView) -> Option<InviteView> {
    match f.sender_keys {
        None => Some(InviteView::FetchKeys { server: f.origin@ }),
        Some(Err(e)) => Some(InviteView::Refuse(forbidden("key fetch: "@ + e@))),
        Some(Ok(keys)) => match signature_search(event, f.origin@, keys, f.sig_checks@) {
            SignatureView::Unsigned => Some(
                InviteView::Refuse(forbidden("no origin signature"@)),
            ),
            SignatureView::Check { key_id, key } => Some(
                InviteView::VerifySignature { server: f.origin@, key_id, key },
            ),
            SignatureView::Empty | SignatureView::Unverified => Some(
                InviteView::Refuse(forbidden("signature verification failed"@)),
            ),
            SignatureView::Verified => match f.computed_id {
                None => Some(InviteView::ComputeId),
                Some(id) => if id@ != f.event_id@ {
                    Some(
                        InviteView::Refuse(bad_json("URL event_id doesn't match reference hash"@)),
                    )
                } else {
                    match f.content_hash {
                        None => Some(InviteView::HashContent),
                        Some(hash) => if f.signed is None {
                            Some(
                                InviteView::Sign {
                                    redacted: event.str_within("hashes"@, "sha256"@) != Some(
                                        hash@,
                                    ),
                                },
                            )
                        } else {
                            None
                        },
                    }
                },
            },
        },
    }
}

/// The stripped state that comes with an invite.
pub open spec fn stripped_events(body: JsonView) -> Seq<JsonView> {
    match body.array_at("invite_room_state"@) {
        Some(v) => v,
        None => seq![],
    }
}

/// The storing of an invite.
pub open spec fn invite_stored(
    f: InviteFacts,
    body: JsonView,
    user: Seq<char>,
    signed: JsonView,
) -> InviteView {
    match f.prepared {
        None => InviteView::Prepare { version: invite_version(body) },
        Some(false) => InviteView::Refuse(internal_error()),
        Some(true) => if !f.stripped_stored && stripped_events(body).len() > 0 {
            InviteView::StoreStripped { events: stripped_events(body) }
        } else {
            match f.readable {
                None => InviteView::ReadFields,
                Some(false) => InviteView::Refuse(bad_json("malformed PDU"@)),
                Some(true) => match f.stored {
                    None => InviteView::Store {
                        user,
                        kind: PersistKind::Live,
                        effects: invite_effects(),
                    },
                    Some(false) => InviteView::Refuse(internal_error()),
                    Some(true) => InviteView::Reply {
                        body: JsonView::Object(seq![("event"@, signed)]),
                    },
                },
            }
        },
    }
}

/// How an invite is answered.
pub open spec fn invite_next(f: InviteFacts) -> InviteView {
    match invite_event(f) {
        Err(s) => s,
        Ok(event) => match invite_admitted(f) {
            Some(s) => s,
            None => match invite_signed(f, event) {
                Some(s) => s,
                None => match (f.body, f.signed) {
                    (Some(body), Some(signed)) => invite_stored(
                        f,
                        body@,
                        event.str_at("state_key"@)->0,
                        signed@,
                    ),
                    _ => InviteView::HashContent,
                },
            },
        },
    }
}

fn bad(msg: &str) -> (r: InviteStep)
    ensures
        r@ == InviteView::Refuse(bad_json(msg@)),
{
    InviteStep::Refuse(err_response(BAD_REQUEST, "M_BAD_JSON", msg))
}

fn forbid(msg: &str) -> (r: InviteStep)
    ensures
        r@ == InviteView::Refuse(forbidden(msg@)),
{
    InviteStep::Refuse(err_response(FORBIDDEN, "M_FORBIDDEN", msg))
}

fn internal() -> (r: InviteStep)
    ensures
        r@ == InviteView::Refuse(internal_error()),
{
    InviteStep::Refuse(err_response(INTERNAL_SERVER_ERROR, "M_UNKNOWN", "internal error"))
}

pub open spec fn opt_invite(s: Option<InviteStep>) -> Option<InviteView> {
    match s {
        Some(s) => Some(s@),
        None => None,
    }
}

fn is_text(found: Option<&str>, want: &str) -> (r: bool)
    ensures
        r == (opt_text(found) == Some(want@)),
{
    match found {
        Some(s) => str_eq(s, want),
        None => false,
    }
}

fn check_event(event: &Json, room_id: &str, origin: &str, us: &str) -> (r: Option<InviteStep>)
    ensures
        match r {
            Some(s) => invite_fault(event@, room_id@, origin@, us@) is Some && s@
                == InviteView::Refuse(invite_fault(event@, room_id@, origin@, us@)->0),
            None => invite_fault(event@, room_id@, origin@, us@) is None,
        },
{
    if !is_text(event.str_at("type"), "m.room.member") {
        return Some(bad("type must be m.room.member"));
    }
    if !is_text(event.str_within("content", "membership"), "invite") {
        return Some(bad("content.membership must be invite"));
    }
    let sender = match event.str_at("sender") {
        None => {
            return Some(bad("missing sender"));
        },
        Some(s) => s,
    };
    let target = match event.str_at("state_key") {
        None => {
            return Some(bad("missing state_key"));
        },
        Some(s) => s,
    };
    if !str_eq(domain_or_empty(sender), origin) {
        return Some(forbid("sender domain does not match origin"));
    }
    if !str_eq(domain_or_empty(target), us) {
        return Some(forbid("invite target is not on this server"));
    }
    match event.str_at("room_id") {
        None => Some(bad("missing room_id")),
        Some(r) => {
            if str_eq(r, room_id) {
                None
            } else {
                Some(bad("event room_id doesn't match URL"))
            }
        },
    }
}

fn read_version(body: &Json) -> (r: String)
    ensures
        r@ == invite_version(body@),
{
    match body.str_at("room_version") {
        Some(v) => v.to_owned(),
        None => "12".to_owned(),
    }
}

fn read_event<'a>(f: &'a InviteFacts) -> (r: Result<&'a Json, InviteStep>)
    ensures
        match r {
            Ok(e) => invite_event(*f) == Ok::<JsonView, InviteView>(e@),
            Err(s) => invite_event(*f) == Err::<JsonView, InviteView>(s@),
        },
{
    let body = match &f.body {
        None => {
            return Err(bad("empty body"));
        },
        Some(b) => b,
    };
    if body.as_object().is_none() {
        return Err(bad("body not an object"));
    }
    match f.version {
        None => {
            return Err(InviteStep::CheckVersion { version: read_version(body) });
        },
        Some(VersionSupport::Unknown) => {
            return Err(
                InviteStep::Refuse(
                    err_response(
                        BAD_REQUEST,
                        "M_INCOMPATIBLE_ROOM_VERSION",
                        "unsupported room_version",
                    ),
                ),
            );
        },
        Some(VersionSupport::TooOld) => {
            return Err(
                InviteStep::Refuse(
                    err_response(
                        BAD_REQUEST,
                        "M_INCOMPATIBLE_ROOM_VERSION",
                        "room_version below operator minimum",
                    ),
                ),
            );
        },
        Some(VersionSupport::Supported) => {},
    }
    match body.get("event") {
        Some(event) => {
            if event.as_object().is_none() {
                return Err(bad("missing event"));
            }
            match check_event(
                event,
                f.room_id.as_str(),
                f.origin.as_str(),
                f.server_name.as_str(),
            ) {
                Some(s) => Err(s),
                None => Ok(event),
            }
        },
        None => Err(bad("missing event")),
    }
}

fn check_signed(f: &InviteFacts, event: &Json) -> (r: Option<InviteStep>)
    ensures
        opt_invite(r) == invite_signed(*f, event@),
{
    let keys = match &f.sender_keys {
        None => {
            return Some(InviteStep::FetchKeys { server: f.origin.clone() });
        },
        Some(Err(e)) => {
            let text = cat("key fetch: ", e.as_str());
            return Some(forbid(text.as_str()));
        },
        Some(Ok(k)) => k,
    };
    match next_signature(event, f.origin.as_str(), keys, &f.sig_checks) {
        SignatureStep::Unsigned => {
            return Some(forbid("no origin signature"));
        },
        SignatureStep::Check { key_id, key } => {
            return Some(InviteStep::VerifySignature { server: f.origin.clone(), key_id, key });
        },
        SignatureStep::Empty | SignatureStep::Unverified => {
            return Some(forbid("signature verification failed"));
        },
        SignatureStep::Verified => {},
    }
    match &f.computed_id {
        None => {
            return Some(InviteStep::ComputeId);
        },
        Some(id) => {
            if !str_eq(id.as_str(), f.event_id.as_str()) {
                return Some(bad("URL event_id doesn't match reference hash"));
            }
        },
    }
    match &f.content_hash {
        None => Some(InviteStep::HashContent),
        Some(hash) => {
            if f.signed.is_none() {
                let same = declares_hash(event, hash.as_str());
                Some(InviteStep::Sign { redacted: !same })
            } else {
                None
            }
        },
    }
}

/// Names what to find out or to do next about an invite, or the reply.
pub fn invite_v2(f: &InviteFacts) -> (r: InviteStep)
    ensures
        r@ == invite_next(*f),
{
    let event = match read_event(f) {
        Ok(e) => e,
        Err(s) => {
            return s;
        },
    };
    match &f.acl {
        None => {
            return InviteStep::LoadAcl;
        },
        Some(acl) => match deny_if_blocked(acl.as_ref(), f.origin.as_str()) {
            Err(e) => {
                return InviteStep::Refuse(e);
            },
            Ok(_) => {},
        },
    }
    match check_signed(f, event) {
        Some(s) => {
            return s;
        },
        None => {},
    }
    let (body, signed, user) = match (&f.body, &f.signed, event.str_at("state_key")) {
        (Some(b), Some(s), Some(u)) => (b, s, u),
        _ => {
            return InviteStep::HashContent;
        },
    };
    match f.prepared {
        None => {
            return InviteStep::Prepare { version: read_version(body) };
        },
        Some(false) => {
            return internal();
        },
        Some(true) => {},
    }
    if !f.stripped_stored {
        match body.array_at("invite_room_state") {
            Some(v) => {
                proof {
                    assert(values(v@).len() == v@.len());
                }
                if v.len() > 0 {
                    return InviteStep::StoreStripped { events: crate::join::copy_values(v) };
                }
            },
            None => {},
        }
    }
    match f.readable {
        None => {
            return InviteStep::ReadFields;
        },
        Some(false) => {
            return bad("malformed PDU");
        },
        Some(true) => {},
    }
    match f.stored {
        None => InviteStep::Store {
            user: user.to_owned(),
            kind: PersistKind::Live,
            effects: persist_invite_event(),
        },
        Some(false) => internal(),
        Some(true) => {
            let mut m: Vec<(String, Json)> = Vec::new();
            put(&mut m, "event", signed.copy());
            proof {
                assert(members(m@) =~= seq![("event"@, signed@)]);
            }
            InviteStep::Reply { body: Json::object(m) }
        },
    }
}

/// A stripped state event as it is kept for the rendering of an invite.
pub struct Stripped {
    pub event_type: String,
    pub state_key: String,
    pub sender: String,
    /// The id under which it is kept; no real event has it.
    pub pseudo_id: String,
}

/// The id under which a stripped state event is kept.
pub open spec fn pseudo_id(room: u64, event_type: Seq<char>, state_key: Seq<char>) -> Seq<char> {
    "$invite-stripped:"@ + decimal(room as nat) + ":"@ + event_type + ":"@ + state_key
}

pub open spec fn text_or_empty(v: JsonView, key: Seq<char>) -> Seq<char> {
    match v.str_at(key) {
        Some(s) => s,
        None => ""@,
    }
}

/// Reads a stripped state event. It must be an object with a type; a missing
/// state key or sender counts as empty.
pub fn persist_stripped(room: u64, stripped: &Json) -> (r: Result<Stripped, String>)
    ensures
        match r {
            Ok(s) => {
                &&& stripped@.as_object() is Some
                &&& stripped@.str_at("type"@) == Some(s.event_type@)
                &&& s.state_key@ == text_or_empty(stripped@, "state_key"@)
                &&& s.sender@ == text_or_empty(stripped@, "sender"@)
                &&& s.pseudo_id@ == pseudo_id(room, s.event_type@, s.state_key@)
            },
            Err(e) => if stripped@.as_object() is None {
                e@ == "stripped not an object"@
            } else {
                stripped@.str_at("type"@) is None && e@ == "missing type"@
            },
        },
{
    if stripped.as_object().is_none() {
        return Err("stripped not an object".to_owned());
    }
    let event_type = match stripped.str_at("type") {
        Some(t) => t,
        None => {
            return Err("missing type".to_owned());
        },
    };
    let state_key = match stripped.str_at("state_key") {
        Some(k) => k,
        None => "",
    };
    let sender = match stripped.str_at("sender") {
        Some(s) => s,
        None => "",
    };
    let mut id = cat("$invite-stripped:", number_text(room).as_str());
    id.append(":");
    id.append(event_type);
    id.append(":");
    id.append(state_key);
    Ok(
        Stripped {
            event_type: event_type.to_owned(),
            state_key: state_key.to_owned(),
            sender: sender.to_owned(),
            pseudo_id: id,
        },
    )
}

/// The ids under which stripped state is kept are told apart from those of real
/// events: a create event kept under one never serves as the room's.
pub proof fn law_stripped_ids(room: u64, event_type: Seq<char>, state_key: Seq<char>)
    ensures
        is_stripped_id(pseudo_id(room, event_type, state_key)),
{
    let p = "$invite-stripped:"@;
    let id = pseudo_id(room, event_type, state_key);
    assert(id.subrange(0, p.len() as int) =~= p);
}

/// An invite is stored, and answered with its signed event, only if a user of the
/// sending server invites a user of this one, the room does not keep the sending
/// server out, its signature verified, and the event has the id under which it
/// came. It is stored on the timeline, the user counts as invited, and the user
/// and the room are woken.
pub proof fn law_invites(f: InviteFacts)
    requires
        invite_next(f) is Store || invite_next(f) is Reply,
    ensures
        f.body is Some,
        f.body->0@.get("event"@) is Some,
        f.acl matches Some(acl) && acl_refusal(json_of(acl), f.origin@) is None,
        ({
            let event = f.body->0@.get("event"@)->0;
            &&& invite_fault(event, f.room_id@, f.origin@, f.server_name@) is None
            &&& f.sender_keys matches Some(Ok(keys)) && signature_search(
                event,
                f.origin@,
                keys,
                f.sig_checks@,
            ) is Verified
        }),
        f.computed_id matches Some(id) && id@ == f.event_id@,
        invite_next(f) is Reply ==> f.stored == Some(true),
        invite_next(f) is Store ==> {
            &&& invite_next(f)->Store_kind == PersistKind::Live
            &&& invite_next(f)->Store_effects == seq![
                EffectView::SetMembership(2),
                EffectView::NotifyUser,
                EffectView::NotifyRoom,
            ]
        },
{
    reveal(acl_denial);
}

/// An invite is stored exactly if its room version can be served; it is a member
/// event that invites a user of this server, for the room that the request names,
/// by a user of the sending server; that server may act in the room and signed it;
/// its id is the one that it was sent under; this server signed it; the room was
/// set up and the stripped state stored; and the event is readable and not stored
/// yet.
pub proof fn law_stored_invites(f: InviteFacts)
    ensures
        invite_next(f) is Store <==> {
            &&& f.version == Some(VersionSupport::Supported)
            &&& (f.body matches Some(body) && (body@.get("event"@) matches Some(event) && {
                &&& event.get("type"@) == Some(JsonView::Str("m.room.member"@))
                &&& (event.get("content"@) matches Some(c) && c.get("membership"@) == Some(
                    JsonView::Str("invite"@),
                ))
                &&& (event.get("sender"@) matches Some(JsonView::Str(s)) && (belongs_to(
                    s,
                    f.origin@,
                ) || (server_part(s) is None && f.origin@ == ""@)))
                &&& (event.get("state_key"@) matches Some(JsonView::Str(u)) && (belongs_to(
                    u,
                    f.server_name@,
                ) || (server_part(u) is None && f.server_name@ == ""@)))
                &&& event.get("room_id"@) == Some(JsonView::Str(f.room_id@))
                &&& (f.sender_keys matches Some(Ok(keys)) && signature_search(
                    event,
                    f.origin@,
                    keys,
                    f.sig_checks@,
                ) is Verified)
                &&& f.stripped_stored || !(body@.get("invite_room_state"@) matches Some(
                    JsonView::Array(v),
                ) && v.len() > 0)
            }))
            &&& (f.acl matches Some(acl) && acl_refusal(json_of(acl), f.origin@) is None)
            &&& (f.computed_id matches Some(id) && id@ == f.event_id@)
            &&& f.content_hash is Some
            &&& f.signed is Some
            &&& f.prepared == Some(true)
            &&& f.readable == Some(true)
            &&& f.stored is None
        },
{
    reveal(acl_denial);
    reveal_strlit("");
}

/// On the way to an invite's reply, what is asked for is what the request names,
/// and the reply is the event as this server signed it, once it was stored. It is
/// signed in redacted form exactly if its content has another hash than it states.
pub proof fn law_invite_steps(f: InviteFacts)
    ensures
        ({
            let body = f.body->0@;
            let event = body.get("event"@)->0;
            match invite_next(f) {
                InviteView::CheckVersion { version } => match body.get("room_version"@) {
                    Some(JsonView::Str(v)) => version == v,
                    _ => version == "12"@,
                },
                InviteView::FetchKeys { server } => server == f.origin@,
                InviteView::VerifySignature { server, key_id, key } => {
                    &&& server == f.origin@
                    &&& f.sender_keys matches Some(Ok(keys)) && keys.event_key(key_id) == Some(key)
                    &&& event.get("signatures"@) matches Some(all) && (all.get(server) matches Some(
                        of_server,
                    ) && of_server.get(key_id) is Some)
                },
                InviteView::Sign { redacted } => f.content_hash is Some && (redacted <==> !(
                event.get("hashes"@) matches Some(h) && h.get("sha256"@) == Some(
                    JsonView::Str(f.content_hash->0@),
                ))) && (f.computed_id matches Some(id) && id@ == f.event_id@),
                InviteView::Prepare { version } => f.signed is Some && match body.get(
                    "room_version"@,
                ) {
                    Some(JsonView::Str(v)) => version == v,
                    _ => version == "12"@,
                },
                InviteView::StoreStripped { events } => f.prepared == Some(true) && body.get(
                    "invite_room_state"@,
                ) == Some(JsonView::Array(events)),
                InviteView::Store { user, kind, effects } => {
                    &&& event.get("state_key"@) == Some(JsonView::Str(user))
                    &&& kind == PersistKind::Live
                    &&& effects.contains(EffectView::SetMembership(2))
                },
                InviteView::Reply { body: reply } => f.stored == Some(true) && f.signed is Some
                    && reply.get("event"@) == Some(f.signed->0@),
                _ => true,
            }
        }),
{
    reveal(acl_denial);
    reveal_strlit("");
    reveal_with_fuel(crate::json::member, 2);
    law_effects_of_invites(EffectView::SetMembership(2));
    if let Some(Ok(keys)) = f.sender_keys {
        law_signatures_to_check(
            f.body->0@.get("event"@)->0,
            f.origin@,
            keys,
            f.sig_checks@,
        );
    }
}

} // verus!
