//! The receive pipeline: what happens to one event that a peer sends in a
//! transaction.
//!
//! The pipeline is a dialogue. [`process_pdu`] looks at what is known so far
//! about an event and names the one thing to find out or to do next, or the
//! outcome. Its caller does it, records the answer in [`PduFacts`], and asks
//! again.

use vstd::prelude::*;
use vstd::string::*;

use crate::intake::becomes_extremity;
use crate::intake::PersistKind;
use crate::json::members;
use crate::json::put;
use crate::json::Json;
use crate::json::JsonView;
use crate::keys::any_first;
use crate::keys::any_of_first;
use crate::keys::law_signatures_to_check;
use crate::keys::next_signature;
use crate::keys::signature_search;
use crate::keys::RemoteKeys;
use crate::keys::SignatureStep;
use crate::keys::SignatureView;
use crate::pdu::belongs_to;
use crate::pdu::id_belongs_to;
use crate::pdu::Pdu;
use crate::pdu::PduView;
use crate::persist::law_withdrawn_invites;
use crate::persist::rescind_in_turn;
use crate::persist::rescind_next;
use crate::persist::RescindFacts;
use crate::persist::RescindView;
use crate::server_acl::acl_refusal;
use crate::server_acl::check_server_acl;
use crate::text::cat;
use crate::text::cat3;
use crate::text::opt_string;
use crate::text::str_eq;

verus! {

/// The most events that one transaction may carry.
pub const MAX_PDUS_PER_TRANSACTION: usize = 50;

/// The most ephemeral units that one transaction may carry.
pub const MAX_EDUS_PER_TRANSACTION: usize = 100;

/// The most events that are fetched to fill the gaps behind one event.
pub const MAX_MISSING_FETCH_PER_PDU: usize = 100;

/// What became of one event.
#[derive(Debug)]
pub enum PduOutcome {
    /// Accepted and stored.
    Accepted,
    /// Stored, but kept from clients and from the room's current state.
    SoftFailed,
    /// Not stored, for a reason.
    Rejected(String),
}

/// The mathematical value of an outcome.
pub enum OutcomeView {
    Accepted,
    SoftFailed,
    Rejected(Seq<char>),
}

impl PduOutcome {
    pub open spec fn view(&self) -> OutcomeView {
        match self {
            PduOutcome::Accepted => OutcomeView::Accepted,
            PduOutcome::SoftFailed => OutcomeView::SoftFailed,
            PduOutcome::Rejected(r) => OutcomeView::Rejected(r@),
        }
    }

    /// A copy of the outcome.
    pub fn copy(&self) -> (r: PduOutcome)
        ensures
            r@ == self@,
    {
        match self {
            PduOutcome::Accepted => PduOutcome::Accepted,
            PduOutcome::SoftFailed => PduOutcome::SoftFailed,
            PduOutcome::Rejected(s) => PduOutcome::Rejected(s.clone()),
        }
    }

    /// The entry for the event in the reply to the transaction: empty for an
    /// event that was stored, the reason for one that was not.
    pub fn to_json(&self) -> (r: Json)
        ensures
            r@ == outcome_json(self@),
    {
        let mut m: Vec<(String, Json)> = Vec::new();
        match self {
            PduOutcome::Rejected(reason) => {
                put(&mut m, "error", Json::text(reason.as_str()));
            },
            _ => {},
        }
        proof {
            assert(JsonView::Object(members(m@))->Object_0 =~= outcome_json(self@)->Object_0);
        }
        Json::object(m)
    }
}

/// The entry for an outcome in the reply to a transaction.
pub open spec fn outcome_json(o: OutcomeView) -> JsonView {
    match o {
        OutcomeView::Rejected(reason) => JsonView::Object(seq![("error"@, JsonView::Str(reason))]),
        _ => JsonView::Object(seq![]),
    }
}

/// What is stored of a room under its id.
pub enum RoomLookup {
    Known(u64),
    Unknown,
    Failed,
}

/// What is known of one of the event's auth events.
pub struct AuthLookup {
    /// Whether it was stored at the first look.
    pub found: bool,
    /// Whether the auth chain of the event was asked for since.
    pub chain_fetched: bool,
    /// Whether it is on record as rejected after that.
    pub rejected: Option<bool>,
    /// Whether it was stored at the second look.
    pub found_in_chain: Option<bool>,
    /// Whether the state ids at the boundary were asked for since.
    pub ids_fetched: bool,
    /// Whether it was stored at the third look.
    pub found_in_ids: Option<bool>,
}

/// How the event fares against the state before it.
pub enum StateCheck {
    /// The rules allow it.
    Allowed,
    /// The rules refuse it.
    Refused(String),
    /// No predecessor contributes state.
    NoState,
    /// The state could not be worked out.
    Unresolved,
}

/// How the event fares against the room's current state.
#[derive(Clone, Copy, PartialEq, Eq, Structural, Debug)]
pub enum CurrentCheck {
    Allowed,
    Refused,
    Unreadable,
}

/// What is known so far about an event that a peer sent.
pub struct PduFacts {
    /// The event as it arrived.
    pub json: Json,
    /// The name of the receiving server.
    pub server_name: String,
    /// The path of a number that is no safe integer, if there is one.
    pub bad_number: Option<Option<String>>,
    /// The id that the event's hash gives it, and its fields if it has them.
    pub identity: Option<(String, Option<Pdu>)>,
    /// Whether the event is already stored.
    pub known: Option<bool>,
    /// What is stored of its room.
    pub room: Option<RoomLookup>,
    /// The room's access control list.
    pub acl: Option<Option<Json>>,
    /// The keys of the sender's server, if they could be had.
    pub sender_keys: Option<Option<RemoteKeys>>,
    /// For each signature that can be checked, whether it verified.
    pub sig_checks: Vec<bool>,
    /// The hash of the event's content.
    pub content_hash: Option<String>,
    /// The fields of the event as it counts: redacted if its hash is wrong.
    pub effective: Option<Option<Pdu>>,
    /// The tracked membership of the user that the event concerns.
    pub target_membership: Option<Option<u8>>,
    /// The sender of the invite that the event concerns.
    pub inviter: Option<Option<String>>,
    /// What storing the withdrawal of an invite came to.
    pub rescinded: Option<PduOutcome>,
    /// For each auth event, whether it is on record as rejected.
    pub auth_rejected: Vec<bool>,
    /// For each auth event, what looking for it came to.
    pub auth_lookups: Vec<AuthLookup>,
    /// The verdict of the rules over the auth events: the reason of a refusal.
    pub auth_refusal: Option<Option<String>>,
    /// For each predecessor, whether it is missing: neither stored nor rejected.
    pub prev_missing: Vec<bool>,
    /// Whether the gap before the event was filled.
    pub gap_filled: bool,
    /// Whether the place of the gap was marked.
    pub gap_marked: bool,
    /// The verdict over the state before the event.
    pub state_check: Option<StateCheck>,
    /// Whether the room's state is still being fetched.
    pub partial_state: Option<bool>,
    /// The verdict over the room's current state.
    pub current_check: Option<CurrentCheck>,
    /// What storing the event came to: the reason of a failure.
    pub stored: Option<Option<String>>,
    /// Whether the sender's membership was made visible.
    pub sender_promoted: bool,
}

/// What to find out or to do next.
pub enum PduStep {
    /// Look for a number that is no safe integer.
    CheckNumbers,
    /// Work out the event's id and read its fields.
    Identify,
    /// Look the event up.
    LookupEvent { event_id: String },
    /// Look the room up.
    LookupRoom { room_id: String },
    /// Read the room's access control list.
    LoadAcl { room: u64 },
    /// Get the keys of a server.
    FetchKeys { server: String },
    /// Verify the event's signature by a server with one of its keys.
    VerifySignature { server: String, key_id: String, key: String },
    /// Compute the hash of the event's content.
    HashContent,
    /// Read the fields of the event as it counts, redacted or as it arrived.
    ReadEffective { redacted: bool },
    /// Read the tracked membership of a user in a room.
    LookupMembership { room: u64, user: String },
    /// Read who sent the invite of a user to a room.
    LookupInviter { room: u64, user: String },
    /// Store the withdrawal of an invite.
    Rescind { room: u64 },
    /// Look up whether an event is on record as rejected.
    IsRejected { event_id: String },
    /// Look an auth event up.
    LoadAuthEvent { event_id: String },
    /// Look up again whether an auth event is on record as rejected.
    RecheckRejected { event_id: String },
    /// Look an auth event up again.
    ReloadAuthEvent { event_id: String },
    /// Fetch the auth chain of the event from a server.
    FetchAuthChain { server: String, room_id: String, event_id: String },
    /// Fetch the state ids at the boundary of what is stored before the event.
    FetchStateIds { server: String, room_id: String },
    /// Apply the rules to the event over its auth events.
    CheckAuthEvents { room: u64 },
    /// Look up whether a predecessor is missing.
    LookupPrev { event_id: String },
    /// Fetch the events missing before the event.
    FillGap { server: String, room_id: String, event_id: String, room: u64 },
    /// Mark the current position of the stream as that of a gap in the room, so
    /// that clients from before it are told that their timeline is limited.
    MarkGap { room: u64 },
    /// Apply the rules to the event over the state before it.
    CheckStateBefore { server: String, room: u64 },
    /// Look up whether the room's state is still being fetched.
    IsPartialState { room: u64 },
    /// Apply the rules to the event over the room's current state.
    CheckCurrentState { room: u64 },
    /// Store the event in this way. The answer is about the writing alone: what
    /// fails of what else it entails does not undo it.
    Store { room: u64, soft_failed: bool, kind: PersistKind },
    /// Make the sender's membership visible while the room's state is fetched.
    PromoteSender { room: u64 },
    /// The outcome, under the id by which it is reported.
    Done { event_id: String, outcome: PduOutcome },
}

/// The mathematical value of a step.
pub enum StepView {
    CheckNumbers,
    Identify,
    LookupEvent { event_id: Seq<char> },
    LookupRoom { room_id: Seq<char> },
    LoadAcl { room: u64 },
    FetchKeys { server: Seq<char> },
    VerifySignature { server: Seq<char>, key_id: Seq<char>, key: Seq<char> },
    HashContent,
    ReadEffective { redacted: bool },
    LookupMembership { room: u64, user: Seq<char> },
    LookupInviter { room: u64, user: Seq<char> },
    Rescind { room: u64 },
    IsRejected { event_id: Seq<char> },
    LoadAuthEvent { event_id: Seq<char> },
    RecheckRejected { event_id: Seq<char> },
    ReloadAuthEvent { event_id: Seq<char> },
    FetchAuthChain { server: Seq<char>, room_id: Seq<char>, event_id: Seq<char> },
    FetchStateIds { server: Seq<char>, room_id: Seq<char> },
    CheckAuthEvents { room: u64 },
    LookupPrev { event_id: Seq<char> },
    FillGap { server: Seq<char>, room_id: Seq<char>, event_id: Seq<char>, room: u64 },
    MarkGap { room: u64 },
    CheckStateBefore { server: Seq<char>, room: u64 },
    IsPartialState { room: u64 },
    CheckCurrentState { room: u64 },
    Store { room: u64, soft_failed: bool, kind: PersistKind },
    PromoteSender { room: u64 },
    Done { event_id: Seq<char>, outcome: OutcomeView },
}

impl PduStep {
    pub open spec fn view(&self) -> StepView {
        match self {
            PduStep::CheckNumbers => StepView::CheckNumbers,
            PduStep::Identify => StepView::Identify,
            PduStep::LookupEvent { event_id } => StepView::LookupEvent { event_id: event_id@ },
            PduStep::LookupRoom { room_id } => StepView::LookupRoom { room_id: room_id@ },
            PduStep::LoadAcl { room } => StepView::LoadAcl { room: *room },
            PduStep::FetchKeys { server } => StepView::FetchKeys { server: server@ },
            PduStep::VerifySignature { server, key_id, key } => StepView::VerifySignature {
                server: server@,
                key_id: key_id@,
                key: key@,
            },
            PduStep::HashContent => StepView::HashContent,
            PduStep::ReadEffective { redacted } => StepView::ReadEffective { redacted: *redacted },
            PduStep::LookupMembership { room, user } => StepView::LookupMembership {
                room: *room,
                user: user@,
            },
            PduStep::LookupInviter { room, user } => StepView::LookupInviter {
                room: *room,
                user: user@,
            },
            PduStep::Rescind { room } => StepView::Rescind { room: *room },
            PduStep::IsRejected { event_id } => StepView::IsRejected { event_id: event_id@ },
            PduStep::LoadAuthEvent { event_id } => StepView::LoadAuthEvent { event_id: event_id@ },
            PduStep::RecheckRejected { event_id } => StepView::RecheckRejected {
                event_id: event_id@,
            },
            PduStep::ReloadAuthEvent { event_id } => StepView::ReloadAuthEvent {
                event_id: event_id@,
            },
            PduStep::FetchAuthChain { server, room_id, event_id } => StepView::FetchAuthChain {
                server: server@,
                room_id: room_id@,
                event_id: event_id@,
            },
            PduStep::FetchStateIds { server, room_id } => StepView::FetchStateIds {
                server: server@,
                room_id: room_id@,
            },
            PduStep::CheckAuthEvents { room } => StepView::CheckAuthEvents { room: *room },
            PduStep::LookupPrev { event_id } => StepView::LookupPrev { event_id: event_id@ },
            PduStep::FillGap { server, room_id, event_id, room } => StepView::FillGap {
                server: server@,
                room_id: room_id@,
                event_id: event_id@,
                room: *room,
            },
            PduStep::MarkGap { room } => StepView::MarkGap { room: *room },
            PduStep::CheckStateBefore { server, room } => StepView::CheckStateBefore {
                server: server@,
                room: *room,
            },
            PduStep::IsPartialState { room } => StepView::IsPartialState { room: *room },
            PduStep::CheckCurrentState { room } => StepView::CheckCurrentState { room: *room },
            PduStep::Store { room, soft_failed, kind } => StepView::Store {
                room: *room,
                soft_failed: *soft_failed,
                kind: *kind,
            },
            PduStep::PromoteSender { room } => StepView::PromoteSender { room: *room },
            PduStep::Done { event_id, outcome } => StepView::Done {
                event_id: event_id@,
                outcome: outcome@,
            },
        }
    }
}

/// The step that reports a rejection.
pub open spec fn rejected(event_id: Seq<char>, reason: Seq<char>) -> StepView {
    StepView::Done { event_id, outcome: OutcomeView::Rejected(reason) }
}

fn reject(event_id: &str, reason: &str) -> (r: PduStep)
    ensures
        r@ == rejected(event_id@, reason@),
{
    PduStep::Done {
        event_id: event_id.to_owned(),
        outcome: PduOutcome::Rejected(reason.to_owned()),
    }
}

/// The format checks: what the event still has to be asked before its fields
/// are known, and what is wrong with them.
pub open spec fn format_step(f: PduFacts) -> Option<StepView> {
    if f.json@.as_object() is None {
        Some(rejected("unknown"@, "PDU is not a JSON object"@))
    } else {
        match f.bad_number {
            None => Some(StepView::CheckNumbers),
            Some(Some(path)) => Some(
                rejected(
                    "unknown"@,
                    "PDU contains disallowed numeric value at `"@ + path@
                        + "` (must be integer in safe range)"@,
                ),
            ),
            Some(None) => match f.identity {
                None => Some(StepView::Identify),
                Some((event_id, None)) => Some(
                    rejected(event_id@, "PDU missing required fields"@),
                ),
                Some((_, Some(pdu))) => if pdu.event_type@ == "m.room.create"@ {
                    Some(
                        rejected(
                            pdu.event_id@,
                            "m.room.create is not acceptable via /_matrix/federation/v1/send in 3a"@,
                        ),
                    )
                } else if pdu.room_id@.len() == 0 {
                    Some(rejected(pdu.event_id@, "PDU missing room_id"@))
                } else {
                    None
                },
            },
        }
    }
}

/// The checks that need no cryptography: an event that is already stored is
/// accepted again, the lists of references are bounded, the room is known.
pub open spec fn admission_step(f: PduFacts, pdu: PduView) -> Option<StepView> {
    match f.known {
        None => Some(StepView::LookupEvent { event_id: pdu.event_id }),
        Some(true) => Some(
            StepView::Done { event_id: pdu.event_id, outcome: OutcomeView::Accepted },
        ),
        Some(false) => if pdu.auth_events.len() > 10 {
            Some(rejected(pdu.event_id, "too many auth_events"@))
        } else if pdu.prev_events.len() > 20 {
            Some(rejected(pdu.event_id, "too many prev_events"@))
        } else {
            match f.room {
                None => Some(StepView::LookupRoom { room_id: pdu.room_id }),
                Some(RoomLookup::Unknown) => Some(rejected(pdu.event_id, "unknown room"@)),
                Some(RoomLookup::Failed) => Some(rejected(pdu.event_id, "internal error"@)),
                Some(RoomLookup::Known(_)) => if pdu.sender_domain() is None {
                    Some(rejected(pdu.event_id, "malformed sender"@))
                } else {
                    None
                },
            }
        },
    }
}

/// The checks of the sender's standing: the room's access control list, except
/// for a change to that list itself, and a signature of the sender's server.
pub open spec fn signature_step(f: PduFacts, pdu: PduView, room: u64) -> Option<StepView> {
    let domain = pdu.sender_domain()->0;
    let exempt = pdu.event_type == "m.room.server_acl"@;
    if !exempt && f.acl is None {
        Some(StepView::LoadAcl { room })
    } else if !exempt && acl_refusal(opt_acl(f.acl), domain) is Some {
        Some(
            rejected(pdu.event_id, "server_acl: "@ + acl_refusal(opt_acl(f.acl), domain)->0),
        )
    } else {
        match f.sender_keys {
            None => Some(StepView::FetchKeys { server: domain }),
            Some(None) => Some(rejected(pdu.event_id, "cannot fetch sender keys"@)),
            Some(Some(keys)) => match signature_search(f.json@, domain, keys, f.sig_checks@) {
                SignatureView::Unsigned | SignatureView::Empty => Some(
                    rejected(pdu.event_id, "no signature from "@ + domain),
                ),
                SignatureView::Check { key_id, key } => Some(
                    StepView::VerifySignature { server: domain, key_id, key },
                ),
                SignatureView::Verified => None,
                SignatureView::Unverified => Some(
                    rejected(pdu.event_id, "signature verification failed"@),
                ),
            },
        }
    }
}

pub open spec fn opt_acl(acl: Option<Option<Json>>) -> Option<JsonView> {
    match acl {
        Some(Some(a)) => Some(a@),
        _ => None,
    }
}

/// The hash check: an event whose content hash is not the one it declares
/// counts in its redacted form.
pub open spec fn hash_step(f: PduFacts, pdu: PduView) -> Option<StepView> {
    match f.content_hash {
        None => Some(StepView::HashContent),
        Some(hash) => match f.effective {
            None => Some(
                StepView::ReadEffective {
                    redacted: f.json@.str_within("hashes"@, "sha256"@) != Some(hash@),
                },
            ),
            Some(None) => Some(rejected(pdu.event_id, "event malformed after redaction"@)),
            Some(Some(_)) => None,
        },
    }
}

/// Whether an event ends the membership of a user of this server.
pub open spec fn removes_local_user(pdu: PduView, server_name: Seq<char>) -> bool {
    &&& pdu.is_member_event()
    &&& pdu.membership() == Some("leave"@) || pdu.membership() == Some("ban"@)
    &&& pdu.state_key is Some
    &&& belongs_to(pdu.state_key->0, server_name)
}

/// The check of withdrawn invites: an event that removes a user of this server
/// who is only invited counts when the inviter sent it, and only then.
pub open spec fn rescind_step(f: PduFacts, pdu: PduView, room: u64) -> Option<StepView> {
    if !removes_local_user(pdu, f.server_name@) {
        None
    } else {
        match f.target_membership {
            None => Some(StepView::LookupMembership { room, user: pdu.state_key->0 }),
            Some(m) => if m != Some(2u8) {
                None
            } else {
                match f.inviter {
                    None => Some(StepView::LookupInviter { room, user: pdu.state_key->0 }),
                    Some(inviter) => if opt_string(inviter) == Some(pdu.sender) {
                        match f.rescinded {
                            None => Some(StepView::Rescind { room }),
                            Some(outcome) => Some(
                                StepView::Done { event_id: pdu.event_id, outcome: outcome@ },
                            ),
                        }
                    } else {
                        Some(
                            rejected(
                                pdu.event_id,
                                "only the original inviter can rescind an invite over federation"@,
                            ),
                        )
                    },
                }
            },
        }
    }
}

/// An event on the record of rejected ones rejects what builds on it.
pub open spec fn auth_rejection(pdu: PduView, auth: Seq<char>) -> StepView {
    rejected(pdu.event_id, "auth_event "@ + auth + " is rejected"@)
}

/// The sweep over the auth events from `k` on: none may be on record as
/// rejected.
pub open spec fn cascade_step(f: PduFacts, pdu: PduView, k: int) -> Option<StepView>
    decreases pdu.auth_events.len() - k,
{
    if k >= pdu.auth_events.len() {
        None
    } else if k >= f.auth_rejected@.len() {
        Some(StepView::IsRejected { event_id: pdu.auth_events[k] })
    } else if f.auth_rejected@[k] {
        Some(auth_rejection(pdu, pdu.auth_events[k]))
    } else {
        cascade_step(f, pdu, k + 1)
    }
}

/// What has to be done to have one auth event at hand: look for it, then fetch
/// the auth chain of the event and look again, then fetch the state at the
/// boundary and look once more.
pub open spec fn obtain_step(
    l: AuthLookup,
    pdu: PduView,
    domain: Seq<char>,
    auth: Seq<char>,
) -> Option<StepView> {
    if l.found {
        None
    } else if !l.chain_fetched {
        Some(
            StepView::FetchAuthChain {
                server: domain,
                room_id: pdu.room_id,
                event_id: pdu.event_id,
            },
        )
    } else {
        match l.rejected {
            None => Some(StepView::RecheckRejected { event_id: auth }),
            Some(true) => Some(auth_rejection(pdu, auth)),
            Some(false) => match l.found_in_chain {
                None => Some(StepView::ReloadAuthEvent { event_id: auth }),
                Some(true) => None,
                Some(false) => if !l.ids_fetched {
                    Some(StepView::FetchStateIds { server: domain, room_id: pdu.room_id })
                } else {
                    match l.found_in_ids {
                        None => Some(StepView::ReloadAuthEvent { event_id: auth }),
                        Some(true) => None,
                        Some(false) => Some(
                            rejected(
                                pdu.event_id,
                                "auth event "@ + auth
                                    + " not provided in /event_auth or /state_ids chain"@,
                            ),
                        ),
                    }
                },
            },
        }
    }
}

/// The sweep over the auth events from `k` on: all must be at hand.
pub open spec fn obtain_all_step(
    f: PduFacts,
    pdu: PduView,
    domain: Seq<char>,
    k: int,
) -> Option<StepView>
    decreases pdu.auth_events.len() - k,
{
    if k >= pdu.auth_events.len() {
        None
    } else if k >= f.auth_lookups@.len() {
        Some(StepView::LoadAuthEvent { event_id: pdu.auth_events[k] })
    } else {
        match obtain_step(f.auth_lookups@[k], pdu, domain, pdu.auth_events[k]) {
            Some(s) => Some(s),
            None => obtain_all_step(f, pdu, domain, k + 1),
        }
    }
}

/// The checks over the auth events: none rejected, all at hand, and the rules
/// allow the event over them.
pub open spec fn auth_step(f: PduFacts, pdu: PduView, domain: Seq<char>, room: u64) -> Option<
    StepView,
> {
    match cascade_step(f, pdu, 0) {
        Some(s) => Some(s),
        None => match obtain_all_step(f, pdu, domain, 0) {
            Some(s) => Some(s),
            None => match f.auth_refusal {
                None => Some(StepView::CheckAuthEvents { room }),
                Some(Some(reason)) => Some(
                    rejected(pdu.event_id, "auth_events check failed: "@ + reason@),
                ),
                Some(None) => None,
            },
        },
    }
}

/// The sweep over the predecessors: the first one that is missing calls for
/// the gap before the event to be filled, once, and its place to be marked,
/// whether or not it could be filled.
pub open spec fn gap_step(f: PduFacts, pdu: PduView, domain: Seq<char>, room: u64) -> Option<
    StepView,
> {
    let n = pdu.prev_events.len() as int;
    if any_of_first(f.prev_missing@, n) {
        if f.gap_filled {
            if f.gap_marked {
                None
            } else {
                Some(StepView::MarkGap { room })
            }
        } else {
            Some(
                StepView::FillGap {
                    server: domain,
                    room_id: pdu.room_id,
                    event_id: pdu.event_id,
                    room,
                },
            )
        }
    } else if f.prev_missing@.len() < n {
        Some(StepView::LookupPrev { event_id: pdu.prev_events[f.prev_missing@.len() as int] })
    } else {
        None
    }
}

/// The check against the state before the event. A room whose state is still
/// being fetched may lack it; an event without predecessors has none.
pub open spec fn state_step(f: PduFacts, pdu: PduView, domain: Seq<char>, room: u64) -> Option<
    StepView,
> {
    match f.state_check {
        None => Some(StepView::CheckStateBefore { server: domain, room }),
        Some(StateCheck::Allowed) => None,
        Some(StateCheck::Refused(reason)) => Some(
            rejected(pdu.event_id, "state-at-event check failed: "@ + reason@),
        ),
        Some(StateCheck::NoState) => if pdu.prev_events.len() == 0 {
            Some(rejected(pdu.event_id, "no prev_events"@))
        } else {
            None
        },
        Some(StateCheck::Unresolved) => match f.partial_state {
            None => Some(StepView::IsPartialState { room }),
            Some(true) => None,
            Some(false) => Some(rejected(pdu.event_id, "state-at-event resolution failed"@)),
        },
    }
}

/// Whether an event that passed the other checks is kept from clients: the
/// current state refuses it, and is complete.
pub open spec fn soft_fails(current: CurrentCheck, partial_state: bool) -> bool {
    current == CurrentCheck::Refused && !partial_state
}

/// How a received event is written: one that is kept from clients is not what
/// the next events build on.
pub open spec fn received_kind(soft_failed: bool) -> PersistKind {
    if soft_failed {
        PersistKind::SoftFailed
    } else {
        PersistKind::Live
    }
}

/// The last check, against the room's current state, and the storing.
pub open spec fn store_step(f: PduFacts, pdu: PduView, room: u64) -> StepView {
    match f.current_check {
        None => StepView::CheckCurrentState { room },
        Some(CurrentCheck::Unreadable) => rejected(pdu.event_id, "internal error"@),
        Some(current) => match f.partial_state {
            None => StepView::IsPartialState { room },
            Some(partial) => match f.stored {
                None => StepView::Store {
                    room,
                    soft_failed: soft_fails(current, partial),
                    kind: received_kind(soft_fails(current, partial)),
                },
                Some(Some(reason)) => rejected(pdu.event_id, "persist failed: "@ + reason@),
                Some(None) => if soft_fails(current, partial) {
                    StepView::Done { event_id: pdu.event_id, outcome: OutcomeView::SoftFailed }
                } else if !f.sender_promoted {
                    StepView::PromoteSender { room }
                } else {
                    StepView::Done { event_id: pdu.event_id, outcome: OutcomeView::Accepted }
                },
            },
        },
    }
}

/// The event's fields as it arrived.
pub open spec fn parsed(f: PduFacts) -> PduView {
    match f.identity {
        Some((_, Some(pdu))) => pdu@,
        _ => arbitrary(),
    }
}

/// The event's fields as it counts.
pub open spec fn effective(f: PduFacts) -> PduView {
    match f.effective {
        Some(Some(pdu)) => pdu@,
        _ => arbitrary(),
    }
}

/// The whole pipeline, check by check: the first check that is not passed
/// names what comes next.
pub open spec fn next_step(f: PduFacts) -> StepView {
    match format_step(f) {
        Some(s) => s,
        None => {
            let pdu = parsed(f);
            match admission_step(f, pdu) {
                Some(s) => s,
                None => {
                    let room = f.room->0->Known_0;
                    let domain = pdu.sender_domain()->0;
                    match signature_step(f, pdu, room) {
                        Some(s) => s,
                        None => match hash_step(f, pdu) {
                            Some(s) => s,
                            None => effective_step(f, effective(f), domain, room),
                        },
                    }
                },
            }
        },
    }
}

/// The checks on the event in the form in which it counts.
pub open spec fn effective_step(
    f: PduFacts,
    pdu: PduView,
    domain: Seq<char>,
    room: u64,
) -> StepView {
    match rescind_step(f, pdu, room) {
        Some(s) => s,
        None => match auth_step(f, pdu, domain, room) {
            Some(s) => s,
            None => match gap_step(f, pdu, domain, room) {
                Some(s) => s,
                None => match state_step(f, pdu, domain, room) {
                    Some(s) => s,
                    None => store_step(f, pdu, room),
                },
            },
        },
    }
}

/// The view of an optional step.
pub open spec fn opt_step(s: Option<PduStep>) -> Option<StepView> {
    match s {
        Some(s) => Some(s@),
        None => None,
    }
}

fn check_format(f: &PduFacts) -> (r: Option<PduStep>)
    ensures
        opt_step(r) == format_step(*f),
{
    if f.json.as_object().is_none() {
        return Some(reject("unknown", "PDU is not a JSON object"));
    }
    match &f.bad_number {
        None => Some(PduStep::CheckNumbers),
        Some(Some(path)) => {
            let reason = cat3(
                "PDU contains disallowed numeric value at `",
                path.as_str(),
                "` (must be integer in safe range)",
            );
            Some(reject("unknown", reason.as_str()))
        },
        Some(None) => match &f.identity {
            None => Some(PduStep::Identify),
            Some((event_id, None)) => Some(
                reject(event_id.as_str(), "PDU missing required fields"),
            ),
            Some((_, Some(pdu))) => {
                if str_eq(pdu.event_type.as_str(), "m.room.create") {
                    Some(
                        reject(
                            pdu.event_id.as_str(),
                            "m.room.create is not acceptable via /_matrix/federation/v1/send in 3a",
                        ),
                    )
                } else if pdu.room_id.as_str().is_empty() {
                    Some(reject(pdu.event_id.as_str(), "PDU missing room_id"))
                } else {
                    None
                }
            },
        },
    }
}

fn check_admission(f: &PduFacts, pdu: &Pdu) -> (r: Option<PduStep>)
    ensures
        opt_step(r) == admission_step(*f, pdu@),
{
    match f.known {
        None => Some(PduStep::LookupEvent { event_id: pdu.event_id.clone() }),
        Some(true) => Some(
            PduStep::Done { event_id: pdu.event_id.clone(), outcome: PduOutcome::Accepted },
        ),
        Some(false) => {
            if pdu.auth_events.len() > 10 {
                return Some(reject(pdu.event_id.as_str(), "too many auth_events"));
            }
            if pdu.prev_events.len() > 20 {
                return Some(reject(pdu.event_id.as_str(), "too many prev_events"));
            }
            match &f.room {
                None => Some(PduStep::LookupRoom { room_id: pdu.room_id.clone() }),
                Some(RoomLookup::Unknown) => Some(reject(pdu.event_id.as_str(), "unknown room")),
                Some(RoomLookup::Failed) => Some(reject(pdu.event_id.as_str(), "internal error")),
                Some(RoomLookup::Known(_)) => match pdu.sender_domain() {
                    None => Some(reject(pdu.event_id.as_str(), "malformed sender")),
                    Some(_) => None,
                },
            }
        },
    }
}

fn check_signature(f: &PduFacts, pdu: &Pdu, domain: &str, room: u64) -> (r: Option<PduStep>)
    requires
        pdu@.sender_domain() == Some(domain@),
    ensures
        opt_step(r) == signature_step(*f, pdu@, room),
{
    if !str_eq(pdu.event_type.as_str(), "m.room.server_acl") {
        let acl = match &f.acl {
            None => {
                return Some(PduStep::LoadAcl { room });
            },
            Some(a) => a.as_ref(),
        };
        match check_server_acl(acl, domain) {
            Some(reason) => {
                let text = cat("server_acl: ", reason.as_str());
                return Some(reject(pdu.event_id.as_str(), text.as_str()));
            },
            None => {},
        }
    }
    let keys = match &f.sender_keys {
        None => {
            return Some(PduStep::FetchKeys { server: domain.to_owned() });
        },
        Some(None) => {
            return Some(reject(pdu.event_id.as_str(), "cannot fetch sender keys"));
        },
        Some(Some(k)) => k,
    };
    match next_signature(&f.json, domain, keys, &f.sig_checks) {
        SignatureStep::Unsigned | SignatureStep::Empty => {
            let text = cat("no signature from ", domain);
            Some(reject(pdu.event_id.as_str(), text.as_str()))
        },
        SignatureStep::Check { key_id, key } => Some(
            PduStep::VerifySignature { server: domain.to_owned(), key_id, key },
        ),
        SignatureStep::Verified => None,
        SignatureStep::Unverified => Some(
            reject(pdu.event_id.as_str(), "signature verification failed"),
        ),
    }
}

/// Whether an event declares a content hash.
pub fn declares_hash(event: &Json, hash: &str) -> (r: bool)
    ensures
        r == (event@.str_within("hashes"@, "sha256"@) == Some(hash@)),
{
    match event.str_within("hashes", "sha256") {
        Some(d) => str_eq(d, hash),
        None => false,
    }
}

fn check_hash(f: &PduFacts, pdu: &Pdu) -> (r: Option<PduStep>)
    ensures
        opt_step(r) == hash_step(*f, pdu@),
{
    match &f.content_hash {
        None => Some(PduStep::HashContent),
        Some(hash) => match &f.effective {
            None => {
                let same = declares_hash(&f.json, hash.as_str());
                Some(PduStep::ReadEffective { redacted: !same })
            },
            Some(None) => Some(reject(pdu.event_id.as_str(), "event malformed after redaction")),
            Some(Some(_)) => None,
        },
    }
}

fn removes_ours(pdu: &Pdu, server_name: &str) -> (r: bool)
    ensures
        r == removes_local_user(pdu@, server_name@),
{
    if !str_eq(pdu.event_type.as_str(), "m.room.member") {
        return false;
    }
    let removal = match pdu.membership() {
        Some(m) => str_eq(m, "leave") || str_eq(m, "ban"),
        None => false,
    };
    if !removal {
        return false;
    }
    match &pdu.state_key {
        Some(user) => id_belongs_to(user.as_str(), server_name),
        None => false,
    }
}

fn check_rescind(f: &PduFacts, pdu: &Pdu, room: u64) -> (r: Option<PduStep>)
    ensures
        opt_step(r) == rescind_step(*f, pdu@, room),
{
    if !removes_ours(pdu, f.server_name.as_str()) {
        return None;
    }
    let user = match &pdu.state_key {
        Some(u) => u,
        None => {
            return None;
        },
    };
    match f.target_membership {
        None => Some(PduStep::LookupMembership { room, user: user.clone() }),
        Some(Some(2)) => match &f.inviter {
            None => Some(PduStep::LookupInviter { room, user: user.clone() }),
            Some(inviter) => {
                let by_inviter = match inviter {
                    Some(i) => str_eq(i.as_str(), pdu.sender.as_str()),
                    None => false,
                };
                if by_inviter {
                    match &f.rescinded {
                        None => Some(PduStep::Rescind { room }),
                        Some(outcome) => Some(
                            PduStep::Done {
                                event_id: pdu.event_id.clone(),
                                outcome: outcome.copy(),
                            },
                        ),
                    }
                } else {
                    Some(
                        reject(
                            pdu.event_id.as_str(),
                            "only the original inviter can rescind an invite over federation",
                        ),
                    )
                }
            },
        },
        Some(_) => None,
    }
}

fn reject_for_auth(pdu: &Pdu, auth: &str) -> (r: PduStep)
    ensures
        r@ == auth_rejection(pdu@, auth@),
{
    let text = cat3("auth_event ", auth, " is rejected");
    reject(pdu.event_id.as_str(), text.as_str())
}

fn check_cascade(f: &PduFacts, pdu: &Pdu) -> (r: Option<PduStep>)
    ensures
        opt_step(r) == cascade_step(*f, pdu@, 0),
{
    let n: usize = pdu.auth_events.len();
    let mut k: usize = 0;
    while k < n
        invariant
            k <= n,
            n == pdu.auth_events.len(),
            cascade_step(*f, pdu@, 0) == cascade_step(*f, pdu@, k as int),
        decreases n - k,
    {
        let id = &pdu.auth_events[k];
        proof {
            assert(pdu@.auth_events[k as int] == id@);
        }
        if k >= f.auth_rejected.len() {
            return Some(PduStep::IsRejected { event_id: id.clone() });
        }
        if f.auth_rejected[k] {
            return Some(reject_for_auth(pdu, id.as_str()));
        }
        k += 1;
    }
    None
}

fn obtain(l: &AuthLookup, pdu: &Pdu, domain: &str, auth: &str) -> (r: Option<PduStep>)
    ensures
        opt_step(r) == obtain_step(*l, pdu@, domain@, auth@),
{
    if l.found {
        return None;
    }
    if !l.chain_fetched {
        return Some(
            PduStep::FetchAuthChain {
                server: domain.to_owned(),
                room_id: pdu.room_id.clone(),
                event_id: pdu.event_id.clone(),
            },
        );
    }
    match l.rejected {
        None => Some(PduStep::RecheckRejected { event_id: auth.to_owned() }),
        Some(true) => Some(reject_for_auth(pdu, auth)),
        Some(false) => match l.found_in_chain {
            None => Some(PduStep::ReloadAuthEvent { event_id: auth.to_owned() }),
            Some(true) => None,
            Some(false) => {
                if !l.ids_fetched {
                    return Some(
                        PduStep::FetchStateIds {
                            server: domain.to_owned(),
                            room_id: pdu.room_id.clone(),
                        },
                    );
                }
                match l.found_in_ids {
                    None => Some(PduStep::ReloadAuthEvent { event_id: auth.to_owned() }),
                    Some(true) => None,
                    Some(false) => {
                        let text = cat3(
                            "auth event ",
                            auth,
                            " not provided in /event_auth or /state_ids chain",
                        );
                        Some(reject(pdu.event_id.as_str(), text.as_str()))
                    },
                }
            },
        },
    }
}

fn check_obtained(f: &PduFacts, pdu: &Pdu, domain: &str) -> (r: Option<PduStep>)
    ensures
        opt_step(r) == obtain_all_step(*f, pdu@, domain@, 0),
{
    let n: usize = pdu.auth_events.len();
    let mut k: usize = 0;
    while k < n
        invariant
            k <= n,
            n == pdu.auth_events.len(),
            obtain_all_step(*f, pdu@, domain@, 0) == obtain_all_step(
                *f,
                pdu@,
                domain@,
                k as int,
            ),
        decreases n - k,
    {
        let id = &pdu.auth_events[k];
        proof {
            assert(pdu@.auth_events[k as int] == id@);
        }
        if k >= f.auth_lookups.len() {
            return Some(PduStep::LoadAuthEvent { event_id: id.clone() });
        }
        match obtain(&f.auth_lookups[k], pdu, domain, id.as_str()) {
            Some(s) => {
                return Some(s);
            },
            None => {},
        }
        k += 1;
    }
    None
}

fn check_auth_events(f: &PduFacts, pdu: &Pdu, domain: &str, room: u64) -> (r: Option<PduStep>)
    ensures
        opt_step(r) == auth_step(*f, pdu@, domain@, room),
{
    match check_cascade(f, pdu) {
        Some(s) => {
            return Some(s);
        },
        None => {},
    }
    match check_obtained(f, pdu, domain) {
        Some(s) => {
            return Some(s);
        },
        None => {},
    }
    match &f.auth_refusal {
        None => Some(PduStep::CheckAuthEvents { room }),
        Some(Some(reason)) => {
            let text = cat("auth_events check failed: ", reason.as_str());
            Some(reject(pdu.event_id.as_str(), text.as_str()))
        },
        Some(None) => None,
    }
}

fn check_gap(f: &PduFacts, pdu: &Pdu, domain: &str, room: u64) -> (r: Option<PduStep>)
    ensures
        opt_step(r) == gap_step(*f, pdu@, domain@, room),
{
    let n: usize = pdu.prev_events.len();
    if any_first(&f.prev_missing, n) {
        if f.gap_filled {
            if f.gap_marked {
                return None;
            }
            return Some(PduStep::MarkGap { room });
        }
        return Some(
            PduStep::FillGap {
                server: domain.to_owned(),
                room_id: pdu.room_id.clone(),
                event_id: pdu.event_id.clone(),
                room,
            },
        );
    }
    let k: usize = f.prev_missing.len();
    if k < n {
        proof {
            assert(pdu@.prev_events[k as int] == pdu.prev_events@[k as int]@);
        }
        Some(PduStep::LookupPrev { event_id: pdu.prev_events[k].clone() })
    } else {
        None
    }
}

fn check_state(f: &PduFacts, pdu: &Pdu, domain: &str, room: u64) -> (r: Option<PduStep>)
    ensures
        opt_step(r) == state_step(*f, pdu@, domain@, room),
{
    match &f.state_check {
        None => Some(PduStep::CheckStateBefore { server: domain.to_owned(), room }),
        Some(StateCheck::Allowed) => None,
        Some(StateCheck::Refused(reason)) => {
            let text = cat("state-at-event check failed: ", reason.as_str());
            Some(reject(pdu.event_id.as_str(), text.as_str()))
        },
        Some(StateCheck::NoState) => {
            if pdu.prev_events.len() == 0 {
                Some(reject(pdu.event_id.as_str(), "no prev_events"))
            } else {
                None
            }
        },
        Some(StateCheck::Unresolved) => match f.partial_state {
            None => Some(PduStep::IsPartialState { room }),
            Some(true) => None,
            Some(false) => Some(
                reject(pdu.event_id.as_str(), "state-at-event resolution failed"),
            ),
        },
    }
}

fn finish(f: &PduFacts, pdu: &Pdu, room: u64) -> (r: PduStep)
    ensures
        r@ == store_step(*f, pdu@, room),
{
    let refused = match f.current_check {
        None => {
            return PduStep::CheckCurrentState { room };
        },
        Some(CurrentCheck::Unreadable) => {
            return reject(pdu.event_id.as_str(), "internal error");
        },
        Some(CurrentCheck::Refused) => true,
        Some(CurrentCheck::Allowed) => false,
    };
    let partial = match f.partial_state {
        None => {
            return PduStep::IsPartialState { room };
        },
        Some(p) => p,
    };
    let soft_failed = refused && !partial;
    match &f.stored {
        None => PduStep::Store {
            room,
            soft_failed,
            kind: if soft_failed {
                PersistKind::SoftFailed
            } else {
                PersistKind::Live
            },
        },
        Some(Some(reason)) => {
            let text = cat("persist failed: ", reason.as_str());
            reject(pdu.event_id.as_str(), text.as_str())
        },
        Some(None) => {
            if soft_failed {
                PduStep::Done { event_id: pdu.event_id.clone(), outcome: PduOutcome::SoftFailed }
            } else if !f.sender_promoted {
                PduStep::PromoteSender { room }
            } else {
                PduStep::Done { event_id: pdu.event_id.clone(), outcome: PduOutcome::Accepted }
            }
        },
    }
}

/// Names what to find out or to do next about an event that a peer sent, or
/// its outcome.
pub fn process_pdu(f: &PduFacts) -> (r: PduStep)
    ensures
        r@ == next_step(*f),
{
    match check_format(f) {
        Some(s) => {
            return s;
        },
        None => {},
    }
    let pdu = match &f.identity {
        Some((_, Some(p))) => p,
        _ => {
            return PduStep::Identify;
        },
    };
    match check_admission(f, pdu) {
        Some(s) => {
            return s;
        },
        None => {},
    }
    let (room, domain) = match (&f.room, pdu.sender_domain()) {
        (Some(RoomLookup::Known(n)), Some(d)) => (*n, d),
        _ => {
            return PduStep::Identify;
        },
    };
    match check_signature(f, pdu, domain, room) {
        Some(s) => {
            return s;
        },
        None => {},
    }
    match check_hash(f, pdu) {
        Some(s) => {
            return s;
        },
        None => {},
    }
    let pdu = match &f.effective {
        Some(Some(p)) => p,
        _ => {
            return PduStep::HashContent;
        },
    };
    match check_rescind(f, pdu, room) {
        Some(s) => {
            return s;
        },
        None => {},
    }
    match check_auth_events(f, pdu, domain, room) {
        Some(s) => {
            return s;
        },
        None => {},
    }
    match check_gap(f, pdu, domain, room) {
        Some(s) => {
            return s;
        },
        None => {},
    }
    match check_state(f, pdu, domain, room) {
        Some(s) => {
            return s;
        },
        None => {},
    }
    finish(f, pdu, room)
}

/// Whether the room's access control list lets an event through.
pub open spec fn acl_admits(f: PduFacts) -> bool {
    parsed(f).event_type == "m.room.server_acl"@ || acl_refusal(
        opt_acl(f.acl),
        parsed(f).sender_domain()->0,
    ) is None
}

/// Whether a signature of the sender's server on an event verified.
pub open spec fn is_signed(f: PduFacts) -> bool {
    &&& f.sender_keys matches Some(Some(keys))
    &&& signature_search(
        f.json@,
        parsed(f).sender_domain()->0,
        f.sender_keys->0->0,
        f.sig_checks@,
    ) is Verified
}

/// Whether an auth event is at hand.
pub open spec fn at_hand(l: AuthLookup) -> bool {
    l.found || (l.rejected == Some(false) && (l.found_in_chain == Some(true) || l.found_in_ids
        == Some(true)))
}

/// Whether the auth events of an event are all at hand, none of them rejected,
/// and the rules allow the event over them.
pub open spec fn is_authorised(f: PduFacts) -> bool {
    let n = effective(f).auth_events.len();
    &&& n <= f.auth_rejected@.len()
    &&& n <= f.auth_lookups@.len()
    &&& forall|k: int|
        0 <= k < n ==> !#[trigger] f.auth_rejected@[k]
    &&& forall|k: int| 0 <= k < n ==> at_hand(#[trigger] f.auth_lookups@[k])
    &&& f.auth_refusal == Some(None::<String>)
}

/// Whether the state before an event allows it, or cannot be known yet.
pub open spec fn state_allows(f: PduFacts) -> bool {
    match f.state_check {
        Some(StateCheck::Allowed) => true,
        Some(StateCheck::NoState) => effective(f).prev_events.len() > 0,
        Some(StateCheck::Unresolved) => f.partial_state == Some(true),
        _ => false,
    }
}

/// Whether an event passed every check that decides whether it is stored.
pub open spec fn passes(f: PduFacts) -> bool {
    &&& f.json@.as_object() is Some
    &&& f.identity matches Some((_, Some(_)))
    &&& f.known == Some(false)
    &&& f.room matches Some(RoomLookup::Known(_))
    &&& acl_admits(f)
    &&& is_signed(f)
    &&& is_authorised(f)
    &&& state_allows(f)
    &&& f.current_check == Some(CurrentCheck::Allowed) || f.current_check == Some(
        CurrentCheck::Refused,
    )
}

proof fn lemma_cascade(f: PduFacts, pdu: PduView, k: int)
    requires
        0 <= k,
        cascade_step(f, pdu, k) is None,
    ensures
        k < pdu.auth_events.len() ==> pdu.auth_events.len() <= f.auth_rejected@.len(),
        forall|j: int| k <= j < pdu.auth_events.len() ==> !#[trigger] f.auth_rejected@[j],
    decreases pdu.auth_events.len() - k,
{
    if k < pdu.auth_events.len() {
        lemma_cascade(f, pdu, k + 1);
    }
}

proof fn lemma_obtained(f: PduFacts, pdu: PduView, domain: Seq<char>, k: int)
    requires
        0 <= k,
        obtain_all_step(f, pdu, domain, k) is None,
    ensures
        k < pdu.auth_events.len() ==> pdu.auth_events.len() <= f.auth_lookups@.len(),
        forall|j: int| k <= j < pdu.auth_events.len() ==> at_hand(#[trigger] f.auth_lookups@[j]),
    decreases pdu.auth_events.len() - k,
{
    if k < pdu.auth_events.len() {
        lemma_obtained(f, pdu, domain, k + 1);
    }
}

proof fn lemma_cascade_kind(f: PduFacts, pdu: PduView, k: int)
    requires
        0 <= k,
    ensures
        match cascade_step(f, pdu, k) {
            None => true,
            Some(s) => {
                ||| s is IsRejected
                ||| s matches StepView::Done { outcome, .. } && outcome is Rejected
            },
        },
    decreases pdu.auth_events.len() - k,
{
    if k < pdu.auth_events.len() {
        lemma_cascade_kind(f, pdu, k + 1);
    }
}

proof fn lemma_obtained_kind(f: PduFacts, pdu: PduView, domain: Seq<char>, k: int)
    requires
        0 <= k,
    ensures
        match obtain_all_step(f, pdu, domain, k) {
            None => true,
            Some(s) => {
                ||| s is LoadAuthEvent
                ||| s is ReloadAuthEvent
                ||| s is RecheckRejected
                ||| s is FetchAuthChain
                ||| s is FetchStateIds
                ||| s matches StepView::Done { outcome, .. } && outcome is Rejected
            },
        },
    decreases pdu.auth_events.len() - k,
{
    if k < pdu.auth_events.len() {
        lemma_obtained_kind(f, pdu, domain, k + 1);
    }
}

proof fn lemma_auth(f: PduFacts, pdu: PduView, domain: Seq<char>, room: u64)
    ensures
        match auth_step(f, pdu, domain, room) {
            None => effective(f) == pdu ==> is_authorised(f),
            Some(s) => {
                ||| s is IsRejected
                ||| s is LoadAuthEvent
                ||| s is ReloadAuthEvent
                ||| s is RecheckRejected
                ||| s is FetchAuthChain
                ||| s is FetchStateIds
                ||| s is CheckAuthEvents
                ||| s matches StepView::Done { outcome, .. } && outcome is Rejected
            },
        },
{
    lemma_cascade_kind(f, pdu, 0);
    lemma_obtained_kind(f, pdu, domain, 0);
    if auth_step(f, pdu, domain, room) is None {
        lemma_cascade(f, pdu, 0);
        lemma_obtained(f, pdu, domain, 0);
    }
}

/// An event is written only after it passed every check: its room is known, the
/// room's access control list admits its sender's server, that server signed
/// it, all its auth events are at hand and none was rejected, and the rules
/// allow it over its auth events and over the state before it. It is hidden
/// exactly when the room's complete current state refuses it.
pub proof fn law_stored_only_if_passed(f: PduFacts, soft_failed: bool)
    requires
        next_step(f) matches StepView::Store { soft_failed: s, .. } && s == soft_failed,
    ensures
        passes(f),
        soft_failed <==> f.current_check == Some(CurrentCheck::Refused) && f.partial_state == Some(
            false,
        ),
{
    let pdu = effective(f);
    let domain = parsed(f).sender_domain()->0;
    let room = f.room->0->Known_0;
    lemma_auth(f, pdu, domain, room);
}

/// An event is reported as accepted only if it was stored before, if it withdrew
/// an invite, or if it passed every check and was written, not hidden.
pub proof fn law_accepted(f: PduFacts, event_id: Seq<char>)
    requires
        next_step(f) == (StepView::Done { event_id, outcome: OutcomeView::Accepted }),
    ensures
        ({
            ||| f.known == Some(true)
            ||| f.rescinded matches Some(o) && o@ is Accepted && is_signed(f) && acl_admits(f)
            ||| passes(f) && f.stored == Some(None::<String>) && !(f.current_check == Some(
                CurrentCheck::Refused,
            ) && f.partial_state == Some(false))
        }),
{
    let pdu = effective(f);
    let domain = parsed(f).sender_domain()->0;
    let room = f.room->0->Known_0;
    lemma_auth(f, pdu, domain, room);
}

/// An event is hidden only if it passed every check, was written, and the room's
/// complete current state refuses it.
pub proof fn law_soft_failed(f: PduFacts, event_id: Seq<char>)
    requires
        next_step(f) == (StepView::Done { event_id, outcome: OutcomeView::SoftFailed }),
        f.rescinded matches Some(o) ==> !(o@ is SoftFailed),
    ensures
        passes(f),
        f.stored == Some(None::<String>),
        f.current_check == Some(CurrentCheck::Refused),
        f.partial_state == Some(false),
{
    let pdu = effective(f);
    let domain = parsed(f).sender_domain()->0;
    let room = f.room->0->Known_0;
    lemma_auth(f, pdu, domain, room);
}

/// What was written is never reported as rejected: after the writing comes the
/// outcome, with at most the sender's promotion between.
pub proof fn law_written_is_not_rejected(f: PduFacts, after: PduFacts)
    requires
        next_step(f) is Store,
        after == (PduFacts { stored: Some(None::<String>), sender_promoted: after.sender_promoted, ..f }),
    ensures
        match next_step(after) {
            StepView::PromoteSender { .. } => !after.sender_promoted,
            StepView::Done { event_id, outcome } => event_id == effective(f).event_id && !(
            outcome is Rejected),
            _ => false,
        },
{
    let pdu = effective(f);
    let domain = parsed(f).sender_domain()->0;
    lemma_auth(f, pdu, domain, f.room->0->Known_0);
    lemma_same_auth(f, after, pdu, domain, 0);
}

/// Whether an event was stored, or a withdrawal put in force, only when that was
/// called for.
pub open spec fn in_turn(f: PduFacts) -> bool {
    &&& f.stored is Some ==> next_step(PduFacts { stored: None, sender_promoted: false, ..f }) is Store
    &&& f.rescinded is Some ==> next_step(PduFacts { rescinded: None, ..f }) is Rescind
}

/// A rejected event has not been written: neither as an event of its room, nor
/// as the withdrawal of an invite, whose storing came to what `r` says.
pub proof fn law_rejected_is_not_written(f: PduFacts, r: RescindFacts)
    requires
        in_turn(f),
        f.rescinded matches Some(o) ==> rescind_in_turn(r) && rescind_next(r) == RescindView::Done(
            o@,
        ),
        next_step(f) matches StepView::Done { outcome, .. } && outcome is Rejected,
    ensures
        f.stored != Some(None::<String>),
        f.rescinded is Some ==> r.written != Some(None::<String>),
{
    if f.stored == Some(None::<String>) {
        let before = PduFacts { stored: None, sender_promoted: false, ..f };
        assert(f == (PduFacts {
            stored: Some(None::<String>),
            sender_promoted: f.sender_promoted,
            ..before
        }));
        law_written_is_not_rejected(before, f);
    }
    if f.rescinded is Some {
        let before = PduFacts { rescinded: None, ..f };
        let pdu = effective(before);
        let domain = parsed(before).sender_domain()->0;
        lemma_auth(before, pdu, domain, before.room->0->Known_0);
        law_withdrawn_invites(r);
    }
}

/// A soft-failed event is not what the next events of its room build on, and
/// every other event that is stored is.
pub proof fn law_extremities(f: PduFacts)
    requires
        next_step(f) is Store,
    ensures
        becomes_extremity(next_step(f)->Store_kind) <==> !next_step(f)->Store_soft_failed,
{
    let pdu = effective(f);
    let domain = parsed(f).sender_domain()->0;
    lemma_auth(f, pdu, domain, f.room->0->Known_0);
}

proof fn lemma_same_auth(f: PduFacts, g: PduFacts, pdu: PduView, domain: Seq<char>, k: int)
    requires
        0 <= k,
        f.auth_rejected == g.auth_rejected,
        f.auth_lookups == g.auth_lookups,
    ensures
        cascade_step(f, pdu, k) == cascade_step(g, pdu, k),
        obtain_all_step(f, pdu, domain, k) == obtain_all_step(g, pdu, domain, k),
    decreases pdu.auth_events.len() - k,
{
    if k < pdu.auth_events.len() {
        lemma_same_auth(f, g, pdu, domain, k + 1);
    }
}

/// An event that is already stored is accepted again without any further work.
pub proof fn law_duplicates(f: PduFacts)
    requires
        format_step(f) is None,
        f.known == Some(true),
    ensures
        next_step(f) == (StepView::Done {
            event_id: parsed(f).event_id,
            outcome: OutcomeView::Accepted,
        }),
{
}

/// No key is fetched on behalf of a server that the room's access control list
/// refuses, and no signature is checked.
pub proof fn law_acl_comes_first(f: PduFacts)
    requires
        next_step(f) is FetchKeys || next_step(f) is VerifySignature,
    ensures
        acl_admits(f),
{
    let pdu = effective(f);
    let domain = parsed(f).sender_domain()->0;
    lemma_auth(f, pdu, domain, f.room->0->Known_0);
}

/// A rejected auth event rejects the event that refers to it: once the auth
/// events are swept, nothing else is done with the event.
pub proof fn law_rejection_cascades(f: PduFacts, k: int)
    requires
        0 <= k < effective(f).auth_events.len(),
        k < f.auth_rejected@.len(),
        f.auth_rejected@[k],
    ensures
        !(next_step(f) is Store),
        !(next_step(f) is PromoteSender),
        next_step(f) matches StepView::Done { outcome, .. } ==> {
            ||| outcome is Rejected
            ||| f.known == Some(true)
            ||| f.rescinded matches Some(o) && o@ == outcome
        },
{
    let pdu = effective(f);
    let domain = parsed(f).sender_domain()->0;
    lemma_auth(f, pdu, domain, f.room->0->Known_0);
}

/// Nothing is asked or done twice: each step is about something that is not
/// known or done yet.
pub proof fn law_no_step_is_repeated(f: PduFacts)
    ensures
        match next_step(f) {
            StepView::CheckNumbers => f.bad_number is None,
            StepView::Identify => f.identity is None,
            StepView::LookupEvent { .. } => f.known is None,
            StepView::LookupRoom { .. } => f.room is None,
            StepView::LoadAcl { .. } => f.acl is None,
            StepView::FetchKeys { .. } => f.sender_keys is None,
            StepView::HashContent => f.content_hash is None,
            StepView::ReadEffective { .. } => f.effective is None,
            StepView::LookupMembership { .. } => f.target_membership is None,
            StepView::LookupInviter { .. } => f.inviter is None,
            StepView::Rescind { .. } => f.rescinded is None,
            StepView::CheckAuthEvents { .. } => f.auth_refusal is None,
            StepView::FillGap { .. } => !f.gap_filled,
            StepView::MarkGap { .. } => !f.gap_marked,
            StepView::CheckStateBefore { .. } => f.state_check is None,
            StepView::IsPartialState { .. } => f.partial_state is None,
            StepView::CheckCurrentState { .. } => f.current_check is None,
            StepView::Store { .. } => f.stored is None,
            StepView::PromoteSender { .. } => !f.sender_promoted,
            _ => true,
        },
{
    let pdu = effective(f);
    let domain = parsed(f).sender_domain()->0;
    lemma_cascade_kind(f, pdu, 0);
    lemma_obtained_kind(f, pdu, domain, 0);
}

/// The gap before an event is found, filled and marked before anything is
/// concluded from the state before the event. Every predecessor is looked up, in
/// order, until one is missing; once one is, the gap is filled from the sender's
/// server, then marked. No event gets to the state before it with a predecessor
/// that was not looked up, unless the gap was filled and marked.
pub proof fn law_gaps_come_first(f: PduFacts)
    ensures
        ({
            let prevs = effective(f).prev_events;
            let missing = exists|k: int|
                0 <= k < prevs.len() && k < f.prev_missing@.len() && #[trigger] f.prev_missing@[k];
            let s = next_step(f);
            &&& s is LookupPrev || s is FillGap || s is MarkGap || s is CheckStateBefore || s
                is CheckCurrentState || s is Store || s is PromoteSender ==> {
                &&& missing && !f.gap_filled ==> s is FillGap
                &&& missing && f.gap_filled && !f.gap_marked ==> s is MarkGap
                &&& !missing && f.prev_missing@.len() < prevs.len() ==> s == (StepView::LookupPrev {
                    event_id: prevs[f.prev_missing@.len() as int],
                })
            }
            &&& s is LookupPrev ==> !missing && f.prev_missing@.len() < prevs.len()
            &&& s is FillGap ==> missing && !f.gap_filled && s == (StepView::FillGap {
                server: parsed(f).sender_domain()->0,
                room_id: effective(f).room_id,
                event_id: effective(f).event_id,
                room: f.room->0->Known_0,
            })
            &&& s is MarkGap ==> missing && f.gap_filled && s == (StepView::MarkGap {
                room: f.room->0->Known_0,
            })
            &&& s is CheckStateBefore || s is CheckCurrentState || s is Store || s
                is PromoteSender ==> (f.gap_filled && f.gap_marked) || (f.prev_missing@.len()
                >= prevs.len() && forall|k: int|
                0 <= k < prevs.len() ==> !#[trigger] f.prev_missing@[k])
        }),
{
    let pdu = effective(f);
    let domain = parsed(f).sender_domain()->0;
    lemma_auth(f, pdu, domain, f.room->0->Known_0);
}

/// An event that is written, or whose withdrawal is, has the right form: it is an
/// object without numbers that are no safe integers, it names a room, is no create
/// event, refers to no more events than it may, comes from a user of some server,
/// was not stored before, and its hash was compared.
pub proof fn law_written_events_are_well_formed(f: PduFacts)
    requires
        next_step(f) is Store || next_step(f) is Rescind || next_step(f) is PromoteSender,
    ensures
        f.json@ is Object,
        f.bad_number == Some(None::<String>),
        f.identity matches Some((_, Some(_))),
        parsed(f).event_type != "m.room.create"@,
        parsed(f).room_id.len() > 0,
        parsed(f).auth_events.len() <= 10,
        parsed(f).prev_events.len() <= 20,
        parsed(f).sender_domain() is Some,
        f.known == Some(false),
        f.content_hash is Some,
        f.effective matches Some(Some(_)),
{
    let pdu = effective(f);
    let domain = parsed(f).sender_domain()->0;
    lemma_auth(f, pdu, domain, f.room->0->Known_0);
}

/// The checks come in their order, and each is made about the event itself: what
/// is looked up, fetched or verified is what the event names, and nothing is done
/// before the checks ahead of it were passed.
pub proof fn law_checks_in_order(f: PduFacts)
    ensures
        ({
            let p = parsed(f);
            let q = effective(f);
            let domain = p.sender_domain()->0;
            let room = f.room->0->Known_0;
            match next_step(f) {
                StepView::CheckNumbers => f.json@ is Object,
                StepView::Identify => f.bad_number == Some(None::<String>),
                StepView::LookupEvent { event_id } => event_id == p.event_id && p.room_id.len() > 0
                    && p.event_type != "m.room.create"@,
                StepView::LookupRoom { room_id } => room_id == p.room_id && f.known == Some(false)
                    && p.auth_events.len() <= 10 && p.prev_events.len() <= 20,
                StepView::LoadAcl { room: r } => r == room && f.room is Some
                    && f.room->0 is Known && p.event_type != "m.room.server_acl"@,
                StepView::FetchKeys { server } => server == domain && acl_admits(f),
                StepView::VerifySignature { server, key_id, key } => {
                    &&& server == domain
                    &&& acl_admits(f)
                    &&& f.sender_keys matches Some(Some(keys)) && (f.json@.get("signatures"@)
                        matches Some(sigs) && (sigs.get(domain) matches Some(of_domain)
                        && of_domain.get(key_id) is Some))
                },
                StepView::HashContent => is_signed(f) && acl_admits(f),
                StepView::ReadEffective { redacted } => is_signed(f) && f.content_hash is Some && (
                redacted <==> !(f.json@.get("hashes"@) matches Some(h) && h.get("sha256"@) == Some(
                    JsonView::Str(f.content_hash->0@),
                ))),
                StepView::LookupMembership { room: r, user } => r == room && q.state_key == Some(
                    user,
                ) && is_signed(f),
                StepView::LookupInviter { room: r, user } => r == room && q.state_key == Some(user)
                    && f.target_membership == Some(Some(2u8)),
                StepView::Rescind { room: r } => r == room && is_signed(f) && f.target_membership
                    == Some(Some(2u8)) && q.event_type == "m.room.member"@,
                StepView::IsRejected { event_id } => f.auth_rejected@.len() < q.auth_events.len()
                    && event_id == q.auth_events[f.auth_rejected@.len() as int],
                StepView::LoadAuthEvent { event_id } => f.auth_lookups@.len() < q.auth_events.len()
                    && event_id == q.auth_events[f.auth_lookups@.len() as int]
                    && f.auth_rejected@.len() >= q.auth_events.len(),
                StepView::FetchAuthChain { server, room_id, event_id } => server == domain
                    && room_id == q.room_id && event_id == q.event_id,
                StepView::FetchStateIds { server, room_id } => server == domain && room_id
                    == q.room_id,
                StepView::CheckAuthEvents { room: r } => r == room && f.auth_rejected@.len()
                    >= q.auth_events.len() && f.auth_lookups@.len() >= q.auth_events.len()
                    && forall|k: int|
                    0 <= k < q.auth_events.len() ==> !f.auth_rejected@[k] && (
                    (#[trigger] f.auth_lookups@[k]).found || f.auth_lookups@[k].rejected == Some(
                        false,
                    )),
                StepView::CheckStateBefore { server, room: r } => server == domain && r == room
                    && f.auth_refusal == Some(None::<String>),
                StepView::CheckCurrentState { room: r } => r == room && state_allows(f),
                StepView::Store { room: r, .. } => r == room && state_allows(f) && f.current_check
                    is Some,
                StepView::PromoteSender { room: r } => r == room && f.stored == Some(
                    None::<String>,
                ) && !(f.current_check == Some(CurrentCheck::Refused) && f.partial_state == Some(
                    false,
                )),
                StepView::Done { event_id, outcome } => outcome is Accepted && f.known == Some(
                    false,
                ) && f.rescinded is None ==> f.stored == Some(None::<String>) && f.sender_promoted
                    && event_id == q.event_id,
                _ => true,
            }
        }),
{
    let pdu = effective(f);
    let domain = parsed(f).sender_domain()->0;
    lemma_auth(f, pdu, domain, f.room->0->Known_0);
    lemma_cascade_turn(f, pdu, 0);
    lemma_obtained_turn(f, pdu, domain, 0);
    if cascade_step(f, pdu, 0) is None {
        lemma_cascade(f, pdu, 0);
    }
    if obtain_all_step(f, pdu, domain, 0) is None {
        lemma_obtained(f, pdu, domain, 0);
        lemma_not_rejected(f, pdu, domain, 0);
    }
    if f.sender_keys matches Some(Some(_)) {
        law_signatures_to_check(f.json@, domain, f.sender_keys->0->0, f.sig_checks@);
    }
}

proof fn lemma_cascade_turn(f: PduFacts, pdu: PduView, k: int)
    requires
        0 <= k <= f.auth_rejected@.len(),
    ensures
        match cascade_step(f, pdu, k) {
            Some(StepView::IsRejected { event_id }) => f.auth_rejected@.len()
                < pdu.auth_events.len() && event_id
                == pdu.auth_events[f.auth_rejected@.len() as int],
            Some(s) => s matches StepView::Done { outcome, .. } && outcome is Rejected,
            None => f.auth_rejected@.len() >= pdu.auth_events.len() || k >= pdu.auth_events.len(),
        },
    decreases pdu.auth_events.len() - k,
{
    if k < pdu.auth_events.len() && k < f.auth_rejected@.len() {
        lemma_cascade_turn(f, pdu, k + 1);
    }
}

proof fn lemma_obtained_turn(f: PduFacts, pdu: PduView, domain: Seq<char>, k: int)
    requires
        0 <= k <= f.auth_lookups@.len(),
    ensures
        match obtain_all_step(f, pdu, domain, k) {
            Some(StepView::LoadAuthEvent { event_id }) => f.auth_lookups@.len()
                < pdu.auth_events.len() && event_id == pdu.auth_events[f.auth_lookups@.len() as int],
            Some(StepView::FetchAuthChain { server, room_id, event_id }) => server == domain
                && room_id == pdu.room_id && event_id == pdu.event_id,
            Some(StepView::FetchStateIds { server, room_id }) => server == domain && room_id
                == pdu.room_id,
            Some(StepView::RecheckRejected { event_id }) => pdu.auth_events.contains(event_id),
            Some(StepView::ReloadAuthEvent { event_id }) => pdu.auth_events.contains(event_id),
            Some(s) => s matches StepView::Done { outcome, .. } && outcome is Rejected,
            None => f.auth_lookups@.len() >= pdu.auth_events.len() || k >= pdu.auth_events.len(),
        },
    decreases pdu.auth_events.len() - k,
{
    if k < pdu.auth_events.len() && k < f.auth_lookups@.len() {
        assert(pdu.auth_events.contains(pdu.auth_events[k]));
        lemma_obtained_turn(f, pdu, domain, k + 1);
    }
}

proof fn lemma_not_rejected(f: PduFacts, pdu: PduView, domain: Seq<char>, k: int)
    requires
        0 <= k,
        obtain_all_step(f, pdu, domain, k) is None,
    ensures
        forall|j: int|
            k <= j < pdu.auth_events.len() ==> f.auth_lookups@[j].found || (
            #[trigger] f.auth_lookups@[j]).rejected == Some(false),
    decreases pdu.auth_events.len() - k,
{
    if k < pdu.auth_events.len() {
        lemma_not_rejected(f, pdu, domain, k + 1);
    }
}

/// An event that passes every check is stored: one that the current state of a
/// room refuses is kept from clients if that state is complete, and every other
/// one is what the next events build on.
pub proof fn law_good_events_are_stored(f: PduFacts)
    requires
        f.json@ is Object,
        f.bad_number == Some(None::<String>),
        f.identity matches Some((_, Some(_))),
        parsed(f).event_type != "m.room.create"@,
        parsed(f).room_id.len() > 0,
        f.known == Some(false),
        parsed(f).auth_events.len() <= 10,
        parsed(f).prev_events.len() <= 20,
        f.room matches Some(RoomLookup::Known(_)),
        parsed(f).sender_domain() is Some,
        f.acl is Some,
        acl_admits(f),
        is_signed(f),
        f.content_hash is Some,
        f.effective matches Some(Some(_)),
        f.target_membership matches Some(m) && m != Some(2u8),
        f.auth_rejected@.len() >= effective(f).auth_events.len(),
        f.auth_lookups@.len() >= effective(f).auth_events.len(),
        forall|k: int|
            0 <= k < effective(f).auth_events.len() ==> !#[trigger] f.auth_rejected@[k],
        forall|k: int|
            0 <= k < effective(f).auth_events.len() ==> (#[trigger] f.auth_lookups@[k]).found,
        f.auth_refusal == Some(None::<String>),
        f.prev_missing@.len() >= effective(f).prev_events.len(),
        forall|k: int|
            0 <= k < effective(f).prev_events.len() ==> !#[trigger] f.prev_missing@[k],
        f.state_check == Some(StateCheck::Allowed),
        f.current_check == Some(CurrentCheck::Allowed) || f.current_check == Some(
            CurrentCheck::Refused,
        ),
        f.partial_state is Some,
        f.stored is None,
    ensures
        ({
            let kept_back = f.current_check == Some(CurrentCheck::Refused) && f.partial_state
                == Some(false);
            next_step(f) == (StepView::Store {
                room: f.room->0->Known_0,
                soft_failed: kept_back,
                kind: if kept_back {
                    PersistKind::SoftFailed
                } else {
                    PersistKind::Live
                },
            })
        }),
{
    let pdu = effective(f);
    lemma_all_at_hand(f, pdu, parsed(f).sender_domain()->0, 0);
}

proof fn lemma_all_at_hand(f: PduFacts, pdu: PduView, domain: Seq<char>, k: int)
    requires
        0 <= k,
        f.auth_rejected@.len() >= pdu.auth_events.len(),
        f.auth_lookups@.len() >= pdu.auth_events.len(),
        forall|j: int| 0 <= j < pdu.auth_events.len() ==> !#[trigger] f.auth_rejected@[j],
        forall|j: int| 0 <= j < pdu.auth_events.len() ==> (#[trigger] f.auth_lookups@[j]).found,
    ensures
        cascade_step(f, pdu, k) is None,
        obtain_all_step(f, pdu, domain, k) is None,
    decreases pdu.auth_events.len() - k,
{
    if k < pdu.auth_events.len() {
        assert(!f.auth_rejected@[k]);
        assert(f.auth_lookups@[k].found);
        lemma_all_at_hand(f, pdu, domain, k + 1);
    }
}

/// An auth event that is not at hand is not given up at once: the auth chain of
/// the event is fetched, the record of rejected events looked at again, and then
/// the state at the boundary is fetched.
pub proof fn law_missing_auth_events_are_fetched(f: PduFacts, k: int)
    requires
        format_step(f) is None,
        admission_step(f, parsed(f)) is None,
        signature_step(f, parsed(f), f.room->0->Known_0) is None,
        hash_step(f, parsed(f)) is None,
        rescind_step(f, effective(f), f.room->0->Known_0) is None,
        cascade_step(f, effective(f), 0) is None,
        0 <= k < effective(f).auth_events.len(),
        k < f.auth_lookups@.len(),
        forall|j: int| 0 <= j < k ==> (#[trigger] f.auth_lookups@[j]).found,
        !f.auth_lookups@[k].found,
    ensures
        ({
            let q = effective(f);
            let l = f.auth_lookups@[k];
            let s = next_step(f);
            &&& !l.chain_fetched ==> s == (StepView::FetchAuthChain {
                server: parsed(f).sender_domain()->0,
                room_id: q.room_id,
                event_id: q.event_id,
            })
            &&& l.chain_fetched && l.rejected is None ==> s == (StepView::RecheckRejected {
                event_id: q.auth_events[k],
            })
            &&& l.chain_fetched && l.rejected == Some(true) ==> (s matches StepView::Done {
                event_id,
                outcome,
            } && event_id == q.event_id && outcome is Rejected)
            &&& l.chain_fetched && l.rejected == Some(false) && l.found_in_chain is None ==> s == (
            StepView::ReloadAuthEvent { event_id: q.auth_events[k] })
            &&& l.chain_fetched && l.rejected == Some(false) && l.found_in_chain == Some(false)
                && !l.ids_fetched ==> s == (StepView::FetchStateIds {
                server: parsed(f).sender_domain()->0,
                room_id: q.room_id,
            })
            &&& l.chain_fetched && l.rejected == Some(false) && l.found_in_chain == Some(false)
                && l.ids_fetched && l.found_in_ids == Some(false) ==> (s matches StepView::Done {
                event_id,
                outcome,
            } && event_id == q.event_id && outcome is Rejected)
        }),
{
    lemma_first_missing(f, effective(f), parsed(f).sender_domain()->0, 0, k);
}

proof fn lemma_first_missing(f: PduFacts, pdu: PduView, domain: Seq<char>, from: int, k: int)
    requires
        0 <= from <= k < pdu.auth_events.len(),
        k < f.auth_lookups@.len(),
        forall|j: int| 0 <= j < k ==> (#[trigger] f.auth_lookups@[j]).found,
        !f.auth_lookups@[k].found,
    ensures
        obtain_all_step(f, pdu, domain, from) == obtain_all_step(f, pdu, domain, k),
    decreases k - from,
{
    if from < k {
        assert(f.auth_lookups@[from].found);
        lemma_first_missing(f, pdu, domain, from + 1, k);
    }
}

/// An invite of a local user is withdrawn exactly by the one who sent it: a leave
/// or ban of a user of this server who is only invited is put in force if the
/// inviter sent it, and rejected if anybody else did.
pub proof fn law_withdrawals(f: PduFacts)
    requires
        format_step(f) is None,
        admission_step(f, parsed(f)) is None,
        signature_step(f, parsed(f), f.room->0->Known_0) is None,
        hash_step(f, parsed(f)) is None,
    ensures
        ({
            let q = effective(f);
            let s = next_step(f);
            let m = q.content.get("membership"@);
            let removes = q.event_type == "m.room.member"@ && (m == Some(JsonView::Str("leave"@))
                || m == Some(JsonView::Str("ban"@))) && (q.state_key matches Some(u) && belongs_to(
                u,
                f.server_name@,
            ));
            &&& s is Rescind ==> removes && f.target_membership == Some(Some(2u8)) && (
            f.inviter matches Some(Some(i)) && i@ == q.sender)
            &&& removes && f.target_membership is None ==> s == (StepView::LookupMembership {
                room: f.room->0->Known_0,
                user: q.state_key->0,
            })
            &&& removes && f.target_membership == Some(Some(2u8)) && f.inviter is None ==> s == (
            StepView::LookupInviter { room: f.room->0->Known_0, user: q.state_key->0 })
            &&& removes && f.target_membership == Some(Some(2u8)) && f.rescinded is None && (
            f.inviter matches Some(Some(i)) && i@ == q.sender) ==> s == (StepView::Rescind {
                room: f.room->0->Known_0,
            })
            &&& removes && f.target_membership == Some(Some(2u8)) && (f.inviter matches Some(i)
                && !(i matches Some(by) && by@ == q.sender)) ==> (s matches StepView::Done {
                event_id,
                outcome,
            } && event_id == q.event_id && outcome is Rejected)
        }),
{
    let pdu = effective(f);
    let domain = parsed(f).sender_domain()->0;
    lemma_auth(f, pdu, domain, f.room->0->Known_0);
}

} // verus!
