//! What storing an event entails: which indexes change, who is told.

use vstd::prelude::*;
use vstd::string::*;

use crate::intake::PersistKind;
use crate::json::Json;
use crate::json::JsonView;
use crate::pdu::membership_byte;
use crate::pdu::membership_code;
use crate::pdu::Pdu;
use crate::pdu::PduView;
use crate::receive::OutcomeView;
use crate::receive::PduOutcome;
use crate::room_state::opt_pdu_view;
use crate::text::cat;
use crate::text::opt_string;
use crate::text::opt_text;
use crate::text::str_eq;

verus! {

/// Something to do once an event was written.
pub enum Effect {
    /// Make the event the room's current state for its type and state key.
    Promote,
    /// Bring the membership of the user that the event concerns up to date, as
    /// [`track_membership`] says.
    TrackMembership,
    /// Track this membership for the user.
    SetMembership(u8),
    /// Tell local users that the user no longer shares the room with them.
    RecordDeviceLeave,
    /// Tell local users that the user now shares the room with them.
    RecordDeviceJoin,
    /// Wake the user that the event concerns.
    NotifyUser,
    /// Keep the event from clients.
    MarkSoftFailed,
    /// Mark another event as redacted, if that is permitted.
    Redact { target: String },
    /// Index the event under another one, as its latest activity.
    Relate(Relation),
    /// Index the event under another one, but not as its latest activity.
    RelatePast(Relation),
    /// Wake the clients in the room.
    NotifyRoom,
    /// Send the event on to the servers in the room, apart from this one.
    Relay { except: String },
    /// Send the event to the servers in the room.
    Broadcast,
    /// Send push notifications.
    Push,
    /// Hand the event to the application services that want it.
    NotifyServices,
}

/// How an event relates to another one.
pub struct Relation {
    pub parent: String,
    pub rel_type: String,
    /// Whether the relation is a thread.
    pub thread: bool,
}

pub struct RelationView {
    pub parent: Seq<char>,
    pub rel_type: Seq<char>,
    pub thread: bool,
}

pub enum EffectView {
    Promote,
    TrackMembership,
    SetMembership(u8),
    RecordDeviceLeave,
    RecordDeviceJoin,
    NotifyUser,
    MarkSoftFailed,
    Redact { target: Seq<char> },
    Relate(RelationView),
    RelatePast(RelationView),
    NotifyRoom,
    Relay { except: Seq<char> },
    Broadcast,
    Push,
    NotifyServices,
}

impl Relation {
    pub open spec fn view(&self) -> RelationView {
        RelationView { parent: self.parent@, rel_type: self.rel_type@, thread: self.thread }
    }
}

impl Effect {
    pub open spec fn view(&self) -> EffectView {
        match self {
            Effect::Promote => EffectView::Promote,
            Effect::TrackMembership => EffectView::TrackMembership,
            Effect::SetMembership(b) => EffectView::SetMembership(*b),
            Effect::RecordDeviceLeave => EffectView::RecordDeviceLeave,
            Effect::RecordDeviceJoin => EffectView::RecordDeviceJoin,
            Effect::NotifyUser => EffectView::NotifyUser,
            Effect::MarkSoftFailed => EffectView::MarkSoftFailed,
            Effect::Redact { target } => EffectView::Redact { target: target@ },
            Effect::Relate(r) => EffectView::Relate(r@),
            Effect::RelatePast(r) => EffectView::RelatePast(r@),
            Effect::NotifyRoom => EffectView::NotifyRoom,
            Effect::Relay { except } => EffectView::Relay { except: except@ },
            Effect::Broadcast => EffectView::Broadcast,
            Effect::Push => EffectView::Push,
            Effect::NotifyServices => EffectView::NotifyServices,
        }
    }
}

pub open spec fn effects(v: Seq<Effect>) -> Seq<EffectView> {
    v.map_values(|e: Effect| e@)
}

fn push_effect(v: &mut Vec<Effect>, e: Effect)
    ensures
        effects(final(v)@) == effects(old(v)@).push(e@),
{
    v.push(e);
    proof {
        assert(effects(v@) =~= effects(old(v)@).push(e@));
    }
}

/// The relation that some content declares under a key.
pub open spec fn relation_under(content: JsonView, key: Seq<char>) -> Option<RelationView> {
    match content.get(key) {
        Some(rel) => match (rel.str_at("event_id"@), rel.str_at("rel_type"@)) {
            (Some(parent), Some(rel_type)) => Some(
                RelationView { parent, rel_type, thread: rel_type == "m.thread"@ },
            ),
            _ => None,
        },
        None => None,
    }
}

/// The relation that an event declares: under `m.relates_to`, or, where that is
/// absent, under `m.relationship`.
pub open spec fn relation_of(content: JsonView) -> Option<RelationView> {
    if content.get("m.relates_to"@) is Some {
        relation_under(content, "m.relates_to"@)
    } else {
        relation_under(content, "m.relationship"@)
    }
}

pub open spec fn opt_relation(r: Option<Relation>) -> Option<RelationView> {
    match r {
        Some(r) => Some(r@),
        None => None,
    }
}

/// The relation that some content declares under a key.
pub fn relation_at(content: &Json, key: &str) -> (r: Option<Relation>)
    ensures
        opt_relation(r) == relation_under(content@, key@),
{
    match content.get(key) {
        Some(rel) => match (rel.str_at("event_id"), rel.str_at("rel_type")) {
            (Some(parent), Some(rel_type)) => Some(
                Relation {
                    parent: parent.to_owned(),
                    rel_type: rel_type.to_owned(),
                    thread: str_eq(rel_type, "m.thread"),
                },
            ),
            _ => None,
        },
        None => None,
    }
}

/// The relation to index for an event that was received.
pub fn try_record_relation(content: &Json) -> (r: Option<Relation>)
    ensures
        opt_relation(r) == relation_of(content@),
{
    if content.get("m.relates_to").is_some() {
        relation_at(content, "m.relates_to")
    } else {
        relation_at(content, "m.relationship")
    }
}

/// What storing a state event entails, beyond what every event does: nothing
/// for one that soft-failed.
pub open spec fn state_effects(pdu: PduView, soft_failed: bool) -> Seq<EffectView> {
    if pdu.state_key is None || soft_failed {
        seq![]
    } else if pdu.is_member_event() {
        seq![EffectView::Promote, EffectView::TrackMembership]
    } else {
        seq![EffectView::Promote]
    }
}

pub open spec fn redaction_effects(pdu: PduView) -> Seq<EffectView> {
    if pdu.event_type == "m.room.redaction"@ {
        match pdu.content.str_at("redacts"@) {
            Some(target) => seq![EffectView::Redact { target }],
            None => seq![],
        }
    } else {
        seq![]
    }
}

pub open spec fn relation_effects(pdu: PduView) -> Seq<EffectView> {
    match relation_of(pdu.content) {
        Some(r) => seq![EffectView::Relate(r)],
        None => seq![],
    }
}

/// What storing a received event entails. A soft-failed event is only marked:
/// it changes no state, relates to nothing, and nobody hears of it.
pub open spec fn received_effects(pdu: PduView, soft_failed: bool, origin: Seq<char>) -> Seq<
    EffectView,
> {
    if soft_failed {
        seq![EffectView::MarkSoftFailed]
    } else {
        state_effects(pdu, false) + redaction_effects(pdu) + relation_effects(pdu) + seq![
            EffectView::NotifyRoom,
            EffectView::Relay { except: origin },
            EffectView::Push,
            EffectView::NotifyServices,
        ]
    }
}

/// What storing a received event entails, in order.
pub fn persist_received_pdu(pdu: &Pdu, soft_failed: bool, origin: &str) -> (r: Vec<Effect>)
    ensures
        effects(r@) == received_effects(pdu@, soft_failed, origin@),
{
    let mut out: Vec<Effect> = Vec::new();
    proof {
        assert(effects(out@) =~= seq![]);
    }
    if soft_failed {
        push_effect(&mut out, Effect::MarkSoftFailed);
        proof {
            assert(effects(out@) =~= received_effects(pdu@, soft_failed, origin@));
        }
        return out;
    }
    if pdu.state_key.is_some() {
        push_effect(&mut out, Effect::Promote);
        if str_eq(pdu.event_type.as_str(), "m.room.member") {
            push_effect(&mut out, Effect::TrackMembership);
        }
    }
    proof {
        assert(effects(out@) =~= state_effects(pdu@, false));
    }
    if str_eq(pdu.event_type.as_str(), "m.room.redaction") {
        match pdu.content.str_at("redacts") {
            Some(target) => {
                push_effect(&mut out, Effect::Redact { target: target.to_owned() });
            },
            None => {},
        }
    }
    proof {
        assert(effects(out@) =~= state_effects(pdu@, false) + redaction_effects(pdu@));
    }
    match try_record_relation(&pdu.content) {
        Some(rel) => {
            push_effect(&mut out, Effect::Relate(rel));
        },
        None => {},
    }
    proof {
        assert(effects(out@) =~= state_effects(pdu@, false) + redaction_effects(pdu@)
            + relation_effects(pdu@));
    }
    push_effect(&mut out, Effect::NotifyRoom);
    push_effect(&mut out, Effect::Relay { except: origin.to_owned() });
    push_effect(&mut out, Effect::Push);
    push_effect(&mut out, Effect::NotifyServices);
    proof {
        assert(effects(out@) =~= received_effects(pdu@, soft_failed, origin@));
    }
    out
}

/// What a change of a user's membership entails. `current` is the membership in
/// the room's current state after the event was stored, which need not be the
/// one that the event states; `prior` is the one tracked before.
pub open spec fn membership_effects(
    current: Option<Seq<char>>,
    prior: Option<u8>,
    partial_state: bool,
) -> Seq<EffectView> {
    let byte = membership_code(current);
    let left = prior == Some(1u8) && (byte == 0 || byte == 3);
    let joined = prior != Some(1u8) && byte == 1;
    (if left {
        seq![EffectView::RecordDeviceLeave]
    } else {
        seq![]
    }) + seq![EffectView::SetMembership(byte)] + (if joined && partial_state {
        seq![EffectView::RecordDeviceJoin]
    } else {
        seq![]
    }) + seq![EffectView::NotifyUser]
}

/// What a change of a user's membership entails, in order.
pub fn track_membership(current: Option<&str>, prior: Option<u8>, partial_state: bool) -> (r: Vec<
    Effect,
>)
    ensures
        effects(r@) == membership_effects(opt_text(current), prior, partial_state),
{
    let byte: u8 = membership_byte(current);
    let was_joined = match prior {
        Some(1) => true,
        _ => false,
    };
    let mut out: Vec<Effect> = Vec::new();
    proof {
        assert(effects(out@) =~= seq![]);
    }
    if was_joined && (byte == 0 || byte == 3) {
        push_effect(&mut out, Effect::RecordDeviceLeave);
    }
    push_effect(&mut out, Effect::SetMembership(byte));
    if !was_joined && byte == 1 && partial_state {
        push_effect(&mut out, Effect::RecordDeviceJoin);
    }
    push_effect(&mut out, Effect::NotifyUser);
    proof {
        assert(effects(out@) =~= membership_effects(opt_text(current), prior, partial_state));
    }
    out
}

/// What storing a join entails that a peer submitted: everyone in the room hears
/// of it.
pub open spec fn join_effects() -> Seq<EffectView> {
    seq![
        EffectView::Promote,
        EffectView::SetMembership(1),
        EffectView::NotifyUser,
        EffectView::NotifyRoom,
        EffectView::Broadcast,
    ]
}

/// What storing a join entails that a peer submitted, in order; a join without a
/// state key is refused.
pub fn persist_join_event(pdu: &Pdu) -> (r: Result<Vec<Effect>, String>)
    ensures
        match r {
            Ok(v) => pdu@.state_key is Some && effects(v@) == join_effects(),
            Err(e) => pdu@.state_key is None && e@ == "join event has no state_key"@,
        },
{
    if pdu.state_key.is_none() {
        return Err("join event has no state_key".to_owned());
    }
    let mut out: Vec<Effect> = Vec::new();
    push_effect(&mut out, Effect::Promote);
    push_effect(&mut out, Effect::SetMembership(1));
    push_effect(&mut out, Effect::NotifyUser);
    push_effect(&mut out, Effect::NotifyRoom);
    push_effect(&mut out, Effect::Broadcast);
    proof {
        assert(effects(out@) =~= join_effects());
    }
    Ok(out)
}

/// Whether the storing of a join has failed if this part of it has: the room's
/// state and the membership are what the join is for.
pub fn fails_a_join(e: &Effect) -> (r: bool)
    ensures
        r == (e@ is Promote || e@ is SetMembership),
{
    match e {
        Effect::Promote => true,
        Effect::SetMembership(_) => true,
        _ => false,
    }
}

/// What storing an invite entails that another server sent: the invited user
/// hears of it, and so do the clients in the room. The room's current state and
/// the other servers are left alone: the room is theirs.
pub open spec fn invite_effects() -> Seq<EffectView> {
    seq![EffectView::SetMembership(2), EffectView::NotifyUser, EffectView::NotifyRoom]
}

/// What storing an invite entails that another server sent, in order.
pub fn persist_invite_event() -> (r: Vec<Effect>)
    ensures
        effects(r@) == invite_effects(),
{
    let mut out: Vec<Effect> = Vec::new();
    push_effect(&mut out, Effect::SetMembership(2));
    push_effect(&mut out, Effect::NotifyUser);
    push_effect(&mut out, Effect::NotifyRoom);
    proof {
        assert(effects(out@) =~= invite_effects());
    }
    out
}

/// What storing an event of a room's past entails: it is indexed under the event
/// that it relates to, but not as the latest activity there. Nobody is told.
pub open spec fn past_effects(pdu: PduView) -> Seq<EffectView> {
    match relation_under(pdu.content, "m.relates_to"@) {
        Some(r) => seq![EffectView::RelatePast(r)],
        None => seq![],
    }
}

/// What storing an event of a room's past entails, in order.
pub fn persist_past_event(pdu: &Pdu) -> (r: Vec<Effect>)
    ensures
        effects(r@) == past_effects(pdu@),
{
    let mut out: Vec<Effect> = Vec::new();
    proof {
        assert(effects(out@) =~= seq![]);
    }
    match relation_at(&pdu.content, "m.relates_to") {
        Some(rel) => {
            push_effect(&mut out, Effect::RelatePast(rel));
        },
        None => {},
    }
    proof {
        assert(effects(out@) =~= past_effects(pdu@));
    }
    out
}

/// What a redaction does to its target.
pub struct RedactionPlan {
    /// Mark the target as redacted.
    pub mark: bool,
    /// Take the target out of the index of this relation.
    pub unrelate: Option<Relation>,
}

/// Whether a redaction takes effect: its target is stored, in the same room,
/// and the room's rules permit it.
pub open spec fn redaction_applies(
    pdu: PduView,
    target: Option<PduView>,
    has_create: bool,
    permitted: bool,
) -> bool {
    &&& pdu.content.str_at("redacts"@) is Some
    &&& target is Some
    &&& target->0.room_id == pdu.room_id
    &&& has_create
    &&& permitted
}

/// What a redaction that was accepted does to its target. Only the first
/// redaction of an event takes it out of the index of its relation.
pub fn try_apply_redaction_marker(
    pdu: &Pdu,
    target: Option<&Pdu>,
    has_create: bool,
    permitted: bool,
    already_redacted: bool,
) -> (r: RedactionPlan)
    ensures
        r.mark == redaction_applies(pdu@, opt_pdu_view(target), has_create, permitted),
        opt_relation(r.unrelate) == (if r.mark && !already_redacted {
            relation_under(target->0@.content, "m.relates_to"@)
        } else {
            None
        }),
{
    if pdu.content.str_at("redacts").is_none() || !has_create || !permitted {
        return RedactionPlan { mark: false, unrelate: None };
    }
    match target {
        Some(t) => {
            if !str_eq(t.room_id.as_str(), pdu.room_id.as_str()) {
                return RedactionPlan { mark: false, unrelate: None };
            }
            let unrelate = if already_redacted {
                None
            } else {
                relation_at(&t.content, "m.relates_to")
            };
            RedactionPlan { mark: true, unrelate }
        },
        None => RedactionPlan { mark: false, unrelate: None },
    }
}

/// What is known so far about the storing of a withdrawn invite.
pub struct RescindFacts {
    /// Whether the event names a user.
    pub has_state_key: bool,
    /// Whether numbers could be allotted: what failed, if anything.
    pub allotted: Option<Option<String>>,
    /// Whether the event was written.
    pub written: Option<Option<String>>,
    /// Whether it was offered to the room's current state, with or without
    /// success.
    pub promoted: bool,
    /// The user's membership in the current state after that.
    pub current: Option<Option<String>>,
    /// Whether that membership was to be recorded, with or without success.
    pub recorded: bool,
    /// Whether the user and the room were woken.
    pub announced: bool,
}

/// What to do next in storing a withdrawn invite.
pub enum RescindStep {
    Allot,
    Write(PersistKind),
    Promote,
    ReadMembership,
    Track(u8),
    Announce,
    Done(PduOutcome),
}

pub enum RescindView {
    Allot,
    Write(PersistKind),
    Promote,
    ReadMembership,
    Track(u8),
    Announce,
    Done(OutcomeView),
}

impl RescindStep {
    pub open spec fn view(&self) -> RescindView {
        match self {
            RescindStep::Allot => RescindView::Allot,
            RescindStep::Write(k) => RescindView::Write(*k),
            RescindStep::Promote => RescindView::Promote,
            RescindStep::ReadMembership => RescindView::ReadMembership,
            RescindStep::Track(b) => RescindView::Track(*b),
            RescindStep::Announce => RescindView::Announce,
            RescindStep::Done(o) => RescindView::Done(o@),
        }
    }
}

pub open spec fn rescind_failed(what: Seq<char>, e: Seq<char>) -> RescindView {
    RescindView::Done(OutcomeView::Rejected(what + e))
}

/// How a withdrawn invite is stored: written, offered to the current state, and
/// the membership that the current state then holds is tracked. What fails
/// before it is written rejects the event; once it is written it counts.
pub open spec fn rescind_next(f: RescindFacts) -> RescindView {
    if !f.has_state_key {
        RescindView::Done(OutcomeView::Rejected("rescind missing state_key"@))
    } else {
        match f.allotted {
            None => RescindView::Allot,
            Some(Some(e)) => rescind_failed("nid alloc: "@, e@),
            Some(None) => match f.written {
                None => RescindView::Write(PersistKind::Live),
                Some(Some(e)) => rescind_failed("persist: "@, e@),
                Some(None) => if !f.promoted {
                    RescindView::Promote
                } else {
                    match f.current {
                        None => RescindView::ReadMembership,
                        Some(current) => if !f.recorded {
                            RescindView::Track(membership_code(opt_string(current)))
                        } else if !f.announced {
                            RescindView::Announce
                        } else {
                            RescindView::Done(OutcomeView::Accepted)
                        },
                    }
                },
            },
        }
    }
}

/// Whether a withdrawn invite was written only when that was called for.
pub open spec fn rescind_in_turn(f: RescindFacts) -> bool {
    f.written is Some ==> f.has_state_key && f.allotted == Some(None::<String>)
}

fn rescind_fail(what: &str, e: &String) -> (r: RescindStep)
    ensures
        r@ == rescind_failed(what@, e@),
{
    RescindStep::Done(PduOutcome::Rejected(cat(what, e.as_str())))
}

/// Names what to do next in storing a withdrawn invite, or the outcome.
pub fn apply_invite_rescind(f: &RescindFacts) -> (r: RescindStep)
    ensures
        r@ == rescind_next(*f),
{
    if !f.has_state_key {
        return RescindStep::Done(PduOutcome::Rejected("rescind missing state_key".to_owned()));
    }
    match &f.allotted {
        None => {
            return RescindStep::Allot;
        },
        Some(Some(e)) => {
            return rescind_fail("nid alloc: ", e);
        },
        Some(None) => {},
    }
    match &f.written {
        None => {
            return RescindStep::Write(PersistKind::Live);
        },
        Some(Some(e)) => {
            return rescind_fail("persist: ", e);
        },
        Some(None) => {},
    }
    if !f.promoted {
        return RescindStep::Promote;
    }
    let current = match &f.current {
        None => {
            return RescindStep::ReadMembership;
        },
        Some(c) => match c {
            Some(m) => Some(m.as_str()),
            None => None,
        },
    };
    if !f.recorded {
        RescindStep::Track(membership_byte(current))
    } else if !f.announced {
        RescindStep::Announce
    } else {
        RescindStep::Done(PduOutcome::Accepted)
    }
}

/// The numbers among some lookups that were found, in order.
pub open spec fn found_nids(v: Seq<Option<u64>>) -> Seq<u64>
    decreases v.len(),
{
    if v.len() == 0 {
        seq![]
    } else {
        match v.last() {
            Some(n) => found_nids(v.drop_last()).push(n),
            None => found_nids(v.drop_last()),
        }
    }
}

/// The references of an event that can be stored: those to events that are
/// known; the others are left out.
pub fn known_references(lookups: &Vec<Option<u64>>) -> (r: Vec<u64>)
    ensures
        r@ == found_nids(lookups@),
{
    let mut out: Vec<u64> = Vec::new();
    let mut i: usize = 0;
    while i < lookups.len()
        invariant
            i <= lookups.len(),
            out@ =~= found_nids(lookups@.take(i as int)),
        decreases lookups.len() - i,
    {
        proof {
            assert(lookups@.take(i + 1).drop_last() =~= lookups@.take(i as int));
            assert(lookups@.take(i + 1).last() == lookups@[i as int]);
        }
        match lookups[i] {
            Some(n) => {
                out.push(n);
            },
            None => {},
        }
        i += 1;
    }
    proof {
        assert(lookups@.take(i as int) =~= lookups@);
    }
    out
}

/// A soft-failed event changes no state and no membership, and nobody hears of
/// it.
pub proof fn law_soft_failed_is_silent(pdu: PduView, origin: Seq<char>)
    ensures
        received_effects(pdu, true, origin) == seq![EffectView::MarkSoftFailed],
        forall|e: EffectView|
            received_effects(pdu, true, origin).contains(e) ==> e == EffectView::MarkSoftFailed,
{
}

/// Only a state event changes a room's current state, and only a membership
/// event a membership.
pub proof fn law_who_changes_state(pdu: PduView, soft_failed: bool, origin: Seq<char>)
    ensures
        received_effects(pdu, soft_failed, origin).contains(EffectView::Promote) <==> !soft_failed
            && pdu.state_key is Some,
        received_effects(pdu, soft_failed, origin).contains(EffectView::TrackMembership) <==> !soft_failed
            && pdu.state_key is Some && pdu.is_member_event(),
{
    let v = received_effects(pdu, soft_failed, origin);
    if !soft_failed && pdu.state_key is Some {
        assert(v[0] == EffectView::Promote);
        if pdu.is_member_event() {
            assert(v[1] == EffectView::TrackMembership);
        }
    }
}

/// A withdrawn invite is accepted once it is written, offered to the current
/// state, tracked and announced; it is rejected only if it was not written, and
/// it is never hidden.
pub proof fn law_withdrawn_invites(f: RescindFacts)
    requires
        rescind_next(f) is Done,
    ensures
        !(rescind_next(f)->Done_0 is SoftFailed),
        rescind_next(f)->Done_0 is Accepted ==> {
            &&& f.written == Some(None::<String>)
            &&& f.promoted
            &&& f.recorded
            &&& f.announced
        },
        rescind_next(f)->Done_0 is Rejected && rescind_in_turn(f) ==> f.written != Some(
            None::<String>,
        ),
{
}

/// What a received event that is not hidden sets going, effect by effect. The
/// target of a redaction is redacted, whether or not the redaction has a state
/// key; a relation is indexed as it is declared; a state event is offered to the
/// current state and a membership tracked; the room, the other servers, push and
/// the application services always hear of it. Nothing else happens, nothing
/// happens twice, and everyone hears of it only after it is in force.
pub proof fn law_effects_of_received(pdu: PduView, origin: Seq<char>, e: EffectView)
    ensures
        ({
            let v = received_effects(pdu, false, origin);
            let key = if pdu.content.get("m.relates_to"@) is Some {
                "m.relates_to"@
            } else {
                "m.relationship"@
            };
            let n = v.len() as int;
            &&& v.contains(e) <==> match e {
                EffectView::Promote => pdu.state_key is Some,
                EffectView::TrackMembership => pdu.state_key is Some && pdu.event_type
                    == "m.room.member"@,
                EffectView::Redact { target } => pdu.event_type == "m.room.redaction"@
                    && pdu.content.get("redacts"@) == Some(JsonView::Str(target)),
                EffectView::Relate(r) => pdu.content.get(key) matches Some(rel) && {
                    &&& rel.get("event_id"@) == Some(JsonView::Str(r.parent))
                    &&& rel.get("rel_type"@) == Some(JsonView::Str(r.rel_type))
                    &&& r.thread == (r.rel_type == "m.thread"@)
                },
                EffectView::NotifyRoom | EffectView::Push | EffectView::NotifyServices => true,
                EffectView::Relay { except } => except == origin,
                _ => false,
            }
            &&& v.no_duplicates()
            &&& n >= 4
            &&& v[n - 4] == EffectView::NotifyRoom
            &&& v[n - 3] == (EffectView::Relay { except: origin })
            &&& v[n - 2] == EffectView::Push
            &&& v[n - 1] == EffectView::NotifyServices
            &&& pdu.state_key is Some ==> v[0] == EffectView::Promote
            &&& pdu.state_key is Some && pdu.event_type == "m.room.member"@ ==> v[1]
                == EffectView::TrackMembership
        }),
{
    let v = received_effects(pdu, false, origin);
    let a = state_effects(pdu, false);
    let b = redaction_effects(pdu);
    let c = relation_effects(pdu);
    let d = seq![
        EffectView::NotifyRoom,
        EffectView::Relay { except: origin },
        EffectView::Push,
        EffectView::NotifyServices,
    ];
    assert(v == a + b + c + d);
    let n = v.len() as int;
    assert(v[n - 4] == d[0] && v[n - 3] == d[1] && v[n - 2] == d[2] && v[n - 1] == d[3]);
    if v.contains(e) {
        let i = choose|i: int| 0 <= i < v.len() && v[i] == e;
        assert(v[i] == e);
    }
    if pdu.state_key is Some {
        assert(v[0] == a[0]);
        assert(v.contains(v[0]));
        if pdu.event_type == "m.room.member"@ {
            assert(v[1] == a[1]);
            assert(v.contains(v[1]));
        }
    }
    if b.len() > 0 {
        assert(v[a.len() as int] == b[0]);
        assert(v.contains(b[0]));
    }
    if c.len() > 0 {
        assert(v[(a.len() + b.len()) as int] == c[0]);
        assert(v.contains(c[0]));
    }
    assert(v.contains(v[n - 4]) && v.contains(v[n - 3]) && v.contains(v[n - 2]) && v.contains(
        v[n - 1],
    ));
}

/// The five memberships are tracked under numbers of their own; every other text
/// counts as having left, and so does the absence of one.
pub proof fn law_membership_codes(m: Seq<char>)
    ensures
        membership_code(Some("join"@)) == 1,
        membership_code(Some("invite"@)) == 2,
        membership_code(Some("ban"@)) == 3,
        membership_code(Some("knock"@)) == 4,
        membership_code(Some("leave"@)) == 0,
        membership_code(None) == 0,
        m != "join"@ && m != "invite"@ && m != "ban"@ && m != "knock"@ ==> membership_code(Some(m))
            == 0,
{
    lemma_membership_texts();
}

proof fn lemma_membership_texts()
    ensures
        "join"@ != "invite"@,
        "join"@ != "ban"@,
        "join"@ != "knock"@,
        "invite"@ != "ban"@,
        "invite"@ != "knock"@,
        "ban"@ != "knock"@,
        "leave"@ != "join"@,
        "leave"@ != "invite"@,
        "leave"@ != "ban"@,
        "leave"@ != "knock"@,
{
    reveal_strlit("join");
    reveal_strlit("invite");
    reveal_strlit("ban");
    reveal_strlit("knock");
    reveal_strlit("leave");
    assert("join"@.len() == 4 && "invite"@.len() == 6 && "ban"@.len() == 3 && "knock"@.len() == 5
        && "leave"@.len() == 5);
    assert("leave"@[0] == 'l' && "knock"@[0] == 'k');
}

/// What follows from a user's membership in the current state: it is tracked, and
/// the user is woken last. Local users are told of a departure exactly when a
/// joined user is out of the room, and of an arrival exactly when one who was not
/// joined now is, while the room's state is being fetched.
pub proof fn law_effects_of_membership(
    current: Option<Seq<char>>,
    prior: Option<u8>,
    partial_state: bool,
    e: EffectView,
)
    ensures
        ({
            let v = membership_effects(current, prior, partial_state);
            &&& v.contains(e) <==> match e {
                EffectView::SetMembership(b) => b == (if current == Some("join"@) {
                    1u8
                } else if current == Some("invite"@) {
                    2u8
                } else if current == Some("ban"@) {
                    3u8
                } else if current == Some("knock"@) {
                    4u8
                } else {
                    0u8
                }),
                EffectView::RecordDeviceLeave => prior == Some(1u8) && current != Some("join"@)
                    && current != Some("invite"@) && current != Some("knock"@),
                EffectView::RecordDeviceJoin => prior != Some(1u8) && current == Some("join"@)
                    && partial_state,
                EffectView::NotifyUser => true,
                _ => false,
            }
            &&& v.no_duplicates()
            &&& v.last() == EffectView::NotifyUser
        }),
{
    lemma_membership_texts();
    let v = membership_effects(current, prior, partial_state);
    let byte = membership_code(current);
    let left = prior == Some(1u8) && (byte == 0 || byte == 3);
    let joined = prior != Some(1u8) && byte == 1;
    if v.contains(e) {
        let i = choose|i: int| 0 <= i < v.len() && v[i] == e;
        assert(v[i] == e);
    }
    let k: int = if left {
        1
    } else {
        0
    };
    if left {
        assert(v[0] == EffectView::RecordDeviceLeave);
        assert(v.contains(v[0]));
    }
    assert(v[k] == EffectView::SetMembership(byte));
    assert(v.contains(v[k]));
    if joined && partial_state {
        assert(v[k + 1] == EffectView::RecordDeviceJoin);
        assert(v.contains(v[k + 1]));
    }
    assert(v.contains(v.last()));
}

/// A join that was stored is put in force, its user counts as joined, and the
/// user, the room and all its servers hear of it; nothing else happens.
pub proof fn law_effects_of_joins(e: EffectView)
    ensures
        join_effects().contains(e) <==> {
            ||| e is Promote
            ||| e == EffectView::SetMembership(1)
            ||| e is NotifyUser
            ||| e is NotifyRoom
            ||| e is Broadcast
        },
        join_effects().no_duplicates(),
        join_effects()[0] is Promote,
{
    let v = join_effects();
    assert(v.contains(v[0]) && v.contains(v[1]) && v.contains(v[2]) && v.contains(v[3])
        && v.contains(v[4]));
}

/// An invite that was stored makes its user count as invited, and the user and
/// the room hear of it; nothing else happens.
pub proof fn law_effects_of_invites(e: EffectView)
    ensures
        invite_effects().contains(e) <==> {
            ||| e == EffectView::SetMembership(2)
            ||| e is NotifyUser
            ||| e is NotifyRoom
        },
        invite_effects().no_duplicates(),
{
    let v = invite_effects();
    assert(v.contains(v[0]) && v.contains(v[1]) && v.contains(v[2]));
}

/// An event of a room's past is indexed under the event that it relates to, as
/// its content declares, and nothing else happens.
pub proof fn law_effects_of_the_past(pdu: PduView, e: EffectView)
    ensures
        past_effects(pdu).contains(e) <==> (e matches EffectView::RelatePast(r)
            && pdu.content.get("m.relates_to"@) matches Some(rel) && {
            &&& rel.get("event_id"@) == Some(JsonView::Str(r.parent))
            &&& rel.get("rel_type"@) == Some(JsonView::Str(r.rel_type))
            &&& r.thread == (r.rel_type == "m.thread"@)
        }),
        past_effects(pdu).len() <= 1,
{
    let v = past_effects(pdu);
    if v.len() > 0 {
        assert(v.contains(v[0]));
    }
}

/// A relation is read from its own key, and under `m.relationship` only where
/// `m.relates_to` is absent.
pub proof fn law_relations(content: JsonView, r: RelationView)
    ensures
        relation_of(content) == Some(r) <==> {
            let key = if content.get("m.relates_to"@) is Some {
                "m.relates_to"@
            } else {
                "m.relationship"@
            };
            content.get(key) matches Some(rel) && {
                &&& rel.get("event_id"@) == Some(JsonView::Str(r.parent))
                &&& rel.get("rel_type"@) == Some(JsonView::Str(r.rel_type))
                &&& r.thread == (r.rel_type == "m.thread"@)
            }
        },
        relation_under(content, "m.relates_to"@) is Some ==> relation_of(content)
            == relation_under(content, "m.relates_to"@),
{
}

/// A redaction takes effect exactly on a stored event of its own room, where the
/// rules permit it and the room's create event is known.
pub proof fn law_redactions(
    pdu: PduView,
    target: Option<PduView>,
    has_create: bool,
    permitted: bool,
)
    ensures
        redaction_applies(pdu, target, has_create, permitted) <==> {
            &&& pdu.content.get("redacts"@) matches Some(JsonView::Str(_))
            &&& target matches Some(t) && t.room_id == pdu.room_id
            &&& has_create
            &&& permitted
        },
{
}

/// The storing of a withdrawn invite goes through its steps in order, each once:
/// numbers, the event itself, the current state, the membership that the current
/// state then holds, the waking.
pub proof fn law_withdrawal_steps(f: RescindFacts)
    ensures
        match rescind_next(f) {
            RescindView::Allot => f.has_state_key && f.allotted is None,
            RescindView::Write(kind) => f.has_state_key && f.allotted == Some(None::<String>)
                && f.written is None && kind == PersistKind::Live,
            RescindView::Promote => f.written == Some(None::<String>) && !f.promoted,
            RescindView::ReadMembership => f.written == Some(None::<String>) && f.promoted
                && f.current is None,
            RescindView::Track(b) => f.written == Some(None::<String>) && f.promoted && !f.recorded
                && f.current is Some && b == (if opt_string(f.current->0) == Some("join"@) {
                1u8
            } else if opt_string(f.current->0) == Some("invite"@) {
                2u8
            } else if opt_string(f.current->0) == Some("ban"@) {
                3u8
            } else if opt_string(f.current->0) == Some("knock"@) {
                4u8
            } else {
                0u8
            }),
            RescindView::Announce => f.written == Some(None::<String>) && f.promoted && f.recorded
                && !f.announced,
            RescindView::Done(OutcomeView::Accepted) => f.written == Some(None::<String>)
                && f.promoted && f.recorded && f.announced,
            RescindView::Done(OutcomeView::Rejected(reason)) => {
                ||| !f.has_state_key && reason == "rescind missing state_key"@
                ||| f.has_state_key && (f.allotted matches Some(Some(e)) && reason
                    == "nid alloc: "@ + e@)
                ||| f.has_state_key && f.allotted == Some(None::<String>) && (
                f.written matches Some(Some(e)) && reason == "persist: "@ + e@)
            },
            RescindView::Done(OutcomeView::SoftFailed) => false,
        },
{
    lemma_membership_texts();
}

/// The references that are stored are those that were found, all of them, in
/// order, and no others.
pub proof fn law_references(v: Seq<Option<u64>>)
    ensures
        found_nids(v) == v.filter_map(|o: Option<u64>| o),
        forall|i: int| 0 <= i < v.len() && (#[trigger] v[i]) is Some ==> found_nids(v).contains(v[i]->0),
        forall|n: u64| #[trigger] found_nids(v).contains(n) ==> v.contains(Some(n)),
        (forall|i: int| 0 <= i < v.len() ==> (#[trigger] v[i]) is Some) ==> found_nids(v).len()
            == v.len(),
    decreases v.len(),
{
    if v.len() > 0 {
        let front = v.drop_last();
        law_references(front);
        let r = found_nids(v);
        let s = found_nids(front);
        if v.last() is Some {
            assert(s.push(v.last()->0) =~= s + seq![v.last()->0]);
            assert(r[s.len() as int] == v.last()->0);
        }
        assert forall|i: int| 0 <= i < v.len() && (#[trigger] v[i]) is Some implies r.contains(
            v[i]->0,
        ) by {
            if i < front.len() {
                assert(front[i] == v[i]);
                assert(s.contains(v[i]->0));
                let k = choose|k: int| 0 <= k < s.len() && s[k] == v[i]->0;
                assert(r[k] == v[i]->0);
            }
        }
        assert forall|n: u64| #[trigger] r.contains(n) implies v.contains(Some(n)) by {
            let k = choose|k: int| 0 <= k < r.len() && r[k] == n;
            if k < s.len() {
                assert(s[k] == n);
                assert(s.contains(n));
                let i = choose|i: int| 0 <= i < front.len() && front[i] == Some(n);
                assert(v[i] == Some(n));
            } else {
                assert(v[v.len() - 1] == Some(n));
            }
        }
        if forall|i: int| 0 <= i < v.len() ==> (#[trigger] v[i]) is Some {
            assert forall|i: int| 0 <= i < front.len() implies (#[trigger] front[i]) is Some by {
                assert(v[i] is Some);
            }
            assert(v[v.len() - 1] is Some);
        }
    }
}

} // verus!
