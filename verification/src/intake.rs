//! Taking in events that were asked for: the checks that every fetched event
//! goes through before it is stored as context or as history.

use vstd::prelude::*;
use vstd::string::*;

use crate::json::Json;
use crate::keys::law_signatures_to_check;
use crate::keys::next_signature;
use crate::keys::signature_search;
use crate::keys::RemoteKeys;
use crate::keys::SignatureStep;
use crate::keys::SignatureView;
use crate::pdu::server_part;
use crate::json::JsonView;
use crate::pdu::Pdu;
use crate::pdu::PduView;
use crate::receive::declares_hash;
use crate::text::cat;
use crate::text::cat3;
use crate::text::cat4;
use crate::text::contains;
use crate::text::holds;

verus! {

/// What is known so far about an event that was fetched.
pub struct Intake {
    /// The event as it arrived.
    pub json: Json,
    /// The id that the event's hash gives it, and its fields if it has them.
    pub identity: Option<(String, Option<Pdu>)>,
    /// Whether the event is already stored, or what failed.
    pub known: Option<Result<bool, String>>,
    /// The keys of the sender's server, or what failed.
    pub sender_keys: Option<Result<RemoteKeys, String>>,
    /// For each signature that can be checked, whether it verified.
    pub sig_checks: Vec<bool>,
    /// The hash of the event's content.
    pub content_hash: Option<String>,
    /// The fields of the event as it counts: redacted if its hash is wrong.
    pub effective: Option<Option<Pdu>>,
}

/// What is wrong with a fetched event.
pub enum IntakeFault {
    NotObject,
    StoreFailed { reason: String },
    Malformed,
    BadSender,
    NoKeys { server: String, reason: String },
    Unsigned { server: String },
    Unverified { event_id: String },
    MalformedAfterHash,
}

/// What to find out next about a fetched event.
pub enum IntakeStep {
    Identify,
    LookupEvent { event_id: String },
    FetchKeys { server: String },
    VerifySignature { server: String, key_id: String, key: String },
    HashContent,
    ReadEffective { redacted: bool },
    /// It is stored already.
    Known,
    /// It fails a check.
    Fault(IntakeFault),
    /// It passes.
    Passed,
}

pub enum FaultView {
    NotObject,
    StoreFailed { reason: Seq<char> },
    Malformed,
    BadSender,
    NoKeys { server: Seq<char>, reason: Seq<char> },
    Unsigned { server: Seq<char> },
    Unverified { event_id: Seq<char> },
    MalformedAfterHash,
}

pub enum IntakeView {
    Identify,
    LookupEvent { event_id: Seq<char> },
    FetchKeys { server: Seq<char> },
    VerifySignature { server: Seq<char>, key_id: Seq<char>, key: Seq<char> },
    HashContent,
    ReadEffective { redacted: bool },
    Known,
    Fault(FaultView),
    Passed,
}

impl IntakeFault {
    pub open spec fn view(&self) -> FaultView {
        match self {
            IntakeFault::NotObject => FaultView::NotObject,
            IntakeFault::StoreFailed { reason } => FaultView::StoreFailed { reason: reason@ },
            IntakeFault::Malformed => FaultView::Malformed,
            IntakeFault::BadSender => FaultView::BadSender,
            IntakeFault::NoKeys { server, reason } => FaultView::NoKeys {
                server: server@,
                reason: reason@,
            },
            IntakeFault::Unsigned { server } => FaultView::Unsigned { server: server@ },
            IntakeFault::Unverified { event_id } => FaultView::Unverified { event_id: event_id@ },
            IntakeFault::MalformedAfterHash => FaultView::MalformedAfterHash,
        }
    }
}

impl IntakeStep {
    pub open spec fn view(&self) -> IntakeView {
        match self {
            IntakeStep::Identify => IntakeView::Identify,
            IntakeStep::LookupEvent { event_id } => IntakeView::LookupEvent { event_id: event_id@ },
            IntakeStep::FetchKeys { server } => IntakeView::FetchKeys { server: server@ },
            IntakeStep::VerifySignature { server, key_id, key } => IntakeView::VerifySignature {
                server: server@,
                key_id: key_id@,
                key: key@,
            },
            IntakeStep::HashContent => IntakeView::HashContent,
            IntakeStep::ReadEffective { redacted } => IntakeView::ReadEffective {
                redacted: *redacted,
            },
            IntakeStep::Known => IntakeView::Known,
            IntakeStep::Fault(f) => IntakeView::Fault(f@),
            IntakeStep::Passed => IntakeView::Passed,
        }
    }
}

/// The checks of a fetched event: it is an object that is not stored yet, has
/// the fields of an event, and carries a valid signature of its sender's
/// server; where its content hash is wrong it counts in its redacted form.
pub open spec fn intake(f: Intake) -> IntakeView {
    if f.json@.as_object() is None {
        IntakeView::Fault(FaultView::NotObject)
    } else {
        match f.identity {
            None => IntakeView::Identify,
            Some((event_id, fields)) => match f.known {
                None => IntakeView::LookupEvent { event_id: event_id@ },
                Some(Err(e)) => IntakeView::Fault(FaultView::StoreFailed { reason: e@ }),
                Some(Ok(true)) => IntakeView::Known,
                Some(Ok(false)) => match fields {
                    None => IntakeView::Fault(FaultView::Malformed),
                    Some(pdu) => match pdu@.sender_domain() {
                        None => IntakeView::Fault(FaultView::BadSender),
                        Some(domain) => signed_intake(f, event_id@, domain),
                    },
                },
            },
        }
    }
}

/// The checks that need the keys of the sender's server.
pub open spec fn signed_intake(f: Intake, event_id: Seq<char>, domain: Seq<char>) -> IntakeView {
    match f.sender_keys {
        None => IntakeView::FetchKeys { server: domain },
        Some(Err(e)) => IntakeView::Fault(FaultView::NoKeys { server: domain, reason: e@ }),
        Some(Ok(keys)) => match signature_search(f.json@, domain, keys, f.sig_checks@) {
            SignatureView::Unsigned => IntakeView::Fault(FaultView::Unsigned { server: domain }),
            SignatureView::Check { key_id, key } => IntakeView::VerifySignature {
                server: domain,
                key_id,
                key,
            },
            SignatureView::Empty | SignatureView::Unverified => IntakeView::Fault(
                FaultView::Unverified { event_id },
            ),
            SignatureView::Verified => match f.content_hash {
                None => IntakeView::HashContent,
                Some(hash) => match f.effective {
                    None => IntakeView::ReadEffective {
                        redacted: f.json@.str_within("hashes"@, "sha256"@) != Some(hash@),
                    },
                    Some(None) => IntakeView::Fault(FaultView::MalformedAfterHash),
                    Some(Some(_)) => IntakeView::Passed,
                },
            },
        },
    }
}

/// Names what to find out next about a fetched event, or how its checks end.
pub fn next_intake(f: &Intake) -> (r: IntakeStep)
    ensures
        r@ == intake(*f),
{
    if f.json.as_object().is_none() {
        return IntakeStep::Fault(IntakeFault::NotObject);
    }
    let (event_id, fields) = match &f.identity {
        None => {
            return IntakeStep::Identify;
        },
        Some((e, p)) => (e, p),
    };
    match &f.known {
        None => {
            return IntakeStep::LookupEvent { event_id: event_id.clone() };
        },
        Some(Err(e)) => {
            return IntakeStep::Fault(IntakeFault::StoreFailed { reason: e.clone() });
        },
        Some(Ok(true)) => {
            return IntakeStep::Known;
        },
        Some(Ok(false)) => {},
    }
    let pdu = match fields {
        None => {
            return IntakeStep::Fault(IntakeFault::Malformed);
        },
        Some(p) => p,
    };
    let domain = match pdu.sender_domain() {
        None => {
            return IntakeStep::Fault(IntakeFault::BadSender);
        },
        Some(d) => d,
    };
    let keys = match &f.sender_keys {
        None => {
            return IntakeStep::FetchKeys { server: domain.to_owned() };
        },
        Some(Err(e)) => {
            return IntakeStep::Fault(
                IntakeFault::NoKeys { server: domain.to_owned(), reason: e.clone() },
            );
        },
        Some(Ok(k)) => k,
    };
    match next_signature(&f.json, domain, keys, &f.sig_checks) {
        SignatureStep::Unsigned => IntakeStep::Fault(
            IntakeFault::Unsigned { server: domain.to_owned() },
        ),
        SignatureStep::Check { key_id, key } => IntakeStep::VerifySignature {
            server: domain.to_owned(),
            key_id,
            key,
        },
        SignatureStep::Empty | SignatureStep::Unverified => IntakeStep::Fault(
            IntakeFault::Unverified { event_id: event_id.clone() },
        ),
        SignatureStep::Verified => match &f.content_hash {
            None => IntakeStep::HashContent,
            Some(hash) => match &f.effective {
                None => {
                    let same = declares_hash(&f.json, hash.as_str());
                    IntakeStep::ReadEffective { redacted: !same }
                },
                Some(None) => IntakeStep::Fault(IntakeFault::MalformedAfterHash),
                Some(Some(_)) => IntakeStep::Passed,
            },
        },
    }
}

/// Where a fetched event comes from.
#[derive(Clone, Copy, PartialEq, Eq, Structural, Debug)]
pub enum FetchKind {
    /// An auth chain: context for the validation of another event.
    AuthChain,
    /// The gap before a received event.
    MissingTimeline,
    /// A single event of the past.
    Backfill,
}

/// How an event is stored.
#[derive(Clone, Copy, PartialEq, Eq, Structural, Debug)]
pub enum PersistKind {
    /// On the timeline, as a forward extremity.
    Live,
    /// Kept from clients: stored, but no forward extremity.
    SoftFailed,
    /// Off the timeline.
    Outlier,
    /// On the timeline of the past, neither current state nor extremity.
    BackfillTimeline,
    /// As part of a room's state only.
    StateBundleOnly,
}

/// Whether an event that is stored in a way becomes a forward extremity of its
/// room: what the next events build on.
pub open spec fn becomes_extremity(kind: PersistKind) -> bool {
    kind == PersistKind::Live
}

/// How events of a kind are stored.
pub open spec fn stored_as(kind: FetchKind) -> PersistKind {
    match kind {
        FetchKind::AuthChain => PersistKind::Outlier,
        FetchKind::MissingTimeline => PersistKind::Live,
        FetchKind::Backfill => PersistKind::BackfillTimeline,
    }
}

/// What is known of one of a fetched event's auth events.
pub struct AuthSearch {
    /// Whether it was stored at the first look.
    pub found: bool,
    /// The result of fetching its auth chain: what failed, if anything.
    pub fetched: Option<Option<String>>,
    /// Whether it was stored at the second look.
    pub found_after: Option<bool>,
    /// Whether it is on record as rejected.
    pub rejected: Option<bool>,
}

/// What is known so far about an event that was fetched to fill a gap.
pub struct FetchedFacts {
    pub intake: Intake,
    /// The server that the event was fetched from.
    pub origin: String,
    pub kind: FetchKind,
    /// The number of the event's room, if it is known, or what failed.
    pub room: Option<Result<Option<u64>, String>>,
    /// For each auth event, whether it is on record as rejected.
    pub auth_rejected: Vec<bool>,
    /// For each auth event, what looking for it came to.
    pub auth_searches: Vec<AuthSearch>,
    /// The verdict of the rules over the auth events: the reason of a refusal.
    pub auth_refusal: Option<Option<String>>,
    /// The result of storing the event: what failed, if anything.
    pub stored: Option<Option<String>>,
}

/// What to find out or to do next about an event that was fetched.
pub enum FetchedStep {
    /// One of the common checks.
    Check(IntakeStep),
    /// Look the room up.
    LookupRoom { room_id: String },
    /// Look up whether an event is on record as rejected.
    IsRejected { event_id: String },
    /// Look an auth event up.
    LoadAuthEvent { event_id: String },
    /// Fetch the auth chain of an auth event.
    FetchAuthChain { server: String, room_id: String, event_id: String },
    /// Apply the rules to the event over its auth events.
    CheckAuthEvents { room: u64 },
    /// Store the event.
    Store { room: u64, kind: PersistKind },
    /// The event is stored.
    Done,
    /// The event is dropped; with `record` it goes on the record of rejected
    /// events under its id.
    Dropped { reason: String, record: Option<String> },
}

pub enum FetchedView {
    Check(IntakeView),
    LookupRoom { room_id: Seq<char> },
    IsRejected { event_id: Seq<char> },
    LoadAuthEvent { event_id: Seq<char> },
    FetchAuthChain { server: Seq<char>, room_id: Seq<char>, event_id: Seq<char> },
    CheckAuthEvents { room: u64 },
    Store { room: u64, kind: PersistKind },
    Done,
    Dropped { reason: Seq<char>, record: Option<Seq<char>> },
}

impl FetchedStep {
    pub open spec fn view(&self) -> FetchedView {
        match self {
            FetchedStep::Check(s) => FetchedView::Check(s@),
            FetchedStep::LookupRoom { room_id } => FetchedView::LookupRoom { room_id: room_id@ },
            FetchedStep::IsRejected { event_id } => FetchedView::IsRejected { event_id: event_id@ },
            FetchedStep::LoadAuthEvent { event_id } => FetchedView::LoadAuthEvent {
                event_id: event_id@,
            },
            FetchedStep::FetchAuthChain { server, room_id, event_id } =>
                FetchedView::FetchAuthChain {
                server: server@,
                room_id: room_id@,
                event_id: event_id@,
            },
            FetchedStep::CheckAuthEvents { room } => FetchedView::CheckAuthEvents { room: *room },
            FetchedStep::Store { room, kind } => FetchedView::Store { room: *room, kind: *kind },
            FetchedStep::Done => FetchedView::Done,
            FetchedStep::Dropped { reason, record } => FetchedView::Dropped {
                reason: reason@,
                record: match record {
                    Some(id) => Some(id@),
                    None => None,
                },
            },
        }
    }
}

/// The words for a fault of a fetched event.
pub open spec fn fetched_fault(f: FaultView) -> Seq<char> {
    match f {
        FaultView::NotObject => "fetched event is not an object"@,
        FaultView::StoreFailed { reason } => "db: "@ + reason,
        FaultView::Malformed => "fetched event malformed"@,
        FaultView::BadSender => "fetched event has malformed sender"@,
        FaultView::NoKeys { server, reason } => "cannot fetch keys for "@ + server + ": "@ + reason,
        FaultView::Unsigned { server } => "no signatures from "@ + server,
        FaultView::Unverified { event_id } => "signature verification failed for "@ + event_id,
        FaultView::MalformedAfterHash => "fetched event malformed after hash check"@,
    }
}

fn fetched_fault_text(f: &IntakeFault) -> (r: String)
    ensures
        r@ == fetched_fault(f@),
{
    match f {
        IntakeFault::NotObject => "fetched event is not an object".to_owned(),
        IntakeFault::StoreFailed { reason } => cat("db: ", reason.as_str()),
        IntakeFault::Malformed => "fetched event malformed".to_owned(),
        IntakeFault::BadSender => "fetched event has malformed sender".to_owned(),
        IntakeFault::NoKeys { server, reason } => cat4(
            "cannot fetch keys for ",
            server.as_str(),
            ": ",
            reason.as_str(),
        ),
        IntakeFault::Unsigned { server } => cat("no signatures from ", server.as_str()),
        IntakeFault::Unverified { event_id } => cat(
            "signature verification failed for ",
            event_id.as_str(),
        ),
        IntakeFault::MalformedAfterHash => "fetched event malformed after hash check".to_owned(),
    }
}

pub open spec fn dropped(reason: Seq<char>) -> FetchedView {
    FetchedView::Dropped { reason, record: None }
}

pub open spec fn dropped_for_good(reason: Seq<char>, pdu: PduView) -> FetchedView {
    FetchedView::Dropped { reason, record: Some(pdu.event_id) }
}

pub open spec fn rejected_auth(auth: Seq<char>) -> Seq<char> {
    "auth_event "@ + auth + " is rejected"@
}

/// The sweep over the auth events from `k` on: none may be on record as
/// rejected.
pub open spec fn fetched_cascade(f: FetchedFacts, pdu: PduView, k: int) -> Option<FetchedView>
    decreases pdu.auth_events.len() - k,
{
    if k >= pdu.auth_events.len() {
        None
    } else if k >= f.auth_rejected@.len() {
        Some(FetchedView::IsRejected { event_id: pdu.auth_events[k] })
    } else if f.auth_rejected@[k] {
        Some(dropped_for_good(rejected_auth(pdu.auth_events[k]), pdu))
    } else {
        fetched_cascade(f, pdu, k + 1)
    }
}

/// What has to be done to have one auth event at hand. An auth event that stays
/// missing without being rejected may still arrive, so its absence is not held
/// against the event for good.
pub open spec fn auth_search(
    s: AuthSearch,
    pdu: PduView,
    origin: Seq<char>,
    auth: Seq<char>,
) -> Option<FetchedView> {
    if s.found {
        None
    } else {
        match s.fetched {
            None => Some(
                FetchedView::FetchAuthChain {
                    server: origin,
                    room_id: pdu.room_id,
                    event_id: auth,
                },
            ),
            Some(Some(e)) => Some(
                dropped_for_good("recursive fetch of auth "@ + auth + " failed: "@ + e@, pdu),
            ),
            Some(None) => match s.found_after {
                None => Some(FetchedView::LoadAuthEvent { event_id: auth }),
                Some(true) => None,
                Some(false) => match s.rejected {
                    None => Some(FetchedView::IsRejected { event_id: auth }),
                    Some(true) => Some(dropped_for_good(rejected_auth(auth), pdu)),
                    Some(false) => Some(
                        dropped("auth event "@ + auth + " still missing after recursive fetch"@),
                    ),
                },
            },
        }
    }
}

/// The sweep over the auth events from `k` on: all must be at hand.
pub open spec fn auth_searches(f: FetchedFacts, pdu: PduView, k: int) -> Option<FetchedView>
    decreases pdu.auth_events.len() - k,
{
    if k >= pdu.auth_events.len() {
        None
    } else if k >= f.auth_searches@.len() {
        Some(FetchedView::LoadAuthEvent { event_id: pdu.auth_events[k] })
    } else {
        match auth_search(f.auth_searches@[k], pdu, f.origin@, pdu.auth_events[k]) {
            Some(s) => Some(s),
            None => auth_searches(f, pdu, k + 1),
        }
    }
}

/// Whether a refusal may be due to state that has not arrived yet.
pub open spec fn is_transient_refusal(reason: Seq<char>) -> bool {
    holds(reason, "no m.room.create in state"@)
}

/// The last checks of a fetched event, and its storing.
pub open spec fn fetched_rest(f: FetchedFacts, pdu: PduView) -> FetchedView {
    match f.room {
        None => FetchedView::LookupRoom { room_id: pdu.room_id },
        Some(Err(e)) => dropped("db: "@ + e@),
        Some(Ok(None)) => dropped("fetched event references unknown room "@ + pdu.room_id),
        Some(Ok(Some(room))) => match fetched_cascade(f, pdu, 0) {
            Some(s) => s,
            None => match auth_searches(f, pdu, 0) {
                Some(s) => s,
                None => match f.auth_refusal {
                    None => FetchedView::CheckAuthEvents { room },
                    Some(Some(reason)) => {
                        let text = "fetched event "@ + pdu.event_id + " failed check 4: "@
                            + reason@;
                        if is_transient_refusal(reason@) {
                            dropped(text)
                        } else {
                            dropped_for_good(text, pdu)
                        }
                    },
                    Some(None) => match f.stored {
                        None => FetchedView::Store { room, kind: stored_as(f.kind) },
                        Some(Some(e)) => dropped(e@),
                        Some(None) => FetchedView::Done,
                    },
                },
            },
        },
    }
}

/// What comes next for a fetched event: the common checks, then that its room is
/// known, its auth events are at hand and not rejected, and the rules allow it
/// over them.
pub open spec fn fetched_next(f: FetchedFacts) -> FetchedView {
    match intake(f.intake) {
        IntakeView::Known => FetchedView::Done,
        IntakeView::Fault(fault) => dropped(fetched_fault(fault)),
        IntakeView::Passed => match f.intake.effective {
            Some(Some(pdu)) => fetched_rest(f, pdu@),
            _ => FetchedView::Done,
        },
        step => FetchedView::Check(step),
    }
}

fn drop_event(reason: String, record: Option<&Pdu>) -> (r: FetchedStep)
    ensures
        r@ == (FetchedView::Dropped {
            reason: reason@,
            record: match record {
                Some(p) => Some(p@.event_id),
                None => None,
            },
        }),
{
    FetchedStep::Dropped {
        reason,
        record: match record {
            Some(p) => Some(p.event_id.clone()),
            None => None,
        },
    }
}

pub open spec fn opt_fetched(s: Option<FetchedStep>) -> Option<FetchedView> {
    match s {
        Some(s) => Some(s@),
        None => None,
    }
}

fn sweep_rejected(f: &FetchedFacts, pdu: &Pdu) -> (r: Option<FetchedStep>)
    ensures
        opt_fetched(r) == fetched_cascade(*f, pdu@, 0),
{
    let n: usize = pdu.auth_events.len();
    let mut k: usize = 0;
    while k < n
        invariant
            k <= n,
            n == pdu.auth_events.len(),
            fetched_cascade(*f, pdu@, 0) == fetched_cascade(*f, pdu@, k as int),
        decreases n - k,
    {
        let id = &pdu.auth_events[k];
        proof {
            assert(pdu@.auth_events[k as int] == id@);
        }
        if k >= f.auth_rejected.len() {
            return Some(FetchedStep::IsRejected { event_id: id.clone() });
        }
        if f.auth_rejected[k] {
            return Some(
                drop_event(cat3("auth_event ", id.as_str(), " is rejected"), Some(pdu)),
            );
        }
        k += 1;
    }
    None
}

fn search_auth(s: &AuthSearch, pdu: &Pdu, origin: &str, auth: &str) -> (r: Option<FetchedStep>)
    ensures
        opt_fetched(r) == auth_search(*s, pdu@, origin@, auth@),
{
    if s.found {
        return None;
    }
    match &s.fetched {
        None => Some(
            FetchedStep::FetchAuthChain {
                server: origin.to_owned(),
                room_id: pdu.room_id.clone(),
                event_id: auth.to_owned(),
            },
        ),
        Some(Some(e)) => Some(
            drop_event(
                cat4("recursive fetch of auth ", auth, " failed: ", e.as_str()),
                Some(pdu),
            ),
        ),
        Some(None) => match s.found_after {
            None => Some(FetchedStep::LoadAuthEvent { event_id: auth.to_owned() }),
            Some(true) => None,
            Some(false) => match s.rejected {
                None => Some(FetchedStep::IsRejected { event_id: auth.to_owned() }),
                Some(true) => Some(
                    drop_event(cat3("auth_event ", auth, " is rejected"), Some(pdu)),
                ),
                Some(false) => Some(
                    drop_event(
                        cat3("auth event ", auth, " still missing after recursive fetch"),
                        None,
                    ),
                ),
            },
        },
    }
}

fn search_auths(f: &FetchedFacts, pdu: &Pdu) -> (r: Option<FetchedStep>)
    ensures
        opt_fetched(r) == auth_searches(*f, pdu@, 0),
{
    let n: usize = pdu.auth_events.len();
    let mut k: usize = 0;
    while k < n
        invariant
            k <= n,
            n == pdu.auth_events.len(),
            auth_searches(*f, pdu@, 0) == auth_searches(*f, pdu@, k as int),
        decreases n - k,
    {
        let id = &pdu.auth_events[k];
        proof {
            assert(pdu@.auth_events[k as int] == id@);
        }
        if k >= f.auth_searches.len() {
            return Some(FetchedStep::LoadAuthEvent { event_id: id.clone() });
        }
        match search_auth(&f.auth_searches[k], pdu, f.origin.as_str(), id.as_str()) {
            Some(s) => {
                return Some(s);
            },
            None => {},
        }
        k += 1;
    }
    None
}

/// How events of a kind are stored.
pub fn persist_kind(kind: FetchKind) -> (r: PersistKind)
    ensures
        r == stored_as(kind),
{
    match kind {
        FetchKind::AuthChain => PersistKind::Outlier,
        FetchKind::MissingTimeline => PersistKind::Live,
        FetchKind::Backfill => PersistKind::BackfillTimeline,
    }
}

/// Names what to find out or to do next about an event that was fetched, or
/// what became of it.
pub fn persist_fetched_event(f: &FetchedFacts) -> (r: FetchedStep)
    ensures
        r@ == fetched_next(*f),
{
    match next_intake(&f.intake) {
        IntakeStep::Known => {
            return FetchedStep::Done;
        },
        IntakeStep::Fault(fault) => {
            return drop_event(fetched_fault_text(&fault), None);
        },
        IntakeStep::Passed => {},
        step => {
            return FetchedStep::Check(step);
        },
    }
    let pdu = match &f.intake.effective {
        Some(Some(p)) => p,
        _ => {
            return FetchedStep::Done;
        },
    };
    let room = match &f.room {
        None => {
            return FetchedStep::LookupRoom { room_id: pdu.room_id.clone() };
        },
        Some(Err(e)) => {
            return drop_event(cat("db: ", e.as_str()), None);
        },
        Some(Ok(None)) => {
            return drop_event(
                cat("fetched event references unknown room ", pdu.room_id.as_str()),
                None,
            );
        },
        Some(Ok(Some(n))) => *n,
    };
    match sweep_rejected(f, pdu) {
        Some(s) => {
            return s;
        },
        None => {},
    }
    match search_auths(f, pdu) {
        Some(s) => {
            return s;
        },
        None => {},
    }
    match &f.auth_refusal {
        None => FetchedStep::CheckAuthEvents { room },
        Some(Some(reason)) => {
            let text = cat4(
                "fetched event ",
                pdu.event_id.as_str(),
                " failed check 4: ",
                reason.as_str(),
            );
            if contains(reason.as_str(), "no m.room.create in state") {
                drop_event(text, None)
            } else {
                drop_event(text, Some(pdu))
            }
        },
        Some(None) => match &f.stored {
            None => FetchedStep::Store { room, kind: persist_kind(f.kind) },
            Some(Some(e)) => drop_event(e.clone(), None),
            Some(None) => FetchedStep::Done,
        },
    }
}

proof fn lemma_cascade_kind(f: FetchedFacts, pdu: PduView, k: int)
    requires
        0 <= k,
    ensures
        match fetched_cascade(f, pdu, k) {
            None => {
                &&& k < pdu.auth_events.len() ==> pdu.auth_events.len() <= f.auth_rejected@.len()
                &&& forall|j: int|
                    k <= j < pdu.auth_events.len() ==> !#[trigger] f.auth_rejected@[j]
            },
            Some(s) => {
                ||| s is IsRejected
                ||| s matches FetchedView::Dropped { record, .. } && record == Some(pdu.event_id)
            },
        },
    decreases pdu.auth_events.len() - k,
{
    if k < pdu.auth_events.len() {
        lemma_cascade_kind(f, pdu, k + 1);
    }
}

proof fn lemma_searches_kind(f: FetchedFacts, pdu: PduView, k: int)
    requires
        0 <= k,
    ensures
        match auth_searches(f, pdu, k) {
            None => true,
            Some(s) => {
                ||| s is IsRejected
                ||| s is LoadAuthEvent
                ||| s is FetchAuthChain
                ||| s matches FetchedView::Dropped { record, .. } && (record is None || record
                    == Some(pdu.event_id))
            },
        },
    decreases pdu.auth_events.len() - k,
{
    if k < pdu.auth_events.len() {
        lemma_searches_kind(f, pdu, k + 1);
    }
}

/// A fetched event is stored only if it passed the common checks, its room is
/// known, none of its auth events was rejected, and the rules allow it over
/// them. An event is put on the record of rejected ones only after its signature
/// verified, and only under its own id.
pub proof fn law_fetched_events(f: FetchedFacts)
    ensures
        fetched_next(f) is Store ==> {
            &&& intake(f.intake) is Passed
            &&& f.intake.effective matches Some(Some(pdu)) && {
                &&& pdu@.auth_events.len() <= f.auth_rejected@.len()
                &&& forall|j: int|
                    0 <= j < pdu@.auth_events.len() ==> !#[trigger] f.auth_rejected@[j]
            }
            &&& f.auth_refusal == Some(None::<String>)
            &&& f.room matches Some(Ok(Some(_)))
        },
        fetched_next(f) matches FetchedView::Dropped { record: Some(id), .. } ==> {
            &&& intake(f.intake) is Passed
            &&& f.intake.effective matches Some(Some(pdu)) && pdu@.event_id == id
        },
{
    match f.intake.effective {
        Some(Some(pdu)) => {
            lemma_cascade_kind(f, pdu@, 0);
            lemma_searches_kind(f, pdu@, 0);
        },
        _ => {},
    }
}

/// A refusal that may be due to state that has not arrived yet leaves no mark.
pub proof fn law_transient_refusals(f: FetchedFacts, pdu: PduView, reason: Seq<char>)
    requires
        f.room matches Some(Ok(Some(_))),
        fetched_cascade(f, pdu, 0) is None,
        auth_searches(f, pdu, 0) is None,
        f.auth_refusal matches Some(Some(r)) && r@ == reason,
    ensures
        fetched_rest(f, pdu) matches FetchedView::Dropped { record, .. } && (record is None
            <==> is_transient_refusal(reason)),
{
}

/// What is known so far about an event that is stored as it is, for what it
/// says of a room's state.
pub struct RemoteFacts {
    pub intake: Intake,
    /// How it is to be stored.
    pub kind: PersistKind,
    /// The result of storing the event: its number, or what failed.
    pub stored: Option<Result<u64, String>>,
}

/// What to find out or to do next about such an event.
pub enum RemoteStep {
    /// One of the common checks.
    Check(IntakeStep),
    /// Store the event in this way.
    Store { kind: PersistKind },
    /// The event is stored: under this number, or, for `None`, since before.
    Done(Option<u64>),
    /// The event is dropped.
    Dropped { reason: String },
}

pub enum RemoteView {
    Check(IntakeView),
    Store { kind: PersistKind },
    Done(Option<u64>),
    Dropped { reason: Seq<char> },
}

impl RemoteStep {
    pub open spec fn view(&self) -> RemoteView {
        match self {
            RemoteStep::Check(s) => RemoteView::Check(s@),
            RemoteStep::Store { kind } => RemoteView::Store { kind: *kind },
            RemoteStep::Done(n) => RemoteView::Done(*n),
            RemoteStep::Dropped { reason } => RemoteView::Dropped { reason: reason@ },
        }
    }
}

/// What comes next for an event that is stored for what it says of a room's
/// state: the common checks, then its storing. The rules are not applied to it,
/// and its auth events are not looked for.
pub open spec fn remote_next(f: RemoteFacts) -> RemoteView {
    match intake(f.intake) {
        IntakeView::Known => RemoteView::Done(None),
        IntakeView::Fault(fault) => RemoteView::Dropped { reason: fetched_fault(fault) },
        IntakeView::Passed => match f.stored {
            None => RemoteView::Store { kind: f.kind },
            Some(Err(e)) => RemoteView::Dropped { reason: e@ },
            Some(Ok(n)) => RemoteView::Done(Some(n)),
        },
        step => RemoteView::Check(step),
    }
}

/// Names what to find out or to do next about an event that is stored for what
/// it says of a room's state, or what became of it.
pub fn persist_remote_event(f: &RemoteFacts) -> (r: RemoteStep)
    ensures
        r@ == remote_next(*f),
{
    match next_intake(&f.intake) {
        IntakeStep::Known => RemoteStep::Done(None),
        IntakeStep::Fault(fault) => RemoteStep::Dropped { reason: fetched_fault_text(&fault) },
        IntakeStep::Passed => match &f.stored {
            None => RemoteStep::Store { kind: f.kind },
            Some(Err(e)) => RemoteStep::Dropped { reason: e.clone() },
            Some(Ok(n)) => RemoteStep::Done(Some(*n)),
        },
        step => RemoteStep::Check(step),
    }
}

/// A fetched event passes the common checks exactly if it is an object with the
/// fields of an event, not stored yet, from a user of some server whose signature
/// on it verified, and readable in the form in which it counts.
pub proof fn law_intake(f: Intake)
    ensures
        intake(f) is Passed <==> {
            &&& f.json@ is Object
            &&& f.known == Some(Ok::<bool, String>(false))
            &&& (f.identity matches Some((_, Some(pdu))) && (server_part(pdu@.sender) matches Some(
                domain,
            ) && (f.sender_keys matches Some(Ok(keys)) && signature_search(
                f.json@,
                domain,
                keys,
                f.sig_checks@,
            ) is Verified)))
            &&& f.content_hash is Some
            &&& f.effective matches Some(Some(_))
        },
        intake(f) is Known <==> f.json@ is Object && f.identity is Some && f.known == Some(
            Ok::<bool, String>(true),
        ),
        match intake(f) {
            IntakeView::LookupEvent { event_id } => f.identity matches Some((id, _)) && id@
                == event_id,
            IntakeView::FetchKeys { server } => f.identity matches Some((_, Some(pdu)))
                && server_part(pdu@.sender) == Some(server) && f.known == Some(
                Ok::<bool, String>(false),
            ),
            IntakeView::VerifySignature { server, key_id, key } => {
                &&& f.identity matches Some((_, Some(pdu))) && server_part(pdu@.sender) == Some(
                    server,
                )
                &&& f.sender_keys matches Some(Ok(keys)) && keys.event_key(key_id) == Some(key)
                &&& f.json@.get("signatures"@) matches Some(all) && (all.get(server) matches Some(
                    of_server,
                ) && of_server.get(key_id) is Some)
            },
            IntakeView::ReadEffective { redacted } => f.content_hash is Some && (redacted <==> !(
            f.json@.get("hashes"@) matches Some(h) && h.get("sha256"@) == Some(
                JsonView::Str(f.content_hash->0@),
            ))),
            _ => true,
        },
{
    if let Some((_, Some(pdu))) = f.identity {
        if let Some(Ok(keys)) = f.sender_keys {
            law_signatures_to_check(f.json@, server_part(pdu@.sender)->0, keys, f.sig_checks@);
        }
    }
}

/// Whether an auth event of a fetched event was stored, at the first look or after
/// its own auth chain was fetched.
pub open spec fn is_found(s: AuthSearch) -> bool {
    s.found || (s.fetched == Some(None::<String>) && s.found_after == Some(true))
}

proof fn lemma_fetched_sweeps(f: FetchedFacts, pdu: PduView, k: int)
    requires
        0 <= k,
    ensures
        fetched_cascade(f, pdu, k) is None <==> (k >= pdu.auth_events.len()
            || pdu.auth_events.len() <= f.auth_rejected@.len()) && (forall|j: int|
            k <= j < pdu.auth_events.len() ==> !#[trigger] f.auth_rejected@[j]),
        auth_searches(f, pdu, k) is None <==> (k >= pdu.auth_events.len() || pdu.auth_events.len()
            <= f.auth_searches@.len()) && (forall|j: int|
            k <= j < pdu.auth_events.len() ==> is_found(#[trigger] f.auth_searches@[j])),
        match fetched_cascade(f, pdu, k) {
            Some(FetchedView::IsRejected { event_id }) => pdu.auth_events.contains(event_id),
            _ => true,
        },
        match auth_searches(f, pdu, k) {
            Some(FetchedView::IsRejected { event_id }) => pdu.auth_events.contains(event_id),
            Some(FetchedView::LoadAuthEvent { event_id }) => pdu.auth_events.contains(event_id),
            Some(FetchedView::FetchAuthChain { server, room_id, event_id }) => server == f.origin@
                && room_id == pdu.room_id && pdu.auth_events.contains(event_id),
            _ => true,
        },
    decreases pdu.auth_events.len() - k,
{
    if k < pdu.auth_events.len() {
        assert(pdu.auth_events.contains(pdu.auth_events[k]));
        lemma_fetched_sweeps(f, pdu, k + 1);
        if fetched_cascade(f, pdu, k) is None {
            assert(!f.auth_rejected@[k]);
        } else if k < f.auth_rejected@.len() && !f.auth_rejected@[k] {
            assert(fetched_cascade(f, pdu, k + 1) is Some);
        } else if k < f.auth_rejected@.len() {
            assert(f.auth_rejected@[k]);
        }
        if auth_searches(f, pdu, k) is None {
            assert(is_found(f.auth_searches@[k]));
        } else if k < f.auth_searches@.len() {
            if is_found(f.auth_searches@[k]) {
                assert(auth_searches(f, pdu, k + 1) is Some);
            }
        }
    }
}

/// A fetched event is stored exactly if it passed the common checks, its room is
/// known, none of its auth events was rejected and all of them were found, the
/// rules allow it, and it was not stored yet. It is stored as its kind calls for:
/// what fills a gap as the room's newest, an auth chain off the timeline, and the
/// past as past.
pub proof fn law_fetched_events_are_stored(f: FetchedFacts)
    ensures
        fetched_next(f) is Store <==> {
            &&& intake(f.intake) is Passed
            &&& f.room matches Some(Ok(Some(_)))
            &&& (f.intake.effective matches Some(Some(pdu)) && {
                &&& pdu@.auth_events.len() <= f.auth_rejected@.len()
                &&& pdu@.auth_events.len() <= f.auth_searches@.len()
                &&& forall|j: int|
                    0 <= j < pdu@.auth_events.len() ==> !#[trigger] f.auth_rejected@[j]
                &&& forall|j: int|
                    0 <= j < pdu@.auth_events.len() ==> is_found(#[trigger] f.auth_searches@[j])
            })
            &&& f.auth_refusal == Some(None::<String>)
            &&& f.stored is None
        },
        match fetched_next(f) {
            FetchedView::LookupRoom { room_id } => room_id == f.intake.effective->0->0@.room_id,
            FetchedView::IsRejected { event_id } =>
                f.intake.effective->0->0@.auth_events.contains(event_id),
            FetchedView::LoadAuthEvent { event_id } =>
                f.intake.effective->0->0@.auth_events.contains(event_id),
            FetchedView::FetchAuthChain { server, room_id, event_id } => {
                &&& server == f.origin@
                &&& room_id == f.intake.effective->0->0@.room_id
                &&& f.intake.effective->0->0@.auth_events.contains(event_id)
            },
            FetchedView::CheckAuthEvents { room } => f.room == Some(
                Ok::<Option<u64>, String>(Some(room)),
            ),
            FetchedView::Store { room, kind } => f.room == Some(
                Ok::<Option<u64>, String>(Some(room)),
            ) && (f.kind is AuthChain <==> kind is Outlier) && (f.kind is MissingTimeline <==> kind
                is Live) && (f.kind is Backfill <==> kind is BackfillTimeline),
            FetchedView::Done => intake(f.intake) is Known || f.stored == Some(None::<String>),
            _ => true,
        },
{
    law_intake(f.intake);
    match f.intake.effective {
        Some(Some(pdu)) => {
            lemma_cascade_kind(f, pdu@, 0);
            lemma_searches_kind(f, pdu@, 0);
            lemma_fetched_sweeps(f, pdu@, 0);
        },
        _ => {},
    }
}

/// An auth event of a fetched event that is not at hand is fetched before the event
/// is given up; while it may still arrive the event leaves no mark.
pub proof fn law_missing_auth_is_fetched(f: FetchedFacts, k: int)
    requires
        intake(f.intake) is Passed,
        f.room matches Some(Ok(Some(_))),
        fetched_cascade(f, f.intake.effective->0->0@, 0) is None,
        0 <= k < f.intake.effective->0->0@.auth_events.len(),
        k < f.auth_searches@.len(),
        forall|j: int| 0 <= j < k ==> is_found(#[trigger] f.auth_searches@[j]),
        !f.auth_searches@[k].found,
    ensures
        ({
            let pdu = f.intake.effective->0->0@;
            let s = f.auth_searches@[k];
            let next = fetched_next(f);
            &&& s.fetched is None ==> next == (FetchedView::FetchAuthChain {
                server: f.origin@,
                room_id: pdu.room_id,
                event_id: pdu.auth_events[k],
            })
            &&& s.fetched == Some(None::<String>) && s.found_after is None ==> next == (
            FetchedView::LoadAuthEvent { event_id: pdu.auth_events[k] })
            &&& s.fetched == Some(None::<String>) && s.found_after == Some(false) && s.rejected
                is None ==> next == (FetchedView::IsRejected { event_id: pdu.auth_events[k] })
            &&& s.fetched == Some(None::<String>) && s.found_after == Some(false) && s.rejected
                == Some(false) ==> (next matches FetchedView::Dropped { record, .. } && record
                is None)
            &&& s.fetched == Some(None::<String>) && s.found_after == Some(false) && s.rejected
                == Some(true) ==> (next matches FetchedView::Dropped { record, .. } && record
                == Some(pdu.event_id))
        }),
{
    law_intake(f.intake);
    lemma_search_from(f, f.intake.effective->0->0@, 0, k);
}

proof fn lemma_search_from(f: FetchedFacts, pdu: PduView, from: int, k: int)
    requires
        0 <= from <= k < pdu.auth_events.len(),
        k < f.auth_searches@.len(),
        forall|j: int| 0 <= j < k ==> is_found(#[trigger] f.auth_searches@[j]),
    ensures
        auth_searches(f, pdu, from) == auth_searches(f, pdu, k),
    decreases k - from,
{
    if from < k {
        assert(is_found(f.auth_searches@[from]));
        lemma_search_from(f, pdu, from + 1, k);
    }
}

/// An event that is taken for what it says of a room's state is stored exactly if
/// it passed the common checks and was not stored yet, in the way that was asked
/// for.
pub proof fn law_remote_events(f: RemoteFacts)
    ensures
        remote_next(f) is Store <==> intake(f.intake) is Passed && f.stored is None,
        remote_next(f) matches RemoteView::Store { kind } ==> kind == f.kind,
        remote_next(f) matches RemoteView::Done(Some(n)) ==> f.stored == Some(
            Ok::<u64, String>(n),
        ) && intake(f.intake) is Passed,
        remote_next(f) == RemoteView::Done(None) <==> intake(f.intake) is Known,
        intake(f.intake) is Fault ==> remote_next(f) is Dropped,
{
}

} // verus!
