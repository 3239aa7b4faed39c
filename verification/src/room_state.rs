//! Room state: the state before an event, and the small repairs that make it
//! usable for authorisation.

use vstd::prelude::*;
use vstd::string::*;

use crate::gaps::list_strings;
use crate::gaps::strings_under;
use crate::intake::FetchKind;
use crate::json::json_of;
use crate::json::opt_json;
use crate::json::Json;
use crate::json::JsonView;
use crate::pdu::Pdu;
use crate::pdu::PduView;
use crate::persist::found_nids;
use crate::persist::known_references;
use crate::persist::law_references;
use crate::table::key_view;
use crate::table::lemma_state_position;
use crate::table::StateKey;
use crate::table::StateTable;
use crate::text::cat;
use crate::text::cat3;
use crate::text::decimal;
use crate::text::lemma_texts_push;
use crate::text::number_text;
use crate::text::opt_string;
use crate::text::starts_with;
use crate::text::str_eq;
use crate::text::texts;

verus! {

/// What the store says of one event of a state snapshot.
pub enum SnapshotRow {
    /// A read failed.
    Failed(String),
    /// The event is not stored.
    Gone { nid: u64 },
    /// The event's type is not on record.
    Untyped { type_nid: u64 },
    /// The event, with its type and state key.
    Entry { event_type: String, state_key: Option<String>, event_id: String },
}

/// The key of a row: a state key that is not on record counts as empty.
pub open spec fn row_key(r: SnapshotRow) -> Option<StateKey> {
    match r {
        SnapshotRow::Entry { event_type, state_key, event_id } => Some(
            (
                event_type@,
                match state_key {
                    Some(k) => k@,
                    None => seq![],
                },
            ),
        ),
        _ => None,
    }
}

pub open spec fn row_event(r: SnapshotRow) -> Seq<char> {
    match r {
        SnapshotRow::Entry { event_type, state_key, event_id } => event_id@,
        _ => seq![],
    }
}

/// The event that a list of rows gives for a key: the last one.
pub open spec fn last_entry(rows: Seq<SnapshotRow>, key: StateKey) -> Option<Seq<char>>
    decreases rows.len(),
{
    if rows.len() == 0 {
        None
    } else if row_key(rows.last()) == Some(key) {
        Some(row_event(rows.last()))
    } else {
        last_entry(rows.drop_last(), key)
    }
}

/// Room state as a map from state keys to event ids.
pub type StateIds = Map<StateKey, Seq<char>>;

/// The state that a list of rows spells.
pub open spec fn rows_state(rows: Seq<SnapshotRow>) -> StateIds {
    Map::new(|k: StateKey| last_entry(rows, k) is Some, |k: StateKey| last_entry(rows, k)->0)
}

/// The state that a table holds.
pub open spec fn table_state(t: StateTable<String>) -> StateIds {
    Map::new(|k: StateKey| t.has(k), |k: StateKey| t.find(k)->0@)
}

/// How a reader of snapshots takes rows that are no entries.
#[derive(Clone, Copy, PartialEq, Eq, Structural, Debug)]
pub enum Strictness {
    /// A missing event is a fault of the store.
    Corruption,
    /// A missing event is reported.
    Missing,
    /// A missing event is left out; a failed read is reported.
    Lenient,
    /// Everything that is no entry is left out.
    BestEffort,
}

/// What is wrong with a row, if anything.
pub open spec fn row_fault(r: SnapshotRow, how: Strictness) -> Option<Seq<char>> {
    match r {
        SnapshotRow::Entry { event_type, state_key, event_id } => None,
        SnapshotRow::Failed(e) => if how == Strictness::BestEffort {
            None
        } else {
            Some("db: "@ + e@)
        },
        SnapshotRow::Gone { nid } => match how {
            Strictness::Corruption => Some(
                "state snapshot references unknown event_nid "@ + decimal(nid as nat)
                    + " (DB corruption)"@,
            ),
            Strictness::Missing => Some(
                "state snapshot references missing event_nid "@ + decimal(nid as nat),
            ),
            _ => None,
        },
        SnapshotRow::Untyped { type_nid } => match how {
            Strictness::Corruption | Strictness::Missing => Some(
                "unknown type_nid "@ + decimal(type_nid as nat),
            ),
            _ => None,
        },
    }
}

/// What is wrong with the first row that has a fault.
pub open spec fn rows_fault(rows: Seq<SnapshotRow>, how: Strictness) -> Option<Seq<char>>
    decreases rows.len(),
{
    if rows.len() == 0 {
        None
    } else {
        match rows_fault(rows.drop_last(), how) {
            Some(e) => Some(e),
            None => row_fault(rows.last(), how),
        }
    }
}

fn fault_of(r: &SnapshotRow, how: Strictness) -> (f: Option<String>)
    ensures
        opt_string(f) == row_fault(*r, how),
{
    match r {
        SnapshotRow::Entry { .. } => None,
        SnapshotRow::Failed(e) => match how {
            Strictness::BestEffort => None,
            _ => Some(cat("db: ", e.as_str())),
        },
        SnapshotRow::Gone { nid } => {
            let n = number_text(*nid);
            match how {
                Strictness::Corruption => Some(
                    cat3(
                        "state snapshot references unknown event_nid ",
                        n.as_str(),
                        " (DB corruption)",
                    ),
                ),
                Strictness::Missing => Some(
                    cat("state snapshot references missing event_nid ", n.as_str()),
                ),
                _ => None,
            }
        },
        SnapshotRow::Untyped { type_nid } => {
            let n = number_text(*type_nid);
            match how {
                Strictness::Corruption | Strictness::Missing => Some(
                    cat("unknown type_nid ", n.as_str()),
                ),
                _ => None,
            }
        },
    }
}

proof fn lemma_rows_fault(rows: Seq<SnapshotRow>, k: int, how: Strictness)
    requires
        0 <= k <= rows.len(),
        rows_fault(rows.take(k), how) is Some,
    ensures
        rows_fault(rows, how) == rows_fault(rows.take(k), how),
    decreases rows.len() - k,
{
    if k == rows.len() {
        assert(rows.take(k) =~= rows);
    } else {
        assert(rows.take(k + 1).drop_last() =~= rows.take(k));
        lemma_rows_fault(rows, k + 1, how);
    }
}

/// Reads the state that the rows of a snapshot spell.
pub fn snapshot_state(rows: &Vec<SnapshotRow>, how: Strictness) -> (r: Result<
    StateTable<String>,
    String,
>)
    ensures
        match r {
            Ok(t) => {
                &&& rows_fault(rows@, how) is None
                &&& t.wf()
                &&& table_state(t) == rows_state(rows@)
                &&& (t.entries@.len() == 0) == (rows_state(rows@) == Map::<StateKey, Seq<char>>::empty())
            },
            Err(e) => rows_fault(rows@, how) == Some(e@),
        },
{
    let mut t: StateTable<String> = StateTable::new();
    let mut i: usize = 0;
    while i < rows.len()
        invariant
            i <= rows.len(),
            t.wf(),
            rows_fault(rows@.take(i as int), how) is None,
            forall|k: StateKey|
                #![trigger t.find(k)]
                opt_string(t.find(k)) == last_entry(rows@.take(i as int), k),
        decreases rows.len() - i,
    {
        let ghost before = rows@.take(i as int);
        proof {
            assert(rows@.take(i + 1).drop_last() =~= before);
            assert(rows@.take(i + 1).last() == rows@[i as int]);
        }
        match fault_of(&rows[i], how) {
            Some(e) => {
                proof {
                    lemma_rows_fault(rows@, i + 1, how);
                }
                return Err(e);
            },
            None => {},
        }
        match &rows[i] {
            SnapshotRow::Entry { event_type, state_key, event_id } => {
                let key = match state_key {
                    Some(k) => k.clone(),
                    None => String::new(),
                };
                t.insert(event_type.as_str(), key.as_str(), event_id.clone());
            },
            _ => {},
        }
        i += 1;
    }
    proof {
        assert(rows@.take(i as int) =~= rows@);
        assert forall|k: StateKey| t.has(k) == (last_entry(rows@, k) is Some) by {
            assert(opt_string(t.find(k)) == last_entry(rows@, k));
        }
        assert(table_state(t) =~= rows_state(rows@)) by {
            assert forall|k: StateKey| #[trigger] table_state(t).dom().contains(k) implies table_state(
                t,
            )[k] == rows_state(rows@)[k] by {
                assert(opt_string(t.find(k)) == last_entry(rows@, k));
            }
        }
        if t.entries@.len() == 0 {
            assert(rows_state(rows@) =~= Map::<StateKey, Seq<char>>::empty());
        } else {
            let k = key_view(t.entries@[0].0);
            lemma_state_position(t.entries@, k, 0);
            assert(t.has(k));
            assert(rows_state(rows@).dom().contains(k));
        }
    }
    Ok(t)
}

/// What is known of one predecessor of an event.
pub enum PrevAnswer {
    /// A read failed.
    Failed(String),
    /// It is stored, with the state after it.
    Stored(Vec<SnapshotRow>),
    /// It is on record as rejected.
    Rejected,
    /// It was fetched just now, with the state after it.
    Fetched(Vec<SnapshotRow>),
    /// It could not be had.
    Missing,
}

/// What is known so far of one predecessor of an event.
pub struct PrevFacts {
    pub event_id: String,
    /// The number under which it is stored, if it is, or what failed.
    pub stored: Option<Result<Option<u64>, String>>,
    /// Whether it is on record as rejected.
    pub rejected: Option<bool>,
    /// The event as the sending server has it; `None` if it could not be had.
    pub fetched: Option<Option<Json>>,
    /// Whether the fetched event could be taken in.
    pub taken: Option<bool>,
    /// The number under which it is stored after that, if it is, or what failed.
    pub stored_now: Option<Result<Option<u64>, String>>,
    /// The state after it, if there is a record of it, or what failed.
    pub snapshot: Option<Result<Option<Vec<SnapshotRow>>, String>>,
}

/// What to find out or to do next about a predecessor of an event.
pub enum PrevStep {
    /// Look it up in the store.
    Lookup,
    /// Look it up among the rejected events.
    CheckRejected,
    /// Ask the sending server for it.
    Fetch,
    /// Take the fetched event in, as an event of this kind.
    TakeIn { event: Json, kind: FetchKind },
    /// Look it up in the store again.
    LookupAgain,
    /// Read the state after it.
    LoadSnapshot { event: u64 },
    /// Everything is known.
    Done,
}

pub enum PrevView {
    Lookup,
    CheckRejected,
    Fetch,
    TakeIn { event: JsonView, kind: FetchKind },
    LookupAgain,
    LoadSnapshot { event: u64 },
    Done,
}

impl PrevStep {
    pub open spec fn view(&self) -> PrevView {
        match self {
            PrevStep::Lookup => PrevView::Lookup,
            PrevStep::CheckRejected => PrevView::CheckRejected,
            PrevStep::Fetch => PrevView::Fetch,
            PrevStep::TakeIn { event, kind } => PrevView::TakeIn { event: event@, kind: *kind },
            PrevStep::LookupAgain => PrevView::LookupAgain,
            PrevStep::LoadSnapshot { event } => PrevView::LoadSnapshot { event: *event },
            PrevStep::Done => PrevView::Done,
        }
    }
}

/// What comes next for a predecessor whose place in the store is known.
pub open spec fn snapshot_next(f: PrevFacts, nid: u64) -> PrevView {
    if f.snapshot is None {
        PrevView::LoadSnapshot { event: nid }
    } else {
        PrevView::Done
    }
}

/// What comes next for a predecessor: it is looked up in the store, then among
/// the rejected events, and only then asked for.
pub open spec fn prev_next(f: PrevFacts) -> PrevView {
    match f.stored {
        None => PrevView::Lookup,
        Some(Err(_)) => PrevView::Done,
        Some(Ok(Some(nid))) => snapshot_next(f, nid),
        Some(Ok(None)) => match f.rejected {
            None => PrevView::CheckRejected,
            Some(true) => PrevView::Done,
            Some(false) => match f.fetched {
                None => PrevView::Fetch,
                Some(None) => PrevView::Done,
                Some(Some(event)) => match f.taken {
                    None => PrevView::TakeIn { event: event@, kind: FetchKind::MissingTimeline },
                    Some(false) => PrevView::Done,
                    Some(true) => match f.stored_now {
                        None => PrevView::LookupAgain,
                        Some(Ok(Some(nid))) => snapshot_next(f, nid),
                        Some(_) => PrevView::Done,
                    },
                },
            },
        },
    }
}

/// Whether some rows are those of a snapshot; where there is no record there are
/// none.
pub open spec fn snapshot_rows(snapshot: Option<Vec<SnapshotRow>>, rows: Seq<SnapshotRow>) -> bool {
    match snapshot {
        Some(v) => rows == v@,
        None => rows.len() == 0,
    }
}

/// Whether an answer is the one that the facts about a predecessor give.
pub open spec fn is_prev_answer(f: PrevFacts, a: PrevAnswer) -> bool {
    match f.stored {
        Some(Err(e)) => a == PrevAnswer::Failed(e),
        Some(Ok(Some(_))) => match f.snapshot {
            Some(Err(e)) => a == PrevAnswer::Failed(e),
            Some(Ok(v)) => a matches PrevAnswer::Stored(rows) && snapshot_rows(v, rows@),
            None => false,
        },
        Some(Ok(None)) => if f.rejected == Some(true) {
            a == PrevAnswer::Rejected
        } else if f.taken == Some(true) && f.fetched matches Some(Some(_)) {
            match f.stored_now {
                Some(Err(e)) => a == PrevAnswer::Failed(e),
                Some(Ok(Some(_))) => match f.snapshot {
                    Some(Err(e)) => a == PrevAnswer::Failed(e),
                    Some(Ok(v)) => a matches PrevAnswer::Fetched(rows) && snapshot_rows(v, rows@),
                    None => false,
                },
                _ => a == PrevAnswer::Missing,
            }
        } else {
            a == PrevAnswer::Missing
        },
        None => false,
    }
}

/// Names what to find out or to do next about a predecessor.
pub fn prev_step(f: &PrevFacts) -> (r: PrevStep)
    ensures
        r@ == prev_next(*f),
{
    let nid: u64 = match &f.stored {
        None => {
            return PrevStep::Lookup;
        },
        Some(Err(_)) => {
            return PrevStep::Done;
        },
        Some(Ok(Some(nid))) => *nid,
        Some(Ok(None)) => {
            match f.rejected {
                None => {
                    return PrevStep::CheckRejected;
                },
                Some(true) => {
                    return PrevStep::Done;
                },
                Some(false) => {},
            }
            let event = match &f.fetched {
                None => {
                    return PrevStep::Fetch;
                },
                Some(None) => {
                    return PrevStep::Done;
                },
                Some(Some(event)) => event,
            };
            match f.taken {
                None => {
                    return PrevStep::TakeIn {
                        event: event.copy(),
                        kind: FetchKind::MissingTimeline,
                    };
                },
                Some(false) => {
                    return PrevStep::Done;
                },
                Some(true) => {},
            }
            match &f.stored_now {
                None => {
                    return PrevStep::LookupAgain;
                },
                Some(Ok(Some(nid))) => *nid,
                Some(_) => {
                    return PrevStep::Done;
                },
            }
        },
    };
    if f.snapshot.is_none() {
        PrevStep::LoadSnapshot { event: nid }
    } else {
        PrevStep::Done
    }
}

fn rows_or_none(snapshot: Option<Vec<SnapshotRow>>) -> (r: Vec<SnapshotRow>)
    ensures
        snapshot_rows(snapshot, r@),
{
    match snapshot {
        Some(v) => v,
        None => Vec::new(),
    }
}

/// The answer that the facts about a predecessor give, once everything is known.
pub fn prev_answer(f: PrevFacts) -> (r: PrevAnswer)
    requires
        prev_next(f) is Done,
    ensures
        is_prev_answer(f, r),
{
    match (f.stored, f.stored_now, f.snapshot) {
        (Some(Err(e)), _, _) => PrevAnswer::Failed(e),
        (Some(Ok(Some(_))), _, Some(Err(e))) => PrevAnswer::Failed(e),
        (Some(Ok(Some(_))), _, Some(Ok(v))) => PrevAnswer::Stored(rows_or_none(v)),
        (_, now, snapshot) => {
            match f.rejected {
                Some(true) => {
                    return PrevAnswer::Rejected;
                },
                _ => {},
            }
            match (f.fetched, f.taken, now, snapshot) {
                (Some(Some(_)), Some(true), Some(Err(e)), _) => PrevAnswer::Failed(e),
                (Some(Some(_)), Some(true), Some(Ok(Some(_))), Some(Err(e))) => PrevAnswer::Failed(
                    e,
                ),
                (Some(Some(_)), Some(true), Some(Ok(Some(_))), Some(Ok(v))) => PrevAnswer::Fetched(
                    rows_or_none(v),
                ),
                (_, _, _, _) => PrevAnswer::Missing,
            }
        },
    }
}

/// What is known so far of the state that the sending server names before an
/// event.
pub struct NamedFacts {
    /// The ids that the server names, or what failed.
    pub reply: Option<Result<Json, String>>,
    /// For each id that was gone through, in order, the number under which the
    /// event is stored, if it is.
    pub found: Vec<Option<u64>>,
    /// Of the id that comes next: the number under which it is stored.
    pub stored: Option<Option<u64>>,
    /// The event as the server has it; `None` if it could not be had.
    pub fetched: Option<Option<Json>>,
    /// Whether the taking in of the fetched event was tried.
    pub taken: bool,
    /// The number under which it is stored after that.
    pub stored_now: Option<Option<u64>>,
}

/// What to find out or to do next about the state that the sending server names.
pub enum NamedStep {
    /// Ask the server for the ids.
    Ask,
    /// Look an event up in the store.
    Lookup { event_id: String },
    /// Ask the server for an event.
    Fetch { event_id: String },
    /// Take the fetched event in, as an event of this kind.
    TakeIn { event: Json, kind: FetchKind },
    /// Look an event up in the store again.
    LookupAgain { event_id: String },
    /// Note what was found of the event, and go on to the next.
    Note { found: Option<u64> },
    /// The state consists of these events.
    Done { events: Vec<u64> },
}

pub enum NamedView {
    Ask,
    Lookup { event_id: Seq<char> },
    Fetch { event_id: Seq<char> },
    TakeIn { event: JsonView, kind: FetchKind },
    LookupAgain { event_id: Seq<char> },
    Note { found: Option<u64> },
    Done { events: Seq<u64> },
}

impl NamedStep {
    pub open spec fn view(&self) -> NamedView {
        match self {
            NamedStep::Ask => NamedView::Ask,
            NamedStep::Lookup { event_id } => NamedView::Lookup { event_id: event_id@ },
            NamedStep::Fetch { event_id } => NamedView::Fetch { event_id: event_id@ },
            NamedStep::TakeIn { event, kind } => NamedView::TakeIn { event: event@, kind: *kind },
            NamedStep::LookupAgain { event_id } => NamedView::LookupAgain { event_id: event_id@ },
            NamedStep::Note { found } => NamedView::Note { found: *found },
            NamedStep::Done { events } => NamedView::Done { events: events@ },
        }
    }
}

/// What comes next for one id of the state that the sending server names: the
/// event is fetched if it is not stored, and counts if it is stored after that.
pub open spec fn named_event(f: NamedFacts, event_id: Seq<char>) -> NamedView {
    match f.stored {
        None => NamedView::Lookup { event_id },
        Some(Some(nid)) => NamedView::Note { found: Some(nid) },
        Some(None) => match f.fetched {
            None => NamedView::Fetch { event_id },
            Some(event) => if event is Some && !f.taken {
                NamedView::TakeIn { event: event->0@, kind: FetchKind::AuthChain }
            } else {
                match f.stored_now {
                    None => NamedView::LookupAgain { event_id },
                    Some(found) => NamedView::Note { found },
                }
            },
        },
    }
}

/// The ids of the state that a reply names; none if the request failed.
pub open spec fn named_ids(reply: Result<Json, String>) -> Seq<Seq<char>> {
    match reply {
        Ok(v) => list_strings(v@, "pdu_ids"@),
        Err(_) => seq![],
    }
}

/// How the state that the sending server names is put together.
pub open spec fn named_next(f: NamedFacts) -> NamedView {
    match f.reply {
        None => NamedView::Ask,
        Some(reply) => if f.found@.len() < named_ids(reply).len() {
            named_event(f, named_ids(reply)[f.found@.len() as int])
        } else {
            NamedView::Done { events: found_nids(f.found@) }
        },
    }
}

/// Names what to find out or to do next about the state that the sending server
/// names.
pub fn named_step(f: &NamedFacts) -> (r: NamedStep)
    ensures
        r@ == named_next(*f),
{
    let ids: Vec<String> = match &f.reply {
        None => {
            return NamedStep::Ask;
        },
        Some(Ok(v)) => strings_under(v, "pdu_ids"),
        Some(Err(_)) => Vec::new(),
    };
    proof {
        assert(texts(ids@) =~= named_ids(f.reply->0));
        assert(texts(ids@).len() == ids@.len());
    }
    if f.found.len() >= ids.len() {
        return NamedStep::Done { events: known_references(&f.found) };
    }
    let id = &ids[f.found.len()];
    proof {
        assert(texts(ids@)[f.found@.len() as int] == id@);
    }
    match f.stored {
        None => {
            return NamedStep::Lookup { event_id: id.clone() };
        },
        Some(Some(nid)) => {
            return NamedStep::Note { found: Some(nid) };
        },
        Some(None) => {},
    }
    match &f.fetched {
        None => {
            return NamedStep::Fetch { event_id: id.clone() };
        },
        Some(Some(event)) => {
            if !f.taken {
                return NamedStep::TakeIn { event: event.copy(), kind: FetchKind::AuthChain };
            }
        },
        Some(None) => {},
    }
    match f.stored_now {
        None => NamedStep::LookupAgain { event_id: id.clone() },
        Some(found) => NamedStep::Note { found },
    }
}

/// What is next in working out the state before an event.
pub enum StateBeforeStep {
    /// There is no state to work out.
    NoState,
    /// Look a predecessor up, and fetch it if need be.
    LookupPrev { event_id: String },
    /// The state cannot be worked out.
    Failed { reason: String },
    /// Ask the sending server for the state before the event.
    FetchStateIds,
    /// Resolve these states into one.
    Resolve { sets: Vec<StateTable<String>> },
}

pub enum StateBeforeView {
    NoState,
    LookupPrev { event_id: Seq<char> },
    Failed { reason: Seq<char> },
    FetchStateIds,
    Resolve { sets: Seq<StateIds> },
}

pub open spec fn states(v: Seq<StateTable<String>>) -> Seq<StateIds> {
    v.map_values(|t: StateTable<String>| table_state(t))
}

impl StateBeforeStep {
    pub open spec fn view(&self) -> StateBeforeView {
        match self {
            StateBeforeStep::NoState => StateBeforeView::NoState,
            StateBeforeStep::LookupPrev { event_id } => StateBeforeView::LookupPrev {
                event_id: event_id@,
            },
            StateBeforeStep::Failed { reason } => StateBeforeView::Failed { reason: reason@ },
            StateBeforeStep::FetchStateIds => StateBeforeView::FetchStateIds,
            StateBeforeStep::Resolve { sets } => StateBeforeView::Resolve { sets: states(sets@) },
        }
    }
}

/// What a predecessor contributes: the reason of a failure, or at most one
/// state. A rejected predecessor contributes none, nor does one that was
/// fetched without a snapshot.
pub open spec fn contribution(a: PrevAnswer, prev_id: Seq<char>) -> Result<
    Option<StateIds>,
    Seq<char>,
> {
    match a {
        PrevAnswer::Failed(e) => Err("db: "@ + e@),
        PrevAnswer::Rejected => Ok(None),
        PrevAnswer::Missing => Err("unknown prev_event "@ + prev_id),
        PrevAnswer::Stored(rows) => match rows_fault(rows@, Strictness::Corruption) {
            Some(e) => Err(e),
            None => Ok(Some(rows_state(rows@))),
        },
        PrevAnswer::Fetched(rows) => if rows@.len() == 0 {
            Ok(None)
        } else {
            match rows_fault(rows@, Strictness::Lenient) {
                Some(e) => Err(e),
                None => Ok(Some(rows_state(rows@))),
            }
        },
    }
}

/// What the predecessors from `k` on contribute after `sets`: the next question
/// or failure, or all the states.
pub open spec fn gather(
    prevs: Seq<Seq<char>>,
    answers: Seq<PrevAnswer>,
    k: int,
    sets: Seq<StateIds>,
) -> Result<Seq<StateIds>, StateBeforeView>
    decreases prevs.len() - k,
{
    if k >= prevs.len() {
        Ok(sets)
    } else if k >= answers.len() {
        Err(StateBeforeView::LookupPrev { event_id: prevs[k] })
    } else {
        match contribution(answers[k], prevs[k]) {
            Err(reason) => Err(StateBeforeView::Failed { reason }),
            Ok(None) => gather(prevs, answers, k + 1, sets),
            Ok(Some(s)) => gather(prevs, answers, k + 1, sets.push(s)),
        }
    }
}

pub open spec fn all_empty(sets: Seq<StateIds>) -> bool {
    forall|i: int|
        0 <= i < sets.len() ==> #[trigger] sets[i] == Map::<StateKey, Seq<char>>::empty()
}

/// How the state before an event is worked out: from the states after its
/// predecessors; where none of them is known, from what the sending server says
/// (`ids`), if that is anything.
pub open spec fn state_before(
    prevs: Seq<Seq<char>>,
    answers: Seq<PrevAnswer>,
    ids: Option<Seq<SnapshotRow>>,
) -> StateBeforeView {
    match gather(prevs, answers, 0, seq![]) {
        Err(step) => step,
        Ok(sets) => if sets.len() == 0 {
            StateBeforeView::NoState
        } else if !all_empty(sets) {
            StateBeforeView::Resolve { sets }
        } else {
            match ids {
                None => StateBeforeView::FetchStateIds,
                Some(rows) => if rows_state(rows) == Map::<StateKey, Seq<char>>::empty() {
                    StateBeforeView::Resolve { sets }
                } else {
                    StateBeforeView::Resolve { sets: seq![rows_state(rows)] }
                },
            }
        },
    }
}

fn contribute(a: &PrevAnswer, prev_id: &str) -> (r: Result<Option<StateTable<String>>, String>)
    ensures
        match r {
            Ok(Some(t)) => {
                &&& contribution(*a, prev_id@) == Ok::<Option<StateIds>, Seq<char>>(
                    Some(table_state(t)),
                )
                &&& (t.entries@.len() == 0) == (table_state(t) == Map::<
                    StateKey,
                    Seq<char>,
                >::empty())
            },
            Ok(None) => contribution(*a, prev_id@) == Ok::<Option<StateIds>, Seq<char>>(None),
            Err(e) => contribution(*a, prev_id@) == Err::<Option<StateIds>, Seq<char>>(e@),
        },
{
    match a {
        PrevAnswer::Failed(e) => Err(cat("db: ", e.as_str())),
        PrevAnswer::Rejected => Ok(None),
        PrevAnswer::Missing => Err(cat("unknown prev_event ", prev_id)),
        PrevAnswer::Stored(rows) => match snapshot_state(rows, Strictness::Corruption) {
            Ok(t) => Ok(Some(t)),
            Err(e) => Err(e),
        },
        PrevAnswer::Fetched(rows) => {
            if rows.len() == 0 {
                return Ok(None);
            }
            match snapshot_state(rows, Strictness::Lenient) {
                Ok(t) => Ok(Some(t)),
                Err(e) => Err(e),
            }
        },
    }
}

proof fn lemma_states_push(v: Seq<StateTable<String>>, t: StateTable<String>)
    ensures
        states(v.push(t)) == states(v).push(table_state(t)),
{
    assert(states(v.push(t)) =~= states(v).push(table_state(t)));
}

/// Names what is next in working out the state before an event.
pub fn compute_state_at_event(
    event: &Pdu,
    prevs: &Vec<PrevAnswer>,
    ids: Option<&Vec<SnapshotRow>>,
) -> (r: StateBeforeStep)
    ensures
        r@ == state_before(
            event@.prev_events,
            prevs@,
            match ids {
                Some(rows) => Some(rows@),
                None => None,
            },
        ),
{
    let n: usize = event.prev_events.len();
    let mut sets: Vec<StateTable<String>> = Vec::new();
    let mut any: bool = false;
    let mut k: usize = 0;
    proof {
        assert(states(sets@) =~= seq![]);
    }
    while k < n
        invariant
            k <= n,
            n == event.prev_events.len(),
            gather(event@.prev_events, prevs@, 0, seq![]) == gather(
                event@.prev_events,
                prevs@,
                k as int,
                states(sets@),
            ),
            any == !all_empty(states(sets@)),
        decreases n - k,
    {
        let id = &event.prev_events[k];
        proof {
            assert(event@.prev_events[k as int] == id@);
        }
        if k >= prevs.len() {
            return StateBeforeStep::LookupPrev { event_id: id.clone() };
        }
        match contribute(&prevs[k], id.as_str()) {
            Err(reason) => {
                return StateBeforeStep::Failed { reason };
            },
            Ok(None) => {},
            Ok(Some(t)) => {
                let ghost before = states(sets@);
                let empty = t.is_empty();
                proof {
                    lemma_states_push(sets@, t);
                }
                sets.push(t);
                if !empty {
                    any = true;
                }
                proof {
                    let s = states(sets@);
                    assert(s == before.push(table_state(t)));
                    if all_empty(s) {
                        assert(s[before.len() as int] == table_state(t));
                        assert forall|i: int| 0 <= i < before.len() implies #[trigger] before[i]
                            == Map::<StateKey, Seq<char>>::empty() by {
                            assert(s[i] == before[i]);
                        }
                    }
                    if all_empty(before) && empty {
                        assert forall|i: int| 0 <= i < s.len() implies #[trigger] s[i] == Map::<
                            StateKey,
                            Seq<char>,
                        >::empty() by {
                            if i < before.len() {
                                assert(before[i] == s[i]);
                            }
                        }
                    }
                }
            },
        }
        k += 1;
    }
    if sets.len() == 0 {
        return StateBeforeStep::NoState;
    }
    if any {
        return StateBeforeStep::Resolve { sets };
    }
    match ids {
        None => StateBeforeStep::FetchStateIds,
        Some(rows) => {
            proof {
                lemma_best_effort(rows@);
            }
            match snapshot_state(rows, Strictness::BestEffort) {
                Ok(t) => {
                    if !t.is_empty() {
                        let ghost s = table_state(t);
                        let mut only: Vec<StateTable<String>> = Vec::new();
                        proof {
                            lemma_states_push(only@, t);
                        }
                        only.push(t);
                        proof {
                            assert(states(only@) =~= seq![s]);
                        }
                        return StateBeforeStep::Resolve { sets: only };
                    }
                },
                Err(_) => {},
            }
            StateBeforeStep::Resolve { sets }
        },
    }
}

/// The sending server is asked for a predecessor only if it is neither stored nor
/// rejected. A rejected one contributes no state; one that cannot be had fails
/// the event.
pub proof fn law_predecessors(f: PrevFacts, a: PrevAnswer)
    ensures
        prev_next(f) is Fetch || prev_next(f) is TakeIn ==> f.stored == Some(
            Ok::<Option<u64>, String>(None),
        ) && f.rejected == Some(false),
        prev_next(f) is Done && is_prev_answer(f, a) && f.stored == Some(
            Ok::<Option<u64>, String>(None),
        ) ==> {
            &&& f.rejected == Some(true) ==> contribution(a, f.event_id@) == Ok::<
                Option<StateIds>,
                Seq<char>,
            >(None)
            &&& f.rejected == Some(false) && f.fetched == Some(None::<Json>) ==> contribution(
                a,
                f.event_id@,
            ) == Err::<Option<StateIds>, Seq<char>>("unknown prev_event "@ + f.event_id@)
        },
{
}

proof fn lemma_best_effort(rows: Seq<SnapshotRow>)
    ensures
        rows_fault(rows, Strictness::BestEffort) is None,
    decreases rows.len(),
{
    if rows.len() > 0 {
        lemma_best_effort(rows.drop_last());
    }
}

/// What the store says of the event whose predecessors are asked for.
pub enum EventLookup {
    Failed(String),
    Unknown,
    Stored,
}

/// What each stored predecessor of an event says of the state after it.
pub enum SnapshotLookup {
    Failed(String),
    Rows(Vec<SnapshotRow>),
}

pub open spec fn snapshot_contribution(a: SnapshotLookup) -> Result<StateIds, Seq<char>> {
    match a {
        SnapshotLookup::Failed(e) => Err("db: "@ + e@),
        SnapshotLookup::Rows(rows) => match rows_fault(rows@, Strictness::Missing) {
            Some(e) => Err(e),
            None => Ok(rows_state(rows@)),
        },
    }
}

/// The states after the predecessors, or the first failure among them.
pub open spec fn snapshot_sets(v: Seq<SnapshotLookup>) -> Result<Seq<StateIds>, Seq<char>>
    decreases v.len(),
{
    if v.len() == 0 {
        Ok(seq![])
    } else {
        match snapshot_sets(v.drop_last()) {
            Err(e) => Err(e),
            Ok(sets) => match snapshot_contribution(v.last()) {
                Err(e) => Err(e),
                Ok(s) => Ok(sets.push(s)),
            },
        }
    }
}

proof fn lemma_snapshot_sets(v: Seq<SnapshotLookup>, k: int)
    requires
        0 <= k <= v.len(),
        snapshot_sets(v.take(k)) is Err,
    ensures
        snapshot_sets(v) == snapshot_sets(v.take(k)),
    decreases v.len() - k,
{
    if k == v.len() {
        assert(v.take(k) =~= v);
    } else {
        assert(v.take(k + 1).drop_last() =~= v.take(k));
        lemma_snapshot_sets(v, k + 1);
    }
}

/// The states that resolve into the state before a stored event: `None` for an
/// event without predecessors, an error for one that is not stored.
pub fn state_before_event(
    event_id: &str,
    event: &EventLookup,
    prevs: &Vec<SnapshotLookup>,
) -> (r: Result<Option<Vec<StateTable<String>>>, String>)
    ensures
        match *event {
            EventLookup::Failed(e) => r matches Err(m) && m@ == "db: "@ + e@,
            EventLookup::Unknown => r matches Err(m) && m@ == "unknown event "@ + event_id@,
            EventLookup::Stored => if prevs@.len() == 0 {
                r == Ok::<Option<Vec<StateTable<String>>>, String>(None)
            } else {
                match snapshot_sets(prevs@) {
                    Err(e) => r matches Err(m) && m@ == e,
                    Ok(sets) => r matches Ok(Some(v)) && states(v@) == sets,
                }
            },
        },
{
    match event {
        EventLookup::Failed(e) => {
            return Err(cat("db: ", e.as_str()));
        },
        EventLookup::Unknown => {
            return Err(cat("unknown event ", event_id));
        },
        EventLookup::Stored => {},
    }
    if prevs.len() == 0 {
        return Ok(None);
    }
    let mut sets: Vec<StateTable<String>> = Vec::new();
    let mut i: usize = 0;
    proof {
        assert(states(sets@) =~= seq![]);
        assert(prevs@.take(0) =~= seq![]);
    }
    while i < prevs.len()
        invariant
            i <= prevs.len(),
            *event is Stored,
            prevs.len() > 0,
            snapshot_sets(prevs@.take(i as int)) == Ok::<Seq<StateIds>, Seq<char>>(states(sets@)),
        decreases prevs.len() - i,
    {
        proof {
            assert(prevs@.take(i + 1).drop_last() =~= prevs@.take(i as int));
            assert(prevs@.take(i + 1).last() == prevs@[i as int]);
        }
        let t = match &prevs[i] {
            SnapshotLookup::Failed(e) => Err(cat("db: ", e.as_str())),
            SnapshotLookup::Rows(rows) => snapshot_state(rows, Strictness::Missing),
        };
        match t {
            Err(e) => {
                proof {
                    lemma_snapshot_sets(prevs@, i + 1);
                }
                return Err(e);
            },
            Ok(t) => {
                proof {
                    lemma_states_push(sets@, t);
                }
                sets.push(t);
            },
        }
        i += 1;
    }
    proof {
        assert(prevs@.take(i as int) =~= prevs@);
    }
    Ok(Some(sets))
}

/// An entry of resolved or current state, with the event that it names if that
/// could be read.
pub struct StateEntry {
    pub event_type: String,
    pub state_key: Option<String>,
    pub pdu: Option<Pdu>,
}

pub open spec fn entry_key(e: StateEntry) -> StateKey {
    (
        e.event_type@,
        match e.state_key {
            Some(k) => k@,
            None => seq![],
        },
    )
}

/// The last readable event among some entries for a key.
pub open spec fn last_readable(v: Seq<StateEntry>, key: StateKey) -> Option<PduView>
    decreases v.len(),
{
    if v.len() == 0 {
        None
    } else {
        match v.last().pdu {
            Some(p) => if entry_key(v.last()) == key {
                Some(p@)
            } else {
                last_readable(v.drop_last(), key)
            },
            None => last_readable(v.drop_last(), key),
        }
    }
}

pub open spec fn opt_pdu(o: Option<Pdu>) -> Option<PduView> {
    match o {
        Some(p) => Some(p@),
        None => None,
    }
}

/// The room state that some entries give: those whose events cannot be read
/// are left out.
pub fn build_current_state(entries: &Vec<StateEntry>) -> (r: StateTable<Pdu>)
    ensures
        r.wf(),
        forall|k: StateKey|
            #![trigger r.find(k)]
            opt_pdu(r.find(k)) == last_readable(entries@, k),
{
    let mut t: StateTable<Pdu> = StateTable::new();
    let mut i: usize = 0;
    while i < entries.len()
        invariant
            i <= entries.len(),
            t.wf(),
            forall|k: StateKey|
                #![trigger t.find(k)]
                opt_pdu(t.find(k)) == last_readable(entries@.take(i as int), k),
        decreases entries.len() - i,
    {
        proof {
            assert(entries@.take(i + 1).drop_last() =~= entries@.take(i as int));
            assert(entries@.take(i + 1).last() == entries@[i as int]);
        }
        let e = &entries[i];
        match &e.pdu {
            Some(p) => {
                let key = match &e.state_key {
                    Some(k) => k.clone(),
                    None => String::new(),
                };
                t.insert(e.event_type.as_str(), key.as_str(), p.copy());
            },
            None => {},
        }
        i += 1;
    }
    proof {
        assert(entries@.take(i as int) =~= entries@);
    }
    t
}

/// The event ids of a room's state, in table order.
pub fn state_before_event_ids(state: &StateTable<Pdu>) -> (r: Vec<String>)
    ensures
        texts(r@) == state.entries@.map_values(|e: ((String, String), Pdu)| e.1.event_id@),
{
    let mut out: Vec<String> = Vec::new();
    let mut i: usize = 0;
    let ghost want = state.entries@.map_values(|e: ((String, String), Pdu)| e.1.event_id@);
    while i < state.entries.len()
        invariant
            i <= state.entries.len(),
            want == state.entries@.map_values(|e: ((String, String), Pdu)| e.1.event_id@),
            texts(out@) =~= want.take(i as int),
        decreases state.entries.len() - i,
    {
        let id = state.entries[i].1.event_id.clone();
        proof {
            lemma_texts_push(out@, id);
            assert(want.take(i + 1) =~= want.take(i as int).push(id@));
        }
        out.push(id);
        i += 1;
    }
    proof {
        assert(want.take(i as int) =~= want);
    }
    out
}

/// The key of a room's create event.
pub open spec fn create_key() -> StateKey {
    ("m.room.create"@, ""@)
}

/// The prefix of the ids under which stripped state of an invite is kept.
pub open spec fn is_stripped_id(id: Seq<char>) -> bool {
    "$invite-stripped:"@.is_prefix_of(id)
}

/// Puts a room's stored create event into a state that lacks one. A placeholder
/// from an invite's stripped state does not count.
pub fn ensure_create_in_state(state: &mut StateTable<Pdu>, create: Option<&Pdu>)
    ensures
        old(state).wf() ==> final(state).wf(),
        forall|k: StateKey|
            #![trigger final(state).find(k)]
            k != create_key() ==> final(state).find(k) == old(state).find(k),
        opt_pdu(final(state).find(create_key())) == (if old(state).has(create_key()) {
            opt_pdu(old(state).find(create_key()))
        } else {
            match create {
                Some(c) => if is_stripped_id(c.event_id@) {
                    None
                } else {
                    Some(c@)
                },
                None => None,
            }
        }),
{
    if state.get("m.room.create", "").is_some() {
        return;
    }
    match create {
        Some(c) => {
            if !starts_with(c.event_id.as_str(), "$invite-stripped:") {
                state.insert("m.room.create", "", c.copy());
            }
        },
        None => {},
    }
}

/// An auth event of an event, as far as it could be read.
pub struct AuthEvent {
    /// The event as it is stored.
    pub json: Option<Json>,
    /// Its fields.
    pub pdu: Option<Pdu>,
    /// Its number in the store.
    pub nid: Option<u64>,
}

/// Whether a stored event is the membership of a user.
pub open spec fn is_member_of(event: Option<JsonView>, user: Seq<char>) -> bool {
    match event {
        Some(v) => {
            &&& v.as_object() is Some
            &&& v.str_at("type"@) == Some("m.room.member"@)
            &&& (match v.str_at("state_key"@) {
                Some(k) => k,
                None => ""@,
            }) == user
        },
        None => false,
    }
}

fn member_of(event: Option<&Json>, user: &str) -> (r: bool)
    ensures
        r == is_member_of(opt_json(event), user@),
{
    match event {
        Some(v) => {
            if v.as_object().is_none() {
                return false;
            }
            let typed = match v.str_at("type") {
                Some(t) => str_eq(t, "m.room.member"),
                None => false,
            };
            let key = match v.str_at("state_key") {
                Some(k) => k,
                None => "",
            };
            typed && str_eq(key, user)
        },
        None => false,
    }
}

/// Whether an auth event can stand in for a user's membership.
pub open spec fn stands_in(a: AuthEvent, user: Seq<char>) -> bool {
    is_member_of(json_of(a.json), user) && a.pdu is Some
}

/// The first of some auth events that can stand in for a user's membership.
pub open spec fn first_stand_in(v: Seq<AuthEvent>, user: Seq<char>) -> Option<PduView>
    decreases v.len(),
{
    if v.len() == 0 {
        None
    } else if stands_in(v[0], user) {
        Some(v[0].pdu->0@)
    } else {
        first_stand_in(v.drop_first(), user)
    }
}

/// Puts the sender's membership into a state that lacks it, from the auth
/// events of the sender's event. What the state says is never overwritten.
pub fn ensure_sender_member_in_state(
    state: &mut StateTable<Pdu>,
    sender: &str,
    auth_events: &Vec<AuthEvent>,
)
    ensures
        old(state).wf() ==> final(state).wf(),
        forall|k: StateKey|
            #![trigger final(state).find(k)]
            k != ("m.room.member"@, sender@) ==> final(state).find(k) == old(state).find(k),
        opt_pdu(final(state).find(("m.room.member"@, sender@))) == (if old(state).has(
            ("m.room.member"@, sender@),
        ) {
            opt_pdu(old(state).find(("m.room.member"@, sender@)))
        } else {
            first_stand_in(auth_events@, sender@)
        }),
{
    if state.get("m.room.member", sender).is_some() {
        return;
    }
    let mut i: usize = 0;
    proof {
        assert(auth_events@.skip(0) =~= auth_events@);
    }
    while i < auth_events.len()
        invariant
            i <= auth_events.len(),
            *state == *old(state),
            !state.has(("m.room.member"@, sender@)),
            first_stand_in(auth_events@, sender@) == first_stand_in(
                auth_events@.skip(i as int),
                sender@,
            ),
        decreases auth_events.len() - i,
    {
        proof {
            assert(auth_events@.skip(i as int)[0] == auth_events@[i as int]);
            assert(auth_events@.skip(i as int).drop_first() =~= auth_events@.skip(i + 1));
        }
        let a = &auth_events[i];
        if member_of(a.json.as_ref(), sender) {
            match &a.pdu {
                Some(p) => {
                    state.insert("m.room.member", sender, p.copy());
                    return;
                },
                None => {},
            }
        }
        i += 1;
    }
}

/// Whether a stored event shows a membership from which a user may leave.
pub open spec fn shows_leavable(event: Option<JsonView>, user: Seq<char>) -> bool {
    &&& is_member_of(event, user)
    &&& {
        let m = event->0.str_within("content"@, "membership"@);
        m == Some("join"@) || m == Some("invite"@) || m == Some("knock"@)
    }
}

/// Whether some auth event shows that the sender had a membership from which
/// one may leave: joined, invited or knocking.
pub fn auth_events_declare_prior_membership_allowing_leave(
    sender: &str,
    auth_events: &Vec<AuthEvent>,
) -> (r: bool)
    ensures
        r == exists|i: int|
            0 <= i < auth_events@.len() && shows_leavable(
                json_of((#[trigger] auth_events@[i]).json),
                sender@,
            ),
{
    let mut i: usize = 0;
    while i < auth_events.len()
        invariant
            i <= auth_events.len(),
            forall|j: int|
                0 <= j < i ==> !shows_leavable(
                    json_of((#[trigger] auth_events@[j]).json),
                    sender@,
                ),
        decreases auth_events.len() - i,
    {
        let a = &auth_events[i];
        if member_of(a.json.as_ref(), sender) {
            match &a.json {
                Some(v) => match v.str_within("content", "membership") {
                    Some(m) => {
                        if str_eq(m, "join") || str_eq(m, "invite") || str_eq(m, "knock") {
                            assert(shows_leavable(json_of(auth_events@[i as int].json), sender@));
                            return true;
                        }
                    },
                    None => {},
                },
                None => {},
            }
        }
        i += 1;
    }
    false
}

/// The stored number of the first auth event that is the sender's membership.
pub open spec fn first_member_nid(v: Seq<AuthEvent>, user: Seq<char>) -> Option<u64>
    decreases v.len(),
{
    if v.len() == 0 {
        None
    } else if is_member_of(json_of(v[0].json), user) && v[0].nid is Some {
        v[0].nid
    } else {
        first_member_nid(v.drop_first(), user)
    }
}

/// Which stored event to make the sender's current membership after a timeline
/// event was accepted while the room's state is still being fetched: the first
/// of the event's auth events that is the sender's membership, unless the room
/// knows one already.
pub fn promote_sender_member_during_partial_state(
    pdu: &Pdu,
    partial_state: bool,
    member_known: bool,
    auth_events: &Vec<AuthEvent>,
) -> (r: Option<u64>)
    ensures
        r == (if pdu@.state_key is None && partial_state && !member_known {
            first_member_nid(auth_events@, pdu@.sender)
        } else {
            None
        }),
{
    if pdu.state_key.is_some() || !partial_state || member_known {
        return None;
    }
    let mut i: usize = 0;
    proof {
        assert(auth_events@.skip(0) =~= auth_events@);
    }
    while i < auth_events.len()
        invariant
            i <= auth_events.len(),
            pdu@.state_key is None && partial_state && !member_known,
            first_member_nid(auth_events@, pdu@.sender) == first_member_nid(
                auth_events@.skip(i as int),
                pdu@.sender,
            ),
        decreases auth_events.len() - i,
    {
        proof {
            assert(auth_events@.skip(i as int)[0] == auth_events@[i as int]);
            assert(auth_events@.skip(i as int).drop_first() =~= auth_events@.skip(i + 1));
        }
        let a = &auth_events[i];
        if member_of(a.json.as_ref(), pdu.sender.as_str()) && a.nid.is_some() {
            return a.nid;
        }
        i += 1;
    }
    None
}

/// The last of some auth events that is state under a key.
pub open spec fn last_auth(v: Seq<Pdu>, key: StateKey) -> Option<PduView>
    decreases v.len(),
{
    if v.len() == 0 {
        None
    } else if v.last()@.state_key is Some && (v.last()@.event_type, v.last()@.state_key->0)
        == key {
        Some(v.last()@)
    } else {
        last_auth(v.drop_last(), key)
    }
}

/// An entry of a state to which a room's create event is added if it has none.
pub open spec fn with_create(
    found: Option<PduView>,
    key: StateKey,
    create: Option<PduView>,
) -> Option<PduView> {
    if found is Some || key != create_key() {
        found
    } else {
        match create {
            Some(c) => if is_stripped_id(c.event_id) {
                None
            } else {
                Some(c)
            },
            None => None,
        }
    }
}

pub open spec fn opt_pdu_view(o: Option<&Pdu>) -> Option<PduView> {
    match o {
        Some(p) => Some(p@),
        None => None,
    }
}

/// The state over which an event is checked against its auth events: what they
/// say, and the room's create event, which they do not list.
pub fn auth_view(auth: &Vec<Pdu>, create: Option<&Pdu>) -> (r: StateTable<Pdu>)
    ensures
        r.wf(),
        forall|k: StateKey|
            #![trigger r.find(k)]
            opt_pdu(r.find(k)) == with_create(last_auth(auth@, k), k, opt_pdu_view(create)),
{
    let mut t: StateTable<Pdu> = StateTable::new();
    let mut i: usize = 0;
    while i < auth.len()
        invariant
            i <= auth.len(),
            t.wf(),
            forall|k: StateKey|
                #![trigger t.find(k)]
                opt_pdu(t.find(k)) == last_auth(auth@.take(i as int), k),
        decreases auth.len() - i,
    {
        proof {
            assert(auth@.take(i + 1).drop_last() =~= auth@.take(i as int));
            assert(auth@.take(i + 1).last() == auth@[i as int]);
        }
        match &auth[i].state_key {
            Some(key) => {
                t.insert(auth[i].event_type.as_str(), key.as_str(), auth[i].copy());
            },
            None => {},
        }
        i += 1;
    }
    proof {
        assert(auth@.take(i as int) =~= auth@);
        assert(opt_pdu(t.find(create_key())) == last_auth(auth@, create_key()));
    }
    ensure_create_in_state(&mut t, create);
    t
}

/// The state over which an event is checked against the state before it: the
/// room's create event and the sender's membership are added where it lacks
/// them.
pub fn complete_state(
    state: &mut StateTable<Pdu>,
    create: Option<&Pdu>,
    sender: &str,
    auth_events: &Vec<AuthEvent>,
)
    requires
        old(state).wf(),
    ensures
        final(state).wf(),
        forall|k: StateKey|
            #![trigger final(state).find(k)]
            opt_pdu(final(state).find(k)) == (if k == ("m.room.member"@, sender@) && !old(
                state,
            ).has(k) {
                first_stand_in(auth_events@, sender@)
            } else {
                with_create(opt_pdu(old(state).find(k)), k, opt_pdu_view(create))
            }),
{
    proof {
        reveal_strlit("m.room.member");
        reveal_strlit("m.room.create");
        assert("m.room.member"@[7] == 'm');
        assert("m.room.create"@[7] == 'c');
    }
    ensure_create_in_state(state, create);
    ensure_sender_member_in_state(state, sender, auth_events);
}

/// Nothing that a state says is changed by completing it.
pub proof fn law_completion_keeps_state(
    found: Option<PduView>,
    key: StateKey,
    create: Option<PduView>,
)
    requires
        found is Some,
    ensures
        with_create(found, key, create) == found,
{
}

/// A snapshot gives for each key the event of its last entry, and nothing for a
/// key without entries. A state key that is not on record counts as empty.
pub proof fn law_snapshots(rows: Seq<SnapshotRow>, key: StateKey)
    ensures
        forall|i: int|
            (#[trigger] rows[i] matches SnapshotRow::Entry { event_type, state_key, event_id } && {
                &&& 0 <= i < rows.len()
                &&& event_type@ == key.0
                &&& key.1 == (match state_key {
                    Some(k) => k@,
                    None => seq![],
                })
                &&& forall|j: int|
                    i < j < rows.len() ==> !(#[trigger] rows[j] matches SnapshotRow::Entry {
                        event_type: t,
                        state_key: k,
                        ..
                    } && t@ == key.0 && key.1 == (match k {
                        Some(k) => k@,
                        None => seq![],
                    }))
            }) ==> rows_state(rows).dom().contains(key) && rows_state(rows)[key]
                == rows[i]->event_id@,
        rows_state(rows).dom().contains(key) ==> exists|i: int|
            0 <= i < rows.len() && (#[trigger] rows[i] matches SnapshotRow::Entry {
                event_type,
                state_key,
                ..
            } && event_type@ == key.0 && key.1 == (match state_key {
                Some(k) => k@,
                None => seq![],
            })),
    decreases rows.len(),
{
    if rows.len() > 0 {
        let front = rows.drop_last();
        law_snapshots(front, key);
        let n = rows.len() - 1;
        assert(rows.last() == rows[n]);
        assert forall|i: int|
            (#[trigger] rows[i] matches SnapshotRow::Entry { event_type, state_key, event_id } && {
                &&& 0 <= i < rows.len()
                &&& event_type@ == key.0
                &&& key.1 == (match state_key {
                    Some(k) => k@,
                    None => seq![],
                })
                &&& forall|j: int|
                    i < j < rows.len() ==> !(#[trigger] rows[j] matches SnapshotRow::Entry {
                        event_type: t,
                        state_key: k,
                        ..
                    } && t@ == key.0 && key.1 == (match k {
                        Some(k) => k@,
                        None => seq![],
                    }))
            }) implies rows_state(rows).dom().contains(key) && rows_state(rows)[key]
            == rows[i]->event_id@ by {
            if i < n {
                assert(row_key(rows[n]) != Some(key));
                assert(front[i] == rows[i]);
                assert forall|j: int| i < j < front.len() implies !(
                #[trigger] front[j] matches SnapshotRow::Entry { event_type: t, state_key: k, .. }
                    && t@ == key.0 && key.1 == (match k {
                    Some(k) => k@,
                    None => seq![],
                })) by {
                    assert(front[j] == rows[j]);
                }
            }
        }
        if rows_state(rows).dom().contains(key) && row_key(rows[n]) != Some(key) {
            assert(rows_state(front).dom().contains(key));
            let i = choose|i: int|
                0 <= i < front.len() && (#[trigger] front[i] matches SnapshotRow::Entry {
                    event_type,
                    state_key,
                    ..
                } && event_type@ == key.0 && key.1 == (match state_key {
                    Some(k) => k@,
                    None => seq![],
                }));
            assert(rows[i] == front[i]);
        }
    }
}

/// What a reader of a snapshot puts up with: where gaps are faults, any row that
/// is no entry; otherwise only a failed read; and for best effort nothing.
pub proof fn law_snapshot_faults(rows: Seq<SnapshotRow>, how: Strictness)
    ensures
        rows_fault(rows, how) is Some <==> exists|i: int|
            0 <= i < rows.len() && match how {
                Strictness::Corruption | Strictness::Missing => !(#[trigger] rows[i] is Entry),
                Strictness::Lenient => rows[i] is Failed,
                Strictness::BestEffort => false,
            },
    decreases rows.len(),
{
    if rows.len() > 0 {
        let front = rows.drop_last();
        law_snapshot_faults(front, how);
        assert(rows.last() == rows[rows.len() - 1]);
        assert forall|i: int| 0 <= i < front.len() implies #[trigger] front[i] == rows[i] by {}
        if rows_fault(front, how) is Some {
            let i = choose|i: int|
                0 <= i < front.len() && match how {
                    Strictness::Corruption | Strictness::Missing => !(#[trigger] front[i] is Entry),
                    Strictness::Lenient => front[i] is Failed,
                    Strictness::BestEffort => false,
                };
            assert(front[i] == rows[i]);
        }
        if exists|i: int|
            0 <= i < rows.len() && match how {
                Strictness::Corruption | Strictness::Missing => !(#[trigger] rows[i] is Entry),
                Strictness::Lenient => rows[i] is Failed,
                Strictness::BestEffort => false,
            } {
            let i = choose|i: int|
                0 <= i < rows.len() && match how {
                    Strictness::Corruption | Strictness::Missing => !(#[trigger] rows[i] is Entry),
                    Strictness::Lenient => rows[i] is Failed,
                    Strictness::BestEffort => false,
                };
            if i < front.len() {
                assert(front[i] == rows[i]);
            }
        }
    }
}

proof fn lemma_gather(
    prevs: Seq<Seq<char>>,
    answers: Seq<PrevAnswer>,
    k: int,
    sets: Seq<StateIds>,
)
    requires
        0 <= k <= prevs.len(),
        k <= answers.len(),
    ensures
        ({
            let gives = |a: PrevAnswer|
                a is Stored || (a matches PrevAnswer::Fetched(rows) && rows@.len() > 0);
            let state = |a: PrevAnswer|
                match a {
                    PrevAnswer::Stored(rows) => rows_state(rows@),
                    PrevAnswer::Fetched(rows) => rows_state(rows@),
                    _ => Map::<StateKey, Seq<char>>::empty(),
                };
            let n = prevs.len() as int;
            match gather(prevs, answers, k, sets) {
                Ok(out) => {
                    &&& n <= answers.len()
                    &&& out == sets + answers.subrange(k, n).filter(gives).map_values(state)
                    &&& forall|j: int|
                        k <= j < n ==> !(#[trigger] answers[j] is Failed) && !(answers[j] is Missing)
                },
                Err(StateBeforeView::LookupPrev { event_id }) => {
                    &&& answers.len() < n
                    &&& event_id == prevs[answers.len() as int]
                    &&& forall|j: int|
                        k <= j < answers.len() ==> !(#[trigger] answers[j] is Failed) && !(
                        answers[j] is Missing)
                },
                Err(StateBeforeView::Failed { reason }) => exists|j: int|
                    k <= j < n && j < answers.len() && contribution(#[trigger] answers[j], prevs[j])
                        == Err::<Option<StateIds>, Seq<char>>(reason),
                Err(_) => false,
            }
        }),
    decreases prevs.len() - k,
{
    let gives = |a: PrevAnswer|
        a is Stored || (a matches PrevAnswer::Fetched(rows) && rows@.len() > 0);
    let state = |a: PrevAnswer|
        match a {
            PrevAnswer::Stored(rows) => rows_state(rows@),
            PrevAnswer::Fetched(rows) => rows_state(rows@),
            _ => Map::<StateKey, Seq<char>>::empty(),
        };
    let n = prevs.len() as int;
    if k >= n {
        assert(answers.subrange(k, n) =~= seq![]);
        reveal(Seq::filter);
        assert(sets + answers.subrange(k, n).filter(gives).map_values(state) =~= sets);
    } else if k < answers.len() {
        match contribution(answers[k], prevs[k]) {
            Err(_) => {},
            Ok(c) => {
                let more = match c {
                    Some(s) => sets.push(s),
                    None => sets,
                };
                lemma_gather(prevs, answers, k + 1, more);
                if gather(prevs, answers, k + 1, more) is Ok {
                    let rest = answers.subrange(k + 1, n);
                    assert(answers.subrange(k, n) =~= seq![answers[k]] + rest);
                    rest.lemma_filter_prepend(answers[k], gives);
                    let tail = rest.filter(gives);
                    if gives(answers[k]) {
                        assert(c == Some(state(answers[k])));
                        assert(sets + (seq![answers[k]] + tail).map_values(state) =~= more
                            + tail.map_values(state));
                    } else {
                        assert(c is None);
                        assert((Seq::<PrevAnswer>::empty() + tail) =~= tail);
                    }
                }
            },
        }
    }
}

/// The state before an event takes in every branch of the room's history that
/// leads to it. Once each predecessor was answered for, the states to resolve are
/// those after the predecessors that have one, one each, in the order in which the
/// event names them: none is left out, and there is no other. Only where all of
/// them are empty does the state count that the sending server names. A
/// predecessor that is not answered for is looked up, the first one first.
pub proof fn law_every_branch_counts(
    prevs: Seq<Seq<char>>,
    answers: Seq<PrevAnswer>,
    ids: Option<Seq<SnapshotRow>>,
)
    ensures
        ({
            let n = prevs.len() as int;
            let gives = |a: PrevAnswer|
                a is Stored || (a matches PrevAnswer::Fetched(rows) && rows@.len() > 0);
            let state = |a: PrevAnswer|
                match a {
                    PrevAnswer::Stored(rows) => rows_state(rows@),
                    PrevAnswer::Fetched(rows) => rows_state(rows@),
                    _ => Map::<StateKey, Seq<char>>::empty(),
                };
            let given = answers.take(n).filter(gives);
            let known = exists|j: int|
                0 <= j < n && gives(#[trigger] answers[j]) && state(answers[j]) != Map::<
                    StateKey,
                    Seq<char>,
                >::empty();
            match state_before(prevs, answers, ids) {
                StateBeforeView::Resolve { sets } => {
                    &&& n <= answers.len()
                    &&& forall|j: int|
                        0 <= j < n ==> !(#[trigger] answers[j] is Failed) && !(answers[j] is Missing)
                    &&& given.len() > 0
                    &&& known ==> {
                        &&& sets == given.map_values(state)
                        &&& sets.len() == given.len()
                        &&& forall|j: int|
                            0 <= j < n && gives(#[trigger] answers[j]) ==> sets.contains(
                                state(answers[j]),
                            )
                    }
                    &&& !known ==> ids is Some && (sets == seq![rows_state(ids->0)] || (rows_state(
                        ids->0,
                    ) == Map::<StateKey, Seq<char>>::empty() && sets.len() == given.len()))
                },
                StateBeforeView::NoState => n <= answers.len() && given.len() == 0 && forall|j: int|
                    0 <= j < n ==> !(#[trigger] answers[j] is Failed) && !(answers[j] is Missing),
                StateBeforeView::FetchStateIds => n <= answers.len() && ids is None && !known
                    && given.len() > 0,
                StateBeforeView::LookupPrev { event_id } => {
                    &&& answers.len() < n
                    &&& event_id == prevs[answers.len() as int]
                    &&& forall|j: int|
                        0 <= j < answers.len() ==> !(#[trigger] answers[j] is Failed) && !(
                        answers[j] is Missing)
                },
                StateBeforeView::Failed { reason } => exists|j: int|
                    0 <= j < n && j < answers.len() && match #[trigger] answers[j] {
                        PrevAnswer::Failed(e) => reason == "db: "@ + e@,
                        PrevAnswer::Missing => reason == "unknown prev_event "@ + prevs[j],
                        PrevAnswer::Stored(rows) => exists|i: int|
                            0 <= i < rows@.len() && !(#[trigger] rows@[i] is Entry),
                        PrevAnswer::Fetched(rows) => exists|i: int|
                            0 <= i < rows@.len() && #[trigger] rows@[i] is Failed,
                        PrevAnswer::Rejected => false,
                    },
            }
        }),
{
    let n = prevs.len() as int;
    let gives = |a: PrevAnswer|
        a is Stored || (a matches PrevAnswer::Fetched(rows) && rows@.len() > 0);
    let state = |a: PrevAnswer|
        match a {
            PrevAnswer::Stored(rows) => rows_state(rows@),
            PrevAnswer::Fetched(rows) => rows_state(rows@),
            _ => Map::<StateKey, Seq<char>>::empty(),
        };
    lemma_gather(prevs, answers, 0, seq![]);
    match gather(prevs, answers, 0, seq![]) {
        Ok(sets) => {
            let first = answers.take(n);
            let given = first.filter(gives);
            assert(answers.subrange(0, n) =~= first);
            assert(sets =~= given.map_values(state));
            assert forall|j: int| 0 <= j < n && gives(#[trigger] answers[j]) implies sets.contains(
                state(answers[j]),
            ) by {
                assert(first[j] == answers[j]);
                first.lemma_filter_contains(gives, j);
                let i = choose|i: int| 0 <= i < given.len() && given[i] == answers[j];
                assert(sets[i] == state(answers[j]));
            }
            let known = exists|j: int|
                0 <= j < n && gives(#[trigger] answers[j]) && state(answers[j]) != Map::<
                    StateKey,
                    Seq<char>,
                >::empty();
            if known {
                let j = choose|j: int|
                    0 <= j < n && gives(#[trigger] answers[j]) && state(answers[j]) != Map::<
                        StateKey,
                        Seq<char>,
                    >::empty();
                assert(sets.contains(state(answers[j])));
                let i = choose|i: int| 0 <= i < sets.len() && sets[i] == state(answers[j]);
                assert(sets[i] != Map::<StateKey, Seq<char>>::empty());
                assert(!all_empty(sets));
            } else {
                assert forall|i: int| 0 <= i < sets.len() implies #[trigger] sets[i] == Map::<
                    StateKey,
                    Seq<char>,
                >::empty() by {
                    first.lemma_filter_pred(gives, i);
                    assert(given.contains(given[i]));
                    first.lemma_filter_contains_rev(gives, given[i]);
                    let j = choose|j: int| 0 <= j < first.len() && first[j] == given[i];
                    assert(answers[j] == given[i]);
                    assert(gives(answers[j]));
                }
            }
        },
        Err(StateBeforeView::Failed { reason }) => {
            let j = choose|j: int|
                0 <= j < n && j < answers.len() && contribution(#[trigger] answers[j], prevs[j])
                    == Err::<Option<StateIds>, Seq<char>>(reason);
            match answers[j] {
                PrevAnswer::Stored(rows) => {
                    law_snapshot_faults(rows@, Strictness::Corruption);
                },
                PrevAnswer::Fetched(rows) => {
                    law_snapshot_faults(rows@, Strictness::Lenient);
                },
                _ => {},
            }
        },
        Err(_) => {},
    }
}

/// The state before a stored event takes in every predecessor: there is one state
/// for each, the one after it, in order. It cannot be worked out exactly if one of
/// them cannot be read, or lacks an event of its state.
pub proof fn law_stored_branches(v: Seq<SnapshotLookup>)
    ensures
        match snapshot_sets(v) {
            Ok(sets) => sets.len() == v.len() && forall|i: int|
                0 <= i < v.len() ==> (#[trigger] v[i] matches SnapshotLookup::Rows(rows) && sets[i]
                    == rows_state(rows@) && forall|j: int|
                    0 <= j < rows@.len() ==> #[trigger] rows@[j] is Entry),
            Err(e) => exists|i: int|
                0 <= i < v.len() && match #[trigger] v[i] {
                    SnapshotLookup::Failed(x) => e == "db: "@ + x@,
                    SnapshotLookup::Rows(rows) => exists|j: int|
                        0 <= j < rows@.len() && !(#[trigger] rows@[j] is Entry),
                },
        },
    decreases v.len(),
{
    if v.len() > 0 {
        let front = v.drop_last();
        law_stored_branches(front);
        let n = v.len() - 1;
        assert(v.last() == v[n]);
        match v[n] {
            SnapshotLookup::Rows(rows) => {
                law_snapshot_faults(rows@, Strictness::Missing);
            },
            _ => {},
        }
        match snapshot_sets(front) {
            Err(e) => {
                let i = choose|i: int|
                    0 <= i < front.len() && match #[trigger] front[i] {
                        SnapshotLookup::Failed(x) => e == "db: "@ + x@,
                        SnapshotLookup::Rows(rows) => exists|j: int|
                            0 <= j < rows@.len() && !(#[trigger] rows@[j] is Entry),
                    };
                assert(v[i] == front[i]);
            },
            Ok(sets) => {
                assert forall|i: int| 0 <= i < front.len() implies #[trigger] v[i] == front[i] by {}
            },
        }
    }
}

/// The room's current state holds for each key the last entry that could be read.
pub proof fn law_current_state(v: Seq<StateEntry>, key: StateKey)
    ensures
        forall|i: int|
            0 <= i < v.len() && (#[trigger] v[i]).pdu is Some && v[i].event_type@ == key.0
                && opt_string(v[i].state_key).unwrap_or(seq![]) == key.1 && (forall|j: int|
                i < j < v.len() ==> !((#[trigger] v[j]).pdu is Some && v[j].event_type@ == key.0
                    && opt_string(v[j].state_key).unwrap_or(seq![]) == key.1)) ==> last_readable(v, key)
                == Some(v[i].pdu->0@),
        last_readable(v, key) is Some ==> exists|i: int|
            0 <= i < v.len() && (#[trigger] v[i]).pdu is Some && v[i].event_type@ == key.0
                && opt_string(v[i].state_key).unwrap_or(seq![]) == key.1,
    decreases v.len(),
{
    if v.len() > 0 {
        let front = v.drop_last();
        let n = v.len() - 1;
        law_current_state(front, key);
        assert(v.last() == v[n]);
        assert forall|i: int|
            0 <= i < v.len() && (#[trigger] v[i]).pdu is Some && v[i].event_type@ == key.0
                && opt_string(v[i].state_key).unwrap_or(seq![]) == key.1 && (forall|j: int|
                i < j < v.len() ==> !((#[trigger] v[j]).pdu is Some && v[j].event_type@ == key.0
                    && opt_string(v[j].state_key).unwrap_or(seq![]) == key.1)) implies last_readable(
            v,
            key,
        ) == Some(v[i].pdu->0@) by {
            if i < n {
                assert(!(v[n].pdu is Some && entry_key(v[n]) == key));
                assert(front[i] == v[i]);
                assert forall|j: int| i < j < front.len() implies !((
                #[trigger] front[j]).pdu is Some && front[j].event_type@ == key.0 && opt_string(
                    front[j].state_key,
                ).unwrap_or(seq![]) == key.1) by {
                    assert(front[j] == v[j]);
                }
            }
        }
        if last_readable(v, key) is Some && !(v[n].pdu is Some && entry_key(v[n]) == key) {
            let i = choose|i: int|
                0 <= i < front.len() && (#[trigger] front[i]).pdu is Some && front[i].event_type@
                    == key.0 && opt_string(front[i].state_key).unwrap_or(seq![]) == key.1;
            assert(v[i] == front[i]);
        }
    }
}

/// The membership that stands in for a sender's is the first of the auth events
/// that is one, by type and state key, and could be read; there is none only if
/// no auth event is.
pub proof fn law_stand_ins(v: Seq<AuthEvent>, user: Seq<char>)
    ensures
        ({
            let is_own = |a: AuthEvent|
                a.json matches Some(e) && e@.get("type"@) == Some(JsonView::Str("m.room.member"@))
                    && (e@.get("state_key"@) == Some(JsonView::Str(user)) || (user.len() == 0
                    && !(e@.get("state_key"@) matches Some(JsonView::Str(_)))));
            match first_stand_in(v, user) {
                Some(p) => exists|i: int|
                    0 <= i < v.len() && is_own(#[trigger] v[i]) && v[i].pdu is Some && v[i].pdu->0@
                        == p && forall|j: int|
                        0 <= j < i ==> !(is_own(#[trigger] v[j]) && v[j].pdu is Some),
                None => forall|i: int|
                    0 <= i < v.len() ==> !(is_own(#[trigger] v[i]) && v[i].pdu is Some),
            }
        }),
    decreases v.len(),
{
    let is_own = |a: AuthEvent|
        a.json matches Some(e) && e@.get("type"@) == Some(JsonView::Str("m.room.member"@)) && (
        e@.get("state_key"@) == Some(JsonView::Str(user)) || (user.len() == 0 && !(e@.get(
            "state_key"@,
        ) matches Some(JsonView::Str(_)))));
    reveal_strlit("");
    if v.len() > 0 {
        let rest = v.drop_first();
        law_stand_ins(rest, user);
        assert(user.len() == 0 ==> user =~= ""@);
        assert(stands_in(v[0], user) == (is_own(v[0]) && v[0].pdu is Some));
        if !stands_in(v[0], user) {
            match first_stand_in(rest, user) {
                Some(p) => {
                    let i = choose|i: int|
                        0 <= i < rest.len() && is_own(#[trigger] rest[i]) && rest[i].pdu is Some
                            && rest[i].pdu->0@ == p && forall|j: int|
                            0 <= j < i ==> !(is_own(#[trigger] rest[j]) && rest[j].pdu is Some);
                    assert(v[i + 1] == rest[i]);
                    assert forall|j: int| 0 <= j < i + 1 implies !(is_own(#[trigger] v[j])
                        && v[j].pdu is Some) by {
                        if j > 0 {
                            assert(v[j] == rest[j - 1]);
                        }
                    }
                },
                None => {
                    assert forall|i: int| 0 <= i < v.len() implies !(is_own(#[trigger] v[i])
                        && v[i].pdu is Some) by {
                        if i > 0 {
                            assert(v[i] == rest[i - 1]);
                        }
                    }
                },
            }
        }
    }
}

/// The membership that is made visible while a room's state is fetched is the
/// stored number of the first auth event that is the sender's membership; there
/// is none only if no auth event that has a number is.
pub proof fn law_promoted_members(v: Seq<AuthEvent>, user: Seq<char>)
    ensures
        ({
            let is_own = |a: AuthEvent|
                a.json matches Some(e) && e@.get("type"@) == Some(JsonView::Str("m.room.member"@))
                    && (e@.get("state_key"@) == Some(JsonView::Str(user)) || (user.len() == 0
                    && !(e@.get("state_key"@) matches Some(JsonView::Str(_)))));
            match first_member_nid(v, user) {
                Some(n) => exists|i: int|
                    0 <= i < v.len() && is_own(#[trigger] v[i]) && v[i].nid == Some(n) && forall|
                        j: int,
                    | 0 <= j < i ==> !(is_own(#[trigger] v[j]) && v[j].nid is Some),
                None => forall|i: int|
                    0 <= i < v.len() ==> !(is_own(#[trigger] v[i]) && v[i].nid is Some),
            }
        }),
    decreases v.len(),
{
    let is_own = |a: AuthEvent|
        a.json matches Some(e) && e@.get("type"@) == Some(JsonView::Str("m.room.member"@)) && (
        e@.get("state_key"@) == Some(JsonView::Str(user)) || (user.len() == 0 && !(e@.get(
            "state_key"@,
        ) matches Some(JsonView::Str(_)))));
    reveal_strlit("");
    if v.len() > 0 {
        let rest = v.drop_first();
        law_promoted_members(rest, user);
        assert(user.len() == 0 ==> user =~= ""@);
        assert(is_member_of(json_of(v[0].json), user) == is_own(v[0]));
        if !(is_own(v[0]) && v[0].nid is Some) {
            match first_member_nid(rest, user) {
                Some(n) => {
                    let i = choose|i: int|
                        0 <= i < rest.len() && is_own(#[trigger] rest[i]) && rest[i].nid == Some(n)
                            && forall|j: int|
                            0 <= j < i ==> !(is_own(#[trigger] rest[j]) && rest[j].nid is Some);
                    assert(v[i + 1] == rest[i]);
                    assert forall|j: int| 0 <= j < i + 1 implies !(is_own(#[trigger] v[j])
                        && v[j].nid is Some) by {
                        if j > 0 {
                            assert(v[j] == rest[j - 1]);
                        }
                    }
                },
                None => {
                    assert forall|i: int| 0 <= i < v.len() implies !(is_own(#[trigger] v[i])
                        && v[i].nid is Some) by {
                        if i > 0 {
                            assert(v[i] == rest[i - 1]);
                        }
                    }
                },
            }
        } else {
            assert(is_own(v[0]) && v[0].nid == first_member_nid(v, user));
        }
    }
}

/// Leaving is let pass only on the strength of an auth event that is the user's
/// own membership and says joined, invited or knocking; each of the three does.
pub proof fn law_leavable(event: JsonView, user: Seq<char>)
    requires
        event.get("state_key"@) matches Some(JsonView::Str(_)),
    ensures
        shows_leavable(Some(event), user) <==> {
            &&& event.get("type"@) == Some(JsonView::Str("m.room.member"@))
            &&& event.get("state_key"@) == Some(JsonView::Str(user))
            &&& event.get("content"@) matches Some(c) && (c.get("membership"@) == Some(
                JsonView::Str("join"@),
            ) || c.get("membership"@) == Some(JsonView::Str("invite"@)) || c.get("membership"@)
                == Some(JsonView::Str("knock"@)))
        },
        !shows_leavable(None, user),
{
}

/// The auth events of an event, read as state: under each key the last of them
/// that is state, and under no key one that is not.
pub proof fn law_auth_view(v: Seq<Pdu>, key: StateKey)
    ensures
        forall|i: int|
            0 <= i < v.len() && (#[trigger] v[i]).event_type@ == key.0 && opt_string(v[i].state_key)
                == Some(key.1) && (forall|j: int|
                i < j < v.len() ==> !((#[trigger] v[j]).event_type@ == key.0 && opt_string(
                    v[j].state_key,
                ) == Some(key.1))) ==> last_auth(v, key) == Some(v[i]@),
        last_auth(v, key) is Some ==> exists|i: int|
            0 <= i < v.len() && (#[trigger] v[i]).event_type@ == key.0 && opt_string(v[i].state_key)
                == Some(key.1),
    decreases v.len(),
{
    if v.len() > 0 {
        let front = v.drop_last();
        let n = v.len() - 1;
        law_auth_view(front, key);
        assert(v.last() == v[n]);
        assert forall|i: int|
            0 <= i < v.len() && (#[trigger] v[i]).event_type@ == key.0 && opt_string(v[i].state_key)
                == Some(key.1) && (forall|j: int|
                i < j < v.len() ==> !((#[trigger] v[j]).event_type@ == key.0 && opt_string(
                    v[j].state_key,
                ) == Some(key.1))) implies last_auth(v, key) == Some(v[i]@) by {
            if i < n {
                assert(!(v[n].event_type@ == key.0 && opt_string(v[n].state_key) == Some(key.1)));
                assert(front[i] == v[i]);
                assert forall|j: int| i < j < front.len() implies !((
                #[trigger] front[j]).event_type@ == key.0 && opt_string(front[j].state_key) == Some(
                    key.1,
                )) by {
                    assert(front[j] == v[j]);
                }
            }
        }
        if last_auth(v, key) is Some && !(v[n].event_type@ == key.0 && opt_string(v[n].state_key)
            == Some(key.1)) {
            let i = choose|i: int|
                0 <= i < front.len() && (#[trigger] front[i]).event_type@ == key.0 && opt_string(
                    front[i].state_key,
                ) == Some(key.1);
            assert(v[i] == front[i]);
        }
    }
}

/// A room's create event is added exactly under its own key, to a state that has
/// none there, and never from the stripped state of an invite.
pub proof fn law_create_is_added(found: Option<PduView>, key: StateKey, create: Option<PduView>)
    ensures
        found is None && key == ("m.room.create"@, ""@) && create is Some
            && !"$invite-stripped:"@.is_prefix_of(create->0.event_id) ==> with_create(
            found,
            key,
            create,
        ) == create,
        found is None && key != ("m.room.create"@, ""@) ==> with_create(found, key, create) is None,
        found is None && create is Some && "$invite-stripped:"@.is_prefix_of(create->0.event_id)
            ==> with_create(found, key, create) is None,
{
}

/// The steps for a predecessor come one after the other, each once: the store,
/// the record of rejected events, the sending server, the store again, the state
/// after it.
pub proof fn law_predecessor_steps(f: PrevFacts)
    ensures
        match prev_next(f) {
            PrevView::Lookup => f.stored is None,
            PrevView::CheckRejected => f.stored == Some(Ok::<Option<u64>, String>(None))
                && f.rejected is None,
            PrevView::Fetch => f.stored == Some(Ok::<Option<u64>, String>(None)) && f.rejected
                == Some(false) && f.fetched is None,
            PrevView::TakeIn { event, kind } => f.rejected == Some(false) && f.taken is None && (
            f.fetched matches Some(Some(e)) && e@ == event) && kind == FetchKind::MissingTimeline,
            PrevView::LookupAgain => f.taken == Some(true) && f.stored_now is None,
            PrevView::LoadSnapshot { event } => f.snapshot is None && (f.stored == Some(
                Ok::<Option<u64>, String>(Some(event)),
            ) || (f.stored == Some(Ok::<Option<u64>, String>(None)) && f.taken == Some(true)
                && f.stored_now == Some(Ok::<Option<u64>, String>(Some(event))))),
            PrevView::Done => {
                ||| f.stored matches Some(Err(_))
                ||| f.stored matches Some(Ok(Some(_))) && f.snapshot is Some
                ||| f.rejected == Some(true)
                ||| f.fetched == Some(None::<Json>)
                ||| f.taken == Some(false)
                ||| f.taken == Some(true) && f.stored_now is Some && (
                f.stored_now matches Some(Ok(Some(_))) ==> f.snapshot is Some)
            },
        },
{
}

/// The state that the sending server names consists of all the events that it
/// names and that are stored in the end, in order. An event is fetched only if it
/// is not stored, and taken in as context.
pub proof fn law_named_state(f: NamedFacts)
    ensures
        match named_next(f) {
            NamedView::Ask => f.reply is None,
            NamedView::Lookup { event_id } => f.stored is None && (f.reply matches Some(Ok(v))
                && f.found@.len() < list_strings(v@, "pdu_ids"@).len() && event_id == list_strings(
                v@,
                "pdu_ids"@,
            )[f.found@.len() as int]),
            NamedView::Fetch { event_id } => f.stored == Some(None::<u64>) && f.fetched is None && (
            f.reply matches Some(Ok(v)) && event_id == list_strings(v@, "pdu_ids"@)[f.found@.len() as int]),
            NamedView::TakeIn { event, kind } => f.stored == Some(None::<u64>) && !f.taken && (
            f.fetched matches Some(Some(e)) && e@ == event) && kind == FetchKind::AuthChain,
            NamedView::LookupAgain { event_id } => f.stored == Some(None::<u64>) && f.fetched is Some
                && f.stored_now is None && (f.fetched matches Some(Some(_)) ==> f.taken) && (
            f.reply matches Some(Ok(v)) && event_id == list_strings(v@, "pdu_ids"@)[f.found@.len() as int]),
            NamedView::Note { found } => (found is Some && f.stored == Some(found)) || (f.stored
                == Some(None::<u64>) && f.stored_now == Some(found)),
            NamedView::Done { events } => events == f.found@.filter_map(|o: Option<u64>| o) && (
            f.reply matches Some(Ok(v)) ==> list_strings(v@, "pdu_ids"@).len() <= f.found@.len()),
        },
{
    law_references(f.found@);
}

} // verus!
