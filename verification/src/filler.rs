//! Completing rooms that were joined with part of their state: which server is
//! asked for the rest, what is made of its answer, and when to try again.

use dashmap::DashMap;
use vstd::prelude::*;
use vstd::string::*;

use crate::intake::PersistKind;
use crate::json::collect_strings;
use crate::json::law_strings;
use crate::json::lemma_values_push;
use crate::json::members;
use crate::json::put;
use crate::json::strings_in;
use crate::json::values;
use crate::json::Json;
use crate::json::JsonView;
use crate::keys::capped_sum;
use crate::observers::holds_nid;
use crate::observers::local_observers;
use crate::observers::locals_among;
use crate::observers::Member;
use crate::pdu::membership_byte;
use crate::pdu::membership_code;
use crate::text::cat;
use crate::text::cat3;
use crate::text::cat4;
use crate::text::decimal;
use crate::text::number_text;
use crate::text::str_eq;
use crate::text::texts;
use crate::transaction::elements;
use crate::fetch::state_ids_reply;
use crate::fetch::state_reply;

verus! {

/// The first delay after a failure, in milliseconds; it doubles with each
/// further one.
pub const INITIAL_BACKOFF_MS: u64 = 2_000;

/// The longest delay after a failure.
pub const MAX_BACKOFF_MS: u64 = 300_000;

/// After this long without a success a room is left as it is.
pub const DEAD_AFTER_MS: u64 = 86_400_000;

/// How often to look for rooms when there is nothing to do.
pub const IDLE_SCAN_MS: u64 = 60_000;

/// The failure clocks of rooms by room number: when the first failure came, the
/// delay that followed the last one, and when to try again.
pub uninterp spec fn clocks(m: DashMap<u64, (u64, u64, u64)>) -> Map<u64, (u64, u64, u64)>;

/// `DashMap::new`: a map without entries.
#[verifier::external_body]
fn new_clocks() -> (r: DashMap<u64, (u64, u64, u64)>)
    ensures
        forall|k: u64| !clocks(r).dom().contains(k),
{
    DashMap::new()
}

/// `DashMap::get`: the value under a key, if there is one.
#[verifier::external_body]
fn clock_of(m: &DashMap<u64, (u64, u64, u64)>, room: u64) -> (r: Option<(u64, u64, u64)>)
    ensures
        r == (if clocks(*m).dom().contains(room) {
            Some(clocks(*m)[room])
        } else {
            None
        }),
{
    m.get(&room).map(|e| *e.value())
}

/// `DashMap::insert`: puts a value under a key, in place of the one that was
/// there. The exclusive borrow rules out that another thread changes the map
/// meanwhile.
#[verifier::external_body]
fn set_clock(m: &mut DashMap<u64, (u64, u64, u64)>, room: u64, clock: (u64, u64, u64))
    ensures
        clocks(*final(m)) == clocks(*old(m)).insert(room, clock),
{
    m.insert(room, clock);
}

/// `DashMap::remove`: takes a key and its value out; nothing changes if there is
/// none. The exclusive borrow rules out that another thread changes the map
/// meanwhile.
#[verifier::external_body]
fn drop_clock(m: &mut DashMap<u64, (u64, u64, u64)>, room: u64)
    ensures
        clocks(*final(m)) == clocks(*old(m)).remove(room),
{
    m.remove(&room);
}

/// How a room has failed so far.
pub struct FailureClock {
    pub first_failure: u64,
    pub delay: u64,
    pub retry_at: u64,
}

/// What came of an attempt to complete a room.
#[derive(Clone, Copy, PartialEq, Eq, Structural, Debug)]
pub enum FillOutcome {
    Filled,
    /// The room had been completed already.
    AlreadyFull,
    Failed,
}

/// What follows from an attempt.
#[derive(Clone, Copy, PartialEq, Eq, Structural, Debug)]
pub enum FillVerdict {
    /// The room is complete.
    Done,
    /// Nothing to note.
    Skip,
    /// Try again after this long.
    Retry(u64),
    /// The room is given up.
    DeadLettered,
}

/// What the worker does next.
#[derive(Clone, Copy, PartialEq, Eq, Structural, Debug)]
pub enum WorkerStep {
    /// Wait this long, whatever happens.
    Pause(u64),
    /// Wait until woken, or this long.
    Wait(u64),
}

/// The worker that completes rooms: whether it runs, whether someone woke it,
/// and how each room has failed.
pub struct PartialStateFiller {
    running: bool,
    woken: bool,
    failures: DashMap<u64, (u64, u64, u64)>,
}

/// A delay doubled, up to the longest.
pub open spec fn doubled(delay: u64) -> u64 {
    if delay * 2 <= MAX_BACKOFF_MS {
        (delay * 2) as u64
    } else {
        MAX_BACKOFF_MS
    }
}

/// Whether a room that failed like this has been given up at a time.
pub open spec fn is_dead(c: FailureClock, now: u64) -> bool {
    now - c.first_failure > DEAD_AFTER_MS
}

/// The clock of a room after a failure.
pub open spec fn clock_after(c: Option<FailureClock>, now: u64) -> FailureClock {
    match c {
        None => FailureClock {
            first_failure: now,
            delay: INITIAL_BACKOFF_MS,
            retry_at: capped_sum(now, INITIAL_BACKOFF_MS),
        },
        Some(c) => FailureClock {
            first_failure: c.first_failure,
            delay: doubled(c.delay),
            retry_at: capped_sum(now, doubled(c.delay)),
        },
    }
}

/// What an attempt leaves of a room's clock, and what follows from it.
pub open spec fn after_attempt(c: Option<FailureClock>, outcome: FillOutcome, now: u64) -> (
    Option<FailureClock>,
    FillVerdict,
) {
    match outcome {
        FillOutcome::Filled => (None, FillVerdict::Done),
        FillOutcome::AlreadyFull => (c, FillVerdict::Skip),
        FillOutcome::Failed => if c is Some && is_dead(c->0, now) {
            (c, FillVerdict::DeadLettered)
        } else {
            (Some(clock_after(c, now)), FillVerdict::Retry(clock_after(c, now).delay))
        },
    }
}

/// Whether a room is to be tried at a time.
pub open spec fn is_due(c: Option<FailureClock>, now: u64) -> bool {
    match c {
        None => true,
        Some(c) => !is_dead(c, now) && c.retry_at <= now,
    }
}

/// How long a room is left alone from a time on; `None` for one that is given
/// up. A room that has not failed, or was completed, leaves the worker the
/// shortest rest between two passes.
pub open spec fn wait_of(c: Option<FailureClock>, now: u64) -> Option<u64> {
    match c {
        None => Some(INITIAL_BACKOFF_MS),
        Some(c) => if is_dead(c, now) {
            None
        } else if c.retry_at <= now {
            Some(0)
        } else {
            Some((c.retry_at - now) as u64)
        },
    }
}

impl PartialStateFiller {
    /// Whether the worker runs.
    pub closed spec fn is_running(self) -> bool {
        self.running
    }

    /// Whether someone woke it.
    pub closed spec fn is_woken(self) -> bool {
        self.woken
    }

    /// Every delay lies between the first and the longest.
    pub closed spec fn wf(self) -> bool {
        forall|k: u64| #[trigger]
            clocks(self.failures).dom().contains(k) ==> INITIAL_BACKOFF_MS <= clocks(
                self.failures,
            )[k].1 <= MAX_BACKOFF_MS
    }

    /// How a room has failed so far, if it has.
    pub closed spec fn clock(self, room: u64) -> Option<FailureClock> {
        if clocks(self.failures).dom().contains(room) {
            let c = clocks(self.failures)[room];
            Some(FailureClock { first_failure: c.0, delay: c.1, retry_at: c.2 })
        } else {
            None
        }
    }

    /// A worker that does not run yet and knows of no failure.
    pub fn new() -> (r: Self)
        ensures
            r.wf(),
            !r.is_running(),
            !r.is_woken(),
            forall|k: u64| #[trigger] r.clock(k) is None,
    {
        PartialStateFiller { running: false, woken: false, failures: new_clocks() }
    }

    /// Whether the worker runs.
    pub fn running(&self) -> (r: bool)
        ensures
            r == self.is_running(),
    {
        self.running
    }

    /// Marks the worker as running; says whether it was not.
    pub fn start_if_idle(&mut self) -> (r: bool)
        requires
            old(self).wf(),
        ensures
            final(self).wf(),
            r == !old(self).is_running(),
            final(self).is_running(),
            final(self).is_woken() == old(self).is_woken(),
            forall|k: u64| #[trigger] final(self).clock(k) == old(self).clock(k),
    {
        let idle = !self.running;
        self.running = true;
        idle
    }

    /// Wakes the worker, now or when it next waits.
    pub fn notify(&mut self)
        requires
            old(self).wf(),
        ensures
            final(self).wf(),
            final(self).is_woken(),
            final(self).is_running() == old(self).is_running(),
            forall|k: u64| #[trigger] final(self).clock(k) == old(self).clock(k),
    {
        self.woken = true;
    }

    /// Takes the wake-up, if there is one.
    pub fn notified(&mut self) -> (r: bool)
        requires
            old(self).wf(),
        ensures
            final(self).wf(),
            r == old(self).is_woken(),
            !final(self).is_woken(),
            final(self).is_running() == old(self).is_running(),
            forall|k: u64| #[trigger] final(self).clock(k) == old(self).clock(k),
    {
        let woken = self.woken;
        self.woken = false;
        woken
    }

    fn look(&self, room: u64) -> (r: Option<FailureClock>)
        ensures
            r == self.clock(room),
    {
        match clock_of(&self.failures, room) {
            Some(c) => Some(FailureClock { first_failure: c.0, delay: c.1, retry_at: c.2 }),
            None => None,
        }
    }

    /// Whether a room is to be tried now.
    pub fn is_due(&self, room: u64, now: u64) -> (r: bool)
        ensures
            r == is_due(self.clock(room), now),
    {
        match self.look(room) {
            None => true,
            Some(c) => now.saturating_sub(c.first_failure) <= DEAD_AFTER_MS && c.retry_at <= now,
        }
    }

    /// Notes what came of an attempt. A success forgets the failures; a failure
    /// doubles the delay, until after a day without success the room is given
    /// up.
    pub fn record(&mut self, room: u64, outcome: FillOutcome, now: u64) -> (r: FillVerdict)
        requires
            old(self).wf(),
        ensures
            final(self).wf(),
            final(self).is_running() == old(self).is_running(),
            final(self).is_woken() == old(self).is_woken(),
            (final(self).clock(room), r) == after_attempt(old(self).clock(room), outcome, now),
            forall|k: u64| k != room ==> #[trigger] final(self).clock(k) == old(self).clock(k),
    {
        match outcome {
            FillOutcome::Filled => {
                drop_clock(&mut self.failures, room);
                FillVerdict::Done
            },
            FillOutcome::AlreadyFull => FillVerdict::Skip,
            FillOutcome::Failed => {
                let (first, delay): (u64, u64) = match self.look(room) {
                    None => (now, INITIAL_BACKOFF_MS),
                    Some(c) => {
                        if now.saturating_sub(c.first_failure) > DEAD_AFTER_MS {
                            return FillVerdict::DeadLettered;
                        }
                        if c.delay <= MAX_BACKOFF_MS / 2 {
                            (c.first_failure, c.delay * 2)
                        } else {
                            (c.first_failure, MAX_BACKOFF_MS)
                        }
                    },
                };
                set_clock(&mut self.failures, room, (first, delay, now.saturating_add(delay)));
                FillVerdict::Retry(delay)
            },
        }
    }

    /// What the worker does once it has been through the rooms: pauses if they
    /// could not be listed; otherwise waits for the first that is due again, no
    /// longer than the first delay if one of them is not failing, or a minute if
    /// there is none.
    pub fn rest(&self, rooms: Option<&Vec<u64>>, now: u64) -> (r: WorkerStep)
        ensures
            match rooms {
                None => r == WorkerStep::Pause(INITIAL_BACKOFF_MS),
                Some(v) => r matches WorkerStep::Wait(ms) && is_first_wait(*self, v@, now, ms),
            },
    {
        let v = match rooms {
            None => {
                return WorkerStep::Pause(INITIAL_BACKOFF_MS);
            },
            Some(v) => v,
        };
        let mut best: Option<u64> = None;
        let mut i: usize = 0;
        while i < v.len()
            invariant
                i <= v.len(),
                best matches Some(b) ==> exists|j: int|
                    0 <= j < i && wait_of(self.clock(#[trigger] v@[j]), now) == Some(b),
                forall|j: int|
                    0 <= j < i ==> (wait_of(self.clock(#[trigger] v@[j]), now) matches Some(w) ==> (
                    best matches Some(b) && b <= w)),
            decreases v.len() - i,
        {
            let wait: Option<u64> = match self.look(v[i]) {
                None => Some(INITIAL_BACKOFF_MS),
                Some(c) => {
                    if now.saturating_sub(c.first_failure) > DEAD_AFTER_MS {
                        None
                    } else {
                        Some(c.retry_at.saturating_sub(now))
                    }
                },
            };
            proof {
                assert(wait == wait_of(self.clock(v@[i as int]), now));
            }
            best = match (best, wait) {
                (Some(b), Some(w)) => Some(
                    if w < b {
                        w
                    } else {
                        b
                    },
                ),
                (Some(b), None) => Some(b),
                (None, w) => w,
            };
            i += 1;
        }
        match best {
            Some(b) => WorkerStep::Wait(b),
            None => WorkerStep::Wait(IDLE_SCAN_MS),
        }
    }
}

/// Whether a time is the shortest that one of some rooms is left alone from now
/// on; a minute if none of them will be tried again.
pub open spec fn is_first_wait(f: PartialStateFiller, rooms: Seq<u64>, now: u64, ms: u64) -> bool {
    if exists|j: int| 0 <= j < rooms.len() && wait_of(f.clock(#[trigger] rooms[j]), now) is Some {
        &&& exists|j: int|
            0 <= j < rooms.len() && wait_of(f.clock(#[trigger] rooms[j]), now) == Some(ms)
        &&& forall|j: int|
            0 <= j < rooms.len() ==> (wait_of(f.clock(#[trigger] rooms[j]), now) matches Some(w)
                ==> ms <= w)
    } else {
        ms == IDLE_SCAN_MS
    }
}

/// A room that was given up stays so, and is not due at any later time; only a
/// success brings it back.
pub proof fn law_dead_letters(c: FailureClock, now: u64, after: u64)
    requires
        is_dead(c, now),
        now <= after,
    ensures
        is_dead(c, after),
        !is_due(Some(c), after),
        after_attempt(Some(c), FillOutcome::Failed, after) == (
            Some(c),
            FillVerdict::DeadLettered,
        ),
        is_due(after_attempt(Some(c), FillOutcome::Filled, after).0, after),
{
}

/// After a failure a room is left alone for the whole delay.
pub proof fn law_backoff(c: Option<FailureClock>, now: u64, after: u64)
    requires
        c is Some ==> !is_dead(c->0, now),
        now <= after < capped_sum(now, clock_after(c, now).delay),
    ensures
        !is_due(after_attempt(c, FillOutcome::Failed, now).0, after),
{
}

/// While no room that failed is due to be tried again, the worker rests between
/// two passes: never for no time; no longer than the first delay if a room is
/// without failures, such as one that was just completed; and exactly that long
/// if all of them are.
pub proof fn law_rest_between_passes(f: PartialStateFiller, rooms: Seq<u64>, now: u64, ms: u64)
    requires
        is_first_wait(f, rooms, now, ms),
        forall|j: int|
            0 <= j < rooms.len() ==> (f.clock(#[trigger] rooms[j]) matches Some(c) ==> !is_due(
                Some(c),
                now,
            )),
    ensures
        ms > 0,
        (exists|j: int| 0 <= j < rooms.len() && f.clock(#[trigger] rooms[j]) is None) ==> ms
            <= INITIAL_BACKOFF_MS,
        (rooms.len() > 0 && forall|j: int|
            0 <= j < rooms.len() ==> f.clock(#[trigger] rooms[j]) is None) ==> ms
            == INITIAL_BACKOFF_MS,
{
    if exists|j: int| 0 <= j < rooms.len() && wait_of(f.clock(#[trigger] rooms[j]), now) is Some {
        let j = choose|j: int|
            0 <= j < rooms.len() && wait_of(f.clock(#[trigger] rooms[j]), now) == Some(ms);
        assert(wait_of(f.clock(rooms[j]), now) == Some(ms));
    }
    if rooms.len() > 0 {
        assert(wait_of(f.clock(rooms[0]), now) == wait_of(f.clock(rooms[0]), now));
    }
}

/// Starts the worker if it does not run; says whether it has to be spawned.
pub fn ensure_running(filler: &mut PartialStateFiller) -> (r: bool)
    requires
        old(filler).wf(),
    ensures
        final(filler).wf(),
        r == !old(filler).is_running(),
        final(filler).is_running(),
        final(filler).is_woken() == old(filler).is_woken(),
        forall|k: u64| #[trigger] final(filler).clock(k) == old(filler).clock(k),
{
    filler.start_if_idle()
}

/// Tells the worker of a room that has just been joined with part of its state.
pub fn notify_new_partial_room(filler: &mut PartialStateFiller)
    requires
        old(filler).wf(),
    ensures
        final(filler).wf(),
        final(filler).is_woken(),
        final(filler).is_running() == old(filler).is_running(),
        forall|k: u64| #[trigger] final(filler).clock(k) == old(filler).clock(k),
{
    filler.notify();
}

/// Marks the worker as not running, so that it can be started again.
pub fn _reset_for_test(filler: &mut PartialStateFiller)
    requires
        old(filler).wf(),
    ensures
        final(filler).wf(),
        !final(filler).is_running(),
        final(filler).is_woken() == old(filler).is_woken(),
        forall|k: u64| #[trigger] final(filler).clock(k) == old(filler).clock(k),
{
    filler.running = false;
}

/// What is known of a server's answer: from the list of ids, from the request
/// for the whole state, and from merging what came.
pub struct FillAttempt {
    pub via_ids: Option<Result<(), String>>,
    pub via_state: Option<Result<(), String>>,
    pub merged: Option<Result<(), String>>,
}

/// What is known so far in completing a room.
pub struct FillFacts {
    pub servers: Vec<String>,
    pub anchor: Option<Result<String, String>>,
    /// The attempts at the servers so far, in their order.
    pub attempts: Vec<FillAttempt>,
    /// Whether the mark of the room could be cleared.
    pub cleared: Option<Result<(), String>>,
}

/// What to do next to complete a room; servers by their place in the list.
pub enum FillStep {
    PickAnchor,
    FetchIds(usize),
    FetchState(usize),
    /// Merge what the server sent.
    Merge(usize),
    /// Clear the mark of the room.
    Clear,
    /// The room is complete: tell its users of the new members.
    Filled,
    Failed(String),
}

pub enum FillStepView {
    PickAnchor,
    FetchIds(usize),
    FetchState(usize),
    Merge(usize),
    Clear,
    Filled,
    Failed(Seq<char>),
}

impl View for FillStep {
    type V = FillStepView;

    open spec fn view(&self) -> FillStepView {
        match *self {
            FillStep::PickAnchor => FillStepView::PickAnchor,
            FillStep::FetchIds(i) => FillStepView::FetchIds(i),
            FillStep::FetchState(i) => FillStepView::FetchState(i),
            FillStep::Merge(i) => FillStepView::Merge(i),
            FillStep::Clear => FillStepView::Clear,
            FillStep::Filled => FillStepView::Filled,
            FillStep::Failed(e) => FillStepView::Failed(e@),
        }
    }
}

/// What became of a server: it is still open, it failed for a reason, or its
/// state was merged.
pub enum ServerTry {
    Open(FillStepView),
    Failed(Seq<char>),
    Merged,
}

/// What became of merging.
pub open spec fn try_merge(a: FillAttempt, i: int, server: Seq<char>) -> ServerTry {
    match a.merged {
        None => ServerTry::Open(FillStepView::Merge(i as usize)),
        Some(Ok(_)) => ServerTry::Merged,
        Some(Err(e)) => ServerTry::Failed("merge from "@ + server + ": "@ + e@),
    }
}

/// What became of a server: its list of ids is tried first, the whole state
/// after that.
pub open spec fn try_server(a: FillAttempt, i: int, server: Seq<char>) -> ServerTry {
    match a.via_ids {
        None => ServerTry::Open(FillStepView::FetchIds(i as usize)),
        Some(Ok(_)) => try_merge(a, i, server),
        Some(Err(_)) => match a.via_state {
            None => ServerTry::Open(FillStepView::FetchState(i as usize)),
            Some(Ok(_)) => try_merge(a, i, server),
            Some(Err(e)) => ServerTry::Failed("fetch from "@ + server + ": "@ + e@),
        },
    }
}

/// The next step from a server on, given why the one before failed.
pub open spec fn fill_from(f: FillFacts, i: int, last: Seq<char>) -> FillStepView
    decreases f.servers@.len() - i,
{
    if i < 0 || i >= f.servers@.len() {
        FillStepView::Failed(
            if last.len() == 0 {
                "no server responded"@
            } else {
                last
            },
        )
    } else if i >= f.attempts@.len() {
        FillStepView::FetchIds(i as usize)
    } else {
        match try_server(f.attempts@[i], i, f.servers@[i]@) {
            ServerTry::Open(s) => s,
            ServerTry::Failed(e) => fill_from(f, i + 1, e),
            ServerTry::Merged => match f.cleared {
                None => FillStepView::Clear,
                Some(Ok(_)) => FillStepView::Filled,
                Some(Err(e)) => FillStepView::Failed("clear flag: "@ + e@),
            },
        }
    }
}

/// The next step in completing a room.
pub open spec fn fill_step(f: FillFacts) -> FillStepView {
    if f.servers@.len() == 0 {
        FillStepView::Failed("no servers in room hint"@)
    } else {
        match f.anchor {
            None => FillStepView::PickAnchor,
            Some(Err(e)) => FillStepView::Failed(e@),
            Some(Ok(_)) => fill_from(f, 0, seq![]),
        }
    }
}

/// Says what to do next to complete a room: its servers are asked in order
/// until the state of one has been merged.
pub fn try_fill_one(f: &FillFacts) -> (r: FillStep)
    ensures
        r@ == fill_step(*f),
{
    if f.servers.len() == 0 {
        return FillStep::Failed("no servers in room hint".to_owned());
    }
    match &f.anchor {
        None => {
            return FillStep::PickAnchor;
        },
        Some(Err(e)) => {
            return FillStep::Failed(e.clone());
        },
        Some(Ok(_)) => {},
    }
    let mut last: String = String::new();
    let mut i: usize = 0;
    proof {
        assert(last@ =~= seq![]);
    }
    while i < f.servers.len()
        invariant
            i <= f.servers.len(),
            fill_from(*f, i as int, last@) == fill_from(*f, 0, seq![]),
            fill_step(*f) == fill_from(*f, 0, seq![]),
        decreases f.servers.len() - i,
    {
        if i >= f.attempts.len() {
            return FillStep::FetchIds(i);
        }
        let a = &f.attempts[i];
        let server = f.servers[i].as_str();
        match &a.via_ids {
            None => {
                return FillStep::FetchIds(i);
            },
            Some(Ok(_)) => {},
            Some(Err(_)) => match &a.via_state {
                None => {
                    return FillStep::FetchState(i);
                },
                Some(Ok(_)) => {},
                Some(Err(e)) => {
                    last = cat4("fetch from ", server, ": ", e.as_str());
                    i += 1;
                    continue;
                },
            },
        }
        match &a.merged {
            None => {
                return FillStep::Merge(i);
            },
            Some(Ok(_)) => {
                return match &f.cleared {
                    None => FillStep::Clear,
                    Some(Ok(_)) => FillStep::Filled,
                    Some(Err(e)) => FillStep::Failed(cat("clear flag: ", e.as_str())),
                };
            },
            Some(Err(e)) => {
                last = cat4("merge from ", server, ": ", e.as_str());
            },
        }
        i += 1;
    }
    if last.as_str().is_empty() {
        FillStep::Failed("no server responded".to_owned())
    } else {
        FillStep::Failed(last)
    }
}

/// Whether the whole state of a server could be had and was merged.
pub open spec fn has_merged(f: FillFacts) -> bool {
    exists|i: int|
        0 <= i < f.servers@.len() && i < f.attempts@.len() && try_server(
            #[trigger] f.attempts@[i],
            i,
            f.servers@[i]@,
        ) is Merged
}

proof fn lemma_filled(f: FillFacts, i: int, last: Seq<char>)
    requires
        fill_from(f, i, last) is Filled || fill_from(f, i, last) is Clear,
    ensures
        has_merged(f),
        fill_from(f, i, last) is Filled ==> (f.cleared matches Some(Ok(_))),
    decreases f.servers@.len() - i,
{
    if 0 <= i < f.servers@.len() && i < f.attempts@.len() {
        match try_server(f.attempts@[i], i, f.servers@[i]@) {
            ServerTry::Failed(e) => lemma_filled(f, i + 1, e),
            _ => {},
        }
    }
}

/// A room counts as complete, and its mark is cleared, only after the state of
/// one of its servers has been merged.
pub proof fn law_filled_after_merge(f: FillFacts)
    requires
        fill_step(f) is Filled || fill_step(f) is Clear,
    ensures
        has_merged(f),
        fill_step(f) is Filled ==> (f.cleared matches Some(Ok(_))),
{
    lemma_filled(f, 0, seq![]);
}

/// What is known of the first of the latest events of a room.
pub enum Extremity {
    Unreadable(String),
    Missing,
    Unresolved(String),
    NoId,
    Id(String),
}

/// The event to ask for state at: the one before our join, if the join and its
/// previous events are on record; otherwise the first of the latest events.
pub open spec fn anchor_of(join_prev: Option<Seq<Seq<char>>>, e: Extremity) -> Result<
    Seq<char>,
    Seq<char>,
> {
    if join_prev is Some && join_prev->0.len() > 0 {
        Ok(join_prev->0[0])
    } else {
        match e {
            Extremity::Unreadable(m) => Err("get_extremities: "@ + m@),
            Extremity::Missing => Err("room has no extremities"@),
            Extremity::Unresolved(m) => Err("resolve nid: "@ + m@),
            Extremity::NoId => Err("extremity nid has no event_id"@),
            Extremity::Id(id) => Ok(id@),
        }
    }
}

pub open spec fn outcome_view(r: Result<String, String>) -> Result<Seq<char>, Seq<char>> {
    match r {
        Ok(s) => Ok(s@),
        Err(e) => Err(e@),
    }
}

/// Picks the event to ask for state at.
pub fn pick_anchor_event_id(join_prev: Option<&Vec<String>>, extremity: &Extremity) -> (r: Result<
    String,
    String,
>)
    ensures
        outcome_view(r) == anchor_of(
            match join_prev {
                Some(v) => Some(texts(v@)),
                None => None,
            },
            *extremity,
        ),
{
    match join_prev {
        Some(v) => {
            if v.len() > 0 {
                return Ok(v[0].clone());
            }
        },
        None => {},
    }
    match extremity {
        Extremity::Unreadable(m) => Err(cat("get_extremities: ", m.as_str())),
        Extremity::Missing => Err("room has no extremities".to_owned()),
        Extremity::Unresolved(m) => Err(cat("resolve nid: ", m.as_str())),
        Extremity::NoId => Err("extremity nid has no event_id".to_owned()),
        Extremity::Id(id) => Ok(id.clone()),
    }
}

/// What is known so far in getting a room's state by ids.
pub struct StateIdsFacts {
    pub ids: Option<Result<Json, String>>,
    /// The events of the auth chain that were asked for, in order.
    pub auth: Vec<Result<Json, String>>,
    /// The events of the state that were asked for, in order.
    pub state: Vec<Result<Json, String>>,
}

/// What to do next to get a room's state by ids.
pub enum StateIdsStep {
    AskIds,
    /// Fetch the next event of the auth chain.
    FetchAuth(String),
    /// Fetch the next event of the state.
    FetchState(String),
    Failed(String),
    /// The state, as the request for the whole state would have brought it.
    Done(Json),
}

pub enum StateIdsView {
    AskIds,
    FetchAuth(Seq<char>),
    FetchState(Seq<char>),
    Failed(Seq<char>),
    Done(JsonView),
}

impl View for StateIdsStep {
    type V = StateIdsView;

    open spec fn view(&self) -> StateIdsView {
        match *self {
            StateIdsStep::AskIds => StateIdsView::AskIds,
            StateIdsStep::FetchAuth(id) => StateIdsView::FetchAuth(id@),
            StateIdsStep::FetchState(id) => StateIdsView::FetchState(id@),
            StateIdsStep::Failed(e) => StateIdsView::Failed(e@),
            StateIdsStep::Done(v) => StateIdsView::Done(v@),
        }
    }
}

/// The ids that a reply lists under a name, or else under an older one.
pub open spec fn ids_under(reply: JsonView, name: Seq<char>, older: Seq<char>) -> Seq<Seq<char>> {
    let found = match reply.get(name) {
        Some(v) => Some(v),
        None => reply.get(older),
    };
    match found {
        Some(JsonView::Array(v)) => strings_in(v),
        _ => seq![],
    }
}

fn read_ids(reply: &Json, name: &str, older: &str) -> (r: Vec<String>)
    ensures
        texts(r@) == ids_under(reply@, name@, older@),
{
    let found = match reply.get(name) {
        Some(v) => Some(v),
        None => reply.get(older),
    };
    let none: Vec<String> = Vec::new();
    proof {
        assert(texts(none@) =~= seq![]);
    }
    match found {
        Some(v) => match v.as_array() {
            Some(a) => collect_strings(a),
            None => none,
        },
        None => none,
    }
}

/// The events among some replies.
pub open spec fn arrived(v: Seq<Result<Json, String>>) -> Seq<JsonView>
    decreases v.len(),
{
    if v.len() == 0 {
        seq![]
    } else {
        match v.last() {
            Ok(e) => arrived(v.drop_last()).push(e@),
            Err(_) => arrived(v.drop_last()),
        }
    }
}

proof fn lemma_arrived_len(v: Seq<Result<Json, String>>)
    ensures
        arrived(v).len() <= v.len(),
    decreases v.len(),
{
    if v.len() > 0 {
        lemma_arrived_len(v.drop_last());
    }
}

fn collect_arrived(v: &Vec<Result<Json, String>>, n: usize) -> (r: Vec<Json>)
    requires
        n <= v@.len(),
    ensures
        values(r@) == arrived(v@.take(n as int)),
        r@.len() <= n,
{
    let mut out: Vec<Json> = Vec::new();
    let mut i: usize = 0;
    proof {
        assert(values(out@) =~= seq![]);
        assert(v@.take(0) =~= seq![]);
    }
    while i < n
        invariant
            i <= n <= v@.len(),
            out@.len() <= i,
            values(out@) == arrived(v@.take(i as int)),
        decreases n - i,
    {
        proof {
            assert(v@.take(i + 1).drop_last() =~= v@.take(i as int));
            assert(v@.take(i + 1).last() == v@[i as int]);
        }
        match &v[i] {
            Ok(e) => {
                let x = e.copy();
                proof {
                    lemma_values_push(out@, x);
                }
                out.push(x);
            },
            Err(_) => {},
        }
        i += 1;
    }
    out
}

/// The first of the first `n` replies that failed, or `n`.
pub open spec fn first_failed(v: Seq<Result<Json, String>>, n: int, from: int) -> int
    decreases n - from,
{
    if from >= n || v[from] is Err {
        from
    } else {
        first_failed(v, n, from + 1)
    }
}

/// The message about an event of the auth chain that did not come.
pub open spec fn auth_missing(id: Seq<char>, r: Result<Json, String>) -> Seq<char> {
    "auth_chain /event "@ + id + ": "@ + r->Err_0@
}

/// The state that was put together from single events.
pub open spec fn assembled(auth: Seq<JsonView>, state: Seq<JsonView>) -> JsonView {
    JsonView::Object(
        seq![("auth_chain"@, JsonView::Array(auth)), ("pdus"@, JsonView::Array(state))],
    )
}

/// The next step in fetching the events of two lists of ids. Every event of the
/// auth chain has to come, and at least half of the state.
pub open spec fn materialise_step(
    f: StateIdsFacts,
    auth_ids: Seq<Seq<char>>,
    state_ids: Seq<Seq<char>>,
) -> StateIdsView {
    let known_auth = if f.auth@.len() < auth_ids.len() {
        f.auth@.len() as int
    } else {
        auth_ids.len() as int
    };
    let bad = first_failed(f.auth@, known_auth, 0);
    let n = state_ids.len() as int;
    if bad < known_auth {
        StateIdsView::Failed(auth_missing(auth_ids[bad], f.auth@[bad]))
    } else if f.auth@.len() < auth_ids.len() {
        StateIdsView::FetchAuth(auth_ids[f.auth@.len() as int])
    } else if f.state@.len() < n {
        StateIdsView::FetchState(state_ids[f.state@.len() as int])
    } else {
        let state = arrived(f.state@.take(n));
        if (n - state.len()) * 2 > n {
            StateIdsView::Failed(
                "state_ids: only "@ + decimal(state.len()) + "/"@ + decimal(n as nat)
                    + " pdu_ids materialised"@,
            )
        } else {
            StateIdsView::Done(assembled(arrived(f.auth@.take(known_auth)), state))
        }
    }
}

/// The next step in getting a room's state by ids.
pub open spec fn state_ids_step(f: StateIdsFacts) -> StateIdsView {
    match f.ids {
        None => StateIdsView::AskIds,
        Some(Err(e)) => StateIdsView::Failed("state_ids: "@ + e@),
        Some(Ok(reply)) => {
            let auth_ids = ids_under(reply@, "auth_chain_ids"@, "auth_chain"@);
            let state_ids = ids_under(reply@, "pdu_ids"@, "pdus"@);
            if state_ids.len() == 0 {
                StateIdsView::Failed("state_ids: empty pdu_ids"@)
            } else {
                materialise_step(f, auth_ids, state_ids)
            }
        },
    }
}

/// Says what to do next to get a room's state by ids.
pub fn fetch_state_via_state_ids(f: &StateIdsFacts) -> (r: StateIdsStep)
    ensures
        r@ == state_ids_step(*f),
{
    let reply = match &f.ids {
        None => {
            return StateIdsStep::AskIds;
        },
        Some(Err(e)) => {
            return StateIdsStep::Failed(cat("state_ids: ", e.as_str()));
        },
        Some(Ok(v)) => v,
    };
    let auth_ids = read_ids(reply, "auth_chain_ids", "auth_chain");
    let state_ids = read_ids(reply, "pdu_ids", "pdus");
    proof {
        assert(texts(auth_ids@).len() == auth_ids@.len());
        assert(texts(state_ids@).len() == state_ids@.len());
    }
    if state_ids.len() == 0 {
        return StateIdsStep::Failed("state_ids: empty pdu_ids".to_owned());
    }
    let known: usize = if f.auth.len() < auth_ids.len() {
        f.auth.len()
    } else {
        auth_ids.len()
    };
    let mut i: usize = 0;
    while i < known
        invariant
            i <= known,
            known <= f.auth@.len(),
            known <= auth_ids@.len(),
            first_failed(f.auth@, known as int, i as int) == first_failed(
                f.auth@,
                known as int,
                0,
            ),
            known == (if f.auth@.len() < auth_ids@.len() {
                f.auth@.len()
            } else {
                auth_ids@.len()
            }),
            state_ids@.len() > 0,
            texts(auth_ids@).len() == auth_ids@.len(),
            state_ids_step(*f) == materialise_step(*f, texts(auth_ids@), texts(state_ids@)),
        decreases known - i,
    {
        match &f.auth[i] {
            Err(e) => {
                return StateIdsStep::Failed(
                    cat4("auth_chain /event ", auth_ids[i].as_str(), ": ", e.as_str()),
                );
            },
            Ok(_) => {},
        }
        i += 1;
    }
    if f.auth.len() < auth_ids.len() {
        return StateIdsStep::FetchAuth(auth_ids[f.auth.len()].clone());
    }
    if f.state.len() < state_ids.len() {
        return StateIdsStep::FetchState(state_ids[f.state.len()].clone());
    }
    let n: usize = state_ids.len();
    let state = collect_arrived(&f.state, n);
    proof {
        assert(values(state@).len() == state@.len());
    }
    let missing: usize = n - state.len();
    if missing > n - missing {
        let counts = cat3(number_text(state.len() as u64).as_str(), "/", number_text(
            n as u64,
        ).as_str());
        let text = cat3("state_ids: only ", counts.as_str(), " pdu_ids materialised");
        proof {
            assert(text@ =~= "state_ids: only "@ + decimal(state@.len()) + "/"@ + decimal(n as nat)
                + " pdu_ids materialised"@);
        }
        return StateIdsStep::Failed(text);
    }
    let auth = collect_arrived(&f.auth, known);
    let ghost a = values(auth@);
    let ghost b = values(state@);
    let mut m: Vec<(String, Json)> = Vec::new();
    put(&mut m, "auth_chain", Json::array(auth));
    put(&mut m, "pdus", Json::array(state));
    proof {
        assert(members(m@) =~= assembled(a, b)->Object_0);
    }
    StateIdsStep::Done(Json::object(m))
}

/// What became of storing an event of the state.
pub enum Persisted {
    /// It is stored, now or before, under this number.
    Stored(u64),
    /// It was known, but its number was not found.
    Unresolved,
    Failed(String),
}

/// What is known so far in merging a state.
pub struct MergeFacts {
    pub response: Json,
    /// How many events of the auth chain were stored, or tried.
    pub auth_tried: usize,
    /// What became of the events of the state so far.
    pub persisted: Vec<Persisted>,
    /// Our join, if it is on record.
    pub join: Option<u64>,
}

/// How a state enters a room.
pub struct MergePlan {
    /// The events, each of which becomes current state and gets all of them as
    /// its snapshot.
    pub state: Vec<u64>,
    /// Our join and its snapshot.
    pub join_snapshot: Option<(u64, Vec<u64>)>,
    /// The memberships to note.
    pub memberships: Vec<(String, u8)>,
}

/// What to do next to merge a state; events by their place in the response.
pub enum MergeStep {
    Failed(String),
    /// Store an event of the auth chain.
    PersistAuth { place: usize, kind: PersistKind },
    /// Store an event of the state.
    PersistState { place: usize, kind: PersistKind },
    Merge(MergePlan),
}

/// The numbers of the events that are stored.
pub open spec fn stored_nids(v: Seq<Persisted>) -> Seq<u64>
    decreases v.len(),
{
    if v.len() == 0 {
        seq![]
    } else {
        match v.last() {
            Persisted::Stored(n) => stored_nids(v.drop_last()).push(n),
            _ => stored_nids(v.drop_last()),
        }
    }
}

/// The last reason for which an event was not stored.
pub open spec fn last_failure(v: Seq<Persisted>) -> Seq<char>
    decreases v.len(),
{
    if v.len() == 0 {
        seq![]
    } else {
        match v.last() {
            Persisted::Failed(e) => e@,
            _ => last_failure(v.drop_last()),
        }
    }
}

/// The membership that an event of the state tells of.
pub open spec fn membership_of(e: JsonView) -> Option<(Seq<char>, u8)> {
    let user = match e.str_at("state_key"@) {
        Some(s) => s,
        None => seq![],
    };
    let code = membership_code(e.str_within("content"@, "membership"@));
    if e.str_at("type"@) == Some("m.room.member"@) && user.len() > 0 && code != 0 {
        Some((user, code))
    } else {
        None
    }
}

/// The memberships that the stored events among the first `n` tell of.
pub open spec fn memberships_of(events: Seq<JsonView>, v: Seq<Persisted>, n: int) -> Seq<
    (Seq<char>, u8),
>
    decreases n,
{
    if n <= 0 {
        seq![]
    } else {
        let rest = memberships_of(events, v, n - 1);
        match (v[n - 1], membership_of(events[n - 1])) {
            (Persisted::Stored(_), Some(m)) => rest.push(m),
            _ => rest,
        }
    }
}

pub open spec fn membership_views(v: Seq<(String, u8)>) -> Seq<(Seq<char>, u8)> {
    v.map_values(|m: (String, u8)| (m.0@, m.1))
}

/// Whether a step is the next in merging a state: without events it fails, then
/// all events are stored, those of the auth chain off the timeline and those of
/// the state as state only, and at least one of the state has to be.
pub open spec fn is_merge_step(f: MergeFacts, s: MergeStep) -> bool {
    let auth = elements(f.response@, "auth_chain"@);
    let events = elements(f.response@, "pdus"@);
    let n = events.len() as int;
    if n == 0 {
        s matches MergeStep::Failed(e) && e@ == "peer returned no state PDUs"@
    } else if f.auth_tried < auth.len() {
        s == (MergeStep::PersistAuth { place: f.auth_tried, kind: PersistKind::Outlier })
    } else if f.persisted@.len() < n {
        s matches MergeStep::PersistState { place, kind } && place == f.persisted@.len() && kind
            == PersistKind::StateBundleOnly
    } else {
        let done = f.persisted@.take(n);
        let nids = stored_nids(done);
        if nids.len() == 0 {
            s matches MergeStep::Failed(e) && e@ == "no state events persisted ("@ + decimal(
                n as nat,
            ) + " attempted; last error: "@ + last_failure(done) + ")"@
        } else {
            s matches MergeStep::Merge(p) && {
                &&& p.state@ == nids
                &&& membership_views(p.memberships@) == memberships_of(events, f.persisted@, n)
                &&& match f.join {
                    None => p.join_snapshot is None,
                    Some(j) => p.join_snapshot matches Some((at, v)) && at == j && v@ == nids.push(
                        j,
                    ),
                }
            }
        }
    }
}

fn read_membership(e: &Json) -> (r: Option<(String, u8)>)
    ensures
        match r {
            Some(m) => membership_of(e@) == Some((m.0@, m.1)),
            None => membership_of(e@) is None,
        },
{
    match e.str_at("type") {
        Some(t) => {
            if !str_eq(t, "m.room.member") {
                return None;
            }
        },
        None => {
            return None;
        },
    }
    let code: u8 = membership_byte(e.str_within("content", "membership"));
    match e.str_at("state_key") {
        Some(user) => {
            if user.is_empty() || code == 0 {
                None
            } else {
                Some((user.to_owned(), code))
            }
        },
        None => None,
    }
}

/// Says what to do next to merge a state that a server sent.
pub fn merge_state_response(f: &MergeFacts) -> (r: MergeStep)
    ensures
        is_merge_step(*f, r),
{
    let events = match f.response.array_at("pdus") {
        Some(v) => v,
        None => {
            return MergeStep::Failed("peer returned no state PDUs".to_owned());
        },
    };
    let ghost views = values(events@);
    if events.len() == 0 {
        return MergeStep::Failed("peer returned no state PDUs".to_owned());
    }
    let auth_count: usize = match f.response.array_at("auth_chain") {
        Some(v) => v.len(),
        None => 0,
    };
    if f.auth_tried < auth_count {
        return MergeStep::PersistAuth { place: f.auth_tried, kind: PersistKind::Outlier };
    }
    if f.persisted.len() < events.len() {
        return MergeStep::PersistState {
            place: f.persisted.len(),
            kind: PersistKind::StateBundleOnly,
        };
    }
    let mut nids: Vec<u64> = Vec::new();
    let mut memberships: Vec<(String, u8)> = Vec::new();
    let mut last: String = String::new();
    let mut i: usize = 0;
    proof {
        assert(f.persisted@.take(0) =~= seq![]);
        assert(last@ =~= seq![]);
        assert(membership_views(memberships@) =~= seq![]);
    }
    while i < events.len()
        invariant
            i <= events@.len() <= f.persisted@.len(),
            views == values(events@),
            nids@ == stored_nids(f.persisted@.take(i as int)),
            last@ == last_failure(f.persisted@.take(i as int)),
            membership_views(memberships@) == memberships_of(views, f.persisted@, i as int),
        decreases events.len() - i,
    {
        proof {
            assert(f.persisted@.take(i + 1).drop_last() =~= f.persisted@.take(i as int));
            assert(f.persisted@.take(i + 1).last() == f.persisted@[i as int]);
        }
        match &f.persisted[i] {
            Persisted::Stored(n) => {
                nids.push(*n);
                match read_membership(&events[i]) {
                    Some(m) => {
                        let ghost before = memberships@;
                        memberships.push(m);
                        proof {
                            assert(membership_views(memberships@) =~= membership_views(
                                before,
                            ).push((m.0@, m.1)));
                        }
                    },
                    None => {},
                }
            },
            Persisted::Unresolved => {},
            Persisted::Failed(e) => {
                last = e.clone();
            },
        }
        i += 1;
    }
    if nids.len() == 0 {
        let count = number_text(events.len() as u64);
        let head = cat3("no state events persisted (", count.as_str(), " attempted; last error: ");
        let text = cat3(head.as_str(), last.as_str(), ")");
        proof {
            assert(text@ =~= "no state events persisted ("@ + decimal(events@.len())
                + " attempted; last error: "@ + last@ + ")"@);
        }
        return MergeStep::Failed(text);
    }
    let join_snapshot = match f.join {
        Some(j) => {
            let mut all = nids.clone();
            proof {
                assert(all@ =~= nids@);
            }
            all.push(j);
            Some((j, all))
        },
        None => None,
    };
    MergeStep::Merge(MergePlan { state: nids, join_snapshot, memberships })
}

/// The members that were not there before.
pub open spec fn newcomers(before: Seq<u64>, after: Seq<Member>) -> Seq<u64>
    decreases after.len(),
{
    if after.len() == 0 {
        seq![]
    } else if before.contains(after.last().nid) {
        newcomers(before, after.drop_last())
    } else {
        newcomers(before, after.drop_last()).push(after.last().nid)
    }
}

/// Says whose keys count as changed once a room is complete, and to whom: the
/// members that were not known before, to all our users in the room. `None` if
/// there is nobody to tell of, or nobody to tell.
pub fn reconcile_device_lists(before: &Vec<u64>, after: Option<&Vec<Member>>, server: &str) -> (r:
    Option<(Vec<u64>, Vec<u64>)>)
    ensures
        match after {
            None => r is None,
            Some(m) => {
                let new_peers = newcomers(before@, m@);
                let observers = locals_among(m@, server@, None);
                if new_peers.len() == 0 || observers.len() == 0 {
                    r is None
                } else {
                    r matches Some((p, o)) && p@ == new_peers && o@ == observers
                }
            },
        },
{
    let m = match after {
        None => {
            return None;
        },
        Some(m) => m,
    };
    let mut peers: Vec<u64> = Vec::new();
    let mut i: usize = 0;
    proof {
        assert(m@.take(0) =~= seq![]);
    }
    while i < m.len()
        invariant
            i <= m.len(),
            peers@ == newcomers(before@, m@.take(i as int)),
        decreases m.len() - i,
    {
        proof {
            assert(m@.take(i + 1).drop_last() =~= m@.take(i as int));
            assert(m@.take(i + 1).last() == m@[i as int]);
        }
        if !holds_nid(before, m[i].nid) {
            peers.push(m[i].nid);
        }
        i += 1;
    }
    proof {
        assert(m@.take(i as int) =~= m@);
    }
    if peers.len() == 0 {
        return None;
    }
    let observers = local_observers(m, server, None);
    if observers.len() == 0 {
        return None;
    }
    Some((peers, observers))
}

/// The state that one server lists by ids is the state that another reads from
/// the list.
pub proof fn law_state_ids_arrive(state: Seq<Seq<char>>, auth: Seq<Seq<char>>)
    ensures
        ids_under(state_ids_reply(state, auth), "pdu_ids"@, "pdus"@) == state,
        ids_under(state_ids_reply(state, auth), "auth_chain_ids"@, "auth_chain"@) == auth,
{
    reveal_with_fuel(crate::json::member, 3);
    reveal_strlit("pdu_ids");
    reveal_strlit("auth_chain_ids");
    let m = state_ids_reply(state, auth)->Object_0;
    assert("pdu_ids"@.len() == 7 && "auth_chain_ids"@.len() == 14);
    assert(m.drop_first()[0] == m[1]);
    lemma_strings_in(state);
    lemma_strings_in(auth);
}

proof fn lemma_strings_in(v: Seq<Seq<char>>)
    ensures
        strings_in(v.map_values(|s: Seq<char>| JsonView::Str(s))) == v,
    decreases v.len(),
{
    let t = v.map_values(|s: Seq<char>| JsonView::Str(s));
    if v.len() > 0 {
        lemma_strings_in(v.drop_last());
        assert(t.drop_last() =~= v.drop_last().map_values(|s: Seq<char>| JsonView::Str(s)));
        assert(t.last() == JsonView::Str(v.last()));
        assert(strings_in(t) =~= v);
    } else {
        assert(t =~= seq![]);
        assert(strings_in(t) =~= v);
    }
}

/// The state that one server sends whole is the state that another merges.
pub proof fn law_state_arrives(state: Seq<JsonView>, auth: Seq<JsonView>)
    ensures
        elements(state_reply(state, auth), "pdus"@) == state,
        elements(state_reply(state, auth), "auth_chain"@) == auth,
        elements(assembled(auth, state), "pdus"@) == state,
        elements(assembled(auth, state), "auth_chain"@) == auth,
{
    reveal_with_fuel(crate::json::member, 3);
    reveal_strlit("pdus");
    reveal_strlit("auth_chain");
    assert("pdus"@.len() == 4 && "auth_chain"@.len() == 10);
    let m = state_reply(state, auth)->Object_0;
    assert(m.drop_first()[0] == m[1]);
    let n = assembled(auth, state)->Object_0;
    assert(n.drop_first()[0] == n[1]);
}

/// Whether nothing more can be had from a server: neither its list of ids nor its
/// whole state brought the room's state, or what came could not be merged.
pub open spec fn is_spent(a: FillAttempt) -> bool {
    ||| (a.via_ids matches Some(Err(_))) && (a.via_state matches Some(Err(_)))
    ||| ((a.via_ids matches Some(Ok(_))) || ((a.via_ids matches Some(Err(_))) && (
    a.via_state matches Some(Ok(_))))) && (a.merged matches Some(Err(_)))
}

proof fn lemma_fill_from(f: FillFacts, i: int, last: Seq<char>)
    requires
        0 <= i <= f.servers@.len(),
        f.servers@.len() <= usize::MAX,
        i <= f.attempts@.len(),
        forall|j: int| 0 <= j < i ==> is_spent(#[trigger] f.attempts@[j]),
    ensures
        match fill_from(f, i, last) {
            FillStepView::FetchIds(k) => k < f.servers@.len() && (k == f.attempts@.len() || (k
                < f.attempts@.len() && f.attempts@[k as int].via_ids is None)) && forall|j: int|
                0 <= j < k ==> is_spent(#[trigger] f.attempts@[j]),
            FillStepView::FetchState(k) => k < f.servers@.len() && k < f.attempts@.len() && (
            f.attempts@[k as int].via_ids matches Some(Err(_))) && f.attempts@[k as int].via_state
                is None && forall|j: int|
                0 <= j < k ==> is_spent(#[trigger] f.attempts@[j]),
            FillStepView::Merge(k) => k < f.servers@.len() && k < f.attempts@.len() && ((
            f.attempts@[k as int].via_ids matches Some(Ok(_))) || ((
            f.attempts@[k as int].via_ids matches Some(Err(_))) && (
            f.attempts@[k as int].via_state matches Some(Ok(_))))) && f.attempts@[k as int].merged
                is None && forall|j: int|
                0 <= j < k ==> is_spent(#[trigger] f.attempts@[j]),
            FillStepView::Failed(_) => (f.cleared matches Some(Err(_))) || (f.servers@.len()
                <= f.attempts@.len() && forall|j: int|
                0 <= j < f.servers@.len() ==> is_spent(#[trigger] f.attempts@[j])),
            FillStepView::Clear => f.cleared is None,
            FillStepView::Filled => f.cleared matches Some(Ok(_)),
            FillStepView::PickAnchor => false,
        },
    decreases f.servers@.len() - i,
{
    if i < f.servers@.len() && i < f.attempts@.len() {
        match try_server(f.attempts@[i], i, f.servers@[i]@) {
            ServerTry::Failed(e) => {
                assert(is_spent(f.attempts@[i]));
                lemma_fill_from(f, i + 1, e);
            },
            _ => {},
        }
    }
}

/// A room's servers are asked in turn: each for its list of ids, then for the whole
/// state, and the next one only when nothing more can be had from all before it.
/// What a server sent is merged before anybody else is asked, and completing the
/// room is given up only when every server was asked in vain, there is none, no
/// event to ask at could be picked, or the mark could not be cleared.
pub proof fn law_servers_in_turn(f: FillFacts)
    requires
        f.servers@.len() <= usize::MAX,
    ensures
        match fill_step(f) {
            FillStepView::PickAnchor => f.anchor is None && f.servers@.len() > 0,
            FillStepView::FetchIds(k) => k < f.servers@.len() && (k == f.attempts@.len() || (k
                < f.attempts@.len() && f.attempts@[k as int].via_ids is None)) && forall|j: int|
                0 <= j < k ==> is_spent(#[trigger] f.attempts@[j]),
            FillStepView::FetchState(k) => k < f.servers@.len() && k < f.attempts@.len() && (
            f.attempts@[k as int].via_ids matches Some(Err(_))) && f.attempts@[k as int].via_state
                is None && forall|j: int|
                0 <= j < k ==> is_spent(#[trigger] f.attempts@[j]),
            FillStepView::Merge(k) => k < f.servers@.len() && k < f.attempts@.len() && ((
            f.attempts@[k as int].via_ids matches Some(Ok(_))) || ((
            f.attempts@[k as int].via_ids matches Some(Err(_))) && (
            f.attempts@[k as int].via_state matches Some(Ok(_))))) && f.attempts@[k as int].merged
                is None && forall|j: int|
                0 <= j < k ==> is_spent(#[trigger] f.attempts@[j]),
            FillStepView::Failed(_) => f.servers@.len() == 0 || (f.anchor matches Some(Err(_))) || (
            f.cleared matches Some(Err(_))) || (f.servers@.len() <= f.attempts@.len() && forall|
                j: int,
            |
                0 <= j < f.servers@.len() ==> is_spent(#[trigger] f.attempts@[j])),
            FillStepView::Clear => f.cleared is None,
            FillStepView::Filled => f.cleared matches Some(Ok(_)),
        },
{
    lemma_fill_from(f, 0, seq![]);
}

/// How a failing room's clock runs: the first failure is remembered; the delay
/// begins with the shortest and doubles with every failure up to the longest; the
/// room is due again when the delay is over, and given up after a day.
pub proof fn law_clocks(c: Option<FailureClock>, now: u64)
    ensures
        ({
            let after = clock_after(c, now);
            &&& c is None ==> after.first_failure == now && after.delay == INITIAL_BACKOFF_MS
            &&& c matches Some(k) ==> {
                &&& after.first_failure == k.first_failure
                &&& after.delay <= MAX_BACKOFF_MS
                &&& after.delay <= 2 * k.delay
                &&& after.delay == MAX_BACKOFF_MS || after.delay == 2 * k.delay
            }
            &&& now + after.delay <= u64::MAX ==> after.retry_at == now + after.delay
        }),
        after_attempt(c, FillOutcome::Filled, now) == (None::<FailureClock>, FillVerdict::Done),
        after_attempt(c, FillOutcome::AlreadyFull, now) == (c, FillVerdict::Skip),
        (c matches Some(k) && now - k.first_failure > DEAD_AFTER_MS) ==> after_attempt(
            c,
            FillOutcome::Failed,
            now,
        ) == (c, FillVerdict::DeadLettered) && !is_due(c, now) && wait_of(c, now) is None,
        !(c matches Some(k) && now - k.first_failure > DEAD_AFTER_MS) ==> ({
            let r = after_attempt(c, FillOutcome::Failed, now);
            &&& (r.1 matches FillVerdict::Retry(d) && r.0 is Some && d == r.0->0.delay)
            &&& c matches Some(k) ==> (is_due(c, now) <==> k.retry_at <= now)
            &&& c matches Some(k) ==> (wait_of(c, now) matches Some(w) && (k.retry_at >= now ==> now
                + w == k.retry_at) && (k.retry_at <= now ==> w == 0))
        }),
        is_due(None, now),
{
}

/// The events that came are all those of the replies that succeeded, in order.
pub proof fn law_arrived(v: Seq<Result<Json, String>>)
    ensures
        arrived(v) == v.filter_map(
            |r: Result<Json, String>|
                match r {
                    Ok(e) => Some(e@),
                    Err(_) => None,
                },
        ),
    decreases v.len(),
{
    if v.len() > 0 {
        law_arrived(v.drop_last());
        let s = arrived(v.drop_last());
        if let Ok(e) = v.last() {
            assert(s.push(e@) =~= s + seq![e@]);
        }
    }
}

proof fn lemma_first_failed(v: Seq<Result<Json, String>>, n: int, from: int)
    requires
        0 <= from <= n,
    ensures
        from <= first_failed(v, n, from) <= n,
        first_failed(v, n, from) < n ==> v[first_failed(v, n, from)] is Err,
        forall|i: int| from <= i < first_failed(v, n, from) ==> (#[trigger] v[i]) is Ok,
    decreases n - from,
{
    if from < n && v[from] is Ok {
        lemma_first_failed(v, n, from + 1);
    }
}

/// The ids that a reply lists are the strings of the list under the name, or, where
/// there is nothing under it, under the older one.
pub proof fn law_ids_under(reply: JsonView, name: Seq<char>, older: Seq<char>)
    ensures
        ids_under(reply, name, older) == (match (reply.get(name), reply.get(older)) {
            (Some(JsonView::Array(v)), _) => v.filter_map(
                |x: JsonView|
                    match x {
                        JsonView::Str(s) => Some(s),
                        _ => None,
                    },
            ),
            (None, Some(JsonView::Array(v))) => v.filter_map(
                |x: JsonView|
                    match x {
                        JsonView::Str(s) => Some(s),
                        _ => None,
                    },
            ),
            _ => seq![],
        }),
{
    if let Some(JsonView::Array(v)) = reply.get(name) {
        law_strings(v);
    }
    if let Some(JsonView::Array(v)) = reply.get(older) {
        law_strings(v);
    }
}

/// A room's state is put together from its ids in order: every event of the auth
/// chain is fetched, and one that does not come ends it; then every event of the
/// state, at least half of which has to come, and half is enough. All that came is
/// handed on, the auth chain and the state each under its own name.
pub proof fn law_state_by_ids(f: StateIdsFacts)
    ensures
        f.ids is None <==> state_ids_step(f) is AskIds,
        f.ids matches Some(Ok(reply)) ==> ({
            let auth_ids = ids_under(reply@, "auth_chain_ids"@, "auth_chain"@);
            let state_ids = ids_under(reply@, "pdu_ids"@, "pdus"@);
            let n = state_ids.len() as int;
            let k = auth_ids.len() as int;
            let s = state_ids_step(f);
            &&& s matches StateIdsView::FetchAuth(id) ==> f.auth@.len() < k && id
                == auth_ids[f.auth@.len() as int] && forall|i: int|
                0 <= i < f.auth@.len() ==> (#[trigger] f.auth@[i]) is Ok
            &&& s matches StateIdsView::FetchState(id) ==> f.auth@.len() >= k && f.state@.len() < n
                && id == state_ids[f.state@.len() as int] && forall|i: int|
                0 <= i < k ==> (#[trigger] f.auth@[i]) is Ok
            &&& s matches StateIdsView::Done(v) ==> {
                let came = f.state@.take(n).filter_map(
                    |r: Result<Json, String>|
                        match r {
                            Ok(e) => Some(e@),
                            Err(_) => None,
                        },
                );
                &&& n > 0 && f.auth@.len() >= k && f.state@.len() >= n
                &&& forall|i: int| 0 <= i < k ==> (#[trigger] f.auth@[i]) is Ok
                &&& 2 * came.len() >= n
                &&& v.get("pdus"@) == Some(JsonView::Array(came))
                &&& v.get("auth_chain"@) == Some(
                    JsonView::Array(
                        f.auth@.take(k).filter_map(
                            |r: Result<Json, String>|
                                match r {
                                    Ok(e) => Some(e@),
                                    Err(_) => None,
                                },
                        ),
                    ),
                )
            }
            &&& n > 0 && f.auth@.len() >= k && f.state@.len() >= n && (forall|i: int|
                0 <= i < k ==> (#[trigger] f.auth@[i]) is Ok) && (forall|i: int|
                0 <= i < n ==> (#[trigger] f.state@[i]) is Ok) ==> s is Done
            &&& n > 0 && f.auth@.len() >= k && f.state@.len() >= n && (forall|i: int|
                0 <= i < k ==> (#[trigger] f.auth@[i]) is Ok) && 2 * f.state@.take(n).filter_map(
                |r: Result<Json, String>|
                    match r {
                        Ok(e) => Some(e@),
                        Err(_) => None,
                    },
            ).len() >= n ==> s is Done
        }),
{
    if let Some(Ok(reply)) = f.ids {
        let auth_ids = ids_under(reply@, "auth_chain_ids"@, "auth_chain"@);
        let state_ids = ids_under(reply@, "pdu_ids"@, "pdus"@);
        let n = state_ids.len() as int;
        let k = auth_ids.len() as int;
        let known = if f.auth@.len() < k {
            f.auth@.len() as int
        } else {
            k
        };
        lemma_first_failed(f.auth@, known, 0);
        if f.state@.len() >= n {
            law_arrived(f.state@.take(n));
            if forall|i: int| 0 <= i < n ==> (#[trigger] f.state@[i]) is Ok {
                lemma_all_arrived(f.state@, n);
            }
        }
        law_arrived(f.auth@.take(known));
        law_state_arrives(arrived(f.state@.take(n)), arrived(f.auth@.take(known)));
    }
}

proof fn lemma_all_arrived(v: Seq<Result<Json, String>>, n: int)
    requires
        0 <= n <= v.len(),
        forall|i: int| 0 <= i < n ==> (#[trigger] v[i]) is Ok,
    ensures
        arrived(v.take(n)).len() == n,
    decreases n,
{
    if n > 0 {
        lemma_all_arrived(v, n - 1);
        assert(v.take(n).drop_last() =~= v.take(n - 1));
        assert(v.take(n).last() == v[n - 1]);
    }
}

/// The numbers of the stored events are those of all that are stored, in order.
pub proof fn law_stored_nids(v: Seq<Persisted>)
    ensures
        stored_nids(v) == v.filter_map(
            |p: Persisted|
                match p {
                    Persisted::Stored(n) => Some(n),
                    _ => None,
                },
        ),
    decreases v.len(),
{
    if v.len() > 0 {
        law_stored_nids(v.drop_last());
        let s = stored_nids(v.drop_last());
        if let Persisted::Stored(n) = v.last() {
            assert(s.push(n) =~= s + seq![n]);
        }
    }
}

/// A membership is noted exactly if a stored event of the state tells of it: a
/// member event with a user and a membership that is tracked.
pub proof fn law_noted_memberships(
    events: Seq<JsonView>,
    v: Seq<Persisted>,
    n: int,
    user: Seq<char>,
    code: u8,
)
    ensures
        memberships_of(events, v, n).contains((user, code)) <==> exists|i: int|
            0 <= i < n && (#[trigger] v[i]) is Stored && events[i].get("type"@) == Some(
                JsonView::Str("m.room.member"@),
            ) && events[i].get("state_key"@) == Some(JsonView::Str(user)) && user.len() > 0 && code
                != 0 && code == membership_code(
                events[i].str_within("content"@, "membership"@),
            ),
    decreases n,
{
    let m = (user, code);
    let all = memberships_of(events, v, n);
    if n > 0 {
        let rest = memberships_of(events, v, n - 1);
        law_noted_memberships(events, v, n - 1, user, code);
        if rest.contains(m) {
            let k = choose|k: int| 0 <= k < rest.len() && rest[k] == m;
            assert(all[k] == m);
        }
        if v[n - 1] is Stored && membership_of(events[n - 1]) == Some(m) {
            assert(all[rest.len() as int] == m);
        }
        if all.contains(m) && !rest.contains(m) {
            let k = choose|k: int| 0 <= k < all.len() && all[k] == m;
            if k < rest.len() {
                assert(rest[k] == m);
            }
            assert(v[n - 1] is Stored);
        }
    }
}

/// A merged state is that of all the stored events, whose numbers each of them gets
/// as its snapshot; our join's snapshot is the same state with the join in it. A
/// state is merged only after every event of the auth chain and of the state was
/// tried, and only if one of the state is stored.
pub proof fn law_merged_state(f: MergeFacts, s: MergeStep)
    requires
        is_merge_step(f, s),
    ensures
        ({
            let auth = match f.response@.get("auth_chain"@) {
                Some(JsonView::Array(v)) => v,
                _ => seq![],
            };
            let events = match f.response@.get("pdus"@) {
                Some(JsonView::Array(v)) => v,
                _ => seq![],
            };
            let n = events.len() as int;
            &&& s matches MergeStep::PersistAuth { place, kind } ==> place == f.auth_tried && place
                < auth.len() && kind == PersistKind::Outlier
            &&& s matches MergeStep::PersistState { place, kind } ==> place == f.persisted@.len()
                && place < n && kind == PersistKind::StateBundleOnly && f.auth_tried >= auth.len()
            &&& s matches MergeStep::Merge(p) ==> {
                &&& n > 0 && f.auth_tried >= auth.len() && f.persisted@.len() >= n
                &&& p.state@.len() > 0
                &&& p.state@ == f.persisted@.take(n).filter_map(
                    |p: Persisted|
                        match p {
                            Persisted::Stored(x) => Some(x),
                            _ => None,
                        },
                )
                &&& match f.join {
                    None => p.join_snapshot is None,
                    Some(j) => p.join_snapshot matches Some((at, v)) && at == j && v@
                        == p.state@.push(j),
                }
            }
            &&& n > 0 && f.auth_tried >= auth.len() && f.persisted@.len() >= n && (exists|i: int|
                0 <= i < n && (#[trigger] f.persisted@[i]) is Stored) ==> s is Merge
        }),
{
    let events = elements(f.response@, "pdus"@);
    let n = events.len() as int;
    if f.persisted@.len() >= n {
        law_stored_nids(f.persisted@.take(n));
        if exists|i: int| 0 <= i < n && (#[trigger] f.persisted@[i]) is Stored {
            let i = choose|i: int| 0 <= i < n && (#[trigger] f.persisted@[i]) is Stored;
            lemma_some_stored(f.persisted@, n, i);
        }
    }
}

proof fn lemma_some_stored(v: Seq<Persisted>, n: int, i: int)
    requires
        0 <= i < n <= v.len(),
        v[i] is Stored,
    ensures
        stored_nids(v.take(n)).len() > 0,
    decreases n,
{
    assert(v.take(n).drop_last() =~= v.take(n - 1));
    assert(v.take(n).last() == v[n - 1]);
    if i < n - 1 {
        lemma_some_stored(v, n - 1, i);
    }
}

/// The newcomers to a room are all members that were not there before, in order.
pub proof fn law_newcomers(before: Seq<u64>, after: Seq<Member>)
    ensures
        newcomers(before, after) == after.filter_map(
            |m: Member|
                if before.contains(m.nid) {
                    None
                } else {
                    Some(m.nid)
                },
        ),
    decreases after.len(),
{
    if after.len() > 0 {
        law_newcomers(before, after.drop_last());
        let s = newcomers(before, after.drop_last());
        assert(s.push(after.last().nid) =~= s + seq![after.last().nid]);
    }
}

/// State is asked for at the first of the events before our join, whenever those
/// are on record, and only otherwise at the first of the room's latest.
pub proof fn law_anchor(join_prev: Option<Seq<Seq<char>>>, e: Extremity)
    ensures
        (join_prev matches Some(v) && v.len() > 0) ==> anchor_of(join_prev, e) == Ok::<
            Seq<char>,
            Seq<char>,
        >(join_prev->0[0]),
        !(join_prev matches Some(v) && v.len() > 0) ==> match e {
            Extremity::Id(id) => anchor_of(join_prev, e) == Ok::<Seq<char>, Seq<char>>(id@),
            _ => anchor_of(join_prev, e) is Err,
        },
{
}

} // verus!
