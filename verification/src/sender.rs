//! Sending to other servers: who gets an event, what a transaction holds, and
//! when to try again after failures.

use vstd::prelude::*;
use vstd::string::*;

use crate::json::lemma_values_push;
use crate::json::member;
use crate::json::members;
use crate::json::put;
use crate::json::values;
use crate::json::Json;
use crate::json::JsonView;
use crate::json::NumberView;
use crate::pdu::belongs_to;
use crate::pdu::domain_of;
use crate::pdu::law_belonging;
use crate::pdu::server_part;
use crate::text::clone_list;
use crate::text::law_split_once;
use crate::text::lemma_has_push;
use crate::text::lemma_texts_push;
use crate::text::list_has;
use crate::text::opt_string;
use crate::text::opt_text;
use crate::text::str_eq;
use crate::text::texts;
use crate::receive::MAX_EDUS_PER_TRANSACTION;
use crate::transaction::elements;
use crate::transaction::processed;

verus! {

/// The most events in one transaction.
pub const MAX_PDUS_PER_TXN: usize = 50;

/// The most ephemeral units in one transaction.
pub const MAX_EDUS_PER_TXN: usize = 100;

/// The most units that one stream is asked for at a time.
pub const MAX_EDUS_PER_STREAM_PER_TXN: usize = 25;

/// The first delay after a failure, in milliseconds.
pub const BACKOFF_INITIAL_MS: u64 = 2_000;

/// The longest delay after a failure.
pub const BACKOFF_MAX_MS: u64 = 300_000;

/// After this long of nothing but failures a destination is given up.
pub const DEAD_AFTER_MS: u64 = 86_400_000;

/// How long to wait when there is nothing to send.
pub const IDLE_POLL_MS: u64 = 60_000;

/// What came of one transaction.
#[derive(Clone, Copy, PartialEq, Eq, Structural, Debug)]
pub enum SendOutcome {
    Success,
    /// There was nothing to send.
    Empty,
    Failure,
}

/// How a destination has fared.
pub struct DestinationState {
    /// The next delay after a failure.
    pub backoff_ms: u64,
    /// When the failures began that have lasted since, in milliseconds.
    pub failing_since_ms: Option<u64>,
}

/// What a destination's task does next.
#[derive(Clone, Copy, PartialEq, Eq, Structural, Debug)]
pub enum DestinationStep {
    /// Wait this long, whatever happens, and look again.
    Retry(u64),
    /// Wait until woken, or this long.
    Idle(u64),
    /// Send what is pending.
    Send,
    /// Look for more at once.
    Continue,
    /// Give the destination up; what is pending stays stored.
    Dead,
}

/// What a destination's task does with what is pending: nothing could be read,
/// nothing is there, or something is.
pub fn plan_cycle(rooms: Option<usize>, edus: usize) -> (r: DestinationStep)
    ensures
        r == (match rooms {
            None => DestinationStep::Retry(BACKOFF_INITIAL_MS),
            Some(n) => if n == 0 && edus == 0 {
                DestinationStep::Idle(IDLE_POLL_MS)
            } else {
                DestinationStep::Send
            },
        }),
{
    match rooms {
        None => DestinationStep::Retry(BACKOFF_INITIAL_MS),
        Some(n) => {
            if n == 0 && edus == 0 {
                DestinationStep::Idle(IDLE_POLL_MS)
            } else {
                DestinationStep::Send
            }
        },
    }
}

/// A delay doubled, up to the longest.
pub open spec fn doubled(backoff: u64) -> u64 {
    if backoff * 2 <= BACKOFF_MAX_MS {
        (backoff * 2) as u64
    } else {
        BACKOFF_MAX_MS
    }
}

/// When the failures began that a failure now belongs to.
pub open spec fn failing_from(s: DestinationState, now: u64) -> u64 {
    match s.failing_since_ms {
        Some(t) => t,
        None => now,
    }
}

/// How a destination's state and next step follow from the outcomes of a cycle:
/// any success resets the delay; a cycle with failures only waits, each time
/// twice as long, and after a day of nothing but failures gives up.
pub open spec fn cycle_end(
    s: DestinationState,
    outcomes: Seq<SendOutcome>,
    now: u64,
) -> (u64, Option<u64>, DestinationStep) {
    if outcomes.contains(SendOutcome::Success) {
        (BACKOFF_INITIAL_MS, None, DestinationStep::Continue)
    } else if outcomes.contains(SendOutcome::Failure) {
        let since = failing_from(s, now);
        if now - since > DEAD_AFTER_MS {
            (s.backoff_ms, Some(since), DestinationStep::Dead)
        } else {
            (doubled(s.backoff_ms), Some(since), DestinationStep::Retry(s.backoff_ms))
        }
    } else {
        (s.backoff_ms, s.failing_since_ms, DestinationStep::Continue)
    }
}

fn has_outcome(outcomes: &Vec<SendOutcome>, o: SendOutcome) -> (r: bool)
    ensures
        r == outcomes@.contains(o),
{
    let mut i: usize = 0;
    while i < outcomes.len()
        invariant
            i <= outcomes.len(),
            forall|j: int| 0 <= j < i ==> outcomes@[j] != o,
        decreases outcomes.len() - i,
    {
        if outcomes[i] == o {
            return true;
        }
        i += 1;
    }
    false
}

impl DestinationState {
    /// Whether the delay lies between the first and the longest.
    pub open spec fn wf(self) -> bool {
        BACKOFF_INITIAL_MS <= self.backoff_ms <= BACKOFF_MAX_MS
    }

    /// The state of a destination whose task starts.
    pub fn new() -> (r: Self)
        ensures
            r.wf(),
            r.backoff_ms == BACKOFF_INITIAL_MS,
            r.failing_since_ms is None,
    {
        DestinationState { backoff_ms: BACKOFF_INITIAL_MS, failing_since_ms: None }
    }

    /// Ends a cycle: takes the outcomes of its transactions and says what to do
    /// next.
    pub fn run_destination(&mut self, outcomes: &Vec<SendOutcome>, now: u64) -> (r:
        DestinationStep)
        requires
            old(self).wf(),
        ensures
            final(self).wf(),
            (final(self).backoff_ms, final(self).failing_since_ms, r) == cycle_end(
                *old(self),
                outcomes@,
                now,
            ),
    {
        if has_outcome(outcomes, SendOutcome::Success) {
            self.backoff_ms = BACKOFF_INITIAL_MS;
            self.failing_since_ms = None;
            return DestinationStep::Continue;
        }
        if !has_outcome(outcomes, SendOutcome::Failure) {
            return DestinationStep::Continue;
        }
        let since: u64 = match self.failing_since_ms {
            Some(t) => t,
            None => now,
        };
        self.failing_since_ms = Some(since);
        if now.saturating_sub(since) > DEAD_AFTER_MS {
            return DestinationStep::Dead;
        }
        let wait: u64 = self.backoff_ms;
        self.backoff_ms = if wait * 2 <= BACKOFF_MAX_MS {
            wait * 2
        } else {
            BACKOFF_MAX_MS
        };
        DestinationStep::Retry(wait)
    }
}

/// The delay after `n` failures in a row, from the first on.
pub open spec fn delay_after(n: nat) -> u64
    decreases n,
{
    if n == 0 {
        BACKOFF_INITIAL_MS
    } else {
        doubled(delay_after((n - 1) as nat))
    }
}

/// The delays grow from two seconds to five minutes and no further: they never
/// shrink while failures last, and from the eighth failure on all are five
/// minutes.
pub proof fn law_backoff(n: nat)
    ensures
        BACKOFF_INITIAL_MS <= delay_after(n) <= delay_after(n + 1) <= BACKOFF_MAX_MS,
        n >= 8 ==> delay_after(n) == BACKOFF_MAX_MS,
    decreases n,
{
    if n > 0 {
        law_backoff((n - 1) as nat);
        if n == 8 {
            assert(delay_after(0) == 2_000);
            assert(delay_after(1) == 4_000);
            assert(delay_after(2) == 8_000);
            assert(delay_after(3) == 16_000);
            assert(delay_after(4) == 32_000);
            assert(delay_after(5) == 64_000);
            assert(delay_after(6) == 128_000);
            assert(delay_after(7) == 256_000);
        }
    }
}

/// A destination with any success is never given up, and one is given up only
/// after a day of nothing but failures: the first failure after a success, or
/// after the start, is always tried again.
pub proof fn law_giving_up(s: DestinationState, outcomes: Seq<SendOutcome>, now: u64)
    ensures
        cycle_end(s, outcomes, now).2 == DestinationStep::Dead ==> {
            &&& !outcomes.contains(SendOutcome::Success)
            &&& outcomes.contains(SendOutcome::Failure)
            &&& s.failing_since_ms is Some
            &&& now - s.failing_since_ms->0 > DEAD_AFTER_MS
        },
        outcomes.contains(SendOutcome::Success) ==> cycle_end(s, outcomes, now).1 is None,
        s.failing_since_ms is None && !outcomes.contains(SendOutcome::Success) && outcomes.contains(
            SendOutcome::Failure,
        ) ==> cycle_end(s, outcomes, now) == (
            doubled(s.backoff_ms),
            Some(now),
            DestinationStep::Retry(s.backoff_ms),
        ),
{
}

/// Some servers without one of them.
pub open spec fn leaving_out(servers: Seq<Seq<char>>, except: Option<Seq<char>>) -> Seq<Seq<char>>
    decreases servers.len(),
{
    if servers.len() == 0 {
        seq![]
    } else if except == Some(servers.last()) {
        leaving_out(servers.drop_last(), except)
    } else {
        leaving_out(servers.drop_last(), except).push(servers.last())
    }
}

proof fn lemma_leaving_none_out(servers: Seq<Seq<char>>)
    ensures
        leaving_out(servers, None) == servers,
    decreases servers.len(),
{
    if servers.len() > 0 {
        lemma_leaving_none_out(servers.drop_last());
        assert(servers.drop_last().push(servers.last()) =~= servers);
    }
}

/// An event is not sent back to the server that it is relayed for, and every
/// other server that it concerns gets it.
pub proof fn law_no_echo(servers: Seq<Seq<char>>, except: Seq<char>, s: Seq<char>)
    ensures
        leaving_out(servers, Some(except)).contains(s) <==> servers.contains(s) && s != except,
    decreases servers.len(),
{
    if servers.len() > 0 {
        let front = servers.drop_last();
        law_no_echo(front, except, s);
        assert(servers =~= front.push(servers.last()));
        lemma_has_push(front, servers.last(), s);
        lemma_has_push(leaving_out(front, Some(except)), servers.last(), s);
    }
}

/// The servers that are told of an event: those in the room, and the one whose
/// user the event concerns.
pub open spec fn broadcast_targets(remote: Seq<Seq<char>>, extra: Option<Seq<char>>) -> Seq<
    Seq<char>,
> {
    match extra {
        Some(s) => if remote.contains(s) {
            remote
        } else {
            remote.push(s)
        },
        None => remote,
    }
}

/// The server of the user that a membership event concerns, if it is another
/// one.
pub open spec fn member_server(
    is_member: bool,
    event: Option<JsonView>,
    us: Seq<char>,
) -> Option<Seq<char>> {
    if !is_member || event is None {
        None
    } else {
        match event->0.str_at("state_key"@) {
            Some(user) => match server_part(user) {
                Some(s) => if s.len() == 0 || s == us {
                    None
                } else {
                    Some(s)
                },
                None => None,
            },
            None => None,
        }
    }
}

/// Sends events to other servers.
pub struct FederationSender {
    pub our_server_name: String,
    /// Whether anything is sent at all.
    pub enabled: bool,
}

impl FederationSender {
    /// A sender that sends.
    pub fn new(our_server_name: String) -> (r: Self)
        ensures
            r.our_server_name == our_server_name,
            r.enabled,
    {
        FederationSender { our_server_name, enabled: true }
    }

    /// A sender that sends if `enabled`, and the destinations whose tasks it
    /// starts: those with something pending.
    pub fn new_with_enabled(
        our_server_name: String,
        enabled: bool,
        pending: Option<Vec<String>>,
    ) -> (r: (Self, Vec<String>))
        ensures
            r.0.our_server_name == our_server_name,
            r.0.enabled == enabled,
            match pending {
                Some(p) => texts(r.1@) == (if enabled {
                    texts(p@)
                } else {
                    seq![]
                }),
                None => r.1@.len() == 0,
            },
    {
        let none: Vec<String> = Vec::new();
        proof {
            assert(texts(none@) =~= seq![]);
        }
        let start = match pending {
            Some(p) => {
                if enabled {
                    p
                } else {
                    none
                }
            },
            None => none,
        };
        (FederationSender { our_server_name, enabled }, start)
    }

    /// The server of the user that a membership event concerns, if it is another
    /// one: it has to hear of a kick or a ban although its user is gone.
    pub fn target_server_for_member_event(&self, is_member: bool, event: Option<&Json>) -> (r:
        Option<String>)
        ensures
            opt_string(r) == member_server(
                is_member,
                match event {
                    Some(e) => Some(e@),
                    None => None,
                },
                self.our_server_name@,
            ),
    {
        if !is_member {
            return None;
        }
        let user = match event {
            Some(e) => match e.str_at("state_key") {
                Some(u) => u,
                None => {
                    return None;
                },
            },
            None => {
                return None;
            },
        };
        match domain_of(user) {
            Some(s) => {
                if s.is_empty() || str_eq(s, self.our_server_name.as_str()) {
                    None
                } else {
                    Some(s.to_owned())
                }
            },
            None => None,
        }
    }

    /// The servers that an event is queued for; none if nothing is sent or the
    /// servers in the room could not be read.
    pub fn broadcast(&self, remote: Option<&Vec<String>>, extra: Option<String>) -> (r: Vec<String>)
        ensures
            texts(r@) == (match remote {
                Some(v) => if self.enabled {
                    broadcast_targets(texts(v@), opt_string(extra))
                } else {
                    seq![]
                },
                None => seq![],
            }),
    {
        proof {
            if remote is Some {
                lemma_leaving_none_out(broadcast_targets(texts(remote->0@), opt_string(extra)));
            }
        }
        self.broadcast_excluding(remote, extra, None)
    }

    /// The servers that an event is queued for, but for one of them; none if
    /// nothing is sent or the servers in the room could not be read.
    pub fn broadcast_excluding(
        &self,
        remote: Option<&Vec<String>>,
        extra: Option<String>,
        except: Option<&str>,
    ) -> (r: Vec<String>)
        ensures
            texts(r@) == (match remote {
                Some(v) => if self.enabled {
                    leaving_out(
                        broadcast_targets(texts(v@), opt_string(extra)),
                        opt_text(except),
                    )
                } else {
                    seq![]
                },
                None => seq![],
            }),
    {
        let none: Vec<String> = Vec::new();
        proof {
            assert(texts(none@) =~= seq![]);
        }
        if !self.enabled {
            return none;
        }
        let mut all = match remote {
            Some(v) => clone_list(v),
            None => {
                return none;
            },
        };
        match extra {
            Some(s) => {
                if !list_has(&all, s.as_str()) {
                    proof {
                        lemma_texts_push(all@, s);
                    }
                    all.push(s);
                }
            },
            None => {},
        }
        let ghost servers = texts(all@);
        let mut out: Vec<String> = Vec::new();
        let mut i: usize = 0;
        proof {
            assert(texts(out@) =~= leaving_out(servers.take(0), opt_text(except)));
        }
        while i < all.len()
            invariant
                i <= all.len(),
                servers == texts(all@),
                texts(out@) == leaving_out(servers.take(i as int), opt_text(except)),
            decreases all.len() - i,
        {
            proof {
                assert(servers.take(i + 1).drop_last() =~= servers.take(i as int));
                assert(servers.take(i + 1).last() == all@[i as int]@);
            }
            let keep = match except {
                Some(e) => !str_eq(all[i].as_str(), e),
                None => true,
            };
            if keep {
                let s = all[i].clone();
                proof {
                    lemma_texts_push(out@, s);
                }
                out.push(s);
            }
            i += 1;
        }
        proof {
            assert(servers.take(i as int) =~= servers);
        }
        out
    }

    /// The servers to wake for a user: all that share a room with them, each
    /// once. Rooms that could not be read are left out.
    pub fn notify_user_subscribers(&self, rooms: &Vec<Option<Vec<String>>>) -> (r: Vec<String>)
        ensures
            texts(r@).no_duplicates(),
            forall|s: Seq<char>| #[trigger]
                texts(r@).contains(s) <==> self.enabled && shares_room(rooms@, s),
    {
        let mut out: Vec<String> = Vec::new();
        if !self.enabled {
            return out;
        }
        let mut i: usize = 0;
        while i < rooms.len()
            invariant
                i <= rooms.len(),
                texts(out@).no_duplicates(),
                forall|s: Seq<char>| #[trigger]
                    texts(out@).contains(s) <==> shares_room(rooms@.take(i as int), s),
            decreases rooms.len() - i,
        {
            let ghost before = texts(out@);
            match &rooms[i] {
                Some(servers) => {
                    let mut j: usize = 0;
                    while j < servers.len()
                        invariant
                            i < rooms.len(),
                            rooms@[i as int] == Some(*servers),
                            j <= servers.len(),
                            texts(out@).no_duplicates(),
                            forall|s: Seq<char>| #[trigger]
                                texts(out@).contains(s) <==> before.contains(s) || texts(
                                    servers@,
                                ).take(j as int).contains(s),
                        decreases servers.len() - j,
                    {
                        let ghost mid = texts(out@);
                        let ghost x = servers@[j as int]@;
                        if !list_has(&out, servers[j].as_str()) {
                            let s = servers[j].clone();
                            proof {
                                lemma_texts_push(out@, s);
                            }
                            out.push(s);
                        }
                        proof {
                            assert(texts(servers@).take(j + 1) =~= texts(servers@).take(
                                j as int,
                            ).push(x));
                            assert forall|s: Seq<char>| #[trigger]
                                texts(out@).contains(s) <==> before.contains(s) || texts(
                                    servers@,
                                ).take(j + 1).contains(s) by {
                                lemma_has_push(mid, x, s);
                                lemma_has_push(texts(servers@).take(j as int), x, s);
                                assert(mid.contains(s) <==> before.contains(s) || texts(
                                    servers@,
                                ).take(j as int).contains(s));
                            }
                        }
                        j += 1;
                    }
                    proof {
                        assert(texts(servers@).take(j as int) =~= texts(servers@));
                    }
                },
                None => {},
            }
            proof {
                assert forall|s: Seq<char>| #[trigger] texts(out@).contains(s) <==> shares_room(
                    rooms@.take(i + 1),
                    s,
                ) by {
                    lemma_shares(rooms@, i as int, s);
                    assert(before.contains(s) <==> shares_room(rooms@.take(i as int), s));
                }
            }
            i += 1;
        }
        proof {
            assert(rooms@.take(i as int) =~= rooms@);
        }
        out
    }

    /// The servers to wake for a room; none if nothing is sent or they could not
    /// be read.
    pub fn notify_room(&self, remote: Option<&Vec<String>>) -> (r: Vec<String>)
        ensures
            texts(r@) == (match remote {
                Some(v) => if self.enabled {
                    texts(v@)
                } else {
                    seq![]
                },
                None => seq![],
            }),
    {
        self.broadcast(remote, None)
    }

    /// Whether to wake the task of a destination: only one that there is. None
    /// is started for this.
    pub fn notify_destination(&self, has_task: bool) -> (r: bool)
        ensures
            r == (self.enabled && has_task),
    {
        self.enabled && has_task
    }
}

/// Whether a server is in one of some rooms.
pub open spec fn shares_room(rooms: Seq<Option<Vec<String>>>, s: Seq<char>) -> bool {
    exists|i: int| 0 <= i < rooms.len() && in_room(#[trigger] rooms[i], s)
}

pub open spec fn in_room(room: Option<Vec<String>>, s: Seq<char>) -> bool {
    match room {
        Some(v) => texts(v@).contains(s),
        None => false,
    }
}

proof fn lemma_shares(rooms: Seq<Option<Vec<String>>>, i: int, s: Seq<char>)
    requires
        0 <= i < rooms.len(),
    ensures
        shares_room(rooms.take(i + 1), s) <==> shares_room(rooms.take(i), s) || in_room(
            rooms[i],
            s,
        ),
{
    let more = rooms.take(i + 1);
    let less = rooms.take(i);
    if shares_room(more, s) {
        let j = choose|j: int| 0 <= j < more.len() && in_room(#[trigger] more[j], s);
        if j < i {
            assert(in_room(less[j], s));
        }
    }
    if shares_room(less, s) {
        let j = choose|j: int| 0 <= j < less.len() && in_room(#[trigger] less[j], s);
        assert(in_room(more[j], s));
    }
    if in_room(rooms[i], s) {
        assert(in_room(more[i], s));
    }
}

/// The members of an event without its id: servers work the id out themselves.
pub open spec fn without_id(m: Seq<(Seq<char>, JsonView)>) -> Seq<(Seq<char>, JsonView)>
    decreases m.len(),
{
    if m.len() == 0 {
        seq![]
    } else if m.last().0 == "event_id"@ {
        without_id(m.drop_last())
    } else {
        without_id(m.drop_last()).push(m.last())
    }
}

/// A stored event as it is sent.
pub open spec fn as_sent(event: JsonView) -> JsonView {
    match event {
        JsonView::Object(m) => JsonView::Object(without_id(m)),
        other => other,
    }
}

/// A stored event as it is sent: without its id.
pub fn load_event_json_for_send(event: &Json) -> (r: Json)
    ensures
        r@ == as_sent(event@),
{
    match event.as_object() {
        Some(m) => {
            let ghost v = members(m@);
            let mut out: Vec<(String, Json)> = Vec::new();
            let mut i: usize = 0;
            proof {
                assert(v.take(0) =~= seq![]);
                assert(members(out@) =~= seq![]);
            }
            while i < m.len()
                invariant
                    i <= m.len(),
                    v == members(m@),
                    members(out@) == without_id(v.take(i as int)),
                decreases m.len() - i,
            {
                proof {
                    assert(v.take(i + 1).drop_last() =~= v.take(i as int));
                    assert(v.take(i + 1).last() == (m@[i as int].0@, m@[i as int].1@));
                }
                if !str_eq(m[i].0.as_str(), "event_id") {
                    put(&mut out, m[i].0.as_str(), m[i].1.copy());
                }
                i += 1;
            }
            proof {
                assert(v.take(i as int) =~= v);
            }
            Json::object(out)
        },
        None => event.copy(),
    }
}

proof fn lemma_no_id(m: Seq<(Seq<char>, JsonView)>, k: int)
    requires
        0 <= k <= without_id(m).len(),
    ensures
        member(without_id(m).skip(k), "event_id"@) is None,
    decreases without_id(m).len() - k,
{
    lemma_names(m);
    let w = without_id(m);
    if k < w.len() {
        lemma_no_id(m, k + 1);
        assert(w.skip(k)[0] == w[k]);
        assert(w.skip(k).drop_first() =~= w.skip(k + 1));
    }
}

proof fn lemma_names(m: Seq<(Seq<char>, JsonView)>)
    ensures
        forall|i: int| 0 <= i < without_id(m).len() ==> (#[trigger] without_id(m)[i]).0
            != "event_id"@,
    decreases m.len(),
{
    if m.len() > 0 {
        let front = without_id(m.drop_last());
        lemma_names(m.drop_last());
        assert forall|i: int| 0 <= i < without_id(m).len() implies (#[trigger] without_id(m)[i]).0
            != "event_id"@ by {
            if i < front.len() {
                assert(without_id(m)[i] == front[i]);
            }
        }
    }
}

/// No event is sent with an id in it.
pub proof fn law_sent_without_id(event: JsonView)
    ensures
        as_sent(event).get("event_id"@) is None,
{
    if let JsonView::Object(m) = event {
        lemma_no_id(m, 0);
        assert(without_id(m).skip(0) =~= without_id(m));
    }
}

pub open spec fn is_lower_hex(c: char) -> bool {
    ('0' <= c <= '9') || ('a' <= c <= 'f')
}

/// Whether a text can be the id of a transaction: 32 hexadecimal digits in lower
/// case.
pub open spec fn is_txn_id(s: Seq<char>) -> bool {
    s.len() == 32 && forall|i: int| 0 <= i < s.len() ==> is_lower_hex(#[trigger] s[i])
}

/// `Uuid::new_v4` in simple form: a random identifier of 32 hexadecimal digits
/// in lower case. Nothing else is said of it.
#[verifier::external_body]
fn new_txn_id() -> (r: String)
    ensures
        is_txn_id(r@),
{
    uuid::Uuid::new_v4().simple().to_string()
}

/// The body of a transaction.
pub open spec fn transaction(
    origin: Seq<char>,
    now: u64,
    pdus: Seq<JsonView>,
    edus: Seq<JsonView>,
) -> JsonView {
    JsonView::Object(
        seq![
            ("origin"@, JsonView::Str(origin)),
            ("origin_server_ts"@, JsonView::Number(NumberView::Unsigned(now))),
            ("pdus"@, JsonView::Array(pdus)),
            ("edus"@, JsonView::Array(edus)),
        ],
    )
}

fn build_transaction(origin: &str, now: u64, pdus: Vec<Json>, edus: Vec<Json>) -> (r: Json)
    ensures
        r@ == transaction(origin@, now, values(pdus@), values(edus@)),
{
    let ghost a = values(pdus@);
    let ghost b = values(edus@);
    let mut m: Vec<(String, Json)> = Vec::new();
    put(&mut m, "origin", Json::text(origin));
    put(&mut m, "origin_server_ts", Json::number(now));
    put(&mut m, "pdus", Json::array(pdus));
    put(&mut m, "edus", Json::array(edus));
    proof {
        assert(members(m@) =~= transaction(origin@, now, a, b)->Object_0);
    }
    Json::object(m)
}

/// An entry of the queue for a destination and a room.
pub struct QueueEntry {
    pub position: u64,
    /// The event, if it is still stored.
    pub event: Option<Json>,
}

/// The events among some entries, as they are sent.
pub open spec fn queued_events(v: Seq<QueueEntry>) -> Seq<JsonView>
    decreases v.len(),
{
    if v.len() == 0 {
        seq![]
    } else {
        match v.last().event {
            Some(e) => queued_events(v.drop_last()).push(as_sent(e@)),
            None => queued_events(v.drop_last()),
        }
    }
}

pub open spec fn positions(v: Seq<QueueEntry>) -> Seq<u64> {
    v.map_values(|e: QueueEntry| e.position)
}

/// What to do with the front of a queue.
pub enum RoomTxnStep {
    /// It could not be read.
    Failed,
    /// It is empty.
    Empty,
    /// None of its events is stored any more: drop the entries.
    Discard { positions: Vec<u64> },
    /// Send a transaction; once it got through, drop the entries.
    Send { txn_id: String, body: Json, positions: Vec<u64> },
}

/// Whether a step is what the front of a queue calls for.
pub open spec fn is_room_txn_step(
    batch: Option<Seq<QueueEntry>>,
    origin: Seq<char>,
    now: u64,
    s: RoomTxnStep,
) -> bool {
    match batch {
        None => s is Failed,
        Some(v) => if v.len() == 0 {
            s is Empty
        } else if queued_events(v).len() == 0 {
            s matches RoomTxnStep::Discard { positions: p } && p@ == positions(v)
        } else {
            s matches RoomTxnStep::Send { txn_id, body, positions: p } && {
                &&& is_txn_id(txn_id@)
                &&& body@ == transaction(origin, now, queued_events(v), seq![])
                &&& p@ == positions(v)
            }
        },
    }
}

/// Says what to do with the front of a queue for a room.
pub fn send_room_txn(batch: Option<&Vec<QueueEntry>>, origin: &str, now: u64) -> (r: RoomTxnStep)
    ensures
        is_room_txn_step(
            match batch {
                Some(v) => Some(v@),
                None => None,
            },
            origin@,
            now,
            r,
        ),
{
    let v = match batch {
        None => {
            return RoomTxnStep::Failed;
        },
        Some(v) => v,
    };
    if v.len() == 0 {
        return RoomTxnStep::Empty;
    }
    let mut pdus: Vec<Json> = Vec::new();
    let mut places: Vec<u64> = Vec::new();
    let mut i: usize = 0;
    proof {
        assert(values(pdus@) =~= seq![]);
        assert(v@.take(0) =~= seq![]);
    }
    while i < v.len()
        invariant
            i <= v.len(),
            values(pdus@) == queued_events(v@.take(i as int)),
            places@ =~= positions(v@).take(i as int),
        decreases v.len() - i,
    {
        proof {
            assert(v@.take(i + 1).drop_last() =~= v@.take(i as int));
            assert(v@.take(i + 1).last() == v@[i as int]);
        }
        places.push(v[i].position);
        match &v[i].event {
            Some(e) => {
                let x = load_event_json_for_send(e);
                proof {
                    lemma_values_push(pdus@, x);
                }
                pdus.push(x);
            },
            None => {},
        }
        i += 1;
    }
    proof {
        assert(v@.take(i as int) =~= v@);
        assert(positions(v@).take(i as int) =~= positions(v@));
        assert(values(pdus@).len() == pdus@.len());
    }
    if pdus.len() == 0 {
        return RoomTxnStep::Discard { positions: places };
    }
    let none: Vec<Json> = Vec::new();
    proof {
        assert(values(none@) =~= seq![]);
    }
    RoomTxnStep::Send {
        txn_id: new_txn_id(),
        body: build_transaction(origin, now, pdus, none),
        positions: places,
    }
}

/// The outcome of a transaction.
pub fn send_outcome(sent: bool) -> (r: SendOutcome)
    ensures
        r == (if sent {
            SendOutcome::Success
        } else {
            SendOutcome::Failure
        }),
{
    if sent {
        SendOutcome::Success
    } else {
        SendOutcome::Failure
    }
}

/// The id and the body of a transaction of units only; `None` if there are none.
pub fn send_edu_txn(edus: Vec<Json>, origin: &str, now: u64) -> (r: Option<(String, Json)>)
    ensures
        if edus@.len() == 0 {
            r is None
        } else {
            r matches Some((txn_id, body)) && is_txn_id(txn_id@) && body@ == transaction(
                origin@,
                now,
                seq![],
                values(edus@),
            )
        },
{
    if edus.len() == 0 {
        return None;
    }
    let none: Vec<Json> = Vec::new();
    proof {
        assert(values(none@) =~= seq![]);
    }
    Some((new_txn_id(), build_transaction(origin, now, none, edus)))
}

/// The units that are collected from the streams for one transaction.
pub struct EduDrain {
    pub edus: Vec<Json>,
    /// For each stream that gave units, how far its cursor moves once they got
    /// through.
    pub advances: Vec<(String, u64)>,
}

pub open spec fn advance_views(v: Seq<(String, u64)>) -> Seq<(Seq<char>, u64)> {
    v.map_values(|a: (String, u64)| (a.0@, a.1))
}

impl EduDrain {
    pub fn new() -> (r: Self)
        ensures
            r.edus@.len() == 0,
            r.advances@.len() == 0,
    {
        EduDrain { edus: Vec::new(), advances: Vec::new() }
    }

    /// Whether there is room for more: the next stream is asked only then.
    pub fn wants_more(&self) -> (r: bool)
        ensures
            r == (self.edus@.len() < MAX_EDUS_PER_TXN),
    {
        self.edus.len() < MAX_EDUS_PER_TXN
    }

    /// Adds what a stream gave. A stream that gave nothing, or failed, does not
    /// move its cursor.
    pub fn drain_edu_streams(&mut self, name: &str, scan: Option<(Vec<Json>, u64)>)
        ensures
            match scan {
                Some((batch, cursor)) => if batch@.len() > 0 {
                    &&& values(final(self).edus@) == values(old(self).edus@) + values(batch@)
                    &&& advance_views(final(self).advances@) == advance_views(
                        old(self).advances@,
                    ).push((name@, cursor))
                } else {
                    *final(self) == *old(self)
                },
                None => *final(self) == *old(self),
            },
    {
        match scan {
            Some((batch, cursor)) => {
                if batch.len() > 0 {
                    let ghost a = self.edus@;
                    let ghost b = batch@;
                    let ghost old_advances = self.advances@;
                    let mut more = batch;
                    self.edus.append(&mut more);
                    self.advances.push((name.to_owned(), cursor));
                    proof {
                        assert(values(a + b) =~= values(a) + values(b));
                        assert(advance_views(self.advances@) =~= advance_views(old_advances).push(
                            (name@, cursor),
                        ));
                    }
                }
            },
            None => {},
        }
    }

    /// Ends the collecting: no more units than a transaction carries.
    pub fn finish(self) -> (r: (Vec<Json>, Vec<(String, u64)>))
        ensures
            values(r.0@) == (if self.edus@.len() > MAX_EDUS_PER_TXN {
                values(self.edus@).take(MAX_EDUS_PER_TXN as int)
            } else {
                values(self.edus@)
            }),
            r.1@ == self.advances@,
    {
        let mut edus = self.edus;
        let ghost all = edus@;
        if edus.len() > MAX_EDUS_PER_TXN {
            edus.truncate(MAX_EDUS_PER_TXN);
            proof {
                assert(edus@ =~= all.take(MAX_EDUS_PER_TXN as int));
                assert(values(edus@) =~= values(all).take(MAX_EDUS_PER_TXN as int));
            }
        }
        (edus, self.advances)
    }
}

/// What one server puts into a transaction is what another takes out of it, and
/// a full transaction is not over the other's limits.
pub proof fn law_transactions_arrive(
    origin: Seq<char>,
    now: u64,
    pdus: Seq<JsonView>,
    edus: Seq<JsonView>,
)
    ensures
        elements(transaction(origin, now, pdus, edus), "pdus"@) == pdus,
        elements(transaction(origin, now, pdus, edus), "edus"@) == edus,
        pdus.len() <= MAX_PDUS_PER_TXN ==> processed(pdus.len()) == pdus.len(),
        MAX_EDUS_PER_TXN <= MAX_EDUS_PER_TRANSACTION,
{
    reveal_with_fuel(member, 5);
    reveal_strlit("origin");
    reveal_strlit("origin_server_ts");
    reveal_strlit("pdus");
    reveal_strlit("edus");
    let m = transaction(origin, now, pdus, edus)->Object_0;
    assert("origin"@.len() == 6 && "origin_server_ts"@.len() == 16);
    assert("pdus"@.len() == 4 && "edus"@.len() == 4);
    assert("pdus"@[0] == 'p' && "edus"@[0] == 'e');
    let m1 = m.drop_first();
    let m2 = m1.drop_first();
    let m3 = m2.drop_first();
    assert(m1[0] == m[1] && m2[0] == m[2] && m3[0] == m[3]);
}

proof fn lemma_sent_members(m: Seq<(Seq<char>, JsonView)>)
    ensures
        without_id(m) == m.filter(|e: (Seq<char>, JsonView)| e.0 != "event_id"@),
    decreases m.len(),
{
    reveal(Seq::filter);
    if m.len() > 0 {
        lemma_sent_members(m.drop_last());
    }
}

proof fn lemma_sent_member(m: Seq<(Seq<char>, JsonView)>, k: Seq<char>)
    requires
        k != "event_id"@,
    ensures
        member(without_id(m), k) == member(m, k),
    decreases m.len(),
{
    let p = |e: (Seq<char>, JsonView)| e.0 != "event_id"@;
    lemma_sent_members(m);
    if m.len() > 0 {
        let rest = m.drop_first();
        lemma_sent_member(rest, k);
        lemma_sent_members(rest);
        rest.lemma_filter_prepend(m[0], p);
        assert(m =~= seq![m[0]] + rest);
        if p(m[0]) {
            assert(without_id(m) =~= seq![m[0]] + without_id(rest));
            assert(without_id(m).drop_first() =~= without_id(rest));
        }
    }
}

/// An event is sent as it is stored but for its id: every other member is there
/// with the same value, in the same order, its signatures and hashes among them.
pub proof fn law_sent_as_stored(event: JsonView, k: Seq<char>)
    ensures
        k != "event_id"@ ==> as_sent(event).get(k) == event.get(k),
        as_sent(event).get("event_id"@) is None,
        match event {
            JsonView::Object(m) => as_sent(event) == JsonView::Object(
                m.filter(|e: (Seq<char>, JsonView)| e.0 != "event_id"@),
            ),
            _ => as_sent(event) == event,
        },
{
    law_sent_without_id(event);
    if let JsonView::Object(m) = event {
        lemma_sent_members(m);
        if k != "event_id"@ {
            lemma_sent_member(m, k);
        }
    }
}

/// Sending to a queue's room sends every event that is still stored, in the order
/// of the queue, each as it is stored but for its id, and drops every entry.
pub proof fn law_queued_events(v: Seq<QueueEntry>)
    ensures
        queued_events(v) == v.filter_map(
            |e: QueueEntry|
                match e.event {
                    Some(x) => Some(as_sent(x@)),
                    None => None,
                },
        ),
        forall|i: int|
            0 <= i < v.len() && (#[trigger] v[i]).event is Some ==> queued_events(v).contains(
                as_sent(v[i].event->0@),
            ),
        queued_events(v).len() == 0 <==> forall|i: int|
            0 <= i < v.len() ==> (#[trigger] v[i]).event is None,
        queued_events(v).len() <= v.len(),
        positions(v).len() == v.len(),
        forall|i: int| 0 <= i < v.len() ==> (#[trigger] v[i]).position == positions(v)[i],
    decreases v.len(),
{
    if v.len() > 0 {
        let front = v.drop_last();
        let r = queued_events(v);
        let s = queued_events(front);
        law_queued_events(front);
        if v.last().event is Some {
            let x = as_sent(v.last().event->0@);
            assert(s.push(x) =~= s + seq![x]);
            assert(r[s.len() as int] == x);
        }
        assert forall|i: int|
            0 <= i < v.len() && (#[trigger] v[i]).event is Some implies r.contains(
            as_sent(v[i].event->0@),
        ) by {
            if i < front.len() {
                assert(front[i] == v[i]);
                let x = as_sent(v[i].event->0@);
                assert(s.contains(x));
                let k = choose|k: int| 0 <= k < s.len() && s[k] == x;
                assert(r[k] == x);
            }
        }
        if forall|i: int| 0 <= i < v.len() ==> (#[trigger] v[i]).event is None {
            assert forall|i: int| 0 <= i < front.len() implies (#[trigger] front[i]).event
                is None by {
                assert(front[i] == v[i]);
            }
            assert(v[v.len() - 1].event is None);
        }
        if r.len() == 0 {
            assert forall|i: int| 0 <= i < v.len() implies (#[trigger] v[i]).event is None by {
                if i < front.len() {
                    assert(front[i] == v[i]);
                }
            }
        }
    }
}

/// A transaction for a room carries under `pdus` what its queue holds, names the
/// server that sends it and the time, and carries no units. Nothing is sent for
/// an empty queue or one whose events are all gone, and entries are dropped only
/// together, all of them.
pub proof fn law_room_transactions(
    batch: Option<Seq<QueueEntry>>,
    origin: Seq<char>,
    now: u64,
    s: RoomTxnStep,
)
    requires
        is_room_txn_step(batch, origin, now, s),
    ensures
        s is Failed <==> batch is None,
        s is Empty <==> (batch matches Some(v) && v.len() == 0),
        s is Discard <==> (batch matches Some(v) && v.len() > 0 && forall|i: int|
            0 <= i < v.len() ==> (#[trigger] v[i]).event is None),
        s matches RoomTxnStep::Discard { positions: p } ==> p@ == batch->0.map_values(
            |e: QueueEntry| e.position,
        ),
        s matches RoomTxnStep::Send { txn_id, body, positions: p } ==> {
            &&& p@ == batch->0.map_values(|e: QueueEntry| e.position)
            &&& body@.get("origin"@) == Some(JsonView::Str(origin))
            &&& body@.get("origin_server_ts"@) == Some(JsonView::Number(NumberView::Unsigned(now)))
            &&& body@.get("edus"@) == Some(JsonView::Array(seq![]))
            &&& body@.get("pdus"@) == Some(
                JsonView::Array(
                    batch->0.filter_map(
                        |e: QueueEntry|
                            match e.event {
                                Some(x) => Some(as_sent(x@)),
                                None => None,
                            },
                    ),
                ),
            )
        },
{
    if let Some(v) = batch {
        law_queued_events(v);
        lemma_transaction(origin, now, queued_events(v), seq![]);
    }
}

proof fn lemma_transaction(
    origin: Seq<char>,
    now: u64,
    pdus: Seq<JsonView>,
    edus: Seq<JsonView>,
)
    ensures
        ({
            let t = transaction(origin, now, pdus, edus);
            &&& t.get("origin"@) == Some(JsonView::Str(origin))
            &&& t.get("origin_server_ts"@) == Some(JsonView::Number(NumberView::Unsigned(now)))
            &&& t.get("pdus"@) == Some(JsonView::Array(pdus))
            &&& t.get("edus"@) == Some(JsonView::Array(edus))
        }),
{
    reveal_with_fuel(member, 5);
    reveal_strlit("origin");
    reveal_strlit("origin_server_ts");
    reveal_strlit("pdus");
    reveal_strlit("edus");
    let m = transaction(origin, now, pdus, edus)->Object_0;
    assert("origin"@.len() == 6 && "origin_server_ts"@.len() == 16);
    assert("pdus"@.len() == 4 && "edus"@.len() == 4);
    assert("pdus"@[0] == 'p' && "edus"@[0] == 'e');
    let m1 = m.drop_first();
    let m2 = m1.drop_first();
    let m3 = m2.drop_first();
    assert(m1[0] == m[1] && m2[0] == m[2] && m3[0] == m[3]);
}

/// An event goes to every server in its room and to the one whose user it
/// concerns, to each of them once, but for the server it came from; the others
/// come in the order in which the room's servers were given.
pub proof fn law_who_is_told(
    remote: Seq<Seq<char>>,
    extra: Option<Seq<char>>,
    except: Option<Seq<char>>,
    s: Seq<char>,
)
    ensures
        ({
            let told = leaving_out(broadcast_targets(remote, extra), except);
            &&& told.contains(s) <==> (remote.contains(s) || extra == Some(s)) && except != Some(s)
            &&& remote.no_duplicates() ==> told.no_duplicates()
            &&& extra is None ==> told == remote.filter(|x: Seq<char>| except != Some(x))
        }),
{
    let all = broadcast_targets(remote, extra);
    match extra {
        Some(x) => {
            lemma_has_push(remote, x, s);
        },
        None => {},
    }
    match except {
        Some(e) => {
            law_no_echo(all, e, s);
        },
        None => {
            lemma_leaving_none_out(all);
        },
    }
    lemma_left(all, except);
    all.filter_lemma(|x: Seq<char>| except != Some(x));
    if remote.no_duplicates() {
        assert(all.no_duplicates());
        lemma_left_distinct(all, except);
    }
}

proof fn lemma_left(servers: Seq<Seq<char>>, except: Option<Seq<char>>)
    ensures
        leaving_out(servers, except) == servers.filter(|x: Seq<char>| except != Some(x)),
    decreases servers.len(),
{
    reveal(Seq::filter);
    if servers.len() > 0 {
        lemma_left(servers.drop_last(), except);
    }
}

proof fn lemma_left_distinct(servers: Seq<Seq<char>>, except: Option<Seq<char>>)
    requires
        servers.no_duplicates(),
    ensures
        leaving_out(servers, except).no_duplicates(),
        forall|s: Seq<char>| #[trigger]
            leaving_out(servers, except).contains(s) ==> servers.contains(s),
    decreases servers.len(),
{
    if servers.len() > 0 {
        let front = servers.drop_last();
        let r = leaving_out(servers, except);
        let l = leaving_out(front, except);
        lemma_left_distinct(front, except);
        assert(servers =~= front.push(servers.last()));
        assert forall|s: Seq<char>| #[trigger] r.contains(s) implies servers.contains(s) by {
            lemma_has_push(front, servers.last(), s);
            lemma_has_push(l, servers.last(), s);
        }
        if r != l {
            assert(!l.contains(servers.last())) by {
                if l.contains(servers.last()) {
                    assert(front.contains(servers.last()));
                    let k = choose|k: int| 0 <= k < front.len() && front[k] == servers.last();
                    assert(servers[k] == servers[servers.len() - 1]);
                }
            }
            assert forall|i: int, j: int| 0 <= i < j < r.len() implies r[i] != r[j] by {
                if j == l.len() {
                    assert(l.contains(l[i]));
                }
            }
        }
    }
}

/// The server of a member event's user is told too, exactly if it is another one:
/// whatever follows the first colon of the state key, if that is not empty.
pub proof fn law_member_servers(is_member: bool, event: Option<JsonView>, us: Seq<char>)
    ensures
        match member_server(is_member, event, us) {
            Some(s) => is_member && s != us && s.len() > 0 && (event matches Some(e) && (e.get(
                "state_key"@,
            ) matches Some(JsonView::Str(user)) && belongs_to(user, s))),
            None => is_member ==> (event matches Some(e) && (e.get("state_key"@) matches Some(
                JsonView::Str(user),
            ) && (belongs_to(user, us) || belongs_to(user, seq![]) || !user.contains(':')))) || !(
            event matches Some(e) && e.get("state_key"@) matches Some(JsonView::Str(_))),
        },
{
    if let Some(e) = event {
        if let Some(JsonView::Str(user)) = e.get("state_key"@) {
            law_belonging(user, us);
            law_split_once(user, ':');
            if let Some(s) = server_part(user) {
                if s.len() == 0 {
                    assert(s =~= seq![]);
                }
            }
        }
    }
}

/// What becomes of a destination after a cycle: any success puts it back to the
/// first delay and ends its failures; a cycle without success or failure changes
/// nothing; failures alone make it wait for the delay, double that up to five
/// minutes and remember when they began, and more than a day after that it is
/// given up.
pub proof fn law_cycles(s: DestinationState, outcomes: Seq<SendOutcome>, now: u64)
    ensures
        outcomes.contains(SendOutcome::Success) ==> cycle_end(s, outcomes, now) == (
            2_000u64,
            None::<u64>,
            DestinationStep::Continue,
        ),
        !outcomes.contains(SendOutcome::Success) && !outcomes.contains(SendOutcome::Failure)
            ==> cycle_end(s, outcomes, now) == (
            s.backoff_ms,
            s.failing_since_ms,
            DestinationStep::Continue,
        ),
        !outcomes.contains(SendOutcome::Success) && outcomes.contains(SendOutcome::Failure) ==> ({
            let e = cycle_end(s, outcomes, now);
            &&& e.1 == Some(
                if s.failing_since_ms is Some {
                    s.failing_since_ms->0
                } else {
                    now
                },
            )
            &&& e.2 == DestinationStep::Dead <==> s.failing_since_ms is Some && now
                - s.failing_since_ms->0 > 86_400_000
            &&& e.2 != DestinationStep::Dead ==> e.2 == DestinationStep::Retry(s.backoff_ms)
                && e.0 <= 300_000 && e.0 <= 2 * s.backoff_ms && (e.0 == 300_000 || e.0 == 2
                * s.backoff_ms)
        }),
{
}

} // verus!
