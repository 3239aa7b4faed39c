//! Filling gaps: which missing events to fetch from whom, in what order they
//! are taken in, and when to stop.

use vstd::prelude::*;
use vstd::string::*;

use crate::json::collect_strings;
use crate::json::members;
use crate::json::put;
use crate::json::strings_in;
use crate::json::values;
use crate::json::Json;
use crate::json::JsonView;
use crate::json::NumberView;
use crate::pdu::Pdu;
use crate::receive::MAX_MISSING_FETCH_PER_PDU;
use crate::text::cat;
use crate::text::cat4;
use crate::text::clone_list;
use crate::text::lemma_has_push;
use crate::text::lemma_texts_push;
use crate::text::list_has;
use crate::text::str_eq;
use crate::text::texts;

verus! {

/// How many more events may be fetched on behalf of one received event.
pub struct FetchBudget {
    pub remaining: usize,
}

/// A full budget.
pub fn new_fetch_budget() -> (r: FetchBudget)
    ensures
        r.remaining == MAX_MISSING_FETCH_PER_PDU,
{
    FetchBudget { remaining: MAX_MISSING_FETCH_PER_PDU }
}

/// Whether nothing is left of a budget.
pub fn budget_exhausted(budget: &FetchBudget) -> (r: bool)
    ensures
        r == (budget.remaining == 0),
{
    budget.remaining == 0
}

/// Takes one event from a budget; `false` when nothing is left.
pub fn consume_budget(budget: &mut FetchBudget) -> (r: bool)
    ensures
        r == (old(budget).remaining > 0),
        final(budget).remaining == (if r {
            old(budget).remaining - 1
        } else {
            0
        }),
{
    if budget.remaining == 0 {
        return false;
    }
    budget.remaining = budget.remaining - 1;
    true
}

/// The depth by which an event is ordered.
pub open spec fn depth_of(event: JsonView, default: u64) -> u64 {
    match event.u64_at("depth"@) {
        Some(d) => d,
        None => default,
    }
}

/// The depth by which an event is ordered.
pub fn event_depth(event: &Json, default: u64) -> (r: u64)
    ensures
        r == depth_of(event@, default),
{
    match event.u64_at("depth") {
        Some(d) => d,
        None => default,
    }
}

/// Where an event of some depth goes in a sorted list: behind all events that
/// are no deeper.
pub open spec fn place(s: Seq<JsonView>, depth: u64, default: u64) -> int
    decreases s.len(),
{
    if s.len() > 0 && depth_of(s.last(), default) > depth {
        place(s.drop_last(), depth, default)
    } else {
        s.len() as int
    }
}

/// A list of events by depth, shallow ones first; events of one depth keep
/// their order.
pub open spec fn by_depth(s: Seq<JsonView>, default: u64) -> Seq<JsonView>
    decreases s.len(),
{
    if s.len() == 0 {
        seq![]
    } else {
        let head = by_depth(s.drop_last(), default);
        head.insert(place(head, depth_of(s.last(), default), default), s.last())
    }
}

pub open spec fn depth_sorted(s: Seq<JsonView>, default: u64) -> bool {
    forall|i: int, j: int|
        0 <= i < j < s.len() ==> depth_of(#[trigger] s[i], default) <= depth_of(
            #[trigger] s[j],
            default,
        )
}

proof fn lemma_place(s: Seq<JsonView>, depth: u64, default: u64)
    ensures
        0 <= place(s, depth, default) <= s.len(),
        place(s, depth, default) > 0 ==> depth_of(s[place(s, depth, default) - 1], default)
            <= depth,
        forall|i: int|
            place(s, depth, default) <= i < s.len() ==> depth_of(#[trigger] s[i], default) > depth,
    decreases s.len(),
{
    if s.len() > 0 && depth_of(s.last(), default) > depth {
        lemma_place(s.drop_last(), depth, default);
        let p = place(s.drop_last(), depth, default);
        assert forall|i: int| p <= i < s.len() implies depth_of(#[trigger] s[i], default) > depth by {
            if i < s.len() - 1 {
                assert(s.drop_last()[i] == s[i]);
            }
        }
        if p > 0 {
            assert(s.drop_last()[p - 1] == s[p - 1]);
        }
    }
}

/// Ordering by depth keeps every event and brings them in order.
pub proof fn law_by_depth(s: Seq<JsonView>, default: u64)
    ensures
        depth_sorted(by_depth(s, default), default),
        by_depth(s, default).to_multiset() == s.to_multiset(),
        by_depth(s, default).len() == s.len(),
    decreases s.len(),
{
    broadcast use vstd::seq_lib::group_to_multiset_ensures;

    if s.len() > 0 {
        let head = by_depth(s.drop_last(), default);
        let x = s.last();
        let d = depth_of(x, default);
        law_by_depth(s.drop_last(), default);
        lemma_place(head, d, default);
        let p = place(head, d, default);
        let r = head.insert(p, x);
        assert forall|i: int, j: int| 0 <= i < j < r.len() implies depth_of(#[trigger] r[i], default)
            <= depth_of(#[trigger] r[j], default) by {
            if i < p {
                assert(r[i] == head[i]);
                if i < p - 1 {
                    assert(depth_of(head[i], default) <= depth_of(head[p - 1], default));
                }
            }
            if j > p {
                assert(r[j] == head[j - 1]);
            }
            if i > p {
                assert(r[i] == head[i - 1]);
            }
            if j < p {
                assert(r[j] == head[j]);
            }
        }
        assert(s =~= s.drop_last().push(x));
    } else {
        assert(s =~= seq![]);
    }
}

/// A copy of a list of events, ordered by depth.
pub fn sort_by_depth(events: &Vec<Json>, default: u64) -> (r: Vec<Json>)
    ensures
        values(r@) == by_depth(values(events@), default),
{
    let ghost s = values(events@);
    let mut out: Vec<Json> = Vec::new();
    let mut i: usize = 0;
    proof {
        assert(values(out@) =~= seq![]);
        assert(s.take(0) =~= seq![]);
    }
    while i < events.len()
        invariant
            i <= events.len(),
            s == values(events@),
            values(out@) == by_depth(s.take(i as int), default),
        decreases events.len() - i,
    {
        let x = events[i].copy();
        let d: u64 = event_depth(&x, default);
        let mut p: usize = out.len();
        let ghost head = values(out@);
        proof {
            assert(head.take(p as int) =~= head);
            lemma_place(head, d, default);
        }
        while p > 0 && event_depth(&out[p - 1], default) > d
            invariant
                p <= out.len(),
                head == values(out@),
                place(head, d, default) == place(head.take(p as int), d, default),
            decreases p,
        {
            proof {
                assert(head.take(p as int).drop_last() =~= head.take(p - 1));
                assert(head.take(p as int).last() == head[p - 1]);
            }
            p -= 1;
        }
        proof {
            if p > 0 {
                assert(head.take(p as int).last() == head[p - 1]);
            }
            assert(place(head, d, default) == p);
            assert(values(out@.insert(p as int, x)) =~= head.insert(p as int, x@));
            assert(s.take(i + 1).drop_last() =~= s.take(i as int));
            assert(s.take(i + 1).last() == x@);
        }
        out.insert(p, x);
        i += 1;
    }
    proof {
        assert(s.take(i as int) =~= s);
    }
    out
}

/// The servers to ask for an auth chain: the one that sent the event, then, in
/// a room whose state is still being fetched, the others known to be in it.
pub open spec fn chain_servers(origin: Seq<char>, hints: Option<Seq<Seq<char>>>) -> Seq<
    Seq<char>,
> {
    match hints {
        None => seq![origin],
        Some(h) => seq![origin] + others(h, origin),
    }
}

/// The servers of a list apart from one.
pub open spec fn others(h: Seq<Seq<char>>, origin: Seq<char>) -> Seq<Seq<char>>
    decreases h.len(),
{
    if h.len() == 0 {
        seq![]
    } else if h.last() == origin {
        others(h.drop_last(), origin)
    } else {
        others(h.drop_last(), origin).push(h.last())
    }
}

fn servers_to_ask(origin: &str, hints: Option<&Vec<String>>) -> (r: Vec<String>)
    ensures
        texts(r@) == chain_servers(
            origin@,
            match hints {
                Some(h) => Some(texts(h@)),
                None => None,
            },
        ),
{
    let mut out: Vec<String> = Vec::new();
    let first = origin.to_owned();
    proof {
        lemma_texts_push(out@, first);
    }
    out.push(first);
    proof {
        assert(texts(out@) =~= seq![origin@]);
    }
    match hints {
        None => {},
        Some(h) => {
            let ghost t = texts(h@);
            let mut i: usize = 0;
            proof {
                assert(t.take(0) =~= seq![]);
                assert(seq![origin@] + others(t.take(0), origin@) =~= seq![origin@]);
            }
            while i < h.len()
                invariant
                    i <= h.len(),
                    t == texts(h@),
                    texts(out@) == seq![origin@] + others(t.take(i as int), origin@),
                decreases h.len() - i,
            {
                proof {
                    assert(t.take(i + 1).drop_last() =~= t.take(i as int));
                    assert(t.take(i + 1).last() == h@[i as int]@);
                }
                if !str_eq(h[i].as_str(), origin) {
                    let s = h[i].clone();
                    let ghost before = texts(out@);
                    proof {
                        lemma_texts_push(out@, s);
                    }
                    out.push(s);
                    proof {
                        assert(texts(out@) =~= seq![origin@] + others(t.take(i + 1), origin@));
                    }
                }
                i += 1;
            }
            proof {
                assert(t.take(i as int) =~= t);
            }
        },
    }
    out
}

/// What is known so far about the fetching of an auth chain.
pub struct AuthChainFetch {
    pub origin: String,
    pub room_id: String,
    pub target_event_id: String,
    /// Whether the budget was used up at the start.
    pub exhausted: bool,
    /// The servers known to be in the room, while its state is being fetched.
    pub hints: Option<Vec<String>>,
    /// The replies of the servers asked so far: a document, or what failed.
    pub replies: Vec<Result<Json, String>>,
}

/// What is next in fetching events.
pub enum FetchStep {
    /// Send a request to a server; the body is there for requests that have one.
    Ask { server: String, path: String, body: Option<Json> },
    /// Take these events in, in this order.
    Ingest { events: Vec<Json> },
    /// Give up.
    Failed { reason: String },
}

pub enum FetchView {
    Ask { server: Seq<char>, path: Seq<char>, body: Option<JsonView> },
    Ingest { events: Seq<JsonView> },
    Failed { reason: Seq<char> },
}

impl FetchStep {
    pub open spec fn view(&self) -> FetchView {
        match self {
            FetchStep::Ask { server, path, body } => FetchView::Ask {
                server: server@,
                path: path@,
                body: match body {
                    Some(b) => Some(b@),
                    None => None,
                },
            },
            FetchStep::Ingest { events } => FetchView::Ingest { events: values(events@) },
            FetchStep::Failed { reason } => FetchView::Failed { reason: reason@ },
        }
    }
}

/// The index of the first reply that is a document, the number of replies when
/// there is none.
pub open spec fn first_ok(replies: Seq<Result<Json, String>>, from: int) -> int
    decreases replies.len() - from,
{
    if from >= replies.len() {
        replies.len() as int
    } else if replies[from] is Ok {
        from
    } else {
        first_ok(replies, from + 1)
    }
}

/// How the events that a document lists under a key are taken in: by depth.
pub open spec fn ingest_list(reply: JsonView, key: Seq<char>, missing: Seq<char>) -> FetchView {
    match reply.array_at(key) {
        Some(v) => FetchView::Ingest { events: by_depth(v, 0) },
        None => FetchView::Failed { reason: missing },
    }
}

/// How an auth chain is fetched: the servers are asked one after the other
/// until one answers.
pub open spec fn auth_chain_fetch(f: AuthChainFetch) -> FetchView {
    let servers = chain_servers(
        f.origin@,
        match f.hints {
            Some(h) => Some(texts(h@)),
            None => None,
        },
    );
    let k = first_ok(f.replies@, 0);
    if f.exhausted {
        FetchView::Failed { reason: "fetch budget exhausted"@ }
    } else if k < f.replies@.len() {
        ingest_list(f.replies@[k]->Ok_0@, "auth_chain"@, "response missing auth_chain"@)
    } else if f.replies@.len() < servers.len() {
        FetchView::Ask {
            server: servers[f.replies@.len() as int],
            path: "/_matrix/federation/v1/event_auth/"@ + f.room_id@ + "/"@ + f.target_event_id@,
            body: None,
        }
    } else {
        let last = servers.len() - 1;
        FetchView::Failed {
            reason: "/event_auth call failed: "@ + ("/event_auth via "@ + servers[last] + ": "@
                + f.replies@[last]->Err_0@),
        }
    }
}

fn ingest(reply: &Json, key: &str, missing: &str) -> (r: FetchStep)
    ensures
        r@ == ingest_list(reply@, key@, missing@),
{
    match reply.array_at(key) {
        Some(v) => FetchStep::Ingest { events: sort_by_depth(v, 0) },
        None => FetchStep::Failed { reason: missing.to_owned() },
    }
}

/// Names what is next in fetching an event's auth chain.
pub fn fetch_auth_chain(f: &AuthChainFetch) -> (r: FetchStep)
    ensures
        r@ == auth_chain_fetch(*f),
{
    if f.exhausted {
        return FetchStep::Failed { reason: "fetch budget exhausted".to_owned() };
    }
    let servers = servers_to_ask(f.origin.as_str(), f.hints.as_ref());
    proof {
        assert(texts(servers@).len() == servers@.len());
    }
    let mut i: usize = 0;
    while i < f.replies.len()
        invariant
            i <= f.replies.len(),
            !f.exhausted,
            first_ok(f.replies@, 0) == first_ok(f.replies@, i as int),
            forall|j: int| 0 <= j < i ==> #[trigger] f.replies@[j] is Err,
        decreases f.replies.len() - i,
    {
        match &f.replies[i] {
            Ok(reply) => {
                return ingest(reply, "auth_chain", "response missing auth_chain");
            },
            Err(_) => {},
        }
        i += 1;
    }
    let n: usize = f.replies.len();
    if n < servers.len() {
        proof {
            assert(texts(servers@)[n as int] == servers@[n as int]@);
        }
        FetchStep::Ask {
            server: servers[n].clone(),
            path: cat4(
                "/_matrix/federation/v1/event_auth/",
                f.room_id.as_str(),
                "/",
                f.target_event_id.as_str(),
            ),
            body: None,
        }
    } else {
        let last: usize = servers.len() - 1;
        proof {
            assert(texts(servers@)[last as int] == servers@[last as int]@);
        }
        let detail = match &f.replies[last] {
            Err(e) => cat4("/event_auth via ", servers[last].as_str(), ": ", e.as_str()),
            Ok(_) => String::new(),
        };
        FetchStep::Failed { reason: cat("/event_auth call failed: ", detail.as_str()) }
    }
}

/// The most events that one request for missing events asks for.
pub const MISSING_EVENTS_LIMIT: u64 = 50;

/// The body of a request for the events between two ends.
pub open spec fn missing_events_body(earliest: Seq<Seq<char>>, latest: Seq<char>) -> JsonView {
    JsonView::Object(
        seq![
            (
                "earliest_events"@,
                JsonView::Array(earliest.map_values(|s: Seq<char>| JsonView::Str(s))),
            ),
            ("latest_events"@, JsonView::Array(seq![JsonView::Str(latest)])),
            ("limit"@, JsonView::Number(NumberView::Unsigned(MISSING_EVENTS_LIMIT))),
        ],
    )
}

/// What is known so far about the fetching of missing events.
pub struct MissingEventsFetch {
    pub origin: String,
    pub room_id: String,
    pub latest_event_id: String,
    pub earliest_event_ids: Vec<String>,
    /// Whether the budget was used up at the start.
    pub exhausted: bool,
    /// The reply: a document, or what failed.
    pub reply: Option<Result<Json, String>>,
}

/// How missing events are fetched: with one request to the sending server.
pub open spec fn missing_events_fetch(f: MissingEventsFetch) -> FetchView {
    if f.exhausted {
        FetchView::Failed { reason: "fetch budget exhausted"@ }
    } else {
        match f.reply {
            None => FetchView::Ask {
                server: f.origin@,
                path: "/_matrix/federation/v1/get_missing_events/"@ + f.room_id@,
                body: Some(missing_events_body(texts(f.earliest_event_ids@), f.latest_event_id@)),
            },
            Some(Err(e)) => FetchView::Failed {
                reason: "/get_missing_events call failed: "@ + e@,
            },
            Some(Ok(reply)) => ingest_list(reply@, "events"@, "response missing events"@),
        }
    }
}

/// Names what is next in fetching the events missing before an event.
pub fn fetch_missing_events(f: &MissingEventsFetch) -> (r: FetchStep)
    ensures
        r@ == missing_events_fetch(*f),
{
    if f.exhausted {
        return FetchStep::Failed { reason: "fetch budget exhausted".to_owned() };
    }
    match &f.reply {
        None => {
            let mut latest: Vec<Json> = Vec::new();
            latest.push(Json::text(f.latest_event_id.as_str()));
            proof {
                assert(values(latest@) =~= seq![JsonView::Str(f.latest_event_id@)]);
            }
            let mut m: Vec<(String, Json)> = Vec::new();
            proof {
                assert(members(m@) =~= seq![]);
            }
            put(&mut m, "earliest_events", Json::text_array(&f.earliest_event_ids));
            put(&mut m, "latest_events", Json::array(latest));
            put(&mut m, "limit", Json::number(MISSING_EVENTS_LIMIT));
            proof {
                assert(members(m@) =~= missing_events_body(
                    texts(f.earliest_event_ids@),
                    f.latest_event_id@,
                )->Object_0);
            }
            FetchStep::Ask {
                server: f.origin.clone(),
                path: cat("/_matrix/federation/v1/get_missing_events/", f.room_id.as_str()),
                body: Some(Json::object(m)),
            }
        },
        Some(Err(e)) => FetchStep::Failed {
            reason: cat("/get_missing_events call failed: ", e.as_str()),
        },
        Some(Ok(reply)) => ingest(reply, "events", "response missing events"),
    }
}

/// Events that are taken in one after the other, while the budget lasts.
pub struct Ingest {
    pub events: Vec<Json>,
    pub next: usize,
}

impl Ingest {
    /// The next event to take in, paid for from the budget; `None` at the end
    /// or when the budget is used up.
    pub fn advance(&mut self, budget: &mut FetchBudget) -> (r: Option<Json>)
        ensures
            final(self).events@ == old(self).events@,
            old(self).next < old(self).events@.len() && old(budget).remaining > 0 ==> {
                &&& r matches Some(e) && e@ == old(self).events@[old(self).next as int]@
                &&& final(self).next == old(self).next + 1
                &&& final(budget).remaining == old(budget).remaining - 1
            },
            !(old(self).next < old(self).events@.len() && old(budget).remaining > 0) ==> {
                &&& r is None
                &&& final(self).next == old(self).next
                &&& final(budget).remaining == old(budget).remaining
            },
    {
        if self.next >= self.events.len() {
            return None;
        }
        if !consume_budget(budget) {
            return None;
        }
        let e = self.events[self.next].copy();
        self.next = self.next + 1;
        Some(e)
    }
}

/// The events that a reply with state ids names: its auth chain, then its state.
pub open spec fn state_reply_ids(reply: JsonView) -> Seq<Seq<char>> {
    list_strings(reply, "auth_chain_ids"@) + list_strings(reply, "pdu_ids"@)
}

/// The strings of the list under a key.
pub open spec fn list_strings(reply: JsonView, key: Seq<char>) -> Seq<Seq<char>> {
    match reply.array_at(key) {
        Some(v) => strings_in(v),
        None => seq![],
    }
}

/// The strings of the list under a key.
pub fn strings_under(reply: &Json, key: &str) -> (r: Vec<String>)
    ensures
        texts(r@) == list_strings(reply@, key@),
{
    match reply.array_at(key) {
        Some(v) => collect_strings(v),
        None => {
            let out: Vec<String> = Vec::new();
            proof {
                assert(texts(out@) =~= seq![]);
            }
            out
        },
    }
}

/// The events to fetch one by one after a request for state ids, or what failed.
pub fn fetch_auth_via_state_ids(reply: &Result<Json, String>) -> (r: Result<Vec<String>, String>)
    ensures
        match *reply {
            Ok(v) => r matches Ok(ids) && texts(ids@) == state_reply_ids(v@),
            Err(e) => r matches Err(m) && m@ == "/state_ids: "@ + e@,
        },
{
    match reply {
        Err(e) => Err(cat("/state_ids: ", e.as_str())),
        Ok(v) => {
            let mut ids = strings_under(v, "auth_chain_ids");
            let mut rest = strings_under(v, "pdu_ids");
            let ghost a = ids@;
            let ghost b = rest@;
            ids.append(&mut rest);
            proof {
                assert(texts(a + b) =~= texts(a) + texts(b));
            }
            Ok(ids)
        },
    }
}

/// Event ids that are gone through one after the other, while the budget lasts.
pub struct IdWalk {
    pub ids: Vec<String>,
    pub next: usize,
}

/// Whether a lookup answers for a set of stored events.
pub open spec fn tells_stored<F: Fn(&str) -> bool>(
    stored: F,
    set: spec_fn(Seq<char>) -> bool,
) -> bool {
    forall|s: &str, b: bool| #[trigger] stored.ensures((s,), b) ==> b == set(s@)
}

/// The index of the first id at or after `from` that is not stored.
pub open spec fn first_unstored(
    ids: Seq<Seq<char>>,
    set: spec_fn(Seq<char>) -> bool,
    from: int,
) -> int
    decreases ids.len() - from,
{
    if from >= ids.len() {
        ids.len() as int
    } else if !set(ids[from]) {
        from
    } else {
        first_unstored(ids, set, from + 1)
    }
}

impl IdWalk {
    /// The next event to fetch. Every id that is gone through is paid for from
    /// the budget; events that are stored already are passed over. `None` at
    /// the end or when the budget is used up.
    pub fn advance<F: Fn(&str) -> bool>(&mut self, budget: &mut FetchBudget, stored: F) -> (r:
        Option<String>)
        requires
            forall|s: &str| #[trigger] stored.requires((s,)),
            old(self).next <= old(self).ids@.len(),
        ensures
            final(self).ids@ == old(self).ids@,
            final(self).next <= final(self).ids@.len(),
            forall|set: spec_fn(Seq<char>) -> bool| #[trigger]
                tells_stored(stored, set) ==> {
                    let ids = texts(old(self).ids@);
                    let k = first_unstored(ids, set, old(self).next as int);
                    let passed = k - old(self).next;
                    if k < ids.len() && old(budget).remaining > passed {
                        &&& opt_is(r, ids[k])
                        &&& final(self).next == k + 1
                        &&& final(budget).remaining == old(budget).remaining - passed - 1
                    } else {
                        &&& r is None
                        &&& final(self).next == old(self).next + (if old(budget).remaining
                            > passed {
                            passed
                        } else {
                            old(budget).remaining as int
                        })
                        &&& final(budget).remaining == (if old(budget).remaining > passed {
                            old(budget).remaining - passed
                        } else {
                            0
                        })
                    }
                },
    {
        let ghost ids = texts(self.ids@);
        let ghost from = self.next as int;
        while self.next < self.ids.len()
            invariant
                forall|s: &str| #[trigger] stored.requires((s,)),
                ids == texts(self.ids@),
                self.ids@ == old(self).ids@,
                from == old(self).next,
                from <= self.next <= self.ids@.len(),
                budget.remaining == old(budget).remaining - (self.next - from),
                forall|set: spec_fn(Seq<char>) -> bool| #[trigger]
                    tells_stored(stored, set) ==> first_unstored(ids, set, from)
                        == first_unstored(ids, set, self.next as int),
            decreases self.ids.len() - self.next,
        {
            proof {
                assert forall|set: spec_fn(Seq<char>) -> bool| #[trigger]
                    tells_stored(stored, set) implies first_unstored(ids, set, self.next as int)
                    >= self.next by {
                    lemma_first_unstored(ids, set, self.next as int);
                }
            }
            if !consume_budget(budget) {
                return None;
            }
            let known = stored(self.ids[self.next].as_str());
            proof {
                assert(ids[self.next as int] == self.ids@[self.next as int]@);
            }
            if !known {
                let id = self.ids[self.next].clone();
                self.next = self.next + 1;
                return Some(id);
            }
            self.next = self.next + 1;
        }
        None
    }
}

proof fn lemma_first_unstored(ids: Seq<Seq<char>>, set: spec_fn(Seq<char>) -> bool, from: int)
    requires
        0 <= from <= ids.len(),
    ensures
        from <= first_unstored(ids, set, from) <= ids.len(),
    decreases ids.len() - from,
{
    if from < ids.len() && set(ids[from]) {
        lemma_first_unstored(ids, set, from + 1);
    }
}

pub open spec fn opt_is(o: Option<String>, s: Seq<char>) -> bool {
    match o {
        Some(x) => x@ == s,
        None => false,
    }
}

/// The events among some lookups that were found, in order.
pub open spec fn found_ids(v: Seq<Option<String>>) -> Seq<Seq<char>>
    decreases v.len(),
{
    if v.len() == 0 {
        seq![]
    } else {
        match v.last() {
            Some(s) => found_ids(v.drop_last()).push(s@),
            None => found_ids(v.drop_last()),
        }
    }
}

/// The ids of a room's forward extremities, from what was found under their
/// numbers.
pub fn get_room_extremity_ids(lookups: &Vec<Option<String>>) -> (r: Vec<String>)
    ensures
        texts(r@) == found_ids(lookups@),
{
    let mut out: Vec<String> = Vec::new();
    let mut i: usize = 0;
    proof {
        assert(texts(out@) =~= seq![]);
    }
    while i < lookups.len()
        invariant
            i <= lookups.len(),
            texts(out@) == found_ids(lookups@.take(i as int)),
        decreases lookups.len() - i,
    {
        proof {
            assert(lookups@.take(i + 1).drop_last() =~= lookups@.take(i as int));
            assert(lookups@.take(i + 1).last() == lookups@[i as int]);
        }
        match &lookups[i] {
            Some(s) => {
                let id = s.clone();
                proof {
                    lemma_texts_push(out@, id);
                }
                out.push(id);
            },
            None => {},
        }
        i += 1;
    }
    proof {
        assert(lookups@.take(i as int) =~= lookups@);
    }
    out
}

/// The most events that are looked at for the boundary of what is stored.
pub const BOUNDARY_HOPS: usize = 32;

/// The predecessors of the stored events; `None` for an event that is not
/// stored.
pub type PrevGraph = spec_fn(Seq<char>) -> Option<Seq<Seq<char>>>;

/// Whether a lookup answers from a graph of predecessors.
pub open spec fn loads_from<F: Fn(&str) -> Option<Vec<String>>>(load: F, g: PrevGraph) -> bool {
    forall|s: &str, a: Option<Vec<String>>| #[trigger]
        load.ensures((s,), a) ==> g(s@) == (match a {
            Some(v) => Some(texts(v@)),
            None => None,
        })
}

/// The events of a list that were not visited.
pub open spec fn unvisited(v: Seq<Seq<char>>, visited: Seq<Seq<char>>) -> Seq<Seq<char>>
    decreases v.len(),
{
    if v.len() == 0 {
        seq![]
    } else if visited.contains(v.last()) {
        unvisited(v.drop_last(), visited)
    } else {
        unvisited(v.drop_last(), visited).push(v.last())
    }
}

/// The first event of a list that was not visited.
pub open spec fn first_unvisited(v: Seq<Seq<char>>, visited: Seq<Seq<char>>) -> Option<Seq<char>>
    decreases v.len(),
{
    if v.len() == 0 {
        None
    } else if !visited.contains(v[0]) {
        Some(v[0])
    } else {
        first_unvisited(v.drop_first(), visited)
    }
}

/// The walk back through stored predecessors, breadth first, with `hops` looks
/// left: the first event that is not stored; at the end of the looks an event
/// that was not looked at; failing both, the last stored event.
pub open spec fn boundary(
    g: PrevGraph,
    frontier: Seq<Seq<char>>,
    visited: Seq<Seq<char>>,
    last_known: Seq<char>,
    hops: nat,
) -> Seq<char>
    decreases hops,
{
    if hops == 0 {
        match first_unvisited(frontier, visited) {
            Some(c) => c,
            None => last_known,
        }
    } else if frontier.len() == 0 {
        last_known
    } else {
        let c = frontier[0];
        let rest = frontier.drop_first();
        if visited.contains(c) {
            boundary(g, rest, visited, last_known, (hops - 1) as nat)
        } else {
            match g(c) {
                None => c,
                Some(prevs) => {
                    let seen = visited.push(c);
                    boundary(g, rest + unvisited(prevs, seen), seen, c, (hops - 1) as nat)
                },
            }
        }
    }
}

/// The event at which to ask a peer for state: the nearest predecessor of an
/// event that is not stored.
pub fn find_state_ids_boundary<F: Fn(&str) -> Option<Vec<String>>>(start: &Pdu, load: F) -> (r:
    String)
    requires
        forall|s: &str| #[trigger] load.requires((s,)),
    ensures
        forall|g: PrevGraph| #[trigger]
            loads_from(load, g) ==> r@ == boundary(
                g,
                start@.prev_events,
                seq![start@.event_id],
                start@.event_id,
                BOUNDARY_HOPS as nat,
            ),
{
    let mut visited: Vec<String> = Vec::new();
    let mut frontier: Vec<String> = clone_list(&start.prev_events);
    let mut head: usize = 0;
    let mut last_known = start.event_id.clone();
    let first = start.event_id.clone();
    proof {
        lemma_texts_push(visited@, first);
    }
    visited.push(first);
    let mut hops: usize = 0;
    let ghost p0 = start@.prev_events;
    let ghost v0 = seq![start@.event_id];
    let ghost e0 = start@.event_id;
    proof {
        assert(texts(visited@) =~= v0);
        assert(texts(frontier@).skip(0) =~= p0);
    }
    while hops < BOUNDARY_HOPS
        invariant
            forall|s: &str| #[trigger] load.requires((s,)),
            hops <= BOUNDARY_HOPS,
            head <= frontier.len(),
            p0 == start@.prev_events,
            v0 == seq![start@.event_id],
            e0 == start@.event_id,
            forall|g: PrevGraph| #[trigger]
                loads_from(load, g) ==> boundary(g, p0, v0, e0, BOUNDARY_HOPS as nat) == boundary(
                    g,
                    texts(frontier@).skip(head as int),
                    texts(visited@),
                    last_known@,
                    (BOUNDARY_HOPS - hops) as nat,
                ),
        decreases BOUNDARY_HOPS - hops,
    {
        let ghost rest0 = texts(frontier@).skip(head as int);
        if head >= frontier.len() {
            return last_known;
        }
        let current = frontier[head].clone();
        head += 1;
        hops += 1;
        let ghost rest = texts(frontier@).skip(head as int);
        proof {
            assert(rest0[0] == current@);
            assert(rest0.drop_first() =~= rest);
        }
        if !list_has(&visited, current.as_str()) {
            let ghost seen = texts(visited@).push(current@);
            let c = current.clone();
            proof {
                lemma_texts_push(visited@, c);
            }
            visited.push(c);
            let answer = load(current.as_str());
            match answer {
                None => {
                    return current;
                },
                Some(prevs) => {
                    last_known = current;
                    let ghost t = texts(prevs@);
                    let ghost base = texts(frontier@);
                    let mut j: usize = 0;
                    proof {
                        assert(t.take(0) =~= seq![]);
                        assert(base + unvisited(t.take(0), seen) =~= base);
                    }
                    while j < prevs.len()
                        invariant
                            j <= prevs.len(),
                            t == texts(prevs@),
                            seen == texts(visited@),
                            head <= frontier.len(),
                            texts(frontier@) == base + unvisited(t.take(j as int), seen),
                        decreases prevs.len() - j,
                    {
                        proof {
                            assert(t.take(j + 1).drop_last() =~= t.take(j as int));
                            assert(t.take(j + 1).last() == prevs@[j as int]@);
                        }
                        if !list_has(&visited, prevs[j].as_str()) {
                            let p = prevs[j].clone();
                            proof {
                                lemma_texts_push(frontier@, p);
                            }
                            frontier.push(p);
                            proof {
                                assert(texts(frontier@) =~= base + unvisited(t.take(j + 1), seen));
                            }
                        }
                        j += 1;
                    }
                    proof {
                        assert(t.take(j as int) =~= t);
                        assert(texts(frontier@).skip(head as int) =~= rest + unvisited(t, seen));
                    }
                },
            }
        }
    }
    while head < frontier.len()
        invariant
            head <= frontier.len(),
            p0 == start@.prev_events,
            v0 == seq![start@.event_id],
            e0 == start@.event_id,
            forall|g: PrevGraph| #[trigger]
                loads_from(load, g) ==> boundary(g, p0, v0, e0, BOUNDARY_HOPS as nat) == boundary(
                    g,
                    texts(frontier@).skip(head as int),
                    texts(visited@),
                    last_known@,
                    0,
                ),
        decreases frontier.len() - head,
    {
        let ghost rest0 = texts(frontier@).skip(head as int);
        proof {
            assert(rest0[0] == frontier@[head as int]@);
            assert(rest0.drop_first() =~= texts(frontier@).skip(head + 1));
        }
        if !list_has(&visited, frontier[head].as_str()) {
            return frontier[head].clone();
        }
        head += 1;
    }
    last_known
}

/// What was not visited of a list is all of it but for the events that were, in
/// the same order.
pub proof fn law_unvisited(v: Seq<Seq<char>>, visited: Seq<Seq<char>>)
    ensures
        unvisited(v, visited) == v.filter(|x: Seq<char>| !visited.contains(x)),
        forall|x: Seq<char>| #[trigger]
            unvisited(v, visited).contains(x) <==> v.contains(x) && !visited.contains(x),
    decreases v.len(),
{
    if v.len() > 0 {
        let front = v.drop_last();
        law_unvisited(front, visited);
        reveal(Seq::filter);
        assert(v =~= front.push(v.last()));
        assert forall|x: Seq<char>| #[trigger] unvisited(v, visited).contains(x) <==> v.contains(x)
            && !visited.contains(x) by {
            lemma_has_push(front, v.last(), x);
            lemma_has_push(unvisited(front, visited), v.last(), x);
            assert(unvisited(front, visited).contains(x) <==> front.contains(x)
                && !visited.contains(x));
        }
    } else {
        reveal(Seq::filter);
    }
}

/// Events of one depth keep the order in which they came.
pub proof fn law_by_depth_is_stable(s: Seq<JsonView>, default: u64, depth: u64)
    ensures
        by_depth(s, default).filter(|e: JsonView| depth_of(e, default) == depth) == s.filter(
            |e: JsonView| depth_of(e, default) == depth,
        ),
    decreases s.len(),
{
    let p = |e: JsonView| depth_of(e, default) == depth;
    if s.len() > 0 {
        let front = s.drop_last();
        let x = s.last();
        let d = depth_of(x, default);
        let head = by_depth(front, default);
        law_by_depth_is_stable(front, default, depth);
        lemma_place(head, d, default);
        let k = place(head, d, default);
        let a = head.take(k);
        let b = head.skip(k);
        assert(head =~= a + b);
        assert(by_depth(s, default) =~= (a + seq![x]) + b);
        assert(s =~= front + seq![x]);
        Seq::filter_distributes_over_add(a, b, p);
        Seq::filter_distributes_over_add(a + seq![x], b, p);
        Seq::filter_distributes_over_add(a, seq![x], p);
        Seq::filter_distributes_over_add(front, seq![x], p);
        assert(seq![x].filter(p) == (if p(x) {
            seq![x]
        } else {
            seq![]
        })) by {
            reveal(Seq::filter);
            assert(seq![x].drop_last() =~= seq![]);
            assert(Seq::<JsonView>::empty().filter(p) =~= seq![]);
            assert(seq![].push(x) =~= seq![x]);
        }
        if p(x) {
            assert(b.filter(p) =~= seq![]) by {
                if b.filter(p).len() > 0 {
                    let y = b.filter(p)[0];
                    b.lemma_filter_pred(p, 0);
                    assert(b.filter(p).contains(y));
                    b.lemma_filter_contains_rev(p, y);
                    let j = choose|j: int| 0 <= j < b.len() && b[j] == y;
                    assert(depth_of(head[k + j], default) > d);
                }
            }
            assert((a.filter(p) + seq![x]) + seq![] =~= (a.filter(p) + seq![]) + seq![x]);
        } else {
            assert((a.filter(p) + seq![]) + b.filter(p) =~= a.filter(p) + b.filter(p));
            assert(front.filter(p) + seq![] =~= front.filter(p));
        }
    }
}

/// The servers that are asked for an auth chain: the one that sent the event first,
/// then every other one that is known to be in the room, in order.
pub proof fn law_chain_servers(origin: Seq<char>, hints: Option<Seq<Seq<char>>>)
    ensures
        chain_servers(origin, hints)[0] == origin,
        chain_servers(origin, hints).skip(1) == (match hints {
            Some(h) => h.filter(|s: Seq<char>| s != origin),
            None => seq![],
        }),
        hints matches Some(h) ==> forall|s: Seq<char>| #[trigger]
            h.contains(s) ==> chain_servers(origin, hints).contains(s),
{
    let all = chain_servers(origin, hints);
    match hints {
        Some(h) => {
            lemma_others(h, origin);
            let rest = others(h, origin);
            assert(all.skip(1) =~= rest);
            assert forall|s: Seq<char>| #[trigger] h.contains(s) implies all.contains(s) by {
                if s == origin {
                    assert(all[0] == s);
                } else {
                    let p = |x: Seq<char>| x != origin;
                    let i = choose|i: int| 0 <= i < h.len() && h[i] == s;
                    h.lemma_filter_contains(p, i);
                    let k = choose|k: int| 0 <= k < rest.len() && rest[k] == s;
                    assert(all[k + 1] == s);
                }
            }
        },
        None => {
            assert(all.skip(1) =~= seq![]);
        },
    }
}

proof fn lemma_others(h: Seq<Seq<char>>, origin: Seq<char>)
    ensures
        others(h, origin) == h.filter(|s: Seq<char>| s != origin),
    decreases h.len(),
{
    reveal(Seq::filter);
    if h.len() > 0 {
        lemma_others(h.drop_last(), origin);
    }
}

proof fn lemma_first_ok_is_first(replies: Seq<Result<Json, String>>, from: int)
    requires
        0 <= from <= replies.len(),
    ensures
        from <= first_ok(replies, from) <= replies.len(),
        first_ok(replies, from) < replies.len() ==> replies[first_ok(replies, from)] is Ok,
        forall|i: int| from <= i < first_ok(replies, from) ==> (#[trigger] replies[i]) is Err,
    decreases replies.len() - from,
{
    if from < replies.len() && replies[from] is Err {
        lemma_first_ok_is_first(replies, from + 1);
    }
}

/// An auth chain is fetched from the first server that answers with a document: its
/// events are taken in, by depth. As long as none has, the next server is asked for
/// the chain of the very event, and it is given up only when all were.
pub proof fn law_auth_chain_fetch(f: AuthChainFetch)
    requires
        !f.exhausted,
    ensures
        ({
            let hints = match f.hints {
                Some(h) => Some(texts(h@)),
                None => None,
            };
            let servers = chain_servers(f.origin@, hints);
            let n = f.replies@.len() as int;
            let s = auth_chain_fetch(f);
            let answered = exists|i: int| 0 <= i < n && (#[trigger] f.replies@[i]) is Ok;
            &&& !answered && n < servers.len() ==> s == (FetchView::Ask {
                server: servers[n],
                path: "/_matrix/federation/v1/event_auth/"@ + f.room_id@ + "/"@
                    + f.target_event_id@,
                body: None,
            })
            &&& !answered && n >= servers.len() ==> s is Failed
            &&& s is Ask ==> !answered
            &&& forall|i: int|
                0 <= i < n && (#[trigger] f.replies@[i]) is Ok && (forall|j: int|
                    0 <= j < i ==> (#[trigger] f.replies@[j]) is Err) ==> match f.replies@[i]->Ok_0@.get(
                    "auth_chain"@,
                ) {
                    Some(JsonView::Array(v)) => s == (FetchView::Ingest { events: by_depth(v, 0) }),
                    _ => s is Failed,
                }
        }),
{
    let n = f.replies@.len() as int;
    let k = first_ok(f.replies@, 0);
    lemma_first_ok_is_first(f.replies@, 0);
    if k < n {
        assert(f.replies@[k] is Ok);
    }
    assert forall|i: int|
        0 <= i < n && (#[trigger] f.replies@[i]) is Ok && (forall|j: int|
            0 <= j < i ==> (#[trigger] f.replies@[j]) is Err) implies match f.replies@[i]->Ok_0@.get(
        "auth_chain"@,
    ) {
        Some(JsonView::Array(v)) => auth_chain_fetch(f) == (FetchView::Ingest {
            events: by_depth(v, 0),
        }),
        _ => auth_chain_fetch(f) is Failed,
    } by {
        if i < k {
            assert(f.replies@[i] is Err);
        } else if k < i {
            assert(f.replies@[k] is Err);
        }
    }
}

/// Missing events are asked for with one request to the server that sent the event:
/// everything between the event and the room's newest, fifty events at most. What
/// it lists is taken in, by depth.
pub proof fn law_missing_events_fetch(f: MissingEventsFetch)
    requires
        !f.exhausted,
    ensures
        match f.reply {
            None => missing_events_fetch(f) matches FetchView::Ask { server, path, body } && server
                == f.origin@ && path == "/_matrix/federation/v1/get_missing_events/"@ + f.room_id@
                && (body matches Some(b) && b.get("earliest_events"@) == Some(
                JsonView::Array(f.earliest_event_ids@.map_values(|s: String| JsonView::Str(s@))),
            ) && b.get("latest_events"@) == Some(
                JsonView::Array(seq![JsonView::Str(f.latest_event_id@)]),
            ) && b.get("limit"@) == Some(JsonView::Number(NumberView::Unsigned(50)))),
            Some(Ok(reply)) => match reply@.get("events"@) {
                Some(JsonView::Array(v)) => missing_events_fetch(f) == (FetchView::Ingest {
                    events: by_depth(v, 0),
                }),
                _ => missing_events_fetch(f) is Failed,
            },
            Some(Err(_)) => missing_events_fetch(f) is Failed,
        },
{
    reveal_with_fuel(crate::json::member, 4);
    reveal_strlit("earliest_events");
    reveal_strlit("latest_events");
    reveal_strlit("limit");
    assert("earliest_events"@.len() == 15 && "latest_events"@.len() == 13 && "limit"@.len() == 5);
    let e = texts(f.earliest_event_ids@);
    let m = missing_events_body(e, f.latest_event_id@)->Object_0;
    assert(m[0].0 == "earliest_events"@);
    assert(m.drop_first()[0] == m[1]);
    assert(m.drop_first().drop_first()[0] == m[2]);
    assert(e.map_values(|s: Seq<char>| JsonView::Str(s)) =~= f.earliest_event_ids@.map_values(
        |s: String| JsonView::Str(s@),
    ));
}

/// A used-up budget ends every fetch before it begins.
pub proof fn law_exhausted(f: AuthChainFetch, g: MissingEventsFetch)
    ensures
        f.exhausted ==> auth_chain_fetch(f) is Failed,
        g.exhausted ==> missing_events_fetch(g) is Failed,
{
}

/// The next event to fetch is the first from there on that is not stored.
pub proof fn law_first_unstored(
    ids: Seq<Seq<char>>,
    set: spec_fn(Seq<char>) -> bool,
    from: int,
)
    requires
        0 <= from <= ids.len(),
    ensures
        from <= first_unstored(ids, set, from) <= ids.len(),
        first_unstored(ids, set, from) < ids.len() ==> !set(ids[first_unstored(ids, set, from)]),
        forall|i: int| from <= i < first_unstored(ids, set, from) ==> set(#[trigger] ids[i]),
    decreases ids.len() - from,
{
    if from < ids.len() && set(ids[from]) {
        law_first_unstored(ids, set, from + 1);
    }
}

/// The ids of a room's extremities are all that were found, in order.
pub proof fn law_found_ids(v: Seq<Option<String>>)
    ensures
        found_ids(v) == v.filter_map(
            |o: Option<String>|
                match o {
                    Some(s) => Some(s@),
                    None => None,
                },
        ),
    decreases v.len(),
{
    if v.len() > 0 {
        law_found_ids(v.drop_last());
        let s = found_ids(v.drop_last());
        if let Some(x) = v.last() {
            assert(s.push(x@) =~= s + seq![x@]);
        }
    }
}

/// The events that a reply with state ids names are the strings of its two lists,
/// the auth chain first.
pub proof fn law_state_reply_ids(reply: JsonView)
    ensures
        state_reply_ids(reply) == list_strings(reply, "auth_chain_ids"@) + list_strings(
            reply,
            "pdu_ids"@,
        ),
        forall|key: Seq<char>| #[trigger]
            list_strings(reply, key) == (match reply.get(key) {
                Some(JsonView::Array(v)) => v.filter_map(
                    |x: JsonView|
                        match x {
                            JsonView::Str(s) => Some(s),
                            _ => None,
                        },
                ),
                _ => seq![],
            }),
{
    assert forall|key: Seq<char>| #[trigger] list_strings(reply, key) == (match reply.get(key) {
        Some(JsonView::Array(v)) => v.filter_map(
            |x: JsonView|
                match x {
                    JsonView::Str(s) => Some(s),
                    _ => None,
                },
        ),
        _ => seq![],
    }) by {
        if let Some(v) = reply.array_at(key) {
            crate::json::law_strings(v);
        }
    }
}

/// The boundary of what is stored lies as near as can be: the first immediate
/// predecessor that is not stored is it, before any event further back.
pub proof fn law_nearest_boundary(
    g: PrevGraph,
    frontier: Seq<Seq<char>>,
    visited: Seq<Seq<char>>,
    last_known: Seq<char>,
    hops: nat,
    k: int,
)
    requires
        0 <= k < frontier.len(),
        k < hops,
        g(frontier[k]) is None,
        !visited.contains(frontier[k]),
        forall|i: int| 0 <= i < k ==> g(#[trigger] frontier[i]) is Some,
    ensures
        boundary(g, frontier, visited, last_known, hops) == frontier[k],
    decreases k,
{
    if k > 0 {
        let c = frontier[0];
        let rest = frontier.drop_first();
        assert(g(frontier[0]) is Some);
        if visited.contains(c) {
            assert forall|i: int| 0 <= i < k - 1 implies g(#[trigger] rest[i]) is Some by {
                assert(rest[i] == frontier[i + 1]);
            }
            law_nearest_boundary(g, rest, visited, last_known, (hops - 1) as nat, k - 1);
        } else {
            let seen = visited.push(c);
            let next = rest + unvisited(g(c)->0, seen);
            assert forall|i: int| 0 <= i < k - 1 implies g(#[trigger] next[i]) is Some by {
                assert(next[i] == frontier[i + 1]);
            }
            assert(next[k - 1] == frontier[k]);
            lemma_has_push(visited, c, frontier[k]);
            law_nearest_boundary(g, next, seen, c, (hops - 1) as nat, k - 1);
        }
    }
}

/// The boundary is an event that the walk can come to: one that it started from or
/// was told, or a predecessor of a stored event.
pub proof fn law_boundary_is_reached(
    g: PrevGraph,
    frontier: Seq<Seq<char>>,
    visited: Seq<Seq<char>>,
    last_known: Seq<char>,
    hops: nat,
)
    ensures
        ({
            let r = boundary(g, frontier, visited, last_known, hops);
            r == last_known || frontier.contains(r) || exists|y: Seq<char>|
                (#[trigger] g(y)) is Some && g(y)->0.contains(r)
        }),
    decreases hops,
{
    let r = boundary(g, frontier, visited, last_known, hops);
    if hops == 0 {
        lemma_first_unvisited(frontier, visited);
    } else if frontier.len() > 0 {
        let c = frontier[0];
        let rest = frontier.drop_first();
        assert(frontier.contains(c));
        assert forall|x: Seq<char>| #[trigger] rest.contains(x) implies frontier.contains(x) by {
            let i = choose|i: int| 0 <= i < rest.len() && rest[i] == x;
            assert(frontier[i + 1] == x);
        }
        if visited.contains(c) {
            law_boundary_is_reached(g, rest, visited, last_known, (hops - 1) as nat);
        } else if let Some(prevs) = g(c) {
            let seen = visited.push(c);
            let more = unvisited(prevs, seen);
            let next = rest + more;
            law_unvisited(prevs, seen);
            law_boundary_is_reached(g, next, seen, c, (hops - 1) as nat);
            if next.contains(r) {
                let i = choose|i: int| 0 <= i < next.len() && next[i] == r;
                if i < rest.len() {
                    assert(rest[i] == r);
                } else {
                    assert(more[i - rest.len()] == r);
                    assert(more.contains(r));
                    assert(g(c) is Some && g(c)->0.contains(r));
                }
            }
        }
    }
}

proof fn lemma_first_unvisited(v: Seq<Seq<char>>, visited: Seq<Seq<char>>)
    ensures
        match first_unvisited(v, visited) {
            Some(x) => v.contains(x) && !visited.contains(x),
            None => forall|i: int| 0 <= i < v.len() ==> visited.contains(#[trigger] v[i]),
        },
    decreases v.len(),
{
    if v.len() > 0 {
        assert(v.contains(v[0]));
        let rest = v.drop_first();
        lemma_first_unvisited(rest, visited);
        match first_unvisited(rest, visited) {
            Some(x) => {
                let i = choose|i: int| 0 <= i < rest.len() && rest[i] == x;
                assert(v[i + 1] == x);
            },
            None => {
                assert forall|i: int| 0 <= i < v.len() && visited.contains(
                    v[0],
                ) implies visited.contains(#[trigger] v[i]) by {
                    if i > 0 {
                        assert(rest[i - 1] == v[i]);
                    }
                }
            },
        }
    }
}

} // verus!
