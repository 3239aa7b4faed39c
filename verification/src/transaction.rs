//! Transactions that another server sends: how their events are grouped, and
//! how their outcomes are recorded and reported.

use vstd::prelude::*;
use vstd::string::*;

use crate::join::copy_values;
use crate::json::json_of;
use crate::json::members;
use crate::json::put;
use crate::json::values;
use crate::json::Json;
use crate::json::JsonView;
use crate::receive::outcome_json;
use crate::receive::OutcomeView;
use crate::receive::PduOutcome;
use crate::receive::MAX_PDUS_PER_TRANSACTION;
use crate::table::TextMap;
use crate::text::contains;
use crate::text::holds;
use crate::text::lemma_has_push;
use crate::text::opt_string;
use crate::text::str_eq;
use crate::text::texts;

verus! {

/// The events of a transaction that belong to one room, by their place in the
/// transaction.
pub struct RoomBatch {
    pub room_id: String,
    pub places: Vec<usize>,
}

/// The room that an event of a transaction names; empty if it names none.
pub open spec fn room_of(pdu: JsonView) -> Seq<char> {
    match pdu.str_at("room_id"@) {
        Some(r) => r,
        None => ""@,
    }
}

/// How many of the events of a transaction are processed.
pub open spec fn processed(n: nat) -> nat {
    if n <= MAX_PDUS_PER_TRANSACTION {
        n
    } else {
        MAX_PDUS_PER_TRANSACTION as nat
    }
}

/// The places of the events among the first `n` that belong to a room, in order.
pub open spec fn places_of(pdus: Seq<JsonView>, room: Seq<char>, n: int) -> Seq<usize>
    decreases n,
{
    if n <= 0 {
        seq![]
    } else if room_of(pdus[n - 1]) == room {
        places_of(pdus, room, n - 1).push((n - 1) as usize)
    } else {
        places_of(pdus, room, n - 1)
    }
}

/// Whether some batches are the events among the first `n`, grouped by room:
/// one batch for every room that occurs, with all its events in order.
pub open spec fn grouped(batches: Seq<RoomBatch>, pdus: Seq<JsonView>, n: int) -> bool {
    &&& forall|i: int|
        0 <= i < batches.len() ==> {
            &&& (#[trigger] batches[i]).places@ == places_of(pdus, batches[i].room_id@, n)
            &&& batches[i].places@.len() > 0
        }
    &&& forall|i: int, j: int|
        0 <= i < j < batches.len() ==> (#[trigger] batches[i]).room_id@ != (
        #[trigger] batches[j]).room_id@
    &&& forall|k: int|
        0 <= k < n ==> exists|i: int|
            0 <= i < batches.len() && (#[trigger] batches[i]).room_id@ == room_of(
                #[trigger] pdus[k],
            )
}

fn room_text(pdu: &Json) -> (r: String)
    ensures
        r@ == room_of(pdu@),
{
    match pdu.str_at("room_id") {
        Some(s) => s.to_owned(),
        None => "".to_owned(),
    }
}

proof fn lemma_no_places(pdus: Seq<JsonView>, room: Seq<char>, n: int)
    requires
        forall|k: int| 0 <= k < n ==> room_of(#[trigger] pdus[k]) != room,
    ensures
        places_of(pdus, room, n) == Seq::<usize>::empty(),
    decreases n,
{
    if n > 0 {
        lemma_no_places(pdus, room, n - 1);
    }
}

/// Groups the events of a transaction by room, as many as a transaction may
/// carry; the ones beyond that are not processed.
pub fn group_by_room(pdus: &Vec<Json>) -> (r: Vec<RoomBatch>)
    ensures
        grouped(r@, values(pdus@), processed(pdus@.len()) as int),
{
    let ghost v = values(pdus@);
    let n: usize = if pdus.len() <= MAX_PDUS_PER_TRANSACTION {
        pdus.len()
    } else {
        MAX_PDUS_PER_TRANSACTION
    };
    let mut out: Vec<RoomBatch> = Vec::new();
    let mut k: usize = 0;
    while k < n
        invariant
            k <= n <= pdus.len(),
            v == values(pdus@),
            grouped(out@, v, k as int),
        decreases n - k,
    {
        let room = room_text(&pdus[k]);
        proof {
            assert(v[k as int] == pdus@[k as int]@);
        }
        let ghost before = out@;
        let mut i: usize = 0;
        while i < out.len() && !str_eq(out[i].room_id.as_str(), room.as_str())
            invariant
                i <= out.len(),
                out@ == before,
                forall|j: int| 0 <= j < i ==> (#[trigger] before[j]).room_id@ != room@,
            decreases out.len() - i,
        {
            i += 1;
        }
        if i < out.len() {
            let mut places: Vec<usize> = Vec::new();
            let mut j: usize = 0;
            while j < out[i].places.len()
                invariant
                    i < out.len(),
                    out@ == before,
                    j <= out@[i as int].places.len(),
                    places@ =~= out@[i as int].places@.take(j as int),
                decreases out@[i as int].places.len() - j,
            {
                places.push(out[i].places[j]);
                j += 1;
            }
            places.push(k);
            proof {
                assert(before[i as int].places@.take(j as int) =~= before[i as int].places@);
                assert(places@ =~= places_of(v, room@, k + 1));
            }
            out.set(i, RoomBatch { room_id: room, places });
            proof {
                lemma_grown(before, out@, v, k as int, i as int);
            }
        } else {
            let mut places: Vec<usize> = Vec::new();
            places.push(k);
            proof {
                assert forall|q: int| 0 <= q < k implies room_of(#[trigger] v[q]) != room@ by {
                    let a = choose|a: int|
                        0 <= a < before.len() && (#[trigger] before[a]).room_id@ == room_of(v[q]);
                    assert(before[a].room_id@ != room@);
                }
                lemma_no_places(v, room@, k as int);
                assert(places@ =~= places_of(v, room@, k + 1));
            }
            out.push(RoomBatch { room_id: room, places });
            proof {
                lemma_extended(before, out@, v, k as int);
            }
        }
        k += 1;
    }
    out
}

proof fn lemma_grown(
    before: Seq<RoomBatch>,
    after: Seq<RoomBatch>,
    v: Seq<JsonView>,
    k: int,
    i: int,
)
    requires
        grouped(before, v, k),
        0 <= k < v.len(),
        0 <= i < before.len() == after.len(),
        forall|j: int| 0 <= j < before.len() && j != i ==> #[trigger] after[j] == before[j],
        before[i].room_id@ == room_of(v[k]),
        after[i].room_id@ == room_of(v[k]),
        after[i].places@ == places_of(v, room_of(v[k]), k + 1),
    ensures
        grouped(after, v, k + 1),
{
    assert forall|j: int| 0 <= j < after.len() implies {
        &&& (#[trigger] after[j]).places@ == places_of(v, after[j].room_id@, k + 1)
        &&& after[j].places@.len() > 0
    } by {
        if j != i {
            assert(before[j].room_id@ != before[i].room_id@) by {
                if j < i {
                    assert(before[j].room_id@ != before[i].room_id@);
                } else {
                    assert(before[i].room_id@ != before[j].room_id@);
                }
            }
            assert(before[j].places@ == places_of(v, before[j].room_id@, k));
        }
    }
    assert forall|a: int, b: int| 0 <= a < b < after.len() implies (#[trigger] after[a]).room_id@
        != (#[trigger] after[b]).room_id@ by {
        assert(before[a].room_id@ != before[b].room_id@);
        assert(after[a].room_id@ == before[a].room_id@);
        assert(after[b].room_id@ == before[b].room_id@);
    }
    assert forall|q: int| 0 <= q < k + 1 implies exists|a: int|
        0 <= a < after.len() && (#[trigger] after[a]).room_id@ == room_of(#[trigger] v[q]) by {
        if q < k {
            let a = choose|a: int|
                0 <= a < before.len() && (#[trigger] before[a]).room_id@ == room_of(v[q]);
            assert(after[a].room_id@ == before[a].room_id@);
        } else {
            assert(after[i].room_id@ == room_of(v[q]));
        }
    }
}

proof fn lemma_extended(before: Seq<RoomBatch>, after: Seq<RoomBatch>, v: Seq<JsonView>, k: int)
    requires
        grouped(before, v, k),
        0 <= k < v.len(),
        after.len() == before.len() + 1,
        forall|j: int| 0 <= j < before.len() ==> #[trigger] after[j] == before[j],
        forall|j: int| 0 <= j < before.len() ==> (#[trigger] before[j]).room_id@ != room_of(v[k]),
        after.last().room_id@ == room_of(v[k]),
        after.last().places@ == places_of(v, room_of(v[k]), k + 1),
    ensures
        grouped(after, v, k + 1),
{
    let last = before.len() as int;
    assert forall|j: int| 0 <= j < after.len() implies {
        &&& (#[trigger] after[j]).places@ == places_of(v, after[j].room_id@, k + 1)
        &&& after[j].places@.len() > 0
    } by {
        if j < last {
            assert(before[j].places@ == places_of(v, before[j].room_id@, k));
        }
    }
    assert forall|a: int, b: int| 0 <= a < b < after.len() implies (#[trigger] after[a]).room_id@
        != (#[trigger] after[b]).room_id@ by {
        assert(after[a] == before[a]);
        if b < last {
            assert(before[a].room_id@ != before[b].room_id@);
        }
    }
    assert forall|q: int| 0 <= q < k + 1 implies exists|a: int|
        0 <= a < after.len() && (#[trigger] after[a]).room_id@ == room_of(#[trigger] v[q]) by {
        if q < k {
            let a = choose|a: int|
                0 <= a < before.len() && (#[trigger] before[a]).room_id@ == room_of(v[q]);
            assert(after[a] == before[a]);
        } else {
            assert(after[last].room_id@ == room_of(v[q]));
        }
    }
}

/// The reasons for a rejection that may pass: the room is being joined, and its
/// state has not arrived yet.
pub open spec fn is_transient(reason: Seq<char>) -> bool {
    reason == "unknown room"@ || holds(reason, "no m.room.create in state"@)
}

/// Whether an outcome goes on the record of rejected events, and with which
/// reason: every rejection of an event with an id does, unless it may pass.
pub open spec fn recorded_reason(event_id: Seq<char>, outcome: OutcomeView) -> Option<Seq<char>> {
    match outcome {
        OutcomeView::Rejected(reason) => if event_id.len() > 0 && !is_transient(reason) {
            Some(reason)
        } else {
            None
        },
        _ => None,
    }
}

/// The reason under which an event goes on the record of rejected events, if it
/// does.
pub fn record_outcome(event_id: &str, outcome: &PduOutcome) -> (r: Option<String>)
    ensures
        opt_string(r) == recorded_reason(event_id@, outcome@),
{
    match outcome {
        PduOutcome::Rejected(reason) => {
            let transient = str_eq(reason.as_str(), "unknown room") || contains(
                reason.as_str(),
                "no m.room.create in state",
            );
            if !event_id.is_empty() && !transient {
                Some(reason.clone())
            } else {
                None
            }
        },
        _ => None,
    }
}

/// What became of one event of a transaction.
pub struct PduResult {
    /// Its place in the transaction.
    pub place: usize,
    pub event_id: String,
    pub outcome: PduOutcome,
}

/// Where a result goes among results in order of their places: behind all that
/// come before it or share its place.
pub open spec fn result_place(v: Seq<PduResult>, place: usize) -> int
    decreases v.len(),
{
    if v.len() > 0 && v.last().place > place {
        result_place(v.drop_last(), place)
    } else {
        v.len() as int
    }
}

/// Results in the order of their places in the transaction.
pub open spec fn in_place_order(v: Seq<PduResult>) -> Seq<PduResult>
    decreases v.len(),
{
    if v.len() == 0 {
        seq![]
    } else {
        let head = in_place_order(v.drop_last());
        head.insert(result_place(head, v.last().place), v.last())
    }
}

/// The outcome that is reported for an event: the last one among results.
pub open spec fn last_outcome(v: Seq<PduResult>, event_id: Seq<char>) -> Option<JsonView>
    decreases v.len(),
{
    if v.len() == 0 {
        None
    } else if v.last().event_id@ == event_id {
        Some(outcome_json(v.last().outcome@))
    } else {
        last_outcome(v.drop_last(), event_id)
    }
}

proof fn lemma_result_place(v: Seq<PduResult>, place: usize)
    ensures
        0 <= result_place(v, place) <= v.len(),
    decreases v.len(),
{
    if v.len() > 0 && v.last().place > place {
        lemma_result_place(v.drop_last(), place);
    }
}

/// Puts results in the order of their places.
fn order_results(results: Vec<PduResult>) -> (r: Vec<PduResult>)
    ensures
        r@ == in_place_order(results@),
{
    let mut rest = results;
    let ghost whole = rest@;
    let mut reversed: Vec<PduResult> = Vec::new();
    proof {
        assert(whole.take(whole.len() as int) =~= whole);
    }
    while rest.len() > 0
        invariant
            rest@.len() + reversed@.len() == whole.len(),
            rest@ == whole.take(rest@.len() as int),
            forall|i: int|
                0 <= i < reversed@.len() ==> #[trigger] reversed@[i] == whole[whole.len() - 1 - i],
        decreases rest.len(),
    {
        let ghost n = rest@.len();
        match rest.pop() {
            Some(x) => {
                reversed.push(x);
            },
            None => {},
        }
        proof {
            assert(rest@ =~= whole.take(n - 1));
        }
    }
    let mut out: Vec<PduResult> = Vec::new();
    let ghost mut done: int = 0;
    proof {
        assert(whole.take(0) =~= seq![]);
    }
    while reversed.len() > 0
        invariant
            0 <= done <= whole.len(),
            reversed@.len() == whole.len() - done,
            forall|i: int|
                0 <= i < reversed@.len() ==> #[trigger] reversed@[i] == whole[whole.len() - 1 - i],
            out@ == in_place_order(whole.take(done)),
        decreases reversed.len(),
    {
        match reversed.pop() {
            Some(x) => {
                let ghost head = out@;
                proof {
                    assert(x == whole[done]);
                    assert(whole.take(done + 1).drop_last() =~= whole.take(done));
                    assert(whole.take(done + 1).last() == x);
                    assert(head.take(head.len() as int) =~= head);
                    lemma_result_place(head, x.place);
                }
                let mut p: usize = out.len();
                while p > 0 && out[p - 1].place > x.place
                    invariant
                        p <= out.len(),
                        head == out@,
                        result_place(head, x.place) == result_place(head.take(p as int), x.place),
                    decreases p,
                {
                    proof {
                        assert(head.take(p as int).last() == head[p - 1]);
                        assert(head.take(p as int).drop_last() =~= head.take(p - 1));
                    }
                    p -= 1;
                }
                proof {
                    if p > 0 {
                        assert(head.take(p as int).last() == head[p - 1]);
                    }
                    assert(result_place(head, x.place) == p);
                    done = done + 1;
                }
                out.insert(p, x);
            },
            None => {},
        }
    }
    proof {
        assert(whole.take(done) =~= whole);
    }
    out
}

/// The reason that is given for an event beyond those that a transaction may
/// carry.
pub open spec fn excess_reason() -> Seq<char> {
    "transaction exceeds PDU limit"@
}

/// What is reported for an event: its outcome, if it was processed; an error, if
/// it lies beyond the events that a transaction may carry.
pub open spec fn reply_entry(
    results: Seq<PduResult>,
    excess: Seq<Seq<char>>,
    event_id: Seq<char>,
) -> Option<JsonView> {
    match last_outcome(results, event_id) {
        Some(o) => Some(o),
        None => if excess.contains(event_id) {
            Some(outcome_json(OutcomeView::Rejected(excess_reason())))
        } else {
            None
        },
    }
}

/// The reply to a transaction: what became of each event, in the order in which
/// the events were sent; where an event occurs twice its last outcome counts.
/// The events named in `excess` were beyond the limit: each of them that was not
/// processed as well gets an error.
pub fn transaction_reply(results: Vec<PduResult>, excess: &Vec<String>) -> (r: Json)
    ensures
        ({
            let body = r@.object_at("pdus"@);
            &&& r@.as_object() is Some
            &&& r@.as_object()->0.len() == 1
            &&& body is Some
            &&& forall|id: Seq<char>|
                #![trigger r@.get("pdus"@)->0.get(id)]
                r@.get("pdus"@)->0.get(id) == reply_entry(
                    in_place_order(results@),
                    texts(excess@),
                    id,
                )
        }),
{
    let ordered = order_results(results);
    let ghost o = ordered@;
    let ghost beyond = texts(excess@);
    let mut t: TextMap<Json> = TextMap::new();
    let mut i: usize = 0;
    while i < excess.len()
        invariant
            i <= excess.len(),
            beyond == texts(excess@),
            forall|id: Seq<char>|
                #![trigger t.find(id)]
                json_of(t.find(id)) == reply_entry(seq![], beyond.take(i as int), id),
        decreases excess.len() - i,
    {
        let ghost before = t;
        let refused = PduOutcome::Rejected("transaction exceeds PDU limit".to_owned());
        let entry = refused.to_json();
        t.insert(excess[i].as_str(), entry);
        proof {
            assert(beyond.take(i + 1) =~= beyond.take(i as int).push(excess@[i as int]@));
            assert forall|id: Seq<char>| #![trigger t.find(id)] json_of(t.find(id)) == reply_entry(
                seq![],
                beyond.take(i + 1),
                id,
            ) by {
                assert(json_of(before.find(id)) == reply_entry(
                    seq![],
                    beyond.take(i as int),
                    id,
                ));
                lemma_has_push(beyond.take(i as int), excess@[i as int]@, id);
            }
        }
        i += 1;
    }
    let mut i: usize = 0;
    proof {
        assert(beyond.take(beyond.len() as int) =~= beyond);
        assert(o.take(0) =~= seq![]);
    }
    while i < ordered.len()
        invariant
            i <= ordered.len(),
            o == ordered@,
            forall|id: Seq<char>|
                #![trigger t.find(id)]
                json_of(t.find(id)) == reply_entry(o.take(i as int), beyond, id),
        decreases ordered.len() - i,
    {
        proof {
            assert(o.take(i + 1).drop_last() =~= o.take(i as int));
            assert(o.take(i + 1).last() == o[i as int]);
        }
        let entry = ordered[i].outcome.to_json();
        t.insert(ordered[i].event_id.as_str(), entry);
        i += 1;
    }
    proof {
        assert(o.take(i as int) =~= o);
    }
    let ghost table = t;
    let entries = t.entries;
    let inner = Json::object(entries);
    let ghost inner_view = inner@;
    proof {
        assert forall|id: Seq<char>| #![trigger inner_view.get(id)] inner_view.get(id)
            == reply_entry(o, beyond, id) by {
            lemma_member_is_found(table.entries@, id, 0);
            assert(members(table.entries@).skip(0) =~= members(table.entries@));
            assert(json_of(table.find(id)) == reply_entry(o, beyond, id));
        }
    }
    let mut m: Vec<(String, Json)> = Vec::new();
    put(&mut m, "pdus", inner);
    proof {
        assert(members(m@) =~= seq![("pdus"@, inner_view)]);
        assert(members(m@)[0] == ("pdus"@, inner_view));
    }
    Json::object(m)
}

/// The member of an object is the value that a table of its members holds.
proof fn lemma_member_is_found(e: Seq<(String, Json)>, id: Seq<char>, from: int)
    requires
        0 <= from <= e.len(),
    ensures
        crate::json::member(members(e).skip(from), id) == (if crate::table::position_from(
            e,
            id,
            from,
        ) < e.len() {
            Some(e[crate::table::position_from(e, id, from)].1@)
        } else {
            None
        }),
    decreases e.len() - from,
{
    let s = members(e).skip(from);
    if from < e.len() {
        assert(s[0] == (e[from].0@, e[from].1@));
        assert(s.drop_first() =~= members(e).skip(from + 1));
        lemma_member_is_found(e, id, from + 1);
    }
}

/// The reply to a transaction without a body.
pub fn empty_transaction_reply() -> (r: Json)
    ensures
        r@ == crate::api::error_json("M_BAD_JSON"@, "empty transaction body"@),
{
    let e = crate::api::err_response(crate::api::OK, "M_BAD_JSON", "empty transaction body");
    e.body
}

proof fn lemma_place_splits(v: Seq<PduResult>, place: usize)
    requires
        forall|i: int, j: int|
            0 <= i <= j < v.len() ==> (#[trigger] v[i]).place <= (#[trigger] v[j]).place,
    ensures
        0 <= result_place(v, place) <= v.len(),
        forall|i: int| 0 <= i < result_place(v, place) ==> (#[trigger] v[i]).place <= place,
        forall|i: int| result_place(v, place) <= i < v.len() ==> (#[trigger] v[i]).place > place,
    decreases v.len(),
{
    if v.len() > 0 && v.last().place > place {
        let front = v.drop_last();
        assert forall|i: int, j: int| 0 <= i <= j < front.len() implies (
        #[trigger] front[i]).place <= (#[trigger] front[j]).place by {
            assert(v[i].place <= v[j].place);
        }
        lemma_place_splits(front, place);
        assert forall|i: int| 0 <= i < result_place(v, place) implies (#[trigger] v[i]).place
            <= place by {
            assert(front[i].place <= place);
        }
        assert forall|i: int| result_place(v, place) <= i < v.len() implies (
        #[trigger] v[i]).place > place by {
            if i < front.len() {
                assert(front[i].place > place);
            }
        }
    }
}

/// Outcomes are reported in the order in which the events were sent, whatever
/// the order in which the rooms were done with, and none is lost or made up.
pub proof fn law_reply_order(v: Seq<PduResult>)
    ensures
        forall|i: int, j: int|
            0 <= i <= j < in_place_order(v).len() ==> (#[trigger] in_place_order(v)[i]).place <= (
            #[trigger] in_place_order(v)[j]).place,
        in_place_order(v).to_multiset() == v.to_multiset(),
        in_place_order(v).len() == v.len(),
    decreases v.len(),
{
    broadcast use vstd::seq_lib::group_to_multiset_ensures;

    if v.len() > 0 {
        let front = v.drop_last();
        law_reply_order(front);
        let head = in_place_order(front);
        let x = v.last();
        lemma_place_splits(head, x.place);
        let p = result_place(head, x.place);
        let out = in_place_order(v);
        assert(out == head.insert(p, x));
        assert forall|i: int, j: int| 0 <= i <= j < out.len() implies (#[trigger] out[i]).place
            <= (#[trigger] out[j]).place by {
            let a = if i < p {
                i
            } else {
                i - 1
            };
            let b = if j < p {
                j
            } else {
                j - 1
            };
            if i != p && j != p {
                assert(out[i] == head[a] && out[j] == head[b]);
            } else if i != p {
                assert(out[i] == head[a]);
            } else if j != p {
                assert(out[j] == head[b]);
            }
        }
        assert(v =~= front.push(x));
        assert(front.push(x).to_multiset() =~= front.to_multiset().insert(x));
        assert(head.insert(p, x).to_multiset() =~= head.to_multiset().insert(x));
    }
}

proof fn lemma_last_outcome(v: Seq<PduResult>, event_id: Seq<char>)
    ensures
        last_outcome(v, event_id) is Some <==> exists|i: int|
            0 <= i < v.len() && (#[trigger] v[i]).event_id@ == event_id,
    decreases v.len(),
{
    if v.len() > 0 {
        let front = v.drop_last();
        lemma_last_outcome(front, event_id);
        if v.last().event_id@ == event_id {
            assert(v[v.len() - 1].event_id@ == event_id);
        } else {
            if exists|i: int| 0 <= i < v.len() && (#[trigger] v[i]).event_id@ == event_id {
                let i = choose|i: int| 0 <= i < v.len() && (#[trigger] v[i]).event_id@ == event_id;
                assert(front[i].event_id@ == event_id);
            }
            if exists|i: int| 0 <= i < front.len() && (#[trigger] front[i]).event_id@ == event_id {
                let i = choose|i: int|
                    0 <= i < front.len() && (#[trigger] front[i]).event_id@ == event_id;
                assert(v[i].event_id@ == event_id);
            }
        }
    }
}

/// The reply to a transaction has an entry for every event that was processed
/// and for every event beyond the limit, and for no other; what is beyond the
/// limit never hides an outcome.
pub proof fn law_reply_is_complete(
    v: Seq<PduResult>,
    excess: Seq<Seq<char>>,
    event_id: Seq<char>,
)
    ensures
        reply_entry(in_place_order(v), excess, event_id) is Some <==> excess.contains(event_id)
            || exists|i: int| 0 <= i < v.len() && (#[trigger] v[i]).event_id@ == event_id,
        (exists|i: int| 0 <= i < v.len() && (#[trigger] v[i]).event_id@ == event_id)
            ==> reply_entry(in_place_order(v), excess, event_id) == last_outcome(
            in_place_order(v),
            event_id,
        ),
{
    broadcast use vstd::seq_lib::group_to_multiset_ensures;

    let o = in_place_order(v);
    law_reply_order(v);
    lemma_last_outcome(o, event_id);
    if exists|i: int| 0 <= i < v.len() && (#[trigger] v[i]).event_id@ == event_id {
        let i = choose|i: int| 0 <= i < v.len() && (#[trigger] v[i]).event_id@ == event_id;
        assert(v.contains(v[i]));
        assert(v.to_multiset().count(v[i]) > 0);
        assert(o.contains(v[i]));
        let j = choose|j: int| 0 <= j < o.len() && o[j] == v[i];
        assert(o[j].event_id@ == event_id);
    }
    if exists|i: int| 0 <= i < o.len() && (#[trigger] o[i]).event_id@ == event_id {
        let i = choose|i: int| 0 <= i < o.len() && (#[trigger] o[i]).event_id@ == event_id;
        assert(o.contains(o[i]));
        assert(o.to_multiset().count(o[i]) > 0);
        assert(v.contains(o[i]));
        let j = choose|j: int| 0 <= j < v.len() && v[j] == o[i];
        assert(v[j].event_id@ == event_id);
    }
}

/// Each event of a transaction that is processed belongs to the batch of its own
/// room, and to no other.
pub proof fn law_grouping(pdus: Seq<JsonView>, room: Seq<char>, n: int, k: usize)
    requires
        0 <= n <= usize::MAX,
    ensures
        places_of(pdus, room, n).contains(k) <==> k < n && room_of(pdus[k as int]) == room,
    decreases n,
{
    let v = places_of(pdus, room, n);
    if n > 0 {
        let rest = places_of(pdus, room, n - 1);
        law_grouping(pdus, room, n - 1, k);
        if rest.contains(k) {
            let i = choose|i: int| 0 <= i < rest.len() && rest[i] == k;
            assert(v[i] == k);
        }
        if room_of(pdus[n - 1]) == room {
            assert(v[rest.len() as int] == (n - 1) as usize);
            if v.contains(k) {
                let i = choose|i: int| 0 <= i < v.len() && v[i] == k;
                if i < rest.len() {
                    assert(rest[i] == k);
                }
            }
        }
    }
}

/// A rejection that may pass leaves no mark: the event can be sent again. An
/// event that was stored is never on the record of rejected ones.
pub proof fn law_transient_rejections(event_id: Seq<char>, outcome: OutcomeView)
    ensures
        recorded_reason(event_id, outcome) is Some <==> (outcome matches OutcomeView::Rejected(
            reason,
        ) && !is_transient(reason) && event_id.len() > 0),
        outcome == OutcomeView::Rejected("unknown room"@) ==> recorded_reason(
            event_id,
            outcome,
        ) is None,
{
}

/// The places of the events beyond those that a transaction may carry, in order.
pub open spec fn excess_places(n: nat) -> Seq<usize> {
    Seq::new((n - processed(n)) as nat, |i: int| (processed(n) + i) as usize)
}

/// Every event of a transaction is accounted for, in one way: it is in the batch
/// of its room and processed, or among those beyond the limit and answered with
/// an error.
pub proof fn law_every_event_is_accounted_for(
    batches: Seq<RoomBatch>,
    pdus: Seq<JsonView>,
    k: usize,
)
    requires
        grouped(batches, pdus, processed(pdus.len()) as int),
        k < pdus.len() <= usize::MAX,
    ensures
        (exists|i: int|
            0 <= i < batches.len() && (#[trigger] batches[i]).places@.contains(k)) <==> k
            < processed(pdus.len()),
        excess_places(pdus.len()).contains(k) <==> k >= processed(pdus.len()),
{
    let n = processed(pdus.len()) as int;
    if k < n {
        let i = choose|i: int|
            0 <= i < batches.len() && (#[trigger] batches[i]).room_id@ == room_of(
                pdus[k as int],
            );
        law_grouping(pdus, batches[i].room_id@, n, k);
        assert(batches[i].places@.contains(k));
    }
    if exists|i: int| 0 <= i < batches.len() && (#[trigger] batches[i]).places@.contains(k) {
        let i = choose|i: int| 0 <= i < batches.len() && (#[trigger] batches[i]).places@.contains(k);
        law_grouping(pdus, batches[i].room_id@, n, k);
    }
    if k >= n {
        assert(excess_places(pdus.len())[k - n] == k);
    }
}

/// What a transaction asks for: its events by room, and its ephemeral units.
pub struct TransactionPlan {
    pub batches: Vec<RoomBatch>,
    /// The places of the events beyond those that a transaction may carry.
    pub excess: Vec<usize>,
    /// The units, which are handled after all events.
    pub edus: Vec<Json>,
}

/// The elements of a list in a body.
pub open spec fn elements(body: JsonView, name: Seq<char>) -> Seq<JsonView> {
    match body.array_at(name) {
        Some(v) => v,
        None => seq![],
    }
}

fn places_beyond(n: usize) -> (r: Vec<usize>)
    ensures
        r@ == excess_places(n as nat),
{
    let mut out: Vec<usize> = Vec::new();
    let mut k: usize = MAX_PDUS_PER_TRANSACTION;
    while k < n
        invariant
            k >= MAX_PDUS_PER_TRANSACTION,
            k <= n || k == MAX_PDUS_PER_TRANSACTION,
            out@.len() == k - MAX_PDUS_PER_TRANSACTION,
            forall|i: int|
                0 <= i < out@.len() ==> #[trigger] out@[i] == MAX_PDUS_PER_TRANSACTION + i,
        decreases n - k,
    {
        out.push(k);
        k += 1;
    }
    proof {
        assert(out@ =~= excess_places(n as nat));
    }
    out
}

/// Takes a transaction apart; one without a body is answered at once.
pub fn receive_transaction(body: Option<&Json>) -> (r: Result<TransactionPlan, Json>)
    ensures
        match body {
            None => r matches Err(e) && e@ == crate::api::error_json(
                "M_BAD_JSON"@,
                "empty transaction body"@,
            ),
            Some(b) => r matches Ok(plan) && {
                &&& grouped(
                    plan.batches@,
                    elements(b@, "pdus"@),
                    processed(elements(b@, "pdus"@).len()) as int,
                )
                &&& plan.excess@ == excess_places(elements(b@, "pdus"@).len())
                &&& values(plan.edus@) == elements(b@, "edus"@)
            },
        },
{
    let b = match body {
        None => {
            return Err(empty_transaction_reply());
        },
        Some(b) => b,
    };
    let none: Vec<Json> = Vec::new();
    proof {
        assert(values(none@) =~= seq![]);
    }
    let (batches, excess) = match b.array_at("pdus") {
        Some(v) => {
            proof {
                assert(values(v@).len() == v@.len());
            }
            (group_by_room(v), places_beyond(v.len()))
        },
        None => (group_by_room(&none), places_beyond(0)),
    };
    let edus = match b.array_at("edus") {
        Some(v) => copy_values(v),
        None => none,
    };
    Ok(TransactionPlan { batches, excess, edus })
}

/// The batch of a room holds the places of its events in the order of the
/// transaction: exactly those of the events that name the room, an event that
/// names none counting under the empty name.
pub proof fn law_batches_in_order(pdus: Seq<JsonView>, room: Seq<char>, n: int)
    requires
        0 <= n <= usize::MAX,
    ensures
        forall|i: int, j: int|
            0 <= i < j < places_of(pdus, room, n).len() ==> (#[trigger] places_of(
                pdus,
                room,
                n,
            )[i]) < (#[trigger] places_of(pdus, room, n)[j]),
        forall|k: usize| #[trigger]
            places_of(pdus, room, n).contains(k) <==> k < n && match pdus[k as int].get(
                "room_id"@,
            ) {
                Some(JsonView::Str(r)) => r == room,
                _ => room.len() == 0,
            },
    decreases n,
{
    reveal_strlit("");
    assert forall|k: usize| #[trigger] places_of(pdus, room, n).contains(k) <==> k < n
        && match pdus[k as int].get("room_id"@) {
        Some(JsonView::Str(r)) => r == room,
        _ => room.len() == 0,
    } by {
        law_grouping(pdus, room, n, k);
        assert(room.len() == 0 ==> room =~= ""@);
    }
    if n > 0 {
        let v = places_of(pdus, room, n);
        let rest = places_of(pdus, room, n - 1);
        law_batches_in_order(pdus, room, n - 1);
        assert forall|i: int, j: int| 0 <= i < j < v.len() implies (#[trigger] v[i]) < (
        #[trigger] v[j]) by {
            assert(rest.contains(rest[i]));
            if j < rest.len() {
                assert(rest[i] < rest[j]);
            }
        }
    }
}

/// A transaction is processed up to its first fifty events.
pub proof fn law_processed(n: nat)
    ensures
        processed(n) <= n,
        processed(n) <= 50,
        processed(n) == n || processed(n) == 50,
        excess_places(n).len() == n - processed(n),
{
}

/// The outcome that is reported for an event is that of its last result, and it
/// says what went wrong exactly if the event was rejected.
pub proof fn law_reported_outcomes(v: Seq<PduResult>, event_id: Seq<char>)
    ensures
        match last_outcome(v, event_id) {
            Some(o) => exists|i: int|
                0 <= i < v.len() && (#[trigger] v[i]).event_id@ == event_id && (forall|j: int|
                    i < j < v.len() ==> (#[trigger] v[j]).event_id@ != event_id) && match v[i].outcome {
                    PduOutcome::Rejected(reason) => o.get("error"@) == Some(JsonView::Str(reason@)),
                    _ => o == JsonView::Object(seq![]),
                },
            None => forall|i: int| 0 <= i < v.len() ==> (#[trigger] v[i]).event_id@ != event_id,
        },
    decreases v.len(),
{
    if v.len() > 0 {
        let last = v.len() - 1;
        if v[last].event_id@ == event_id {
            reveal_with_fuel(crate::json::member, 2);
            assert(v[last].event_id@ == event_id);
        } else {
            let front = v.drop_last();
            law_reported_outcomes(front, event_id);
            match last_outcome(front, event_id) {
                Some(o) => {
                    let i = choose|i: int|
                        0 <= i < front.len() && (#[trigger] front[i]).event_id@ == event_id && (
                        forall|j: int|
                            i < j < front.len() ==> (#[trigger] front[j]).event_id@ != event_id)
                            && match front[i].outcome {
                            PduOutcome::Rejected(reason) => o.get("error"@) == Some(
                                JsonView::Str(reason@),
                            ),
                            _ => o == JsonView::Object(seq![]),
                        };
                    assert(v[i] == front[i]);
                    assert forall|j: int| i < j < v.len() implies (#[trigger] v[j]).event_id@
                        != event_id by {
                        if j < front.len() {
                            assert(v[j] == front[j]);
                        }
                    }
                },
                None => {
                    assert forall|i: int| 0 <= i < v.len() implies (#[trigger] v[i]).event_id@
                        != event_id by {
                        if i < front.len() {
                            assert(v[i] == front[i]);
                        }
                    }
                },
            }
        }
    }
}

/// Results for one place keep the order in which they came.
pub proof fn law_reply_order_is_stable(v: Seq<PduResult>, place: usize)
    ensures
        in_place_order(v).filter(|x: PduResult| x.place == place) == v.filter(
            |x: PduResult| x.place == place,
        ),
    decreases v.len(),
{
    let p = |x: PduResult| x.place == place;
    if v.len() > 0 {
        let front = v.drop_last();
        let x = v.last();
        let head = in_place_order(front);
        law_reply_order(front);
        law_reply_order_is_stable(front, place);
        lemma_place_splits(head, x.place);
        let k = result_place(head, x.place);
        let a = head.take(k);
        let b = head.skip(k);
        assert(head =~= a + b);
        assert(in_place_order(v) =~= (a + seq![x]) + b);
        assert(v =~= front + seq![x]);
        Seq::filter_distributes_over_add(a, b, p);
        Seq::filter_distributes_over_add(a + seq![x], b, p);
        Seq::filter_distributes_over_add(a, seq![x], p);
        Seq::filter_distributes_over_add(front, seq![x], p);
        assert(seq![x].filter(p) == (if p(x) {
            seq![x]
        } else {
            seq![]
        })) by {
            reveal(Seq::filter);
            assert(seq![x].drop_last() =~= seq![]);
            assert(Seq::<PduResult>::empty().filter(p) =~= seq![]);
            assert(seq![].push(x) =~= seq![x]);
        }
        if p(x) {
            assert(b.filter(p) =~= seq![]) by {
                if b.filter(p).len() > 0 {
                    let y = b.filter(p)[0];
                    b.lemma_filter_pred(p, 0);
                    assert(b.filter(p).contains(y));
                    b.lemma_filter_contains_rev(p, y);
                    let j = choose|j: int| 0 <= j < b.len() && b[j] == y;
                    assert(head[k + j].place > x.place);
                }
            }
            assert((a.filter(p) + seq![x]) + seq![] =~= (a.filter(p) + seq![]) + seq![x]);
        } else {
            assert((a.filter(p) + seq![]) + b.filter(p) =~= a.filter(p) + b.filter(p));
            assert(front.filter(p) + seq![] =~= front.filter(p));
        }
    }
}

/// An event goes on the record of rejected ones with the very reason for which it
/// was rejected, and exactly if it has an id and that reason neither is that the
/// room is unknown nor tells of a state without a create event.
pub proof fn law_recorded_rejections(event_id: Seq<char>, reason: Seq<char>)
    ensures
        recorded_reason(event_id, OutcomeView::Rejected(reason)) == (if event_id.len() > 0 && reason
            != "unknown room"@ && !(exists|i: int|
            0 <= i <= reason.len() - "no m.room.create in state"@.len()
                && #[trigger] reason.subrange(i, i + "no m.room.create in state"@.len())
                == "no m.room.create in state"@) {
            Some(reason)
        } else {
            None
        }),
        recorded_reason(event_id, OutcomeView::Accepted) is None,
        recorded_reason(event_id, OutcomeView::SoftFailed) is None,
{
}

} // verus!
