//! Fetching a room's past: whom to ask, and what is kept of the answer.

use vstd::prelude::*;
use vstd::string::*;

use crate::gaps::by_depth;
use crate::gaps::depth_sorted;
use crate::gaps::law_by_depth;
use crate::gaps::sort_by_depth;
use crate::intake::becomes_extremity;
use crate::intake::intake;
use crate::intake::next_intake;
use crate::intake::FaultView;
use crate::intake::Intake;
use crate::intake::IntakeFault;
use crate::intake::IntakeStep;
use crate::intake::IntakeView;
use crate::intake::PersistKind;
use crate::join::copy_values;
use crate::json::values;
use crate::json::Json;
use crate::json::JsonView;
use crate::persist::effects;
use crate::persist::past_effects;
use crate::persist::persist_past_event;
use crate::persist::Effect;
use crate::persist::EffectView;
use crate::text::cat;
use crate::text::chars_of;
use crate::text::str_eq;
use crate::text::texts;

verus! {

/// How many events one request for a room's past asks for.
pub const BACKFILL_LIMIT: usize = 50;

/// What is known so far about an event of a room's past.
pub struct BackfilledFacts {
    pub intake: Intake,
    /// The result of storing the event: what failed, if anything.
    pub stored: Option<Option<String>>,
}

/// What to find out or to do next about an event of a room's past.
pub enum BackfilledStep {
    /// One of the common checks.
    Check(IntakeStep),
    /// Store the event in this way, and do what that entails.
    Store { kind: PersistKind, effects: Vec<Effect> },
    /// The event is stored; `true` if it was not before.
    Done(bool),
    /// The event is skipped.
    Skipped { reason: String },
}

pub enum BackfilledView {
    Check(IntakeView),
    Store { kind: PersistKind, effects: Seq<EffectView> },
    Done(bool),
    Skipped { reason: Seq<char> },
}

impl BackfilledStep {
    pub open spec fn view(&self) -> BackfilledView {
        match self {
            BackfilledStep::Check(s) => BackfilledView::Check(s@),
            BackfilledStep::Store { kind, effects: e } => BackfilledView::Store {
                kind: *kind,
                effects: effects(e@),
            },
            BackfilledStep::Done(b) => BackfilledView::Done(*b),
            BackfilledStep::Skipped { reason } => BackfilledView::Skipped { reason: reason@ },
        }
    }
}

/// The words for a fault of an event of a room's past.
pub open spec fn backfilled_fault(f: FaultView) -> Seq<char> {
    match f {
        FaultView::NotObject => "event is not an object"@,
        FaultView::StoreFailed { reason } => "db: "@ + reason,
        FaultView::Malformed => "malformed"@,
        FaultView::BadSender => "malformed sender"@,
        FaultView::NoKeys { server, reason } => "fetch keys: "@ + reason,
        FaultView::Unsigned { server } => "no signatures from "@ + server,
        FaultView::Unverified { event_id } => "signature verify failed for "@ + event_id,
        FaultView::MalformedAfterHash => "malformed after hash check"@,
    }
}

fn backfilled_fault_text(f: &IntakeFault) -> (r: String)
    ensures
        r@ == backfilled_fault(f@),
{
    match f {
        IntakeFault::NotObject => "event is not an object".to_owned(),
        IntakeFault::StoreFailed { reason } => cat("db: ", reason.as_str()),
        IntakeFault::Malformed => "malformed".to_owned(),
        IntakeFault::BadSender => "malformed sender".to_owned(),
        IntakeFault::NoKeys { server: _, reason } => cat("fetch keys: ", reason.as_str()),
        IntakeFault::Unsigned { server } => cat("no signatures from ", server.as_str()),
        IntakeFault::Unverified { event_id } => cat(
            "signature verify failed for ",
            event_id.as_str(),
        ),
        IntakeFault::MalformedAfterHash => "malformed after hash check".to_owned(),
    }
}

/// What comes next for an event of a room's past: the common checks, then its
/// storing on the timeline of the past. The rules are not applied to it: it is
/// context.
pub open spec fn backfilled_next(f: BackfilledFacts) -> BackfilledView {
    match intake(f.intake) {
        IntakeView::Known => BackfilledView::Done(false),
        IntakeView::Fault(fault) => BackfilledView::Skipped { reason: backfilled_fault(fault) },
        IntakeView::Passed => match f.stored {
            None => BackfilledView::Store {
                kind: PersistKind::BackfillTimeline,
                effects: past_effects(f.intake.effective->0->0@),
            },
            Some(Some(e)) => BackfilledView::Skipped { reason: e@ },
            Some(None) => BackfilledView::Done(true),
        },
        step => BackfilledView::Check(step),
    }
}

/// Names what to find out or to do next about an event of a room's past, or
/// what became of it.
pub fn persist_one(f: &BackfilledFacts) -> (r: BackfilledStep)
    ensures
        r@ == backfilled_next(*f),
{
    match next_intake(&f.intake) {
        IntakeStep::Known => BackfilledStep::Done(false),
        IntakeStep::Fault(fault) => BackfilledStep::Skipped {
            reason: backfilled_fault_text(&fault),
        },
        IntakeStep::Passed => match (&f.stored, &f.intake.effective) {
            (None, Some(Some(pdu))) => BackfilledStep::Store {
                kind: PersistKind::BackfillTimeline,
                effects: persist_past_event(pdu),
            },
            (Some(Some(e)), _) => BackfilledStep::Skipped { reason: e.clone() },
            (_, _) => BackfilledStep::Done(true),
        },
        step => BackfilledStep::Check(step),
    }
}

/// The past does not disturb the present: an event of a room's past is no forward
/// extremity, does not change the room's state, and nobody is told of it; at
/// most it is indexed under the event that it relates to.
pub proof fn law_the_past_stays_past(f: BackfilledFacts)
    requires
        backfilled_next(f) is Store,
    ensures
        !becomes_extremity(backfilled_next(f)->kind),
        forall|e: EffectView|
            #![trigger backfilled_next(f)->effects.contains(e)]
            backfilled_next(f)->effects.contains(e) ==> e is RelatePast,
{
}

/// The events of a reply in the order in which they are stored: ancestors
/// before descendants.
pub fn persist_backfilled(pdus: &Vec<Json>) -> (r: Vec<Json>)
    ensures
        values(r@) == by_depth(values(pdus@), 0),
{
    sort_by_depth(pdus, 0)
}

/// Whether a server may be asked for a room's past: it is in the room, or, while
/// the room's state is being fetched, is said to be, and is not this one.
pub open spec fn may_ask(
    remote: Seq<Seq<char>>,
    hints: Option<Seq<Seq<char>>>,
    us: Seq<char>,
    x: Seq<char>,
) -> bool {
    ||| remote.contains(x)
    ||| hints is Some && hints->0.contains(x) && x != us
}

/// Whether a text comes before another in the order of their characters.
pub open spec fn text_before(a: Seq<char>, b: Seq<char>) -> bool
    decreases a.len(),
{
    if b.len() == 0 {
        false
    } else if a.len() == 0 {
        true
    } else if a[0] != b[0] {
        a[0] < b[0]
    } else {
        text_before(a.drop_first(), b.drop_first())
    }
}

proof fn lemma_before_total(a: Seq<char>, b: Seq<char>)
    ensures
        text_before(a, b) || text_before(b, a) || a == b,
    decreases a.len(),
{
    if a.len() > 0 && b.len() > 0 && a[0] == b[0] {
        lemma_before_total(a.drop_first(), b.drop_first());
        if a.drop_first() == b.drop_first() {
            assert(a =~= seq![a[0]] + a.drop_first());
            assert(b =~= seq![b[0]] + b.drop_first());
        }
    } else if a.len() == 0 && b.len() == 0 {
        assert(a =~= b);
    }
}

proof fn lemma_before_chain(a: Seq<char>, b: Seq<char>, c: Seq<char>)
    requires
        text_before(a, b),
        text_before(b, c),
    ensures
        text_before(a, c),
    decreases a.len(),
{
    if a.len() > 0 && a[0] == b[0] && b[0] == c[0] {
        lemma_before_chain(a.drop_first(), b.drop_first(), c.drop_first());
    }
}

fn is_before(a: &str, b: &str) -> (r: bool)
    ensures
        r == text_before(a@, b@),
{
    let x = chars_of(a);
    let y = chars_of(b);
    let mut i: usize = 0;
    proof {
        assert(a@.skip(0) =~= a@);
        assert(b@.skip(0) =~= b@);
    }
    while i < x.len() && i < y.len() && x[i] == y[i]
        invariant
            i <= x.len(),
            i <= y.len(),
            x@ == a@,
            y@ == b@,
            text_before(a@, b@) == text_before(a@.skip(i as int), b@.skip(i as int)),
        decreases x.len() - i,
    {
        proof {
            assert(a@.skip(i as int).drop_first() =~= a@.skip(i + 1));
            assert(b@.skip(i as int).drop_first() =~= b@.skip(i + 1));
        }
        i += 1;
    }
    if i >= y.len() {
        false
    } else if i >= x.len() {
        true
    } else {
        x[i] < y[i]
    }
}

/// Whether a list is in order, without repeats.
pub open spec fn in_order(v: Seq<Seq<char>>) -> bool {
    forall|i: int, j: int| 0 <= i < j < v.len() ==> text_before(#[trigger] v[i], #[trigger] v[j])
}

fn insert_in_order(v: &mut Vec<String>, s: &str)
    requires
        in_order(texts(old(v)@)),
    ensures
        in_order(texts(final(v)@)),
        forall|x: Seq<char>|
            #![trigger texts(final(v)@).contains(x)]
            texts(final(v)@).contains(x) <==> texts(old(v)@).contains(x) || x == s@,
{
    let ghost t = texts(v@);
    let mut i: usize = 0;
    while i < v.len() && is_before(v[i].as_str(), s)
        invariant
            i <= v.len(),
            t == texts(v@),
            *v == *old(v),
            forall|j: int| 0 <= j < i ==> text_before(#[trigger] t[j], s@),
        decreases v.len() - i,
    {
        i += 1;
    }
    if i < v.len() && str_eq(v[i].as_str(), s) {
        proof {
            assert(t[i as int] == s@);
        }
        return;
    }
    proof {
        if i < v@.len() {
            lemma_before_total(t[i as int], s@);
        }
    }
    v.insert(i, s.to_owned());
    proof {
        let r = texts(v@);
        assert(r =~= t.insert(i as int, s@));
        assert forall|a: int, b: int| 0 <= a < b < r.len() implies text_before(
            #[trigger] r[a],
            #[trigger] r[b],
        ) by {
            if a < i {
                assert(r[a] == t[a]);
            } else if a > i {
                assert(r[a] == t[a - 1]);
            }
            if b < i {
                assert(r[b] == t[b]);
            } else if b > i {
                assert(r[b] == t[b - 1]);
            }
            if a == i && b > i + 1 {
                assert(text_before(t[i as int], t[b - 1]));
                lemma_before_chain(s@, t[i as int], t[b - 1]);
            }
        }
        assert forall|x: Seq<char>| #![trigger r.contains(x)] r.contains(x) <==> t.contains(x) || x == s@ by {
            if r.contains(x) {
                let k = choose|k: int| 0 <= k < r.len() && r[k] == x;
                if k < i {
                    assert(t[k] == x);
                } else if k > i {
                    assert(t[k - 1] == x);
                }
            }
            if t.contains(x) {
                let k = choose|k: int| 0 <= k < t.len() && t[k] == x;
                if k < i {
                    assert(r[k] == x);
                } else {
                    assert(r[k + 1] == x);
                }
            }
            if x == s@ {
                assert(r[i as int] == x);
            }
        }
    }
}

proof fn lemma_take_contains(s: Seq<Seq<char>>, i: int, x: Seq<char>)
    requires
        0 <= i < s.len(),
    ensures
        s.take(i + 1).contains(x) <==> s.take(i).contains(x) || x == s[i],
{
    let longer = s.take(i + 1);
    let shorter = s.take(i);
    if longer.contains(x) {
        let k = choose|k: int| 0 <= k < longer.len() && longer[k] == x;
        if k < i {
            assert(s.take(i)[k] == x);
        }
    }
    if s.take(i).contains(x) {
        let k = choose|k: int| 0 <= k < shorter.len() && shorter[k] == x;
        assert(s.take(i + 1)[k] == x);
    }
    if x == s[i] {
        assert(s.take(i + 1)[i] == x);
    }
}

/// The servers to ask for a room's past, in order, each once.
pub fn backfill_candidates(remote: &Vec<String>, hints: Option<&Vec<String>>, us: &str) -> (r: Vec<
    String,
>)
    ensures
        in_order(texts(r@)),
        forall|x: Seq<char>|
            #![trigger texts(r@).contains(x)]
            texts(r@).contains(x) <==> may_ask(
                texts(remote@),
                match hints {
                    Some(h) => Some(texts(h@)),
                    None => None,
                },
                us@,
                x,
            ),
{
    let mut out: Vec<String> = Vec::new();
    let ghost t = texts(remote@);
    let mut i: usize = 0;
    while i < remote.len()
        invariant
            i <= remote.len(),
            t == texts(remote@),
            in_order(texts(out@)),
            forall|x: Seq<char>|
                #![trigger texts(out@).contains(x)]
                texts(out@).contains(x) <==> t.take(i as int).contains(x),
        decreases remote.len() - i,
    {
        insert_in_order(&mut out, remote[i].as_str());
        proof {
            assert forall|x: Seq<char>| #![trigger texts(out@).contains(x)]
                texts(out@).contains(x) <==> t.take(i + 1).contains(x) by {
                lemma_take_contains(t, i as int, x);
            }
        }
        i += 1;
    }
    proof {
        assert(t.take(i as int) =~= t);
    }
    match hints {
        None => {},
        Some(h) => {
            let ghost ht = texts(h@);
            let mut j: usize = 0;
            while j < h.len()
                invariant
                    j <= h.len(),
                    ht == texts(h@),
                    in_order(texts(out@)),
                    forall|x: Seq<char>|
                        #![trigger texts(out@).contains(x)]
                        texts(out@).contains(x) <==> t.contains(x) || (ht.take(j as int).contains(x)
                            && x != us@),
                decreases h.len() - j,
            {
                let ghost before = texts(out@);
                if !str_eq(h[j].as_str(), us) {
                    insert_in_order(&mut out, h[j].as_str());
                }
                proof {
                    assert forall|x: Seq<char>| #![trigger texts(out@).contains(x)]
                        texts(out@).contains(x) <==> t.contains(x) || (ht.take(j + 1).contains(x)
                            && x != us@) by {
                        lemma_take_contains(ht, j as int, x);
                        assert(before.contains(x) <==> t.contains(x) || (ht.take(j as int).contains(
                            x,
                        ) && x != us@));
                    }
                }
                j += 1;
            }
            proof {
                assert(ht.take(j as int) =~= ht);
            }
        },
    }
    out
}

/// What is known so far about the fetching of a room's past.
pub struct BackfillFacts {
    /// The servers to ask, in order.
    pub servers: Vec<String>,
    /// The events before which the past is asked for.
    pub from_event_ids: Vec<String>,
    /// How many events are wanted.
    pub limit: usize,
    /// The reply, once it is there: a document, or `None` for a failed request.
    pub reply: Option<Option<Json>>,
    /// For each event that was to be stored, in order, whether it was stored and
    /// had not been before.
    pub taken: Option<Vec<bool>>,
}

/// What is next in fetching a room's past.
pub enum BackfillStep {
    /// Ask a server for that many events.
    Ask { server: String, limit: usize },
    /// Store these events, in this order.
    Store { events: Vec<Json> },
    /// That many events were stored.
    Done(usize),
}

pub enum BackfillView {
    Ask { server: Seq<char>, limit: usize },
    Store { events: Seq<JsonView> },
    Done(nat),
}

impl BackfillStep {
    pub open spec fn view(&self) -> BackfillView {
        match self {
            BackfillStep::Ask { server, limit } => BackfillView::Ask {
                server: server@,
                limit: *limit,
            },
            BackfillStep::Store { events } => BackfillView::Store { events: values(events@) },
            BackfillStep::Done(n) => BackfillView::Done(*n as nat),
        }
    }
}

/// The events that a reply carries.
pub open spec fn reply_events(reply: Option<Json>) -> Seq<JsonView> {
    match reply {
        Some(v) => match v@.array_at("pdus"@) {
            Some(a) => a,
            None => seq![],
        },
        None => seq![],
    }
}

/// The events of a reply that are kept: no more than were asked for.
pub open spec fn kept_events(reply: Option<Json>, limit: usize) -> Seq<JsonView> {
    if reply_events(reply).len() > limit {
        reply_events(reply).take(limit as int)
    } else {
        reply_events(reply)
    }
}

/// How many of the first `n` events were stored anew.
pub open spec fn stored_anew(taken: Seq<bool>, n: int) -> nat
    decreases n,
{
    if n <= 0 {
        0
    } else if n <= taken.len() && taken[n - 1] {
        stored_anew(taken, n - 1) + 1
    } else {
        stored_anew(taken, n - 1)
    }
}

/// How a room's past is fetched: one server is asked, once. If the request fails
/// or brings no events, none are stored.
pub open spec fn backfill_next(f: BackfillFacts) -> BackfillView {
    if f.from_event_ids@.len() == 0 || f.servers@.len() == 0 {
        BackfillView::Done(0)
    } else {
        match f.reply {
            None => BackfillView::Ask { server: f.servers@[0]@, limit: f.limit },
            Some(reply) => if kept_events(reply, f.limit).len() == 0 {
                BackfillView::Done(0)
            } else {
                match f.taken {
                    None => BackfillView::Store {
                        events: by_depth(kept_events(reply, f.limit), 0),
                    },
                    Some(taken) => BackfillView::Done(
                        stored_anew(taken@, kept_events(reply, f.limit).len() as int),
                    ),
                }
            },
        }
    }
}

fn count_anew(taken: &Vec<bool>, n: usize) -> (r: usize)
    ensures
        r == stored_anew(taken@, n as int),
{
    let mut count: usize = 0;
    let mut i: usize = 0;
    while i < n
        invariant
            i <= n,
            count <= i,
            count == stored_anew(taken@, i as int),
        decreases n - i,
    {
        if i < taken.len() && taken[i] {
            count += 1;
        }
        i += 1;
    }
    count
}

/// Names what is next in fetching a room's past.
pub fn attempt_backfill(f: &BackfillFacts) -> (r: BackfillStep)
    ensures
        r@ == backfill_next(*f),
{
    if f.from_event_ids.len() == 0 || f.servers.len() == 0 {
        return BackfillStep::Done(0);
    }
    let reply = match &f.reply {
        None => {
            return BackfillStep::Ask { server: f.servers[0].clone(), limit: f.limit };
        },
        Some(None) => {
            return BackfillStep::Done(0);
        },
        Some(Some(v)) => v,
    };
    match reply.array_at("pdus") {
        Some(v) => {
            proof {
                assert(values(v@).len() == v@.len());
            }
            let n: usize = if v.len() > f.limit {
                f.limit
            } else {
                v.len()
            };
            if n == 0 {
                return BackfillStep::Done(0);
            }
            match &f.taken {
                None => {
                    let mut kept = copy_values(v);
                    let ghost all = kept@;
                    kept.truncate(n);
                    proof {
                        assert(values(all).len() == all.len());
                        assert(values(kept@) =~= values(v@).take(n as int));
                        assert(values(v@).take(n as int) =~= kept_events(f.reply->0, f.limit));
                    }
                    BackfillStep::Store { events: persist_backfilled(&kept) }
                },
                Some(taken) => BackfillStep::Done(count_anew(taken, n)),
            }
        },
        None => BackfillStep::Done(0),
    }
}

proof fn lemma_stored_anew(taken: Seq<bool>, n: int)
    requires
        0 <= n,
    ensures
        stored_anew(taken, n) <= n,
    decreases n,
{
    if n > 0 {
        lemma_stored_anew(taken, n - 1);
    }
}

/// However much a server answers, no more events of a room's past are stored, or
/// reported as stored, than were asked for, and ancestors come first.
pub proof fn law_past_is_bounded(f: BackfillFacts)
    ensures
        match backfill_next(f) {
            BackfillView::Ask { limit, .. } => limit == f.limit,
            BackfillView::Store { events } => events.len() <= f.limit && depth_sorted(events, 0),
            BackfillView::Done(n) => n <= f.limit,
        },
{
    match f.reply {
        Some(reply) => {
            let kept = kept_events(reply, f.limit);
            law_by_depth(kept, 0);
            match f.taken {
                Some(taken) => {
                    lemma_stored_anew(taken@, kept.len() as int);
                },
                None => {},
            }
        },
        None => {},
    }
}

/// Of the past that a server tells, the first events are kept, as many as were
/// asked for, and stored by depth; that is done only if there was something to ask
/// for and somebody to ask, and then the first server is asked.
pub proof fn law_past_is_fetched(f: BackfillFacts)
    ensures
        ({
            let asked = f.from_event_ids@.len() > 0 && f.servers@.len() > 0;
            let s = backfill_next(f);
            &&& !asked ==> s == BackfillView::Done(0)
            &&& s is Ask <==> asked && f.reply is None
            &&& s matches BackfillView::Ask { server, limit } ==> server == f.servers@[0]@ && limit
                == f.limit
            &&& asked && f.taken is None && (f.reply matches Some(Some(reply)) && (reply@.get(
                "pdus"@,
            ) matches Some(JsonView::Array(v)) && v.len() > 0 && f.limit > 0)) ==> s is Store
            &&& s matches BackfillView::Store { events } ==> (f.reply matches Some(Some(reply)) && (
            reply@.get("pdus"@) matches Some(JsonView::Array(v)) && events == by_depth(
                v.take(
                    if v.len() <= f.limit {
                        v.len() as int
                    } else {
                        f.limit as int
                    },
                ),
                0,
            )))
            &&& asked && (f.taken matches Some(taken) && (f.reply matches Some(Some(reply)) && (
            reply@.get("pdus"@) matches Some(JsonView::Array(v)) && v.len() == taken@.len()
                && v.len() <= f.limit && v.len() > 0))) ==> s == BackfillView::Done(
                f.taken->0@.filter(|b: bool| b).len(),
            )
        }),
{
    if let Some(Some(reply)) = f.reply {
        if let Some(v) = reply@.array_at("pdus"@) {
            assert(v.take(v.len() as int) =~= v);
            if let Some(taken) = f.taken {
                if v.len() == taken@.len() {
                    lemma_count_anew(taken@, taken@.len() as int);
                    assert(taken@.take(taken@.len() as int) =~= taken@);
                }
            }
        }
    }
}

proof fn lemma_count_anew(taken: Seq<bool>, n: int)
    requires
        0 <= n <= taken.len(),
    ensures
        stored_anew(taken, n) == taken.take(n).filter(|b: bool| b).len(),
    decreases n,
{
    reveal(Seq::filter);
    if n > 0 {
        lemma_count_anew(taken, n - 1);
        assert(taken.take(n).drop_last() =~= taken.take(n - 1));
        assert(taken.take(n).last() == taken[n - 1]);
    }
}

/// An event of a room's past is stored, on the timeline of the past, exactly if it
/// passed the common checks and was not stored yet; it counts as new only if it was
/// stored now.
pub proof fn law_past_events(f: BackfilledFacts)
    ensures
        backfilled_next(f) is Store <==> intake(f.intake) is Passed && f.stored is None,
        backfilled_next(f) matches BackfilledView::Store { kind, .. } ==> kind
            == PersistKind::BackfillTimeline,
        backfilled_next(f) == BackfilledView::Done(true) <==> intake(f.intake) is Passed && f.stored
            == Some(None::<String>),
        backfilled_next(f) == BackfilledView::Done(false) <==> intake(f.intake) is Known,
        intake(f.intake) is Fault ==> backfilled_next(f) is Skipped,
{
}

/// The order of texts is total and tells different texts apart: of two of them
/// exactly one comes before the other, and what comes before one that comes before
/// a third comes before that.
pub proof fn law_text_order(a: Seq<char>, b: Seq<char>, c: Seq<char>)
    ensures
        a == b ==> !text_before(a, b),
        a != b ==> (text_before(a, b) <==> !text_before(b, a)),
        text_before(a, b) && text_before(b, c) ==> text_before(a, c),
        a.len() < b.len() && a.is_prefix_of(b) ==> text_before(a, b),
    decreases a.len(),
{
    lemma_before_total(a, b);
    if text_before(a, b) && text_before(b, c) {
        lemma_before_chain(a, b, c);
    }
    if a.len() > 0 && b.len() > 0 {
        law_text_order(a.drop_first(), b.drop_first(), c);
        if a.drop_first() == b.drop_first() && a[0] == b[0] {
            assert(a =~= b);
        }
        if a == b {
            assert(a.drop_first() == b.drop_first());
        }
        if a.len() < b.len() && a.is_prefix_of(b) {
            assert(a[0] == b[0]);
            assert(a.drop_first() =~= b.drop_first().take(a.len() - 1));
        }
    }
}

} // verus!
