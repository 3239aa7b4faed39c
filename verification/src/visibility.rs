//! History visibility: which events a server may see in full.

use vstd::prelude::*;
use vstd::string::*;

use crate::json::Json;
use crate::json::JsonView;
use crate::pdu::belongs_to;
use crate::pdu::id_belongs_to;
use crate::text::list_has;
use crate::text::str_eq;
use crate::text::texts;

verus! {

/// An event of the state at another event: its type, and the event if it can be
/// read.
pub struct StateEvent {
    pub event_type: String,
    pub json: Option<Json>,
}

/// The mathematical value of an event of the state at another event.
pub struct StateEventView {
    pub event_type: Seq<char>,
    pub json: Option<JsonView>,
}

impl StateEvent {
    pub open spec fn view(&self) -> StateEventView {
        StateEventView {
            event_type: self.event_type@,
            json: match self.json {
                Some(j) => Some(j@),
                None => None,
            },
        }
    }
}

pub open spec fn state_views(v: Seq<StateEvent>) -> Seq<StateEventView> {
    v.map_values(|e: StateEvent| e@)
}

/// The state at an event, if there is a record of it.
pub open spec fn opt_state(state: Option<&Vec<StateEvent>>) -> Option<Seq<StateEventView>> {
    match state {
        Some(s) => Some(state_views(s@)),
        None => None,
    }
}

/// Whether an event is a readable one of a type.
pub open spec fn is_readable_of(e: StateEventView, event_type: Seq<char>) -> bool {
    e.event_type == event_type && e.json is Some
}

/// What a visibility event says.
pub open spec fn stated_visibility(event: JsonView) -> Seq<char> {
    match event.str_within("content"@, "history_visibility"@) {
        Some(v) => v,
        None => "shared"@,
    }
}

/// The history visibility in some state: what the first readable event about it
/// says, shared if there is none or it says nothing.
pub open spec fn visibility_in(state: Seq<StateEventView>) -> Seq<char>
    decreases state.len(),
{
    if state.len() == 0 {
        "shared"@
    } else if is_readable_of(state[0], "m.room.history_visibility"@) {
        stated_visibility(state[0].json->0)
    } else {
        visibility_in(state.drop_first())
    }
}

/// The history visibility in some state.
pub fn find_history_visibility_in_state(state: &Vec<StateEvent>) -> (r: String)
    ensures
        r@ == visibility_in(state_views(state@)),
{
    let ghost v = state_views(state@);
    let mut i: usize = 0;
    proof {
        assert(v.skip(0) =~= v);
    }
    while i < state.len()
        invariant
            i <= state.len(),
            v == state_views(state@),
            visibility_in(v) == visibility_in(v.skip(i as int)),
        decreases state.len() - i,
    {
        proof {
            assert(v.skip(i as int)[0] == state@[i as int]@);
            assert(v.skip(i as int).drop_first() =~= v.skip(i + 1));
        }
        if str_eq(state[i].event_type.as_str(), "m.room.history_visibility") {
            match &state[i].json {
                Some(j) => {
                    return match j.str_within("content", "history_visibility") {
                        Some(v) => v.to_owned(),
                        None => "shared".to_owned(),
                    };
                },
                None => {},
            }
        }
        i += 1;
    }
    "shared".to_owned()
}

/// Whether an event is the membership of a user of a server, and one of some.
pub open spec fn is_membership(e: StateEventView, server: Seq<char>, wanted: Seq<Seq<char>>) -> bool {
    &&& is_readable_of(e, "m.room.member"@)
    &&& {
        let j = e.json->0;
        &&& j.str_at("state_key"@) is Some
        &&& belongs_to(j.str_at("state_key"@)->0, server)
        &&& wanted.contains(
            match j.str_within("content"@, "membership"@) {
                Some(m) => m,
                None => ""@,
            },
        )
    }
}

/// Whether a user of a server has one of some memberships in some state.
pub open spec fn has_membership(
    state: Seq<StateEventView>,
    server: Seq<char>,
    wanted: Seq<Seq<char>>,
) -> bool {
    exists|i: int| 0 <= i < state.len() && is_membership(#[trigger] state[i], server, wanted)
}

/// Whether a user of a server has one of some memberships in some state.
pub fn origin_has_member_with_membership(
    state: &Vec<StateEvent>,
    origin: &str,
    wanted: &Vec<String>,
) -> (r: bool)
    ensures
        r == has_membership(state_views(state@), origin@, texts(wanted@)),
{
    let ghost v = state_views(state@);
    let mut i: usize = 0;
    while i < state.len()
        invariant
            i <= state.len(),
            v == state_views(state@),
            forall|j: int| 0 <= j < i ==> !is_membership(#[trigger] v[j], origin@, texts(wanted@)),
        decreases state.len() - i,
    {
        proof {
            assert(v[i as int] == state@[i as int]@);
        }
        if str_eq(state[i].event_type.as_str(), "m.room.member") {
            match &state[i].json {
                Some(j) => match j.str_at("state_key") {
                    Some(key) => {
                        if id_belongs_to(key, origin) {
                            let membership = match j.str_within("content", "membership") {
                                Some(m) => m,
                                None => "",
                            };
                            if list_has(wanted, membership) {
                                proof {
                                    assert(is_membership(v[i as int], origin@, texts(wanted@)));
                                }
                                return true;
                            }
                        }
                    },
                    None => {},
                },
                None => {},
            }
        }
        i += 1;
    }
    false
}

/// Whether an event is hidden from a server: under the visibility at the event,
/// none of its users could see it. Without a record of the state at the event
/// nothing is hidden.
pub open spec fn hidden_from(state: Option<Seq<StateEventView>>, origin: Seq<char>) -> bool {
    match state {
        None => false,
        Some(s) => {
            let v = visibility_in(s);
            if v == "joined"@ {
                !has_membership(s, origin, seq!["join"@])
            } else if v == "invited"@ {
                !has_membership(s, origin, seq!["join"@, "invite"@])
            } else {
                false
            }
        },
    }
}

/// Whether an event is to be redacted for a server.
pub fn should_redact_for_origin(state: Option<&Vec<StateEvent>>, origin: &str) -> (r: bool)
    ensures
        r == hidden_from(opt_state(state), origin@),
{
    let state = match state {
        None => {
            return false;
        },
        Some(s) => s,
    };
    proof {
        reveal_strlit("joined");
        reveal_strlit("invited");
        assert("joined"@.len() != "invited"@.len());
    }
    let v = find_history_visibility_in_state(state);
    let mut wanted: Vec<String> = Vec::new();
    wanted.push("join".to_owned());
    if str_eq(v.as_str(), "joined") {
        proof {
            assert(texts(wanted@) =~= seq!["join"@]);
        }
        !origin_has_member_with_membership(state, origin, &wanted)
    } else if str_eq(v.as_str(), "invited") {
        wanted.push("invite".to_owned());
        proof {
            assert(texts(wanted@) =~= seq!["join"@, "invite"@]);
        }
        !origin_has_member_with_membership(state, origin, &wanted)
    } else {
        false
    }
}

/// A server with a joined user at an event sees the event, whatever the
/// visibility.
pub proof fn law_members_see(state: Seq<StateEventView>, origin: Seq<char>)
    requires
        has_membership(state, origin, seq!["join"@]),
    ensures
        !hidden_from(Some(state), origin),
{
    let i = choose|i: int|
        0 <= i < state.len() && is_membership(#[trigger] state[i], origin, seq!["join"@]);
    let m = match state[i].json->0.str_within("content"@, "membership"@) {
        Some(m) => m,
        None => ""@,
    };
    let one = seq!["join"@];
    let j = choose|j: int| 0 <= j < one.len() && one[j] == m;
    assert(m == "join"@);
    assert(seq!["join"@, "invite"@][0] == m);
    assert(is_membership(state[i], origin, seq!["join"@, "invite"@]));
}

/// Whether a function redacts as another describes.
pub open spec fn redacts_by<R: Fn(&Json) -> Json>(
    redact: R,
    g: spec_fn(JsonView) -> JsonView,
) -> bool {
    forall|e: &Json, a: Json| #[trigger] redact.ensures((e,), a) ==> a@ == g(e@)
}

/// An event as a server may see it: redacted, as `g` does it, if the state at the
/// event hides it from the server, as it is otherwise.
pub open spec fn seen_by(
    state: Option<Seq<StateEventView>>,
    origin: Seq<char>,
    event: JsonView,
    g: spec_fn(JsonView) -> JsonView,
) -> JsonView {
    if hidden_from(state, origin) {
        g(event)
    } else {
        event
    }
}

/// An event as a server may see it: redacted if the state at the event hides it
/// from the server, as it is otherwise.
pub fn redact_for_origin_if_hidden<R: Fn(&Json) -> Json>(
    state: Option<&Vec<StateEvent>>,
    origin: &str,
    event: &Json,
    redact: R,
) -> (r: Json)
    requires
        forall|e: &Json| #[trigger] redact.requires((e,)),
    ensures
        forall|g: spec_fn(JsonView) -> JsonView| #[trigger]
            redacts_by(redact, g) ==> r@ == seen_by(opt_state(state), origin@, event@, g),
{
    if should_redact_for_origin(state, origin) {
        redact(event)
    } else {
        event.copy()
    }
}

/// The visibility in some state is what the first readable event about it says;
/// where there is none, or it says nothing, the history is shared.
pub proof fn law_visibility(state: Seq<StateEventView>)
    ensures
        ({
            let v = visibility_in(state);
            ||| exists|i: int|
                0 <= i < state.len() && (#[trigger] state[i]).event_type
                    == "m.room.history_visibility"@ && (state[i].json matches Some(j) && (j.get(
                    "content"@,
                ) matches Some(c) && c.get("history_visibility"@) == Some(JsonView::Str(v))))
                    && forall|k: int|
                    0 <= k < i ==> !((#[trigger] state[k]).event_type
                        == "m.room.history_visibility"@ && state[k].json is Some)
            ||| v == "shared"@ && exists|i: int|
                0 <= i < state.len() && (#[trigger] state[i]).event_type
                    == "m.room.history_visibility"@ && (state[i].json matches Some(j) && !(j.get(
                    "content"@,
                ) matches Some(c) && c.get("history_visibility"@) matches Some(JsonView::Str(_))))
                    && forall|k: int|
                    0 <= k < i ==> !((#[trigger] state[k]).event_type
                        == "m.room.history_visibility"@ && state[k].json is Some)
            ||| v == "shared"@ && forall|k: int|
                0 <= k < state.len() ==> !((#[trigger] state[k]).event_type
                    == "m.room.history_visibility"@ && state[k].json is Some)
        }),
{
    let i = lemma_first_visibility(state);
    if i < state.len() {
        assert(state[i].json is Some);
    }
}

proof fn lemma_first_visibility(state: Seq<StateEventView>) -> (i: int)
    ensures
        0 <= i <= state.len(),
        forall|k: int| 0 <= k < i ==> !is_readable_of(
            #[trigger] state[k],
            "m.room.history_visibility"@,
        ),
        i < state.len() ==> is_readable_of(state[i], "m.room.history_visibility"@)
            && visibility_in(state) == stated_visibility(state[i].json->0),
        i == state.len() ==> visibility_in(state) == "shared"@,
    decreases state.len(),
{
    if state.len() == 0 {
        0
    } else if is_readable_of(state[0], "m.room.history_visibility"@) {
        0
    } else {
        let rest = state.drop_first();
        let i = lemma_first_visibility(rest);
        assert forall|k: int| 0 <= k < i + 1 implies !is_readable_of(
            #[trigger] state[k],
            "m.room.history_visibility"@,
        ) by {
            if k > 0 {
                assert(rest[k - 1] == state[k]);
            }
        }
        i + 1
    }
}

/// Whether a member event of a user of a server with a membership is in some state.
pub open spec fn has_member_as(
    state: Seq<StateEventView>,
    server: Seq<char>,
    membership: Seq<char>,
) -> bool {
    exists|i: int|
        0 <= i < state.len() && (#[trigger] state[i]).event_type == "m.room.member"@ && (
        state[i].json matches Some(j) && (j.get("state_key"@) matches Some(JsonView::Str(u))
            && belongs_to(u, server) && (j.get("content"@) matches Some(c) && c.get("membership"@)
            == Some(JsonView::Str(membership)))))
}

/// An event is hidden from a server exactly if its history was for joined members
/// only and none of the server's users was joined at it, or for invited ones and
/// none was joined or invited; where the state at it is not known nothing is hidden.
pub proof fn law_hidden(state: Seq<StateEventView>, origin: Seq<char>)
    ensures
        !hidden_from(None, origin),
        hidden_from(Some(state), origin) <==> {
            ||| visibility_in(state) == "joined"@ && !has_member_as(state, origin, "join"@)
            ||| visibility_in(state) == "invited"@ && !has_member_as(state, origin, "join"@)
                && !has_member_as(state, origin, "invite"@)
        },
{
    reveal_strlit("joined");
    reveal_strlit("invited");
    reveal_strlit("join");
    reveal_strlit("invite");
    reveal_strlit("");
    assert("joined"@.len() == 6 && "invited"@.len() == 7);
    let one = seq!["join"@];
    let two = seq!["join"@, "invite"@];
    assert(one[0] == "join"@ && two[0] == "join"@ && two[1] == "invite"@);
    assert("join"@.len() == 4 && "invite"@.len() == 6 && ""@.len() == 0);
    assert forall|m: Seq<char>| #[trigger] one.contains(m) <==> m == "join"@ by {
        if m == "join"@ {
            assert(one[0] == m);
        }
    }
    assert forall|m: Seq<char>| #[trigger] two.contains(m) <==> m == "join"@ || m == "invite"@ by {
        if m == "join"@ {
            assert(two[0] == m);
        }
        if m == "invite"@ {
            assert(two[1] == m);
        }
    }
    if has_member_as(state, origin, "join"@) {
        lemma_has_member_as(state, origin, one, "join"@);
        lemma_has_member_as(state, origin, two, "join"@);
    }
    if has_member_as(state, origin, "invite"@) {
        lemma_has_member_as(state, origin, two, "invite"@);
    }
    if has_membership(state, origin, one) {
        let i = choose|i: int|
            0 <= i < state.len() && is_membership(#[trigger] state[i], origin, one);
        assert(state[i].event_type == "m.room.member"@);
        assert(has_member_as(state, origin, "join"@));
    }
    if has_membership(state, origin, two) {
        let i = choose|i: int|
            0 <= i < state.len() && is_membership(#[trigger] state[i], origin, two);
        assert(state[i].event_type == "m.room.member"@);
        let j = state[i].json->0;
        let m = j.str_within("content"@, "membership"@)->0;
        if m == "join"@ {
            assert(has_member_as(state, origin, "join"@));
        } else {
            assert(has_member_as(state, origin, "invite"@));
        }
    }
}

proof fn lemma_has_member_as(
    state: Seq<StateEventView>,
    origin: Seq<char>,
    wanted: Seq<Seq<char>>,
    m: Seq<char>,
)
    requires
        wanted.contains(m),
        has_member_as(state, origin, m),
    ensures
        has_membership(state, origin, wanted),
{
    let i = choose|i: int|
        0 <= i < state.len() && (#[trigger] state[i]).event_type == "m.room.member"@ && (
        state[i].json matches Some(j) && (j.get("state_key"@) matches Some(JsonView::Str(u))
            && belongs_to(u, origin) && (j.get("content"@) matches Some(c) && c.get("membership"@)
            == Some(JsonView::Str(m)))));
    assert(is_membership(state[i], origin, wanted));
}

} // verus!
