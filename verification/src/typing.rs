//! Typing notices: those that are staged for other servers, and those that
//! other servers send.

use vstd::prelude::*;
use vstd::string::*;

use crate::json::lemma_values_push;
use crate::json::members;
use crate::json::opt_json;
use crate::json::put;
use crate::json::values;
use crate::json::Json;
use crate::json::JsonView;
use crate::pdu::belongs_to;
use crate::pdu::id_belongs_to;
use crate::server_acl::acl_refusal;
use crate::server_acl::admits;
use crate::server_acl::check_server_acl;
use crate::server_acl::tells_acls;
use crate::server_acl::RoomAcls;
use crate::server_map::ServerMap;
use crate::table::StateKey;
use crate::table::StateTable;

verus! {

/// The most typing notices that one transaction carries.
pub const MAX_TYPING_ENTRIES_PER_SCAN: usize = 50;

/// The typing notices that are staged for each server: for every room and user
/// the latest one.
pub struct TypingStream {
    pub buffers: ServerMap<StateTable<bool>>,
    pub our_server_name: String,
}

/// Whether a list of servers holds one.
pub open spec fn lists(servers: Seq<String>, s: Seq<char>) -> bool {
    exists|i: int| 0 <= i < servers.len() && (#[trigger] servers[i])@ == s
}

/// What is staged for a server about a room and a user.
pub open spec fn staged(stream: TypingStream, server: Seq<char>, key: StateKey) -> Option<bool> {
    match stream.buffers.find(server) {
        Some(t) => t.find(key),
        None => None,
    }
}

/// What is staged for a server, in order.
pub open spec fn staged_entries(stream: TypingStream, server: Seq<char>) -> Seq<
    ((String, String), bool),
> {
    match stream.buffers.find(server) {
        Some(t) => t.entries@,
        None => seq![],
    }
}

/// A typing notice for another server.
pub open spec fn typing_edu(e: ((String, String), bool)) -> JsonView {
    JsonView::Object(
        seq![
            ("edu_type"@, JsonView::Str("m.typing"@)),
            (
                "content"@,
                JsonView::Object(
                    seq![
                        ("room_id"@, JsonView::Str(e.0.0@)),
                        ("user_id"@, JsonView::Str(e.0.1@)),
                        ("typing"@, JsonView::Bool(e.1)),
                    ],
                ),
            ),
        ],
    )
}

fn build_typing_edu(e: &((String, String), bool)) -> (r: Json)
    ensures
        r@ == typing_edu(*e),
{
    let mut c: Vec<(String, Json)> = Vec::new();
    put(&mut c, "room_id", Json::text(e.0.0.as_str()));
    put(&mut c, "user_id", Json::text(e.0.1.as_str()));
    put(&mut c, "typing", Json::Bool(e.1));
    let ghost inner = seq![
        ("room_id"@, JsonView::Str(e.0.0@)),
        ("user_id"@, JsonView::Str(e.0.1@)),
        ("typing"@, JsonView::Bool(e.1)),
    ];
    proof {
        assert(members(c@) =~= inner);
    }
    let mut m: Vec<(String, Json)> = Vec::new();
    put(&mut m, "edu_type", Json::text("m.typing"));
    put(&mut m, "content", Json::object(c));
    proof {
        assert(members(m@) =~= typing_edu(*e)->Object_0);
    }
    Json::object(m)
}

/// The notices that a scan takes: at most as many as a transaction carries.
pub open spec fn taken(entries: Seq<((String, String), bool)>) -> Seq<JsonView> {
    let n = if entries.len() <= MAX_TYPING_ENTRIES_PER_SCAN {
        entries.len() as int
    } else {
        MAX_TYPING_ENTRIES_PER_SCAN as int
    };
    entries.take(n).map_values(|e: ((String, String), bool)| typing_edu(e))
}

impl TypingStream {
    pub open spec fn wf(self) -> bool {
        &&& self.buffers.wf()
        &&& forall|s: Seq<char>|
            #![trigger self.buffers.find(s)]
            self.buffers.find(s) matches Some(t) ==> t.wf()
    }

    /// A stream with nothing staged.
    pub fn new(our_server_name: String) -> (r: Self)
        ensures
            r.wf(),
            r.our_server_name == our_server_name,
            forall|s: Seq<char>| #[trigger] r.buffers.find(s) is None,
    {
        TypingStream { buffers: ServerMap::new(), our_server_name }
    }

    pub fn name(&self) -> (r: &'static str)
        ensures
            r@ == "typing"@,
    {
        "typing"
    }

    /// Stages a notice for every server in a room, in place of the one that was
    /// staged for the room and user. Nothing is staged in a room whose access
    /// control list denies this server.
    pub fn enqueue(
        &mut self,
        room_id: &str,
        user_id: &str,
        servers: &Vec<String>,
        acl: Option<&Json>,
        typing: bool,
    )
        requires
            old(self).wf(),
        ensures
            final(self).wf(),
            final(self).our_server_name == old(self).our_server_name,
            forall|s: Seq<char>, k: StateKey|
                #![trigger staged(*final(self), s, k)]
                staged(*final(self), s, k) == (if acl_refusal(
                    opt_json(acl),
                    old(self).our_server_name@,
                ) is None && lists(servers@, s) && k == (
                    room_id@,
                    user_id@,
                ) {
                    Some(typing)
                } else {
                    staged(*old(self), s, k)
                }),
    {
        if check_server_acl(acl, self.our_server_name.as_str()).is_some() {
            return;
        }
        let ghost key = (room_id@, user_id@);
        let ghost start = *self;
        let mut i: usize = 0;
        while i < servers.len()
            invariant
                i <= servers.len(),
                self.wf(),
                self.our_server_name == start.our_server_name,
                key == (room_id@, user_id@),
                forall|s: Seq<char>, k: StateKey|
                    #![trigger staged(*self, s, k)]
                    staged(*self, s, k) == (if lists(servers@.take(i as int), s) && k == key {
                        Some(typing)
                    } else {
                        staged(start, s, k)
                    }),
            decreases servers.len() - i,
        {
            let ghost before = *self;
            let dest = servers[i].as_str();
            let mut bucket = match self.buffers.take(dest) {
                Some(t) => t,
                None => StateTable::new(),
            };
            let ghost old_bucket = bucket;
            bucket.insert(room_id, user_id, typing);
            self.buffers.insert(dest, bucket);
            proof {
                assert forall|s: Seq<char>, k: StateKey| #![trigger staged(*self, s, k)]
                    staged(*self, s, k) == (if lists(servers@.take(i + 1), s) && k == key {
                        Some(typing)
                    } else {
                        staged(start, s, k)
                    }) by {
                    lemma_lists(servers@, i as int, s);
                    assert(staged(before, s, k) == (if lists(servers@.take(i as int), s) && k == key {
                        Some(typing)
                    } else {
                        staged(start, s, k)
                    }));
                    if s == dest@ {
                        assert(self.buffers.find(s) == Some(bucket));
                        assert(bucket.find(k) == (if k == key {
                            Some(typing)
                        } else {
                            old_bucket.find(k)
                        }));
                        assert(old_bucket.find(k) == staged(before, s, k));
                    } else {
                        assert(self.buffers.find(s) == before.buffers.find(s));
                    }
                }
                assert forall|s: Seq<char>| #![trigger self.buffers.find(s)]
                    self.buffers.find(s) is Some implies self.buffers.find(s)->0.wf() by {
                    if s != dest@ {
                        assert(self.buffers.find(s) == before.buffers.find(s));
                    }
                }
            }
            i += 1;
        }
        proof {
            assert(servers@.take(i as int) =~= servers@);
        }
    }

    /// Takes what is staged for a server. The cursor moves on if there was
    /// anything. What goes over the limit of a transaction is dropped: typing is
    /// stated anew every few seconds.
    pub fn scan_since(&mut self, destination: &str, cursor: u64) -> (r: (Vec<Json>, u64))
        requires
            old(self).wf(),
        ensures
            final(self).wf(),
            values(r.0@) == taken(staged_entries(*old(self), destination@)),
            r.1 == (if staged_entries(*old(self), destination@).len() == 0 {
                cursor
            } else {
                crate::keys::capped_sum(cursor, 1)
            }),
            staged_entries(*final(self), destination@).len() == 0,
            forall|s: Seq<char>|
                s != destination@ ==> #[trigger] final(self).buffers.find(s) == old(
                    self,
                ).buffers.find(s),
    {
        let bucket = match self.buffers.take(destination) {
            None => {
                proof {
                    assert(taken(seq![]) =~= seq![]);
                    let empty: Seq<Json> = seq![];
                    assert(values(empty) =~= seq![]);
                }
                let none: Vec<Json> = Vec::new();
                proof {
                    assert(values(none@) =~= taken(seq![]));
                }
                return (none, cursor);
            },
            Some(t) => t,
        };
        let ghost e = bucket.entries@;
        let n: usize = if bucket.entries.len() <= MAX_TYPING_ENTRIES_PER_SCAN {
            bucket.entries.len()
        } else {
            MAX_TYPING_ENTRIES_PER_SCAN
        };
        let mut out: Vec<Json> = Vec::new();
        let mut i: usize = 0;
        proof {
            assert(values(out@) =~= taken(e).take(0));
        }
        while i < n
            invariant
                i <= n,
                e == bucket.entries@,
                n <= e.len(),
                n == taken(e).len(),
                values(out@) == taken(e).take(i as int),
            decreases n - i,
        {
            let x = build_typing_edu(&bucket.entries[i]);
            proof {
                lemma_values_push(out@, x);
                assert(taken(e)[i as int] == typing_edu(e[i as int]));
                assert(taken(e).take(i + 1) =~= taken(e).take(i as int).push(taken(e)[i as int]));
            }
            out.push(x);
            i += 1;
        }
        proof {
            assert(taken(e).take(i as int) =~= taken(e));
        }
        if bucket.entries.len() == 0 {
            (out, cursor)
        } else {
            (out, cursor.saturating_add(1))
        }
    }
}

proof fn lemma_lists(servers: Seq<String>, i: int, s: Seq<char>)
    requires
        0 <= i < servers.len(),
    ensures
        lists(servers.take(i + 1), s) <==> lists(servers.take(i), s) || servers[i]@ == s,
{
    let more = servers.take(i + 1);
    let less = servers.take(i);
    if lists(more, s) {
        let j = choose|j: int| 0 <= j < more.len() && (#[trigger] more[j])@ == s;
        if j < i {
            assert(less[j]@ == s);
        }
    }
    if lists(less, s) {
        let j = choose|j: int| 0 <= j < less.len() && (#[trigger] less[j])@ == s;
        assert(more[j]@ == s);
    }
    if servers[i]@ == s {
        assert(more[i]@ == s);
    }
}

/// How long another server's typing notice holds, in milliseconds.
pub const REMOTE_TYPING_TTL_MS: u64 = 30_000;

/// A typing notice of another server.
pub struct TypingNotice {
    pub room_id: String,
    pub user_id: String,
    pub typing: bool,
}

/// Whether a notice is what some content says: it names a user of the sending
/// server and a room that is known here and does not keep that server out;
/// without a statement the user is not typing.
pub open spec fn is_typing_notice(
    content: JsonView,
    origin: Seq<char>,
    g: RoomAcls,
    r: Option<TypingNotice>,
) -> bool {
    match (content.str_at("room_id"@), content.str_at("user_id"@)) {
        (Some(room), Some(user)) => if belongs_to(user, origin) && g(room) is Some && acl_refusal(
            g(room)->0,
            origin,
        ) is None {
            r matches Some(n) && n.room_id@ == room && n.user_id@ == user && n.typing == (
            match content.get("typing"@) {
                Some(t) => t.as_bool() == Some(true),
                None => false,
            })
        } else {
            r is None
        },
        _ => r is None,
    }
}

/// Reads the typing notice of another server; one about another server's user, or
/// for a room that keeps the server out, is dropped. `acl_of` says of a room
/// whether it is known, and what its access control list is.
pub fn handle_typing<F: Fn(&str) -> Option<Option<Json>>>(
    content: &Json,
    origin: &str,
    acl_of: F,
) -> (r: Option<TypingNotice>)
    requires
        forall|s: &str| #[trigger] acl_of.requires((s,)),
    ensures
        forall|g: RoomAcls| #[trigger]
            tells_acls(acl_of, g) ==> is_typing_notice(content@, origin@, g, r),
{
    let room = match content.str_at("room_id") {
        Some(s) => s,
        None => {
            return None;
        },
    };
    let user = match content.str_at("user_id") {
        Some(s) => s,
        None => {
            return None;
        },
    };
    if !id_belongs_to(user, origin) {
        return None;
    }
    let acl = acl_of(room);
    if !admits(&acl, origin) {
        return None;
    }
    let typing = match content.get("typing") {
        Some(t) => match t.as_bool() {
            Some(b) => b,
            None => false,
        },
        None => false,
    };
    Some(TypingNotice { room_id: room.to_owned(), user_id: user.to_owned(), typing })
}

/// Whether a user is typing at a time.
pub open spec fn is_typing(typers: Seq<(u64, u64)>, user: u64, now: u64) -> bool {
    exists|i: int| 0 <= i < typers.len() && (#[trigger] typers[i]).0 == user && typers[i].1 > now
}

/// The typers of a room apart from one, as far as their notices still hold.
pub open spec fn other_typers(typers: Seq<(u64, u64)>, user: u64, now: u64) -> Seq<(u64, u64)>
    decreases typers.len(),
{
    if typers.len() == 0 {
        seq![]
    } else if typers.last().0 != user && typers.last().1 > now {
        other_typers(typers.drop_last(), user, now).push(typers.last())
    } else {
        other_typers(typers.drop_last(), user, now)
    }
}

/// Brings the typers of a room up to date with a notice about a user, and says
/// whether the user's state changed.
pub fn update_typers(typers: &mut Vec<(u64, u64)>, user: u64, typing: bool, now: u64) -> (r: bool)
    ensures
        r == (is_typing(old(typers)@, user, now) != typing),
        final(typers)@ == (if typing {
            other_typers(old(typers)@, user, now).push(
                (user, crate::keys::capped_sum(now, REMOTE_TYPING_TTL_MS)),
            )
        } else {
            other_typers(old(typers)@, user, now)
        }),
{
    let ghost all = typers@;
    let mut was = false;
    let mut kept: Vec<(u64, u64)> = Vec::new();
    let mut i: usize = 0;
    while i < typers.len()
        invariant
            i <= typers.len(),
            typers@ == all,
            was == is_typing(all.take(i as int), user, now),
            kept@ =~= other_typers(all.take(i as int), user, now),
        decreases typers.len() - i,
    {
        let (u, expires) = typers[i];
        proof {
            let more = all.take(i + 1);
            let less = all.take(i as int);
            assert(more.drop_last() =~= less);
            assert(more.last() == all[i as int]);
            if is_typing(less, user, now) {
                let j = choose|j: int|
                    0 <= j < less.len() && (#[trigger] less[j]).0 == user && less[j].1 > now;
                assert(more[j].0 == user && more[j].1 > now);
            }
            if is_typing(more, user, now) {
                let j = choose|j: int|
                    0 <= j < more.len() && (#[trigger] more[j]).0 == user && more[j].1 > now;
                if j < i {
                    assert(less[j].0 == user);
                }
            }
            if u == user && expires > now {
                assert(more[i as int].0 == user);
            }
        }
        if u == user && expires > now {
            was = true;
        }
        if u != user && expires > now {
            kept.push((u, expires));
        }
        i += 1;
    }
    proof {
        assert(all.take(i as int) =~= all);
    }
    if typing {
        kept.push((user, now.saturating_add(REMOTE_TYPING_TTL_MS)));
    }
    *typers = kept;
    was != typing
}

/// A typing notice that one server stages is read by another as it was: the same
/// room, user and state, as long as the user is one of the sending server and
/// the room is known and does not keep that server out.
pub proof fn law_typing_arrives(
    e: ((String, String), bool),
    origin: Seq<char>,
    g: RoomAcls,
    r: Option<TypingNotice>,
)
    requires
        belongs_to(e.0.1@, origin),
        g(e.0.0@) is Some,
        acl_refusal(g(e.0.0@)->0, origin) is None,
        is_typing_notice(typing_edu(e).get("content"@)->0, origin, g, r),
    ensures
        typing_edu(e).str_at("edu_type"@) == Some("m.typing"@),
        r matches Some(n) && n.room_id@ == e.0.0@ && n.user_id@ == e.0.1@ && n.typing == e.1,
{
    reveal_with_fuel(crate::json::member, 4);
    reveal_strlit("edu_type");
    reveal_strlit("content");
    reveal_strlit("room_id");
    reveal_strlit("user_id");
    reveal_strlit("typing");
    let m = typing_edu(e)->Object_0;
    assert("edu_type"@.len() != "content"@.len());
    assert(m[0] == ("edu_type"@, JsonView::Str("m.typing"@)));
    assert(m.drop_first()[0] == m[1]);
    let c = m[1].1->Object_0;
    assert("room_id"@[0] == 'r' && "user_id"@[0] == 'u' && "typing"@[0] == 't');
    assert(c[0] == ("room_id"@, JsonView::Str(e.0.0@)));
    assert(c.drop_first()[0] == c[1]);
    assert(c.drop_first().drop_first()[0] == c[2]);
}

/// The other typers of a room are all whose notices still hold but for the user,
/// in order.
pub proof fn law_other_typers(typers: Seq<(u64, u64)>, user: u64, now: u64)
    ensures
        other_typers(typers, user, now) == typers.filter(
            |t: (u64, u64)| t.0 != user && now < t.1,
        ),
        forall|t: (u64, u64)| #[trigger]
            other_typers(typers, user, now).contains(t) <==> typers.contains(t) && t.0 != user
                && now < t.1,
    decreases typers.len(),
{
    let p = |t: (u64, u64)| t.0 != user && now < t.1;
    reveal(Seq::filter);
    if typers.len() > 0 {
        law_other_typers(typers.drop_last(), user, now);
    }
    assert(other_typers(typers, user, now) == typers.filter(p));
    assert forall|t: (u64, u64)| #[trigger] other_typers(typers, user, now).contains(t)
        <==> typers.contains(t) && t.0 != user && now < t.1 by {
        let r = typers.filter(p);
        if r.contains(t) {
            typers.lemma_filter_contains_rev(p, t);
            let i = choose|i: int| 0 <= i < r.len() && r[i] == t;
            typers.lemma_filter_pred(p, i);
        }
        if typers.contains(t) && p(t) {
            let i = choose|i: int| 0 <= i < typers.len() && typers[i] == t;
            typers.lemma_filter_contains(p, i);
        }
    }
}

/// A scan takes the first notices that are staged, fifty at most, and each says
/// of its room and user what was staged.
pub proof fn law_taken(entries: Seq<((String, String), bool)>)
    ensures
        taken(entries).len() <= entries.len(),
        taken(entries).len() <= 50,
        taken(entries).len() == entries.len() || taken(entries).len() == 50,
        forall|i: int|
            0 <= i < taken(entries).len() ==> {
                let u = #[trigger] taken(entries)[i];
                &&& u.get("edu_type"@) == Some(JsonView::Str("m.typing"@))
                &&& u.get("content"@) matches Some(c) && c.get("room_id"@) == Some(
                    JsonView::Str(entries[i].0.0@),
                ) && c.get("user_id"@) == Some(JsonView::Str(entries[i].0.1@)) && c.get("typing"@)
                    == Some(JsonView::Bool(entries[i].1))
            },
{
    assert forall|i: int| 0 <= i < taken(entries).len() implies ({
        let u = #[trigger] taken(entries)[i];
        &&& u.get("edu_type"@) == Some(JsonView::Str("m.typing"@))
        &&& u.get("content"@) matches Some(c) && c.get("room_id"@) == Some(
            JsonView::Str(entries[i].0.0@),
        ) && c.get("user_id"@) == Some(JsonView::Str(entries[i].0.1@)) && c.get("typing"@) == Some(
            JsonView::Bool(entries[i].1),
        )
    }) by {
        lemma_typing_edu(entries[i]);
        assert(taken(entries)[i] == typing_edu(entries[i]));
    }
}

proof fn lemma_typing_edu(e: ((String, String), bool))
    ensures
        ({
            let u = typing_edu(e);
            &&& u.get("edu_type"@) == Some(JsonView::Str("m.typing"@))
            &&& u.get("content"@) matches Some(c) && c.get("room_id"@) == Some(
                JsonView::Str(e.0.0@),
            ) && c.get("user_id"@) == Some(JsonView::Str(e.0.1@)) && c.get("typing"@) == Some(
                JsonView::Bool(e.1),
            )
        }),
{
    reveal_with_fuel(crate::json::member, 4);
    reveal_strlit("edu_type");
    reveal_strlit("content");
    reveal_strlit("room_id");
    reveal_strlit("user_id");
    reveal_strlit("typing");
    let m = typing_edu(e)->Object_0;
    assert("edu_type"@.len() != "content"@.len());
    assert(m[0] == ("edu_type"@, JsonView::Str("m.typing"@)));
    assert(m.drop_first()[0] == m[1]);
    let c = m[1].1->Object_0;
    assert("room_id"@[0] == 'r' && "user_id"@[0] == 'u' && "typing"@[0] == 't');
    assert(c[0] == ("room_id"@, JsonView::Str(e.0.0@)));
    assert(c.drop_first()[0] == c[1]);
    assert(c.drop_first().drop_first()[0] == c[2]);
}

/// A typing notice is heeded exactly if it names a room that is known and does not
/// keep the sending server out, and a user of that server; the user types only if
/// the notice says so.
pub proof fn law_typing_notices(
    content: JsonView,
    origin: Seq<char>,
    g: RoomAcls,
    r: Option<TypingNotice>,
)
    requires
        is_typing_notice(content, origin, g, r),
    ensures
        r is Some <==> {
            &&& (content.get("user_id"@) matches Some(JsonView::Str(u)) && belongs_to(u, origin))
            &&& (content.get("room_id"@) matches Some(JsonView::Str(room)) && (g(room) matches Some(
                acl,
            ) && acl_refusal(acl, origin) is None))
        },
        r matches Some(n) ==> {
            &&& content.get("room_id"@) == Some(JsonView::Str(n.room_id@))
            &&& content.get("user_id"@) == Some(JsonView::Str(n.user_id@))
            &&& n.typing <==> content.get("typing"@) == Some(JsonView::Bool(true))
        },
{
}

} // verus!
