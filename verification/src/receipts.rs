//! Read receipts: those that are sent to other servers, and those that other
//! servers send.

use std::sync::Arc;
use vstd::prelude::*;
use vstd::string::*;

use crate::json::member;
use crate::json::members;
use crate::json::put;
use crate::json::values;
use crate::json::Json;
use crate::json::JsonView;
use crate::json::NumberView;
use crate::pdu::belongs_to;
use crate::pdu::id_belongs_to;
use crate::server_acl::acl_refusal;
use crate::server_acl::admits;
use crate::server_acl::tells_acls;
use crate::server_acl::RoomAcls;
use crate::table::position_from;
use crate::table::TextMap;
use crate::text::lemma_texts_push;
use crate::text::list_has;
use crate::text::opt_string;
use crate::text::str_eq;
use crate::text::texts;
use crate::json::lemma_member_entry;

verus! {

/// The most receipts that one unit carries.
pub const MAX_RECEIPTS_PER_EDU: usize = 100;

/// The most entries that one scan looks at.
pub const MAX_STREAM_ENTRIES_PER_SCAN: usize = 512;

/// The stream of this server's users' receipts.
pub struct ReceiptStream {
    pub our_server_name: String,
}

/// A receipt: how far a user has read in a room, or in a thread of it.
pub struct Receipt {
    pub room_id: String,
    pub receipt_type: String,
    pub user_id: String,
    pub event_id: String,
    pub ts: u64,
    pub thread_id: Option<String>,
}

pub struct ReceiptView {
    pub room_id: Seq<char>,
    pub receipt_type: Seq<char>,
    pub user_id: Seq<char>,
    pub event_id: Seq<char>,
    pub ts: u64,
    pub thread_id: Option<Seq<char>>,
}

impl Receipt {
    pub open spec fn view(&self) -> ReceiptView {
        ReceiptView {
            room_id: self.room_id@,
            receipt_type: self.receipt_type@,
            user_id: self.user_id@,
            event_id: self.event_id@,
            ts: self.ts,
            thread_id: opt_string(self.thread_id),
        }
    }
}

/// An entry of the stream, at its position.
pub struct StreamEntry {
    pub position: u64,
    pub entry: Json,
}

/// The servers in each room, by its number; `None` if they could not be read.
pub type RoomServers = spec_fn(u64) -> Option<Seq<Seq<char>>>;

/// The text behind each number; `None` if it could not be read.
pub type Names = spec_fn(u64) -> Option<Seq<char>>;

pub open spec fn tells_servers<F: Fn(u64) -> Option<Vec<String>>>(f: F, g: RoomServers) -> bool {
    forall|n: u64, a: Option<Vec<String>>| #[trigger]
        f.ensures((n,), a) ==> g(n) == (match a {
            Some(v) => Some(texts(v@)),
            None => None,
        })
}

pub open spec fn tells_names<F: Fn(u64) -> Option<String>>(f: F, g: Names) -> bool {
    forall|n: u64, a: Option<String>| #[trigger] f.ensures((n,), a) ==> g(n) == opt_string(a)
}

/// The receipt that an entry holds for a server: one in a room that the server
/// is in, with everything that it takes.
pub open spec fn receipt_for(
    entry: JsonView,
    destination: Seq<char>,
    servers: RoomServers,
    names: Names,
) -> Option<ReceiptView> {
    match (
        entry.u64_at("room"@),
        entry.str_at("type"@),
        entry.u64_at("user"@),
        entry.str_at("event_id"@),
    ) {
        (Some(room), Some(receipt_type), Some(user), Some(event_id)) => match servers(room) {
            Some(v) => if v.contains(destination) {
                match (names(room), names(user)) {
                    (Some(room_id), Some(user_id)) => Some(
                        ReceiptView {
                            room_id,
                            receipt_type,
                            user_id,
                            event_id,
                            ts: match entry.u64_at("ts"@) {
                                Some(t) => t,
                                None => 0,
                            },
                            thread_id: entry.str_at("thread_id"@),
                        },
                    ),
                    _ => None,
                }
            } else {
                None
            },
            None => None,
        },
        _ => None,
    }
}

/// The receipts that the first `n` entries hold for a server.
pub open spec fn receipts_in(
    entries: Seq<StreamEntry>,
    n: int,
    destination: Seq<char>,
    servers: RoomServers,
    names: Names,
) -> Seq<ReceiptView>
    decreases n,
{
    if n <= 0 {
        seq![]
    } else {
        let before = receipts_in(entries, n - 1, destination, servers, names);
        match receipt_for(entries[n - 1].entry@, destination, servers, names) {
            Some(r) => before.push(r),
            None => before,
        }
    }
}

/// How many entries a scan takes, from `n` on: up to the one behind the last
/// receipt that the unit has room for.
pub open spec fn entries_taken(
    entries: Seq<StreamEntry>,
    n: int,
    destination: Seq<char>,
    servers: RoomServers,
    names: Names,
) -> int
    decreases entries.len() - n,
{
    if n >= entries.len() {
        entries.len() as int
    } else if receipts_in(entries, n, destination, servers, names).len() >= MAX_RECEIPTS_PER_EDU {
        n
    } else {
        entries_taken(entries, n + 1, destination, servers, names)
    }
}

/// Which of two receipts of a user counts: the later one, but a receipt for a
/// thread does not displace one for the whole room.
pub open spec fn prevailing(old: Option<ReceiptView>, new: ReceiptView) -> ReceiptView {
    match old {
        Some(o) => if o.thread_id is None && new.thread_id is Some {
            o
        } else {
            new
        },
        None => new,
    }
}

/// The receipt that counts for a room, a type and a user among some.
pub open spec fn receipt_at(
    v: Seq<ReceiptView>,
    room: Seq<char>,
    receipt_type: Seq<char>,
    user: Seq<char>,
) -> Option<ReceiptView>
    decreases v.len(),
{
    if v.len() == 0 {
        None
    } else {
        let before = receipt_at(v.drop_last(), room, receipt_type, user);
        let r = v.last();
        if r.room_id == room && r.receipt_type == receipt_type && r.user_id == user {
            Some(prevailing(before, r))
        } else {
            before
        }
    }
}

/// A receipt as it is sent.
pub open spec fn receipt_json(r: ReceiptView) -> JsonView {
    let data = seq![("ts"@, JsonView::Number(NumberView::Unsigned(r.ts)))] + (match r.thread_id {
        Some(t) => seq![("thread_id"@, JsonView::Str(t))],
        None => seq![],
    });
    JsonView::Object(
        seq![
            ("event_ids"@, JsonView::Array(seq![JsonView::Str(r.event_id)])),
            ("data"@, JsonView::Object(data)),
        ],
    )
}

/// The value in nested objects under three keys.
pub open spec fn nested(j: JsonView, a: Seq<char>, b: Seq<char>, c: Seq<char>) -> Option<JsonView> {
    match j.get(a) {
        Some(x) => match x.get(b) {
            Some(y) => y.get(c),
            None => None,
        },
        None => None,
    }
}

/// Whether a unit carries some receipts: for every room, type and user the one
/// that counts, and nothing else.
pub open spec fn is_receipt_edu(edu: JsonView, v: Seq<ReceiptView>) -> bool {
    &&& edu.as_object() is Some
    &&& edu.as_object()->0.len() == 2
    &&& edu.str_at("edu_type"@) == Some("m.receipt"@)
    &&& edu.get("content"@) is Some
    &&& forall|room: Seq<char>, ty: Seq<char>, user: Seq<char>|
        #![trigger nested(edu.get("content"@)->0, room, ty, user)]
        nested(edu.get("content"@)->0, room, ty, user) == (match receipt_at(v, room, ty, user) {
            Some(r) => Some(receipt_json(r)),
            None => None,
        })
}

type Users = TextMap<Receipt>;

type Types = TextMap<TextMap<Receipt>>;

type Rooms = TextMap<TextMap<TextMap<Receipt>>>;

spec fn users_wf(m: Types) -> bool {
    m.wf() && forall|b: Seq<char>| #![trigger m.find(b)] m.find(b) matches Some(u) ==> u.wf()
}

spec fn rooms_wf(m: Rooms) -> bool {
    m.wf() && forall|a: Seq<char>| #![trigger m.find(a)] m.find(a) matches Some(t) ==> users_wf(t)
}

spec fn held(m: Rooms, a: Seq<char>, b: Seq<char>, c: Seq<char>) -> Option<ReceiptView> {
    match m.find(a) {
        Some(t) => held_in(t, b, c),
        None => None,
    }
}

spec fn held_in(t: Types, b: Seq<char>, c: Seq<char>) -> Option<ReceiptView> {
    match t.find(b) {
        Some(u) => match u.find(c) {
            Some(r) => Some(r@),
            None => None,
        },
        None => None,
    }
}

/// Adds a receipt to those collected.
fn collect(m: &mut Rooms, r: Receipt)
    requires
        rooms_wf(*old(m)),
    ensures
        rooms_wf(*final(m)),
        forall|a: Seq<char>, b: Seq<char>, c: Seq<char>|
            #![trigger held(*final(m), a, b, c)]
            held(*final(m), a, b, c) == (if a == r@.room_id && b == r@.receipt_type && c
                == r@.user_id {
                Some(prevailing(held(*old(m), a, b, c), r@))
            } else {
                held(*old(m), a, b, c)
            }),
{
    let ghost m0 = *m;
    let ghost rv = r@;
    let room = r.room_id.clone();
    let ty = r.receipt_type.clone();
    let user = r.user_id.clone();
    let mut types = match m.remove(room.as_str()) {
        Some(t) => t,
        None => TextMap::new(),
    };
    let ghost types0 = types;
    let mut users = match types.remove(ty.as_str()) {
        Some(u) => u,
        None => TextMap::new(),
    };
    let ghost users0 = users;
    let keep_old = match users.get(user.as_str()) {
        Some(o) => o.thread_id.is_none() && r.thread_id.is_some(),
        None => false,
    };
    if !keep_old {
        users.insert(user.as_str(), r);
    }
    types.insert(ty.as_str(), users);
    m.insert(room.as_str(), types);
    proof {
        assert forall|a: Seq<char>, b: Seq<char>, c: Seq<char>| #![trigger held(*m, a, b, c)]
            held(*m, a, b, c) == (if a == rv.room_id && b == rv.receipt_type && c == rv.user_id {
                Some(prevailing(held(m0, a, b, c), rv))
            } else {
                held(m0, a, b, c)
            }) by {
            if a == rv.room_id {
                assert(m.find(a) == Some(types));
                assert(held(m0, a, b, c) == held_in(types0, b, c));
                if b == rv.receipt_type {
                    assert(types.find(b) == Some(users));
                    assert(held_in(types0, b, c) == (match users0.find(c) {
                        Some(x) => Some(x@),
                        None => None,
                    }));
                    if c == rv.user_id {
                        assert(users.find(c) is Some);
                    } else {
                        assert(users.find(c) == users0.find(c));
                    }
                } else {
                    assert(types.find(b) == types0.find(b));
                }
            } else {
                assert(m.find(a) == m0.find(a));
            }
        }
        assert(users_wf(types)) by {
            assert forall|b: Seq<char>| #![trigger types.find(b)] types.find(b) is Some implies types.find(
                b,
            )->0.wf() by {
                if b != rv.receipt_type {
                    assert(types.find(b) == types0.find(b));
                }
            }
        }
        assert forall|a: Seq<char>| #![trigger m.find(a)] m.find(a) is Some implies users_wf(
            m.find(a)->0,
        ) by {
            if a != rv.room_id {
                assert(m.find(a) == m0.find(a));
            }
        }
    }
}

fn write_receipt(r: &Receipt) -> (j: Json)
    ensures
        j@ == receipt_json(r@),
{
    let mut data: Vec<(String, Json)> = Vec::new();
    put(&mut data, "ts", Json::number(r.ts));
    match &r.thread_id {
        Some(t) => {
            put(&mut data, "thread_id", Json::text(t.as_str()));
        },
        None => {},
    }
    let ghost dv = receipt_json(r@)->Object_0[1].1->Object_0;
    proof {
        assert(members(data@) =~= dv);
    }
    let mut ids: Vec<Json> = Vec::new();
    ids.push(Json::text(r.event_id.as_str()));
    proof {
        assert(values(ids@) =~= seq![JsonView::Str(r.event_id@)]);
    }
    let mut m: Vec<(String, Json)> = Vec::new();
    put(&mut m, "event_ids", Json::array(ids));
    put(&mut m, "data", Json::object(data));
    proof {
        assert(members(m@) =~= receipt_json(r@)->Object_0);
    }
    Json::object(m)
}

/// A member of an object whose members were written one for one from the entries
/// of a table is what was written for the entry.
proof fn lemma_written<V>(
    e: Seq<(String, V)>,
    m: Seq<(String, Json)>,
    key: Seq<char>,
    from: int,
)
    requires
        e.len() == m.len(),
        0 <= from <= e.len(),
        forall|i: int| 0 <= i < e.len() ==> (#[trigger] m[i]).0@ == e[i].0@,
    ensures
        member(members(m).skip(from), key) == (if position_from(e, key, from) < e.len() {
            Some(m[position_from(e, key, from)].1@)
        } else {
            None
        }),
    decreases e.len() - from,
{
    let s = members(m).skip(from);
    if from < e.len() {
        assert(s[0] == (m[from].0@, m[from].1@));
        assert(s.drop_first() =~= members(m).skip(from + 1));
        lemma_written(e, m, key, from + 1);
    }
}

fn write_users(u: &Users) -> (j: Json)
    ensures
        j@.as_object() is Some,
        forall|c: Seq<char>|
            #![trigger j@.get(c)]
            j@.get(c) == (match u.find(c) {
                Some(r) => Some(receipt_json(r@)),
                None => None,
            }),
{
    let mut m: Vec<(String, Json)> = Vec::new();
    let mut i: usize = 0;
    while i < u.entries.len()
        invariant
            i <= u.entries.len(),
            m@.len() == i,
            forall|k: int|
                0 <= k < i ==> (#[trigger] m@[k]).0@ == u.entries@[k].0@ && m@[k].1@
                    == receipt_json(u.entries@[k].1@),
        decreases u.entries.len() - i,
    {
        let x = write_receipt(&u.entries[i].1);
        m.push((u.entries[i].0.clone(), x));
        i += 1;
    }
    let ghost mv = m@;
    let j = Json::object(m);
    proof {
        assert forall|c: Seq<char>| #![trigger j@.get(c)] j@.get(c) == (match u.find(c) {
            Some(r) => Some(receipt_json(r@)),
            None => None,
        }) by {
            lemma_written(u.entries@, mv, c, 0);
            crate::table::lemma_position(u.entries@, c, 0);
            assert(members(mv).skip(0) =~= members(mv));
        }
    }
    j
}

fn write_types(t: &Types) -> (j: Json)
    ensures
        forall|b: Seq<char>, c: Seq<char>|
            #![trigger held_in(*t, b, c)]
            (match j@.get(b) {
                Some(y) => y.get(c),
                None => None,
            }) == (match held_in(*t, b, c) {
                Some(r) => Some(receipt_json(r)),
                None => None,
            }),
{
    let mut m: Vec<(String, Json)> = Vec::new();
    let mut i: usize = 0;
    while i < t.entries.len()
        invariant
            i <= t.entries.len(),
            m@.len() == i,
            forall|k: int| 0 <= k < i ==> (#[trigger] m@[k]).0@ == t.entries@[k].0@,
            forall|k: int, c: Seq<char>|
                #![trigger m@[k].1@.get(c)]
                0 <= k < i ==> m@[k].1@.get(c) == (match t.entries@[k].1.find(c) {
                    Some(r) => Some(receipt_json(r@)),
                    None => None,
                }),
        decreases t.entries.len() - i,
    {
        let x = write_users(&t.entries[i].1);
        m.push((t.entries[i].0.clone(), x));
        i += 1;
    }
    let ghost mv = m@;
    let j = Json::object(m);
    proof {
        assert forall|b: Seq<char>, c: Seq<char>| #![trigger held_in(*t, b, c)] (match j@.get(b) {
            Some(y) => y.get(c),
            None => None,
        }) == (match held_in(*t, b, c) {
            Some(r) => Some(receipt_json(r)),
            None => None,
        }) by {
            lemma_written(t.entries@, mv, b, 0);
            crate::table::lemma_position(t.entries@, b, 0);
            assert(members(mv).skip(0) =~= members(mv));
            let p = position_from(t.entries@, b, 0);
            if p < t.entries@.len() {
                assert(mv[p].1@.get(c) == (match t.entries@[p].1.find(c) {
                    Some(r) => Some(receipt_json(r@)),
                    None => None,
                }));
            }
        }
    }
    j
}

fn write_rooms(rooms: &Rooms) -> (j: Json)
    ensures
        forall|a: Seq<char>, b: Seq<char>, c: Seq<char>|
            #![trigger nested(j@, a, b, c)]
            nested(j@, a, b, c) == (match held(*rooms, a, b, c) {
                Some(r) => Some(receipt_json(r)),
                None => None,
            }),
{
    let mut m: Vec<(String, Json)> = Vec::new();
    let mut i: usize = 0;
    while i < rooms.entries.len()
        invariant
            i <= rooms.entries.len(),
            m@.len() == i,
            forall|k: int| 0 <= k < i ==> (#[trigger] m@[k]).0@ == rooms.entries@[k].0@,
            forall|k: int, b: Seq<char>, c: Seq<char>|
                #![trigger m@[k], held_in(rooms.entries@[k].1, b, c)]
                0 <= k < i ==> (match m@[k].1@.get(b) {
                    Some(y) => y.get(c),
                    None => None,
                }) == (match held_in(rooms.entries@[k].1, b, c) {
                    Some(r) => Some(receipt_json(r)),
                    None => None,
                }),
        decreases rooms.entries.len() - i,
    {
        let x = write_types(&rooms.entries[i].1);
        m.push((rooms.entries[i].0.clone(), x));
        i += 1;
    }
    let ghost mv = m@;
    let j = Json::object(m);
    proof {
        assert forall|a: Seq<char>, b: Seq<char>, c: Seq<char>|
            #![trigger nested(j@, a, b, c)]
            nested(j@, a, b, c) == (match held(*rooms, a, b, c) {
                Some(r) => Some(receipt_json(r)),
                None => None,
            }) by {
            lemma_written(rooms.entries@, mv, a, 0);
            crate::table::lemma_position(rooms.entries@, a, 0);
            assert(members(mv).skip(0) =~= members(mv));
            let p = position_from(rooms.entries@, a, 0);
            if p < rooms.entries@.len() {
                assert(mv[p].0@ == rooms.entries@[p].0@);
                let h = held_in(rooms.entries@[p].1, b, c);
                assert((match mv[p].1@.get(b) {
                    Some(y) => y.get(c),
                    None => None,
                }) == (match h {
                    Some(r) => Some(receipt_json(r)),
                    None => None,
                }));
            }
        }
    }
    j
}

/// Reads the receipt that an entry holds for a server.
fn read_entry<S: Fn(u64) -> Option<Vec<String>>, N: Fn(u64) -> Option<String>>(
    entry: &Json,
    destination: &str,
    servers_in: &S,
    name_of: &N,
) -> (r: Option<Receipt>)
    requires
        forall|n: u64| #[trigger] servers_in.requires((n,)),
        forall|n: u64| #[trigger] name_of.requires((n,)),
    ensures
        forall|servers: RoomServers, names: Names|
            #![trigger tells_servers(*servers_in, servers), tells_names(*name_of, names)]
            tells_servers(*servers_in, servers) && tells_names(*name_of, names) ==> receipt_for(
                entry@,
                destination@,
                servers,
                names,
            ) == (match r {
                Some(x) => Some(x@),
                None => None,
            }),
{
    let room = match entry.u64_at("room") {
        Some(n) => n,
        None => {
            return None;
        },
    };
    let ty = match entry.str_at("type") {
        Some(s) => s,
        None => {
            return None;
        },
    };
    let user = match entry.u64_at("user") {
        Some(n) => n,
        None => {
            return None;
        },
    };
    let event_id = match entry.str_at("event_id") {
        Some(s) => s,
        None => {
            return None;
        },
    };
    let ts: u64 = match entry.u64_at("ts") {
        Some(t) => t,
        None => 0,
    };
    match servers_in(room) {
        Some(v) => {
            if !list_has(&v, destination) {
                return None;
            }
        },
        None => {
            return None;
        },
    }
    let room_id = match name_of(room) {
        Some(s) => s,
        None => {
            return None;
        },
    };
    let user_id = match name_of(user) {
        Some(s) => s,
        None => {
            return None;
        },
    };
    Some(
        Receipt {
            room_id,
            receipt_type: ty.to_owned(),
            user_id,
            event_id: event_id.to_owned(),
            ts,
            thread_id: match entry.str_at("thread_id") {
                Some(t) => Some(t.to_owned()),
                None => None,
            },
        },
    )
}

/// The cursor after a scan: the position of the last entry that was looked at;
/// where the unit is full, the one in front of the next entry.
pub open spec fn next_cursor(entries: Seq<StreamEntry>, stop: int, cursor: u64) -> u64 {
    if stop < entries.len() {
        let p = entries[stop].position;
        let before = if p == 0 {
            0u64
        } else {
            (p - 1) as u64
        };
        if before > cursor {
            before
        } else {
            cursor
        }
    } else {
        entries.last().position
    }
}

/// What a scan of some entries gives for a server.
pub open spec fn is_receipt_scan(
    entries: Seq<StreamEntry>,
    destination: Seq<char>,
    cursor: u64,
    end: u64,
    servers: RoomServers,
    names: Names,
    r: (Seq<JsonView>, u64),
) -> bool {
    if entries.len() == 0 {
        r.0.len() == 0 && r.1 == end
    } else {
        let stop = entries_taken(entries, 0, destination, servers, names);
        let v = receipts_in(entries, stop, destination, servers, names);
        &&& r.1 == next_cursor(entries, stop, cursor)
        &&& if v.len() == 0 {
            r.0.len() == 0
        } else {
            r.0.len() == 1 && is_receipt_edu(r.0[0], v)
        }
    }
}

impl ReceiptStream {
    pub fn new(our_server_name: String) -> (r: Arc<Self>)
        ensures
            r.our_server_name == our_server_name,
    {
        Arc::new(ReceiptStream { our_server_name })
    }

    pub fn name(&self) -> (r: &'static str)
        ensures
            r@ == "receipts"@,
    {
        "receipts"
    }

    /// Puts the entries of the stream behind a cursor together for a server: one
    /// unit with the receipts in rooms that the server is in, if there are any,
    /// and the new cursor. `end` is the cursor for a scan without entries.
    pub fn scan_since<S: Fn(u64) -> Option<Vec<String>>, N: Fn(u64) -> Option<String>>(
        &self,
        destination: &str,
        cursor: u64,
        entries: &Vec<StreamEntry>,
        end: u64,
        servers_in: S,
        name_of: N,
    ) -> (r: (Vec<Json>, u64))
        requires
            forall|n: u64| #[trigger] servers_in.requires((n,)),
            forall|n: u64| #[trigger] name_of.requires((n,)),
        ensures
            forall|servers: RoomServers, names: Names|
                #![trigger tells_servers(servers_in, servers), tells_names(name_of, names)]
                tells_servers(servers_in, servers) && tells_names(name_of, names)
                    ==> is_receipt_scan(
                    entries@,
                    destination@,
                    cursor,
                    end,
                    servers,
                    names,
                    (values(r.0@), r.1),
                ),
    {
        let mut out: Vec<Json> = Vec::new();
        let n: usize = entries.len();
        if n == 0 {
            return (out, end);
        }
        let ghost es = entries@;
        let ghost d = destination@;
        let mut rooms: Rooms = TextMap::new();
        let mut included: usize = 0;
        let mut i: usize = 0;
        while i < n && included < MAX_RECEIPTS_PER_EDU
            invariant
                forall|n: u64| #[trigger] servers_in.requires((n,)),
                forall|n: u64| #[trigger] name_of.requires((n,)),
                i <= n,
                n == entries.len(),
                es == entries@,
                d == destination@,
                included <= MAX_RECEIPTS_PER_EDU,
                rooms_wf(rooms),
                forall|servers: RoomServers, names: Names|
                    #![trigger tells_servers(servers_in, servers), tells_names(name_of, names)]
                    tells_servers(servers_in, servers) && tells_names(name_of, names) ==> {
                        &&& entries_taken(es, 0, d, servers, names) == entries_taken(
                            es,
                            i as int,
                            d,
                            servers,
                            names,
                        )
                        &&& collected(rooms, receipts_in(es, i as int, d, servers, names))
                        &&& included == receipts_in(es, i as int, d, servers, names).len()
                    },
            decreases n - i,
        {
            let ghost before = rooms;
            match read_entry(&entries[i].entry, destination, &servers_in, &name_of) {
                Some(r) => {
                    let ghost rv = r@;
                    collect(&mut rooms, r);
                    included += 1;
                    proof {
                        assert forall|servers: RoomServers, names: Names|
                            #![trigger tells_servers(servers_in, servers), tells_names(name_of, names)]
                            tells_servers(servers_in, servers) && tells_names(
                                name_of,
                                names,
                            ) implies collected(
                            rooms,
                            receipts_in(es, i + 1, d, servers, names),
                        ) by {
                            lemma_collected(
                                before,
                                rooms,
                                receipts_in(es, i as int, d, servers, names),
                                rv,
                            );
                        }
                    }
                },
                None => {},
            }
            i += 1;
        }
        let new_cursor: u64 = if i < n {
            let p: u64 = entries[i].position;
            let before: u64 = if p == 0 {
                0
            } else {
                p - 1
            };
            if before > cursor {
                before
            } else {
                cursor
            }
        } else {
            entries[n - 1].position
        };
        if included == 0 {
            return (out, new_cursor);
        }
        let content = write_rooms(&rooms);
        let ghost cv = content@;
        let mut m: Vec<(String, Json)> = Vec::new();
        put(&mut m, "edu_type", Json::text("m.receipt"));
        put(&mut m, "content", content);
        proof {
            assert(members(m@) =~= seq![("edu_type"@, JsonView::Str("m.receipt"@)), ("content"@, cv)]);
        }
        let edu = Json::object(m);
        let ghost ev = edu@;
        proof {
            lemma_edu_shape(cv);
            crate::json::lemma_values_push(out@, edu);
        }
        out.push(edu);
        proof {
            assert(values(out@) =~= seq![ev]);
            assert forall|servers: RoomServers, names: Names|
                #![trigger tells_servers(servers_in, servers), tells_names(name_of, names)]
                tells_servers(servers_in, servers) && tells_names(name_of, names) implies is_receipt_scan(
                es,
                d,
                cursor,
                end,
                servers,
                names,
                (values(out@), new_cursor),
            ) by {
                let v = receipts_in(es, i as int, d, servers, names);
                assert(entries_taken(es, 0, d, servers, names) == i);
                assert forall|room: Seq<char>, ty: Seq<char>, user: Seq<char>|
                    #![trigger nested(ev.get("content"@)->0, room, ty, user)]
                    nested(ev.get("content"@)->0, room, ty, user) == (match receipt_at(
                        v,
                        room,
                        ty,
                        user,
                    ) {
                        Some(r) => Some(receipt_json(r)),
                        None => None,
                    }) by {
                    assert(held(rooms, room, ty, user) == receipt_at(v, room, ty, user));
                    assert(nested(cv, room, ty, user) == (match held(rooms, room, ty, user) {
                        Some(r) => Some(receipt_json(r)),
                        None => None,
                    }));
                }
            }
        }
        (out, new_cursor)
    }
}

/// Whether a table holds, for every room, type and user, the receipt that counts
/// among some.
spec fn collected(m: Rooms, v: Seq<ReceiptView>) -> bool {
    forall|a: Seq<char>, b: Seq<char>, c: Seq<char>|
        #![trigger held(m, a, b, c)]
        held(m, a, b, c) == receipt_at(v, a, b, c)
}

proof fn lemma_collected(before: Rooms, after: Rooms, v: Seq<ReceiptView>, r: ReceiptView)
    requires
        collected(before, v),
        forall|a: Seq<char>, b: Seq<char>, c: Seq<char>|
            #![trigger held(after, a, b, c)]
            held(after, a, b, c) == (if a == r.room_id && b == r.receipt_type && c == r.user_id {
                Some(prevailing(held(before, a, b, c), r))
            } else {
                held(before, a, b, c)
            }),
    ensures
        collected(after, v.push(r)),
{
    assert forall|a: Seq<char>, b: Seq<char>, c: Seq<char>|
        #![trigger held(after, a, b, c)]
        held(after, a, b, c) == receipt_at(v.push(r), a, b, c) by {
        assert(v.push(r).drop_last() =~= v);
        assert(held(before, a, b, c) == receipt_at(v, a, b, c));
    }
}

proof fn lemma_edu_shape(content: JsonView)
    ensures
        ({
            let edu = JsonView::Object(
                seq![("edu_type"@, JsonView::Str("m.receipt"@)), ("content"@, content)],
            );
            &&& edu.str_at("edu_type"@) == Some("m.receipt"@)
            &&& edu.get("content"@) == Some(content)
        }),
{
    reveal_strlit("edu_type");
    reveal_strlit("content");
    let s = seq![("edu_type"@, JsonView::Str("m.receipt"@)), ("content"@, content)];
    assert(s[0].0 == "edu_type"@);
    assert("edu_type"@.len() != "content"@.len());
    assert(s.drop_first() =~= seq![("content"@, content)]);
    assert(s.drop_first()[0].0 == "content"@);
    assert(member(s.drop_first(), "content"@) == Some(content));
    assert(member(s, "content"@) == Some(content));
}

/// The receipts of a user that a payload states.
pub open spec fn payload_events(payload: JsonView) -> Seq<Seq<char>> {
    match payload.array_at("event_ids"@) {
        Some(v) => crate::json::strings_in(v),
        None => seq![],
    }
}

pub open spec fn payload_ts(payload: JsonView) -> u64 {
    match payload.get("data"@) {
        Some(d) => match d.u64_at("ts"@) {
            Some(t) => t,
            None => 0,
        },
        None => 0,
    }
}

/// The receipts that one user's payload states, one for each event.
pub open spec fn user_receipts(
    room: Seq<char>,
    receipt_type: Seq<char>,
    user: Seq<char>,
    payload: JsonView,
    origin: Seq<char>,
) -> Seq<ReceiptView> {
    if belongs_to(user, origin) && payload.as_object() is Some {
        payload_events(payload).map_values(
            |event_id: Seq<char>|
                ReceiptView {
                    room_id: room,
                    receipt_type,
                    user_id: user,
                    event_id,
                    ts: payload_ts(payload),
                    thread_id: payload.str_within("data"@, "thread_id"@),
                },
        )
    } else {
        seq![]
    }
}

pub open spec fn users_receipts(
    room: Seq<char>,
    receipt_type: Seq<char>,
    users: Seq<(Seq<char>, JsonView)>,
    origin: Seq<char>,
) -> Seq<ReceiptView>
    decreases users.len(),
{
    if users.len() == 0 {
        seq![]
    } else {
        users_receipts(room, receipt_type, users.drop_last(), origin) + user_receipts(
            room,
            receipt_type,
            users.last().0,
            users.last().1,
            origin,
        )
    }
}

/// The receipts that a server states for a room: those of its own users; private
/// ones are not to be sent and do not count.
pub open spec fn room_receipts(
    room: Seq<char>,
    types: Seq<(Seq<char>, JsonView)>,
    origin: Seq<char>,
) -> Seq<ReceiptView>
    decreases types.len(),
{
    if types.len() == 0 {
        seq![]
    } else {
        let before = room_receipts(room, types.drop_last(), origin);
        let (ty, users) = types.last();
        if ty == "m.read.private"@ || users.as_object() is None {
            before
        } else {
            before + users_receipts(room, ty, users.as_object()->0, origin)
        }
    }
}

pub open spec fn receipts(v: Seq<Receipt>) -> Seq<ReceiptView> {
    v.map_values(|r: Receipt| r@)
}

proof fn lemma_receipts_push(v: Seq<Receipt>, r: Receipt)
    ensures
        receipts(v.push(r)) == receipts(v).push(r@),
{
    assert(receipts(v.push(r)) =~= receipts(v).push(r@));
}

fn read_user(out: &mut Vec<Receipt>, room: &str, ty: &str, user: &str, payload: &Json, origin: &str)
    ensures
        receipts(final(out)@) == receipts(old(out)@) + user_receipts(
            room@,
            ty@,
            user@,
            payload@,
            origin@,
        ),
{
    let ghost start = receipts(out@);
    let ghost want = user_receipts(room@, ty@, user@, payload@, origin@);
    if !id_belongs_to(user, origin) || payload.as_object().is_none() {
        proof {
            assert(start + want =~= start);
        }
        return;
    }
    let ids: Vec<String> = match payload.array_at("event_ids") {
        Some(v) => crate::json::collect_strings(v),
        None => Vec::new(),
    };
    let ts: u64 = match payload.get("data") {
        Some(d) => match d.u64_at("ts") {
            Some(t) => t,
            None => 0,
        },
        None => 0,
    };
    proof {
        assert(texts(ids@) =~= payload_events(payload@));
        assert(start + want.take(0) =~= start);
    }
    let mut i: usize = 0;
    while i < ids.len()
        invariant
            i <= ids.len(),
            texts(ids@) == payload_events(payload@),
            ts == payload_ts(payload@),
            belongs_to(user@, origin@) && payload@.as_object() is Some,
            want == user_receipts(room@, ty@, user@, payload@, origin@),
            receipts(out@) == start + want.take(i as int),
        decreases ids.len() - i,
    {
        let r = Receipt {
            room_id: room.to_owned(),
            receipt_type: ty.to_owned(),
            user_id: user.to_owned(),
            event_id: ids[i].clone(),
            ts,
            thread_id: match payload.str_within("data", "thread_id") {
                Some(t) => Some(t.to_owned()),
                None => None,
            },
        };
        proof {
            assert(texts(ids@)[i as int] == ids@[i as int]@);
            assert(want[i as int] == r@);
            lemma_receipts_push(out@, r);
            assert(start + want.take(i + 1) =~= (start + want.take(i as int)).push(r@));
        }
        out.push(r);
        i += 1;
    }
    proof {
        assert(texts(ids@).len() == ids@.len());
        assert(want.take(i as int) =~= want);
    }
}

fn read_users(out: &mut Vec<Receipt>, room: &str, ty: &str, users: &Vec<(String, Json)>, origin: &str)
    ensures
        receipts(final(out)@) == receipts(old(out)@) + users_receipts(
            room@,
            ty@,
            members(users@),
            origin@,
        ),
{
    let ghost start = receipts(out@);
    let ghost v = members(users@);
    let mut i: usize = 0;
    proof {
        assert(v.take(0) =~= seq![]);
        assert(start + users_receipts(room@, ty@, v.take(0), origin@) =~= start);
    }
    while i < users.len()
        invariant
            i <= users.len(),
            v == members(users@),
            receipts(out@) == start + users_receipts(room@, ty@, v.take(i as int), origin@),
        decreases users.len() - i,
    {
        proof {
            assert(v.take(i + 1).drop_last() =~= v.take(i as int));
            assert(v.take(i + 1).last() == (users@[i as int].0@, users@[i as int].1@));
        }
        let ghost before = users_receipts(room@, ty@, v.take(i as int), origin@);
        read_user(out, room, ty, users[i].0.as_str(), &users[i].1, origin);
        proof {
            let one = user_receipts(
                room@,
                ty@,
                users@[i as int].0@,
                users@[i as int].1@,
                origin@,
            );
            assert(start + before + one =~= start + (before + one));
        }
        i += 1;
    }
    proof {
        assert(v.take(i as int) =~= v);
    }
}

/// The receipts to store from what a server states for a room, in order.
fn read_room(room_id: &str, types: &Vec<(String, Json)>, origin: &str) -> (r: Vec<Receipt>)
    ensures
        receipts(r@) == room_receipts(room_id@, members(types@), origin@),
{
    let ghost v = members(types@);
    let mut out: Vec<Receipt> = Vec::new();
    let mut i: usize = 0;
    proof {
        assert(v.take(0) =~= seq![]);
        assert(receipts(out@) =~= seq![]);
    }
    while i < types.len()
        invariant
            i <= types.len(),
            v == members(types@),
            receipts(out@) == room_receipts(room_id@, v.take(i as int), origin@),
        decreases types.len() - i,
    {
        proof {
            assert(v.take(i + 1).drop_last() =~= v.take(i as int));
            assert(v.take(i + 1).last() == (types@[i as int].0@, types@[i as int].1@));
        }
        if !str_eq(types[i].0.as_str(), "m.read.private") {
            match types[i].1.as_object() {
                Some(users) => {
                    read_users(&mut out, room_id, types[i].0.as_str(), users, origin);
                },
                None => {},
            }
        }
        i += 1;
    }
    proof {
        assert(v.take(i as int) =~= v);
    }
    out
}

/// A server's receipts are taken for its own users only, and never private ones.
pub proof fn law_receipts_of_own_users(
    room: Seq<char>,
    types: Seq<(Seq<char>, JsonView)>,
    origin: Seq<char>,
    i: int,
)
    requires
        0 <= i < room_receipts(room, types, origin).len(),
    ensures
        belongs_to(room_receipts(room, types, origin)[i].user_id, origin),
        room_receipts(room, types, origin)[i].receipt_type != "m.read.private"@,
        room_receipts(room, types, origin)[i].room_id == room,
    decreases types.len(),
{
    let before = room_receipts(room, types.drop_last(), origin);
    let (ty, users) = types.last();
    if i < before.len() {
        law_receipts_of_own_users(room, types.drop_last(), origin, i);
    } else {
        lemma_users_receipts(room, ty, users.as_object()->0, origin, i - before.len());
    }
}

proof fn lemma_users_receipts(
    room: Seq<char>,
    ty: Seq<char>,
    users: Seq<(Seq<char>, JsonView)>,
    origin: Seq<char>,
    i: int,
)
    requires
        0 <= i < users_receipts(room, ty, users, origin).len(),
    ensures
        belongs_to(users_receipts(room, ty, users, origin)[i].user_id, origin),
        users_receipts(room, ty, users, origin)[i].receipt_type == ty,
        users_receipts(room, ty, users, origin)[i].room_id == room,
    decreases users.len(),
{
    let before = users_receipts(room, ty, users.drop_last(), origin);
    if i < before.len() {
        lemma_users_receipts(room, ty, users.drop_last(), origin, i);
    }
}

/// Where a user's receipts for a room and for its threads meet, a receipt for
/// the whole room prevails: once there is one, the receipt that counts is one.
pub proof fn law_unthreaded_prevails(
    v: Seq<ReceiptView>,
    room: Seq<char>,
    ty: Seq<char>,
    user: Seq<char>,
    i: int,
)
    requires
        0 <= i < v.len(),
        v[i].room_id == room,
        v[i].receipt_type == ty,
        v[i].user_id == user,
        v[i].thread_id is None,
    ensures
        receipt_at(v, room, ty, user) is Some,
        receipt_at(v, room, ty, user)->0.thread_id is None,
    decreases v.len(),
{
    if i < v.len() - 1 {
        assert(v.drop_last()[i] == v[i]);
        law_unthreaded_prevails(v.drop_last(), room, ty, user, i);
    }
}

/// Whether receipts of a server for a room count: the room is known, its access
/// control list admits the server, and they are an object.
pub open spec fn counts(room: (Seq<char>, JsonView), origin: Seq<char>, g: RoomAcls) -> bool {
    &&& room.1.as_object() is Some
    &&& g(room.0) is Some
    &&& acl_refusal(g(room.0)->0, origin) is None
}

/// The receipts that count among those that a server states.
pub open spec fn stated_receipts(
    rooms: Seq<(Seq<char>, JsonView)>,
    origin: Seq<char>,
    g: RoomAcls,
) -> Seq<ReceiptView>
    decreases rooms.len(),
{
    if rooms.len() == 0 {
        seq![]
    } else {
        let before = stated_receipts(rooms.drop_last(), origin, g);
        if counts(rooms.last(), origin, g) {
            before + room_receipts(rooms.last().0, rooms.last().1.as_object()->0, origin)
        } else {
            before
        }
    }
}

/// The rooms for which a server states receipts that count.
pub open spec fn stated_rooms(
    rooms: Seq<(Seq<char>, JsonView)>,
    origin: Seq<char>,
    g: RoomAcls,
) -> Seq<Seq<char>>
    decreases rooms.len(),
{
    if rooms.len() == 0 {
        seq![]
    } else {
        let before = stated_rooms(rooms.drop_last(), origin, g);
        if counts(rooms.last(), origin, g) {
            before.push(rooms.last().0)
        } else {
            before
        }
    }
}

/// Whether receipts and rooms are those that some content calls for.
pub open spec fn is_receipt_plan(
    content: JsonView,
    origin: Seq<char>,
    g: RoomAcls,
    stored: Seq<ReceiptView>,
    woken: Seq<Seq<char>>,
) -> bool {
    match content.as_object() {
        Some(m) => stored == stated_receipts(m, origin, g) && woken == stated_rooms(m, origin, g),
        None => stored.len() == 0 && woken.len() == 0,
    }
}

/// The receipts to store from what a server states, in order, and the rooms
/// whose clients to wake. `acl_of` says of a room whether it is known, and what
/// its access control list is.
pub fn handle_receipt<F: Fn(&str) -> Option<Option<Json>>>(
    content: &Json,
    origin: &str,
    acl_of: F,
) -> (r: (Vec<Receipt>, Vec<String>))
    requires
        forall|s: &str| #[trigger] acl_of.requires((s,)),
    ensures
        forall|g: RoomAcls| #[trigger]
            tells_acls(acl_of, g) ==> is_receipt_plan(
                content@,
                origin@,
                g,
                receipts(r.0@),
                texts(r.1@),
            ),
{
    let mut out: Vec<Receipt> = Vec::new();
    let mut woken: Vec<String> = Vec::new();
    proof {
        assert(receipts(out@) =~= seq![]);
        assert(texts(woken@) =~= seq![]);
    }
    let rooms = match content.as_object() {
        Some(m) => m,
        None => {
            return (out, woken);
        },
    };
    let ghost v = members(rooms@);
    let mut i: usize = 0;
    proof {
        assert(v.take(0) =~= seq![]);
    }
    while i < rooms.len()
        invariant
            i <= rooms.len(),
            v == members(rooms@),
            content@.as_object() == Some(v),
            forall|s: &str| #[trigger] acl_of.requires((s,)),
            forall|g: RoomAcls| #[trigger]
                tells_acls(acl_of, g) ==> receipts(out@) == stated_receipts(
                    v.take(i as int),
                    origin@,
                    g,
                ) && texts(woken@) == stated_rooms(v.take(i as int), origin@, g),
        decreases rooms.len() - i,
    {
        proof {
            assert(v.take(i + 1).drop_last() =~= v.take(i as int));
            assert(v.take(i + 1).last() == (rooms@[i as int].0@, rooms@[i as int].1@));
        }
        let name = rooms[i].0.as_str();
        match rooms[i].1.as_object() {
            Some(types) => {
                let acl = acl_of(name);
                if admits(&acl, origin) {
                    let ghost before = out@;
                    let mut more = read_room(name, types, origin);
                    let ghost added = more@;
                    out.append(&mut more);
                    let s = name.to_owned();
                    proof {
                        assert(receipts(before + added) =~= receipts(before) + receipts(added));
                        lemma_texts_push(woken@, s);
                    }
                    woken.push(s);
                }
            },
            None => {},
        }
        i += 1;
    }
    proof {
        assert(v.take(i as int) =~= v);
    }
    (out, woken)
}

/// No receipt is taken for a room whose access control list keeps the sending
/// server out, or that is not known.
pub proof fn law_receipts_obey_acl(
    rooms: Seq<(Seq<char>, JsonView)>,
    origin: Seq<char>,
    g: RoomAcls,
    i: int,
)
    requires
        0 <= i < stated_receipts(rooms, origin, g).len(),
    ensures
        g(stated_receipts(rooms, origin, g)[i].room_id) is Some,
        acl_refusal(g(stated_receipts(rooms, origin, g)[i].room_id)->0, origin) is None,
        belongs_to(stated_receipts(rooms, origin, g)[i].user_id, origin),
    decreases rooms.len(),
{
    let before = stated_receipts(rooms.drop_last(), origin, g);
    if i < before.len() {
        law_receipts_obey_acl(rooms.drop_last(), origin, g, i);
    } else {
        let (room, types) = rooms.last();
        law_receipts_of_own_users(room, types.as_object()->0, origin, i - before.len());
    }
}

proof fn lemma_receipt_keys(
    v: Seq<ReceiptView>,
    room: Seq<char>,
    receipt_type: Seq<char>,
    user: Seq<char>,
)
    requires
        receipt_at(v, room, receipt_type, user) is Some,
    ensures
        ({
            let r = receipt_at(v, room, receipt_type, user)->0;
            r.room_id == room && r.receipt_type == receipt_type && r.user_id == user
        }),
    decreases v.len(),
{
    if receipt_at(v.drop_last(), room, receipt_type, user) is Some {
        lemma_receipt_keys(v.drop_last(), room, receipt_type, user);
    }
}

/// What a receipt says once it is written is what it said before.
proof fn lemma_receipt_json(r: ReceiptView)
    ensures
        payload_events(receipt_json(r)) == seq![r.event_id],
        payload_ts(receipt_json(r)) == r.ts,
        receipt_json(r).str_within("data"@, "thread_id"@) == r.thread_id,
        receipt_json(r).as_object() is Some,
{
    reveal_with_fuel(member, 3);
    reveal_with_fuel(crate::json::strings_in, 2);
    reveal_strlit("event_ids");
    reveal_strlit("data");
    reveal_strlit("ts");
    reveal_strlit("thread_id");
    let m = receipt_json(r)->Object_0;
    let ids = seq![JsonView::Str(r.event_id)];
    assert("event_ids"@.len() == 9 && "data"@.len() == 4);
    assert("ts"@.len() == 2 && "thread_id"@.len() == 9);
    assert(m[0] == ("event_ids"@, JsonView::Array(ids)));
    assert(m.drop_first()[0] == m[1]);
    assert(ids.drop_last() =~= seq![]);
    assert(crate::json::strings_in(ids) =~= seq![r.event_id]);
    let data = m[1].1->Object_0;
    assert(data[0] == ("ts"@, JsonView::Number(NumberView::Unsigned(r.ts))));
    match r.thread_id {
        Some(t) => {
            assert(data[1] == ("thread_id"@, JsonView::Str(t)));
            assert(data.drop_first()[0] == data[1]);
        },
        None => {
            assert(data.drop_first() =~= seq![]);
        },
    }
}

proof fn lemma_in_users(
    room: Seq<char>,
    ty: Seq<char>,
    users: Seq<(Seq<char>, JsonView)>,
    origin: Seq<char>,
    i: int,
    r: ReceiptView,
)
    requires
        0 <= i < users.len(),
        user_receipts(room, ty, users[i].0, users[i].1, origin).contains(r),
    ensures
        users_receipts(room, ty, users, origin).contains(r),
    decreases users.len(),
{
    let before = users_receipts(room, ty, users.drop_last(), origin);
    let last = user_receipts(room, ty, users.last().0, users.last().1, origin);
    if i < users.len() - 1 {
        lemma_in_users(room, ty, users.drop_last(), origin, i, r);
        lemma_in_sum(before, last, r);
    } else {
        lemma_in_sum(before, last, r);
    }
}

proof fn lemma_in_sum(a: Seq<ReceiptView>, b: Seq<ReceiptView>, r: ReceiptView)
    requires
        a.contains(r) || b.contains(r),
    ensures
        (a + b).contains(r),
{
    let s = a + b;
    if a.contains(r) {
        let i = choose|i: int| 0 <= i < a.len() && a[i] == r;
        assert(s[i] == r);
    } else {
        let i = choose|i: int| 0 <= i < b.len() && b[i] == r;
        assert(s[a.len() + i] == r);
    }
}

proof fn lemma_in_room(
    room: Seq<char>,
    types: Seq<(Seq<char>, JsonView)>,
    origin: Seq<char>,
    i: int,
    r: ReceiptView,
)
    requires
        0 <= i < types.len(),
        types[i].0 != "m.read.private"@,
        types[i].1.as_object() is Some,
        users_receipts(room, types[i].0, types[i].1.as_object()->0, origin).contains(r),
    ensures
        room_receipts(room, types, origin).contains(r),
    decreases types.len(),
{
    let before = room_receipts(room, types.drop_last(), origin);
    let (ty, users) = types.last();
    if i < types.len() - 1 {
        lemma_in_room(room, types.drop_last(), origin, i, r);
    }
    if !(ty == "m.read.private"@ || users.as_object() is None) {
        lemma_in_sum(before, users_receipts(room, ty, users.as_object()->0, origin), r);
    }
}

proof fn lemma_in_stated(
    rooms: Seq<(Seq<char>, JsonView)>,
    origin: Seq<char>,
    g: RoomAcls,
    i: int,
    r: ReceiptView,
)
    requires
        0 <= i < rooms.len(),
        counts(rooms[i], origin, g),
        room_receipts(rooms[i].0, rooms[i].1.as_object()->0, origin).contains(r),
    ensures
        stated_receipts(rooms, origin, g).contains(r),
    decreases rooms.len(),
{
    let before = stated_receipts(rooms.drop_last(), origin, g);
    if i < rooms.len() - 1 {
        lemma_in_stated(rooms.drop_last(), origin, g, i, r);
    }
    if counts(rooms.last(), origin, g) {
        lemma_in_sum(
            before,
            room_receipts(rooms.last().0, rooms.last().1.as_object()->0, origin),
            r,
        );
    }
}

/// A receipt that one server puts into a unit is taken from it by another: the
/// same event, time and thread for the same user, as long as the user is one of
/// the sending server and the room is known and does not keep that server out.
pub proof fn law_receipts_arrive(
    edu: JsonView,
    v: Seq<ReceiptView>,
    room: Seq<char>,
    ty: Seq<char>,
    user: Seq<char>,
    origin: Seq<char>,
    g: RoomAcls,
)
    requires
        is_receipt_edu(edu, v),
        receipt_at(v, room, ty, user) is Some,
        ty != "m.read.private"@,
        belongs_to(user, origin),
        g(room) is Some,
        acl_refusal(g(room)->0, origin) is None,
    ensures
        edu.get("content"@)->0.as_object() is Some,
        stated_receipts(edu.get("content"@)->0.as_object()->0, origin, g).contains(
            receipt_at(v, room, ty, user)->0,
        ),
{
    let r = receipt_at(v, room, ty, user)->0;
    let content = edu.get("content"@)->0;
    assert(nested(content, room, ty, user) == Some(receipt_json(r)));
    lemma_receipt_keys(v, room, ty, user);
    lemma_receipt_json(r);
    let rooms = content.as_object()->0;
    let types = content.get(room)->0.as_object()->0;
    let users = content.get(room)->0.get(ty)->0.as_object()->0;
    let payload = receipt_json(r);
    let k = lemma_member_entry(users, user);
    let one = user_receipts(room, ty, user, payload, origin);
    assert(one[0] == r);
    assert(one.contains(r));
    lemma_in_users(room, ty, users, origin, k, r);
    let j = lemma_member_entry(types, ty);
    lemma_in_room(room, types, origin, j, r);
    let i = lemma_member_entry(rooms, room);
    lemma_in_stated(rooms, origin, g, i, r);
}

proof fn lemma_entries_taken(
    entries: Seq<StreamEntry>,
    n: int,
    destination: Seq<char>,
    servers: RoomServers,
    names: Names,
)
    requires
        0 <= n <= entries.len(),
    ensures
        n <= entries_taken(entries, n, destination, servers, names) <= entries.len(),
    decreases entries.len() - n,
{
    if n < entries.len() {
        lemma_entries_taken(entries, n + 1, destination, servers, names);
    }
}

/// The cursor after a scan lies behind exactly the entries that were looked at:
/// none is passed over unseen, none is looked at again, and a scan that gives
/// something moves the cursor.
pub proof fn law_receipt_cursor(
    entries: Seq<StreamEntry>,
    destination: Seq<char>,
    cursor: u64,
    servers: RoomServers,
    names: Names,
)
    requires
        entries.len() > 0,
        entries[0].position > cursor,
        forall|i: int, j: int|
            0 <= i < j < entries.len() ==> (#[trigger] entries[i]).position < (
            #[trigger] entries[j]).position,
    ensures
        ({
            let stop = entries_taken(entries, 0, destination, servers, names);
            let next = next_cursor(entries, stop, cursor);
            &&& forall|i: int|
                0 <= i < entries.len() ==> ((#[trigger] entries[i]).position <= next <==> i < stop)
            &&& receipts_in(entries, stop, destination, servers, names).len() > 0 ==> next > cursor
        }),
{
    lemma_entries_taken(entries, 0, destination, servers, names);
    let stop = entries_taken(entries, 0, destination, servers, names);
    let next = next_cursor(entries, stop, cursor);
    let n = entries.len() as int;
    assert forall|i: int| 0 <= i < n implies ((#[trigger] entries[i]).position <= next <==> i
        < stop) by {
        assert(i > 0 ==> entries[0].position < entries[i].position);
        if stop < n {
            assert(stop > 0 ==> entries[0].position < entries[stop].position);
            assert(i < stop ==> entries[i].position < entries[stop].position);
            assert(i > stop ==> entries[stop].position < entries[i].position);
        } else {
            assert(i < n - 1 ==> entries[i].position < entries[n - 1].position);
        }
    }
    if stop > 0 {
        assert(entries[0].position <= next);
    }
}

/// Whether a server states a receipt at a place of what it sent: under the
/// receipt's room, its type, which is not the private one, its user, who is one of
/// the server's, and among the events there, with the time and thread of the same
/// payload.
pub open spec fn states_at(
    rooms: Seq<(Seq<char>, JsonView)>,
    origin: Seq<char>,
    r: ReceiptView,
    i: int,
    j: int,
    k: int,
    n: int,
) -> bool {
    &&& 0 <= i < rooms.len()
    &&& rooms[i].0 == r.room_id
    &&& rooms[i].1 matches JsonView::Object(types)
    &&& 0 <= j < types.len()
    &&& types[j].0 == r.receipt_type
    &&& r.receipt_type != "m.read.private"@
    &&& types[j].1 matches JsonView::Object(users)
    &&& 0 <= k < users.len()
    &&& users[k].0 == r.user_id
    &&& belongs_to(r.user_id, origin)
    &&& users[k].1.get("event_ids"@) matches Some(JsonView::Array(ids))
    &&& 0 <= n < ids.len()
    &&& ids[n] == JsonView::Str(r.event_id)
    &&& r.ts == (match users[k].1.get("data"@) {
        Some(d) => match d.get("ts"@) {
            Some(t) => match t.as_u64() {
                Some(x) => x,
                None => 0,
            },
            None => 0,
        },
        None => 0,
    })
    &&& r.thread_id == (match users[k].1.get("data"@) {
        Some(d) => match d.get("thread_id"@) {
            Some(JsonView::Str(t)) => Some(t),
            _ => None,
        },
        None => None,
    })
}

proof fn lemma_of_user(
    room: Seq<char>,
    ty: Seq<char>,
    users: Seq<(Seq<char>, JsonView)>,
    origin: Seq<char>,
    r: ReceiptView,
) -> (k: int)
    requires
        users_receipts(room, ty, users, origin).contains(r),
    ensures
        0 <= k < users.len(),
        user_receipts(room, ty, users[k].0, users[k].1, origin).contains(r),
    decreases users.len(),
{
    let all = users_receipts(room, ty, users, origin);
    let front = users.drop_last();
    let before = users_receipts(room, ty, front, origin);
    let last = user_receipts(room, ty, users.last().0, users.last().1, origin);
    let x = choose|x: int| 0 <= x < all.len() && all[x] == r;
    if x < before.len() {
        assert(before[x] == r);
        lemma_of_user(room, ty, front, origin, r)
    } else {
        assert(last[x - before.len()] == r);
        users.len() - 1
    }
}

proof fn lemma_of_type(
    room: Seq<char>,
    types: Seq<(Seq<char>, JsonView)>,
    origin: Seq<char>,
    r: ReceiptView,
) -> (j: int)
    requires
        room_receipts(room, types, origin).contains(r),
    ensures
        0 <= j < types.len(),
        types[j].0 != "m.read.private"@,
        types[j].1 is Object,
        users_receipts(room, types[j].0, types[j].1->Object_0, origin).contains(r),
    decreases types.len(),
{
    let all = room_receipts(room, types, origin);
    let front = types.drop_last();
    let before = room_receipts(room, front, origin);
    let (ty, users) = types.last();
    let x = choose|x: int| 0 <= x < all.len() && all[x] == r;
    if x < before.len() {
        assert(before[x] == r);
        lemma_of_type(room, front, origin, r)
    } else {
        assert(users_receipts(room, ty, users.as_object()->0, origin)[x - before.len()] == r);
        types.len() - 1
    }
}

proof fn lemma_of_room(
    rooms: Seq<(Seq<char>, JsonView)>,
    origin: Seq<char>,
    g: RoomAcls,
    r: ReceiptView,
) -> (i: int)
    requires
        stated_receipts(rooms, origin, g).contains(r),
    ensures
        0 <= i < rooms.len(),
        counts(rooms[i], origin, g),
        room_receipts(rooms[i].0, rooms[i].1->Object_0, origin).contains(r),
    decreases rooms.len(),
{
    let all = stated_receipts(rooms, origin, g);
    let front = rooms.drop_last();
    let before = stated_receipts(front, origin, g);
    let x = choose|x: int| 0 <= x < all.len() && all[x] == r;
    if x < before.len() {
        assert(before[x] == r);
        lemma_of_room(front, origin, g, r)
    } else {
        let last = room_receipts(rooms.last().0, rooms.last().1.as_object()->0, origin);
        assert(last[x - before.len()] == r);
        rooms.len() - 1
    }
}

/// A receipt is taken from what a server sends exactly if the server states it and
/// its room is known and does not keep the server out: every event that a payload
/// names counts, and nothing that is not stated does.
pub proof fn law_stated_receipts(
    rooms: Seq<(Seq<char>, JsonView)>,
    origin: Seq<char>,
    g: RoomAcls,
    r: ReceiptView,
)
    ensures
        stated_receipts(rooms, origin, g).contains(r) <==> g(r.room_id) is Some && acl_refusal(
            g(r.room_id)->0,
            origin,
        ) is None && exists|i: int, j: int, k: int, n: int| #[trigger]
            states_at(rooms, origin, r, i, j, k, n),
{
    if stated_receipts(rooms, origin, g).contains(r) {
        let i = lemma_of_room(rooms, origin, g, r);
        let types = rooms[i].1->Object_0;
        let j = lemma_of_type(rooms[i].0, types, origin, r);
        let users = types[j].1->Object_0;
        let k = lemma_of_user(rooms[i].0, types[j].0, users, origin, r);
        let one = user_receipts(rooms[i].0, types[j].0, users[k].0, users[k].1, origin);
        let x = choose|x: int| 0 <= x < one.len() && one[x] == r;
        let events = payload_events(users[k].1);
        assert(events[x] == r.event_id);
        assert(events.contains(r.event_id));
        let ids = users[k].1.array_at("event_ids"@)->0;
        crate::json::law_strings(ids);
        let n = choose|n: int| 0 <= n < ids.len() && ids[n] == JsonView::Str(r.event_id);
        assert(states_at(rooms, origin, r, i, j, k, n));
    }
    if g(r.room_id) is Some && acl_refusal(g(r.room_id)->0, origin) is None && (exists|
        i: int,
        j: int,
        k: int,
        n: int,
    | #[trigger]
        states_at(rooms, origin, r, i, j, k, n)) {
        let (i, j, k, n) = choose|i: int, j: int, k: int, n: int| #[trigger]
            states_at(rooms, origin, r, i, j, k, n);
        let types = rooms[i].1->Object_0;
        let users = types[j].1->Object_0;
        let payload = users[k].1;
        let ids = payload.array_at("event_ids"@)->0;
        crate::json::law_strings(ids);
        let events = payload_events(payload);
        assert(ids[n] is Str);
        assert(events.contains(r.event_id));
        let x = choose|x: int| 0 <= x < events.len() && events[x] == r.event_id;
        let one = user_receipts(rooms[i].0, types[j].0, users[k].0, payload, origin);
        assert(one[x] == r);
        lemma_in_users(rooms[i].0, types[j].0, users, origin, k, r);
        lemma_in_room(rooms[i].0, types, origin, j, r);
        lemma_in_stated(rooms, origin, g, i, r);
    }
}

/// The rooms to wake are exactly those for which a server states receipts that
/// count, in order.
pub proof fn law_woken_rooms(rooms: Seq<(Seq<char>, JsonView)>, origin: Seq<char>, g: RoomAcls)
    ensures
        stated_rooms(rooms, origin, g) == rooms.filter_map(
            |e: (Seq<char>, JsonView)|
                if e.1 is Object && g(e.0) is Some && acl_refusal(g(e.0)->0, origin) is None {
                    Some(e.0)
                } else {
                    None
                },
        ),
    decreases rooms.len(),
{
    if rooms.len() > 0 {
        law_woken_rooms(rooms.drop_last(), origin, g);
        let s = stated_rooms(rooms.drop_last(), origin, g);
        assert(s.push(rooms.last().0) =~= s + seq![rooms.last().0]);
    }
}

/// Of several receipts of one user for a room and a type the last one for the
/// whole room counts; only where there is none does one for a thread, the last.
pub proof fn law_which_receipt_counts(
    v: Seq<ReceiptView>,
    room: Seq<char>,
    ty: Seq<char>,
    user: Seq<char>,
)
    ensures
        match receipt_at(v, room, ty, user) {
            Some(r) => {
                &&& r.room_id == room && r.receipt_type == ty && r.user_id == user
                &&& exists|i: int|
                    0 <= i < v.len() && #[trigger] v[i] == r && forall|j: int|
                        i < j < v.len() && (#[trigger] v[j]).room_id == room && v[j].receipt_type
                            == ty && v[j].user_id == user ==> r.thread_id is None
                            && v[j].thread_id is Some
                &&& r.thread_id is Some ==> forall|j: int|
                    0 <= j < v.len() && (#[trigger] v[j]).room_id == room && v[j].receipt_type == ty
                        && v[j].user_id == user ==> v[j].thread_id is Some
            },
            None => forall|j: int|
                0 <= j < v.len() ==> !((#[trigger] v[j]).room_id == room && v[j].receipt_type == ty
                    && v[j].user_id == user),
        },
    decreases v.len(),
{
    if v.len() > 0 {
        let front = v.drop_last();
        let last = v.len() - 1;
        law_which_receipt_counts(front, room, ty, user);
        let mine = v[last].room_id == room && v[last].receipt_type == ty && v[last].user_id == user;
        assert forall|j: int| 0 <= j < front.len() implies front[j] == #[trigger] v[j] by {}
        match receipt_at(front, room, ty, user) {
            Some(o) => {
                let i = choose|i: int|
                    0 <= i < front.len() && #[trigger] front[i] == o && forall|j: int|
                        i < j < front.len() && (#[trigger] front[j]).room_id == room
                            && front[j].receipt_type == ty && front[j].user_id == user
                            ==> o.thread_id is None && front[j].thread_id is Some;
                assert(v[i] == o);
                if mine && !(o.thread_id is None && v[last].thread_id is Some) {
                    assert(v[last] == receipt_at(v, room, ty, user)->0);
                } else {
                    assert(receipt_at(v, room, ty, user) == Some(o));
                    assert forall|j: int|
                        i < j < v.len() && (#[trigger] v[j]).room_id == room && v[j].receipt_type
                            == ty && v[j].user_id == user implies o.thread_id is None
                        && v[j].thread_id is Some by {
                        if j < front.len() {
                            assert(front[j] == v[j]);
                        }
                    }
                }
                let r = receipt_at(v, room, ty, user)->0;
                if r.thread_id is Some {
                    assert forall|j: int|
                        0 <= j < v.len() && (#[trigger] v[j]).room_id == room && v[j].receipt_type
                            == ty && v[j].user_id == user implies v[j].thread_id is Some by {
                        if j < front.len() {
                            assert(front[j] == v[j]);
                        }
                    }
                }
            },
            None => {
                if mine {
                    assert(v[last] == receipt_at(v, room, ty, user)->0);
                }
            },
        }
    }
}

/// The receipts that a scan collects are those of all the entries that it looked
/// at, in order. It looks at all there are, or stops as soon as the unit is full,
/// and no sooner.
pub proof fn law_scans(
    entries: Seq<StreamEntry>,
    destination: Seq<char>,
    servers: RoomServers,
    names: Names,
)
    ensures
        ({
            let stop = entries_taken(entries, 0, destination, servers, names);
            &&& 0 <= stop <= entries.len()
            &&& receipts_in(entries, stop, destination, servers, names) == entries.take(
                stop,
            ).filter_map(|e: StreamEntry| receipt_for(e.entry@, destination, servers, names))
            &&& stop < entries.len() ==> receipts_in(
                entries,
                stop,
                destination,
                servers,
                names,
            ).len() >= MAX_RECEIPTS_PER_EDU
            &&& forall|n: int|
                0 <= n < stop ==> (#[trigger] receipts_in(
                    entries,
                    n,
                    destination,
                    servers,
                    names,
                )).len() < MAX_RECEIPTS_PER_EDU
        }),
{
    lemma_entries_taken(entries, 0, destination, servers, names);
    lemma_stop(entries, 0, destination, servers, names);
    let stop = entries_taken(entries, 0, destination, servers, names);
    lemma_receipts_in(entries, stop, destination, servers, names);
}

proof fn lemma_stop(
    entries: Seq<StreamEntry>,
    from: int,
    destination: Seq<char>,
    servers: RoomServers,
    names: Names,
)
    requires
        0 <= from <= entries.len(),
    ensures
        ({
            let stop = entries_taken(entries, from, destination, servers, names);
            &&& stop < entries.len() ==> receipts_in(
                entries,
                stop,
                destination,
                servers,
                names,
            ).len() >= MAX_RECEIPTS_PER_EDU
            &&& forall|n: int|
                from <= n < stop ==> (#[trigger] receipts_in(
                    entries,
                    n,
                    destination,
                    servers,
                    names,
                )).len() < MAX_RECEIPTS_PER_EDU
        }),
    decreases entries.len() - from,
{
    if from < entries.len() && receipts_in(entries, from, destination, servers, names).len()
        < MAX_RECEIPTS_PER_EDU {
        lemma_stop(entries, from + 1, destination, servers, names);
    }
}

proof fn lemma_receipts_in(
    entries: Seq<StreamEntry>,
    n: int,
    destination: Seq<char>,
    servers: RoomServers,
    names: Names,
)
    requires
        0 <= n <= entries.len(),
    ensures
        receipts_in(entries, n, destination, servers, names) == entries.take(n).filter_map(
            |e: StreamEntry| receipt_for(e.entry@, destination, servers, names),
        ),
    decreases n,
{
    if n > 0 {
        lemma_receipts_in(entries, n - 1, destination, servers, names);
        assert(entries.take(n).drop_last() =~= entries.take(n - 1));
        assert(entries.take(n).last() == entries[n - 1]);
        let s = receipts_in(entries, n - 1, destination, servers, names);
        if let Some(r) = receipt_for(entries[n - 1].entry@, destination, servers, names) {
            assert(s.push(r) =~= s + seq![r]);
        }
    }
}

/// A stored receipt goes to a server exactly if it is whole, its room and user have
/// names, and the server is in the room; it goes as it was stored.
pub proof fn law_receipts_for_a_server(
    entry: JsonView,
    destination: Seq<char>,
    servers: RoomServers,
    names: Names,
)
    ensures
        match receipt_for(entry, destination, servers, names) {
            Some(r) => exists|room: u64, user: u64|
                #![trigger names(room), names(user)]
                entry.get("room"@) is Some && entry.get("room"@)->0.as_u64() == Some(room)
                    && entry.get("user"@) is Some && entry.get("user"@)->0.as_u64() == Some(user)
                    && names(room) == Some(r.room_id) && names(user) == Some(r.user_id) && (
                servers(room) matches Some(v) && v.contains(destination)) && entry.get("type"@)
                    == Some(JsonView::Str(r.receipt_type)) && entry.get("event_id"@) == Some(
                    JsonView::Str(r.event_id),
                ) && (entry.get("ts"@) is None ==> r.ts == 0) && (entry.get("ts"@) matches Some(t)
                    ==> (t.as_u64() matches Some(x) ==> r.ts == x)) && (r.thread_id matches Some(t)
                    ==> entry.get("thread_id"@) == Some(JsonView::Str(t))) && (entry.get(
                    "thread_id"@,
                ) matches Some(JsonView::Str(t)) ==> r.thread_id == Some(t)),
            None => !(exists|room: u64, user: u64|
                #![trigger names(room), names(user)]
                entry.get("room"@) is Some && entry.get("room"@)->0.as_u64() == Some(room)
                    && entry.get("user"@) is Some && entry.get("user"@)->0.as_u64() == Some(user)
                    && names(room) is Some && names(user) is Some && (servers(room) matches Some(v)
                    && v.contains(destination)) && (entry.get("type"@) matches Some(
                    JsonView::Str(_),
                )) && (entry.get("event_id"@) matches Some(JsonView::Str(_)))),
        },
{
    if let Some(r) = receipt_for(entry, destination, servers, names) {
        let room = entry.u64_at("room"@)->0;
        let user = entry.u64_at("user"@)->0;
        assert(names(room) == Some(r.room_id) && names(user) == Some(r.user_id));
    }
}

} // verus!
