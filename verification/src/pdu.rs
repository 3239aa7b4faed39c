//! Room events as the federation layer reads them.

use vstd::prelude::*;
use vstd::string::*;

use crate::json::Json;
use crate::json::JsonView;
use crate::text::clone_list;
use crate::text::law_split_once;
use crate::text::opt_string;
use crate::text::opt_text;
use crate::text::split_once;
use crate::text::split_once_at;
use crate::text::str_eq;
use crate::text::texts;

verus! {

/// A persistent data unit: the fields of a room event.
pub struct Pdu {
    pub event_id: String,
    pub event_type: String,
    pub sender: String,
    /// Empty when the event names no room.
    pub room_id: String,
    /// Present exactly on state events.
    pub state_key: Option<String>,
    pub content: Json,
    pub prev_events: Vec<String>,
    pub auth_events: Vec<String>,
    pub depth: u64,
    pub origin_server_ts: u64,
}

/// The mathematical value of a room event.
pub struct PduView {
    pub event_id: Seq<char>,
    pub event_type: Seq<char>,
    pub sender: Seq<char>,
    pub room_id: Seq<char>,
    pub state_key: Option<Seq<char>>,
    pub content: JsonView,
    pub prev_events: Seq<Seq<char>>,
    pub auth_events: Seq<Seq<char>>,
    pub depth: u64,
    pub origin_server_ts: u64,
}

/// The server part of an identifier: everything after its first colon.
pub open spec fn server_part(id: Seq<char>) -> Option<Seq<char>> {
    match split_once_at(id, ':') {
        Some((_, server)) => Some(server),
        None => None,
    }
}

/// Whether an identifier belongs to a server.
pub open spec fn belongs_to(id: Seq<char>, server: Seq<char>) -> bool {
    server_part(id) == Some(server)
}

impl PduView {
    /// The `membership` of the content.
    pub open spec fn membership(self) -> Option<Seq<char>> {
        self.content.str_at("membership"@)
    }

    /// The server of the sender.
    pub open spec fn sender_domain(self) -> Option<Seq<char>> {
        server_part(self.sender)
    }

    pub open spec fn is_member_event(self) -> bool {
        self.event_type == "m.room.member"@
    }
}

/// The server part of an identifier.
pub fn domain_of(id: &str) -> (r: Option<&str>)
    ensures
        opt_text(r) == server_part(id@),
{
    match split_once(id, ':') {
        Some((_, d)) => Some(d),
        None => None,
    }
}

/// Whether an identifier belongs to a server.
pub fn id_belongs_to(id: &str, server: &str) -> (r: bool)
    ensures
        r == belongs_to(id@, server@),
{
    match domain_of(id) {
        Some(d) => str_eq(d, server),
        None => false,
    }
}

impl Pdu {
    pub open spec fn view(&self) -> PduView {
        PduView {
            event_id: self.event_id@,
            event_type: self.event_type@,
            sender: self.sender@,
            room_id: self.room_id@,
            state_key: opt_string(self.state_key),
            content: self.content@,
            prev_events: texts(self.prev_events@),
            auth_events: texts(self.auth_events@),
            depth: self.depth,
            origin_server_ts: self.origin_server_ts,
        }
    }

    /// The `membership` of the content.
    pub fn membership(&self) -> (r: Option<&str>)
        ensures
            opt_text(r) == self@.membership(),
    {
        self.content.str_at("membership")
    }

    /// The server of the sender.
    pub fn sender_domain(&self) -> (r: Option<&str>)
        ensures
            opt_text(r) == self@.sender_domain(),
    {
        domain_of(self.sender.as_str())
    }

    /// A copy with the same fields.
    pub fn copy(&self) -> (r: Pdu)
        ensures
            r@ == self@,
    {
        Pdu {
            event_id: self.event_id.clone(),
            event_type: self.event_type.clone(),
            sender: self.sender.clone(),
            room_id: self.room_id.clone(),
            state_key: match &self.state_key {
                Some(s) => Some(s.clone()),
                None => None,
            },
            content: self.content.copy(),
            prev_events: clone_list(&self.prev_events),
            auth_events: clone_list(&self.auth_events),
            depth: self.depth,
            origin_server_ts: self.origin_server_ts,
        }
    }
}

/// The membership states that are tracked per room and user.
pub open spec fn membership_code(membership: Option<Seq<char>>) -> u8 {
    match membership {
        Some(m) => if m == "join"@ {
            1
        } else if m == "invite"@ {
            2
        } else if m == "ban"@ {
            3
        } else if m == "knock"@ {
            4
        } else {
            0
        },
        None => 0,
    }
}

/// The byte under which a membership is tracked: join 1, invite 2, ban 3,
/// knock 4, leave and everything else 0.
pub fn membership_byte(membership: Option<&str>) -> (r: u8)
    ensures
        r == membership_code(opt_text(membership)),
{
    match membership {
        Some(m) => {
            if str_eq(m, "join") {
                1
            } else if str_eq(m, "invite") {
                2
            } else if str_eq(m, "ban") {
                3
            } else if str_eq(m, "knock") {
                4
            } else {
                0
            }
        },
        None => 0,
    }
}

/// An identifier belongs to the server that it names after its first colon, and
/// to no other.
pub proof fn law_belonging(id: Seq<char>, server: Seq<char>)
    ensures
        belongs_to(id, server) <==> exists|name: Seq<char>|
            !name.contains(':') && #[trigger] (name + seq![':']) + server == id,
        !id.contains(':') ==> server_part(id) is None,
{
    law_split_once(id, ':');
    if let Some((a, _)) = split_once_at(id, ':') {
        assert(id[a.len() as int] == ':');
    }
    if exists|name: Seq<char>| !name.contains(':') && #[trigger] (name + seq![':']) + server == id {
        let name = choose|name: Seq<char>|
            !name.contains(':') && #[trigger] (name + seq![':']) + server == id;
        assert(id[name.len() as int] == ':');
        let (a, b) = split_once_at(id, ':')->0;
        if a.len() < name.len() {
            assert(name[a.len() as int] == id[a.len() as int]);
            assert(id[a.len() as int] == ':');
        } else if a.len() > name.len() {
            assert(a[name.len() as int] == id[name.len() as int]);
        }
        assert((a + seq![':']).len() == (name + seq![':']).len());
        assert(b =~= id.skip(a.len() as int + 1));
        assert(server =~= id.skip(name.len() as int + 1));
    } else if belongs_to(id, server) {
        let (a, b) = split_once_at(id, ':')->0;
        assert((a + seq![':']) + server == id);
    }
}

} // verus!
