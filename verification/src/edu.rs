//! Ephemeral units: which handler takes one that another server sends, what the
//! handlers do, and the streams of those that are sent.

use std::sync::Arc;
use vstd::prelude::*;
use vstd::string::*;

use crate::json::json_of;
use crate::json::lemma_values_push;
use crate::json::members;
use crate::json::put;
use crate::json::values;
use crate::json::Json;
use crate::json::JsonView;
use crate::json::NumberView;
use crate::observers::observers_in;
use crate::observers::observes;
use crate::observers::Member;
use crate::pdu::belongs_to;
use crate::pdu::id_belongs_to;
use crate::text::lemma_texts_push;
use crate::text::texts;
use crate::text::str_eq;

verus! {

/// Whether a user belongs to this server.
pub fn target_belongs_to_us(user_id: &str, our_server: &str) -> (r: bool)
    ensures
        r == belongs_to(user_id@, our_server@),
{
    id_belongs_to(user_id, our_server)
}

/// Whether a user belongs to the server that sends about them.
pub fn user_belongs_to_origin(user_id: &str, origin: &str) -> (r: bool)
    ensures
        r == belongs_to(user_id@, origin@),
{
    id_belongs_to(user_id, origin)
}

/// The kinds of units that are acted on.
#[derive(Clone, Copy, PartialEq, Eq, Structural, Debug)]
pub enum EduKind {
    Receipt,
    Presence,
    Typing,
    DirectToDevice,
    DeviceListUpdate,
    SigningKeyUpdate,
}

/// The kind that a type names.
pub open spec fn kind_of(edu_type: Seq<char>) -> Option<EduKind> {
    if edu_type == "m.receipt"@ {
        Some(EduKind::Receipt)
    } else if edu_type == "m.presence"@ {
        Some(EduKind::Presence)
    } else if edu_type == "m.typing"@ {
        Some(EduKind::Typing)
    } else if edu_type == "m.direct_to_device"@ {
        Some(EduKind::DirectToDevice)
    } else if edu_type == "m.device_list_update"@ {
        Some(EduKind::DeviceListUpdate)
    } else if edu_type == "m.signing_key_update"@ {
        Some(EduKind::SigningKeyUpdate)
    } else {
        None
    }
}

/// Which handler takes a unit: the one for its type, if it has a type and
/// content. Units of other types are let pass.
pub open spec fn dispatch_of(edu: JsonView) -> Option<(EduKind, JsonView)> {
    match (edu.str_at("edu_type"@), edu.get("content"@)) {
        (Some(t), Some(content)) => match kind_of(t) {
            Some(kind) => Some((kind, content)),
            None => None,
        },
        _ => None,
    }
}

/// Which handler takes a unit, and the content that it takes.
pub fn dispatch_edu(edu: &Json) -> (r: Option<(EduKind, &Json)>)
    ensures
        match r {
            Some((kind, content)) => dispatch_of(edu@) == Some((kind, content@)),
            None => dispatch_of(edu@) is None,
        },
{
    let t = match edu.str_at("edu_type") {
        Some(t) => t,
        None => {
            return None;
        },
    };
    let content = match edu.get("content") {
        Some(c) => c,
        None => {
            return None;
        },
    };
    let kind = if str_eq(t, "m.receipt") {
        EduKind::Receipt
    } else if str_eq(t, "m.presence") {
        EduKind::Presence
    } else if str_eq(t, "m.typing") {
        EduKind::Typing
    } else if str_eq(t, "m.direct_to_device") {
        EduKind::DirectToDevice
    } else if str_eq(t, "m.device_list_update") {
        EduKind::DeviceListUpdate
    } else if str_eq(t, "m.signing_key_update") {
        EduKind::SigningKeyUpdate
    } else {
        return None;
    };
    Some((kind, content))
}

/// The user that some content is about, if it is one of the sending server.
pub open spec fn subject(content: JsonView, origin: Seq<char>) -> Option<Seq<char>> {
    match content.str_at("user_id"@) {
        Some(u) => if belongs_to(u, origin) {
            Some(u)
        } else {
            None
        },
        None => None,
    }
}

fn read_subject<'a>(content: &'a Json, origin: &str) -> (r: Option<&'a str>)
    ensures
        crate::text::opt_text(r) == subject(content@, origin@),
{
    match content.str_at("user_id") {
        Some(u) => {
            if id_belongs_to(u, origin) {
                Some(u)
            } else {
                None
            }
        },
        None => None,
    }
}

/// What is known so far about the handling of a changed device list.
pub struct DeviceListFacts {
    pub content: Json,
    pub origin: String,
    pub server_name: String,
    /// The number of the user; `None` if none could be allotted.
    pub user: Option<Option<u64>>,
    /// Whether the change is new; `None` if that could not be told.
    pub is_new: Option<Option<bool>>,
    /// Whether cached keys of the user were dropped.
    pub cache_dropped: bool,
    /// The members of the rooms that the user is in; `None` if they could not be
    /// read.
    pub rooms: Option<Option<Vec<Vec<Member>>>>,
    /// Whether the change was noted for later.
    pub noted: bool,
    /// Whether local users were told.
    pub told: bool,
}

/// What to do next about a changed device list.
pub enum DeviceListStep {
    LookupUser { user_id: String },
    /// Tell whether a change is new, and note that it was seen.
    CheckNew { user: u64, device_id: String, stream_id: u64 },
    DropCache { user: u64 },
    LoadRooms { user: u64 },
    /// Note the change until the user is seen in a room.
    Note { user: u64 },
    Tell { user: u64, observers: Vec<u64> },
    Done,
}

/// Whether a change that names a device was seen before.
pub open spec fn seen_before(f: DeviceListFacts) -> bool {
    f.content@.str_at("device_id"@) is Some && f.is_new == Some(Some(false))
}

/// Whether a step is what a changed device list calls for: a change about
/// another server's user, or one that was seen before, is dropped. Otherwise
/// cached keys are dropped and the local users that share a room with the user
/// are told; if there are none the change is noted.
pub open spec fn is_device_list_step(f: DeviceListFacts, s: DeviceListStep) -> bool {
    match subject(f.content@, f.origin@) {
        None => s is Done,
        Some(user_id) => match f.user {
            None => s matches DeviceListStep::LookupUser { user_id: u } && u@ == user_id,
            Some(None) => s is Done,
            Some(Some(user)) => if f.content@.str_at("device_id"@) is Some && f.is_new is None {
                s matches DeviceListStep::CheckNew { user: u, device_id, stream_id } && u == user
                    && device_id@ == f.content@.str_at("device_id"@)->0 && stream_id == (
                match f.content@.u64_at("stream_id"@) {
                    Some(n) => n,
                    None => 0,
                })
            } else if seen_before(f) {
                s is Done
            } else if !f.cache_dropped {
                s == (DeviceListStep::DropCache { user })
            } else {
                match f.rooms {
                    None => s == (DeviceListStep::LoadRooms { user }),
                    Some(None) => s is Done,
                    Some(Some(rooms)) => if f.noted || f.told {
                        s is Done
                    } else if forall|n: u64| !observes(rooms@, f.server_name@, n) {
                        s == (DeviceListStep::Note { user })
                    } else {
                        s matches DeviceListStep::Tell { user: u, observers } && u == user
                            && is_observers(rooms@, f.server_name@, observers@)
                    },
                }
            },
        },
    }
}

/// Whether a list holds the local users in some rooms, each once.
pub open spec fn is_observers(rooms: Seq<Vec<Member>>, server: Seq<char>, v: Seq<u64>) -> bool {
    &&& v.no_duplicates()
    &&& forall|n: u64| #[trigger] v.contains(n) <==> observes(rooms, server, n)
}

/// Names what to do next about a changed device list.
pub fn handle_device_list_update(f: &DeviceListFacts) -> (r: DeviceListStep)
    ensures
        is_device_list_step(*f, r),
{
    let user_id = match read_subject(&f.content, f.origin.as_str()) {
        None => {
            return DeviceListStep::Done;
        },
        Some(u) => u,
    };
    let user = match f.user {
        None => {
            return DeviceListStep::LookupUser { user_id: user_id.to_owned() };
        },
        Some(None) => {
            return DeviceListStep::Done;
        },
        Some(Some(n)) => n,
    };
    match f.content.str_at("device_id") {
        Some(d) => match f.is_new {
            None => {
                let stream_id: u64 = match f.content.u64_at("stream_id") {
                    Some(n) => n,
                    None => 0,
                };
                return DeviceListStep::CheckNew { user, device_id: d.to_owned(), stream_id };
            },
            Some(Some(false)) => {
                return DeviceListStep::Done;
            },
            Some(_) => {},
        },
        None => {},
    }
    if !f.cache_dropped {
        return DeviceListStep::DropCache { user };
    }
    let rooms = match &f.rooms {
        None => {
            return DeviceListStep::LoadRooms { user };
        },
        Some(None) => {
            return DeviceListStep::Done;
        },
        Some(Some(r)) => r,
    };
    if f.noted || f.told {
        return DeviceListStep::Done;
    }
    let observers = observers_in(rooms, f.server_name.as_str());
    if observers.len() == 0 {
        proof {
            assert forall|n: u64| !observes(rooms@, f.server_name@, n) by {
                assert(!observers@.contains(n));
            }
        }
        return DeviceListStep::Note { user };
    }
    proof {
        assert(observers@.contains(observers@[0]));
        assert(observes(rooms@, f.server_name@, observers@[0]));
    }
    DeviceListStep::Tell { user, observers }
}

/// What is known so far about the handling of changed signing keys.
pub struct SigningKeyFacts {
    pub content: Json,
    pub origin: String,
    pub server_name: String,
    /// The number of the user; `None` if none could be allotted.
    pub user: Option<Option<u64>>,
    /// Whether the keys were stored.
    pub stored: bool,
    /// The members of the rooms that the user is in; `None` if they could not be
    /// read.
    pub rooms: Option<Option<Vec<Vec<Member>>>>,
    /// Whether local users were told.
    pub told: bool,
}

/// What to do next about changed signing keys.
pub enum SigningKeyStep {
    LookupUser { user_id: String },
    Store { user: u64, master_key: Option<Json>, self_signing_key: Option<Json> },
    LoadRooms { user: u64 },
    Tell { user: u64, observers: Vec<u64> },
    Done,
}

/// A member of some content, if it is there and not null.
pub open spec fn present(content: JsonView, key: Seq<char>) -> Option<JsonView> {
    match content.get(key) {
        Some(v) => if v == JsonView::Null {
            None
        } else {
            Some(v)
        },
        None => None,
    }
}

fn read_present(content: &Json, key: &str) -> (r: Option<Json>)
    ensures
        json_of(r) == present(content@, key@),
{
    match content.get(key) {
        Some(v) => {
            if v.is_null() {
                None
            } else {
                Some(v.copy())
            }
        },
        None => None,
    }
}

/// Whether a step is what changed signing keys call for: the keys of the sending
/// server's user are stored, and the local users that share a room with the user
/// are told.
pub open spec fn is_signing_key_step(f: SigningKeyFacts, s: SigningKeyStep) -> bool {
    match subject(f.content@, f.origin@) {
        None => s is Done,
        Some(user_id) => match f.user {
            None => s matches SigningKeyStep::LookupUser { user_id: u } && u@ == user_id,
            Some(None) => s is Done,
            Some(Some(user)) => if !f.stored {
                s matches SigningKeyStep::Store { user: u, master_key, self_signing_key } && u
                    == user && json_of(master_key) == present(
                    f.content@,
                    "master_key"@,
                ) && json_of(self_signing_key) == present(
                    f.content@,
                    "self_signing_key"@,
                )
            } else {
                match f.rooms {
                    None => s == (SigningKeyStep::LoadRooms { user }),
                    Some(None) => s is Done,
                    Some(Some(rooms)) => if f.told || forall|n: u64|
                        !observes(rooms@, f.server_name@, n) {
                        s is Done
                    } else {
                        s matches SigningKeyStep::Tell { user: u, observers } && u == user
                            && is_observers(rooms@, f.server_name@, observers@)
                    },
                }
            },
        },
    }
}

/// Names what to do next about changed signing keys.
pub fn handle_signing_key_update(f: &SigningKeyFacts) -> (r: SigningKeyStep)
    ensures
        is_signing_key_step(*f, r),
{
    let user_id = match read_subject(&f.content, f.origin.as_str()) {
        None => {
            return SigningKeyStep::Done;
        },
        Some(u) => u,
    };
    let user = match f.user {
        None => {
            return SigningKeyStep::LookupUser { user_id: user_id.to_owned() };
        },
        Some(None) => {
            return SigningKeyStep::Done;
        },
        Some(Some(n)) => n,
    };
    if !f.stored {
        return SigningKeyStep::Store {
            user,
            master_key: read_present(&f.content, "master_key"),
            self_signing_key: read_present(&f.content, "self_signing_key"),
        };
    }
    let rooms = match &f.rooms {
        None => {
            return SigningKeyStep::LoadRooms { user };
        },
        Some(None) => {
            return SigningKeyStep::Done;
        },
        Some(Some(r)) => r,
    };
    if f.told {
        return SigningKeyStep::Done;
    }
    let observers = observers_in(rooms, f.server_name.as_str());
    if observers.len() == 0 {
        proof {
            assert forall|n: u64| !observes(rooms@, f.server_name@, n) by {
                assert(!observers@.contains(n));
            }
        }
        return SigningKeyStep::Done;
    }
    proof {
        assert(observers@.contains(observers@[0]));
        assert(observes(rooms@, f.server_name@, observers@[0]));
    }
    SigningKeyStep::Tell { user, observers }
}

/// A message for a device of a local user; for all of them, if the device is a
/// star.
pub struct Delivery {
    pub user_id: String,
    pub device_id: String,
    pub content: Json,
}

pub struct DeliveryView {
    pub user_id: Seq<char>,
    pub device_id: Seq<char>,
    pub content: JsonView,
}

impl Delivery {
    pub open spec fn view(&self) -> DeliveryView {
        DeliveryView {
            user_id: self.user_id@,
            device_id: self.device_id@,
            content: self.content@,
        }
    }

    /// Whether the message goes to all devices of the user.
    pub fn is_for_all(&self) -> (r: bool)
        ensures
            r == (self@.device_id == "*"@),
    {
        str_eq(self.device_id.as_str(), "*")
    }

    /// The devices that the message goes to: the one it names, or all that are
    /// registered for the user. `devices` are the entries of those, none if they
    /// could not be read.
    pub fn targets(&self, devices: Option<&Vec<Json>>) -> (r: Vec<String>)
        ensures
            texts(r@) == (if self@.device_id == "*"@ {
                match devices {
                    Some(v) => device_ids(values(v@)),
                    None => seq![],
                }
            } else {
                seq![self@.device_id]
            }),
    {
        let mut out: Vec<String> = Vec::new();
        proof {
            assert(texts(out@) =~= seq![]);
        }
        if !self.is_for_all() {
            let s = self.device_id.clone();
            proof {
                lemma_texts_push(out@, s);
                assert(seq![].push(s@) =~= seq![s@]);
            }
            out.push(s);
            return out;
        }
        let v = match devices {
            Some(v) => v,
            None => {
                return out;
            },
        };
        let ghost views = values(v@);
        let mut i: usize = 0;
        proof {
            assert(views.take(0) =~= seq![]);
        }
        while i < v.len()
            invariant
                i <= v.len(),
                views == values(v@),
                texts(out@) == device_ids(views.take(i as int)),
            decreases v.len() - i,
        {
            proof {
                assert(views.take(i + 1).drop_last() =~= views.take(i as int));
                assert(views.take(i + 1).last() == v@[i as int]@);
            }
            match v[i].str_at("device_id") {
                Some(d) => {
                    let s = d.to_owned();
                    proof {
                        lemma_texts_push(out@, s);
                    }
                    out.push(s);
                },
                None => {},
            }
            i += 1;
        }
        proof {
            assert(views.take(i as int) =~= views);
        }
        out
    }
}

/// The ids in some device entries.
pub open spec fn device_ids(v: Seq<JsonView>) -> Seq<Seq<char>>
    decreases v.len(),
{
    if v.len() == 0 {
        seq![]
    } else {
        match v.last().str_at("device_id"@) {
            Some(d) => device_ids(v.drop_last()).push(d),
            None => device_ids(v.drop_last()),
        }
    }
}

pub open spec fn deliveries(v: Seq<Delivery>) -> Seq<DeliveryView> {
    v.map_values(|d: Delivery| d@)
}

/// The messages for one user, one for each device named.
pub open spec fn user_deliveries(user: Seq<char>, devices: Seq<(Seq<char>, JsonView)>) -> Seq<
    DeliveryView,
> {
    devices.map_values(
        |e: (Seq<char>, JsonView)| DeliveryView { user_id: user, device_id: e.0, content: e.1 },
    )
}

/// The messages for users of this server; the others are dropped.
pub open spec fn all_deliveries(messages: Seq<(Seq<char>, JsonView)>, us: Seq<char>) -> Seq<
    DeliveryView,
>
    decreases messages.len(),
{
    if messages.len() == 0 {
        seq![]
    } else {
        let before = all_deliveries(messages.drop_last(), us);
        let (user, devices) = messages.last();
        if belongs_to(user, us) && devices.as_object() is Some {
            before + user_deliveries(user, devices.as_object()->0)
        } else {
            before
        }
    }
}

/// A message to devices, as a server sends it.
pub struct DirectToDevice {
    pub sender: String,
    pub event_type: String,
    /// The id by which a repetition is told.
    pub message_id: String,
    pub deliveries: Vec<Delivery>,
}

impl DirectToDevice {
    /// What is delivered, given whether the message was seen before: a repetition
    /// is dropped; where that could not be told, it is delivered.
    pub fn to_deliver(self, seen: &Result<bool, String>) -> (r: Vec<Delivery>)
        ensures
            deliveries(r@) == (match *seen {
                Ok(true) => seq![],
                _ => deliveries(self.deliveries@),
            }),
    {
        match seen {
            Ok(true) => {
                let none: Vec<Delivery> = Vec::new();
                proof {
                    assert(deliveries(none@) =~= seq![]);
                }
                none
            },
            _ => self.deliveries,
        }
    }
}

/// Whether a message is what some content says: it has a sender of the sending
/// server, a type and an id.
pub open spec fn is_direct_to_device(
    content: JsonView,
    origin: Seq<char>,
    us: Seq<char>,
    r: Option<DirectToDevice>,
) -> bool {
    match (content.str_at("sender"@), content.str_at("type"@), content.str_at("message_id"@)) {
        (Some(sender), Some(event_type), Some(message_id)) => if belongs_to(sender, origin) {
            r matches Some(m) && {
                &&& m.sender@ == sender
                &&& m.event_type@ == event_type
                &&& m.message_id@ == message_id
                &&& deliveries(m.deliveries@) == (match content.object_at("messages"@) {
                    Some(v) => all_deliveries(v, us),
                    None => seq![],
                })
            }
        } else {
            r is None
        },
        _ => r is None,
    }
}

fn read_devices(out: &mut Vec<Delivery>, user: &str, devices: &Vec<(String, Json)>)
    ensures
        deliveries(final(out)@) == deliveries(old(out)@) + user_deliveries(
            user@,
            members(devices@),
        ),
{
    let ghost start = deliveries(out@);
    let ghost want = user_deliveries(user@, members(devices@));
    let mut i: usize = 0;
    proof {
        assert(start + want.take(0) =~= start);
    }
    while i < devices.len()
        invariant
            i <= devices.len(),
            want == user_deliveries(user@, members(devices@)),
            deliveries(out@) == start + want.take(i as int),
        decreases devices.len() - i,
    {
        let d = Delivery {
            user_id: user.to_owned(),
            device_id: devices[i].0.clone(),
            content: devices[i].1.copy(),
        };
        proof {
            assert(want[i as int] == d@);
            assert(deliveries(out@.push(d)) =~= deliveries(out@).push(d@));
            assert(start + want.take(i + 1) =~= (start + want.take(i as int)).push(d@));
        }
        out.push(d);
        i += 1;
    }
    proof {
        assert(want.take(i as int) =~= want);
    }
}

/// Reads a message to devices. One whose sender is not a user of the sending
/// server is dropped, and so are the parts for users of other servers.
pub fn handle_direct_to_device(content: &Json, origin: &str, our_server: &str) -> (r: Option<
    DirectToDevice,
>)
    ensures
        is_direct_to_device(content@, origin@, our_server@, r),
{
    let sender = match content.str_at("sender") {
        Some(s) => s,
        None => {
            return None;
        },
    };
    let event_type = match content.str_at("type") {
        Some(s) => s,
        None => {
            return None;
        },
    };
    let message_id = match content.str_at("message_id") {
        Some(s) => s,
        None => {
            return None;
        },
    };
    if !user_belongs_to_origin(sender, origin) {
        return None;
    }
    let mut out: Vec<Delivery> = Vec::new();
    proof {
        assert(deliveries(out@) =~= seq![]);
    }
    match content.object_at("messages") {
        Some(v) => {
            let ghost m = members(v@);
            let mut i: usize = 0;
            proof {
                assert(m.take(0) =~= seq![]);
            }
            while i < v.len()
                invariant
                    i <= v.len(),
                    m == members(v@),
                    deliveries(out@) == all_deliveries(m.take(i as int), our_server@),
                decreases v.len() - i,
            {
                proof {
                    assert(m.take(i + 1).drop_last() =~= m.take(i as int));
                    assert(m.take(i + 1).last() == (v@[i as int].0@, v@[i as int].1@));
                }
                match v[i].1.as_object() {
                    Some(devices) => {
                        if target_belongs_to_us(v[i].0.as_str(), our_server) {
                            read_devices(&mut out, v[i].0.as_str(), devices);
                        }
                    },
                    None => {},
                }
                i += 1;
            }
            proof {
                assert(m.take(i as int) =~= m);
            }
        },
        None => {},
    }
    Some(
        DirectToDevice {
            sender: sender.to_owned(),
            event_type: event_type.to_owned(),
            message_id: message_id.to_owned(),
            deliveries: out,
        },
    )
}

/// The presence of a user, to be stored.
pub struct PresenceUpdate {
    pub user_id: String,
    pub record: Json,
}

/// The record of a user's presence: the state, offline if none is stated; when
/// the user was last active, from how long ago that is; and a message that is
/// not empty.
pub open spec fn presence_record(entry: JsonView, now: u64) -> JsonView {
    let ago = match entry.u64_at("last_active_ago"@) {
        Some(n) => n,
        None => 0,
    };
    let base = seq![
        (
            "presence"@,
            JsonView::Str(
                match entry.str_at("presence"@) {
                    Some(p) => p,
                    None => "offline"@,
                },
            ),
        ),
        (
            "last_active_ms"@,
            JsonView::Number(
                NumberView::Unsigned(
                    if ago <= now {
                        (now - ago) as u64
                    } else {
                        0
                    },
                ),
            ),
        ),
    ];
    JsonView::Object(
        match entry.str_at("status_msg"@) {
            Some(m) => if m.len() > 0 {
                base.push(("status_msg"@, JsonView::Str(m)))
            } else {
                base
            },
            None => base,
        },
    )
}

/// The updates that some entries state, about users of the sending server.
pub open spec fn presence_updates(push: Seq<JsonView>, origin: Seq<char>, now: u64) -> Seq<
    (Seq<char>, JsonView),
>
    decreases push.len(),
{
    if push.len() == 0 {
        seq![]
    } else {
        let before = presence_updates(push.drop_last(), origin, now);
        match subject(push.last(), origin) {
            Some(user) => before.push((user, presence_record(push.last(), now))),
            None => before,
        }
    }
}

pub open spec fn updates(v: Seq<PresenceUpdate>) -> Seq<(Seq<char>, JsonView)> {
    v.map_values(|u: PresenceUpdate| (u.user_id@, u.record@))
}

fn write_presence(entry: &Json, now: u64) -> (r: Json)
    ensures
        r@ == presence_record(entry@, now),
{
    let presence = match entry.str_at("presence") {
        Some(p) => p,
        None => "offline",
    };
    let ago: u64 = match entry.u64_at("last_active_ago") {
        Some(n) => n,
        None => 0,
    };
    let mut m: Vec<(String, Json)> = Vec::new();
    put(&mut m, "presence", Json::text(presence));
    put(&mut m, "last_active_ms", Json::number(now.saturating_sub(ago)));
    match entry.str_at("status_msg") {
        Some(s) => {
            if !s.is_empty() {
                put(&mut m, "status_msg", Json::text(s));
            }
        },
        None => {},
    }
    proof {
        assert(members(m@) =~= presence_record(entry@, now)->Object_0);
    }
    Json::object(m)
}

/// The presence updates to store from what a server sends.
pub fn handle_presence(content: &Json, origin: &str, now: u64) -> (r: Vec<PresenceUpdate>)
    ensures
        updates(r@) == (match content@.array_at("push"@) {
            Some(v) => presence_updates(v, origin@, now),
            None => seq![],
        }),
{
    let mut out: Vec<PresenceUpdate> = Vec::new();
    proof {
        assert(updates(out@) =~= seq![]);
    }
    match content.array_at("push") {
        None => {},
        Some(push) => {
            let ghost v = values(push@);
            let mut i: usize = 0;
            proof {
                assert(v.take(0) =~= seq![]);
            }
            while i < push.len()
                invariant
                    i <= push.len(),
                    v == values(push@),
                    updates(out@) == presence_updates(v.take(i as int), origin@, now),
                decreases push.len() - i,
            {
                proof {
                    assert(v.take(i + 1).drop_last() =~= v.take(i as int));
                    assert(v.take(i + 1).last() == push@[i as int]@);
                }
                match read_subject(&push[i], origin) {
                    Some(user) => {
                        let u = PresenceUpdate {
                            user_id: user.to_owned(),
                            record: write_presence(&push[i], now),
                        };
                        proof {
                            assert(updates(out@.push(u)) =~= updates(out@).push(
                                (u.user_id@, u.record@),
                            ));
                        }
                        out.push(u);
                    },
                    None => {},
                }
                i += 1;
            }
            proof {
                assert(v.take(i as int) =~= v);
            }
        },
    }
    out
}

/// A unit of a type with some content.
pub open spec fn edu_json(edu_type: Seq<char>, content: JsonView) -> JsonView {
    JsonView::Object(seq![("edu_type"@, JsonView::Str(edu_type)), ("content"@, content)])
}

/// Units of a type, one for each entry of a stream.
pub open spec fn edus_of(edu_type: Seq<char>, contents: Seq<JsonView>) -> Seq<JsonView> {
    contents.map_values(|c: JsonView| edu_json(edu_type, c))
}

fn wrap_entries(edu_type: &str, contents: &Vec<Json>) -> (r: Vec<Json>)
    ensures
        values(r@) == edus_of(edu_type@, values(contents@)),
{
    let ghost want = edus_of(edu_type@, values(contents@));
    let mut out: Vec<Json> = Vec::new();
    let mut i: usize = 0;
    proof {
        assert(values(out@) =~= want.take(0));
    }
    while i < contents.len()
        invariant
            i <= contents.len(),
            want == edus_of(edu_type@, values(contents@)),
            values(out@) == want.take(i as int),
        decreases contents.len() - i,
    {
        let mut m: Vec<(String, Json)> = Vec::new();
        put(&mut m, "edu_type", Json::text(edu_type));
        put(&mut m, "content", contents[i].copy());
        proof {
            assert(members(m@) =~= edu_json(edu_type@, contents@[i as int]@)->Object_0);
        }
        let x = Json::object(m);
        proof {
            assert(want[i as int] == x@);
            lemma_values_push(out@, x);
            assert(want.take(i + 1) =~= want.take(i as int).push(x@));
        }
        out.push(x);
        i += 1;
    }
    proof {
        assert(want.take(i as int) =~= want);
    }
    out
}

/// The most changed device lists that one transaction carries.
pub const MAX_DEVICE_LIST_PER_SCAN: usize = 50;

/// The most changed signing keys that one transaction carries.
pub const MAX_PER_SCAN: usize = 50;

/// The stream of changes to device lists of this server's users.
pub struct DeviceListStream;

impl DeviceListStream {
    pub fn new() -> (r: Arc<Self>)
        ensures
            *r == DeviceListStream,
    {
        Arc::new(DeviceListStream)
    }

    pub fn name(&self) -> (r: &'static str)
        ensures
            r@ == "device_list"@,
    {
        "device_list"
    }

    /// Wraps the entries behind a cursor, each in a unit; the cursor is that of
    /// the store.
    pub fn scan_since(&self, entries: &Vec<Json>, new_cursor: u64) -> (r: (Vec<Json>, u64))
        ensures
            values(r.0@) == edus_of("m.device_list_update"@, values(entries@)),
            r.1 == new_cursor,
    {
        (wrap_entries("m.device_list_update", entries), new_cursor)
    }
}

/// The stream of changes to signing keys of this server's users.
pub struct SigningKeyUpdateStream;

impl SigningKeyUpdateStream {
    pub fn new() -> (r: Arc<Self>)
        ensures
            *r == SigningKeyUpdateStream,
    {
        Arc::new(SigningKeyUpdateStream)
    }

    pub fn name(&self) -> (r: &'static str)
        ensures
            r@ == "signing_key_update"@,
    {
        "signing_key_update"
    }

    /// Wraps the entries behind a cursor, each in a unit; the cursor is that of
    /// the store.
    pub fn scan_since(&self, entries: &Vec<Json>, new_cursor: u64) -> (r: (Vec<Json>, u64))
        ensures
            values(r.0@) == edus_of("m.signing_key_update"@, values(entries@)),
            r.1 == new_cursor,
    {
        (wrap_entries("m.signing_key_update", entries), new_cursor)
    }
}

/// A server's messages reach only users of this server, and its presence updates
/// only concern its own users.
pub proof fn law_edu_scope(
    messages: Seq<(Seq<char>, JsonView)>,
    push: Seq<JsonView>,
    origin: Seq<char>,
    us: Seq<char>,
    now: u64,
)
    ensures
        forall|i: int|
            0 <= i < all_deliveries(messages, us).len() ==> belongs_to(
                (#[trigger] all_deliveries(messages, us)[i]).user_id,
                us,
            ),
        forall|i: int|
            0 <= i < presence_updates(push, origin, now).len() ==> belongs_to(
                (#[trigger] presence_updates(push, origin, now)[i]).0,
                origin,
            ),
    decreases messages.len() + push.len(),
{
    if messages.len() > 0 {
        law_edu_scope(messages.drop_last(), push, origin, us, now);
        let before = all_deliveries(messages.drop_last(), us);
        let all = all_deliveries(messages, us);
        assert forall|i: int| 0 <= i < all.len() implies belongs_to((#[trigger] all[i]).user_id, us) by {
            if i < before.len() {
                assert(all[i] == before[i]);
            }
        }
    } else if push.len() > 0 {
        law_edu_scope(messages, push.drop_last(), origin, us, now);
        let before = presence_updates(push.drop_last(), origin, now);
        let all = presence_updates(push, origin, now);
        assert forall|i: int| 0 <= i < all.len() implies belongs_to((#[trigger] all[i]).0, origin) by {
            if i < before.len() {
                assert(all[i] == before[i]);
            }
        }
    }
}

/// A unit that wraps some content under a type is dispatched by that type, with
/// the same content.
pub proof fn law_units_arrive(edu_type: Seq<char>, content: JsonView)
    ensures
        dispatch_of(edu_json(edu_type, content)) == (match kind_of(edu_type) {
            Some(kind) => Some((kind, content)),
            None => None,
        }),
{
    reveal_with_fuel(crate::json::member, 3);
    reveal_strlit("edu_type");
    reveal_strlit("content");
    let m = edu_json(edu_type, content)->Object_0;
    assert("edu_type"@.len() != "content"@.len());
    assert(m[0] == ("edu_type"@, JsonView::Str(edu_type)));
    assert(m.drop_first()[0] == m[1]);
}

/// The kind of a unit is the one that its type names, each type naming one of its
/// own, and the handler gets the unit's content; a unit without a type or content,
/// or of another type, goes to none.
pub proof fn law_dispatch(edu: JsonView)
    ensures
        dispatch_of(edu) == (match edu.get("content"@) {
            Some(c) => {
                let t = edu.get("edu_type"@);
                if t == Some(JsonView::Str("m.receipt"@)) {
                    Some((EduKind::Receipt, c))
                } else if t == Some(JsonView::Str("m.presence"@)) {
                    Some((EduKind::Presence, c))
                } else if t == Some(JsonView::Str("m.typing"@)) {
                    Some((EduKind::Typing, c))
                } else if t == Some(JsonView::Str("m.direct_to_device"@)) {
                    Some((EduKind::DirectToDevice, c))
                } else if t == Some(JsonView::Str("m.device_list_update"@)) {
                    Some((EduKind::DeviceListUpdate, c))
                } else if t == Some(JsonView::Str("m.signing_key_update"@)) {
                    Some((EduKind::SigningKeyUpdate, c))
                } else {
                    None
                }
            },
            None => None,
        }),
{
}

/// A changed device list is heeded only if it is about a user of the sending
/// server, and then it always is, unless the change was seen before: the cached
/// keys are dropped, and all the local users that share a room with the user are
/// told, each once, or the change is noted if there are none.
pub proof fn law_device_lists(f: DeviceListFacts, s: DeviceListStep)
    requires
        is_device_list_step(f, s),
    ensures
        ({
            let id = f.content@.get("user_id"@);
            let own = id matches Some(JsonView::Str(u)) && belongs_to(u, f.origin@);
            let device = f.content@.get("device_id"@);
            let repeated = device is Some && device->0 is Str && f.is_new == Some(Some(false));
            &&& !own ==> s is Done
            &&& own && f.user is None ==> (s matches DeviceListStep::LookupUser { user_id }
                && Some(JsonView::Str(user_id@)) == id)
            &&& s matches DeviceListStep::CheckNew { user, device_id, .. } ==> own && f.user
                == Some(Some(user)) && device == Some(JsonView::Str(device_id@))
            &&& own && (f.user matches Some(Some(_))) && f.is_new is Some && !repeated
                && !f.cache_dropped ==> s == (DeviceListStep::DropCache { user: f.user->0->0 })
            &&& own && repeated && (f.user matches Some(Some(_))) ==> s is Done
            &&& s matches DeviceListStep::Tell { user, observers } ==> {
                &&& own && f.user == Some(Some(user)) && f.cache_dropped && !f.told && !f.noted
                &&& f.rooms matches Some(Some(rooms)) && observers@.no_duplicates() && forall|
                    n: u64,
                | #[trigger]
                    observers@.contains(n) <==> observes(rooms@, f.server_name@, n)
            }
            &&& s matches DeviceListStep::Note { user } ==> own && f.user == Some(Some(user))
                && f.cache_dropped && (f.rooms matches Some(Some(rooms)) && forall|n: u64|
                !observes(rooms@, f.server_name@, n))
            &&& own && (f.user matches Some(Some(_))) && f.is_new is Some && !repeated
                && f.cache_dropped && !f.told && !f.noted ==> match f.rooms {
                None => s == (DeviceListStep::LoadRooms { user: f.user->0->0 }),
                Some(None) => s is Done,
                Some(Some(rooms)) => if exists|n: u64| observes(rooms@, f.server_name@, n) {
                    s is Tell
                } else {
                    s is Note
                },
            }
        }),
{
}

/// Changed signing keys are heeded only if they are a user's of the sending
/// server, and then they always are: both keys are stored as they stand, a null
/// counting as none, and all the local users that share a room with the user are
/// told, each once.
pub proof fn law_signing_keys(f: SigningKeyFacts, s: SigningKeyStep)
    requires
        is_signing_key_step(f, s),
    ensures
        ({
            let id = f.content@.get("user_id"@);
            let own = id matches Some(JsonView::Str(u)) && belongs_to(u, f.origin@);
            &&& !own ==> s is Done
            &&& own && f.user is None ==> (s matches SigningKeyStep::LookupUser { user_id }
                && Some(JsonView::Str(user_id@)) == id)
            &&& own && (f.user matches Some(Some(_))) && !f.stored ==> s is Store
            &&& s matches SigningKeyStep::Store { user, master_key, self_signing_key } ==> {
                &&& own && f.user == Some(Some(user)) && !f.stored
                &&& match master_key {
                    Some(k) => f.content@.get("master_key"@) == Some(k@) && k@ != JsonView::Null,
                    None => f.content@.get("master_key"@) is None || f.content@.get("master_key"@)
                        == Some(JsonView::Null),
                }
                &&& match self_signing_key {
                    Some(k) => f.content@.get("self_signing_key"@) == Some(k@) && k@
                        != JsonView::Null,
                    None => f.content@.get("self_signing_key"@) is None || f.content@.get(
                        "self_signing_key"@,
                    ) == Some(JsonView::Null),
                }
            }
            &&& s matches SigningKeyStep::Tell { user, observers } ==> {
                &&& own && f.user == Some(Some(user)) && f.stored && !f.told
                &&& f.rooms matches Some(Some(rooms)) && observers@.no_duplicates() && forall|
                    n: u64,
                | #[trigger]
                    observers@.contains(n) <==> observes(rooms@, f.server_name@, n)
            }
            &&& own && (f.user matches Some(Some(_))) && f.stored && !f.told ==> match f.rooms {
                None => s == (SigningKeyStep::LoadRooms { user: f.user->0->0 }),
                Some(None) => s is Done,
                Some(Some(rooms)) => if exists|n: u64| observes(rooms@, f.server_name@, n) {
                    s is Tell
                } else {
                    s is Done
                },
            }
        }),
{
}

/// The devices of a list are all that have an id, in order.
pub proof fn law_device_ids(v: Seq<JsonView>)
    ensures
        device_ids(v) == v.filter_map(
            |d: JsonView|
                match d.get("device_id"@) {
                    Some(JsonView::Str(id)) => Some(id),
                    _ => None,
                },
        ),
    decreases v.len(),
{
    if v.len() > 0 {
        law_device_ids(v.drop_last());
        let s = device_ids(v.drop_last());
        if let Some(d) = v.last().str_at("device_id"@) {
            assert(s.push(d) =~= s + seq![d]);
        }
    }
}

/// A message reaches exactly the devices that it names under a user of this
/// server, each with the content that stands there.
pub proof fn law_deliveries(messages: Seq<(Seq<char>, JsonView)>, us: Seq<char>, d: DeliveryView)
    ensures
        all_deliveries(messages, us).contains(d) <==> exists|i: int, j: int|
            0 <= i < messages.len() && (#[trigger] messages[i]).0 == d.user_id && belongs_to(
                d.user_id,
                us,
            ) && messages[i].1 is Object && 0 <= j < messages[i].1->Object_0.len() && (
            #[trigger] messages[i].1->Object_0[j]) == (d.device_id, d.content),
    decreases messages.len(),
{
    if messages.len() > 0 {
        let front = messages.drop_last();
        let last = messages.len() - 1;
        let before = all_deliveries(front, us);
        let all = all_deliveries(messages, us);
        law_deliveries(front, us, d);
        let (user, devices) = messages.last();
        let goes = belongs_to(user, us) && devices.as_object() is Some;
        let named = user_deliveries(user, devices.as_object()->0);
        if before.contains(d) {
            let k = choose|k: int| 0 <= k < before.len() && before[k] == d;
            assert(all[k] == d);
            let (i, j) = choose|i: int, j: int|
                0 <= i < front.len() && (#[trigger] front[i]).0 == d.user_id && belongs_to(
                    d.user_id,
                    us,
                ) && front[i].1 is Object && 0 <= j < front[i].1->Object_0.len() && (
                #[trigger] front[i].1->Object_0[j]) == (d.device_id, d.content);
            assert(messages[i] == front[i]);
            assert(messages[i].1->Object_0[j] == (d.device_id, d.content));
        } else if all.contains(d) {
            let k = choose|k: int| 0 <= k < all.len() && all[k] == d;
            if k < before.len() {
                assert(before[k] == d);
            }
            let j = k - before.len();
            assert(named[j] == d);
            assert(messages[last].1->Object_0[j] == (d.device_id, d.content));
        }
        if exists|i: int, j: int|
            0 <= i < messages.len() && (#[trigger] messages[i]).0 == d.user_id && belongs_to(
                d.user_id,
                us,
            ) && messages[i].1 is Object && 0 <= j < messages[i].1->Object_0.len() && (
            #[trigger] messages[i].1->Object_0[j]) == (d.device_id, d.content) {
            let (i, j) = choose|i: int, j: int|
                0 <= i < messages.len() && (#[trigger] messages[i]).0 == d.user_id && belongs_to(
                    d.user_id,
                    us,
                ) && messages[i].1 is Object && 0 <= j < messages[i].1->Object_0.len() && (
                #[trigger] messages[i].1->Object_0[j]) == (d.device_id, d.content);
            if i < front.len() {
                assert(front[i] == messages[i]);
                assert(front[i].1->Object_0[j] == (d.device_id, d.content));
                assert(before.contains(d));
            } else {
                assert(named[j] == d);
                assert(all[before.len() + j] == d);
            }
        }
    }
}

/// Presence is recorded for every entry about a user of the sending server, in
/// order.
pub proof fn law_presence_updates(push: Seq<JsonView>, origin: Seq<char>, now: u64)
    ensures
        presence_updates(push, origin, now) == push.filter_map(
            |e: JsonView|
                match e.get("user_id"@) {
                    Some(JsonView::Str(u)) => if belongs_to(u, origin) {
                        Some((u, presence_record(e, now)))
                    } else {
                        None
                    },
                    _ => None,
                },
        ),
    decreases push.len(),
{
    if push.len() > 0 {
        law_presence_updates(push.drop_last(), origin, now);
        let s = presence_updates(push.drop_last(), origin, now);
        if let Some(u) = subject(push.last(), origin) {
            let x = (u, presence_record(push.last(), now));
            assert(s.push(x) =~= s + seq![x]);
        }
    }
}

/// What is recorded of a user's presence: the state that is stated, or else that
/// the user is offline; the moment as long ago as is stated, never before the
/// epoch; and the message, if there is one that is not empty.
pub proof fn law_presence_records(e: JsonView, now: u64)
    ensures
        ({
            let r = presence_record(e, now);
            &&& r.get("presence"@) == Some(
                match e.get("presence"@) {
                    Some(JsonView::Str(p)) => JsonView::Str(p),
                    _ => JsonView::Str("offline"@),
                },
            )
            &&& (r.get("last_active_ms"@) matches Some(
                JsonView::Number(NumberView::Unsigned(t)),
            ) && match e.get("last_active_ago"@) {
                Some(v) => match v.as_u64() {
                    Some(ago) => (ago <= now ==> t + ago == now) && (ago > now ==> t == 0),
                    None => t == now,
                },
                None => t == now,
            })
            &&& r.get("status_msg"@) == (match e.get("status_msg"@) {
                Some(JsonView::Str(m)) => if m.len() > 0 {
                    Some(JsonView::Str(m))
                } else {
                    None
                },
                _ => None,
            })
        }),
{
    reveal_with_fuel(crate::json::member, 4);
    reveal_strlit("presence");
    reveal_strlit("last_active_ms");
    reveal_strlit("status_msg");
    assert("presence"@.len() == 8 && "last_active_ms"@.len() == 14 && "status_msg"@.len() == 10);
    let m = presence_record(e, now)->Object_0;
    let m1 = m.drop_first();
    let m2 = m1.drop_first();
    assert(m[0].0 == "presence"@ && m[1].0 == "last_active_ms"@);
    assert(m1[0] == m[1]);
    if m.len() == 3 {
        assert(m2[0] == m[2] && m[2].0 == "status_msg"@);
    } else {
        assert(m2 =~= seq![]);
    }
}

/// A direct message is taken exactly if it states a sender of the sending server,
/// a type and an id, and it is taken as it states them.
pub proof fn law_direct_messages(
    content: JsonView,
    origin: Seq<char>,
    us: Seq<char>,
    r: Option<DirectToDevice>,
)
    requires
        is_direct_to_device(content, origin, us, r),
    ensures
        r is Some <==> {
            &&& (content.get("sender"@) matches Some(JsonView::Str(s)) && belongs_to(s, origin))
            &&& (content.get("type"@) matches Some(JsonView::Str(_)))
            &&& (content.get("message_id"@) matches Some(JsonView::Str(_)))
        },
        r matches Some(m) ==> {
            &&& content.get("sender"@) == Some(JsonView::Str(m.sender@))
            &&& content.get("type"@) == Some(JsonView::Str(m.event_type@))
            &&& content.get("message_id"@) == Some(JsonView::Str(m.message_id@))
            &&& match content.get("messages"@) {
                Some(JsonView::Object(v)) => deliveries(m.deliveries@) == all_deliveries(v, us),
                _ => m.deliveries@.len() == 0,
            }
        },
{
    if let Some(m) = r {
        assert(deliveries(m.deliveries@).len() == m.deliveries@.len());
    }
}

} // verus!
