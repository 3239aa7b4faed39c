//! Requests to other servers: their targets, their bodies, and what is read
//! from the replies.

use dashmap::DashMap;
use vstd::prelude::*;
use vstd::string::*;
use vstd::utf8::encode_utf8;

use crate::json::members;
use crate::json::put;
use crate::json::values;
use crate::json::Json;
use crate::json::JsonView;
use crate::json::NumberView;
use crate::keys::decodes;
use crate::keys::document_fault;
use crate::keys::document_says;
use crate::keys::validate_key_response;
use crate::keys::verifies;
use crate::keys::ClientErrorView;
use crate::keys::FederationClientError;
use crate::keys::KeyFaults;
use crate::keys::KeyVerdicts;
use crate::keys::RemoteKeys;
use crate::media::hex_byte;
use crate::media::is_hex_byte;
use crate::media::parse_filename_from_content_disposition;
use crate::media::parse_multipart_boundary;
use crate::media::parse_multipart_media;
use crate::media::percent_decoded;
use crate::media::MediaResponse;
use crate::resolver::base_url_of;
use crate::resolver::ResolvedServer;
use crate::server_map::new_slots;
use crate::server_map::set_slot;
use crate::server_map::slot_count;
use crate::server_map::slot_of;
use crate::server_map::slots;
use crate::server_map::ServerMap;
use crate::text::law_decimal;
use crate::text::is_digit;
use crate::text::law_pieces;
use crate::text::law_pieces_apart;
use crate::text::pieces;
use crate::text::cat;
use crate::text::cat3;
use crate::text::cat4;
use crate::text::decimal;
use crate::text::number_text;
use crate::text::opt_text;
use crate::text::texts;

verus! {

/// The longest key document that is read.
pub const MAX_KEY_RESPONSE_BYTES: usize = 262_144;

/// The longest other reply that is read.
pub const MAX_FEDERATION_RESPONSE_BYTES: usize = 104_857_600;

/// Whether a byte may stand in a URL as it is: letters, digits, and four signs.
pub open spec fn is_unreserved(b: u8) -> bool {
    ||| 48 <= b <= 57
    ||| 65 <= b <= 90
    ||| 97 <= b <= 122
    ||| b == 45
    ||| b == 95
    ||| b == 46
    ||| b == 126
}

/// The digit of a hexadecimal number, in upper case.
pub open spec fn upper_hex(d: int) -> u8 {
    if d < 10 {
        (d + 48) as u8
    } else {
        (d - 10 + 65) as u8
    }
}

/// A byte in a URL: itself, or a percent sign and two hexadecimal digits.
pub open spec fn encoded_byte(b: u8) -> Seq<u8> {
    if is_unreserved(b) {
        seq![b]
    } else {
        seq![37u8, upper_hex(b as int / 16), upper_hex(b as int % 16)]
    }
}

/// Bytes in a URL.
pub open spec fn encoded_bytes(b: Seq<u8>) -> Seq<u8>
    decreases b.len(),
{
    if b.len() == 0 {
        seq![]
    } else {
        encoded_bytes(b.drop_last()) + encoded_byte(b.last())
    }
}

/// Characters below 128, from their codes.
pub open spec fn ascii(b: Seq<u8>) -> Seq<char> {
    b.map_values(|x: u8| x as char)
}

/// A text in a URL: the bytes of its UTF-8 form.
pub open spec fn url_encoded(s: Seq<char>) -> Seq<char> {
    ascii(encoded_bytes(encode_utf8(s)))
}

fn upper_digit(d: u8) -> (r: char)
    requires
        d < 16,
    ensures
        r == upper_hex(d as int) as char,
{
    if d < 10 {
        (d + 48) as char
    } else {
        (d - 10 + 65) as char
    }
}

/// Encodes a text for a URL.
pub fn url_query_encode(s: &str) -> (r: String)
    ensures
        r@ == url_encoded(s@),
{
    let bytes = s.as_bytes();
    let mut out = String::new();
    let mut i: usize = 0;
    proof {
        assert(bytes@.take(0) =~= seq![]);
        assert(out@ =~= ascii(encoded_bytes(bytes@.take(0))));
    }
    while i < bytes.len()
        invariant
            i <= bytes.len(),
            out@ == ascii(encoded_bytes(bytes@.take(i as int))),
        decreases bytes.len() - i,
    {
        let b: u8 = bytes[i];
        let ghost before = encoded_bytes(bytes@.take(i as int));
        proof {
            assert(bytes@.take(i + 1).drop_last() =~= bytes@.take(i as int));
            assert(bytes@.take(i + 1).last() == b);
        }
        if (48 <= b && b <= 57) || (65 <= b && b <= 90) || (97 <= b && b <= 122) || b == 45 || b
            == 95 || b == 46 || b == 126 {
            out.push(b as char);
        } else {
            out.push('%');
            out.push(upper_digit(b / 16));
            out.push(upper_digit(b % 16));
        }
        proof {
            assert(out@ =~= ascii(before + encoded_byte(b)));
        }
        i += 1;
    }
    proof {
        assert(bytes@.take(i as int) =~= bytes@);
    }
    out
}

proof fn lemma_encoded_front(b: Seq<u8>)
    requires
        b.len() > 0,
    ensures
        encoded_bytes(b) == encoded_byte(b[0]) + encoded_bytes(b.skip(1)),
    decreases b.len(),
{
    if b.len() == 1 {
        assert(b.drop_last() =~= seq![]);
        assert(b.skip(1) =~= seq![]);
        assert(encoded_bytes(b.drop_last()).len() == 0);
        assert(encoded_bytes(b.skip(1)).len() == 0);
        assert(b.last() == b[0]);
        assert(encoded_bytes(b) =~= encoded_byte(b[0]));
        assert(encoded_byte(b[0]) + encoded_bytes(b.skip(1)) =~= encoded_byte(b[0]));
    } else {
        lemma_encoded_front(b.drop_last());
        assert(b.drop_last().skip(1) =~= b.skip(1).drop_last());
        assert(b.skip(1).last() == b.last());
        assert(encoded_bytes(b) =~= encoded_byte(b[0]) + encoded_bytes(b.skip(1)));
    }
}

/// What was encoded for a URL decodes to the same bytes, so no two texts have
/// the same encoding; and the encoding is made of unreserved characters, percent
/// signs and hexadecimal digits.
pub proof fn law_url_encoding(b: Seq<u8>)
    ensures
        percent_decoded(encoded_bytes(b)) == Some(b),
        forall|i: int|
            0 <= i < encoded_bytes(b).len() ==> is_unreserved(#[trigger] encoded_bytes(b)[i])
                || encoded_bytes(b)[i] == 37,
    decreases b.len(),
{
    if b.len() == 0 {
        assert(b =~= seq![]);
    } else {
        let x = b[0];
        let rest = encoded_bytes(b.skip(1));
        let e = encoded_bytes(b);
        lemma_encoded_front(b);
        law_url_encoding(b.skip(1));
        assert(seq![x] + b.skip(1) =~= b);
        if is_unreserved(x) {
            assert(e[0] == x);
            assert(e.skip(1) =~= rest);
        } else {
            let h = upper_hex(x as int / 16);
            let l = upper_hex(x as int % 16);
            assert(e[0] == 37 && e[1] == h && e[2] == l);
            assert(e.skip(3) =~= rest);
            assert(is_hex_byte(h) && is_hex_byte(l));
            assert(hex_byte(h) == x as int / 16 && hex_byte(l) == x as int % 16);
            assert(x as int / 16 * 16 + x as int % 16 == x as int);
        }
        assert forall|i: int| 0 <= i < e.len() implies is_unreserved(#[trigger] e[i]) || e[i]
            == 37 by {
            let n = encoded_byte(x).len() as int;
            if i >= n {
                assert(e[i] == rest[i - n]);
            }
        }
    }
}

/// Some texts with ampersands between them, each behind a name.
pub open spec fn query_of(name: Seq<char>, v: Seq<Seq<char>>) -> Seq<char>
    decreases v.len(),
{
    if v.len() == 0 {
        seq![]
    } else if v.len() == 1 {
        name + v[0]
    } else {
        query_of(name, v.drop_last()) + "&"@ + name + v.last()
    }
}

fn join_query(name: &str, v: &Vec<String>) -> (r: String)
    ensures
        r@ == query_of(name@, texts(v@)),
{
    let ghost t = texts(v@);
    let mut out = String::new();
    let mut i: usize = 0;
    proof {
        assert(t.take(0) =~= seq![]);
        assert(out@ =~= seq![]);
    }
    while i < v.len()
        invariant
            i <= v.len(),
            t == texts(v@),
            out@ == query_of(name@, t.take(i as int)),
        decreases v.len() - i,
    {
        proof {
            assert(t.take(i + 1).drop_last() =~= t.take(i as int));
            assert(t.take(i + 1).last() == v@[i as int]@);
        }
        if i > 0 {
            out.append("&");
            out.append(name);
            out.append(v[i].as_str());
        } else {
            out = cat(name, v[i].as_str());
        }
        i += 1;
    }
    proof {
        assert(t.take(i as int) =~= t);
    }
    out
}

/// The method of a request.
#[derive(Clone, Copy, PartialEq, Eq, Structural, Debug)]
pub enum Method {
    Get,
    Put,
    Post,
}

/// A request to another server, before it is signed and sent.
pub struct Request {
    pub method: Method,
    pub destination: String,
    /// The path and the query of its target.
    pub path: String,
    pub body: Option<Json>,
}

pub struct RequestView {
    pub method: Method,
    pub destination: Seq<char>,
    pub path: Seq<char>,
    pub body: Option<JsonView>,
}

impl Request {
    pub open spec fn view(&self) -> RequestView {
        RequestView {
            method: self.method,
            destination: self.destination@,
            path: self.path@,
            body: match self.body {
                Some(b) => Some(b@),
                None => None,
            },
        }
    }
}

pub open spec fn get_request(destination: Seq<char>, path: Seq<char>) -> RequestView {
    RequestView { method: Method::Get, destination, path, body: None }
}

pub open spec fn put_request(destination: Seq<char>, path: Seq<char>, body: JsonView) -> RequestView {
    RequestView { method: Method::Put, destination, path, body: Some(body) }
}

pub open spec fn post_request(
    destination: Seq<char>,
    path: Seq<char>,
    body: JsonView,
) -> RequestView {
    RequestView { method: Method::Post, destination, path, body: Some(body) }
}

fn get(destination: &str, path: String) -> (r: Request)
    ensures
        r@ == get_request(destination@, path@),
{
    Request { method: Method::Get, destination: destination.to_owned(), path, body: None }
}

fn put_body(destination: &str, path: String, body: Json) -> (r: Request)
    ensures
        r@ == put_request(destination@, path@, body@),
{
    Request { method: Method::Put, destination: destination.to_owned(), path, body: Some(body) }
}

fn post_body(destination: &str, path: String, body: Json) -> (r: Request)
    ensures
        r@ == post_request(destination@, path@, body@),
{
    Request { method: Method::Post, destination: destination.to_owned(), path, body: Some(body) }
}

/// The body of a request for public rooms: what of limit, place and search term
/// is given.
pub open spec fn public_rooms_body(
    limit: Option<u64>,
    since: Option<Seq<char>>,
    term: Option<Seq<char>>,
) -> Seq<(Seq<char>, JsonView)> {
    (match limit {
        Some(l) => seq![("limit"@, JsonView::Number(NumberView::Unsigned(l)))],
        None => seq![],
    }) + (match since {
        Some(s) => seq![("since"@, JsonView::Str(s))],
        None => seq![],
    }) + (match term {
        Some(t) => seq![
            (
                "filter"@,
                JsonView::Object(seq![("generic_search_term"@, JsonView::Str(t))]),
            ),
        ],
        None => seq![],
    })
}

/// The requests that this server makes of others.
pub struct FederationClient {
    pub our_server_name: String,
    /// Whether requests are made at all.
    pub enabled: bool,
    /// The servers that are reached under a fixed address.
    pub base_url_overrides: ServerMap<String>,
    /// The numbers of the connections that are kept, by name and port.
    pub clients: DashMap<String, usize>,
}

impl FederationClient {
    /// The connections are numbered in the order in which they were made, no two
    /// alike.
    pub open spec fn wf(self) -> bool {
        &&& self.base_url_overrides.wf()
        &&& forall|k: Seq<char>| #[trigger]
            slots(self.clients).dom().contains(k) ==> slots(self.clients)[k] < slots(
                self.clients,
            ).dom().len()
        &&& forall|a: Seq<char>, b: Seq<char>|
            slots(self.clients).dom().contains(a) && slots(self.clients).dom().contains(b)
                && #[trigger] slots(self.clients)[a] == #[trigger] slots(self.clients)[b] ==> a == b
    }

    /// A client that makes requests.
    pub fn new(our_server_name: String) -> (r: Self)
        ensures
            r.wf(),
            r.our_server_name == our_server_name,
            r.enabled,
            forall|k: Seq<char>| !slots(r.clients).dom().contains(k),
            forall|k: Seq<char>| #[trigger] r.base_url_overrides.find(k) is None,
    {
        FederationClient::new_with_enabled(our_server_name, true)
    }

    /// A client that makes requests if `enabled`.
    pub fn new_with_enabled(our_server_name: String, enabled: bool) -> (r: Self)
        ensures
            r.wf(),
            r.our_server_name == our_server_name,
            r.enabled == enabled,
            forall|k: Seq<char>| !slots(r.clients).dom().contains(k),
            forall|k: Seq<char>| #[trigger] r.base_url_overrides.find(k) is None,
    {
        FederationClient {
            our_server_name,
            enabled,
            base_url_overrides: ServerMap::new(),
            clients: new_slots(),
        }
    }

    /// Makes a server reachable under a fixed address.
    pub fn set_base_url_override(&mut self, server_name: &str, base_url: String)
        requires
            old(self).wf(),
        ensures
            final(self).wf(),
            final(self).our_server_name == old(self).our_server_name,
            final(self).enabled == old(self).enabled,
            final(self).clients == old(self).clients,
            forall|k: Seq<char>| #[trigger]
                final(self).base_url_overrides.find(k) == (if k == server_name@ {
                    Some(base_url)
                } else {
                    old(self).base_url_overrides.find(k)
                }),
    {
        self.base_url_overrides.insert(server_name, base_url);
    }

    /// Whether requests are made at all.
    pub fn check_enabled(&self) -> (r: Result<(), FederationClientError>)
        ensures
            match r {
                Ok(_) => self.enabled,
                Err(e) => !self.enabled && e@ == ClientErrorView::FederationDisabled,
            },
    {
        if self.enabled {
            Ok(())
        } else {
            Err(FederationClientError::FederationDisabled)
        }
    }

    fn target_of(
        &self,
        destination: &str,
        resolved: &Result<ResolvedServer, String>,
        path_and_query: &str,
    ) -> (r: Result<(String, String), FederationClientError>)
        requires
            self.wf(),
        ensures
            match self.base_url_overrides.find(destination@) {
                Some(base) => r matches Ok((url, host)) && url@ == base@ + path_and_query@ && host@
                    == destination@,
                None => match resolved {
                    Ok(s) => r matches Ok((url, host)) && url@ == base_url_of(*s) + path_and_query@
                        && host@ == s.host_header@,
                    Err(e) => r matches Err(x) && x@ == ClientErrorView::Http("resolve: "@ + e@),
                },
            },
    {
        match self.base_url_overrides.get(destination) {
            Some(base) => Ok(
                (request_url(base.as_str(), path_and_query), destination.to_owned()),
            ),
            None => match resolved {
                Ok(s) => {
                    let base = s.base_url();
                    Ok((request_url(base.as_str(), path_and_query), s.host_header.clone()))
                },
                Err(e) => Err(FederationClientError::Http(cat("resolve: ", e.as_str()))),
            },
        }
    }

    /// The address of a request and the host that it names: those of a fixed
    /// address if the server has one, otherwise those that its name resolves to.
    /// A client that makes no requests has none.
    pub fn request_target(
        &self,
        destination: &str,
        resolved: &Result<ResolvedServer, String>,
        path_and_query: &str,
    ) -> (r: Result<(String, String), FederationClientError>)
        requires
            self.wf(),
        ensures
            if !self.enabled {
                r matches Err(e) && e@ == ClientErrorView::FederationDisabled
            } else {
                match self.base_url_overrides.find(destination@) {
                    Some(base) => r matches Ok((url, host)) && url@ == base@ + path_and_query@
                        && host@ == destination@,
                    None => match resolved {
                        Ok(s) => r matches Ok((url, host)) && url@ == base_url_of(*s)
                            + path_and_query@ && host@ == s.host_header@,
                        Err(e) => r matches Err(x) && x@ == ClientErrorView::Http(
                            "resolve: "@ + e@,
                        ),
                    },
                }
            },
    {
        match self.check_enabled() {
            Err(e) => Err(e),
            Ok(_) => self.target_of(destination, resolved, path_and_query),
        }
    }

    /// The address of a server's keys and the host that the request names; keys
    /// are fetched even by a client that makes no other requests.
    pub fn key_target(&self, server_name: &str, resolved: &Result<ResolvedServer, String>) -> (r:
        Result<(String, String), FederationClientError>)
        requires
            self.wf(),
        ensures
            match self.base_url_overrides.find(server_name@) {
                Some(base) => r matches Ok((url, host)) && url@ == base@
                    + "/_matrix/key/v2/server"@ && host@ == server_name@,
                None => match resolved {
                    Ok(s) => r matches Ok((url, host)) && url@ == base_url_of(*s)
                        + "/_matrix/key/v2/server"@ && host@ == s.host_header@,
                    Err(e) => r matches Err(x) && x@ == ClientErrorView::Http("resolve: "@ + e@),
                },
            },
    {
        self.target_of(server_name, resolved, "/_matrix/key/v2/server")
    }

    /// Ends a request for the keys of a server: the keys of a good document, an
    /// error for everything else. `status` is the status in words.
    pub fn fetch_server_keys<D: Fn(&str) -> Option<String>, V: Fn(&str, &str) -> bool>(
        &self,
        server_name: &str,
        success: bool,
        status: &str,
        body: Result<Json, FederationClientError>,
        now: u64,
        decode: D,
        verify: V,
    ) -> (r: Result<RemoteKeys, FederationClientError>)
        requires
            forall|k: &str| #[trigger] decode.requires((k,)),
            forall|id: &str, k: &str| #[trigger] verify.requires((id, k)),
        ensures
            if !success {
                r matches Err(e) && e@ == ClientErrorView::Http("status "@ + status@)
            } else {
                match body {
                    Err(e) => r matches Err(x) && x@ == e@,
                    Ok(b) => forall|faults: KeyFaults, verdicts: KeyVerdicts|
                        #![trigger decodes(decode, faults), verifies(verify, verdicts)]
                        decodes(decode, faults) && verifies(verify, verdicts)
                            ==> match document_fault(b@, server_name@, now, faults, verdicts) {
                            Some(e) => r matches Err(x) && x@ == e,
                            None => r matches Ok(keys) && document_says(b@, now, faults, keys),
                        },
                }
            },
    {
        if !success {
            return Err(FederationClientError::Http(cat("status ", status)));
        }
        match body {
            Err(e) => Err(e),
            Ok(b) => validate_key_response(&b, server_name, now, decode, verify),
        }
    }

    /// Sends a transaction.
    pub fn send_transaction(&self, destination: &str, txn_id: &str, body: Json) -> (r: Request)
        ensures
            r@ == put_request(
                destination@,
                "/_matrix/federation/v1/send/"@ + txn_id@,
                body@,
            ),
    {
        put_body(destination, cat("/_matrix/federation/v1/send/", txn_id), body)
    }

    /// Asks for the template of a join.
    pub fn make_join(
        &self,
        destination: &str,
        room_id: &str,
        user_id: &str,
        room_versions: &Vec<String>,
    ) -> (r: Request)
        ensures
            r@ == get_request(
                destination@,
                "/_matrix/federation/v1/make_join/"@ + room_id@ + "/"@ + user_id@ + "?"@
                    + query_of("ver="@, texts(room_versions@)),
            ),
    {
        let front = cat4("/_matrix/federation/v1/make_join/", room_id, "/", user_id);
        get(destination, cat3(front.as_str(), "?", join_query("ver=", room_versions).as_str()))
    }

    /// Submits a signed join; with `omit_members` the reply may leave out most of
    /// the room's members.
    pub fn send_join_v2(
        &self,
        destination: &str,
        room_id: &str,
        event_id: &str,
        signed_event: Json,
        omit_members: bool,
    ) -> (r: Request)
        ensures
            r@ == put_request(
                destination@,
                "/_matrix/federation/v2/send_join/"@ + room_id@ + "/"@ + event_id@ + (
                if omit_members {
                    "?omit_members=true"@
                } else {
                    seq![]
                }),
                signed_event@,
            ),
    {
        let mut path = cat4("/_matrix/federation/v2/send_join/", room_id, "/", event_id);
        if omit_members {
            path.append("?omit_members=true");
        } else {
            proof {
                assert(path@ + seq![] =~= path@);
            }
        }
        put_body(destination, path, signed_event)
    }

    /// Asks for the template of a leave.
    pub fn make_leave(&self, destination: &str, room_id: &str, user_id: &str) -> (r: Request)
        ensures
            r@ == get_request(
                destination@,
                "/_matrix/federation/v1/make_leave/"@ + room_id@ + "/"@ + user_id@,
            ),
    {
        get(destination, cat4("/_matrix/federation/v1/make_leave/", room_id, "/", user_id))
    }

    /// Submits a signed leave.
    pub fn send_leave_v2(
        &self,
        destination: &str,
        room_id: &str,
        event_id: &str,
        signed_event: Json,
    ) -> (r: Request)
        ensures
            r@ == put_request(
                destination@,
                "/_matrix/federation/v2/send_leave/"@ + room_id@ + "/"@ + event_id@,
                signed_event@,
            ),
    {
        put_body(
            destination,
            cat4("/_matrix/federation/v2/send_leave/", room_id, "/", event_id),
            signed_event,
        )
    }

    /// Asks for the template of a knock.
    pub fn make_knock(
        &self,
        destination: &str,
        room_id: &str,
        user_id: &str,
        room_versions: &Vec<String>,
    ) -> (r: Request)
        ensures
            r@ == get_request(
                destination@,
                "/_matrix/federation/v1/make_knock/"@ + room_id@ + "/"@ + user_id@ + "?"@
                    + query_of("ver="@, texts(room_versions@)),
            ),
    {
        let front = cat4("/_matrix/federation/v1/make_knock/", room_id, "/", user_id);
        get(destination, cat3(front.as_str(), "?", join_query("ver=", room_versions).as_str()))
    }

    /// Submits a signed knock.
    pub fn send_knock_v1(
        &self,
        destination: &str,
        room_id: &str,
        event_id: &str,
        signed_event: Json,
    ) -> (r: Request)
        ensures
            r@ == put_request(
                destination@,
                "/_matrix/federation/v1/send_knock/"@ + room_id@ + "/"@ + event_id@,
                signed_event@,
            ),
    {
        put_body(
            destination,
            cat4("/_matrix/federation/v1/send_knock/", room_id, "/", event_id),
            signed_event,
        )
    }

    /// Sends an invite.
    pub fn send_invite_v2(&self, destination: &str, room_id: &str, event_id: &str, body: Json) -> (r:
        Request)
        ensures
            r@ == put_request(
                destination@,
                "/_matrix/federation/v2/invite/"@ + room_id@ + "/"@ + event_id@,
                body@,
            ),
    {
        put_body(
            destination,
            cat4("/_matrix/federation/v2/invite/", room_id, "/", event_id),
            body,
        )
    }

    /// Looks a room alias up.
    pub fn query_directory(&self, destination: &str, room_alias: &str) -> (r: Request)
        ensures
            r@ == get_request(
                destination@,
                "/_matrix/federation/v1/query/directory?room_alias="@ + url_encoded(room_alias@),
            ),
    {
        let alias = url_query_encode(room_alias);
        get(
            destination,
            cat("/_matrix/federation/v1/query/directory?room_alias=", alias.as_str()),
        )
    }

    /// Asks for a profile, or one field of it.
    pub fn query_profile(&self, destination: &str, user_id: &str, field: Option<&str>) -> (r:
        Request)
        ensures
            r@ == get_request(
                destination@,
                "/_matrix/federation/v1/query/profile?user_id="@ + url_encoded(user_id@) + (
                match field {
                    Some(f) => "&field="@ + f@,
                    None => seq![],
                }),
            ),
    {
        let user = url_query_encode(user_id);
        let mut path = cat("/_matrix/federation/v1/query/profile?user_id=", user.as_str());
        match field {
            Some(f) => {
                let tail = cat("&field=", f);
                path.append(tail.as_str());
            },
            None => {
                proof {
                    assert(path@ + seq![] =~= path@);
                }
            },
        }
        get(destination, path)
    }

    /// Asks for the summary of a space.
    pub fn fetch_hierarchy(&self, destination: &str, room_id: &str) -> (r: Request)
        ensures
            r@ == get_request(
                destination@,
                "/_matrix/federation/v1/hierarchy/"@ + url_encoded(room_id@),
            ),
    {
        let room = url_query_encode(room_id);
        get(destination, cat("/_matrix/federation/v1/hierarchy/", room.as_str()))
    }

    /// Asks for a server's public rooms.
    pub fn fetch_public_rooms(
        &self,
        destination: &str,
        limit: Option<u64>,
        since: Option<&str>,
        search_term: Option<&str>,
    ) -> (r: Request)
        ensures
            r@ == post_request(
                destination@,
                "/_matrix/federation/v1/publicRooms"@,
                JsonView::Object(
                    public_rooms_body(limit, opt_text(since), opt_text(search_term)),
                ),
            ),
    {
        let mut m: Vec<(String, Json)> = Vec::new();
        match limit {
            Some(l) => {
                put(&mut m, "limit", Json::number(l));
            },
            None => {},
        }
        match since {
            Some(s) => {
                put(&mut m, "since", Json::text(s));
            },
            None => {},
        }
        match search_term {
            Some(t) => {
                let mut inner: Vec<(String, Json)> = Vec::new();
                put(&mut inner, "generic_search_term", Json::text(t));
                proof {
                    assert(members(inner@) =~= seq![("generic_search_term"@, JsonView::Str(t@))]);
                }
                put(&mut m, "filter", Json::object(inner));
            },
            None => {},
        }
        proof {
            assert(members(m@) =~= public_rooms_body(
                limit,
                opt_text(since),
                opt_text(search_term),
            ));
        }
        post_body(
            destination,
            "/_matrix/federation/v1/publicRooms".to_owned(),
            Json::object(m),
        )
    }

    /// Asks for one event; [`event_in`] reads the reply.
    pub fn fetch_event_pdu(&self, destination: &str, event_id: &str) -> (r: Request)
        ensures
            r@ == get_request(
                destination@,
                "/_matrix/federation/v1/event/"@ + url_encoded(event_id@),
            ),
    {
        let event = url_query_encode(event_id);
        get(destination, cat("/_matrix/federation/v1/event/", event.as_str()))
    }

    /// Asks for the relations of an event.
    pub fn event_relationships(&self, destination: &str, body: Json) -> (r: Request)
        ensures
            r@ == post_request(
                destination@,
                "/_matrix/federation/unstable/event_relationships"@,
                body@,
            ),
    {
        post_body(
            destination,
            "/_matrix/federation/unstable/event_relationships".to_owned(),
            body,
        )
    }

    /// Asks for a room's state at an event.
    pub fn state(&self, destination: &str, room_id: &str, event_id: &str) -> (r: Request)
        ensures
            r@ == get_request(
                destination@,
                "/_matrix/federation/v1/state/"@ + url_encoded(room_id@) + "?event_id="@
                    + url_encoded(event_id@),
            ),
    {
        let room = url_query_encode(room_id);
        let event = url_query_encode(event_id);
        get(
            destination,
            cat4("/_matrix/federation/v1/state/", room.as_str(), "?event_id=", event.as_str()),
        )
    }

    /// Asks for the ids of a room's state at an event.
    pub fn state_ids(&self, destination: &str, room_id: &str, event_id: &str) -> (r: Request)
        ensures
            r@ == get_request(
                destination@,
                "/_matrix/federation/v1/state_ids/"@ + url_encoded(room_id@) + "?event_id="@
                    + url_encoded(event_id@),
            ),
    {
        let room = url_query_encode(room_id);
        let event = url_query_encode(event_id);
        get(
            destination,
            cat4("/_matrix/federation/v1/state_ids/", room.as_str(), "?event_id=", event.as_str()),
        )
    }

    /// Asks for the event nearest to a time.
    pub fn timestamp_to_event(&self, destination: &str, room_id: &str, ts: u64, dir: &str) -> (r:
        Request)
        ensures
            r@ == get_request(
                destination@,
                "/_matrix/federation/v1/timestamp_to_event/"@ + url_encoded(room_id@) + "?ts="@
                    + decimal(ts as nat) + ("&dir="@ + dir@),
            ),
    {
        let room = url_query_encode(room_id);
        let time = number_text(ts);
        let front = cat4(
            "/_matrix/federation/v1/timestamp_to_event/",
            room.as_str(),
            "?ts=",
            time.as_str(),
        );
        let tail = cat("&dir=", dir);
        get(destination, cat(front.as_str(), tail.as_str()))
    }

    /// Asks for the keys of users.
    pub fn query_user_keys(&self, destination: &str, body: Json) -> (r: Request)
        ensures
            r@ == post_request(destination@, "/_matrix/federation/v1/user/keys/query"@, body@),
    {
        post_body(destination, "/_matrix/federation/v1/user/keys/query".to_owned(), body)
    }

    /// Claims one-time keys of users.
    pub fn claim_user_keys(&self, destination: &str, body: Json) -> (r: Request)
        ensures
            r@ == post_request(destination@, "/_matrix/federation/v1/user/keys/claim"@, body@),
    {
        post_body(destination, "/_matrix/federation/v1/user/keys/claim".to_owned(), body)
    }

    /// Asks for a room's past before some events.
    pub fn backfill(
        &self,
        destination: &str,
        room_id: &str,
        event_ids: &Vec<String>,
        limit: usize,
    ) -> (r: Request)
        ensures
            r@ == get_request(
                destination@,
                "/_matrix/federation/v1/backfill/"@ + room_id@ + "?"@ + query_of(
                    "v="@,
                    texts(event_ids@),
                ) + ("&limit="@ + decimal(limit as nat)),
            ),
    {
        let front = cat4(
            "/_matrix/federation/v1/backfill/",
            room_id,
            "?",
            join_query("v=", event_ids).as_str(),
        );
        let tail = cat("&limit=", number_text(limit as u64).as_str());
        get(destination, cat(front.as_str(), tail.as_str()))
    }

    /// Asks for a file; [`media_in`] reads the reply.
    pub fn fetch_media(&self, destination: &str, media_id: &str) -> (r: Request)
        ensures
            r@ == get_request(
                destination@,
                "/_matrix/federation/v1/media/download/"@ + media_id@,
            ),
    {
        get(destination, cat("/_matrix/federation/v1/media/download/", media_id))
    }

    /// Ends a request with the status and the body of its reply: the body of a
    /// success, an error for everything else. `status` is the status in words,
    /// `body` the body as text.
    pub fn signed_request(&self, success: bool, status: &str, body: &str, reply: Json) -> (r:
        Result<Json, FederationClientError>)
        ensures
            if !self.enabled {
                r matches Err(e) && e@ == ClientErrorView::FederationDisabled
            } else if success {
                r matches Ok(v) && v@ == reply@
            } else {
                r matches Err(e) && e@ == ClientErrorView::Http(
                    "status "@ + status@ + ": "@ + body@,
                )
            },
    {
        if !self.enabled {
            return Err(FederationClientError::FederationDisabled);
        }
        if success {
            Ok(reply)
        } else {
            Err(FederationClientError::Http(cat4("status ", status, ": ", body)))
        }
    }

    /// The connection for a server: one that resolves names by itself if there
    /// are no addresses to pin; otherwise one that is kept for the server's name
    /// and port, and made when it is first needed.
    pub fn client_for(&mut self, resolved: &ResolvedServer) -> (r: ClientChoice)
        requires
            old(self).wf(),
        ensures
            final(self).wf(),
            final(self).our_server_name == old(self).our_server_name,
            final(self).enabled == old(self).enabled,
            final(self).base_url_overrides == old(self).base_url_overrides,
            ({
                let key = client_key(*resolved);
                let known = slots(old(self).clients);
                if resolved.resolved_ips@.len() == 0 {
                    r is Default && slots(final(self).clients) == known
                } else if known.dom().contains(key) {
                    r == ClientChoice::Kept(known[key]) && slots(final(self).clients) == known
                } else {
                    r matches ClientChoice::Build(n) && n == known.dom().len() && slots(
                        final(self).clients,
                    ) == known.insert(key, n)
                }
            }),
    {
        if resolved.resolved_ips.len() == 0 {
            return ClientChoice::Default;
        }
        let key = cat3(
            resolved.tls_server_name.as_str(),
            ":",
            number_text(resolved.target_port as u64).as_str(),
        );
        match slot_of(&self.clients, key.as_str()) {
            Some(n) => ClientChoice::Kept(n),
            None => {
                let n: usize = slot_count(&self.clients);
                set_slot(&mut self.clients, key.as_str(), n);
                proof {
                    let known = slots(old(self).clients);
                    assert(known.insert(key@, n).dom() =~= known.dom().insert(key@));
                }
                ClientChoice::Build(n)
            },
        }
    }
}

/// Which connection a request uses.
pub enum ClientChoice {
    /// The one that resolves names by itself.
    Default,
    /// The one that is kept under a number.
    Kept(usize),
    /// One to be made, with the server's addresses pinned, and kept under a
    /// number.
    Build(usize),
}

/// The name and port under which the connection to a server is found again.
pub open spec fn client_key(s: ResolvedServer) -> Seq<char> {
    s.tls_server_name@ + ":"@ + decimal(s.target_port as nat)
}

/// The event in the reply to a request for one event: the first one listed.
pub fn event_in(reply: &Json) -> (r: Result<Json, FederationClientError>)
    ensures
        match reply@.array_at("pdus"@) {
            Some(v) => if v.len() > 0 {
                r matches Ok(e) && e@ == v[0]
            } else {
                r matches Err(e) && e@ == ClientErrorView::BadJson("response missing pdus[0]"@)
            },
            None => r matches Err(e) && e@ == ClientErrorView::BadJson(
                "response missing pdus[0]"@,
            ),
        },
{
    match reply.array_at("pdus") {
        Some(v) => {
            proof {
                assert(values(v@).len() == v@.len());
            }
            if v.len() > 0 {
                proof {
                    assert(values(v@)[0] == v@[0]@);
                }
                Ok(v[0].copy())
            } else {
                Err(FederationClientError::BadJson("response missing pdus[0]".to_owned()))
            }
        },
        None => Err(FederationClientError::BadJson("response missing pdus[0]".to_owned())),
    }
}

/// Whether an error reports what is wrong with a two-part body.
pub open spec fn is_multipart_error(
    body: Seq<u8>,
    boundary: Seq<char>,
    e: ClientErrorView,
) -> bool {
    exists|x: String| #[trigger]
        crate::media::is_media_of(body, boundary, Err(x)) && e == ClientErrorView::BadJson(
            "multipart: "@ + x@,
        )
}

/// How the reply to a request for a file is read: as a two-part body if its
/// content type states a boundary, else as the file itself.
pub open spec fn is_media_reply(
    content_type: Option<Seq<char>>,
    disposition: Option<Seq<char>>,
    body: Seq<u8>,
    r: Result<MediaResponse, FederationClientError>,
) -> bool {
    let ct = match content_type {
        Some(c) => c,
        None => "application/octet-stream"@,
    };
    match crate::media::boundary_in(crate::text::pieces(ct, ';').drop_first()) {
        Some(boundary) => match r {
            Ok(m) => crate::media::is_media_of(body, boundary, Ok(m)),
            Err(e) => is_multipart_error(body, boundary, e@),
        },
        None => r matches Ok(m) && {
            &&& m.content_type@ == ct
            &&& m.bytes@ == body
            &&& crate::text::opt_string(m.filename) == (match disposition {
                Some(d) => crate::media::filename_of(d),
                None => None,
            })
        },
    }
}

/// Reads the reply to a request for a file.
pub fn media_in(content_type: Option<&str>, disposition: Option<&str>, body: Vec<u8>) -> (r:
    Result<MediaResponse, FederationClientError>)
    ensures
        is_media_reply(opt_text(content_type), opt_text(disposition), body@, r),
{
    let ct = match content_type {
        Some(c) => c,
        None => "application/octet-stream",
    };
    match parse_multipart_boundary(ct) {
        Some(boundary) => match parse_multipart_media(body.as_slice(), boundary.as_str()) {
            Ok(m) => Ok(m),
            Err(x) => {
                proof {
                    assert(crate::media::is_media_of(body@, boundary@, Err(x)));
                }
                Err(FederationClientError::BadJson(cat("multipart: ", x.as_str())))
            },
        },
        None => {
            let filename = match disposition {
                Some(d) => parse_filename_from_content_disposition(d),
                None => None,
            };
            Ok(MediaResponse { content_type: ct.to_owned(), filename, bytes: body })
        },
    }
}

/// What is wrong with the announced length of a reply, if anything.
pub open spec fn length_fault(announced: Option<u64>, max: usize) -> Option<Seq<char>> {
    match announced {
        Some(n) => if n > max {
            Some(
                "response too large: "@ + decimal(n as nat) + " bytes (cap "@ + decimal(
                    max as nat,
                ) + ")"@,
            )
        } else {
            None
        },
        None => None,
    }
}

/// A reply that is read piece by piece, up to a limit.
pub struct CappedBody {
    pub bytes: Vec<u8>,
    pub max: usize,
}

impl CappedBody {
    /// Starts to read a reply; one that is announced to be too long is refused.
    pub fn start(announced: Option<u64>, max: usize) -> (r: Result<
        CappedBody,
        FederationClientError,
    >)
        ensures
            match length_fault(announced, max) {
                Some(e) => r matches Err(x) && x@ == ClientErrorView::Http(e),
                None => r matches Ok(b) && b.bytes@.len() == 0 && b.max == max,
            },
    {
        match announced {
            Some(n) => {
                if n > max as u64 {
                    let mut text = cat4(
                        "response too large: ",
                        number_text(n).as_str(),
                        " bytes (cap ",
                        number_text(max as u64).as_str(),
                    );
                    text.append(")");
                    return Err(FederationClientError::Http(text));
                }
            },
            None => {},
        }
        Ok(CappedBody { bytes: Vec::new(), max })
    }

    /// Adds a piece; one that takes the reply over the limit is refused and
    /// changes nothing.
    pub fn read_capped_json(&mut self, chunk: &[u8]) -> (r: Result<(), FederationClientError>)
        requires
            old(self).bytes@.len() <= old(self).max,
        ensures
            final(self).max == old(self).max,
            final(self).bytes@.len() <= final(self).max,
            if old(self).bytes@.len() + chunk@.len() > old(self).max {
                &&& r matches Err(e) && e@ == ClientErrorView::Http(
                    "response exceeds "@ + decimal(old(self).max as nat) + "-byte cap"@,
                )
                &&& final(self).bytes@ == old(self).bytes@
            } else {
                r is Ok && final(self).bytes@ == old(self).bytes@ + chunk@
            },
    {
        if chunk.len() > self.max - self.bytes.len() {
            return Err(
                FederationClientError::Http(
                    cat3("response exceeds ", number_text(self.max as u64).as_str(), "-byte cap"),
                ),
            );
        }
        let ghost before = self.bytes@;
        let mut i: usize = 0;
        proof {
            assert(before + chunk@.take(0) =~= before);
        }
        while i < chunk.len()
            invariant
                i <= chunk.len(),
                self.max == old(self).max,
                self.bytes@ == before + chunk@.take(i as int),
                before == old(self).bytes@,
            decreases chunk.len() - i,
        {
            self.bytes.push(chunk[i]);
            i += 1;
            proof {
                assert(before + chunk@.take(i as int) =~= (before + chunk@.take(i - 1)).push(
                    chunk@[i - 1],
                ));
            }
        }
        proof {
            assert(chunk@.take(i as int) =~= chunk@);
        }
        Ok(())
    }
}

/// The address of a request, from the front of the server's addresses.
pub fn request_url(base_url: &str, path_and_query: &str) -> (r: String)
    ensures
        r@ == base_url@ + path_and_query@,
{
    cat(base_url, path_and_query)
}

/// The time since the epoch in milliseconds, from `SystemTime::elapsed` of the
/// epoch: `None` for a clock that is set to a time before it. Nothing is said of
/// the time itself.
#[verifier::external_body]
fn since_epoch() -> (r: Option<u128>)
{
    std::time::SystemTime::UNIX_EPOCH.elapsed().ok().map(|d| d.as_millis())
}

/// A time in milliseconds since the epoch, none for a clock that is set to a
/// time before it.
pub fn millis(elapsed: Option<u128>) -> (r: u64)
    ensures
        match elapsed {
            Some(ms) => r as int == (ms as int) % 0x1_0000_0000_0000_0000,
            None => r == 0,
        },
{
    match elapsed {
        Some(ms) => (ms % 0x1_0000_0000_0000_0000u128) as u64,
        None => 0,
    }
}

/// The time in milliseconds since the epoch.
pub fn now_ms() -> (r: u64)
{
    millis(since_epoch())
}

/// Written into a query, each text stands behind its own name, in order: the parts
/// of the query between the ampersands are the names with the texts.
pub proof fn law_queries(name: Seq<char>, v: Seq<Seq<char>>)
    requires
        v.len() > 0,
        !name.contains('&'),
        forall|i: int| 0 <= i < v.len() ==> !(#[trigger] v[i]).contains('&'),
    ensures
        pieces(query_of(name, v), '&') == v.map_values(|x: Seq<char>| name + x),
    decreases v.len(),
{
    reveal_strlit("&");
    assert("&"@ =~= seq!['&']);
    let want = v.map_values(|x: Seq<char>| name + x);
    let last = name + v.last();
    assert(!last.contains('&')) by {
        if last.contains('&') {
            let i = choose|i: int| 0 <= i < last.len() && last[i] == '&';
            if i < name.len() {
                assert(name[i] == '&');
            } else {
                assert(v[v.len() - 1][i - name.len()] == '&');
                assert(v[v.len() - 1].contains('&'));
            }
        }
    }
    law_pieces(last, '&');
    if v.len() == 1 {
        assert(pieces(last, '&') =~= want);
    } else {
        let front = v.drop_last();
        assert forall|i: int| 0 <= i < front.len() implies !(#[trigger] front[i]).contains('&') by {
            assert(front[i] == v[i]);
        }
        law_queries(name, front);
        let q = query_of(name, front);
        assert(query_of(name, v) =~= q + seq!['&'] + last);
        law_pieces_apart(q, last, '&');
        assert(pieces(q, '&') + seq![last] =~= want);
    }
}

/// A request for public rooms says what it was asked to say, and nothing else.
pub proof fn law_public_rooms_body(
    limit: Option<u64>,
    since: Option<Seq<char>>,
    term: Option<Seq<char>>,
)
    ensures
        ({
            let b = JsonView::Object(public_rooms_body(limit, since, term));
            &&& b.get("limit"@) == (match limit {
                Some(n) => Some(JsonView::Number(NumberView::Unsigned(n))),
                None => None,
            })
            &&& b.get("since"@) == (match since {
                Some(s) => Some(JsonView::Str(s)),
                None => None,
            })
            &&& match term {
                Some(t) => b.get("filter"@) matches Some(x) && x.get("generic_search_term"@)
                    == Some(JsonView::Str(t)),
                None => b.get("filter"@) is None,
            }
        }),
{
    reveal_with_fuel(crate::json::member, 4);
    reveal_strlit("limit");
    reveal_strlit("since");
    reveal_strlit("filter");
    assert("limit"@.len() == 5 && "since"@.len() == 5 && "filter"@.len() == 6);
    assert("limit"@[0] == 'l' && "since"@[0] == 's');
    let m = public_rooms_body(limit, since, term);
    let m1 = m.drop_first();
    let m2 = m1.drop_first();
    if m.len() >= 2 {
        assert(m1[0] == m[1]);
    }
    if m.len() == 3 {
        assert(m2[0] == m[2]);
    }
    if m.len() == 1 {
        assert(m1 =~= seq![]);
    }
    if m.len() == 2 {
        assert(m2 =~= seq![]);
    }
    if m.len() == 3 {
        assert(m2.drop_first() =~= seq![]);
    }
}

/// A reply is refused for its announced length exactly if that is over the limit.
pub proof fn law_announced_lengths(announced: Option<u64>, max: usize)
    ensures
        length_fault(announced, max) is Some <==> (announced matches Some(n) && n > max),
{
}

/// Two servers share a connection only if they have the same certificate name and
/// the same port.
pub proof fn law_client_keys(a: ResolvedServer, b: ResolvedServer)
    ensures
        client_key(a) == client_key(b) <==> a.tls_server_name@ == b.tls_server_name@
            && a.target_port == b.target_port,
{
    reveal_strlit(":");
    assert(":"@ =~= seq![':']);
    let p = decimal(a.target_port as nat);
    let q = decimal(b.target_port as nat);
    law_decimal(a.target_port as nat);
    law_decimal(b.target_port as nat);
    if p.contains(':') {
        let i = choose|i: int| 0 <= i < p.len() && p[i] == ':';
        assert(is_digit(p[i]));
    }
    if q.contains(':') {
        let i = choose|i: int| 0 <= i < q.len() && q[i] == ':';
        assert(is_digit(q[i]));
    }
    if client_key(a) == client_key(b) {
        crate::directory::lemma_parts(a.tls_server_name@, p, b.tls_server_name@, q);
    }
}

} // verus!
