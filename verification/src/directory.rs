//! Aliases, profiles and the list of public rooms, as other servers ask for
//! them.

use vstd::prelude::*;
use vstd::string::*;

use crate::api::BAD_REQUEST;
use crate::api::INTERNAL_SERVER_ERROR;
use crate::api::NOT_FOUND;
use crate::fetch::FederationPublicRoomsRequest;
use crate::fetch::ProfileQuery;
use crate::json::members;
use crate::json::put;
use crate::json::values;
use crate::json::Json;
use crate::json::JsonView;
use crate::json::NumberView;
use crate::text::all_digits;
use crate::text::chars_of;
use crate::text::find_from;
use crate::text::is_digit;
use crate::text::lemma_index_of_first;
use crate::text::lemma_no_index_of_first;
use crate::text::opt_string;
use crate::text::law_rsplit_once;
use crate::text::law_split_once;
use crate::text::opt_text;
use crate::text::rsplit_once;
use crate::text::rsplit_once_at;
use crate::text::split_once;
use crate::text::split_once_at;
use crate::text::str_eq;

verus! {

/// Whether a text is a port: one to five digits.
pub open spec fn is_port(p: Seq<char>) -> bool {
    p.len() <= 5 && all_digits(p)
}

/// Whether a text is a server name: a host that is not empty, bracketed or
/// without a closing port, then nothing or a colon and a port.
pub open spec fn is_server_name(s: Seq<char>) -> bool {
    if s.len() == 0 {
        false
    } else if s[0] == '[' {
        match s.index_of_first(']') {
            Some(i) => {
                let rest = s.skip(i + 1);
                rest.len() == 0 || (rest[0] == ':' && is_port(rest.skip(1)))
            },
            None => false,
        }
    } else {
        match rsplit_once_at(s, ':') {
            Some((h, p)) => h.len() > 0 && is_port(p),
            None => true,
        }
    }
}

fn port_ok(p: &str) -> (r: bool)
    ensures
        r == is_port(p@),
{
    let chars = chars_of(p);
    let n: usize = chars.len();
    if n == 0 || n > 5 {
        return false;
    }
    let mut i: usize = 0;
    while i < n
        invariant
            i <= n,
            0 < n <= 5,
            n == chars.len(),
            chars@ == p@,
            forall|j: int| 0 <= j < i ==> is_digit(#[trigger] p@[j]),
        decreases n - i,
    {
        if chars[i] < '0' || chars[i] > '9' {
            proof {
                assert(!is_digit(p@[i as int]));
            }
            return false;
        }
        i += 1;
    }
    true
}

/// Whether a text is a server name.
pub fn is_valid_server_name(s: &str) -> (r: bool)
    ensures
        r == is_server_name(s@),
{
    let chars = chars_of(s);
    let n: usize = chars.len();
    if n == 0 {
        return false;
    }
    if chars[0] == '[' {
        let i: usize = find_from(&chars, ']', 0);
        if i >= n {
            proof {
                lemma_no_index_of_first(s@, ']');
            }
            return false;
        }
        proof {
            lemma_index_of_first(s@, ']', i as int);
        }
        let ghost rest = s@.skip(i + 1);
        if i + 1 == n {
            return true;
        }
        proof {
            assert(rest[0] == s@[i + 1]);
            assert(rest.skip(1) =~= s@.subrange(i + 2, n as int));
        }
        if chars[i + 1] != ':' {
            return false;
        }
        return port_ok(s.substring_char(i + 2, n));
    }
    match rsplit_once(s, ':') {
        Some((h, p)) => !h.is_empty() && port_ok(p),
        None => true,
    }
}

/// The reply to a query for a room alias.
pub fn query_directory(found: &Result<Option<String>, String>, server_name: &str) -> (r: Result<
    Json,
    u16,
>)
    ensures
        match *found {
            Err(_) => r == Err::<Json, u16>(INTERNAL_SERVER_ERROR),
            Ok(None) => r == Err::<Json, u16>(NOT_FOUND),
            Ok(Some(room)) => r matches Ok(b) && b@ == JsonView::Object(
                seq![
                    ("room_id"@, JsonView::Str(room@)),
                    ("servers"@, JsonView::Array(seq![JsonView::Str(server_name@)])),
                ],
            ),
        },
{
    match found {
        Err(_) => Err(INTERNAL_SERVER_ERROR),
        Ok(None) => Err(NOT_FOUND),
        Ok(Some(room)) => {
            let mut servers: Vec<Json> = Vec::new();
            servers.push(Json::text(server_name));
            proof {
                assert(values(servers@) =~= seq![JsonView::Str(server_name@)]);
            }
            let mut m: Vec<(String, Json)> = Vec::new();
            put(&mut m, "room_id", Json::text(room.as_str()));
            put(&mut m, "servers", Json::array(servers));
            proof {
                assert(members(m@) =~= seq![
                    ("room_id"@, JsonView::Str(room@)),
                    ("servers"@, JsonView::Array(seq![JsonView::Str(server_name@)])),
                ]);
            }
            Ok(Json::object(m))
        },
    }
}

/// Whether a text is a user id with a proper server name.
pub open spec fn is_user_id(s: Seq<char>) -> bool {
    s.len() > 0 && s[0] == '@' && match split_once_at(s.skip(1), ':') {
        Some((_, server)) => is_server_name(server),
        None => false,
    }
}

fn user_id_ok(s: &str) -> (r: bool)
    ensures
        r == is_user_id(s@),
{
    let chars = chars_of(s);
    let n: usize = chars.len();
    if n == 0 || chars[0] != '@' {
        return false;
    }
    let rest = s.substring_char(1, n);
    proof {
        assert(rest@ =~= s@.skip(1));
    }
    match split_once(rest, ':') {
        Some((_, server)) => is_valid_server_name(server),
        None => false,
    }
}

/// One field of a profile, if the record has it.
pub open spec fn field_of(record: JsonView, field: Seq<char>) -> Seq<(Seq<char>, JsonView)> {
    match record.get(field) {
        Some(v) => seq![(field, v)],
        None => seq![],
    }
}

/// The fields of a profile that are asked for: one of the two, or both.
pub open spec fn profile_fields(record: JsonView, field: Option<Seq<char>>) -> Seq<
    (Seq<char>, JsonView),
> {
    if field == Some("displayname"@) {
        field_of(record, "displayname"@)
    } else if field == Some("avatar_url"@) {
        field_of(record, "avatar_url"@)
    } else {
        field_of(record, "displayname"@) + field_of(record, "avatar_url"@)
    }
}

fn put_field(m: &mut Vec<(String, Json)>, record: &Json, field: &str)
    ensures
        members(final(m)@) == members(old(m)@) + field_of(record@, field@),
{
    let ghost before = members(m@);
    match record.get(field) {
        Some(v) => {
            put(m, field, v.copy());
            proof {
                assert(members(m@) =~= before + field_of(record@, field@));
            }
        },
        None => {
            proof {
                assert(before + field_of(record@, field@) =~= before);
            }
        },
    }
}

/// The reply to a query for a profile. `found` is the user's record, or what
/// failed; it is not looked at for something that is no user id.
pub fn query_profile(q: &ProfileQuery, found: &Result<Option<Json>, String>) -> (r: Result<
    Json,
    u16,
>)
    ensures
        if !is_user_id(q.user_id@) {
            r == Err::<Json, u16>(BAD_REQUEST)
        } else {
            match *found {
                Err(_) => r == Err::<Json, u16>(INTERNAL_SERVER_ERROR),
                Ok(None) => r == Err::<Json, u16>(NOT_FOUND),
                Ok(Some(record)) => r matches Ok(b) && b@ == JsonView::Object(
                    profile_fields(record@, opt_string(q.field)),
                ),
            }
        },
{
    if !user_id_ok(q.user_id.as_str()) {
        return Err(BAD_REQUEST);
    }
    match found {
        Err(_) => Err(INTERNAL_SERVER_ERROR),
        Ok(None) => Err(NOT_FOUND),
        Ok(Some(record)) => {
            let (name, avatar) = match &q.field {
                Some(f) => {
                    let only_name = str_eq(f.as_str(), "displayname");
                    let only_avatar = str_eq(f.as_str(), "avatar_url");
                    (!only_avatar || only_name, !only_name)
                },
                None => (true, true),
            };
            let mut m: Vec<(String, Json)> = Vec::new();
            proof {
                assert(members(m@) =~= seq![]);
            }
            if name {
                put_field(&mut m, record, "displayname");
            }
            if avatar {
                put_field(&mut m, record, "avatar_url");
            }
            proof {
                assert(members(m@) =~= profile_fields(record@, opt_string(q.field)));
            }
            Ok(Json::object(m))
        },
    }
}

/// A text in lower case, as `str::to_lowercase` gives it.
pub uninterp spec fn lowercase(s: Seq<char>) -> Seq<char>;

/// `str::to_lowercase`: a text in lower case. It depends on the text alone.
#[verifier::external_body]
fn to_lowercase(s: &str) -> (r: String)
    ensures
        r@ == lowercase(s@),
{
    s.to_lowercase()
}

/// The term that a request for public rooms searches for: at the top level, or
/// else in its filter.
pub open spec fn requested_term(req: FederationPublicRoomsRequest) -> Option<Seq<char>> {
    match req.generic_search_term {
        Some(t) => Some(t@),
        None => match req.filter {
            Some(f) => opt_string(f.generic_search_term),
            None => None,
        },
    }
}

/// The term that a request for public rooms searches for.
pub fn requested_search_term(req: &FederationPublicRoomsRequest) -> (r: Option<&str>)
    ensures
        opt_text(r) == requested_term(*req),
{
    match &req.generic_search_term {
        Some(t) => Some(t.as_str()),
        None => match &req.filter {
            Some(f) => match &f.generic_search_term {
                Some(t) => Some(t.as_str()),
                None => None,
            },
            None => None,
        },
    }
}

/// The term that the list of public rooms is searched for, in lower case; a
/// refusal where the list is not given to other servers.
pub fn public_rooms_search(allowed: bool, req: &FederationPublicRoomsRequest) -> (r: Result<
    Option<String>,
    u16,
>)
    ensures
        if !allowed {
            r == Err::<Option<String>, u16>(NOT_FOUND)
        } else {
            r matches Ok(term) && opt_string(term) == (match requested_term(*req) {
                Some(t) => Some(lowercase(t)),
                None => None,
            })
        },
{
    if !allowed {
        return Err(NOT_FOUND);
    }
    match requested_search_term(req) {
        Some(t) => Ok(Some(to_lowercase(t))),
        None => Ok(None),
    }
}

/// The reply to a request for public rooms: the rooms that were found, and how
/// many there are.
pub fn serve_federation_public_rooms(found: Option<Vec<Json>>) -> (r: Result<Json, u16>)
    ensures
        match found {
            None => r == Err::<Json, u16>(INTERNAL_SERVER_ERROR),
            Some(v) => r matches Ok(b) && b@ == JsonView::Object(
                seq![
                    ("chunk"@, JsonView::Array(values(v@))),
                    (
                        "total_room_count_estimate"@,
                        JsonView::Number(NumberView::Unsigned(v@.len() as u64)),
                    ),
                ],
            ),
        },
{
    match found {
        None => Err(INTERNAL_SERVER_ERROR),
        Some(v) => {
            let total: u64 = v.len() as u64;
            let ghost c = values(v@);
            let mut m: Vec<(String, Json)> = Vec::new();
            put(&mut m, "chunk", Json::array(v));
            put(&mut m, "total_room_count_estimate", Json::number(total));
            proof {
                assert(members(m@) =~= seq![
                    ("chunk"@, JsonView::Array(c)),
                    (
                        "total_room_count_estimate"@,
                        JsonView::Number(NumberView::Unsigned(total)),
                    ),
                ]);
            }
            Ok(Json::object(m))
        },
    }
}

/// A host name is a server name by itself, and with a colon and one to five digits
/// behind it; with anything else behind a colon it is not.
pub proof fn law_server_names(h: Seq<char>, p: Seq<char>)
    requires
        h.len() > 0,
        h[0] != '[',
        !h.contains(':'),
        !p.contains(':'),
    ensures
        is_server_name(h),
        is_server_name(h + seq![':'] + p) <==> p.len() <= 5 && p.len() > 0 && forall|i: int|
            0 <= i < p.len() ==> '0' <= #[trigger] p[i] <= '9',
        !is_server_name(seq![':'] + p),
        !is_server_name(seq![]),
{
    law_rsplit_once(h, ':');
    let s = h + seq![':'] + p;
    law_rsplit_once(s, ':');
    assert(s[h.len() as int] == ':');
    assert(s[0] == h[0]);
    let (a, b) = rsplit_once_at(s, ':')->0;
    lemma_parts(h, p, a, b);
    let t = seq![':'] + p;
    law_rsplit_once(t, ':');
    assert(t[0] == ':');
    let (c, d) = rsplit_once_at(t, ':')->0;
    assert(t =~= Seq::<char>::empty() + seq![':'] + p);
    lemma_parts(seq![], p, c, d);
    if let Some((x, y)) = rsplit_once_at(h, ':') {
        assert((x + seq![':'] + y)[x.len() as int] == ':');
        assert(h.contains(':'));
    }
}

pub proof fn lemma_parts(h: Seq<char>, p: Seq<char>, a: Seq<char>, b: Seq<char>)
    requires
        h + seq![':'] + p == a + seq![':'] + b,
        !p.contains(':'),
        !b.contains(':'),
    ensures
        h == a,
        p == b,
{
    let s = h + seq![':'] + p;
    let t = a + seq![':'] + b;
    assert(s.len() == t.len());
    assert(s[h.len() as int] == ':');
    assert(t[a.len() as int] == ':');
    if a.len() < h.len() {
        assert(t[h.len() as int] == b[h.len() - a.len() - 1]);
        assert(b.contains(':'));
    } else if h.len() < a.len() {
        assert(s[a.len() as int] == p[a.len() - h.len() - 1]);
        assert(p.contains(':'));
    }
    assert(h =~= s.take(h.len() as int));
    assert(a =~= s.take(a.len() as int));
    assert(p =~= s.skip(h.len() as int + 1));
    assert(b =~= s.skip(a.len() as int + 1));
}

/// A bracketed address is a server name by itself, and with a colon and one to five
/// digits behind the bracket; with anything else behind it it is not.
pub proof fn law_bracketed_names(a: Seq<char>, rest: Seq<char>)
    requires
        !a.contains(']'),
    ensures
        is_server_name(seq!['['] + a + seq![']'] + rest) <==> rest.len() == 0 || (rest[0] == ':'
            && 1 < rest.len() <= 6 && forall|i: int|
            1 <= i < rest.len() ==> '0' <= #[trigger] rest[i] <= '9'),
        !is_server_name(seq!['['] + a),
{
    let s = seq!['['] + a + seq![']'] + rest;
    s.index_of_first_ensures(']');
    let k = a.len() as int + 1;
    assert(s[k] == ']');
    let i = s.index_of_first(']')->0;
    if i < k {
        assert(s[i] == ']');
        if i > 0 {
            assert(a[i - 1] == ']');
        }
    }
    assert(i == k);
    assert(s.skip(k + 1) =~= rest);
    assert(s[0] == '[');
    let t = seq!['['] + a;
    t.index_of_first_ensures(']');
    if let Some(j) = t.index_of_first(']') {
        if j > 0 {
            assert(a[j - 1] == ']');
        }
    }
    if rest.len() > 0 {
        let p = rest.skip(1);
        assert forall|j: int| 1 <= j < rest.len() implies rest[j] == #[trigger] p[j - 1] by {}
        if is_port(p) && p.len() > 0 {
            assert forall|j: int| 1 <= j < rest.len() implies '0' <= #[trigger] rest[j] <= '9' by {
                assert(is_digit(p[j - 1]));
            }
        }
        if forall|j: int| 1 <= j < rest.len() ==> '0' <= #[trigger] rest[j] <= '9' {
            assert forall|j: int| 0 <= j < p.len() implies is_digit(#[trigger] p[j]) by {
                assert(p[j] == rest[j + 1]);
            }
        }
    }
}

/// A user id is an at sign, a name without a colon, a colon and a server name, and
/// nothing else is.
pub proof fn law_user_ids(s: Seq<char>)
    ensures
        is_user_id(s) <==> exists|name: Seq<char>, server: Seq<char>|
            !name.contains(':') && is_server_name(server) && #[trigger] (seq!['@'] + name)
                + #[trigger] (seq![':'] + server) == s,
{
    if s.len() > 0 && s[0] == '@' {
        let t = s.skip(1);
        law_split_once(t, ':');
        if let Some((name, server)) = split_once_at(t, ':') {
            assert(s =~= seq!['@'] + t);
            assert((seq!['@'] + name) + (seq![':'] + server) =~= seq!['@'] + (name + seq![':']
                + server));
        }
        assert forall|name: Seq<char>, server: Seq<char>|
            !name.contains(':') && is_server_name(server) && #[trigger] (seq!['@'] + name)
                + #[trigger] (seq![':'] + server) == s implies is_user_id(s) by {
            assert(t =~= name + seq![':'] + server);
            assert(t[name.len() as int] == ':');
            let (a, b) = split_once_at(t, ':')->0;
            if a.len() < name.len() {
                assert((a + seq![':'] + b)[a.len() as int] == ':');
                assert(name[a.len() as int] == ':');
            } else if a.len() > name.len() {
                assert(a[name.len() as int] == ':');
            }
            assert(b =~= t.skip(a.len() as int + 1));
            assert(server =~= t.skip(name.len() as int + 1));
        }
    } else {
        assert forall|name: Seq<char>, server: Seq<char>|
            #[trigger] (seq!['@'] + name) + #[trigger] (seq![':'] + server) == s implies false by {
            assert(((seq!['@'] + name) + (seq![':'] + server))[0] == '@');
        }
    }
}

/// A profile is told as it is recorded: a field that is asked for, or both if none
/// of the two is asked for in particular, and nothing else.
pub proof fn law_profiles(record: JsonView, field: Option<Seq<char>>, k: Seq<char>)
    ensures
        JsonView::Object(profile_fields(record, field)).get(k) == (if (k == "displayname"@ && field
            != Some("avatar_url"@)) || (k == "avatar_url"@ && field != Some("displayname"@)) {
            record.get(k)
        } else {
            None
        }),
{
    reveal_with_fuel(crate::json::member, 3);
    reveal_strlit("displayname");
    reveal_strlit("avatar_url");
    assert("displayname"@.len() == 11 && "avatar_url"@.len() == 10);
    let m = profile_fields(record, field);
    if m.len() == 2 {
        assert(m.drop_first()[0] == m[1]);
        assert(m.drop_first().drop_first() =~= seq![]);
    } else if m.len() == 1 {
        assert(m.drop_first() =~= seq![]);
    }
}

/// The term that is searched for is the one at the top of a request, and the
/// filter's only where there is none.
pub proof fn law_search_terms(req: FederationPublicRoomsRequest)
    ensures
        req.generic_search_term matches Some(t) ==> requested_term(req) == Some(t@),
        req.generic_search_term is None && (req.filter matches Some(f)
            && f.generic_search_term is Some) ==> requested_term(req) == Some(
            req.filter->0.generic_search_term->0@,
        ),
        req.generic_search_term is None && !(req.filter matches Some(f)
            && f.generic_search_term is Some) ==> requested_term(req) is None,
{
}

} // verus!
