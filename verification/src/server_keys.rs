//! The keys that this server publishes, and those of others that it vouches
//! for.

use vstd::prelude::*;
use vstd::string::*;

use crate::json::lemma_values_push;
use crate::json::members;
use crate::json::put;
use crate::json::put_once;
use crate::json::values;
use crate::json::with_member;
use crate::json::Json;
use crate::json::JsonView;
use crate::json::NumberView;
use crate::keys::capped_sum;
use crate::keys::KEY_VALIDITY_CAP_MS;
use crate::text::lemma_texts_push;
use crate::text::str_eq;
use crate::text::texts;
use crate::json::law_with_member;
use crate::json::member;
use crate::keys::document_fault;
use crate::keys::first_malformed;
use crate::keys::key_under;
use crate::keys::self_signed;
use crate::keys::signatures_of;
use crate::keys::KeyFaults;
use crate::keys::KeyVerdicts;

verus! {

/// A key that this server has rotated out.
pub struct OldKey {
    pub key_id: String,
    pub public_key: String,
    /// When it was rotated out, in milliseconds since the epoch.
    pub expired_ts: u64,
}

/// The entry of a current key.
pub open spec fn key_entry(public_key: Seq<char>) -> JsonView {
    JsonView::Object(seq![("key"@, JsonView::Str(public_key))])
}

/// The entry of a key that was rotated out.
pub open spec fn old_key_entry(k: OldKey) -> JsonView {
    JsonView::Object(
        seq![
            ("key"@, JsonView::Str(k.public_key@)),
            ("expired_ts"@, JsonView::Number(NumberView::Unsigned(k.expired_ts))),
        ],
    )
}

/// The table of the keys that were rotated out, in the order given; of two with
/// the same id the later one counts.
pub open spec fn old_key_members(v: Seq<OldKey>) -> Seq<(Seq<char>, JsonView)>
    decreases v.len(),
{
    if v.len() == 0 {
        seq![]
    } else {
        with_member(old_key_members(v.drop_last()), v.last().key_id@, old_key_entry(v.last()))
    }
}

/// The document that this server publishes, before it is signed: valid for
/// seven days, with the current key and the old ones.
pub open spec fn key_document(
    key_id: Seq<char>,
    public_key: Seq<char>,
    server_name: Seq<char>,
    now: u64,
    old: Seq<OldKey>,
) -> JsonView {
    JsonView::Object(
        seq![
            ("server_name"@, JsonView::Str(server_name)),
            ("verify_keys"@, JsonView::Object(seq![(key_id, key_entry(public_key))])),
            ("old_verify_keys"@, JsonView::Object(old_key_members(old))),
            (
                "valid_until_ts"@,
                JsonView::Number(NumberView::Unsigned(capped_sum(now, KEY_VALIDITY_CAP_MS))),
            ),
        ],
    )
}

/// Builds the document that this server publishes, for signing.
pub fn build_server_key_response(
    key_id: &str,
    public_key: &str,
    server_name: &str,
    now_ms: u64,
    old_verify_keys: &Vec<OldKey>,
) -> (r: Json)
    ensures
        r@ == key_document(key_id@, public_key@, server_name@, now_ms, old_verify_keys@),
{
    let mut entry: Vec<(String, Json)> = Vec::new();
    put(&mut entry, "key", Json::text(public_key));
    proof {
        assert(members(entry@) =~= key_entry(public_key@)->Object_0);
    }
    let mut current: Vec<(String, Json)> = Vec::new();
    put(&mut current, key_id, Json::object(entry));
    proof {
        assert(members(current@) =~= seq![(key_id@, key_entry(public_key@))]);
    }
    let mut old: Vec<(String, Json)> = Vec::new();
    let ghost all = old_verify_keys@;
    let mut i: usize = 0;
    proof {
        assert(members(old@) =~= seq![]);
        assert(all.take(0) =~= seq![]);
    }
    while i < old_verify_keys.len()
        invariant
            i <= old_verify_keys.len(),
            all == old_verify_keys@,
            members(old@) == old_key_members(all.take(i as int)),
        decreases old_verify_keys.len() - i,
    {
        let k = &old_verify_keys[i];
        let mut e: Vec<(String, Json)> = Vec::new();
        put(&mut e, "key", Json::text(k.public_key.as_str()));
        put(&mut e, "expired_ts", Json::number(k.expired_ts));
        proof {
            assert(members(e@) =~= old_key_entry(*k)->Object_0);
        }
        proof {
            assert(all.take(i + 1).drop_last() =~= all.take(i as int));
            assert(all.take(i + 1).last() == *k);
        }
        put_once(&mut old, k.key_id.as_str(), Json::object(e));
        i += 1;
    }
    proof {
        assert(all.take(i as int) =~= all);
    }
    let mut m: Vec<(String, Json)> = Vec::new();
    put(&mut m, "server_name", Json::text(server_name));
    put(&mut m, "verify_keys", Json::object(current));
    put(&mut m, "old_verify_keys", Json::object(old));
    put(&mut m, "valid_until_ts", Json::number(now_ms.saturating_add(KEY_VALIDITY_CAP_MS)));
    proof {
        assert(members(m@) =~= key_document(
            key_id@,
            public_key@,
            server_name@,
            now_ms,
            old_verify_keys@,
        )->Object_0);
    }
    Json::object(m)
}

/// Where the entry for a server in a notary reply comes from.
pub enum NotarySource {
    /// This server's own document.
    Own,
    /// The document that the server gives, with this server's signature added.
    Fetched,
}

/// Where the entry for a server in a notary reply comes from.
pub fn build_notary_entry_for(server_name: &str, our_name: &str) -> (r: NotarySource)
    ensures
        (r is Own) == (server_name@ == our_name@),
{
    if str_eq(server_name, our_name) {
        NotarySource::Own
    } else {
        NotarySource::Fetched
    }
}

/// The servers that a batch query asks about, in order.
pub open spec fn asked_servers(req: JsonView) -> Seq<Seq<char>> {
    match req.object_at("server_keys"@) {
        Some(m) => m.map_values(|e: (Seq<char>, JsonView)| e.0),
        None => seq![],
    }
}

/// The servers that a batch query asks about.
pub fn query_keys_batch(req: &Json) -> (r: Vec<String>)
    ensures
        texts(r@) == asked_servers(req@),
{
    let mut out: Vec<String> = Vec::new();
    match req.object_at("server_keys") {
        Some(m) => {
            let ghost want = asked_servers(req@);
            let mut i: usize = 0;
            proof {
                assert(texts(out@) =~= want.take(0));
            }
            while i < m.len()
                invariant
                    i <= m.len(),
                    want == members(m@).map_values(|e: (Seq<char>, JsonView)| e.0),
                    texts(out@) == want.take(i as int),
                decreases m.len() - i,
            {
                let s = m[i].0.clone();
                proof {
                    lemma_texts_push(out@, s);
                    assert(want.take(i + 1) =~= want.take(i as int).push(want[i as int]));
                }
                out.push(s);
                i += 1;
            }
            proof {
                assert(want.take(i as int) =~= want);
            }
        },
        None => {
            proof {
                assert(texts(out@) =~= seq![]);
            }
        },
    }
    out
}

/// The documents among some results of building entries.
pub open spec fn built_entries(v: Seq<Option<Json>>) -> Seq<JsonView>
    decreases v.len(),
{
    if v.len() == 0 {
        seq![]
    } else {
        match v.last() {
            Some(e) => built_entries(v.drop_last()).push(e@),
            None => built_entries(v.drop_last()),
        }
    }
}

/// The reply to a notary query: the entries that could be built; the others are
/// left out.
pub fn query_keys_reply(entries: &Vec<Option<Json>>) -> (r: Json)
    ensures
        r@ == JsonView::Object(
            seq![("server_keys"@, JsonView::Array(built_entries(entries@)))],
        ),
{
    let mut out: Vec<Json> = Vec::new();
    let mut i: usize = 0;
    proof {
        assert(values(out@) =~= seq![]);
        assert(entries@.take(0) =~= seq![]);
    }
    while i < entries.len()
        invariant
            i <= entries.len(),
            values(out@) == built_entries(entries@.take(i as int)),
        decreases entries.len() - i,
    {
        proof {
            assert(entries@.take(i + 1).drop_last() =~= entries@.take(i as int));
            assert(entries@.take(i + 1).last() == entries@[i as int]);
        }
        match &entries[i] {
            Some(e) => {
                let c = e.copy();
                proof {
                    lemma_values_push(out@, c);
                }
                out.push(c);
            },
            None => {},
        }
        i += 1;
    }
    proof {
        assert(entries@.take(i as int) =~= entries@);
    }
    let mut m: Vec<(String, Json)> = Vec::new();
    put(&mut m, "server_keys", Json::array(out));
    proof {
        assert(members(m@) =~= seq![("server_keys"@, JsonView::Array(built_entries(entries@)))]);
    }
    Json::object(m)
}

/// The reply that names the software and its version.
pub fn version(release: &str) -> (r: Json)
    ensures
        r@ == JsonView::Object(
            seq![
                (
                    "server"@,
                    JsonView::Object(
                        seq![
                            ("name"@, JsonView::Str("vela"@)),
                            ("version"@, JsonView::Str(release@)),
                        ],
                    ),
                ),
            ],
        ),
{
    let mut s: Vec<(String, Json)> = Vec::new();
    put(&mut s, "name", Json::text("vela"));
    put(&mut s, "version", Json::text(release));
    proof {
        assert(members(s@) =~= seq![
            ("name"@, JsonView::Str("vela"@)),
            ("version"@, JsonView::Str(release@)),
        ]);
    }
    let mut m: Vec<(String, Json)> = Vec::new();
    put(&mut m, "server", Json::object(s));
    proof {
        assert(members(m@) =~= seq![
            (
                "server"@,
                JsonView::Object(
                    seq![
                        ("name"@, JsonView::Str("vela"@)),
                        ("version"@, JsonView::Str(release@)),
                    ],
                ),
            ),
        ]);
    }
    Json::object(m)
}

/// The reply to a notary query about one server.
pub fn query_keys_single(entry: Option<Json>) -> (r: Json)
    ensures
        r@ == JsonView::Object(
            seq![
                (
                    "server_keys"@,
                    JsonView::Array(
                        match entry {
                            Some(e) => seq![e@],
                            None => seq![],
                        },
                    ),
                ),
            ],
        ),
{
    let mut entries: Vec<Option<Json>> = Vec::new();
    entries.push(entry);
    let r = query_keys_reply(&entries);
    proof {
        let v = entries@;
        assert(v.last() == entry);
        assert(v.drop_last() =~= seq![]);
        assert(built_entries(v.drop_last()) =~= seq![]);
        assert(built_entries(v) =~= match entry {
            Some(e) => seq![e@],
            None => seq![],
        });
    }
    r
}

/// A document with one signature of one server on it.
pub open spec fn signed_document(
    document: JsonView,
    server: Seq<char>,
    key_id: Seq<char>,
    sig: Seq<char>,
) -> JsonView {
    JsonView::Object(
        document->Object_0.push(
            (
                "signatures"@,
                JsonView::Object(
                    seq![(server, JsonView::Object(seq![(key_id, JsonView::Str(sig))]))],
                ),
            ),
        ),
    )
}

/// The document that a server publishes, signed with the key that it lists, is
/// accepted by others, for as long as it says.
pub proof fn law_own_document_is_accepted(
    key_id: Seq<char>,
    public_key: Seq<char>,
    server_name: Seq<char>,
    now: u64,
    old: Seq<OldKey>,
    sig: Seq<char>,
    faults: KeyFaults,
    verdicts: KeyVerdicts,
)
    requires
        now < u64::MAX,
        faults(public_key) is None,
        verdicts(key_id, public_key),
    ensures
        ({
            let document = key_document(key_id, public_key, server_name, now, old);
            document_fault(
                signed_document(document, server_name, key_id, sig),
                server_name,
                now,
                faults,
                verdicts,
            ) is None
        }),
{
    reveal_with_fuel(member, 6);
    reveal_with_fuel(first_malformed, 2);
    reveal_with_fuel(key_under, 2);
    reveal_strlit("server_name");
    reveal_strlit("verify_keys");
    reveal_strlit("old_verify_keys");
    reveal_strlit("valid_until_ts");
    reveal_strlit("signatures");
    reveal_strlit("key");
    let document = key_document(key_id, public_key, server_name, now, old);
    let body = signed_document(document, server_name, key_id, sig);
    let m = body->Object_0;
    assert("server_name"@.len() == 11 && "verify_keys"@.len() == 11);
    assert("server_name"@[0] == 's' && "verify_keys"@[0] == 'v');
    assert("old_verify_keys"@.len() == 15 && "valid_until_ts"@.len() == 14);
    assert("signatures"@.len() == 10);
    let m1 = m.drop_first();
    let m2 = m1.drop_first();
    let m3 = m2.drop_first();
    let m4 = m3.drop_first();
    assert(m1[0] == m[1] && m2[0] == m[2] && m3[0] == m[3] && m4[0] == m[4]);
    let keys = seq![(key_id, key_entry(public_key))];
    assert(body.object_at("verify_keys"@) == Some(keys));
    let entry = key_entry(public_key);
    assert(entry->Object_0[0] == ("key"@, JsonView::Str(public_key)));
    assert(entry.str_at("key"@) == Some(public_key));
    assert(keys.last() == (key_id, entry));
    assert(keys.drop_last() =~= seq![]);
    assert(first_malformed(keys, faults) is None);
    assert(key_under(keys, faults, key_id) == Some(public_key));
    let by_server = m[4].1->Object_0;
    assert(by_server[0].0 == server_name);
    let sigs = seq![(key_id, JsonView::Str(sig))];
    assert(signatures_of(body, server_name) == Some(sigs));
    assert(sigs[0].0 == key_id);
    assert(self_signed(sigs, keys, faults, verdicts));
}

/// The document that a server publishes names the server, lists the current key and
/// it alone as current, lists every key that was rotated out with the time of that,
/// the last of several under one id, and is valid for seven days.
pub proof fn law_key_document(
    key_id: Seq<char>,
    public_key: Seq<char>,
    server_name: Seq<char>,
    now: u64,
    old: Seq<OldKey>,
)
    ensures
        ({
            let d = key_document(key_id, public_key, server_name, now, old);
            &&& d.get("server_name"@) == Some(JsonView::Str(server_name))
            &&& (d.get("verify_keys"@) matches Some(JsonView::Object(m)) && m.len() == 1 && m[0].0
                == key_id && m[0].1.get("key"@) == Some(JsonView::Str(public_key)))
            &&& (d.get("valid_until_ts"@) matches Some(JsonView::Number(NumberView::Unsigned(t)))
                && (now + 604_800_000 <= u64::MAX ==> t == now + 604_800_000))
            &&& (d.get("old_verify_keys"@) matches Some(o) && (forall|i: int|
                0 <= i < old.len() && (forall|j: int|
                    i < j < old.len() ==> (#[trigger] old[j]).key_id@ != old[i].key_id@) ==> (o.get(
                    (#[trigger] old[i]).key_id@,
                ) matches Some(e) && e.get("key"@) == Some(JsonView::Str(old[i].public_key@))
                    && e.get("expired_ts"@) == Some(
                    JsonView::Number(NumberView::Unsigned(old[i].expired_ts)),
                ))) && (forall|id: Seq<char>|
                (#[trigger] o.get(id)) is Some ==> exists|i: int|
                    0 <= i < old.len() && (#[trigger] old[i]).key_id@ == id))
        }),
{
    reveal_with_fuel(member, 5);
    reveal_strlit("server_name");
    reveal_strlit("verify_keys");
    reveal_strlit("old_verify_keys");
    reveal_strlit("valid_until_ts");
    reveal_strlit("key");
    let d = key_document(key_id, public_key, server_name, now, old);
    let m = d->Object_0;
    assert("server_name"@.len() == 11 && "verify_keys"@.len() == 11);
    assert("server_name"@[0] == 's' && "verify_keys"@[0] == 'v');
    assert("old_verify_keys"@.len() == 15 && "valid_until_ts"@.len() == 14);
    let m1 = m.drop_first();
    let m2 = m1.drop_first();
    let m3 = m2.drop_first();
    assert(m1[0] == m[1] && m2[0] == m[2] && m3[0] == m[3]);
    assert(key_entry(public_key)->Object_0[0] == ("key"@, JsonView::Str(public_key)));
    let o = JsonView::Object(old_key_members(old));
    assert(d.get("old_verify_keys"@) == Some(o));
    assert forall|i: int|
        0 <= i < old.len() && (forall|j: int|
            i < j < old.len() ==> (#[trigger] old[j]).key_id@ != old[i].key_id@) implies (o.get(
        (#[trigger] old[i]).key_id@,
    ) matches Some(e) && e.get("key"@) == Some(JsonView::Str(old[i].public_key@)) && e.get(
        "expired_ts"@,
    ) == Some(JsonView::Number(NumberView::Unsigned(old[i].expired_ts)))) by {
        lemma_old_key(old, i);
        lemma_old_key_entry(old[i]);
    }
    assert forall|id: Seq<char>| (#[trigger] o.get(id)) is Some implies exists|i: int|
        0 <= i < old.len() && (#[trigger] old[i]).key_id@ == id by {
        lemma_only_old_keys(old, id);
    }
}

proof fn lemma_old_key_entry(k: OldKey)
    ensures
        old_key_entry(k).get("key"@) == Some(JsonView::Str(k.public_key@)),
        old_key_entry(k).get("expired_ts"@) == Some(
            JsonView::Number(NumberView::Unsigned(k.expired_ts)),
        ),
{
    reveal_with_fuel(member, 3);
    reveal_strlit("key");
    reveal_strlit("expired_ts");
    let m = old_key_entry(k)->Object_0;
    assert("key"@.len() == 3 && "expired_ts"@.len() == 10);
    assert(m[0].0 == "key"@);
    assert(m.drop_first()[0] == m[1]);
}

proof fn lemma_old_key(old: Seq<OldKey>, i: int)
    requires
        0 <= i < old.len(),
        forall|j: int| i < j < old.len() ==> (#[trigger] old[j]).key_id@ != old[i].key_id@,
    ensures
        member(old_key_members(old), old[i].key_id@) == Some(old_key_entry(old[i])),
    decreases old.len(),
{
    let front = old.drop_last();
    let last = old.len() - 1;
    law_with_member(
        old_key_members(front),
        old[last].key_id@,
        old_key_entry(old[last]),
        old[i].key_id@,
    );
    if i < last {
        assert(old[last].key_id@ != old[i].key_id@);
        assert(front[i] == old[i]);
        assert forall|j: int| i < j < front.len() implies (#[trigger] front[j]).key_id@
            != front[i].key_id@ by {
            assert(old[j] == front[j]);
        }
        lemma_old_key(front, i);
    }
}

proof fn lemma_only_old_keys(old: Seq<OldKey>, id: Seq<char>)
    requires
        member(old_key_members(old), id) is Some,
    ensures
        exists|i: int| 0 <= i < old.len() && (#[trigger] old[i]).key_id@ == id,
    decreases old.len(),
{
    if old.len() > 0 {
        let front = old.drop_last();
        let last = old.len() - 1;
        law_with_member(old_key_members(front), old[last].key_id@, old_key_entry(old[last]), id);
        if old[last].key_id@ != id {
            lemma_only_old_keys(front, id);
            let i = choose|i: int| 0 <= i < front.len() && (#[trigger] front[i]).key_id@ == id;
            assert(old[i] == front[i]);
        }
    }
}

/// The entries of a notary's reply are all that could be built, in order.
pub proof fn law_built_entries(v: Seq<Option<Json>>)
    ensures
        built_entries(v) == v.filter_map(
            |o: Option<Json>|
                match o {
                    Some(e) => Some(e@),
                    None => None,
                },
        ),
    decreases v.len(),
{
    if v.len() > 0 {
        law_built_entries(v.drop_last());
        let s = built_entries(v.drop_last());
        if let Some(e) = v.last() {
            assert(s.push(e@) =~= s + seq![e@]);
        }
    }
}

/// A batch query asks about every server that it has an entry for.
pub proof fn law_asked_servers(req: JsonView, s: Seq<char>)
    ensures
        asked_servers(req).contains(s) <==> (req.get("server_keys"@) matches Some(
            JsonView::Object(m),
        ) && exists|i: int| 0 <= i < m.len() && (#[trigger] m[i]).0 == s),
{
    if let Some(m) = req.object_at("server_keys"@) {
        let v = asked_servers(req);
        if v.contains(s) {
            let i = choose|i: int| 0 <= i < v.len() && v[i] == s;
            assert(m[i].0 == s);
        }
        if exists|i: int| 0 <= i < m.len() && (#[trigger] m[i]).0 == s {
            let i = choose|i: int| 0 <= i < m.len() && (#[trigger] m[i]).0 == s;
            assert(v[i] == s);
        }
    }
}

} // verus!
