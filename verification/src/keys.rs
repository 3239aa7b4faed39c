//! Remote servers' signing keys: what a key document says, how long it may be
//! used, and which of its keys verify what.

use vstd::prelude::*;
use vstd::string::*;

use crate::json::law_members;
use crate::json::members;
use crate::json::Json;
use crate::json::JsonView;
use crate::table::TextMap;
use crate::text::cat;
use crate::text::cat3;
use crate::text::cat4;
use crate::text::opt_string;
use crate::text::opt_text;
use crate::text::str_eq;
use crate::text::texts;

verus! {

/// The longest time for which a key document is trusted: seven days.
pub const KEY_VALIDITY_CAP_MS: u64 = 604_800_000;

/// How far in the future the end of a document's validity may lie: about a
/// hundred years.
pub const FAR_FUTURE_CAP_MS: u64 = 3_153_600_000_000;

/// The shortest time between two fetches of one server's keys on account of
/// unknown key ids.
pub const MIN_KEY_REFETCH_MS: u64 = 1_000;

/// A validated key document of a remote server.
#[derive(Debug)]
pub struct RemoteKeys {
    /// Current keys: key id to unpadded-base64 public key.
    pub verify_keys: TextMap<String>,
    /// Keys that were rotated out. They verify events only, never requests.
    pub old_verify_keys: TextMap<String>,
    /// Until when the document may be used, in milliseconds since the epoch.
    pub valid_until_ts: u64,
    /// When the document was fetched, in milliseconds since the epoch.
    pub fetched_at: u64,
}

/// The text under a key of a table of strings.
pub open spec fn text_under(m: TextMap<String>, key: Seq<char>) -> Option<Seq<char>> {
    match m.find(key) {
        Some(s) => Some(s@),
        None => None,
    }
}

impl RemoteKeys {
    /// The public key that verifies an event signed with `key_id`: a current
    /// key, or else one that was rotated out.
    pub open spec fn event_key(self, key_id: Seq<char>) -> Option<Seq<char>> {
        if self.verify_keys.has(key_id) {
            text_under(self.verify_keys, key_id)
        } else {
            text_under(self.old_verify_keys, key_id)
        }
    }

    /// The public key that verifies an event signed with `key_id`: a current
    /// key, or else one that was rotated out.
    pub fn event_verify_key(&self, key_id: &str) -> (r: Option<&str>)
        ensures
            opt_text(r) == self.event_key(key_id@),
    {
        match self.verify_keys.get(key_id) {
            Some(k) => Some(k.as_str()),
            None => match self.old_verify_keys.get(key_id) {
                Some(k) => Some(k.as_str()),
                None => None,
            },
        }
    }
}

/// Whether a document is still usable at a time.
pub open spec fn valid_at(keys: RemoteKeys, now: u64) -> bool {
    keys.valid_until_ts > now
}

/// Whether a document holds one of some keys, current or rotated out; it does if
/// none is wanted in particular.
pub open spec fn covers(keys: RemoteKeys, wanted: Seq<Seq<char>>) -> bool {
    wanted.len() == 0 || exists|i: int|
        0 <= i < wanted.len() && (keys.verify_keys.has(#[trigger] wanted[i])
            || keys.old_verify_keys.has(wanted[i]))
}

/// The time between two instants, none if the second is the earlier one.
pub open spec fn elapsed(since: u64, now: u64) -> int {
    if now >= since {
        now - since
    } else {
        0
    }
}

/// Whether a cached document is good enough: it is still valid, and holds a
/// wanted key or was fetched a moment ago.
pub open spec fn suffices(
    keys: RemoteKeys,
    wanted: Seq<Seq<char>>,
    now: u64,
    min_refetch_ms: u64,
) -> bool {
    valid_at(keys, now) && (covers(keys, wanted) || elapsed(keys.fetched_at, now) < min_refetch_ms)
}

impl RemoteKeys {
    /// Whether the document is still usable at a time.
    pub fn is_valid_at(&self, now_ms: u64) -> (r: bool)
        ensures
            r == valid_at(*self, now_ms),
    {
        self.valid_until_ts > now_ms
    }

    /// Whether the document holds one of some keys.
    pub fn covers_any(&self, wanted: &Vec<String>) -> (r: bool)
        ensures
            r == covers(*self, texts(wanted@)),
    {
        if wanted.len() == 0 {
            return true;
        }
        let mut i: usize = 0;
        while i < wanted.len()
            invariant
                i <= wanted.len(),
                wanted.len() > 0,
                forall|j: int|
                    0 <= j < i ==> !self.verify_keys.has(#[trigger] texts(wanted@)[j])
                        && !self.old_verify_keys.has(texts(wanted@)[j]),
            decreases wanted.len() - i,
        {
            proof {
                assert(texts(wanted@)[i as int] == wanted@[i as int]@);
            }
            if self.verify_keys.contains_key(wanted[i].as_str())
                || self.old_verify_keys.contains_key(wanted[i].as_str()) {
                return true;
            }
            i += 1;
        }
        false
    }

    /// A copy of the document.
    pub fn copy(&self) -> (r: RemoteKeys)
        ensures
            same_keys(r, *self),
            r.fetched_at == self.fetched_at,
    {
        RemoteKeys {
            verify_keys: copy_map(&self.verify_keys),
            old_verify_keys: copy_map(&self.old_verify_keys),
            valid_until_ts: self.valid_until_ts,
            fetched_at: self.fetched_at,
        }
    }
}

/// Whether two tables hold the same texts.
pub open spec fn same_texts(a: TextMap<String>, b: TextMap<String>) -> bool {
    forall|k: Seq<char>| #![trigger text_under(a, k)] text_under(a, k) == text_under(b, k)
}

/// Whether two documents hold the same keys for the same time.
pub open spec fn same_keys(a: RemoteKeys, b: RemoteKeys) -> bool {
    &&& same_texts(a.verify_keys, b.verify_keys)
    &&& same_texts(a.old_verify_keys, b.old_verify_keys)
    &&& a.valid_until_ts == b.valid_until_ts
}

fn copy_map(m: &TextMap<String>) -> (r: TextMap<String>)
    ensures
        same_texts(r, *m),
{
    let mut entries: Vec<(String, String)> = Vec::new();
    let mut i: usize = 0;
    while i < m.entries.len()
        invariant
            i <= m.entries.len(),
            entries@.len() == i,
            forall|j: int|
                0 <= j < i ==> (#[trigger] entries@[j]).0@ == m.entries@[j].0@ && entries@[j].1@
                    == m.entries@[j].1@,
        decreases m.entries.len() - i,
    {
        entries.push((m.entries[i].0.clone(), m.entries[i].1.clone()));
        i += 1;
    }
    let r = TextMap { entries };
    proof {
        assert forall|k: Seq<char>| #![trigger text_under(r, k)] text_under(r, k) == text_under(
            *m,
            k,
        ) by {
            lemma_same_position(r.entries@, m.entries@, k, 0);
            crate::table::lemma_position(m.entries@, k, 0);
        }
    }
    r
}

proof fn lemma_same_position(
    a: Seq<(String, String)>,
    b: Seq<(String, String)>,
    key: Seq<char>,
    from: int,
)
    requires
        a.len() == b.len(),
        0 <= from <= a.len(),
        forall|j: int| 0 <= j < a.len() ==> (#[trigger] a[j]).0@ == b[j].0@,
    ensures
        crate::table::position_from(a, key, from) == crate::table::position_from(b, key, from),
    decreases a.len() - from,
{
    if from < a.len() {
        lemma_same_position(a, b, key, from + 1);
    }
}

/// Whether a cached document is good enough for a request that was signed with
/// one of some keys, or has to be fetched again.
pub fn cache_suffices(
    cached: &RemoteKeys,
    wanted: &Vec<String>,
    now: u64,
    min_refetch_ms: u64,
) -> (r: bool)
    ensures
        r == suffices(*cached, texts(wanted@), now, min_refetch_ms),
{
    cached.is_valid_at(now) && (cached.covers_any(wanted) || now.saturating_sub(cached.fetched_at)
        < min_refetch_ms)
}

/// What is wrong with a key document, or with getting one.
#[derive(Debug)]
pub enum FederationClientError {
    Http(String),
    BadJson(String),
    ServerNameMismatch { expected: String, got: String },
    MissingField(String),
    NoValidSelfSignature,
    ExpiredKeyResponse,
    FarFutureKeyResponse,
    MalformedKey { key_id: String, reason: String },
    Signature(String),
    FederationDisabled,
}

pub enum ClientErrorView {
    Http(Seq<char>),
    BadJson(Seq<char>),
    ServerNameMismatch { expected: Seq<char>, got: Seq<char> },
    MissingField(Seq<char>),
    NoValidSelfSignature,
    ExpiredKeyResponse,
    FarFutureKeyResponse,
    MalformedKey { key_id: Seq<char>, reason: Seq<char> },
    Signature(Seq<char>),
    FederationDisabled,
}

impl FederationClientError {
    pub open spec fn view(&self) -> ClientErrorView {
        match self {
            FederationClientError::Http(e) => ClientErrorView::Http(e@),
            FederationClientError::BadJson(e) => ClientErrorView::BadJson(e@),
            FederationClientError::ServerNameMismatch { expected, got } =>
                ClientErrorView::ServerNameMismatch { expected: expected@, got: got@ },
            FederationClientError::MissingField(f) => ClientErrorView::MissingField(f@),
            FederationClientError::NoValidSelfSignature => ClientErrorView::NoValidSelfSignature,
            FederationClientError::ExpiredKeyResponse => ClientErrorView::ExpiredKeyResponse,
            FederationClientError::FarFutureKeyResponse => ClientErrorView::FarFutureKeyResponse,
            FederationClientError::MalformedKey { key_id, reason } =>
                ClientErrorView::MalformedKey { key_id: key_id@, reason: reason@ },
            FederationClientError::Signature(e) => ClientErrorView::Signature(e@),
            FederationClientError::FederationDisabled => ClientErrorView::FederationDisabled,
        }
    }

    /// The error in words.
    pub fn message(&self) -> (r: String)
        ensures
            r@ == error_message(self@),
    {
        match self {
            FederationClientError::Http(e) => cat("http error: ", e.as_str()),
            FederationClientError::BadJson(e) => cat("response is not valid JSON: ", e.as_str()),
            FederationClientError::ServerNameMismatch { expected, got } => cat4(
                "key response has wrong server_name: expected ",
                expected.as_str(),
                ", got ",
                got.as_str(),
            ),
            FederationClientError::MissingField(f) => cat3(
                "key response missing or invalid '",
                f.as_str(),
                "' field",
            ),
            FederationClientError::NoValidSelfSignature =>
                "key response has no valid self-signature".to_owned(),
            FederationClientError::ExpiredKeyResponse =>
                "key response valid_until_ts is in the past".to_owned(),
            FederationClientError::FarFutureKeyResponse =>
                "key response valid_until_ts is implausibly far in the future".to_owned(),
            FederationClientError::MalformedKey { key_id, reason } => cat4(
                "verify_keys entry ",
                key_id.as_str(),
                " has malformed key: ",
                reason.as_str(),
            ),
            FederationClientError::Signature(e) => cat("signature verify error: ", e.as_str()),
            FederationClientError::FederationDisabled =>
                "federation is disabled in this server's config".to_owned(),
        }
    }
}

/// An error in words.
pub open spec fn error_message(e: ClientErrorView) -> Seq<char> {
    match e {
        ClientErrorView::Http(e) => "http error: "@ + e,
        ClientErrorView::BadJson(e) => "response is not valid JSON: "@ + e,
        ClientErrorView::ServerNameMismatch { expected, got } =>
            "key response has wrong server_name: expected "@ + expected + ", got "@ + got,
        ClientErrorView::MissingField(f) => "key response missing or invalid '"@ + f + "' field"@,
        ClientErrorView::NoValidSelfSignature => "key response has no valid self-signature"@,
        ClientErrorView::ExpiredKeyResponse => "key response valid_until_ts is in the past"@,
        ClientErrorView::FarFutureKeyResponse =>
            "key response valid_until_ts is implausibly far in the future"@,
        ClientErrorView::MalformedKey { key_id, reason } => "verify_keys entry "@ + key_id
            + " has malformed key: "@ + reason,
        ClientErrorView::Signature(e) => "signature verify error: "@ + e,
        ClientErrorView::FederationDisabled => "federation is disabled in this server's config"@,
    }
}

/// What is wrong with the encoding of each public key, if anything.
pub type KeyFaults = spec_fn(Seq<char>) -> Option<Seq<char>>;

/// Whether a signature of the document verifies with a key.
pub type KeyVerdicts = spec_fn(Seq<char>, Seq<char>) -> bool;

/// Whether a decoder of public keys finds the faults that `faults` says.
pub open spec fn decodes<D: Fn(&str) -> Option<String>>(decode: D, faults: KeyFaults) -> bool {
    forall|k: &str, e: Option<String>| #[trigger]
        decode.ensures((k,), e) ==> opt_string(e) == faults(k@)
}

/// Whether a verifier of signatures gives the verdicts that `verdicts` says.
pub open spec fn verifies<V: Fn(&str, &str) -> bool>(verify: V, verdicts: KeyVerdicts) -> bool {
    forall|id: &str, k: &str, b: bool| #[trigger]
        verify.ensures((id, k), b) ==> b == verdicts(id@, k@)
}

/// What is wrong with an entry of a document's current keys, if anything.
pub open spec fn key_fault(entry: JsonView, faults: KeyFaults) -> Option<Seq<char>> {
    match entry.str_at("key"@) {
        None => Some("missing 'key' field"@),
        Some(k) => faults(k),
    }
}

/// The first entry of a document's current keys that is malformed.
pub open spec fn first_malformed(m: Seq<(Seq<char>, JsonView)>, faults: KeyFaults) -> Option<
    (Seq<char>, Seq<char>),
>
    decreases m.len(),
{
    if m.len() == 0 {
        None
    } else {
        match first_malformed(m.drop_last(), faults) {
            Some(f) => Some(f),
            None => match key_fault(m.last().1, faults) {
                Some(reason) => Some((m.last().0, reason)),
                None => None,
            },
        }
    }
}

/// The public key under an id among some entries, malformed ones left out.
pub open spec fn key_under(
    m: Seq<(Seq<char>, JsonView)>,
    faults: KeyFaults,
    id: Seq<char>,
) -> Option<Seq<char>>
    decreases m.len(),
{
    if m.len() == 0 {
        None
    } else if m.last().0 == id && key_fault(m.last().1, faults) is None {
        m.last().1.str_at("key"@)
    } else {
        key_under(m.drop_last(), faults, id)
    }
}

/// The end of a document's validity as it is used: at most seven days away.
pub open spec fn capped_validity(valid_until: u64, now: u64) -> u64 {
    if valid_until <= capped_sum(now, KEY_VALIDITY_CAP_MS) {
        valid_until
    } else {
        capped_sum(now, KEY_VALIDITY_CAP_MS)
    }
}

/// A sum, as far as numbers go.
pub open spec fn capped_sum(a: u64, b: u64) -> u64 {
    if a + b > u64::MAX {
        u64::MAX
    } else {
        (a + b) as u64
    }
}

/// Whether one of some signatures verifies, with a key that the document itself
/// lists as current.
pub open spec fn self_signed(
    sigs: Seq<(Seq<char>, JsonView)>,
    keys: Seq<(Seq<char>, JsonView)>,
    faults: KeyFaults,
    verdicts: KeyVerdicts,
) -> bool {
    exists|i: int|
        0 <= i < sigs.len() && key_under(keys, faults, (#[trigger] sigs[i]).0) is Some && verdicts(
            sigs[i].0,
            key_under(keys, faults, sigs[i].0)->0,
        )
}

/// What is wrong with the signatures of a key document, if anything: the server
/// must have signed it with a key that the document itself lists as current.
pub open spec fn signing_fault(
    body: JsonView,
    expected: Seq<char>,
    keys: Seq<(Seq<char>, JsonView)>,
    faults: KeyFaults,
    verdicts: KeyVerdicts,
) -> Option<ClientErrorView> {
    if body.object_at("signatures"@) is None {
        Some(ClientErrorView::MissingField("signatures"@))
    } else {
        match signatures_of(body, expected) {
            Some(sigs) => if self_signed(sigs, keys, faults, verdicts) {
                None
            } else {
                Some(ClientErrorView::NoValidSelfSignature)
            },
            None => Some(ClientErrorView::NoValidSelfSignature),
        }
    }
}

/// The first malformed key of a document, as an error.
pub open spec fn malformed_key(keys: Seq<(Seq<char>, JsonView)>, faults: KeyFaults) -> Option<
    ClientErrorView,
> {
    match first_malformed(keys, faults) {
        Some((key_id, reason)) => Some(ClientErrorView::MalformedKey { key_id, reason }),
        None => None,
    }
}

/// What is wrong with a key document, if anything: checked are, in this order,
/// the name, the fields, the signature, the validity and the keys. Where no
/// signature verifies and a key is malformed, the key is what is wrong.
pub open spec fn document_fault(
    body: JsonView,
    expected: Seq<char>,
    now: u64,
    faults: KeyFaults,
    verdicts: KeyVerdicts,
) -> Option<ClientErrorView> {
    let keys = body.object_at("verify_keys"@);
    let until = body.u64_at("valid_until_ts"@);
    if body.as_object() is None {
        Some(ClientErrorView::BadJson("not an object"@))
    } else if body.str_at("server_name"@) is None {
        Some(ClientErrorView::MissingField("server_name"@))
    } else if body.str_at("server_name"@) != Some(expected) {
        Some(
            ClientErrorView::ServerNameMismatch {
                expected,
                got: body.str_at("server_name"@)->0,
            },
        )
    } else if keys is None {
        Some(ClientErrorView::MissingField("verify_keys"@))
    } else if keys->0.len() == 0 {
        Some(ClientErrorView::MissingField("verify_keys (empty)"@))
    } else if until is None {
        Some(ClientErrorView::MissingField("valid_until_ts"@))
    } else {
        match signing_fault(body, expected, keys->0, faults, verdicts) {
            Some(e) => match malformed_key(keys->0, faults) {
                Some(m) => Some(m),
                None => Some(e),
            },
            None => if until->0 <= now {
                Some(ClientErrorView::ExpiredKeyResponse)
            } else if until->0 > capped_sum(now, FAR_FUTURE_CAP_MS) {
                Some(ClientErrorView::FarFutureKeyResponse)
            } else {
                malformed_key(keys->0, faults)
            },
        }
    }
}

/// What a good key document says: its well-formed keys, current and old, and a
/// validity of at most seven days.
pub open spec fn document_says(
    body: JsonView,
    now: u64,
    faults: KeyFaults,
    keys: RemoteKeys,
) -> bool {
    &&& forall|id: Seq<char>|
        #![trigger text_under(keys.verify_keys, id)]
        text_under(keys.verify_keys, id) == key_under(
            body.object_at("verify_keys"@)->0,
            faults,
            id,
        )
    &&& forall|id: Seq<char>|
        #![trigger text_under(keys.old_verify_keys, id)]
        text_under(keys.old_verify_keys, id) == (match body.object_at("old_verify_keys"@) {
            Some(m) => key_under(m, faults, id),
            None => None,
        })
    &&& keys.valid_until_ts == capped_validity(body.u64_at("valid_until_ts"@)->0, now)
    &&& keys.fetched_at == now
}

fn missing(field: &str) -> (r: FederationClientError)
    ensures
        r@ == ClientErrorView::MissingField(field@),
{
    FederationClientError::MissingField(field.to_owned())
}

proof fn lemma_first_malformed(m: Seq<(Seq<char>, JsonView)>, k: int, faults: KeyFaults)
    requires
        0 <= k <= m.len(),
        first_malformed(m.take(k), faults) is Some,
    ensures
        first_malformed(m, faults) == first_malformed(m.take(k), faults),
    decreases m.len() - k,
{
    if k == m.len() {
        assert(m.take(k) =~= m);
    } else {
        assert(m.take(k + 1).drop_last() =~= m.take(k));
        lemma_first_malformed(m, k + 1, faults);
    }
}

/// Reads the entries of a table of keys: the well-formed ones. In a `strict`
/// table the first malformed entry is an error.
fn read_keys<D: Fn(&str) -> Option<String>>(
    m: &Vec<(String, Json)>,
    decode: &D,
    strict: bool,
) -> (r: Result<TextMap<String>, (String, String)>)
    requires
        forall|k: &str| #[trigger] decode.requires((k,)),
    ensures
        r is Err ==> strict,
        forall|faults: KeyFaults| #[trigger]
            decodes(*decode, faults) ==> match r {
                Ok(t) => {
                    &&& strict ==> first_malformed(members(m@), faults) is None
                    &&& forall|id: Seq<char>|
                        #![trigger text_under(t, id)]
                        text_under(t, id) == key_under(members(m@), faults, id)
                },
                Err((id, reason)) => first_malformed(members(m@), faults) == Some((id@, reason@)),
            },
{
    let ghost v = members(m@);
    let mut t: TextMap<String> = TextMap::new();
    let mut i: usize = 0;
    proof {
        assert(v.take(0) =~= seq![]);
    }
    while i < m.len()
        invariant
            forall|k: &str| #[trigger] decode.requires((k,)),
            i <= m.len(),
            v == members(m@),
            forall|faults: KeyFaults| #[trigger]
                decodes(*decode, faults) ==> {
                    &&& strict ==> first_malformed(v.take(i as int), faults) is None
                    &&& forall|id: Seq<char>|
                        #![trigger text_under(t, id)]
                        text_under(t, id) == key_under(v.take(i as int), faults, id)
                },
        decreases m.len() - i,
    {
        proof {
            assert(v.take(i + 1).drop_last() =~= v.take(i as int));
            assert(v.take(i + 1).last() == (m@[i as int].0@, m@[i as int].1@));
        }
        let fault = match m[i].1.str_at("key") {
            None => Some("missing 'key' field".to_owned()),
            Some(k) => decode(k),
        };
        proof {
            assert forall|faults: KeyFaults| #[trigger] decodes(*decode, faults) implies opt_string(
                fault,
            ) == key_fault(m@[i as int].1@, faults) by {}
        }
        match fault {
            Some(reason) => {
                if strict {
                    proof {
                        assert forall|faults: KeyFaults| #[trigger]
                            decodes(*decode, faults) implies first_malformed(v, faults) == Some(
                            (m@[i as int].0@, reason@),
                        ) by {
                            lemma_first_malformed(v, i + 1, faults);
                        }
                    }
                    return Err((m[i].0.clone(), reason));
                }
            },
            None => match m[i].1.str_at("key") {
                Some(k) => {
                    let ghost before = t;
                    let value = k.to_owned();
                    t.insert(m[i].0.as_str(), value);
                    proof {
                        assert forall|faults: KeyFaults, id: Seq<char>|
                            #![trigger decodes(*decode, faults), text_under(t, id)]
                            decodes(*decode, faults) implies text_under(t, id) == key_under(
                            v.take(i + 1),
                            faults,
                            id,
                        ) by {
                            assert(text_under(before, id) == key_under(
                                v.take(i as int),
                                faults,
                                id,
                            ));
                        }
                    }
                },
                None => {},
            },
        }
        i += 1;
    }
    proof {
        assert(v.take(i as int) =~= v);
    }
    Ok(t)
}

/// Whether one of some signatures verifies with a listed key.
fn find_self_signature<V: Fn(&str, &str) -> bool>(
    sigs: &Vec<(String, Json)>,
    keys: &TextMap<String>,
    verify: V,
) -> (r: bool)
    requires
        forall|id: &str, k: &str| #[trigger] verify.requires((id, k)),
    ensures
        forall|verdicts: KeyVerdicts| #[trigger]
            verifies(verify, verdicts) ==> r == exists|i: int|
                0 <= i < members(sigs@).len() && text_under(
                    *keys,
                    (#[trigger] members(sigs@)[i]).0,
                ) is Some && verdicts(
                    members(sigs@)[i].0,
                    text_under(*keys, members(sigs@)[i].0)->0,
                ),
{
    let ghost v = members(sigs@);
    let mut i: usize = 0;
    while i < sigs.len()
        invariant
            forall|id: &str, k: &str| #[trigger] verify.requires((id, k)),
            i <= sigs.len(),
            v == members(sigs@),
            forall|verdicts: KeyVerdicts, j: int|
                #![trigger verifies(verify, verdicts), v[j]]
                verifies(verify, verdicts) && 0 <= j < i ==> !(text_under(*keys, v[j].0) is Some
                    && verdicts(v[j].0, text_under(*keys, v[j].0)->0)),
        decreases sigs.len() - i,
    {
        proof {
            assert(v[i as int] == (sigs@[i as int].0@, sigs@[i as int].1@));
        }
        match keys.get(sigs[i].0.as_str()) {
            Some(k) => {
                if verify(sigs[i].0.as_str(), k.as_str()) {
                    return true;
                }
            },
            None => {},
        }
        i += 1;
    }
    false
}

/// Checks the key document that a server gave and reads it. `decode` says what
/// is wrong with an encoded public key, `verify` whether the document's
/// signature under a key id verifies with a public key.
pub fn validate_key_response<D: Fn(&str) -> Option<String>, V: Fn(&str, &str) -> bool>(
    body: &Json,
    expected_server_name: &str,
    now_ms: u64,
    decode: D,
    verify: V,
) -> (r: Result<RemoteKeys, FederationClientError>)
    requires
        forall|k: &str| #[trigger] decode.requires((k,)),
        forall|id: &str, k: &str| #[trigger] verify.requires((id, k)),
    ensures
        forall|faults: KeyFaults, verdicts: KeyVerdicts|
            #![trigger decodes(decode, faults), verifies(verify, verdicts)]
            decodes(decode, faults) && verifies(verify, verdicts) ==> match document_fault(
                body@,
                expected_server_name@,
                now_ms,
                faults,
                verdicts,
            ) {
                Some(e) => r matches Err(x) && x@ == e,
                None => r matches Ok(keys) && document_says(body@, now_ms, faults, keys),
            },
{
    if body.as_object().is_none() {
        return Err(FederationClientError::BadJson("not an object".to_owned()));
    }
    let server_name = match body.str_at("server_name") {
        None => {
            return Err(missing("server_name"));
        },
        Some(s) => s,
    };
    if !str_eq(server_name, expected_server_name) {
        return Err(
            FederationClientError::ServerNameMismatch {
                expected: expected_server_name.to_owned(),
                got: server_name.to_owned(),
            },
        );
    }
    let listed = match body.object_at("verify_keys") {
        None => {
            return Err(missing("verify_keys"));
        },
        Some(m) => m,
    };
    if listed.len() == 0 {
        return Err(missing("verify_keys (empty)"));
    }
    let until = match body.u64_at("valid_until_ts") {
        None => {
            return Err(missing("valid_until_ts"));
        },
        Some(t) => t,
    };
    let malformed = match read_keys(listed, &decode, true) {
        Ok(_) => None,
        Err((key_id, reason)) => Some(FederationClientError::MalformedKey { key_id, reason }),
    };
    let verify_keys = match read_keys(listed, &decode, false) {
        Ok(t) => t,
        Err(_) => TextMap::new(),
    };
    let unsigned = if body.object_at("signatures").is_none() {
        Some(missing("signatures"))
    } else {
        match signatures_by(body, server_name) {
            None => Some(FederationClientError::NoValidSelfSignature),
            Some(sigs) => {
                if find_self_signature(sigs, &verify_keys, verify) {
                    None
                } else {
                    Some(FederationClientError::NoValidSelfSignature)
                }
            },
        }
    };
    match unsigned {
        Some(e) => {
            return Err(
                match malformed {
                    Some(m) => m,
                    None => e,
                },
            );
        },
        None => {},
    }
    if until <= now_ms {
        return Err(FederationClientError::ExpiredKeyResponse);
    }
    if until > now_ms.saturating_add(FAR_FUTURE_CAP_MS) {
        return Err(FederationClientError::FarFutureKeyResponse);
    }
    match malformed {
        Some(m) => {
            return Err(m);
        },
        None => {},
    }
    let old_verify_keys = match body.object_at("old_verify_keys") {
        None => TextMap::new(),
        Some(m) => match read_keys(m, &decode, false) {
            Ok(t) => t,
            Err(_) => TextMap::new(),
        },
    };
    let cap: u64 = now_ms.saturating_add(KEY_VALIDITY_CAP_MS);
    let valid_until_ts: u64 = if until <= cap { until } else { cap };
    Ok(RemoteKeys { verify_keys, old_verify_keys, valid_until_ts, fetched_at: now_ms })
}

/// The signatures of an event by a server, in the order in which it lists them.
pub open spec fn signatures_of(event: JsonView, server: Seq<char>) -> Option<
    Seq<(Seq<char>, JsonView)>,
> {
    match event.get("signatures"@) {
        Some(s) => s.object_at(server),
        None => None,
    }
}

/// The signatures of an event by a server.
pub fn signatures_by<'a>(event: &'a Json, server: &str) -> (r: Option<&'a Vec<(String, Json)>>)
    ensures
        match r {
            Some(m) => signatures_of(event@, server@) == Some(members(m@)),
            None => signatures_of(event@, server@) is None,
        },
{
    match event.get("signatures") {
        Some(s) => s.object_at(server),
        None => None,
    }
}

/// The key ids among some signatures for which the signing server publishes a
/// key that may verify an event, each with that key.
pub open spec fn checkable(sigs: Seq<(Seq<char>, JsonView)>, keys: RemoteKeys) -> Seq<
    (Seq<char>, Seq<char>),
>
    decreases sigs.len(),
{
    if sigs.len() == 0 {
        seq![]
    } else {
        let rest = checkable(sigs.drop_last(), keys);
        match keys.event_key(sigs.last().0) {
            Some(k) => rest.push((sigs.last().0, k)),
            None => rest,
        }
    }
}

pub open spec fn text_pairs(v: Seq<(String, String)>) -> Seq<(Seq<char>, Seq<char>)> {
    v.map_values(|p: (String, String)| (p.0@, p.1@))
}

/// The signatures that can be checked, with their public keys.
pub fn signature_candidates(sigs: &Vec<(String, Json)>, keys: &RemoteKeys) -> (r: Vec<
    (String, String),
>)
    ensures
        text_pairs(r@) == checkable(members(sigs@), *keys),
{
    let ghost m = members(sigs@);
    let mut out: Vec<(String, String)> = Vec::new();
    let mut i: usize = 0;
    while i < sigs.len()
        invariant
            i <= sigs.len(),
            m == members(sigs@),
            text_pairs(out@) =~= checkable(m.take(i as int), *keys),
        decreases sigs.len() - i,
    {
        proof {
            assert(m.take(i + 1).drop_last() =~= m.take(i as int));
            assert(m.take(i + 1).last() == m[i as int]);
        }
        match keys.event_verify_key(sigs[i].0.as_str()) {
            Some(k) => {
                out.push((sigs[i].0.clone(), k.to_owned()));
            },
            None => {},
        }
        i += 1;
    }
    proof {
        assert(m.take(i as int) =~= m);
    }
    out
}

/// Whether some of the first `n` checks succeeded.
pub open spec fn any_of_first(checks: Seq<bool>, n: int) -> bool {
    exists|i: int| 0 <= i < n && i < checks.len() && #[trigger] checks[i]
}

/// Whether some of the first `n` checks succeeded.
pub fn any_first(checks: &Vec<bool>, n: usize) -> (r: bool)
    ensures
        r == any_of_first(checks@, n as int),
{
    let mut i: usize = 0;
    while i < n && i < checks.len()
        invariant
            i <= n,
            i <= checks.len(),
            forall|j: int| 0 <= j < i ==> !#[trigger] checks@[j],
        decreases checks.len() - i,
    {
        if checks[i] {
            return true;
        }
        i += 1;
    }
    false
}

/// How far the search for a valid signature of a server on an event has come.
pub enum SignatureStep {
    /// The event carries no signatures of the server.
    Unsigned,
    /// The event's list of signatures of the server is empty.
    Empty,
    /// This signature is the next to check, with this key.
    Check { key_id: String, key: String },
    /// One signature verified.
    Verified,
    /// None of the signatures that can be checked verified.
    Unverified,
}

pub enum SignatureView {
    Unsigned,
    Empty,
    Check { key_id: Seq<char>, key: Seq<char> },
    Verified,
    Unverified,
}

impl SignatureStep {
    pub open spec fn view(&self) -> SignatureView {
        match self {
            SignatureStep::Unsigned => SignatureView::Unsigned,
            SignatureStep::Empty => SignatureView::Empty,
            SignatureStep::Check { key_id, key } => SignatureView::Check {
                key_id: key_id@,
                key: key@,
            },
            SignatureStep::Verified => SignatureView::Verified,
            SignatureStep::Unverified => SignatureView::Unverified,
        }
    }
}

/// The search for a valid signature of a server: the signatures for which the
/// server publishes a key are checked one after the other until one verifies.
pub open spec fn signature_search(
    event: JsonView,
    server: Seq<char>,
    keys: RemoteKeys,
    checks: Seq<bool>,
) -> SignatureView {
    match signatures_of(event, server) {
        None => SignatureView::Unsigned,
        Some(sigs) => if sigs.len() == 0 {
            SignatureView::Empty
        } else {
            let to_check = checkable(sigs, keys);
            if any_of_first(checks, to_check.len() as int) {
                SignatureView::Verified
            } else if checks.len() < to_check.len() {
                let next = to_check[checks.len() as int];
                SignatureView::Check { key_id: next.0, key: next.1 }
            } else {
                SignatureView::Unverified
            }
        },
    }
}

/// Names the next signature of a server to check on an event, or the result of
/// the search; `checks` holds the results so far.
pub fn next_signature(
    event: &Json,
    server: &str,
    keys: &RemoteKeys,
    checks: &Vec<bool>,
) -> (r: SignatureStep)
    ensures
        r@ == signature_search(event@, server@, *keys, checks@),
{
    let sigs = match signatures_by(event, server) {
        Some(s) => s,
        None => {
            return SignatureStep::Unsigned;
        },
    };
    if sigs.len() == 0 {
        return SignatureStep::Empty;
    }
    let to_check = signature_candidates(sigs, keys);
    proof {
        assert(text_pairs(to_check@).len() == to_check@.len());
    }
    if any_first(checks, to_check.len()) {
        return SignatureStep::Verified;
    }
    let done: usize = checks.len();
    if done < to_check.len() {
        proof {
            assert(text_pairs(to_check@)[done as int] == (
                to_check@[done as int].0@,
                to_check@[done as int].1@,
            ));
        }
        SignatureStep::Check { key_id: to_check[done].0.clone(), key: to_check[done].1.clone() }
    } else {
        SignatureStep::Unverified
    }
}

/// A key document is taken only from the server that it names, and only if one
/// of its own current keys signed it; what is taken from it is valid now, and
/// for seven days at most.
pub proof fn law_key_documents(
    body: JsonView,
    expected: Seq<char>,
    now: u64,
    faults: KeyFaults,
    verdicts: KeyVerdicts,
    keys: RemoteKeys,
)
    requires
        document_fault(body, expected, now, faults, verdicts) is None,
        document_says(body, now, faults, keys),
    ensures
        body.str_at("server_name"@) == Some(expected),
        signatures_of(body, expected) is Some,
        exists|id: Seq<char>|
            (#[trigger] text_under(keys.verify_keys, id)) is Some && verdicts(
                id,
                text_under(keys.verify_keys, id)->0,
            ),
        keys.valid_until_ts <= now + KEY_VALIDITY_CAP_MS,
        now < u64::MAX ==> valid_at(keys, now),
{
    let sigs = signatures_of(body, expected)->0;
    let listed = body.object_at("verify_keys"@)->0;
    let i = choose|i: int|
        0 <= i < sigs.len() && key_under(listed, faults, (#[trigger] sigs[i]).0) is Some
            && verdicts(sigs[i].0, key_under(listed, faults, sigs[i].0)->0);
    let id = sigs[i].0;
    assert(text_under(keys.verify_keys, id) == key_under(listed, faults, id));
}

/// A key that a server has rotated out still verifies its events, but never in
/// place of a current key with the same id.
pub proof fn law_event_keys(keys: RemoteKeys, key_id: Seq<char>)
    ensures
        text_under(keys.verify_keys, key_id) is Some ==> keys.event_key(key_id) == text_under(
            keys.verify_keys,
            key_id,
        ),
        text_under(keys.verify_keys, key_id) is None ==> keys.event_key(key_id) == text_under(
            keys.old_verify_keys,
            key_id,
        ),
{
}

/// The signatures that can be checked are all those under an id for which the
/// server publishes a key, in the order in which the event lists them, each with
/// that key.
pub proof fn law_checkable(sigs: Seq<(Seq<char>, JsonView)>, keys: RemoteKeys)
    ensures
        checkable(sigs, keys) == sigs.filter_map(
            |s: (Seq<char>, JsonView)|
                match text_under(keys.verify_keys, s.0) {
                    Some(k) => Some((s.0, k)),
                    None => match text_under(keys.old_verify_keys, s.0) {
                        Some(k) => Some((s.0, k)),
                        None => None,
                    },
                },
        ),
        forall|i: int|
            0 <= i < checkable(sigs, keys).len() ==> {
                &&& (exists|j: int|
                    0 <= j < sigs.len() && (#[trigger] sigs[j]).0 == checkable(sigs, keys)[i].0)
                &&& text_under(keys.verify_keys, (#[trigger] checkable(sigs, keys)[i]).0) is Some
                    || text_under(keys.old_verify_keys, checkable(sigs, keys)[i].0) is Some
            },
        forall|j: int|
            0 <= j < sigs.len() && (text_under(keys.verify_keys, (#[trigger] sigs[j]).0) is Some
                || text_under(keys.old_verify_keys, sigs[j].0) is Some) ==> exists|i: int|
                0 <= i < checkable(sigs, keys).len() && (#[trigger] checkable(sigs, keys)[i]).0
                    == sigs[j].0,
    decreases sigs.len(),
{
    let r = checkable(sigs, keys);
    if sigs.len() > 0 {
        let front = sigs.drop_last();
        let s = checkable(front, keys);
        law_checkable(front, keys);
        law_event_keys(keys, sigs.last().0);
        if keys.event_key(sigs.last().0) is Some {
            let e = (sigs.last().0, keys.event_key(sigs.last().0)->0);
            assert(s.push(e) =~= s + seq![e]);
            assert(r[s.len() as int] == e);
        }
        assert forall|i: int| 0 <= i < r.len() implies exists|j: int|
            0 <= j < sigs.len() && (#[trigger] sigs[j]).0 == (#[trigger] r[i]).0 by {
            if i < s.len() {
                let j = choose|j: int| 0 <= j < front.len() && (#[trigger] front[j]).0 == s[i].0;
                assert(sigs[j] == front[j]);
                assert(r[i] == s[i]);
            } else {
                assert(sigs[sigs.len() - 1].0 == r[i].0);
            }
        }
        assert forall|i: int| 0 <= i < r.len() implies text_under(
            keys.verify_keys,
            (#[trigger] r[i]).0,
        ) is Some || text_under(keys.old_verify_keys, r[i].0) is Some by {
            if i < s.len() {
                assert(r[i] == s[i]);
            }
        }
        assert forall|j: int|
            0 <= j < sigs.len() && (text_under(keys.verify_keys, (#[trigger] sigs[j]).0) is Some
                || text_under(keys.old_verify_keys, sigs[j].0) is Some) implies exists|i: int|
            0 <= i < r.len() && (#[trigger] r[i]).0 == sigs[j].0 by {
            if j < front.len() {
                assert(front[j] == sigs[j]);
                let i = choose|i: int| 0 <= i < s.len() && (#[trigger] s[i]).0 == front[j].0;
                assert(r[i] == s[i]);
            }
        }
    }
}

/// In the search for a valid signature of a server only signatures that the event
/// carries from that very server are checked, with the key that the server
/// publishes under their id. Each that can be is checked before it is concluded
/// that none verifies, and it is concluded that one does only if one did.
pub proof fn law_signatures_to_check(
    event: JsonView,
    server: Seq<char>,
    keys: RemoteKeys,
    checks: Seq<bool>,
)
    ensures
        match signature_search(event, server, keys, checks) {
            SignatureView::Unsigned => !(event.get("signatures"@) matches Some(all) && all.get(
                server,
            ) matches Some(JsonView::Object(_))),
            SignatureView::Empty => event.get("signatures"@) matches Some(all) && all.get(server)
                == Some(JsonView::Object(seq![])),
            SignatureView::Check { key_id, key } => event.get("signatures"@) matches Some(all)
                && all.get(server) matches Some(JsonView::Object(m)) && JsonView::Object(m).get(
                key_id,
            ) is Some && keys.event_key(key_id) == Some(key) && forall|i: int|
                0 <= i < checks.len() ==> !#[trigger] checks[i],
            SignatureView::Verified => checks.contains(true),
            SignatureView::Unverified => event.get("signatures"@) matches Some(all) && all.get(
                server,
            ) matches Some(JsonView::Object(m)) && checks.len() >= m.filter_map(
                |s: (Seq<char>, JsonView)|
                    match text_under(keys.verify_keys, s.0) {
                        Some(k) => Some((s.0, k)),
                        None => match text_under(keys.old_verify_keys, s.0) {
                            Some(k) => Some((s.0, k)),
                            None => None,
                        },
                    },
            ).len(),
        },
{
    if let Some(sigs) = signatures_of(event, server) {
        law_checkable(sigs, keys);
        let to_check = checkable(sigs, keys);
        if checks.len() < to_check.len() {
            let next = to_check[checks.len() as int];
            let j = choose|j: int| 0 <= j < sigs.len() && (#[trigger] sigs[j]).0 == next.0;
            law_members(sigs, next.0);
            lemma_checkable_keys(sigs, keys);
        }
        if sigs.len() == 0 {
            assert(sigs =~= seq![]);
        }
        if any_of_first(checks, to_check.len() as int) {
            let i = choose|i: int|
                0 <= i < to_check.len() && i < checks.len() && #[trigger] checks[i];
            assert(checks[i]);
        }
    }
}

proof fn lemma_checkable_keys(sigs: Seq<(Seq<char>, JsonView)>, keys: RemoteKeys)
    ensures
        forall|i: int|
            0 <= i < checkable(sigs, keys).len() ==> keys.event_key(
                (#[trigger] checkable(sigs, keys)[i]).0,
            ) == Some(checkable(sigs, keys)[i].1),
    decreases sigs.len(),
{
    if sigs.len() > 0 {
        lemma_checkable_keys(sigs.drop_last(), keys);
    }
}

/// A cached key document is good enough exactly if its validity has not ended and
/// it holds one of the wanted keys, none is wanted in particular, or less than the
/// shortest time between two fetches has passed since it was fetched.
pub proof fn law_cached_keys(
    keys: RemoteKeys,
    wanted: Seq<Seq<char>>,
    now: u64,
    min_refetch_ms: u64,
)
    ensures
        suffices(keys, wanted, now, min_refetch_ms) <==> now < keys.valid_until_ts && (wanted.len()
            == 0 || (exists|id: Seq<char>| #[trigger]
            wanted.contains(id) && (text_under(keys.verify_keys, id) is Some || text_under(
                keys.old_verify_keys,
                id,
            ) is Some)) || now - keys.fetched_at < min_refetch_ms && (now >= keys.fetched_at
            || min_refetch_ms > 0)),
{
    assert forall|id: Seq<char>| #[trigger]
        wanted.contains(id) && (text_under(keys.verify_keys, id) is Some || text_under(
            keys.old_verify_keys,
            id,
        ) is Some) implies covers(keys, wanted) by {
        let i = choose|i: int| 0 <= i < wanted.len() && wanted[i] == id;
        assert(keys.verify_keys.has(wanted[i]) || keys.old_verify_keys.has(wanted[i]));
    }
    if wanted.len() > 0 && covers(keys, wanted) {
        let i = choose|i: int|
            0 <= i < wanted.len() && (keys.verify_keys.has(#[trigger] wanted[i])
                || keys.old_verify_keys.has(wanted[i]));
        assert(wanted.contains(wanted[i]));
    }
}

/// A key is read under an id exactly if some entry under that id has a `key` that
/// is well formed, and it is the last such.
pub proof fn law_listed_keys(m: Seq<(Seq<char>, JsonView)>, faults: KeyFaults, id: Seq<char>)
    ensures
        match key_under(m, faults, id) {
            Some(k) => faults(k) is None && exists|i: int|
                0 <= i < m.len() && (#[trigger] m[i]).0 == id && m[i].1.get("key"@) == Some(
                    JsonView::Str(k),
                ) && forall|j: int|
                    i < j < m.len() && (#[trigger] m[j]).0 == id ==> !(m[j].1.get("key"@) matches Some(
                        JsonView::Str(x),
                    ) && faults(x) is None),
            None => forall|i: int|
                0 <= i < m.len() && (#[trigger] m[i]).0 == id ==> !(m[i].1.get("key"@) matches Some(
                    JsonView::Str(x),
                ) && faults(x) is None),
        },
    decreases m.len(),
{
    if m.len() > 0 {
        let last = m.len() - 1;
        if m[last].0 == id && key_fault(m[last].1, faults) is None {
            assert(m[last].1.get("key"@) == Some(JsonView::Str(key_under(m, faults, id)->0)));
        } else {
            let front = m.drop_last();
            law_listed_keys(front, faults, id);
            match key_under(front, faults, id) {
                Some(k) => {
                    let i = choose|i: int|
                        0 <= i < front.len() && (#[trigger] front[i]).0 == id && front[i].1.get(
                            "key"@,
                        ) == Some(JsonView::Str(k)) && forall|j: int|
                            i < j < front.len() && (#[trigger] front[j]).0 == id ==> !(
                            front[j].1.get("key"@) matches Some(JsonView::Str(x)) && faults(x)
                                is None);
                    assert(m[i] == front[i]);
                    assert forall|j: int| i < j < m.len() && (#[trigger] m[j]).0 == id implies !(
                    m[j].1.get("key"@) matches Some(JsonView::Str(x)) && faults(x) is None) by {
                        if j < front.len() {
                            assert(m[j] == front[j]);
                        }
                    }
                },
                None => {
                    assert forall|i: int| 0 <= i < m.len() && (#[trigger] m[i]).0 == id implies !(
                    m[i].1.get("key"@) matches Some(JsonView::Str(x)) && faults(x) is None) by {
                        if i < front.len() {
                            assert(m[i] == front[i]);
                        }
                    }
                },
            }
        }
    }
}

proof fn lemma_malformed(m: Seq<(Seq<char>, JsonView)>, faults: KeyFaults)
    ensures
        match first_malformed(m, faults) {
            Some((id, reason)) => exists|i: int|
                0 <= i < m.len() && (#[trigger] m[i]).0 == id && !(m[i].1.get("key"@) matches Some(
                    JsonView::Str(x),
                ) && faults(x) is None) && forall|j: int|
                    0 <= j < i ==> ((#[trigger] m[j]).1.get("key"@) matches Some(JsonView::Str(x))
                        && faults(x) is None),
            None => forall|i: int|
                0 <= i < m.len() ==> ((#[trigger] m[i]).1.get("key"@) matches Some(JsonView::Str(x))
                    && faults(x) is None),
        },
    decreases m.len(),
{
    if m.len() > 0 {
        let front = m.drop_last();
        lemma_malformed(front, faults);
        match first_malformed(front, faults) {
            Some((id, _)) => {
                let i = choose|i: int|
                    0 <= i < front.len() && (#[trigger] front[i]).0 == id && !(front[i].1.get(
                        "key"@,
                    ) matches Some(JsonView::Str(x)) && faults(x) is None) && forall|j: int|
                        0 <= j < i ==> ((#[trigger] front[j]).1.get("key"@) matches Some(
                            JsonView::Str(x),
                        ) && faults(x) is None);
                assert(m[i] == front[i]);
                assert forall|j: int| 0 <= j < i implies ((#[trigger] m[j]).1.get("key"@) matches Some(
                    JsonView::Str(x),
                ) && faults(x) is None) by {
                    assert(m[j] == front[j]);
                }
            },
            None => {
                assert forall|i: int| 0 <= i < m.len() - 1 implies ((#[trigger] m[i]).1.get(
                    "key"@,
                ) matches Some(JsonView::Str(x)) && faults(x) is None) by {
                    assert(m[i] == front[i]);
                }
                if first_malformed(m, faults) is Some {
                    let i = m.len() - 1;
                    assert(m[i].0 == (first_malformed(m, faults)->0).0);
                }
            },
        }
    }
}

/// A key document is good exactly if it is an object that names the server it was
/// asked of, lists keys, each of them with a well-formed `key`, is valid at the
/// time and for no more than about a hundred years, and is signed by that server
/// with one of the keys that it lists.
pub proof fn law_good_documents(
    body: JsonView,
    expected: Seq<char>,
    now: u64,
    faults: KeyFaults,
    verdicts: KeyVerdicts,
)
    ensures
        document_fault(body, expected, now, faults, verdicts) is None <==> {
            &&& body.get("server_name"@) == Some(JsonView::Str(expected))
            &&& (body.get("valid_until_ts"@) matches Some(t) && (t.as_u64() matches Some(until)
                && now < until && until <= now + 3_153_600_000_000))
            &&& (body.get("verify_keys"@) matches Some(JsonView::Object(keys)) && (keys.len() > 0
                && (forall|i: int|
                0 <= i < keys.len() ==> ((#[trigger] keys[i]).1.get("key"@) matches Some(
                    JsonView::Str(x),
                ) && faults(x) is None)) && (body.get("signatures"@) matches Some(all) && (all
                is Object && (all.get(expected) matches Some(JsonView::Object(sigs)) && exists|
                i: int,
            |
                0 <= i < sigs.len() && key_under(keys, faults, (#[trigger] sigs[i]).0) is Some
                    && verdicts(sigs[i].0, key_under(keys, faults, sigs[i].0)->0))))))
        },
{
    if let Some(JsonView::Object(keys)) = body.get("verify_keys"@) {
        lemma_malformed(keys, faults);
    }
}

/// The end of a validity as it is used is the earlier of the one stated and the
/// time seven days from now: a longer one is cut, a shorter one stands.
pub proof fn law_validity(valid_until: u64, now: u64)
    requires
        now + 604_800_000 <= u64::MAX,
    ensures
        capped_validity(valid_until, now) <= valid_until,
        capped_validity(valid_until, now) <= now + 604_800_000,
        capped_validity(valid_until, now) == valid_until || capped_validity(valid_until, now) == now
            + 604_800_000,
{
}

/// A sum that fits is the sum; one that does not is the largest number there is.
pub proof fn law_sums(a: u64, b: u64)
    ensures
        capped_sum(a, b) <= a + b,
        capped_sum(a, b) < a + b ==> capped_sum(a, b) == u64::MAX,
{
}

} // verus!
