//! JSON values and their mathematical view.

use vstd::prelude::*;
use vstd::string::*;

use crate::text::opt_text;
use crate::text::str_eq;
use crate::text::texts;

verus! {

/// A JSON number. Numbers with a fraction or an exponent are carried as their
/// text: nothing in this crate computes with them.
#[derive(Debug)]
pub enum JsonNumber {
    Unsigned(u64),
    Negative(i64),
    Float(String),
}

/// A JSON value. An object keeps its members in the order in which its parser
/// hands them out.
#[derive(Debug)]
pub enum Json {
    Null,
    Bool(bool),
    Number(JsonNumber),
    Str(String),
    Array(Vec<Json>),
    Object(Vec<(String, Json)>),
}

/// The mathematical value of a JSON number.
pub enum NumberView {
    Unsigned(u64),
    Negative(i64),
    Float(Seq<char>),
}

/// The mathematical value of a JSON document.
pub enum JsonView {
    Null,
    Bool(bool),
    Number(NumberView),
    Str(Seq<char>),
    Array(Seq<JsonView>),
    Object(Seq<(Seq<char>, JsonView)>),
}

/// The value of the first member named `key`.
pub open spec fn member(m: Seq<(Seq<char>, JsonView)>, key: Seq<char>) -> Option<JsonView>
    decreases m.len(),
{
    if m.len() == 0 {
        None
    } else if m[0].0 == key {
        Some(m[0].1)
    } else {
        member(m.drop_first(), key)
    }
}

/// The strings among a list of values, in order.
pub open spec fn strings_in(v: Seq<JsonView>) -> Seq<Seq<char>>
    decreases v.len(),
{
    if v.len() == 0 {
        seq![]
    } else {
        match v.last() {
            JsonView::Str(s) => strings_in(v.drop_last()).push(s),
            _ => strings_in(v.drop_last()),
        }
    }
}

impl JsonView {
    /// The member `key` of an object; `None` for every other value.
    pub open spec fn get(self, key: Seq<char>) -> Option<JsonView> {
        match self {
            JsonView::Object(m) => member(m, key),
            _ => None,
        }
    }

    pub open spec fn as_str(self) -> Option<Seq<char>> {
        match self {
            JsonView::Str(s) => Some(s),
            _ => None,
        }
    }

    pub open spec fn as_u64(self) -> Option<u64> {
        match self {
            JsonView::Number(NumberView::Unsigned(n)) => Some(n),
            _ => None,
        }
    }

    pub open spec fn as_bool(self) -> Option<bool> {
        match self {
            JsonView::Bool(b) => Some(b),
            _ => None,
        }
    }

    pub open spec fn as_array(self) -> Option<Seq<JsonView>> {
        match self {
            JsonView::Array(v) => Some(v),
            _ => None,
        }
    }

    pub open spec fn as_object(self) -> Option<Seq<(Seq<char>, JsonView)>> {
        match self {
            JsonView::Object(m) => Some(m),
            _ => None,
        }
    }

    /// The member `key` when it is a string.
    pub open spec fn str_at(self, key: Seq<char>) -> Option<Seq<char>> {
        match self.get(key) {
            Some(v) => v.as_str(),
            None => None,
        }
    }

    /// The member `key` when it is an unsigned integer.
    pub open spec fn u64_at(self, key: Seq<char>) -> Option<u64> {
        match self.get(key) {
            Some(v) => v.as_u64(),
            None => None,
        }
    }

    /// The member `key` when it is an array.
    pub open spec fn array_at(self, key: Seq<char>) -> Option<Seq<JsonView>> {
        match self.get(key) {
            Some(v) => v.as_array(),
            None => None,
        }
    }

    /// The member `key` when it is an object.
    pub open spec fn object_at(self, key: Seq<char>) -> Option<Seq<(Seq<char>, JsonView)>> {
        match self.get(key) {
            Some(v) => v.as_object(),
            None => None,
        }
    }

    /// The string at `outer`, then `inner`.
    pub open spec fn str_within(self, outer: Seq<char>, inner: Seq<char>) -> Option<Seq<char>> {
        match self.get(outer) {
            Some(v) => v.str_at(inner),
            None => None,
        }
    }
}

/// The views of a list of JSON values.
pub open spec fn values(v: Seq<Json>) -> Seq<JsonView> {
    v.map_values(|x: Json| x.view())
}

/// The views of the members of an object.
pub open spec fn members(m: Seq<(String, Json)>) -> Seq<(Seq<char>, JsonView)> {
    m.map_values(|e: (String, Json)| (e.0@, e.1.view()))
}

pub proof fn lemma_values_push(v: Seq<Json>, x: Json)
    ensures
        values(v.push(x)) == values(v).push(x@),
{
    assert(values(v.push(x)) =~= values(v).push(x@));
}

pub proof fn lemma_members_push(m: Seq<(String, Json)>, e: (String, Json))
    ensures
        members(m.push(e)) == members(m).push((e.0@, e.1@)),
{
    assert(members(m.push(e)) =~= members(m).push((e.0@, e.1@)));
}

/// The view of an optional JSON value.
pub open spec fn opt_json(o: Option<&Json>) -> Option<JsonView> {
    match o {
        Some(v) => Some(v@),
        None => None,
    }
}

pub open spec fn json_of(o: Option<Json>) -> Option<JsonView> {
    match o {
        Some(v) => Some(v@),
        None => None,
    }
}

impl JsonNumber {
    pub open spec fn view(&self) -> NumberView {
        match self {
            JsonNumber::Unsigned(n) => NumberView::Unsigned(*n),
            JsonNumber::Negative(n) => NumberView::Negative(*n),
            JsonNumber::Float(t) => NumberView::Float(t@),
        }
    }

    pub fn copy(&self) -> (r: JsonNumber)
        ensures
            r@ == self@,
    {
        match self {
            JsonNumber::Unsigned(n) => JsonNumber::Unsigned(*n),
            JsonNumber::Negative(n) => JsonNumber::Negative(*n),
            JsonNumber::Float(t) => JsonNumber::Float(t.clone()),
        }
    }
}

impl Json {
    pub open spec fn view(&self) -> JsonView
        decreases self,
    {
        match self {
            Json::Null => JsonView::Null,
            Json::Bool(b) => JsonView::Bool(*b),
            Json::Number(n) => JsonView::Number(n.view()),
            Json::Str(s) => JsonView::Str(s@),
            Json::Array(v) => JsonView::Array(
                Seq::new(
                    v@.len(),
                    |i: int|
                        if 0 <= i < v@.len() {
                            v@[i].view()
                        } else {
                            JsonView::Null
                        },
                ),
            ),
            Json::Object(m) => JsonView::Object(
                Seq::new(
                    m@.len(),
                    |i: int|
                        if 0 <= i < m@.len() {
                            (m@[i].0@, m@[i].1.view())
                        } else {
                            (seq![], JsonView::Null)
                        },
                ),
            ),
        }
    }

    /// The view of an array is the array of its elements' views.
    pub proof fn lemma_array(v: Vec<Json>)
        ensures
            Json::Array(v)@ == JsonView::Array(values(v@)),
    {
        assert(Json::Array(v)@->Array_0 =~= values(v@));
    }

    /// The view of an object is made of its members' views.
    pub proof fn lemma_object(m: Vec<(String, Json)>)
        ensures
            Json::Object(m)@ == JsonView::Object(members(m@)),
    {
        assert(Json::Object(m)@->Object_0 =~= members(m@));
    }

    /// The member `key` of an object.
    pub fn get(&self, key: &str) -> (r: Option<&Json>)
        ensures
            opt_json(r) == self@.get(key@),
    {
        match self {
            Json::Object(m) => {
                proof {
                    Self::lemma_object(*m);
                    assert(members(m@).skip(0) =~= members(m@));
                }
                let mut i: usize = 0;
                while i < m.len()
                    invariant
                        i <= m.len(),
                        self@ == JsonView::Object(members(m@)),
                        member(members(m@), key@) == member(members(m@).skip(i as int), key@),
                    decreases m.len() - i,
                {
                    proof {
                        assert(members(m@).skip(i as int)[0] == members(m@)[i as int]);
                        assert(members(m@).skip(i as int).drop_first() =~= members(m@).skip(i + 1));
                    }
                    if str_eq(m[i].0.as_str(), key) {
                        return Some(&m[i].1);
                    }
                    i += 1;
                }
                None
            },
            _ => None,
        }
    }

    pub fn as_str(&self) -> (r: Option<&str>)
        ensures
            opt_text(r) == self@.as_str(),
    {
        match self {
            Json::Str(s) => Some(s.as_str()),
            _ => None,
        }
    }

    pub fn as_u64(&self) -> (r: Option<u64>)
        ensures
            r == self@.as_u64(),
    {
        match self {
            Json::Number(JsonNumber::Unsigned(n)) => Some(*n),
            _ => None,
        }
    }

    pub fn as_bool(&self) -> (r: Option<bool>)
        ensures
            r == self@.as_bool(),
    {
        match self {
            Json::Bool(b) => Some(*b),
            _ => None,
        }
    }

    pub fn as_array(&self) -> (r: Option<&Vec<Json>>)
        ensures
            match r {
                Some(v) => self@.as_array() == Some(values(v@)),
                None => self@.as_array() is None,
            },
    {
        match self {
            Json::Array(v) => {
                proof {
                    Self::lemma_array(*v);
                }
                Some(v)
            },
            _ => None,
        }
    }

    pub fn as_object(&self) -> (r: Option<&Vec<(String, Json)>>)
        ensures
            match r {
                Some(m) => self@.as_object() == Some(members(m@)),
                None => self@.as_object() is None,
            },
    {
        match self {
            Json::Object(m) => {
                proof {
                    Self::lemma_object(*m);
                }
                Some(m)
            },
            _ => None,
        }
    }

    pub fn is_null(&self) -> (r: bool)
        ensures
            r == (self@ == JsonView::Null),
    {
        match self {
            Json::Null => true,
            _ => false,
        }
    }

    /// The member `key` when it is a string.
    pub fn str_at(&self, key: &str) -> (r: Option<&str>)
        ensures
            opt_text(r) == self@.str_at(key@),
    {
        match self.get(key) {
            Some(v) => v.as_str(),
            None => None,
        }
    }

    /// The member `key` when it is an unsigned integer.
    pub fn u64_at(&self, key: &str) -> (r: Option<u64>)
        ensures
            r == self@.u64_at(key@),
    {
        match self.get(key) {
            Some(v) => v.as_u64(),
            None => None,
        }
    }

    /// The member `key` when it is an array.
    pub fn array_at(&self, key: &str) -> (r: Option<&Vec<Json>>)
        ensures
            match r {
                Some(v) => self@.array_at(key@) == Some(values(v@)),
                None => self@.array_at(key@) is None,
            },
    {
        match self.get(key) {
            Some(v) => v.as_array(),
            None => None,
        }
    }

    /// The member `key` when it is an object.
    pub fn object_at(&self, key: &str) -> (r: Option<&Vec<(String, Json)>>)
        ensures
            match r {
                Some(m) => self@.object_at(key@) == Some(members(m@)),
                None => self@.object_at(key@) is None,
            },
    {
        match self.get(key) {
            Some(v) => v.as_object(),
            None => None,
        }
    }

    /// The string at `outer`, then `inner`.
    pub fn str_within(&self, outer: &str, inner: &str) -> (r: Option<&str>)
        ensures
            opt_text(r) == self@.str_within(outer@, inner@),
    {
        match self.get(outer) {
            Some(v) => v.str_at(inner),
            None => None,
        }
    }

    /// A copy with the same value.
    pub fn copy(&self) -> (r: Json)
        ensures
            r@ == self@,
        decreases self,
    {
        match self {
            Json::Null => Json::Null,
            Json::Bool(b) => Json::Bool(*b),
            Json::Number(n) => Json::Number(n.copy()),
            Json::Str(s) => Json::Str(s.clone()),
            Json::Array(v) => {
                let mut out: Vec<Json> = Vec::new();
                let mut i: usize = 0;
                while i < v.len()
                    invariant
                        i <= v.len(),
                        decreases_to!(*self => *v),
                        values(out@) =~= values(v@).take(i as int),
                    decreases v.len() - i,
                {
                    let x = v[i].copy();
                    proof {
                        lemma_values_push(out@, x);
                    }
                    out.push(x);
                    i += 1;
                    proof {
                        assert(values(v@).take(i as int) =~= values(v@).take(i - 1).push(
                            values(v@)[i - 1],
                        ));
                    }
                }
                proof {
                    assert(values(out@) =~= values(v@));
                    Self::lemma_array(out);
                    Self::lemma_array(*v);
                }
                Json::Array(out)
            },
            Json::Object(m) => {
                let mut out: Vec<(String, Json)> = Vec::new();
                let mut i: usize = 0;
                while i < m.len()
                    invariant
                        i <= m.len(),
                        decreases_to!(*self => *m),
                        members(out@) =~= members(m@).take(i as int),
                    decreases m.len() - i,
                {
                    proof {
                        assert(decreases_to!(*m => m@[i as int]));
                    }
                    let x = m[i].1.copy();
                    let e = (m[i].0.clone(), x);
                    proof {
                        lemma_members_push(out@, e);
                    }
                    out.push(e);
                    i += 1;
                    proof {
                        assert(members(m@).take(i as int) =~= members(m@).take(i - 1).push(
                            members(m@)[i - 1],
                        ));
                    }
                }
                proof {
                    assert(members(out@) =~= members(m@));
                    Self::lemma_object(out);
                    Self::lemma_object(*m);
                }
                Json::Object(out)
            },
        }
    }

    /// A JSON string.
    pub fn text(s: &str) -> (r: Json)
        ensures
            r@ == JsonView::Str(s@),
    {
        Json::Str(s.to_owned())
    }

    /// A JSON number.
    pub fn number(n: u64) -> (r: Json)
        ensures
            r@ == JsonView::Number(NumberView::Unsigned(n)),
    {
        Json::Number(JsonNumber::Unsigned(n))
    }

    /// A JSON array.
    pub fn array(v: Vec<Json>) -> (r: Json)
        ensures
            r@ == JsonView::Array(values(v@)),
    {
        proof {
            Self::lemma_array(v);
        }
        Json::Array(v)
    }

    /// A JSON object.
    pub fn object(m: Vec<(String, Json)>) -> (r: Json)
        ensures
            r@ == JsonView::Object(members(m@)),
    {
        proof {
            Self::lemma_object(m);
        }
        Json::Object(m)
    }

    /// A JSON array of strings.
    pub fn text_array(v: &Vec<String>) -> (r: Json)
        ensures
            r@ == JsonView::Array(texts(v@).map_values(|s: Seq<char>| JsonView::Str(s))),
    {
        let mut out: Vec<Json> = Vec::new();
        let mut i: usize = 0;
        while i < v.len()
            invariant
                i <= v.len(),
                values(out@) =~= texts(v@).map_values(|s: Seq<char>| JsonView::Str(s)).take(
                    i as int,
                ),
            decreases v.len() - i,
        {
            let x = Json::text(v[i].as_str());
            proof {
                lemma_values_push(out@, x);
            }
            out.push(x);
            i += 1;
        }
        proof {
            assert(values(out@) =~= texts(v@).map_values(|s: Seq<char>| JsonView::Str(s)));
        }
        Json::array(out)
    }
}

/// Appends a member to the members of an object.
pub fn put(m: &mut Vec<(String, Json)>, key: &str, value: Json)
    ensures
        members(final(m)@) == members(old(m)@).push((key@, value@)),
{
    m.push((key.to_owned(), value));
    proof {
        assert(members(m@) =~= members(old(m)@).push((key@, value@)));
    }
}

/// The strings among the elements of an array, in order.
pub fn collect_strings(v: &Vec<Json>) -> (r: Vec<String>)
    ensures
        texts(r@) == strings_in(values(v@)),
{
    let mut out: Vec<String> = Vec::new();
    let mut i: usize = 0;
    while i < v.len()
        invariant
            i <= v.len(),
            texts(out@) =~= strings_in(values(v@).take(i as int)),
        decreases v.len() - i,
    {
        proof {
            assert(values(v@).take(i + 1).drop_last() =~= values(v@).take(i as int));
            assert(values(v@).take(i + 1).last() == v@[i as int]@);
        }
        match v[i].as_str() {
            Some(s) => {
                out.push(s.to_owned());
            },
            None => {},
        }
        i += 1;
    }
    proof {
        assert(values(v@).take(i as int) =~= values(v@));
    }
    out
}

/// A member of an object is one of its entries.
pub proof fn lemma_member_entry(m: Seq<(Seq<char>, JsonView)>, key: Seq<char>) -> (i: int)
    requires
        member(m, key) is Some,
    ensures
        0 <= i < m.len(),
        m[i] == (key, member(m, key)->0),
    decreases m.len(),
{
    if m[0].0 == key {
        0
    } else {
        let j = lemma_member_entry(m.drop_first(), key);
        j + 1
    }
}

/// The place of a key among some members, their number if it is absent.
pub open spec fn key_place(m: Seq<(Seq<char>, JsonView)>, key: Seq<char>) -> int
    decreases m.len(),
{
    if m.len() == 0 || m[0].0 == key {
        0
    } else {
        1 + key_place(m.drop_first(), key)
    }
}

/// Some members with one more; it takes the place of one with the same key.
pub open spec fn with_member(
    m: Seq<(Seq<char>, JsonView)>,
    key: Seq<char>,
    value: JsonView,
) -> Seq<(Seq<char>, JsonView)> {
    let i = key_place(m, key);
    if i < m.len() {
        m.update(i, (key, value))
    } else {
        m.push((key, value))
    }
}

/// Adds a member, in place of one with the same key if there is one.
pub fn put_once(m: &mut Vec<(String, Json)>, key: &str, value: Json)
    ensures
        members(final(m)@) == with_member(members(old(m)@), key@, value@),
{
    let ghost v = members(m@);
    let mut i: usize = 0;
    proof {
        assert(v.skip(0) =~= v);
    }
    while i < m.len()
        invariant
            i <= m.len(),
            v == members(m@),
            m@ == old(m)@,
            key_place(v, key@) == i + key_place(v.skip(i as int), key@),
        decreases m.len() - i,
    {
        proof {
            assert(v.skip(i as int)[0] == v[i as int]);
            assert(v.skip(i as int).drop_first() =~= v.skip(i + 1));
        }
        if str_eq(m[i].0.as_str(), key) {
            m.set(i, (key.to_owned(), value));
            proof {
                assert(members(m@) =~= v.update(i as int, (key@, value@)));
            }
            return;
        }
        i += 1;
    }
    put(m, key, value);
}

/// A list of texts as a value.
pub open spec fn text_list(v: Seq<Seq<char>>) -> JsonView {
    JsonView::Array(v.map_values(|s: Seq<char>| JsonView::Str(s)))
}

/// A member of an object is the value of its first entry under the key; there is
/// none only if the object has no such entry.
pub proof fn law_members(m: Seq<(Seq<char>, JsonView)>, key: Seq<char>)
    ensures
        match member(m, key) {
            Some(v) => exists|i: int|
                0 <= i < m.len() && #[trigger] m[i] == (key, v) && forall|j: int|
                    0 <= j < i ==> (#[trigger] m[j]).0 != key,
            None => forall|i: int| 0 <= i < m.len() ==> (#[trigger] m[i]).0 != key,
        },
        JsonView::Object(m).get(key) == member(m, key),
    decreases m.len(),
{
    if m.len() > 0 && m[0].0 != key {
        let rest = m.drop_first();
        law_members(rest, key);
        match member(rest, key) {
            Some(v) => {
                let i = choose|i: int|
                    0 <= i < rest.len() && #[trigger] rest[i] == (key, v) && forall|j: int|
                        0 <= j < i ==> (#[trigger] rest[j]).0 != key;
                assert(m[i + 1] == (key, v));
                assert forall|j: int| 0 <= j < i + 1 implies (#[trigger] m[j]).0 != key by {
                    if j > 0 {
                        assert(m[j] == rest[j - 1]);
                    }
                }
            },
            None => {
                assert forall|i: int| 0 <= i < m.len() implies (#[trigger] m[i]).0 != key by {
                    if i > 0 {
                        assert(m[i] == rest[i - 1]);
                    }
                }
            },
        }
    } else if m.len() > 0 {
        assert(m[0] == (key, m[0].1));
    }
}

/// The strings of a list are all of its elements that are strings, in order.
pub proof fn law_strings(v: Seq<JsonView>)
    ensures
        strings_in(v) == v.filter_map(
            |x: JsonView|
                match x {
                    JsonView::Str(s) => Some(s),
                    _ => None,
                },
        ),
        forall|i: int|
            0 <= i < v.len() && (#[trigger] v[i]) is Str ==> strings_in(v).contains(v[i]->Str_0),
        forall|s: Seq<char>| #[trigger] strings_in(v).contains(s) ==> v.contains(JsonView::Str(s)),
    decreases v.len(),
{
    if v.len() > 0 {
        let front = v.drop_last();
        law_strings(front);
        let r = strings_in(v);
        let s = strings_in(front);
        if v.last() is Str {
            assert(s.push(v.last()->Str_0) =~= s + seq![v.last()->Str_0]);
            assert(r[s.len() as int] == v.last()->Str_0);
        }
        assert forall|i: int| 0 <= i < v.len() && (#[trigger] v[i]) is Str implies r.contains(
            v[i]->Str_0,
        ) by {
            if i < front.len() {
                assert(front[i] == v[i]);
                assert(s.contains(v[i]->Str_0));
                let k = choose|k: int| 0 <= k < s.len() && s[k] == v[i]->Str_0;
                assert(r[k] == v[i]->Str_0);
            }
        }
        assert forall|x: Seq<char>| #[trigger] r.contains(x) implies v.contains(
            JsonView::Str(x),
        ) by {
            let k = choose|k: int| 0 <= k < r.len() && r[k] == x;
            if k < s.len() {
                assert(s[k] == x);
                assert(s.contains(x));
                let i = choose|i: int| 0 <= i < front.len() && front[i] == JsonView::Str(x);
                assert(v[i] == JsonView::Str(x));
            } else {
                assert(v[v.len() - 1] == JsonView::Str(x));
            }
        }
    }
}

/// After a member was put into an object it is there, and every other member is
/// as it was.
pub proof fn law_with_member(
    m: Seq<(Seq<char>, JsonView)>,
    key: Seq<char>,
    value: JsonView,
    other: Seq<char>,
)
    ensures
        member(with_member(m, key, value), key) == Some(value),
        other != key ==> member(with_member(m, key, value), other) == member(m, other),
    decreases m.len(),
{
    let r = with_member(m, key, value);
    if m.len() == 0 {
        assert(r =~= seq![(key, value)]);
        assert(r.drop_first() =~= seq![]);
        reveal_with_fuel(member, 2);
    } else {
        let rest = m.drop_first();
        law_with_member(rest, key, value, other);
        if m[0].0 == key {
            assert(r =~= seq![(key, value)] + rest);
            assert(r.drop_first() =~= rest);
        } else {
            let t = with_member(rest, key, value);
            lemma_key_place(rest, key);
            assert(key_place(m, key) == 1 + key_place(rest, key));
            assert(r[0] == m[0]);
            assert(r.drop_first() =~= t);
        }
    }
}

proof fn lemma_key_place(m: Seq<(Seq<char>, JsonView)>, key: Seq<char>)
    ensures
        0 <= key_place(m, key) <= m.len(),
    decreases m.len(),
{
    if m.len() > 0 {
        lemma_key_place(m.drop_first(), key);
    }
}

} // verus!
