//! Small ordered tables keyed by text, with a first-match lookup as their
//! mathematical view.

use vstd::prelude::*;
use vstd::string::*;

use crate::text::str_eq;

verus! {

/// A table from texts to values; every key occurs once, in the order in which
/// it was first inserted.
#[derive(Debug)]
pub struct TextMap<V> {
    pub entries: Vec<(String, V)>,
}

impl<V> TextMap<V> {
    /// The index of a key, the number of entries when it is absent.
    pub open spec fn position(self, key: Seq<char>) -> int {
        position_from(self.entries@, key, 0)
    }

    pub open spec fn has(self, key: Seq<char>) -> bool {
        self.position(key) < self.entries@.len()
    }

    /// The value of a key.
    pub open spec fn find(self, key: Seq<char>) -> Option<V> {
        if self.has(key) {
            Some(self.entries@[self.position(key)].1)
        } else {
            None
        }
    }

    /// No key occurs twice.
    pub open spec fn wf(self) -> bool {
        forall|i: int, j: int|
            0 <= i < j < self.entries@.len() ==> (#[trigger] self.entries@[i]).0@ != (
            #[trigger] self.entries@[j]).0@
    }

    /// A table without entries.
    pub fn new() -> (r: Self)
        ensures
            r.wf(),
            r.entries@.len() == 0,
            forall|k: Seq<char>| r.find(k) is None,
    {
        TextMap { entries: Vec::new() }
    }

    pub fn index_of(&self, key: &str) -> (r: usize)
        ensures
            r as int == self.position(key@),
            r <= self.entries@.len(),
    {
        let mut i: usize = 0;
        while i < self.entries.len()
            invariant
                i <= self.entries.len(),
                position_from(self.entries@, key@, 0) == position_from(
                    self.entries@,
                    key@,
                    i as int,
                ),
            decreases self.entries.len() - i,
        {
            if str_eq(self.entries[i].0.as_str(), key) {
                return i;
            }
            i += 1;
        }
        i
    }

    /// The value of a key.
    pub fn get(&self, key: &str) -> (r: Option<&V>)
        ensures
            match r {
                Some(v) => self.find(key@) == Some(*v),
                None => self.find(key@) is None,
            },
    {
        let i: usize = self.index_of(key);
        if i < self.entries.len() {
            Some(&self.entries[i].1)
        } else {
            None
        }
    }

    pub fn contains_key(&self, key: &str) -> (r: bool)
        ensures
            r == self.has(key@),
    {
        self.index_of(key) < self.entries.len()
    }

    pub fn len(&self) -> (r: usize)
        ensures
            r == self.entries@.len(),
    {
        self.entries.len()
    }

    pub fn is_empty(&self) -> (r: bool)
        ensures
            r == (self.entries@.len() == 0),
    {
        self.entries.len() == 0
    }

    /// Sets the value of a key; a key that is new goes last.
    pub fn insert(&mut self, key: &str, value: V)
        ensures
            old(self).wf() ==> final(self).wf(),
            forall|k: Seq<char>|
                #![trigger final(self).find(k)]
                final(self).find(k) == (if k == key@ {
                    Some(value)
                } else {
                    old(self).find(k)
                }),
            old(self).has(key@) ==> {
                &&& final(self).entries@.len() == old(self).entries@.len()
                &&& forall|i: int|
                    0 <= i < old(self).entries@.len() ==> (#[trigger] final(self).entries@[i]).0@
                        == old(self).entries@[i].0@
            },
            !old(self).has(key@) ==> {
                &&& final(self).entries@.len() == old(self).entries@.len() + 1
                &&& final(self).entries@.drop_last() == old(self).entries@
                &&& final(self).entries@.last().0@ == key@
                &&& final(self).entries@.last().1 == value
            },
    {
        let i: usize = self.index_of(key);
        let ghost before = self.entries@;
        proof {
            lemma_position(before, key@, 0);
        }
        if i < self.entries.len() {
            let name = self.entries[i].0.clone();
            self.entries.set(i, (name, value));
        } else {
            self.entries.push((key.to_owned(), value));
            proof {
                assert(self.entries@.drop_last() =~= before);
            }
        }
        proof {
            assert forall|k: Seq<char>| #![trigger self.find(k)]
                self.find(k) == (if k == key@ {
                    Some(value)
                } else {
                    old(self).find(k)
                }) by {
                lemma_position(before, k, 0);
                lemma_position(self.entries@, k, 0);
                lemma_position(self.entries@, key@, 0);
                let a = position_from(before, k, 0);
                let b = position_from(self.entries@, k, 0);
                if k == key@ {
                    if b < i {
                        assert(self.entries@[b].0@ == before[b].0@);
                    }
                    assert(self.entries@[i as int].0@ == key@);
                    assert(b == i);
                } else {
                    if a < before.len() {
                        assert(self.entries@[a].0@ == before[a].0@);
                    }
                    if b < before.len() {
                        assert(self.entries@[b].0@ == before[b].0@);
                    }
                    if b < before.len() {
                        assert(a == b);
                    } else if b < self.entries@.len() {
                        assert(self.entries@[b].0@ == key@);
                    }
                }
            }
            if old(self).wf() {
                assert forall|x: int, y: int| 0 <= x < y < self.entries@.len() implies (
                #[trigger] self.entries@[x]).0@ != (#[trigger] self.entries@[y]).0@ by {
                    if y < before.len() {
                        assert(self.entries@[x].0@ == before[x].0@);
                        assert(self.entries@[y].0@ == before[y].0@);
                    } else {
                        assert(self.entries@[x].0@ == before[x].0@);
                    }
                }
            }
        }
    }
}

impl<V> TextMap<V> {
    /// Removes the value of a key and hands it out.
    pub fn remove(&mut self, key: &str) -> (r: Option<V>)
        requires
            old(self).wf(),
        ensures
            final(self).wf(),
            r == old(self).find(key@),
            forall|k: Seq<char>|
                #![trigger final(self).find(k)]
                final(self).find(k) == (if k == key@ {
                    None
                } else {
                    old(self).find(k)
                }),
    {
        let i: usize = self.index_of(key);
        let ghost before = self.entries@;
        proof {
            lemma_position(before, key@, 0);
        }
        if i >= self.entries.len() {
            return None;
        }
        let (_, v) = self.entries.remove(i);
        proof {
            let after = self.entries@;
            assert(after =~= before.remove(i as int));
            assert forall|x: int, y: int| 0 <= x < y < after.len() implies (
            #[trigger] after[x]).0@ != (#[trigger] after[y]).0@ by {
                let a = if x < i { x } else { x + 1 };
                let b = if y < i { y } else { y + 1 };
                assert(after[x] == before[a]);
                assert(after[y] == before[b]);
                assert(before[a].0@ != before[b].0@);
            }
            assert forall|k: Seq<char>| #![trigger self.find(k)] self.find(k) == (if k == key@ {
                None
            } else {
                old(self).find(k)
            }) by {
                lemma_position(before, k, 0);
                lemma_position(after, k, 0);
                let p = position_from(before, k, 0);
                let q = position_from(after, k, 0);
                if k == key@ {
                    if q < after.len() {
                        let a = if q < i { q } else { q + 1 };
                        assert(after[q] == before[a]);
                        if a < i {
                            assert(before[a].0@ != before[i as int].0@);
                        } else {
                            assert(before[i as int].0@ != before[a].0@);
                        }
                    }
                } else {
                    if p < before.len() {
                        assert(p != i);
                        let a = if p < i { p } else { p - 1 };
                        assert(after[a] == before[p]);
                        if q < a {
                            let b = if q < i { q } else { q + 1 };
                            assert(after[q] == before[b]);
                        }
                        assert(q == a);
                    } else if q < after.len() {
                        let b = if q < i { q } else { q + 1 };
                        assert(after[q] == before[b]);
                    }
                }
            }
        }
        Some(v)
    }
}

/// The index of the first entry at or after `from` whose key is `key`, the
/// number of entries when there is none.
pub open spec fn position_from<V>(e: Seq<(String, V)>, key: Seq<char>, from: int) -> int
    decreases e.len() - from,
{
    if from >= e.len() {
        e.len() as int
    } else if e[from].0@ == key {
        from
    } else {
        position_from(e, key, from + 1)
    }
}

pub proof fn lemma_position<V>(e: Seq<(String, V)>, key: Seq<char>, from: int)
    requires
        0 <= from <= e.len(),
    ensures
        from <= position_from(e, key, from) <= e.len(),
        position_from(e, key, from) < e.len() ==> e[position_from(e, key, from)].0@ == key,
        forall|j: int| from <= j < position_from(e, key, from) ==> (#[trigger] e[j]).0@ != key,
    decreases e.len() - from,
{
    if from < e.len() && e[from].0@ != key {
        lemma_position(e, key, from + 1);
    }
}

/// The key of a state event: its type and its state key.
pub type StateKey = (Seq<char>, Seq<char>);

/// Room state as a table from event type and state key to values; every key
/// occurs once.
pub struct StateTable<V> {
    pub entries: Vec<((String, String), V)>,
}

/// The key of an entry.
pub open spec fn key_view(k: (String, String)) -> StateKey {
    (k.0@, k.1@)
}

/// The index of the first entry at or after `from` whose key is `key`, the
/// number of entries when there is none.
pub open spec fn state_position<V>(e: Seq<((String, String), V)>, key: StateKey, from: int) -> int
    decreases e.len() - from,
{
    if from >= e.len() {
        e.len() as int
    } else if key_view(e[from].0) == key {
        from
    } else {
        state_position(e, key, from + 1)
    }
}

pub proof fn lemma_state_position<V>(e: Seq<((String, String), V)>, key: StateKey, from: int)
    requires
        0 <= from <= e.len(),
    ensures
        from <= state_position(e, key, from) <= e.len(),
        state_position(e, key, from) < e.len() ==> key_view(e[state_position(e, key, from)].0)
            == key,
        forall|j: int|
            from <= j < state_position(e, key, from) ==> key_view((#[trigger] e[j]).0) != key,
    decreases e.len() - from,
{
    if from < e.len() && key_view(e[from].0) != key {
        lemma_state_position(e, key, from + 1);
    }
}

impl<V> StateTable<V> {
    pub open spec fn position(self, key: StateKey) -> int {
        state_position(self.entries@, key, 0)
    }

    pub open spec fn has(self, key: StateKey) -> bool {
        self.position(key) < self.entries@.len()
    }

    /// The value of a key.
    pub open spec fn find(self, key: StateKey) -> Option<V> {
        if self.has(key) {
            Some(self.entries@[self.position(key)].1)
        } else {
            None
        }
    }

    /// No key occurs twice.
    pub open spec fn wf(self) -> bool {
        forall|i: int, j: int|
            0 <= i < j < self.entries@.len() ==> key_view((#[trigger] self.entries@[i]).0)
                != key_view((#[trigger] self.entries@[j]).0)
    }

    /// Empty room state.
    pub fn new() -> (r: Self)
        ensures
            r.wf(),
            r.entries@.len() == 0,
            forall|k: StateKey| r.find(k) is None,
    {
        StateTable { entries: Vec::new() }
    }

    pub fn index_of(&self, event_type: &str, state_key: &str) -> (r: usize)
        ensures
            r as int == self.position((event_type@, state_key@)),
            r <= self.entries@.len(),
    {
        let ghost key = (event_type@, state_key@);
        let mut i: usize = 0;
        while i < self.entries.len()
            invariant
                i <= self.entries.len(),
                key == (event_type@, state_key@),
                state_position(self.entries@, key, 0) == state_position(
                    self.entries@,
                    key,
                    i as int,
                ),
            decreases self.entries.len() - i,
        {
            if str_eq(self.entries[i].0.0.as_str(), event_type) && str_eq(
                self.entries[i].0.1.as_str(),
                state_key,
            ) {
                return i;
            }
            i += 1;
        }
        i
    }

    /// The value of a key.
    pub fn get(&self, event_type: &str, state_key: &str) -> (r: Option<&V>)
        ensures
            match r {
                Some(v) => self.find((event_type@, state_key@)) == Some(*v),
                None => self.find((event_type@, state_key@)) is None,
            },
    {
        let i: usize = self.index_of(event_type, state_key);
        if i < self.entries.len() {
            Some(&self.entries[i].1)
        } else {
            None
        }
    }

    pub fn is_empty(&self) -> (r: bool)
        ensures
            r == (self.entries@.len() == 0),
    {
        self.entries.len() == 0
    }

    /// Sets the value of a key; a key that is new goes last.
    pub fn insert(&mut self, event_type: &str, state_key: &str, value: V)
        ensures
            old(self).wf() ==> final(self).wf(),
            forall|k: StateKey|
                #![trigger final(self).find(k)]
                final(self).find(k) == (if k == (event_type@, state_key@) {
                    Some(value)
                } else {
                    old(self).find(k)
                }),
            final(self).entries@.len() == old(self).entries@.len() + (if old(self).has(
                (event_type@, state_key@),
            ) {
                0int
            } else {
                1int
            }),
    {
        let i: usize = self.index_of(event_type, state_key);
        let ghost before = self.entries@;
        let ghost key = (event_type@, state_key@);
        proof {
            lemma_state_position(before, key, 0);
        }
        if i < self.entries.len() {
            let name = (self.entries[i].0.0.clone(), self.entries[i].0.1.clone());
            self.entries.set(i, (name, value));
        } else {
            self.entries.push(((event_type.to_owned(), state_key.to_owned()), value));
        }
        proof {
            assert(key_view(self.entries@[i as int].0) == key);
            assert forall|k: StateKey| #![trigger self.find(k)]
                self.find(k) == (if k == key {
                    Some(value)
                } else {
                    old(self).find(k)
                }) by {
                lemma_state_position(before, k, 0);
                lemma_state_position(self.entries@, k, 0);
                let a = state_position(before, k, 0);
                let b = state_position(self.entries@, k, 0);
                if k == key {
                    if b < i {
                        assert(key_view(self.entries@[b].0) == key_view(before[b].0));
                    }
                    assert(b == i);
                } else {
                    if a < before.len() {
                        assert(key_view(self.entries@[a].0) == key_view(before[a].0));
                    }
                    if b < before.len() {
                        assert(key_view(self.entries@[b].0) == key_view(before[b].0));
                        assert(a == b);
                    }
                }
            }
            if old(self).wf() {
                assert forall|x: int, y: int| 0 <= x < y < self.entries@.len() implies key_view(
                    (#[trigger] self.entries@[x]).0,
                ) != key_view((#[trigger] self.entries@[y]).0) by {
                    assert(key_view(self.entries@[x].0) == key_view(before[x].0));
                    if y < before.len() {
                        assert(key_view(self.entries@[y].0) == key_view(before[y].0));
                    }
                }
            }
        }
    }
}

} // verus!
