//! Tables keyed by server name, on top of a concurrent hash map.

use dashmap::DashMap;
use vstd::prelude::*;
use vstd::string::*;

verus! {

#[verifier::external_type_specification]
#[verifier::external_body]
#[verifier::reject_recursive_types(K)]
#[verifier::reject_recursive_types(V)]
#[verifier::reject_recursive_types(S)]
pub struct ExDashMap<K, V, S>(DashMap<K, V, S>);

/// The entries of a map from server names to slots.
pub uninterp spec fn slots(m: DashMap<String, usize>) -> Map<Seq<char>, usize>;

/// `DashMap::new`: a map without entries.
#[verifier::external_body]
pub(crate) fn new_slots() -> (r: DashMap<String, usize>)
    ensures
        forall|k: Seq<char>| !slots(r).dom().contains(k),
{
    DashMap::new()
}

/// `DashMap::get`: the value under a key, if there is one.
#[verifier::external_body]
pub(crate) fn slot_of(m: &DashMap<String, usize>, key: &str) -> (r: Option<usize>)
    ensures
        r == (if slots(*m).dom().contains(key@) {
            Some(slots(*m)[key@])
        } else {
            None
        }),
{
    m.get(key).map(|e| *e.value())
}

/// `DashMap::insert`: puts a value under a key, in place of the one that was
/// there. The exclusive borrow rules out that another thread changes the map
/// meanwhile.
#[verifier::external_body]
pub(crate) fn set_slot(m: &mut DashMap<String, usize>, key: &str, slot: usize)
    ensures
        slots(*final(m)) == slots(*old(m)).insert(key@, slot),
{
    m.insert(key.to_owned(), slot);
}

/// Whether a set has that many elements.
pub open spec fn has_size(s: Set<Seq<char>>, n: usize) -> bool {
    s.finite() && s.len() == n
}

/// `DashMap::len`: how many entries a map has.
#[verifier::external_body]
pub(crate) fn slot_count(m: &DashMap<String, usize>) -> (r: usize)
    ensures
        has_size(slots(*m).dom(), r),
{
    m.len()
}

/// A table from server names to values. The values lie in a list; the hash map
/// says where.
pub struct ServerMap<V> {
    index: DashMap<String, usize>,
    values: Vec<Option<V>>,
}

impl<V> ServerMap<V> {
    /// Every slot that the hash map names exists, and no two names share one.
    pub closed spec fn wf(self) -> bool {
        &&& forall|k: Seq<char>| #[trigger]
            slots(self.index).dom().contains(k) ==> slots(self.index)[k] < self.values@.len()
        &&& forall|a: Seq<char>, b: Seq<char>|
            slots(self.index).dom().contains(a) && slots(self.index).dom().contains(b)
                && #[trigger] slots(self.index)[a] == #[trigger] slots(self.index)[b] ==> a == b
    }

    /// The value under a name.
    pub closed spec fn find(self, name: Seq<char>) -> Option<V> {
        if slots(self.index).dom().contains(name) {
            self.values@[slots(self.index)[name] as int]
        } else {
            None
        }
    }

    /// A table without entries.
    pub fn new() -> (r: Self)
        ensures
            r.wf(),
            forall|k: Seq<char>| #[trigger] r.find(k) is None,
    {
        ServerMap { index: new_slots(), values: Vec::new() }
    }

    /// The value under a name.
    pub fn get(&self, name: &str) -> (r: Option<&V>)
        requires
            self.wf(),
        ensures
            match r {
                Some(v) => self.find(name@) == Some(*v),
                None => self.find(name@) is None,
            },
    {
        match slot_of(&self.index, name) {
            Some(i) => self.values[i].as_ref(),
            None => None,
        }
    }

    fn put(&mut self, name: &str, value: Option<V>)
        requires
            old(self).wf(),
        ensures
            final(self).wf(),
            forall|k: Seq<char>| #[trigger]
                final(self).find(k) == (if k == name@ {
                    value
                } else {
                    old(self).find(k)
                }),
    {
        match slot_of(&self.index, name) {
            Some(i) => {
                self.values.set(i, value);
            },
            None => {
                let i: usize = self.values.len();
                self.values.push(value);
                set_slot(&mut self.index, name, i);
            },
        }
    }

    /// Puts a value under a name, in place of the one that was there.
    pub fn insert(&mut self, name: &str, value: V)
        requires
            old(self).wf(),
        ensures
            final(self).wf(),
            forall|k: Seq<char>| #[trigger]
                final(self).find(k) == (if k == name@ {
                    Some(value)
                } else {
                    old(self).find(k)
                }),
    {
        self.put(name, Some(value));
    }

    /// Removes the value under a name and hands it out.
    pub fn take(&mut self, name: &str) -> (r: Option<V>)
        requires
            old(self).wf(),
        ensures
            final(self).wf(),
            r == old(self).find(name@),
            forall|k: Seq<char>| #[trigger]
                final(self).find(k) == (if k == name@ {
                    None
                } else {
                    old(self).find(k)
                }),
    {
        match slot_of(&self.index, name) {
            Some(i) => {
                let ghost before = self.values@;
                self.values.push(None);
                let v = self.values.swap_remove(i);
                proof {
                    assert(self.values@ =~= before.update(i as int, None));
                }
                v
            },
            None => None,
        }
    }

    /// Removes the value under a name.
    pub fn remove(&mut self, name: &str)
        requires
            old(self).wf(),
        ensures
            final(self).wf(),
            forall|k: Seq<char>| #[trigger]
                final(self).find(k) == (if k == name@ {
                    None
                } else {
                    old(self).find(k)
                }),
    {
        self.put(name, None);
    }
}

} // verus!
