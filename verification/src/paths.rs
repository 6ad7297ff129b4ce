//! The mapping from request paths to backends.

use crate::address::SocketAddress;
use crate::text::{chars_of, same};
use vstd::prelude::*;

verus! {

/// Entries as the specification sees them.
pub open spec fn pairs_view(entries: Seq<(String, SocketAddress)>) -> Seq<
    (Seq<char>, SocketAddress),
> {
    Seq::new(entries.len(), |i: int| (entries[i].0@, entries[i].1))
}

/// Some entry is for `key`.
pub open spec fn has_key(entries: Seq<(Seq<char>, SocketAddress)>, key: Seq<char>) -> bool {
    exists|i: int| 0 <= i < entries.len() && (#[trigger] entries[i]).0 == key
}

/// No two entries are for the same path.
pub open spec fn distinct_keys(entries: Seq<(Seq<char>, SocketAddress)>) -> bool {
    forall|i: int, j: int|
        0 <= i < j < entries.len() ==> (#[trigger] entries[i]).0 != (#[trigger] entries[j]).0
}

/// The place of an entry for `key`.
pub open spec fn place(entries: Seq<(Seq<char>, SocketAddress)>, key: Seq<char>) -> int {
    choose|i: int| 0 <= i < entries.len() && (#[trigger] entries[i]).0 == key
}

/// The mapping that a list of entries stands for.
pub open spec fn mapping(entries: Seq<(Seq<char>, SocketAddress)>) -> Map<
    Seq<char>,
    SocketAddress,
> {
    Map::new(|key: Seq<char>| has_key(entries, key), |key: Seq<char>| entries[place(entries, key)].1)
}

/// In a list without repeated paths, each entry is what the mapping holds
/// for its path.
pub proof fn lemma_mapping_entry(entries: Seq<(Seq<char>, SocketAddress)>, i: int)
    requires
        distinct_keys(entries),
        0 <= i < entries.len(),
    ensures
        mapping(entries).contains_key(entries[i].0),
        mapping(entries)[entries[i].0] == entries[i].1,
{
    let key = entries[i].0;
    assert(has_key(entries, key));
    let j = place(entries, key);
    assert(0 <= j < entries.len() && entries[j].0 == key);
    if j < i {
        assert(entries[j].0 != entries[i].0);
    } else if i < j {
        assert(entries[i].0 != entries[j].0);
    }
}

/// Adding an entry for a path that has none maps that path, and leaves the
/// rest as it was.
pub proof fn lemma_mapping_push(
    entries: Seq<(Seq<char>, SocketAddress)>,
    key: Seq<char>,
    value: SocketAddress,
)
    requires
        distinct_keys(entries),
        !has_key(entries, key),
    ensures
        distinct_keys(entries.push((key, value))),
        mapping(entries.push((key, value))) == mapping(entries).insert(key, value),
{
    let more = entries.push((key, value));
    assert forall|i: int, j: int| 0 <= i < j < more.len() implies (#[trigger] more[i]).0 != (
    #[trigger] more[j]).0 by {
        if j < entries.len() {
            assert(entries[i].0 != entries[j].0);
        } else {
            assert(entries[i].0 != key);
        }
    }
    assert forall|k: Seq<char>| has_key(more, k) <==> (k == key || has_key(entries, k)) by {
        if has_key(more, k) {
            let i = place(more, k);
            if i < entries.len() {
                assert(entries[i].0 == k);
            }
        }
        if k == key {
            assert(more[entries.len() as int].0 == k);
        }
        if has_key(entries, k) {
            let i = place(entries, k);
            assert(more[i].0 == k);
        }
    }
    assert forall|k: Seq<char>| has_key(more, k) implies #[trigger] mapping(more)[k] == mapping(
        entries,
    ).insert(key, value)[k] by {
        let i = place(more, k);
        lemma_mapping_entry(more, i);
        if i < entries.len() {
            assert(entries[i] == more[i]);
            lemma_mapping_entry(entries, i);
        }
    }
    assert(mapping(more) =~= mapping(entries).insert(key, value));
}

/// Replacing the entry for a path maps that path anew, and leaves the rest
/// as it was.
pub proof fn lemma_mapping_update(
    entries: Seq<(Seq<char>, SocketAddress)>,
    i: int,
    value: SocketAddress,
)
    requires
        distinct_keys(entries),
        0 <= i < entries.len(),
    ensures
        distinct_keys(entries.update(i, (entries[i].0, value))),
        mapping(entries.update(i, (entries[i].0, value))) == mapping(entries).insert(
            entries[i].0,
            value,
        ),
{
    let key = entries[i].0;
    let other = entries.update(i, (key, value));
    assert forall|a: int, b: int| 0 <= a < b < other.len() implies (#[trigger] other[a]).0 != (
    #[trigger] other[b]).0 by {
        assert(entries[a].0 != entries[b].0);
    }
    assert forall|k: Seq<char>| has_key(other, k) <==> has_key(entries, k) by {
        if has_key(other, k) {
            let j = place(other, k);
            assert(entries[j].0 == k);
        }
        if has_key(entries, k) {
            let j = place(entries, k);
            assert(other[j].0 == k);
        }
    }
    assert(has_key(entries, key));
    assert forall|k: Seq<char>| has_key(other, k) implies #[trigger] mapping(other)[k] == mapping(
        entries,
    ).insert(key, value)[k] by {
        let j = place(other, k);
        lemma_mapping_entry(other, j);
        if j != i {
            assert(entries[j] == other[j]);
            lemma_mapping_entry(entries, j);
        }
    }
    assert(mapping(other) =~= mapping(entries).insert(key, value));
}

/// Decides whether two strings hold the same characters.
pub fn same_text(a: &str, b: &str) -> (r: bool)
    ensures
        r == (a@ == b@),
{
    same(chars_of(a).as_slice(), chars_of(b).as_slice())
}

/// A mapping from request paths to backend addresses, each path mapped at
/// most once.
#[derive(Debug)]
pub struct PathMap {
    entries: Vec<(String, SocketAddress)>,
}

impl View for PathMap {
    type V = Map<Seq<char>, SocketAddress>;

    closed spec fn view(&self) -> Map<Seq<char>, SocketAddress> {
        mapping(pairs_view(self.entries@))
    }
}

impl PathMap {
    #[verifier::type_invariant]
    spec fn distinct(self) -> bool {
        distinct_keys(pairs_view(self.entries@))
    }

    /// The mapping that maps no path.
    pub fn new() -> (m: PathMap)
        ensures
            m@ == Map::<Seq<char>, SocketAddress>::empty(),
    {
        let m = PathMap { entries: Vec::new() };
        assert(m@ =~= Map::<Seq<char>, SocketAddress>::empty());
        m
    }

    /// Finds the entry for `key`.
    fn find(&self, key: &str) -> (r: Option<usize>)
        ensures
            match r {
                Some(i) => i < self.entries.len() && self.entries[i as int].0@ == key@,
                None => !has_key(pairs_view(self.entries@), key@),
            },
    {
        let mut i: usize = 0;
        while i < self.entries.len()
            invariant
                i <= self.entries.len(),
                forall|j: int| 0 <= j < i ==> (#[trigger] pairs_view(self.entries@)[j]).0 != key@,
            decreases self.entries.len() - i,
        {
            if same_text(self.entries[i].0.as_str(), key) {
                return Some(i);
            }
            assert(pairs_view(self.entries@)[i as int].0 != key@);
            i += 1;
        }
        None
    }

    /// Whether no path is mapped.
    pub fn is_empty(&self) -> (b: bool)
        ensures
            b == (self@ == Map::<Seq<char>, SocketAddress>::empty()),
    {
        proof {
            if self.entries.len() > 0 {
                assert(has_key(pairs_view(self.entries@), pairs_view(self.entries@)[0].0));
                assert(self@.contains_key(self.entries[0].0@));
            } else {
                assert(self@ =~= Map::<Seq<char>, SocketAddress>::empty());
            }
        }
        self.entries.len() == 0
    }

    /// Whether `key` is mapped.
    pub fn contains_key(&self, key: &str) -> (b: bool)
        ensures
            b == self@.contains_key(key@),
    {
        match self.find(key) {
            Some(i) => {
                assert(pairs_view(self.entries@)[i as int].0 == key@);
                true
            },
            None => false,
        }
    }

    /// The backend that `key` is mapped to, if it is mapped: by equality of
    /// the whole path, and by nothing else.
    pub fn get(&self, key: &str) -> (r: Option<SocketAddress>)
        ensures
            r == if self@.contains_key(key@) {
                Some(self@[key@])
            } else {
                None
            },
    {
        proof {
            use_type_invariant(self);
        }
        match self.find(key) {
            Some(i) => {
                proof {
                    lemma_mapping_entry(pairs_view(self.entries@), i as int);
                }
                Some(self.entries[i].1)
            },
            None => None,
        }
    }

    /// Maps `key` to `value`, in place of what it was mapped to.
    pub fn insert(self, key: String, value: SocketAddress) -> (m: PathMap)
        ensures
            m@ == self@.insert(key@, value),
    {
        proof {
            use_type_invariant(&self);
        }
        let found = self.find(key.as_str());
        let ghost before = pairs_view(self.entries@);
        let mut entries = self.entries;
        match found {
            Some(i) => {
                proof {
                    lemma_mapping_update(before, i as int, value);
                }
                entries.set(i, (key, value));
                assert(pairs_view(entries@) =~= before.update(i as int, (before[i as int].0, value)));
            },
            None => {
                proof {
                    lemma_mapping_push(before, key@, value);
                }
                entries.push((key, value));
                assert(pairs_view(entries@) =~= before.push((key@, value)));
            },
        }
        PathMap { entries }
    }

    /// The entries: one for each mapped path, and no path twice.
    pub fn entries(&self) -> (r: Vec<(String, SocketAddress)>)
        ensures
            distinct_keys(pairs_view(r@)),
            mapping(pairs_view(r@)) == self@,
    {
        proof {
            use_type_invariant(self);
        }
        let mut r: Vec<(String, SocketAddress)> = Vec::new();
        let mut i: usize = 0;
        while i < self.entries.len()
            invariant
                i <= self.entries.len(),
                r.len() == i,
                forall|j: int|
                    0 <= j < i ==> (#[trigger] r[j]).0@ == self.entries[j].0@ && r[j].1
                        == self.entries[j].1,
            decreases self.entries.len() - i,
        {
            r.push((self.entries[i].0.clone(), self.entries[i].1));
            i += 1;
        }
        assert(pairs_view(r@) =~= pairs_view(self.entries@));
        r
    }
}

impl Clone for PathMap {
    fn clone(&self) -> (m: PathMap)
        ensures
            m@ == self@,
    {
        proof {
            use_type_invariant(self);
        }
        let entries = self.entries();
        PathMap { entries }
    }
}

} // verus!
