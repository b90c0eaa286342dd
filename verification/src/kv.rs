//! An insertion-ordered string map used for record metadata.

use vstd::prelude::*;

verus! {

/// True when no key occurs twice in `entries`.
pub open spec fn distinct_keys(entries: Seq<(Seq<char>, Seq<char>)>) -> bool {
    forall|i: int, j: int|
        0 <= i < entries.len() && 0 <= j < entries.len() && i != j
            ==> #[trigger] entries[i].0 != #[trigger] entries[j].0
}

/// The abstract value of a `(String, String)` list: its character sequences.
pub open spec fn pairs_view(v: Seq<(String, String)>) -> Seq<(Seq<char>, Seq<char>)> {
    v.map_values(|p: (String, String)| (p.0@, p.1@))
}

/// The entries after inserting `(k, v)`: an existing entry for `k` is replaced
/// in place, otherwise the pair is appended.
pub open spec fn spec_insert(
    entries: Seq<(Seq<char>, Seq<char>)>,
    k: Seq<char>,
    v: Seq<char>,
) -> Seq<(Seq<char>, Seq<char>)> {
    if exists|i: int| 0 <= i < entries.len() && #[trigger] entries[i].0 == k {
        let i = choose|i: int| 0 <= i < entries.len() && #[trigger] entries[i].0 == k;
        entries.update(i, (k, v))
    } else {
        entries.push((k, v))
    }
}

/// The value stored for `k`, if any.
pub open spec fn spec_lookup(entries: Seq<(Seq<char>, Seq<char>)>, k: Seq<char>) -> Option<Seq<char>> {
    if exists|i: int| 0 <= i < entries.len() && #[trigger] entries[i].0 == k {
        let i = choose|i: int| 0 <= i < entries.len() && #[trigger] entries[i].0 == k;
        Some(entries[i].1)
    } else {
        None
    }
}

/// A map from strings to strings that keeps its keys distinct and remembers
/// the order in which keys were first inserted.
#[derive(Debug, Clone)]
pub struct StringMap {
    entries: Vec<(String, String)>,
}

impl View for StringMap {
    type V = Seq<(Seq<char>, Seq<char>)>;

    closed spec fn view(&self) -> Self::V {
        pairs_view(self.entries@)
    }
}

impl StringMap {
    /// No key occurs twice.
    pub open spec fn well_formed(&self) -> bool {
        distinct_keys(self@)
    }

    /// Create an empty map.
    pub fn new() -> (r: StringMap)
        ensures
            r@ == Seq::<(Seq<char>, Seq<char>)>::empty(),
            r.well_formed(),
    {
        let r = StringMap { entries: Vec::new() };
        assert(r@ =~= Seq::<(Seq<char>, Seq<char>)>::empty());
        r
    }

    /// Number of entries.
    pub fn len(&self) -> (r: usize)
        ensures
            r == self@.len(),
    {
        self.entries.len()
    }

    /// The key/value pairs in insertion order.
    pub fn entries(&self) -> (r: &Vec<(String, String)>)
        ensures
            pairs_view(r@) == self@,
    {
        &self.entries
    }

    /// Position of `key`, if present.
    fn position(&self, key: &String) -> (r: Option<usize>)
        ensures
            match r {
                Some(i) => i < self@.len() && self@[i as int].0 == key@,
                None => forall|i: int| 0 <= i < self@.len() ==> #[trigger] self@[i].0 != key@,
            },
    {
        let mut i: usize = 0;
        while i < self.entries.len()
            invariant
                i <= self.entries.len(),
                self@ == pairs_view(self.entries@),
                forall|j: int| 0 <= j < i ==> #[trigger] self@[j].0 != key@,
            decreases self.entries.len() - i,
        {
            if self.entries[i].0 == *key {
                return Some(i);
            }
            i += 1;
        }
        None
    }

    /// Insert or replace the value for `key`.
    pub fn insert(&mut self, key: String, value: String)
        requires
            old(self).well_formed(),
        ensures
            final(self).well_formed(),
            final(self)@ == spec_insert(old(self)@, key@, value@),
    {
        let ghost k = key@;
        let ghost v = value@;
        match self.position(&key) {
            Some(i) => {
                let ghost old_view = self@;
                self.entries.set(i, (key, value));
                proof {
                    let w = choose|j: int| 0 <= j < old_view.len() && #[trigger] old_view[j].0 == k;
                    assert(old_view[i as int].0 == k);
                    if w != i {
                        assert(old_view[w].0 == old_view[i as int].0);
                    }
                    assert(self@ =~= old_view.update(i as int, (k, v)));
                }
            },
            None => {
                let ghost old_view = self@;
                self.entries.push((key, value));
                assert(self@ =~= old_view.push((k, v)));
            },
        }
    }

    /// A copy of the map with the same entries in the same order.
    pub fn copy(&self) -> (r: StringMap)
        ensures
            r@ == self@,
            r.well_formed() == self.well_formed(),
    {
        let mut entries: Vec<(String, String)> = Vec::new();
        let mut i: usize = 0;
        while i < self.entries.len()
            invariant
                i <= self.entries@.len(),
                entries@ == self.entries@.take(i as int),
            decreases self.entries@.len() - i,
        {
            let k = self.entries[i].0.clone();
            let v = self.entries[i].1.clone();
            entries.push((k, v));
            assert(entries@ =~= self.entries@.take(i + 1));
            i += 1;
        }
        assert(entries@ =~= self.entries@);
        StringMap { entries }
    }

    /// Look up the value stored for `key`.
    pub fn get(&self, key: &String) -> (r: Option<&String>)
        requires
            self.well_formed(),
        ensures
            match r {
                Some(v) => spec_lookup(self@, key@) == Some(v@),
                None => spec_lookup(self@, key@) is None,
            },
    {
        match self.position(key) {
            Some(i) => {
                proof {
                    let w = choose|j: int| 0 <= j < self@.len() && #[trigger] self@[j].0 == key@;
                    assert(self@[i as int].0 == key@);
                    if w != i as int {
                        assert(self@[w].0 == self@[i as int].0);
                    }
                }
                Some(&self.entries[i].1)
            },
            None => None,
        }
    }
}

/// Looking up a key right after inserting it gives back the inserted value,
/// and inserting never disturbs the values of other keys.
pub proof fn lemma_lookup_after_insert(
    entries: Seq<(Seq<char>, Seq<char>)>,
    k: Seq<char>,
    v: Seq<char>,
    other: Seq<char>,
)
    requires
        distinct_keys(entries),
    ensures
        spec_lookup(spec_insert(entries, k, v), k) == Some(v),
        other != k ==> spec_lookup(spec_insert(entries, k, v), other) == spec_lookup(entries, other),
        distinct_keys(spec_insert(entries, k, v)),
{
    let e2 = spec_insert(entries, k, v);
    if exists|i: int| 0 <= i < entries.len() && #[trigger] entries[i].0 == k {
        let i = choose|i: int| 0 <= i < entries.len() && #[trigger] entries[i].0 == k;
        assert(e2 == entries.update(i, (k, v)));
        assert(e2[i].0 == k);
        let w = choose|j: int| 0 <= j < e2.len() && #[trigger] e2[j].0 == k;
        if w != i {
            assert(e2[w].0 == e2[i].0);
        }
        if other != k {
            if exists|j: int| 0 <= j < entries.len() && #[trigger] entries[j].0 == other {
                let j = choose|j: int| 0 <= j < entries.len() && #[trigger] entries[j].0 == other;
                assert(e2[j].0 == other);
                let w2 = choose|j2: int| 0 <= j2 < e2.len() && #[trigger] e2[j2].0 == other;
                if w2 != j {
                    assert(e2[w2].0 == e2[j].0);
                }
            } else {
                assert forall|j: int| 0 <= j < e2.len() implies #[trigger] e2[j].0 != other by {
                    if j != i {
                        assert(e2[j] == entries[j]);
                    }
                }
            }
        }
        assert forall|a: int, b: int|
            0 <= a < e2.len() && 0 <= b < e2.len() && a != b implies #[trigger] e2[a].0 != #[trigger] e2[b].0 by {
            if a == i {
                assert(entries[b].0 != entries[i].0);
            } else if b == i {
                assert(entries[a].0 != entries[i].0);
            } else {
                assert(entries[a].0 != entries[b].0);
            }
        }
    } else {
        assert(e2 == entries.push((k, v)));
        let n = entries.len() as int;
        assert(e2[n].0 == k);
        let w = choose|j: int| 0 <= j < e2.len() && #[trigger] e2[j].0 == k;
        if w != n {
            assert(e2[w] == entries[w]);
        }
        if other != k {
            if exists|j: int| 0 <= j < entries.len() && #[trigger] entries[j].0 == other {
                let j = choose|j: int| 0 <= j < entries.len() && #[trigger] entries[j].0 == other;
                assert(e2[j].0 == other);
                let w2 = choose|j2: int| 0 <= j2 < e2.len() && #[trigger] e2[j2].0 == other;
                if w2 != j {
                    assert(e2[w2].0 == e2[j].0);
                    if w2 != n {
                        assert(e2[w2] == entries[w2]);
                    }
                }
            } else {
                assert forall|j: int| 0 <= j < e2.len() implies #[trigger] e2[j].0 != other by {
                    if j != n {
                        assert(e2[j] == entries[j]);
                    }
                }
            }
        }
        assert forall|a: int, b: int|
            0 <= a < e2.len() && 0 <= b < e2.len() && a != b implies #[trigger] e2[a].0 != #[trigger] e2[b].0 by {
            if a == n {
                assert(e2[b] == entries[b]);
            } else if b == n {
                assert(e2[a] == entries[a]);
            } else {
                assert(e2[a] == entries[a]);
                assert(e2[b] == entries[b]);
            }
        }
    }
}

} // verus!
