//! The tags of a road: a finite mapping from keys to values, both of them strings.

use vstd::prelude::*;

verus! {

/// The key of the tag that marks a road as part of a junction.
pub const JUNCTION: &'static str = "junction";

/// The value that the `JUNCTION` tag has on a road that is part of a junction.
pub const INTERSECTION: &'static str = "intersection";

/// `JUNCTION`, as a sequence of characters.
pub open spec fn junction_key() -> Seq<char> {
    JUNCTION@
}

/// `INTERSECTION`, as a sequence of characters.
pub open spec fn intersection_value() -> Seq<char> {
    INTERSECTION@
}

/// Whether a mapping of tags says that its road is part of a junction.
pub open spec fn tagged_as_junction(tags: Map<Seq<char>, Seq<char>>) -> bool {
    tags.contains_key(junction_key()) && tags[junction_key()] == intersection_value()
}

/// A mapping of tags with the junction tag set.
pub open spec fn with_junction_tag(tags: Map<Seq<char>, Seq<char>>) -> Map<Seq<char>, Seq<char>> {
    tags.insert(junction_key(), intersection_value())
}

/// A finite mapping from keys to values. No key occurs twice.
#[derive(Debug)]
pub struct Tags {
    entries: Vec<(String, String)>,
}

/// Whether the entry at `i` of `entries` has the key `k`.
spec fn key_at(entries: Seq<(String, String)>, i: int, k: Seq<char>) -> bool {
    0 <= i < entries.len() && entries[i].0@ == k
}

/// Whether no key occurs twice in `entries`.
spec fn distinct_keys(entries: Seq<(String, String)>) -> bool {
    forall|i: int, j: int|
        0 <= i < j < entries.len() ==> #[trigger] entries[i].0@ != #[trigger] entries[j].0@
}

/// The mapping that `entries` stands for.
spec fn entries_map(entries: Seq<(String, String)>) -> Map<Seq<char>, Seq<char>> {
    Map::new(
        |k: Seq<char>| exists|i: int| key_at(entries, i, k),
        |k: Seq<char>| entries[choose|i: int| key_at(entries, i, k)].1@,
    )
}

/// Each entry of a list without a repeated key is found in its mapping.
proof fn lemma_entry_in_map(entries: Seq<(String, String)>, i: int)
    requires
        distinct_keys(entries),
        0 <= i < entries.len(),
    ensures
        entries_map(entries).contains_key(entries[i].0@),
        entries_map(entries)[entries[i].0@] == entries[i].1@,
{
    let k = entries[i].0@;
    assert(key_at(entries, i, k));
    let j = choose|j: int| key_at(entries, j, k);
    assert(key_at(entries, j, k));
    if j < i {
        assert(entries[j].0@ != entries[i].0@);
    } else if i < j {
        assert(entries[i].0@ != entries[j].0@);
    }
}

impl View for Tags {
    type V = Map<Seq<char>, Seq<char>>;

    closed spec fn view(&self) -> Map<Seq<char>, Seq<char>> {
        entries_map(self.entries@)
    }
}

impl Tags {
    /// Whether the value is well formed: no key occurs twice among its entries.
    pub closed spec fn wf(&self) -> bool {
        distinct_keys(self.entries@)
    }

    /// The empty mapping.
    pub fn new() -> (tags: Tags)
        ensures
            tags.wf(),
            tags@ == Map::<Seq<char>, Seq<char>>::empty(),
    {
        let tags = Tags { entries: Vec::new() };
        assert(tags@ =~= Map::<Seq<char>, Seq<char>>::empty()) by {
            assert forall|k: Seq<char>| !tags@.contains_key(k) by {
                assert forall|i: int| !key_at(tags.entries@, i, k) by {}
            }
        }
        tags
    }

    /// The position of key `k` among the entries, if it is there.
    fn position(&self, k: &String) -> (at: Option<usize>)
        ensures
            match at {
                Some(i) => key_at(self.entries@, i as int, k@),
                None => !self@.contains_key(k@),
            },
    {
        let mut i: usize = 0;
        while i < self.entries.len()
            invariant
                i <= self.entries.len(),
                forall|j: int| 0 <= j < i ==> !key_at(self.entries@, j, k@),
            decreases self.entries.len() - i,
        {
            if self.entries[i].0 == *k {
                return Some(i);
            }
            i += 1;
        }
        None
    }

    /// Whether key `k` has a value.
    pub fn contains_key(&self, k: &str) -> (b: bool)
        requires
            self.wf(),
        ensures
            b == self@.contains_key(k@),
    {
        let key = k.to_owned();
        match self.position(&key) {
            Some(i) => {
                proof {
                    lemma_entry_in_map(self.entries@, i as int);
                }
                true
            },
            None => false,
        }
    }

    /// The value of key `k`, if it has one.
    pub fn get(&self, k: &str) -> (value: Option<&String>)
        requires
            self.wf(),
        ensures
            match value {
                Some(v) => self@.contains_key(k@) && self@[k@] == v@,
                None => !self@.contains_key(k@),
            },
    {
        let key = k.to_owned();
        match self.position(&key) {
            Some(i) => {
                proof {
                    lemma_entry_in_map(self.entries@, i as int);
                }
                Some(&self.entries[i].1)
            },
            None => None,
        }
    }

    /// Whether key `k` has the value `v`.
    pub fn is(&self, k: &str, v: &str) -> (b: bool)
        requires
            self.wf(),
        ensures
            b == (self@.contains_key(k@) && self@[k@] == v@),
    {
        let value = v.to_owned();
        match self.get(k) {
            Some(found) => *found == value,
            None => false,
        }
    }

    /// Whether these tags say that the road is part of a junction.
    pub fn is_junction(&self) -> (b: bool)
        requires
            self.wf(),
        ensures
            b == tagged_as_junction(self@),
    {
        self.is(JUNCTION, INTERSECTION)
    }

    /// The number of keys.
    pub fn len(&self) -> (n: usize)
        requires
            self.wf(),
        ensures
            n == self@.len(),
            self@.dom().finite(),
    {
        proof {
            lemma_entries_map_len(self.entries@);
        }
        self.entries.len()
    }

    /// Gives key `k` the value `v`, whether or not it had a value before.
    pub fn insert(&mut self, k: &str, v: &str)
        requires
            old(self).wf(),
        ensures
            final(self).wf(),
            final(self)@ == old(self)@.insert(k@, v@),
    {
        let key = k.to_owned();
        let value = v.to_owned();
        let ghost before = self.entries@;
        match self.position(&key) {
            Some(i) => {
                self.entries.set(i, (key, value));
                proof {
                    let after = self.entries@;
                    assert(distinct_keys(after)) by {
                        assert forall|a: int, b: int| 0 <= a < b < after.len() implies
                            #[trigger] after[a].0@ != #[trigger] after[b].0@ by {
                            assert(after[a].0@ == before[a].0@);
                            assert(after[b].0@ == before[b].0@);
                        }
                    }
                    assert forall|q: Seq<char>| #[trigger]
                        entries_map(after).contains_key(q) == entries_map(before).insert(
                            k@,
                            v@,
                        ).contains_key(q) by {
                        if entries_map(after).contains_key(q) {
                            let j = choose|j: int| key_at(after, j, q);
                            assert(key_at(before, j, q));
                        }
                        if entries_map(before).insert(k@, v@).contains_key(q) {
                            if q == k@ {
                                assert(key_at(after, i as int, q));
                            } else {
                                let j = choose|j: int| key_at(before, j, q);
                                assert(key_at(after, j, q));
                            }
                        }
                    }
                    assert forall|q: Seq<char>| entries_map(after).contains_key(q) implies
                        #[trigger] entries_map(after)[q] == entries_map(before).insert(k@, v@)[q] by {
                        let j = choose|j: int| key_at(after, j, q);
                        lemma_entry_in_map(after, j);
                        if j != i {
                            assert(key_at(before, j, q));
                            lemma_entry_in_map(before, j);
                        }
                    }
                    assert(entries_map(after) =~= entries_map(before).insert(k@, v@));
                }
            },
            None => {
                self.entries.push((key, value));
                proof {
                    let after = self.entries@;
                    let n = before.len() as int;
                    assert(distinct_keys(after)) by {
                        assert forall|a: int, b: int| 0 <= a < b < after.len() implies
                            #[trigger] after[a].0@ != #[trigger] after[b].0@ by {
                            if b == n {
                                assert(!key_at(before, a, k@)) by {
                                    if key_at(before, a, k@) {
                                        assert(entries_map(before).contains_key(k@));
                                    }
                                }
                                assert(after[a] == before[a]);
                            } else {
                                assert(after[a] == before[a]);
                                assert(after[b] == before[b]);
                            }
                        }
                    }
                    assert forall|q: Seq<char>| #[trigger]
                        entries_map(after).contains_key(q) == entries_map(before).insert(
                            k@,
                            v@,
                        ).contains_key(q) by {
                        if entries_map(after).contains_key(q) {
                            let j = choose|j: int| key_at(after, j, q);
                            if j != n {
                                assert(key_at(before, j, q));
                            }
                        }
                        if entries_map(before).insert(k@, v@).contains_key(q) {
                            if q == k@ {
                                assert(key_at(after, n, q));
                            } else {
                                let j = choose|j: int| key_at(before, j, q);
                                assert(after[j] == before[j]);
                                assert(key_at(after, j, q));
                            }
                        }
                    }
                    assert forall|q: Seq<char>| entries_map(after).contains_key(q) implies
                        #[trigger] entries_map(after)[q] == entries_map(before).insert(k@, v@)[q] by {
                        let j = choose|j: int| key_at(after, j, q);
                        lemma_entry_in_map(after, j);
                        if j != n {
                            assert(after[j] == before[j]);
                            assert(key_at(before, j, q));
                            lemma_entry_in_map(before, j);
                        }
                    }
                    assert(entries_map(after) =~= entries_map(before).insert(k@, v@));
                }
            },
        }
    }

    /// A copy of these tags.
    pub fn duplicate(&self) -> (tags: Tags)
        requires
            self.wf(),
        ensures
            tags.wf(),
            tags@ == self@,
    {
        let mut entries: Vec<(String, String)> = Vec::new();
        let mut i: usize = 0;
        while i < self.entries.len()
            invariant
                i <= self.entries.len(),
                entries.len() == i,
                forall|j: int|
                    0 <= j < i ==> (#[trigger] entries@[j]).0@ == self.entries@[j].0@
                        && entries@[j].1@ == self.entries@[j].1@,
            decreases self.entries.len() - i,
        {
            let key = self.entries[i].0.clone();
            let value = self.entries[i].1.clone();
            entries.push((key, value));
            i += 1;
        }
        proof {
            lemma_same_pairs_same_map(entries@, self.entries@);
        }
        Tags { entries }
    }
}

/// Two lists that agree entry by entry in what their strings hold, the second without a
/// repeated key: neither has the first one, and both stand for one mapping.
proof fn lemma_same_pairs_same_map(a: Seq<(String, String)>, b: Seq<(String, String)>)
    requires
        a.len() == b.len(),
        distinct_keys(b),
        forall|j: int|
            0 <= j < a.len() ==> (#[trigger] a[j]).0@ == b[j].0@ && a[j].1@ == b[j].1@,
    ensures
        distinct_keys(a),
        entries_map(a) == entries_map(b),
{
    assert forall|i: int, j: int| 0 <= i < j < a.len() implies #[trigger] a[i].0@
        != #[trigger] a[j].0@ by {
        assert(b[i].0@ != b[j].0@);
    }
    assert forall|q: Seq<char>| #[trigger]
        entries_map(a).contains_key(q) == entries_map(b).contains_key(q) by {
        if entries_map(a).contains_key(q) {
            let j = choose|j: int| key_at(a, j, q);
            assert(key_at(b, j, q));
        }
        if entries_map(b).contains_key(q) {
            let j = choose|j: int| key_at(b, j, q);
            assert(a[j].0@ == b[j].0@);
            assert(key_at(a, j, q));
        }
    }
    assert forall|q: Seq<char>| entries_map(a).contains_key(q) implies #[trigger] entries_map(
        a,
    )[q] == entries_map(b)[q] by {
        let j = choose|j: int| key_at(a, j, q);
        assert(key_at(b, j, q));
        lemma_entry_in_map(a, j);
        lemma_entry_in_map(b, j);
    }
    assert(entries_map(a) =~= entries_map(b));
}

/// A list without a repeated key stands for a mapping of as many keys as it has entries.
proof fn lemma_entries_map_len(entries: Seq<(String, String)>)
    requires
        distinct_keys(entries),
    ensures
        entries_map(entries).dom().finite(),
        entries_map(entries).len() == entries.len(),
    decreases entries.len(),
{
    if entries.len() == 0 {
        assert(entries_map(entries).dom() =~= Set::<Seq<char>>::empty()) by {
            assert forall|k: Seq<char>| !entries_map(entries).dom().contains(k) by {
                assert forall|i: int| !key_at(entries, i, k) by {}
            }
        }
    } else {
        let front = entries.drop_last();
        let last = entries.last();
        assert(distinct_keys(front)) by {
            assert forall|i: int, j: int| 0 <= i < j < front.len() implies #[trigger] front[i].0@
                != #[trigger] front[j].0@ by {
                assert(entries[i].0@ != entries[j].0@);
            }
        }
        lemma_entries_map_len(front);
        let n = front.len() as int;
        assert(!entries_map(front).dom().contains(last.0@)) by {
            if entries_map(front).dom().contains(last.0@) {
                let j = choose|j: int| key_at(front, j, last.0@);
                assert(entries[j].0@ != entries[n].0@);
            }
        }
        assert(entries_map(entries).dom() =~= entries_map(front).dom().insert(last.0@)) by {
            assert forall|k: Seq<char>| #[trigger]
                entries_map(entries).dom().contains(k) == entries_map(front).dom().insert(
                    last.0@,
                ).contains(k) by {
                if entries_map(entries).dom().contains(k) {
                    let j = choose|j: int| key_at(entries, j, k);
                    if j != n {
                        assert(key_at(front, j, k));
                    }
                }
                if entries_map(front).dom().contains(k) {
                    let j = choose|j: int| key_at(front, j, k);
                    assert(key_at(entries, j, k));
                }
                if k == last.0@ {
                    assert(key_at(entries, n, k));
                }
            }
        }
    }
}

} // verus!
