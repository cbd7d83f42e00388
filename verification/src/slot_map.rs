//! The slot requirement map: a finite mapping from character identifiers to
//! the slot count each character requires.

use vstd::prelude::*;

verus! {

/// True when no two entries of `s` carry the same name.
pub open spec fn seq_names_unique(s: Seq<(String, u8)>) -> bool {
    forall|i: int, j: int| 0 <= i < j < s.len() ==> s[i].0@ != s[j].0@
}

/// True when some entry of `s` carries the name `k`.
pub open spec fn seq_has_name(s: Seq<(String, u8)>, k: Seq<char>) -> bool {
    exists|i: int| 0 <= i < s.len() && s[i].0@ == k
}

/// An index of `s` whose entry carries the name `k`, if one exists.
pub open spec fn seq_name_index(s: Seq<(String, u8)>, k: Seq<char>) -> int {
    choose|i: int| 0 <= i < s.len() && s[i].0@ == k
}

proof fn lemma_name_index(s: Seq<(String, u8)>, k: Seq<char>, i: int)
    requires
        seq_names_unique(s),
        0 <= i < s.len(),
        s[i].0@ == k,
    ensures
        seq_has_name(s, k),
        seq_name_index(s, k) == i,
{
    assert(seq_has_name(s, k));
    let j = seq_name_index(s, k);
    if i < j {
        assert(s[i].0@ != s[j].0@);
    } else if j < i {
        assert(s[j].0@ != s[i].0@);
    }
}

/// Inserts `v` under `k` unless the map already holds a value at least as
/// large there.
pub open spec fn upsert_max(m: Map<Seq<char>, u8>, k: Seq<char>, v: u8) -> Map<Seq<char>, u8> {
    if m.dom().contains(k) && m[k] >= v {
        m
    } else {
        m.insert(k, v)
    }
}

/// Mapping from character identifier to required slot count, stored as a
/// vector of pairs with pairwise-distinct names.
pub struct SlotMap {
    entries: Vec<(String, u8)>,
}

impl View for SlotMap {
    type V = Map<Seq<char>, u8>;

    closed spec fn view(&self) -> Map<Seq<char>, u8> {
        Map::new(
            |k: Seq<char>| seq_has_name(self.entries@, k),
            |k: Seq<char>| self.entries@[seq_name_index(self.entries@, k)].1,
        )
    }
}

impl SlotMap {
    /// Well-formedness: entry names are pairwise distinct. Established by
    /// `new` and preserved by every method.
    pub closed spec fn wf(self) -> bool {
        seq_names_unique(self.entries@)
    }

    /// The empty requirement map.
    pub fn new() -> (r: SlotMap)
        ensures
            r.wf(),
            r@ == Map::<Seq<char>, u8>::empty(),
    {
        let r = SlotMap { entries: Vec::new() };
        proof {
            assert(r@ =~= Map::<Seq<char>, u8>::empty());
        }
        r
    }

    /// The index of the entry named `name`, if the map holds one.
    fn find_index(&self, name: &String) -> (r: Option<usize>)
        ensures
            match r {
                Some(i) => i < self.entries@.len() && self.entries@[i as int].0@ == name@,
                None => !seq_has_name(self.entries@, name@),
            },
    {
        let n = self.entries.len();
        let mut i: usize = 0;
        while i < n
            invariant
                i <= n,
                n == self.entries@.len(),
                forall|j: int| 0 <= j < i ==> self.entries@[j].0@ != name@,
            decreases n - i,
        {
            if self.entries[i].0 == *name {
                return Some(i);
            }
            i = i + 1;
        }
        None
    }

    /// The slot count required for `name`, if any was recorded.
    pub fn get(&self, name: &String) -> (r: Option<u8>)
        requires
            self.wf(),
        ensures
            r == (if self@.dom().contains(name@) {
                Some(self@[name@])
            } else {
                None::<u8>
            }),
    {
        match self.find_index(name) {
            Some(i) => {
                proof {
                    lemma_name_index(self.entries@, name@, i as int);
                }
                Some(self.entries[i].1)
            },
            None => None,
        }
    }

    /// Whether nothing has been recorded yet.
    pub fn is_empty(&self) -> (r: bool)
        requires
            self.wf(),
        ensures
            r <==> self@.dom() =~= Set::<Seq<char>>::empty(),
    {
        let r = self.entries.is_empty();
        proof {
            if r {
                assert(self@.dom() =~= Set::<Seq<char>>::empty());
            } else {
                assert(self@.dom().contains(self.entries@[0].0@));
            }
        }
        r
    }

    /// Records `value` under `name`, overwriting any earlier value.
    pub fn insert(&mut self, name: &String, value: u8)
        requires
            old(self).wf(),
        ensures
            final(self).wf(),
            final(self)@ == old(self)@.insert(name@, value),
    {
        let ghost s0 = self.entries@;
        match self.find_index(name) {
            Some(i) => {
                let pair = (name.clone(), value);
                let ghost p = pair;
                self.entries[i] = pair;
                proof {
                    let s1 = self.entries@;
                    assert(s1 =~= s0.update(i as int, p));
                    assert forall|k: Seq<char>| seq_has_name(s1, k) <==> seq_has_name(s0, k) by {
                        if seq_has_name(s1, k) {
                            let j = seq_name_index(s1, k);
                            assert(s0[if j == i { i as int } else { j }].0@ == k);
                        }
                        if seq_has_name(s0, k) {
                            let j = seq_name_index(s0, k);
                            assert(s1[if j == i { i as int } else { j }].0@ == k);
                        }
                    }
                    assert(seq_names_unique(s1));
                    assert forall|k: Seq<char>| #[trigger] old(self)@.insert(name@, value).dom().contains(k)
                        implies self@[k] == old(self)@.insert(name@, value)[k] by {
                        if k == name@ {
                            lemma_name_index(s1, k, i as int);
                        } else {
                            let j = seq_name_index(s0, k);
                            lemma_name_index(s0, k, j);
                            lemma_name_index(s1, k, j);
                        }
                    }
                    assert(self@ =~= old(self)@.insert(name@, value));
                }
            },
            None => {
                let pair = (name.clone(), value);
                let ghost p = pair;
                self.entries.push(pair);
                proof {
                    let s1 = self.entries@;
                    let n = s0.len() as int;
                    assert(s1 =~= s0.push(p));
                    assert(seq_names_unique(s1)) by {
                        assert forall|i: int, j: int| 0 <= i < j < s1.len() implies s1[i].0@ != s1[j].0@ by {
                            if j < n {
                                assert(s0[i].0@ != s0[j].0@);
                            } else {
                                assert(s1[j].0@ == name@);
                                assert(s1[i].0@ != name@);
                            }
                        }
                    }
                    assert forall|k: Seq<char>| #[trigger] old(self)@.insert(name@, value).dom().contains(k)
                        implies self@.dom().contains(k) && self@[k] == old(self)@.insert(name@, value)[k] by {
                        if k == name@ {
                            lemma_name_index(s1, k, n);
                        } else {
                            let j = seq_name_index(s0, k);
                            lemma_name_index(s0, k, j);
                            lemma_name_index(s1, k, j);
                        }
                    }
                    assert forall|k: Seq<char>| #[trigger] self@.dom().contains(k)
                        implies old(self)@.insert(name@, value).dom().contains(k) by {
                        let j = seq_name_index(s1, k);
                        if j < n {
                            assert(s0[j].0@ == k);
                        }
                    }
                    assert(self@ =~= old(self)@.insert(name@, value));
                }
            },
        }
    }

    /// Records `value` under `name`, keeping any larger value already there.
    pub fn set_max(&mut self, name: &String, value: u8)
        requires
            old(self).wf(),
        ensures
            final(self).wf(),
            final(self)@ == upsert_max(old(self)@, name@, value),
    {
        let current = self.get(name);
        match current {
            Some(v) => {
                if v < value {
                    self.insert(name, value);
                } else {
                    proof {
                        assert(self@ =~= upsert_max(old(self)@, name@, value));
                    }
                }
            },
            None => {
                self.insert(name, value);
            },
        }
    }

    /// All recorded pairs of character identifier and slot count.
    pub fn to_pairs(&self) -> (r: Vec<(String, u8)>)
        requires
            self.wf(),
        ensures
            forall|i: int|
                0 <= i < r@.len() ==> self@.dom().contains(#[trigger] r@[i].0@) && self@[r@[i].0@]
                    == r@[i].1,
            forall|k: Seq<char>|
                self@.dom().contains(k) ==> exists|i: int| 0 <= i < r@.len() && #[trigger] r@[i].0@ == k,
            forall|i: int, j: int| 0 <= i < j < r@.len() ==> r@[i].0@ != r@[j].0@,
    {
        let n = self.entries.len();
        let mut r: Vec<(String, u8)> = Vec::new();
        let mut i: usize = 0;
        while i < n
            invariant
                i <= n,
                n == self.entries@.len(),
                seq_names_unique(self.entries@),
                r@.len() == i,
                forall|j: int| 0 <= j < i ==> #[trigger] r@[j] == self.entries@[j],
            decreases n - i,
        {
            let pair = (self.entries[i].0.clone(), self.entries[i].1);
            r.push(pair);
            i = i + 1;
        }
        proof {
            assert forall|j: int| 0 <= j < r@.len()
                implies self@.dom().contains(#[trigger] r@[j].0@) && self@[r@[j].0@] == r@[j].1 by {
                lemma_name_index(self.entries@, r@[j].0@, j);
            }
            assert forall|k: Seq<char>| self@.dom().contains(k)
                implies exists|i: int| 0 <= i < r@.len() && #[trigger] r@[i].0@ == k by {
                let j = seq_name_index(self.entries@, k);
                assert(r@[j].0@ == k);
            }
        }
        r
    }
}

} // verus!
