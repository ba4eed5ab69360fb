use vstd::prelude::*;

use crate::model::CompareStatus;

verus! {

/// Resolved status and cumulative size of directory pairs, keyed by the
/// pair's (left path, right path). Only an explicit clear empties it.
pub struct DirCache {
    lefts: Vec<String>,
    rights: Vec<String>,
    values: Vec<(CompareStatus, u64)>,
    contents: Ghost<Map<(Seq<char>, Seq<char>), (CompareStatus, u64)>>,
}

impl View for DirCache {
    type V = Map<(Seq<char>, Seq<char>), (CompareStatus, u64)>;

    closed spec fn view(&self) -> Self::V {
        self.contents@
    }
}

/// What `cache` holds for the pair `(left, right)`, if anything.
pub open spec fn cached(
    cache: Map<(Seq<char>, Seq<char>), (CompareStatus, u64)>,
    left: Seq<char>,
    right: Seq<char>,
) -> Option<(CompareStatus, u64)> {
    if cache.contains_key((left, right)) {
        Some(cache[(left, right)])
    } else {
        None
    }
}

/// Every cached status is one a resolution gives: same or modified.
pub open spec fn holds_resolved_only(cache: Map<(Seq<char>, Seq<char>), (CompareStatus, u64)>) -> bool {
    forall|k: (Seq<char>, Seq<char>)|
        #[trigger] cache.contains_key(k) ==> cache[k].0 == CompareStatus::Same || cache[k].0
            == CompareStatus::Modified
}

impl DirCache {
    pub closed spec fn wf(&self) -> bool {
        &&& holds_resolved_only(self.contents@)
        &&& self.lefts.len() == self.rights.len()
        &&& self.values.len() == self.lefts.len()
        &&& forall|i: int, j: int|
            0 <= i < j < self.lefts.len() ==> (self.lefts@[i]@, self.rights@[i]@) != (
                self.lefts@[j]@,
                self.rights@[j]@,
            )
        &&& forall|i: int|
            0 <= i < self.lefts.len() ==> #[trigger] self.contents@.contains_key(
                (self.lefts@[i]@, self.rights@[i]@),
            ) && self.contents@[(self.lefts@[i]@, self.rights@[i]@)] == self.values@[i]
        &&& forall|k: (Seq<char>, Seq<char>)|
            #[trigger] self.contents@.contains_key(k) ==> exists|i: int|
                0 <= i < self.lefts.len() && (self.lefts@[i]@, self.rights@[i]@) == k
    }

    /// An empty cache.
    pub fn new() -> (r: DirCache)
        ensures
            r.wf(),
            r@ == Map::<(Seq<char>, Seq<char>), (CompareStatus, u64)>::empty(),
    {
        DirCache {
            lefts: Vec::new(),
            rights: Vec::new(),
            values: Vec::new(),
            contents: Ghost(Map::empty()),
        }
    }

    /// Position of the pair `(left, right)`, if cached.
    fn position(&self, left: &String, right: &String) -> (r: Option<usize>)
        requires
            self.wf(),
        ensures
            match r {
                Some(i) => i < self.lefts.len() && self.lefts@[i as int]@ == left@
                    && self.rights@[i as int]@ == right@,
                None => !self@.contains_key((left@, right@)),
            },
    {
        for i in 0..self.lefts.len()
            invariant
                self.wf(),
                forall|j: int|
                    0 <= j < i ==> (self.lefts@[j]@, self.rights@[j]@) != (left@, right@),
        {
            if self.lefts[i] == *left && self.rights[i] == *right {
                return Some(i);
            }
        }
        None
    }

    /// The status and size cached for the pair `(left, right)`.
    pub fn get(&self, left: &String, right: &String) -> (r: Option<(CompareStatus, u64)>)
        requires
            self.wf(),
        ensures
            r == cached(self@, left@, right@),
            holds_resolved_only(self@),
    {
        match self.position(left, right) {
            Some(i) => Some(self.values[i]),
            None => None,
        }
    }

    /// Caches `value` for the pair `(left, right)`, over what was there.
    pub fn insert(&mut self, left: String, right: String, value: (CompareStatus, u64))
        requires
            old(self).wf(),
            value.0 == CompareStatus::Same || value.0 == CompareStatus::Modified,
        ensures
            final(self).wf(),
            final(self)@ == old(self)@.insert((left@, right@), value),
    {
        let ghost key = (left@, right@);
        match self.position(&left, &right) {
            Some(i) => {
                self.values.set(i, value);
            },
            None => {
                self.lefts.push(left);
                self.rights.push(right);
                self.values.push(value);
            },
        }
        self.contents = Ghost(self.contents@.insert(key, value));
        proof {
            let n = old(self).lefts.len() as int;
            assert forall|j: int| 0 <= j < self.lefts.len() implies #[trigger] self.contents@.contains_key(
                (self.lefts@[j]@, self.rights@[j]@),
            ) && self.contents@[(self.lefts@[j]@, self.rights@[j]@)] == self.values@[j] by {
                if j < n {
                    assert(old(self).contents@.contains_key(
                        (old(self).lefts@[j]@, old(self).rights@[j]@),
                    ));
                }
            }
            assert forall|a: int, b: int| 0 <= a < b < self.lefts.len() implies (
                self.lefts@[a]@,
                self.rights@[a]@,
            ) != (self.lefts@[b]@, self.rights@[b]@) by {
                if b == n {
                    assert(old(self).contents@.contains_key(
                        (old(self).lefts@[a]@, old(self).rights@[a]@),
                    ));
                }
            }
            assert forall|k: (Seq<char>, Seq<char>)| #[trigger]
                self.contents@.contains_key(k) implies exists|i: int|
                0 <= i < self.lefts.len() && (self.lefts@[i]@, self.rights@[i]@) == k by {
                if k == key {
                    if !old(self)@.contains_key(key) {
                        assert((self.lefts@[self.lefts.len() - 1]@, self.rights@[self.lefts.len()
                            - 1]@) == k);
                    } else {
                        let i = choose|i: int|
                            0 <= i < old(self).lefts.len() && (old(self).lefts@[i]@, old(
                                self,
                            ).rights@[i]@) == k;
                        assert(self.lefts@[i] == old(self).lefts@[i]);
                    }
                } else {
                    let i = choose|i: int|
                        0 <= i < old(self).lefts.len() && (old(self).lefts@[i]@, old(
                            self,
                        ).rights@[i]@) == k;
                    assert(self.lefts@[i] == old(self).lefts@[i]);
                }
            }
        }
    }

    /// Empties the cache.
    pub fn clear(&mut self)
        ensures
            final(self).wf(),
            final(self)@ == Map::<(Seq<char>, Seq<char>), (CompareStatus, u64)>::empty(),
    {
        self.lefts.clear();
        self.rights.clear();
        self.values.clear();
        self.contents = Ghost(Map::empty());
    }
}

} // verus!
