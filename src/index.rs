use vstd::prelude::*;

verus! {

/// Where the latest live record of a key sits: its segment, byte offset and length.
#[derive(Debug, Clone, Copy, PartialEq, Eq, Structural)]
pub struct CommandPos {
    pub generation: u64,
    pub pos: u64,
    pub len: u64,
}

/// In-memory map from key to the location of its latest `Put` record.
pub struct Index {
    entries: Vec<(Vec<u8>, CommandPos)>,
    contents: Ghost<Map<Seq<u8>, CommandPos>>,
}

impl View for Index {
    type V = Map<Seq<u8>, CommandPos>;

    closed spec fn view(&self) -> Map<Seq<u8>, CommandPos> {
        self.contents@
    }
}

impl Index {
    /// Keys are unique, and the entries hold exactly the view.
    pub closed spec fn wf(&self) -> bool {
        &&& forall|i: int, j: int|
            0 <= i < j < self.entries@.len() ==> self.entries@[i].0@ != self.entries@[j].0@
        &&& forall|i: int|
            0 <= i < self.entries@.len() ==> #[trigger] self.contents@.contains_key(
                self.entries@[i].0@,
            ) && self.contents@[self.entries@[i].0@] == self.entries@[i].1
        &&& forall|k: Seq<u8>|
            #[trigger] self.contents@.contains_key(k) ==> exists|i: int|
                0 <= i < self.entries@.len() && self.entries@[i].0@ == k
    }

    pub fn new() -> (r: Index)
        ensures
            r.wf(),
            r@ == Map::<Seq<u8>, CommandPos>::empty(),
    {
        Index { entries: Vec::new(), contents: Ghost(Map::empty()) }
    }

    fn find(&self, key: &Vec<u8>) -> (r: Option<usize>)
        requires
            self.wf(),
        ensures
            match r {
                Some(i) => i < self.entries@.len() && self.entries@[i as int].0@ == key@,
                None => !self@.contains_key(key@),
            },
    {
        let mut i: usize = 0;
        while i < self.entries.len()
            invariant
                self.wf(),
                i <= self.entries@.len(),
                forall|j: int| 0 <= j < i ==> self.entries@[j].0@ != key@,
            decreases self.entries@.len() - i,
        {
            if bytes_eq(&self.entries[i].0, key) {
                return Some(i);
            }
            i = i + 1;
        }
        None
    }

    /// The location recorded for `key`, if any.
    pub fn lookup(&self, key: &Vec<u8>) -> (r: Option<CommandPos>)
        requires
            self.wf(),
        ensures
            r == self@.get(key@),
    {
        match self.find(key) {
            Some(i) => Some(self.entries[i].1),
            None => None,
        }
    }

    /// Number of keys.
    pub fn len(&self) -> (r: usize)
        requires
            self.wf(),
        ensures
            r == self@.len(),
    {
        proof {
            self.lemma_len();
        }
        self.entries.len()
    }

    proof fn lemma_len(&self)
        requires
            self.wf(),
        ensures
            self@.len() == self.entries@.len(),
    {
        let keys = Seq::new(self.entries@.len(), |i: int| self.entries@[i].0@);
        assert(keys.no_duplicates());
        assert(keys.to_set() =~= self@.dom()) by {
            assert forall|k| self@.dom().contains(k) implies keys.to_set().contains(k) by {
                let i = choose|i: int| 0 <= i < self.entries@.len() && self.entries@[i].0@ == k;
                assert(keys[i] == k);
            }
        }
        keys.unique_seq_to_set();
    }

    /// Records `pos` as the location of `key`, replacing any earlier one.
    pub fn insert(&mut self, key: Vec<u8>, pos: CommandPos)
        requires
            old(self).wf(),
        ensures
            final(self).wf(),
            final(self)@ == old(self)@.insert(key@, pos),
    {
        let ghost k = key@;
        let ghost m = self.contents@.insert(k, pos);
        let ghost w: int;
        match self.find(&key) {
            Some(i) => {
                self.entries.set(i, (key, pos));
                proof {
                    w = i as int;
                }
            },
            None => {
                proof {
                    w = self.entries@.len() as int;
                }
                self.entries.push((key, pos));
            },
        }
        assert(self.entries@[w].0@ == k);
        self.contents = Ghost(m);
        assert forall|k2: Seq<u8>| #[trigger] self.contents@.contains_key(k2) implies exists|
            i: int,
        | 0 <= i < self.entries@.len() && self.entries@[i].0@ == k2 by {
            if k2 == k {
                assert(self.entries@[w].0@ == k2);
            } else {
                assert(old(self).contents@.contains_key(k2));
                let i = choose|i: int|
                    0 <= i < old(self).entries@.len() && old(self).entries@[i].0@ == k2;
                assert(self.entries@[i].0@ == k2);
            }
        }
    }

    /// Forgets `key`, if it is present.
    pub fn remove(&mut self, key: &Vec<u8>)
        requires
            old(self).wf(),
        ensures
            final(self).wf(),
            final(self)@ == old(self)@.remove(key@),
    {
        let ghost m = self.contents@.remove(key@);
        match self.find(key) {
            Some(i) => {
                let ghost before = self.entries@;
                self.entries.remove(i);
                self.contents = Ghost(m);
                assert forall|j: int|
                    0 <= j < self.entries@.len() implies #[trigger] self.contents@.contains_key(
                    self.entries@[j].0@,
                ) && self.contents@[self.entries@[j].0@] == self.entries@[j].1 by {
                    if j < i {
                        assert(self.entries@[j] == before[j]);
                    } else {
                        assert(self.entries@[j] == before[j + 1]);
                    }
                }
                assert forall|k2: Seq<u8>| #[trigger] self.contents@.contains_key(k2) implies exists|
                    j: int,
                | 0 <= j < self.entries@.len() && self.entries@[j].0@ == k2 by {
                    let j = choose|j: int| 0 <= j < before.len() && before[j].0@ == k2;
                    if j < i {
                        assert(self.entries@[j] == before[j]);
                    } else {
                        assert(self.entries@[j - 1] == before[j]);
                    }
                }
            },
            None => {
                assert(m =~= self.contents@);
            },
        }
    }

    /// The entries, in no particular order.
    pub fn entries(&self) -> (r: Vec<(Vec<u8>, CommandPos)>)
        requires
            self.wf(),
        ensures
            forall|i: int| 0 <= i < r@.len() ==> self@.contains_key(#[trigger] r@[i].0@) && self@[r@[i].0@] == r@[i].1,
            forall|k: Seq<u8>| self@.contains_key(k) ==> exists|i: int| 0 <= i < r@.len() && #[trigger] r@[i].0@ == k,
            forall|i: int, j: int| 0 <= i < j < r@.len() ==> r@[i].0@ != r@[j].0@,
    {
        let mut out: Vec<(Vec<u8>, CommandPos)> = Vec::new();
        let mut i: usize = 0;
        while i < self.entries.len()
            invariant
                self.wf(),
                i <= self.entries@.len(),
                out@.len() == i,
                forall|j: int| 0 <= j < i ==> (#[trigger] out@[j]).0@ == self.entries@[j].0@ && out@[j].1 == self.entries@[j].1,
            decreases self.entries@.len() - i,
        {
            let k = clone_bytes(&self.entries[i].0);
            out.push((k, self.entries[i].1));
            i = i + 1;
        }
        assert forall|k: Seq<u8>| self@.contains_key(k) implies exists|i: int| 0 <= i < out@.len() && #[trigger] out@[i].0@ == k by {
            let j = choose|j: int| 0 <= j < self.entries@.len() && self.entries@[j].0@ == k;
            assert(out@[j].0@ == k);
        }
        out
    }
}

/// Whether two byte strings are equal.
pub fn bytes_eq(a: &Vec<u8>, b: &Vec<u8>) -> (r: bool)
    ensures
        r == (a@ == b@),
{
    if a.len() != b.len() {
        return false;
    }
    let mut i: usize = 0;
    while i < a.len()
        invariant
            a@.len() == b@.len(),
            i <= a@.len(),
            forall|j: int| 0 <= j < i ==> a@[j] == b@[j],
        decreases a@.len() - i,
    {
        if a[i] != b[i] {
            return false;
        }
        i = i + 1;
    }
    assert(a@ =~= b@);
    true
}

/// A copy of a byte string.
pub fn clone_bytes(a: &Vec<u8>) -> (r: Vec<u8>)
    ensures
        r@ == a@,
{
    let mut out: Vec<u8> = Vec::new();
    let mut i: usize = 0;
    while i < a.len()
        invariant
            i <= a@.len(),
            out@ == a@.subrange(0, i as int),
        decreases a@.len() - i,
    {
        out.push(a[i]);
        i = i + 1;
        assert(out@ =~= a@.subrange(0, i as int));
    }
    assert(a@.subrange(0, a@.len() as int) =~= a@);
    out
}

} // verus!
