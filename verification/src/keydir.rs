//! The key directory: for every live key, where its latest entry lies.
use vstd::prelude::*;

verus! {

/// Where an entry lies: the data file, the offset of the entry in it, and the
/// entry's length (header, key and value), kept to 32 bits.
#[derive(Clone, Copy, Debug, PartialEq, Eq, Structural)]
pub struct EntryLocation {
    pub file_id: u32,
    pub offset: u64,
    pub valid_len: u32,
}

/// A map from keys to the location of their latest entry. Each key occurs at
/// most once.
///
/// The pairs are kept in a vector and searched in order, so a lookup or an
/// insert takes time linear in the number of keys. vstd specifies
/// `HashMap` and `BTreeMap` only for key types that it knows to hash or
/// order as their views do (integers, `bool`, and boxes and tuples of
/// them); for a byte-vector key that fact cannot be had without assuming
/// it, so a std map here would come with no usable contract.
pub struct KeyDir {
    entries: Vec<(Vec<u8>, EntryLocation)>,
}

/// Whether `a` and `b` hold the same bytes.
pub fn bytes_eq(a: &[u8], b: &[u8]) -> (r: bool)
    ensures
        r == (a@ == b@),
{
    if a.len() != b.len() {
        return false;
    }
    let mut i: usize = 0;
    while i < a.len()
        invariant
            a@.len() == b@.len(),
            i <= a@.len(),
            forall|j: int| 0 <= j < i ==> a@[j] == b@[j],
        decreases a@.len() - i,
    {
        if a[i] != b[i] {
            return false;
        }
        i = i + 1;
    }
    assert(a@ =~= b@);
    true
}

impl KeyDir {
    /// The key stored in slot `i`.
    pub closed spec fn key_at(&self, i: int) -> Seq<u8> {
        self.entries@[i].0@
    }

    /// The number of keys.
    pub closed spec fn spec_len(&self) -> nat {
        self.entries@.len()
    }

    /// No key occupies two slots.
    #[verifier::type_invariant]
    spec fn wf(&self) -> bool {
        forall|i: int, j: int|
            0 <= i < self.entries@.len() && 0 <= j < self.entries@.len() && i != j
                ==> #[trigger] self.key_at(i) != #[trigger] self.key_at(j)
    }

    /// Whether `k` occupies a slot.
    pub closed spec fn has(&self, k: Seq<u8>) -> bool {
        exists|i: int| 0 <= i < self.entries@.len() && #[trigger] self.key_at(i) == k
    }

    /// The slot that `k` occupies.
    pub closed spec fn slot_of(&self, k: Seq<u8>) -> int {
        choose|i: int| 0 <= i < self.entries@.len() && #[trigger] self.key_at(i) == k
    }

    /// The directory as a map from keys to locations.
    pub closed spec fn as_map(&self) -> Map<Seq<u8>, EntryLocation> {
        Map::new(|k: Seq<u8>| self.has(k), |k: Seq<u8>| self.entries@[self.slot_of(k)].1)
    }

    /// An empty directory.
    pub fn new() -> (d: KeyDir)
        ensures
            d@ == Map::<Seq<u8>, EntryLocation>::empty(),
    {
        let d = KeyDir { entries: Vec::new() };
        assert(d@ =~= Map::<Seq<u8>, EntryLocation>::empty());
        d
    }

    /// The slot that holds `key`, if any.
    fn find(&self, key: &[u8]) -> (r: Option<usize>)
        ensures
            match r {
                Some(i) => i < self.entries@.len() && self.key_at(i as int) == key@,
                None => !self.has(key@),
            },
    {
        let mut i: usize = 0;
        while i < self.entries.len()
            invariant
                i <= self.entries@.len(),
                forall|j: int| 0 <= j < i ==> #[trigger] self.key_at(j) != key@,
            decreases self.entries@.len() - i,
        {
            if bytes_eq(&self.entries[i].0, key) {
                return Some(i);
            }
            i = i + 1;
        }
        None
    }

    /// The location recorded for `key`.
    pub fn get(&self, key: &[u8]) -> (r: Option<EntryLocation>)
        ensures
            r == (if self@.contains_key(key@) {
                Some(self@[key@])
            } else {
                None::<EntryLocation>
            }),
    {
        proof {
            use_type_invariant(self);
        }
        match self.find(key) {
            Some(i) => {
                assert(self.has(key@));
                let ghost j = self.slot_of(key@);
                assert(self.key_at(j) == key@);
                assert(j == i);
                Some(self.entries[i].1)
            },
            None => None,
        }
    }

    /// Records `loc` as the location of `key`, replacing what was recorded.
    pub fn insert(&mut self, key: Vec<u8>, loc: EntryLocation)
        ensures
            final(self)@ == old(self)@.insert(key@, loc),
    {
        proof {
            use_type_invariant(&*self);
        }
        let ghost old_self = *self;
        let found = self.find(&key);
        let mut entries: Vec<(Vec<u8>, EntryLocation)> = Vec::new();
        std::mem::swap(&mut entries, &mut self.entries);
        match found {
            Some(i) => {
                let ghost k = key@;
                entries.set(i, (key, loc));
                assert forall|a: int, b: int|
                    0 <= a < entries@.len() && 0 <= b < entries@.len() && a != b implies #[trigger] entries@[a].0@
                    != #[trigger] entries@[b].0@ by {
                    assert(old_self.key_at(a) != old_self.key_at(b));
                }
                self.entries = entries;
                proof {
                    assert forall|j: int| 0 <= j < self.entries@.len() implies #[trigger] self.key_at(
                        j,
                    ) == old_self.key_at(j) by {}
                    assert forall|k: Seq<u8>| #[trigger] self.has(k) == old_self.has(k) by {
                        if old_self.has(k) {
                            let j = old_self.slot_of(k);
                            assert(self.key_at(j) == k);
                        }
                        if self.has(k) {
                            let j = self.slot_of(k);
                            assert(old_self.key_at(j) == k);
                        }
                    }
                    assert forall|k: Seq<u8>| #[trigger] self.has(k) && k != key@ implies self.entries@[self.slot_of(k)].1
                        == old_self.entries@[old_self.slot_of(k)].1 by {
                        let a = self.slot_of(k);
                        let b = old_self.slot_of(k);
                        assert(self.key_at(b) == k);
                        assert(a == b);
                    }
                    let s = self.slot_of(key@);
                    assert(self.key_at(i as int) == key@);
                    assert(s == i);
                    assert(self@ =~= old_self@.insert(key@, loc));
                }
            },
            None => {
                let ghost k = key@;
                entries.push((key, loc));
                assert forall|a: int, b: int|
                    0 <= a < entries@.len() && 0 <= b < entries@.len() && a != b implies #[trigger] entries@[a].0@
                    != #[trigger] entries@[b].0@ by {
                    let n = old_self.entries@.len() as int;
                    if a < n && b < n {
                        assert(old_self.key_at(a) != old_self.key_at(b));
                    } else if a < n {
                        assert(old_self.key_at(a) != k);
                    } else {
                        assert(old_self.key_at(b) != k);
                    }
                }
                self.entries = entries;
                proof {
                    let n = old_self.entries@.len() as int;
                    assert forall|j: int| 0 <= j < n implies #[trigger] self.key_at(j)
                        == old_self.key_at(j) by {}
                    assert(self.key_at(n) == key@);
                    assert forall|k: Seq<u8>| #[trigger] self.has(k) == (old_self.has(k) || k == key@) by {
                        if old_self.has(k) {
                            let j = old_self.slot_of(k);
                            assert(self.key_at(j) == k);
                        }
                        if self.has(k) && k != key@ {
                            let j = self.slot_of(k);
                            assert(old_self.key_at(j) == k);
                        }
                    }
                    assert forall|k: Seq<u8>| #[trigger] self.has(k) && k != key@ implies self.entries@[self.slot_of(k)].1
                        == old_self.entries@[old_self.slot_of(k)].1 by {
                        let a = self.slot_of(k);
                        let b = old_self.slot_of(k);
                        assert(self.key_at(b) == k);
                        assert(a == b);
                    }
                    let s = self.slot_of(key@);
                    assert(s == n);
                    assert(self@ =~= old_self@.insert(key@, loc));
                }
            },
        }
    }

    /// The number of keys in the directory.
    pub fn len(&self) -> (n: usize)
        ensures
            n == self@.dom().len(),
    {
        proof {
            use_type_invariant(self);
            self.lemma_len();
        }
        self.entries.len()
    }

    proof fn lemma_len(&self)
        requires
            self.wf(),
        ensures
            self@.dom().finite(),
            self@.dom().len() == self.entries@.len(),
        decreases self.entries@.len(),
    {
        let keys = Seq::new(self.entries@.len(), |i: int| self.key_at(i));
        assert(keys.no_duplicates());
        assert(self@.dom() =~= keys.to_set()) by {
            assert forall|k: Seq<u8>| self@.dom().contains(k) implies keys.to_set().contains(k) by {
                let i = self.slot_of(k);
                assert(keys[i] == k);
            }
            assert forall|k: Seq<u8>| keys.to_set().contains(k) implies self@.dom().contains(k) by {
                let i = choose|i: int| 0 <= i < keys.len() && keys[i] == k;
                assert(self.key_at(i) == k);
            }
        }
        keys.unique_seq_to_set();
    }
}

impl View for KeyDir {
    type V = Map<Seq<u8>, EntryLocation>;

    closed spec fn view(&self) -> Map<Seq<u8>, EntryLocation> {
        self.as_map()
    }
}

} // verus!
