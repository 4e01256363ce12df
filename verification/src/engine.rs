//! The decisions of the Bitcask-style log store: which data files exist and
//! in what order they are replayed, where each key's latest entry lies, what
//! a write records, which entries survive a compaction.
//!
//! The files themselves are read and written around this state; each function
//! here takes what was read as a plain value and says what to do next.
use crate::format::{EntryHeader, FormatError};
use crate::keydir::{EntryLocation, KeyDir};
use crate::log::{replay_file, replay_items, scan};
use crate::text::{
    chars_of, decimal, lemma_decimal_digits, lemma_parse_decimal, parse_unsigned,
    parse_unsigned_chars, push_decimal,
};
use vstd::prelude::*;
use vstd::string::StringExecFns;

verus! {

/// `std::io::Error`, the error of a file operation.
#[verifier::external_type_specification]
#[verifier::external_body]
pub struct ExIoError(std::io::Error);

/// Errors of the log store.
#[derive(Debug)]
pub enum StorageError {
    /// A file operation failed.
    Io(std::io::Error),
    /// A stored entry could not be read.
    Format(FormatError),
    /// No entry is recorded for the key.
    NotFound,
}

/// When written data is forced to disk.
#[derive(Clone, Copy, Debug, PartialEq, Eq, Structural)]
pub enum SyncStrategy {
    /// After every write, data and metadata alike.
    Always,
    /// Every so many seconds, in the background.
    Interval(u64),
    /// Whenever the operating system flushes its cache.
    Os,
}

/// Options of the log store.
#[derive(Clone, Copy, Debug)]
pub struct BitCaskOptions {
    pub sync_strategy: SyncStrategy,
}

impl Default for BitCaskOptions {
    fn default() -> (o: Self)
        ensures
            o.sync_strategy == SyncStrategy::Os,
    {
        BitCaskOptions { sync_strategy: SyncStrategy::Os }
    }
}

/// The extension of a data file.
pub open spec fn data_extension() -> Seq<char> {
    seq!['d', 'a', 't', 'a']
}

/// The position of the last `.` in `s`, or -1.
pub open spec fn last_dot(s: Seq<char>) -> int
    decreases s.len(),
{
    if s.len() == 0 {
        -1
    } else if s.last() == '.' {
        s.len() - 1
    } else {
        last_dot(s.drop_last())
    }
}

/// The id of the data file named `name`: a file whose extension (the part
/// after the last `.`, where that dot is not the first character) is `data`
/// and whose stem reads as a `u32`.
pub open spec fn spec_data_file_id(name: Seq<char>) -> Option<u32> {
    let p = last_dot(name);
    if p > 0 && name.skip(p + 1) == data_extension() {
        match parse_unsigned(name.take(p), u32::MAX as nat) {
            Some(n) => Some(n as u32),
            None => None,
        }
    } else {
        None
    }
}

/// The ids of the data files among `names`, in the order of `names`.
pub open spec fn data_ids(names: Seq<Seq<char>>) -> Seq<u32>
    decreases names.len(),
{
    if names.len() == 0 {
        Seq::empty()
    } else {
        match spec_data_file_id(names.last()) {
            Some(id) => data_ids(names.drop_last()).push(id),
            None => data_ids(names.drop_last()),
        }
    }
}

/// The characters of each of `names`.
pub open spec fn names_view(names: Seq<String>) -> Seq<Seq<char>> {
    names.map_values(|s: String| s@)
}

/// `ids` are in ascending order.
pub open spec fn ascending(ids: Seq<u32>) -> bool {
    forall|i: int, j: int| 0 <= i <= j < ids.len() ==> ids[i] <= ids[j]
}

/// The id of the file that writes go to: the largest data file id, or 0
/// when there is none.
pub open spec fn active_id_of(ids: Seq<u32>) -> u32
    decreases ids.len(),
{
    if ids.len() == 0 {
        0
    } else if ids.last() > active_id_of(ids.drop_last()) {
        ids.last()
    } else {
        active_id_of(ids.drop_last())
    }
}

/// `ids` without the occurrences of `id`, in order.
pub open spec fn without(ids: Seq<u32>, id: u32) -> Seq<u32>
    decreases ids.len(),
{
    if ids.len() == 0 {
        ids
    } else if ids.last() == id {
        without(ids.drop_last(), id)
    } else {
        without(ids.drop_last(), id).push(ids.last())
    }
}

/// One past the position of the last `.` in `chars`, or 0 when there is
/// none.
pub fn after_last_dot(chars: &Vec<char>) -> (p: usize)
    ensures
        p <= chars@.len(),
        p == last_dot(chars@) + 1,
{
    let n = chars.len();
    let mut p: usize = n;
    assert(chars@.take(n as int) =~= chars@);
    while p > 0 && chars[p - 1] != '.'
        invariant
            p <= n,
            n == chars@.len(),
            last_dot(chars@) == last_dot(chars@.take(p as int)),
        decreases p,
    {
        assert(chars@.take(p as int).drop_last() =~= chars@.take(p - 1));
        p = p - 1;
    }
    if p == 0 {
        assert(chars@.take(0) =~= Seq::<char>::empty());
    } else {
        assert(chars@.take(p as int).drop_last() =~= chars@.take(p - 1));
    }
    p
}

/// Sorts `v` in ascending order.
pub fn sort_ids(v: Vec<u32>) -> (r: Vec<u32>)
    ensures
        ascending(r@),
        r@.to_multiset() == v@.to_multiset(),
{
    broadcast use vstd::seq_lib::group_to_multiset_ensures;

    let mut r: Vec<u32> = Vec::new();
    let mut i: usize = 0;
    while i < v.len()
        invariant
            i <= v@.len(),
            ascending(r@),
            r@.to_multiset() == v@.take(i as int).to_multiset(),
        decreases v@.len() - i,
    {
        let x = v[i];
        let mut j: usize = 0;
        while j < r.len() && r[j] <= x
            invariant
                j <= r@.len(),
                forall|k: int| 0 <= k < j ==> r@[k] <= x,
            decreases r@.len() - j,
        {
            j = j + 1;
        }
        let ghost before = r@;
        r.insert(j, x);
        proof {
            assert(r@ == before.insert(j as int, x));
            assert(r@.remove(j as int) =~= before);
            assert(r@[j as int] == x);
            r@.to_multiset_ensures();
            assert(r@.remove(j as int).to_multiset() == r@.to_multiset().remove(x));
            assert(r@.contains(x));
            assert(r@.to_multiset() =~= before.to_multiset().insert(x));
            assert(v@.take(i + 1) =~= v@.take(i as int).push(x));
            v@.take(i as int).to_multiset_ensures();
        }
        i = i + 1;
    }
    assert(v@.take(v@.len() as int) =~= v@);
    r
}

/// The log store's state: the directory it lives in, the file that writes
/// go to, and the key directory.
pub struct BitCask {
    dir: String,
    active_file_id: u32,
    keydir: KeyDir,
    options: BitCaskOptions,
}

impl BitCask {
    /// For every key, where its latest entry lies.
    pub closed spec fn index(&self) -> Map<Seq<u8>, EntryLocation> {
        self.keydir@
    }

    /// The id of the data file that writes go to.
    pub closed spec fn active(&self) -> u32 {
        self.active_file_id
    }

    /// The directory of the data files.
    pub closed spec fn directory(&self) -> Seq<char> {
        self.dir@
    }

    /// The options the store was opened with.
    pub closed spec fn opts(&self) -> BitCaskOptions {
        self.options
    }

    /// The id of the data file named `name`, if it is one.
    pub fn data_file_id(name: &str) -> (r: Option<u32>)
        ensures
            r == spec_data_file_id(name@),
    {
        let chars = chars_of(name);
        let n = chars.len();
        let p = after_last_dot(&chars);
        if p == 0 {
            return None;
        }
        if p - 1 == 0 {
            return None;
        }
        let dot = p - 1;
        assert(last_dot(chars@) == dot);
        if !(n - dot == 5 && chars[dot + 1] == 'd' && chars[dot + 2] == 'a' && chars[dot + 3] == 't'
            && chars[dot + 4] == 'a') {
            proof {
                if chars@.skip(dot + 1) == data_extension() {
                    assert(chars@.skip(dot + 1).len() == 4);
                    assert(chars@.skip(dot + 1)[0] == chars@[dot + 1]);
                    assert(chars@.skip(dot + 1)[1] == chars@[dot + 2]);
                    assert(chars@.skip(dot + 1)[2] == chars@[dot + 3]);
                    assert(chars@.skip(dot + 1)[3] == chars@[dot + 4]);
                }
            }
            return None;
        }
        assert(chars@.skip(dot + 1) =~= data_extension());
        let mut stem: Vec<char> = Vec::new();
        let mut i: usize = 0;
        while i < dot
            invariant
                i <= dot,
                dot < chars@.len(),
                stem@ == chars@.take(i as int),
            decreases dot - i,
        {
            stem.push(chars[i]);
            i = i + 1;
            assert(stem@ =~= chars@.take(i as int));
        }
        match parse_unsigned_chars(&stem, 0xFFFF_FFFF) {
            Some(v) => Some(v as u32),
            None => None,
        }
    }

    /// The name of the data file with id `id`: its decimal number, then `.data`.
    pub fn data_file_name(id: u32) -> (name: String)
        ensures
            name@ == decimal(id as nat) + data_extension().insert(0, '.'),
    {
        let mut name = String::new();
        push_decimal(&mut name, id as u64);
        proof {
            reveal_strlit(".data");
        }
        name.append(".data");
        assert(name@ =~= decimal(id as nat) + data_extension().insert(0, '.'));
        name
    }

    /// The ids of the data files among `names`, as they are listed.
    fn listed_ids(names: &Vec<String>) -> (r: Vec<u32>)
        ensures
            r@ == data_ids(names_view(names@)),
    {
        let mut r: Vec<u32> = Vec::new();
        let mut i: usize = 0;
        while i < names.len()
            invariant
                i <= names@.len(),
                r@ == data_ids(names_view(names@.take(i as int))),
            decreases names@.len() - i,
        {
            let id = BitCask::data_file_id(names[i].as_str());
            proof {
                assert(names_view(names@.take(i + 1)).drop_last() =~= names_view(
                    names@.take(i as int),
                ));
                assert(names_view(names@.take(i + 1)).last() == names@[i as int]@);
            }
            match id {
                Some(v) => r.push(v),
                None => {},
            }
            i = i + 1;
        }
        assert(names@.take(names@.len() as int) =~= names@);
        r
    }

    /// From the file names of the store's directory: the ids of the data
    /// files in the order they are replayed (ascending), and the id of the
    /// file that writes go to.
    pub fn replay_order(names: &Vec<String>) -> (r: (Vec<u32>, u32))
        ensures
            ascending(r.0@),
            r.0@.to_multiset() == data_ids(names_view(names@)).to_multiset(),
            r.1 == active_id_of(data_ids(names_view(names@))),
    {
        let ids = BitCask::listed_ids(names);
        let mut active: u32 = 0;
        let mut i: usize = 0;
        while i < ids.len()
            invariant
                i <= ids@.len(),
                active == active_id_of(ids@.take(i as int)),
            decreases ids@.len() - i,
        {
            proof {
                let t = ids@.take(i + 1);
                assert(t.drop_last() =~= ids@.take(i as int));
            }
            if ids[i] > active {
                active = ids[i];
            }
            i = i + 1;
        }
        assert(ids@.take(ids@.len() as int) =~= ids@);
        let sorted = sort_ids(ids);
        (sorted, active)
    }

    /// A store for the directory `dir`, writing to file `active_file_id`, with
    /// nothing recorded yet.
    pub fn new(dir: String, options: BitCaskOptions, active_file_id: u32) -> (b: BitCask)
        ensures
            b.index() == Map::<Seq<u8>, EntryLocation>::empty(),
            b.active() == active_file_id,
            b.directory() == dir@,
            b.opts() == options,
    {
        BitCask { dir, active_file_id, keydir: KeyDir::new(), options }
    }

    /// Records every entry of the data file `file_id`, whose bytes are `data`,
    /// in the order they were written.
    pub fn replay(&mut self, file_id: u32, data: &[u8])
        ensures
            final(self).index() == replay_items(old(self).index(), file_id, scan(data@)),
            final(self).active() == old(self).active(),
            final(self).directory() == old(self).directory(),
            final(self).opts() == old(self).opts(),
    {
        replay_file(&mut self.keydir, file_id, data);
    }

    /// Records that the entry for `key`, `len` bytes long, was appended to the
    /// active file at `offset`.
    pub fn record_put(&mut self, key: Vec<u8>, offset: u64, len: usize)
        ensures
            final(self).index() == old(self).index().insert(
                key@,
                EntryLocation {
                    file_id: old(self).active(),
                    offset,
                    valid_len: len as u32,
                },
            ),
            final(self).active() == old(self).active(),
            final(self).directory() == old(self).directory(),
            final(self).opts() == old(self).opts(),
    {
        let loc = EntryLocation { file_id: self.active_file_id, offset, valid_len: len as u32 };
        self.keydir.insert(key, loc);
    }

    /// The id of the merge file that a compaction writes the live entries
    /// to: the one after the active file's, or `None` when the active file
    /// already has the largest id.
    pub fn merge_file_id(&self) -> (r: Option<u32>)
        ensures
            self.active() < u32::MAX ==> r == Some((self.active() + 1) as u32),
            self.active() == u32::MAX ==> r is None,
    {
        if self.active_file_id < 0xFFFF_FFFF {
            Some(self.active_file_id + 1)
        } else {
            None
        }
    }

    /// Makes the file `id` the one that writes go to, leaving every recorded
    /// location as it is.
    pub fn switch_active(&mut self, id: u32)
        ensures
            final(self).active() == id,
            final(self).index() == old(self).index(),
            final(self).directory() == old(self).directory(),
            final(self).opts() == old(self).opts(),
    {
        self.active_file_id = id;
    }

    /// Where the latest entry for `key` lies, or `NotFound`.
    pub fn locate(&self, key: &[u8]) -> (r: Result<EntryLocation, StorageError>)
        ensures
            self.index().contains_key(key@) ==> (r matches Ok(loc) && loc == self.index()[key@]),
            !self.index().contains_key(key@) ==> (r matches Err(StorageError::NotFound)),
    {
        match self.keydir.get(key) {
            Some(loc) => Ok(loc),
            None => Err(StorageError::NotFound),
        }
    }

    /// Whether the entry at `loc` is the latest one for `key`: the key
    /// directory points to the same file and offset.
    pub fn is_live(&self, key: &[u8], loc: &EntryLocation) -> (r: bool)
        ensures
            r == (self.index().contains_key(key@) && self.index()[key@].file_id == loc.file_id
                && self.index()[key@].offset == loc.offset),
    {
        match self.keydir.get(key) {
            Some(cur) => cur.file_id == loc.file_id && cur.offset == loc.offset,
            None => false,
        }
    }

    /// The ids of the data files among `names` that a compaction rewrites:
    /// all but the active one, in ascending order.
    pub fn compaction_order(&self, names: &Vec<String>) -> (r: Vec<u32>)
        ensures
            ascending(r@),
            r@.to_multiset() == without(data_ids(names_view(names@)), self.active()).to_multiset(),
    {
        let ids = BitCask::listed_ids(names);
        let mut kept: Vec<u32> = Vec::new();
        let mut i: usize = 0;
        while i < ids.len()
            invariant
                i <= ids@.len(),
                kept@ == without(ids@.take(i as int), self.active()),
            decreases ids@.len() - i,
        {
            proof {
                assert(ids@.take(i + 1).drop_last() =~= ids@.take(i as int));
            }
            if ids[i] != self.active_file_id {
                kept.push(ids[i]);
            }
            i = i + 1;
        }
        assert(ids@.take(ids@.len() as int) =~= ids@);
        sort_ids(kept)
    }

    /// Whether every write is followed by a full sync of the active file.
    pub fn syncs_every_write(&self) -> (r: bool)
        ensures
            r == (self.opts().sync_strategy == SyncStrategy::Always),
    {
        match self.options.sync_strategy {
            SyncStrategy::Always => true,
            _ => false,
        }
    }

    /// The period, in seconds, of the background sync, if one runs.
    pub fn background_sync_secs(&self) -> (r: Option<u64>)
        ensures
            r == (match self.opts().sync_strategy {
                SyncStrategy::Interval(secs) => if secs > 0 {
                    Some(secs)
                } else {
                    None
                },
                _ => None,
            }),
    {
        match self.options.sync_strategy {
            SyncStrategy::Interval(secs) => if secs > 0 {
                Some(secs)
            } else {
                None
            },
            _ => None,
        }
    }

    /// The directory of the data files.
    pub fn dir(&self) -> (d: &str)
        ensures
            d@ == self.directory(),
    {
        self.dir.as_str()
    }

    /// The id of the data file that writes go to.
    pub fn active_file_id(&self) -> (id: u32)
        ensures
            id == self.active(),
    {
        self.active_file_id
    }

    /// The options the store was opened with.
    pub fn options(&self) -> (o: BitCaskOptions)
        ensures
            o == self.opts(),
    {
        self.options
    }

    /// The number of keys recorded.
    pub fn len(&self) -> (n: usize)
        ensures
            n == self.index().dom().len(),
    {
        self.keydir.len()
    }
}

/// The data file written for an id is read back as that id.
pub proof fn law_data_file_name_roundtrip(id: u32)
    ensures
        spec_data_file_id(decimal(id as nat) + data_extension().insert(0, '.')) == Some(id),
{
    let d = decimal(id as nat);
    let name = d + data_extension().insert(0, '.');
    lemma_decimal_digits(id as nat);
    lemma_parse_decimal(id as nat, u32::MAX as nat);
    let p = d.len() as int;
    assert(name.len() == p + 5);
    assert(name.drop_last() =~= d + seq!['.', 'd', 'a', 't']);
    assert(name.drop_last().drop_last() =~= d + seq!['.', 'd', 'a']);
    assert(name.drop_last().drop_last().drop_last() =~= d + seq!['.', 'd']);
    assert(name.drop_last().drop_last().drop_last().drop_last() =~= d + seq!['.']);
    assert(last_dot(d + seq!['.']) == p);
    assert(last_dot(d + seq!['.', 'd']) == p);
    assert(last_dot(d + seq!['.', 'd', 'a']) == p);
    assert(last_dot(d + seq!['.', 'd', 'a', 't']) == p);
    assert(last_dot(name) == p);
    assert(name.skip(p + 1) =~= data_extension());
    assert(name.take(p) =~= d);
}

/// The file that writes go to has the largest id: no data file id exceeds
/// it.
pub proof fn law_active_is_largest(ids: Seq<u32>)
    ensures
        forall|i: int| 0 <= i < ids.len() ==> #[trigger] ids[i] <= active_id_of(ids),
    decreases ids.len(),
{
    if ids.len() > 0 {
        law_active_is_largest(ids.drop_last());
        assert forall|i: int| 0 <= i < ids.len() implies #[trigger] ids[i] <= active_id_of(ids) by {
            if i < ids.len() - 1 {
                assert(ids[i] == ids.drop_last()[i]);
            }
        }
    }
}

/// The merge file of a compaction is a new file: no data file among the
/// directory's names has its id.
pub proof fn law_merge_file_is_new(names: Seq<Seq<char>>)
    requires
        active_id_of(data_ids(names)) < u32::MAX,
    ensures
        !data_ids(names).contains((active_id_of(data_ids(names)) + 1) as u32),
{
    law_active_is_largest(data_ids(names));
}

/// The number of bytes of key and value that follow a header; `None` where
/// the sum does not fit in 32 bits.
pub fn kv_len(h: &EntryHeader) -> (r: Option<usize>)
    ensures
        h.key_size + h.value_size <= u32::MAX ==> r == Some((h.key_size + h.value_size) as usize),
        h.key_size + h.value_size > u32::MAX ==> r is None,
{
    if h.key_size as u64 + h.value_size as u64 > 0xFFFF_FFFF {
        None
    } else {
        Some((h.key_size + h.value_size) as usize)
    }
}

/// The value of an entry, given the key and value bytes that follow its
/// header and the key's size.
pub fn value_of(kv: &[u8], key_size: u32) -> (v: Vec<u8>)
    requires
        key_size <= kv@.len(),
    ensures
        v@ == kv@.subrange(key_size as int, kv@.len() as int),
{
    crate::log::copy_range(kv, key_size as usize, kv.len())
}

} // verus!
