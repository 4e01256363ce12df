//! Reading the data files of the log store: the scan that finds every entry
//! of a file, and the replay that rebuilds the key directory from it.
use crate::format::{read_header, HEADER_SIZE};
use crate::keydir::{EntryLocation, KeyDir};
use crate::wire::get_u32;
use vstd::prelude::*;

verus! {

/// An entry as the scan of a data file finds it.
pub struct ScanItem {
    pub offset: int,
    pub len: int,
    pub key: Seq<u8>,
    pub value: Seq<u8>,
}

/// The entry whose header starts at `off` in `s`.
pub open spec fn item_at(s: Seq<u8>, off: int) -> ScanItem {
    let h = read_header(s, off);
    let key_end = off + HEADER_SIZE + h.key_size;
    ScanItem {
        offset: off,
        len: h.spec_entry_len(),
        key: s.subrange(off + HEADER_SIZE, key_end),
        value: s.subrange(key_end, off + h.spec_entry_len()),
    }
}

/// Whether a whole entry starts at `off` in `s`: its header and its key and
/// value all lie within `s`.
pub open spec fn entry_fits(s: Seq<u8>, off: int) -> bool {
    &&& 0 <= off
    &&& off + HEADER_SIZE <= s.len()
    &&& off + read_header(s, off).spec_entry_len() <= s.len()
}

/// The entries found by reading `s` from `off` on, one after another, until
/// the data ends or an entry is cut short.
pub open spec fn scan_from(s: Seq<u8>, off: int) -> Seq<ScanItem>
    decreases s.len() - off,
{
    if !entry_fits(s, off) {
        Seq::empty()
    } else {
        seq![item_at(s, off)] + scan_from(s, off + read_header(s, off).spec_entry_len())
    }
}

/// Where the scan of `s` from `off` stops.
pub open spec fn scan_end(s: Seq<u8>, off: int) -> int
    decreases s.len() - off,
{
    if !entry_fits(s, off) {
        off
    } else {
        scan_end(s, off + read_header(s, off).spec_entry_len())
    }
}

/// The entries of a data file.
pub open spec fn scan(s: Seq<u8>) -> Seq<ScanItem> {
    scan_from(s, 0)
}

/// A data file that holds whole entries only.
pub open spec fn whole_log(s: Seq<u8>) -> bool {
    scan_end(s, 0) == s.len()
}

/// The location of a scanned entry of file `file_id`.
pub open spec fn location_of(file_id: u32, it: ScanItem) -> EntryLocation {
    EntryLocation { file_id, offset: it.offset as u64, valid_len: it.len as u32 }
}

/// The directory after recording, in order, each of `items` of file `file_id`.
pub open spec fn replay_items(
    m: Map<Seq<u8>, EntryLocation>,
    file_id: u32,
    items: Seq<ScanItem>,
) -> Map<Seq<u8>, EntryLocation>
    decreases items.len(),
{
    if items.len() == 0 {
        m
    } else {
        replay_items(m, file_id, items.drop_last()).insert(
            items.last().key,
            location_of(file_id, items.last()),
        )
    }
}

/// The directory after replaying, in the order of `ids`, the data files of
/// `disk`.
pub open spec fn replay_files(
    m: Map<Seq<u8>, EntryLocation>,
    disk: Map<u32, Seq<u8>>,
    ids: Seq<u32>,
) -> Map<Seq<u8>, EntryLocation>
    decreases ids.len(),
{
    if ids.len() == 0 {
        m
    } else {
        replay_items(replay_files(m, disk, ids.drop_last()), ids.last(), scan(disk[ids.last()]))
    }
}

/// An entry read back from a data file.
pub struct LogRecord {
    pub location: EntryLocation,
    pub key: Vec<u8>,
    pub value: Vec<u8>,
}

impl LogRecord {
    /// This record is the scanned entry `it` of file `file_id`.
    pub open spec fn is_item(&self, file_id: u32, it: ScanItem) -> bool {
        &&& self.location == location_of(file_id, it)
        &&& self.key@ == it.key
        &&& self.value@ == it.value
    }
}

/// The bytes `data[from..to]`.
pub fn copy_range(data: &[u8], from: usize, to: usize) -> (r: Vec<u8>)
    requires
        from <= to <= data@.len(),
    ensures
        r@ == data@.subrange(from as int, to as int),
{
    let mut r: Vec<u8> = Vec::new();
    let mut i = from;
    while i < to
        invariant
            from <= i <= to,
            to <= data@.len(),
            r@ == data@.subrange(from as int, i as int),
        decreases to - i,
    {
        r.push(data[i]);
        i = i + 1;
        assert(r@ =~= data@.subrange(from as int, i as int));
    }
    r
}

/// Reads every entry of the data file `file_id`, whose bytes are `data`, in
/// order, stopping where the data ends or an entry is cut short.
pub fn scan_entries(file_id: u32, data: &[u8]) -> (r: Vec<LogRecord>)
    ensures
        r@.len() == scan(data@).len(),
        forall|i: int| 0 <= i < r@.len() ==> (#[trigger] r@[i]).is_item(file_id, scan(data@)[i]),
{
    let len = data.len();
    let mut r: Vec<LogRecord> = Vec::new();
    let mut off: usize = 0;
    let ghost mut items: Seq<ScanItem> = Seq::empty();
    loop
        invariant
            len == data@.len(),
            off <= len,
            scan(data@) == items + scan_from(data@, off as int),
            r@.len() == items.len(),
            forall|i: int| 0 <= i < r@.len() ==> (#[trigger] r@[i]).is_item(file_id, items[i]),
        ensures
            r@.len() == scan(data@).len(),
            forall|i: int| 0 <= i < r@.len() ==> (#[trigger] r@[i]).is_item(file_id, scan(data@)[i]),
        decreases len - off,
    {
        if len - off < HEADER_SIZE {
            assert(scan_from(data@, off as int) =~= Seq::<ScanItem>::empty());
            assert(scan(data@) =~= items);
            break;
        }
        let key_size = get_u32(data, off + 12);
        let value_size = get_u32(data, off + 16);
        let entry_len: u64 = 20 + key_size as u64 + value_size as u64;
        if entry_len > (len - off) as u64 {
            assert(scan_from(data@, off as int) =~= Seq::<ScanItem>::empty());
            assert(scan(data@) =~= items);
            break;
        }
        let ghost it = item_at(data@, off as int);
        let entry_len = entry_len as usize;
        let key_end = off + 20 + key_size as usize;
        let key = copy_range(data, off + 20, key_end);
        let value = copy_range(data, key_end, off + entry_len);
        let record = LogRecord {
            location: EntryLocation {
                file_id,
                offset: off as u64,
                valid_len: entry_len as u32,
            },
            key,
            value,
        };
        r.push(record);
        proof {
            assert(scan_from(data@, off as int) == seq![it] + scan_from(
                data@,
                off + entry_len,
            ));
            items = items.push(it);
            assert(scan(data@) =~= items + scan_from(data@, off + entry_len));
            assert(r@[r@.len() - 1].is_item(file_id, items[items.len() - 1]));
        }
        off = off + entry_len;
    }
    r
}

/// Records in `dir`, in order, every entry of the data file `file_id`, whose
/// bytes are `data`.
pub fn replay_file(dir: &mut KeyDir, file_id: u32, data: &[u8])
    ensures
        final(dir)@ == replay_items(old(dir)@, file_id, scan(data@)),
{
    let records = scan_entries(file_id, data);
    let ghost items = scan(data@);
    let ghost start = dir@;
    let mut i: usize = 0;
    while i < records.len()
        invariant
            i <= records@.len(),
            records@.len() == items.len(),
            items == scan(data@),
            forall|j: int| 0 <= j < records@.len() ==> (#[trigger] records@[j]).is_item(file_id, items[j]),
            dir@ == replay_items(start, file_id, items.take(i as int)),
        decreases records@.len() - i,
    {
        let record = &records[i];
        let key = copy_range(&record.key, 0, record.key.len());
        assert(key@ =~= record.key@);
        dir.insert(key, record.location);
        proof {
            assert(items.take(i + 1).drop_last() =~= items.take(i as int));
            assert(records@[i as int].is_item(file_id, items[i as int]));
        }
        i = i + 1;
    }
    assert(items.take(records@.len() as int) =~= items);
}

} // verus!
