//! Laws of the log store: what reading gives back of writing, what replaying
//! the data files rebuilds, and what compaction keeps.
//!
//! The data files are modelled as a map from file id to bytes (`disk`); the
//! key directory as a map from key to location (`index`). A write appends
//! the encoded entry to the active file and records its location; a read
//! looks the key up and decodes the entry at that location. Compaction
//! walks the files other than the active one, writes each entry that the
//! directory still points at to a new merge file, which then takes writes,
//! and deletes each file it has walked.
use crate::engine::{data_ids, spec_data_file_id};
use crate::format::{
    entry_bytes, header_bytes, header_for, read_header, EntryHeader, HEADER_SIZE,
};
use crate::keydir::EntryLocation;
use crate::log::{
    entry_fits, item_at, location_of, replay_files, replay_items, scan, scan_end, scan_from,
    whole_log, ScanItem,
};
use crate::wire::{be_u32, be_u64, lemma_be_u32_roundtrip, lemma_be_u64_roundtrip};
use vstd::prelude::*;

verus! {

/// What a read of the entry at `off` of `s` gives: its value, or `None`
/// where the header or the key and value cannot be read whole, or where the
/// key and value sizes do not add up within 32 bits.
pub open spec fn read_value_at(s: Seq<u8>, off: int) -> Option<Seq<u8>> {
    if entry_fits(s, off) && read_header(s, off).key_size + read_header(s, off).value_size
        <= u32::MAX {
        Some(item_at(s, off).value)
    } else {
        None
    }
}

/// What a read of `key` gives.
pub open spec fn stored_value(
    index: Map<Seq<u8>, EntryLocation>,
    disk: Map<u32, Seq<u8>>,
    key: Seq<u8>,
) -> Option<Seq<u8>> {
    if index.contains_key(key) && disk.contains_key(index[key].file_id) {
        read_value_at(disk[index[key].file_id], index[key].offset as int)
    } else {
        None
    }
}

/// The keys that can be read, with the values that reading them gives.
pub open spec fn contents(index: Map<Seq<u8>, EntryLocation>, disk: Map<u32, Seq<u8>>) -> Map<
    Seq<u8>,
    Seq<u8>,
> {
    Map::new(
        |k: Seq<u8>| stored_value(index, disk, k) is Some,
        |k: Seq<u8>| stored_value(index, disk, k).unwrap(),
    )
}

/// Every recorded location is that of an entry of its file, for that key.
pub open spec fn index_sound(index: Map<Seq<u8>, EntryLocation>, disk: Map<u32, Seq<u8>>) -> bool {
    forall|k: Seq<u8>|
        #[trigger] index.contains_key(k) ==> {
            &&& disk.contains_key(index[k].file_id)
            &&& exists|j: int|
                0 <= j < scan(disk[index[k].file_id]).len() && location_of(
                    index[k].file_id,
                    #[trigger] scan(disk[index[k].file_id])[j],
                ) == index[k] && scan(disk[index[k].file_id])[j].key == k
        }
}

/// The data files after writing `key` and `value`, stamped `timestamp`, to
/// the file `active`.
pub open spec fn disk_after_put(
    disk: Map<u32, Seq<u8>>,
    active: u32,
    key: Seq<u8>,
    value: Seq<u8>,
    timestamp: u64,
) -> Map<u32, Seq<u8>> {
    disk.insert(active, disk[active] + entry_bytes(header_for(key, value, timestamp), key, value))
}

/// The location that a write of `key` and `value` to the file `active`
/// records.
pub open spec fn put_location(
    disk: Map<u32, Seq<u8>>,
    active: u32,
    key: Seq<u8>,
    value: Seq<u8>,
) -> EntryLocation {
    EntryLocation {
        file_id: active,
        offset: disk[active].len() as u64,
        valid_len: (HEADER_SIZE + key.len() + value.len()) as u32,
    }
}

/// Reading a header back from its encoding gives the header.
pub proof fn lemma_header_roundtrip(h: EntryHeader, s: Seq<u8>, i: int)
    requires
        0 <= i,
        i + HEADER_SIZE <= s.len(),
        s.subrange(i, i + HEADER_SIZE) == header_bytes(h),
    ensures
        read_header(s, i) == h,
{
    let hb = header_bytes(h);
    assert(s.subrange(i, i + 4) =~= be_u32(h.crc)) by {
        assert forall|j: int| 0 <= j < 4 implies s.subrange(i, i + 4)[j] == be_u32(h.crc)[j] by {
            assert(s.subrange(i, i + 4)[j] == hb[j]);
        }
    }
    assert(s.subrange(i + 4, i + 12) =~= be_u64(h.timestamp)) by {
        assert forall|j: int| 0 <= j < 8 implies s.subrange(i + 4, i + 12)[j] == be_u64(
            h.timestamp,
        )[j] by {
            assert(s.subrange(i + 4, i + 12)[j] == hb[4 + j]);
        }
    }
    assert(s.subrange(i + 12, i + 16) =~= be_u32(h.key_size)) by {
        assert forall|j: int| 0 <= j < 4 implies s.subrange(i + 12, i + 16)[j] == be_u32(
            h.key_size,
        )[j] by {
            assert(s.subrange(i + 12, i + 16)[j] == hb[12 + j]);
        }
    }
    assert(s.subrange(i + 16, i + 20) =~= be_u32(h.value_size)) by {
        assert forall|j: int| 0 <= j < 4 implies s.subrange(i + 16, i + 20)[j] == be_u32(
            h.value_size,
        )[j] by {
            assert(s.subrange(i + 16, i + 20)[j] == hb[16 + j]);
        }
    }
    lemma_be_u32_roundtrip(h.crc, s, i);
    lemma_be_u64_roundtrip(h.timestamp, s, i + 4);
    lemma_be_u32_roundtrip(h.key_size, s, i + 12);
    lemma_be_u32_roundtrip(h.value_size, s, i + 16);
}

/// A header within `s` reads the same in any extension of `s`, and so does a
/// whole entry.
proof fn lemma_entry_prefix(s: Seq<u8>, t: Seq<u8>, off: int)
    requires
        0 <= off,
        off + HEADER_SIZE <= s.len(),
    ensures
        read_header(s + t, off) == read_header(s, off),
        entry_fits(s, off) ==> entry_fits(s + t, off) && item_at(s + t, off) == item_at(s, off),
{
    assert forall|j: int| 0 <= j < s.len() implies #[trigger] (s + t)[j] == s[j] by {}
    if entry_fits(s, off) {
        let it = item_at(s, off);
        let h = read_header(s, off);
        assert((s + t).subrange(off + HEADER_SIZE, off + HEADER_SIZE + h.key_size) =~= s.subrange(
            off + HEADER_SIZE,
            off + HEADER_SIZE + h.key_size,
        ));
        assert((s + t).subrange(off + HEADER_SIZE + h.key_size, off + h.spec_entry_len())
            =~= s.subrange(off + HEADER_SIZE + h.key_size, off + h.spec_entry_len()));
    }
}

/// Every entry that a scan finds lies whole within the data, reads back as
/// itself, and follows the one before it.
proof fn lemma_scan_items(s: Seq<u8>, off: int)
    requires
        0 <= off,
    ensures
        off <= scan_end(s, off),
        off <= s.len() ==> scan_end(s, off) <= s.len(),
        forall|j: int|
            0 <= j < scan_from(s, off).len() ==> {
                let it = #[trigger] scan_from(s, off)[j];
                &&& entry_fits(s, it.offset)
                &&& it == item_at(s, it.offset)
                &&& off <= it.offset
                &&& it.offset + it.len <= scan_end(s, off)
                &&& it.len == read_header(s, it.offset).spec_entry_len()
            },
        forall|i: int, j: int|
            0 <= i < j < scan_from(s, off).len() ==> #[trigger] scan_from(s, off)[i].offset
                + scan_from(s, off)[i].len <= #[trigger] scan_from(s, off)[j].offset,
    decreases s.len() - off,
{
    if entry_fits(s, off) {
        let next = off + read_header(s, off).spec_entry_len();
        lemma_scan_items(s, next);
        let rest = scan_from(s, next);
        assert(scan_from(s, off) == seq![item_at(s, off)] + rest);
        assert forall|i: int, j: int|
            0 <= i < j < scan_from(s, off).len() implies #[trigger] scan_from(s, off)[i].offset
            + scan_from(s, off)[i].len <= #[trigger] scan_from(s, off)[j].offset by {
            if i > 0 {
                assert(scan_from(s, off)[i] == rest[i - 1]);
                assert(scan_from(s, off)[j] == rest[j - 1]);
            } else {
                assert(scan_from(s, off)[j] == rest[j - 1]);
            }
        }
        assert forall|j: int| 0 <= j < scan_from(s, off).len() implies {
            let it = #[trigger] scan_from(s, off)[j];
            &&& entry_fits(s, it.offset)
            &&& it == item_at(s, it.offset)
            &&& off <= it.offset
            &&& it.offset + it.len <= scan_end(s, off)
            &&& it.len == read_header(s, it.offset).spec_entry_len()
        } by {
            if j > 0 {
                assert(scan_from(s, off)[j] == rest[j - 1]);
            }
        }
    }
}

/// Scanning data that holds whole entries from `off`, then more data, finds
/// the entries of the first part and then those of the second.
proof fn lemma_scan_append(s: Seq<u8>, t: Seq<u8>, off: int)
    requires
        0 <= off <= s.len(),
        scan_end(s, off) == s.len(),
    ensures
        scan_from(s + t, off) == scan_from(s, off) + scan_from(s + t, s.len() as int),
        scan_end(s + t, off) == scan_end(s + t, s.len() as int),
    decreases s.len() - off,
{
    if off == s.len() {
        assert(!entry_fits(s, off));
        assert(scan_from(s, off) =~= Seq::<ScanItem>::empty());
        assert(scan_from(s, off) + scan_from(s + t, s.len() as int) =~= scan_from(
            s + t,
            s.len() as int,
        ));
    } else {
        assert(entry_fits(s, off));
        lemma_entry_prefix(s, t, off);
        let next = off + read_header(s, off).spec_entry_len();
        lemma_scan_items(s, next);
        lemma_scan_append(s, t, next);
        assert(scan_from(s + t, off) == seq![item_at(s, off)] + scan_from(s + t, next));
        assert(scan_from(s, off) == seq![item_at(s, off)] + scan_from(s, next));
        assert(scan_from(s + t, off) =~= scan_from(s, off) + scan_from(s + t, s.len() as int));
    }
}

/// The entry encoded from `h`, `key` and `value` and appended to `s` is
/// found by a scan from where it starts, whole, and nothing after it.
#[verifier::rlimit(30)]
proof fn lemma_scan_entry(s: Seq<u8>, h: EntryHeader, key: Seq<u8>, value: Seq<u8>)
    requires
        h.key_size == key.len(),
        h.value_size == value.len(),
    ensures
        ({
            let u = s + entry_bytes(h, key, value);
            let it = ScanItem {
                offset: s.len() as int,
                len: HEADER_SIZE + key.len() + value.len(),
                key,
                value,
            };
            &&& entry_fits(u, s.len() as int)
            &&& read_header(u, s.len() as int) == h
            &&& item_at(u, s.len() as int) == it
            &&& scan_from(u, s.len() as int) == seq![it]
            &&& scan_end(u, s.len() as int) == u.len()
        }),
{
    let hb = header_bytes(h);
    let t = entry_bytes(h, key, value);
    let u = s + t;
    let p = s.len() as int;
    assert(hb.len() == HEADER_SIZE);
    assert(t =~= hb + key + value);
    assert forall|j: int| 0 <= j < HEADER_SIZE implies #[trigger] u[p + j] == hb[j] by {
        assert(u[p + j] == t[j]);
    }
    assert(u.subrange(p, p + HEADER_SIZE) =~= hb);
    lemma_header_roundtrip(h, u, p);
    assert forall|j: int| 0 <= j < key.len() implies #[trigger] u[p + HEADER_SIZE + j] == key[j] by {
        assert(u[p + HEADER_SIZE + j] == t[HEADER_SIZE + j]);
    }
    assert(u.subrange(p + HEADER_SIZE, p + HEADER_SIZE + key.len()) =~= key);
    assert forall|j: int| 0 <= j < value.len() implies #[trigger] u[p + HEADER_SIZE + key.len() + j]
        == value[j] by {
        assert(u[p + HEADER_SIZE + key.len() + j] == t[HEADER_SIZE + key.len() + j]);
    }
    assert(u.subrange(p + HEADER_SIZE + key.len(), u.len() as int) =~= value);
    assert(u.len() == p + HEADER_SIZE + key.len() + value.len());
    assert(!entry_fits(u, u.len() as int));
    assert(scan_from(u, u.len() as int) =~= Seq::<ScanItem>::empty());
    let it = ScanItem { offset: p, len: HEADER_SIZE + key.len() + value.len(), key, value };
    assert(entry_fits(u, p));
    assert(item_at(u, p) == it);
    assert(scan_from(u, p) == seq![item_at(u, p)] + scan_from(u, u.len() as int));
    assert(scan_from(u, p) =~= seq![it]);
    assert(scan_end(u, p) == scan_end(u, u.len() as int));
    assert(scan_end(u, p) == u.len());
}

/// The entry format reads back what it writes: scanning the bytes of a single
/// encoded entry (whose sizes are those of its key and value) finds exactly
/// that entry, with its header, key and value.
pub proof fn law_entry_roundtrip(h: EntryHeader, key: Seq<u8>, value: Seq<u8>)
    requires
        h.key_size == key.len(),
        h.value_size == value.len(),
    ensures
        read_header(entry_bytes(h, key, value), 0) == h,
        scan(entry_bytes(h, key, value)) == seq![
            ScanItem { offset: 0, len: HEADER_SIZE + key.len() + value.len(), key, value },
        ],
        whole_log(entry_bytes(h, key, value)),
{
    let e = Seq::<u8>::empty();
    lemma_scan_entry(e, h, key, value);
    assert(e + entry_bytes(h, key, value) =~= entry_bytes(h, key, value));
}

/// Every recorded location holds, whole, an entry for its key.
pub open spec fn index_points(index: Map<Seq<u8>, EntryLocation>, disk: Map<u32, Seq<u8>>) -> bool {
    forall|k: Seq<u8>|
        #[trigger] index.contains_key(k) ==> {
            &&& disk.contains_key(index[k].file_id)
            &&& entry_fits(disk[index[k].file_id], index[k].offset as int)
            &&& item_at(disk[index[k].file_id], index[k].offset as int).key == k
        }
}

/// No data file is longer than a `u64` offset reaches.
pub open spec fn offsets_fit(disk: Map<u32, Seq<u8>>) -> bool {
    forall|id: u32| #[trigger] disk.contains_key(id) ==> disk[id].len() <= u64::MAX
}

/// A directory whose locations are entries that a scan finds has every
/// location hold, whole, an entry for its key.
pub proof fn lemma_sound_points(index: Map<Seq<u8>, EntryLocation>, disk: Map<u32, Seq<u8>>)
    requires
        index_sound(index, disk),
        offsets_fit(disk),
    ensures
        index_points(index, disk),
{
    assert forall|k: Seq<u8>| #[trigger] index.contains_key(k) implies {
        &&& disk.contains_key(index[k].file_id)
        &&& entry_fits(disk[index[k].file_id], index[k].offset as int)
        &&& item_at(disk[index[k].file_id], index[k].offset as int).key == k
    } by {
        let f = index[k].file_id;
        let j = choose|j: int|
            0 <= j < scan(disk[f]).len() && location_of(f, #[trigger] scan(disk[f])[j]) == index[k]
                && scan(disk[f])[j].key == k;
        lemma_scan_items(disk[f], 0);
        assert(scan(disk[f])[j].offset < disk[f].len());
    }
}

/// Appending bytes to a data file changes no read: whatever was appended
/// (a whole entry or a torn one), every recorded location still holds its
/// entry and every key reads as before.
pub proof fn law_append_keeps_reads(
    index: Map<Seq<u8>, EntryLocation>,
    disk: Map<u32, Seq<u8>>,
    f: u32,
    t: Seq<u8>,
)
    requires
        index_points(index, disk),
        disk.contains_key(f),
    ensures
        index_points(index, disk.insert(f, disk[f] + t)),
        contents(index, disk.insert(f, disk[f] + t)) == contents(index, disk),
        forall|k: Seq<u8>| #[trigger] stored_value(index, disk.insert(f, disk[f] + t), k)
            == stored_value(index, disk, k),
{
    let disk2 = disk.insert(f, disk[f] + t);
    assert forall|k: Seq<u8>| #[trigger] index.contains_key(k) implies {
        &&& disk2.contains_key(index[k].file_id)
        &&& entry_fits(disk2[index[k].file_id], index[k].offset as int)
        &&& item_at(disk2[index[k].file_id], index[k].offset as int).key == k
    } by {
        if index[k].file_id == f {
            lemma_entry_prefix(disk[f], t, index[k].offset as int);
        }
    }
    assert forall|k: Seq<u8>| #[trigger] stored_value(index, disk2, k) == stored_value(
        index,
        disk,
        k,
    ) by {
        if index.contains_key(k) && index[k].file_id == f {
            lemma_entry_prefix(disk[f], t, index[k].offset as int);
        }
    }
    assert(contents(index, disk2) =~= contents(index, disk));
}

/// A read gives back the last write: after writing `key` and `value` to the
/// active file and recording the new location, a read of `key` gives
/// `value`, a read of any other key gives what it gave before, and every
/// recorded location still holds an entry for its key. This holds whatever
/// the active file ended with, a torn entry included; where it held whole
/// entries only, it still does.
pub proof fn law_put_then_get(
    index: Map<Seq<u8>, EntryLocation>,
    disk: Map<u32, Seq<u8>>,
    active: u32,
    key: Seq<u8>,
    value: Seq<u8>,
    timestamp: u64,
)
    requires
        index_points(index, disk),
        disk.contains_key(active),
        key.len() + value.len() <= u32::MAX,
        disk[active].len() + HEADER_SIZE + key.len() + value.len() <= u64::MAX,
    ensures
        ({
            let disk2 = disk_after_put(disk, active, key, value, timestamp);
            let index2 = index.insert(key, put_location(disk, active, key, value));
            &&& index_points(index2, disk2)
            &&& whole_log(disk[active]) ==> whole_log(disk2[active])
            &&& stored_value(index2, disk2, key) == Some(value)
            &&& forall|k: Seq<u8>|
                k != key ==> #[trigger] stored_value(index2, disk2, k) == stored_value(
                    index,
                    disk,
                    k,
                )
            &&& contents(index2, disk2) == contents(index, disk).insert(key, value)
        }),
{
    let s = disk[active];
    let h = header_for(key, value, timestamp);
    let t = entry_bytes(h, key, value);
    let u = s + t;
    let p = s.len() as int;
    let disk2 = disk_after_put(disk, active, key, value, timestamp);
    let index2 = index.insert(key, put_location(disk, active, key, value));
    assert(disk2 == disk.insert(active, disk[active] + t));
    law_append_keeps_reads(index, disk, active, t);
    lemma_scan_entry(s, h, key, value);
    if whole_log(s) {
        lemma_scan_append(s, t, 0);
    }
    assert(put_location(disk, active, key, value).offset as int == p);
    assert forall|k: Seq<u8>| #[trigger] index2.contains_key(k) implies {
        &&& disk2.contains_key(index2[k].file_id)
        &&& entry_fits(disk2[index2[k].file_id], index2[k].offset as int)
        &&& item_at(disk2[index2[k].file_id], index2[k].offset as int).key == k
    } by {
        if k != key {
            assert(index.contains_key(k));
        }
    }
    assert(stored_value(index2, disk2, key) == Some(value));
    assert forall|k: Seq<u8>| k != key implies #[trigger] stored_value(index2, disk2, k)
        == stored_value(index, disk, k) by {
        assert(stored_value(index, disk2, k) == stored_value(index, disk, k));
    }
    assert(contents(index2, disk2) =~= contents(index, disk).insert(key, value));
}

/// Replaying depends only on the bytes of the files replayed: any other
/// file, or any other content under another id, leaves the directory as it
/// is.
pub proof fn law_replay_reads_only_replayed_files(
    m: Map<Seq<u8>, EntryLocation>,
    disk: Map<u32, Seq<u8>>,
    disk2: Map<u32, Seq<u8>>,
    ids: Seq<u32>,
)
    requires
        forall|i: int| 0 <= i < ids.len() ==> disk2[#[trigger] ids[i]] == disk[ids[i]],
    ensures
        replay_files(m, disk2, ids) == replay_files(m, disk, ids),
    decreases ids.len(),
{
    if ids.len() > 0 {
        law_replay_reads_only_replayed_files(m, disk, disk2, ids.drop_last());
        assert(disk2[ids.last()] == disk[ids[ids.len() - 1]]);
    }
}

/// A file whose name is not that of a data file never affects the store:
/// adding its name anywhere among the directory's names leaves the data file
/// ids, and so the replay order and the file that writes go to, as they
/// were.
pub proof fn law_other_names_ignored(names: Seq<Seq<char>>, i: int, x: Seq<char>)
    requires
        0 <= i <= names.len(),
        spec_data_file_id(x) is None,
    ensures
        data_ids(names.insert(i, x)) == data_ids(names),
    decreases names.len(),
{
    let with = names.insert(i, x);
    if i == names.len() {
        assert(with.drop_last() =~= names);
        assert(with.last() == x);
    } else {
        law_other_names_ignored(names.drop_last(), i, x);
        assert(with.drop_last() =~= names.drop_last().insert(i, x));
        assert(with.last() == names.last());
    }
}

/// Persistence: when the key directory is what replaying the data files
/// rebuilds, with the active file replayed last, then after a write the key
/// directory is again what replaying the data files rebuilds. Reopening the
/// store after writes thus finds every key where the running store has it.
pub proof fn law_put_then_replay(
    m: Map<Seq<u8>, EntryLocation>,
    disk: Map<u32, Seq<u8>>,
    ids: Seq<u32>,
    key: Seq<u8>,
    value: Seq<u8>,
    timestamp: u64,
)
    requires
        ids.len() > 0,
        !ids.drop_last().contains(ids.last()),
        disk.contains_key(ids.last()),
        whole_log(disk[ids.last()]),
        key.len() + value.len() <= u32::MAX,
        disk[ids.last()].len() + HEADER_SIZE + key.len() + value.len() <= u64::MAX,
    ensures
        replay_files(m, disk_after_put(disk, ids.last(), key, value, timestamp), ids)
            == replay_files(m, disk, ids).insert(key, put_location(disk, ids.last(), key, value)),
{
    let active = ids.last();
    let s = disk[active];
    let h = header_for(key, value, timestamp);
    let t = entry_bytes(h, key, value);
    let disk2 = disk_after_put(disk, active, key, value, timestamp);
    let pre = ids.drop_last();
    assert forall|i: int| 0 <= i < pre.len() implies disk2[#[trigger] pre[i]] == disk[pre[i]] by {
        assert(pre.contains(pre[i]));
    }
    law_replay_reads_only_replayed_files(m, disk, disk2, pre);
    lemma_scan_entry(s, h, key, value);
    lemma_scan_append(s, t, 0);
    let it = ScanItem {
        offset: s.len() as int,
        len: HEADER_SIZE + key.len() + value.len(),
        key,
        value,
    };
    assert(scan(disk2[active]) == scan(s) + seq![it]);
    assert((scan(s) + seq![it]).drop_last() =~= scan(s));
    let base = replay_files(m, disk, pre);
    assert(replay_items(base, active, scan(s) + seq![it]) == replay_items(
        base,
        active,
        scan(s),
    ).insert(key, location_of(active, it)));
}

/// Recording the entries of a file, from a sound directory, keeps it sound.
proof fn lemma_replay_items_sound(
    m: Map<Seq<u8>, EntryLocation>,
    disk: Map<u32, Seq<u8>>,
    f: u32,
    n: int,
)
    requires
        index_sound(m, disk),
        disk.contains_key(f),
        0 <= n <= scan(disk[f]).len(),
    ensures
        index_sound(replay_items(m, f, scan(disk[f]).take(n)), disk),
    decreases n,
{
    let items = scan(disk[f]).take(n);
    if n > 0 {
        lemma_replay_items_sound(m, disk, f, n - 1);
        assert(items.drop_last() =~= scan(disk[f]).take(n - 1));
        let prev = replay_items(m, f, scan(disk[f]).take(n - 1));
        let cur = replay_items(m, f, items);
        assert(cur == prev.insert(items.last().key, location_of(f, items.last())));
        assert forall|k: Seq<u8>| #[trigger] cur.contains_key(k) implies {
            &&& disk.contains_key(cur[k].file_id)
            &&& exists|j: int|
                0 <= j < scan(disk[cur[k].file_id]).len() && location_of(
                    cur[k].file_id,
                    #[trigger] scan(disk[cur[k].file_id])[j],
                ) == cur[k] && scan(disk[cur[k].file_id])[j].key == k
        } by {
            if k == items.last().key {
                let j = n - 1;
                assert(scan(disk[f])[j] == items.last());
                assert(0 <= j < scan(disk[cur[k].file_id]).len() && location_of(
                    cur[k].file_id,
                    scan(disk[cur[k].file_id])[j],
                ) == cur[k] && scan(disk[cur[k].file_id])[j].key == k);
            } else {
                assert(prev.contains_key(k));
            }
        }
    } else {
        assert(items.len() == 0);
    }
}

/// Replaying data files, from an empty directory, gives a directory whose
/// every location is that of an entry of its key; a read of any key then
/// gives the value of the entry it was last replayed from.
pub proof fn law_replay_sound(disk: Map<u32, Seq<u8>>, ids: Seq<u32>)
    requires
        forall|i: int| 0 <= i < ids.len() ==> disk.contains_key(#[trigger] ids[i]),
    ensures
        index_sound(replay_files(Map::empty(), disk, ids), disk),
    decreases ids.len(),
{
    if ids.len() > 0 {
        law_replay_sound(disk, ids.drop_last());
        let f = ids.last();
        assert(disk.contains_key(ids[ids.len() - 1]));
        let items = scan(disk[f]);
        lemma_replay_items_sound(
            replay_files(Map::empty(), disk, ids.drop_last()),
            disk,
            f,
            items.len() as int,
        );
        assert(items.take(items.len() as int) =~= items);
    }
}

/// Whether the directory `m` still points at the entry `it` of file `f`,
/// by file and offset: the test that compaction makes before rewriting it.
pub open spec fn points_at(m: Map<Seq<u8>, EntryLocation>, f: u32, it: ScanItem) -> bool {
    m.contains_key(it.key) && m[it.key].file_id == f && m[it.key].offset == it.offset as u64
}

/// Two entries of a scan at the same offset are the same entry.
proof fn lemma_scan_offsets_distinct(s: Seq<u8>, i: int, j: int)
    requires
        s.len() <= u64::MAX,
        0 <= i < scan(s).len(),
        0 <= j < scan(s).len(),
        scan(s)[i].offset as u64 == scan(s)[j].offset as u64,
    ensures
        i == j,
{
    lemma_scan_items(s, 0);
    if i < j {
        assert(scan(s)[i].offset + scan(s)[i].len <= scan(s)[j].offset);
    } else if j < i {
        assert(scan(s)[j].offset + scan(s)[j].len <= scan(s)[i].offset);
    }
}

/// Every key that points into file `f` points at an entry that a scan of
/// `f` finds: what replaying the data files leaves for every file that is
/// not written to afterwards.
pub open spec fn sound_in(index: Map<Seq<u8>, EntryLocation>, disk: Map<u32, Seq<u8>>, f: u32) -> bool {
    forall|k: Seq<u8>|
        #[trigger] index.contains_key(k) && index[k].file_id == f ==> exists|j: int|
            0 <= j < scan(disk[f]).len() && location_of(f, #[trigger] scan(disk[f])[j]) == index[k]
                && scan(disk[f])[j].key == k
}

/// The entries `items` of file `f`, each with the file's id.
pub open spec fn tagged(f: u32, items: Seq<ScanItem>) -> Seq<(u32, ScanItem)> {
    items.map_values(|it: ScanItem| (f, it))
}

/// The entries that replaying the files `ids` of `disk` records, in the
/// order it records them, each with its file's id.
pub open spec fn replayed(disk: Map<u32, Seq<u8>>, ids: Seq<u32>) -> Seq<(u32, ScanItem)>
    decreases ids.len(),
{
    if ids.len() == 0 {
        Seq::empty()
    } else {
        replayed(disk, ids.drop_last()) + tagged(ids.last(), scan(disk[ids.last()]))
    }
}

/// The directory after recording, in order, each of the entries `es`.
pub open spec fn record_all(m: Map<Seq<u8>, EntryLocation>, es: Seq<(u32, ScanItem)>) -> Map<
    Seq<u8>,
    EntryLocation,
>
    decreases es.len(),
{
    if es.len() == 0 {
        m
    } else {
        record_all(m, es.drop_last()).insert(es.last().1.key, location_of(es.last().0, es.last().1))
    }
}

proof fn lemma_record_items(m: Map<Seq<u8>, EntryLocation>, f: u32, items: Seq<ScanItem>)
    ensures
        replay_items(m, f, items) == record_all(m, tagged(f, items)),
    decreases items.len(),
{
    if items.len() > 0 {
        lemma_record_items(m, f, items.drop_last());
        assert(tagged(f, items).drop_last() =~= tagged(f, items.drop_last()));
    }
}

proof fn lemma_record_append(
    m: Map<Seq<u8>, EntryLocation>,
    a: Seq<(u32, ScanItem)>,
    b: Seq<(u32, ScanItem)>,
)
    ensures
        record_all(m, a + b) == record_all(record_all(m, a), b),
    decreases b.len(),
{
    if b.len() == 0 {
        assert(a + b =~= a);
    } else {
        lemma_record_append(m, a, b.drop_last());
        assert((a + b).drop_last() =~= a + b.drop_last());
    }
}

proof fn lemma_replay_flat(m: Map<Seq<u8>, EntryLocation>, disk: Map<u32, Seq<u8>>, ids: Seq<u32>)
    ensures
        replay_files(m, disk, ids) == record_all(m, replayed(disk, ids)),
    decreases ids.len(),
{
    if ids.len() > 0 {
        lemma_replay_flat(m, disk, ids.drop_last());
        let f = ids.last();
        lemma_record_items(replay_files(m, disk, ids.drop_last()), f, scan(disk[f]));
        lemma_record_append(m, replayed(disk, ids.drop_last()), tagged(f, scan(disk[f])));
    }
}

proof fn lemma_record_last(m: Map<Seq<u8>, EntryLocation>, es: Seq<(u32, ScanItem)>, k: Seq<u8>)
    ensures
        record_all(m, es).contains_key(k) <==> (m.contains_key(k) || exists|j: int|
            0 <= j < es.len() && #[trigger] es[j].1.key == k),
        forall|j: int|
            0 <= j < es.len() && #[trigger] es[j].1.key == k && (forall|i: int|
                j < i < es.len() ==> es[i].1.key != k) ==> record_all(m, es)[k] == location_of(
                es[j].0,
                es[j].1,
            ),
    decreases es.len(),
{
    if es.len() > 0 {
        let n = es.len() - 1;
        let es0 = es.drop_last();
        lemma_record_last(m, es0, k);
        assert forall|j: int|
            0 <= j < es.len() && #[trigger] es[j].1.key == k && (forall|i: int|
                j < i < es.len() ==> es[i].1.key != k) implies record_all(m, es)[k] == location_of(
            es[j].0,
            es[j].1,
        ) by {
            if j < n {
                assert(es[n].1.key != k);
                assert(es0[j] == es[j]);
                assert forall|i: int| j < i < es0.len() implies es0[i].1.key != k by {
                    assert(es0[i] == es[i]);
                }
            }
        }
        if exists|j: int| 0 <= j < es.len() && #[trigger] es[j].1.key == k {
            let j = choose|j: int| 0 <= j < es.len() && #[trigger] es[j].1.key == k;
            if j < n {
                assert(es0[j] == es[j]);
            }
        }
        if exists|j: int| 0 <= j < es0.len() && #[trigger] es0[j].1.key == k {
            let j = choose|j: int| 0 <= j < es0.len() && #[trigger] es0[j].1.key == k;
            assert(es[j] == es0[j]);
        }
    }
}

/// Replaying the data files in order rebuilds, for every key, the location
/// of the last entry recorded for it: a key is in the directory exactly when
/// some replayed entry has it, and then at the last such entry, whatever
/// came before.
pub proof fn law_replay_last_entry_wins(disk: Map<u32, Seq<u8>>, ids: Seq<u32>, k: Seq<u8>)
    ensures
        ({
            let es = replayed(disk, ids);
            let m = replay_files(Map::empty(), disk, ids);
            &&& m.contains_key(k) <==> exists|j: int| 0 <= j < es.len() && #[trigger] es[j].1.key == k
            &&& forall|j: int|
                0 <= j < es.len() && #[trigger] es[j].1.key == k && (forall|i: int|
                    j < i < es.len() ==> es[i].1.key != k) ==> m[k] == location_of(es[j].0, es[j].1)
        }),
{
    lemma_replay_flat(Map::empty(), disk, ids);
    lemma_record_last(Map::empty(), replayed(disk, ids), k);
}

/// Compaction rewrites the current value: for an entry of file `f` that the
/// directory still points at, a read of its key gives that entry's value.
pub proof fn law_live_entry_is_current(
    index: Map<Seq<u8>, EntryLocation>,
    disk: Map<u32, Seq<u8>>,
    f: u32,
    j: int,
)
    requires
        index_points(index, disk),
        disk.contains_key(f),
        disk[f].len() <= u64::MAX,
        0 <= j < scan(disk[f]).len(),
        points_at(index, f, scan(disk[f])[j]),
        scan(disk[f])[j].key.len() + scan(disk[f])[j].value.len() <= u32::MAX,
    ensures
        stored_value(index, disk, scan(disk[f])[j].key) == Some(scan(disk[f])[j].value),
{
    lemma_item_facts(disk, f, j);
}

/// The directory and data files after compaction has walked `items` of file
/// `f` in order, writing each entry that the directory still points at anew
/// to the merge file `target`, the `i`-th stamped `timestamps[i]`.
pub open spec fn compact_steps(
    index: Map<Seq<u8>, EntryLocation>,
    disk: Map<u32, Seq<u8>>,
    f: u32,
    target: u32,
    items: Seq<ScanItem>,
    timestamps: Seq<u64>,
) -> (Map<Seq<u8>, EntryLocation>, Map<u32, Seq<u8>>)
    decreases items.len(),
{
    if items.len() == 0 {
        (index, disk)
    } else {
        let (m, d) = compact_steps(index, disk, f, target, items.drop_last(), timestamps);
        let it = items.last();
        if points_at(m, f, it) {
            (
                m.insert(it.key, put_location(d, target, it.key, it.value)),
                disk_after_put(d, target, it.key, it.value, timestamps[items.len() - 1]),
            )
        } else {
            (m, d)
        }
    }
}

/// Where the first `n` entries of `items` end.
pub open spec fn prefix_end(items: Seq<ScanItem>, n: int) -> int {
    if n == 0 {
        0
    } else {
        items[n - 1].offset + items[n - 1].len
    }
}

/// What holds after compaction has walked the first `n` entries of file `f`
/// into the merge file `target`: every key reads as before, every location
/// holds an entry for its key, only `target` has changed, each key is where
/// it was or in `target`, and the keys still in `f` are those whose entry
/// comes later.
pub open spec fn compact_progress(
    index: Map<Seq<u8>, EntryLocation>,
    disk: Map<u32, Seq<u8>>,
    f: u32,
    target: u32,
    n: int,
    m: Map<Seq<u8>, EntryLocation>,
    d: Map<u32, Seq<u8>>,
) -> bool {
    let items = scan(disk[f]);
    &&& index_points(m, d)
    &&& d.dom() == disk.dom()
    &&& forall|id: u32| id != target ==> #[trigger] d[id] == disk[id]
    &&& whole_log(disk[target]) ==> whole_log(d[target])
    &&& d[target].len() <= disk[target].len() + prefix_end(items, n)
    &&& contents(m, d) == contents(index, disk)
    &&& m.dom() == index.dom()
    &&& forall|k: Seq<u8>|
        #[trigger] m.contains_key(k) ==> m[k] == index[k] || m[k].file_id == target
    &&& forall|k: Seq<u8>|
        #[trigger] m.contains_key(k) && m[k].file_id == f ==> m[k] == index[k] && forall|j: int|
            0 <= j < n ==> location_of(f, #[trigger] items[j]) != index[k]
}

/// The facts about entry `n` of file `f` that a step of compaction uses.
proof fn lemma_item_facts(disk: Map<u32, Seq<u8>>, f: u32, n: int)
    requires
        disk.contains_key(f),
        0 <= n < scan(disk[f]).len(),
    ensures
        ({
            let items = scan(disk[f]);
            let it = items[n];
            &&& entry_fits(disk[f], it.offset)
            &&& it == item_at(disk[f], it.offset)
            &&& it.key.len() == read_header(disk[f], it.offset).key_size
            &&& it.value.len() == read_header(disk[f], it.offset).value_size
            &&& it.len == HEADER_SIZE + it.key.len() + it.value.len()
            &&& 0 <= it.offset
            &&& it.offset + it.len <= disk[f].len()
            &&& prefix_end(items, n) + it.len <= prefix_end(items, n + 1)
            &&& 0 <= prefix_end(items, n)
            &&& prefix_end(items, n + 1) <= disk[f].len()
        }),
{
    let items = scan(disk[f]);
    lemma_scan_items(disk[f], 0);
    let it = items[n];
    if n > 0 {
        assert(items[n - 1].offset + items[n - 1].len <= it.offset);
    }
}

/// What the preconditions of a compaction of file `f` into `target` are.
pub open spec fn compaction_ready(
    index: Map<Seq<u8>, EntryLocation>,
    disk: Map<u32, Seq<u8>>,
    f: u32,
    target: u32,
    timestamps: Seq<u64>,
) -> bool {
    &&& index_points(index, disk)
    &&& sound_in(index, disk, f)
    &&& disk.contains_key(f)
    &&& disk.contains_key(target)
    &&& f != target
    &&& disk[target].len() + disk[f].len() <= u64::MAX
    &&& forall|i: int|
        0 <= i < scan(disk[f]).len() ==> (#[trigger] scan(disk[f])[i]).key.len() + scan(
            disk[f],
        )[i].value.len() <= u32::MAX
    &&& timestamps.len() == scan(disk[f]).len()
}

/// A step of compaction that rewrites a live entry keeps its progress.
#[verifier::rlimit(60)]
proof fn lemma_compact_step_live(
    index: Map<Seq<u8>, EntryLocation>,
    disk: Map<u32, Seq<u8>>,
    f: u32,
    target: u32,
    timestamp: u64,
    n: int,
    m: Map<Seq<u8>, EntryLocation>,
    d: Map<u32, Seq<u8>>,
)
    requires
        index_points(index, disk),
        sound_in(index, disk, f),
        disk.contains_key(f),
        disk.contains_key(target),
        f != target,
        disk[target].len() + disk[f].len() <= u64::MAX,
        0 <= n < scan(disk[f]).len(),
        scan(disk[f])[n].key.len() + scan(disk[f])[n].value.len() <= u32::MAX,
        compact_progress(index, disk, f, target, n, m, d),
        points_at(m, f, scan(disk[f])[n]),
    ensures
        ({
            let it = scan(disk[f])[n];
            compact_progress(
                index,
                disk,
                f,
                target,
                n + 1,
                m.insert(it.key, put_location(d, target, it.key, it.value)),
                disk_after_put(d, target, it.key, it.value, timestamp),
            )
        }),
{
    let items = scan(disk[f]);
    let it = items[n];
    let k = it.key;
    lemma_item_facts(disk, f, n);
    assert(d[f] == disk[f]);
    law_live_entry_is_current(m, d, f, n);
    law_put_then_get(m, d, target, k, it.value, timestamp);
    let m2 = m.insert(k, put_location(d, target, k, it.value));
    let d2 = disk_after_put(d, target, k, it.value, timestamp);
    assert(contents(m, d).insert(k, it.value) =~= contents(m, d));
    assert forall|id: u32| id != target implies #[trigger] d2[id] == disk[id] by {
        assert(d2[id] == d[id]);
    }
    assert(d2.dom() =~= disk.dom());
    assert(m2.dom() =~= index.dom());
    assert forall|k2: Seq<u8>| #[trigger] m2.contains_key(k2) implies m2[k2] == index[k2]
        || m2[k2].file_id == target by {
        if k2 != k {
            assert(m2[k2] == m[k2]);
        }
    }
    assert forall|k2: Seq<u8>| #[trigger]
        m2.contains_key(k2) && m2[k2].file_id == f implies m2[k2] == index[k2] && forall|j: int|
        0 <= j < n + 1 ==> location_of(f, #[trigger] items[j]) != index[k2] by {
        assert(k2 != k);
        assert(m2[k2] == m[k2]);
        if location_of(f, items[n]) == index[k2] {
            let jj = choose|jj: int|
                0 <= jj < items.len() && location_of(f, #[trigger] items[jj]) == index[k2]
                    && items[jj].key == k2;
            lemma_scan_offsets_distinct(disk[f], jj, n);
        }
    }
}

/// A step of compaction that passes over a dead entry keeps its progress.
proof fn lemma_compact_step_dead(
    index: Map<Seq<u8>, EntryLocation>,
    disk: Map<u32, Seq<u8>>,
    f: u32,
    target: u32,
    n: int,
    m: Map<Seq<u8>, EntryLocation>,
    d: Map<u32, Seq<u8>>,
)
    requires
        sound_in(index, disk, f),
        disk.contains_key(f),
        disk[f].len() <= u64::MAX,
        0 <= n < scan(disk[f]).len(),
        compact_progress(index, disk, f, target, n, m, d),
        !points_at(m, f, scan(disk[f])[n]),
    ensures
        compact_progress(index, disk, f, target, n + 1, m, d),
{
    let items = scan(disk[f]);
    let it = items[n];
    lemma_item_facts(disk, f, n);
    assert forall|k2: Seq<u8>| #[trigger]
        m.contains_key(k2) && m[k2].file_id == f implies m[k2] == index[k2] && forall|j: int|
        0 <= j < n + 1 ==> location_of(f, #[trigger] items[j]) != index[k2] by {
        if location_of(f, items[n]) == index[k2] {
            let jj = choose|jj: int|
                0 <= jj < items.len() && location_of(f, #[trigger] items[jj]) == index[k2]
                    && items[jj].key == k2;
            lemma_scan_offsets_distinct(disk[f], jj, n);
            assert(points_at(m, f, it));
        }
    }
}

/// A compaction stopped part way keeps every read: after walking the first
/// `n` entries of file `f`, rewriting each live one into the merge file
/// `target`, every key reads as before and every location holds an entry
/// for its key.
pub proof fn law_compaction_partial(
    index: Map<Seq<u8>, EntryLocation>,
    disk: Map<u32, Seq<u8>>,
    f: u32,
    target: u32,
    timestamps: Seq<u64>,
    n: int,
)
    requires
        compaction_ready(index, disk, f, target, timestamps),
        0 <= n <= scan(disk[f]).len(),
    ensures
        ({
            let (m, d) = compact_steps(index, disk, f, target, scan(disk[f]).take(n), timestamps);
            compact_progress(index, disk, f, target, n, m, d)
        }),
    decreases n,
{
    let items = scan(disk[f]);
    if n == 0 {
        assert(items.take(0).len() == 0);
        assert(contents(index, disk) == contents(index, disk));
    } else {
        law_compaction_partial(index, disk, f, target, timestamps, n - 1);
        let (m, d) = compact_steps(index, disk, f, target, items.take(n - 1), timestamps);
        assert(items.take(n).drop_last() =~= items.take(n - 1));
        assert(items.take(n).last() == items[n - 1]);
        let it = items[n - 1];
        if points_at(m, f, it) {
            lemma_compact_step_live(index, disk, f, target, timestamps[n - 1], n - 1, m, d);
        } else {
            lemma_compact_step_dead(index, disk, f, target, n - 1, m, d);
        }
    }
}

/// Compaction keeps what reads give: after walking every entry of file `f`,
/// rewriting each entry the directory still points at to the merge file
/// `target`, and deleting `f`, every key reads as before, no key points into
/// `f`, every location holds an entry for its key, each key is where it was
/// or in `target`, and no file but `target` has changed.
pub proof fn law_compaction_keeps_contents(
    index: Map<Seq<u8>, EntryLocation>,
    disk: Map<u32, Seq<u8>>,
    f: u32,
    target: u32,
    timestamps: Seq<u64>,
)
    requires
        compaction_ready(index, disk, f, target, timestamps),
    ensures
        ({
            let (m, d) = compact_steps(index, disk, f, target, scan(disk[f]), timestamps);
            let d2 = d.remove(f);
            &&& contents(m, d2) == contents(index, disk)
            &&& forall|k: Seq<u8>| #[trigger] m.contains_key(k) ==> m[k].file_id != f
            &&& index_points(m, d2)
            &&& m.dom() == index.dom()
            &&& forall|k: Seq<u8>|
                #[trigger] m.contains_key(k) ==> m[k] == index[k] || m[k].file_id == target
            &&& d2.dom() == disk.dom().remove(f)
            &&& forall|id: u32|
                #[trigger] d2.contains_key(id) && id != target ==> d2[id] == disk[id]
            &&& d2[target].len() <= disk[target].len() + disk[f].len()
            &&& whole_log(disk[target]) ==> whole_log(d2[target])
        }),
{
    let items = scan(disk[f]);
    let n = items.len() as int;
    law_compaction_partial(index, disk, f, target, timestamps, n);
    assert(items.take(n) =~= items);
    let (m, d) = compact_steps(index, disk, f, target, items, timestamps);
    let d2 = d.remove(f);
    if n > 0 {
        lemma_item_facts(disk, f, n - 1);
    }
    assert forall|k: Seq<u8>| #[trigger] m.contains_key(k) implies m[k].file_id != f by {
        if m[k].file_id == f {
            assert(index.contains_key(k));
            let j = choose|j: int|
                0 <= j < scan(disk[f]).len() && location_of(f, #[trigger] scan(disk[f])[j])
                    == index[k] && scan(disk[f])[j].key == k;
            assert(location_of(f, items[j]) != index[k]);
        }
    }
    assert forall|k: Seq<u8>| #[trigger] m.contains_key(k) implies {
        &&& d2.contains_key(m[k].file_id)
        &&& entry_fits(d2[m[k].file_id], m[k].offset as int)
        &&& item_at(d2[m[k].file_id], m[k].offset as int).key == k
    } by {
        assert(d2[m[k].file_id] == d[m[k].file_id]);
    }
    assert forall|k: Seq<u8>| #[trigger] stored_value(m, d2, k) == stored_value(m, d, k) by {
        if m.contains_key(k) {
            assert(d2[m[k].file_id] == d[m[k].file_id]);
        }
    }
    assert(contents(m, d2) =~= contents(m, d));
    assert(d2.dom() =~= disk.dom().remove(f));
    assert forall|id: u32| #[trigger] d2.contains_key(id) && id != target implies d2[id]
        == disk[id] by {
        assert(d2[id] == d[id]);
    }
    assert(d2[target] == d[target]);
}

/// The bytes held by the files `fs`, together.
pub open spec fn total_len(disk: Map<u32, Seq<u8>>, fs: Seq<u32>) -> int
    decreases fs.len(),
{
    if fs.len() == 0 {
        0
    } else {
        total_len(disk, fs.drop_last()) + disk[fs.last()].len()
    }
}

/// The directory and data files after compaction has walked the files `fs`
/// in order, each to its end, rewriting every entry that the directory
/// still points at into the merge file `target` (those of `fs[i]` stamped
/// `timestamps[i]`), and deleting each file once walked.
pub open spec fn compact_files(
    index: Map<Seq<u8>, EntryLocation>,
    disk: Map<u32, Seq<u8>>,
    fs: Seq<u32>,
    target: u32,
    timestamps: Seq<Seq<u64>>,
) -> (Map<Seq<u8>, EntryLocation>, Map<u32, Seq<u8>>)
    decreases fs.len(),
{
    if fs.len() == 0 {
        (index, disk)
    } else {
        let (m, d) = compact_files(index, disk, fs.drop_last(), target, timestamps.drop_last());
        let f = fs.last();
        let (m2, d2) = compact_steps(m, d, f, target, scan(d[f]), timestamps.last());
        (m2, d2.remove(f))
    }
}

/// What the preconditions of a compaction of the files `fs` into `target`
/// are.
pub open spec fn files_ready(
    index: Map<Seq<u8>, EntryLocation>,
    disk: Map<u32, Seq<u8>>,
    fs: Seq<u32>,
    target: u32,
    timestamps: Seq<Seq<u64>>,
) -> bool {
    &&& index_points(index, disk)
    &&& disk.contains_key(target)
    &&& fs.no_duplicates()
    &&& timestamps.len() == fs.len()
    &&& disk[target].len() + total_len(disk, fs) <= u64::MAX
    &&& forall|i: int|
        #![trigger fs[i]]
        0 <= i < fs.len() ==> {
            &&& fs[i] != target
            &&& disk.contains_key(fs[i])
            &&& sound_in(index, disk, fs[i])
            &&& timestamps[i].len() == scan(disk[fs[i]]).len()
            &&& forall|j: int|
                0 <= j < scan(disk[fs[i]]).len() ==> (#[trigger] scan(disk[fs[i]])[j]).key.len()
                    + scan(disk[fs[i]])[j].value.len() <= u32::MAX
        }
}

/// What holds after a compaction of the files `fs` into `target`: every key
/// reads as before, no key points into any of `fs`, every location holds an
/// entry for its key, each key is where it was or in `target`, the files of
/// `fs` are gone, no other file but `target` has changed, and `target` grew
/// by at most what `fs` held.
pub open spec fn files_compacted(
    index: Map<Seq<u8>, EntryLocation>,
    disk: Map<u32, Seq<u8>>,
    fs: Seq<u32>,
    target: u32,
    m: Map<Seq<u8>, EntryLocation>,
    d: Map<u32, Seq<u8>>,
) -> bool {
    &&& contents(m, d) == contents(index, disk)
    &&& forall|k: Seq<u8>| #[trigger] m.contains_key(k) ==> !fs.contains(m[k].file_id)
    &&& index_points(m, d)
    &&& m.dom() == index.dom()
    &&& forall|k: Seq<u8>|
        #[trigger] m.contains_key(k) ==> m[k] == index[k] || m[k].file_id == target
    &&& forall|id: u32| #[trigger]
        d.contains_key(id) <==> disk.contains_key(id) && !fs.contains(id)
    &&& forall|id: u32| #[trigger] d.contains_key(id) && id != target ==> d[id] == disk[id]
    &&& d.contains_key(target)
    &&& d[target].len() <= disk[target].len() + total_len(disk, fs)
    &&& whole_log(disk[target]) ==> whole_log(d[target])
}

/// The files before the last of a compaction are ready to be compacted.
proof fn lemma_prefix_ready(
    index: Map<Seq<u8>, EntryLocation>,
    disk: Map<u32, Seq<u8>>,
    fs: Seq<u32>,
    target: u32,
    timestamps: Seq<Seq<u64>>,
)
    requires
        files_ready(index, disk, fs, target, timestamps),
        fs.len() > 0,
    ensures
        files_ready(index, disk, fs.drop_last(), target, timestamps.drop_last()),
{
    let fs0 = fs.drop_last();
    let ts0 = timestamps.drop_last();
    let f = fs.last();
    assert(files_ready(index, disk, fs0, target, ts0)) by {
        assert forall|i: int| 0 <= i < fs0.len() implies {
            &&& #[trigger] fs0[i] != target
            &&& disk.contains_key(fs0[i])
            &&& sound_in(index, disk, fs0[i])
            &&& ts0[i].len() == scan(disk[fs0[i]]).len()
            &&& forall|j: int|
                0 <= j < scan(disk[fs0[i]]).len() ==> (#[trigger] scan(disk[fs0[i]])[j]).key.len()
                    + scan(disk[fs0[i]])[j].value.len() <= u32::MAX
        } by {
            assert(fs0[i] == fs[i]);
            assert(ts0[i] == timestamps[i]);
        }
        assert forall|i: int, j: int| 0 <= i < j < fs0.len() implies fs0[i] != fs0[j] by {
            assert(fs0[i] == fs[i]);
            assert(fs0[j] == fs[j]);
        }
        assert(total_len(disk, fs0) + disk[f].len() == total_len(disk, fs));
        assert(disk[f].len() >= 0);
    }
}

/// Once the files before the last are compacted, the last is ready to be.
proof fn lemma_next_file_ready(
    index: Map<Seq<u8>, EntryLocation>,
    disk: Map<u32, Seq<u8>>,
    fs: Seq<u32>,
    target: u32,
    timestamps: Seq<Seq<u64>>,
    m: Map<Seq<u8>, EntryLocation>,
    d: Map<u32, Seq<u8>>,
)
    requires
        files_ready(index, disk, fs, target, timestamps),
        fs.len() > 0,
        files_compacted(index, disk, fs.drop_last(), target, m, d),
    ensures
        compaction_ready(m, d, fs.last(), target, timestamps.last()),
        d[fs.last()] == disk[fs.last()],
        !fs.drop_last().contains(fs.last()),
{
    let n = fs.len() - 1;
    let fs0 = fs.drop_last();
    let f = fs.last();
    assert(f == fs[n]);
    assert(timestamps.last() == timestamps[n]);
    assert(!fs0.contains(f)) by {
        if fs0.contains(f) {
            let i = choose|i: int| 0 <= i < fs0.len() && fs0[i] == f;
            assert(fs[i] == fs[n]);
        }
    }
    assert(d.contains_key(f));
    assert(d[f] == disk[f]);
    assert(sound_in(m, d, f)) by {
        assert forall|k: Seq<u8>|
            #[trigger] m.contains_key(k) && m[k].file_id == f implies exists|j: int|
            0 <= j < scan(d[f]).len() && location_of(f, #[trigger] scan(d[f])[j]) == m[k]
                && scan(d[f])[j].key == k by {
            assert(m[k] == index[k]);
            assert(sound_in(index, disk, fs[n]));
        }
    }
    assert(compaction_ready(m, d, f, target, timestamps[n])) by {
        assert(total_len(disk, fs0) + disk[f].len() == total_len(disk, fs));
    }
}

/// Compaction of several files keeps what reads give: after walking each of
/// the files `fs` in turn into the merge file `target` and deleting it,
/// every key reads as before and no key points into any of `fs`.
#[verifier::rlimit(40)]
pub proof fn law_compaction_of_files(
    index: Map<Seq<u8>, EntryLocation>,
    disk: Map<u32, Seq<u8>>,
    fs: Seq<u32>,
    target: u32,
    timestamps: Seq<Seq<u64>>,
)
    requires
        files_ready(index, disk, fs, target, timestamps),
    ensures
        ({
            let (m, d) = compact_files(index, disk, fs, target, timestamps);
            files_compacted(index, disk, fs, target, m, d)
        }),
    decreases fs.len(),
{
    if fs.len() == 0 {
        let (m, d) = compact_files(index, disk, fs, target, timestamps);
        assert(contents(m, d) == contents(index, disk));
    } else {
        let n = fs.len() - 1;
        let fs0 = fs.drop_last();
        let ts0 = timestamps.drop_last();
        let f = fs.last();
        assert(f == fs[n]);
        lemma_prefix_ready(index, disk, fs, target, timestamps);
        law_compaction_of_files(index, disk, fs0, target, ts0);
        let (m, d) = compact_files(index, disk, fs0, target, ts0);
        lemma_next_file_ready(index, disk, fs, target, timestamps, m, d);
        assert(timestamps.last() == timestamps[n]);
        law_compaction_keeps_contents(m, d, f, target, timestamps[n]);
        let (m2, d2) = compact_steps(m, d, f, target, scan(d[f]), timestamps[n]);
        let d3 = d2.remove(f);
        assert(compact_files(index, disk, fs, target, timestamps) == (m2, d3));
        assert forall|k: Seq<u8>| #[trigger] m2.contains_key(k) implies !fs.contains(
            m2[k].file_id,
        ) by {
            if fs.contains(m2[k].file_id) {
                let i = choose|i: int| 0 <= i < fs.len() && fs[i] == m2[k].file_id;
                if i < n {
                    assert(fs0[i] == fs[i]);
                    assert(fs0.contains(m2[k].file_id));
                    if m2[k] == m[k] {
                    } else {
                        assert(fs[i] != target);
                    }
                }
            }
        }
        assert forall|id: u32| #[trigger] d3.contains_key(id) <==> disk.contains_key(id)
            && !fs.contains(id) by {
            if fs.contains(id) && id != f {
                let i = choose|i: int| 0 <= i < fs.len() && fs[i] == id;
                assert(fs0[i] == fs[i]);
            }
            if fs0.contains(id) {
                let i = choose|i: int| 0 <= i < fs0.len() && fs0[i] == id;
                assert(fs[i] == fs0[i]);
            }
        }
        assert forall|id: u32| #[trigger] d3.contains_key(id) && id != target implies d3[id]
            == disk[id] by {
            assert(d.contains_key(id));
        }
        assert forall|k: Seq<u8>| #[trigger] m2.contains_key(k) implies m2[k] == index[k]
            || m2[k].file_id == target by {
            assert(m.contains_key(k));
        }
        assert(total_len(disk, fs0) + disk[f].len() == total_len(disk, fs));
    }
}

/// The part of `m` whose keys lie in the files `a` or `b`.
pub open spec fn placed_in(m: Map<Seq<u8>, EntryLocation>, a: u32, b: u32) -> Map<
    Seq<u8>,
    EntryLocation,
> {
    Map::new(
        |k: Seq<u8>| m.contains_key(k) && (m[k].file_id == a || m[k].file_id == b),
        |k: Seq<u8>| m[k],
    )
}

/// Recording the entries of file `f` over `mm` gives, for the keys those
/// entries have, what recording them from nothing gives, all in file `f`;
/// for the other keys, what `mm` has.
proof fn lemma_replay_items_split(mm: Map<Seq<u8>, EntryLocation>, f: u32, items: Seq<ScanItem>)
    ensures
        forall|k: Seq<u8>|
            #[trigger] replay_items(mm, f, items).contains_key(k) <==> (mm.contains_key(k)
                || replay_items(Map::empty(), f, items).contains_key(k)),
        forall|k: Seq<u8>|
            #[trigger] replay_items(Map::empty(), f, items).contains_key(k) ==> replay_items(
                mm,
                f,
                items,
            )[k] == replay_items(Map::empty(), f, items)[k] && replay_items(
                Map::empty(),
                f,
                items,
            )[k].file_id == f,
        forall|k: Seq<u8>|
            #![trigger replay_items(mm, f, items)[k]]
            mm.contains_key(k) && !replay_items(Map::empty(), f, items).contains_key(k)
                ==> replay_items(mm, f, items)[k] == mm[k],
    decreases items.len(),
{
    if items.len() > 0 {
        let pre = items.drop_last();
        let it = items.last();
        lemma_replay_items_split(mm, f, pre);
        let r = replay_items(mm, f, items);
        let r0 = replay_items(Map::empty(), f, items);
        let q = replay_items(mm, f, pre);
        let q0 = replay_items(Map::empty(), f, pre);
        assert(r == q.insert(it.key, location_of(f, it)));
        assert(r0 == q0.insert(it.key, location_of(f, it)));
        assert forall|k: Seq<u8>| #[trigger] r.contains_key(k) <==> (mm.contains_key(k)
            || r0.contains_key(k)) by {
            assert(q.contains_key(k) <==> (mm.contains_key(k) || q0.contains_key(k)));
        }
        assert forall|k: Seq<u8>| #[trigger] r0.contains_key(k) implies r[k] == r0[k]
            && r0[k].file_id == f by {
            if k != it.key {
                assert(q0.contains_key(k));
            }
        }
    }
}

/// Every location that replaying the files `ids` records lies in one of
/// them.
proof fn lemma_replay_files_in(disk: Map<u32, Seq<u8>>, ids: Seq<u32>)
    ensures
        forall|k: Seq<u8>|
            #[trigger] replay_files(Map::empty(), disk, ids).contains_key(k) ==> ids.contains(
                replay_files(Map::empty(), disk, ids)[k].file_id,
            ),
    decreases ids.len(),
{
    if ids.len() > 0 {
        let pre = ids.drop_last();
        let f = ids.last();
        lemma_replay_files_in(disk, pre);
        let p = replay_files(Map::empty(), disk, pre);
        lemma_replay_items_split(p, f, scan(disk[f]));
        let r = replay_files(Map::empty(), disk, ids);
        assert forall|k: Seq<u8>| #[trigger] r.contains_key(k) implies ids.contains(
            r[k].file_id,
        ) by {
            if replay_items(Map::empty(), f, scan(disk[f])).contains_key(k) {
                assert(ids[ids.len() - 1] == f);
            } else {
                let i = choose|i: int| 0 <= i < pre.len() && pre[i] == p[k].file_id;
                assert(ids[i] == pre[i]);
            }
        }
    }
}

/// The bytes held by the files `fs` depend only on those files.
proof fn lemma_total_len_frame(disk: Map<u32, Seq<u8>>, disk2: Map<u32, Seq<u8>>, fs: Seq<u32>)
    requires
        forall|i: int| 0 <= i < fs.len() ==> disk2[#[trigger] fs[i]] == disk[fs[i]],
    ensures
        total_len(disk2, fs) == total_len(disk, fs),
    decreases fs.len(),
{
    if fs.len() > 0 {
        let pre = fs.drop_last();
        assert forall|i: int| 0 <= i < pre.len() implies disk2[#[trigger] pre[i]] == disk[pre[i]] by {
            assert(pre[i] == fs[i]);
        }
        lemma_total_len_frame(disk, disk2, pre);
        assert(disk2[fs[fs.len() - 1]] == disk[fs[fs.len() - 1]]);
    }
}

/// Replaying the file `a`, then the file `b`.
proof fn lemma_replay_pair(disk: Map<u32, Seq<u8>>, a: u32, b: u32)
    ensures
        replay_files(Map::empty(), disk, seq![a, b]) == replay_items(
            replay_items(Map::empty(), a, scan(disk[a])),
            b,
            scan(disk[b]),
        ),
{
    let ids = seq![a, b];
    assert(ids.drop_last() =~= seq![a]);
    assert(seq![a].drop_last() =~= Seq::<u32>::empty());
    assert(seq![a].last() == a);
    assert(ids.last() == b);
    assert(replay_files(Map::empty(), disk, Seq::<u32>::empty()) == Map::<
        Seq<u8>,
        EntryLocation,
    >::empty());
    assert(replay_files(Map::empty(), disk, seq![a]) == replay_items(
        Map::empty(),
        a,
        scan(disk[a]),
    ));
}

/// While compaction walks file `f` into the merge file `target`, replaying
/// the file `a` and then `target` rebuilds the part of the directory that
/// lies in those two files.
proof fn lemma_reopen_steps(
    index: Map<Seq<u8>, EntryLocation>,
    disk: Map<u32, Seq<u8>>,
    f: u32,
    target: u32,
    a: u32,
    timestamps: Seq<u64>,
    n: int,
)
    requires
        compaction_ready(index, disk, f, target, timestamps),
        0 <= n <= scan(disk[f]).len(),
        disk.contains_key(a),
        a != target,
        a != f,
        whole_log(disk[target]),
        replay_files(Map::empty(), disk, seq![a, target]) == placed_in(index, a, target),
    ensures
        ({
            let (m, d) = compact_steps(index, disk, f, target, scan(disk[f]).take(n), timestamps);
            &&& whole_log(d[target])
            &&& replay_files(Map::empty(), d, seq![a, target]) == placed_in(m, a, target)
        }),
    decreases n,
{
    let items = scan(disk[f]);
    if n == 0 {
        assert(items.take(0).len() == 0);
    } else {
        lemma_reopen_steps(index, disk, f, target, a, timestamps, n - 1);
        law_compaction_partial(index, disk, f, target, timestamps, n - 1);
        let (m, d) = compact_steps(index, disk, f, target, items.take(n - 1), timestamps);
        assert(items.take(n).drop_last() =~= items.take(n - 1));
        assert(items.take(n).last() == items[n - 1]);
        let it = items[n - 1];
        if points_at(m, f, it) {
            lemma_item_facts(disk, f, n - 1);
            assert(d.contains_key(target));
            assert(d[target].len() + HEADER_SIZE + it.key.len() + it.value.len() <= u64::MAX);
            law_put_then_get(m, d, target, it.key, it.value, timestamps[n - 1]);
            let ids = seq![a, target];
            assert(ids.drop_last() =~= seq![a]);
            assert(ids.last() == target);
            law_put_then_replay(Map::empty(), d, ids, it.key, it.value, timestamps[n - 1]);
            let loc = put_location(d, target, it.key, it.value);
            let m2 = m.insert(it.key, loc);
            assert(placed_in(m2, a, target) =~= placed_in(m, a, target).insert(it.key, loc));
        }
    }
}

/// After compaction has walked file `f` to its end into `target` and
/// deleted it, replaying `a` and then `target` rebuilds the part of the
/// directory that lies in those two files.
proof fn lemma_reopen_file(
    index: Map<Seq<u8>, EntryLocation>,
    disk: Map<u32, Seq<u8>>,
    f: u32,
    target: u32,
    a: u32,
    timestamps: Seq<u64>,
)
    requires
        compaction_ready(index, disk, f, target, timestamps),
        disk.contains_key(a),
        a != target,
        a != f,
        whole_log(disk[target]),
        replay_files(Map::empty(), disk, seq![a, target]) == placed_in(index, a, target),
    ensures
        ({
            let (m, d) = compact_steps(index, disk, f, target, scan(disk[f]), timestamps);
            let d2 = d.remove(f);
            &&& whole_log(d2[target])
            &&& replay_files(Map::empty(), d2, seq![a, target]) == placed_in(m, a, target)
        }),
{
    let items = scan(disk[f]);
    let n = items.len() as int;
    lemma_reopen_steps(index, disk, f, target, a, timestamps, n);
    assert(items.take(n) =~= items);
    let (m, d) = compact_steps(index, disk, f, target, items, timestamps);
    let d2 = d.remove(f);
    let ids = seq![a, target];
    assert forall|i: int| 0 <= i < ids.len() implies d2[#[trigger] ids[i]] == d[ids[i]] by {}
    law_replay_reads_only_replayed_files(Map::empty(), d, d2, ids);
}

/// After compaction has walked the files `fs` into `target`, replaying `a`
/// and then `target` rebuilds the part of the directory that lies in those
/// two files.
proof fn lemma_reopen_files(
    index: Map<Seq<u8>, EntryLocation>,
    disk: Map<u32, Seq<u8>>,
    fs: Seq<u32>,
    target: u32,
    a: u32,
    timestamps: Seq<Seq<u64>>,
)
    requires
        files_ready(index, disk, fs, target, timestamps),
        disk.contains_key(a),
        a != target,
        !fs.contains(a),
        whole_log(disk[target]),
        replay_files(Map::empty(), disk, seq![a, target]) == placed_in(index, a, target),
    ensures
        ({
            let (m, d) = compact_files(index, disk, fs, target, timestamps);
            &&& whole_log(d[target])
            &&& replay_files(Map::empty(), d, seq![a, target]) == placed_in(m, a, target)
        }),
    decreases fs.len(),
{
    if fs.len() > 0 {
        let fs0 = fs.drop_last();
        let ts0 = timestamps.drop_last();
        let f = fs.last();
        lemma_prefix_ready(index, disk, fs, target, timestamps);
        assert(!fs0.contains(a)) by {
            if fs0.contains(a) {
                let i = choose|i: int| 0 <= i < fs0.len() && fs0[i] == a;
                assert(fs[i] == fs0[i]);
            }
        }
        lemma_reopen_files(index, disk, fs0, target, a, ts0);
        law_compaction_of_files(index, disk, fs0, target, ts0);
        let (m, d) = compact_files(index, disk, fs0, target, ts0);
        lemma_next_file_ready(index, disk, fs, target, timestamps, m, d);
        assert(fs[fs.len() - 1] == f);
        assert(a != f);
        assert(d.contains_key(a));
        lemma_reopen_file(m, d, f, target, a, timestamps.last());
    }
}

/// Reopening after a compaction reads what the running store reads. Let the
/// directory be what replaying the data files `ids` in order rebuilds, the
/// last of them being the file that writes go to. Compact every other file,
/// in order, into a new, empty merge file `target`, deleting each once
/// walked. Then replaying the remaining two, the former active file and
/// then the merge file, rebuilds the compacted directory exactly, and every
/// key reads as it did before the compaction.
pub proof fn law_compaction_then_reopen(
    disk: Map<u32, Seq<u8>>,
    ids: Seq<u32>,
    target: u32,
    timestamps: Seq<Seq<u64>>,
)
    requires
        ids.len() > 0,
        ids.no_duplicates(),
        forall|i: int| 0 <= i < ids.len() ==> disk.contains_key(#[trigger] ids[i]),
        !ids.contains(target),
        offsets_fit(disk),
        total_len(disk, ids.drop_last()) <= u64::MAX,
        timestamps.len() == ids.len() - 1,
        forall|i: int|
            #![trigger ids[i]]
            0 <= i < ids.len() - 1 ==> {
                &&& timestamps[i].len() == scan(disk[ids[i]]).len()
                &&& forall|j: int|
                    0 <= j < scan(disk[ids[i]]).len() ==> (#[trigger] scan(disk[ids[i]])[j]).key.len()
                        + scan(disk[ids[i]])[j].value.len() <= u32::MAX
            },
    ensures
        ({
            let index = replay_files(Map::empty(), disk, ids);
            let start = disk.insert(target, Seq::empty());
            let (m, d) = compact_files(index, start, ids.drop_last(), target, timestamps);
            &&& replay_files(Map::empty(), d, seq![ids.last(), target]) == m
            &&& contents(m, d) == contents(index, disk)
        }),
{
    let index = replay_files(Map::empty(), disk, ids);
    let start = disk.insert(target, Seq::empty());
    let fs = ids.drop_last();
    let a = ids.last();
    let n = ids.len() - 1;
    assert(a == ids[n]);
    assert(scan(Seq::<u8>::empty()).len() == 0);
    assert forall|i: int| 0 <= i < ids.len() implies start[#[trigger] ids[i]] == disk[ids[i]] by {
        assert(ids.contains(ids[i]));
    }
    law_replay_reads_only_replayed_files(Map::empty(), disk, start, ids);
    law_replay_sound(start, ids);
    assert(offsets_fit(start));
    lemma_sound_points(index, start);
    lemma_replay_files_in(disk, ids);
    assert forall|i: int| 0 <= i < fs.len() implies start[#[trigger] fs[i]] == disk[fs[i]] by {
        assert(fs[i] == ids[i]);
        assert(ids.contains(ids[i]));
    }
    lemma_total_len_frame(disk, start, fs);
    assert(files_ready(index, start, fs, target, timestamps)) by {
        assert forall|i: int| 0 <= i < fs.len() implies {
            &&& #[trigger] fs[i] != target
            &&& start.contains_key(fs[i])
            &&& sound_in(index, start, fs[i])
            &&& timestamps[i].len() == scan(start[fs[i]]).len()
            &&& forall|j: int|
                0 <= j < scan(start[fs[i]]).len() ==> (#[trigger] scan(start[fs[i]])[j]).key.len()
                    + scan(start[fs[i]])[j].value.len() <= u32::MAX
        } by {
            assert(fs[i] == ids[i]);
            assert(ids.contains(ids[i]));
        }
        assert forall|i: int, j: int| 0 <= i < j < fs.len() implies fs[i] != fs[j] by {
            assert(fs[i] == ids[i]);
            assert(fs[j] == ids[j]);
        }
    }
    assert(!fs.contains(a)) by {
        if fs.contains(a) {
            let i = choose|i: int| 0 <= i < fs.len() && fs[i] == a;
            assert(ids[i] == fs[i]);
        }
    }
    assert(ids.contains(a));
    assert(a != target);
    // What replaying the active file alone rebuilds is the part of the
    // directory in it.
    let p = replay_files(Map::empty(), disk, fs);
    let r0 = replay_items(Map::empty(), a, scan(disk[a]));
    lemma_replay_items_split(p, a, scan(disk[a]));
    lemma_replay_files_in(disk, fs);
    lemma_replay_pair(start, a, target);
    assert(placed_in(index, a, target) =~= r0) by {
        assert forall|k: Seq<u8>| #[trigger] index.contains_key(k) && !r0.contains_key(k)
            implies index[k].file_id != a && index[k].file_id != target by {
            assert(index[k] == p[k]);
            let i = choose|i: int| 0 <= i < fs.len() && fs[i] == p[k].file_id;
            assert(ids[i] == fs[i]);
            assert(ids.contains(fs[i]));
        }
    }
    lemma_reopen_files(index, start, fs, target, a, timestamps);
    law_compaction_of_files(index, start, fs, target, timestamps);
    let (m, d) = compact_files(index, start, fs, target, timestamps);
    assert(placed_in(m, a, target) =~= m) by {
        assert forall|k: Seq<u8>| #[trigger] m.contains_key(k) implies m[k].file_id == a
            || m[k].file_id == target by {
            if m[k].file_id != target {
                assert(m[k] == index[k]);
                let i = choose|i: int| 0 <= i < ids.len() && ids[i] == index[k].file_id;
                if i < n {
                    assert(fs[i] == ids[i]);
                    assert(fs.contains(fs[i]));
                }
            }
        }
    }
    assert forall|k: Seq<u8>| #[trigger] stored_value(index, start, k) == stored_value(
        index,
        disk,
        k,
    ) by {
        if index.contains_key(k) {
            assert(index[k].file_id != target);
        }
    }
    assert(contents(index, start) =~= contents(index, disk));
}

} // verus!
