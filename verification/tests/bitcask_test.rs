use std::collections::BTreeMap;
use twinz::engine::{kv_len, value_of, BitCask, BitCaskOptions, StorageError, SyncStrategy};
use twinz::format::{Entry, EntryHeader, HEADER_SIZE};
use twinz::keydir::EntryLocation;
use twinz::log::scan_entries;

/// Data files held in memory, driven through the library's decisions the
/// way the server drives real files.
struct MemStore {
    files: BTreeMap<u32, Vec<u8>>,
    index: BitCask,
}

fn names(files: &BTreeMap<u32, Vec<u8>>) -> Vec<String> {
    files.keys().map(|id| format!("{}.data", id)).collect()
}

impl MemStore {
    fn open(mut files: BTreeMap<u32, Vec<u8>>) -> MemStore {
        let (order, active) = BitCask::replay_order(&names(&files));
        let mut index = BitCask::new("mem".to_string(), BitCaskOptions::default(), active);
        for id in order {
            index.replay(id, &files[&id]);
        }
        files.entry(active).or_default();
        MemStore { files, index }
    }

    fn put(&mut self, key: Vec<u8>, value: Vec<u8>) {
        let encoded = Entry::new(key.clone(), value).encode();
        let file = self.files.get_mut(&self.index.active_file_id()).unwrap();
        let offset = file.len() as u64;
        file.extend_from_slice(&encoded);
        self.index.record_put(key, offset, encoded.len());
    }

    fn get(&self, key: &[u8]) -> Result<Vec<u8>, StorageError> {
        let loc = self.index.locate(key)?;
        let data = &self.files[&loc.file_id];
        let off = loc.offset as usize;
        let header = EntryHeader::decode(&data[off..off + HEADER_SIZE]).map_err(StorageError::Format)?;
        let n = kv_len(&header).unwrap();
        let kv = &data[off + HEADER_SIZE..off + HEADER_SIZE + n];
        Ok(value_of(kv, header.key_size))
    }

    fn compact(&mut self) {
        let order = self.index.compaction_order(&names(&self.files));
        if order.is_empty() {
            return;
        }
        let merge = self.index.merge_file_id().expect("no file id left for a merge file");
        self.files.insert(merge, Vec::new());
        self.index.switch_active(merge);
        for id in order {
            let records = scan_entries(id, &self.files[&id]);
            for r in records {
                if self.index.is_live(&r.key, &r.location) {
                    self.put(r.key, r.value);
                }
            }
            self.files.remove(&id);
        }
    }
}

#[test]
fn test_bitcask_basic_io() {
    let mut storage = MemStore::open(BTreeMap::new());
    let key = b"name".to_vec();
    let value = b"twinz".to_vec();
    storage.put(key.clone(), value.clone());
    let read_value = storage.get(&key).unwrap();
    assert_eq!(read_value, value);
}

#[test]
fn test_bitcask_persistance() {
    let files = {
        let mut storage = MemStore::open(BTreeMap::new());
        storage.put(b"k1".to_vec(), b"v1".to_vec());
        storage.put(b"k2".to_vec(), b"v2".to_vec());
        storage.files
    };
    let storage = MemStore::open(files);
    let v1 = storage.get(b"k1").unwrap();
    assert_eq!(v1, b"v1");
    let v2 = storage.get(b"k2").unwrap();
    assert_eq!(v2, b"v2");
}

#[test]
fn test_bitcask_compaction() {
    let mut files = {
        let mut storage = MemStore::open(BTreeMap::new());
        storage.put(b"k1".to_vec(), b"old_v1".to_vec());
        storage.put(b"k1".to_vec(), b"new_v1".to_vec());
        storage.put(b"k2".to_vec(), b"v2".to_vec());
        storage.files
    };
    // Rename 0.data to 10.data (historical) and create 11.data (active).
    let old = files.remove(&0).unwrap();
    files.insert(10, old);
    files.insert(11, Vec::new());
    let mut storage = MemStore::open(files);
    assert_eq!(storage.index.active_file_id(), 11);
    storage.compact();
    let v1 = storage.get(b"k1").unwrap();
    assert_eq!(v1, b"new_v1");
    let v2 = storage.get(b"k2").unwrap();
    assert_eq!(v2, b"v2");
    assert!(!storage.files.contains_key(&10), "Historical file should be deleted");
    // The live entries, and only they, went to a new merge file.
    assert_eq!(storage.index.active_file_id(), 12);
    assert_eq!(storage.files[&12].len(), 28 + 24);
    assert!(storage.files[&11].is_empty());
    assert_eq!(storage.index.locate(b"k1").unwrap().file_id, 12);
    assert_eq!(storage.index.locate(b"k2").unwrap().file_id, 12);
    // Later writes go after the merge file's entries.
    storage.put(b"k1".to_vec(), b"latest".to_vec());
    assert_eq!(storage.get(b"k1").unwrap(), b"latest");
    // Reopening after compaction finds the same values.
    let reopened = MemStore::open(storage.files.clone());
    assert_eq!(reopened.get(b"k1").unwrap(), b"latest");
    assert_eq!(reopened.get(b"k2").unwrap(), b"v2");
}

#[test]
fn later_write_wins_and_other_keys_stay() {
    let mut storage = MemStore::open(BTreeMap::new());
    storage.put(b"a".to_vec(), b"1".to_vec());
    storage.put(b"b".to_vec(), b"2".to_vec());
    storage.put(b"a".to_vec(), b"3".to_vec());
    assert_eq!(storage.get(b"a").unwrap(), b"3");
    assert_eq!(storage.get(b"b").unwrap(), b"2");
    assert_eq!(storage.index.len(), 2);
}

#[test]
fn missing_key_is_not_found() {
    let storage = MemStore::open(BTreeMap::new());
    assert!(matches!(storage.get(b"nope"), Err(StorageError::NotFound)));
}

#[test]
fn replay_order_sorts_data_files_and_picks_the_largest() {
    let names = vec![
        "7.data".to_string(),
        "notes.txt".to_string(),
        "2.data".to_string(),
        ".data".to_string(),
        "x.data".to_string(),
        "+3.data".to_string(),
        "4294967296.data".to_string(),
        "10.data".to_string(),
    ];
    let (order, active) = BitCask::replay_order(&names);
    assert_eq!(order, vec![2, 3, 7, 10]);
    assert_eq!(active, 10);
    let (order, active) = BitCask::replay_order(&vec!["a.log".to_string()]);
    assert!(order.is_empty());
    assert_eq!(active, 0);
}

#[test]
fn data_file_names_read_back_as_their_ids() {
    assert_eq!(BitCask::data_file_name(0), "0.data");
    assert_eq!(BitCask::data_file_name(4_294_967_295), "4294967295.data");
    for id in [0u32, 9, 10, 11, 12345, u32::MAX] {
        assert_eq!(BitCask::data_file_id(&BitCask::data_file_name(id)), Some(id));
    }
    assert_eq!(BitCask::data_file_id("12.dat"), None);
    assert_eq!(BitCask::data_file_id("12.data.bak"), None);
    assert_eq!(BitCask::data_file_id("-1.data"), None);
    assert_eq!(BitCask::data_file_id("007.data"), Some(7));
}

#[test]
fn compaction_order_leaves_out_the_active_file() {
    let storage = MemStore::open(BTreeMap::from([(3, Vec::new()), (1, Vec::new()), (5, Vec::new())]));
    let names = vec!["5.data".to_string(), "3.data".to_string(), "1.data".to_string()];
    assert_eq!(storage.index.compaction_order(&names), vec![1, 3]);
}

#[test]
fn liveness_compares_file_and_offset() {
    let mut storage = MemStore::open(BTreeMap::new());
    storage.put(b"k".to_vec(), b"v".to_vec());
    let loc = storage.index.locate(b"k").unwrap();
    assert!(storage.index.is_live(b"k", &loc));
    let other_len = EntryLocation { valid_len: 0, ..loc };
    assert!(storage.index.is_live(b"k", &other_len));
    let elsewhere = EntryLocation { offset: loc.offset + 1, ..loc };
    assert!(!storage.index.is_live(b"k", &elsewhere));
    assert!(!storage.index.is_live(b"missing", &loc));
}

#[test]
fn sync_strategy_decisions() {
    let always = BitCask::new("d".to_string(), BitCaskOptions { sync_strategy: SyncStrategy::Always }, 0);
    assert!(always.syncs_every_write());
    assert_eq!(always.background_sync_secs(), None);
    let interval = BitCask::new("d".to_string(), BitCaskOptions { sync_strategy: SyncStrategy::Interval(5) }, 0);
    assert!(!interval.syncs_every_write());
    assert_eq!(interval.background_sync_secs(), Some(5));
    let zero = BitCask::new("d".to_string(), BitCaskOptions { sync_strategy: SyncStrategy::Interval(0) }, 0);
    assert_eq!(zero.background_sync_secs(), None);
    let os = BitCask::new("d".to_string(), BitCaskOptions::default(), 4);
    assert_eq!(os.options().sync_strategy, SyncStrategy::Os);
    assert_eq!(os.dir(), "d");
    assert_eq!(os.active_file_id(), 4);
}

#[test]
fn key_value_size_sum_must_fit_32_bits() {
    let h = EntryHeader { crc: 0, timestamp: 0, key_size: u32::MAX, value_size: 1 };
    assert_eq!(kv_len(&h), None);
    let h = EntryHeader { crc: 0, timestamp: 0, key_size: 3, value_size: 4 };
    assert_eq!(kv_len(&h), Some(7));
    assert_eq!(value_of(b"keyvalu", 3), b"valu".to_vec());
}

#[test]
fn merge_file_follows_the_active_file() {
    let mut storage = MemStore::open(BTreeMap::from([(4, Vec::new())]));
    assert_eq!(storage.index.merge_file_id(), Some(5));
    storage.put(b"k".to_vec(), b"v".to_vec());
    storage.index.switch_active(9);
    assert_eq!(storage.index.active_file_id(), 9);
    assert_eq!(storage.index.locate(b"k").unwrap().file_id, 4);
    let last = MemStore::open(BTreeMap::from([(u32::MAX, Vec::new())]));
    assert_eq!(last.index.merge_file_id(), None);
}

#[test]
fn compaction_with_nothing_to_compact_changes_nothing() {
    let mut storage = MemStore::open(BTreeMap::new());
    storage.put(b"k".to_vec(), b"v".to_vec());
    storage.compact();
    assert_eq!(storage.index.active_file_id(), 0);
    assert_eq!(storage.files.len(), 1);
    assert_eq!(storage.get(b"k").unwrap(), b"v");
}

fn enc(key: &[u8], value: &[u8]) -> Vec<u8> {
    Entry::new(key.to_vec(), value.to_vec()).encode()
}

#[test]
fn compaction_of_several_files_keeps_reads_and_reopens() {
    let mut f1 = enc(b"k1", b"a");
    f1.extend(enc(b"k2", b"b"));
    let mut f2 = enc(b"k1", b"c");
    f2.extend(enc(b"k3", b"d"));
    let f3 = enc(b"k2", b"e");
    let mut storage = MemStore::open(BTreeMap::from([(1, f1), (2, f2), (3, f3)]));
    assert_eq!(storage.index.active_file_id(), 3);
    storage.compact();
    assert_eq!(storage.files.keys().copied().collect::<Vec<u32>>(), vec![3, 4]);
    assert_eq!(storage.files[&4].len(), 23 + 23);
    for (k, v) in [(b"k1", b"c"), (b"k2", b"e"), (b"k3", b"d")] {
        assert_eq!(storage.get(k).unwrap(), v.to_vec());
    }
    let reopened = MemStore::open(storage.files.clone());
    for (k, v) in [(b"k1", b"c"), (b"k2", b"e"), (b"k3", b"d")] {
        assert_eq!(reopened.get(k).unwrap(), v.to_vec());
    }
    assert_eq!(reopened.index.active_file_id(), 4);
}

#[test]
fn a_torn_tail_changes_no_read_and_a_later_write_reads_back() {
    let mut storage = MemStore::open(BTreeMap::new());
    storage.put(b"k".to_vec(), b"v".to_vec());
    let torn = enc(b"x", b"never finished");
    storage.files.get_mut(&0).unwrap().extend_from_slice(&torn[..torn.len() - 3]);
    assert_eq!(storage.get(b"k").unwrap(), b"v");
    storage.put(b"y".to_vec(), b"w".to_vec());
    assert_eq!(storage.get(b"y").unwrap(), b"w");
    assert_eq!(storage.get(b"k").unwrap(), b"v");
    let reopened = MemStore::open(storage.files.clone());
    assert_eq!(reopened.get(b"k").unwrap(), b"v");
}
