use twinz::format::{Entry, EntryHeader, FormatError, HEADER_SIZE};
use twinz::log::scan_entries;
use twinz::wire::{get_u32, get_u64, put_u32, put_u64};

#[test]
fn big_endian_integers_round_trip() {
    let mut buf = Vec::new();
    put_u32(&mut buf, 0x0102_0304);
    put_u64(&mut buf, 0x1122_3344_5566_7788);
    assert_eq!(buf, vec![1, 2, 3, 4, 0x11, 0x22, 0x33, 0x44, 0x55, 0x66, 0x77, 0x88]);
    assert_eq!(get_u32(&buf, 0), 0x0102_0304);
    assert_eq!(get_u64(&buf, 4), 0x1122_3344_5566_7788);
}

#[test]
fn entry_encoding_is_header_key_value_with_crc32() {
    let e = Entry::new_at(b"name".to_vec(), b"twinz".to_vec(), 1_700_000_000);
    assert_eq!(e.header.crc, 0x7b40_a34a);
    assert_eq!(e.header.timestamp, 1_700_000_000);
    assert_eq!(e.header.key_size, 4);
    assert_eq!(e.header.value_size, 5);
    let bytes = e.encode();
    assert_eq!(
        bytes,
        vec![
            123, 64, 163, 74, 0, 0, 0, 0, 101, 83, 241, 0, 0, 0, 0, 4, 0, 0, 0, 5, 110, 97, 109,
            101, 116, 119, 105, 110, 122
        ]
    );
    assert_eq!(bytes.len(), HEADER_SIZE + 4 + 5);
}

#[test]
fn header_decodes_what_encode_wrote() {
    let e = Entry::new_at(b"k".to_vec(), b"value".to_vec(), 42);
    let bytes = e.encode();
    assert_eq!(EntryHeader::decode(&bytes), Ok(e.header));
}

#[test]
fn short_header_is_incomplete() {
    let e = Entry::new_at(b"k".to_vec(), b"v".to_vec(), 1);
    let bytes = e.encode();
    assert_eq!(
        EntryHeader::decode(&bytes[..HEADER_SIZE - 1]),
        Err(FormatError::IncompleteHeader)
    );
}

#[test]
fn update_crc_recomputes_checksum() {
    let mut e = Entry::new_at(b"name".to_vec(), b"twinz".to_vec(), 1_700_000_000);
    e.header.crc = 0;
    e.update_crc();
    assert_eq!(e.header.crc, 0x7b40_a34a);
    e.value = b"other".to_vec();
    e.update_crc();
    assert_ne!(e.header.crc, 0x7b40_a34a);
}

#[test]
fn new_entry_is_stamped_with_the_clock() {
    let e = Entry::new(b"a".to_vec(), b"b".to_vec());
    assert!(e.header.timestamp > 1_600_000_000);
    let same = Entry::new_at(b"a".to_vec(), b"b".to_vec(), e.header.timestamp);
    assert_eq!(e.header, same.header);
}

#[test]
fn scan_reads_back_encoded_entries_in_order() {
    let mut log = Vec::new();
    let first = Entry::new_at(b"k1".to_vec(), b"v1".to_vec(), 7).encode();
    let second = Entry::new_at(b"key2".to_vec(), b"".to_vec(), 8).encode();
    log.extend_from_slice(&first);
    log.extend_from_slice(&second);
    let recs = scan_entries(3, &log);
    assert_eq!(recs.len(), 2);
    assert_eq!(recs[0].key, b"k1".to_vec());
    assert_eq!(recs[0].value, b"v1".to_vec());
    assert_eq!(recs[0].location.file_id, 3);
    assert_eq!(recs[0].location.offset, 0);
    assert_eq!(recs[0].location.valid_len as usize, first.len());
    assert_eq!(recs[1].key, b"key2".to_vec());
    assert_eq!(recs[1].value, Vec::<u8>::new());
    assert_eq!(recs[1].location.offset as usize, first.len());
}

#[test]
fn scan_stops_at_a_cut_entry() {
    let mut log = Entry::new_at(b"k1".to_vec(), b"v1".to_vec(), 7).encode();
    let second = Entry::new_at(b"k2".to_vec(), b"v2".to_vec(), 8).encode();
    log.extend_from_slice(&second[..second.len() - 1]);
    let recs = scan_entries(0, &log);
    assert_eq!(recs.len(), 1);
    let mut short = Entry::new_at(b"k1".to_vec(), b"v1".to_vec(), 7).encode();
    short.extend_from_slice(&[0u8; 10]);
    assert_eq!(scan_entries(0, &short).len(), 1);
    assert_eq!(scan_entries(0, &[]).len(), 0);
}
