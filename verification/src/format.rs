//! The on-disk entry format of the log store.
//!
//! Every entry is written as a 20-byte header followed by the key and the
//! value: `crc: u32 | timestamp: u64 | key_size: u32 | value_size: u32 |
//! key | value`, all integers big-endian. The checksum is the CRC-32 of
//! everything in the entry after the checksum field itself.
use crate::wire::{be_u32, be_u64, get_u32, get_u64, put_u32, put_u64, read_be_u32, read_be_u64};
use vstd::prelude::*;

verus! {

/// The length in bytes of an entry header.
pub const HEADER_SIZE: usize = 20;

/// The fixed-size header that precedes the key and value of every entry.
#[derive(Clone, Copy, Debug, PartialEq, Eq, Structural)]
pub struct EntryHeader {
    pub crc: u32,
    pub timestamp: u64,
    pub key_size: u32,
    pub value_size: u32,
}

/// One record of the log: a header, a key and a value.
#[derive(Clone, Debug)]
pub struct Entry {
    pub header: EntryHeader,
    pub key: Vec<u8>,
    pub value: Vec<u8>,
}

/// Errors in reading the entry format.
#[derive(Clone, Copy, Debug, PartialEq, Eq, Structural)]
pub enum FormatError {
    /// Fewer bytes than a header were available.
    IncompleteHeader,
    /// The stored checksum differs from the one computed over the entry.
    CrcMismatch { expected: u32, actual: u32 },
}

/// One bit of the reflected CRC-32 (IEEE) division: shift the register right
/// and, where the bit shifted out was set, subtract the polynomial
/// `0xEDB88320`.
pub open spec fn crc32_shift(c: u32) -> u32 {
    if c & 1 == 1 {
        (c >> 1) ^ 0xEDB8_8320u32
    } else {
        c >> 1
    }
}

/// The register after `n` bits of division.
pub open spec fn crc32_shifts(c: u32, n: nat) -> u32
    decreases n,
{
    if n == 0 {
        c
    } else {
        crc32_shifts(crc32_shift(c), (n - 1) as nat)
    }
}

/// The CRC-32 register after taking in `data`, byte by byte, from all ones.
pub open spec fn crc32_register(data: Seq<u8>) -> u32
    decreases data.len(),
{
    if data.len() == 0 {
        0xFFFF_FFFFu32
    } else {
        crc32_shifts(crc32_register(data.drop_last()) ^ (data.last() as u32), 8)
    }
}

/// The CRC-32 (IEEE) checksum of `data`: the register, inverted.
#[verifier::opaque]
pub open spec fn crc32_of(data: Seq<u8>) -> u32 {
    crc32_register(data) ^ 0xFFFF_FFFFu32
}

/// Calls `crc32fast::hash`, which runs a fresh `Hasher` over `buf` and
/// finalizes it: the CRC-32 (IEEE) of the bytes, reflected, with polynomial
/// `0xEDB88320`, the register starting at all ones and inverted at the end,
/// which is `crc32_of` of the bytes handed in. The crate computes it by
/// tables or processor instructions, all giving that value.
#[verifier::external_body]
fn crc32(data: &[u8]) -> (c: u32)
    ensures
        c == crc32_of(data@),
{
    crc32fast::hash(data)
}

/// `std::time::SystemTime`, read from the machine's clock.
#[verifier::external_type_specification]
#[verifier::external_body]
pub struct ExSystemTime(std::time::SystemTime);

/// Calls `std::time::SystemTime::now`. Nothing is promised of the result: it
/// is the machine's clock.
#[verifier::external_body]
fn clock_now() -> std::time::SystemTime {
    std::time::SystemTime::now()
}

/// Calls `SystemTime::duration_since(UNIX_EPOCH)`; `None` stands for the
/// error that std returns when `t` lies before the epoch. Nothing is
/// promised of the duration.
#[verifier::external_body]
fn duration_since_epoch(t: &std::time::SystemTime) -> Option<std::time::Duration> {
    t.duration_since(std::time::UNIX_EPOCH).ok()
}

/// Calls `Duration::as_secs`: the whole seconds of `d`. Nothing is promised
/// of the number, since a `Duration` has no model here.
#[verifier::external_body]
fn duration_secs(d: &std::time::Duration) -> u64 {
    d.as_secs()
}

/// The bytes over which an entry's checksum is computed.
pub open spec fn checksum_input(
    timestamp: u64,
    key_size: u32,
    value_size: u32,
    key: Seq<u8>,
    value: Seq<u8>,
) -> Seq<u8> {
    be_u64(timestamp) + be_u32(key_size) + be_u32(value_size) + key + value
}

/// The encoding of a header.
pub open spec fn header_bytes(h: EntryHeader) -> Seq<u8> {
    be_u32(h.crc) + be_u64(h.timestamp) + be_u32(h.key_size) + be_u32(h.value_size)
}

/// The header stored at position `i` of `s` (which must hold 20 bytes there).
pub open spec fn read_header(s: Seq<u8>, i: int) -> EntryHeader {
    EntryHeader {
        crc: read_be_u32(s, i),
        timestamp: read_be_u64(s, i + 4),
        key_size: read_be_u32(s, i + 12),
        value_size: read_be_u32(s, i + 16),
    }
}

/// The header that `Entry::new` writes for `key` and `value` at `timestamp`.
pub open spec fn header_for(key: Seq<u8>, value: Seq<u8>, timestamp: u64) -> EntryHeader {
    let key_size = key.len() as u32;
    let value_size = value.len() as u32;
    EntryHeader {
        crc: crc32_of(checksum_input(timestamp, key_size, value_size, key, value)),
        timestamp,
        key_size,
        value_size,
    }
}

/// The bytes of an entry made of `h`, `key` and `value`.
pub open spec fn entry_bytes(h: EntryHeader, key: Seq<u8>, value: Seq<u8>) -> Seq<u8> {
    header_bytes(h) + key + value
}

impl EntryHeader {
    /// Decodes the header at the start of `buf`.
    pub fn decode(buf: &[u8]) -> (r: Result<EntryHeader, FormatError>)
        ensures
            buf@.len() < HEADER_SIZE ==> r == Err::<EntryHeader, FormatError>(
                FormatError::IncompleteHeader,
            ),
            buf@.len() >= HEADER_SIZE ==> r == Ok::<EntryHeader, FormatError>(
                read_header(buf@, 0),
            ),
    {
        if buf.len() < HEADER_SIZE {
            return Err(FormatError::IncompleteHeader);
        }
        Ok(
            EntryHeader {
                crc: get_u32(buf, 0),
                timestamp: get_u64(buf, 4),
                key_size: get_u32(buf, 12),
                value_size: get_u32(buf, 16),
            },
        )
    }

    /// The number of bytes of the entry that this header starts: the header,
    /// the key and the value.
    pub open spec fn spec_entry_len(&self) -> int {
        HEADER_SIZE + self.key_size + self.value_size
    }
}

impl Entry {
    /// The bytes that `encode` writes for this entry.
    pub open spec fn spec_encode(&self) -> Seq<u8> {
        entry_bytes(self.header, self.key@, self.value@)
    }

    /// Creates an entry for `key` and `value`, stamped with the current time in
    /// whole seconds since the Unix epoch, with sizes and checksum filled in.
    /// A clock set before the epoch stamps the entry with 0.
    pub fn new(key: Vec<u8>, value: Vec<u8>) -> (e: Entry)
        ensures
            e.key@ == key@,
            e.value@ == value@,
            e.header == header_for(key@, value@, e.header.timestamp),
    {
        let now = clock_now();
        let timestamp = match duration_since_epoch(&now) {
            Some(d) => duration_secs(&d),
            None => 0,
        };
        Entry::new_at(key, value, timestamp)
    }

    /// Creates an entry for `key` and `value` stamped with `timestamp`, with
    /// sizes (truncated to 32 bits) and checksum filled in.
    pub fn new_at(key: Vec<u8>, value: Vec<u8>, timestamp: u64) -> (e: Entry)
        ensures
            e.key@ == key@,
            e.value@ == value@,
            e.header == header_for(key@, value@, timestamp),
    {
        let key_size = key.len() as u32;
        let value_size = value.len() as u32;
        let mut entry = Entry {
            header: EntryHeader { crc: 0, timestamp, key_size, value_size },
            key,
            value,
        };
        entry.update_crc();
        entry
    }

    /// Recomputes the checksum from the timestamp, the sizes, the key and the
    /// value, and stores it in the header.
    pub fn update_crc(&mut self)
        ensures
            final(self).key == old(self).key,
            final(self).value == old(self).value,
            final(self).header.timestamp == old(self).header.timestamp,
            final(self).header.key_size == old(self).header.key_size,
            final(self).header.value_size == old(self).header.value_size,
            final(self).header.crc == crc32_of(
                checksum_input(
                    old(self).header.timestamp,
                    old(self).header.key_size,
                    old(self).header.value_size,
                    old(self).key@,
                    old(self).value@,
                ),
            ),
    {
        let mut input: Vec<u8> = Vec::new();
        put_u64(&mut input, self.header.timestamp);
        put_u32(&mut input, self.header.key_size);
        put_u32(&mut input, self.header.value_size);
        extend(&mut input, &self.key);
        extend(&mut input, &self.value);
        assert(input@ =~= checksum_input(
            self.header.timestamp,
            self.header.key_size,
            self.header.value_size,
            self.key@,
            self.value@,
        ));
        self.header.crc = crc32(&input);
    }

    /// Encodes the entry: header, then key, then value.
    pub fn encode(&self) -> (bytes: Vec<u8>)
        ensures
            bytes@ == self.spec_encode(),
    {
        let mut buf: Vec<u8> = Vec::new();
        put_u32(&mut buf, self.header.crc);
        put_u64(&mut buf, self.header.timestamp);
        put_u32(&mut buf, self.header.key_size);
        put_u32(&mut buf, self.header.value_size);
        extend(&mut buf, &self.key);
        extend(&mut buf, &self.value);
        assert(buf@ =~= self.spec_encode());
        buf
    }
}

/// Appends the bytes of `src` to `buf`.
pub fn extend(buf: &mut Vec<u8>, src: &[u8])
    ensures
        final(buf)@ == old(buf)@ + src@,
{
    let mut i: usize = 0;
    while i < src.len()
        invariant
            i <= src@.len(),
            buf@ == old(buf)@ + src@.subrange(0, i as int),
        decreases src@.len() - i,
    {
        buf.push(src[i]);
        i = i + 1;
        assert(buf@ =~= old(buf)@ + src@.subrange(0, i as int));
    }
    assert(src@.subrange(0, src@.len() as int) =~= src@);
}

} // verus!
