//! Big-endian integer encoding used by the entry format and the frame codec.
use vstd::prelude::*;

verus! {

/// The four big-endian bytes of `x`.
pub open spec fn be_u32(x: u32) -> Seq<u8> {
    seq![
        (x / 0x100_0000) as u8,
        ((x / 0x1_0000) % 0x100) as u8,
        ((x / 0x100) % 0x100) as u8,
        (x % 0x100) as u8,
    ]
}

/// The eight big-endian bytes of `x`.
pub open spec fn be_u64(x: u64) -> Seq<u8> {
    be_u32((x / 0x1_0000_0000) as u32) + be_u32((x % 0x1_0000_0000) as u32)
}

/// The big-endian `u32` stored in `s` at position `i`.
pub open spec fn read_be_u32(s: Seq<u8>, i: int) -> u32 {
    (s[i] as int * 0x100_0000 + s[i + 1] as int * 0x1_0000 + s[i + 2] as int * 0x100
        + s[i + 3] as int) as u32
}

/// The big-endian `u64` stored in `s` at position `i`.
pub open spec fn read_be_u64(s: Seq<u8>, i: int) -> u64 {
    (read_be_u32(s, i) as int * 0x1_0000_0000 + read_be_u32(s, i + 4) as int) as u64
}

/// Reading back the bytes of `be_u32(x)` gives `x`.
pub proof fn lemma_be_u32_roundtrip(x: u32, s: Seq<u8>, i: int)
    requires
        0 <= i,
        i + 4 <= s.len(),
        s.subrange(i, i + 4) == be_u32(x),
    ensures
        read_be_u32(s, i) == x,
{
    assert(s[i] == be_u32(x)[0]);
    assert(s[i + 1] == be_u32(x)[1]);
    assert(s[i + 2] == be_u32(x)[2]);
    assert(s[i + 3] == be_u32(x)[3]);
    assert(x as int == (x / 0x100_0000) * 0x100_0000 + ((x / 0x1_0000) % 0x100) * 0x1_0000 + ((x
        / 0x100) % 0x100) * 0x100 + x % 0x100) by (nonlinear_arith);
}

/// Reading back the bytes of `be_u64(x)` gives `x`.
pub proof fn lemma_be_u64_roundtrip(x: u64, s: Seq<u8>, i: int)
    requires
        0 <= i,
        i + 8 <= s.len(),
        s.subrange(i, i + 8) == be_u64(x),
    ensures
        read_be_u64(s, i) == x,
{
    let hi = (x / 0x1_0000_0000) as u32;
    let lo = (x % 0x1_0000_0000) as u32;
    assert(s.subrange(i, i + 4) =~= be_u32(hi));
    assert forall|j: int| 0 <= j < 4 implies #[trigger] s.subrange(i + 4, i + 8)[j] == be_u32(lo)[j] by {
        assert(s.subrange(i + 4, i + 8)[j] == s.subrange(i, i + 8)[4 + j]);
        assert(be_u64(x)[4 + j] == be_u32(lo)[j]);
    }
    assert(s.subrange(i + 4, i + 8) =~= be_u32(lo));
    lemma_be_u32_roundtrip(hi, s, i);
    lemma_be_u32_roundtrip(lo, s, i + 4);
}

/// Appends the big-endian bytes of `x` to `buf`.
pub fn put_u32(buf: &mut Vec<u8>, x: u32)
    ensures
        final(buf)@ == old(buf)@ + be_u32(x),
{
    buf.push((x / 0x100_0000) as u8);
    buf.push(((x / 0x1_0000) % 0x100) as u8);
    buf.push(((x / 0x100) % 0x100) as u8);
    buf.push((x % 0x100) as u8);
    assert(buf@ =~= old(buf)@ + be_u32(x));
}

/// Appends the big-endian bytes of `x` to `buf`.
pub fn put_u64(buf: &mut Vec<u8>, x: u64)
    ensures
        final(buf)@ == old(buf)@ + be_u64(x),
{
    put_u32(buf, (x / 0x1_0000_0000) as u32);
    put_u32(buf, (x % 0x1_0000_0000) as u32);
    assert(buf@ =~= old(buf)@ + be_u64(x));
}

/// Reads the big-endian `u32` at position `i` of `s`.
pub fn get_u32(s: &[u8], i: usize) -> (x: u32)
    requires
        i + 4 <= s@.len(),
    ensures
        x == read_be_u32(s@, i as int),
{
    let b0 = s[i] as u32;
    let b1 = s[i + 1] as u32;
    let b2 = s[i + 2] as u32;
    let b3 = s[i + 3] as u32;
    b0 * 0x100_0000 + b1 * 0x1_0000 + b2 * 0x100 + b3
}

/// Reads the big-endian `u64` at position `i` of `s`.
pub fn get_u64(s: &[u8], i: usize) -> (x: u64)
    requires
        i + 8 <= s@.len(),
    ensures
        x == read_be_u64(s@, i as int),
{
    let n = s.len();
    assert(i + 8 <= n);
    let hi = get_u32(s, i) as u64;
    let lo = get_u32(s, i + 4) as u64;
    hi * 0x1_0000_0000 + lo
}

} // verus!
