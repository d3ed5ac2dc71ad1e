//! Little-endian integer fields and the CRC-32 checksum of byte sequences.
use vstd::prelude::*;

verus! {

/// The little-endian encoding of a `u16`.
pub open spec fn le16(x: u16) -> Seq<u8> {
    seq![x as u8, (x >> 8u16) as u8]
}

/// The `u16` whose little-endian encoding starts at `o` in `b`.
pub open spec fn from_le16(b: Seq<u8>, o: int) -> u16 {
    (b[o] as u16) | ((b[o + 1] as u16) << 8u16)
}

/// Decoding the little-endian encoding of a `u16` gives the value back.
pub proof fn lemma_le16_round_trip(x: u16)
    ensures
        from_le16(le16(x), 0) == x,
{
    let (b0, b1) = (le16(x)[0], le16(x)[1]);
    assert(b0 == x as u8 && b1 == (x >> 8u16) as u8 ==> (b0 as u16) | ((b1 as u16) << 8u16)
        == x) by (bit_vector);
}

/// The little-endian encoding of a `u32`.
pub open spec fn le32(x: u32) -> Seq<u8> {
    seq![x as u8, (x >> 8u32) as u8, (x >> 16u32) as u8, (x >> 24u32) as u8]
}

/// The little-endian encoding of a `u64`.
pub open spec fn le64(x: u64) -> Seq<u8> {
    seq![
        x as u8,
        (x >> 8u64) as u8,
        (x >> 16u64) as u8,
        (x >> 24u64) as u8,
        (x >> 32u64) as u8,
        (x >> 40u64) as u8,
        (x >> 48u64) as u8,
        (x >> 56u64) as u8,
    ]
}

/// The `u32` whose little-endian encoding starts at `o` in `b`.
pub open spec fn from_le32(b: Seq<u8>, o: int) -> u32 {
    (b[o] as u32) | ((b[o + 1] as u32) << 8u32) | ((b[o + 2] as u32) << 16u32) | ((b[o + 3] as u32)
        << 24u32)
}

/// The `u64` whose little-endian encoding starts at `o` in `b`.
pub open spec fn from_le64(b: Seq<u8>, o: int) -> u64 {
    (b[o] as u64) | ((b[o + 1] as u64) << 8u64) | ((b[o + 2] as u64) << 16u64) | ((b[o + 3] as u64)
        << 24u64) | ((b[o + 4] as u64) << 32u64) | ((b[o + 5] as u64) << 40u64) | ((b[o + 6] as u64)
        << 48u64) | ((b[o + 7] as u64) << 56u64)
}

/// Decoding the little-endian encoding of a `u32` gives the value back.
pub proof fn lemma_le32_round_trip(x: u32, b: Seq<u8>, o: int)
    requires
        0 <= o,
        o + 4 <= b.len(),
        b.subrange(o, o + 4) == le32(x),
    ensures
        from_le32(b, o) == x,
{
    assert(b[o] == le32(x)[0] && b[o + 1] == le32(x)[1] && b[o + 2] == le32(x)[2] && b[o + 3]
        == le32(x)[3]) by {
        assert(b.subrange(o, o + 4)[0] == b[o]);
        assert(b.subrange(o, o + 4)[1] == b[o + 1]);
        assert(b.subrange(o, o + 4)[2] == b[o + 2]);
        assert(b.subrange(o, o + 4)[3] == b[o + 3]);
    }
    let (b0, b1, b2, b3) = (b[o], b[o + 1], b[o + 2], b[o + 3]);
    assert(b0 == x as u8 && b1 == (x >> 8u32) as u8 && b2 == (x >> 16u32) as u8 && b3 == (x
        >> 24u32) as u8 ==> (b0 as u32) | ((b1 as u32) << 8u32) | ((b2 as u32) << 16u32) | ((
    b3 as u32) << 24u32) == x) by (bit_vector);
}

/// Decoding the little-endian encoding of a `u64` gives the value back.
pub proof fn lemma_le64_round_trip(x: u64, b: Seq<u8>, o: int)
    requires
        0 <= o,
        o + 8 <= b.len(),
        b.subrange(o, o + 8) == le64(x),
    ensures
        from_le64(b, o) == x,
{
    assert forall|i: int| 0 <= i < 8 implies b[o + i] == le64(x)[i] by {
        assert(b.subrange(o, o + 8)[i] == b[o + i]);
    }
    assert(b[o] == le64(x)[0]);
    assert(b[o + 1] == le64(x)[1]);
    assert(b[o + 2] == le64(x)[2]);
    assert(b[o + 3] == le64(x)[3]);
    assert(b[o + 4] == le64(x)[4]);
    assert(b[o + 5] == le64(x)[5]);
    assert(b[o + 6] == le64(x)[6]);
    assert(b[o + 7] == le64(x)[7]);
    let (b0, b1, b2, b3, b4, b5, b6, b7) = (
        b[o],
        b[o + 1],
        b[o + 2],
        b[o + 3],
        b[o + 4],
        b[o + 5],
        b[o + 6],
        b[o + 7],
    );
    assert(b0 == x as u8 && b1 == (x >> 8u64) as u8 && b2 == (x >> 16u64) as u8 && b3 == (x
        >> 24u64) as u8 && b4 == (x >> 32u64) as u8 && b5 == (x >> 40u64) as u8 && b6 == (x
        >> 48u64) as u8 && b7 == (x >> 56u64) as u8 ==> (b0 as u64) | ((b1 as u64) << 8u64) | ((
    b2 as u64) << 16u64) | ((b3 as u64) << 24u64) | ((b4 as u64) << 32u64) | ((b5 as u64)
        << 40u64) | ((b6 as u64) << 48u64) | ((b7 as u64) << 56u64) == x) by (bit_vector);
}

/// Encoding the `u32` decoded at `o` gives the four bytes it was decoded from.
pub proof fn lemma_le32_of_decoded(b: Seq<u8>, o: int)
    requires
        0 <= o,
        o + 4 <= b.len(),
    ensures
        le32(from_le32(b, o)) == b.subrange(o, o + 4),
{
    let (b0, b1, b2, b3) = (b[o], b[o + 1], b[o + 2], b[o + 3]);
    let x = from_le32(b, o);
    assert(x == (b0 as u32) | ((b1 as u32) << 8u32) | ((b2 as u32) << 16u32) | ((b3 as u32)
        << 24u32) ==> x as u8 == b0 && (x >> 8u32) as u8 == b1 && (x >> 16u32) as u8 == b2 && (x
        >> 24u32) as u8 == b3) by (bit_vector);
    assert(le32(x) =~= b.subrange(o, o + 4));
}

/// Encoding the `u64` decoded at `o` gives the eight bytes it was decoded from.
pub proof fn lemma_le64_of_decoded(b: Seq<u8>, o: int)
    requires
        0 <= o,
        o + 8 <= b.len(),
    ensures
        le64(from_le64(b, o)) == b.subrange(o, o + 8),
{
    let (b0, b1, b2, b3, b4, b5, b6, b7) = (
        b[o],
        b[o + 1],
        b[o + 2],
        b[o + 3],
        b[o + 4],
        b[o + 5],
        b[o + 6],
        b[o + 7],
    );
    let x = from_le64(b, o);
    assert(x == (b0 as u64) | ((b1 as u64) << 8u64) | ((b2 as u64) << 16u64) | ((b3 as u64)
        << 24u64) | ((b4 as u64) << 32u64) | ((b5 as u64) << 40u64) | ((b6 as u64) << 48u64) | ((
    b7 as u64) << 56u64) ==> x as u8 == b0 && (x >> 8u64) as u8 == b1 && (x >> 16u64) as u8
        == b2 && (x >> 24u64) as u8 == b3 && (x >> 32u64) as u8 == b4 && (x >> 40u64) as u8 == b5
        && (x >> 48u64) as u8 == b6 && (x >> 56u64) as u8 == b7) by (bit_vector);
    assert(le64(x) =~= b.subrange(o, o + 8));
}

/// Appends the little-endian encoding of `x`.
pub fn push_le32(out: &mut Vec<u8>, x: u32)
    ensures
        final(out)@ == old(out)@ + le32(x),
{
    out.push(x as u8);
    out.push((x >> 8u32) as u8);
    out.push((x >> 16u32) as u8);
    out.push((x >> 24u32) as u8);
    assert(final(out)@ =~= old(out)@ + le32(x));
}

/// Appends the little-endian encoding of `x`.
pub fn push_le64(out: &mut Vec<u8>, x: u64)
    ensures
        final(out)@ == old(out)@ + le64(x),
{
    out.push(x as u8);
    out.push((x >> 8u64) as u8);
    out.push((x >> 16u64) as u8);
    out.push((x >> 24u64) as u8);
    out.push((x >> 32u64) as u8);
    out.push((x >> 40u64) as u8);
    out.push((x >> 48u64) as u8);
    out.push((x >> 56u64) as u8);
    assert(final(out)@ =~= old(out)@ + le64(x));
}

/// Appends every byte of `src`.
pub fn push_all(out: &mut Vec<u8>, src: &[u8])
    ensures
        final(out)@ == old(out)@ + src@,
{
    let mut i: usize = 0;
    while i < src.len()
        invariant
            i <= src@.len(),
            out@ == old(out)@ + src@.subrange(0, i as int),
        decreases src@.len() - i,
    {
        out.push(src[i]);
        i = i + 1;
        assert(out@ =~= old(out)@ + src@.subrange(0, i as int));
    }
    assert(src@.subrange(0, i as int) =~= src@);
}

/// Appends the little-endian encoding of `x`.
pub fn push_le16(out: &mut Vec<u8>, x: u16)
    ensures
        final(out)@ == old(out)@ + le16(x),
{
    out.push(x as u8);
    out.push((x >> 8u16) as u8);
    assert(final(out)@ =~= old(out)@ + le16(x));
}

/// Reads the little-endian `u16` at offset `o`.
pub fn read_le16(b: &[u8], o: usize) -> (r: u16)
    requires
        o + 2 <= b@.len(),
    ensures
        r == from_le16(b@, o as int),
{
    (b[o] as u16) | ((b[o + 1] as u16) << 8u16)
}

/// Reads the little-endian `u32` at offset `o`.
pub fn read_le32(b: &[u8], o: usize) -> (r: u32)
    requires
        o + 4 <= b@.len(),
    ensures
        r == from_le32(b@, o as int),
{
    (b[o] as u32) | ((b[o + 1] as u32) << 8u32) | ((b[o + 2] as u32) << 16u32) | ((b[o
        + 3] as u32) << 24u32)
}

/// Reads the little-endian `u64` at offset `o`.
pub fn read_le64(b: &[u8], o: usize) -> (r: u64)
    requires
        o + 8 <= b@.len(),
    ensures
        r == from_le64(b@, o as int),
{
    (b[o] as u64) | ((b[o + 1] as u64) << 8u64) | ((b[o + 2] as u64) << 16u64) | ((b[o
        + 3] as u64) << 24u64) | ((b[o + 4] as u64) << 32u64) | ((b[o + 5] as u64) << 40u64)
        | ((b[o + 6] as u64) << 48u64) | ((b[o + 7] as u64) << 56u64)
}

/// Copies the `N` bytes at offset `o` into an array.
pub fn read_array<const N: usize>(b: &[u8], o: usize) -> (r: [u8; N])
    requires
        o + N <= b@.len(),
    ensures
        r@ == b@.subrange(o as int, o + N),
{
    let mut r = [0u8; N];
    let len = b.len();
    let mut i: usize = 0;
    while i < N
        invariant
            i <= N,
            len == b@.len(),
            o + N <= b@.len(),
            r@.len() == N,
            forall|j: int| 0 <= j < i ==> r@[j] == b@[o + j],
        decreases N - i,
    {
        r[i] = b[o + i];
        i = i + 1;
    }
    assert(r@ =~= b@.subrange(o as int, o + N));
    r
}

/// Compares two byte slices.
pub fn bytes_equal(a: &[u8], b: &[u8]) -> (r: bool)
    ensures
        r == (a@ == b@),
{
    if a.len() != b.len() {
        return false;
    }
    let mut i: usize = 0;
    while i < a.len()
        invariant
            a@.len() == b@.len(),
            i <= a@.len(),
            forall|j: int| 0 <= j < i ==> a@[j] == b@[j],
        decreases a@.len() - i,
    {
        if a[i] != b[i] {
            return false;
        }
        i = i + 1;
    }
    assert(a@ =~= b@);
    true
}

/// What the CRC-32/ISO-HDLC checksum (the one of zlib and gzip) gives for a byte sequence.
pub uninterp spec fn crc32_of(data: Seq<u8>) -> u32;

/// Relies on `crc::Crc::<u32>::checksum` with the `CRC_32_ISO_HDLC` algorithm: a pure
/// function of the bytes it is given.
#[verifier::external_body]
pub(crate) fn crc32(data: &[u8]) -> (r: u32)
    ensures
        r == crc32_of(data@),
{
    crc::Crc::<u32>::new(&crc::CRC_32_ISO_HDLC).checksum(data)
}

} // verus!
