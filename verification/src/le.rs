//! Little-endian integer encoding: a byte reader over a borrowed slice,
//! the writers used when packing ELF structures, and the laws tying the two.
use vstd::prelude::*;

verus! {

/// The 16-bit little-endian value stored at `pos` in `b`.
pub open spec fn spec_u16_le(b: Seq<u8>, pos: int) -> u16 {
    (b[pos] as int + 256 * (b[pos + 1] as int)) as u16
}

/// The 32-bit little-endian value stored at `pos` in `b`.
pub open spec fn spec_u32_le(b: Seq<u8>, pos: int) -> u32 {
    (b[pos] as int + 256 * (b[pos + 1] as int) + 65536 * (b[pos + 2] as int) + 16777216 * (
    b[pos + 3] as int)) as u32
}

/// The two bytes of `v`, least significant first.
pub open spec fn u16_le_bytes(v: u16) -> Seq<u8> {
    seq![(v % 256) as u8, (v / 256) as u8]
}

/// The four bytes of `v`, least significant first.
pub open spec fn u32_le_bytes(v: u32) -> Seq<u8> {
    seq![(v % 256) as u8, ((v / 256) % 256) as u8, ((v / 65536) % 256) as u8, (v / 16777216) as u8]
}

/// Decoding what was encoded gives the value back.
pub proof fn lemma_u16_le_roundtrip(v: u16, b: Seq<u8>, pos: int)
    requires
        0 <= pos,
        pos + 2 <= b.len(),
        b.subrange(pos, pos + 2) == u16_le_bytes(v),
    ensures
        spec_u16_le(b, pos) == v,
{
    assert(b[pos] == u16_le_bytes(v)[0]);
    assert(b[pos + 1] == u16_le_bytes(v)[1]);
}

/// Decoding what was encoded gives the value back.
pub proof fn lemma_u32_le_roundtrip(v: u32, b: Seq<u8>, pos: int)
    requires
        0 <= pos,
        pos + 4 <= b.len(),
        b.subrange(pos, pos + 4) == u32_le_bytes(v),
    ensures
        spec_u32_le(b, pos) == v,
{
    assert(b[pos] == u32_le_bytes(v)[0]);
    assert(b[pos + 1] == u32_le_bytes(v)[1]);
    assert(b[pos + 2] == u32_le_bytes(v)[2]);
    assert(b[pos + 3] == u32_le_bytes(v)[3]);
}

/// Encoding what was decoded gives the bytes back.
pub proof fn lemma_u32_le_bytes_of_decoded(b: Seq<u8>, pos: int)
    requires
        0 <= pos,
        pos + 4 <= b.len(),
    ensures
        u32_le_bytes(spec_u32_le(b, pos)) == b.subrange(pos, pos + 4),
{
    let v = spec_u32_le(b, pos);
    let b0 = b[pos] as int;
    let b1 = b[pos + 1] as int;
    let b2 = b[pos + 2] as int;
    let b3 = b[pos + 3] as int;
    let k3 = b3;
    let k2 = b2 + 256 * k3;
    let k1 = b1 + 256 * k2;
    assert(v as int == b0 + 256 * k1);
    lemma_split_byte(b0, k1);
    lemma_split_byte(b1, k2);
    lemma_split_byte(b2, k3);
    assert((v as int / 256) / 256 == v as int / 65536) by (nonlinear_arith)
        requires v as int >= 0;
    assert((v as int / 65536) / 256 == v as int / 16777216) by (nonlinear_arith)
        requires v as int >= 0;
    assert(u32_le_bytes(v) =~= b.subrange(pos, pos + 4));
}

/// Splitting `a + 256 * k` into its low byte and the rest.
proof fn lemma_split_byte(a: int, k: int)
    requires
        0 <= a < 256,
        0 <= k,
    ensures
        (a + 256 * k) % 256 == a,
        (a + 256 * k) / 256 == k,
{
    assert((a + 256 * k) % 256 == a && (a + 256 * k) / 256 == k) by (nonlinear_arith)
        requires
            0 <= a < 256,
            0 <= k,
    ;
}

/// A position in a borrowed byte slice, read from front to back.
pub struct ByteReader<'a> {
    pub data: &'a [u8],
    pub pos: usize,
}

impl<'a> ByteReader<'a> {
    /// A reader at the start of `data`.
    pub fn new(data: &'a [u8]) -> (r: Self)
        ensures
            r.data@ == data@,
            r.pos == 0,
    {
        ByteReader { data, pos: 0 }
    }

    /// Moves the reader to `pos`, which may lie past the end.
    pub fn set_position(&mut self, pos: usize)
        ensures
            final(self).data@ == old(self).data@,
            final(self).pos == pos,
    {
        self.pos = pos;
    }

    /// Copies the next `n` bytes out and advances past them.
    pub fn read_bytes(&mut self, n: usize) -> (r: Vec<u8>)
        requires
            old(self).pos + n <= old(self).data@.len(),
        ensures
            final(self).data@ == old(self).data@,
            final(self).pos == old(self).pos + n,
            r@ == old(self).data@.subrange(old(self).pos as int, old(self).pos + n),
    {
        let mut out: Vec<u8> = Vec::with_capacity(n);
        let start = self.pos;
        let data = self.data;
        let len = data.len();
        let mut i: usize = 0;
        while i < n
            invariant
                i <= n,
                start + n <= len,
                len == data@.len(),
                data@ == old(self).data@,
                out@ == data@.subrange(start as int, start + i),
            decreases n - i,
        {
            out.push(data[start + i]);
            i += 1;
            assert(out@ =~= data@.subrange(start as int, start + i));
        }
        assert(start + n <= len);
        self.pos = start + n;
        out
    }
}

/// Reads a little-endian `u32` at the reader's position and advances by four bytes.
pub fn read_u32_le(rdr: &mut ByteReader) -> (v: u32)
    requires
        old(rdr).pos + 4 <= old(rdr).data@.len(),
    ensures
        final(rdr).data@ == old(rdr).data@,
        final(rdr).pos == old(rdr).pos + 4,
        v == spec_u32_le(old(rdr).data@, old(rdr).pos as int),
{
    let p = rdr.pos;
    let b0 = rdr.data[p] as u32;
    let b1 = rdr.data[p + 1] as u32;
    let b2 = rdr.data[p + 2] as u32;
    let b3 = rdr.data[p + 3] as u32;
    rdr.pos = p + 4;
    b0 + 256 * b1 + 65536 * b2 + 16777216 * b3
}

/// Reads a little-endian `u16` at the reader's position and advances by two bytes.
pub fn read_u16_le(rdr: &mut ByteReader) -> (v: u16)
    requires
        old(rdr).pos + 2 <= old(rdr).data@.len(),
    ensures
        final(rdr).data@ == old(rdr).data@,
        final(rdr).pos == old(rdr).pos + 2,
        v == spec_u16_le(old(rdr).data@, old(rdr).pos as int),
{
    let p = rdr.pos;
    let b0 = rdr.data[p] as u16;
    let b1 = rdr.data[p + 1] as u16;
    rdr.pos = p + 2;
    b0 + 256 * b1
}

/// Appends the little-endian bytes of `v`.
pub fn push_u32_le(buf: &mut Vec<u8>, v: u32)
    ensures
        final(buf)@ == old(buf)@ + u32_le_bytes(v),
{
    buf.push((v % 256) as u8);
    buf.push(((v / 256) % 256) as u8);
    buf.push(((v / 65536) % 256) as u8);
    buf.push((v / 16777216) as u8);
    assert(buf@ =~= old(buf)@ + u32_le_bytes(v));
}

/// Appends the little-endian bytes of `v`.
pub fn push_u16_le(buf: &mut Vec<u8>, v: u16)
    ensures
        final(buf)@ == old(buf)@ + u16_le_bytes(v),
{
    buf.push((v % 256) as u8);
    buf.push((v / 256) as u8);
    assert(buf@ =~= old(buf)@ + u16_le_bytes(v));
}

} // verus!
