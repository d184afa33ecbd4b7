use vstd::prelude::*;

verus! {

/// The little-endian value of two bytes.
pub open spec fn le16(b0: u8, b1: u8) -> u16 {
    (b0 as u16) | ((b1 as u16) << 8)
}

/// The little-endian value of four bytes.
pub open spec fn le32(b0: u8, b1: u8, b2: u8, b3: u8) -> u32 {
    (b0 as u32) | ((b1 as u32) << 8) | ((b2 as u32) << 16) | ((b3 as u32) << 24)
}

/// The little-endian `u16` stored at `pos` in `data`.
pub open spec fn le16_at(data: Seq<u8>, pos: int) -> u16 {
    le16(data[pos], data[pos + 1])
}

/// The little-endian `u32` stored at `pos` in `data`.
pub open spec fn le32_at(data: Seq<u8>, pos: int) -> u32 {
    le32(data[pos], data[pos + 1], data[pos + 2], data[pos + 3])
}

/// The two little-endian bytes of a `u16`.
pub open spec fn u16_le_bytes(v: u16) -> Seq<u8> {
    seq![(v & 0xff) as u8, ((v >> 8) & 0xff) as u8]
}

/// The four little-endian bytes of a `u32`.
pub open spec fn u32_le_bytes(v: u32) -> Seq<u8> {
    seq![
        (v & 0xff) as u8,
        ((v >> 8) & 0xff) as u8,
        ((v >> 16) & 0xff) as u8,
        ((v >> 24) & 0xff) as u8,
    ]
}

/// Reading back the two little-endian bytes of a `u16` gives the value again.
pub proof fn lemma_le16_of_bytes(v: u16)
    ensures
        le16(u16_le_bytes(v)[0], u16_le_bytes(v)[1]) == v,
{
    assert(((v & 0xff) as u8 as u16) | ((((v >> 8) & 0xff) as u8 as u16) << 8) == v)
        by (bit_vector);
}

/// Reading back the four little-endian bytes of a `u32` gives the value again.
pub proof fn lemma_le32_of_bytes(v: u32)
    ensures
        le32(u32_le_bytes(v)[0], u32_le_bytes(v)[1], u32_le_bytes(v)[2], u32_le_bytes(v)[3]) == v,
{
    assert(((v & 0xff) as u8 as u32) | ((((v >> 8) & 0xff) as u8 as u32) << 8)
        | ((((v >> 16) & 0xff) as u8 as u32) << 16) | ((((v >> 24) & 0xff) as u8 as u32) << 24)
        == v) by (bit_vector);
}

/// Appends the two little-endian bytes of `v` to `out`.
pub fn push_u16_le(out: &mut Vec<u8>, v: u16)
    ensures
        final(out)@ == old(out)@ + u16_le_bytes(v),
{
    out.push((v & 0xff) as u8);
    out.push(((v >> 8) & 0xff) as u8);
    assert(out@ =~= old(out)@ + u16_le_bytes(v));
}

/// Appends the four little-endian bytes of `v` to `out`.
pub fn push_u32_le(out: &mut Vec<u8>, v: u32)
    ensures
        final(out)@ == old(out)@ + u32_le_bytes(v),
{
    out.push((v & 0xff) as u8);
    out.push(((v >> 8) & 0xff) as u8);
    out.push(((v >> 16) & 0xff) as u8);
    out.push(((v >> 24) & 0xff) as u8);
    assert(out@ =~= old(out)@ + u32_le_bytes(v));
}

/// Appends `len` bytes of `src`, starting at `from`, to `out`.
pub fn push_bytes(out: &mut Vec<u8>, src: &Vec<u8>, from: usize, len: usize)
    requires
        from + len <= src@.len(),
    ensures
        final(out)@ == old(out)@ + src@.subrange(from as int, from + len),
{
    let _total = src.len();
    let mut t: usize = 0;
    assert(old(out)@ + src@.subrange(from as int, from as int) =~= old(out)@);
    while t < len
        invariant
            t <= len,
            from + len <= src@.len(),
            src@.len() <= usize::MAX,
            out@ == old(out)@ + src@.subrange(from as int, from + t),
        decreases len - t,
    {
        out.push(src[from + t]);
        assert(out@ =~= old(out)@ + src@.subrange(from as int, from + t + 1));
        t = t + 1;
    }
}

} // verus!
