//! Big-endian integers in byte strings.

use vstd::prelude::*;

verus! {

/// The two bytes of `x`, most significant first.
pub open spec fn u16_be(x: u16) -> Seq<u8> {
    seq![(x / 256) as u8, (x % 256) as u8]
}

/// The four bytes of `x`, most significant first.
pub open spec fn u32_be(x: u32) -> Seq<u8> {
    seq![
        (x / 0x100_0000) as u8,
        (x / 0x1_0000 % 256) as u8,
        (x / 0x100 % 256) as u8,
        (x % 256) as u8,
    ]
}

/// The eight bytes of `x`, most significant first.
pub open spec fn u64_be(x: u64) -> Seq<u8> {
    u32_be((x / 0x1_0000_0000) as u32) + u32_be((x % 0x1_0000_0000) as u32)
}

/// The integer that the two bytes of `data` from `at` on spell.
pub open spec fn u16_at(data: Seq<u8>, at: int) -> u16 {
    (data[at] as int * 256 + data[at + 1] as int) as u16
}

/// The integer that the four bytes of `data` from `at` on spell.
pub open spec fn u32_at(data: Seq<u8>, at: int) -> u32 {
    (data[at] as int * 0x100_0000 + data[at + 1] as int * 0x1_0000 + data[at + 2] as int * 0x100
        + data[at + 3] as int) as u32
}

/// The integer that the eight bytes of `data` from `at` on spell.
pub open spec fn u64_at(data: Seq<u8>, at: int) -> u64 {
    (u32_at(data, at) as int * 0x1_0000_0000 + u32_at(data, at + 4) as int) as u64
}

/// Reading back what `u16_be` wrote gives the integer written.
pub proof fn lemma_u16_round_trip(pre: Seq<u8>, x: u16, post: Seq<u8>)
    ensures
        u16_at(pre + u16_be(x) + post, pre.len() as int) == x,
        u16_be(x).len() == 2,
{
    let s = pre + u16_be(x) + post;
    let n = pre.len() as int;
    assert(s[n] == u16_be(x)[0]);
    assert(s[n + 1] == u16_be(x)[1]);
}

/// Reading back what `u32_be` wrote gives the integer written.
pub proof fn lemma_u32_round_trip(pre: Seq<u8>, x: u32, post: Seq<u8>)
    ensures
        u32_at(pre + u32_be(x) + post, pre.len() as int) == x,
        u32_be(x).len() == 4,
{
    let s = pre + u32_be(x) + post;
    let n = pre.len() as int;
    assert(s[n] == u32_be(x)[0]);
    assert(s[n + 1] == u32_be(x)[1]);
    assert(s[n + 2] == u32_be(x)[2]);
    assert(s[n + 3] == u32_be(x)[3]);
}

/// Reading back what `u64_be` wrote gives the integer written.
pub proof fn lemma_u64_round_trip(pre: Seq<u8>, x: u64, post: Seq<u8>)
    ensures
        u64_at(pre + u64_be(x) + post, pre.len() as int) == x,
        u64_be(x).len() == 8,
{
    let hi = (x / 0x1_0000_0000) as u32;
    let lo = (x % 0x1_0000_0000) as u32;
    let s = pre + u64_be(x) + post;
    let n = pre.len() as int;
    lemma_u32_round_trip(pre, hi, u32_be(lo) + post);
    lemma_u32_round_trip(pre + u32_be(hi), lo, post);
    assert(s =~= pre + u32_be(hi) + (u32_be(lo) + post));
    assert(s =~= (pre + u32_be(hi)) + u32_be(lo) + post);
}

/// Appends `x` to `buf`, most significant byte first.
pub fn put_u16(buf: &mut Vec<u8>, x: u16)
    ensures
        final(buf)@ == old(buf)@ + u16_be(x),
{
    buf.push((x / 256) as u8);
    buf.push((x % 256) as u8);
    assert(buf@ =~= old(buf)@ + u16_be(x));
}

/// Appends `x` to `buf`, most significant byte first.
pub fn put_u32(buf: &mut Vec<u8>, x: u32)
    ensures
        final(buf)@ == old(buf)@ + u32_be(x),
{
    buf.push((x / 0x100_0000) as u8);
    buf.push((x / 0x1_0000 % 256) as u8);
    buf.push((x / 0x100 % 256) as u8);
    buf.push((x % 256) as u8);
    assert(buf@ =~= old(buf)@ + u32_be(x));
}

/// Appends `x` to `buf`, most significant byte first.
pub fn put_u64(buf: &mut Vec<u8>, x: u64)
    ensures
        final(buf)@ == old(buf)@ + u64_be(x),
{
    put_u32(buf, (x / 0x1_0000_0000) as u32);
    put_u32(buf, (x % 0x1_0000_0000) as u32);
    assert(buf@ =~= old(buf)@ + u64_be(x));
}

/// Appends the bytes of `src` to `buf`.
pub fn put_slice(buf: &mut Vec<u8>, src: &[u8])
    ensures
        final(buf)@ == old(buf)@ + src@,
{
    buf.extend_from_slice(src);
    assert(buf@ =~= old(buf)@ + src@);
}

/// Reads the big-endian integer in the two bytes of `data` from `at` on.
pub fn get_u16(data: &[u8], at: usize) -> (x: u16)
    requires
        at + 2 <= data@.len(),
    ensures
        x == u16_at(data@, at as int),
{
    let hi: u16 = data[at] as u16;
    let lo: u16 = data[at + 1] as u16;
    hi * 256 + lo
}

/// Reads the big-endian integer in the four bytes of `data` from `at` on.
pub fn get_u32(data: &[u8], at: usize) -> (x: u32)
    requires
        at + 4 <= data@.len(),
    ensures
        x == u32_at(data@, at as int),
{
    let b0: u32 = data[at] as u32;
    let b1: u32 = data[at + 1] as u32;
    let b2: u32 = data[at + 2] as u32;
    let b3: u32 = data[at + 3] as u32;
    b0 * 0x100_0000 + b1 * 0x1_0000 + b2 * 0x100 + b3
}

/// Reads the big-endian integer in the eight bytes of `data` from `at` on.
pub fn get_u64(data: &[u8], at: usize) -> (x: u64)
    requires
        at + 8 <= data@.len(),
    ensures
        x == u64_at(data@, at as int),
{
    let _len: usize = data.len();
    let hi: u64 = get_u32(data, at) as u64;
    let lo: u64 = get_u32(data, at + 4) as u64;
    hi * 0x1_0000_0000 + lo
}

/// The bytes of `data` from `from` up to `to`, copied.
pub fn copy_range(data: &[u8], from: usize, to: usize) -> (out: Vec<u8>)
    requires
        from <= to <= data@.len(),
    ensures
        out@ == data@.subrange(from as int, to as int),
{
    let mut out: Vec<u8> = Vec::with_capacity(to - from);
    let mut i: usize = from;
    while i < to
        invariant
            from <= i <= to <= data@.len(),
            out@ == data@.subrange(from as int, i as int),
        decreases to - i,
    {
        out.push(data[i]);
        i += 1;
        assert(out@ =~= data@.subrange(from as int, i as int));
    }
    out
}

} // verus!
