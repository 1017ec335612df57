//! Big-endian (network byte order) integer layouts, as the tracker protocol
//! uses them, with verified readers and writers over byte vectors.

use vstd::prelude::*;

verus! {

/// The 16-bit integer held big-endian in a 2-byte sequence.
pub open spec fn u16_of_be(s: Seq<u8>) -> u16
    recommends
        s.len() == 2,
{
    (s[0] as int * 0x100 + s[1] as int) as u16
}

/// The 32-bit integer held big-endian in a 4-byte sequence.
pub open spec fn u32_of_be(s: Seq<u8>) -> u32
    recommends
        s.len() == 4,
{
    (s[0] as int * 0x100_0000 + s[1] as int * 0x1_0000 + s[2] as int * 0x100 + s[3] as int) as u32
}

/// The 64-bit integer held big-endian in an 8-byte sequence.
pub open spec fn u64_of_be(s: Seq<u8>) -> u64
    recommends
        s.len() == 8,
{
    (s[0] as int * 0x100_0000_0000_0000 + s[1] as int * 0x1_0000_0000_0000
        + s[2] as int * 0x100_0000_0000 + s[3] as int * 0x1_0000_0000
        + s[4] as int * 0x100_0000 + s[5] as int * 0x1_0000 + s[6] as int * 0x100
        + s[7] as int) as u64
}

/// The signed reading of the same four bytes: two's complement.
pub open spec fn i32_of_be(s: Seq<u8>) -> i32
    recommends
        s.len() == 4,
{
    let u = u32_of_be(s);
    if u < 0x8000_0000 {
        u as i32
    } else {
        (u as int - 0x1_0000_0000) as i32
    }
}

/// The 2-byte big-endian layout of a 16-bit integer.
pub open spec fn be_bytes_of_u16(x: u16) -> Seq<u8> {
    seq![(x as int / 0x100) as u8, (x as int % 0x100) as u8]
}

/// The 4-byte big-endian layout of a 32-bit integer.
pub open spec fn be_bytes_of_u32(x: u32) -> Seq<u8> {
    seq![
        (x as int / 0x100_0000) as u8,
        (x as int / 0x1_0000 % 0x100) as u8,
        (x as int / 0x100 % 0x100) as u8,
        (x as int % 0x100) as u8,
    ]
}

/// The 8-byte big-endian layout of a 64-bit integer.
pub open spec fn be_bytes_of_u64(x: u64) -> Seq<u8> {
    seq![
        (x as int / 0x100_0000_0000_0000) as u8,
        (x as int / 0x1_0000_0000_0000 % 0x100) as u8,
        (x as int / 0x100_0000_0000 % 0x100) as u8,
        (x as int / 0x1_0000_0000 % 0x100) as u8,
        (x as int / 0x100_0000 % 0x100) as u8,
        (x as int / 0x1_0000 % 0x100) as u8,
        (x as int / 0x100 % 0x100) as u8,
        (x as int % 0x100) as u8,
    ]
}

/// Copies a byte vector.
pub fn clone_bytes(b: &Vec<u8>) -> (r: Vec<u8>)
    ensures
        r@ == b@,
{
    let n = b.len();
    let mut r: Vec<u8> = Vec::new();
    let mut i: usize = 0;
    while i < n
        invariant
            n == b.len(),
            i <= n,
            r@ == b@.take(i as int),
        decreases n - i,
    {
        r.push(b[i]);
        proof {
            assert(r@ =~= b@.take(i as int + 1));
        }
        i = i + 1;
    }
    proof {
        assert(b@.take(n as int) =~= b@);
    }
    r
}

/// Reads the big-endian 16-bit integer at `off`.
pub fn read_u16_be(b: &Vec<u8>, off: usize) -> (r: u16)
    requires
        off + 2 <= b.len(),
    ensures
        r == u16_of_be(b@.subrange(off as int, off as int + 2)),
{
    let r: u16 = (b[off] as u16) * 0x100 + (b[off + 1] as u16);
    proof {
        let s = b@.subrange(off as int, off as int + 2);
        assert(s[0] == b@[off as int]);
        assert(s[1] == b@[off as int + 1]);
    }
    r
}

/// Reads the big-endian 32-bit integer at `off`.
pub fn read_u32_be(b: &Vec<u8>, off: usize) -> (r: u32)
    requires
        off + 4 <= b.len(),
    ensures
        r == u32_of_be(b@.subrange(off as int, off as int + 4)),
{
    let r: u32 = (b[off] as u32) * 0x100_0000 + (b[off + 1] as u32) * 0x1_0000
        + (b[off + 2] as u32) * 0x100 + (b[off + 3] as u32);
    proof {
        let s = b@.subrange(off as int, off as int + 4);
        assert(s[0] == b@[off as int]);
        assert(s[1] == b@[off as int + 1]);
        assert(s[2] == b@[off as int + 2]);
        assert(s[3] == b@[off as int + 3]);
    }
    r
}

/// Reads the big-endian 64-bit integer at `off`.
pub fn read_u64_be(b: &Vec<u8>, off: usize) -> (r: u64)
    requires
        off + 8 <= b.len(),
    ensures
        r == u64_of_be(b@.subrange(off as int, off as int + 8)),
{
    let r: u64 = (b[off] as u64) * 0x100_0000_0000_0000 + (b[off + 1] as u64) * 0x1_0000_0000_0000
        + (b[off + 2] as u64) * 0x100_0000_0000 + (b[off + 3] as u64) * 0x1_0000_0000
        + (b[off + 4] as u64) * 0x100_0000 + (b[off + 5] as u64) * 0x1_0000
        + (b[off + 6] as u64) * 0x100 + (b[off + 7] as u64);
    proof {
        let s = b@.subrange(off as int, off as int + 8);
        assert(s[0] == b@[off as int]);
        assert(s[1] == b@[off as int + 1]);
        assert(s[2] == b@[off as int + 2]);
        assert(s[3] == b@[off as int + 3]);
        assert(s[4] == b@[off as int + 4]);
        assert(s[5] == b@[off as int + 5]);
        assert(s[6] == b@[off as int + 6]);
        assert(s[7] == b@[off as int + 7]);
    }
    r
}

/// Reads the big-endian 32-bit field at `off` as a signed value.
pub fn read_i32_be(b: &Vec<u8>, off: usize) -> (r: i32)
    requires
        off + 4 <= b.len(),
    ensures
        r == i32_of_be(b@.subrange(off as int, off as int + 4)),
{
    let u = read_u32_be(b, off);
    if u >= 0x8000_0000 {
        let v: i64 = u as i64 - 0x1_0000_0000i64;
        v as i32
    } else {
        u as i32
    }
}

/// Appends the 2-byte big-endian layout of `x`.
pub fn push_u16_be(out: &mut Vec<u8>, x: u16)
    ensures
        final(out)@ == old(out)@ + be_bytes_of_u16(x),
{
    out.push((x / 0x100) as u8);
    out.push((x % 0x100) as u8);
    proof {
        assert(out@ =~= old(out)@ + be_bytes_of_u16(x));
    }
}

/// Appends the 4-byte big-endian layout of `x`.
pub fn push_u32_be(out: &mut Vec<u8>, x: u32)
    ensures
        final(out)@ == old(out)@ + be_bytes_of_u32(x),
{
    out.push((x / 0x100_0000) as u8);
    out.push((x / 0x1_0000 % 0x100) as u8);
    out.push((x / 0x100 % 0x100) as u8);
    out.push((x % 0x100) as u8);
    proof {
        assert(out@ =~= old(out)@ + be_bytes_of_u32(x));
    }
}

/// Appends the 8-byte big-endian layout of `x`.
pub fn push_u64_be(out: &mut Vec<u8>, x: u64)
    ensures
        final(out)@ == old(out)@ + be_bytes_of_u64(x),
{
    out.push((x / 0x100_0000_0000_0000) as u8);
    out.push((x / 0x1_0000_0000_0000 % 0x100) as u8);
    out.push((x / 0x100_0000_0000 % 0x100) as u8);
    out.push((x / 0x1_0000_0000 % 0x100) as u8);
    out.push((x / 0x100_0000 % 0x100) as u8);
    out.push((x / 0x1_0000 % 0x100) as u8);
    out.push((x / 0x100 % 0x100) as u8);
    out.push((x % 0x100) as u8);
    proof {
        assert(out@ =~= old(out)@ + be_bytes_of_u64(x));
    }
}

} // verus!
