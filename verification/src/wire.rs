//! The byte-level shape of every MessagePack atom the codec emits, and the
//! verified writers that produce them.
//!
//! Every `spec fn` here defines the canonical (shortest-form) encoding, the
//! one the writer emits; the reader accepts every well-formed MessagePack
//! form, not only these.
use vstd::prelude::*;

verus! {

/// The unsigned byte that stores an `i8` EXT type code.
pub open spec fn i8_byte(ty: i8) -> u8 {
    if ty >= 0 {
        ty as u8
    } else {
        (ty + 0x100) as u8
    }
}

/// The `i8` EXT type code stored by an unsigned byte.
pub open spec fn byte_i8(b: u8) -> i8 {
    if b < 0x80 {
        b as i8
    } else {
        (b - 0x100) as i8
    }
}

pub proof fn lemma_i8_byte_roundtrip(ty: i8)
    ensures
        byte_i8(i8_byte(ty)) == ty,
{
}

/// Big-endian bytes of a 16-bit value.
pub open spec fn be16(v: int) -> Seq<u8> {
    seq![(v / 0x100 % 0x100) as u8, (v % 0x100) as u8]
}

/// Big-endian bytes of a 32-bit value.
pub open spec fn be32(v: int) -> Seq<u8> {
    seq![
        (v / 0x1000000 % 0x100) as u8,
        (v / 0x10000 % 0x100) as u8,
        (v / 0x100 % 0x100) as u8,
        (v % 0x100) as u8,
    ]
}

/// Big-endian bytes of a 64-bit value.
pub open spec fn be64(v: int) -> Seq<u8> {
    seq![
        (v / 0x100000000000000 % 0x100) as u8,
        (v / 0x1000000000000 % 0x100) as u8,
        (v / 0x10000000000 % 0x100) as u8,
        (v / 0x100000000 % 0x100) as u8,
        (v / 0x1000000 % 0x100) as u8,
        (v / 0x10000 % 0x100) as u8,
        (v / 0x100 % 0x100) as u8,
        (v % 0x100) as u8,
    ]
}

/// The 16-bit value stored by two big-endian bytes.
pub open spec fn from_be16(b0: u8, b1: u8) -> int {
    b0 * 0x100 + b1
}

pub open spec fn from_be32(b0: u8, b1: u8, b2: u8, b3: u8) -> int {
    ((b0 * 0x100 + b1) * 0x100 + b2) * 0x100 + b3
}

pub open spec fn from_be64(b0: u8, b1: u8, b2: u8, b3: u8, b4: u8, b5: u8, b6: u8, b7: u8) -> int {
    ((((((b0 * 0x100 + b1) * 0x100 + b2) * 0x100 + b3) * 0x100 + b4) * 0x100 + b5) * 0x100 + b6)
        * 0x100 + b7
}

#[verifier::rlimit(100)]
pub proof fn lemma_be16_roundtrip(v: int)
    requires
        0 <= v < 0x10000,
    ensures
        from_be16(be16(v)[0], be16(v)[1]) == v,
        0 <= from_be16(be16(v)[0], be16(v)[1]) < 0x10000,
{
}

#[verifier::rlimit(100)]
pub proof fn lemma_be32_roundtrip(v: int)
    requires
        0 <= v < 0x100000000,
    ensures
        from_be32(be32(v)[0], be32(v)[1], be32(v)[2], be32(v)[3]) == v,
{
    let b0 = v / 0x1000000 % 0x100;
    let b1 = v / 0x10000 % 0x100;
    let b2 = v / 0x100 % 0x100;
    let b3 = v % 0x100;
    assert(be32(v)[0] == b0 as u8 && be32(v)[1] == b1 as u8 && be32(v)[2] == b2 as u8 && be32(
        v,
    )[3] == b3 as u8);
    assert(0 <= b0 < 0x100 && 0 <= b1 < 0x100 && 0 <= b2 < 0x100 && 0 <= b3 < 0x100);
    assert(((b0 * 0x100 + b1) * 0x100 + b2) * 0x100 + b3 == v) by {
        vstd::arithmetic::div_mod::lemma_fundamental_div_mod(v, 0x100);
        vstd::arithmetic::div_mod::lemma_fundamental_div_mod(v / 0x100, 0x100);
        vstd::arithmetic::div_mod::lemma_fundamental_div_mod(v / 0x100 / 0x100, 0x100);
        vstd::arithmetic::div_mod::lemma_div_denominator(v, 0x100, 0x100);
        vstd::arithmetic::div_mod::lemma_div_denominator(v, 0x10000, 0x100);
        vstd::arithmetic::div_mod::lemma_div_denominator(v / 0x100, 0x100, 0x100);
        assert(v / 0x100 / 0x100 == v / 0x10000);
        assert(v / 0x10000 / 0x100 == v / 0x1000000);
        assert(v / 0x1000000 < 0x100);
        assert(b0 == v / 0x1000000);
    }
}

#[verifier::rlimit(100)]
pub proof fn lemma_be64_roundtrip(v: int)
    requires
        0 <= v < 0x10000000000000000,
    ensures
        from_be64(
            be64(v)[0],
            be64(v)[1],
            be64(v)[2],
            be64(v)[3],
            be64(v)[4],
            be64(v)[5],
            be64(v)[6],
            be64(v)[7],
        ) == v,
{
}

/// Canonical encoding of an unsigned 64-bit integer: the shortest of
/// positive fixint, uint8, uint16, uint32, uint64.
pub open spec fn enc_uint(v: int) -> Seq<u8> {
    if v < 0x80 {
        seq![v as u8]
    } else if v < 0x100 {
        seq![0xccu8, v as u8]
    } else if v < 0x10000 {
        seq![0xcdu8] + be16(v)
    } else if v < 0x100000000 {
        seq![0xceu8] + be32(v)
    } else {
        seq![0xcfu8] + be64(v)
    }
}

/// Canonical encoding of a negative integer: the shortest of negative
/// fixint, int8, int16, int32, int64.
pub open spec fn enc_nint(v: int) -> Seq<u8> {
    if v >= -32 {
        seq![(v + 0x100) as u8]
    } else if v >= -0x80 {
        seq![0xd0u8, (v + 0x100) as u8]
    } else if v >= -0x8000 {
        seq![0xd1u8] + be16(v + 0x10000)
    } else if v >= -0x80000000 {
        seq![0xd2u8] + be32(v + 0x100000000)
    } else {
        seq![0xd3u8] + be64(v + 0x10000000000000000)
    }
}

/// The canonical encoding of any representable integer: non-negative
/// values go out as uint, negative ones as sint.
pub open spec fn enc_int(v: int) -> Seq<u8> {
    if v >= 0 {
        enc_uint(v)
    } else {
        enc_nint(v)
    }
}

/// Header announcing a string of `n` UTF-8 bytes.
pub open spec fn str_hdr(n: int) -> Seq<u8> {
    if n < 32 {
        seq![(0xa0 + n) as u8]
    } else if n < 0x100 {
        seq![0xd9u8, n as u8]
    } else if n < 0x10000 {
        seq![0xdau8] + be16(n)
    } else {
        seq![0xdbu8] + be32(n)
    }
}

/// Header announcing `n` raw bytes.
pub open spec fn bin_hdr(n: int) -> Seq<u8> {
    if n < 0x100 {
        seq![0xc4u8, n as u8]
    } else if n < 0x10000 {
        seq![0xc5u8] + be16(n)
    } else {
        seq![0xc6u8] + be32(n)
    }
}

/// Header announcing an array of `n` elements.
pub open spec fn arr_hdr(n: int) -> Seq<u8> {
    if n < 16 {
        seq![(0x90 + n) as u8]
    } else if n < 0x10000 {
        seq![0xdcu8] + be16(n)
    } else {
        seq![0xddu8] + be32(n)
    }
}

/// Header announcing a map of `n` key/value pairs.
pub open spec fn map_hdr(n: int) -> Seq<u8> {
    if n < 16 {
        seq![(0x80 + n) as u8]
    } else if n < 0x10000 {
        seq![0xdeu8] + be16(n)
    } else {
        seq![0xdfu8] + be32(n)
    }
}

/// Header announcing an EXT block of `n` payload bytes with type `ty`:
/// fixext for the five exact sizes, else ext8/ext16/ext32.
pub open spec fn ext_hdr(n: int, ty: i8) -> Seq<u8> {
    if n == 1 {
        seq![0xd4u8, i8_byte(ty)]
    } else if n == 2 {
        seq![0xd5u8, i8_byte(ty)]
    } else if n == 4 {
        seq![0xd6u8, i8_byte(ty)]
    } else if n == 8 {
        seq![0xd7u8, i8_byte(ty)]
    } else if n == 16 {
        seq![0xd8u8, i8_byte(ty)]
    } else if n < 0x100 {
        seq![0xc7u8, n as u8, i8_byte(ty)]
    } else if n < 0x10000 {
        seq![0xc8u8] + be16(n) + seq![i8_byte(ty)]
    } else {
        seq![0xc9u8] + be32(n) + seq![i8_byte(ty)]
    }
}

pub fn put_be16(buf: &mut Vec<u8>, v: u16)
    ensures
        final(buf)@ == old(buf)@ + be16(v as int),
{
    buf.push((v / 0x100) as u8);
    buf.push((v % 0x100) as u8);
    proof {
        assert(final(buf)@ =~= old(buf)@ + be16(v as int));
    }
}

pub fn put_be32(buf: &mut Vec<u8>, v: u32)
    ensures
        final(buf)@ == old(buf)@ + be32(v as int),
{
    buf.push((v / 0x1000000) as u8);
    buf.push((v / 0x10000 % 0x100) as u8);
    buf.push((v / 0x100 % 0x100) as u8);
    buf.push((v % 0x100) as u8);
    proof {
        assert(final(buf)@ =~= old(buf)@ + be32(v as int));
    }
}

pub fn put_be64(buf: &mut Vec<u8>, v: u64)
    ensures
        final(buf)@ == old(buf)@ + be64(v as int),
{
    buf.push((v / 0x100000000000000) as u8);
    buf.push((v / 0x1000000000000 % 0x100) as u8);
    buf.push((v / 0x10000000000 % 0x100) as u8);
    buf.push((v / 0x100000000 % 0x100) as u8);
    buf.push((v / 0x1000000 % 0x100) as u8);
    buf.push((v / 0x10000 % 0x100) as u8);
    buf.push((v / 0x100 % 0x100) as u8);
    buf.push((v % 0x100) as u8);
    proof {
        assert(final(buf)@ =~= old(buf)@ + be64(v as int));
    }
}

/// Write an unsigned integer in its canonical form.
pub fn write_uint(buf: &mut Vec<u8>, v: u64)
    ensures
        final(buf)@ == old(buf)@ + enc_uint(v as int),
{
    if v < 0x80 {
        buf.push(v as u8);
        proof {
            assert(final(buf)@ =~= old(buf)@ + enc_uint(v as int));
        }
    } else if v < 0x100 {
        buf.push(0xcc);
        buf.push(v as u8);
        proof {
            assert(final(buf)@ =~= old(buf)@ + enc_uint(v as int));
        }
    } else if v < 0x10000 {
        buf.push(0xcd);
        put_be16(buf, v as u16);
        proof {
            assert(final(buf)@ =~= old(buf)@ + enc_uint(v as int));
        }
    } else if v < 0x100000000 {
        buf.push(0xce);
        put_be32(buf, v as u32);
        proof {
            assert(final(buf)@ =~= old(buf)@ + enc_uint(v as int));
        }
    } else {
        buf.push(0xcf);
        put_be64(buf, v);
        proof {
            assert(final(buf)@ =~= old(buf)@ + enc_uint(v as int));
        }
    }
}

/// Write a negative integer in its canonical form.
pub fn write_nint(buf: &mut Vec<u8>, v: i64)
    requires
        v < 0,
    ensures
        final(buf)@ == old(buf)@ + enc_nint(v as int),
{
    if v >= -32 {
        buf.push((v + 0x100) as u8);
        proof {
            assert(final(buf)@ =~= old(buf)@ + enc_nint(v as int));
        }
    } else if v >= -0x80 {
        buf.push(0xd0);
        buf.push((v + 0x100) as u8);
        proof {
            assert(final(buf)@ =~= old(buf)@ + enc_nint(v as int));
        }
    } else if v >= -0x8000 {
        buf.push(0xd1);
        put_be16(buf, (v + 0x10000) as u16);
        proof {
            assert(final(buf)@ =~= old(buf)@ + enc_nint(v as int));
        }
    } else if v >= -0x80000000 {
        buf.push(0xd2);
        put_be32(buf, (v + 0x100000000) as u32);
        proof {
            assert(final(buf)@ =~= old(buf)@ + enc_nint(v as int));
        }
    } else {
        buf.push(0xd3);
        let w: u64 = (v as i128 + 0x10000000000000000) as u64;
        put_be64(buf, w);
        proof {
            assert(final(buf)@ =~= old(buf)@ + enc_nint(v as int));
        }
    }
}

/// Write a string header for `n` bytes of UTF-8.
pub fn write_str_hdr(buf: &mut Vec<u8>, n: u32)
    ensures
        final(buf)@ == old(buf)@ + str_hdr(n as int),
{
    if n < 32 {
        buf.push(0xa0 + n as u8);
        proof {
            assert(final(buf)@ =~= old(buf)@ + str_hdr(n as int));
        }
    } else if n < 0x100 {
        buf.push(0xd9);
        buf.push(n as u8);
        proof {
            assert(final(buf)@ =~= old(buf)@ + str_hdr(n as int));
        }
    } else if n < 0x10000 {
        buf.push(0xda);
        put_be16(buf, n as u16);
        proof {
            assert(final(buf)@ =~= old(buf)@ + str_hdr(n as int));
        }
    } else {
        buf.push(0xdb);
        put_be32(buf, n);
        proof {
            assert(final(buf)@ =~= old(buf)@ + str_hdr(n as int));
        }
    }
}

/// Write a binary header for `n` raw bytes.
pub fn write_bin_hdr(buf: &mut Vec<u8>, n: u32)
    ensures
        final(buf)@ == old(buf)@ + bin_hdr(n as int),
{
    if n < 0x100 {
        buf.push(0xc4);
        buf.push(n as u8);
        proof {
            assert(final(buf)@ =~= old(buf)@ + bin_hdr(n as int));
        }
    } else if n < 0x10000 {
        buf.push(0xc5);
        put_be16(buf, n as u16);
        proof {
            assert(final(buf)@ =~= old(buf)@ + bin_hdr(n as int));
        }
    } else {
        buf.push(0xc6);
        put_be32(buf, n);
        proof {
            assert(final(buf)@ =~= old(buf)@ + bin_hdr(n as int));
        }
    }
}

/// Write an array header for `n` elements.
pub fn write_arr_hdr(buf: &mut Vec<u8>, n: u32)
    ensures
        final(buf)@ == old(buf)@ + arr_hdr(n as int),
{
    if n < 16 {
        buf.push(0x90 + n as u8);
        proof {
            assert(final(buf)@ =~= old(buf)@ + arr_hdr(n as int));
        }
    } else if n < 0x10000 {
        buf.push(0xdc);
        put_be16(buf, n as u16);
        proof {
            assert(final(buf)@ =~= old(buf)@ + arr_hdr(n as int));
        }
    } else {
        buf.push(0xdd);
        put_be32(buf, n);
        proof {
            assert(final(buf)@ =~= old(buf)@ + arr_hdr(n as int));
        }
    }
}

/// Write a map header for `n` key/value pairs.
pub fn write_map_hdr(buf: &mut Vec<u8>, n: u32)
    ensures
        final(buf)@ == old(buf)@ + map_hdr(n as int),
{
    if n < 16 {
        buf.push(0x80 + n as u8);
        proof {
            assert(final(buf)@ =~= old(buf)@ + map_hdr(n as int));
        }
    } else if n < 0x10000 {
        buf.push(0xde);
        put_be16(buf, n as u16);
        proof {
            assert(final(buf)@ =~= old(buf)@ + map_hdr(n as int));
        }
    } else {
        buf.push(0xdf);
        put_be32(buf, n);
        proof {
            assert(final(buf)@ =~= old(buf)@ + map_hdr(n as int));
        }
    }
}

fn i8_to_byte(ty: i8) -> (r: u8)
    ensures
        r == i8_byte(ty),
{
    if ty >= 0 {
        ty as u8
    } else {
        (ty as i16 + 0x100) as u8
    }
}

/// Write an EXT header for `n` payload bytes of type `ty`.
pub fn write_ext_hdr(buf: &mut Vec<u8>, n: u32, ty: i8)
    ensures
        final(buf)@ == old(buf)@ + ext_hdr(n as int, ty),
{
    let tb = i8_to_byte(ty);
    if n == 1 {
        buf.push(0xd4);
        buf.push(tb);
    } else if n == 2 {
        buf.push(0xd5);
        buf.push(tb);
    } else if n == 4 {
        buf.push(0xd6);
        buf.push(tb);
    } else if n == 8 {
        buf.push(0xd7);
        buf.push(tb);
    } else if n == 16 {
        buf.push(0xd8);
        buf.push(tb);
    } else if n < 0x100 {
        buf.push(0xc7);
        buf.push(n as u8);
        buf.push(tb);
    } else if n < 0x10000 {
        buf.push(0xc8);
        put_be16(buf, n as u16);
        buf.push(tb);
    } else {
        buf.push(0xc9);
        put_be32(buf, n);
        buf.push(tb);
    }
    proof {
        assert(final(buf)@ =~= old(buf)@ + ext_hdr(n as int, ty));
    }
}

/// Append a byte slice to the buffer.
pub fn put_bytes(buf: &mut Vec<u8>, data: &[u8])
    ensures
        final(buf)@ == old(buf)@ + data@,
{
    let n = data.len();
    let mut i: usize = 0;
    while i < n
        invariant
            n == data@.len(),
            i <= n,
            buf@ == old(buf)@ + data@.subrange(0, i as int),
        decreases n - i,
    {
        buf.push(data[i]);
        proof {
            assert(buf@ =~= old(buf)@ + data@.subrange(0, i + 1 as int));
        }
        i += 1;
    }
    proof {
        assert(data@.subrange(0, n as int) =~= data@);
    }
}

} // verus!
