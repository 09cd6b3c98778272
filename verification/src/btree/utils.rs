//! Big-endian byte-level helpers shared by the leaf and internal-node codecs.
//!
//! All multi-byte integers on a page are 32 bits wide and big-endian.  A
//! stored value of zero doubles as "absent" for the optional header fields
//! (parent and next-leaf pointers), so the readers hand back an `Option`.

use vstd::prelude::*;

verus! {

/// The four big-endian bytes of `x`, most significant first.
pub open spec fn be32(x: u32) -> Seq<u8> {
    seq![(x >> 24) as u8, (x >> 16) as u8, (x >> 8) as u8, x as u8]
}

/// The value stored by four big-endian bytes.
pub open spec fn be32_val(b: Seq<u8>) -> u32
    recommends
        b.len() == 4,
{
    (((b[0] as u32) << 24) | ((b[1] as u32) << 16) | ((b[2] as u32) << 8) | (b[3] as u32)) as u32
}

/// Writing four big-endian bytes and reading them back yields the value.
pub proof fn lemma_be32_round_trip(x: u32)
    ensures
        be32_val(be32(x)) == x,
{
    assert(((((x >> 24) as u8) as u32) << 24 | (((x >> 16) as u8) as u32) << 16 | (((x >> 8)
        as u8) as u32) << 8 | ((x as u8) as u32)) == x) by (bit_vector);
}

/// The optional value stored by four big-endian bytes: zero means "absent".
pub open spec fn be32_opt_val(b: Seq<u8>) -> Option<u32>
    recommends
        b.len() == 4,
{
    if be32_val(b) == 0 {
        None
    } else {
        Some(be32_val(b))
    }
}

/// Read the big-endian 32-bit field at byte offset `pos`; zero reads as `None`.
pub fn read_u32_from(page: &Vec<u8>, pos: usize) -> (r: Option<u32>)
    requires
        pos + 4 <= page@.len(),
    ensures
        r == be32_opt_val(page@.subrange(pos as int, pos + 4)),
{
    // Pin the vector length as a machine value so the index sums stay in bounds.
    let _n = page.len();
    let b0 = page[pos];
    let b1 = page[pos + 1];
    let b2 = page[pos + 2];
    let b3 = page[pos + 3];
    let v = ((b0 as u32) << 24) | ((b1 as u32) << 16) | ((b2 as u32) << 8) | (b3 as u32);
    proof {
        let s = page@.subrange(pos as int, pos + 4);
        assert(s[0] == b0 && s[1] == b1 && s[2] == b2 && s[3] == b3);
    }
    if v == 0 {
        None
    } else {
        Some(v)
    }
}

/// Read the plain (non-optional) big-endian 32-bit field at byte offset `pos`.
pub fn read_u32_at(page: &Vec<u8>, pos: usize) -> (r: u32)
    requires
        pos + 4 <= page@.len(),
    ensures
        r == be32_val(page@.subrange(pos as int, pos + 4)),
{
    // Pin the vector length as a machine value so the index sums stay in bounds.
    let _n = page.len();
    let b0 = page[pos];
    let b1 = page[pos + 1];
    let b2 = page[pos + 2];
    let b3 = page[pos + 3];
    let v = ((b0 as u32) << 24) | ((b1 as u32) << 16) | ((b2 as u32) << 8) | (b3 as u32);
    proof {
        let s = page@.subrange(pos as int, pos + 4);
        assert(s[0] == b0 && s[1] == b1 && s[2] == b2 && s[3] == b3);
    }
    v
}

/// Read the one-byte boolean field at byte offset `pos`.
pub fn read_bool_from(page: &Vec<u8>, pos: usize) -> (r: bool)
    requires
        pos < page@.len(),
    ensures
        r == (page@[pos as int] != 0),
{
    page[pos] != 0
}

/// The single byte that encodes a boolean.
pub open spec fn bool_byte(val: bool) -> u8 {
    if val {
        1u8
    } else {
        0u8
    }
}

/// Append the one-byte encoding of `val`.
pub fn write_bool_to(buf: &mut Vec<u8>, val: bool)
    ensures
        final(buf)@ == old(buf)@.push(bool_byte(val)),
{
    if val {
        buf.push(1u8);
    } else {
        buf.push(0u8);
    }
}

/// Append four big-endian bytes for `val`, writing zero when it is absent.
pub fn write_opt_u32_to(buf: &mut Vec<u8>, val: Option<u32>)
    ensures
        final(buf)@ == old(buf)@ + be32(
            match val {
                None => 0u32,
                Some(v) => v,
            },
        ),
{
    let v: u32 = match val {
        Some(v) => v,
        None => 0,
    };
    buf.push(#[verifier::truncate] ((v >> 24) as u8));
    buf.push(#[verifier::truncate] ((v >> 16) as u8));
    buf.push(#[verifier::truncate] ((v >> 8) as u8));
    buf.push(#[verifier::truncate] (v as u8));
    proof {
        assert(buf@ =~= old(buf)@ + be32(v));
    }
}

/// Copy `n` bytes starting at byte offset `pos` into a fresh vector.
pub fn read_bytes_from(page: &Vec<u8>, pos: usize, n: usize) -> (r: Vec<u8>)
    requires
        pos + n <= page@.len(),
    ensures
        r@ == page@.subrange(pos as int, pos + n),
{
    let len = page.len();
    let mut r: Vec<u8> = Vec::new();
    let mut i: usize = 0;
    while i < n
        invariant
            pos + n <= page@.len(),
            len == page@.len(),
            i <= n,
            r@ == page@.subrange(pos as int, pos + i),
        decreases n - i,
    {
        r.push(page[pos + i]);
        i = i + 1;
        proof {
            assert(r@ =~= page@.subrange(pos as int, pos + i));
        }
    }
    r
}

/// Append every byte of `src`.
pub fn write_bytes_to(buf: &mut Vec<u8>, src: &Vec<u8>)
    ensures
        final(buf)@ == old(buf)@ + src@,
{
    let mut i: usize = 0;
    while i < src.len()
        invariant
            i <= src@.len(),
            buf@ == old(buf)@ + src@.subrange(0, i as int),
        decreases src@.len() - i,
    {
        buf.push(src[i]);
        i = i + 1;
        proof {
            assert(buf@ =~= old(buf)@ + src@.subrange(0, i as int));
        }
    }
    proof {
        assert(src@.subrange(0, src@.len() as int) =~= src@);
    }
}

/// A run of `n` zero bytes, used to pad every page to its full size.
pub open spec fn zeroes(n: nat) -> Seq<u8> {
    Seq::new(n, |i: int| 0u8)
}

/// Append zero bytes until `buf` holds exactly `n` bytes.
pub fn pad_zeroes_to(buf: &mut Vec<u8>, n: usize)
    requires
        old(buf)@.len() <= n,
    ensures
        final(buf)@ == old(buf)@ + zeroes((n - old(buf)@.len()) as nat),
{
    let start = buf.len();
    while buf.len() < n
        invariant
            start == old(buf)@.len(),
            start <= buf@.len() <= n,
            buf@ == old(buf)@ + zeroes((buf@.len() - start) as nat),
        decreases n - buf@.len(),
    {
        buf.push(0u8);
        proof {
            assert(buf@ =~= old(buf)@ + zeroes((buf@.len() - start) as nat));
        }
    }
}

} // verus!
