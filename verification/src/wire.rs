//! Big-endian integer encoding for the wire protocol.
//!
//! Frame lengths, field counts and cell lengths are 16- or 32-bit big-endian
//! integers. These helpers state the encoding as sequences of bytes and prove
//! that reading inverts writing.

use vstd::prelude::*;

verus! {

use vstd::arithmetic::div_mod::lemma_fundamental_div_mod_converse;

/// The two big-endian bytes of a 16-bit value, most significant first.
pub open spec fn be16(n: u16) -> Seq<u8> {
    seq![(n / 256) as u8, (n % 256) as u8]
}

/// The value of two big-endian bytes.
pub open spec fn be16_val(s: Seq<u8>) -> int {
    s[0] * 256 + s[1]
}

/// The four big-endian bytes of a 32-bit value, most significant first.
pub open spec fn be32(n: u32) -> Seq<u8> {
    seq![
        (n / 0x1000000) as u8,
        ((n / 0x10000) % 256) as u8,
        ((n / 256) % 256) as u8,
        (n % 256) as u8,
    ]
}

/// The value of four big-endian bytes.
pub open spec fn be32_val(s: Seq<u8>) -> int {
    s[0] * 0x1000000 + s[1] * 0x10000 + s[2] * 256 + s[3]
}

pub proof fn lemma_be32_val(n: u32)
    ensures
        be32(n).len() == 4,
        be32_val(be32(n)) == n,
{
}

pub proof fn lemma_be16_of_val(s: Seq<u8>)
    requires
        s.len() == 2,
    ensures
        0 <= be16_val(s) <= 0xFFFF,
        be16(be16_val(s) as u16) =~= s,
{
}

pub proof fn lemma_be32_of_val(s: Seq<u8>)
    requires
        s.len() == 4,
    ensures
        0 <= be32_val(s) <= 0xFFFFFFFF,
        be32(be32_val(s) as u32) =~= s,
{
    let a = s[0] as int;
    let b = s[1] as int;
    let c = s[2] as int;
    let d = s[3] as int;
    let v = be32_val(s);
    assert(v == a * 0x1000000 + b * 0x10000 + c * 256 + d);
    lemma_fundamental_div_mod_converse(v, 0x1000000, a, b * 0x10000 + c * 256 + d);
    lemma_fundamental_div_mod_converse(v, 0x10000, a * 256 + b, c * 256 + d);
    lemma_fundamental_div_mod_converse(a * 256 + b, 256, a, b);
    lemma_fundamental_div_mod_converse(v, 256, a * 0x10000 + b * 256 + c, d);
    lemma_fundamental_div_mod_converse(a * 0x10000 + b * 256 + c, 256, a * 256 + b, c);
}

/// Reads a 16-bit big-endian value from two bytes.
pub fn read_be16(b0: u8, b1: u8) -> (n: u16)
    ensures
        n == be16_val(seq![b0, b1]),
        be16(n) =~= seq![b0, b1],
{
    let n: u16 = (b0 as u16) * 256 + (b1 as u16);
    proof {
        lemma_be16_of_val(seq![b0, b1]);
    }
    n
}

/// Reads a 32-bit big-endian value from four bytes.
pub fn read_be32(b0: u8, b1: u8, b2: u8, b3: u8) -> (n: u32)
    ensures
        n == be32_val(seq![b0, b1, b2, b3]),
        be32(n) =~= seq![b0, b1, b2, b3],
{
    let n: u32 = (b0 as u32) * 0x1000000 + (b1 as u32) * 0x10000 + (b2 as u32) * 256 + (b3 as u32);
    proof {
        lemma_be32_of_val(seq![b0, b1, b2, b3]);
    }
    n
}

/// Appends the two big-endian bytes of `n` to `out`.
pub fn push_be16(out: &mut Vec<u8>, n: u16)
    ensures
        final(out)@ == old(out)@ + be16(n),
{
    out.push((n / 256) as u8);
    out.push((n % 256) as u8);
    proof {
        assert(final(out)@ =~= old(out)@ + be16(n));
    }
}

/// Appends the four big-endian bytes of `n` to `out`.
pub fn push_be32(out: &mut Vec<u8>, n: u32)
    ensures
        final(out)@ == old(out)@ + be32(n),
{
    out.push((n / 0x1000000) as u8);
    out.push(((n / 0x10000) % 256) as u8);
    out.push(((n / 256) % 256) as u8);
    out.push((n % 256) as u8);
    proof {
        assert(final(out)@ =~= old(out)@ + be32(n));
    }
}

} // verus!
