//! Big-endian 32-bit integers, the only multi-byte quantity on the wire.

use byteorder::ByteOrder;
use vstd::prelude::*;
use vstd::slice::slice_subrange;

verus! {

/// The number denoted by four octets, most significant first.
pub open spec fn be_value(b: Seq<u8>) -> int
    recommends
        b.len() == 4,
{
    b[0] as int * 0x100_0000 + b[1] as int * 0x1_0000 + b[2] as int * 0x100 + b[3] as int
}

/// The four octets that denote `x`, most significant first.
pub open spec fn be_bytes(x: u32) -> Seq<u8> {
    seq![
        (x as int / 0x100_0000) as u8,
        (x as int / 0x1_0000 % 0x100) as u8,
        (x as int / 0x100 % 0x100) as u8,
        (x as int % 0x100) as u8,
    ]
}

/// The 32-bit integer stored at `b[at..at + 4]`.
pub open spec fn be_at(b: Seq<u8>, at: int) -> u32
    recommends
        0 <= at,
        at + 4 <= b.len(),
{
    be_value(b.subrange(at, at + 4)) as u32
}

/// Four octets always denote a number that fits in 32 bits.
pub proof fn lemma_be_value_range(b: Seq<u8>)
    requires
        b.len() == 4,
    ensures
        0 <= be_value(b) <= u32::MAX,
{
}

/// Reading back the octets of `x` gives `x`.
pub proof fn lemma_be_value_of_bytes(x: u32)
    ensures
        be_bytes(x).len() == 4,
        be_value(be_bytes(x)) == x,
        be_at(be_bytes(x), 0) == x,
{
    let b = be_bytes(x);
    assert(b.subrange(0, 4) =~= b);
}

/// `byteorder::BigEndian::read_u32`: decodes the first four octets of `buf`
/// as a big-endian integer.  It panics on a shorter slice, which the
/// precondition rules out.
#[verifier::external_body]
fn read_be(buf: &[u8]) -> (x: u32)
    requires
        buf@.len() >= 4,
    ensures
        x == be_value(buf@.subrange(0, 4)),
{
    byteorder::BigEndian::read_u32(buf)
}

/// Reads the big-endian integer at `data[at..at + 4]`.
pub fn read_u32_at(data: &[u8], at: usize) -> (x: u32)
    requires
        at + 4 <= data.len(),
    ensures
        x == be_at(data@, at as int),
{
    let window = slice_subrange(data, at, at + 4);
    proof {
        assert(window@.subrange(0, 4) =~= data@.subrange(at as int, at + 4));
        lemma_be_value_range(data@.subrange(at as int, at + 4));
    }
    read_be(window)
}

/// Appends the four octets of `x` to `out`, most significant first.
pub fn push_u32(out: &mut Vec<u8>, x: u32)
    ensures
        final(out)@ == old(out)@ + be_bytes(x),
{
    out.push((x / 0x100_0000) as u8);
    out.push((x / 0x1_0000 % 0x100) as u8);
    out.push((x / 0x100 % 0x100) as u8);
    out.push((x % 0x100) as u8);
}

} // verus!
