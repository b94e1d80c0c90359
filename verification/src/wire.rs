//! Big-endian integer fields of the wire and storage formats.

use vstd::prelude::*;

verus! {

/// Big-endian bytes of a sixteen-bit length.
pub open spec fn be16(n: int) -> Seq<u8> {
    seq![(n / 256) as u8, (n % 256) as u8]
}

/// Big-endian bytes of a thirty-two-bit length.
pub open spec fn be32(n: int) -> Seq<u8> {
    seq![
        (n / 0x1000000) as u8,
        ((n / 0x10000) % 256) as u8,
        ((n / 256) % 256) as u8,
        (n % 256) as u8,
    ]
}

/// Append the big-endian encoding of a sixteen-bit value.
pub fn push_be16(n: u16, out: &mut Vec<u8>)
    ensures
        final(out)@ == old(out)@ + be16(n as int),
{
    out.push((n / 256) as u8);
    out.push((n % 256) as u8);
    proof {
        assert(out@ =~= old(out)@ + be16(n as int));
    }
}

/// Append the big-endian encoding of a thirty-two-bit value.
pub fn push_be32(n: u32, out: &mut Vec<u8>)
    ensures
        final(out)@ == old(out)@ + be32(n as int),
{
    out.push((n / 0x1000000) as u8);
    out.push(((n / 0x10000) % 256) as u8);
    out.push(((n / 256) % 256) as u8);
    out.push((n % 256) as u8);
    proof {
        assert(out@ =~= old(out)@ + be32(n as int));
    }
}

/// Read a big-endian sixteen-bit value.
pub fn read_be16(b: &Vec<u8>, i: usize) -> (r: u16)
    requires
        i + 2 <= b@.len(),
    ensures
        be16(r as int) == b@.subrange(i as int, i + 2),
        r as int == b@[i as int] as int * 256 + b@[i + 1] as int,
{
    let total = b.len();
    proof {
        assert(b@.len() == total as int);
    }
    let r: u16 = (b[i] as u16) * 256 + (b[i + 1] as u16);
    proof {
        assert(be16(r as int) =~= b@.subrange(i as int, i + 2));
    }
    r
}

/// Read a big-endian thirty-two-bit value.
#[verifier::rlimit(60)]
pub fn read_be32(b: &Vec<u8>, i: usize) -> (r: u32)
    requires
        i + 4 <= b@.len(),
    ensures
        be32(r as int) == b@.subrange(i as int, i + 4),
        r as int == b@[i as int] as int * 0x1000000 + b@[i + 1] as int * 0x10000 + b@[i + 2] as int
            * 256 + b@[i + 3] as int,
{
    let total = b.len();
    proof {
        assert(b@.len() == total as int);
    }
    let b0 = b[i];
    let b1 = b[i + 1];
    let b2 = b[i + 2];
    let b3 = b[i + 3];
    let r: u32 = (b0 as u32) * 0x1000000 + (b1 as u32) * 0x10000 + (b2 as u32) * 256 + (
    b3 as u32);
    proof {
        assert(r as int / 0x1000000 == b0 as int) by (nonlinear_arith)
            requires
                r as int == b0 as int * 0x1000000 + b1 as int * 0x10000 + b2 as int * 256
                    + b3 as int,
                b0 < 256 && b1 < 256 && b2 < 256 && b3 < 256,
        ;
        assert((r as int / 0x10000) % 256 == b1 as int) by (nonlinear_arith)
            requires
                r as int == b0 as int * 0x1000000 + b1 as int * 0x10000 + b2 as int * 256
                    + b3 as int,
                b0 < 256 && b1 < 256 && b2 < 256 && b3 < 256,
        ;
        assert((r as int / 256) % 256 == b2 as int) by (nonlinear_arith)
            requires
                r as int == b0 as int * 0x1000000 + b1 as int * 0x10000 + b2 as int * 256
                    + b3 as int,
                b0 < 256 && b1 < 256 && b2 < 256 && b3 < 256,
        ;
        assert(r as int % 256 == b3 as int) by (nonlinear_arith)
            requires
                r as int == b0 as int * 0x1000000 + b1 as int * 0x10000 + b2 as int * 256
                    + b3 as int,
                b0 < 256 && b1 < 256 && b2 < 256 && b3 < 256,
        ;
        assert(be32(r as int) =~= b@.subrange(i as int, i + 4));
    }
    r
}

/// Two values with the same sixteen-bit encoding are equal.
pub proof fn lemma_be16_injective(a: int, b: int)
    requires
        0 <= a < 0x10000,
        0 <= b < 0x10000,
        be16(a) == be16(b),
    ensures
        a == b,
{
    assert(be16(a)[0] == be16(b)[0]);
    assert(be16(a)[1] == be16(b)[1]);
}

/// Two values with the same thirty-two-bit encoding are equal.
pub proof fn lemma_be32_injective(a: int, b: int)
    requires
        0 <= a < 0x100000000,
        0 <= b < 0x100000000,
        be32(a) == be32(b),
    ensures
        a == b,
{
    assert(be32(a)[0] == be32(b)[0]);
    assert(be32(a)[1] == be32(b)[1]);
    assert(be32(a)[2] == be32(b)[2]);
    assert(be32(a)[3] == be32(b)[3]);
}

} // verus!
