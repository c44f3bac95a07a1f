//! Byte-level encoding of the fixed-width integers that appear in an encoded
//! layout table and in block headers.  Each width has one spec-level byte
//! image and exec readers and writers proved against it, in both byte orders.

use vstd::prelude::*;

use crate::errors::DnaError;

verus! {

/// The two-byte image of `v`: least significant byte first unless `big`.
pub open spec fn u16_bytes(v: u16, big: bool) -> Seq<u8> {
    let b0 = (v % 256) as u8;
    let b1 = (v / 256) as u8;
    if big {
        seq![b1, b0]
    } else {
        seq![b0, b1]
    }
}

/// The four-byte image of `v`: least significant byte first unless `big`.
pub open spec fn u32_bytes(v: u32, big: bool) -> Seq<u8> {
    let b0 = (v % 256) as u8;
    let d1 = v / 256;
    let b1 = (d1 % 256) as u8;
    let d2 = d1 / 256;
    let b2 = (d2 % 256) as u8;
    let b3 = (d2 / 256) as u8;
    if big {
        seq![b3, b2, b1, b0]
    } else {
        seq![b0, b1, b2, b3]
    }
}

/// The eight-byte image of `v`: least significant byte first unless `big`.
pub open spec fn u64_bytes(v: u64, big: bool) -> Seq<u8> {
    let b0 = (v % 256) as u8;
    let d1 = v / 256;
    let b1 = (d1 % 256) as u8;
    let d2 = d1 / 256;
    let b2 = (d2 % 256) as u8;
    let d3 = d2 / 256;
    let b3 = (d3 % 256) as u8;
    let d4 = d3 / 256;
    let b4 = (d4 % 256) as u8;
    let d5 = d4 / 256;
    let b5 = (d5 % 256) as u8;
    let d6 = d5 / 256;
    let b6 = (d6 % 256) as u8;
    let b7 = (d6 / 256) as u8;
    if big {
        seq![b7, b6, b5, b4, b3, b2, b1, b0]
    } else {
        seq![b0, b1, b2, b3, b4, b5, b6, b7]
    }
}


/// Two values with the same two-byte image are equal.
pub proof fn lemma_u16_bytes_inj(a: u16, b: u16, big: bool)
    requires
        u16_bytes(a, big) == u16_bytes(b, big),
    ensures
        a == b,
{
    let x = u16_bytes(a, big);
    let y = u16_bytes(b, big);
    assert(x[0] == y[0]);
    assert(x[1] == y[1]);
    assert(a == a % 256 + 256 * (a / 256));
    assert(b == b % 256 + 256 * (b / 256));
}

/// Two values with the same four-byte image are equal.
pub proof fn lemma_u32_bytes_inj(a: u32, b: u32, big: bool)
    requires
        u32_bytes(a, big) == u32_bytes(b, big),
    ensures
        a == b,
{
    let x = u32_bytes(a, big);
    let y = u32_bytes(b, big);
    assert(x[0] == y[0]);
    assert(x[1] == y[1]);
    assert(x[2] == y[2]);
    assert(x[3] == y[3]);
    let a1 = a / 256;
    let a2 = a1 / 256;
    let b1 = b / 256;
    let b2 = b1 / 256;
    assert(a2 == a2 % 256 + 256 * (a2 / 256));
    assert(b2 == b2 % 256 + 256 * (b2 / 256));
    assert(a1 == a1 % 256 + 256 * (a1 / 256));
    assert(b1 == b1 % 256 + 256 * (b1 / 256));
    assert(a == a % 256 + 256 * (a / 256));
    assert(b == b % 256 + 256 * (b / 256));
}

/// A value made of a low byte and everything above it splits back into the
/// same two parts.
proof fn lemma_byte_split(lo: int, hi: int)
    by (nonlinear_arith)
    requires
        0 <= lo < 256,
        0 <= hi,
    ensures
        (lo + 256 * hi) % 256 == lo,
        (lo + 256 * hi) / 256 == hi,
{
}

/// Reads a two-byte integer at `pos`; most significant byte first iff `big`.
pub fn read_u16(bytes: &[u8], pos: usize, big: bool) -> (r: Result<u16, DnaError>)
    ensures
        pos + 2 <= bytes@.len() ==> (r matches Ok(v) && u16_bytes(v, big) == bytes@.subrange(
            pos as int,
            pos + 2,
        )),
        pos + 2 > bytes@.len() ==> r == Err::<u16, DnaError>(DnaError::TruncatedInputError),
{
    let n = bytes.len();
    if n < 2 || pos > n - 2 {
        return Err(DnaError::TruncatedInputError);
    }
    let c0 = bytes[pos];
    let c1 = bytes[pos + 1];
    let (b0, b1) = if big {
        (c1, c0)
    } else {
        (c0, c1)
    };
    let v: u16 = b0 as u16 + 256 * (b1 as u16);
    proof {
        lemma_byte_split(b0 as int, b1 as int);
        assert(u16_bytes(v, big) =~= bytes@.subrange(pos as int, pos + 2));
    }
    Ok(v)
}

/// Reads a four-byte integer at `pos`; most significant byte first iff `big`.
pub fn read_u32(bytes: &[u8], pos: usize, big: bool) -> (r: Result<u32, DnaError>)
    ensures
        pos + 4 <= bytes@.len() ==> (r matches Ok(v) && u32_bytes(v, big) == bytes@.subrange(
            pos as int,
            pos + 4,
        )),
        pos + 4 > bytes@.len() ==> r == Err::<u32, DnaError>(DnaError::TruncatedInputError),
{
    let n = bytes.len();
    if n < 4 || pos > n - 4 {
        return Err(DnaError::TruncatedInputError);
    }
    let c0 = bytes[pos];
    let c1 = bytes[pos + 1];
    let c2 = bytes[pos + 2];
    let c3 = bytes[pos + 3];
    let (b0, b1, b2, b3) = if big {
        (c3, c2, c1, c0)
    } else {
        (c0, c1, c2, c3)
    };
    let v: u32 = b0 as u32 + 256 * (b1 as u32) + 65536 * (b2 as u32) + 16777216 * (b3 as u32);
    proof {
        lemma_byte_split(b0 as int, b1 as int + 256 * (b2 as int) + 65536 * (b3 as int));
        lemma_byte_split(b1 as int, b2 as int + 256 * (b3 as int));
        lemma_byte_split(b2 as int, b3 as int);
        assert(u32_bytes(v, big) =~= bytes@.subrange(pos as int, pos + 4));
    }
    Ok(v)
}

/// Reads an eight-byte integer at `pos`; most significant byte first iff `big`.
#[verifier::rlimit(50)]
pub fn read_u64(bytes: &[u8], pos: usize, big: bool) -> (r: Result<u64, DnaError>)
    ensures
        pos + 8 <= bytes@.len() ==> (r matches Ok(v) && u64_bytes(v, big) == bytes@.subrange(
            pos as int,
            pos + 8,
        )),
        pos + 8 > bytes@.len() ==> r == Err::<u64, DnaError>(DnaError::TruncatedInputError),
{
    let n = bytes.len();
    if n < 8 || pos > n - 8 {
        return Err(DnaError::TruncatedInputError);
    }
    let c0 = bytes[pos];
    let c1 = bytes[pos + 1];
    let c2 = bytes[pos + 2];
    let c3 = bytes[pos + 3];
    let c4 = bytes[pos + 4];
    let c5 = bytes[pos + 5];
    let c6 = bytes[pos + 6];
    let c7 = bytes[pos + 7];
    let (b0, b1, b2, b3, b4, b5, b6, b7) = if big {
        (c7, c6, c5, c4, c3, c2, c1, c0)
    } else {
        (c0, c1, c2, c3, c4, c5, c6, c7)
    };
    let v: u64 = b0 as u64 + 256 * (b1 as u64) + 65536 * (b2 as u64) + 16777216 * (b3 as u64)
        + 4294967296 * (b4 as u64) + 1099511627776 * (b5 as u64) + 281474976710656 * (b6 as u64)
        + 72057594037927936 * (b7 as u64);
    proof {
        lemma_byte_split(
            b0 as int,
            b1 as int + 256 * (b2 as int) + 65536 * (b3 as int) + 16777216 * (b4 as int)
                + 4294967296 * (b5 as int) + 1099511627776 * (b6 as int) + 281474976710656 * (
            b7 as int),
        );
        lemma_byte_split(
            b1 as int,
            b2 as int + 256 * (b3 as int) + 65536 * (b4 as int) + 16777216 * (b5 as int)
                + 4294967296 * (b6 as int) + 1099511627776 * (b7 as int),
        );
        lemma_byte_split(
            b2 as int,
            b3 as int + 256 * (b4 as int) + 65536 * (b5 as int) + 16777216 * (b6 as int)
                + 4294967296 * (b7 as int),
        );
        lemma_byte_split(
            b3 as int,
            b4 as int + 256 * (b5 as int) + 65536 * (b6 as int) + 16777216 * (b7 as int),
        );
        lemma_byte_split(b4 as int, b5 as int + 256 * (b6 as int) + 65536 * (b7 as int));
        lemma_byte_split(b5 as int, b6 as int + 256 * (b7 as int));
        lemma_byte_split(b6 as int, b7 as int);
        assert(u64_bytes(v, big) =~= bytes@.subrange(pos as int, pos + 8));
    }
    Ok(v)
}

/// Appends the two-byte image of `v` to `out`.
pub fn write_u16(out: &mut Vec<u8>, v: u16, big: bool)
    ensures
        final(out)@ == old(out)@ + u16_bytes(v, big),
{
    let b0 = (v % 256) as u8;
    let b1 = (v / 256) as u8;
    if big {
        out.push(b1);
        out.push(b0);
    } else {
        out.push(b0);
        out.push(b1);
    }
    proof {
        assert(out@ =~= old(out)@ + u16_bytes(v, big));
    }
}

/// Appends the four-byte image of `v` to `out`.
pub fn write_u32(out: &mut Vec<u8>, v: u32, big: bool)
    ensures
        final(out)@ == old(out)@ + u32_bytes(v, big),
{
    let b0 = (v % 256) as u8;
    let d1 = v / 256;
    let b1 = (d1 % 256) as u8;
    let d2 = d1 / 256;
    let b2 = (d2 % 256) as u8;
    let b3 = (d2 / 256) as u8;
    if big {
        out.push(b3);
        out.push(b2);
        out.push(b1);
        out.push(b0);
    } else {
        out.push(b0);
        out.push(b1);
        out.push(b2);
        out.push(b3);
    }
    proof {
        assert(out@ =~= old(out)@ + u32_bytes(v, big));
    }
}

/// Appends the eight-byte image of `v` to `out`.
pub fn write_u64(out: &mut Vec<u8>, v: u64, big: bool)
    ensures
        final(out)@ == old(out)@ + u64_bytes(v, big),
{
    let b0 = (v % 256) as u8;
    let d1 = v / 256;
    let b1 = (d1 % 256) as u8;
    let d2 = d1 / 256;
    let b2 = (d2 % 256) as u8;
    let d3 = d2 / 256;
    let b3 = (d3 % 256) as u8;
    let d4 = d3 / 256;
    let b4 = (d4 % 256) as u8;
    let d5 = d4 / 256;
    let b5 = (d5 % 256) as u8;
    let d6 = d5 / 256;
    let b6 = (d6 % 256) as u8;
    let b7 = (d6 / 256) as u8;
    if big {
        out.push(b7);
        out.push(b6);
        out.push(b5);
        out.push(b4);
        out.push(b3);
        out.push(b2);
        out.push(b1);
        out.push(b0);
    } else {
        out.push(b0);
        out.push(b1);
        out.push(b2);
        out.push(b3);
        out.push(b4);
        out.push(b5);
        out.push(b6);
        out.push(b7);
    }
    proof {
        assert(out@ =~= old(out)@ + u64_bytes(v, big));
    }
}

} // verus!
