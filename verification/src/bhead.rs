//! Per-record block headers.  A stored block is preceded by a fixed-size
//! header whose old-address width follows the governing layout table's
//! pointer size; decoding widens the old address losslessly to 64 bits.

use vstd::prelude::*;

use crate::errors::DnaError;
use crate::sdna::{SDNA, sdna_wf};
use crate::wire::{lemma_u32_bytes_inj, read_u32, read_u64, u32_bytes, u64_bytes};

verus! {

/// The in-process header shape: kind code, payload length, old address
/// widened to 64 bits and never treated as signed, struct-type reference,
/// and element count.
#[allow(non_snake_case)]
#[derive(Clone, Copy, PartialEq, Eq, Structural)]
pub struct BHead {
    pub code: i32,
    pub len: i32,
    pub old: u64,
    pub SDNAnr: i32,
    pub nr: i32,
}

/// The wire shape with a four-byte old address.
#[allow(non_snake_case)]
#[derive(Clone, Copy, PartialEq, Eq, Structural)]
pub struct BHead4 {
    pub code: i32,
    pub len: i32,
    pub old: u32,
    pub SDNAnr: i32,
    pub nr: i32,
}

/// The wire shape with an eight-byte old address.
#[allow(non_snake_case)]
#[derive(Clone, Copy, PartialEq, Eq, Structural)]
pub struct BHead8 {
    pub code: i32,
    pub len: i32,
    pub old: u64,
    pub SDNAnr: i32,
    pub nr: i32,
}

/// The header size on the wire for a given old-address width.
pub open spec fn bhead_wire_size(pointer_size: u8) -> int {
    16 + pointer_size as int
}

/// The byte image of a decoded header under a given old-address width and
/// byte order.
pub open spec fn bhead_bytes(h: BHead, pointer_size: u8, big: bool) -> Seq<u8> {
    u32_bytes(h.code as u32, big) + u32_bytes(h.len as u32, big) + (if pointer_size == 4 {
        u32_bytes(h.old as u32, big)
    } else {
        u64_bytes(h.old, big)
    }) + u32_bytes(h.SDNAnr as u32, big) + u32_bytes(h.nr as u32, big)
}

impl BHead4 {
    /// Widens to the in-process shape; the old address is zero-extended.
    pub fn widen(self) -> (r: BHead)
        ensures
            r.code == self.code,
            r.len == self.len,
            r.old == self.old as u64,
            r.SDNAnr == self.SDNAnr,
            r.nr == self.nr,
    {
        BHead {
            code: self.code,
            len: self.len,
            old: self.old as u64,
            SDNAnr: self.SDNAnr,
            nr: self.nr,
        }
    }
}

impl BHead8 {
    /// Carries over to the in-process shape unchanged.
    pub fn widen(self) -> (r: BHead)
        ensures
            r.code == self.code,
            r.len == self.len,
            r.old == self.old,
            r.SDNAnr == self.SDNAnr,
            r.nr == self.nr,
    {
        BHead { code: self.code, len: self.len, old: self.old, SDNAnr: self.SDNAnr, nr: self.nr }
    }
}

/// Decodes one block header from the front of `bytes` under the given
/// old-address width and byte order.  On success the consumed prefix is
/// exactly the byte image of the result and the old address is within the
/// source width; on a short input the header is refused whole.
pub fn decode_block_header(bytes: &[u8], pointer_size: u8, big: bool) -> (r: Result<
    BHead,
    DnaError,
>)
    requires
        pointer_size == 4 || pointer_size == 8,
    ensures
        r matches Ok(h) ==> {
            &&& bhead_wire_size(pointer_size) <= bytes@.len()
            &&& bhead_bytes(h, pointer_size, big) == bytes@.subrange(
                0,
                bhead_wire_size(pointer_size),
            )
            &&& (pointer_size == 4 ==> h.old <= u32::MAX)
        },
        r is Err ==> r == Err::<BHead, DnaError>(DnaError::TruncatedInputError)
            && bytes@.len() < bhead_wire_size(pointer_size),
{
    let psz = pointer_size as usize;
    if bytes.len() < 16 + psz {
        return Err(DnaError::TruncatedInputError);
    }
    let code = match read_u32(bytes, 0, big) {
        Ok(v) => v,
        Err(e) => { return Err(e) },
    };
    let len = match read_u32(bytes, 4, big) {
        Ok(v) => v,
        Err(e) => { return Err(e) },
    };
    let old: u64;
    if pointer_size == 4 {
        let o = match read_u32(bytes, 8, big) {
            Ok(v) => v,
            Err(e) => { return Err(e) },
        };
        old = o as u64;
    } else {
        let o = match read_u64(bytes, 8, big) {
            Ok(v) => v,
            Err(e) => { return Err(e) },
        };
        old = o;
    }
    let snr = match read_u32(bytes, 8 + psz, big) {
        Ok(v) => v,
        Err(e) => { return Err(e) },
    };
    let nr = match read_u32(bytes, 12 + psz, big) {
        Ok(v) => v,
        Err(e) => { return Err(e) },
    };
    let h = BHead {
        code: code as i32,
        len: len as i32,
        old,
        SDNAnr: snr as i32,
        nr: nr as i32,
    };
    proof {
        assert(forall|v: u32| #[trigger] ((v as i32) as u32) == v) by (bit_vector);
        assert(h.code as u32 == code);
        assert(h.len as u32 == len);
        assert(h.SDNAnr as u32 == snr);
        assert(h.nr as u32 == nr);
        assert(bhead_bytes(h, pointer_size, big) =~= bytes@.subrange(
            0,
            bhead_wire_size(pointer_size),
        ));
    }
    Ok(h)
}

/// Two headers with the same byte image carry the same struct-type
/// reference.
proof fn lemma_bhead_bytes_pin_sdnanr(h1: BHead, h2: BHead, psz: u8, big: bool)
    requires
        psz == 4 || psz == 8,
        bhead_bytes(h1, psz, big) == bhead_bytes(h2, psz, big),
    ensures
        h1.SDNAnr == h2.SDNAnr,
{
    let s1 = bhead_bytes(h1, psz, big);
    let s2 = bhead_bytes(h2, psz, big);
    let off = 8 + psz as int;
    assert(s1.subrange(off, off + 4) =~= u32_bytes(h1.SDNAnr as u32, big));
    assert(s2.subrange(off, off + 4) =~= u32_bytes(h2.SDNAnr as u32, big));
    lemma_u32_bytes_inj(h1.SDNAnr as u32, h2.SDNAnr as u32, big);
    let a = h1.SDNAnr;
    let b = h2.SDNAnr;
    assert(a as u32 == b as u32 ==> a == b) by (bit_vector);
}

impl SDNA {
    /// Decodes a block header under this table's pointer width and byte
    /// order, then validates its struct-type reference against this table's
    /// struct count.
    pub fn read_block_header(&self, bytes: &[u8]) -> (r: Result<BHead, DnaError>)
        requires
            sdna_wf(*self),
        ensures
            r matches Ok(h) ==> {
                &&& bhead_bytes(h, self.pointer_size, self.big_endian) == bytes@.subrange(
                    0,
                    bhead_wire_size(self.pointer_size),
                )
                &&& 0 <= h.SDNAnr < self.structs@.len()
            },
            r == Err::<BHead, DnaError>(DnaError::TruncatedInputError) <==> bytes@.len()
                < bhead_wire_size(self.pointer_size),
            r is Err ==> (r == Err::<BHead, DnaError>(DnaError::TruncatedInputError) || r
                == Err::<BHead, DnaError>(DnaError::CorruptIndexError)),
            r == Err::<BHead, DnaError>(DnaError::CorruptIndexError) ==> {
                &&& bytes@.len() >= bhead_wire_size(self.pointer_size)
                &&& forall|h2: BHead|
                    bhead_bytes(h2, self.pointer_size, self.big_endian) == bytes@.subrange(
                        0,
                        bhead_wire_size(self.pointer_size),
                    ) ==> !(0 <= h2.SDNAnr < self.structs@.len())
            },
    {
        let h = match decode_block_header(bytes, self.pointer_size, self.big_endian) {
            Ok(v) => v,
            Err(e) => { return Err(e) },
        };
        if h.SDNAnr < 0 || h.SDNAnr as usize >= self.structs.len() {
            proof {
                assert forall|h2: BHead|
                    bhead_bytes(h2, self.pointer_size, self.big_endian) == bytes@.subrange(
                        0,
                        bhead_wire_size(self.pointer_size),
                    ) implies !(0 <= h2.SDNAnr < self.structs@.len()) by {
                    lemma_bhead_bytes_pin_sdnanr(h2, h, self.pointer_size, self.big_endian);
                }
            }
            return Err(DnaError::CorruptIndexError);
        }
        Ok(h)
    }
}

} // verus!
