//! The encoded layout table: type names with sizes, member names, and struct
//! definitions, decoded from a stored blob and re-encodable to the identical
//! bytes.  A blob starts with a four-byte signature that also records the
//! byte order, then a pointer-width marker, then the three tables.

use vstd::prelude::*;

use crate::errors::DnaError;
use crate::ghash::{GHash, bytes_eq, clone_bytes, ghash_get, ghash_wf};
use crate::wire::{read_u16, read_u32, u16_bytes, u32_bytes, write_u16, write_u32};

verus! {

/// One member of a struct definition: indices into the type table and the
/// member-name table.
#[derive(Clone, Copy, PartialEq, Eq, Structural)]
pub struct FieldDef {
    pub type_idx: u16,
    pub name_idx: u16,
}

/// One struct shape: its own type index and its members in exactly the byte
/// order the struct was serialized with.
pub struct StructDef {
    pub type_idx: u16,
    pub fields: Vec<FieldDef>,
}

/// One renaming: a historical name and the name the current build uses.
pub struct AliasPair {
    pub old_name: Vec<u8>,
    pub cur_name: Vec<u8>,
}

/// Renamings for type names and for member names, applied when a literal
/// name lookup misses.
pub struct AliasTable {
    pub types: Vec<AliasPair>,
    pub names: Vec<AliasPair>,
}

/// A decoded layout table.  Immutable after decoding except for its lazily
/// built struct lookup index and its alias table.
pub struct SDNA {
    /// Type names, index-addressed.
    pub types: Vec<Vec<u8>>,
    /// Byte size of each type, aligned with `types`.
    pub types_size: Vec<u16>,
    /// Member names; a leading `*` marks a pointer, trailing `[n]` suffixes
    /// mark fixed arrays.
    pub names: Vec<Vec<u8>>,
    /// Struct definitions in blob order.
    pub structs: Vec<StructDef>,
    /// Size in bytes of an old address stored under this table: 4 or 8.
    pub pointer_size: u8,
    /// Whether multi-byte integers of the blob are big-endian.
    pub big_endian: bool,
    /// Lazily built hash index from type name to struct position.
    pub structs_map: Option<GHash>,
    /// Renamings consulted when a literal name misses.
    pub alias: AliasTable,
}

/// The four signature bytes; the byte order of the blob is recorded in their
/// order.
pub open spec fn sig_bytes(big: bool) -> Seq<u8> {
    if big {
        seq![0x41u8, 0x4Eu8, 0x44u8, 0x53u8]
    } else {
        seq![0x53u8, 0x44u8, 0x4Eu8, 0x41u8]
    }
}

/// Encoding of the first `n` type-table entries: each name, a terminator,
/// and a two-byte size.
pub open spec fn enc_types(types: Seq<Vec<u8>>, sizes: Seq<u16>, big: bool, n: nat) -> Seq<u8>
    decreases n,
{
    if n == 0 {
        Seq::empty()
    } else {
        enc_types(types, sizes, big, (n - 1) as nat) + types[n - 1]@ + seq![0u8] + u16_bytes(
            sizes[n - 1],
            big,
        )
    }
}

/// Encoding of the first `n` member names: each name and a terminator.
pub open spec fn enc_names(names: Seq<Vec<u8>>, n: nat) -> Seq<u8>
    decreases n,
{
    if n == 0 {
        Seq::empty()
    } else {
        enc_names(names, (n - 1) as nat) + names[n - 1]@ + seq![0u8]
    }
}

/// Encoding of the first `n` members of one struct definition.
pub open spec fn enc_fields(fields: Seq<FieldDef>, big: bool, n: nat) -> Seq<u8>
    decreases n,
{
    if n == 0 {
        Seq::empty()
    } else {
        enc_fields(fields, big, (n - 1) as nat) + u16_bytes(fields[n - 1].type_idx, big)
            + u16_bytes(fields[n - 1].name_idx, big)
    }
}

/// Encoding of one struct definition: type index, member count, members.
pub open spec fn enc_struct_one(sd: StructDef, big: bool) -> Seq<u8> {
    u16_bytes(sd.type_idx, big) + u16_bytes(sd.fields@.len() as u16, big) + enc_fields(
        sd.fields@,
        big,
        sd.fields@.len() as nat,
    )
}

/// Encoding of the first `n` struct definitions.
pub open spec fn enc_structs(structs: Seq<StructDef>, big: bool, n: nat) -> Seq<u8>
    decreases n,
{
    if n == 0 {
        Seq::empty()
    } else {
        enc_structs(structs, big, (n - 1) as nat) + enc_struct_one(structs[n - 1], big)
    }
}

/// The full byte image of a layout table.  Decoding ensures the input blob
/// equals this image of the result; re-encoding emits exactly it.
pub open spec fn encoding_of(s: SDNA) -> Seq<u8> {
    sig_bytes(s.big_endian) + seq![s.pointer_size] + u32_bytes(
        s.types@.len() as u32,
        s.big_endian,
    ) + enc_types(s.types@, s.types_size@, s.big_endian, s.types@.len() as nat) + u32_bytes(
        s.names@.len() as u32,
        s.big_endian,
    ) + enc_names(s.names@, s.names@.len() as nat) + u32_bytes(
        s.structs@.len() as u32,
        s.big_endian,
    ) + enc_structs(s.structs@, s.big_endian, s.structs@.len() as nat)
}

/// Well-formedness of a decoded table: tables aligned, counts within their
/// wire widths, no terminator byte inside a name, every index in range, and
/// a supported pointer width.
pub open spec fn sdna_wf(s: SDNA) -> bool {
    &&& s.types@.len() == s.types_size@.len()
    &&& s.types@.len() <= 0xFFFFFFFF
    &&& s.names@.len() <= 0xFFFFFFFF
    &&& s.structs@.len() <= 0xFFFFFFFF
    &&& forall|t: int, j: int|
        0 <= t < s.types@.len() && 0 <= j < s.types@[t]@.len() ==> (#[trigger] s.types@[t]@[j])
            != 0
    &&& forall|n: int, j: int|
        0 <= n < s.names@.len() && 0 <= j < s.names@[n]@.len() ==> (#[trigger] s.names@[n]@[j])
            != 0
    &&& forall|p: int|
        0 <= p < s.structs@.len() ==> (#[trigger] s.structs@[p]).type_idx < s.types@.len()
            && s.structs@[p].fields@.len() <= 0xFFFF
    &&& forall|p: int, f: int|
        0 <= p < s.structs@.len() && 0 <= f < s.structs@[p].fields@.len() ==> (
        #[trigger] s.structs@[p].fields@[f]).type_idx < s.types@.len()
            && s.structs@[p].fields@[f].name_idx < s.names@.len()
    &&& s.pointer_size == 4 || s.pointer_size == 8
}

/// Extending the type table beyond `n` leaves the encoding of its first `n`
/// entries unchanged.
proof fn lemma_enc_types_extend(
    t1: Seq<Vec<u8>>,
    s1: Seq<u16>,
    t2: Seq<Vec<u8>>,
    s2: Seq<u16>,
    big: bool,
    n: nat,
)
    requires
        forall|i: int| 0 <= i < n ==> #[trigger] t2[i]@ == t1[i]@,
        forall|i: int| 0 <= i < n ==> #[trigger] s2[i] == s1[i],
    ensures
        enc_types(t2, s2, big, n) == enc_types(t1, s1, big, n),
    decreases n,
{
    if n > 0 {
        lemma_enc_types_extend(t1, s1, t2, s2, big, (n - 1) as nat);
    }
}

/// Extending the name table beyond `n` leaves the encoding of its first `n`
/// entries unchanged.
proof fn lemma_enc_names_extend(n1: Seq<Vec<u8>>, n2: Seq<Vec<u8>>, n: nat)
    requires
        forall|i: int| 0 <= i < n ==> #[trigger] n2[i]@ == n1[i]@,
    ensures
        enc_names(n2, n) == enc_names(n1, n),
    decreases n,
{
    if n > 0 {
        lemma_enc_names_extend(n1, n2, (n - 1) as nat);
    }
}

/// Extending a member list beyond `n` leaves the encoding of its first `n`
/// members unchanged.
proof fn lemma_enc_fields_extend(f1: Seq<FieldDef>, f2: Seq<FieldDef>, big: bool, n: nat)
    requires
        forall|i: int| 0 <= i < n ==> #[trigger] f2[i] == f1[i],
    ensures
        enc_fields(f2, big, n) == enc_fields(f1, big, n),
    decreases n,
{
    if n > 0 {
        lemma_enc_fields_extend(f1, f2, big, (n - 1) as nat);
    }
}

/// Extending the struct table beyond `n` leaves the encoding of its first
/// `n` definitions unchanged.
proof fn lemma_enc_structs_extend(s1: Seq<StructDef>, s2: Seq<StructDef>, big: bool, n: nat)
    requires
        forall|i: int|
            0 <= i < n ==> (#[trigger] s2[i]).type_idx == s1[i].type_idx && s2[i].fields@
                == s1[i].fields@,
    ensures
        enc_structs(s2, big, n) == enc_structs(s1, big, n),
    decreases n,
{
    if n > 0 {
        lemma_enc_structs_extend(s1, s2, big, (n - 1) as nat);
        assert(enc_struct_one(s2[n - 1], big) == enc_struct_one(s1[n - 1], big));
    }
}

/// Reads a name terminated by a zero byte, starting at `pos`.
fn read_cstr(bytes: &[u8], pos: usize) -> (r: Result<(Vec<u8>, usize), DnaError>)
    requires
        pos <= bytes@.len(),
    ensures
        r matches Ok(p) ==> {
            &&& pos < p.1 <= bytes@.len()
            &&& bytes@.subrange(pos as int, p.1 as int) == p.0@ + seq![0u8]
            &&& forall|j: int| 0 <= j < p.0@.len() ==> (#[trigger] p.0@[j]) != 0
        },
        r is Err ==> r == Err::<(Vec<u8>, usize), DnaError>(DnaError::TruncatedInputError) && (
        forall|j: int| pos <= j < bytes@.len() ==> bytes@[j] != 0),
{
    let n = bytes.len();
    let mut out: Vec<u8> = Vec::new();
    let mut p = pos;
    while p < n && bytes[p] != 0
        invariant
            pos <= p <= n,
            n == bytes@.len(),
            out@ == bytes@.subrange(pos as int, p as int),
            forall|j: int| 0 <= j < out@.len() ==> (#[trigger] out@[j]) != 0,
        decreases n - p,
    {
        out.push(bytes[p]);
        proof {
            assert(out@ =~= bytes@.subrange(pos as int, p + 1));
        }
        p += 1;
    }
    if p == n {
        proof {
            assert forall|j: int| pos <= j < bytes@.len() implies bytes@[j] != 0 by {
                assert(out@[j - pos] == bytes@[j]);
            }
        }
        return Err(DnaError::TruncatedInputError);
    }
    proof {
        assert(bytes@.subrange(pos as int, p + 1) =~= out@ + seq![0u8]);
    }
    Ok((out, p + 1))
}


/// Two terminated names read from the same position end at the same place:
/// a terminator-free name runs exactly to the first zero byte.
proof fn lemma_cstr_det(bytes: Seq<u8>, pos: int, e1: int, x: Seq<u8>, e2: int, y: Seq<u8>)
    requires
        0 <= pos,
        pos < e1 <= bytes.len(),
        pos < e2 <= bytes.len(),
        bytes.subrange(pos, e1) == x + seq![0u8],
        bytes.subrange(pos, e2) == y + seq![0u8],
        forall|j: int| 0 <= j < x.len() ==> x[j] != 0,
        forall|j: int| 0 <= j < y.len() ==> y[j] != 0,
    ensures
        e1 == e2,
        x == y,
{
    assert(bytes.subrange(pos, e1).len() == e1 - pos);
    assert((x + seq![0u8]).len() == x.len() + 1);
    assert(bytes.subrange(pos, e2).len() == e2 - pos);
    assert((y + seq![0u8]).len() == y.len() + 1);
    assert(x.len() == e1 - pos - 1);
    assert(y.len() == e2 - pos - 1);
    if e1 < e2 {
        assert(bytes[e1 - 1] == (x + seq![0u8])[e1 - 1 - pos]);
        assert(bytes[e1 - 1] == 0);
        assert(bytes[e1 - 1] == (y + seq![0u8])[e1 - 1 - pos]);
        assert((y + seq![0u8])[e1 - 1 - pos] == y[e1 - 1 - pos]);
    } else if e2 < e1 {
        assert(bytes[e2 - 1] == (y + seq![0u8])[e2 - 1 - pos]);
        assert(bytes[e2 - 1] == 0);
        assert(bytes[e2 - 1] == (x + seq![0u8])[e2 - 1 - pos]);
        assert((x + seq![0u8])[e2 - 1 - pos] == x[e2 - 1 - pos]);
    }
    assert(x + seq![0u8] == y + seq![0u8]);
    assert forall|j: int| 0 <= j < x.len() implies x[j] == y[j] by {
        assert((x + seq![0u8])[j] == x[j]);
        assert((y + seq![0u8])[j] == y[j]);
    }
    assert(x =~= y);
}

/// The encoding of the first `m` type entries is a prefix of the encoding
/// of the first `n`.
proof fn lemma_enc_types_is_prefix(ts: Seq<Vec<u8>>, ss: Seq<u16>, big: bool, m: nat, n: nat)
    requires
        m <= n,
    ensures
        enc_types(ts, ss, big, m).len() <= enc_types(ts, ss, big, n).len(),
        forall|q: int|
            0 <= q < enc_types(ts, ss, big, m).len() ==> #[trigger] enc_types(ts, ss, big, n)[q]
                == enc_types(ts, ss, big, m)[q],
    decreases n,
{
    if n > m {
        lemma_enc_types_is_prefix(ts, ss, big, m, (n - 1) as nat);
    }
}

/// The encoding of the first `m` names is a prefix of the encoding of the
/// first `n`.
proof fn lemma_enc_names_is_prefix(ns: Seq<Vec<u8>>, m: nat, n: nat)
    requires
        m <= n,
    ensures
        enc_names(ns, m).len() <= enc_names(ns, n).len(),
        forall|q: int|
            0 <= q < enc_names(ns, m).len() ==> #[trigger] enc_names(ns, n)[q] == enc_names(
                ns,
                m,
            )[q],
    decreases n,
{
    if n > m {
        lemma_enc_names_is_prefix(ns, m, (n - 1) as nat);
    }
}

/// The encoding of the first `m` members is a prefix of the encoding of
/// the first `n`.
proof fn lemma_enc_fields_is_prefix(fs: Seq<FieldDef>, big: bool, m: nat, n: nat)
    requires
        m <= n,
    ensures
        enc_fields(fs, big, m).len() <= enc_fields(fs, big, n).len(),
        forall|q: int|
            0 <= q < enc_fields(fs, big, m).len() ==> #[trigger] enc_fields(fs, big, n)[q]
                == enc_fields(fs, big, m)[q],
    decreases n,
{
    if n > m {
        lemma_enc_fields_is_prefix(fs, big, m, (n - 1) as nat);
    }
}

/// The encoding of the first `m` struct definitions is a prefix of the
/// encoding of the first `n`.
proof fn lemma_enc_structs_is_prefix(sds: Seq<StructDef>, big: bool, m: nat, n: nat)
    requires
        m <= n,
    ensures
        enc_structs(sds, big, m).len() <= enc_structs(sds, big, n).len(),
        forall|q: int|
            0 <= q < enc_structs(sds, big, m).len() ==> #[trigger] enc_structs(sds, big, n)[q]
                == enc_structs(sds, big, m)[q],
    decreases n,
{
    if n > m {
        lemma_enc_structs_is_prefix(sds, big, m, (n - 1) as nat);
    }
}

/// Where each section of a table's byte image lies.
proof fn lemma_encoding_sections(s: SDNA)
    requires
        sdna_wf(s),
    ensures
        ({
            let e = encoding_of(s);
            let lt = enc_types(
                s.types@,
                s.types_size@,
                s.big_endian,
                s.types@.len() as nat,
            ).len() as int;
            let ln = enc_names(s.names@, s.names@.len() as nat).len() as int;
            let ls = enc_structs(s.structs@, s.big_endian, s.structs@.len() as nat).len() as int;
            &&& e.len() == 17 + lt + ln + ls
            &&& e.subrange(0, 4) == sig_bytes(s.big_endian)
            &&& e[4] == s.pointer_size
            &&& e.subrange(5, 9) == u32_bytes(s.types@.len() as u32, s.big_endian)
            &&& e.subrange(9, 9 + lt) == enc_types(
                s.types@,
                s.types_size@,
                s.big_endian,
                s.types@.len() as nat,
            )
            &&& e.subrange(9 + lt, 13 + lt) == u32_bytes(s.names@.len() as u32, s.big_endian)
            &&& e.subrange(13 + lt, 13 + lt + ln) == enc_names(s.names@, s.names@.len() as nat)
            &&& e.subrange(13 + lt + ln, 17 + lt + ln) == u32_bytes(
                s.structs@.len() as u32,
                s.big_endian,
            )
            &&& e.subrange(17 + lt + ln, 17 + lt + ln + ls) == enc_structs(
                s.structs@,
                s.big_endian,
                s.structs@.len() as nat,
            )
        }),
{
    let e = encoding_of(s);
    let lt = enc_types(s.types@, s.types_size@, s.big_endian, s.types@.len() as nat).len() as int;
    let ln = enc_names(s.names@, s.names@.len() as nat).len() as int;
    let ls = enc_structs(s.structs@, s.big_endian, s.structs@.len() as nat).len() as int;
    assert(e.subrange(0, 4) =~= sig_bytes(s.big_endian));
    assert(e.subrange(5, 9) =~= u32_bytes(s.types@.len() as u32, s.big_endian));
    assert(e.subrange(9, 9 + lt) =~= enc_types(
        s.types@,
        s.types_size@,
        s.big_endian,
        s.types@.len() as nat,
    ));
    assert(e.subrange(9 + lt, 13 + lt) =~= u32_bytes(
        s.names@.len() as u32,
        s.big_endian,
    ));
    assert(e.subrange(13 + lt, 13 + lt + ln) =~= enc_names(
        s.names@,
        s.names@.len() as nat,
    ));
    assert(e.subrange(13 + lt + ln, 17 + lt + ln) =~= u32_bytes(
        s.structs@.len() as u32,
        s.big_endian,
    ));
    assert(e.subrange(17 + lt + ln, 17 + lt + ln + ls) =~= enc_structs(
        s.structs@,
        s.big_endian,
        s.structs@.len() as nat,
    ));
}


/// Inside a well-placed type-table encoding, entry `i` sits at a known
/// window: its name, a terminator, then two size bytes.
proof fn lemma_types_entry_window(
    bytes: Seq<u8>,
    start: int,
    ts: Seq<Vec<u8>>,
    ss: Seq<u16>,
    big: bool,
    tcount: int,
    i: int,
)
    requires
        0 <= start,
        ts.len() == tcount,
        ss.len() == tcount,
        0 <= i < tcount,
        start + enc_types(ts, ss, big, tcount as nat).len() <= bytes.len(),
        bytes.subrange(start, start + enc_types(ts, ss, big, tcount as nat).len() as int)
            == enc_types(ts, ss, big, tcount as nat),
    ensures
        ({
            let pos = start + enc_types(ts, ss, big, i as nat).len() as int;
            let nl = ts[i]@.len() as int;
            &&& pos + nl + 3 == start + enc_types(ts, ss, big, (i + 1) as nat).len()
            &&& pos + nl + 3 <= bytes.len()
            &&& bytes.subrange(pos, pos + nl + 1) == ts[i]@ + seq![0u8]
            &&& bytes.subrange(pos + nl + 1, pos + nl + 3) == u16_bytes(ss[i], big)
        }),
{
    let full = enc_types(ts, ss, big, tcount as nat);
    let ei = enc_types(ts, ss, big, i as nat);
    let ei1 = enc_types(ts, ss, big, (i + 1) as nat);
    let pos = start + ei.len() as int;
    let nl = ts[i]@.len() as int;
    lemma_enc_types_is_prefix(ts, ss, big, (i + 1) as nat, tcount as nat);
    lemma_enc_types_is_prefix(ts, ss, big, i as nat, (i + 1) as nat);
    assert(ei1 == ei + ts[i]@ + seq![0u8] + u16_bytes(ss[i], big));
    assert(ei1.len() == ei.len() + nl + 3);
    assert forall|q: int| 0 <= q < nl + 1 implies bytes[pos + q] == (ts[i]@ + seq![0u8])[q] by {
        assert(bytes[pos + q] == bytes.subrange(start, start + full.len() as int)[ei.len() + q]);
        assert(full[ei.len() + q] == ei1[ei.len() + q]);
        assert(ei1[ei.len() + q] == (ts[i]@ + seq![0u8])[q]);
    }
    assert(bytes.subrange(pos, pos + nl + 1) =~= ts[i]@ + seq![0u8]);
    assert forall|q: int| 0 <= q < 2 implies bytes[pos + nl + 1 + q] == u16_bytes(ss[i], big)[q] by {
        assert(bytes[pos + nl + 1 + q] == bytes.subrange(start, start + full.len() as int)[ei.len()
            + nl + 1 + q]);
        assert(full[ei.len() + nl + 1 + q] == ei1[ei.len() + nl + 1 + q]);
        assert(ei1[ei.len() + nl + 1 + q] == u16_bytes(ss[i], big)[q]);
    }
    assert(bytes.subrange(pos + nl + 1, pos + nl + 3) =~= u16_bytes(ss[i], big));
}

/// Decodes the type table: `tcount` entries of a terminated name and a
/// two-byte size, starting at `start`.
fn parse_type_table(
    bytes: &[u8],
    start: usize,
    tcount: usize,
    big: bool,
    Ghost(w): Ghost<Option<(Seq<Vec<u8>>, Seq<u16>)>>,
) -> (r: Result<(Vec<Vec<u8>>, Vec<u16>, usize), DnaError>)
    requires
        start <= bytes@.len(),
        w matches Some(p) ==> {
            &&& p.0.len() == tcount
            &&& p.1.len() == tcount
            &&& forall|t: int, j: int|
                0 <= t < tcount && 0 <= j < p.0[t]@.len() ==> (#[trigger] p.0[t]@[j]) != 0
            &&& start + enc_types(p.0, p.1, big, tcount as nat).len() <= bytes@.len()
            &&& bytes@.subrange(
                start as int,
                start + enc_types(p.0, p.1, big, tcount as nat).len() as int,
            ) == enc_types(p.0, p.1, big, tcount as nat)
        },
    ensures
        r matches Ok(p) ==> {
            &&& p.0@.len() == tcount
            &&& p.1@.len() == tcount
            &&& start <= p.2 <= bytes@.len()
            &&& bytes@.subrange(start as int, p.2 as int) == enc_types(
                p.0@,
                p.1@,
                big,
                tcount as nat,
            )
            &&& forall|t: int, j: int|
                0 <= t < tcount && 0 <= j < p.0@[t]@.len() ==> (#[trigger] p.0@[t]@[j]) != 0
        },
        w matches Some(p) ==> (r matches Ok(q) && q.2 as int == start + enc_types(
            p.0,
            p.1,
            big,
            tcount as nat,
        ).len()),
{
    let n = bytes.len();
    let mut pos = start;
    let mut types: Vec<Vec<u8>> = Vec::new();
    let mut types_size: Vec<u16> = Vec::new();
    let mut i: usize = 0;
    while i < tcount
        invariant
            i <= tcount,
            start <= pos <= n,
            n == bytes@.len(),
            types@.len() == i,
            types_size@.len() == i,
            bytes@.subrange(start as int, pos as int) == enc_types(
                types@,
                types_size@,
                big,
                i as nat,
            ),
            forall|t: int, j: int|
                0 <= t < i && 0 <= j < types@[t]@.len() ==> (#[trigger] types@[t]@[j]) != 0,
            w matches Some(p) ==> {
                &&& p.0.len() == tcount
                &&& p.1.len() == tcount
                &&& forall|t: int, j: int|
                    0 <= t < tcount && 0 <= j < p.0[t]@.len() ==> (#[trigger] p.0[t]@[j]) != 0
                &&& start + enc_types(p.0, p.1, big, tcount as nat).len() <= bytes@.len()
                &&& bytes@.subrange(
                    start as int,
                    start + enc_types(p.0, p.1, big, tcount as nat).len() as int,
                ) == enc_types(p.0, p.1, big, tcount as nat)
                &&& pos as int == start + enc_types(p.0, p.1, big, i as nat).len()
            },
        decreases tcount - i,
    {
        let ghost types0 = types@;
        let ghost sizes0 = types_size@;
        let ghost pos0 = pos as int;
        proof {
            if w is Some {
                let p = w->Some_0;
                lemma_types_entry_window(
                    bytes@,
                    start as int,
                    p.0,
                    p.1,
                    big,
                    tcount as int,
                    i as int,
                );
            }
        }
        let (name, p2) = match read_cstr(bytes, pos) {
            Ok(v) => v,
            Err(e) => {
                proof {
                    if w is Some {
                        let p = w->Some_0;
                        let nl = p.0[i as int]@.len() as int;
                        assert(bytes@[pos0 + nl] == (p.0[i as int]@ + seq![0u8])[nl]);
                        assert(false);
                    }
                }
                return Err(e);
            },
        };
        proof {
            if w is Some {
                let p = w->Some_0;
                let nl = p.0[i as int]@.len() as int;
                lemma_cstr_det(
                    bytes@,
                    pos0,
                    p2 as int,
                    name@,
                    pos0 + nl + 1,
                    p.0[i as int]@,
                );
            }
        }
        let sz = match read_u16(bytes, p2, big) {
            Ok(v) => v,
            Err(e) => {
                proof {
                    if w is Some {
                        assert(false);
                    }
                }
                return Err(e);
            },
        };
        let ghost name0 = name@;
        types.push(name);
        types_size.push(sz);
        proof {
            lemma_enc_types_extend(types0, sizes0, types@, types_size@, big, i as nat);
            assert(bytes@.subrange(start as int, p2 + 2) =~= bytes@.subrange(start as int, pos0)
                + bytes@.subrange(pos0, p2 as int) + bytes@.subrange(p2 as int, p2 + 2));
            assert(types@[i as int]@ == name0);
            assert(enc_types(types@, types_size@, big, (i + 1) as nat) == enc_types(
                types0,
                sizes0,
                big,
                i as nat,
            ) + name0 + seq![0u8] + u16_bytes(sz, big));
        }
        pos = p2 + 2;
        i += 1;
    }
    Ok((types, types_size, pos))
}


/// Inside a well-placed name-table encoding, entry `i` sits at a known
/// window: its name and a terminator.
proof fn lemma_names_entry_window(bytes: Seq<u8>, start: int, ns: Seq<Vec<u8>>, ncount: int, i: int)
    requires
        0 <= start,
        ns.len() == ncount,
        0 <= i < ncount,
        start + enc_names(ns, ncount as nat).len() <= bytes.len(),
        bytes.subrange(start, start + enc_names(ns, ncount as nat).len() as int) == enc_names(
            ns,
            ncount as nat,
        ),
    ensures
        ({
            let pos = start + enc_names(ns, i as nat).len() as int;
            let nl = ns[i]@.len() as int;
            &&& pos + nl + 1 == start + enc_names(ns, (i + 1) as nat).len()
            &&& pos + nl + 1 <= bytes.len()
            &&& bytes.subrange(pos, pos + nl + 1) == ns[i]@ + seq![0u8]
        }),
{
    let full = enc_names(ns, ncount as nat);
    let ei = enc_names(ns, i as nat);
    let ei1 = enc_names(ns, (i + 1) as nat);
    let pos = start + ei.len() as int;
    let nl = ns[i]@.len() as int;
    lemma_enc_names_is_prefix(ns, (i + 1) as nat, ncount as nat);
    lemma_enc_names_is_prefix(ns, i as nat, (i + 1) as nat);
    assert(ei1 == ei + ns[i]@ + seq![0u8]);
    assert(ei1.len() == ei.len() + nl + 1);
    assert forall|q: int| 0 <= q < nl + 1 implies bytes[pos + q] == (ns[i]@ + seq![0u8])[q] by {
        assert(bytes[pos + q] == bytes.subrange(start, start + full.len() as int)[ei.len() + q]);
        assert(full[ei.len() + q] == ei1[ei.len() + q]);
        assert(ei1[ei.len() + q] == (ns[i]@ + seq![0u8])[q]);
    }
    assert(bytes.subrange(pos, pos + nl + 1) =~= ns[i]@ + seq![0u8]);
}

/// Inside a well-placed member-list encoding, member `i` sits at a known
/// four-byte window: its type index, then its name index.
proof fn lemma_fields_entry_window(
    bytes: Seq<u8>,
    start: int,
    fs: Seq<FieldDef>,
    big: bool,
    fcount: int,
    i: int,
)
    requires
        0 <= start,
        fs.len() == fcount,
        0 <= i < fcount,
        start + enc_fields(fs, big, fcount as nat).len() <= bytes.len(),
        bytes.subrange(start, start + enc_fields(fs, big, fcount as nat).len() as int)
            == enc_fields(fs, big, fcount as nat),
    ensures
        enc_fields(fs, big, fcount as nat).len() == 4 * fcount,
        ({
            let pos = start + 4 * i;
            &&& pos + 4 <= bytes.len()
            &&& bytes.subrange(pos, pos + 2) == u16_bytes(fs[i].type_idx, big)
            &&& bytes.subrange(pos + 2, pos + 4) == u16_bytes(fs[i].name_idx, big)
        }),
{
    let full = enc_fields(fs, big, fcount as nat);
    lemma_enc_fields_len(fs, big, fcount as nat);
    lemma_enc_fields_len(fs, big, i as nat);
    lemma_enc_fields_len(fs, big, (i + 1) as nat);
    let ei = enc_fields(fs, big, i as nat);
    let ei1 = enc_fields(fs, big, (i + 1) as nat);
    let pos = start + 4 * i;
    lemma_enc_fields_is_prefix(fs, big, (i + 1) as nat, fcount as nat);
    lemma_enc_fields_is_prefix(fs, big, i as nat, (i + 1) as nat);
    let ua = u16_bytes(fs[i].type_idx, big);
    let ub = u16_bytes(fs[i].name_idx, big);
    assert(ei1 == ei + ua + ub);
    assert forall|j: int| pos <= j < pos + 4 implies (#[trigger] bytes[j]) == (ua + ub)[j - pos]
        by {
        let q = j - pos;
        assert(bytes[j] == bytes.subrange(start, start + full.len() as int)[4 * i + q]);
        assert(full[4 * i + q] == ei1[4 * i + q]);
        assert(ei1[4 * i + q] == (ua + ub)[q]);
    }
    assert forall|j: int| pos <= j < pos + 2 implies bytes[j] == ua[j - pos] by {
        assert((ua + ub)[j - pos] == ua[j - pos]);
    }
    assert forall|j: int| pos + 2 <= j < pos + 4 implies bytes[j] == ub[j - pos - 2] by {
        assert((ua + ub)[j - pos] == ub[j - pos - 2]);
    }
    assert(bytes.subrange(pos, pos + 2) =~= ua);
    assert(bytes.subrange(pos + 2, pos + 4) =~= ub);
}

/// A member-list encoding takes four bytes per member.
proof fn lemma_enc_fields_len(fs: Seq<FieldDef>, big: bool, n: nat)
    ensures
        enc_fields(fs, big, n).len() == 4 * n,
    decreases n,
{
    if n > 0 {
        lemma_enc_fields_len(fs, big, (n - 1) as nat);
    }
}

/// Inside a well-placed struct-table encoding, definition `i` sits at a
/// known window: its type index, its member count, then its members.
proof fn lemma_structs_entry_window(
    bytes: Seq<u8>,
    start: int,
    sds: Seq<StructDef>,
    big: bool,
    scount: int,
    i: int,
)
    requires
        0 <= start,
        sds.len() == scount,
        0 <= i < scount,
        start + enc_structs(sds, big, scount as nat).len() <= bytes.len(),
        bytes.subrange(start, start + enc_structs(sds, big, scount as nat).len() as int)
            == enc_structs(sds, big, scount as nat),
    ensures
        ({
            let pos = start + enc_structs(sds, big, i as nat).len() as int;
            let fl = enc_fields(sds[i].fields@, big, sds[i].fields@.len() as nat).len() as int;
            &&& pos + 4 + fl == start + enc_structs(sds, big, (i + 1) as nat).len()
            &&& pos + 4 + fl <= bytes.len()
            &&& bytes.subrange(pos, pos + 2) == u16_bytes(sds[i].type_idx, big)
            &&& bytes.subrange(pos + 2, pos + 4) == u16_bytes(sds[i].fields@.len() as u16, big)
            &&& bytes.subrange(pos + 4, pos + 4 + fl) == enc_fields(
                sds[i].fields@,
                big,
                sds[i].fields@.len() as nat,
            )
        }),
{
    let full = enc_structs(sds, big, scount as nat);
    let ei = enc_structs(sds, big, i as nat);
    let ei1 = enc_structs(sds, big, (i + 1) as nat);
    let pos = start + ei.len() as int;
    let ef = enc_fields(sds[i].fields@, big, sds[i].fields@.len() as nat);
    let fl = ef.len() as int;
    lemma_enc_structs_is_prefix(sds, big, (i + 1) as nat, scount as nat);
    lemma_enc_structs_is_prefix(sds, big, i as nat, (i + 1) as nat);
    assert(ei1 == ei + enc_struct_one(sds[i], big));
    assert(enc_struct_one(sds[i], big) == u16_bytes(sds[i].type_idx, big) + u16_bytes(
        sds[i].fields@.len() as u16,
        big,
    ) + ef);
    assert(ei1.len() == ei.len() + 4 + fl);
    let ua = u16_bytes(sds[i].type_idx, big);
    let ub = u16_bytes(sds[i].fields@.len() as u16, big);
    let one = enc_struct_one(sds[i], big);
    assert(one == ua + ub + ef);
    assert forall|j: int| pos <= j < pos + 4 + fl implies (#[trigger] bytes[j]) == one[j - pos]
        by {
        let q = j - pos;
        assert(bytes[j] == bytes.subrange(start, start + full.len() as int)[ei.len() + q]);
        assert(full[ei.len() + q] == ei1[ei.len() + q]);
        assert(ei1[ei.len() + q] == one[q]);
    }
    assert forall|j: int| pos <= j < pos + 2 implies bytes[j] == ua[j - pos] by {
        assert(one[j - pos] == (ua + ub)[j - pos]);
        assert((ua + ub)[j - pos] == ua[j - pos]);
    }
    assert forall|j: int| pos + 2 <= j < pos + 4 implies bytes[j] == ub[j - pos - 2] by {
        assert(one[j - pos] == (ua + ub)[j - pos]);
        assert((ua + ub)[j - pos] == ub[j - pos - 2]);
    }
    assert forall|j: int| pos + 4 <= j < pos + 4 + fl implies bytes[j] == ef[j - pos - 4] by {
        assert(one[j - pos] == ef[j - pos - 4]);
    }
    assert(bytes.subrange(pos, pos + 2) =~= ua);
    assert(bytes.subrange(pos + 2, pos + 4) =~= ub);
    assert(bytes.subrange(pos + 4, pos + 4 + fl) =~= ef);
}

/// No well-formed table encodes to these bytes.
proof fn lemma_no_witness(bytes: Seq<u8>)
    requires
        !(exists|s: SDNA| sdna_wf(s) && encoding_of(s) == bytes),
    ensures
        forall|s: SDNA| sdna_wf(s) ==> encoding_of(s) != bytes,
{
    assert forall|s: SDNA| sdna_wf(s) implies encoding_of(s) != bytes by {
        if encoding_of(s) == bytes {
            assert(exists|s2: SDNA| sdna_wf(s2) && encoding_of(s2) == bytes);
        }
    }
}

/// Decodes the member-name table: `ncount` terminated names.
fn parse_name_table(
    bytes: &[u8],
    start: usize,
    ncount: usize,
    Ghost(w): Ghost<Option<Seq<Vec<u8>>>>,
) -> (r: Result<(Vec<Vec<u8>>, usize), DnaError>)
    requires
        start <= bytes@.len(),
        w matches Some(ns) ==> {
            &&& ns.len() == ncount
            &&& forall|t: int, j: int|
                0 <= t < ncount && 0 <= j < ns[t]@.len() ==> (#[trigger] ns[t]@[j]) != 0
            &&& start + enc_names(ns, ncount as nat).len() <= bytes@.len()
            &&& bytes@.subrange(start as int, start + enc_names(ns, ncount as nat).len() as int)
                == enc_names(ns, ncount as nat)
        },
    ensures
        r matches Ok(p) ==> {
            &&& p.0@.len() == ncount
            &&& start <= p.1 <= bytes@.len()
            &&& bytes@.subrange(start as int, p.1 as int) == enc_names(p.0@, ncount as nat)
            &&& forall|t: int, j: int|
                0 <= t < ncount && 0 <= j < p.0@[t]@.len() ==> (#[trigger] p.0@[t]@[j]) != 0
        },
        w matches Some(ns) ==> (r matches Ok(q) && q.1 as int == start + enc_names(
            ns,
            ncount as nat,
        ).len()),
{
    let n = bytes.len();
    let mut pos = start;
    let mut names: Vec<Vec<u8>> = Vec::new();
    let mut i: usize = 0;
    while i < ncount
        invariant
            i <= ncount,
            start <= pos <= n,
            n == bytes@.len(),
            names@.len() == i,
            bytes@.subrange(start as int, pos as int) == enc_names(names@, i as nat),
            forall|t: int, j: int|
                0 <= t < i && 0 <= j < names@[t]@.len() ==> (#[trigger] names@[t]@[j]) != 0,
            w matches Some(ns) ==> {
                &&& ns.len() == ncount
                &&& forall|t: int, j: int|
                    0 <= t < ncount && 0 <= j < ns[t]@.len() ==> (#[trigger] ns[t]@[j]) != 0
                &&& start + enc_names(ns, ncount as nat).len() <= bytes@.len()
                &&& bytes@.subrange(
                    start as int,
                    start + enc_names(ns, ncount as nat).len() as int,
                ) == enc_names(ns, ncount as nat)
                &&& pos as int == start + enc_names(ns, i as nat).len()
            },
        decreases ncount - i,
    {
        let ghost names0 = names@;
        let ghost pos0 = pos as int;
        proof {
            if w is Some {
                lemma_names_entry_window(
                    bytes@,
                    start as int,
                    w->Some_0,
                    ncount as int,
                    i as int,
                );
            }
        }
        let (name, p2) = match read_cstr(bytes, pos) {
            Ok(v) => v,
            Err(e) => {
                proof {
                    if w is Some {
                        let ns = w->Some_0;
                        let nl = ns[i as int]@.len() as int;
                        assert(bytes@[pos0 + nl] == (ns[i as int]@ + seq![0u8])[nl]);
                        assert(false);
                    }
                }
                return Err(e);
            },
        };
        proof {
            if w is Some {
                let ns = w->Some_0;
                let nl = ns[i as int]@.len() as int;
                lemma_cstr_det(bytes@, pos0, p2 as int, name@, pos0 + nl + 1, ns[i as int]@);
            }
        }
        let ghost name0 = name@;
        names.push(name);
        proof {
            lemma_enc_names_extend(names0, names@, i as nat);
            assert(bytes@.subrange(start as int, p2 as int) =~= bytes@.subrange(
                start as int,
                pos0,
            ) + bytes@.subrange(pos0, p2 as int));
            assert(names@[i as int]@ == name0);
            assert(enc_names(names@, (i + 1) as nat) == enc_names(names0, i as nat) + name0
                + seq![0u8]);
        }
        pos = p2;
        i += 1;
    }
    Ok((names, pos))
}

/// Decodes the members of one struct definition: `fcount` pairs of type and
/// name indices, each checked against its table's length.
fn parse_fields(
    bytes: &[u8],
    start: usize,
    fcount: usize,
    big: bool,
    tlen: usize,
    nlen: usize,
    Ghost(w): Ghost<Option<Seq<FieldDef>>>,
) -> (r: Result<(Vec<FieldDef>, usize), DnaError>)
    requires
        start <= bytes@.len(),
        w matches Some(fs) ==> {
            &&& fs.len() == fcount
            &&& forall|x: int|
                0 <= x < fcount ==> (#[trigger] fs[x]).type_idx < tlen && fs[x].name_idx < nlen
            &&& start + enc_fields(fs, big, fcount as nat).len() <= bytes@.len()
            &&& bytes@.subrange(
                start as int,
                start + enc_fields(fs, big, fcount as nat).len() as int,
            ) == enc_fields(fs, big, fcount as nat)
        },
    ensures
        r matches Ok(p) ==> {
            &&& p.0@.len() == fcount
            &&& start <= p.1 <= bytes@.len()
            &&& bytes@.subrange(start as int, p.1 as int) == enc_fields(p.0@, big, fcount as nat)
            &&& forall|x: int|
                0 <= x < fcount ==> (#[trigger] p.0@[x]).type_idx < tlen && p.0@[x].name_idx
                    < nlen
        },
        w matches Some(fs) ==> (r matches Ok(q) && q.1 as int == start + enc_fields(
            fs,
            big,
            fcount as nat,
        ).len()),
{
    let n = bytes.len();
    let mut pos = start;
    let mut fields: Vec<FieldDef> = Vec::new();
    let mut f: usize = 0;
    proof {
        if w is Some {
            lemma_enc_fields_len(w->Some_0, big, fcount as nat);
            lemma_enc_fields_len(w->Some_0, big, 0);
        }
    }
    while f < fcount
        invariant
            f <= fcount,
            start <= pos <= n,
            n == bytes@.len(),
            fields@.len() == f,
            bytes@.subrange(start as int, pos as int) == enc_fields(fields@, big, f as nat),
            forall|x: int|
                0 <= x < f ==> (#[trigger] fields@[x]).type_idx < tlen && fields@[x].name_idx
                    < nlen,
            w matches Some(fs) ==> {
                &&& fs.len() == fcount
                &&& forall|x: int|
                    0 <= x < fcount ==> (#[trigger] fs[x]).type_idx < tlen && fs[x].name_idx
                        < nlen
                &&& start + enc_fields(fs, big, fcount as nat).len() <= bytes@.len()
                &&& bytes@.subrange(
                    start as int,
                    start + enc_fields(fs, big, fcount as nat).len() as int,
                ) == enc_fields(fs, big, fcount as nat)
                &&& pos as int == start + 4 * f
            },
        decreases fcount - f,
    {
        let ghost fields0 = fields@;
        let ghost pos0 = pos as int;
        proof {
            if w is Some {
                lemma_fields_entry_window(
                    bytes@,
                    start as int,
                    w->Some_0,
                    big,
                    fcount as int,
                    f as int,
                );
            }
        }
        let ft = match read_u16(bytes, pos, big) {
            Ok(v) => v,
            Err(e) => {
                proof {
                    if w is Some {
                        assert(false);
                    }
                }
                return Err(e);
            },
        };
        if ft as usize >= tlen {
            proof {
                if w is Some {
                    let fs = w->Some_0;
                    crate::wire::lemma_u16_bytes_inj(ft, fs[f as int].type_idx, big);
                    assert(false);
                }
            }
            return Err(DnaError::CorruptIndexError);
        }
        let fnm = match read_u16(bytes, pos + 2, big) {
            Ok(v) => v,
            Err(e) => {
                proof {
                    if w is Some {
                        assert(false);
                    }
                }
                return Err(e);
            },
        };
        if fnm as usize >= nlen {
            proof {
                if w is Some {
                    let fs = w->Some_0;
                    crate::wire::lemma_u16_bytes_inj(fnm, fs[f as int].name_idx, big);
                    assert(false);
                }
            }
            return Err(DnaError::CorruptIndexError);
        }
        fields.push(FieldDef { type_idx: ft, name_idx: fnm });
        proof {
            lemma_enc_fields_extend(fields0, fields@, big, f as nat);
            assert(bytes@.subrange(start as int, pos0 + 4) =~= bytes@.subrange(start as int, pos0)
                + bytes@.subrange(pos0, pos0 + 2) + bytes@.subrange(pos0 + 2, pos0 + 4));
            assert(enc_fields(fields@, big, (f + 1) as nat) == enc_fields(fields0, big, f as nat)
                + u16_bytes(ft, big) + u16_bytes(fnm, big));
        }
        pos = pos + 4;
        f += 1;
    }
    proof {
        if w is Some {
            lemma_enc_fields_len(w->Some_0, big, fcount as nat);
        }
    }
    Ok((fields, pos))
}

/// Decodes the struct table: `scount` definitions, every index checked.
#[verifier::rlimit(100)]
fn parse_struct_table(
    bytes: &[u8],
    start: usize,
    scount: usize,
    big: bool,
    tlen: usize,
    nlen: usize,
    Ghost(w): Ghost<Option<Seq<StructDef>>>,
) -> (r: Result<(Vec<StructDef>, usize), DnaError>)
    requires
        start <= bytes@.len(),
        w matches Some(sds) ==> {
            &&& sds.len() == scount
            &&& forall|q: int|
                0 <= q < scount ==> (#[trigger] sds[q]).type_idx < tlen && sds[q].fields@.len()
                    <= 0xFFFF
            &&& forall|q: int, x: int|
                0 <= q < scount && 0 <= x < sds[q].fields@.len() ==> (
                #[trigger] sds[q].fields@[x]).type_idx < tlen && sds[q].fields@[x].name_idx
                    < nlen
            &&& start + enc_structs(sds, big, scount as nat).len() <= bytes@.len()
            &&& bytes@.subrange(
                start as int,
                start + enc_structs(sds, big, scount as nat).len() as int,
            ) == enc_structs(sds, big, scount as nat)
        },
    ensures
        r matches Ok(p) ==> {
            &&& p.0@.len() == scount
            &&& start <= p.1 <= bytes@.len()
            &&& bytes@.subrange(start as int, p.1 as int) == enc_structs(p.0@, big, scount as nat)
            &&& forall|q: int|
                0 <= q < scount ==> (#[trigger] p.0@[q]).type_idx < tlen && p.0@[q].fields@.len()
                    <= 0xFFFF
            &&& forall|q: int, x: int|
                0 <= q < scount && 0 <= x < p.0@[q].fields@.len() ==> (
                #[trigger] p.0@[q].fields@[x]).type_idx < tlen && p.0@[q].fields@[x].name_idx
                    < nlen
        },
        w matches Some(sds) ==> (r matches Ok(q) && q.1 as int == start + enc_structs(
            sds,
            big,
            scount as nat,
        ).len()),
{
    let n = bytes.len();
    let mut pos = start;
    let mut structs: Vec<StructDef> = Vec::new();
    let mut i: usize = 0;
    while i < scount
        invariant
            i <= scount,
            start <= pos <= n,
            n == bytes@.len(),
            structs@.len() == i,
            bytes@.subrange(start as int, pos as int) == enc_structs(structs@, big, i as nat),
            forall|q: int|
                0 <= q < i ==> (#[trigger] structs@[q]).type_idx < tlen && structs@[q].fields@.len()
                    <= 0xFFFF,
            forall|q: int, x: int|
                0 <= q < i && 0 <= x < structs@[q].fields@.len() ==> (
                #[trigger] structs@[q].fields@[x]).type_idx < tlen && structs@[q].fields@[x].name_idx
                    < nlen,
            w matches Some(sds) ==> {
                &&& sds.len() == scount
                &&& forall|q: int|
                    0 <= q < scount ==> (#[trigger] sds[q]).type_idx < tlen && sds[q].fields@.len()
                        <= 0xFFFF
                &&& forall|q: int, x: int|
                    0 <= q < scount && 0 <= x < sds[q].fields@.len() ==> (
                    #[trigger] sds[q].fields@[x]).type_idx < tlen && sds[q].fields@[x].name_idx
                        < nlen
                &&& start + enc_structs(sds, big, scount as nat).len() <= bytes@.len()
                &&& bytes@.subrange(
                    start as int,
                    start + enc_structs(sds, big, scount as nat).len() as int,
                ) == enc_structs(sds, big, scount as nat)
                &&& pos as int == start + enc_structs(sds, big, i as nat).len()
            },
        decreases scount - i,
    {
        let ghost structs0 = structs@;
        let ghost pos0 = pos as int;
        proof {
            if w is Some {
                lemma_structs_entry_window(
                    bytes@,
                    start as int,
                    w->Some_0,
                    big,
                    scount as int,
                    i as int,
                );
            }
        }
        let ti = match read_u16(bytes, pos, big) {
            Ok(v) => v,
            Err(e) => {
                proof {
                    if w is Some {
                        assert(false);
                    }
                }
                return Err(e);
            },
        };
        if ti as usize >= tlen {
            proof {
                if w is Some {
                    let sds = w->Some_0;
                    crate::wire::lemma_u16_bytes_inj(ti, sds[i as int].type_idx, big);
                    assert(false);
                }
            }
            return Err(DnaError::CorruptIndexError);
        }
        let fc = match read_u16(bytes, pos + 2, big) {
            Ok(v) => v,
            Err(e) => {
                proof {
                    if w is Some {
                        assert(false);
                    }
                }
                return Err(e);
            },
        };
        let ghost fw: Option<Seq<FieldDef>> = if w is Some {
            Some(w->Some_0[i as int].fields@)
        } else {
            None
        };
        proof {
            if w is Some {
                let sds = w->Some_0;
                crate::wire::lemma_u16_bytes_inj(fc, sds[i as int].fields@.len() as u16, big);
                assert(fc as int == sds[i as int].fields@.len());
            }
        }
        let (fields, fend) = match parse_fields(
            bytes,
            pos + 4,
            fc as usize,
            big,
            tlen,
            nlen,
            Ghost(fw),
        ) {
            Ok(v) => v,
            Err(e) => {
                proof {
                    if w is Some {
                        assert(false);
                    }
                }
                return Err(e);
            },
        };
        let ghost fields_final = fields@;
        let sd = StructDef { type_idx: ti, fields };
        structs.push(sd);
        proof {
            lemma_enc_structs_extend(structs0, structs@, big, i as nat);
            assert(structs@[i as int].type_idx == ti);
            assert(structs@[i as int].fields@ == fields_final);
            assert(fields_final.len() as u16 == fc);
            assert(enc_struct_one(structs@[i as int], big) == u16_bytes(ti, big) + u16_bytes(
                fc,
                big,
            ) + enc_fields(fields_final, big, fc as nat));
            assert(bytes@.subrange(start as int, fend as int) =~= bytes@.subrange(
                start as int,
                pos0,
            ) + bytes@.subrange(pos0, pos0 + 2) + bytes@.subrange(pos0 + 2, pos0 + 4)
                + bytes@.subrange(pos0 + 4, fend as int));
            assert(enc_structs(structs@, big, (i + 1) as nat) == enc_structs(
                structs0,
                big,
                i as nat,
            ) + enc_struct_one(structs@[i as int], big));
            if w is Some {
                let sds = w->Some_0;
                assert(enc_structs(sds, big, (i + 1) as nat).len() == enc_structs(
                    sds,
                    big,
                    i as nat,
                ).len() + enc_struct_one(sds[i as int], big).len());
            }
        }
        pos = fend;
        i += 1;
    }
    Ok((structs, pos))
}

/// Decodes an encoded layout table.  On success the blob is exactly the
/// byte image of the returned table, every index is in range, and the index
/// and alias tables start empty.  On failure no well-formed table encodes
/// to the blob: every blob that is the byte image of a well-formed table is
/// accepted.
#[verifier::rlimit(100)]
pub fn load_layout(bytes: &[u8]) -> (r: Result<SDNA, DnaError>)
    ensures
        r matches Ok(s) ==> {
            &&& sdna_wf(s)
            &&& encoding_of(s) == bytes@
            &&& s.structs_map is None
            &&& s.alias.types@.len() == 0
            &&& s.alias.names@.len() == 0
        },
        r is Err ==> forall|s: SDNA| sdna_wf(s) ==> encoding_of(s) != bytes@,
        bytes@.len() < 4 ==> r == Err::<SDNA, DnaError>(DnaError::TruncatedInputError),
        (bytes@.len() >= 4 && bytes@.subrange(0, 4) != sig_bytes(false) && bytes@.subrange(0, 4)
            != sig_bytes(true)) ==> r == Err::<SDNA, DnaError>(DnaError::FormatError),
        (bytes@.len() == 4 && (bytes@.subrange(0, 4) == sig_bytes(false) || bytes@.subrange(0, 4)
            == sig_bytes(true))) ==> r == Err::<SDNA, DnaError>(DnaError::TruncatedInputError),
        (bytes@.len() >= 5 && (bytes@.subrange(0, 4) == sig_bytes(false) || bytes@.subrange(0, 4)
            == sig_bytes(true)) && bytes@[4] != 4 && bytes@[4] != 8) ==> r == Err::<
            SDNA,
            DnaError,
        >(DnaError::UnsupportedPointerWidthError),
{
    let ghost has_w = exists|s: SDNA| sdna_wf(s) && encoding_of(s) == bytes@;
    let ghost ws: SDNA = if has_w {
        choose|s: SDNA| sdna_wf(s) && encoding_of(s) == bytes@
    } else {
        arbitrary()
    };
    proof {
        if has_w {
            lemma_encoding_sections(ws);
        }
    }
    let ghost lt = enc_types(
        ws.types@,
        ws.types_size@,
        ws.big_endian,
        ws.types@.len() as nat,
    ).len() as int;
    let ghost ln = enc_names(ws.names@, ws.names@.len() as nat).len() as int;
    let ghost ls = enc_structs(ws.structs@, ws.big_endian, ws.structs@.len() as nat).len() as int;
    let n = bytes.len();
    if n < 4 {
        proof {
            if has_w {
                assert(false);
            }
            lemma_no_witness(bytes@);
        }
        return Err(DnaError::TruncatedInputError);
    }
    let big: bool;
    if bytes[0] == 0x53 && bytes[1] == 0x44 && bytes[2] == 0x4E && bytes[3] == 0x41 {
        big = false;
    } else if bytes[0] == 0x41 && bytes[1] == 0x4E && bytes[2] == 0x44 && bytes[3] == 0x53 {
        big = true;
    } else {
        proof {
            if has_w {
                assert(bytes@[0] == sig_bytes(ws.big_endian)[0]);
                assert(bytes@[1] == sig_bytes(ws.big_endian)[1]);
                assert(bytes@[2] == sig_bytes(ws.big_endian)[2]);
                assert(bytes@[3] == sig_bytes(ws.big_endian)[3]);
                assert(false);
            }
            lemma_no_witness(bytes@);
        }
        return Err(DnaError::FormatError);
    }
    proof {
        assert(bytes@.subrange(0, 4) =~= sig_bytes(big));
        if has_w {
            assert(bytes@[0] == sig_bytes(ws.big_endian)[0]);
            assert(big == ws.big_endian);
        }
    }
    if n < 5 {
        proof {
            if has_w {
                assert(false);
            }
            lemma_no_witness(bytes@);
        }
        return Err(DnaError::TruncatedInputError);
    }
    let pointer_size = bytes[4];
    if pointer_size != 4 && pointer_size != 8 {
        proof {
            if has_w {
                assert(bytes@[4] == ws.pointer_size);
                assert(false);
            }
            lemma_no_witness(bytes@);
        }
        return Err(DnaError::UnsupportedPointerWidthError);
    }
    let tc = match read_u32(bytes, 5, big) {
        Ok(v) => v,
        Err(e) => {
            proof {
                if has_w {
                    assert(false);
                }
                lemma_no_witness(bytes@);
            }
            return Err(e);
        },
    };
    proof {
        if has_w {
            crate::wire::lemma_u32_bytes_inj(tc, ws.types@.len() as u32, big);
            assert(tc as int == ws.types@.len());
        }
    }
    let ghost tw: Option<(Seq<Vec<u8>>, Seq<u16>)> = if has_w {
        Some((ws.types@, ws.types_size@))
    } else {
        None
    };
    let (types, types_size, tend) = match parse_type_table(bytes, 9, tc as usize, big, Ghost(tw)) {
        Ok(v) => v,
        Err(e) => {
            proof {
                if has_w {
                    assert(false);
                }
                lemma_no_witness(bytes@);
            }
            return Err(e);
        },
    };
    proof {
        if has_w {
            assert(tend as int == 9 + lt);
        }
    }
    let nc = match read_u32(bytes, tend, big) {
        Ok(v) => v,
        Err(e) => {
            proof {
                if has_w {
                    assert(false);
                }
                lemma_no_witness(bytes@);
            }
            return Err(e);
        },
    };
    proof {
        if has_w {
            crate::wire::lemma_u32_bytes_inj(nc, ws.names@.len() as u32, big);
            assert(nc as int == ws.names@.len());
        }
    }
    let ghost nw: Option<Seq<Vec<u8>>> = if has_w {
        Some(ws.names@)
    } else {
        None
    };
    let (names, nend) = match parse_name_table(bytes, tend + 4, nc as usize, Ghost(nw)) {
        Ok(v) => v,
        Err(e) => {
            proof {
                if has_w {
                    assert(false);
                }
                lemma_no_witness(bytes@);
            }
            return Err(e);
        },
    };
    proof {
        if has_w {
            assert(nend as int == 13 + lt + ln);
        }
    }
    let sc = match read_u32(bytes, nend, big) {
        Ok(v) => v,
        Err(e) => {
            proof {
                if has_w {
                    assert(false);
                }
                lemma_no_witness(bytes@);
            }
            return Err(e);
        },
    };
    proof {
        if has_w {
            crate::wire::lemma_u32_bytes_inj(sc, ws.structs@.len() as u32, big);
            assert(sc as int == ws.structs@.len());
        }
    }
    let ghost sw: Option<Seq<StructDef>> = if has_w {
        Some(ws.structs@)
    } else {
        None
    };
    let (structs, send) = match parse_struct_table(
        bytes,
        nend + 4,
        sc as usize,
        big,
        types.len(),
        names.len(),
        Ghost(sw),
    ) {
        Ok(v) => v,
        Err(e) => {
            proof {
                if has_w {
                    assert(false);
                }
                lemma_no_witness(bytes@);
            }
            return Err(e);
        },
    };
    if send != n {
        proof {
            if has_w {
                assert(send as int == 17 + lt + ln + ls);
                assert(false);
            }
            lemma_no_witness(bytes@);
        }
        return Err(DnaError::FormatError);
    }
    let s = SDNA {
        types,
        types_size,
        names,
        structs,
        pointer_size,
        big_endian: big,
        structs_map: None,
        alias: AliasTable { types: Vec::new(), names: Vec::new() },
    };
    proof {
        assert(s.types@.len() as u32 == tc);
        assert(s.names@.len() as u32 == nc);
        assert(s.structs@.len() as u32 == sc);
        assert(bytes@.subrange(0, 5) =~= sig_bytes(big) + seq![pointer_size]);
        assert(bytes@.subrange(0, 9) =~= bytes@.subrange(0, 5) + bytes@.subrange(5, 9));
        assert(bytes@.subrange(0, tend as int) =~= bytes@.subrange(0, 9) + bytes@.subrange(
            9,
            tend as int,
        ));
        assert(bytes@.subrange(0, tend + 4) =~= bytes@.subrange(0, tend as int) + bytes@.subrange(
            tend as int,
            tend + 4,
        ));
        assert(bytes@.subrange(0, nend as int) =~= bytes@.subrange(0, tend + 4) + bytes@.subrange(
            tend + 4,
            nend as int,
        ));
        assert(bytes@.subrange(0, nend + 4) =~= bytes@.subrange(0, nend as int) + bytes@.subrange(
            nend as int,
            nend + 4,
        ));
        assert(bytes@.subrange(0, send as int) =~= bytes@.subrange(0, nend + 4) + bytes@.subrange(
            nend + 4,
            send as int,
        ));
        assert(bytes@.subrange(0, send as int) =~= bytes@);
        assert(encoding_of(s) == bytes@);
    }
    Ok(s)
}

impl SDNA {
    /// Re-encodes this table to its exact byte image.
    pub fn encode_layout(&self) -> (r: Vec<u8>)
        requires
            sdna_wf(*self),
        ensures
            r@ == encoding_of(*self),
    {
        let big = self.big_endian;
        let mut out: Vec<u8> = Vec::new();
        if big {
            out.push(0x41);
            out.push(0x4E);
            out.push(0x44);
            out.push(0x53);
        } else {
            out.push(0x53);
            out.push(0x44);
            out.push(0x4E);
            out.push(0x41);
        }
        out.push(self.pointer_size);
        proof {
            assert(out@ =~= sig_bytes(big) + seq![self.pointer_size]);
        }
        let ghost head0 = out@;
        write_u32(&mut out, self.types.len() as u32, big);
        let ghost head1 = out@;
        let tcount = self.types.len();
        let mut i: usize = 0;
        while i < tcount
            invariant
                i <= tcount,
                tcount == self.types@.len(),
                self.types@.len() == self.types_size@.len(),
                out@ == head1 + enc_types(self.types@, self.types_size@, big, i as nat),
            decreases tcount - i,
        {
            let ghost out0 = out@;
            let name = &self.types[i];
            let mut j: usize = 0;
            let nlen = name.len();
            while j < nlen
                invariant
                    j <= nlen,
                    nlen == name@.len(),
                    out@ == out0 + name@.subrange(0, j as int),
                decreases nlen - j,
            {
                out.push(name[j]);
                proof {
                    assert(out@ =~= out0 + name@.subrange(0, j + 1));
                }
                j += 1;
            }
            out.push(0);
            write_u16(&mut out, self.types_size[i], big);
            proof {
                assert(name@.subrange(0, nlen as int) =~= name@);
                assert(out@ =~= out0 + name@ + seq![0u8] + u16_bytes(self.types_size@[i as int], big));
            }
            i += 1;
        }
        let ghost head2 = out@;
        write_u32(&mut out, self.names.len() as u32, big);
        let ghost head3 = out@;
        let ncount = self.names.len();
        let mut i2: usize = 0;
        while i2 < ncount
            invariant
                i2 <= ncount,
                ncount == self.names@.len(),
                out@ == head3 + enc_names(self.names@, i2 as nat),
            decreases ncount - i2,
        {
            let ghost out0 = out@;
            let name = &self.names[i2];
            let mut j: usize = 0;
            let nlen = name.len();
            while j < nlen
                invariant
                    j <= nlen,
                    nlen == name@.len(),
                    out@ == out0 + name@.subrange(0, j as int),
                decreases nlen - j,
            {
                out.push(name[j]);
                proof {
                    assert(out@ =~= out0 + name@.subrange(0, j + 1));
                }
                j += 1;
            }
            out.push(0);
            proof {
                assert(name@.subrange(0, nlen as int) =~= name@);
                assert(out@ =~= out0 + name@ + seq![0u8]);
            }
            i2 += 1;
        }
        let ghost head4 = out@;
        write_u32(&mut out, self.structs.len() as u32, big);
        let ghost head5 = out@;
        let scount = self.structs.len();
        let mut i3: usize = 0;
        while i3 < scount
            invariant
                i3 <= scount,
                scount == self.structs@.len(),
                sdna_wf(*self),
                out@ == head5 + enc_structs(self.structs@, big, i3 as nat),
            decreases scount - i3,
        {
            let ghost out0 = out@;
            let sd = &self.structs[i3];
            write_u16(&mut out, sd.type_idx, big);
            write_u16(&mut out, sd.fields.len() as u16, big);
            let ghost outh = out@;
            let fcount = sd.fields.len();
            let mut f: usize = 0;
            while f < fcount
                invariant
                    f <= fcount,
                    fcount == sd.fields@.len(),
                    out@ == outh + enc_fields(sd.fields@, big, f as nat),
                decreases fcount - f,
            {
                let ghost outf = out@;
                write_u16(&mut out, sd.fields[f].type_idx, big);
                write_u16(&mut out, sd.fields[f].name_idx, big);
                proof {
                    assert(out@ =~= outf + u16_bytes(sd.fields@[f as int].type_idx, big)
                        + u16_bytes(sd.fields@[f as int].name_idx, big));
                }
                f += 1;
            }
            proof {
                assert(out@ =~= out0 + enc_struct_one(self.structs@[i3 as int], big));
            }
            i3 += 1;
        }
        proof {
            assert(out@ =~= encoding_of(*self));
        }
        out
    }
}

/// Law: decoding a valid blob and re-encoding the result reproduces the
/// blob byte for byte.  `load_layout` guarantees of its result `s` that
/// `encoding_of(s)` is the input blob, and `encode_layout` emits exactly
/// `encoding_of(s)`; together the round trip is the identity.
pub proof fn lemma_load_encode_roundtrip(bytes: Seq<u8>, s: SDNA, reencoded: Seq<u8>)
    requires
        encoding_of(s) == bytes,
        reencoded == encoding_of(s),
    ensures
        reencoded == bytes,
{
}

/// The type name a struct definition at position `p` is declared under.
pub open spec fn struct_type_name(structs: Seq<StructDef>, types: Seq<Vec<u8>>, p: int) -> Seq<
    u8,
> {
    types[structs[p].type_idx as int]@
}

/// Position of the first of the leading `n` struct definitions whose type
/// name is `k`.
pub open spec fn find_struct(
    structs: Seq<StructDef>,
    types: Seq<Vec<u8>>,
    k: Seq<u8>,
    n: nat,
) -> Option<usize>
    decreases n,
{
    if n == 0 {
        None
    } else if find_struct(structs, types, k, (n - 1) as nat) is Some {
        find_struct(structs, types, k, (n - 1) as nat)
    } else if struct_type_name(structs, types, n - 1) == k {
        Some((n - 1) as usize)
    } else {
        None
    }
}

/// The replacement the first matching alias pair gives for `k`.
pub open spec fn alias_find(pairs: Seq<AliasPair>, k: Seq<u8>) -> Option<Seq<u8>>
    decreases pairs.len(),
{
    if pairs.len() == 0 {
        None
    } else if pairs[0].old_name@ == k {
        Some(pairs[0].cur_name@)
    } else {
        alias_find(pairs.drop_first(), k)
    }
}

/// What resolving `k` against table `s` yields: the literal name first; on a
/// miss, the name its alias maps it to, once.
pub open spec fn spec_resolve(s: SDNA, k: Seq<u8>) -> Option<usize> {
    let direct = find_struct(s.structs@, s.types@, k, s.structs@.len() as nat);
    if direct is Some {
        direct
    } else {
        match alias_find(s.alias.types@, k) {
            Some(t) => find_struct(s.structs@, s.types@, t, s.structs@.len() as nat),
            None => None,
        }
    }
}

/// If present, the lazily built index agrees with `find_struct` on every
/// name.
pub open spec fn index_ok(s: SDNA) -> bool {
    s.structs_map is Some ==> {
        &&& ghash_wf(s.structs_map->Some_0)
        &&& forall|k: Seq<u8>| #[trigger]
            ghash_get(s.structs_map->Some_0, k) == find_struct(
                s.structs@,
                s.types@,
                k,
                s.structs@.len() as nat,
            )
    }
}

/// The decoded tables of `b` are those of `a`; only the lazily built index
/// may differ.
pub open spec fn same_tables(a: SDNA, b: SDNA) -> bool {
    &&& b.types@ == a.types@
    &&& b.types_size@ == a.types_size@
    &&& b.names@ == a.names@
    &&& b.structs@ == a.structs@
    &&& b.pointer_size == a.pointer_size
    &&& b.big_endian == a.big_endian
    &&& b.alias.types@ == a.alias.types@
    &&& b.alias.names@ == a.alias.names@
}

/// Looks `key` up among alias pairs; the first match wins.
pub fn alias_lookup(pairs: &Vec<AliasPair>, key: &[u8]) -> (r: Option<Vec<u8>>)
    ensures
        r matches Some(v) ==> alias_find(pairs@, key@) == Some(v@),
        r is None ==> alias_find(pairs@, key@) is None,
{
    let n = pairs.len();
    let mut i: usize = 0;
    proof {
        assert(pairs@.skip(0) =~= pairs@);
    }
    while i < n
        invariant
            n == pairs@.len(),
            i <= n,
            alias_find(pairs@, key@) == alias_find(pairs@.skip(i as int), key@),
        decreases n - i,
    {
        proof {
            assert(pairs@.skip(i as int)[0] == pairs@[i as int]);
        }
        if bytes_eq(pairs[i].old_name.as_slice(), key) {
            return Some(clone_bytes(&pairs[i].cur_name));
        }
        proof {
            assert(pairs@.skip(i as int).drop_first() =~= pairs@.skip(i + 1));
        }
        i += 1;
    }
    proof {
        assert(pairs@.skip(n as int) =~= Seq::<AliasPair>::empty());
    }
    None
}

impl SDNA {
    /// Scans the struct table for the first definition named `name`,
    /// without touching the lazy index.
    pub fn find_struct_scan(&self, name: &[u8]) -> (r: Option<usize>)
        requires
            sdna_wf(*self),
        ensures
            r == find_struct(self.structs@, self.types@, name@, self.structs@.len() as nat),
    {
        let n = self.structs.len();
        let mut p: usize = 0;
        while p < n
            invariant
                sdna_wf(*self),
                n == self.structs@.len(),
                p <= n,
                find_struct(self.structs@, self.types@, name@, p as nat) is None,
            decreases n - p,
        {
            let ti = self.structs[p].type_idx;
            if bytes_eq(self.types[ti as usize].as_slice(), name) {
                proof {
                    assert(struct_type_name(self.structs@, self.types@, p as int) == name@);
                    assert(find_struct(self.structs@, self.types@, name@, (p + 1) as nat)
                        == Some(p));
                    lemma_find_struct_stable(
                        self.structs@,
                        self.types@,
                        name@,
                        (p + 1) as nat,
                        n as nat,
                    );
                }
                return Some(p);
            }
            p += 1;
        }
        None
    }

    /// Resolves `name` to a struct position: the literal name first; on a
    /// miss, its alias-translated form, once.  Does not touch the lazy
    /// index.
    pub fn lookup_struct(&self, name: &[u8]) -> (r: Option<usize>)
        requires
            sdna_wf(*self),
        ensures
            r == spec_resolve(*self, name@),
    {
        match self.find_struct_scan(name) {
            Some(p) => Some(p),
            None => {
                match alias_lookup(&self.alias.types, name) {
                    Some(t) => self.find_struct_scan(t.as_slice()),
                    None => None,
                }
            },
        }
    }

    /// Builds the hash index over the struct table.
    pub fn build_index(&mut self)
        requires
            sdna_wf(*old(self)),
            index_ok(*old(self)),
        ensures
            same_tables(*old(self), *final(self)),
            sdna_wf(*final(self)),
            index_ok(*final(self)),
            final(self).structs_map is Some,
    {
        if self.structs_map.is_some() {
            return ;
        }
        let mut g = GHash::new();
        let scount = self.structs.len();
        let mut p: usize = 0;
        while p < scount
            invariant
                sdna_wf(*self),
                *self == *old(self),
                scount == self.structs@.len(),
                p <= scount,
                ghash_wf(g),
                g.nentries <= p,
                forall|k: Seq<u8>| #[trigger]
                    ghash_get(g, k) == find_struct(self.structs@, self.types@, k, p as nat),
            decreases scount - p,
        {
            let ti = self.structs[p].type_idx;
            let name = clone_bytes(&self.types[ti as usize]);
            let ghost gpre = g;
            g.insert(name, p);
            proof {
                assert forall|k: Seq<u8>| #[trigger]
                    ghash_get(g, k) == find_struct(
                        self.structs@,
                        self.types@,
                        k,
                        (p + 1) as nat,
                    ) by {
                    assert(ghash_get(gpre, k) == find_struct(
                        self.structs@,
                        self.types@,
                        k,
                        p as nat,
                    ));
                    assert(struct_type_name(self.structs@, self.types@, p as int)
                        == self.types@[ti as int]@);
                }
            }
            p += 1;
        }
        self.structs_map = Some(g);
    }

    /// Resolves `name` through the hash index, building the index on first
    /// use.  The literal name is tried first; on a miss the alias table is
    /// consulted once.
    pub fn resolve(&mut self, name: &[u8]) -> (r: Option<usize>)
        requires
            sdna_wf(*old(self)),
            index_ok(*old(self)),
        ensures
            r == spec_resolve(*old(self), name@),
            same_tables(*old(self), *final(self)),
            sdna_wf(*final(self)),
            index_ok(*final(self)),
            final(self).structs_map is Some,
    {
        if self.structs_map.is_none() {
            self.build_index();
        }
        let direct = match &self.structs_map {
            Some(g) => g.lookup(name),
            None => {
                proof {
                    assert(false);
                }
                None
            },
        };
        match direct {
            Some(p) => Some(p),
            None => {
                match alias_lookup(&self.alias.types, name) {
                    Some(t) => {
                        match &self.structs_map {
                            Some(g) => g.lookup(t.as_slice()),
                            None => {
                                proof {
                                    assert(false);
                                }
                                None
                            },
                        }
                    },
                    None => None,
                }
            },
        }
    }

    /// Registers a renaming of a type: a historical name and the name this
    /// table declares.
    pub fn add_type_alias(&mut self, old_name: Vec<u8>, cur_name: Vec<u8>)
        ensures
            final(self).alias.types@ == old(self).alias.types@.push(
                AliasPair { old_name, cur_name },
            ),
            final(self).alias.names@ == old(self).alias.names@,
            final(self).types@ == old(self).types@,
            final(self).types_size@ == old(self).types_size@,
            final(self).names@ == old(self).names@,
            final(self).structs@ == old(self).structs@,
            final(self).pointer_size == old(self).pointer_size,
            final(self).big_endian == old(self).big_endian,
            final(self).structs_map == old(self).structs_map,
    {
        self.alias.types.push(AliasPair { old_name, cur_name });
    }

    /// Registers a renaming of a member: a historical name and the name the
    /// current build uses.
    pub fn add_name_alias(&mut self, old_name: Vec<u8>, cur_name: Vec<u8>)
        ensures
            final(self).alias.names@ == old(self).alias.names@.push(
                AliasPair { old_name, cur_name },
            ),
            final(self).alias.types@ == old(self).alias.types@,
            final(self).types@ == old(self).types@,
            final(self).types_size@ == old(self).types_size@,
            final(self).names@ == old(self).names@,
            final(self).structs@ == old(self).structs@,
            final(self).pointer_size == old(self).pointer_size,
            final(self).big_endian == old(self).big_endian,
            final(self).structs_map == old(self).structs_map,
    {
        self.alias.names.push(AliasPair { old_name, cur_name });
    }
}

/// Once some leading prefix finds `k`, every longer prefix finds the same
/// position.
proof fn lemma_find_struct_stable(
    structs: Seq<StructDef>,
    types: Seq<Vec<u8>>,
    k: Seq<u8>,
    n: nat,
    m: nat,
)
    requires
        n <= m,
        find_struct(structs, types, k, n) is Some,
    ensures
        find_struct(structs, types, k, m) == find_struct(structs, types, k, n),
    decreases m,
{
    if m > n {
        lemma_find_struct_stable(structs, types, k, n, (m - 1) as nat);
    }
}

/// A name carried by none of the leading `n` definitions is not found among
/// them.
proof fn lemma_find_struct_misses(structs: Seq<StructDef>, types: Seq<Vec<u8>>, k: Seq<u8>, n: nat)
    requires
        forall|q: int| 0 <= q < n ==> #[trigger] struct_type_name(structs, types, q) != k,
    ensures
        find_struct(structs, types, k, n) is None,
    decreases n,
{
    if n > 0 {
        lemma_find_struct_misses(structs, types, k, (n - 1) as nat);
    }
}

/// A name carried by position `p` and by no earlier position is found at
/// `p`.
proof fn lemma_find_struct_hits(
    structs: Seq<StructDef>,
    types: Seq<Vec<u8>>,
    k: Seq<u8>,
    p: int,
    n: nat,
)
    requires
        0 <= p < n,
        struct_type_name(structs, types, p) == k,
        forall|q: int| 0 <= q < p ==> #[trigger] struct_type_name(structs, types, q) != k,
    ensures
        find_struct(structs, types, k, n) == Some(p as usize),
    decreases n,
{
    if p == n - 1 {
        lemma_find_struct_misses(structs, types, k, (n - 1) as nat);
    } else {
        lemma_find_struct_hits(structs, types, k, p, (n - 1) as nat);
    }
}

/// Law: in a table whose struct type names are pairwise distinct, resolving
/// the name of the struct at any position yields exactly that position.
pub proof fn lemma_resolve_position(s: SDNA, p: int)
    requires
        sdna_wf(s),
        0 <= p < s.structs@.len(),
        forall|q1: int, q2: int|
            0 <= q1 < q2 < s.structs@.len() ==> #[trigger] struct_type_name(s.structs@, s.types@, q1)
                != #[trigger] struct_type_name(s.structs@, s.types@, q2),
    ensures
        spec_resolve(s, struct_type_name(s.structs@, s.types@, p)) == Some(p as usize),
{
    let k = struct_type_name(s.structs@, s.types@, p);
    assert forall|q: int| 0 <= q < p implies #[trigger] struct_type_name(s.structs@, s.types@, q)
        != k by {}
    lemma_find_struct_hits(s.structs@, s.types@, k, p, s.structs@.len() as nat);
}

/// Law: a registered historical name that no struct of the table carries
/// itself resolves, through the alias table, to the same position as the
/// current name it maps to.
pub proof fn lemma_resolve_alias_position(s: SDNA, a: Seq<u8>, p: int)
    requires
        sdna_wf(s),
        0 <= p < s.structs@.len(),
        forall|q1: int, q2: int|
            0 <= q1 < q2 < s.structs@.len() ==> #[trigger] struct_type_name(s.structs@, s.types@, q1)
                != #[trigger] struct_type_name(s.structs@, s.types@, q2),
        forall|q: int|
            0 <= q < s.structs@.len() ==> #[trigger] struct_type_name(s.structs@, s.types@, q) != a,
        alias_find(s.alias.types@, a) == Some(struct_type_name(s.structs@, s.types@, p)),
    ensures
        spec_resolve(s, a) == Some(p as usize),
        spec_resolve(s, a) == spec_resolve(s, struct_type_name(s.structs@, s.types@, p)),
{
    lemma_find_struct_misses(s.structs@, s.types@, a, s.structs@.len() as nat);
    lemma_resolve_position(s, p);
    let k = struct_type_name(s.structs@, s.types@, p);
    assert forall|q: int| 0 <= q < p implies #[trigger] struct_type_name(s.structs@, s.types@, q)
        != k by {}
    lemma_find_struct_hits(s.structs@, s.types@, k, p, s.structs@.len() as nat);
}

} // verus!
