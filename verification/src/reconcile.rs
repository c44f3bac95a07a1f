//! The struct reconciler: converts a byte buffer encoded under an old
//! struct definition into the shape of the current one.  Current members
//! are walked in declaration order; a same-named old member (after alias
//! translation of type and member names) is copied verbatim when type and
//! size agree, integers are widened or truncated between the known integer
//! member types, old-address members are carried across pointer-width
//! changes, nested structs of a changed layout recurse, and everything
//! else is left at zero, with a warning where information was lost.
//!
//! Member names carry their annotations: a leading `*` marks a pointer and
//! each trailing `[n]` suffix a fixed array dimension.  A dimension must be
//! a positive decimal number and the element count of one member must stay
//! under `0x10000000`; otherwise the name is malformed.

use vstd::prelude::*;

use crate::errors::{DnaError, LossKind, LossyConversionWarning};
use crate::ghash::{bytes_eq, clone_bytes};
use crate::sdna::{FieldDef, SDNA, alias_find, alias_lookup, sdna_wf};
use crate::wire::{read_u32, read_u64, write_u32, write_u64};

verus! {

/// Whether a member name is pointer-shaped.
pub open spec fn is_ptr_name(n: Seq<u8>) -> bool {
    n.len() > 0 && n[0] == 0x2A
}

/// Index of the first `[` at or after `i`, or the name's length.
pub open spec fn base_end(n: Seq<u8>, i: nat) -> nat
    decreases n.len() - i,
{
    if i >= n.len() {
        n.len()
    } else if n[i as int] == 0x5B {
        i
    } else {
        base_end(n, i + 1)
    }
}

/// The member name without its array annotations.
pub open spec fn base_of(n: Seq<u8>) -> Seq<u8> {
    n.subrange(0, base_end(n, 0) as int)
}

/// Element count encoded by the `[n]` groups from position `i` on; `None`
/// for a malformed annotation or a count of `0x10000000` or more.
pub open spec fn dims_from(n: Seq<u8>, i: nat) -> Option<nat>
    decreases n.len() - i, 0nat,
{
    if i >= n.len() {
        Some(1)
    } else if n[i as int] == 0x5B {
        group_from(n, i + 1, 0)
    } else {
        None
    }
}

/// One `[n]` group being read: `acc` is the dimension value so far.
pub open spec fn group_from(n: Seq<u8>, i: nat, acc: nat) -> Option<nat>
    decreases n.len() - i, 1nat,
{
    if i >= n.len() {
        None
    } else if n[i as int] == 0x5D {
        if acc >= 1 {
            match dims_from(n, i + 1) {
                Some(r) => if acc * r <= 0xFFFFFFF {
                    Some(acc * r)
                } else {
                    None
                },
                None => None,
            }
        } else {
            None
        }
    } else if 0x30 <= n[i as int] <= 0x39 {
        if acc * 10 + (n[i as int] - 0x30) <= 0xFFFFFFF {
            group_from(n, i + 1, (acc * 10 + (n[i as int] - 0x30)) as nat)
        } else {
            None
        }
    } else {
        None
    }
}

/// The total element count of a member, from its name.
pub open spec fn array_len_of(n: Seq<u8>) -> Option<nat> {
    dims_from(n, base_end(n, 0))
}

/// A defined element count is at least one and under the cap.
proof fn lemma_dims_bounds(n: Seq<u8>, i: nat)
    ensures
        dims_from(n, i) matches Some(v) ==> 1 <= v <= 0xFFFFFFF,
    decreases n.len() - i, 0nat,
{
    if i < n.len() && n[i as int] == 0x5B {
        lemma_group_bounds(n, i + 1, 0);
    }
}

/// A group's result is at least one and under the cap.
proof fn lemma_group_bounds(n: Seq<u8>, i: nat, acc: nat)
    ensures
        group_from(n, i, acc) matches Some(v) ==> 1 <= v <= 0xFFFFFFF,
    decreases n.len() - i, 1nat,
{
    if i < n.len() {
        if n[i as int] == 0x5D {
            lemma_dims_bounds(n, i + 1);
            if acc >= 1 && dims_from(n, i + 1) is Some {
                let r = dims_from(n, i + 1)->Some_0;
                assert(acc * r >= 1) by (nonlinear_arith)
                    requires
                        acc >= 1,
                        r >= 1,
                ;
            }
        } else if 0x30 <= n[i as int] <= 0x39 {
            if acc * 10 + (n[i as int] - 0x30) <= 0xFFFFFFF {
                lemma_group_bounds(n, i + 1, (acc * 10 + (n[i as int] - 0x30)) as nat);
            }
        }
    }
}

/// The member name a field refers to.
pub open spec fn member_name(s: SDNA, f: FieldDef) -> Seq<u8> {
    s.names@[f.name_idx as int]@
}

/// The type name a field refers to.
pub open spec fn type_name_of_field(s: SDNA, f: FieldDef) -> Seq<u8> {
    s.types@[f.type_idx as int]@
}

/// The field's member base name after alias translation.
pub open spec fn translated_base(s: SDNA, f: FieldDef) -> Seq<u8> {
    match alias_find(s.alias.names@, base_of(member_name(s, f))) {
        Some(t) => t,
        None => base_of(member_name(s, f)),
    }
}

/// The field's type name after alias translation.
pub open spec fn translated_type(s: SDNA, f: FieldDef) -> Seq<u8> {
    match alias_find(s.alias.types@, type_name_of_field(s, f)) {
        Some(t) => t,
        None => type_name_of_field(s, f),
    }
}

/// The element byte size of a field: the pointer width for pointer-shaped
/// members, the type's recorded size otherwise.
pub open spec fn elem_size_of(s: SDNA, f: FieldDef) -> int {
    if is_ptr_name(member_name(s, f)) {
        s.pointer_size as int
    } else {
        s.types_size@[f.type_idx as int] as int
    }
}

/// The total byte size of a field, or `None` for a malformed name.
pub open spec fn spec_field_size(s: SDNA, f: FieldDef) -> Option<int> {
    match array_len_of(member_name(s, f)) {
        Some(al) => Some(al as int * elem_size_of(s, f)),
        None => None,
    }
}

/// The byte offset of field `n` (the summed sizes of the fields before
/// it), or `None` if any of those sizes is undefined.
pub open spec fn size_of_fields(s: SDNA, fields: Seq<FieldDef>, n: nat) -> Option<int>
    decreases n,
{
    if n == 0 {
        Some(0)
    } else {
        match (size_of_fields(s, fields, (n - 1) as nat), spec_field_size(s, fields[n - 1])) {
            (Some(a), Some(b)) => Some(a + b),
            _ => None,
        }
    }
}

/// The byte size of a whole struct definition.
pub open spec fn spec_struct_size(s: SDNA, p: int) -> Option<int> {
    size_of_fields(s, s.structs@[p].fields@, s.structs@[p].fields@.len() as nat)
}

/// Position of the first of the leading `n` old fields whose translated
/// base name is `target`.
pub open spec fn find_member(os: SDNA, fields: Seq<FieldDef>, target: Seq<u8>, n: nat) -> Option<
    int,
>
    decreases n,
{
    if n == 0 {
        None
    } else if find_member(os, fields, target, (n - 1) as nat) is Some {
        find_member(os, fields, target, (n - 1) as nat)
    } else if translated_base(os, fields[n - 1]) == target {
        Some(n - 1)
    } else {
        None
    }
}

/// The matched pair copies verbatim: equal translated type names, equal
/// sizes, and agreeing pointer shape.
pub open spec fn fast_path(os: SDNA, fo: FieldDef, cs: SDNA, fc: FieldDef) -> bool {
    &&& translated_type(os, fo) == type_name_of_field(cs, fc)
    &&& spec_field_size(os, fo) == spec_field_size(cs, fc)
    &&& is_ptr_name(member_name(os, fo)) == is_ptr_name(member_name(cs, fc))
}

/// What reconciliation guarantees of current field `k` in the output:
/// a member absent from the old struct is zero, and a member matched on
/// the fast path is the old member's bytes verbatim.
pub open spec fn reconciled_field_ok(
    os: SDNA,
    op: int,
    cs: SDNA,
    cp: int,
    k: int,
    src: Seq<u8>,
    out: Seq<u8>,
) -> bool {
    let cf = cs.structs@[cp].fields@;
    let of = os.structs@[op].fields@;
    let f = cf[k];
    (size_of_fields(cs, cf, k as nat) is Some && spec_field_size(cs, f) is Some) ==> {
        let off = size_of_fields(cs, cf, k as nat)->Some_0;
        let sz = spec_field_size(cs, f)->Some_0;
        let m = find_member(os, of, base_of(member_name(cs, f)), of.len() as nat);
        &&& (m is None ==> out.subrange(off, off + sz) == Seq::new(sz as nat, |x: int| 0u8))
        &&& ((m is Some && fast_path(os, of[m->Some_0], cs, f) && size_of_fields(
            os,
            of,
            m->Some_0 as nat,
        ) is Some) ==> out.subrange(off, off + sz) == src.subrange(
            size_of_fields(os, of, m->Some_0 as nat)->Some_0,
            size_of_fields(os, of, m->Some_0 as nat)->Some_0 + sz,
        ))
    }
}

/// Width in bytes and signedness of a known integer member type name, at
/// the specification level.
pub open spec fn spec_prim_kind(n: Seq<u8>) -> Option<(int, bool)> {
    if n == seq![0x63u8, 0x68u8, 0x61u8, 0x72u8] {
        Some((1int, true))
    } else if n == seq![0x75u8, 0x63u8, 0x68u8, 0x61u8, 0x72u8] {
        Some((1int, false))
    } else if n == seq![0x73u8, 0x68u8, 0x6Fu8, 0x72u8, 0x74u8] {
        Some((2int, true))
    } else if n == seq![0x75u8, 0x73u8, 0x68u8, 0x6Fu8, 0x72u8, 0x74u8] {
        Some((2int, false))
    } else if n == seq![0x69u8, 0x6Eu8, 0x74u8] {
        Some((4int, true))
    } else if n == seq![0x75u8, 0x69u8, 0x6Eu8, 0x74u8] {
        Some((4int, false))
    } else if n == seq![0x69u8, 0x6Eu8, 0x74u8, 0x36u8, 0x34u8, 0x5Fu8, 0x74u8] {
        Some((8int, true))
    } else if n == seq![0x75u8, 0x69u8, 0x6Eu8, 0x74u8, 0x36u8, 0x34u8, 0x5Fu8, 0x74u8] {
        Some((8int, false))
    } else {
        None
    }
}

/// The matched pair has a defined conversion: a verbatim copy, an integer
/// widening or truncation between known integer types whose recorded sizes
/// match their widths, or an old-address carry between pointer widths.
pub open spec fn convertible_pair(os: SDNA, fo: FieldDef, cs: SDNA, fc: FieldDef) -> bool {
    ||| fast_path(os, fo, cs, fc)
    ||| (is_ptr_name(member_name(os, fo)) && is_ptr_name(member_name(cs, fc)))
    ||| {
        &&& !is_ptr_name(member_name(os, fo))
        &&& !is_ptr_name(member_name(cs, fc))
        &&& spec_prim_kind(translated_type(os, fo)) is Some
        &&& elem_size_of(os, fo) == spec_prim_kind(translated_type(os, fo))->Some_0.0
        &&& spec_prim_kind(type_name_of_field(cs, fc)) is Some
        &&& elem_size_of(cs, fc) == spec_prim_kind(type_name_of_field(cs, fc))->Some_0.0
    }
}

/// Every matched member pair has a defined conversion and every size
/// involved is defined: reconciliation is then owed success.
pub open spec fn convertible_reconcilable(os: SDNA, op: int, cs: SDNA, cp: int) -> bool {
    let cf = cs.structs@[cp].fields@;
    let of = os.structs@[op].fields@;
    &&& spec_struct_size(cs, cp) is Some
    &&& spec_struct_size(cs, cp)->Some_0 <= usize::MAX
    &&& spec_struct_size(os, op) is Some
    &&& spec_struct_size(os, op)->Some_0 <= usize::MAX
    &&& forall|k: int|
        0 <= k < cf.len() ==> match find_member(
            os,
            of,
            base_of(member_name(cs, #[trigger] cf[k])),
            of.len() as nat,
        ) {
            Some(j) => convertible_pair(os, of[j], cs, cf[k]),
            None => true,
        }
}

/// Every current field is unmatched or matched on the fast path, and every
/// size involved is defined: reconciliation is then owed success and emits
/// no warning.
pub open spec fn flat_reconcilable(os: SDNA, op: int, cs: SDNA, cp: int) -> bool {
    let cf = cs.structs@[cp].fields@;
    let of = os.structs@[op].fields@;
    &&& spec_struct_size(cs, cp) is Some
    &&& spec_struct_size(cs, cp)->Some_0 <= usize::MAX
    &&& spec_struct_size(os, op) is Some
    &&& spec_struct_size(os, op)->Some_0 <= usize::MAX
    &&& forall|k: int|
        0 <= k < cf.len() ==> match find_member(
            os,
            of,
            base_of(member_name(cs, #[trigger] cf[k])),
            of.len() as nat,
        ) {
            Some(j) => fast_path(os, of[j], cs, cf[k]),
            None => true,
        }
}

/// A defined total size makes every prefix offset defined, nonnegative and
/// no larger.
proof fn lemma_size_prefix(s: SDNA, fields: Seq<FieldDef>, n: nat, m: nat)
    requires
        n <= m,
        size_of_fields(s, fields, m) is Some,
        forall|k: int|
            0 <= k < m ==> (#[trigger] spec_field_size(s, fields[k])) is Some && spec_field_size(
                s,
                fields[k],
            )->Some_0 >= 0,
    ensures
        size_of_fields(s, fields, n) is Some,
        0 <= size_of_fields(s, fields, n)->Some_0 <= size_of_fields(s, fields, m)->Some_0,
    decreases m,
{
    if m > 0 {
        if n == m {
            lemma_size_prefix(s, fields, (m - 1) as nat, (m - 1) as nat);
        } else {
            lemma_size_prefix(s, fields, n, (m - 1) as nat);
        }
    }
}

/// A defined total size requires every field size to be defined and
/// nonnegative.
proof fn lemma_size_fields_defined(s: SDNA, fields: Seq<FieldDef>, m: nat)
    requires
        size_of_fields(s, fields, m) is Some,
        forall|k: int|
            0 <= k < fields.len() ==> {
                let fs = #[trigger] spec_field_size(s, fields[k]);
                fs is Some ==> fs->Some_0 >= 0
            },
        m <= fields.len(),
    ensures
        forall|k: int|
            0 <= k < m ==> (#[trigger] spec_field_size(s, fields[k])) is Some && spec_field_size(
                s,
                fields[k],
            )->Some_0 >= 0,
    decreases m,
{
    if m > 0 {
        lemma_size_fields_defined(s, fields, (m - 1) as nat);
    }
}

/// A field size is never negative.
proof fn lemma_field_size_nonneg(s: SDNA, f: FieldDef)
    ensures
        spec_field_size(s, f) matches Some(v) ==> v >= 0,
{
    if array_len_of(member_name(s, f)) is Some {
        lemma_dims_bounds(member_name(s, f), base_end(member_name(s, f), 0));
        let al = array_len_of(member_name(s, f))->Some_0;
        let e = elem_size_of(s, f);
        if s.pointer_size as int >= 0 && s.types_size@.len() > f.type_idx as int {
        }
        assert(al as int * e >= 0) by (nonlinear_arith)
            requires
                al >= 0,
                e >= 0,
        ;
    }
}

/// Once some leading prefix of the old fields matches, every longer prefix
/// matches at the same position.
proof fn lemma_find_member_stable(os: SDNA, fields: Seq<FieldDef>, target: Seq<u8>, n: nat, m: nat)
    requires
        n <= m,
        find_member(os, fields, target, n) is Some,
    ensures
        find_member(os, fields, target, m) == find_member(os, fields, target, n),
    decreases m,
{
    if m > n {
        lemma_find_member_stable(os, fields, target, n, (m - 1) as nat);
    }
}

/// A target matched by none of the leading `n` old fields is not found
/// among them.
proof fn lemma_find_member_misses(os: SDNA, fields: Seq<FieldDef>, target: Seq<u8>, n: nat)
    requires
        forall|q: int| 0 <= q < n ==> #[trigger] translated_base(os, fields[q]) != target,
    ensures
        find_member(os, fields, target, n) is None,
    decreases n,
{
    if n > 0 {
        lemma_find_member_misses(os, fields, target, (n - 1) as nat);
    }
}

/// Parsed layout facts of one member name.
struct FieldInfo {
    /// Pointer-shaped member.
    is_ptr: bool,
    /// Total element count.
    alen: usize,
    /// Base name, annotations stripped.
    base: Vec<u8>,
    /// Bytes per element.
    elem: usize,
    /// Total byte size.
    size: usize,
}

/// Parses one `[n]` group starting at its first digit; returns the
/// dimension value and the position after the closing bracket.
fn parse_group(name: &[u8], start: usize) -> (r: Result<(u64, usize), DnaError>)
    requires
        start <= name@.len(),
    ensures
        r matches Ok(p) ==> {
            &&& 1 <= p.0 <= 0xFFFFFFF
            &&& start < p.1 <= name@.len()
            &&& group_from(name@, start as nat, 0) == (match dims_from(name@, p.1 as nat) {
                Some(rr) => if p.0 as nat * rr <= 0xFFFFFFF {
                    Some((p.0 as nat * rr) as nat)
                } else {
                    None::<nat>
                },
                None => None::<nat>,
            })
        },
        r is Err ==> r == Err::<(u64, usize), DnaError>(DnaError::FormatError) && group_from(
            name@,
            start as nat,
            0,
        ) is None,
{
    let n = name.len();
    let mut i = start;
    let mut acc: u64 = 0;
    while i < n && name[i] != 0x5D
        invariant
            start <= i <= n,
            n == name@.len(),
            acc <= 0xFFFFFFF,
            group_from(name@, start as nat, 0) == group_from(name@, i as nat, acc as nat),
        decreases n - i,
    {
        let c = name[i];
        if c < 0x30 || c > 0x39 {
            return Err(DnaError::FormatError);
        }
        let d = (c - 0x30) as u64;
        let acc2 = acc * 10 + d;
        if acc2 > 0xFFFFFFF {
            return Err(DnaError::FormatError);
        }
        acc = acc2;
        i += 1;
    }
    if i == n {
        return Err(DnaError::FormatError);
    }
    if acc == 0 {
        return Err(DnaError::FormatError);
    }
    proof {
        assert(group_from(name@, i as nat, acc as nat) == (match dims_from(name@, (i + 1) as nat) {
            Some(rr) => if acc as nat * rr <= 0xFFFFFFF {
                Some((acc as nat * rr) as nat)
            } else {
                None::<nat>
            },
            None => None::<nat>,
        }));
    }
    Ok((acc, i + 1))
}

/// Parses one member name: pointer marker, array dimensions, base name.
fn name_layout(name: &[u8]) -> (r: Result<(bool, usize, Vec<u8>), DnaError>)
    ensures
        r matches Ok(p) ==> {
            &&& p.0 == is_ptr_name(name@)
            &&& array_len_of(name@) == Some(p.1 as nat)
            &&& p.2@ == base_of(name@)
            &&& 1 <= p.1 <= 0xFFFFFFF
        },
        r is Err ==> r == Err::<(bool, usize, Vec<u8>), DnaError>(DnaError::FormatError)
            && array_len_of(name@) is None,
{
    let n = name.len();
    let is_ptr = n > 0 && name[0] == 0x2A;
    let mut base: Vec<u8> = Vec::new();
    let mut i: usize = 0;
    while i < n && name[i] != 0x5B
        invariant
            i <= n,
            n == name@.len(),
            base@ == name@.subrange(0, i as int),
            base_end(name@, 0) == base_end(name@, i as nat),
        decreases n - i,
    {
        base.push(name[i]);
        proof {
            assert(base@ =~= name@.subrange(0, i + 1));
        }
        i += 1;
    }
    proof {
        assert(base_end(name@, i as nat) == i);
        assert(base@ == base_of(name@));
    }
    let mut total: u64 = 1;
    while i < n
        invariant
            i <= n,
            n == name@.len(),
            1 <= total <= 0xFFFFFFF,
            dims_from(name@, i as nat) is None ==> array_len_of(name@) is None,
            dims_from(name@, i as nat) is Some ==> {
                let r = dims_from(name@, i as nat)->Some_0;
                &&& (array_len_of(name@) is Some ==> array_len_of(name@)->Some_0 == total as nat
                    * r)
                &&& (total as nat * r <= 0xFFFFFFF ==> array_len_of(name@) == Some(
                    (total as nat * r) as nat,
                ))
            },
        decreases n - i,
    {
        let ghost i_pre = i as nat;
        let ghost t0 = total as nat;
        if name[i] != 0x5B {
            return Err(DnaError::FormatError);
        }
        let (acc, newpos) = match parse_group(name, i + 1) {
            Ok(v) => v,
            Err(_) => {
                proof {
                    assert(dims_from(name@, i_pre) is None);
                }
                return Err(DnaError::FormatError);
            },
        };
        proof {
            assert(dims_from(name@, i_pre) == group_from(name@, i_pre + 1, 0));
        }
        i = newpos;
        proof {
            assert((total as int) * (acc as int) <= 0xFFFFFFF * 0xFFFFFFF && (total as int) * (
            acc as int) >= 1) by (nonlinear_arith)
                requires
                    1 <= total <= 0xFFFFFFF,
                    1 <= acc <= 0xFFFFFFF,
            ;
        }
        let total2 = total * acc;
        if total2 > 0xFFFFFFF {
            proof {
                assert(array_len_of(name@) is None) by {
                    if dims_from(name@, i as nat) is Some {
                        let r = dims_from(name@, i as nat)->Some_0;
                        lemma_dims_bounds(name@, i as nat);
                        if acc as nat * r <= 0xFFFFFFF {
                            assert(dims_from(name@, i_pre) == Some((acc as nat * r) as nat));
                            assert(t0 * (acc as nat * r) >= t0 * acc as nat) by (nonlinear_arith)
                                requires
                                    r >= 1,
                                    t0 >= 0,
                                    acc >= 0,
                            ;
                            if array_len_of(name@) is Some {
                                let v = array_len_of(name@)->Some_0;
                                lemma_dims_bounds(name@, base_end(name@, 0));
                                assert(v == t0 * (acc as nat * r));
                                assert(v <= 0xFFFFFFF);
                            }
                        } else {
                            assert(dims_from(name@, i_pre) is None);
                        }
                    }
                }
            }
            return Err(DnaError::FormatError);
        }
        total = total2;
        proof {
            if dims_from(name@, i as nat) is Some {
                let r = dims_from(name@, i as nat)->Some_0;
                lemma_dims_bounds(name@, i as nat);
                assert(t0 * (acc as nat * r) == total as nat * r) by (nonlinear_arith)
                    requires
                        total as nat == t0 * acc as nat,
                ;
                assert(acc as nat * r <= total as nat * r) by (nonlinear_arith)
                    requires
                        t0 >= 1,
                        acc >= 0,
                        r >= 0,
                        total as nat == t0 * acc as nat,
                ;
                if acc as nat * r <= 0xFFFFFFF {
                    assert(dims_from(name@, i_pre) == Some((acc as nat * r) as nat));
                } else {
                    assert(dims_from(name@, i_pre) is None);
                }
            }
        }
    }
    proof {
        assert(dims_from(name@, i as nat) == Some(1nat));
        assert(total as nat * 1 == total as nat);
    }
    Ok((is_ptr, total as usize, base))
}

/// Parses the layout of one field of a table.
fn field_info(s: &SDNA, f: FieldDef) -> (r: Result<FieldInfo, DnaError>)
    requires
        sdna_wf(*s),
        f.type_idx < s.types@.len(),
        f.name_idx < s.names@.len(),
    ensures
        r matches Ok(fi) ==> {
            &&& fi.is_ptr == is_ptr_name(member_name(*s, f))
            &&& array_len_of(member_name(*s, f)) == Some(fi.alen as nat)
            &&& fi.base@ == base_of(member_name(*s, f))
            &&& fi.elem as int == elem_size_of(*s, f)
            &&& spec_field_size(*s, f) == Some(fi.size as int)
        },
        r is Err ==> (spec_field_size(*s, f) is None || spec_field_size(*s, f)->Some_0
            > usize::MAX),
{
    let name = &s.names[f.name_idx as usize];
    let (is_ptr, alen, base) = match name_layout(name.as_slice()) {
        Ok(v) => v,
        Err(e) => { return Err(e) },
    };
    let elem: usize = if is_ptr {
        s.pointer_size as usize
    } else {
        s.types_size[f.type_idx as usize] as usize
    };
    proof {
        assert((alen as int) * (elem as int) <= 0xFFFFFFF * 0x10000 && (alen as int) * (
        elem as int) >= 0) by (nonlinear_arith)
            requires
                1 <= alen <= 0xFFFFFFF,
                0 <= elem <= 0x10000,
        ;
    }
    let size64: u64 = (alen as u64) * (elem as u64);
    if size64 > usize::MAX as u64 {
        return Err(DnaError::FormatError);
    }
    Ok(FieldInfo { is_ptr, alen, base, elem, size: size64 as usize })
}

/// Computes the byte size of the struct definition at position `p`.
pub fn struct_size(s: &SDNA, p: usize) -> (r: Result<usize, DnaError>)
    requires
        sdna_wf(*s),
        p < s.structs@.len(),
    ensures
        r matches Ok(v) ==> spec_struct_size(*s, p as int) == Some(v as int),
        r is Err ==> (spec_struct_size(*s, p as int) is None || spec_struct_size(*s, p as int)
            ->Some_0 > usize::MAX),
{
    let ghost fields = s.structs@[p as int].fields@;
    let n = s.structs[p].fields.len();
    let mut sum: usize = 0;
    let mut k: usize = 0;
    while k < n
        invariant
            sdna_wf(*s),
            p < s.structs@.len(),
            fields == s.structs@[p as int].fields@,
            n == fields.len(),
            k <= n,
            size_of_fields(*s, fields, k as nat) == Some(sum as int),
        decreases n - k,
    {
        let f = s.structs[p].fields[k];
        let fi = match field_info(s, f) {
            Ok(v) => v,
            Err(_) => {
                proof {
                    if spec_struct_size(*s, p as int) is Some {
                        lemma_field_size_all_nonneg(*s, fields);
                        lemma_size_fields_defined(*s, fields, n as nat);
                        if spec_struct_size(*s, p as int)->Some_0 <= usize::MAX {
                            lemma_size_prefix(*s, fields, (k + 1) as nat, n as nat);
                            lemma_size_prefix(*s, fields, k as nat, n as nat);
                        }
                    }
                }
                return Err(DnaError::FormatError);
            },
        };
        if usize::MAX - sum < fi.size {
            proof {
                if spec_struct_size(*s, p as int) is Some {
                    lemma_field_size_all_nonneg(*s, fields);
                    lemma_size_fields_defined(*s, fields, n as nat);
                    lemma_size_prefix(*s, fields, (k + 1) as nat, n as nat);
                }
            }
            return Err(DnaError::FormatError);
        }
        sum = sum + fi.size;
        k += 1;
    }
    Ok(sum)
}

/// Every field size of a well-formed table is nonnegative when defined.
proof fn lemma_field_size_all_nonneg(s: SDNA, fields: Seq<FieldDef>)
    ensures
        forall|k: int|
            0 <= k < fields.len() ==> {
                let fs = #[trigger] spec_field_size(s, fields[k]);
                fs is Some ==> fs->Some_0 >= 0
            },
{
    assert forall|k: int| 0 <= k < fields.len() implies {
        let fs = #[trigger] spec_field_size(s, fields[k]);
        fs is Some ==> fs->Some_0 >= 0
    } by {
        lemma_field_size_nonneg(s, fields[k]);
    }
}

/// Finds the first old field whose translated base name is `target`,
/// returning its position and byte offset.
fn find_old_field(os: &SDNA, op: usize, target: &[u8]) -> (r: Option<(usize, usize)>)
    requires
        sdna_wf(*os),
        op < os.structs@.len(),
        spec_struct_size(*os, op as int) is Some,
        spec_struct_size(*os, op as int)->Some_0 <= usize::MAX,
    ensures
        ({
            let of = os.structs@[op as int].fields@;
            let m = find_member(*os, of, target@, of.len() as nat);
            match m {
                None => r is None,
                Some(j) => r matches Some(p) && p.0 == j && size_of_fields(*os, of, j as nat)
                    == Some(p.1 as int),
            }
        }),
{
    let ghost of = os.structs@[op as int].fields@;
    proof {
        lemma_field_size_all_nonneg(*os, of);
        lemma_size_fields_defined(*os, of, of.len() as nat);
    }
    let n = os.structs[op].fields.len();
    let mut off: usize = 0;
    let mut j: usize = 0;
    while j < n
        invariant
            sdna_wf(*os),
            op < os.structs@.len(),
            of == os.structs@[op as int].fields@,
            n == of.len(),
            j <= n,
            spec_struct_size(*os, op as int) is Some,
            spec_struct_size(*os, op as int)->Some_0 <= usize::MAX,
            forall|k: int|
                0 <= k < of.len() ==> (#[trigger] spec_field_size(*os, of[k])) is Some
                    && spec_field_size(*os, of[k])->Some_0 >= 0,
            size_of_fields(*os, of, j as nat) == Some(off as int),
            find_member(*os, of, target@, j as nat) is None,
        decreases n - j,
    {
        let f = os.structs[op].fields[j];
        let fi = match field_info(os, f) {
            Ok(v) => v,
            Err(_) => {
                proof {
                    lemma_size_prefix(*os, of, (j + 1) as nat, of.len() as nat);
                    lemma_size_prefix(*os, of, j as nat, of.len() as nat);
                    assert(false);
                }
                return None;
            },
        };
        let tb = match alias_lookup(&os.alias.names, fi.base.as_slice()) {
            Some(t) => t,
            None => fi.base,
        };
        proof {
            assert(tb@ == translated_base(*os, of[j as int]));
        }
        if bytes_eq(tb.as_slice(), target) {
            proof {
                assert(find_member(*os, of, target@, (j + 1) as nat) == Some(j as int));
                lemma_find_member_stable(*os, of, target@, (j + 1) as nat, n as nat);
            }
            return Some((j, off));
        }
        proof {
            lemma_size_prefix(*os, of, (j + 1) as nat, n as nat);
        }
        off = off + fi.size;
        j += 1;
    }
    None
}

/// Appends `n` zero bytes.
fn push_zeroes(out: &mut Vec<u8>, n: usize)
    ensures
        final(out)@ == old(out)@ + Seq::new(n as nat, |x: int| 0u8),
{
    let mut i: usize = 0;
    while i < n
        invariant
            i <= n,
            out@ == old(out)@ + Seq::new(i as nat, |x: int| 0u8),
        decreases n - i,
    {
        out.push(0);
        proof {
            assert(out@ =~= old(out)@ + Seq::new((i + 1) as nat, |x: int| 0u8));
        }
        i += 1;
    }
}

/// Appends `count` bytes of `src` starting at `from`.
fn push_copy(out: &mut Vec<u8>, src: &[u8], from: usize, count: usize)
    requires
        from + count <= src@.len(),
    ensures
        final(out)@ == old(out)@ + src@.subrange(from as int, from + count),
{
    let n_src = src.len();
    let mut i: usize = 0;
    while i < count
        invariant
            i <= count,
            from + count <= src@.len(),
            n_src == src@.len(),
            out@ == old(out)@ + src@.subrange(from as int, from + i),
        decreases count - i,
    {
        out.push(src[from + i]);
        proof {
            assert(out@ =~= old(out)@ + src@.subrange(from as int, from + i + 1));
        }
        i += 1;
    }
}

/// Carries `oal` old addresses of width `opsz` across to `cal` addresses
/// of width `cpsz`, zero-extending or truncating each value and
/// zero-filling surplus destination elements.
fn push_ptr_elems(
    out: &mut Vec<u8>,
    src: &[u8],
    from: usize,
    oal: usize,
    cal: usize,
    opsz: usize,
    cpsz: usize,
    obig: bool,
    cbig: bool,
)
    requires
        opsz == 4 || opsz == 8,
        cpsz == 4 || cpsz == 8,
        from + oal * opsz <= src@.len(),
        cal * cpsz <= usize::MAX,
    ensures
        final(out)@.len() == old(out)@.len() + cal * cpsz,
        final(out)@.subrange(0, old(out)@.len() as int) == old(out)@,
{
    let n_src = src.len();
    let m = if oal < cal {
        oal
    } else {
        cal
    };
    let ghost base = out@.len();
    let mut e: usize = 0;
    while e < m
        invariant
            e <= m,
            m <= oal,
            m <= cal,
            opsz == 4 || opsz == 8,
            cpsz == 4 || cpsz == 8,
            from + oal * opsz <= src@.len(),
            n_src == src@.len(),
            cal * cpsz <= usize::MAX,
            out@.len() == base + e * cpsz,
            base == old(out)@.len(),
            out@.subrange(0, base as int) == old(out)@,
        decreases m - e,
    {
        let ghost out_pre = out@;
        proof {
            lemma_mul_le(e as int, oal as int, opsz as int);
            lemma_mul_le(e + 1, oal as int, opsz as int);
            lemma_mul_le(e as int, cal as int, cpsz as int);
            lemma_mul_le(e + 1, cal as int, cpsz as int);
        }
        let pos = from + e * opsz;
        let v: u64;
        if opsz == 4 {
            v = match read_u32(src, pos, obig) {
                Ok(x) => x as u64,
                Err(_) => vstd::pervasive::unreached(),
            };
        } else {
            v = match read_u64(src, pos, obig) {
                Ok(x) => x,
                Err(_) => vstd::pervasive::unreached(),
            };
        }
        if cpsz == 4 {
            write_u32(out, #[verifier::truncate] (v as u32), cbig);
        } else {
            write_u64(out, v, cbig);
        }
        proof {
            lemma_mul_push(e as int, cpsz as int);
            assert(out@.subrange(0, base as int) =~= old(out)@);
        }
        e += 1;
    }
    proof {
        lemma_mul_split(m as int, cal as int, cpsz as int);
    }
    let rest = (cal - m) * cpsz;
    push_zeroes(out, rest);
    proof {
        assert(out@.subrange(0, base as int) =~= old(out)@);
    }
}

/// A product grows with its first factor.
proof fn lemma_mul_le(a: int, b: int, c: int)
    by (nonlinear_arith)
    requires
        0 <= a <= b,
        0 <= c,
    ensures
        a * c <= b * c,
{
}

/// Splitting a product at `a`.
proof fn lemma_mul_split(a: int, b: int, c: int)
    by (nonlinear_arith)
    requires
        0 <= a <= b,
        0 <= c,
    ensures
        a * c + (b - a) * c == b * c,
{
}

/// Stepping a product by one factor.
proof fn lemma_mul_push(n: int, p: int)
    by (nonlinear_arith)
    requires
        0 <= n,
        0 <= p,
    ensures
        n * p + p == (n + 1) * p,
{
}

/// Width in bytes and signedness of a known integer member type name.
fn prim_kind(name: &[u8]) -> (r: Option<(usize, bool)>)
    ensures
        r matches Some(p) ==> 1 <= p.0 <= 8,
        r is Some <==> spec_prim_kind(name@) is Some,
        r matches Some(p) ==> spec_prim_kind(name@) == Some((p.0 as int, p.1)),
{
    proof {
        if name@ == seq![0x63u8, 0x68u8, 0x61u8, 0x72u8]
            || name@ == seq![0x75u8, 0x63u8, 0x68u8, 0x61u8, 0x72u8]
            || name@ == seq![0x73u8, 0x68u8, 0x6Fu8, 0x72u8, 0x74u8]
            || name@ == seq![0x75u8, 0x73u8, 0x68u8, 0x6Fu8, 0x72u8, 0x74u8]
            || name@ == seq![0x69u8, 0x6Eu8, 0x74u8]
            || name@ == seq![0x75u8, 0x69u8, 0x6Eu8, 0x74u8]
            || name@ == seq![0x69u8, 0x6Eu8, 0x74u8, 0x36u8, 0x34u8, 0x5Fu8, 0x74u8]
            || name@ == seq![0x75u8, 0x69u8, 0x6Eu8, 0x74u8, 0x36u8, 0x34u8, 0x5Fu8, 0x74u8] {
        }
    }
    let n = name.len();
    if n == 4 && name[0] == 0x63 && name[1] == 0x68 && name[2] == 0x61 && name[3] == 0x72 {
        proof {
            assert(name@ =~= seq![0x63u8, 0x68u8, 0x61u8, 0x72u8]);
        }
        Some((1, true))  // char
    } else if n == 5 && name[0] == 0x75 && name[1] == 0x63 && name[2] == 0x68 && name[3] == 0x61
        && name[4] == 0x72 {
        proof {
            assert(name@ =~= seq![0x75u8, 0x63u8, 0x68u8, 0x61u8, 0x72u8]);
        }
        Some((1, false))  // uchar
    } else if n == 5 && name[0] == 0x73 && name[1] == 0x68 && name[2] == 0x6F && name[3] == 0x72
        && name[4] == 0x74 {
        proof {
            assert(name@ =~= seq![0x73u8, 0x68u8, 0x6Fu8, 0x72u8, 0x74u8]);
        }
        Some((2, true))  // short
    } else if n == 6 && name[0] == 0x75 && name[1] == 0x73 && name[2] == 0x68 && name[3] == 0x6F
        && name[4] == 0x72 && name[5] == 0x74 {
        proof {
            assert(name@ =~= seq![0x75u8, 0x73u8, 0x68u8, 0x6Fu8, 0x72u8, 0x74u8]);
        }
        Some((2, false))  // ushort
    } else if n == 3 && name[0] == 0x69 && name[1] == 0x6E && name[2] == 0x74 {
        proof {
            assert(name@ =~= seq![0x69u8, 0x6Eu8, 0x74u8]);
        }
        Some((4, true))  // int
    } else if n == 4 && name[0] == 0x75 && name[1] == 0x69 && name[2] == 0x6E && name[3] == 0x74 {
        proof {
            assert(name@ =~= seq![0x75u8, 0x69u8, 0x6Eu8, 0x74u8]);
        }
        Some((4, false))  // uint
    } else if n == 7 && name[0] == 0x69 && name[1] == 0x6E && name[2] == 0x74 && name[3] == 0x36
        && name[4] == 0x34 && name[5] == 0x5F && name[6] == 0x74 {
        proof {
            assert(name@ =~= seq![0x69u8, 0x6Eu8, 0x74u8, 0x36u8, 0x34u8, 0x5Fu8, 0x74u8]);
        }
        Some((8, true))  // int64_t
    } else if n == 8 && name[0] == 0x75 && name[1] == 0x69 && name[2] == 0x6E && name[3] == 0x74
        && name[4] == 0x36 && name[5] == 0x34 && name[6] == 0x5F && name[7] == 0x74 {
        proof {
            assert(name@ =~= seq![0x75u8, 0x69u8, 0x6Eu8, 0x74u8, 0x36u8, 0x34u8, 0x5Fu8, 0x74u8]);
        }
        Some((8, false))  // uint64_t
    } else {
        None
    }
}

/// Converts `oal` integers of `ow` bytes into `cal` integers of `cw` bytes,
/// sign- or zero-extending on widening and truncating on narrowing, and
/// zero-filling surplus destination elements.
fn push_int_elems(
    out: &mut Vec<u8>,
    src: &[u8],
    from: usize,
    oal: usize,
    cal: usize,
    ow: usize,
    cw: usize,
    ssigned: bool,
    obig: bool,
    cbig: bool,
)
    requires
        1 <= ow <= 8,
        1 <= cw <= 8,
        from + oal * ow <= src@.len(),
        cal * cw <= usize::MAX,
    ensures
        final(out)@.len() == old(out)@.len() + cal * cw,
        final(out)@.subrange(0, old(out)@.len() as int) == old(out)@,
{
    let n_src = src.len();
    let m = if oal < cal {
        oal
    } else {
        cal
    };
    let ghost base = out@.len();
    let mut e: usize = 0;
    while e < m
        invariant
            e <= m,
            m <= oal,
            m <= cal,
            1 <= ow <= 8,
            1 <= cw <= 8,
            from + oal * ow <= src@.len(),
            n_src == src@.len(),
            cal * cw <= usize::MAX,
            out@.len() == base + e * cw,
            base == old(out)@.len(),
            out@.subrange(0, base as int) == old(out)@,
        decreases m - e,
    {
        proof {
            lemma_mul_le(e as int, oal as int, ow as int);
            lemma_mul_le(e + 1, oal as int, ow as int);
            lemma_mul_le(e as int, cal as int, cw as int);
            lemma_mul_le(e + 1, cal as int, cw as int);
            lemma_mul_push(e as int, ow as int);
        }
        let pos = from + e * ow;
        // least-significant-first image of the source element
        let mut le: Vec<u8> = Vec::new();
        let mut t: usize = 0;
        while t < ow
            invariant
                t <= ow,
                ow <= 8,
                le@.len() == t,
                pos + ow <= src@.len(),
                n_src == src@.len(),
            decreases ow - t,
        {
            let idx = if obig {
                ow - 1 - t
            } else {
                t
            };
            le.push(src[pos + idx]);
            t += 1;
        }
        let neg = ssigned && le[ow - 1] >= 0x80;
        // least-significant-first image of the destination element
        let mut ce: Vec<u8> = Vec::new();
        let mut t2: usize = 0;
        while t2 < cw
            invariant
                t2 <= cw,
                cw <= 8,
                le@.len() == ow,
                ce@.len() == t2,
            decreases cw - t2,
        {
            let b = if t2 < ow {
                le[t2]
            } else if neg {
                0xFF
            } else {
                0
            };
            ce.push(b);
            t2 += 1;
        }
        let mut t3: usize = 0;
        while t3 < cw
            invariant
                t3 <= cw,
                ce@.len() == cw,
                cw >= 1,
                out@.len() == base + e * cw + t3,
                out@.subrange(0, base as int) == old(out)@,
                base == old(out)@.len(),
            decreases cw - t3,
        {
            let idx = if cbig {
                cw - 1 - t3
            } else {
                t3
            };
            out.push(ce[idx]);
            proof {
                assert(out@.subrange(0, base as int) =~= old(out)@);
            }
            t3 += 1;
        }
        proof {
            lemma_mul_push(e as int, cw as int);
        }
        e += 1;
    }
    proof {
        lemma_mul_split(m as int, cal as int, cw as int);
    }
    let rest = (cal - m) * cw;
    push_zeroes(out, rest);
    proof {
        assert(out@.subrange(0, base as int) =~= old(out)@);
    }
}

/// A found member position lies within the searched prefix.
proof fn lemma_find_member_range(os: SDNA, fields: Seq<FieldDef>, target: Seq<u8>, n: nat)
    ensures
        find_member(os, fields, target, n) matches Some(j) ==> 0 <= j < n,
    decreases n,
{
    if n > 0 {
        lemma_find_member_range(os, fields, target, (n - 1) as nat);
    }
}

/// Converts one struct instance: walks the current members in declaration
/// order and fills each from its old counterpart, recursing into nested
/// structs of a changed layout with one unit of fuel per level.
#[verifier::rlimit(100)]
fn reconcile_inner(
    os: &SDNA,
    op: usize,
    cs: &SDNA,
    cp: usize,
    src: &[u8],
    fuel: usize,
    warnings: &mut Vec<LossyConversionWarning>,
) -> (r: Result<Vec<u8>, DnaError>)
    requires
        sdna_wf(*os),
        sdna_wf(*cs),
        op < os.structs@.len(),
        cp < cs.structs@.len(),
    ensures
        r matches Ok(out) ==> {
            &&& spec_struct_size(*cs, cp as int) == Some(out@.len() as int)
            &&& spec_struct_size(*os, op as int) == Some(src@.len() as int)
            &&& forall|k: int|
                0 <= k < cs.structs@[cp as int].fields@.len() ==> reconciled_field_ok(
                    *os,
                    op as int,
                    *cs,
                    cp as int,
                    k,
                    src@,
                    out@,
                )
        },
        (fuel >= 1 && flat_reconcilable(*os, op as int, *cs, cp as int) && src@.len() as int
            == spec_struct_size(*os, op as int)->Some_0) ==> (r is Ok && final(warnings)@ == old(
            warnings,
        )@),
        (fuel >= 1 && convertible_reconcilable(*os, op as int, *cs, cp as int) && src@.len() as int
            == spec_struct_size(*os, op as int)->Some_0) ==> r is Ok,
    decreases fuel,
{
    let ghost cf = cs.structs@[cp as int].fields@;
    let ghost of = os.structs@[op as int].fields@;
    if fuel == 0 {
        return Err(DnaError::FormatError);
    }
    let tc = match struct_size(cs, cp) {
        Ok(v) => v,
        Err(e) => { return Err(e) },
    };
    let to = match struct_size(os, op) {
        Ok(v) => v,
        Err(e) => { return Err(e) },
    };
    if src.len() != to {
        return Err(DnaError::TruncatedInputError);
    }
    proof {
        lemma_field_size_all_nonneg(*cs, cf);
        lemma_size_fields_defined(*cs, cf, cf.len() as nat);
        lemma_field_size_all_nonneg(*os, of);
        lemma_size_fields_defined(*os, of, of.len() as nat);
    }
    let ghost w0 = warnings@;
    let mut out: Vec<u8> = Vec::new();
    let n = cs.structs[cp].fields.len();
    let mut k: usize = 0;
    while k < n
        invariant
            sdna_wf(*os),
            sdna_wf(*cs),
            op < os.structs@.len(),
            cp < cs.structs@.len(),
            cf == cs.structs@[cp as int].fields@,
            of == os.structs@[op as int].fields@,
            n == cf.len(),
            k <= n,
            fuel >= 1,
            spec_struct_size(*cs, cp as int) == Some(tc as int),
            spec_struct_size(*os, op as int) == Some(to as int),
            src@.len() == to,
            forall|x: int|
                0 <= x < cf.len() ==> (#[trigger] spec_field_size(*cs, cf[x])) is Some
                    && spec_field_size(*cs, cf[x])->Some_0 >= 0,
            forall|x: int|
                0 <= x < of.len() ==> (#[trigger] spec_field_size(*os, of[x])) is Some
                    && spec_field_size(*os, of[x])->Some_0 >= 0,
            size_of_fields(*cs, cf, k as nat) == Some(out@.len() as int),
            forall|x: int|
                0 <= x < k ==> reconciled_field_ok(*os, op as int, *cs, cp as int, x, src@, out@),
            flat_reconcilable(*os, op as int, *cs, cp as int) ==> warnings@ == w0,
        decreases n - k,
    {
        let ghost out0 = out@;
        let f = cs.structs[cp].fields[k];
        let fi_c = match field_info(cs, f) {
            Ok(v) => v,
            Err(_) => {
                proof {
                    lemma_size_prefix(*cs, cf, (k + 1) as nat, n as nat);
                    lemma_size_prefix(*cs, cf, k as nat, n as nat);
                    assert(false);
                }
                return Err(DnaError::FormatError);
            },
        };
        proof {
            lemma_size_prefix(*cs, cf, (k + 1) as nat, n as nat);
            lemma_size_prefix(*cs, cf, k as nat, n as nat);
        }
        let found = find_old_field(os, op, fi_c.base.as_slice());
        proof {
            lemma_find_member_range(*os, of, fi_c.base@, of.len() as nat);
        }
        match found {
            None => {
                push_zeroes(&mut out, fi_c.size);
                proof {
                    assert(out@.subrange(out0.len() as int, out0.len() + fi_c.size) =~= Seq::new(
                        fi_c.size as nat,
                        |x: int| 0u8,
                    ));
                }
            },
            Some((j, ooff)) => {
                let fo = os.structs[op].fields[j];
                let fi_o = match field_info(os, fo) {
                    Ok(v) => v,
                    Err(_) => {
                        proof {
                            lemma_size_prefix(*os, of, (j + 1) as nat, of.len() as nat);
                            lemma_size_prefix(*os, of, j as nat, of.len() as nat);
                            assert(false);
                        }
                        return Err(DnaError::FormatError);
                    },
                };
                let otn = &os.types[fo.type_idx as usize];
                let tt = match alias_lookup(&os.alias.types, otn.as_slice()) {
                    Some(t) => t,
                    None => clone_bytes(otn),
                };
                proof {
                    assert(tt@ == translated_type(*os, of[j as int]));
                }
                let types_eq = bytes_eq(tt.as_slice(), cs.types[f.type_idx as usize].as_slice());
                let is_fast = types_eq && fi_o.size == fi_c.size && fi_o.is_ptr == fi_c.is_ptr;
                proof {
                    assert(is_fast == fast_path(*os, of[j as int], *cs, cf[k as int]));
                    if !is_fast {
                        assert(!flat_reconcilable(*os, op as int, *cs, cp as int)) by {
                            if flat_reconcilable(*os, op as int, *cs, cp as int) {
                                assert(find_member(
                                    *os,
                                    of,
                                    base_of(member_name(*cs, cf[k as int])),
                                    of.len() as nat,
                                ) == Some(j as int));
                            }
                        }
                    }
                }
                if is_fast {
                    proof {
                        lemma_size_prefix(*os, of, (j + 1) as nat, of.len() as nat);
                    }
                    push_copy(&mut out, src, ooff, fi_c.size);
                } else if fi_o.is_ptr && fi_c.is_ptr {
                    let opsz = os.pointer_size as usize;
                    let cpsz = cs.pointer_size as usize;
                    proof {
                        lemma_size_prefix(*os, of, (j + 1) as nat, of.len() as nat);
                        assert(fi_o.alen as int * opsz as int == fi_o.size as int);
                        assert(fi_c.alen as int * cpsz as int == fi_c.size as int);
                    }
                    push_ptr_elems(
                        &mut out,
                        src,
                        ooff,
                        fi_o.alen,
                        fi_c.alen,
                        opsz,
                        cpsz,
                        os.big_endian,
                        cs.big_endian,
                    );
                    if fi_o.alen > fi_c.alen {
                        warnings.push(
                            LossyConversionWarning {
                                member: clone_bytes(&cs.names[f.name_idx as usize]),
                                kind: LossKind::ShorterArray,
                            },
                        );
                    }
                    if opsz > cpsz {
                        warnings.push(
                            LossyConversionWarning {
                                member: clone_bytes(&cs.names[f.name_idx as usize]),
                                kind: LossKind::Narrowed,
                            },
                        );
                    }
                } else {
                    let mut done = false;
                    if !fi_o.is_ptr && !fi_c.is_ptr {
                        let okind = prim_kind(tt.as_slice());
                        let ckind = prim_kind(cs.types[f.type_idx as usize].as_slice());
                        match (okind, ckind) {
                            (Some((ow, ssigned)), Some((cw, csigned))) => {
                                if fi_o.elem == ow && fi_c.elem == cw {
                                    proof {
                                        lemma_size_prefix(*os, of, (j + 1) as nat, of.len() as nat);
                                        assert(fi_o.alen as int * ow as int == fi_o.size as int);
                                        assert(fi_c.alen as int * cw as int == fi_c.size as int);
                                    }
                                    push_int_elems(
                                        &mut out,
                                        src,
                                        ooff,
                                        fi_o.alen,
                                        fi_c.alen,
                                        ow,
                                        cw,
                                        ssigned,
                                        os.big_endian,
                                        cs.big_endian,
                                    );
                                    if cw < ow || ssigned != csigned {
                                        warnings.push(
                                            LossyConversionWarning {
                                                member: clone_bytes(
                                                    &cs.names[f.name_idx as usize],
                                                ),
                                                kind: LossKind::Narrowed,
                                            },
                                        );
                                    }
                                    if fi_o.alen > fi_c.alen {
                                        warnings.push(
                                            LossyConversionWarning {
                                                member: clone_bytes(
                                                    &cs.names[f.name_idx as usize],
                                                ),
                                                kind: LossKind::ShorterArray,
                                            },
                                        );
                                    }
                                    done = true;
                                }
                            },
                            _ => {},
                        }
                    }
                    if !done && !fi_o.is_ptr && !fi_c.is_ptr && types_eq {
                        proof {
                            assert(!convertible_reconcilable(*os, op as int, *cs, cp as int)) by {
                                if convertible_reconcilable(*os, op as int, *cs, cp as int) {
                                    assert(find_member(
                                        *os,
                                        of,
                                        base_of(member_name(*cs, cf[k as int])),
                                        of.len() as nat,
                                    ) == Some(j as int));
                                    assert(convertible_pair(*os, of[j as int], *cs, cf[k as int]));
                                }
                            }
                        }
                        let onp_opt = os.lookup_struct(otn.as_slice());
                        let cnp_opt = cs.lookup_struct(cs.types[f.type_idx as usize].as_slice());
                        match (onp_opt, cnp_opt) {
                            (Some(onp), Some(cnp)) => {
                                if onp < os.structs.len() && cnp < cs.structs.len() {
                                    let mut go = true;
                                    match struct_size(os, onp) {
                                        Ok(v) => {
                                            if v != fi_o.elem {
                                                go = false;
                                            }
                                        },
                                        Err(_) => {
                                            go = false;
                                        },
                                    }
                                    match struct_size(cs, cnp) {
                                        Ok(v) => {
                                            if v != fi_c.elem {
                                                go = false;
                                            }
                                        },
                                        Err(_) => {
                                            go = false;
                                        },
                                    }
                                    if go {
                                        proof {
                                            lemma_size_prefix(*os, of, (j + 1) as nat, of.len() as nat);
                                            assert(fi_o.alen as int * fi_o.elem as int
                                                == fi_o.size as int);
                                            assert(fi_c.alen as int * fi_c.elem as int
                                                == fi_c.size as int);
                                        }
                                        let m = if fi_o.alen < fi_c.alen {
                                            fi_o.alen
                                        } else {
                                            fi_c.alen
                                        };
                                        let mut e: usize = 0;
                                        while e < m
                                            invariant
                                                sdna_wf(*os),
                                                sdna_wf(*cs),
                                                onp < os.structs@.len(),
                                                cnp < cs.structs@.len(),
                                                e <= m,
                                                m <= fi_o.alen,
                                                m <= fi_c.alen,
                                                fuel >= 1,
                                                spec_struct_size(*os, onp as int) == Some(
                                                    fi_o.elem as int,
                                                ),
                                                spec_struct_size(*cs, cnp as int) == Some(
                                                    fi_c.elem as int,
                                                ),
                                                fi_o.alen as int * fi_o.elem as int
                                                    == fi_o.size as int,
                                                fi_c.alen as int * fi_c.elem as int
                                                    == fi_c.size as int,
                                                ooff + fi_o.size <= src@.len(),
                                                src@.len() == to,
                                                out@.len() == out0.len() + e as int
                                                    * fi_c.elem as int,
                                                out@.subrange(0, out0.len() as int) == out0,
                                                !flat_reconcilable(*os, op as int, *cs, cp as int),
                                                !convertible_reconcilable(
                                                    *os,
                                                    op as int,
                                                    *cs,
                                                    cp as int,
                                                ),
                                            decreases m - e,
                                        {
                                            proof {
                                                lemma_mul_le(e as int, fi_o.alen as int, fi_o.elem as int);
                                                lemma_mul_le(e + 1, fi_o.alen as int, fi_o.elem as int);
                                                lemma_mul_push(e as int, fi_o.elem as int);
                                            }
                                            let mut elembuf: Vec<u8> = Vec::new();
                                            push_copy(
                                                &mut elembuf,
                                                src,
                                                ooff + e * fi_o.elem,
                                                fi_o.elem,
                                            );
                                            let res = match reconcile_inner(
                                                os,
                                                onp,
                                                cs,
                                                cnp,
                                                elembuf.as_slice(),
                                                fuel - 1,
                                                warnings,
                                            ) {
                                                Ok(v) => v,
                                                Err(e2) => { return Err(e2) },
                                            };
                                            push_copy(&mut out, res.as_slice(), 0, res.len());
                                            proof {
                                                lemma_mul_push(e as int, fi_c.elem as int);
                                                assert(out@.subrange(0, out0.len() as int)
                                                    =~= out0);
                                            }
                                            e += 1;
                                        }
                                        proof {
                                            lemma_mul_split(m as int, fi_c.alen as int, fi_c.elem as int);
                                            lemma_mul_le(
                                                (fi_c.alen - m) as int,
                                                fi_c.alen as int,
                                                fi_c.elem as int,
                                            );
                                        }
                                        let rest = (fi_c.alen - m) * fi_c.elem;
                                        push_zeroes(&mut out, rest);
                                        proof {
                                            assert(out@.subrange(0, out0.len() as int) =~= out0);
                                        }
                                        if fi_o.alen > fi_c.alen {
                                            warnings.push(
                                                LossyConversionWarning {
                                                    member: clone_bytes(
                                                        &cs.names[f.name_idx as usize],
                                                    ),
                                                    kind: LossKind::ShorterArray,
                                                },
                                            );
                                        }
                                        done = true;
                                    }
                                }
                            },
                            _ => {},
                        }
                    }
                    if !done {
                        push_zeroes(&mut out, fi_c.size);
                        warnings.push(
                            LossyConversionWarning {
                                member: clone_bytes(&cs.names[f.name_idx as usize]),
                                kind: LossKind::NoRule,
                            },
                        );
                    }
                }
            },
        }
        proof {
            assert(out@.len() == out0.len() + fi_c.size as int);
            assert(out@.subrange(0, out0.len() as int) =~= out0);
            assert(size_of_fields(*cs, cf, (k + 1) as nat) == Some(out@.len() as int));
            assert(reconciled_field_ok(*os, op as int, *cs, cp as int, k as int, src@, out@)) by {
                let m = find_member(*os, of, base_of(member_name(*cs, cf[k as int])), of.len() as nat);
                if m is Some {
                    let j = m->Some_0;
                    if fast_path(*os, of[j], *cs, cf[k as int]) && size_of_fields(
                        *os,
                        of,
                        j as nat,
                    ) is Some {
                        assert(out@.subrange(out0.len() as int, out0.len() + fi_c.size)
                            =~= src@.subrange(
                            size_of_fields(*os, of, j as nat)->Some_0,
                            size_of_fields(*os, of, j as nat)->Some_0 + fi_c.size,
                        ));
                    }
                }
            }
            assert forall|x: int|
                0 <= x < k + 1 implies reconciled_field_ok(
                *os,
                op as int,
                *cs,
                cp as int,
                x,
                src@,
                out@,
            ) by {
                if x < k {
                    assert(reconciled_field_ok(*os, op as int, *cs, cp as int, x, src@, out0));
                    lemma_size_prefix(*cs, cf, x as nat, k as nat);
                    lemma_size_prefix(*cs, cf, (x + 1) as nat, k as nat);
                    let offx = size_of_fields(*cs, cf, x as nat)->Some_0;
                    let szx = spec_field_size(*cs, cf[x])->Some_0;
                    assert(offx + szx <= out0.len());
                    assert forall|q: int| 0 <= q < szx implies (#[trigger] out@.subrange(
                        offx,
                        offx + szx,
                    )[q]) == out0.subrange(offx, offx + szx)[q] by {
                        assert(out@.subrange(0, out0.len() as int)[offx + q] == out0[offx + q]);
                    }
                    assert(out@.subrange(offx, offx + szx) =~= out0.subrange(offx, offx + szx));
                }
            }
        }
        k += 1;
    }
    proof {
        assert(size_of_fields(*cs, cf, n as nat) == Some(out@.len() as int));
    }
    Ok(out)
}

/// Converts a byte buffer encoded under the old struct definition at
/// `old_pos` of `old_sdna` into the shape of the current definition at
/// `cur_pos` of `cur_sdna`.  Added members come out zero, members matched
/// with identical type and size are copied verbatim, and warnings report
/// what was lost; on any failure nothing is published.
pub fn reconcile(
    old_sdna: &SDNA,
    old_pos: usize,
    cur_sdna: &SDNA,
    cur_pos: usize,
    src: &[u8],
) -> (r: Result<(Vec<u8>, Vec<LossyConversionWarning>), DnaError>)
    requires
        sdna_wf(*old_sdna),
        sdna_wf(*cur_sdna),
    ensures
        r matches Ok(p) ==> {
            &&& old_pos < old_sdna.structs@.len()
            &&& cur_pos < cur_sdna.structs@.len()
            &&& spec_struct_size(*cur_sdna, cur_pos as int) == Some(p.0@.len() as int)
            &&& spec_struct_size(*old_sdna, old_pos as int) == Some(src@.len() as int)
            &&& forall|k: int|
                0 <= k < cur_sdna.structs@[cur_pos as int].fields@.len() ==> reconciled_field_ok(
                    *old_sdna,
                    old_pos as int,
                    *cur_sdna,
                    cur_pos as int,
                    k,
                    src@,
                    p.0@,
                )
        },
        (old_pos < old_sdna.structs@.len() && cur_pos < cur_sdna.structs@.len()
            && flat_reconcilable(*old_sdna, old_pos as int, *cur_sdna, cur_pos as int)
            && src@.len() as int == spec_struct_size(*old_sdna, old_pos as int)->Some_0) ==> (
        r matches Ok(p) && p.1@.len() == 0),
        (old_pos < old_sdna.structs@.len() && cur_pos < cur_sdna.structs@.len()
            && convertible_reconcilable(*old_sdna, old_pos as int, *cur_sdna, cur_pos as int)
            && src@.len() as int == spec_struct_size(*old_sdna, old_pos as int)->Some_0) ==> r
            is Ok,
{
    if old_pos >= old_sdna.structs.len() || cur_pos >= cur_sdna.structs.len() {
        return Err(DnaError::CorruptIndexError);
    }
    let mut warnings: Vec<LossyConversionWarning> = Vec::new();
    let fuel = cur_sdna.structs.len();
    match reconcile_inner(old_sdna, old_pos, cur_sdna, cur_pos, src, fuel, &mut warnings) {
        Ok(out) => Ok((out, warnings)),
        Err(e) => Err(e),
    }
}

/// The old and current struct definitions spell the same layout: equal
/// member names, equal type names, equal member sizes, in the same order.
pub open spec fn identical_layout(os: SDNA, op: int, cs: SDNA, cp: int) -> bool {
    let of = os.structs@[op].fields@;
    let cf = cs.structs@[cp].fields@;
    &&& of.len() == cf.len()
    &&& forall|i: int|
        0 <= i < of.len() ==> member_name(os, #[trigger] of[i]) == member_name(cs, cf[i])
    &&& forall|i: int|
        0 <= i < of.len() ==> type_name_of_field(os, #[trigger] of[i]) == type_name_of_field(
            cs,
            cf[i],
        )
    &&& forall|i: int|
        0 <= i < of.len() ==> spec_field_size(os, #[trigger] of[i]) == spec_field_size(cs, cf[i])
}

/// No alias applies to any member or type name of the old struct.
pub open spec fn alias_neutral(os: SDNA, op: int) -> bool {
    let of = os.structs@[op].fields@;
    forall|i: int|
        0 <= i < of.len() ==> alias_find(
            os.alias.names@,
            base_of(member_name(os, #[trigger] of[i])),
        ) is None && alias_find(os.alias.types@, type_name_of_field(os, of[i])) is None
}

/// No two members of the current struct share a base name.
pub open spec fn distinct_bases(cs: SDNA, cp: int) -> bool {
    let cf = cs.structs@[cp].fields@;
    forall|i: int, j: int|
        0 <= i < j < cf.len() ==> base_of(member_name(cs, #[trigger] cf[i])) != base_of(
            member_name(cs, #[trigger] cf[j]),
        )
}

/// A target matched at `p` and nowhere earlier is found at `p`.
proof fn lemma_find_member_hits(os: SDNA, fields: Seq<FieldDef>, target: Seq<u8>, p: int, n: nat)
    requires
        0 <= p < n,
        translated_base(os, fields[p]) == target,
        forall|q: int| 0 <= q < p ==> #[trigger] translated_base(os, fields[q]) != target,
    ensures
        find_member(os, fields, target, n) == Some(p),
    decreases n,
{
    if p == n - 1 {
        lemma_find_member_misses(os, fields, target, (n - 1) as nat);
    } else {
        lemma_find_member_hits(os, fields, target, p, (n - 1) as nat);
    }
}

/// Identical layouts give identical member offsets.
proof fn lemma_prefix_equal(os: SDNA, op: int, cs: SDNA, cp: int, n: nat)
    requires
        0 <= op < os.structs@.len(),
        0 <= cp < cs.structs@.len(),
        identical_layout(os, op, cs, cp),
        n <= os.structs@[op].fields@.len(),
    ensures
        size_of_fields(os, os.structs@[op].fields@, n) == size_of_fields(
            cs,
            cs.structs@[cp].fields@,
            n,
        ),
    decreases n,
{
    if n > 0 {
        lemma_prefix_equal(os, op, cs, cp, (n - 1) as nat);
    }
}

/// Law: reconciling a struct against an identical layout is the identity
/// transform.  If the old and current definitions spell the same layout
/// member for member, no alias applies, no two current members share a
/// base name, and the output satisfies the per-member reconciliation
/// guarantees at the right sizes, then the output bytes equal the input
/// bytes.
pub proof fn lemma_reconcile_identity(
    os: SDNA,
    op: int,
    cs: SDNA,
    cp: int,
    src: Seq<u8>,
    out: Seq<u8>,
)
    requires
        sdna_wf(os),
        sdna_wf(cs),
        0 <= op < os.structs@.len(),
        0 <= cp < cs.structs@.len(),
        identical_layout(os, op, cs, cp),
        alias_neutral(os, op),
        distinct_bases(cs, cp),
        spec_struct_size(cs, cp) == Some(out.len() as int),
        spec_struct_size(os, op) == Some(src.len() as int),
        forall|k: int|
            0 <= k < cs.structs@[cp].fields@.len() ==> #[trigger] reconciled_field_ok(
                os,
                op,
                cs,
                cp,
                k,
                src,
                out,
            ),
    ensures
        out == src,
{
    let of = os.structs@[op].fields@;
    let cf = cs.structs@[cp].fields@;
    let ln = cf.len() as nat;
    lemma_field_size_all_nonneg(cs, cf);
    lemma_size_fields_defined(cs, cf, ln);
    lemma_field_size_all_nonneg(os, of);
    lemma_size_fields_defined(os, of, ln);
    assert forall|k: int| 0 <= k < cf.len() implies {
        &&& find_member(os, of, base_of(member_name(cs, #[trigger] cf[k])), of.len() as nat)
            == Some(k)
        &&& fast_path(os, of[k], cs, cf[k])
    } by {
        let target = base_of(member_name(cs, cf[k]));
        assert(member_name(os, of[k]) == member_name(cs, cf[k]));
        assert(translated_base(os, of[k]) == target);
        assert forall|q: int| 0 <= q < k implies #[trigger] translated_base(os, of[q])
            != target by {
            assert(base_of(member_name(cs, cf[q])) != base_of(member_name(cs, cf[k])));
        }
        lemma_find_member_hits(os, of, target, k, of.len() as nat);
        assert(translated_type(os, of[k]) == type_name_of_field(cs, cf[k]));
    }
    lemma_identity_bytes(os, op, cs, cp, src, out, ln);
    lemma_prefix_equal(os, op, cs, cp, ln);
    assert(out.subrange(0, out.len() as int) =~= out);
    assert(src.subrange(0, src.len() as int) =~= src);
}

/// The first `n` members of an identical layout carry identical bytes.
proof fn lemma_identity_bytes(os: SDNA, op: int, cs: SDNA, cp: int, src: Seq<u8>, out: Seq<u8>, n: nat)
    requires
        sdna_wf(os),
        sdna_wf(cs),
        0 <= op < os.structs@.len(),
        0 <= cp < cs.structs@.len(),
        identical_layout(os, op, cs, cp),
        spec_struct_size(cs, cp) == Some(out.len() as int),
        spec_struct_size(os, op) == Some(src.len() as int),
        n <= cs.structs@[cp].fields@.len(),
        forall|k: int|
            0 <= k < cs.structs@[cp].fields@.len() ==> #[trigger] reconciled_field_ok(
                os,
                op,
                cs,
                cp,
                k,
                src,
                out,
            ),
        forall|k: int|
            0 <= k < cs.structs@[cp].fields@.len() ==> find_member(
                os,
                os.structs@[op].fields@,
                base_of(member_name(cs, #[trigger] cs.structs@[cp].fields@[k])),
                os.structs@[op].fields@.len() as nat,
            ) == Some(k) && fast_path(os, os.structs@[op].fields@[k], cs, cs.structs@[cp].fields@[k]),
    ensures
        out.subrange(0, size_of_fields(cs, cs.structs@[cp].fields@, n)->Some_0) == src.subrange(
            0,
            size_of_fields(cs, cs.structs@[cp].fields@, n)->Some_0,
        ),
    decreases n,
{
    let of = os.structs@[op].fields@;
    let cf = cs.structs@[cp].fields@;
    lemma_field_size_all_nonneg(cs, cf);
    lemma_size_fields_defined(cs, cf, cf.len() as nat);
    lemma_field_size_all_nonneg(os, of);
    lemma_size_fields_defined(os, of, of.len() as nat);
    if n == 0 {
        assert(out.subrange(0, 0) =~= src.subrange(0, 0));
    } else {
        lemma_identity_bytes(os, op, cs, cp, src, out, (n - 1) as nat);
        let k = n - 1;
        lemma_size_prefix(cs, cf, (k) as nat, cf.len() as nat);
        lemma_size_prefix(cs, cf, n, cf.len() as nat);
        lemma_prefix_equal(os, op, cs, cp, k as nat);
        lemma_prefix_equal(os, op, cs, cp, cf.len() as nat);
        let a = size_of_fields(cs, cf, k as nat)->Some_0;
        let b = size_of_fields(cs, cf, n)->Some_0;
        let sz = spec_field_size(cs, cf[k])->Some_0;
        assert(reconciled_field_ok(os, op, cs, cp, k, src, out));
        assert(out.subrange(a, a + sz) == src.subrange(a, a + sz));
        assert(b == a + sz);
        assert(out.subrange(0, b) =~= out.subrange(0, a) + out.subrange(a, b));
        assert(src.subrange(0, b) =~= src.subrange(0, a) + src.subrange(a, b));
    }
}

} // verus!
