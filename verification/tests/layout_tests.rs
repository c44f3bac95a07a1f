use bf_dna::bhead::decode_block_header;
use bf_dna::errors::{DnaError, LossKind};
use bf_dna::reconcile::{reconcile, struct_size};
use bf_dna::sdna::load_layout;

fn push_u16(out: &mut Vec<u8>, v: u16, big: bool) {
    if big {
        out.extend_from_slice(&v.to_be_bytes());
    } else {
        out.extend_from_slice(&v.to_le_bytes());
    }
}

fn push_u32(out: &mut Vec<u8>, v: u32, big: bool) {
    if big {
        out.extend_from_slice(&v.to_be_bytes());
    } else {
        out.extend_from_slice(&v.to_le_bytes());
    }
}

fn push_name(out: &mut Vec<u8>, name: &str) {
    out.extend_from_slice(name.as_bytes());
    out.push(0);
}

/// Builds an encoded layout blob from type, name and struct descriptions.
fn build_blob(
    big: bool,
    pointer_size: u8,
    types: &[(&str, u16)],
    names: &[&str],
    structs: &[(u16, &[(u16, u16)])],
) -> Vec<u8> {
    let mut out = Vec::new();
    if big {
        out.extend_from_slice(b"ANDS");
    } else {
        out.extend_from_slice(b"SDNA");
    }
    out.push(pointer_size);
    push_u32(&mut out, types.len() as u32, big);
    for (n, sz) in types {
        push_name(&mut out, n);
        push_u16(&mut out, *sz, big);
    }
    push_u32(&mut out, names.len() as u32, big);
    for n in names {
        push_name(&mut out, n);
    }
    push_u32(&mut out, structs.len() as u32, big);
    for (ti, fields) in structs {
        push_u16(&mut out, *ti, big);
        push_u16(&mut out, fields.len() as u16, big);
        for (ft, fnm) in *fields {
            push_u16(&mut out, *ft, big);
            push_u16(&mut out, *fnm, big);
        }
    }
    out
}

fn old_vertex_blob() -> Vec<u8> {
    // Vertex { float pos[3] }, 12 bytes
    build_blob(
        false,
        8,
        &[("float", 4), ("Vertex", 12)],
        &["pos[3]"],
        &[(1, &[(0, 0)])],
    )
}

fn cur_vertex_blob() -> Vec<u8> {
    // Vertex { float pos[3]; char flag }, 13 bytes
    build_blob(
        false,
        8,
        &[("float", 4), ("char", 1), ("Vertex", 13)],
        &["pos[3]", "flag"],
        &[(2, &[(0, 0), (1, 1)])],
    )
}

#[test]
fn load_and_reencode_little_endian_roundtrip() {
    let blob = cur_vertex_blob();
    let s = load_layout(&blob).expect("valid blob");
    assert_eq!(s.encode_layout(), blob);
}

#[test]
fn load_and_reencode_big_endian_roundtrip() {
    let blob = build_blob(
        true,
        4,
        &[("int", 4), ("Thing", 8)],
        &["a", "b"],
        &[(1, &[(0, 0), (0, 1)])],
    );
    let s = load_layout(&blob).expect("valid blob");
    assert!(s.big_endian);
    assert_eq!(s.pointer_size, 4);
    assert_eq!(s.encode_layout(), blob);
}

#[test]
fn load_decodes_tables() {
    let s = load_layout(&cur_vertex_blob()).expect("valid blob");
    assert_eq!(s.types.len(), 3);
    assert_eq!(s.types[0], b"float".to_vec());
    assert_eq!(s.types_size[2], 13);
    assert_eq!(s.names.len(), 2);
    assert_eq!(s.names[0], b"pos[3]".to_vec());
    assert_eq!(s.structs.len(), 1);
    assert_eq!(s.structs[0].type_idx, 2);
    assert_eq!(s.structs[0].fields.len(), 2);
    assert_eq!(struct_size(&s, 0), Ok(13));
}

#[test]
fn load_rejects_bad_signature() {
    let mut blob = cur_vertex_blob();
    blob[0] = b'X';
    assert_eq!(load_layout(&blob).err(), Some(DnaError::FormatError));
}

#[test]
fn load_rejects_short_input() {
    let blob = cur_vertex_blob();
    assert_eq!(load_layout(&blob[..3]).err(), Some(DnaError::TruncatedInputError));
    assert_eq!(
        load_layout(&blob[..blob.len() - 1]).err(),
        Some(DnaError::TruncatedInputError)
    );
}

#[test]
fn load_rejects_unsupported_pointer_width() {
    let mut blob = cur_vertex_blob();
    blob[4] = 5;
    assert_eq!(load_layout(&blob).err(), Some(DnaError::UnsupportedPointerWidthError));
}

#[test]
fn load_rejects_out_of_range_type_index() {
    // struct refers to type 7 of 2
    let blob = build_blob(false, 8, &[("int", 4), ("T", 4)], &["a"], &[(7, &[(0, 0)])]);
    assert_eq!(load_layout(&blob).err(), Some(DnaError::CorruptIndexError));
}

#[test]
fn load_rejects_trailing_bytes() {
    let mut blob = cur_vertex_blob();
    blob.push(0);
    assert_eq!(load_layout(&blob).err(), Some(DnaError::FormatError));
}

#[test]
fn resolve_finds_each_struct_and_alias() {
    let mut s = load_layout(&cur_vertex_blob()).expect("valid blob");
    assert_eq!(s.resolve(b"Vertex"), Some(0));
    assert_eq!(s.resolve(b"Missing"), None);
    s.add_type_alias(b"VertexOld".to_vec(), b"Vertex".to_vec());
    assert_eq!(s.resolve(b"VertexOld"), Some(0));
    assert_eq!(s.lookup_struct(b"VertexOld"), Some(0));
}

#[test]
fn reconcile_identical_layout_is_identity() {
    let s = load_layout(&old_vertex_blob()).expect("valid blob");
    let mut src = Vec::new();
    for v in [1.0f32, 2.0, 3.0] {
        src.extend_from_slice(&v.to_le_bytes());
    }
    let (out, warnings) = reconcile(&s, 0, &s, 0, &src).expect("reconcile");
    assert_eq!(out, src);
    assert_eq!(warnings.len(), 0);
}

#[test]
fn reconcile_added_field_defaults_to_zero() {
    // P6 scenario: old Vertex{pos:f32[3]}, current adds flag:u8.
    let old = load_layout(&old_vertex_blob()).expect("valid blob");
    let cur = load_layout(&cur_vertex_blob()).expect("valid blob");
    let mut src = Vec::new();
    for v in [1.0f32, 2.0, 3.0] {
        src.extend_from_slice(&v.to_le_bytes());
    }
    let (out, warnings) = reconcile(&old, 0, &cur, 0, &src).expect("reconcile");
    assert_eq!(out.len(), 13);
    assert_eq!(&out[..12], &src[..]);
    assert_eq!(out[12], 0);
    assert_eq!(warnings.len(), 0);
    let pos = [
        f32::from_le_bytes([out[0], out[1], out[2], out[3]]),
        f32::from_le_bytes([out[4], out[5], out[6], out[7]]),
        f32::from_le_bytes([out[8], out[9], out[10], out[11]]),
    ];
    assert_eq!(pos, [1.0, 2.0, 3.0]);
}

#[test]
fn reconcile_removed_field_never_errors() {
    // P5: flag exists in old, not in current; conversion succeeds.
    let old = load_layout(&cur_vertex_blob()).expect("valid blob");
    let cur = load_layout(&old_vertex_blob()).expect("valid blob");
    let mut src = Vec::new();
    for v in [4.0f32, 5.0, 6.0] {
        src.extend_from_slice(&v.to_le_bytes());
    }
    src.push(0x7F);
    let (out, warnings) = reconcile(&old, 0, &cur, 0, &src).expect("reconcile");
    assert_eq!(out.len(), 12);
    assert_eq!(&out[..], &src[..12]);
    assert_eq!(warnings.len(), 0);
}

#[test]
fn reconcile_undefined_pair_warns_and_zeroes() {
    // Same member name, incompatible types: no rule is defined.
    let old = build_blob(false, 8, &[("float", 4), ("S", 4)], &["x"], &[(1, &[(0, 0)])]);
    let cur = build_blob(false, 8, &[("double", 8), ("S", 8)], &["x"], &[(1, &[(0, 0)])]);
    let old = load_layout(&old).expect("valid blob");
    let cur = load_layout(&cur).expect("valid blob");
    let src = 1.5f32.to_le_bytes().to_vec();
    let (out, warnings) = reconcile(&old, 0, &cur, 0, &src).expect("reconcile");
    assert_eq!(out, vec![0u8; 8]);
    assert_eq!(warnings.len(), 1);
    assert_eq!(warnings[0].kind, LossKind::NoRule);
    assert_eq!(warnings[0].member, b"x".to_vec());
}

#[test]
fn reconcile_widens_old_addresses() {
    // A 4-byte old address is zero-extended to 8 bytes.
    let old = build_blob(false, 4, &[("void", 0), ("Link", 4)], &["*next"], &[(1, &[(0, 0)])]);
    let cur = build_blob(false, 8, &[("void", 0), ("Link", 8)], &["*next"], &[(1, &[(0, 0)])]);
    let old = load_layout(&old).expect("valid blob");
    let cur = load_layout(&cur).expect("valid blob");
    let src = 0xAABBCCDDu32.to_le_bytes().to_vec();
    let (out, warnings) = reconcile(&old, 0, &cur, 0, &src).expect("reconcile");
    assert_eq!(out, 0xAABBCCDDu64.to_le_bytes().to_vec());
    assert_eq!(warnings.len(), 0);
}

#[test]
fn reconcile_recurses_into_changed_nested_struct() {
    // Inner grows a field; outer embeds one Inner.
    let old = build_blob(
        false,
        8,
        &[("int", 4), ("Inner", 4), ("Outer", 4)],
        &["a", "inner"],
        &[(1, &[(0, 0)]), (2, &[(1, 1)])],
    );
    let cur = build_blob(
        false,
        8,
        &[("int", 4), ("Inner", 8), ("Outer", 8)],
        &["a", "b", "inner"],
        &[(1, &[(0, 0), (0, 1)]), (2, &[(1, 2)])],
    );
    let old = load_layout(&old).expect("valid blob");
    let cur = load_layout(&cur).expect("valid blob");
    let src = 0x11223344u32.to_le_bytes().to_vec();
    let (out, warnings) = reconcile(&old, 1, &cur, 1, &src).expect("reconcile");
    assert_eq!(out.len(), 8);
    assert_eq!(&out[..4], &src[..]);
    assert_eq!(&out[4..], &[0u8; 4]);
    assert_eq!(warnings.len(), 0);
}

#[test]
fn reconcile_rejects_wrong_source_length() {
    let s = load_layout(&old_vertex_blob()).expect("valid blob");
    let short = vec![0u8; 7];
    assert!(reconcile(&s, 0, &s, 0, &short).is_err());
    assert_eq!(
        reconcile(&s, 0, &s, 0, &vec![0u8; 99]).err(),
        Some(DnaError::TruncatedInputError)
    );
}

#[test]
fn reconcile_rejects_bad_positions() {
    let s = load_layout(&old_vertex_blob()).expect("valid blob");
    assert_eq!(
        reconcile(&s, 9, &s, 0, &vec![0u8; 12]).err(),
        Some(DnaError::CorruptIndexError)
    );
}

#[test]
fn renamed_member_matches_through_alias() {
    // Old calls the member "oldpos"; the alias table maps it to "pos".
    let old_blob = build_blob(false, 8, &[("float", 4), ("Vertex", 12)], &["oldpos[3]"], &[(
        1,
        &[(0, 0)],
    )]);
    let mut old = load_layout(&old_blob).expect("valid blob");
    old.add_name_alias(b"oldpos".to_vec(), b"pos".to_vec());
    let cur = load_layout(&old_vertex_blob()).expect("valid blob");
    let mut src = Vec::new();
    for v in [7.0f32, 8.0, 9.0] {
        src.extend_from_slice(&v.to_le_bytes());
    }
    let (out, warnings) = reconcile(&old, 0, &cur, 0, &src).expect("reconcile");
    assert_eq!(out, src);
    assert_eq!(warnings.len(), 0);
}

#[test]
fn decode_block_header_eight_byte_scenario() {
    // P7 scenario: code=1337, length=24, old=0xdeadbeef, struct_index=5, count=2.
    let mut bytes = Vec::new();
    bytes.extend_from_slice(&1337i32.to_le_bytes());
    bytes.extend_from_slice(&24i32.to_le_bytes());
    bytes.extend_from_slice(&0xdeadbeefu64.to_le_bytes());
    bytes.extend_from_slice(&5i32.to_le_bytes());
    bytes.extend_from_slice(&2i32.to_le_bytes());
    let h = decode_block_header(&bytes, 8, false).expect("header");
    assert_eq!(h.code, 1337);
    assert_eq!(h.len, 24);
    assert_eq!(h.old, 0xdeadbeefu64);
    assert_eq!(h.SDNAnr, 5);
    assert_eq!(h.nr, 2);
}

#[test]
fn decode_block_header_four_byte_widens() {
    let mut bytes = Vec::new();
    bytes.extend_from_slice(&7i32.to_le_bytes());
    bytes.extend_from_slice(&16i32.to_le_bytes());
    bytes.extend_from_slice(&0xCAFEBABEu32.to_le_bytes());
    bytes.extend_from_slice(&0i32.to_le_bytes());
    bytes.extend_from_slice(&1i32.to_le_bytes());
    let h = decode_block_header(&bytes, 4, false).expect("header");
    assert_eq!(h.old, 0xCAFEBABEu64);
}

#[test]
fn decode_block_header_rejects_short_input() {
    let bytes = vec![0u8; 19];
    assert_eq!(
        decode_block_header(&bytes, 4, false).err(),
        Some(DnaError::TruncatedInputError)
    );
}

#[test]
fn read_block_header_validates_struct_reference() {
    let s = load_layout(&cur_vertex_blob()).expect("valid blob");
    let mut bytes = Vec::new();
    bytes.extend_from_slice(&1i32.to_le_bytes());
    bytes.extend_from_slice(&13i32.to_le_bytes());
    bytes.extend_from_slice(&0u64.to_le_bytes());
    bytes.extend_from_slice(&5i32.to_le_bytes());
    bytes.extend_from_slice(&1i32.to_le_bytes());
    assert_eq!(s.read_block_header(&bytes).err(), Some(DnaError::CorruptIndexError));
    let mut ok = Vec::new();
    ok.extend_from_slice(&1i32.to_le_bytes());
    ok.extend_from_slice(&13i32.to_le_bytes());
    ok.extend_from_slice(&0u64.to_le_bytes());
    ok.extend_from_slice(&0i32.to_le_bytes());
    ok.extend_from_slice(&1i32.to_le_bytes());
    assert_eq!(s.read_block_header(&ok).expect("header").SDNAnr, 0);
}

#[test]
fn reconcile_widens_signed_integer() {
    let old = build_blob(false, 8, &[("short", 2), ("S", 2)], &["x"], &[(1, &[(0, 0)])]);
    let cur = build_blob(false, 8, &[("int", 4), ("S", 4)], &["x"], &[(1, &[(0, 0)])]);
    let old = load_layout(&old).expect("valid blob");
    let cur = load_layout(&cur).expect("valid blob");
    let src = (-5i16).to_le_bytes().to_vec();
    let (out, warnings) = reconcile(&old, 0, &cur, 0, &src).expect("reconcile");
    assert_eq!(out, (-5i32).to_le_bytes().to_vec());
    assert_eq!(warnings.len(), 0);
}

#[test]
fn reconcile_narrows_integer_with_warning() {
    let old = build_blob(false, 8, &[("int", 4), ("S", 4)], &["x"], &[(1, &[(0, 0)])]);
    let cur = build_blob(false, 8, &[("char", 1), ("S", 1)], &["x"], &[(1, &[(0, 0)])]);
    let old = load_layout(&old).expect("valid blob");
    let cur = load_layout(&cur).expect("valid blob");
    let src = 0x01020304i32.to_le_bytes().to_vec();
    let (out, warnings) = reconcile(&old, 0, &cur, 0, &src).expect("reconcile");
    assert_eq!(out, vec![0x04u8]);
    assert_eq!(warnings.len(), 1);
    assert_eq!(warnings[0].kind, LossKind::Narrowed);
}

#[test]
fn reconcile_widens_unsigned_integer() {
    let old = build_blob(false, 8, &[("uchar", 1), ("S", 1)], &["x"], &[(1, &[(0, 0)])]);
    let cur = build_blob(false, 8, &[("uint", 4), ("S", 4)], &["x"], &[(1, &[(0, 0)])]);
    let old = load_layout(&old).expect("valid blob");
    let cur = load_layout(&cur).expect("valid blob");
    let src = vec![200u8];
    let (out, warnings) = reconcile(&old, 0, &cur, 0, &src).expect("reconcile");
    assert_eq!(out, 200u32.to_le_bytes().to_vec());
    assert_eq!(warnings.len(), 0);
}

#[test]
fn reconcile_big_endian_integer_conversion() {
    let old = build_blob(true, 8, &[("short", 2), ("S", 2)], &["x"], &[(1, &[(0, 0)])]);
    let cur = build_blob(true, 8, &[("int", 4), ("S", 4)], &["x"], &[(1, &[(0, 0)])]);
    let old = load_layout(&old).expect("valid blob");
    let cur = load_layout(&cur).expect("valid blob");
    let src = 300i16.to_be_bytes().to_vec();
    let (out, warnings) = reconcile(&old, 0, &cur, 0, &src).expect("reconcile");
    assert_eq!(out, 300i32.to_be_bytes().to_vec());
    assert_eq!(warnings.len(), 0);
}
