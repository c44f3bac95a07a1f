use bf_dna::arena::MemArena;
use bf_dna::ghash::GHash;
use bf_dna::meshdata::{MCol, MLoopCol, MESH_MLOOPCOL_FROM_MCOL, MESH_MLOOPCOL_TO_MCOL};
use bf_dna::meshdata::{MEdgeFlag, MVertFlag};
use bf_dna::pool::BLI_mempool;
use bf_dna::sdna::{AliasTable, FieldDef, SDNA, StructDef, load_layout};

#[test]
fn pool_churn_keeps_minimum_chunk_count() {
    // Matched allocate/free cycles with no net retained allocations.
    let mut pool = BLI_mempool::new(16, 4);
    for _ in 0..100 {
        let slot = pool.allocate();
        pool.free(slot);
    }
    assert_eq!(pool.chunk_count(), 1);
    assert_eq!(pool.used_count(), 0);
}

#[test]
fn pool_grows_only_when_needed() {
    let mut pool = BLI_mempool::new(16, 4);
    let mut slots = Vec::new();
    for _ in 0..9 {
        slots.push(pool.allocate());
    }
    assert_eq!(pool.chunk_count(), 3);
    assert_eq!(pool.used_count(), 9);
    for s in slots {
        pool.free(s);
    }
    assert_eq!(pool.chunk_count(), 3);
    assert_eq!(pool.used_count(), 0);
    // Reuse drains the free list before any chunk is added.
    for _ in 0..9 {
        pool.allocate();
    }
    assert_eq!(pool.chunk_count(), 3);
}

#[test]
fn pool_free_stamps_sentinel() {
    let mut pool = BLI_mempool::new(16, 4);
    let slot = pool.allocate();
    pool.free(slot);
    // "FREEWORD" little-endian
    let expected = [0x46, 0x52, 0x45, 0x45, 0x57, 0x4F, 0x52, 0x44];
    for (k, b) in expected.iter().enumerate() {
        assert_eq!(pool.slot_byte(slot, k), *b);
    }
}

#[test]
fn arena_aligns_and_separates_regions() {
    let mut arena = MemArena::new(64, 8, true);
    assert_eq!(arena.chunk_count(), 0);
    let (b0, o0) = arena.acquire(10);
    let (b1, o1) = arena.acquire(3);
    assert_eq!(arena.chunk_count(), 1);
    assert_eq!((b0, o0), (0, 0));
    assert_eq!(b1, 0);
    assert_eq!(o1 % 8, 0);
    assert!(o1 >= 10);
    arena.write_byte(b0, o0, 0xAB);
    arena.write_byte(b1, o1, 0xCD);
    assert_eq!(arena.read_byte(b0, o0), 0xAB);
    assert_eq!(arena.read_byte(b1, o1), 0xCD);
    // A request larger than the remaining room links a new chunk.
    let (b2, o2) = arena.acquire(60);
    assert_eq!(b2, 1);
    assert_eq!(o2, 0);
    assert_eq!(arena.chunk_count(), 2);
}

#[test]
fn ghash_grows_past_load_factor_and_keeps_entries() {
    // 8 initial buckets grow once the entry count passes three per bucket;
    // every earlier mapping must survive.
    let mut g = GHash::new();
    let mut keys = Vec::new();
    for i in 0..60 {
        keys.push(format!("name{}", i).into_bytes());
    }
    for (i, k) in keys.iter().enumerate() {
        g.insert(k.clone(), i);
    }
    for (i, k) in keys.iter().enumerate() {
        assert_eq!(g.lookup(k.as_slice()), Some(i));
    }
    assert_eq!(g.lookup(b"absent"), None);
    assert!(g.buckets.len() > 8);
}

#[test]
fn ghash_first_insert_wins() {
    let mut g = GHash::new();
    g.insert(b"dup".to_vec(), 1);
    g.insert(b"dup".to_vec(), 2);
    assert_eq!(g.lookup(b"dup"), Some(1));
}

#[test]
fn resolve_survives_index_growth() {
    // A table with enough structs to grow the lookup index.
    let mut types = Vec::new();
    let mut structs = Vec::new();
    for i in 0..40 {
        types.push(format!("S{}", i).into_bytes());
        structs.push(StructDef { type_idx: i as u16, fields: Vec::new() });
    }
    let mut s = SDNA {
        types,
        types_size: vec![4u16; 40],
        names: Vec::new(),
        structs,
        pointer_size: 8,
        big_endian: false,
        structs_map: None,
        alias: AliasTable { types: Vec::new(), names: Vec::new() },
    };
    for i in 0..40 {
        let name = format!("S{}", i).into_bytes();
        assert_eq!(s.resolve(name.as_slice()), Some(i));
    }
}

#[test]
fn fielddef_compares_by_fields() {
    let f = FieldDef { type_idx: 3, name_idx: 7 };
    assert!(f == FieldDef { type_idx: 3, name_idx: 7 });
    assert!(f != FieldDef { type_idx: 3, name_idx: 8 });
    assert!(load_layout(b"SDNA").is_err());
}

#[test]
fn mloopcol_mcol_roundtrip_swaps_red_and_blue() {
    let mcol = MCol { a: 1, r: 2, g: 3, b: 4 };
    let mut lc = MLoopCol { r: 0, g: 0, b: 0, a: 0 };
    MESH_MLOOPCOL_FROM_MCOL(&mut lc, &mcol);
    assert_eq!((lc.r, lc.g, lc.b, lc.a), (4, 3, 2, 1));
    let mut back = MCol { a: 0, r: 0, g: 0, b: 0 };
    MESH_MLOOPCOL_TO_MCOL(&lc, &mut back);
    assert_eq!((back.a, back.r, back.g, back.b), (1, 2, 3, 4));
}

#[test]
fn flag_bits_match_their_positions() {
    assert_eq!(MVertFlag::ME_HIDE.bits(), 16);
    assert_eq!(MVertFlag::ME_VERT_PBVH_UPDATE.bits(), 128);
    assert_eq!(MEdgeFlag::ME_SHARP.bits(), 512);
}

#[test]
fn ghash_remove_unmaps_and_keeps_others() {
    let mut g = GHash::new();
    g.insert(b"one".to_vec(), 1);
    g.insert(b"two".to_vec(), 2);
    g.remove(b"one");
    assert_eq!(g.lookup(b"one"), None);
    assert_eq!(g.lookup(b"two"), Some(2));
    g.remove(b"absent");
    assert_eq!(g.lookup(b"two"), Some(2));
}

#[test]
fn ghash_shrinks_below_low_water() {
    let mut g = GHash::new();
    let mut keys = Vec::new();
    for i in 0..60 {
        keys.push(format!("name{}", i).into_bytes());
    }
    for (i, k) in keys.iter().enumerate() {
        g.insert(k.clone(), i);
    }
    let grown = g.buckets.len();
    assert!(grown > 8);
    for k in keys.iter().skip(2) {
        g.remove(k.as_slice());
    }
    assert!(g.buckets.len() < grown);
    assert_eq!(g.lookup(keys[0].as_slice()), Some(0));
    assert_eq!(g.lookup(keys[1].as_slice()), Some(1));
    assert_eq!(g.lookup(keys[5].as_slice()), None);
}
