use brep_kernel::hashing::{hash_i64, hash_u64, stable_mesh_hash, FNV_OFFSET};

#[test]
fn fnv_hash_of_integers_matches_reference_values() {
    assert_eq!(hash_u64(FNV_OFFSET, 0), 0xa8c7_f832_281a_39c5);
    assert_eq!(hash_u64(FNV_OFFSET, 1), 0x89cd_3129_1d2a_efa4);
    assert_eq!(hash_u64(FNV_OFFSET, u64::MAX), 0x8cf5_1a8b_fca3_883d);
    assert_eq!(hash_i64(FNV_OFFSET, -1), hash_u64(FNV_OFFSET, u64::MAX));
}

#[test]
fn stable_mesh_hash_folds_counts_points_and_triangles() {
    assert_eq!(stable_mesh_hash(&[], &[]), 0x8820_1fb9_60ff_6465);
    assert_eq!(
        stable_mesh_hash(&[[0, 0, 0], [1_000_000_000, -1_000_000_000, 5]], &[[0, 1, 0]]),
        0xbec1_5010_2994_0db0
    );
    assert_eq!(
        stable_mesh_hash(&[], &[]),
        hash_u64(hash_u64(FNV_OFFSET, 0), 0)
    );
}
