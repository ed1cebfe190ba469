use level_cache::error::StoreError;
use level_cache::tree::{
    get_merkle_tree_cache_size, get_merkle_tree_leafs, get_merkle_tree_len,
    get_merkle_tree_row_count, is_power_of_two, store_geometry, Geometry,
};

#[test]
fn powers_of_two() {
    assert!(is_power_of_two(1));
    assert!(is_power_of_two(4096));
    assert!(!is_power_of_two(0));
    assert!(!is_power_of_two(6));
}

#[test]
fn tree_lengths() {
    assert_eq!(get_merkle_tree_len(8, 2), Ok(15));
    assert_eq!(get_merkle_tree_len(64, 8), Ok(73));
    assert_eq!(get_merkle_tree_len(16, 8), Ok(18));
    assert_eq!(get_merkle_tree_len(8, 3), Err(StoreError::Arity));
    assert_eq!(get_merkle_tree_len(8, 1), Err(StoreError::Arity));
    assert_eq!(get_merkle_tree_len(4, 8), Err(StoreError::LeafMismatch));
    assert_eq!(get_merkle_tree_len(6, 2), Err(StoreError::LeafsNotPow2));
}

#[test]
fn leafs_are_found_from_lengths() {
    for leafs in [1usize, 2, 4, 8, 1024] {
        let len = if leafs == 1 {
            1
        } else {
            get_merkle_tree_len(leafs, 2).unwrap()
        };
        assert_eq!(get_merkle_tree_leafs(len, 2), Ok(leafs));
    }
    assert_eq!(get_merkle_tree_leafs(73, 8), Ok(64));
    assert_eq!(get_merkle_tree_leafs(1, 8), Ok(1));
    assert_eq!(get_merkle_tree_leafs(74, 8), Err(StoreError::TreeLength));
    assert_eq!(get_merkle_tree_leafs(0, 8), Err(StoreError::TreeLength));
    assert_eq!(get_merkle_tree_leafs(15, 6), Err(StoreError::Arity));
    assert_eq!(get_merkle_tree_leafs(6, 2), Ok(4));
}

#[test]
fn row_counts() {
    assert_eq!(get_merkle_tree_row_count(8, 2), 4);
    assert_eq!(get_merkle_tree_row_count(64, 8), 3);
    assert_eq!(get_merkle_tree_row_count(0, 2), 0);
}

#[test]
fn cache_sizes_shrink() {
    assert_eq!(get_merkle_tree_cache_size(8, 2, 0), Ok(7));
    assert_eq!(get_merkle_tree_cache_size(8, 2, 1), Ok(3));
    assert_eq!(get_merkle_tree_cache_size(8, 2, 2), Ok(1));
    assert_eq!(
        get_merkle_tree_cache_size(8, 2, 3),
        Err(StoreError::DiscardsAllRows)
    );
    assert_eq!(get_merkle_tree_cache_size(64, 8, 1), Ok(1));
}

#[test]
fn geometry_of_stores() {
    assert_eq!(
        store_geometry(15, 2, 1),
        Ok(Geometry {
            leafs: 8,
            cache_size: 3
        })
    );
    assert_eq!(store_geometry(11, 2, 0), Err(StoreError::RowCount));
    assert_eq!(store_geometry(1, 2, 0), Err(StoreError::LeafMismatch));
    assert_eq!(store_geometry(15, 2, 9), Err(StoreError::DiscardsAllRows));
    assert_eq!(store_geometry(15, 5, 0), Err(StoreError::Arity));
    assert_eq!(store_geometry(15, 4, 0), Err(StoreError::TreeLength));
}
