use level_cache::config::{ReaderInfo, StoreConfig, StoreOssConfig};
use level_cache::error::StoreError;
use level_cache::store::layer::{LayerChunk, LayerRegion, BUILD_CHUNK_NODES};
use level_cache::store::read::ReadPlan;
use level_cache::store::rows::LayerStep;
use level_cache::store::truncate::TruncatePlan;
use level_cache::store::LevelCacheStore;

const ELEM: usize = 4;

fn config(rows_to_discard: usize) -> StoreConfig {
    StoreConfig {
        data_path: String::from("tree"),
        rows_to_discard,
        oss: false,
        oss_config: StoreOssConfig::default(),
    }
}

fn hash(group: &[u8], level: usize) -> Vec<u8> {
    let mut sum: u32 = 7 + level as u32;
    for byte in group {
        sum = sum.wrapping_mul(31).wrapping_add(*byte as u32);
    }
    sum.to_be_bytes().to_vec()
}

fn leaf_bytes(leafs: usize) -> Vec<u8> {
    (0..leafs as u32).flat_map(|i| i.to_be_bytes()).collect()
}

/// All rows of a tree, one after the other.
fn rows_of(leaves: &[u8], branches: usize) -> Vec<Vec<u8>> {
    let mut rows = vec![leaves.to_vec()];
    while rows.last().unwrap().len() > ELEM {
        let level = rows.len() - 1;
        let next: Vec<u8> = rows[level]
            .chunks(branches * ELEM)
            .flat_map(|group| hash(group, level))
            .collect();
        rows.push(next);
    }
    rows
}

/// The cut that a step asks for.
fn cut_for(store: &LevelCacheStore, step: LayerStep) -> Option<TruncatePlan> {
    if step.truncate {
        let file_len = store.store_size() as u64;
        Some(store.front_truncate(file_len, step.width).unwrap())
    } else {
        None
    }
}

/// Builds a tree in memory by the steps of the store.
fn build(leafs: usize, branches: usize, rows_to_discard: usize) -> (LevelCacheStore, Vec<u8>, Vec<u8>) {
    let leaves = leaf_bytes(leafs);
    let rows = rows_of(&leaves, branches);
    let size: usize = rows.iter().map(|row| row.len() / ELEM).sum();
    let config = config(rows_to_discard);
    let mut store = LevelCacheStore::new_with_config(size, branches, ELEM, &config, None).unwrap();
    let mut file = vec![0u8; store.store_size()];
    let plan = store.populate(leaves.len()).unwrap().unwrap();
    file[plan.offset..plan.offset + plan.len].copy_from_slice(&leaves);
    store.commit(plan);

    let mut job = store.build(branches, leafs, rows.len(), Some(&config)).unwrap();
    while let Some(step) = job.next_layer(&store) {
        let region = store.layer_region(step.width, step.write_start);
        for chunk in store.process_layer(step.width, step.read_start, branches).unwrap() {
            let nodes = match store
                .read_range_internal(chunk.first, chunk.first + chunk.count)
                .unwrap()
            {
                ReadPlan::File { offset, len } => file[offset..offset + len].to_vec(),
                plan => panic!("unexpected plan {:?}", plan),
            };
            let hashes = store
                .hash_chunk(hash, &nodes, chunk.count, branches, step.level)
                .unwrap();
            assert!(hashes.len() <= chunk.write_len);
            let at = region.offset as usize + chunk.write_offset;
            file[at..at + hashes.len()].copy_from_slice(&hashes);
        }
        let cut = cut_for(&store, step);
        if let Some(plan) = cut {
            file = file[plan.skip as usize..].to_vec();
            assert_eq!(plan.copied(file.len() as u64), Ok(file.len() as u64));
        }
        job.layer_done(&mut store, cut);
        assert_eq!(store.store_size(), file.len());
    }
    let root = match job.finish(&mut store).unwrap() {
        ReadPlan::File { offset, len } => file[offset..offset + len].to_vec(),
        plan => panic!("unexpected plan {:?}", plan),
    };
    (store, file, root)
}

#[test]
fn building_leaves_the_cached_rows() {
    for (leafs, branches, discard) in [
        (8usize, 2usize, 0usize),
        (8, 2, 1),
        (8, 2, 2),
        (64, 8, 0),
        (64, 8, 1),
        (64, 4, 1),
        (16384, 2, 3),
    ] {
        let rows = rows_of(&leaf_bytes(leafs), branches);
        let cached: Vec<u8> = rows[discard + 1..].concat();
        let (store, file, root) = build(leafs, branches, discard);
        assert_eq!(file, cached);
        assert_eq!(store.store_size(), file.len());
        assert_eq!(&root, rows.last().unwrap());
        assert_eq!(store.len(), rows.concat().len() / ELEM);
        assert_eq!(
            LevelCacheStore::is_consistent(
                store.len(),
                branches,
                ELEM,
                &config(discard),
                file.len()
            ),
            Ok(true)
        );
        let reader = ReaderInfo {
            offset: 0,
            data_path: String::from("base"),
        };
        let reopened = LevelCacheStore::new_from_disk_with_reader(
            store.len(),
            branches,
            ELEM,
            &config(discard),
            reader,
            file.len(),
        )
        .unwrap();
        assert_eq!(reopened.len(), store.len());
        assert_eq!(reopened.store_size(), store.store_size());
        assert_eq!(reopened.data_width(), store.data_width());
        assert_eq!(reopened.cache_index_start(), store.cache_index_start());
    }
}

#[test]
fn a_built_tree_is_read_back() {
    let leaves = leaf_bytes(16);
    let tree = rows_of(&leaves, 2).concat();
    let (mut store, file, _) = build(16, 2, 1);
    store
        .set_external_reader(ReaderInfo {
            offset: 0,
            data_path: String::from("base"),
        })
        .unwrap();
    for index in 0..store.len() {
        let expected = &tree[index * ELEM..(index + 1) * ELEM];
        match store.read_at(index) {
            Ok(ReadPlan::Reader { start, end }) => {
                assert!(index < 16);
                assert_eq!(&leaves[start..end], expected);
            }
            Ok(ReadPlan::File { offset, len }) if index != 16 => {
                assert!(index >= 24);
                assert_eq!(&file[offset..offset + len], expected);
            }
            Ok(plan) => assert_eq!((index, plan), (16, ReadPlan::File { offset: 64, len: 4 })),
            Err(error) => {
                assert!(index > 16 && index < 24);
                assert_eq!(error, StoreError::OutOfBounds);
            }
        }
    }
}

#[test]
fn the_root_is_the_last_element() {
    for (leafs, branches, discard) in [(8usize, 2usize, 0usize), (8, 2, 2), (64, 4, 1)] {
        let (mut store, file, root) = build(leafs, branches, discard);
        store
            .set_external_reader(ReaderInfo {
                offset: 0,
                data_path: String::from("base"),
            })
            .unwrap();
        match store.read_at(store.len() - 1).unwrap() {
            ReadPlan::File { offset, len } => assert_eq!(file[offset..offset + len], root[..]),
            plan => panic!("unexpected plan {:?}", plan),
        }
    }
}

#[test]
fn trees_that_are_not_complete_are_refused() {
    let mut store = LevelCacheStore::new(42, ELEM);
    store.set_len(32);
    let mut job = store.build(4, 32, 3, Some(&config(0))).unwrap();
    for _ in 0..2 {
        let step = job.next_layer(&store).unwrap();
        let cut = cut_for(&store, step);
        job.layer_done(&mut store, cut);
    }
    // The row of two nodes is no whole group of four.
    let step = job.next_layer(&store).unwrap();
    assert_eq!(step.width, 2);
    assert_eq!(
        store.hash_chunk(hash, &leaf_bytes(2), 2, 4, step.level),
        Err(StoreError::HashedNodeLength)
    );
}

#[test]
fn builds_that_cannot_begin() {
    let mut store = LevelCacheStore::new_with_config(15, 2, ELEM, &config(1), None).unwrap();
    store.set_len(8);
    let begin = |branches, leafs, config: Option<&StoreConfig>| {
        store.build(branches, leafs, 4, config).err()
    };
    assert_eq!(begin(3, 8, Some(&config(1))), Some(StoreError::Branches));
    assert_eq!(begin(2, 4, Some(&config(1))), Some(StoreError::InconsistentData));
    assert_eq!(begin(2, 8, None), Some(StoreError::MissingConfig));
    assert_eq!(begin(2, 8, Some(&config(3))), Some(StoreError::DiscardsAllRows));
    assert_eq!(begin(16, 8, Some(&config(0))), Some(StoreError::LeafMismatch));
    assert!(begin(2, 8, Some(&config(1))).is_none());
    assert_eq!(begin(4, usize::MAX, Some(&config(0))), Some(StoreError::InconsistentData));
    store.set_len(7);
    assert_eq!(
        store.build(2, 7, 4, Some(&config(1))).err(),
        Some(StoreError::OddLeafs)
    );
    store.set_len(6);
    assert_eq!(
        store.build(2, 6, 4, Some(&config(1))).err(),
        Some(StoreError::LeafsNotPow2)
    );
}

#[test]
fn builds_that_end_wrong() {
    let mut store = LevelCacheStore::new_with_config(7, 2, ELEM, &config(0), None).unwrap();
    store.set_len(4);
    let mut job = store.build(2, 4, 9, Some(&config(0))).unwrap();
    while let Some(step) = job.next_layer(&store) {
        let cut = cut_for(&store, step);
        job.layer_done(&mut store, cut);
    }
    assert_eq!(store.len(), 6);
    assert_eq!(job.finish(&mut store), Err(StoreError::BuiltRowCount));
    assert_eq!(store.len(), 7);
    assert_eq!(job.finish(&mut store), Err(StoreError::BuiltLength));
}

#[test]
fn layers_are_cut_into_chunks() {
    let store = LevelCacheStore::new(4, ELEM);
    let width = 2 * BUILD_CHUNK_NODES + 8;
    let chunks = store.process_layer(width, 5, 8).unwrap();
    let room = BUILD_CHUNK_NODES / 8 * ELEM;
    assert_eq!(
        chunks,
        vec![
            LayerChunk {
                first: 5,
                count: BUILD_CHUNK_NODES,
                write_offset: 0,
                write_len: room
            },
            LayerChunk {
                first: 5 + BUILD_CHUNK_NODES,
                count: BUILD_CHUNK_NODES,
                write_offset: room,
                write_len: room
            },
            LayerChunk {
                first: 5 + 2 * BUILD_CHUNK_NODES,
                count: 8,
                write_offset: 2 * room,
                write_len: room
            },
        ]
    );
    assert_eq!(store.process_layer(0, 5, 8), Ok(vec![]));
    assert_eq!(store.process_layer(8, 0, 3), Err(StoreError::ChunkSize));
    assert_eq!(
        store.process_layer(8, 0, 2 * BUILD_CHUNK_NODES),
        Err(StoreError::ChunkSize)
    );
    assert_eq!(
        store.layer_region(3, 5),
        LayerRegion {
            offset: 20,
            len: 12
        }
    );
}

#[test]
fn chunks_are_hashed_group_by_group() {
    let store = LevelCacheStore::new(4, ELEM);
    let nodes = leaf_bytes(4);
    let expected = [hash(&nodes[..8], 3), hash(&nodes[8..], 3)].concat();
    assert_eq!(store.hash_chunk(hash, &nodes, 4, 2, 3), Ok(expected));
    // Three nodes make one whole group and one that is not.
    assert_eq!(
        store.hash_chunk(hash, &nodes[..12], 3, 2, 0),
        Err(StoreError::HashedNodeLength)
    );
    assert_eq!(
        store.hash_chunk(|_: &[u8], _: usize| vec![1, 2, 3], &nodes, 4, 2, 0),
        Err(StoreError::HashedNodeLength)
    );
}
