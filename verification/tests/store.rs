use level_cache::config::{ReaderInfo, StoreConfig, StoreOssConfig};
use level_cache::error::StoreError;
use level_cache::store::ranges::Range;
use level_cache::store::read::ReadPlan;
use level_cache::store::truncate::TruncatePlan;
use level_cache::store::write::WritePlan;
use level_cache::store::{LevelCacheStore, Origin};

const ELEM: usize = 32;

fn config(rows_to_discard: usize) -> StoreConfig {
    StoreConfig {
        data_path: String::from("/data/tree.dat"),
        rows_to_discard,
        oss: false,
        oss_config: StoreOssConfig::default(),
    }
}

fn reader() -> ReaderInfo {
    ReaderInfo {
        offset: 17,
        data_path: String::from("/data/base.dat"),
    }
}

fn range(index: usize, start: usize, end: usize) -> Range {
    Range {
        index,
        start,
        end,
        buf_start: 0,
        buf_end: (end - start) * ELEM,
    }
}

/// Eight leafs, the row of four discarded: the cached rows are those of two and one.
fn whole_store() -> LevelCacheStore {
    LevelCacheStore::new_from_disk(15, 2, ELEM, &config(1), 11 * ELEM).unwrap()
}

fn cached_store() -> LevelCacheStore {
    LevelCacheStore::new_from_disk_with_reader(15, 2, ELEM, &config(1), reader(), 3 * ELEM).unwrap()
}

#[test]
fn opened_from_disk() {
    let store = whole_store();
    assert_eq!(store.len(), 15);
    assert_eq!(store.store_size(), 11 * ELEM);
    assert_eq!(store.data_width(), 8);
    assert_eq!(store.cache_index_start(), 12 * ELEM);
    assert_eq!(store.check_range(0, ELEM), Ok(()));
    assert_eq!(
        store.check_range(10 * ELEM, 11 * ELEM),
        Err(StoreError::OutOfBounds)
    );
    assert!(store.loaded_from_disk());
    assert!(!store.is_empty());
    assert_eq!(store.path().unwrap(), "/data/tree.dat");
    let refused = LevelCacheStore::new_from_disk(11, 2, ELEM, &config(0), 0);
    assert_eq!(refused.err(), Some(StoreError::RowCount));
}

#[test]
fn opened_beside_a_reader() {
    let store = cached_store();
    assert_eq!(store.len(), 15);
    assert!(store.loaded_from_disk());
    let refused = LevelCacheStore::new_from_disk_with_reader(
        15,
        2,
        ELEM,
        &config(1),
        reader(),
        11 * ELEM,
    );
    assert_eq!(
        refused.err(),
        Some(StoreError::StoreSize {
            found: 11 * ELEM,
            expected: 3 * ELEM
        })
    );
}

#[test]
fn files_of_other_sizes_are_refused() {
    for size in [0usize, 1, 2, 3, 7, 10, 11, 12, 15] {
        let opened = LevelCacheStore::new_from_disk(15, 2, ELEM, &config(1), size * ELEM);
        if size == 3 || size == 11 {
            assert_eq!(opened.unwrap().store_size(), size * ELEM);
        } else {
            assert_eq!(opened.err(), Some(StoreError::InconsistentSize));
        }
    }
    // A file opens with the number of discarded rows that it was made with alone.
    for rows in 0..3usize {
        for cached in [7usize, 3, 1] {
            for size in [cached, 8 + cached] {
                let opened = LevelCacheStore::new_from_disk(15, 2, 1, &config(rows), size);
                assert_eq!(opened.is_ok(), cached == [7usize, 3, 1][rows]);
            }
        }
    }
    assert_eq!(
        StoreError::InconsistentSize.message(),
        "Inconsistent store size detected"
    );
}

#[test]
fn a_configuration_opens_what_exists() {
    let opened = LevelCacheStore::new_with_config(15, 2, ELEM, &config(1), Some(11 * ELEM)).unwrap();
    assert!(opened.loaded_from_disk());
    assert!(!opened.oss());
    assert_eq!(opened.len(), 15);
    assert_eq!(opened.store_size(), 11 * ELEM);
    assert_eq!(
        LevelCacheStore::new_with_config(15, 2, ELEM, &config(1), Some(15 * ELEM)).err(),
        Some(StoreError::InconsistentSize)
    );
    let mut remote = config(1);
    remote.oss = true;
    remote.oss_config.bucket_name = String::from("trees");
    let opened = LevelCacheStore::new_with_config(15, 2, ELEM, &remote, Some(5)).unwrap();
    assert!(opened.oss());
    assert!(opened.loaded_from_disk());
    assert_eq!(opened.len(), 15);
    assert_eq!(opened.store_size(), 5);
    assert_eq!(opened.oss_config().bucket_name, "trees");
    assert_eq!(opened.path_text(), "/data/tree.dat");
}

#[test]
fn whole_store_reads_base_and_cache() {
    let store = whole_store();
    let at = |offset: usize| {
        Ok(ReadPlan::File {
            offset: offset * ELEM,
            len: ELEM,
        })
    };
    assert_eq!(store.read_at(0), at(0));
    assert_eq!(store.read_at(7), at(7));
    assert_eq!(store.read_at(9), Err(StoreError::OutOfBounds));
    assert_eq!(store.read_at(11), Err(StoreError::OutOfBounds));
    assert_eq!(store.read_at(12), at(8));
    assert_eq!(store.read_at(14), at(10));
    assert_eq!(
        store.read_at(15),
        Err(StoreError::StartOutOfRange {
            start: 15 * ELEM,
            len: 15 * ELEM
        })
    );
    assert_eq!(
        store.read_range(12, 16),
        Err(StoreError::EndOutOfRange {
            end: 16 * ELEM,
            len: 15 * ELEM
        })
    );
    // The first element behind the base row is let through and found unmoved.
    assert_eq!(store.read_at(8), at(8));
}

#[test]
fn cached_store_reads_base_from_reader() {
    let store = cached_store();
    assert_eq!(
        store.read_range(2, 5),
        Ok(ReadPlan::Reader {
            start: 2 * ELEM,
            end: 5 * ELEM
        })
    );
    assert_eq!(
        store.read_range(12, 15),
        Ok(ReadPlan::File {
            offset: 0,
            len: 3 * ELEM
        })
    );
    assert_eq!(store.read_range(10, 12), Err(StoreError::OutOfBounds));
    assert_eq!(store.offset_by_range(range(0, 3, 4)), 17);
    assert_eq!(store.offset_by_range(range(0, 12, 13)), 0);
    assert!(store.from_reader(range(0, 3, 4)));
    assert!(!store.from_reader(range(0, 12, 13)));
    assert!(!whole_store().from_reader(range(0, 3, 4)));
    assert_eq!(store.path_by_range(range(0, 3, 4)).unwrap(), "/data/base.dat");
    assert_eq!(store.path_by_range(range(0, 12, 13)).unwrap(), "/data/tree.dat");
    assert_eq!(whole_store().offset_by_range(range(0, 3, 4)), 0);
    assert_eq!(
        whole_store().path_by_range(range(0, 3, 4)).unwrap(),
        "/data/tree.dat"
    );
}

#[test]
fn reads_into_buffers() {
    let store = whole_store();
    assert_eq!(
        store.read_into(13, ELEM),
        Ok(ReadPlan::File {
            offset: 9 * ELEM,
            len: ELEM
        })
    );
    // A read from the file fills the buffer that is there.
    assert_eq!(
        store.read_range_into(1, 3, 5),
        Ok(ReadPlan::File {
            offset: ELEM,
            len: 5
        })
    );
    assert_eq!(
        store.store_read_into(9 * ELEM, 10 * ELEM, ELEM),
        Err(StoreError::InvalidReadStart)
    );
    assert_eq!(
        store.store_read_range(9 * ELEM, 10 * ELEM),
        Err(StoreError::OutOfBounds)
    );
    assert_eq!(
        store.store_read_range_internal(3, 10),
        Ok(ReadPlan::File { offset: 3, len: 7 })
    );
    assert_eq!(
        store.read_at_internal(2),
        Ok(ReadPlan::File {
            offset: 2 * ELEM,
            len: ELEM
        })
    );
    assert_eq!(store.read_range_internal(9, 10), Err(StoreError::OutOfBounds));
}

#[test]
fn remote_store_shifts_the_cache() {
    let mut config = config(1);
    config.oss = true;
    config.oss_config.endpoints = String::from("http://a");
    let store = LevelCacheStore::new_from_oss(15, 2, ELEM, &config, 11 * ELEM).unwrap();
    assert!(store.loaded_from_disk());
    assert_eq!(
        store.read_range(13, 15),
        Ok(ReadPlan::Oss {
            start: 9 * ELEM,
            end: 11 * ELEM
        })
    );
    assert_eq!(
        store.read_into(2, ELEM),
        Ok(ReadPlan::Oss {
            start: 2 * ELEM,
            end: 3 * ELEM
        })
    );
}

#[test]
fn places_that_overflow() {
    let store = whole_store();
    assert!(store.can_place(0, ELEM));
    assert!(store.can_place(10 * ELEM, 0));
    assert!(!store.can_place(ELEM, 0));
    assert!(cached_store().can_place(ELEM, 0));
    assert!(!LevelCacheStore::new(1, ELEM).can_place(usize::MAX, usize::MAX));
    assert!(!store.can_route(range(0, usize::MAX, usize::MAX)));
    assert!(store.can_route(range(0, 1, 2)));
}

#[test]
fn a_reader_can_be_set_later() {
    let mut store = LevelCacheStore::new_from_disk(15, 2, ELEM, &config(1), 3 * ELEM).unwrap();
    assert_eq!(store.set_external_reader(reader()), Ok(()));
    assert_eq!(format!("{:?}", store), format!("{:?}", cached_store()));
    assert_eq!(
        store.read_at(12),
        Ok(ReadPlan::File {
            offset: 0,
            len: ELEM
        })
    );
    assert_eq!(
        store.read_at(1),
        Ok(ReadPlan::Reader {
            start: ELEM,
            end: 2 * ELEM
        })
    );
}

#[test]
fn origins() {
    let mut config = config(0);
    assert_eq!(LevelCacheStore::origin(&config, true), Origin::Disk);
    assert_eq!(LevelCacheStore::origin(&config, false), Origin::Created);
    config.oss = true;
    assert_eq!(LevelCacheStore::origin(&config, true), Origin::Oss);
}

#[test]
fn created_store_is_written_and_read_back() {
    let mut store = LevelCacheStore::new_with_config(15, 2, ELEM, &config(1), None).unwrap();
    assert!(store.is_empty());
    assert_eq!(store.store_size(), 15 * ELEM);
    let mut file = vec![0u8; 15 * ELEM];
    for index in [0usize, 3, 7] {
        let element = vec![index as u8 + 1; ELEM];
        let plan = store.write_at(index, ELEM).unwrap();
        assert_eq!(
            plan,
            WritePlan {
                offset: index * ELEM,
                len: ELEM,
                elements: index + 1
            }
        );
        file[plan.offset..plan.offset + plan.len].copy_from_slice(&element);
        store.commit(plan);
        assert_eq!(store.len(), index + 1);
        match store.read_at(index).unwrap() {
            ReadPlan::File { offset, len } => assert_eq!(file[offset..offset + len], element[..]),
            plan => panic!("unexpected plan {:?}", plan),
        }
    }
    assert_eq!(store.write_at(0, ELEM).unwrap().elements, 8);
    let refused = LevelCacheStore::new_with_config(11, 2, ELEM, &config(1), None);
    assert_eq!(refused.err(), Some(StoreError::RowCount));
}

#[test]
fn elements_of_cached_rows_are_read_back_where_no_row_is_discarded() {
    let mut store = LevelCacheStore::new_with_config(15, 2, ELEM, &config(0), None).unwrap();
    for index in [7usize, 8, 14] {
        let plan = store.write_at(index, ELEM).unwrap();
        store.commit(plan);
        assert_eq!(
            store.read_at(index),
            Ok(ReadPlan::File {
                offset: plan.offset,
                len: ELEM
            })
        );
    }
}

#[test]
fn elements_without_bytes() {
    assert_eq!(
        LevelCacheStore::new_from_disk(15, 2, 0, &config(1), 5).err(),
        Some(StoreError::InconsistentSize)
    );
    assert_eq!(
        LevelCacheStore::new_from_disk_with_reader(15, 2, 0, &config(1), reader(), 5).err(),
        Some(StoreError::StoreSize {
            found: 5,
            expected: 0
        })
    );
    assert_eq!(
        LevelCacheStore::new_from_oss(11, 2, 0, &config(1), 5).err(),
        Some(StoreError::RowCount)
    );
}

#[test]
fn copies_of_whole_elements() {
    let store = LevelCacheStore::new_with_config(15, 2, ELEM, &config(1), None).unwrap();
    assert_eq!(
        store.copy_from_slice(3 * ELEM, 2),
        Ok(WritePlan {
            offset: 2 * ELEM,
            len: 3 * ELEM,
            elements: 5
        })
    );
    assert_eq!(
        store.copy_from_slice(3 * ELEM + 1, 2),
        Err(StoreError::BufSize { multiple_of: ELEM })
    );
    assert_eq!(
        store.copy_from_slice(3 * ELEM, 13),
        Err(StoreError::SliceTooLarge { max: 15 * ELEM })
    );
    assert_eq!(
        store.store_copy_from_slice(1, 2),
        Ok(WritePlan {
            offset: 1,
            len: 2,
            elements: 0
        })
    );
}

#[test]
fn copied_elements_are_read_back() {
    let mut store = LevelCacheStore::new_with_config(15, 2, 4, &config(1), None).unwrap();
    let buf: Vec<u8> = (0..12).collect();
    let plan = store.copy_from_slice(buf.len(), 3).unwrap();
    let mut file = vec![0xff; store.store_size()];
    file[plan.offset..plan.offset + plan.len].copy_from_slice(&buf);
    store.commit(plan);
    let run = match store.read_range(3, 6).unwrap() {
        ReadPlan::File { offset, len } => file[offset..offset + len].to_vec(),
        plan => panic!("unexpected plan {:?}", plan),
    };
    let elements = store.split_elements(&run);
    assert_eq!(elements.len(), 3);
    for index in 3..6usize {
        match store.read_at(index).unwrap() {
            ReadPlan::File { offset, len } => {
                assert_eq!(file[offset..offset + len], elements[index - 3][..]);
                assert_eq!(elements[index - 3], buf[(index - 3) * 4..(index - 2) * 4]);
            }
            plan => panic!("unexpected plan {:?}", plan),
        }
    }
}

#[test]
fn pushed_until_full() {
    let mut store = LevelCacheStore::new(2, ELEM);
    for index in 0..2usize {
        let plan = store.push(ELEM).unwrap();
        assert_eq!(plan.offset, index * ELEM);
        store.commit(plan);
    }
    assert_eq!(
        store.push(ELEM),
        Err(StoreError::NotEnoughSpace {
            len: 2,
            elem_len: ELEM,
            store_size: 2 * ELEM
        })
    );
    // A store that was not created from a configuration reads behind its base row.
    assert_eq!(
        store.read_at(0),
        Ok(ReadPlan::File {
            offset: 2 * ELEM,
            len: ELEM
        })
    );
}

#[test]
fn stores_filled_from_slices() {
    let (mut store, plan) = LevelCacheStore::new_from_slice(4, ELEM, 3 * ELEM).unwrap();
    assert_eq!(store.path().unwrap(), "/tmp");
    assert_eq!(
        plan,
        WritePlan {
            offset: 0,
            len: 3 * ELEM,
            elements: 3
        }
    );
    assert!(store.is_empty());
    store.commit(plan);
    assert_eq!(store.len(), 3);
    assert_eq!(
        LevelCacheStore::new_from_slice(4, ELEM, 5).err(),
        Some(StoreError::DataSize { multiple_of: ELEM })
    );
    assert_eq!(
        LevelCacheStore::new_from_slice(4, ELEM, 5 * ELEM).err(),
        Some(StoreError::SliceTooLarge { max: 4 * ELEM })
    );
    assert_eq!(
        LevelCacheStore::check_data_len(5, ELEM),
        Err(StoreError::DataSize { multiple_of: ELEM })
    );
    assert_eq!(LevelCacheStore::check_data_len(2 * ELEM, ELEM), Ok(()));
    assert_eq!(whole_store().populate(8 * ELEM), Ok(None));
    let created = LevelCacheStore::new_with_config(15, 2, ELEM, &config(1), None).unwrap();
    assert_eq!(
        created.populate(8 * ELEM),
        Ok(Some(WritePlan {
            offset: 0,
            len: 8 * ELEM,
            elements: 8
        }))
    );
}

#[test]
fn files_are_tied_to_their_configuration() {
    for rows in 0..3usize {
        let cached = [7usize, 3, 1][rows];
        for other in 0..3usize {
            assert_eq!(
                LevelCacheStore::is_consistent(15, 2, ELEM, &config(other), cached * ELEM),
                Ok(other == rows)
            );
            assert_eq!(
                LevelCacheStore::is_consistent_v1(15, 2, ELEM, &config(other), (8 + cached) * ELEM),
                Ok(other == rows)
            );
        }
    }
    assert_eq!(
        LevelCacheStore::is_consistent(15, 2, ELEM, &config(3), ELEM),
        Err(StoreError::DiscardsAllRows)
    );
    assert_eq!(
        LevelCacheStore::is_consistent_v1(10, 8, ELEM, &config(0), ELEM),
        Err(StoreError::TreeLength)
    );
}

#[test]
fn fronts_are_cut_off() {
    let mut store = whole_store();
    let plan = store.front_truncate(10 * ELEM as u64, 4).unwrap();
    assert_eq!(
        plan,
        TruncatePlan {
            skip: 4 * ELEM as u64,
            keep: 6 * ELEM as u64
        }
    );
    assert_eq!(plan.copied(6 * ELEM as u64), Ok(6 * ELEM as u64));
    assert_eq!(plan.copied(5), Err(StoreError::CopyIncomplete));
    store.truncated(plan);
    assert_eq!(store.store_size(), 6 * ELEM);
    assert_eq!(store.len(), 15);
    assert_eq!(
        store.front_truncate(ELEM as u64, 2),
        Err(StoreError::TruncationLength)
    );
}

#[test]
fn compacting_is_refused() {
    let mut store = whole_store();
    assert_eq!(
        store.compact(2, config(1), 1),
        Err(StoreError::CannotCompact)
    );
    assert_eq!(store.len(), 15);
    store.set_len(4);
    assert_eq!(store.len(), 4);
}

#[test]
fn elements_of_a_run_of_bytes() {
    let store = LevelCacheStore::new(4, 2);
    assert_eq!(
        store.split_elements(&[1, 2, 3, 4]),
        vec![vec![1, 2], vec![3, 4]]
    );
    assert_eq!(
        store.split_elements(&[1, 2, 3]),
        vec![vec![1, 2], vec![3]]
    );
    assert!(store.split_elements(&[]).is_empty());
}
