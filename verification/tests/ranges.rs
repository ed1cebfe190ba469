use level_cache::config::{ReaderInfo, StoreConfig, StoreOssConfig};
use level_cache::error::StoreError;
use level_cache::store::ranges::{LastReads, Range, RouteStep};
use level_cache::store::read::ReadPlan;
use level_cache::store::LevelCacheStore;

fn config(oss: bool) -> StoreConfig {
    StoreConfig {
        data_path: String::from("tree"),
        rows_to_discard: 1,
        oss,
        oss_config: StoreOssConfig::default(),
    }
}

fn reader() -> ReaderInfo {
    ReaderInfo {
        offset: 0,
        data_path: String::from("base"),
    }
}

fn range(index: usize, start: usize, end: usize, buf_start: usize) -> Range {
    Range {
        index,
        start,
        end,
        buf_start,
        buf_end: buf_start + (end - start) * 4,
    }
}

fn cached_store() -> LevelCacheStore {
    LevelCacheStore::new_from_disk_with_reader(15, 2, 4, &config(false), reader(), 12).unwrap()
}

#[test]
fn ranges_are_split_between_reader_and_file() {
    let store = cached_store();
    let ranges = vec![
        range(7, 12, 13, 0),
        range(5, 0, 2, 4),
        range(9, 13, 15, 12),
        range(2, 7, 8, 20),
    ];
    let mut job = store.read_ranges_into(ranges).unwrap();
    assert_eq!(
        store.route_next(&mut job),
        Ok(RouteStep::Read {
            plan: ReadPlan::File { offset: 0, len: 4 },
            buf_start: 0,
            buf_end: 4
        })
    );
    job.file_read_done(true);
    assert_eq!(store.route_next(&mut job), Ok(RouteStep::Queued));
    assert_eq!(
        store.route_next(&mut job),
        Ok(RouteStep::Read {
            plan: ReadPlan::File { offset: 4, len: 8 },
            buf_start: 12,
            buf_end: 20
        })
    );
    job.file_read_done(false);
    assert_eq!(store.route_next(&mut job), Ok(RouteStep::Queued));
    assert_eq!(store.route_next(&mut job), Ok(RouteStep::Done));
    assert_eq!(
        store.after_routing(&job),
        LastReads {
            oss: false,
            reader: true
        }
    );
    let asked: Vec<(usize, usize, usize)> = job
        .reader_ranges()
        .iter()
        .map(|r| (r.index, r.start, r.end))
        .collect();
    assert_eq!(asked, vec![(5, 0, 8), (2, 28, 32)]);
    assert_eq!(
        job.finish(&vec![Some(8), None]),
        vec![
            Ok(4),
            Ok(8),
            Err(StoreError::ReadRange),
            Err(StoreError::ReadRange)
        ]
    );
}

#[test]
fn ranges_of_a_remote_object_are_asked_for_together() {
    let store = LevelCacheStore::new_from_oss(15, 2, 4, &config(true), 44).unwrap();
    let mut job = store.store_read_ranges_into(vec![range(0, 13, 15, 0), range(1, 1, 2, 8)]);
    assert_eq!(store.route_next(&mut job), Ok(RouteStep::Queued));
    assert_eq!(store.route_next(&mut job), Ok(RouteStep::Queued));
    assert_eq!(store.route_next(&mut job), Ok(RouteStep::Done));
    assert_eq!(
        store.after_routing(&job),
        LastReads {
            oss: true,
            reader: false
        }
    );
    let asked: Vec<(usize, usize)> = job.direct_ranges().iter().map(|r| (r.start, r.end)).collect();
    assert_eq!(asked, vec![(36, 44), (4, 8)]);
    assert!(job.reader_ranges().is_empty());
    job.oss_read_done(vec![Some(8), Some(3)]);
    assert_eq!(job.finish(&vec![]), vec![Ok(8), Ok(3)]);
}

#[test]
fn ranges_that_share_an_index_share_the_first_answer() {
    let store = cached_store();
    let mut job = store.store_read_ranges_into(vec![range(1, 0, 1, 0), range(1, 12, 14, 4)]);
    assert_eq!(store.route_next(&mut job), Ok(RouteStep::Queued));
    match store.route_next(&mut job) {
        Ok(RouteStep::Read { .. }) => job.file_read_done(true),
        step => panic!("unexpected step {:?}", step),
    }
    assert_eq!(job.finish(&vec![Some(4)]), vec![Ok(8), Ok(8)]);
}

/// Runs a request over the bytes of a file, beside a reader of `base`.
fn run(
    store: &LevelCacheStore,
    ranges: Vec<Range>,
    file: &[u8],
    base: &[u8],
) -> (Vec<Result<usize, StoreError>>, Vec<u8>) {
    let mut buf = vec![0u8; 40];
    let mut job = store.read_ranges_into(ranges).unwrap();
    loop {
        match store.route_next(&mut job).unwrap() {
            RouteStep::Done => break,
            RouteStep::Queued => {}
            RouteStep::Read {
                plan: ReadPlan::File { offset, len },
                buf_start,
                buf_end,
            } => {
                let found = file.get(offset..offset + len);
                if let Some(bytes) = found {
                    buf[buf_start..buf_end].copy_from_slice(bytes);
                }
                job.file_read_done(found.is_some());
            }
            step => panic!("unexpected step {:?}", step),
        }
    }
    let mut sizes = Vec::new();
    for range in job.reader_ranges() {
        buf[range.buf_start..range.buf_end].copy_from_slice(&base[range.start..range.end]);
        sizes.push(Some(range.end - range.start));
    }
    (job.finish(&sizes), buf)
}

#[test]
fn another_order_gives_the_same_results() {
    let store = cached_store();
    // The last element of the file cannot be read.
    let file: Vec<u8> = (100..108).collect();
    let base: Vec<u8> = (0..32).collect();
    let ranges = [
        range(4, 12, 14, 0),
        range(1, 0, 2, 8),
        range(9, 14, 15, 16),
        range(3, 6, 8, 20),
    ];
    let (results, bytes) = run(&store, ranges.to_vec(), &file, &base);
    assert_eq!(
        results,
        vec![Ok(8), Ok(8), Err(StoreError::ReadRange), Ok(8)]
    );
    for order in [[3usize, 2, 1, 0], [1, 0, 3, 2], [2, 3, 0, 1]] {
        let permuted = order.iter().map(|i| ranges[*i]).collect();
        let (others, other_bytes) = run(&store, permuted, &file, &base);
        for i in 0..4usize {
            assert_eq!(others[i], results[order[i]]);
        }
        assert_eq!(other_bytes, bytes);
    }
}

#[test]
fn refused_ranges() {
    let store = cached_store();
    assert_eq!(
        store
            .read_ranges_into(vec![range(0, 0, 1, 0), range(1, 9, 10, 4)])
            .err(),
        Some(StoreError::OutOfBounds)
    );
    assert_eq!(
        store
            .read_ranges_into(vec![range(0, 14, 16, 0), range(1, 9, 10, 4)])
            .err(),
        Some(StoreError::EndOutOfRange { end: 64, len: 60 })
    );
    let mut job = store.store_read_ranges_into(vec![range(1, 9, 10, 4)]);
    assert_eq!(
        store.route_next(&mut job),
        Err(StoreError::InvalidReadStart)
    );
}
