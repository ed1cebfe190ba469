use level_cache::config::{StoreConfig, StoreOssConfig};
use level_cache::error::StoreError;
use level_cache::oss::{split_endpoints, HeadReply, OssProbe, FOUND};

fn config(endpoints: &str) -> StoreConfig {
    let mut oss_config = StoreOssConfig::default();
    oss_config.endpoints = String::from(endpoints);
    StoreConfig {
        data_path: String::new(),
        rows_to_discard: 0,
        oss: true,
        oss_config,
    }
}

#[test]
fn endpoint_lists() {
    assert_eq!(split_endpoints("a,b"), vec!["a", "b"]);
    assert_eq!(split_endpoints("http://x:1"), vec!["http://x:1"]);
    assert_eq!(split_endpoints(""), vec![""]);
    assert_eq!(split_endpoints(",a,,\u{e4}b,"), vec!["", "a", "", "\u{e4}b", ""]);
    assert_eq!(split_endpoints("a,b,c").join(","), "a,b,c");
}

#[test]
fn endpoints_are_asked_in_turn() {
    let mut probe = OssProbe::new(&config("a,b,c,d"));
    assert_eq!(probe.endpoint().unwrap(), "a");
    probe.replied(HeadReply::Failed);
    assert_eq!(probe.size(), None);
    assert_eq!(probe.endpoint().unwrap(), "b");
    probe.replied(HeadReply::Answered {
        code: 404,
        size: Some(3),
    });
    assert_eq!(probe.size(), None);
    assert_eq!(probe.endpoint().unwrap(), "c");
    probe.replied(HeadReply::Answered {
        code: FOUND,
        size: Some(44),
    });
    // The last endpoint is not asked any more.
    assert_eq!(probe.size(), Some(44));
    assert!(probe.endpoint().is_none());
}

#[test]
fn no_endpoint_has_the_object() {
    let mut probe = OssProbe::new(&config("a,b"));
    probe.replied(HeadReply::Failed);
    probe.replied(HeadReply::Failed);
    assert!(probe.endpoint().is_none());
    assert_eq!(probe.size(), None);
}

#[test]
fn error_messages() {
    let message = |error: StoreError| error.message();
    assert_eq!(
        message(StoreError::StartOutOfRange { start: 480, len: 10 }),
        "start out of range 480 >= 10"
    );
    assert_eq!(
        message(StoreError::EndOutOfRange { end: 7, len: 0 }),
        "end out of range 7 > 0"
    );
    assert_eq!(
        message(StoreError::StoreSize {
            found: 1,
            expected: 1234567890
        }),
        "Inconsistent store size detected with external reader (1 != 1234567890)"
    );
    assert_eq!(
        message(StoreError::NotEnoughSpace {
            len: 2,
            elem_len: 32,
            store_size: 64
        }),
        "not enough space, len: 2, E size 32, store len 64"
    );
    assert_eq!(
        message(StoreError::SliceTooLarge { max: 9 }),
        "Requested slice too large (max: 9)"
    );
    assert_eq!(
        message(StoreError::DataSize { multiple_of: 32 }),
        "data size must be a multiple of 32"
    );
    assert_eq!(
        message(StoreError::BufSize { multiple_of: 32 }),
        "buf size must be a multiple of 32"
    );
    assert_eq!(
        message(StoreError::RowCount),
        "Inconsistent merkle tree row_count detected"
    );
    assert_eq!(message(StoreError::OutOfBounds), "out of bounds");
    assert_eq!(
        message(StoreError::CannotCompact),
        "Cannot compact this type of Store"
    );
}
