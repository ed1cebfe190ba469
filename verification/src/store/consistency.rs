//! Whether a file fits the configuration it is opened with.
//!
//! The size of the file depends on the number of rows that are discarded, so a file
//! can only be used with the number it was made with.
use vstd::prelude::*;
use crate::config::{ConfigView, ReaderView, StoreConfig};
use crate::error::StoreError;
use crate::tree::{
    law_cache_shrinks, lemma_cache_below_base, lemma_geometry_bounds, spec_geometry, store_geometry,
};
use super::{spec_new_from_disk, spec_new_from_disk_with_reader, LevelCacheStore, StoreView};

verus! {

/// Whether a file of `store_size` bytes is as large as the base row and the cached
/// rows.
pub open spec fn spec_is_consistent_v1(
    store_range: nat,
    branches: nat,
    elem_len: nat,
    config: ConfigView,
    store_size: nat,
) -> Result<bool, StoreError> {
    match spec_geometry(store_range, branches, config.rows_to_discard) {
        Err(e) => Err(e),
        Ok((leafs, cached)) => Ok(store_size == leafs * elem_len + cached * elem_len),
    }
}

/// Whether a file of `store_size` bytes is as large as the cached rows.
pub open spec fn spec_is_consistent(
    store_range: nat,
    branches: nat,
    elem_len: nat,
    config: ConfigView,
    store_size: nat,
) -> Result<bool, StoreError> {
    match spec_geometry(store_range, branches, config.rows_to_discard) {
        Err(e) => Err(e),
        Ok((leafs, cached)) => Ok(store_size == cached * elem_len),
    }
}

impl LevelCacheStore {
    /// Tells whether a file of `store_size` bytes can be a store of the base row and the
    /// cached rows of a tree with `store_range` elements.
    pub fn is_consistent_v1(
        store_range: usize,
        branches: usize,
        elem_len: usize,
        config: &StoreConfig,
        store_size: usize,
    ) -> (r: Result<bool, StoreError>)
        requires
            spec_geometry(
                store_range as nat,
                branches as nat,
                config.rows_to_discard as nat,
            ) matches Ok((leafs, cached)) ==> leafs * elem_len + cached * elem_len <= usize::MAX,
        ensures
            r == spec_is_consistent_v1(
                store_range as nat,
                branches as nat,
                elem_len as nat,
                config@,
                store_size as nat,
            ),
    {
        match store_geometry(store_range, branches, config.rows_to_discard) {
            Err(e) => Err(e),
            Ok(geometry) => {
                proof {
                    let leafs = geometry.leafs as nat;
                    let cached = geometry.cache_size as nat;
                    assert(leafs * elem_len >= 0 && cached * elem_len >= 0) by (nonlinear_arith);
                }
                Ok(store_size == geometry.leafs * elem_len + geometry.cache_size * elem_len)
            },
        }
    }

    /// Tells whether a file of `store_size` bytes can be a store of the cached rows of a
    /// tree with `store_range` elements, whose base row is served by a reader.
    pub fn is_consistent(
        store_range: usize,
        branches: usize,
        elem_len: usize,
        config: &StoreConfig,
        store_size: usize,
    ) -> (r: Result<bool, StoreError>)
        requires
            spec_geometry(
                store_range as nat,
                branches as nat,
                config.rows_to_discard as nat,
            ) matches Ok((leafs, cached)) ==> cached * elem_len <= usize::MAX,
        ensures
            r == spec_is_consistent(
                store_range as nat,
                branches as nat,
                elem_len as nat,
                config@,
                store_size as nat,
            ),
    {
        match store_geometry(store_range, branches, config.rows_to_discard) {
            Err(e) => Err(e),
            Ok(geometry) => Ok(store_size == geometry.cache_size * elem_len),
        }
    }
}

/// A file can be opened beside a reader exactly where it is consistent with the cached
/// rows alone, and without one exactly where it is consistent with either layout.
pub proof fn law_consistent_iff_opens(
    store_range: nat,
    branches: nat,
    elem_len: nat,
    config: ConfigView,
    reader: ReaderView,
    store_size: nat,
)
    ensures
        spec_new_from_disk_with_reader(
            store_range,
            branches,
            elem_len,
            config,
            reader,
            store_size,
        ) is Ok <==> spec_is_consistent(store_range, branches, elem_len, config, store_size)
            == Ok::<bool, StoreError>(true),
        spec_new_from_disk(store_range, branches, elem_len, config, store_size) is Ok <==> {
            ||| spec_is_consistent(store_range, branches, elem_len, config, store_size) == Ok::<
                bool,
                StoreError,
            >(true)
            ||| spec_is_consistent_v1(store_range, branches, elem_len, config, store_size) == Ok::<
                bool,
                StoreError,
            >(true)
        },
{
}

/// A file that holds the cached rows alone can be opened without its reader and be given
/// the reader afterwards: that gives the store that is opened beside the reader.
pub proof fn law_reader_set_afterwards(
    store_range: nat,
    branches: nat,
    elem_len: nat,
    config: ConfigView,
    reader: ReaderView,
    store_size: nat,
)
    requires
        spec_is_consistent(store_range, branches, elem_len, config, store_size) == Ok::<
            bool,
            StoreError,
        >(true),
    ensures
        ({
            let opened = spec_new_from_disk(store_range, branches, elem_len, config, store_size);
            let beside = spec_new_from_disk_with_reader(
                store_range,
                branches,
                elem_len,
                config,
                reader,
                store_size,
            );
            &&& opened is Ok
            &&& beside is Ok
            &&& (StoreView { reader: Some(reader), ..opened.unwrap() }) == beside.unwrap()
        }),
{
}

/// A file is consistent with one number of discarded rows at most, whether it holds the
/// base row or not.
pub proof fn law_file_tied_to_rows(
    store_range: nat,
    branches: nat,
    elem_len: nat,
    store_size: nat,
    config: ConfigView,
    other: ConfigView,
)
    requires
        elem_len > 0,
        ({
            ||| {
                &&& spec_is_consistent(store_range, branches, elem_len, config, store_size)
                    == Ok::<bool, StoreError>(true)
                &&& spec_is_consistent(store_range, branches, elem_len, other, store_size)
                    == Ok::<bool, StoreError>(true)
            }
            ||| {
                &&& spec_is_consistent_v1(store_range, branches, elem_len, config, store_size)
                    == Ok::<bool, StoreError>(true)
                &&& spec_is_consistent_v1(store_range, branches, elem_len, other, store_size)
                    == Ok::<bool, StoreError>(true)
            }
        }),
    ensures
        config.rows_to_discard == other.rows_to_discard,
{
    let (leafs, cached) = spec_geometry(store_range, branches, config.rows_to_discard).unwrap();
    let (leafs2, cached2) = spec_geometry(store_range, branches, other.rows_to_discard).unwrap();
    assert(cached == cached2) by (nonlinear_arith)
        requires
            cached * elem_len == cached2 * elem_len,
            elem_len > 0,
    ;
    if config.rows_to_discard < other.rows_to_discard {
        law_cache_shrinks(leafs, branches, config.rows_to_discard, other.rows_to_discard);
    }
    if other.rows_to_discard < config.rows_to_discard {
        law_cache_shrinks(leafs, branches, other.rows_to_discard, config.rows_to_discard);
    }
}

/// A file can be opened with one number of discarded rows at most.
pub proof fn law_opened_file_tied_to_rows(
    store_range: nat,
    branches: nat,
    elem_len: nat,
    store_size: nat,
    config: ConfigView,
    other: ConfigView,
)
    requires
        elem_len > 0,
        spec_new_from_disk(store_range, branches, elem_len, config, store_size) is Ok,
        spec_new_from_disk(store_range, branches, elem_len, other, store_size) is Ok,
    ensures
        config.rows_to_discard == other.rows_to_discard,
{
    let (leafs, cached) = spec_geometry(store_range, branches, config.rows_to_discard).unwrap();
    let (leafs2, cached2) = spec_geometry(store_range, branches, other.rows_to_discard).unwrap();
    lemma_cache_below_base(store_range, branches, config.rows_to_discard);
    lemma_cache_below_base(store_range, branches, other.rows_to_discard);
    // The cached rows alone are smaller than any file that holds the base row.
    assert(cached * elem_len < leafs * elem_len) by (nonlinear_arith)
        requires
            cached < leafs,
            elem_len > 0,
    ;
    assert(cached2 * elem_len < leafs2 * elem_len) by (nonlinear_arith)
        requires
            cached2 < leafs2,
            elem_len > 0,
    ;
    assert(cached * elem_len >= 0 && cached2 * elem_len >= 0) by (nonlinear_arith);
    law_file_tied_to_rows(store_range, branches, elem_len, store_size, config, other);
}

/// With one configuration a file is never taken both for a store with its base row and
/// for one without.
pub proof fn law_layouts_differ(
    store_range: nat,
    branches: nat,
    elem_len: nat,
    config: ConfigView,
    store_size: nat,
)
    requires
        elem_len > 0,
    ensures
        !(spec_is_consistent(store_range, branches, elem_len, config, store_size) == Ok::<
            bool,
            StoreError,
        >(true) && spec_is_consistent_v1(store_range, branches, elem_len, config, store_size)
            == Ok::<bool, StoreError>(true)),
{
    if spec_geometry(store_range, branches, config.rows_to_discard) is Ok {
        lemma_geometry_bounds(store_range, branches, config.rows_to_discard);
        let (leafs, cached) = spec_geometry(
            store_range,
            branches,
            config.rows_to_discard,
        ).unwrap();
        assert(leafs * elem_len > 0) by (nonlinear_arith)
            requires
                leafs > 0,
                elem_len > 0,
        ;
    }
}

} // verus!
