//! What opening a store gives, stated of the calls themselves.
use vstd::prelude::*;
use crate::config::{ReaderInfo, StoreConfig};
use crate::error::StoreError;
use crate::reading::{law_cached_store_reads_range, law_whole_store_reads_range};
use crate::store::read::{lemma_element_span, ReadPlan};
use crate::store::{LevelCacheStore, Origin};
use crate::tree::{lemma_geometry_bounds, store_geometry, Geometry};

verus! {

/// A file is opened where it is as long as the base row and the cached rows, or as the cached
/// rows alone. The store then spans the tree: its base row holds the leafs, and its cached
/// rows end where the tree ends.
pub proof fn law_disk_store_spans_tree(
    store_range: usize,
    branches: usize,
    elem_len: usize,
    config: StoreConfig,
    store_size: usize,
    geo: Result<Geometry, StoreError>,
    r: Result<LevelCacheStore, StoreError>,
)
    requires
        call_ensures(store_geometry, (store_range, branches, config.rows_to_discard), geo),
        call_ensures(
            LevelCacheStore::new_from_disk,
            (store_range, branches, elem_len, &config, store_size),
            r,
        ),
    ensures
        geo matches Err(e) ==> r is Err && r->Err_0 == e,
        geo matches Ok(geometry) ==> {
            &&& store_size != geometry.cache_size * elem_len && store_size != (geometry.leafs
                + geometry.cache_size) * elem_len ==> r is Err && r->Err_0
                == StoreError::InconsistentSize
            &&& (store_size == geometry.cache_size * elem_len || store_size == (geometry.leafs
                + geometry.cache_size) * elem_len) ==> {
                &&& r matches Ok(store)
                &&& store@.len == store_range
                &&& store@.elem_len == elem_len
                &&& store@.data_width == geometry.leafs
                &&& store@.cache_index_start + geometry.cache_size * elem_len == store_range * elem_len
                &&& store@.loaded_from_disk
                &&& store@.store_size == store_size
                &&& store@.reader is None
                &&& !store@.oss
                &&& store@.data_path == config.data_path@
                &&& store@.path == config.data_path@
                &&& store@.oss_config.landed_dir == Seq::<char>::empty()
                &&& store@.oss_config.access_key == Seq::<char>::empty()
                &&& store@.oss_config.secret_key == Seq::<char>::empty()
                &&& store@.oss_config.endpoints == Seq::<char>::empty()
                &&& store@.oss_config.region == Seq::<char>::empty()
                &&& store@.oss_config.bucket_name == Seq::<char>::empty()
            }
        },
{
    if geo is Ok {
        let g = geo.unwrap();
        lemma_geometry_bounds(
            store_range as nat,
            branches as nat,
            config.rows_to_discard as nat,
        );
        let n = store_range as int;
        let c = g.cache_size as int;
        let e = elem_len as int;
        assert((n - c) * e + c * e == n * e) by (nonlinear_arith);
        let l = g.leafs as int;
        assert((l + c) * e == l * e + c * e) by (nonlinear_arith);
        assert((n - c) * e >= 0) by (nonlinear_arith)
            requires
                n >= c,
                e >= 0,
        ;
    }
}

/// A file is opened beside a reader exactly where it is as long as the cached rows. The store
/// then spans the tree, and the reader serves its base row.
pub proof fn law_store_beside_reader_spans_tree(
    store_range: usize,
    branches: usize,
    elem_len: usize,
    config: StoreConfig,
    reader: ReaderInfo,
    store_size: usize,
    geo: Result<Geometry, StoreError>,
    r: Result<LevelCacheStore, StoreError>,
)
    requires
        call_ensures(store_geometry, (store_range, branches, config.rows_to_discard), geo),
        call_ensures(
            LevelCacheStore::new_from_disk_with_reader,
            (store_range, branches, elem_len, &config, reader, store_size),
            r,
        ),
    ensures
        geo matches Err(e) ==> r is Err && r->Err_0 == e,
        geo matches Ok(geometry) ==> {
            &&& store_size != geometry.cache_size * elem_len && geometry.cache_size * elem_len
                <= usize::MAX ==> {
                &&& r is Err
                &&& r->Err_0 matches StoreError::StoreSize { found, expected }
                &&& found == store_size
                &&& expected == geometry.cache_size * elem_len
            }
            &&& store_size == geometry.cache_size * elem_len ==> {
                &&& r matches Ok(store)
                &&& store@.len == store_range
                &&& store@.elem_len == elem_len
                &&& store@.data_width == geometry.leafs
                &&& store@.cache_index_start + geometry.cache_size * elem_len == store_range * elem_len
                &&& store@.loaded_from_disk
                &&& store@.store_size == store_size
                &&& store@.reader == Some(reader@)
                &&& !store@.oss
                &&& store@.data_path == config.data_path@
                &&& store@.path == config.data_path@
                &&& store@.oss_config.landed_dir == Seq::<char>::empty()
                &&& store@.oss_config.access_key == Seq::<char>::empty()
                &&& store@.oss_config.secret_key == Seq::<char>::empty()
                &&& store@.oss_config.endpoints == Seq::<char>::empty()
                &&& store@.oss_config.region == Seq::<char>::empty()
                &&& store@.oss_config.bucket_name == Seq::<char>::empty()
            }
        },
{
    if geo is Ok {
        let g = geo.unwrap();
        lemma_geometry_bounds(
            store_range as nat,
            branches as nat,
            config.rows_to_discard as nat,
        );
        let n = store_range as int;
        let c = g.cache_size as int;
        let e = elem_len as int;
        assert((n - c) * e + c * e == n * e) by (nonlinear_arith);
        assert((n - c) * e >= 0) by (nonlinear_arith)
            requires
                n >= c,
                e >= 0,
        ;
    }
}

/// A remote object is opened whatever its size, where there is a tree of the given length. The
/// store then spans the tree.
pub proof fn law_remote_store_spans_tree(
    store_range: usize,
    branches: usize,
    elem_len: usize,
    config: StoreConfig,
    store_size: usize,
    geo: Result<Geometry, StoreError>,
    r: Result<LevelCacheStore, StoreError>,
)
    requires
        call_ensures(store_geometry, (store_range, branches, config.rows_to_discard), geo),
        call_ensures(
            LevelCacheStore::new_from_oss,
            (store_range, branches, elem_len, &config, store_size),
            r,
        ),
    ensures
        geo matches Err(e) ==> r is Err && r->Err_0 == e,
        geo matches Ok(geometry) ==> {
            &&& r matches Ok(store)
            &&& store@.len == store_range
            &&& store@.elem_len == elem_len
            &&& store@.data_width == geometry.leafs
            &&& store@.cache_index_start + geometry.cache_size * elem_len == store_range * elem_len
            &&& store@.loaded_from_disk
            &&& store@.store_size == store_size
            &&& store@.reader is None
            &&& store@.oss
            &&& store@.data_path == config.data_path@
            &&& store@.path == config.data_path@
            &&& store@.oss_config.landed_dir == config.oss_config.landed_dir@
            &&& store@.oss_config.access_key == config.oss_config.access_key@
            &&& store@.oss_config.secret_key == config.oss_config.secret_key@
            &&& store@.oss_config.endpoints == config.oss_config.endpoints@
            &&& store@.oss_config.region == config.oss_config.region@
            &&& store@.oss_config.bucket_name == config.oss_config.bucket_name@
        },
{
    if geo is Ok {
        let g = geo.unwrap();
        lemma_geometry_bounds(
            store_range as nat,
            branches as nat,
            config.rows_to_discard as nat,
        );
        let n = store_range as int;
        let c = g.cache_size as int;
        let e = elem_len as int;
        assert((n - c) * e + c * e == n * e) by (nonlinear_arith);
        assert((n - c) * e >= 0) by (nonlinear_arith)
            requires
                n >= c,
                e >= 0,
        ;
    }
}

/// Making a store by its configuration gives what opening the remote object or the file gives,
/// where it exists. Where no file exists the store is empty, spans the tree and has room for
/// all of it.
pub proof fn law_configured_store_matches_origin(
    store_range: usize,
    branches: usize,
    elem_len: usize,
    config: StoreConfig,
    found: Option<usize>,
    store_size: usize,
    r_disk: Result<LevelCacheStore, StoreError>,
    r_oss: Result<LevelCacheStore, StoreError>,
    geo: Result<Geometry, StoreError>,
    r: Result<LevelCacheStore, StoreError>,
)
    requires
        call_ensures(store_geometry, (store_range, branches, config.rows_to_discard), geo),
        call_ensures(
            LevelCacheStore::new_with_config,
            (store_range, branches, elem_len, &config, found),
            r,
        ),
        call_ensures(
            LevelCacheStore::new_from_disk,
            (store_range, branches, elem_len, &config, store_size),
            r_disk,
        ),
        call_ensures(
            LevelCacheStore::new_from_oss,
            (store_range, branches, elem_len, &config, store_size),
            r_oss,
        ),
        config.oss ==> found is Some,
        found matches Some(size) ==> size == store_size,
    ensures
        found is Some ==> match (r, if config.oss {
            r_oss
        } else {
            r_disk
        }) {
            (Ok(store), Ok(opened)) => store@ == opened@,
            (Err(x), Err(y)) => x == y,
            _ => false,
        },
        geo matches Err(e) ==> r is Err && r->Err_0 == e,
        geo matches Ok(geometry) ==> {
            &&& found is None ==> {
                &&& r matches Ok(store)
                &&& store@.len == 0
                &&& store@.elem_len == elem_len
                &&& store@.data_width == geometry.leafs
                &&& store@.cache_index_start + geometry.cache_size * elem_len == store_range * elem_len
                &&& !store@.loaded_from_disk
                &&& store@.store_size == store_range * elem_len
                &&& store@.reader is None
                &&& !store@.oss
                &&& store@.data_path == config.data_path@
                &&& store@.path == config.data_path@
                &&& store@.oss_config.landed_dir == Seq::<char>::empty()
                &&& store@.oss_config.access_key == Seq::<char>::empty()
                &&& store@.oss_config.secret_key == Seq::<char>::empty()
                &&& store@.oss_config.endpoints == Seq::<char>::empty()
                &&& store@.oss_config.region == Seq::<char>::empty()
                &&& store@.oss_config.bucket_name == Seq::<char>::empty()
            }
        },
{
    if geo is Ok {
        let g = geo.unwrap();
        lemma_geometry_bounds(
            store_range as nat,
            branches as nat,
            config.rows_to_discard as nat,
        );
        let n = store_range as int;
        let c = g.cache_size as int;
        let e = elem_len as int;
        assert((n - c) * e + c * e == n * e) by (nonlinear_arith);
        assert((n - c) * e >= 0) by (nonlinear_arith)
            requires
                n >= c,
                e >= 0,
        ;
    }
}

/// The data come from the remote object where the configuration says so, else from the file
/// where it exists, else from a new file.
pub proof fn law_origin_by_configuration(config: StoreConfig, exists: bool, r: Origin)
    requires
        call_ensures(LevelCacheStore::origin, (&config, exists), r),
    ensures
        r == Origin::Oss <==> config.oss,
        r == Origin::Disk <==> !config.oss && exists,
        r == Origin::Created <==> !config.oss && !exists,
{
}

/// A new store is empty, has room for its elements, and takes all of them for its base row.
pub proof fn law_new_store_is_empty(size: usize, elem_len: usize, store: LevelCacheStore)
    requires
        call_ensures(LevelCacheStore::new, (size, elem_len), store),
    ensures
        store@.len == 0,
        store@.elem_len == elem_len,
        store@.data_width == size,
        store@.cache_index_start == 0,
        !store@.loaded_from_disk,
        store@.store_size == size * elem_len,
        store@.reader is None,
        !store@.oss,
        store@.path == "tmp"@,
        store@.data_path == "/tmp"@,
{
}

/// What is asked of a store is what it records.
pub proof fn law_store_tells_its_record(
    store: LevelCacheStore,
    len: usize,
    empty: bool,
    size: usize,
    width: usize,
    cache: usize,
    loaded: bool,
    oss: bool,
    text: &String,
)
    requires
        call_ensures(LevelCacheStore::len, (&store,), len),
        call_ensures(LevelCacheStore::is_empty, (&store,), empty),
        call_ensures(LevelCacheStore::store_size, (&store,), size),
        call_ensures(LevelCacheStore::data_width, (&store,), width),
        call_ensures(LevelCacheStore::cache_index_start, (&store,), cache),
        call_ensures(LevelCacheStore::loaded_from_disk, (&store,), loaded),
        call_ensures(LevelCacheStore::oss, (&store,), oss),
        call_ensures(LevelCacheStore::path_text, (&store,), text),
    ensures
        len == store@.len,
        empty <==> len == 0,
        size == store@.store_size,
        width == store@.data_width,
        cache == store@.cache_index_start,
        loaded == store@.loaded_from_disk,
        oss == store@.oss,
        text@ == store@.path,
{
}

/// A file is consistent where it is as long as the cached rows, or with its base row where it
/// is as long as both. It opens beside a reader exactly where it is consistent, and without
/// one exactly where it is consistent in either way.
pub proof fn law_consistent_files_open(
    store_range: usize,
    branches: usize,
    elem_len: usize,
    config: StoreConfig,
    reader: ReaderInfo,
    store_size: usize,
    geo: Result<Geometry, StoreError>,
    r: Result<bool, StoreError>,
    r_v1: Result<bool, StoreError>,
    beside: Result<LevelCacheStore, StoreError>,
    opened: Result<LevelCacheStore, StoreError>,
)
    requires
        call_ensures(store_geometry, (store_range, branches, config.rows_to_discard), geo),
        call_ensures(
            LevelCacheStore::is_consistent,
            (store_range, branches, elem_len, &config, store_size),
            r,
        ),
        call_ensures(
            LevelCacheStore::is_consistent_v1,
            (store_range, branches, elem_len, &config, store_size),
            r_v1,
        ),
        call_ensures(
            LevelCacheStore::new_from_disk_with_reader,
            (store_range, branches, elem_len, &config, reader, store_size),
            beside,
        ),
        call_ensures(
            LevelCacheStore::new_from_disk,
            (store_range, branches, elem_len, &config, store_size),
            opened,
        ),
    ensures
        geo matches Err(e) ==> r == Err::<bool, StoreError>(e) && r_v1 == Err::<bool, StoreError>(
            e,
        ),
        geo matches Ok(geometry) ==> {
            &&& r == Ok::<bool, StoreError>(store_size == geometry.cache_size * elem_len)
            &&& r_v1 == Ok::<bool, StoreError>(
                store_size == (geometry.leafs + geometry.cache_size) * elem_len,
            )
        },
        beside is Ok <==> r == Ok::<bool, StoreError>(true),
        opened is Ok <==> r == Ok::<bool, StoreError>(true) || r_v1 == Ok::<bool, StoreError>(
            true,
        ),
{
    if geo is Ok {
        let l = geo.unwrap().leafs as int;
        let c = geo.unwrap().cache_size as int;
        let e = elem_len as int;
        assert((l + c) * e == l * e + c * e) by (nonlinear_arith);
    }
}

/// Every run of elements of the base row and of the cached rows that is read through a store
/// opened from a remote object is found in an object that holds the base row followed by the
/// cached rows.
pub proof fn law_remote_store_reads_tree(
    store_range: usize,
    branches: usize,
    elem_len: usize,
    config: StoreConfig,
    store_size: usize,
    geometry: Geometry,
    store: LevelCacheStore,
    tree: Seq<u8>,
    object: Seq<u8>,
    start: usize,
    end: usize,
    buf_len: usize,
    r: Result<ReadPlan, StoreError>,
    r_into: Result<ReadPlan, StoreError>,
)
    requires
        call_ensures(
            store_geometry,
            (store_range, branches, config.rows_to_discard),
            Ok::<Geometry, StoreError>(geometry),
        ),
        call_ensures(
            LevelCacheStore::new_from_oss,
            (store_range, branches, elem_len, &config, store_size),
            Ok::<LevelCacheStore, StoreError>(store),
        ),
        call_ensures(LevelCacheStore::read_range, (&store, start, end), r),
        call_ensures(LevelCacheStore::read_range_into, (&store, start, end, buf_len), r_into),
        elem_len > 0,
        tree.len() == store_range * elem_len,
        tree.len() <= usize::MAX,
        object == tree.take(geometry.leafs * elem_len) + tree.skip(
            (store_range - geometry.cache_size) * elem_len,
        ),
        branches != 2 || store_range % 2 == 1,
        start < end,
        end <= store_range,
        end <= geometry.leafs || start + geometry.cache_size >= store_range,
        buf_len == (end - start) * elem_len,
    ensures
        r matches Ok(ReadPlan::Oss { start: from, end: to }) && from <= to <= object.len()
            && object.subrange(from as int, to as int) == tree.subrange(
            start * elem_len,
            end * elem_len,
        ),
        r_into == r,
{
    lemma_geometry_bounds(store_range as nat, branches as nat, config.rows_to_discard as nat);
    let n = store_range as int;
    let l = geometry.leafs as int;
    let c = geometry.cache_size as int;
    let e = elem_len as int;
    assert((n - c) * e + c * e == n * e) by (nonlinear_arith);
    assert(0 <= l * e <= (n - c) * e) by (nonlinear_arith)
        requires
            0 <= l <= n - c,
            e >= 0,
    ;
    assert(c * e >= 0) by (nonlinear_arith)
        requires
            c >= 0,
            e >= 0,
    ;
    if end <= geometry.leafs {
        lemma_element_span(end as nat, geometry.leafs as nat, elem_len as nat);
    } else {
        lemma_element_span(
            (store_range - geometry.cache_size) as nat,
            start as nat,
            elem_len as nat,
        );
    }
    law_whole_store_reads_range(store, tree, object, start, end, buf_len, r, r_into);
}

/// Every run of elements of the base row and of the cached rows that is read through a store
/// opened from disk is found in a file that holds the base row followed by the cached rows.
pub proof fn law_disk_store_reads_tree(
    store_range: usize,
    branches: usize,
    elem_len: usize,
    config: StoreConfig,
    store_size: usize,
    geometry: Geometry,
    store: LevelCacheStore,
    tree: Seq<u8>,
    file: Seq<u8>,
    start: usize,
    end: usize,
    buf_len: usize,
    r: Result<ReadPlan, StoreError>,
    r_into: Result<ReadPlan, StoreError>,
)
    requires
        call_ensures(
            store_geometry,
            (store_range, branches, config.rows_to_discard),
            Ok::<Geometry, StoreError>(geometry),
        ),
        call_ensures(
            LevelCacheStore::new_from_disk,
            (store_range, branches, elem_len, &config, store_size),
            Ok::<LevelCacheStore, StoreError>(store),
        ),
        call_ensures(LevelCacheStore::read_range, (&store, start, end), r),
        call_ensures(LevelCacheStore::read_range_into, (&store, start, end, buf_len), r_into),
        elem_len > 0,
        tree.len() == store_range * elem_len,
        tree.len() <= usize::MAX,
        file == tree.take(geometry.leafs * elem_len) + tree.skip(
            (store_range - geometry.cache_size) * elem_len,
        ),
        branches != 2 || store_range % 2 == 1,
        start < end,
        end <= store_range,
        end <= geometry.leafs || start + geometry.cache_size >= store_range,
        buf_len == (end - start) * elem_len,
    ensures
        r matches Ok(ReadPlan::File { offset, len }) && offset + len <= file.len()
            && file.subrange(offset as int, offset + len) == tree.subrange(
            start * elem_len,
            end * elem_len,
        ),
        r_into == r,
{
    lemma_geometry_bounds(store_range as nat, branches as nat, config.rows_to_discard as nat);
    let n = store_range as int;
    let l = geometry.leafs as int;
    let c = geometry.cache_size as int;
    let e = elem_len as int;
    assert((n - c) * e + c * e == n * e) by (nonlinear_arith);
    assert(0 <= l * e <= (n - c) * e) by (nonlinear_arith)
        requires
            0 <= l <= n - c,
            e >= 0,
    ;
    assert(c * e >= 0) by (nonlinear_arith)
        requires
            c >= 0,
            e >= 0,
    ;
    if end <= geometry.leafs {
        lemma_element_span(end as nat, geometry.leafs as nat, elem_len as nat);
    } else {
        lemma_element_span(
            (store_range - geometry.cache_size) as nat,
            start as nat,
            elem_len as nat,
        );
    }
    law_whole_store_reads_range(store, tree, file, start, end, buf_len, r, r_into);
}

/// Every run of elements that is read through a store opened beside a reader is asked of the
/// reader, where it lies in the base row, and found in a file that holds the cached rows
/// alone, where it lies in these.
pub proof fn law_store_beside_reader_reads_tree(
    store_range: usize,
    branches: usize,
    elem_len: usize,
    config: StoreConfig,
    reader: ReaderInfo,
    store_size: usize,
    geometry: Geometry,
    store: LevelCacheStore,
    tree: Seq<u8>,
    file: Seq<u8>,
    start: usize,
    end: usize,
    buf_len: usize,
    r: Result<ReadPlan, StoreError>,
    r_into: Result<ReadPlan, StoreError>,
)
    requires
        call_ensures(
            store_geometry,
            (store_range, branches, config.rows_to_discard),
            Ok::<Geometry, StoreError>(geometry),
        ),
        call_ensures(
            LevelCacheStore::new_from_disk_with_reader,
            (store_range, branches, elem_len, &config, reader, store_size),
            Ok::<LevelCacheStore, StoreError>(store),
        ),
        call_ensures(LevelCacheStore::read_range, (&store, start, end), r),
        call_ensures(LevelCacheStore::read_range_into, (&store, start, end, buf_len), r_into),
        elem_len > 0,
        tree.len() == store_range * elem_len,
        tree.len() <= usize::MAX,
        file == tree.skip((store_range - geometry.cache_size) * elem_len),
        branches != 2 || store_range % 2 == 1,
        start < end,
        end <= store_range,
        end <= geometry.leafs || start + geometry.cache_size >= store_range,
        buf_len == (end - start) * elem_len,
    ensures
        end <= geometry.leafs ==> {
            &&& r matches Ok(ReadPlan::Reader { start: from, end: to })
            &&& from == start * elem_len
            &&& to == end * elem_len
        },
        end > geometry.leafs ==> {
            &&& r matches Ok(ReadPlan::File { offset, len })
            &&& offset + len <= file.len()
            &&& file.subrange(offset as int, offset + len) == tree.subrange(
                start * elem_len,
                end * elem_len,
            )
        },
        r_into == r,
{
    lemma_geometry_bounds(store_range as nat, branches as nat, config.rows_to_discard as nat);
    let n = store_range as int;
    let l = geometry.leafs as int;
    let c = geometry.cache_size as int;
    let e = elem_len as int;
    assert((n - c) * e + c * e == n * e) by (nonlinear_arith);
    assert(0 <= l * e <= (n - c) * e) by (nonlinear_arith)
        requires
            0 <= l <= n - c,
            e >= 0,
    ;
    assert(c * e >= 0) by (nonlinear_arith)
        requires
            c >= 0,
            e >= 0,
    ;
    if end <= geometry.leafs {
        lemma_element_span(end as nat, geometry.leafs as nat, elem_len as nat);
    } else {
        lemma_element_span(
            (store_range - geometry.cache_size) as nat,
            start as nat,
            elem_len as nat,
        );
    }
    law_cached_store_reads_range(store, tree, file, start, end, buf_len, r, r_into);
}

} // verus!
