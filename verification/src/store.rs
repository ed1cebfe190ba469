//! The level-cache store.
//!
//! A store is the record of where the bytes of a tree lie. The tree is thought of
//! as one run of bytes, row after row from the base to the root. A store holds the
//! base row and, from `cache_index_start` on, the cached rows. They lie in one file
//! (or one remote object), the cached rows right behind the base row. Where a
//! reader serves the base row, the file holds the cached rows alone.
pub mod consistency;
pub mod layer;
pub mod ranges;
pub mod read;
pub mod rows;
pub mod truncate;
pub mod write;

use vstd::prelude::*;
use crate::config::{ConfigView, OssConfigView, ReaderInfo, ReaderView, StoreConfig, StoreOssConfig};
use crate::error::StoreError;
use crate::tree::{lemma_geometry_bounds, spec_geometry, store_geometry, Geometry};

verus! {

/// A store of the base row and the cached rows of a tree.
#[derive(Debug)]
pub struct LevelCacheStore {
    len: usize,
    elem_len: usize,
    data_width: usize,
    cache_index_start: usize,
    loaded_from_disk: bool,
    store_size: usize,
    reader: Option<ReaderInfo>,
    oss: bool,
    oss_config: StoreOssConfig,
    path: String,
    data_path: String,
}

/// What a store records.
#[verifier::ext_equal]
pub struct StoreView {
    /// The number of elements in the store.
    pub len: nat,
    /// The number of bytes of an element.
    pub elem_len: nat,
    /// The number of elements in the base row.
    pub data_width: nat,
    /// Where the cached rows begin in the bytes of the tree.
    pub cache_index_start: nat,
    /// Whether the store was loaded from data that existed before.
    pub loaded_from_disk: bool,
    /// The size of the file or object in bytes.
    pub store_size: nat,
    /// The reader that serves the base row, if there is one.
    pub reader: Option<ReaderView>,
    /// Whether the data lie in a remote object.
    pub oss: bool,
    pub oss_config: OssConfigView,
    pub path: Seq<char>,
    pub data_path: Seq<char>,
}

impl StoreView {
    /// The end of the base row in the bytes of the tree.
    pub open spec fn base_end(self) -> nat {
        self.data_width * self.elem_len
    }

    /// The number of bytes that the elements in the store take.
    pub open spec fn byte_len(self) -> nat {
        self.len * self.elem_len
    }

    /// What holds of every store: the base row has an end.
    pub open spec fn wf(self) -> bool {
        self.base_end() <= usize::MAX
    }
}

impl View for LevelCacheStore {
    type V = StoreView;

    closed spec fn view(&self) -> StoreView {
        StoreView {
            len: self.len as nat,
            elem_len: self.elem_len as nat,
            data_width: self.data_width as nat,
            cache_index_start: self.cache_index_start as nat,
            loaded_from_disk: self.loaded_from_disk,
            store_size: self.store_size as nat,
            reader: match self.reader {
                Some(reader) => Some(reader@),
                None => None,
            },
            oss: self.oss,
            oss_config: self.oss_config@,
            path: self.path@,
            data_path: self.data_path@,
        }
    }
}

/// Whether opening a store gave the expected store, or the expected error.
pub open spec fn opens_as(
    r: Result<LevelCacheStore, StoreError>,
    expected: Result<StoreView, StoreError>,
) -> bool {
    match (r, expected) {
        (Ok(store), Ok(view)) => store@ == view && view.wf(),
        (Err(x), Err(y)) => x == y,
        _ => false,
    }
}

/// The store over a tree with `len` elements whose base row has `leafs` elements and
/// whose cached rows have `cached` elements, in a file of `store_size` bytes.
pub open spec fn spec_opened(
    len: nat,
    elem_len: nat,
    leafs: nat,
    cached: nat,
    store_size: nat,
    data_path: Seq<char>,
) -> StoreView {
    StoreView {
        len,
        elem_len,
        data_width: leafs,
        cache_index_start: ((len - cached) * elem_len) as nat,
        loaded_from_disk: true,
        store_size,
        reader: None,
        oss: false,
        oss_config: OssConfigView::empty(),
        path: data_path,
        data_path,
    }
}

/// Whether a file of `store_size` bytes can hold the rows of a store: the base row and
/// the cached rows, or the cached rows alone.
pub open spec fn file_fits(leafs: nat, cached: nat, elem_len: nat, store_size: nat) -> bool {
    store_size == leafs * elem_len + cached * elem_len || store_size == cached * elem_len
}

/// What opening a file of `store_size` bytes gives.
pub open spec fn spec_new_from_disk(
    store_range: nat,
    branches: nat,
    elem_len: nat,
    config: ConfigView,
    store_size: nat,
) -> Result<StoreView, StoreError> {
    match spec_geometry(store_range, branches, config.rows_to_discard) {
        Err(e) => Err(e),
        Ok((leafs, cached)) => if !file_fits(leafs, cached, elem_len, store_size) {
            Err(StoreError::InconsistentSize)
        } else {
            Ok(spec_opened(store_range, elem_len, leafs, cached, store_size, config.data_path))
        },
    }
}

/// What opening a file of `store_size` bytes beside a reader gives: the file must
/// hold the cached rows and nothing else.
pub open spec fn spec_new_from_disk_with_reader(
    store_range: nat,
    branches: nat,
    elem_len: nat,
    config: ConfigView,
    reader: ReaderView,
    store_size: nat,
) -> Result<StoreView, StoreError> {
    match spec_geometry(store_range, branches, config.rows_to_discard) {
        Err(e) => Err(e),
        Ok((leafs, cached)) => if store_size != cached * elem_len {
            Err(
                StoreError::StoreSize {
                    found: store_size as usize,
                    expected: (cached * elem_len) as usize,
                },
            )
        } else {
            Ok(
                StoreView {
                    reader: Some(reader),
                    ..spec_opened(
                        store_range,
                        elem_len,
                        leafs,
                        cached,
                        store_size,
                        config.data_path,
                    )
                },
            )
        },
    }
}

/// What opening a remote object of `store_size` bytes gives.
pub open spec fn spec_new_from_oss(
    store_range: nat,
    branches: nat,
    elem_len: nat,
    config: ConfigView,
    store_size: nat,
) -> Result<StoreView, StoreError> {
    match spec_geometry(store_range, branches, config.rows_to_discard) {
        Err(e) => Err(e),
        Ok((leafs, cached)) => Ok(
            StoreView {
                oss: true,
                oss_config: config.oss_config,
                ..spec_opened(store_range, elem_len, leafs, cached, store_size, config.data_path)
            },
        ),
    }
}

/// What creating a file for the whole tree gives.
pub open spec fn spec_created(
    size: nat,
    branches: nat,
    elem_len: nat,
    config: ConfigView,
) -> Result<StoreView, StoreError> {
    match spec_geometry(size, branches, config.rows_to_discard) {
        Err(e) => Err(e),
        Ok((leafs, cached)) => Ok(
            StoreView {
                len: 0,
                loaded_from_disk: false,
                ..spec_opened(size, elem_len, leafs, cached, size * elem_len, config.data_path)
            },
        ),
    }
}

/// Where the data of a store come from, given whether it is remote and whether its file
/// exists.
pub open spec fn spec_origin(oss: bool, exists: bool) -> Origin {
    if oss {
        Origin::Oss
    } else if exists {
        Origin::Disk
    } else {
        Origin::Created
    }
}

/// What making a store by its configuration gives, where its object or file has `found`
/// bytes, or does not exist.
pub open spec fn spec_new_with_config(
    size: nat,
    branches: nat,
    elem_len: nat,
    config: ConfigView,
    found: Option<nat>,
) -> Result<StoreView, StoreError> {
    match spec_origin(config.oss, found is Some) {
        Origin::Oss => spec_new_from_oss(size, branches, elem_len, config, found.unwrap()),
        Origin::Disk => spec_new_from_disk(size, branches, elem_len, config, found.unwrap()),
        Origin::Created => spec_created(size, branches, elem_len, config),
    }
}

/// An empty store of `size` elements that is not backed by a named file.
pub open spec fn spec_new(size: nat, elem_len: nat) -> StoreView {
    StoreView {
        len: 0,
        elem_len,
        data_width: size,
        cache_index_start: 0,
        loaded_from_disk: false,
        store_size: size * elem_len,
        reader: None,
        oss: false,
        oss_config: OssConfigView::empty(),
        path: "tmp"@,
        data_path: "/tmp"@,
    }
}

/// Where the data of a store with a given configuration come from.
#[derive(Clone, Copy, Debug, PartialEq, Eq, Structural)]
pub enum Origin {
    /// A remote object.
    Oss,
    /// A file that exists.
    Disk,
    /// A file that has to be created.
    Created,
}

/// Making a store by its configuration gives what opening the remote object gives where
/// the data are remote, whether a file exists or not, and what opening the file gives
/// where a file exists. Data that exist are recorded as loaded and with their size.
pub proof fn law_configuration_opens_what_exists(
    size: nat,
    branches: nat,
    elem_len: nat,
    config: ConfigView,
    found: nat,
)
    ensures
        ({
            let made = spec_new_with_config(size, branches, elem_len, config, Some(found));
            &&& config.oss ==> made == spec_new_from_oss(size, branches, elem_len, config, found)
            &&& !config.oss ==> made == spec_new_from_disk(
                size,
                branches,
                elem_len,
                config,
                found,
            )
            &&& made matches Ok(store) ==> {
                &&& store.loaded_from_disk
                &&& store.oss == config.oss
                &&& store.len == size
                &&& store.store_size == found
            }
        }),
{
}

/// The bytes that `count` elements take never exceed the bytes of more elements.
proof fn lemma_bytes_monotonic(count: nat, more: nat, elem_len: nat)
    requires
        count <= more,
    ensures
        count * elem_len <= more * elem_len,
{
    assert(count * elem_len <= more * elem_len) by (nonlinear_arith)
        requires
            count <= more,
    ;
}

impl LevelCacheStore {
    /// The store that `spec_opened` describes.
    fn assemble(
        len: usize,
        elem_len: usize,
        geometry: Geometry,
        store_size: usize,
        data_path: &String,
    ) -> (r: Self)
        requires
            geometry.leafs <= len,
            geometry.cache_size <= len,
            len * elem_len <= usize::MAX,
        ensures
            r@ == spec_opened(
                len as nat,
                elem_len as nat,
                geometry.leafs as nat,
                geometry.cache_size as nat,
                store_size as nat,
                data_path@,
            ),
            r@.wf(),
    {
        proof {
            lemma_bytes_monotonic(geometry.leafs as nat, len as nat, elem_len as nat);
            lemma_bytes_monotonic(geometry.cache_size as nat, len as nat, elem_len as nat);
            assert((len - geometry.cache_size) * elem_len == len * elem_len - geometry.cache_size
                * elem_len) by (nonlinear_arith);
        }
        let cache_index_start: usize = len * elem_len - geometry.cache_size * elem_len;
        LevelCacheStore {
            len,
            elem_len,
            data_width: geometry.leafs,
            cache_index_start,
            loaded_from_disk: true,
            store_size,
            reader: None,
            oss: false,
            oss_config: StoreOssConfig::default(),
            path: data_path.clone(),
            data_path: data_path.clone(),
        }
    }

    /// Opens a file of `store_size` bytes that holds the base row and the cached rows
    /// of a tree with `store_range` elements.
    ///
    /// A file that holds the cached rows alone can be opened too, and be given its reader
    /// by `set_external_reader`.
    pub fn new_from_disk(
        store_range: usize,
        branches: usize,
        elem_len: usize,
        config: &StoreConfig,
        store_size: usize,
    ) -> (r: Result<Self, StoreError>)
        requires
            spec_new_from_disk(
                store_range as nat,
                branches as nat,
                elem_len as nat,
                config@,
                store_size as nat,
            ) is Ok ==> elem_len > 0,
            spec_geometry(
                store_range as nat,
                branches as nat,
                config.rows_to_discard as nat,
            ) is Ok ==> store_range * elem_len <= usize::MAX,
        ensures
            opens_as(
                r,
                spec_new_from_disk(
                    store_range as nat,
                    branches as nat,
                    elem_len as nat,
                    config@,
                    store_size as nat,
                ),
            ),
    {
        match store_geometry(store_range, branches, config.rows_to_discard) {
            Err(e) => Err(e),
            Ok(geometry) => {
                proof {
                    lemma_geometry_bounds(
                        store_range as nat,
                        branches as nat,
                        config.rows_to_discard as nat,
                    );
                    lemma_bytes_monotonic(
                        geometry.cache_size as nat,
                        store_range as nat,
                        elem_len as nat,
                    );
                    lemma_bytes_monotonic(
                        geometry.leafs as nat,
                        store_range as nat,
                        elem_len as nat,
                    );
                }
                let cache_size: usize = geometry.cache_size * elem_len;
                let base_size: usize = geometry.leafs * elem_len;
                if store_size != cache_size && (store_size < cache_size || store_size - cache_size
                    != base_size) {
                    return Err(StoreError::InconsistentSize);
                }
                Ok(
                    Self::assemble(
                        store_range,
                        elem_len,
                        geometry,
                        store_size,
                        &config.data_path,
                    ),
                )
            },
        }
    }

    /// Opens a file of `store_size` bytes that holds the cached rows of a tree with
    /// `store_range` elements, and whose base row is served by `reader`.
    pub fn new_from_disk_with_reader(
        store_range: usize,
        branches: usize,
        elem_len: usize,
        config: &StoreConfig,
        reader: ReaderInfo,
        store_size: usize,
    ) -> (r: Result<Self, StoreError>)
        requires
            spec_new_from_disk_with_reader(
                store_range as nat,
                branches as nat,
                elem_len as nat,
                config@,
                reader@,
                store_size as nat,
            ) is Ok ==> elem_len > 0,
            spec_geometry(
                store_range as nat,
                branches as nat,
                config.rows_to_discard as nat,
            ) is Ok ==> store_range * elem_len <= usize::MAX,
        ensures
            opens_as(
                r,
                spec_new_from_disk_with_reader(
                    store_range as nat,
                    branches as nat,
                    elem_len as nat,
                    config@,
                    reader@,
                    store_size as nat,
                ),
            ),
    {
        match store_geometry(store_range, branches, config.rows_to_discard) {
            Err(e) => Err(e),
            Ok(geometry) => {
                proof {
                    lemma_geometry_bounds(
                        store_range as nat,
                        branches as nat,
                        config.rows_to_discard as nat,
                    );
                    lemma_bytes_monotonic(
                        geometry.cache_size as nat,
                        store_range as nat,
                        elem_len as nat,
                    );
                }
                let cache_size: usize = geometry.cache_size * elem_len;
                if store_size != cache_size {
                    return Err(StoreError::StoreSize { found: store_size, expected: cache_size });
                }
                let mut store = Self::assemble(
                    store_range,
                    elem_len,
                    geometry,
                    store_size,
                    &config.data_path,
                );
                store.reader = Some(reader);
                Ok(store)
            },
        }
    }

    /// Opens a remote object of `store_size` bytes that holds the base row and the
    /// cached rows of a tree with `store_range` elements.
    pub fn new_from_oss(
        store_range: usize,
        branches: usize,
        elem_len: usize,
        config: &StoreConfig,
        store_size: usize,
    ) -> (r: Result<Self, StoreError>)
        requires
            spec_new_from_oss(
                store_range as nat,
                branches as nat,
                elem_len as nat,
                config@,
                store_size as nat,
            ) is Ok ==> elem_len > 0,
            spec_geometry(
                store_range as nat,
                branches as nat,
                config.rows_to_discard as nat,
            ) is Ok ==> store_range * elem_len <= usize::MAX,
        ensures
            opens_as(
                r,
                spec_new_from_oss(
                    store_range as nat,
                    branches as nat,
                    elem_len as nat,
                    config@,
                    store_size as nat,
                ),
            ),
    {
        match store_geometry(store_range, branches, config.rows_to_discard) {
            Err(e) => Err(e),
            Ok(geometry) => {
                proof {
                    lemma_geometry_bounds(
                        store_range as nat,
                        branches as nat,
                        config.rows_to_discard as nat,
                    );
                }
                let mut store = Self::assemble(
                    store_range,
                    elem_len,
                    geometry,
                    store_size,
                    &config.data_path,
                );
                store.oss = true;
                store.oss_config = config.oss_config.clone();
                Ok(store)
            },
        }
    }

    /// Decides where the data of a store come from, given whether its file exists.
    pub fn origin(config: &StoreConfig, exists: bool) -> (r: Origin)
        ensures
            r == spec_origin(config.oss, exists),
    {
        if config.oss {
            Origin::Oss
        } else if exists {
            Origin::Disk
        } else {
            Origin::Created
        }
    }

    /// Makes a store by its configuration: opens the remote object or the file, which has
    /// `found` bytes, or makes an empty store over a new file where there is none.
    pub fn new_with_config(
        size: usize,
        branches: usize,
        elem_len: usize,
        config: &StoreConfig,
        found: Option<usize>,
    ) -> (r: Result<Self, StoreError>)
        requires
            size * elem_len <= usize::MAX,
            config.oss ==> found is Some,
            found matches Some(store_size) && spec_new_with_config(
                size as nat,
                branches as nat,
                elem_len as nat,
                config@,
                Some(store_size as nat),
            ) is Ok ==> elem_len > 0,
        ensures
            opens_as(
                r,
                spec_new_with_config(
                    size as nat,
                    branches as nat,
                    elem_len as nat,
                    config@,
                    match found {
                        Some(store_size) => Some(store_size as nat),
                        None => None,
                    },
                ),
            ),
    {
        match found {
            Some(store_size) => if config.oss {
                Self::new_from_oss(size, branches, elem_len, config, store_size)
            } else {
                Self::new_from_disk(size, branches, elem_len, config, store_size)
            },
            None => Self::create(size, branches, elem_len, config),
        }
    }

    /// Makes an empty store over a new file that has room for a tree of `size`
    /// elements.
    fn create(
        size: usize,
        branches: usize,
        elem_len: usize,
        config: &StoreConfig,
    ) -> (r: Result<Self, StoreError>)
        requires
            size * elem_len <= usize::MAX,
        ensures
            opens_as(
                r,
                spec_created(size as nat, branches as nat, elem_len as nat, config@),
            ),
    {
        let store_size: usize = elem_len * size;
        match store_geometry(size, branches, config.rows_to_discard) {
            Err(e) => Err(e),
            Ok(geometry) => {
                proof {
                    lemma_geometry_bounds(
                        size as nat,
                        branches as nat,
                        config.rows_to_discard as nat,
                    );
                }
                let mut store = Self::assemble(
                    size,
                    elem_len,
                    geometry,
                    store_size,
                    &config.data_path,
                );
                store.len = 0;
                store.loaded_from_disk = false;
                Ok(store)
            },
        }
    }

    /// Makes an empty store of `size` elements over a temporary file.
    pub fn new(size: usize, elem_len: usize) -> (r: Self)
        requires
            size * elem_len <= usize::MAX,
        ensures
            r@ == spec_new(size as nat, elem_len as nat),
            r@.wf(),
    {
        LevelCacheStore {
            len: 0,
            elem_len,
            data_width: size,
            cache_index_start: 0,
            loaded_from_disk: false,
            store_size: elem_len * size,
            reader: None,
            oss: false,
            oss_config: StoreOssConfig::default(),
            path: String::from_str("tmp"),
            data_path: String::from_str("/tmp"),
        }
    }

    /// Lets `reader` serve the base row.
    pub fn set_external_reader(&mut self, reader: ReaderInfo) -> (r: Result<(), StoreError>)
        ensures
            r is Ok,
            final(self)@ == (StoreView { reader: Some(reader@), ..old(self)@ }),
    {
        self.reader = Some(reader);
        Ok(())
    }

    /// Records that the store holds `len` elements.
    pub fn set_len(&mut self, len: usize)
        ensures
            final(self)@ == (StoreView { len: len as nat, ..old(self)@ }),
    {
        self.len = len;
    }

    /// The number of elements in the store.
    pub fn len(&self) -> (r: usize)
        ensures
            r == self@.len,
    {
        self.len
    }

    /// Whether the store holds no element.
    pub fn is_empty(&self) -> (r: bool)
        ensures
            r == (self@.len == 0),
    {
        self.len == 0
    }

    /// The size of the file or object in bytes.
    pub fn store_size(&self) -> (r: usize)
        ensures
            r == self@.store_size,
    {
        self.store_size
    }

    /// The number of elements in the base row.
    pub fn data_width(&self) -> (r: usize)
        ensures
            r == self@.data_width,
    {
        self.data_width
    }

    /// Where the cached rows begin in the bytes of the tree.
    pub fn cache_index_start(&self) -> (r: usize)
        ensures
            r == self@.cache_index_start,
    {
        self.cache_index_start
    }

    /// Whether the store was loaded from data that existed before.
    pub fn loaded_from_disk(&self) -> (r: bool)
        ensures
            r == self@.loaded_from_disk,
    {
        self.loaded_from_disk
    }

    /// Whether the data lie in a remote object.
    pub fn oss(&self) -> (r: bool)
        ensures
            r == self@.oss,
    {
        self.oss
    }

    /// How to reach the remote object.
    pub fn oss_config(&self) -> (r: &StoreOssConfig)
        ensures
            r@ == self@.oss_config,
    {
        &self.oss_config
    }

    /// By what the store is named in messages, and its remote object found.
    pub fn path_text(&self) -> (r: &String)
        ensures
            r@ == self@.path,
    {
        &self.path
    }

    /// The file of the store.
    pub fn path(&self) -> (r: Option<&String>)
        ensures
            r is Some,
            r.unwrap()@ == self@.data_path,
    {
        Some(&self.data_path)
    }

    /// The cached rows cannot be compacted any further.
    pub fn compact(&mut self, branches: usize, config: StoreConfig, store_version: u32) -> (r:
        Result<bool, StoreError>)
        ensures
            r == Err::<bool, StoreError>(StoreError::CannotCompact),
            *final(self) == *old(self),
    {
        Err(StoreError::CannotCompact)
    }
}

} // verus!
