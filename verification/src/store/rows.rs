//! Building the rows of a tree above its leafs.
//!
//! The file holds the leafs at first. One row after the other is hashed into the next.
//! As long as a row is not to be cached, it is removed from the front of the file once
//! the next row is written. In the end the file holds the cached rows alone.
use vstd::arithmetic::div_mod::*;
use vstd::arithmetic::power2::*;
use vstd::prelude::*;
use crate::config::{ConfigView, StoreConfig};
use crate::error::StoreError;
use crate::tree::{
    get_merkle_tree_cache_size, get_merkle_tree_len, is_power_of_two, law_cache_completes_tree,
    row_count, row_width, rows_len, spec_cache_size, spec_tree_len, tree_len,
    lemma_rows_len_from_base,
};
use super::read::{lemma_next_element, plans, ReadPlan, ReadTarget};
use super::truncate::TruncatePlan;
use super::{LevelCacheStore, StoreView};

verus! {

/// A tree that is being built.
#[derive(Debug)]
pub struct BuildJob {
    branches: usize,
    leafs: usize,
    row_count: usize,
    tree_len: usize,
    cache_index_start: usize,
    level: usize,
    width: usize,
    level_node_index: usize,
}

/// How far a tree has been built.
#[verifier::ext_equal]
pub struct BuildView {
    pub branches: nat,
    pub leafs: nat,
    /// The number of rows that the tree should have.
    pub row_count: nat,
    /// The number of elements that the tree should have.
    pub tree_len: nat,
    /// The number of elements in the rows that are not cached.
    pub cache_index_start: nat,
    /// The row that is hashed next.
    pub level: nat,
    /// The number of elements in that row.
    pub width: nat,
    /// The number of elements in the rows below that row.
    pub level_node_index: nat,
}

/// One row to hash.
#[derive(Clone, Copy, Debug, PartialEq, Eq, Structural)]
pub struct LayerStep {
    /// The number of elements in the row.
    pub width: usize,
    /// Which row it is.
    pub level: usize,
    /// The element of the file where the row begins.
    pub read_start: usize,
    /// The element of the file where the next row is to begin.
    pub write_start: usize,
    /// Whether the row is to be removed from the front of the file afterwards.
    pub truncate: bool,
}

/// What a step says.
pub struct StepView {
    pub width: nat,
    pub level: nat,
    pub read_start: nat,
    pub write_start: nat,
    pub truncate: bool,
}

impl View for LayerStep {
    type V = StepView;

    open spec fn view(&self) -> StepView {
        StepView {
            width: self.width as nat,
            level: self.level as nat,
            read_start: self.read_start as nat,
            write_start: self.write_start as nat,
            truncate: self.truncate,
        }
    }
}

impl BuildView {
    /// The tree over `leafs` leafs before its first row is hashed.
    pub open spec fn begin(leafs: nat, branches: nat, row_count: nat, cached: nat) -> Self {
        BuildView {
            branches,
            leafs,
            row_count,
            tree_len: tree_len(leafs, branches),
            cache_index_start: (tree_len(leafs, branches) - cached) as nat,
            level: 0,
            width: leafs,
            level_node_index: 0,
        }
    }

    /// What every tree under construction keeps.
    pub open spec fn wf(self) -> bool {
        &&& self.branches >= 2
        &&& self.width == row_width(self.leafs, self.branches, self.level)
        &&& self.level_node_index == rows_len(self.leafs, self.branches, self.level)
        &&& self.tree_len == tree_len(self.leafs, self.branches)
        &&& self.tree_len == self.level_node_index + tree_len(self.width, self.branches)
        &&& self.level + row_count(self.width, self.branches) == row_count(
            self.leafs,
            self.branches,
        )
        &&& self.leafs <= self.cache_index_start < self.tree_len
    }

    /// The row that is hashed next, in a store of `store_len` elements.
    pub open spec fn layer(self, store_len: nat) -> StepView {
        StepView {
            width: self.width,
            level: self.level,
            read_start: if self.level == 0 || self.level_node_index < self.cache_index_start {
                0
            } else {
                (self.level_node_index - self.cache_index_start) as nat
            },
            write_start: if self.level == 0 {
                store_len
            } else if self.level_node_index < self.cache_index_start {
                self.width
            } else {
                (self.level_node_index + self.width - self.cache_index_start) as nat
            },
            truncate: self.level_node_index < self.cache_index_start,
        }
    }

    /// The tree after its next row has been hashed.
    pub open spec fn after_layer(self) -> Self {
        BuildView {
            level: self.level + 1,
            width: self.width / self.branches,
            level_node_index: self.level_node_index + self.width,
            ..self
        }
    }

    /// What is left to do once the rows are there: the place of the root in the file, or
    /// why the tree is not what it should be.
    pub open spec fn root_target(self, store: StoreView) -> Result<ReadTarget, StoreError> {
        let built = StoreView { len: store.len + 1, ..store };
        if built.len != self.tree_len {
            Err(StoreError::BuiltLength)
        } else if self.row_count != self.level + 1 {
            Err(StoreError::BuiltRowCount)
        } else {
            built.internal_target(
                ((self.tree_len - self.cache_index_start - 1) * store.elem_len) as nat,
                ((self.tree_len - self.cache_index_start) * store.elem_len) as nat,
            )
        }
    }
}

impl View for BuildJob {
    type V = BuildView;

    closed spec fn view(&self) -> BuildView {
        BuildView {
            branches: self.branches as nat,
            leafs: self.leafs as nat,
            row_count: self.row_count as nat,
            tree_len: self.tree_len as nat,
            cache_index_start: self.cache_index_start as nat,
            level: self.level as nat,
            width: self.width as nat,
            level_node_index: self.level_node_index as nat,
        }
    }
}

/// How building a tree over the leafs in a store begins, or why it cannot begin.
pub open spec fn spec_build(
    store: StoreView,
    branches: nat,
    leafs: nat,
    row_count: nat,
    config: Option<ConfigView>,
) -> Result<BuildView, StoreError> {
    if !is_pow2(branches as int) {
        Err(StoreError::Branches)
    } else if store.len != leafs {
        Err(StoreError::InconsistentData)
    } else if leafs % 2 != 0 {
        Err(StoreError::OddLeafs)
    } else {
        match config {
            None => Err(StoreError::MissingConfig),
            Some(config) => match spec_cache_size(leafs, branches, config.rows_to_discard) {
                Err(e) => Err(e),
                Ok(cached) => Ok(BuildView::begin(leafs, branches, row_count, cached)),
            },
        }
    }
}

/// What a configuration says, if there is one.
pub open spec fn config_view(config: Option<&StoreConfig>) -> Option<ConfigView> {
    match config {
        Some(config) => Some(config@),
        None => None,
    }
}

impl LevelCacheStore {
    /// Begins to build the tree of `row_count` rows over the `leafs` leafs in the store.
    pub fn build(
        &self,
        branches: usize,
        leafs: usize,
        row_count: usize,
        config: Option<&StoreConfig>,
    ) -> (r: Result<BuildJob, StoreError>)
        requires
            is_pow2(branches as int) && self@.len == leafs && leafs % 2 == 0 && config is Some
                && spec_tree_len(leafs as nat, branches as nat) is Ok ==> tree_len(
                leafs as nat,
                branches as nat,
            ) <= usize::MAX,
        ensures
            match (
                r,
                spec_build(
                    self@,
                    branches as nat,
                    leafs as nat,
                    row_count as nat,
                    config_view(config),
                ),
            ) {
                (Ok(job), Ok(view)) => job@ == view && job@.wf(),
                (Err(x), Err(y)) => x == y,
                _ => false,
            },
    {
        if !is_power_of_two(branches) {
            return Err(StoreError::Branches);
        }
        if self.len != leafs {
            return Err(StoreError::InconsistentData);
        }
        if leafs % 2 != 0 {
            return Err(StoreError::OddLeafs);
        }
        let rows_to_discard: usize = match config {
            None => {
                return Err(StoreError::MissingConfig);
            },
            Some(config) => config.rows_to_discard,
        };
        let cache_size: usize = match get_merkle_tree_cache_size(leafs, branches, rows_to_discard) {
            Err(e) => {
                return Err(e);
            },
            Ok(cache_size) => cache_size,
        };
        let tree_len: usize = match get_merkle_tree_len(leafs, branches) {
            Err(e) => {
                return Err(e);
            },
            Ok(tree_len) => tree_len,
        };
        proof {
            law_cache_completes_tree(leafs as nat, branches as nat, rows_to_discard as nat);
            lemma_rows_len_from_base(leafs as nat, branches as nat, rows_to_discard as nat + 1);
        }
        Ok(
            BuildJob {
                branches,
                leafs,
                row_count,
                tree_len,
                cache_index_start: tree_len - cache_size,
                level: 0,
                width: leafs,
                level_node_index: 0,
            },
        )
    }
}

impl BuildJob {
    /// The row to hash next, unless the root has been reached.
    pub fn next_layer(&self, store: &LevelCacheStore) -> (r: Option<LayerStep>)
        requires
            self@.wf(),
        ensures
            match r {
                Some(step) => self@.width > 1 && step@ == self@.layer(store@.len),
                None => self@.width <= 1,
            },
    {
        if self.width <= 1 {
            return None;
        }
        proof {
            lemma_div_decreases(self.width as int, self.branches as int);
        }
        let (read_start, write_start): (usize, usize) = if self.level == 0 {
            (0, store.len)
        } else if self.level_node_index < self.cache_index_start {
            (0, self.width)
        } else {
            (
                self.level_node_index - self.cache_index_start,
                (self.level_node_index + self.width) - self.cache_index_start,
            )
        };
        Some(
            LayerStep {
                width: self.width,
                level: self.level,
                read_start,
                write_start,
                truncate: self.level_node_index < self.cache_index_start,
            },
        )
    }

    /// Records that the row named by `next_layer` has been hashed and, where it was to be
    /// removed, that the file has been cut as planned.
    pub fn layer_done(&mut self, store: &mut LevelCacheStore, cut: Option<TruncatePlan>)
        requires
            old(self)@.wf(),
            old(self)@.width > 1,
            cut is Some <==> old(self)@.layer(old(store)@.len).truncate,
            cut matches Some(plan) ==> plan.keep <= usize::MAX && plan.skip == old(self)@.width
                * old(store)@.elem_len,
        ensures
            final(self)@ == old(self)@.after_layer(),
            final(self)@ == (BuildView {
                level: old(self)@.level + 1,
                width: old(self)@.width / old(self)@.branches,
                level_node_index: old(self)@.level_node_index + old(self)@.width,
                ..old(self)@
            }),
            final(self)@.wf(),
            final(store)@.len == old(self)@.level_node_index + old(self)@.width,
            final(store)@.store_size == (match cut {
                Some(plan) => plan.keep as nat,
                None => old(store)@.store_size,
            }),
            final(store)@ == (StoreView {
                len: final(self)@.level_node_index,
                ..match cut {
                    Some(plan) => old(store)@.after_cut(plan),
                    None => old(store)@,
                }
            }),
    {
        proof {
            lemma_row_count_bound(self.width as nat, self.branches as nat);
            lemma_row_count_bound(self.leafs as nat, self.branches as nat);
        }
        self.level_node_index = self.level_node_index + self.width;
        self.level = self.level + 1;
        self.width = self.width / self.branches;
        match cut {
            Some(plan) => store.truncated(plan),
            None => {},
        }
        store.set_len(self.level_node_index);
    }

    /// Accounts for the root, checks the tree and plans to read the root.
    pub fn finish(&self, store: &mut LevelCacheStore) -> (r: Result<ReadPlan, StoreError>)
        requires
            self@.wf(),
            old(store)@.wf(),
            old(store)@.len < usize::MAX,
            old(store)@.len + 1 == self@.tree_len && self@.row_count == self@.level + 1
                ==> self@.tree_len * old(store)@.elem_len <= usize::MAX,
        ensures
            plans(r, self@.root_target(old(store)@)),
            r matches Ok(plan) ==> {
                &&& plan matches ReadPlan::File { offset, len }
                &&& len == old(store)@.elem_len
                &&& offset + len == (self@.tree_len - self@.cache_index_start)
                    * old(store)@.elem_len
                &&& old(store)@.len + 1 == self@.tree_len
                &&& self@.row_count == self@.level + 1
            },
            old(store)@.len + 1 != self@.tree_len ==> r == Err::<ReadPlan, StoreError>(
                StoreError::BuiltLength,
            ),
            old(store)@.len + 1 == self@.tree_len && self@.row_count != self@.level + 1 ==> r
                == Err::<ReadPlan, StoreError>(StoreError::BuiltRowCount),
            final(store)@ == (StoreView { len: old(store)@.len + 1, ..old(store)@ }),
    {
        proof {
            lemma_row_count_bound(self.leafs as nat, self.branches as nat);
        }
        let len: usize = store.len;
        store.set_len(len + 1);
        if store.len != self.tree_len {
            return Err(StoreError::BuiltLength);
        }
        if self.row_count != self.level + 1 {
            return Err(StoreError::BuiltRowCount);
        }
        proof {
            let index = (self.tree_len - self.cache_index_start - 1) as nat;
            lemma_next_element(index, store@.elem_len);
            assert((index + 1) * store@.elem_len <= self.tree_len * store@.elem_len)
                by (nonlinear_arith)
                requires
                    index + 1 <= self.tree_len,
            ;
        }
        store.read_at_internal(store.len - self.cache_index_start - 1)
    }
}

/// A row count never exceeds the number of leafs.
proof fn lemma_row_count_bound(leafs: nat, branches: nat)
    requires
        branches >= 2,
    ensures
        row_count(leafs, branches) <= leafs,
        leafs > 0 ==> row_count(leafs, branches) >= 1,
    decreases leafs,
{
    if leafs > 0 {
        lemma_div_decreases(leafs as int, branches as int);
        lemma_row_count_bound(leafs / branches, branches);
    }
}

} // verus!
