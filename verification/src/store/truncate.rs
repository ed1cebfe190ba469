//! Removing elements from the front of the file.
//!
//! The caller copies and cuts the file as planned, and then has the new size of the file
//! recorded by `truncated`.
use vstd::prelude::*;
use crate::error::StoreError;
use super::{LevelCacheStore, StoreView};

verus! {

/// Copy the bytes from `skip` on to the front of the file, then cut the file.
#[derive(Clone, Copy, Debug, PartialEq, Eq, Structural)]
pub struct TruncatePlan {
    /// The number of bytes to remove.
    pub skip: u64,
    /// The number of bytes that stay.
    pub keep: u64,
}

impl StoreView {
    /// The plan to remove `len` elements from the front of a file of `file_len` bytes.
    pub open spec fn truncate_plan(self, file_len: u64, len: usize) -> Result<
        TruncatePlan,
        StoreError,
    > {
        if file_len < len * self.elem_len {
            Err(StoreError::TruncationLength)
        } else {
            Ok(
                TruncatePlan {
                    skip: (len * self.elem_len) as u64,
                    keep: (file_len - len * self.elem_len) as u64,
                },
            )
        }
    }

    /// The store after its file has been cut as planned.
    pub open spec fn after_cut(self, plan: TruncatePlan) -> Self {
        StoreView { store_size: plan.keep as nat, ..self }
    }
}

impl LevelCacheStore {
    /// Plans to remove `len` elements from the front of a file of `file_len` bytes.
    pub fn front_truncate(&self, file_len: u64, len: usize) -> (r: Result<
        TruncatePlan,
        StoreError,
    >)
        requires
            len * self@.elem_len <= usize::MAX,
        ensures
            r == self@.truncate_plan(file_len, len),
    {
        let skip: u64 = (len * self.elem_len) as u64;
        if file_len < skip {
            return Err(StoreError::TruncationLength);
        }
        Ok(TruncatePlan { skip, keep: file_len - skip })
    }

    /// Records that the file has been cut as planned.
    pub fn truncated(&mut self, plan: TruncatePlan)
        requires
            plan.keep <= usize::MAX,
        ensures
            final(self)@ == old(self)@.after_cut(plan),
            final(self)@ == (StoreView { store_size: plan.keep as nat, ..old(self)@ }),
    {
        self.store_size = plan.keep as usize;
    }
}

impl TruncatePlan {
    /// The length to cut the file to, once `written` bytes have been copied.
    pub fn copied(&self, written: u64) -> (r: Result<u64, StoreError>)
        ensures
            r == (if written == self.keep {
                Ok::<u64, StoreError>(written)
            } else {
                Err(StoreError::CopyIncomplete)
            }),
    {
        if written != self.keep {
            return Err(StoreError::CopyIncomplete);
        }
        Ok(written)
    }
}

} // verus!
