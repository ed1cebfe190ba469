//! Where to write the bytes of a store.
//!
//! A write is checked and turned into a plan. Once the caller has carried it out,
//! `commit` records the elements that are there now; a write that failed is not
//! committed and leaves the store as it was.
use vstd::arithmetic::div_mod::*;
use vstd::prelude::*;
use crate::error::StoreError;
use super::{spec_new, LevelCacheStore, StoreView};

verus! {

/// Which bytes of the file to write, and what the store holds afterwards.
#[derive(Clone, Copy, Debug, PartialEq, Eq, Structural)]
pub struct WritePlan {
    /// Where in the file the bytes go.
    pub offset: usize,
    /// The number of bytes.
    pub len: usize,
    /// The number of elements in the store after the write.
    pub elements: usize,
}

/// What a plan says.
pub struct WriteTarget {
    pub offset: nat,
    pub len: nat,
    pub elements: nat,
}

impl View for WritePlan {
    type V = WriteTarget;

    open spec fn view(&self) -> WriteTarget {
        WriteTarget {
            offset: self.offset as nat,
            len: self.len as nat,
            elements: self.elements as nat,
        }
    }
}

/// Whether planning gave the expected plan, or the expected error.
pub open spec fn plans_write(
    r: Result<WritePlan, StoreError>,
    expected: Result<WriteTarget, StoreError>,
) -> bool {
    match (r, expected) {
        (Ok(plan), Ok(target)) => plan@ == target,
        (Err(x), Err(y)) => x == y,
        _ => false,
    }
}

/// The larger of two counts.
pub open spec fn larger(x: nat, y: nat) -> nat {
    if x < y {
        y
    } else {
        x
    }
}

impl StoreView {
    /// The plan to write `len` bytes at `start`, after which the store holds `elements`
    /// elements.
    pub open spec fn write_target(self, start: nat, len: nat, elements: nat) -> Result<
        WriteTarget,
        StoreError,
    > {
        if start + len <= self.store_size {
            Ok(WriteTarget { offset: start, len, elements })
        } else {
            Err(StoreError::SliceTooLarge { max: self.store_size as usize })
        }
    }

    /// The plan to write an element of `el_len` bytes as element `index`.
    pub open spec fn write_at_target(self, index: nat, el_len: nat) -> Result<
        WriteTarget,
        StoreError,
    > {
        self.write_target(index * self.elem_len, el_len, larger(self.len, index + 1))
    }

    /// The plan to write an element of `el_len` bytes behind the elements in the store.
    pub open spec fn push_target(self, el_len: nat) -> Result<WriteTarget, StoreError> {
        if (self.len + 1) * self.elem_len > self.store_size {
            Err(
                StoreError::NotEnoughSpace {
                    len: self.len as usize,
                    elem_len: self.elem_len as usize,
                    store_size: self.store_size as usize,
                },
            )
        } else {
            self.write_at_target(self.len, el_len)
        }
    }

    /// The store after a write has been carried out.
    pub open spec fn after_write(self, target: WriteTarget) -> Self {
        StoreView { len: target.elements, ..self }
    }
}

impl LevelCacheStore {
    /// Plans to write `slice_len` bytes at `start`. The number of elements stays.
    pub fn store_copy_from_slice(&self, start: usize, slice_len: usize) -> (r: Result<
        WritePlan,
        StoreError,
    >)
        requires
            start + slice_len <= usize::MAX,
        ensures
            plans_write(
                r,
                self@.write_target(start as nat, slice_len as nat, self@.len),
            ),
    {
        if start + slice_len > self.store_size {
            return Err(StoreError::SliceTooLarge { max: self.store_size });
        }
        Ok(WritePlan { offset: start, len: slice_len, elements: self.len })
    }

    /// Plans to write an element of `el_len` bytes as element `index`.
    pub fn write_at(&self, index: usize, el_len: usize) -> (r: Result<WritePlan, StoreError>)
        requires
            index * self@.elem_len + el_len <= usize::MAX,
            self@.write_at_target(index as nat, el_len as nat) is Ok ==> index < usize::MAX,
        ensures
            plans_write(r, self@.write_at_target(index as nat, el_len as nat)),
    {
        match self.store_copy_from_slice(index * self.elem_len, el_len) {
            Err(e) => Err(e),
            Ok(plan) => {
                let elements: usize = if self.len < index + 1 {
                    index + 1
                } else {
                    self.len
                };
                Ok(WritePlan { offset: plan.offset, len: plan.len, elements })
            },
        }
    }

    /// Plans to write whole elements of `buf_len` bytes from element `start` on.
    pub fn copy_from_slice(&self, buf_len: usize, start: usize) -> (r: Result<
        WritePlan,
        StoreError,
    >)
        requires
            self@.elem_len > 0,
            buf_len as nat % self@.elem_len == 0 ==> start * self@.elem_len + buf_len
                <= usize::MAX,
        ensures
            plans_write(
                r,
                if buf_len as nat % self@.elem_len != 0 {
                    Err(StoreError::BufSize { multiple_of: self@.elem_len as usize })
                } else {
                    self@.write_target(
                        start as nat * self@.elem_len,
                        buf_len as nat,
                        larger(self@.len, start as nat + buf_len as nat / self@.elem_len),
                    )
                },
            ),
    {
        if buf_len % self.elem_len != 0 {
            return Err(StoreError::BufSize { multiple_of: self.elem_len });
        }
        match self.store_copy_from_slice(start * self.elem_len, buf_len) {
            Err(e) => Err(e),
            Ok(plan) => {
                proof {
                    let elem_len = self@.elem_len as int;
                    lemma_div_nonincreasing(buf_len as int, elem_len);
                    assert(start <= start * elem_len) by (nonlinear_arith)
                        requires
                            elem_len >= 1,
                    ;
                }
                let after: usize = start + buf_len / self.elem_len;
                let elements: usize = if self.len < after {
                    after
                } else {
                    self.len
                };
                Ok(WritePlan { offset: plan.offset, len: plan.len, elements })
            },
        }
    }

    /// Plans to write an element of `el_len` bytes behind the elements in the store.
    pub fn push(&self, el_len: usize) -> (r: Result<WritePlan, StoreError>)
        requires
            (self@.len + 1) * self@.elem_len <= usize::MAX,
            self@.len < usize::MAX,
            (self@.len + 1) * self@.elem_len <= self@.store_size ==> self@.byte_len() + el_len
                <= usize::MAX,
        ensures
            plans_write(r, self@.push_target(el_len as nat)),
    {
        let len: usize = self.len;
        if (len + 1) * self.elem_len > self.store_size {
            return Err(
                StoreError::NotEnoughSpace {
                    len,
                    elem_len: self.elem_len,
                    store_size: self.store_size,
                },
            );
        }
        self.write_at(len, el_len)
    }

    /// Records a write that has been carried out.
    pub fn commit(&mut self, plan: WritePlan)
        ensures
            final(self)@ == old(self)@.after_write(plan@),
            final(self)@ == (StoreView { len: plan.elements as nat, ..old(self)@ }),
    {
        self.len = plan.elements;
    }

    /// Refuses data that are not whole elements.
    pub fn check_data_len(data_len: usize, elem_len: usize) -> (r: Result<(), StoreError>)
        requires
            elem_len > 0,
        ensures
            r == (if data_len % elem_len == 0 {
                Ok::<(), StoreError>(())
            } else {
                Err(StoreError::DataSize { multiple_of: elem_len })
            }),
    {
        if data_len % elem_len != 0 {
            return Err(StoreError::DataSize { multiple_of: elem_len });
        }
        Ok(())
    }

    /// Makes a store of `size` elements over a temporary file and plans to fill it with
    /// `data_len` bytes.
    pub fn new_from_slice(size: usize, elem_len: usize, data_len: usize) -> (r: Result<
        (Self, WritePlan),
        StoreError,
    >)
        requires
            elem_len > 0,
            data_len % elem_len == 0 ==> size * elem_len <= usize::MAX,
        ensures
            ({
                let fresh = spec_new(size as nat, elem_len as nat);
                let written = fresh.write_target(
                    0,
                    data_len as nat,
                    data_len as nat / elem_len as nat,
                );
                if data_len % elem_len != 0 {
                    r == Err::<(Self, WritePlan), StoreError>(
                        StoreError::DataSize { multiple_of: elem_len },
                    )
                } else {
                    match (r, written) {
                        (Ok((store, plan)), Ok(target)) => store@ == fresh && store@.wf() && plan@
                            == target,
                        (Err(x), Err(y)) => x == y,
                        _ => false,
                    }
                }
            }),
    {
        match Self::check_data_len(data_len, elem_len) {
            Err(e) => {
                return Err(e);
            },
            Ok(_) => {},
        }
        let store = Self::new(size, elem_len);
        match store.fill(data_len) {
            Err(e) => Err(e),
            Ok(plan) => Ok((store, plan)),
        }
    }

    /// Plans to fill the store with `data_len` bytes from its first element on.
    fn fill(&self, data_len: usize) -> (r: Result<WritePlan, StoreError>)
        requires
            self@.elem_len > 0,
        ensures
            plans_write(
                r,
                self@.write_target(0, data_len as nat, data_len as nat / self@.elem_len),
            ),
    {
        match self.store_copy_from_slice(0, data_len) {
            Err(e) => Err(e),
            Ok(plan) => Ok(
                WritePlan {
                    offset: plan.offset,
                    len: plan.len,
                    elements: data_len / self.elem_len,
                },
            ),
        }
    }

    /// Plans to fill a store that was just opened with `data_len` bytes. Nothing is
    /// written where the store was loaded: its data are taken to be there already.
    pub fn populate(&self, data_len: usize) -> (r: Result<Option<WritePlan>, StoreError>)
        requires
            self@.elem_len > 0,
        ensures
            if self@.loaded_from_disk {
                r == Ok::<Option<WritePlan>, StoreError>(None)
            } else {
                match (
                    r,
                    self@.write_target(0, data_len as nat, data_len as nat / self@.elem_len),
                ) {
                    (Ok(Some(plan)), Ok(target)) => plan@ == target,
                    (Err(x), Err(y)) => x == y,
                    _ => false,
                }
            },
    {
        if self.loaded_from_disk {
            return Ok(None);
        }
        match self.fill(data_len) {
            Err(e) => Err(e),
            Ok(plan) => Ok(Some(plan)),
        }
    }
}

} // verus!
