//! Where to read the bytes of a store.
//!
//! Every read is checked and turned into a plan, which says whom to ask for which
//! bytes. The caller carries it out.
use vstd::prelude::*;
use crate::error::StoreError;
use super::{LevelCacheStore, StoreView};

verus! {

/// Whom to ask for bytes, and for which.
#[derive(Clone, Copy, Debug, PartialEq, Eq, Structural)]
pub enum ReadPlan {
    /// Ask the reader of the base row for the bytes from `start` to `end`.
    Reader { start: usize, end: usize },
    /// Ask for the bytes of the remote object from `start` to `end`.
    Oss { start: usize, end: usize },
    /// Read `len` bytes of the file at `offset`.
    File { offset: usize, len: usize },
}

/// What a plan says.
pub enum ReadTarget {
    Reader { start: nat, end: nat },
    Oss { start: nat, end: nat },
    File { offset: nat, len: nat },
}

impl View for ReadPlan {
    type V = ReadTarget;

    open spec fn view(&self) -> ReadTarget {
        match *self {
            ReadPlan::Reader { start, end } => ReadTarget::Reader {
                start: start as nat,
                end: end as nat,
            },
            ReadPlan::Oss { start, end } => ReadTarget::Oss { start: start as nat, end: end as nat },
            ReadPlan::File { offset, len } => ReadTarget::File {
                offset: offset as nat,
                len: len as nat,
            },
        }
    }
}

/// Whether planning gave the expected plan, or the expected error.
pub open spec fn plans(
    r: Result<ReadPlan, StoreError>,
    expected: Result<ReadTarget, StoreError>,
) -> bool {
    match (r, expected) {
        (Ok(plan), Ok(target)) => plan@ == target,
        (Err(x), Err(y)) => x == y,
        _ => false,
    }
}

impl StoreView {
    /// Whether a read may begin at `start`: not in a discarded row. The very end of the base
    /// row is let through even where a discarded row begins there.
    pub open spec fn accepts(self, start: nat) -> bool {
        start <= self.base_end() || start >= self.cache_index_start
    }

    /// Whether a read that begins at `start` is left to the reader.
    pub open spec fn served_by_reader(self, start: nat) -> bool {
        start < self.base_end() && self.reader is Some
    }

    /// Where the byte `start` of the tree lies in the file or object. The cached rows
    /// follow the base row, or open the file where a reader serves the base row.
    pub open spec fn stored_at(self, start: nat) -> nat {
        if start < self.cache_index_start {
            start
        } else if self.reader is None {
            (start - self.cache_index_start + self.base_end()) as nat
        } else {
            (start - self.cache_index_start) as nat
        }
    }

    /// Where the bytes of the tree from `start` to `end` are read. A read from the
    /// file takes `file_len` bytes.
    pub open spec fn target(self, start: nat, end: nat, file_len: nat) -> ReadTarget {
        let at = self.stored_at(start);
        if self.served_by_reader(start) {
            ReadTarget::Reader { start, end }
        } else if self.oss {
            ReadTarget::Oss { start: at, end: (at + (end - start)) as nat }
        } else {
            ReadTarget::File { offset: at, len: file_len }
        }
    }

    /// Whether the place of the bytes from `start` to `end` can be computed.
    pub open spec fn target_fits(self, start: nat, end: nat) -> bool {
        self.served_by_reader(start) || {
            &&& start <= end
            &&& self.stored_at(start) <= usize::MAX
            &&& self.oss ==> self.stored_at(start) + (end - start) <= usize::MAX
        }
    }

    /// Whether the bytes from `start` to `end` are there to be read, or why not.
    pub open spec fn range_check(self, start: nat, end: nat) -> Result<(), StoreError> {
        if start >= self.byte_len() {
            Err(
                StoreError::StartOutOfRange {
                    start: start as usize,
                    len: self.byte_len() as usize,
                },
            )
        } else if end > self.byte_len() {
            Err(StoreError::EndOutOfRange { end: end as usize, len: self.byte_len() as usize })
        } else if !self.accepts(start) {
            Err(StoreError::OutOfBounds)
        } else {
            Ok(())
        }
    }

    /// The plan for the bytes from `start` to `end` of the elements in the store.
    pub open spec fn checked_target(self, start: nat, end: nat, file_len: nat) -> Result<
        ReadTarget,
        StoreError,
    > {
        match self.range_check(start, end) {
            Err(e) => Err(e),
            Ok(_) => Ok(self.target(start, end, file_len)),
        }
    }

    /// The plan for the bytes of the file from `start` to `end`, as they lie there
    /// while the tree is built.
    pub open spec fn internal_target(self, start: nat, end: nat) -> Result<ReadTarget, StoreError> {
        match self.range_check(start, end) {
            Err(e) => Err(e),
            Ok(_) => Ok(ReadTarget::File { offset: start, len: (end - start) as nat }),
        }
    }
}

/// The bytes of `data` cut into pieces of `width` bytes; the last may be shorter.
pub open spec fn pieces(data: Seq<u8>, width: nat) -> Seq<Seq<u8>>
    decreases data.len(),
{
    if data.len() == 0 || width == 0 {
        Seq::empty()
    } else {
        let first = if data.len() < width {
            data.len() as int
        } else {
            width as int
        };
        seq![data.take(first)] + pieces(data.skip(first), width)
    }
}

/// The bytes of each vector.
pub open spec fn views(vectors: Seq<Vec<u8>>) -> Seq<Seq<u8>> {
    Seq::new(vectors.len(), |i: int| vectors[i]@)
}

impl LevelCacheStore {
    /// Refuses a read that leaves the elements in the store or begins in a discarded
    /// row, but for one that begins exactly where the base row ends.
    pub fn check_range(&self, start: usize, end: usize) -> (r: Result<(), StoreError>)
        requires
            self@.wf(),
            self@.byte_len() <= usize::MAX,
        ensures
            r == self@.range_check(start as nat, end as nat),
    {
        let len: usize = self.len * self.elem_len;
        if start >= len {
            return Err(StoreError::StartOutOfRange { start, len });
        }
        if end > len {
            return Err(StoreError::EndOutOfRange { end, len });
        }
        if start > self.data_width * self.elem_len && start < self.cache_index_start {
            return Err(StoreError::OutOfBounds);
        }
        Ok(())
    }

    /// Tells whether the place of the bytes from `start` to `end` can be computed, if a
    /// read may begin at `start` at all.
    pub fn can_place(&self, start: usize, end: usize) -> (r: bool)
        requires
            self@.wf(),
        ensures
            r == (self@.accepts(start as nat) ==> self@.target_fits(start as nat, end as nat)),
    {
        let base_end: usize = self.data_width * self.elem_len;
        if start > base_end && start < self.cache_index_start {
            return true;
        }
        if start < base_end && self.reader.is_some() {
            return true;
        }
        if start > end {
            return false;
        }
        let at: usize = if start < self.cache_index_start {
            start
        } else if self.reader.is_some() {
            start - self.cache_index_start
        } else if start - self.cache_index_start <= usize::MAX - base_end {
            start - self.cache_index_start + base_end
        } else {
            return false;
        };
        !self.oss || end - start <= usize::MAX - at
    }

    /// Where the byte `start` of the tree lies in the file or object.
    pub(super) fn adjusted_start(&self, start: usize) -> (r: usize)
        requires
            self@.wf(),
            self@.stored_at(start as nat) <= usize::MAX,
        ensures
            r == self@.stored_at(start as nat),
    {
        if start >= self.cache_index_start {
            if self.reader.is_none() {
                start - self.cache_index_start + self.data_width * self.elem_len
            } else {
                start - self.cache_index_start
            }
        } else {
            start
        }
    }

    /// The plan for the bytes from `start` to `end`; a read from the file takes
    /// `file_len` bytes.
    fn plan_read(&self, start: usize, end: usize, file_len: usize) -> (r: ReadPlan)
        requires
            self@.wf(),
            self@.target_fits(start as nat, end as nat),
        ensures
            r@ == self@.target(start as nat, end as nat, file_len as nat),
    {
        if start < self.data_width * self.elem_len && self.reader.is_some() {
            return ReadPlan::Reader { start, end };
        }
        let at: usize = self.adjusted_start(start);
        if self.oss {
            ReadPlan::Oss { start: at, end: at + (end - start) }
        } else {
            ReadPlan::File { offset: at, len: file_len }
        }
    }

    /// Plans to read the bytes of the tree from `start` to `end`.
    pub fn store_read_range(&self, start: usize, end: usize) -> (r: Result<ReadPlan, StoreError>)
        requires
            self@.wf(),
            start <= end,
            self@.accepts(start as nat) ==> self@.target_fits(start as nat, end as nat),
        ensures
            plans(
                r,
                if self@.accepts(start as nat) {
                    Ok(self@.target(start as nat, end as nat, (end - start) as nat))
                } else {
                    Err(StoreError::OutOfBounds)
                },
            ),
    {
        if start > self.data_width * self.elem_len && start < self.cache_index_start {
            return Err(StoreError::OutOfBounds);
        }
        Ok(self.plan_read(start, end, end - start))
    }

    /// Plans to read the bytes of the tree from `start` to `end` into a buffer of
    /// `buf_len` bytes. A read from the file fills the buffer, whatever its length.
    pub fn store_read_into(&self, start: usize, end: usize, buf_len: usize) -> (r: Result<
        ReadPlan,
        StoreError,
    >)
        requires
            self@.wf(),
            self@.accepts(start as nat) ==> self@.target_fits(start as nat, end as nat),
        ensures
            plans(
                r,
                if self@.accepts(start as nat) {
                    Ok(self@.target(start as nat, end as nat, buf_len as nat))
                } else {
                    Err(StoreError::InvalidReadStart)
                },
            ),
    {
        if start > self.data_width * self.elem_len && start < self.cache_index_start {
            return Err(StoreError::InvalidReadStart);
        }
        Ok(self.plan_read(start, end, buf_len))
    }

    /// Plans to read the element `index`.
    pub fn read_at(&self, index: usize) -> (r: Result<ReadPlan, StoreError>)
        requires
            self@.wf(),
            self@.byte_len() <= usize::MAX,
            (index + 1) * self@.elem_len <= usize::MAX,
            self@.range_check(index as nat * self@.elem_len, (index + 1) as nat * self@.elem_len)
                is Ok ==> self@.target_fits(
                index as nat * self@.elem_len,
                (index + 1) as nat * self@.elem_len,
            ),
        ensures
            plans(
                r,
                self@.checked_target(
                    index as nat * self@.elem_len,
                    (index + 1) as nat * self@.elem_len,
                    self@.elem_len,
                ),
            ),
    {
        proof {
            lemma_next_element(index as nat, self@.elem_len);
        }
        let start: usize = index * self.elem_len;
        let end: usize = start + self.elem_len;
        match self.check_range(start, end) {
            Err(e) => Err(e),
            Ok(_) => self.store_read_range(start, end),
        }
    }

    /// Plans to read the element `index` into a buffer of `buf_len` bytes.
    pub fn read_into(&self, index: usize, buf_len: usize) -> (r: Result<ReadPlan, StoreError>)
        requires
            self@.wf(),
            self@.byte_len() <= usize::MAX,
            (index + 1) * self@.elem_len <= usize::MAX,
            self@.range_check(index as nat * self@.elem_len, (index + 1) as nat * self@.elem_len)
                is Ok ==> self@.target_fits(
                index as nat * self@.elem_len,
                (index + 1) as nat * self@.elem_len,
            ),
        ensures
            plans(
                r,
                self@.checked_target(
                    index as nat * self@.elem_len,
                    (index + 1) as nat * self@.elem_len,
                    buf_len as nat,
                ),
            ),
    {
        proof {
            lemma_next_element(index as nat, self@.elem_len);
        }
        let start: usize = index * self.elem_len;
        let end: usize = start + self.elem_len;
        match self.check_range(start, end) {
            Err(e) => Err(e),
            Ok(_) => self.store_read_into(start, end, buf_len),
        }
    }

    /// Plans to read the elements from `start` to `end` into a buffer of `buf_len`
    /// bytes.
    pub fn read_range_into(&self, start: usize, end: usize, buf_len: usize) -> (r: Result<
        ReadPlan,
        StoreError,
    >)
        requires
            self@.wf(),
            self@.byte_len() <= usize::MAX,
            start * self@.elem_len <= usize::MAX,
            end * self@.elem_len <= usize::MAX,
            self@.range_check(start as nat * self@.elem_len, end as nat * self@.elem_len) is Ok
                ==> self@.target_fits(start as nat * self@.elem_len, end as nat * self@.elem_len),
        ensures
            plans(
                r,
                self@.checked_target(
                    start as nat * self@.elem_len,
                    end as nat * self@.elem_len,
                    buf_len as nat,
                ),
            ),
    {
        let first: usize = start * self.elem_len;
        let last: usize = end * self.elem_len;
        match self.check_range(first, last) {
            Err(e) => Err(e),
            Ok(_) => self.store_read_into(first, last, buf_len),
        }
    }

    /// Plans to read the elements from `start` to `end`. The bytes read are cut into
    /// elements by `split_elements`.
    pub fn read_range(&self, start: usize, end: usize) -> (r: Result<ReadPlan, StoreError>)
        requires
            self@.wf(),
            self@.byte_len() <= usize::MAX,
            start * self@.elem_len <= usize::MAX,
            end * self@.elem_len <= usize::MAX,
            self@.range_check(start as nat * self@.elem_len, end as nat * self@.elem_len) is Ok
                ==> start <= end && self@.target_fits(
                start as nat * self@.elem_len,
                end as nat * self@.elem_len,
            ),
        ensures
            plans(
                r,
                self@.checked_target(
                    start as nat * self@.elem_len,
                    end as nat * self@.elem_len,
                    ((end - start) * self@.elem_len) as nat,
                ),
            ),
    {
        let first: usize = start * self.elem_len;
        let last: usize = end * self.elem_len;
        match self.check_range(first, last) {
            Err(e) => Err(e),
            Ok(_) => {
                proof {
                    lemma_element_span(start as nat, end as nat, self@.elem_len);
                }
                self.store_read_range(first, last)
            },
        }
    }

    /// Plans to read the bytes of the file from `start` to `end`, as they lie there
    /// while the tree is built.
    pub fn store_read_range_internal(&self, start: usize, end: usize) -> (r: Result<
        ReadPlan,
        StoreError,
    >)
        requires
            self@.wf(),
            start <= end,
        ensures
            plans(
                r,
                if self@.accepts(start as nat) {
                    Ok(ReadTarget::File { offset: start as nat, len: (end - start) as nat })
                } else {
                    Err(StoreError::OutOfBounds)
                },
            ),
    {
        if start > self.data_width * self.elem_len && start < self.cache_index_start {
            return Err(StoreError::OutOfBounds);
        }
        Ok(ReadPlan::File { offset: start, len: end - start })
    }

    /// Plans to read the elements from `start` to `end` while the tree is built.
    pub fn read_range_internal(&self, start: usize, end: usize) -> (r: Result<
        ReadPlan,
        StoreError,
    >)
        requires
            self@.wf(),
            self@.byte_len() <= usize::MAX,
            start * self@.elem_len <= usize::MAX,
            end * self@.elem_len <= usize::MAX,
            self@.range_check(start as nat * self@.elem_len, end as nat * self@.elem_len) is Ok
                ==> start <= end,
        ensures
            plans(
                r,
                self@.internal_target(start as nat * self@.elem_len, end as nat * self@.elem_len),
            ),
    {
        let first: usize = start * self.elem_len;
        let last: usize = end * self.elem_len;
        match self.check_range(first, last) {
            Err(e) => Err(e),
            Ok(_) => {
                proof {
                    lemma_element_span(start as nat, end as nat, self@.elem_len);
                }
                self.store_read_range_internal(first, last)
            },
        }
    }

    /// Plans to read the element `index` while the tree is built.
    pub fn read_at_internal(&self, index: usize) -> (r: Result<ReadPlan, StoreError>)
        requires
            self@.wf(),
            self@.byte_len() <= usize::MAX,
            (index + 1) * self@.elem_len <= usize::MAX,
        ensures
            plans(
                r,
                self@.internal_target(
                    index as nat * self@.elem_len,
                    (index + 1) as nat * self@.elem_len,
                ),
            ),
    {
        proof {
            lemma_next_element(index as nat, self@.elem_len);
        }
        let start: usize = index * self.elem_len;
        let end: usize = start + self.elem_len;
        match self.check_range(start, end) {
            Err(e) => Err(e),
            Ok(_) => self.store_read_range_internal(start, end),
        }
    }

    /// Cuts the bytes of a run of elements into the elements.
    pub fn split_elements(&self, data: &[u8]) -> (r: Vec<Vec<u8>>)
        requires
            self@.elem_len > 0,
        ensures
            views(r@) == pieces(data@, self@.elem_len),
    {
        let mut elements: Vec<Vec<u8>> = Vec::new();
        let mut at: usize = 0;
        let width: usize = self.elem_len;
        proof {
            assert(data@.skip(0) =~= data@);
            assert(views(elements@) + pieces(data@, width as nat) =~= pieces(data@, width as nat));
        }
        while at < data.len()
            invariant
                at <= data@.len(),
                width == self@.elem_len > 0,
                views(elements@) + pieces(data@.skip(at as int), width as nat) == pieces(
                    data@,
                    width as nat,
                ),
            decreases data@.len() - at,
        {
            let next: usize = if data.len() - at < width {
                data.len()
            } else {
                at + width
            };
            let mut element: Vec<u8> = Vec::new();
            element.extend_from_slice(vstd::slice::slice_subrange(data, at, next));
            let ghost before = views(elements@);
            let ghost rest = data@.skip(at as int);
            elements.push(element);
            proof {
                let first = next - at;
                assert(element@ =~= rest.take(first));
                assert(rest.skip(first) =~= data@.skip(next as int));
                assert(views(elements@) =~= before.push(rest.take(first)));
                assert(before + (seq![rest.take(first)] + pieces(rest.skip(first), width as nat))
                    =~= before.push(rest.take(first)) + pieces(rest.skip(first), width as nat));
            }
            at = next;
        }
        proof {
            assert(views(elements@) + Seq::<Seq<u8>>::empty() =~= views(elements@));
        }
        elements
    }
}

/// The element after `index` begins one element length further on.
pub proof fn lemma_next_element(index: nat, elem_len: nat)
    ensures
        (index + 1) * elem_len == index * elem_len + elem_len,
{
    assert((index + 1) * elem_len == index * elem_len + elem_len) by (nonlinear_arith);
}

/// The elements from `start` to `end` take the bytes between them.
pub proof fn lemma_element_span(start: nat, end: nat, elem_len: nat)
    requires
        start <= end,
    ensures
        end * elem_len - start * elem_len == (end - start) * elem_len,
        start * elem_len <= end * elem_len,
{
    assert(end * elem_len - start * elem_len == (end - start) * elem_len) by (nonlinear_arith);
    assert(start * elem_len <= end * elem_len) by (nonlinear_arith)
        requires
            start <= end,
    ;
}

} // verus!
