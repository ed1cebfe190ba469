//! What writes do, stated of the calls themselves.
//!
//! Each law takes the plan that a call returned. A plan is carried out by writing the bytes
//! at its offset, and recorded by `commit`, which sets the number of elements to the one that
//! the plan gives.
use vstd::arithmetic::div_mod::*;
use vstd::prelude::*;
use crate::error::StoreError;
use crate::store::read::{lemma_element_span, lemma_next_element, ReadPlan};
use crate::store::truncate::TruncatePlan;
use crate::store::write::WritePlan;
use crate::store::{LevelCacheStore, StoreView};

verus! {

/// Writing an element puts its bytes at its place in the file. The store never holds fewer
/// elements afterwards, holds the one that was written, and grows for its sake alone. The
/// write is refused exactly where the bytes would leave the file.
pub proof fn law_write_never_shrinks(
    store: LevelCacheStore,
    index: usize,
    el_len: usize,
    r: Result<WritePlan, StoreError>,
)
    requires
        call_ensures(LevelCacheStore::write_at, (&store, index, el_len), r),
    ensures
        index * store@.elem_len + el_len > store@.store_size ==> {
            &&& r matches Err(StoreError::SliceTooLarge { max })
            &&& store@.store_size <= usize::MAX ==> max == store@.store_size
        },
        index * store@.elem_len + el_len <= store@.store_size ==> {
            &&& r matches Ok(plan)
            &&& plan.offset == index * store@.elem_len
            &&& plan.len == el_len
            &&& plan.elements >= store@.len
            &&& plan.elements > index
            &&& plan.elements == store@.len || plan.elements == index + 1
            &&& index < store@.len ==> plan.elements == store@.len
        },
{
}

/// Writing several elements does to the number of elements what writing the last of them
/// does, and to the file what writing each of them does. Bytes that are no whole elements are
/// refused.
pub proof fn law_copy_writes_run(
    store: LevelCacheStore,
    start: usize,
    count: usize,
    last: usize,
    buf_len: usize,
    r: Result<WritePlan, StoreError>,
    r_last: Result<WritePlan, StoreError>,
    el_len: usize,
)
    requires
        call_ensures(LevelCacheStore::copy_from_slice, (&store, buf_len, start), r),
        call_ensures(LevelCacheStore::write_at, (&store, last, el_len), r_last),
        el_len == store@.elem_len,
        store@.elem_len > 0,
        count > 0,
        last == start + count - 1,
    ensures
        buf_len == 0 && start * store@.elem_len <= store@.store_size ==> {
            &&& r matches Ok(plan)
            &&& plan.offset == start * store@.elem_len
            &&& plan.len == 0
            &&& plan.elements == (if store@.len < start {
                start as nat
            } else {
                store@.len
            })
        },
        buf_len as nat % store@.elem_len != 0 ==> r == Err::<WritePlan, StoreError>(
            StoreError::BufSize { multiple_of: el_len },
        ),
        buf_len == count * store@.elem_len ==> {
            &&& r is Ok <==> r_last is Ok
            &&& r matches Err(e) ==> r_last == Err::<WritePlan, StoreError>(e)
            &&& r matches Ok(plan) ==> {
                &&& plan.offset == start * store@.elem_len
                &&& plan.len == buf_len
                &&& plan.offset + plan.len == r_last.unwrap().offset + r_last.unwrap().len
                &&& plan.elements == r_last.unwrap().elements
            }
        },
{
    if buf_len == 0 {
        lemma_small_mod(0, store@.elem_len);
        lemma_div_of0(store@.elem_len as int);
    }
    if buf_len == count * store@.elem_len {
        let e = store@.elem_len as int;
        assert(buf_len == e * count) by (nonlinear_arith)
            requires
                buf_len == count * e,
        ;
        lemma_div_multiples_vanish(count as int, e);
        lemma_mod_multiples_basic(count as int, e);
        assert(last * e + e == start * e + count * e) by (nonlinear_arith)
            requires
                last == start + count - 1,
        ;
    }
}

/// A pushed element is written behind the elements in the store, which then holds one more.
/// It is refused exactly where the file has no room for it.
pub proof fn law_push_writes_next(
    store: LevelCacheStore,
    len: usize,
    el_len: usize,
    elem_len: usize,
    size: usize,
    r: Result<WritePlan, StoreError>,
    r_write: Result<WritePlan, StoreError>,
)
    requires
        call_ensures(LevelCacheStore::push, (&store, el_len), r),
        call_ensures(LevelCacheStore::write_at, (&store, len, el_len), r_write),
        len == store@.len,
        elem_len == store@.elem_len,
        size == store@.store_size,
    ensures
        (store@.len + 1) * store@.elem_len > store@.store_size ==> r == Err::<
            WritePlan,
            StoreError,
        >(StoreError::NotEnoughSpace { len, elem_len, store_size: size }),
        (store@.len + 1) * store@.elem_len <= store@.store_size ==> r_write == r,
        (store@.len + 1) * store@.elem_len <= store@.store_size && el_len <= elem_len ==> {
            &&& r matches Ok(plan)
            &&& plan.offset == store@.len * store@.elem_len
            &&& plan.len == el_len
            &&& plan.elements == store@.len + 1
        },
{
    lemma_next_element(store@.len, store@.elem_len);
}

/// Writing bytes leaves the number of elements as it is, and is refused exactly where the
/// bytes would leave the file.
pub proof fn law_byte_writes_keep_elements(
    store: LevelCacheStore,
    start: usize,
    slice_len: usize,
    size: usize,
    r: Result<WritePlan, StoreError>,
)
    requires
        call_ensures(LevelCacheStore::store_copy_from_slice, (&store, start, slice_len), r),
        size == store@.store_size,
    ensures
        start + slice_len > size ==> r == Err::<WritePlan, StoreError>(
            StoreError::SliceTooLarge { max: size },
        ),
        start + slice_len <= size ==> {
            &&& r matches Ok(plan)
            &&& plan.offset == start
            &&& plan.len == slice_len
            &&& plan.elements == store@.len
        },
{
}

/// What could be read before a write can be read after it, in the same place.
pub proof fn law_writes_keep_reads(
    store: LevelCacheStore,
    after: LevelCacheStore,
    index: usize,
    el_len: usize,
    start: usize,
    buf_len: usize,
    other: usize,
    next: usize,
    r: Result<WritePlan, StoreError>,
    r_copy: Result<WritePlan, StoreError>,
    r_push: Result<WritePlan, StoreError>,
    r_bytes: Result<WritePlan, StoreError>,
    plan: WritePlan,
    before_read: Result<ReadPlan, StoreError>,
    after_read: Result<ReadPlan, StoreError>,
)
    requires
        call_ensures(LevelCacheStore::write_at, (&store, index, el_len), r),
        call_ensures(LevelCacheStore::copy_from_slice, (&store, buf_len, start), r_copy),
        call_ensures(LevelCacheStore::push, (&store, el_len), r_push),
        call_ensures(LevelCacheStore::store_copy_from_slice, (&store, start, buf_len), r_bytes),
        r == Ok::<WritePlan, StoreError>(plan) || r_copy == Ok::<WritePlan, StoreError>(plan)
            || r_push == Ok::<WritePlan, StoreError>(plan) || r_bytes == Ok::<
            WritePlan,
            StoreError,
        >(plan),
        after@ == (StoreView { len: plan.elements as nat, ..store@ }),
        call_ensures(LevelCacheStore::read_range, (&store, other, next), before_read),
        call_ensures(LevelCacheStore::read_range, (&after, other, next), after_read),
        before_read is Ok,
    ensures
        after@.len >= store@.len,
        after_read == before_read,
{
    lemma_element_span(store@.len, after@.len, store@.elem_len);
}

/// An element that was written is read back from the file, and no byte outside it changes.
/// So it is for every element of the base row, and of the cached rows where no row is
/// discarded.
pub proof fn law_written_element_is_found(
    store: LevelCacheStore,
    after: LevelCacheStore,
    index: usize,
    element: Seq<u8>,
    el_len: usize,
    file: Seq<u8>,
    written: Seq<u8>,
    plan: WritePlan,
    r: Result<ReadPlan, StoreError>,
)
    requires
        call_ensures(
            LevelCacheStore::write_at,
            (&store, index, el_len),
            Ok::<WritePlan, StoreError>(plan),
        ),
        element.len() == el_len,
        el_len == store@.elem_len,
        store@.elem_len > 0,
        store@.reader is None,
        !store@.oss,
        file.len() == store@.store_size,
        store@.store_size <= usize::MAX,
        written == file.take(plan.offset as int) + element + file.skip(plan.offset + plan.len),
        after@ == (StoreView { len: plan.elements as nat, ..store@ }),
        call_ensures(LevelCacheStore::read_at, (&after, index), r),
        (index * store@.elem_len <= store@.data_width * store@.elem_len && index * store@.elem_len
            < store@.cache_index_start) || store@.data_width * store@.elem_len
            == store@.cache_index_start,
    ensures
        r matches Ok(ReadPlan::File { offset, len }) && written.subrange(
            offset as int,
            offset + len,
        ) == element,
        written.len() == file.len(),
        forall|i: int|
            0 <= i < file.len() && !(index * store@.elem_len <= i < (index + 1) * store@.elem_len)
                ==> #[trigger] written[i] == file[i],
{
    let e = store@.elem_len;
    lemma_next_element(index as nat, e);
    lemma_element_span((index + 1) as nat, after@.len, e);
    let at = index * e;
    assert(written.subrange(at, at + e) =~= element);
}

/// Data that are not whole elements are refused.
pub proof fn law_whole_elements_taken(data_len: usize, elem_len: usize, r: Result<(), StoreError>)
    requires
        call_ensures(LevelCacheStore::check_data_len, (data_len, elem_len), r),
        elem_len > 0,
    ensures
        r is Ok <==> data_len % elem_len == 0,
        r matches Err(e) ==> e == (StoreError::DataSize { multiple_of: elem_len }),
{
}

/// A store that was loaded is not filled. Any other is filled from its front with the data,
/// and then holds their elements, unless the file has no room for them.
pub proof fn law_populate_fills_from_front(
    store: LevelCacheStore,
    data_len: usize,
    count: usize,
    size: usize,
    r: Result<Option<WritePlan>, StoreError>,
)
    requires
        call_ensures(LevelCacheStore::populate, (&store, data_len), r),
        store@.elem_len > 0,
        count * store@.elem_len <= data_len < (count + 1) * store@.elem_len,
        size == store@.store_size,
    ensures
        store@.loaded_from_disk ==> r == Ok::<Option<WritePlan>, StoreError>(None),
        !store@.loaded_from_disk ==> r == (if data_len <= size {
            Ok::<Option<WritePlan>, StoreError>(
                Some(WritePlan { offset: 0, len: data_len, elements: count }),
            )
        } else {
            Err(StoreError::SliceTooLarge { max: size })
        }),
{
    let e = store@.elem_len as int;
    let n = data_len as int;
    lemma_fundamental_div_mod(n, e);
    assert(n / e == count) by (nonlinear_arith)
        requires
            count * e <= n < (count + 1) * e,
            n == e * (n / e) + n % e,
            0 <= n % e < e,
            e > 0,
    ;
}

/// A store made from data is the empty store of its size, to be filled from its front.
pub proof fn law_slice_fills_new_store(
    size: usize,
    elem_len: usize,
    data_len: usize,
    count: usize,
    fresh: LevelCacheStore,
    r: Result<(LevelCacheStore, WritePlan), StoreError>,
)
    requires
        call_ensures(LevelCacheStore::new_from_slice, (size, elem_len, data_len), r),
        call_ensures(LevelCacheStore::new, (size, elem_len), fresh),
        elem_len > 0,
        size * elem_len <= usize::MAX,
    ensures
        data_len % elem_len != 0 ==> r is Err && r->Err_0 == (StoreError::DataSize {
            multiple_of: elem_len,
        }),
        data_len == count * elem_len && count > size ==> r is Err && r->Err_0 == (
        StoreError::SliceTooLarge { max: (size * elem_len) as usize }),
        data_len == count * elem_len && count <= size ==> {
            &&& r is Ok
            &&& r.unwrap().0@ == fresh@
            &&& r.unwrap().1 == (WritePlan { offset: 0, len: data_len, elements: count })
        },
{
    if data_len == count * elem_len {
        assert(data_len == elem_len * count) by (nonlinear_arith)
            requires
                data_len == count * elem_len,
        ;
        lemma_div_multiples_vanish(count as int, elem_len as int);
        lemma_mod_multiples_basic(count as int, elem_len as int);
        assert(count <= size ==> count * elem_len <= size * elem_len) by (nonlinear_arith);
        assert(count > size ==> count * elem_len > size * elem_len) by (nonlinear_arith)
            requires
                elem_len > 0,
        ;
    }
}

/// A cut removes whole elements from the front and keeps all other bytes, and is complete
/// exactly where as many were copied.
pub proof fn law_cut_keeps_rest(
    store: LevelCacheStore,
    file_len: u64,
    len: usize,
    written: u64,
    r: Result<TruncatePlan, StoreError>,
    done: Result<u64, StoreError>,
)
    requires
        call_ensures(LevelCacheStore::front_truncate, (&store, file_len, len), r),
        len * store@.elem_len <= u64::MAX,
        r matches Ok(plan) ==> call_ensures(TruncatePlan::copied, (&plan, written), done),
    ensures
        file_len < len * store@.elem_len ==> r == Err::<TruncatePlan, StoreError>(
            StoreError::TruncationLength,
        ),
        file_len >= len * store@.elem_len ==> {
            &&& r matches Ok(plan)
            &&& plan.skip == len * store@.elem_len
            &&& plan.skip + plan.keep == file_len
            &&& done == (if written + len * store@.elem_len == file_len {
                Ok::<u64, StoreError>(written)
            } else {
                Err(StoreError::CopyIncomplete)
            })
        },
{
    assert(len * store@.elem_len >= 0) by (nonlinear_arith);
}

} // verus!
