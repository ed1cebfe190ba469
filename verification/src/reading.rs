//! What reads give, stated of the calls themselves.
//!
//! Each law takes the result of a call and says which bytes of the file, the remote object
//! or the base row it stands for. `tree` stands for the bytes of all rows of a tree.
use vstd::prelude::*;
use crate::error::StoreError;
use crate::store::ranges::Range;
use crate::store::read::{lemma_element_span, lemma_next_element, pieces, ReadPlan};
use crate::store::LevelCacheStore;

verus! {

/// A store without a reader whose file, or remote object, is the base row followed by the
/// cached rows finds there every run of elements of the base row, of the cached rows, and of
/// both where no row is discarded.
pub proof fn law_whole_store_reads_range(
    store: LevelCacheStore,
    tree: Seq<u8>,
    file: Seq<u8>,
    start: usize,
    end: usize,
    buf_len: usize,
    r: Result<ReadPlan, StoreError>,
    r_into: Result<ReadPlan, StoreError>,
)
    requires
        call_ensures(LevelCacheStore::read_range, (&store, start, end), r),
        call_ensures(LevelCacheStore::read_range_into, (&store, start, end, buf_len), r_into),
        store@.reader is None,
        store@.elem_len > 0,
        store@.data_width * store@.elem_len <= store@.cache_index_start,
        store@.cache_index_start <= tree.len(),
        store@.len * store@.elem_len <= tree.len(),
        tree.len() <= usize::MAX,
        file == tree.take((store@.data_width * store@.elem_len) as int) + tree.skip(
            store@.cache_index_start as int,
        ),
        start < end,
        end <= store@.len,
        end * store@.elem_len <= store@.data_width * store@.elem_len || start * store@.elem_len
            >= store@.cache_index_start || store@.data_width * store@.elem_len
            == store@.cache_index_start,
        buf_len == (end - start) * store@.elem_len,
    ensures
        match r {
            Ok(ReadPlan::File { offset, len }) => !store@.oss && offset + len <= file.len()
                && file.subrange(offset as int, offset + len) == tree.subrange(start * store@.elem_len, end * store@.elem_len),
            Ok(ReadPlan::Oss { start: from, end: to }) => store@.oss && from <= to <= file.len()
                && file.subrange(from as int, to as int) == tree.subrange(start * store@.elem_len, end * store@.elem_len),
            _ => false,
        },
        match r_into {
            Ok(ReadPlan::File { offset, len }) => !store@.oss && offset + len <= file.len()
                && file.subrange(offset as int, offset + len) == tree.subrange(start * store@.elem_len, end * store@.elem_len),
            Ok(ReadPlan::Oss { start: from, end: to }) => store@.oss && from <= to <= file.len()
                && file.subrange(from as int, to as int) == tree.subrange(start * store@.elem_len, end * store@.elem_len),
            _ => false,
        },
{
    let e = store@.elem_len;
    let first = start * e;
    let last = end * e;
    lemma_element_span(start as nat, end as nat, e);
    lemma_element_span(end as nat, store@.len, e);
    assert(first < last) by (nonlinear_arith)
        requires
            first == start * e,
            last == end * e,
            start < end,
            e > 0,
    ;
    let at = if first < store@.cache_index_start {
        first
    } else {
        first - store@.cache_index_start + store@.data_width * e
    };
    assert(at + (last - first) <= file.len());
    assert(file.subrange(at, at + (last - first)) =~= tree.subrange(first, last));
}

/// An element is found like a run of one element.
pub proof fn law_element_reads_like_range(
    store: LevelCacheStore,
    index: usize,
    next: usize,
    buf_len: usize,
    r: Result<ReadPlan, StoreError>,
    r_range: Result<ReadPlan, StoreError>,
    r_into: Result<ReadPlan, StoreError>,
    r_range_into: Result<ReadPlan, StoreError>,
    r_internal: Result<ReadPlan, StoreError>,
    r_range_internal: Result<ReadPlan, StoreError>,
)
    requires
        call_ensures(LevelCacheStore::read_at, (&store, index), r),
        call_ensures(LevelCacheStore::read_range, (&store, index, next), r_range),
        call_ensures(LevelCacheStore::read_into, (&store, index, buf_len), r_into),
        call_ensures(LevelCacheStore::read_range_into, (&store, index, next, buf_len), r_range_into),
        call_ensures(LevelCacheStore::read_at_internal, (&store, index), r_internal),
        call_ensures(LevelCacheStore::read_range_internal, (&store, index, next), r_range_internal),
        next == index + 1,
    ensures
        r == r_range,
        r_into == r_range_into,
        r_internal == r_range_internal,
        buf_len == store@.elem_len ==> r_into == r,
{
    assert((next - index) * store@.elem_len == store@.elem_len) by (nonlinear_arith)
        requires
            next == index + 1,
    ;
}

/// A store whose base row a reader serves asks the reader for the elements of the base row,
/// and finds those of the cached rows in a file, or remote object, that holds the cached
/// rows alone.
pub proof fn law_cached_store_reads_range(
    store: LevelCacheStore,
    tree: Seq<u8>,
    file: Seq<u8>,
    start: usize,
    end: usize,
    buf_len: usize,
    r: Result<ReadPlan, StoreError>,
    r_into: Result<ReadPlan, StoreError>,
)
    requires
        call_ensures(LevelCacheStore::read_range, (&store, start, end), r),
        call_ensures(LevelCacheStore::read_range_into, (&store, start, end, buf_len), r_into),
        store@.reader is Some,
        store@.elem_len > 0,
        store@.data_width * store@.elem_len <= store@.cache_index_start,
        store@.cache_index_start <= tree.len(),
        store@.len * store@.elem_len <= tree.len(),
        tree.len() <= usize::MAX,
        file == tree.skip(store@.cache_index_start as int),
        start < end,
        end <= store@.len,
        buf_len == (end - start) * store@.elem_len,
    ensures
        start * store@.elem_len >= store@.cache_index_start ==> {
            &&& start * store@.elem_len >= store@.data_width * store@.elem_len
            &&& match r {
                Ok(ReadPlan::File { offset, len }) => !store@.oss && offset + len <= file.len()
                    && file.subrange(offset as int, offset + len) == tree.subrange(start * store@.elem_len, end * store@.elem_len),
                Ok(ReadPlan::Oss { start: from, end: to }) => store@.oss && from <= to <= file.len()
                    && file.subrange(from as int, to as int) == tree.subrange(start * store@.elem_len, end * store@.elem_len),
                _ => false,
            }
            &&& match r_into {
                Ok(ReadPlan::File { offset, len }) => !store@.oss && offset + len <= file.len()
                    && file.subrange(offset as int, offset + len) == tree.subrange(start * store@.elem_len, end * store@.elem_len),
                Ok(ReadPlan::Oss { start: from, end: to }) => store@.oss && from <= to <= file.len()
                    && file.subrange(from as int, to as int) == tree.subrange(start * store@.elem_len, end * store@.elem_len),
                _ => false,
            }
        },
        end * store@.elem_len <= store@.data_width * store@.elem_len ==> {
            &&& r matches Ok(ReadPlan::Reader { start: from, end: to })
            &&& from == start * store@.elem_len
            &&& to == end * store@.elem_len
            &&& r_into == r
        },
{
    let e = store@.elem_len;
    let first = start * e;
    let last = end * e;
    lemma_element_span(start as nat, end as nat, e);
    lemma_element_span(end as nat, store@.len, e);
    assert(first < last) by (nonlinear_arith)
        requires
            first == start * e,
            last == end * e,
            start < end,
            e > 0,
    ;
    if first >= store@.cache_index_start {
        let at = first - store@.cache_index_start;
        assert(file.subrange(at, at + (last - first)) =~= tree.subrange(first, last));
    }
}

/// The reads of bytes go where the reads of the elements they belong to go. A read from the
/// file into a buffer fills the buffer.
pub proof fn law_byte_reads_like_element_reads(
    store: LevelCacheStore,
    start: usize,
    end: usize,
    first: usize,
    last: usize,
    buf_len: usize,
    r: Result<ReadPlan, StoreError>,
    r_into: Result<ReadPlan, StoreError>,
    r_bytes: Result<ReadPlan, StoreError>,
    r_bytes_into: Result<ReadPlan, StoreError>,
)
    requires
        call_ensures(LevelCacheStore::read_range, (&store, start, end), r),
        call_ensures(LevelCacheStore::read_range_into, (&store, start, end, buf_len), r_into),
        call_ensures(LevelCacheStore::store_read_range, (&store, first, last), r_bytes),
        call_ensures(LevelCacheStore::store_read_into, (&store, first, last, buf_len), r_bytes_into),
        first == start * store@.elem_len,
        last == end * store@.elem_len,
        start <= end,
    ensures
        r is Ok ==> r_bytes == r,
        r_into is Ok ==> r_bytes_into == r_into,
        r_bytes_into matches Ok(ReadPlan::File { offset, len }) ==> len == buf_len,
        store@.data_width * store@.elem_len < first < store@.cache_index_start ==> {
            &&& r_bytes == Err::<ReadPlan, StoreError>(StoreError::OutOfBounds)
            &&& r_bytes_into == Err::<ReadPlan, StoreError>(StoreError::InvalidReadStart)
        },
        !(store@.data_width * store@.elem_len < first < store@.cache_index_start) ==> {
            &&& r_bytes is Ok
            &&& r_bytes_into is Ok
        },
{
    lemma_element_span(start as nat, end as nat, store@.elem_len);
}

/// All reads of the elements from `start` to `end` are refused alike: where they begin behind
/// the elements in the store, end behind them, or begin between the base row and the cached
/// rows; and only there.
pub proof fn law_reads_refused(
    store: LevelCacheStore,
    start: usize,
    end: usize,
    first: usize,
    last: usize,
    len: usize,
    buf_len: usize,
    check: Result<(), StoreError>,
    r: Result<ReadPlan, StoreError>,
    r_into: Result<ReadPlan, StoreError>,
    r_internal: Result<ReadPlan, StoreError>,
)
    requires
        call_ensures(LevelCacheStore::check_range, (&store, first, last), check),
        call_ensures(LevelCacheStore::read_range, (&store, start, end), r),
        call_ensures(LevelCacheStore::read_range_into, (&store, start, end, buf_len), r_into),
        call_ensures(LevelCacheStore::read_range_internal, (&store, start, end), r_internal),
        first == start * store@.elem_len,
        last == end * store@.elem_len,
        len == store@.len * store@.elem_len,
    ensures
        check == (if first >= len {
            Err::<(), StoreError>(StoreError::StartOutOfRange { start: first, len })
        } else if last > len {
            Err(StoreError::EndOutOfRange { end: last, len })
        } else if store@.data_width * store@.elem_len < first && first < store@.cache_index_start {
            Err(StoreError::OutOfBounds)
        } else {
            Ok(())
        }),
        match check {
            Ok(_) => r is Ok && r_into is Ok && r_internal is Ok,
            Err(e) => {
                &&& r == Err::<ReadPlan, StoreError>(e)
                &&& r_into == Err::<ReadPlan, StoreError>(e)
                &&& r_internal == Err::<ReadPlan, StoreError>(e)
            },
        },
{
}

/// While a tree is built, elements are read where they lie in the file, one behind the other
/// from its front.
pub proof fn law_internal_reads_in_place(
    store: LevelCacheStore,
    start: usize,
    end: usize,
    first: usize,
    last: usize,
    r: Result<ReadPlan, StoreError>,
    r_bytes: Result<ReadPlan, StoreError>,
)
    requires
        call_ensures(LevelCacheStore::read_range_internal, (&store, start, end), r),
        call_ensures(LevelCacheStore::store_read_range_internal, (&store, first, last), r_bytes),
        first == start * store@.elem_len,
        last == end * store@.elem_len,
        start <= end,
    ensures
        r matches Ok(plan) ==> {
            &&& plan matches ReadPlan::File { offset, len }
            &&& offset == start * store@.elem_len
            &&& len == (end - start) * store@.elem_len
            &&& r_bytes == r
        },
        r_bytes is Err <==> store@.data_width * store@.elem_len < first && first
            < store@.cache_index_start,
        r_bytes matches Err(e) ==> e == StoreError::OutOfBounds,
{
    lemma_element_span(start as nat, end as nat, store@.elem_len);
}

/// Where the pieces of a run of bytes begin and end.
pub proof fn lemma_pieces_cut(data: Seq<u8>, width: nat, i: nat)
    requires
        width > 0,
    ensures
        i < pieces(data, width).len() <==> i * width < data.len(),
        i < pieces(data, width).len() ==> pieces(data, width)[i as int] == data.subrange(
            (i * width) as int,
            if (i + 1) * width < data.len() {
                ((i + 1) * width) as int
            } else {
                data.len() as int
            },
        ),
    decreases data.len(),
{
    lemma_next_element(i, width);
    assert(i * width >= 0) by (nonlinear_arith);
    if data.len() > 0 {
        let first = if data.len() < width {
            data.len() as int
        } else {
            width as int
        };
        let rest = data.skip(first);
        if i == 0 {
            assert(0 * width == 0) by (nonlinear_arith);
            assert(data.take(first) =~= data.subrange(0, first));
        } else {
            let j = (i - 1) as nat;
            lemma_next_element(j, width);
            lemma_pieces_cut(rest, width, j);
            assert(j * width >= 0) by (nonlinear_arith);
            if i * width < data.len() {
                let to = if (i + 1) * width < data.len() {
                    ((i + 1) * width) as int
                } else {
                    data.len() as int
                };
                assert(rest.subrange((j * width) as int, to - first) =~= data.subrange(
                    (i * width) as int,
                    to,
                ));
            }
        }
    }
}

/// Bytes are cut at every multiple of the length of an element; the last piece holds what is
/// left.
pub proof fn law_elements_are_cut_in_place(
    store: LevelCacheStore,
    data: &[u8],
    r: Vec<Vec<u8>>,
    i: nat,
)
    requires
        call_ensures(LevelCacheStore::split_elements, (&store, data), r),
        store@.elem_len > 0,
    ensures
        i < r@.len() <==> i * store@.elem_len < data@.len(),
        i < r@.len() ==> r@[i as int]@ == data@.subrange(
            (i * store@.elem_len) as int,
            if (i + 1) * store@.elem_len < data@.len() {
                ((i + 1) * store@.elem_len) as int
            } else {
                data@.len() as int
            },
        ),
{
    lemma_pieces_cut(data@, store@.elem_len, i);
    let cut = pieces(data@, store@.elem_len);
    assert(crate::store::read::views(r@).len() == cut.len());
    if i < r@.len() {
        assert(crate::store::read::views(r@)[i as int] == cut[i as int]);
    }
}

/// The offset and the file of a range are the reader's exactly where the reader serves its
/// first element.
pub proof fn law_ranges_lie_with_their_reader(
    store: LevelCacheStore,
    range: Range,
    from_reader: bool,
    offset: usize,
    path: Option<&String>,
    own: Option<&String>,
)
    requires
        call_ensures(LevelCacheStore::from_reader, (&store, range), from_reader),
        call_ensures(LevelCacheStore::offset_by_range, (&store, range), offset),
        call_ensures(LevelCacheStore::path_by_range, (&store, range), path),
        call_ensures(LevelCacheStore::path, (&store,), own),
        store@.elem_len > 0,
    ensures
        from_reader == (range.start < store@.data_width && store@.reader is Some),
        offset == (if from_reader {
            store@.reader.unwrap().offset
        } else {
            0
        }),
        path is Some,
        own is Some,
        own.unwrap()@ == store@.data_path,
        path.unwrap()@ == (if from_reader {
            store@.reader.unwrap().data_path
        } else {
            own.unwrap()@
        }),
{
    let e = store@.elem_len as int;
    assert((range.start * e < store@.data_width * e) == (range.start < store@.data_width))
        by (nonlinear_arith)
        requires
            e > 0,
    ;
}

/// Where a read begins in the file or object depends on its first element alone: not on how many
/// elements are read, nor on the buffer. A read from the file is as long as the elements, or as
/// the buffer; one from the object or the reader as the elements. The first byte lies where it
/// lies in the tree, or moved by the rows that are missing before it: by all of them beside a
/// reader, else by the discarded ones.
pub proof fn law_place_depends_on_start(
    store: LevelCacheStore,
    start: usize,
    end: usize,
    buf_len: usize,
    plan: ReadPlan,
    plan_into: ReadPlan,
)
    requires
        call_ensures(
            LevelCacheStore::read_range,
            (&store, start, end),
            Ok::<ReadPlan, StoreError>(plan),
        ),
        call_ensures(
            LevelCacheStore::read_range_into,
            (&store, start, end, buf_len),
            Ok::<ReadPlan, StoreError>(plan_into),
        ),
        start <= end,
    ensures
        ({
            let first = start * store@.elem_len;
            let bytes = (end - start) * store@.elem_len;
            let moved = if first < store@.cache_index_start {
                0
            } else if store@.reader is Some {
                store@.cache_index_start as int
            } else {
                store@.cache_index_start - store@.data_width * store@.elem_len
            };
            &&& match plan {
                ReadPlan::Reader { start: from, end: to } => {
                    &&& first < store@.data_width * store@.elem_len
                    &&& store@.reader is Some
                    &&& from == first
                    &&& to - from == bytes
                    &&& plan_into == plan
                },
                ReadPlan::Oss { start: from, end: to } => {
                    &&& store@.oss
                    &&& from + moved == first
                    &&& to - from == bytes
                    &&& plan_into == plan
                },
                ReadPlan::File { offset, len } => {
                    &&& !store@.oss
                    &&& offset + moved == first
                    &&& len == bytes
                    &&& plan_into == (ReadPlan::File { offset, len: buf_len })
                },
            }
            &&& first < store@.data_width * store@.elem_len && store@.reader is Some ==> plan is Reader
        }),
{
    lemma_element_span(start as nat, end as nat, store@.elem_len);
}

/// Bytes are read where the elements around them are read, whatever byte of an element a read
/// begins with. The read is refused exactly between the base row and the cached rows.
pub proof fn law_bytes_lie_in_place(
    store: LevelCacheStore,
    start: usize,
    end: usize,
    buf_len: usize,
    r: Result<ReadPlan, StoreError>,
    r_into: Result<ReadPlan, StoreError>,
    r_internal: Result<ReadPlan, StoreError>,
)
    requires
        call_ensures(LevelCacheStore::store_read_range, (&store, start, end), r),
        call_ensures(LevelCacheStore::store_read_into, (&store, start, end, buf_len), r_into),
        call_ensures(LevelCacheStore::store_read_range_internal, (&store, start, end), r_internal),
        start <= end,
    ensures
        ({
            let base_end = store@.data_width * store@.elem_len;
            let refused = base_end < start && start < store@.cache_index_start;
            let moved = if start < store@.cache_index_start {
                0
            } else if store@.reader is Some {
                store@.cache_index_start as int
            } else {
                store@.cache_index_start - base_end
            };
            &&& refused ==> {
                &&& r == Err::<ReadPlan, StoreError>(StoreError::OutOfBounds)
                &&& r_internal == Err::<ReadPlan, StoreError>(StoreError::OutOfBounds)
                &&& r_into == Err::<ReadPlan, StoreError>(StoreError::InvalidReadStart)
            }
            &&& !refused ==> {
                &&& r_internal == Ok::<ReadPlan, StoreError>(
                    ReadPlan::File { offset: start, len: (end - start) as usize },
                )
                &&& match r {
                    Ok(ReadPlan::Reader { start: from, end: to }) => {
                        &&& start < base_end
                        &&& store@.reader is Some
                        &&& from == start
                        &&& to == end
                        &&& r_into == r
                    },
                    Ok(ReadPlan::Oss { start: from, end: to }) => {
                        &&& start >= base_end || store@.reader is None
                        &&& store@.oss
                        &&& from + moved == start
                        &&& to + moved == end
                        &&& r_into == r
                    },
                    Ok(ReadPlan::File { offset, len }) => {
                        &&& start >= base_end || store@.reader is None
                        &&& !store@.oss
                        &&& offset + moved == start
                        &&& len == end - start
                        &&& r_into == Ok::<ReadPlan, StoreError>(
                            ReadPlan::File { offset, len: buf_len },
                        )
                    },
                    Err(_) => false,
                }
            }
        }),
{
}

/// Bytes are there to be read where they begin and end in the elements of the store, and do not
/// begin between the base row and the cached rows.
pub proof fn law_bytes_checked(
    store: LevelCacheStore,
    start: usize,
    end: usize,
    len: usize,
    check: Result<(), StoreError>,
)
    requires
        call_ensures(LevelCacheStore::check_range, (&store, start, end), check),
        len == store@.len * store@.elem_len,
    ensures
        check is Ok <==> start < len && end <= len && !(store@.data_width * store@.elem_len < start
            && start < store@.cache_index_start),
        start >= len ==> check == Err::<(), StoreError>(StoreError::StartOutOfRange { start, len }),
        start < len && end > len ==> check == Err::<(), StoreError>(
            StoreError::EndOutOfRange { end, len },
        ),
        start < len && end <= len && check is Err ==> check == Err::<(), StoreError>(
            StoreError::OutOfBounds,
        ),
{
}

} // verus!
