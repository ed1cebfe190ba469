//! What a request for several ranges gives back.
//!
//! The results and the bytes of a range depend on the range alone, not on its place in
//! the request.
use vstd::prelude::*;
use crate::error::StoreError;
use crate::image::overwrite;
use crate::store::ranges::{
    first_with_index, law_each_range_answered, lemma_outcomes_indexed, outcome, outcomes, JobView,
    Range, RangesJob,
};
use crate::store::read::lemma_element_span;
use crate::store::{LevelCacheStore, StoreView};

verus! {

/// Whether the size reported for each byte range depends on that range alone.
pub open spec fn answers_by(
    ranges: Seq<Range>,
    sizes: Seq<Option<usize>>,
    size_of: spec_fn(Range) -> Option<usize>,
) -> bool {
    &&& ranges.len() <= sizes.len()
    &&& forall|j: int| 0 <= j < ranges.len() ==> sizes[j] == size_of(#[trigger] ranges[j])
}

/// What is reported for the byte range that a range of elements is routed to.
pub open spec fn size_of_range(
    store: StoreView,
    range: Range,
    reader_of: spec_fn(Range) -> Option<usize>,
    direct_of: spec_fn(Range) -> Option<usize>,
) -> Option<usize> {
    if store.range_from_reader(range) {
        reader_of(store.routed(range))
    } else {
        direct_of(store.routed(range))
    }
}

/// Whether no two ranges share an index.
pub open spec fn distinct(ranges: Seq<Range>) -> bool {
    forall|j: int, k: int|
        0 <= j < k < ranges.len() ==> (#[trigger] ranges[j]).index != (#[trigger] ranges[k]).index
}

/// Whether two ranges go to parts of the buffer that share no byte.
pub open spec fn apart(a: Range, b: Range) -> bool {
    a.buf_end <= b.buf_start || b.buf_end <= a.buf_start
}

/// Whether all of some ranges go to other parts of the buffer than one range.
pub open spec fn all_apart(ranges: Seq<Range>, range: Range) -> bool {
    forall|j: int| 0 <= j < ranges.len() ==> apart(#[trigger] ranges[j], range)
}

/// Whether no two ranges go to parts of the buffer that share a byte.
pub open spec fn pairwise_apart(ranges: Seq<Range>) -> bool {
    forall|j: int, k: int|
        0 <= j < k < ranges.len() ==> apart(#[trigger] ranges[j], #[trigger] ranges[k])
}

/// Whether all parts lie in a buffer of `len` bytes.
pub open spec fn inside(ranges: Seq<Range>, len: nat) -> bool {
    forall|j: int|
        0 <= j < ranges.len() ==> (#[trigger] ranges[j]).buf_start <= ranges[j].buf_end <= len
}

/// The buffer after each of some byte ranges has been read into its part, where a read
/// leaves there what `left` says.
pub open spec fn filled(
    buf: Seq<u8>,
    ranges: Seq<Range>,
    left: spec_fn(Range) -> Seq<u8>,
) -> Seq<u8>
    decreases ranges.len(),
{
    if ranges.len() == 0 {
        buf
    } else {
        overwrite(
            filled(buf, ranges.drop_last(), left),
            ranges.last().buf_start as nat,
            left(ranges.last()),
        )
    }
}

/// The buffer after a request: the reads of the file or object come first.
pub open spec fn buffer_after(
    buf: Seq<u8>,
    job: JobView,
    left: spec_fn(Range) -> Seq<u8>,
) -> Seq<u8> {
    filled(filled(buf, job.direct_ranges, left), job.reader_ranges, left)
}

/// Whether a read leaves as many bytes as the part of the buffer takes.
pub open spec fn fills_parts(left: spec_fn(Range) -> Seq<u8>) -> bool {
    forall|range: Range|
        range.buf_start <= range.buf_end ==> (#[trigger] left(range)).len() == range.buf_end
            - range.buf_start
}

/// Where a range stands among those it is routed with.
proof fn lemma_place_of_range(store: StoreView, ranges: Seq<Range>, i: int)
    requires
        0 <= i < ranges.len(),
    ensures
        store.range_from_reader(ranges[i]) ==> {
            let at = store.reader_part(ranges.take(i)).len();
            &&& at < store.reader_part(ranges).len()
            &&& store.reader_part(ranges)[at as int] == store.routed(ranges[i])
        },
        !store.range_from_reader(ranges[i]) ==> {
            let at = store.direct_part(ranges.take(i)).len();
            &&& at < store.direct_part(ranges).len()
            &&& store.direct_part(ranges)[at as int] == store.routed(ranges[i])
        },
    decreases ranges.len(),
{
    let rest = ranges.drop_last();
    if i < ranges.len() - 1 {
        assert(rest[i] == ranges[i]);
        assert(rest.take(i) =~= ranges.take(i));
        lemma_place_of_range(store, rest, i);
    } else {
        assert(ranges.take(i) =~= rest);
    }
}

/// The result of a range is what is reported for the byte range it is routed to.
pub proof fn law_result_follows_range(
    store: StoreView,
    job: JobView,
    reader_sizes: Seq<Option<usize>>,
    reader_of: spec_fn(Range) -> Option<usize>,
    direct_of: spec_fn(Range) -> Option<usize>,
)
    requires
        job.wf(store),
        job.routed == job.ranges.len(),
        distinct(job.ranges),
        answers_by(job.reader_ranges, reader_sizes, reader_of),
        answers_by(job.direct_ranges, job.direct_sizes, direct_of),
    ensures
        outcomes(job, reader_sizes, job.ranges.len()).len() == job.ranges.len(),
        forall|i: int|
            0 <= i < job.ranges.len() ==> #[trigger] outcomes(
                job,
                reader_sizes,
                job.ranges.len(),
            )[i] == outcome(size_of_range(store, job.ranges[i], reader_of, direct_of)),
{
    law_each_range_answered(store, job, reader_sizes);
    assert(job.ranges.take(job.routed as int) =~= job.ranges);
    let results = outcomes(job, reader_sizes, job.ranges.len());
    assert forall|i: int| 0 <= i < job.ranges.len() implies #[trigger] results[i] == outcome(
        size_of_range(store, job.ranges[i], reader_of, direct_of),
    ) by {
        lemma_place_of_range(store, job.ranges, i);
        let r = store.reader_part(job.ranges.take(i)).len() as int;
        let d = store.direct_part(job.ranges.take(i)).len() as int;
        if store.range_from_reader(job.ranges[i]) {
            assert(reader_sizes[r] == reader_of(job.reader_ranges[r]));
        } else {
            assert(job.direct_sizes[d] == direct_of(job.direct_ranges[d]));
        }
    }
}

/// Filling parts keeps the length of the buffer, and leaves what lies apart from them.
proof fn lemma_filled_apart(
    buf: Seq<u8>,
    ranges: Seq<Range>,
    left: spec_fn(Range) -> Seq<u8>,
    range: Range,
)
    requires
        inside(ranges, buf.len()),
        fills_parts(left),
        all_apart(ranges, range),
        range.buf_start <= range.buf_end <= buf.len(),
    ensures
        filled(buf, ranges, left).len() == buf.len(),
        filled(buf, ranges, left).subrange(range.buf_start as int, range.buf_end as int)
            == buf.subrange(range.buf_start as int, range.buf_end as int),
    decreases ranges.len(),
{
    if ranges.len() > 0 {
        let rest = ranges.drop_last();
        assert forall|j: int| 0 <= j < rest.len() implies apart(#[trigger] rest[j], range) by {
            assert(rest[j] == ranges[j]);
        }
        assert forall|j: int| 0 <= j < rest.len() implies (#[trigger] rest[j]).buf_start
            <= rest[j].buf_end <= buf.len() by {
            assert(rest[j] == ranges[j]);
        }
        lemma_filled_apart(buf, rest, left, range);
        let last = ranges.last();
        assert(apart(ranges[ranges.len() - 1], range));
        assert(left(last).len() == last.buf_end - last.buf_start);
        let before = filled(buf, rest, left);
        let after = filled(buf, ranges, left);
        assert(after.subrange(range.buf_start as int, range.buf_end as int) =~= before.subrange(
            range.buf_start as int,
            range.buf_end as int,
        ));
    }
}

/// Where no two parts share a byte, each holds what its own read left.
proof fn lemma_filled_part(
    buf: Seq<u8>,
    ranges: Seq<Range>,
    left: spec_fn(Range) -> Seq<u8>,
    k: int,
)
    requires
        inside(ranges, buf.len()),
        fills_parts(left),
        pairwise_apart(ranges),
        0 <= k < ranges.len(),
    ensures
        filled(buf, ranges, left).len() == buf.len(),
        filled(buf, ranges, left).subrange(
            ranges[k].buf_start as int,
            ranges[k].buf_end as int,
        ) == left(ranges[k]),
    decreases ranges.len(),
{
    let rest = ranges.drop_last();
    let last = ranges.last();
    assert forall|j: int| 0 <= j < rest.len() implies apart(#[trigger] rest[j], last) by {
        assert(rest[j] == ranges[j]);
        assert(last == ranges[ranges.len() - 1]);
    }
    assert forall|j: int| 0 <= j < rest.len() implies (#[trigger] rest[j]).buf_start
        <= rest[j].buf_end <= buf.len() by {
        assert(rest[j] == ranges[j]);
    }
    assert forall|a: int, b: int| 0 <= a < b < rest.len() implies apart(
        #[trigger] rest[a],
        #[trigger] rest[b],
    ) by {
        assert(rest[a] == ranges[a] && rest[b] == ranges[b]);
    }
    assert(ranges[ranges.len() - 1].buf_start <= ranges[ranges.len() - 1].buf_end);
    lemma_filled_apart(buf, rest, left, last);
    let before = filled(buf, rest, left);
    let after = filled(buf, ranges, left);
    assert(left(last).len() == last.buf_end - last.buf_start);
    let part = ranges[k];
    if k < ranges.len() - 1 {
        assert(rest[k] == ranges[k]);
        assert(apart(rest[k], last));
        lemma_filled_part(buf, rest, left, k);
        assert(after.subrange(part.buf_start as int, part.buf_end as int) =~= before.subrange(
            part.buf_start as int,
            part.buf_end as int,
        ));
    } else {
        assert(after.subrange(part.buf_start as int, part.buf_end as int) =~= left(last));
    }
}

/// Routing keeps ranges apart from a range.
proof fn lemma_routed_parts(store: StoreView, ranges: Seq<Range>, range: Range)
    requires
        all_apart(ranges, range),
    ensures
        all_apart(store.direct_part(ranges), range),
        all_apart(store.reader_part(ranges), range),
    decreases ranges.len(),
{
    if ranges.len() > 0 {
        let rest = ranges.drop_last();
        assert forall|j: int| 0 <= j < rest.len() implies apart(#[trigger] rest[j], range) by {
            assert(rest[j] == ranges[j]);
        }
        lemma_routed_parts(store, rest, range);
        assert(apart(ranges[ranges.len() - 1], range));
    }
}

/// The routed ranges of a request whose parts share no byte share none either.
proof fn lemma_routed_apart(store: StoreView, ranges: Seq<Range>)
    requires
        pairwise_apart(ranges),
    ensures
        pairwise_apart(store.direct_part(ranges)),
        pairwise_apart(store.reader_part(ranges)),
        forall|a: int|
            0 <= a < store.direct_part(ranges).len() ==> all_apart(
                store.reader_part(ranges),
                #[trigger] store.direct_part(ranges)[a],
            ),
    decreases ranges.len(),
{
    if ranges.len() > 0 {
        let rest = ranges.drop_last();
        let last = ranges.last();
        let direct = store.direct_part(rest);
        let reader = store.reader_part(rest);
        let routed = store.routed(last);
        assert forall|a: int, b: int| 0 <= a < b < rest.len() implies apart(
            #[trigger] rest[a],
            #[trigger] rest[b],
        ) by {
            assert(rest[a] == ranges[a] && rest[b] == ranges[b]);
        }
        assert forall|j: int| 0 <= j < rest.len() implies apart(#[trigger] rest[j], routed) by {
            assert(rest[j] == ranges[j]);
            assert(last == ranges[ranges.len() - 1]);
        }
        lemma_routed_apart(store, rest);
        lemma_routed_parts(store, rest, routed);
        if store.range_from_reader(last) {
            let more = reader.push(routed);
            assert forall|a: int| 0 <= a < direct.len() implies all_apart(
                more,
                #[trigger] direct[a],
            ) by {
                assert(all_apart(reader, direct[a]));
                assert forall|j: int| 0 <= j < more.len() implies apart(
                    #[trigger] more[j],
                    direct[a],
                ) by {
                    if j < reader.len() {
                        assert(more[j] == reader[j]);
                    }
                }
            }
        } else {
            let more = direct.push(routed);
            assert forall|a: int| 0 <= a < more.len() implies all_apart(
                reader,
                #[trigger] more[a],
            ) by {
                if a < direct.len() {
                    assert(more[a] == direct[a]);
                }
            }
        }
    }
}

/// After a request whose parts share no byte, the part of a range holds what the read of
/// the byte range it is routed to left there.
pub proof fn law_part_follows_range(
    store: StoreView,
    job: JobView,
    buf: Seq<u8>,
    left: spec_fn(Range) -> Seq<u8>,
    i: int,
)
    requires
        job.wf(store),
        job.routed == job.ranges.len(),
        pairwise_apart(job.ranges),
        inside(job.ranges, buf.len()),
        fills_parts(left),
        0 <= i < job.ranges.len(),
    ensures
        buffer_after(buf, job, left).len() == buf.len(),
        buffer_after(buf, job, left).subrange(
            job.ranges[i].buf_start as int,
            job.ranges[i].buf_end as int,
        ) == left(store.routed(job.ranges[i])),
{
    let ranges = job.ranges;
    let part = store.routed(ranges[i]);
    assert(ranges.take(job.routed as int) =~= ranges);
    let len = buf.len();
    assert(ranges[i].buf_start <= ranges[i].buf_end <= len);
    lemma_routed_apart(store, ranges);
    lemma_routed_inside(store, ranges, len);
    lemma_place_of_range(store, ranges, i);
    let direct = job.direct_ranges;
    let reader = job.reader_ranges;
    let middle = filled(buf, direct, left);
    if direct.len() > 0 {
        lemma_filled_part(buf, direct, left, 0);
    }
    assert(middle.len() == len);
    if store.range_from_reader(ranges[i]) {
        let at = store.reader_part(ranges.take(i)).len() as int;
        assert(reader[at] == part);
        lemma_filled_part(middle, reader, left, at);
    } else {
        let at = store.direct_part(ranges.take(i)).len() as int;
        assert(direct[at] == part);
        lemma_filled_part(buf, direct, left, at);
        lemma_filled_apart(middle, reader, left, part);
    }
}

/// The parts of the routed ranges lie in the buffer.
proof fn lemma_routed_inside(store: StoreView, ranges: Seq<Range>, len: nat)
    requires
        inside(ranges, len),
    ensures
        inside(store.direct_part(ranges), len),
        inside(store.reader_part(ranges), len),
    decreases ranges.len(),
{
    if ranges.len() > 0 {
        let rest = ranges.drop_last();
        assert forall|j: int| 0 <= j < rest.len() implies (#[trigger] rest[j]).buf_start
            <= rest[j].buf_end <= len by {
            assert(rest[j] == ranges[j]);
        }
        lemma_routed_inside(store, rest, len);
        assert(ranges[ranges.len() - 1].buf_start <= ranges[ranges.len() - 1].buf_end <= len);
    }
}

/// Asking for the same ranges in another order gives the same results in that order, and
/// the same bytes wherever the read succeeded.
///
/// Range `i` of the second request is range `order[i]` of the first. What is reported for
/// a byte range, and the bytes that a successful read leaves, depend on the byte range
/// alone; a failed read may leave anything in its part.
pub proof fn law_request_order(
    store: StoreView,
    job: JobView,
    reader_sizes: Seq<Option<usize>>,
    other: JobView,
    other_sizes: Seq<Option<usize>>,
    order: Seq<int>,
    reader_of: spec_fn(Range) -> Option<usize>,
    direct_of: spec_fn(Range) -> Option<usize>,
    buf: Seq<u8>,
    other_buf: Seq<u8>,
    left: spec_fn(Range) -> Seq<u8>,
    other_left: spec_fn(Range) -> Seq<u8>,
)
    requires
        job.wf(store),
        job.routed == job.ranges.len(),
        other.wf(store),
        other.routed == other.ranges.len(),
        order.len() == job.ranges.len() == other.ranges.len(),
        forall|i: int| 0 <= i < order.len() ==> 0 <= #[trigger] order[i] < order.len(),
        forall|i: int, j: int|
            0 <= i < j < order.len() ==> #[trigger] order[i] != #[trigger] order[j],
        forall|i: int|
            0 <= i < order.len() ==> #[trigger] other.ranges[i] == job.ranges[order[i]],
        distinct(job.ranges),
        pairwise_apart(job.ranges),
        inside(job.ranges, buf.len()),
        inside(job.ranges, other_buf.len()),
        answers_by(job.reader_ranges, reader_sizes, reader_of),
        answers_by(job.direct_ranges, job.direct_sizes, direct_of),
        answers_by(other.reader_ranges, other_sizes, reader_of),
        answers_by(other.direct_ranges, other.direct_sizes, direct_of),
        fills_parts(left),
        fills_parts(other_left),
        forall|i: int|
            0 <= i < job.ranges.len() && size_of_range(
                store,
                #[trigger] job.ranges[i],
                reader_of,
                direct_of,
            ) is Some ==> left(store.routed(job.ranges[i])) == other_left(
                store.routed(job.ranges[i]),
            ),
    ensures
        ({
            let results = outcomes(job, reader_sizes, job.ranges.len());
            let others = outcomes(other, other_sizes, other.ranges.len());
            let bytes = buffer_after(buf, job, left);
            let other_bytes = buffer_after(other_buf, other, other_left);
            &&& results.len() == order.len()
            &&& others.len() == order.len()
            &&& forall|i: int|
                0 <= i < order.len() ==> {
                    let range = other.ranges[i];
                    &&& #[trigger] others[i] == results[order[i]]
                    &&& others[i] is Ok ==> other_bytes.subrange(
                        range.buf_start as int,
                        range.buf_end as int,
                    ) == bytes.subrange(range.buf_start as int, range.buf_end as int)
                }
        }),
{
    let n = order.len();
    assert forall|j: int, k: int| 0 <= j < k < n implies (#[trigger] other.ranges[j]).index != (
    #[trigger] other.ranges[k]).index && apart(other.ranges[j], other.ranges[k]) by {
        let a = order[j];
        let b = order[k];
        assert(other.ranges[j] == job.ranges[a]);
        assert(other.ranges[k] == job.ranges[b]);
        assert(a != b);
        if a < b {
            assert(apart(job.ranges[a], job.ranges[b]));
        } else {
            assert(apart(job.ranges[b], job.ranges[a]));
        }
    }
    assert forall|j: int| 0 <= j < n implies (#[trigger] other.ranges[j]).buf_start
        <= other.ranges[j].buf_end <= other_buf.len() by {
        assert(other.ranges[j] == job.ranges[order[j]]);
    }
    law_result_follows_range(store, job, reader_sizes, reader_of, direct_of);
    law_result_follows_range(store, other, other_sizes, reader_of, direct_of);
    let results = outcomes(job, reader_sizes, job.ranges.len());
    let others = outcomes(other, other_sizes, other.ranges.len());
    let bytes = buffer_after(buf, job, left);
    let other_bytes = buffer_after(other_buf, other, other_left);
    assert forall|i: int| 0 <= i < n implies {
        let range = other.ranges[i];
        &&& #[trigger] others[i] == results[order[i]]
        &&& others[i] is Ok ==> other_bytes.subrange(range.buf_start as int, range.buf_end as int)
            == bytes.subrange(range.buf_start as int, range.buf_end as int)
    } by {
        let k = order[i];
        assert(other.ranges[i] == job.ranges[k]);
        assert(results[k] == outcome(size_of_range(store, job.ranges[k], reader_of, direct_of)));
        law_part_follows_range(store, job, buf, left, k);
        law_part_follows_range(store, other, other_buf, other_left, i);
    }
}

/// Whether no range has a given index.
spec fn without_index(ranges: Seq<Range>, index: usize) -> bool {
    forall|j: int| 0 <= j < ranges.len() ==> (#[trigger] ranges[j]).index != index
}

/// Routing brings no index in.
proof fn lemma_routed_without_index(store: StoreView, ranges: Seq<Range>, index: usize)
    requires
        without_index(ranges, index),
    ensures
        without_index(store.direct_part(ranges), index),
        without_index(store.reader_part(ranges), index),
    decreases ranges.len(),
{
    if ranges.len() > 0 {
        let rest = ranges.drop_last();
        assert forall|j: int| 0 <= j < rest.len() implies (#[trigger] rest[j]).index != index by {
            assert(rest[j] == ranges[j]);
        }
        lemma_routed_without_index(store, rest, index);
        assert(ranges[ranges.len() - 1].index != index);
    }
}

/// Where no two ranges share an index, no two routed ranges share one.
proof fn lemma_routed_distinct(store: StoreView, ranges: Seq<Range>)
    requires
        distinct(ranges),
    ensures
        distinct(store.direct_part(ranges)),
        distinct(store.reader_part(ranges)),
    decreases ranges.len(),
{
    if ranges.len() > 0 {
        let rest = ranges.drop_last();
        let last = ranges.last();
        assert forall|a: int, b: int| 0 <= a < b < rest.len() implies (#[trigger] rest[a]).index
            != (#[trigger] rest[b]).index by {
            assert(rest[a] == ranges[a] && rest[b] == ranges[b]);
        }
        assert forall|j: int| 0 <= j < rest.len() implies (#[trigger] rest[j]).index
            != last.index by {
            assert(rest[j] == ranges[j]);
            assert(last == ranges[ranges.len() - 1]);
        }
        lemma_routed_distinct(store, rest);
        lemma_routed_without_index(store, rest, last.index);
    }
}

/// The result of a range is the number of bytes that was reported for the byte range with its
/// index, whatever that number is, and an error where a failure was reported. There is one
/// result for each range.
pub proof fn law_results_are_reports(
    store: LevelCacheStore,
    job: RangesJob,
    reader_sizes: Vec<Option<usize>>,
    r: Vec<Result<usize, StoreError>>,
    i: int,
    at: int,
)
    requires
        call_ensures(RangesJob::finish, (&job, &reader_sizes), r),
        job@.wf(store@),
        job@.routed == job@.ranges.len(),
        forall|j: int, k: int|
            0 <= j < k < job@.ranges.len() ==> (#[trigger] job@.ranges[j]).index != (
            #[trigger] job@.ranges[k]).index,
        0 <= i < job@.ranges.len(),
        store@.elem_len > 0,
    ensures
        r@.len() == job@.ranges.len(),
        ({
            let range = job@.ranges[i];
            let from_reader = range.start < store@.data_width && store@.reader is Some;
            let list = if from_reader {
                job@.reader_ranges
            } else {
                job@.direct_ranges
            };
            let sizes = if from_reader {
                reader_sizes@
            } else {
                job@.direct_sizes
            };
            0 <= at < list.len() && list[at].index == range.index ==> {
                &&& sizes[at] is None ==> r@[i] == Err::<usize, StoreError>(StoreError::ReadRange)
                &&& sizes[at] matches Some(n) ==> r@[i] == Ok::<usize, StoreError>(n)
            }
        }),
{
    let view = job@;
    let range = view.ranges[i];
    let e = store@.elem_len as int;
    assert((range.start * e < store@.data_width * e) == (range.start < store@.data_width))
        by (nonlinear_arith)
        requires
            e > 0,
    ;
    assert(distinct(view.ranges));
    law_each_range_answered(store@, view, reader_sizes@);
    assert(view.ranges.take(view.routed as int) =~= view.ranges);
    lemma_place_of_range(store@, view.ranges, i);
    lemma_routed_distinct(store@, view.ranges);
    assert(outcomes(view, reader_sizes@, view.ranges.len())[i] == r@[i]);
    if store@.range_from_reader(range) {
        let place = store@.reader_part(view.ranges.take(i)).len() as int;
        assert(view.reader_ranges[place].index == range.index);
        if 0 <= at < view.reader_ranges.len() && view.reader_ranges[at].index == range.index {
            assert(at == place);
        }
    } else {
        let place = store@.direct_part(view.ranges.take(i)).len() as int;
        assert(view.direct_ranges[place].index == range.index);
        if 0 <= at < view.direct_ranges.len() && view.direct_ranges[at].index == range.index {
            assert(at == place);
        }
    }
}

/// Every range of a request is asked for once it has been routed: its own bytes of the base row
/// where the reader serves its first element, else its own bytes of the tree, which for a
/// remote object without a reader are those that an object with the base row and the cached
/// rows holds in their place.
pub proof fn law_every_range_is_asked_for(
    store: LevelCacheStore,
    job: RangesJob,
    tree: Seq<u8>,
    object: Seq<u8>,
    i: int,
)
    requires
        job@.wf(store@),
        job@.routed == job@.ranges.len(),
        0 <= i < job@.ranges.len(),
        store@.elem_len > 0,
        job@.ranges[i].start < job@.ranges[i].end,
        job@.ranges[i].end <= store@.len,
        store@.len * store@.elem_len <= tree.len(),
        tree.len() <= usize::MAX,
        store@.data_width * store@.elem_len <= store@.cache_index_start,
        store@.cache_index_start <= tree.len(),
        store@.reader is None ==> object == tree.take(
            (store@.data_width * store@.elem_len) as int,
        ) + tree.skip(store@.cache_index_start as int),
        store@.reader is Some ==> object == tree.skip(store@.cache_index_start as int),
    ensures
        job@.ranges[i].start < store@.data_width && store@.reader is Some ==> exists|at: int|
            {
                &&& 0 <= at < job@.reader_ranges.len()
                &&& (#[trigger] job@.reader_ranges[at]).index == job@.ranges[i].index
                &&& job@.reader_ranges[at].buf_start == job@.ranges[i].buf_start
                &&& job@.reader_ranges[at].buf_end == job@.ranges[i].buf_end
                &&& job@.reader_ranges[at].start == job@.ranges[i].start * store@.elem_len
                &&& job@.reader_ranges[at].end == job@.ranges[i].end * store@.elem_len
            },
        !(job@.ranges[i].start < store@.data_width && store@.reader is Some) ==> exists|at: int|
            {
                &&& 0 <= at < job@.direct_ranges.len()
                &&& (#[trigger] job@.direct_ranges[at]).index == job@.ranges[i].index
                &&& job@.direct_ranges[at].buf_start == job@.ranges[i].buf_start
                &&& job@.direct_ranges[at].buf_end == job@.ranges[i].buf_end
                &&& job@.direct_ranges[at].end - job@.direct_ranges[at].start == (
                job@.ranges[i].end - job@.ranges[i].start) * store@.elem_len
                &&& !store@.oss ==> job@.direct_ranges[at].start == job@.ranges[i].start
                    * store@.elem_len
                &&& store@.oss && (job@.ranges[i].end <= store@.data_width || job@.ranges[i].start
                    * store@.elem_len >= store@.cache_index_start) ==> object.subrange(
                    job@.direct_ranges[at].start as int,
                    job@.direct_ranges[at].end as int,
                ) == tree.subrange(
                    job@.ranges[i].start * store@.elem_len,
                    job@.ranges[i].end * store@.elem_len,
                )
            },
{
    let view = job@;
    let range = view.ranges[i];
    let e = store@.elem_len;
    let first = range.start * e;
    let last = range.end * e;
    lemma_element_span(range.start as nat, range.end as nat, e);
    lemma_element_span(range.end as nat, store@.len, e);
    assert((range.start * e < store@.data_width * e) == (range.start < store@.data_width))
        by (nonlinear_arith)
        requires
            e > 0,
    ;
    assert(view.ranges.take(view.routed as int) =~= view.ranges);
    lemma_place_of_range(store@, view.ranges, i);
    let base_end = store@.data_width * e;
    let at = if first < store@.cache_index_start {
        first
    } else if store@.reader is None {
        first - store@.cache_index_start + base_end
    } else {
        first - store@.cache_index_start
    };
    assert(0 <= at && at + (last - first) <= tree.len());
    if store@.range_from_reader(range) {
        let place = store@.reader_part(view.ranges.take(i)).len() as int;
        assert(view.reader_ranges[place].index == range.index);
    } else {
        let place = store@.direct_part(view.ranges.take(i)).len() as int;
        assert(view.direct_ranges[place].index == range.index);
        if range.end <= store@.data_width {
            lemma_element_span(range.end as nat, store@.data_width, e);
        }
        if store@.oss && (range.end <= store@.data_width || first >= store@.cache_index_start) {
            assert(object.subrange(at, at + (last - first)) =~= tree.subrange(first, last));
        }
    }
}

/// A range that was read from the file is reported with the number of bytes of its elements.
pub proof fn law_file_range_reports_its_bytes(
    store: LevelCacheStore,
    job: RangesJob,
    reader_sizes: Vec<Option<usize>>,
    r: Vec<Result<usize, StoreError>>,
    i: int,
)
    requires
        call_ensures(RangesJob::finish, (&job, &reader_sizes), r),
        job@.wf(store@),
        job@.routed == job@.ranges.len(),
        forall|j: int, k: int|
            0 <= j < k < job@.ranges.len() ==> (#[trigger] job@.ranges[j]).index != (
            #[trigger] job@.ranges[k]).index,
        0 <= i < job@.ranges.len(),
        store@.elem_len > 0,
        !store@.oss,
        store@.reader is None || job@.ranges[i].start >= store@.data_width,
        job@.ranges[i].start <= job@.ranges[i].end,
        job@.ranges[i].end * store@.elem_len <= usize::MAX,
        forall|at: int|
            0 <= at < job@.direct_ranges.len() ==> (#[trigger] job@.direct_ranges[at]).start
                <= job@.direct_ranges[at].end && job@.direct_sizes[at] == Some(
                (job@.direct_ranges[at].end - job@.direct_ranges[at].start) as usize,
            ),
    ensures
        r@[i] matches Ok(n) && n == (job@.ranges[i].end - job@.ranges[i].start) * store@.elem_len,
{
    let view = job@;
    let range = view.ranges[i];
    let e = store@.elem_len;
    lemma_element_span(range.start as nat, range.end as nat, e);
    assert((range.start * e < store@.data_width * e) == (range.start < store@.data_width))
        by (nonlinear_arith)
        requires
            e > 0,
    ;
    assert(view.ranges.take(view.routed as int) =~= view.ranges);
    lemma_place_of_range(store@, view.ranges, i);
    let place = store@.direct_part(view.ranges.take(i)).len() as int;
    assert(view.direct_ranges[place].index == range.index);
    law_results_are_reports(store, job, reader_sizes, r, i, place);
}

/// Which of the ranges of a refused request is refused first.
proof fn lemma_first_refused(store: StoreView, ranges: Seq<Range>) -> (i: int)
    ensures
        store.ranges_check(ranges) is Ok ==> forall|j: int|
            0 <= j < ranges.len() ==> store.range_check(
                store.first_byte(#[trigger] ranges[j]),
                store.last_byte(ranges[j]),
            ) is Ok,
        store.ranges_check(ranges) matches Err(e) ==> {
            &&& 0 <= i < ranges.len()
            &&& store.range_check(store.first_byte(ranges[i]), store.last_byte(ranges[i]))
                == Err::<(), StoreError>(e)
            &&& forall|j: int|
                0 <= j < i ==> store.range_check(
                    store.first_byte(#[trigger] ranges[j]),
                    store.last_byte(ranges[j]),
                ) is Ok
        },
    decreases ranges.len(),
{
    if ranges.len() == 0 {
        0
    } else {
        let rest = ranges.drop_last();
        let i = lemma_first_refused(store, rest);
        assert forall|j: int|
            0 <= j < rest.len() && store.range_check(
                store.first_byte(rest[j]),
                store.last_byte(rest[j]),
            ) is Ok implies store.range_check(
            store.first_byte(#[trigger] ranges[j]),
            store.last_byte(ranges[j]),
        ) is Ok by {
            assert(rest[j] == ranges[j]);
        }
        if store.ranges_check(rest) is Err {
            assert(rest[i] == ranges[i]);
            assert forall|j: int| 0 <= j < i implies store.range_check(
                store.first_byte(#[trigger] ranges[j]),
                store.last_byte(ranges[j]),
            ) is Ok by {
                assert(rest[j] == ranges[j]);
            }
            i
        } else {
            assert forall|j: int| 0 <= j < rest.len() implies store.range_check(
                store.first_byte(#[trigger] ranges[j]),
                store.last_byte(ranges[j]),
            ) is Ok by {
                assert(rest[j] == ranges[j]);
            }
            ranges.len() - 1
        }
    }
}

/// A request is taken up where each of its ranges would be read, before any is routed. Else it
/// is refused as the first range that would not be read is.
pub proof fn law_request_refused_like_reads(
    store: LevelCacheStore,
    ranges: Vec<Range>,
    r: Result<RangesJob, StoreError>,
)
    requires
        call_ensures(LevelCacheStore::read_ranges_into, (&store, ranges), r),
    ensures
        r matches Ok(job) ==> {
            &&& job@.ranges == ranges@
            &&& job@.routed == 0
            &&& job@.reader_ranges.len() == 0
            &&& job@.direct_ranges.len() == 0
            &&& job@.direct_sizes.len() == 0
            &&& forall|j: int|
                0 <= j < ranges@.len() ==> store@.range_check(
                    (#[trigger] ranges@[j]).start as nat * store@.elem_len,
                    ranges@[j].end as nat * store@.elem_len,
                ) is Ok
        },
        r matches Err(e) ==> exists|i: int|
            {
                &&& 0 <= i < ranges@.len()
                &&& store@.range_check(
                    (#[trigger] ranges@[i]).start as nat * store@.elem_len,
                    ranges@[i].end as nat * store@.elem_len,
                ) == Err::<(), StoreError>(e)
                &&& forall|j: int|
                    0 <= j < i ==> store@.range_check(
                        (#[trigger] ranges@[j]).start as nat * store@.elem_len,
                        ranges@[j].end as nat * store@.elem_len,
                    ) is Ok
            },
{
    let i = lemma_first_refused(store@, ranges@);
    if r is Err {
        assert(ranges@[i] == ranges@[i]);
    }
}

/// The first range with an index is the one before which no range has it.
proof fn lemma_first_is_first(ranges: Seq<Range>, index: usize, at: int)
    requires
        0 <= at <= ranges.len(),
        forall|j: int| 0 <= j < at ==> (#[trigger] ranges[j]).index != index,
        at < ranges.len() ==> ranges[at].index == index,
    ensures
        first_with_index(ranges, index) == (if at < ranges.len() {
            Some(at as nat)
        } else {
            None
        }),
    decreases ranges.len(),
{
    if ranges.len() > 0 {
        let rest = ranges.drop_last();
        let before = if at < rest.len() {
            at
        } else {
            rest.len() as int
        };
        assert forall|j: int| 0 <= j < before implies (#[trigger] rest[j]).index != index by {
            assert(rest[j] == ranges[j]);
        }
        if before < rest.len() {
            assert(rest[before] == ranges[before]);
        }
        lemma_first_is_first(rest, index, before);
        if at == ranges.len() {
            assert(ranges[at - 1].index != index);
        }
    }
}

/// Ranges that share an index share a report: that of the first of them that lies in the file or
/// object, else that of the first that the reader serves.
pub proof fn law_shared_index_shares_report(
    store: LevelCacheStore,
    job: RangesJob,
    reader_sizes: Vec<Option<usize>>,
    r: Vec<Result<usize, StoreError>>,
    i: int,
    direct: int,
    reader: int,
)
    requires
        call_ensures(RangesJob::finish, (&job, &reader_sizes), r),
        job@.wf(store@),
        job@.routed == job@.ranges.len(),
        0 <= i < job@.ranges.len(),
        0 <= direct <= job@.direct_ranges.len(),
        forall|j: int|
            0 <= j < direct ==> (#[trigger] job@.direct_ranges[j]).index != job@.ranges[i].index,
        direct < job@.direct_ranges.len() ==> job@.direct_ranges[direct].index
            == job@.ranges[i].index,
        0 <= reader <= job@.reader_ranges.len(),
        forall|j: int|
            0 <= j < reader ==> (#[trigger] job@.reader_ranges[j]).index != job@.ranges[i].index,
        reader < job@.reader_ranges.len() ==> job@.reader_ranges[reader].index
            == job@.ranges[i].index,
    ensures
        r@.len() == job@.ranges.len(),
        direct < job@.direct_ranges.len() ==> r@[i] == (match job@.direct_sizes[direct] {
            Some(n) => Ok::<usize, StoreError>(n),
            None => Err(StoreError::ReadRange),
        }),
        direct == job@.direct_ranges.len() && reader < job@.reader_ranges.len() ==> r@[i] == (
        match reader_sizes@[reader] {
            Some(n) => Ok::<usize, StoreError>(n),
            None => Err(StoreError::ReadRange),
        }),
        direct < job@.direct_ranges.len() || reader < job@.reader_ranges.len(),
{
    let view = job@;
    let index = view.ranges[i].index;
    lemma_first_is_first(view.direct_ranges, index, direct);
    lemma_first_is_first(view.reader_ranges, index, reader);
    lemma_outcomes_indexed(store@, view, reader_sizes@, view.ranges.len());
    assert(outcomes(view, reader_sizes@, view.ranges.len())[i] == r@[i]);
    assert(view.ranges.take(view.routed as int) =~= view.ranges);
    lemma_place_of_range(store@, view.ranges, i);
    if store@.range_from_reader(view.ranges[i]) {
        let place = store@.reader_part(view.ranges.take(i)).len() as int;
        assert(view.reader_ranges[place].index == index);
    } else {
        let place = store@.direct_part(view.ranges.take(i)).len() as int;
        assert(view.direct_ranges[place].index == index);
    }
}

} // verus!
