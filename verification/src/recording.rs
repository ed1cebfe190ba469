//! What the calls that record something leave, stated of the calls themselves.
//!
//! `old(..)` and `final(..)` are the store or job before and after the call.
use vstd::prelude::*;
use crate::built::store_after_step;
use crate::config::{ReaderInfo, StoreConfig, StoreOssConfig};
use crate::error::StoreError;
use crate::oss::{HeadReply, OssProbe};
use crate::store::ranges::{LastReads, Range, RangesJob, RouteStep};
use crate::store::read::{lemma_element_span, lemma_next_element, ReadPlan};
use crate::store::rows::{BuildJob, LayerStep};
use crate::store::truncate::TruncatePlan;
use crate::store::write::WritePlan;
use crate::store::{LevelCacheStore, StoreView};

verus! {

/// Committing a write sets the number of elements and nothing else.
pub proof fn law_commit_sets_elements(store: &mut LevelCacheStore, plan: WritePlan)
    requires
        call_ensures(LevelCacheStore::commit, (store, plan), ()),
    ensures
        final(store)@ == (StoreView { len: plan.elements as nat, ..old(store)@ }),
{
}

/// Writing an element and committing the write never loses an element, and leaves the written
/// one held.
pub proof fn law_committed_write_never_shrinks(
    store: &mut LevelCacheStore,
    index: usize,
    el_len: usize,
    plan: WritePlan,
)
    requires
        call_ensures(
            LevelCacheStore::write_at,
            (&*store, index, el_len),
            Ok::<WritePlan, StoreError>(plan),
        ),
        call_ensures(LevelCacheStore::commit, (store, plan), ()),
    ensures
        final(store)@.len >= old(store)@.len,
        final(store)@.len > index,
        final(store)@.len == old(store)@.len || final(store)@.len == index + 1,
        final(store)@.store_size == old(store)@.store_size,
{
}

/// Recording a cut of `len` elements takes their bytes off the size of the file.
pub proof fn law_recorded_cut_takes_bytes_off(
    store: &mut LevelCacheStore,
    file_len: u64,
    len: usize,
    plan: TruncatePlan,
)
    requires
        call_ensures(
            LevelCacheStore::front_truncate,
            (&*store, file_len, len),
            Ok::<TruncatePlan, StoreError>(plan),
        ),
        call_ensures(LevelCacheStore::truncated, (store, plan), ()),
        old(store)@.store_size == file_len,
    ensures
        final(store)@.store_size + len * old(store)@.elem_len == old(store)@.store_size,
        final(store)@ == (StoreView {
            store_size: final(store)@.store_size,
            ..old(store)@
        }),
{
    let elem_len = old(store)@.elem_len;
    assert(len * elem_len >= 0) by (nonlinear_arith);
}

/// Setting the length sets the length and nothing else.
pub proof fn law_set_len_sets_len(store: &mut LevelCacheStore, len: usize)
    requires
        call_ensures(LevelCacheStore::set_len, (store, len), ()),
    ensures
        final(store)@ == (StoreView { len: len as nat, ..old(store)@ }),
{
}

/// Setting a reader never fails, and sets the reader and nothing else.
pub proof fn law_set_reader_sets_reader(
    store: &mut LevelCacheStore,
    reader: ReaderInfo,
    r: Result<(), StoreError>,
)
    requires
        call_ensures(LevelCacheStore::set_external_reader, (store, reader), r),
    ensures
        r is Ok,
        final(store)@.reader is Some,
        final(store)@.reader.unwrap().offset == reader.offset,
        final(store)@.reader.unwrap().data_path == reader.data_path@,
        final(store)@ == (StoreView { reader: final(store)@.reader, ..old(store)@ }),
{
}

/// Compacting is always refused and changes nothing.
pub proof fn law_compact_refused(
    store: &mut LevelCacheStore,
    branches: usize,
    config: StoreConfig,
    version: u32,
    r: Result<bool, StoreError>,
)
    requires
        call_ensures(LevelCacheStore::compact, (store, branches, config, version), r),
    ensures
        r == Err::<bool, StoreError>(StoreError::CannotCompact),
        final(store)@ == old(store)@,
{
}

/// A request begins with all its ranges before it and nothing asked for.
pub proof fn law_request_begins(store: LevelCacheStore, ranges: Vec<Range>, job: RangesJob)
    requires
        call_ensures(LevelCacheStore::store_read_ranges_into, (&store, ranges), job),
    ensures
        job@.ranges == ranges@,
        job@.routed == 0,
        job@.reader_ranges.len() == 0,
        job@.direct_ranges.len() == 0,
        job@.direct_sizes.len() == 0,
{
}

/// Routing asks for the bytes of the elements of the next range: the reader is asked later for
/// a range whose first element it serves, a remote object later for any other, and the file at
/// once. A range that begins between the base row and the cached rows ends the request.
pub proof fn law_routing_asks_for_elements(
    store: LevelCacheStore,
    job: &mut RangesJob,
    range: Range,
    r: Result<RouteStep, StoreError>,
)
    requires
        call_ensures(LevelCacheStore::route_next, (&store, job), r),
        old(job)@.routed <= old(job)@.ranges.len(),
        old(job)@.routed < old(job)@.ranges.len() ==> range
            == old(job)@.ranges[old(job)@.routed as int],
        store@.elem_len > 0,
        range.start <= range.end,
        range.end * store@.elem_len <= usize::MAX,
    ensures
        final(job)@.ranges == old(job)@.ranges,
        final(job)@.direct_sizes == old(job)@.direct_sizes,
        old(job)@.routed == old(job)@.ranges.len() ==> r == Ok::<RouteStep, StoreError>(
            RouteStep::Done,
        ) && final(job)@ == old(job)@,
        old(job)@.routed < old(job)@.ranges.len() ==> {
            let first = range.start * store@.elem_len;
            let refused = store@.data_width * store@.elem_len < first && first
                < store@.cache_index_start;
            let from_reader = range.start < store@.data_width && store@.reader is Some;
            &&& refused ==> r == Err::<RouteStep, StoreError>(StoreError::InvalidReadStart)
                && final(job)@ == old(job)@
            &&& !refused ==> r is Ok && final(job)@.routed == old(job)@.routed + 1
            &&& !refused && from_reader ==> {
                let asked = final(job)@.reader_ranges.last();
                &&& r == Ok::<RouteStep, StoreError>(RouteStep::Queued)
                &&& final(job)@.direct_ranges == old(job)@.direct_ranges
                &&& final(job)@.reader_ranges == old(job)@.reader_ranges.push(asked)
                &&& asked.index == range.index
                &&& asked.start == range.start * store@.elem_len
                &&& asked.end == range.end * store@.elem_len
                &&& asked.buf_start == range.buf_start
                &&& asked.buf_end == range.buf_end
            }
            &&& !refused && !from_reader ==> {
                let asked = final(job)@.direct_ranges.last();
                &&& final(job)@.reader_ranges == old(job)@.reader_ranges
                &&& final(job)@.direct_ranges == old(job)@.direct_ranges.push(asked)
                &&& asked.index == range.index
                &&& asked.buf_start == range.buf_start
                &&& asked.buf_end == range.buf_end
                &&& !store@.oss ==> asked.start == range.start * store@.elem_len && asked.end
                    == range.end * store@.elem_len
                &&& store@.oss ==> r == Ok::<RouteStep, StoreError>(RouteStep::Queued)
                &&& !store@.oss ==> {
                    &&& r matches Ok(RouteStep::Read { plan, buf_start, buf_end })
                    &&& buf_start == range.buf_start
                    &&& buf_end == range.buf_end
                    &&& plan is File
                }
            }
        },
{
    let e = store@.elem_len;
    lemma_element_span(range.start as nat, range.end as nat, e);
    assert((range.start * e < store@.data_width * e) == (range.start < store@.data_width))
        by (nonlinear_arith)
        requires
            e > 0,
    ;
}

/// A range of the file is read where a single read of its elements into its part of the buffer
/// would be; a range of a remote object is asked for where such a read would be.
pub proof fn law_routing_reads_like_single_read(
    store: LevelCacheStore,
    job: &mut RangesJob,
    range: Range,
    buf_len: usize,
    single: ReadPlan,
    step: RouteStep,
)
    requires
        call_ensures(
            LevelCacheStore::route_next,
            (&store, job),
            Ok::<RouteStep, StoreError>(step),
        ),
        old(job)@.routed < old(job)@.ranges.len(),
        range == old(job)@.ranges[old(job)@.routed as int],
        range.buf_start <= range.buf_end,
        buf_len == range.buf_end - range.buf_start,
        call_ensures(
            LevelCacheStore::read_range_into,
            (&store, range.start, range.end, buf_len),
            Ok::<ReadPlan, StoreError>(single),
        ),
        range.end * store@.elem_len <= usize::MAX,
        range.start <= range.end,
    ensures
        match single {
            ReadPlan::File { offset, len } => step == (RouteStep::Read {
                plan: single,
                buf_start: range.buf_start,
                buf_end: range.buf_end,
            }),
            ReadPlan::Oss { start, end } => {
                &&& step == RouteStep::Queued
                &&& final(job)@.direct_ranges.last().start == start
                &&& final(job)@.direct_ranges.last().end == end
            },
            ReadPlan::Reader { start, end } => {
                &&& step == RouteStep::Queued
                &&& final(job)@.reader_ranges.last().start == start
                &&& final(job)@.reader_ranges.last().end == end
            },
        },
{
    lemma_element_span(range.start as nat, range.end as nat, store@.elem_len);
}

/// A successful read of a range from the file is reported with the number of bytes of its
/// elements, and a failed one without a number.
pub proof fn law_file_read_reports_elements(
    store: LevelCacheStore,
    routing: &mut RangesJob,
    reading: &mut RangesJob,
    range: Range,
    plan: ReadPlan,
    buf_start: usize,
    buf_end: usize,
    succeeded: bool,
)
    requires
        call_ensures(
            LevelCacheStore::route_next,
            (&store, routing),
            Ok::<RouteStep, StoreError>(RouteStep::Read { plan, buf_start, buf_end }),
        ),
        old(routing)@.routed < old(routing)@.ranges.len(),
        range == old(routing)@.ranges[old(routing)@.routed as int],
        old(reading)@ == final(routing)@,
        call_ensures(RangesJob::file_read_done, (reading, succeeded), ()),
        store@.elem_len > 0,
        range.start <= range.end,
        range.end * store@.elem_len <= usize::MAX,
    ensures
        final(reading)@.direct_sizes.len() == old(routing)@.direct_sizes.len() + 1,
        final(reading)@.direct_sizes.drop_last() == old(routing)@.direct_sizes,
        !succeeded ==> final(reading)@.direct_sizes.last() is None,
        succeeded ==> final(reading)@.direct_sizes.last() is Some
            && final(reading)@.direct_sizes.last().unwrap() == (range.end - range.start)
            * store@.elem_len,
        final(reading)@.ranges == final(routing)@.ranges,
        final(reading)@.routed == final(routing)@.routed,
        final(reading)@.reader_ranges == final(routing)@.reader_ranges,
        final(reading)@.direct_ranges == final(routing)@.direct_ranges,
{
    lemma_element_span(range.start as nat, range.end as nat, store@.elem_len);
    assert(final(reading)@.direct_sizes.drop_last() =~= old(routing)@.direct_sizes);
}

/// The report of a remote object is taken as it is.
pub proof fn law_remote_report_taken(job: &mut RangesJob, sizes: Vec<Option<usize>>)
    requires
        call_ensures(RangesJob::oss_read_done, (job, sizes), ()),
    ensures
        final(job)@.direct_sizes == sizes@,
        final(job)@.ranges == old(job)@.ranges,
        final(job)@.routed == old(job)@.routed,
        final(job)@.reader_ranges == old(job)@.reader_ranges,
        final(job)@.direct_ranges == old(job)@.direct_ranges,
{
}

/// What is asked for at the end, and which ranges: the object where the data are remote, the
/// reader where there is one.
pub proof fn law_last_reads_by_store(
    store: LevelCacheStore,
    job: RangesJob,
    last: LastReads,
    reader_ranges: &Vec<Range>,
    direct_ranges: &Vec<Range>,
)
    requires
        call_ensures(LevelCacheStore::after_routing, (&store, &job), last),
        call_ensures(RangesJob::reader_ranges, (&job,), reader_ranges),
        call_ensures(RangesJob::direct_ranges, (&job,), direct_ranges),
    ensures
        last.oss == store@.oss,
        last.reader == (store@.reader is Some),
        reader_ranges@ == job@.reader_ranges,
        direct_ranges@ == job@.direct_ranges,
{
}

/// The place of bytes can be computed where the read is refused or left to the reader, and else
/// where the bytes are in order and their place is a number that the machine has.
pub proof fn law_places_fit(store: LevelCacheStore, start: usize, end: usize, r: bool)
    requires
        call_ensures(LevelCacheStore::can_place, (&store, start, end), r),
    ensures
        ({
            let base_end = store@.data_width * store@.elem_len;
            let shift = if start < store@.cache_index_start {
                0
            } else if store@.reader is Some {
                -(store@.cache_index_start as int)
            } else {
                base_end - store@.cache_index_start
            };
            r <==> {
                ||| base_end < start && start < store@.cache_index_start
                ||| start < base_end && store@.reader is Some
                ||| start <= end && start + shift <= usize::MAX && (store@.oss ==> end + shift
                    <= usize::MAX)
            }
        }),
{
}

/// A range can be routed where its bytes are in order and can be placed, and where its part of
/// the buffer is in order if the file is read at once.
pub proof fn law_routable_ranges(
    store: LevelCacheStore,
    range: Range,
    first: usize,
    last: usize,
    placed: bool,
    r: bool,
)
    requires
        call_ensures(LevelCacheStore::can_route, (&store, range), r),
        call_ensures(LevelCacheStore::can_place, (&store, first, last), placed),
        first == range.start * store@.elem_len,
        last == range.end * store@.elem_len,
    ensures
        r ==> first <= last && placed,
        first <= last && placed && range.buf_start <= range.buf_end ==> r,
{
}

/// One step of a build: the row that was named is recorded as hashed, with the next row one
/// level up, and the cut with the size that it leaves.
pub proof fn law_step_is_recorded(
    job: &mut BuildJob,
    store: &mut LevelCacheStore,
    step: LayerStep,
    cut: Option<TruncatePlan>,
    file_len: u64,
)
    requires
        call_ensures(BuildJob::next_layer, (&*job, &*store), Some(step)),
        call_ensures(BuildJob::layer_done, (job, store, cut), ()),
        old(job)@.branches > 0,
        old(store)@.store_size == file_len,
        cut is Some <==> step.truncate,
        cut matches Some(plan) ==> call_ensures(
            LevelCacheStore::front_truncate,
            (&*store, file_len, step.width),
            Ok::<TruncatePlan, StoreError>(plan),
        ),
    ensures
        final(job)@.level == step.level + 1,
        final(job)@.level == old(job)@.level + 1,
        final(job)@.width == old(job)@.width / old(job)@.branches,
        final(job)@.level_node_index == old(job)@.level_node_index + step.width,
        final(job)@.branches == old(job)@.branches,
        final(job)@.leafs == old(job)@.leafs,
        final(job)@.row_count == old(job)@.row_count,
        final(job)@.tree_len == old(job)@.tree_len,
        final(job)@.cache_index_start == old(job)@.cache_index_start,
        final(store)@.len == old(job)@.level_node_index + step.width,
        step.truncate ==> final(store)@.store_size + step.width * old(store)@.elem_len
            == old(store)@.store_size,
        !step.truncate ==> final(store)@.store_size == old(store)@.store_size,
        final(store)@ == store_after_step(old(store)@, old(job)@),
        final(job)@ == old(job)@.after_layer(),
        step@ == old(job)@.layer(old(store)@.len),
{
    let elem_len = old(store)@.elem_len;
    assert(step.width * elem_len >= 0) by (nonlinear_arith);
}

/// A finished build holds one element more, the root. It is found in the last of the elements
/// that are not discarded, where the tree has the elements and rows that it should have.
pub proof fn law_finish_finds_last_element(
    job: BuildJob,
    store: &mut LevelCacheStore,
    after: LevelCacheStore,
    index: usize,
    read: Result<ReadPlan, StoreError>,
    r: Result<ReadPlan, StoreError>,
)
    requires
        call_ensures(BuildJob::finish, (&job, store), r),
        after@ == final(store)@,
        index == job@.tree_len - job@.cache_index_start - 1,
        call_ensures(LevelCacheStore::read_at_internal, (&after, index), read),
    ensures
        old(store)@.len + 1 == job@.tree_len && job@.row_count == job@.level + 1 ==> r == read,
        final(store)@ == (StoreView { len: old(store)@.len + 1, ..old(store)@ }),
        old(store)@.len + 1 != job@.tree_len ==> r == Err::<ReadPlan, StoreError>(
            StoreError::BuiltLength,
        ),
        old(store)@.len + 1 == job@.tree_len && job@.row_count != job@.level + 1 ==> r == Err::<
            ReadPlan,
            StoreError,
        >(StoreError::BuiltRowCount),
        r matches Ok(plan) ==> {
            &&& plan matches ReadPlan::File { offset, len }
            &&& len == old(store)@.elem_len
            &&& offset + len == (job@.tree_len - job@.cache_index_start) * old(store)@.elem_len
        },
{
    lemma_next_element(
        (job@.tree_len - job@.cache_index_start - 1) as nat,
        old(store)@.elem_len,
    );
}

/// A reply is recorded as one more endpoint asked, and with the size where the endpoint has the
/// object.
pub proof fn law_reply_is_recorded(probe: &mut OssProbe, reply: HeadReply)
    requires
        call_ensures(OssProbe::replied, (probe, reply), ()),
    ensures
        final(probe)@.asked == old(probe)@.asked + 1,
        final(probe)@.endpoints == old(probe)@.endpoints,
        reply matches HeadReply::Answered { code, size } ==> final(probe)@.size == (if code
            == 200 {
            size
        } else {
            None
        }),
        reply is Failed ==> final(probe)@.size is None,
{
}

/// A copy of a remote configuration says what the configuration says.
pub proof fn law_configuration_copies(config: StoreOssConfig, r: StoreOssConfig)
    requires
        call_ensures(StoreOssConfig::clone, (&config,), r),
    ensures
        r.landed_dir@ == config.landed_dir@,
        r.access_key@ == config.access_key@,
        r.secret_key@ == config.secret_key@,
        r.endpoints@ == config.endpoints@,
        r.region@ == config.region@,
        r.bucket_name@ == config.bucket_name@,
{
    assert(r@.landed_dir == config@.landed_dir);
    assert(r@.access_key == config@.access_key);
    assert(r@.secret_key == config@.secret_key);
    assert(r@.endpoints == config@.endpoints);
    assert(r@.region == config@.region);
    assert(r@.bucket_name == config@.bucket_name);
}

} // verus!
