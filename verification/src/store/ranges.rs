//! Reading several ranges of elements in one request.
//!
//! The ranges are routed one by one. What the reader serves is put off and asked for
//! in one go at the end, and so is what lies in a remote object; what lies in the
//! file is read at once. The results are then put together in the order of the
//! request.
use vstd::prelude::*;
use crate::error::StoreError;
use super::read::{ReadPlan, ReadTarget};
use super::{LevelCacheStore, StoreView};

verus! {

/// A range of elements, or of bytes, and the part of a buffer it goes to.
#[derive(Clone, Copy, Debug, PartialEq, Eq, Structural)]
pub struct Range {
    /// By what the range is told from the others of a request.
    pub index: usize,
    pub start: usize,
    pub end: usize,
    pub buf_start: usize,
    pub buf_end: usize,
}

impl StoreView {
    /// Where the elements of a range begin in the bytes of the tree.
    pub open spec fn first_byte(self, range: Range) -> nat {
        range.start as nat * self.elem_len
    }

    /// Where the elements of a range end in the bytes of the tree.
    pub open spec fn last_byte(self, range: Range) -> nat {
        range.end as nat * self.elem_len
    }

    /// Whether the ends of a range can be computed.
    pub open spec fn bytes_fit(self, range: Range) -> bool {
        self.first_byte(range) <= usize::MAX && self.last_byte(range) <= usize::MAX
    }

    /// Whether a range is left to the reader.
    pub open spec fn range_from_reader(self, range: Range) -> bool {
        self.served_by_reader(self.first_byte(range))
    }

    /// The bytes that are asked for where a range of elements is asked for: those of
    /// the tree, or those of the remote object.
    pub open spec fn routed(self, range: Range) -> Range {
        let start = self.first_byte(range);
        let end = self.last_byte(range);
        if self.oss && !self.range_from_reader(range) {
            let at = self.stored_at(start);
            Range { start: at as usize, end: (at + (end - start)) as usize, ..range }
        } else {
            Range { start: start as usize, end: end as usize, ..range }
        }
    }

    /// Whether a range can be routed.
    pub open spec fn routable(self, range: Range) -> bool {
        let start = self.first_byte(range);
        let end = self.last_byte(range);
        &&& self.bytes_fit(range)
        &&& start <= end
        &&& self.accepts(start) ==> self.target_fits(start, end)
        &&& self.accepts(start) && !self.range_from_reader(range) && !self.oss ==> range.buf_start
            <= range.buf_end
    }

    /// Whether each of the ranges is there to be read, or why the first one that is
    /// not is refused.
    pub open spec fn ranges_check(self, ranges: Seq<Range>) -> Result<(), StoreError>
        decreases ranges.len(),
    {
        if ranges.len() == 0 {
            Ok(())
        } else {
            match self.ranges_check(ranges.drop_last()) {
                Err(e) => Err(e),
                Ok(_) => self.range_check(
                    self.first_byte(ranges.last()),
                    self.last_byte(ranges.last()),
                ),
            }
        }
    }

    /// The ranges that are left to the reader.
    pub open spec fn reader_part(self, ranges: Seq<Range>) -> Seq<Range>
        decreases ranges.len(),
    {
        if ranges.len() == 0 {
            Seq::empty()
        } else if self.range_from_reader(ranges.last()) {
            self.reader_part(ranges.drop_last()).push(self.routed(ranges.last()))
        } else {
            self.reader_part(ranges.drop_last())
        }
    }

    /// The ranges that lie in the file or object.
    pub open spec fn direct_part(self, ranges: Seq<Range>) -> Seq<Range>
        decreases ranges.len(),
    {
        if ranges.len() == 0 {
            Seq::empty()
        } else if self.range_from_reader(ranges.last()) {
            self.direct_part(ranges.drop_last())
        } else {
            self.direct_part(ranges.drop_last()).push(self.routed(ranges.last()))
        }
    }
}

/// A request for several ranges that is under way.
#[derive(Debug)]
pub struct RangesJob {
    ranges: Vec<Range>,
    routed: usize,
    reader_ranges: Vec<Range>,
    direct_ranges: Vec<Range>,
    direct_sizes: Vec<Option<usize>>,
}

/// How far a request has come.
#[verifier::ext_equal]
pub struct JobView {
    /// The ranges of elements asked for.
    pub ranges: Seq<Range>,
    /// How many of them have been routed.
    pub routed: nat,
    /// The byte ranges to ask the reader for.
    pub reader_ranges: Seq<Range>,
    /// The byte ranges of the file or object.
    pub direct_ranges: Seq<Range>,
    /// The number of bytes read of each of these, nothing where the read failed.
    pub direct_sizes: Seq<Option<usize>>,
}

impl JobView {
    /// The request before any range is routed.
    pub open spec fn begin(ranges: Seq<Range>) -> Self {
        JobView {
            ranges,
            routed: 0,
            reader_ranges: Seq::empty(),
            direct_ranges: Seq::empty(),
            direct_sizes: Seq::empty(),
        }
    }

    /// The range that is routed next.
    pub open spec fn next(self) -> Range {
        self.ranges[self.routed as int]
    }

    /// The request after the next range has been routed.
    pub open spec fn after_routing(self, store: StoreView) -> Self {
        let range = self.next();
        if store.range_from_reader(range) {
            JobView {
                routed: self.routed + 1,
                reader_ranges: self.reader_ranges.push(store.routed(range)),
                ..self
            }
        } else {
            JobView {
                routed: self.routed + 1,
                direct_ranges: self.direct_ranges.push(store.routed(range)),
                ..self
            }
        }
    }

    /// What every request under way keeps: the ranges routed so far have been handed
    /// to the reader or to the file or object, in their order.
    pub open spec fn wf(self, store: StoreView) -> bool {
        let done = self.ranges.take(self.routed as int);
        &&& self.routed <= self.ranges.len()
        &&& self.reader_ranges == store.reader_part(done)
        &&& self.direct_ranges == store.direct_part(done)
    }

    /// Whether every read from the file that was planned has been reported.
    pub open spec fn settled(self, store: StoreView) -> bool {
        store.oss || self.direct_sizes.len() == self.direct_ranges.len()
    }
}

impl View for RangesJob {
    type V = JobView;

    closed spec fn view(&self) -> JobView {
        JobView {
            ranges: self.ranges@,
            routed: self.routed as nat,
            reader_ranges: self.reader_ranges@,
            direct_ranges: self.direct_ranges@,
            direct_sizes: self.direct_sizes@,
        }
    }
}

/// What to do after a range has been routed.
#[derive(Clone, Copy, Debug, PartialEq, Eq, Structural)]
pub enum RouteStep {
    /// All ranges have been routed.
    Done,
    /// The range is read later.
    Queued,
    /// Read from the file into the part of the buffer from `buf_start` to `buf_end`,
    /// and report how it went.
    Read { plan: ReadPlan, buf_start: usize, buf_end: usize },
}

/// What to ask for once all ranges of a request have been routed, the remote object first.
#[derive(Clone, Copy, Debug, PartialEq, Eq, Structural)]
pub struct LastReads {
    /// Ask for all byte ranges of the remote object at once.
    pub oss: bool,
    /// Ask the reader for all its byte ranges at once.
    pub reader: bool,
}

/// Where the first range with a given index stands.
pub open spec fn first_with_index(ranges: Seq<Range>, index: usize) -> Option<nat>
    decreases ranges.len(),
{
    if ranges.len() == 0 {
        None
    } else {
        match first_with_index(ranges.drop_last(), index) {
            Some(at) => Some(at),
            None => if ranges.last().index == index {
                Some((ranges.len() - 1) as nat)
            } else {
                None
            },
        }
    }
}

/// Which of the reads answers a range with a given index, and with what. A range of
/// the file or object goes before one of the reader.
pub open spec fn answer(job: JobView, reader_sizes: Seq<Option<usize>>, index: usize) -> Option<
    Option<usize>,
> {
    match first_with_index(job.direct_ranges, index) {
        Some(at) => Some(job.direct_sizes[at as int]),
        None => match first_with_index(job.reader_ranges, index) {
            Some(at) => Some(reader_sizes[at as int]),
            None => None,
        },
    }
}

/// Whether the read that answers a range with a given index has been made.
pub open spec fn answerable(
    job: JobView,
    reader_sizes: Seq<Option<usize>>,
    index: usize,
) -> bool {
    match first_with_index(job.direct_ranges, index) {
        Some(at) => at < job.direct_sizes.len(),
        None => match first_with_index(job.reader_ranges, index) {
            Some(at) => at < reader_sizes.len(),
            None => true,
        },
    }
}

/// What is returned for a read.
pub open spec fn outcome(size: Option<usize>) -> Result<usize, StoreError> {
    match size {
        Some(size) => Ok(size),
        None => Err(StoreError::ReadRange),
    }
}

/// What is returned for the first `count` ranges.
pub open spec fn outcomes(job: JobView, reader_sizes: Seq<Option<usize>>, count: nat) -> Seq<
    Result<usize, StoreError>,
>
    decreases count,
{
    if count == 0 {
        Seq::empty()
    } else {
        let before = outcomes(job, reader_sizes, (count - 1) as nat);
        match answer(job, reader_sizes, job.ranges[count - 1].index) {
            Some(size) => before.push(outcome(size)),
            None => before,
        }
    }
}

/// Finds the first range with a given index.
fn find_index(ranges: &Vec<Range>, index: usize) -> (r: Option<usize>)
    ensures
        match (r, first_with_index(ranges@, index)) {
            (Some(x), Some(y)) => x == y && y < ranges@.len(),
            (None, None) => true,
            _ => false,
        },
{
    let mut at: usize = 0;
    while at < ranges.len()
        invariant
            at <= ranges@.len(),
            first_with_index(ranges@.take(at as int), index) is None,
        decreases ranges@.len() - at,
    {
        proof {
            assert(ranges@.take(at + 1).drop_last() =~= ranges@.take(at as int));
        }
        if ranges[at].index == index {
            proof {
                lemma_first_in_prefix(ranges@, index, at + 1);
            }
            return Some(at);
        }
        at = at + 1;
    }
    proof {
        assert(ranges@.take(at as int) =~= ranges@);
    }
    None
}

/// A range found in the first ranges is found in all of them.
proof fn lemma_first_in_prefix(ranges: Seq<Range>, index: usize, count: int)
    requires
        0 <= count <= ranges.len(),
        first_with_index(ranges.take(count), index) is Some,
    ensures
        first_with_index(ranges, index) == first_with_index(ranges.take(count), index),
    decreases ranges.len() - count,
{
    if count < ranges.len() {
        assert(ranges.take(count + 1).drop_last() =~= ranges.take(count));
        lemma_first_in_prefix(ranges, index, count + 1);
    } else {
        assert(ranges.take(count) =~= ranges);
    }
}

/// A request whose first ranges are refused is refused.
proof fn lemma_refusal_stands(store: StoreView, ranges: Seq<Range>, count: int)
    requires
        0 <= count <= ranges.len(),
        store.ranges_check(ranges.take(count)) is Err,
    ensures
        store.ranges_check(ranges) == store.ranges_check(ranges.take(count)),
    decreases ranges.len() - count,
{
    if count < ranges.len() {
        assert(ranges.take(count + 1).drop_last() =~= ranges.take(count));
        lemma_refusal_stands(store, ranges, count + 1);
    } else {
        assert(ranges.take(count) =~= ranges);
    }
}

impl RangesJob {
    /// The byte ranges to ask the reader for.
    pub fn reader_ranges(&self) -> (r: &Vec<Range>)
        ensures
            r@ == self@.reader_ranges,
    {
        &self.reader_ranges
    }

    /// The byte ranges of the file or object.
    pub fn direct_ranges(&self) -> (r: &Vec<Range>)
        ensures
            r@ == self@.direct_ranges,
    {
        &self.direct_ranges
    }

    /// Takes the report of the read from the file that was planned last.
    pub fn file_read_done(&mut self, succeeded: bool)
        requires
            old(self)@.direct_sizes.len() < old(self)@.direct_ranges.len(),
            old(self)@.direct_ranges.last().start <= old(self)@.direct_ranges.last().end,
        ensures
            final(self)@ == (JobView {
                direct_sizes: old(self)@.direct_sizes.push(
                    if succeeded {
                        Some(
                            (old(self)@.direct_ranges.last().end
                                - old(self)@.direct_ranges.last().start) as usize,
                        )
                    } else {
                        None
                    },
                ),
                ..old(self)@
            }),
    {
        let range: Range = self.direct_ranges[self.direct_ranges.len() - 1];
        let size: Option<usize> = if succeeded {
            Some(range.end - range.start)
        } else {
            None
        };
        self.direct_sizes.push(size);
    }

    /// Takes the report of the reads from the remote object.
    pub fn oss_read_done(&mut self, sizes: Vec<Option<usize>>)
        ensures
            final(self)@ == (JobView { direct_sizes: sizes@, ..old(self)@ }),
    {
        self.direct_sizes = sizes;
    }

    /// Puts the results together in the order of the request. `reader_sizes` holds the
    /// number of bytes that the reader read of each range, nothing where it failed.
    pub fn finish(&self, reader_sizes: &Vec<Option<usize>>) -> (r: Vec<Result<usize, StoreError>>)
        requires
            forall|i: int|
                0 <= i < self@.ranges.len() ==> answerable(
                    self@,
                    reader_sizes@,
                    (#[trigger] self@.ranges[i]).index,
                ),
        ensures
            r@ == outcomes(self@, reader_sizes@, self@.ranges.len()),
    {
        let mut sizes: Vec<Result<usize, StoreError>> = Vec::new();
        let mut i: usize = 0;
        while i < self.ranges.len()
            invariant
                i <= self.ranges@.len(),
                self@.ranges == self.ranges@,
                sizes@ == outcomes(self@, reader_sizes@, i as nat),
                forall|i: int|
                    0 <= i < self@.ranges.len() ==> answerable(
                        self@,
                        reader_sizes@,
                        (#[trigger] self@.ranges[i]).index,
                    ),
            decreases self.ranges@.len() - i,
        {
            let index: usize = self.ranges[i].index;
            assert(answerable(self@, reader_sizes@, self@.ranges[i as int].index));
            let found: Option<Option<usize>> = match find_index(&self.direct_ranges, index) {
                Some(at) => Some(self.direct_sizes[at]),
                None => match find_index(&self.reader_ranges, index) {
                    Some(at) => Some(reader_sizes[at]),
                    None => None,
                },
            };
            match found {
                Some(Some(size)) => sizes.push(Ok(size)),
                Some(None) => sizes.push(Err(StoreError::ReadRange)),
                None => {},
            }
            i = i + 1;
        }
        sizes
    }
}

impl LevelCacheStore {
    /// Begins a request for several ranges of elements.
    pub fn store_read_ranges_into(&self, ranges: Vec<Range>) -> (r: RangesJob)
        ensures
            r@ == JobView::begin(ranges@),
            r@.wf(self@),
            r@.settled(self@),
    {
        proof {
            assert(ranges@.take(0) =~= Seq::<Range>::empty());
        }
        RangesJob {
            ranges,
            routed: 0,
            reader_ranges: Vec::new(),
            direct_ranges: Vec::new(),
            direct_sizes: Vec::new(),
        }
    }

    /// Begins a request for several ranges of elements, unless one of them leaves the
    /// elements in the store or begins in a discarded row. A range that begins exactly where
    /// the base row ends is let through even where a discarded row begins there.
    pub fn read_ranges_into(&self, ranges: Vec<Range>) -> (r: Result<RangesJob, StoreError>)
        requires
            self@.wf(),
            ranges@.len() > 0 ==> self@.byte_len() <= usize::MAX,
            forall|i: int|
                0 <= i < ranges@.len() && self@.ranges_check(ranges@.take(i)) is Ok
                    ==> self@.bytes_fit(#[trigger] ranges@[i]),
        ensures
            match (r, self@.ranges_check(ranges@)) {
                (Ok(job), Ok(_)) => job@ == JobView::begin(ranges@) && job@.wf(self@)
                    && job@.settled(self@),
                (Err(x), Err(y)) => x == y,
                _ => false,
            },
    {
        let mut i: usize = 0;
        while i < ranges.len()
            invariant
                i <= ranges@.len(),
                self@.wf(),
                ranges@.len() > 0 ==> self@.byte_len() <= usize::MAX,
                forall|i: int|
                    0 <= i < ranges@.len() && self@.ranges_check(ranges@.take(i)) is Ok
                        ==> self@.bytes_fit(#[trigger] ranges@[i]),
                self@.ranges_check(ranges@.take(i as int)) is Ok,
            decreases ranges@.len() - i,
        {
            let range: Range = ranges[i];
            proof {
                assert(self@.bytes_fit(ranges@[i as int]));
                assert(ranges@.take(i + 1).drop_last() =~= ranges@.take(i as int));
            }
            let start: usize = range.start * self.elem_len;
            let end: usize = range.end * self.elem_len;
            match self.check_range(start, end) {
                Err(e) => {
                    proof {
                        lemma_refusal_stands(self@, ranges@, i + 1);
                    }
                    return Err(e);
                },
                Ok(_) => {},
            }
            i = i + 1;
        }
        proof {
            assert(ranges@.take(i as int) =~= ranges@);
        }
        Ok(self.store_read_ranges_into(ranges))
    }

    /// Tells whether a range can be routed.
    pub fn can_route(&self, range: Range) -> (r: bool)
        requires
            self@.wf(),
        ensures
            r == self@.routable(range),
    {
        match (range.start.checked_mul(self.elem_len), range.end.checked_mul(self.elem_len)) {
            (Some(start), Some(end)) => {
                let base_end: usize = self.data_width * self.elem_len;
                if start > end {
                    return false;
                }
                let refused: bool = start > base_end && start < self.cache_index_start;
                let from_reader: bool = start < base_end && self.reader.is_some();
                self.can_place(start, end) && (refused || from_reader || self.oss
                    || range.buf_start <= range.buf_end)
            },
            _ => false,
        }
    }

    /// Routes the next range of a request.
    pub fn route_next(&self, job: &mut RangesJob) -> (r: Result<RouteStep, StoreError>)
        requires
            self@.wf(),
            old(job)@.wf(self@),
            old(job)@.settled(self@),
            old(job)@.routed < old(job)@.ranges.len() ==> self@.routable(old(job)@.next()),
        ensures
            final(job)@.wf(self@),
            final(job)@.ranges == old(job)@.ranges,
            final(job)@.direct_sizes == old(job)@.direct_sizes,
            r == Ok::<RouteStep, StoreError>(RouteStep::Done) <==> old(job)@.routed
                == old(job)@.ranges.len(),
            r is Ok && old(job)@.routed < old(job)@.ranges.len() ==> final(job)@.routed
                == old(job)@.routed + 1 && final(job)@.reader_ranges.len()
                + final(job)@.direct_ranges.len() == old(job)@.reader_ranges.len()
                + old(job)@.direct_ranges.len() + 1,
            r matches Ok(RouteStep::Read { plan, buf_start, buf_end }) ==> {
                let range = old(job)@.ranges[old(job)@.routed as int];
                &&& buf_start == range.buf_start
                &&& buf_end == range.buf_end
                &&& forall|single: Result<ReadPlan, StoreError>|
                    #[trigger] call_ensures(
                        LevelCacheStore::read_range_into,
                        (self, range.start, range.end, (buf_end - buf_start) as usize),
                        single,
                    ) && single is Ok ==> single == Ok::<ReadPlan, StoreError>(plan)
            },
            ({
                let range = old(job)@.next();
                let start = self@.first_byte(range);
                if old(job)@.routed == old(job)@.ranges.len() {
                    &&& r == Ok::<RouteStep, StoreError>(RouteStep::Done)
                    &&& final(job)@ == old(job)@
                } else if !self@.accepts(start) {
                    &&& r == Err::<RouteStep, StoreError>(StoreError::InvalidReadStart)
                    &&& final(job)@ == old(job)@
                } else if self@.range_from_reader(range) || self@.oss {
                    &&& r == Ok::<RouteStep, StoreError>(RouteStep::Queued)
                    &&& final(job)@ == old(job)@.after_routing(self@)
                } else {
                    &&& r matches Ok(RouteStep::Read { plan, buf_start, buf_end })
                    &&& plan@ == (ReadTarget::File {
                        offset: self@.stored_at(start),
                        len: (range.buf_end - range.buf_start) as nat,
                    })
                    &&& buf_start == range.buf_start
                    &&& buf_end == range.buf_end
                    &&& final(job)@ == old(job)@.after_routing(self@)
                }
            }),
    {
        if job.routed == job.ranges.len() {
            return Ok(RouteStep::Done);
        }
        let range: Range = job.ranges[job.routed];
        let start: usize = range.start * self.elem_len;
        let end: usize = range.end * self.elem_len;
        let base_end: usize = self.data_width * self.elem_len;
        if start > base_end && start < self.cache_index_start {
            return Err(StoreError::InvalidReadStart);
        }
        proof {
            let done = job@.ranges.take(job@.routed as int);
            let next = job@.ranges.take(job@.routed as int + 1);
            assert(next.drop_last() =~= done);
            assert(next.last() == range);
        }
        job.routed = job.routed + 1;
        if start < base_end && self.reader.is_some() {
            job.reader_ranges.push(
                Range {
                    index: range.index,
                    start,
                    end,
                    buf_start: range.buf_start,
                    buf_end: range.buf_end,
                },
            );
            return Ok(RouteStep::Queued);
        }
        if self.oss {
            let at: usize = self.adjusted_start(start);
            job.direct_ranges.push(
                Range {
                    index: range.index,
                    start: at,
                    end: at + (end - start),
                    buf_start: range.buf_start,
                    buf_end: range.buf_end,
                },
            );
            return Ok(RouteStep::Queued);
        }
        job.direct_ranges.push(
            Range {
                index: range.index,
                start,
                end,
                buf_start: range.buf_start,
                buf_end: range.buf_end,
            },
        );
        match self.store_read_into(start, end, range.buf_end - range.buf_start) {
            Ok(plan) => Ok(
                RouteStep::Read { plan, buf_start: range.buf_start, buf_end: range.buf_end },
            ),
            Err(e) => Err(e),
        }
    }

    /// Tells what to ask for once all ranges have been routed. Without a remote object the
    /// byte ranges of the file have been read by then.
    pub fn after_routing(&self, job: &RangesJob) -> (r: LastReads)
        requires
            job@.wf(self@),
            job@.routed == job@.ranges.len(),
        ensures
            r.oss == self@.oss,
            r.reader == (self@.reader is Some),
            !r.reader ==> job@.reader_ranges.len() == 0,
    {
        proof {
            assert(job@.ranges.take(job@.routed as int) =~= job@.ranges);
            if self@.reader is None {
                lemma_no_reader(self@, job@.ranges);
            }
        }
        LastReads { oss: self.oss, reader: self.reader.is_some() }
    }

    /// Tells whether a range is left to the reader.
    pub fn from_reader(&self, range: Range) -> (r: bool)
        requires
            self@.wf(),
            self@.first_byte(range) <= usize::MAX,
        ensures
            r == self@.range_from_reader(range),
    {
        let start: usize = range.start * self.elem_len;
        start < self.data_width * self.elem_len && self.reader.is_some()
    }

    /// Where the reader's data begin for the elements of a range; the file begins
    /// with its own.
    pub fn offset_by_range(&self, range: Range) -> (r: usize)
        requires
            self@.wf(),
            self@.first_byte(range) <= usize::MAX,
        ensures
            r == (if self@.range_from_reader(range) {
                self@.reader.unwrap().offset
            } else {
                0
            }),
    {
        match &self.reader {
            Some(reader) => if self.from_reader(range) {
                reader.offset
            } else {
                0
            },
            None => 0,
        }
    }

    /// The file that holds the first element of a range.
    pub fn path_by_range(&self, range: Range) -> (r: Option<&String>)
        requires
            self@.wf(),
            self@.first_byte(range) <= usize::MAX,
        ensures
            r is Some,
            r.unwrap()@ == (if self@.range_from_reader(range) {
                self@.reader.unwrap().data_path
            } else {
                self@.data_path
            }),
    {
        match &self.reader {
            Some(reader) => if self.from_reader(range) {
                Some(&reader.data_path)
            } else {
                Some(&self.data_path)
            },
            None => Some(&self.data_path),
        }
    }
}

/// Without a reader no range is left to it.
proof fn lemma_no_reader(store: StoreView, ranges: Seq<Range>)
    requires
        store.reader is None,
    ensures
        store.reader_part(ranges).len() == 0,
    decreases ranges.len(),
{
    if ranges.len() > 0 {
        lemma_no_reader(store, ranges.drop_last());
    }
}

/// What adding a range to a list does to the search for an index.
proof fn lemma_first_after_push(ranges: Seq<Range>, range: Range, index: usize)
    ensures
        first_with_index(ranges.push(range), index) == (match first_with_index(ranges, index) {
            Some(at) => Some(at),
            None => if range.index == index {
                Some(ranges.len())
            } else {
                None
            },
        }),
{
    assert(ranges.push(range).drop_last() =~= ranges);
}

/// An index that no range has is not found among the routed ranges.
proof fn lemma_absent_index(store: StoreView, ranges: Seq<Range>, index: usize)
    requires
        forall|j: int| 0 <= j < ranges.len() ==> (#[trigger] ranges[j]).index != index,
    ensures
        first_with_index(store.direct_part(ranges), index) is None,
        first_with_index(store.reader_part(ranges), index) is None,
    decreases ranges.len(),
{
    if ranges.len() > 0 {
        let rest = ranges.drop_last();
        assert forall|j: int| 0 <= j < rest.len() implies (#[trigger] rest[j]).index != index by {
            assert(rest[j] == ranges[j]);
        }
        lemma_absent_index(store, rest, index);
        lemma_first_after_push(store.direct_part(rest), store.routed(ranges.last()), index);
        lemma_first_after_push(store.reader_part(rest), store.routed(ranges.last()), index);
    }
}

/// The index of a range is found among the routed ranges.
proof fn lemma_present_index(store: StoreView, ranges: Seq<Range>, i: int)
    requires
        0 <= i < ranges.len(),
    ensures
        first_with_index(store.direct_part(ranges), ranges[i].index) is Some || first_with_index(
            store.reader_part(ranges),
            ranges[i].index,
        ) is Some,
    decreases ranges.len(),
{
    let rest = ranges.drop_last();
    let index = ranges[i].index;
    lemma_first_after_push(store.direct_part(rest), store.routed(ranges.last()), index);
    lemma_first_after_push(store.reader_part(rest), store.routed(ranges.last()), index);
    if i < ranges.len() - 1 {
        assert(rest[i] == ranges[i]);
        lemma_present_index(store, rest, i);
    }
}

/// Where no two ranges share an index, the index of a range is found at the place
/// where the range was put.
proof fn lemma_place_of_index(store: StoreView, ranges: Seq<Range>, i: int)
    requires
        0 <= i < ranges.len(),
        forall|j: int, k: int|
            0 <= j < k < ranges.len() ==> (#[trigger] ranges[j]).index != (
            #[trigger] ranges[k]).index,
    ensures
        store.range_from_reader(ranges[i]) ==> {
            &&& first_with_index(store.direct_part(ranges), ranges[i].index) is None
            &&& first_with_index(store.reader_part(ranges), ranges[i].index) == Some(
                store.reader_part(ranges.take(i)).len(),
            )
        },
        !store.range_from_reader(ranges[i]) ==> first_with_index(
            store.direct_part(ranges),
            ranges[i].index,
        ) == Some(store.direct_part(ranges.take(i)).len()),
    decreases ranges.len(),
{
    let rest = ranges.drop_last();
    let index = ranges[i].index;
    assert forall|j: int, k: int| 0 <= j < k < rest.len() implies (#[trigger] rest[j]).index != (
    #[trigger] rest[k]).index by {
        assert(rest[j] == ranges[j] && rest[k] == ranges[k]);
    }
    lemma_first_after_push(store.direct_part(rest), store.routed(ranges.last()), index);
    lemma_first_after_push(store.reader_part(rest), store.routed(ranges.last()), index);
    if i < ranges.len() - 1 {
        assert(rest[i] == ranges[i]);
        assert(rest.take(i) =~= ranges.take(i));
        lemma_place_of_index(store, rest, i);
    } else {
        assert(ranges.take(i) =~= rest);
        assert forall|j: int| 0 <= j < rest.len() implies (#[trigger] rest[j]).index != index by {
            assert(rest[j] == ranges[j]);
        }
        lemma_absent_index(store, rest, index);
    }
}

/// How many results the first ranges have where every range has one.
pub proof fn lemma_outcomes_indexed(
    store: StoreView,
    job: JobView,
    reader_sizes: Seq<Option<usize>>,
    count: nat,
)
    requires
        job.wf(store),
        job.routed == job.ranges.len(),
        count <= job.ranges.len(),
    ensures
        outcomes(job, reader_sizes, count).len() == count,
        forall|i: int|
            0 <= i < count ==> #[trigger] outcomes(job, reader_sizes, count)[i] == outcome(
                answer(job, reader_sizes, job.ranges[i].index).unwrap(),
            ),
    decreases count,
{
    if count > 0 {
        lemma_outcomes_indexed(store, job, reader_sizes, (count - 1) as nat);
        assert(job.ranges.take(job.routed as int) =~= job.ranges);
        lemma_present_index(store, job.ranges, count - 1);
    }
}

/// For a range of a request the same bytes are asked for as for a single read of its
/// elements into its part of the buffer.
pub proof fn law_ranges_ask_like_reads(store: StoreView, range: Range)
    requires
        store.routable(range),
        store.accepts(store.first_byte(range)),
    ensures
        ({
            let routed = store.routed(range);
            let buf_len = (range.buf_end - range.buf_start) as nat;
            match store.target(store.first_byte(range), store.last_byte(range), buf_len) {
                ReadTarget::Reader { start, end } => {
                    &&& store.range_from_reader(range)
                    &&& routed.start == start
                    &&& routed.end == end
                },
                ReadTarget::Oss { start, end } => {
                    &&& !store.range_from_reader(range)
                    &&& store.oss
                    &&& routed.start == start
                    &&& routed.end == end
                },
                ReadTarget::File { offset, len } => {
                    &&& !store.range_from_reader(range)
                    &&& !store.oss
                    &&& offset == store.stored_at(store.first_byte(range))
                    &&& len == buf_len
                    &&& routed.start == store.first_byte(range)
                    &&& routed.end == store.last_byte(range)
                },
            }
        }),
{
}

/// Every range is routed once: to the reader, or to the file or object.
pub proof fn law_each_range_routed_once(store: StoreView, ranges: Seq<Range>)
    ensures
        store.reader_part(ranges).len() + store.direct_part(ranges).len() == ranges.len(),
    decreases ranges.len(),
{
    if ranges.len() > 0 {
        law_each_range_routed_once(store, ranges.drop_last());
    }
}

/// A request is answered with one result for each range, in the order of the ranges.
/// Where no two ranges share an index, the result of a range is that of its own read.
pub proof fn law_each_range_answered(
    store: StoreView,
    job: JobView,
    reader_sizes: Seq<Option<usize>>,
)
    requires
        job.wf(store),
        job.routed == job.ranges.len(),
    ensures
        outcomes(job, reader_sizes, job.ranges.len()).len() == job.ranges.len(),
        (forall|j: int, k: int|
            0 <= j < k < job.ranges.len() ==> (#[trigger] job.ranges[j]).index != (
            #[trigger] job.ranges[k]).index) ==> forall|i: int|
            0 <= i < job.ranges.len() ==> #[trigger] outcomes(
                job,
                reader_sizes,
                job.ranges.len(),
            )[i] == outcome(
                if store.range_from_reader(job.ranges[i]) {
                    reader_sizes[store.reader_part(job.ranges.take(i)).len() as int]
                } else {
                    job.direct_sizes[store.direct_part(job.ranges.take(i)).len() as int]
                },
            ),
{
    lemma_outcomes_indexed(store, job, reader_sizes, job.ranges.len());
    assert(job.ranges.take(job.routed as int) =~= job.ranges);
    if forall|j: int, k: int|
        0 <= j < k < job.ranges.len() ==> (#[trigger] job.ranges[j]).index != (
        #[trigger] job.ranges[k]).index {
        assert forall|i: int| 0 <= i < job.ranges.len() implies #[trigger] outcomes(
            job,
            reader_sizes,
            job.ranges.len(),
        )[i] == outcome(
            if store.range_from_reader(job.ranges[i]) {
                reader_sizes[store.reader_part(job.ranges.take(i)).len() as int]
            } else {
                job.direct_sizes[store.direct_part(job.ranges.take(i)).len() as int]
            },
        ) by {
            lemma_place_of_index(store, job.ranges, i);
        }
    }
}

} // verus!
