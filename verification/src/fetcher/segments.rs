//! Cutting an asset into segments, and keeping track of those that are there.
use crate::fetcher::parts::{
    format_parts_line, law_append_records, none_downloaded, parts_line, read_parts, recorded,
    whole_lines,
};
use crate::fetcher::request::{
    asks_for_range, fetch_plan, law_range_header_asks_for_the_segment, range_value, ByteRange,
    FetchPlan,
};
use crate::fetcher::Fetcher;
use vstd::arithmetic::div_mod::lemma_fundamental_div_mod_converse;
use vstd::prelude::*;

verus! {

/// How many segments of `size` bytes it takes to hold `length` bytes.
pub open spec fn segment_count(length: nat, size: nat) -> nat {
    if size == 0 {
        0
    } else {
        ((length + size - 1) / size as int) as nat
    }
}

/// The smaller of two numbers.
pub open spec fn min_of(a: nat, b: nat) -> nat {
    if a <= b {
        a
    } else {
        b
    }
}

/// The bytes of the segment `i`: `size` of them from `i * size` on, or fewer at the end.
pub open spec fn segment_at(length: nat, size: nat, i: int) -> ByteRange {
    ByteRange {
        start: (i * size) as u64,
        end: (min_of((i * size + size) as nat, length) - 1) as u64,
    }
}

/// All segments of an asset.
pub open spec fn segments(length: nat, size: nat) -> Seq<ByteRange> {
    Seq::new(segment_count(length, size), |i: int| segment_at(length, size, i))
}

/// How many bytes a range holds.
pub open spec fn range_len(range: ByteRange) -> int {
    range.end - range.start + 1
}

/// How many bytes the ranges marked with `mark` hold.
pub open spec fn marked_bytes(ranges: Seq<ByteRange>, marks: Seq<bool>, mark: bool) -> int
    decreases ranges.len(),
{
    if ranges.len() == 0 {
        0
    } else {
        let last = ranges.len() - 1;
        marked_bytes(ranges.drop_last(), marks, mark) + if marks[last] == mark {
            range_len(ranges[last])
        } else {
            0
        }
    }
}

/// The positions that are not marked, in ascending order.
pub open spec fn unmarked(marks: Seq<bool>) -> Seq<int>
    decreases marks.len(),
{
    if marks.len() == 0 {
        Seq::empty()
    } else if marks.last() {
        unmarked(marks.drop_last())
    } else {
        unmarked(marks.drop_last()).push(marks.len() - 1)
    }
}

/// The largest number of parallel segments for a file of so many megabytes.
pub open spec fn parallel_limit(megabytes: nat) -> nat {
    if megabytes < 10 {
        1
    } else if megabytes < 50 {
        2
    } else if megabytes < 100 {
        4
    } else if megabytes < 500 {
        8
    } else if megabytes < 1000 {
        12
    } else if megabytes < 2000 {
        16
    } else {
        24
    }
}

/// The best number of parallel segments for a file: no more than it has segments, and no
/// more than suits its size.
pub open spec fn optimal_segments(file_size: nat, segment_size: nat) -> nat {
    min_of(segment_count(file_size, segment_size), parallel_limit(file_size / 1_048_576))
}

/// How many segments may be downloaded at a time: as many as are wanted, and no more than
/// memory allows, but one at least.
pub open spec fn parallel_within(
    parallel_segments: nat,
    segment_size: nat,
    max_buffer_size: Option<usize>,
) -> nat {
    match max_buffer_size {
        Some(size) => if segment_size == 0 || (size as nat) < segment_size {
            min_of(parallel_segments, 1)
        } else {
            min_of(parallel_segments, size as nat / segment_size)
        },
        None => parallel_segments,
    }
}

proof fn lemma_segment_count(length: nat, size: nat, k: nat)
    requires
        size > 0,
        k * size >= length,
        k > 0 ==> (k - 1) * size < length,
    ensures
        segment_count(length, size) == k,
{
    assert((k - 1) * size == k * size - size) by (nonlinear_arith);
    let r = length + size - 1 - k * size;
    assert(k == 0 ==> k * size == 0) by (nonlinear_arith);
    assert(0 <= r < size);
    lemma_fundamental_div_mod_converse(length + size - 1, size as int, k as int, r);
}

/// There are exactly as many segments as are needed.
pub proof fn law_segment_count(length: nat, size: nat)
    requires
        size > 0,
    ensures
        segment_count(length, size) * size >= length,
        segment_count(length, size) > 0 ==> (segment_count(length, size) - 1) * size < length,
        length > 0 <==> segment_count(length, size) > 0,
{
    let n = length + size - 1;
    let k = n / size as int;
    let r = n % size as int;
    assert(n == k * size + r && 0 <= r < size) by {
        vstd::arithmetic::div_mod::lemma_fundamental_div_mod(n, size as int);
        vstd::arithmetic::mul::lemma_mul_is_commutative(k, size as int);
    }
    assert(k >= 0) by (nonlinear_arith)
        requires
            n == k * size + r,
            r < size,
            n >= 0,
            size > 0,
    ;
    assert((k - 1) * size == k * size - size) by (nonlinear_arith);
    if length > 0 {
        assert(k > 0) by (nonlinear_arith)
            requires
                n == k * size + r,
                r < size,
                n >= size,
                size > 0,
        ;
    } else {
        assert(k == 0) by (nonlinear_arith)
            requires
                n == k * size + r,
                r >= 0,
                n < size,
                size > 0,
                k >= 0,
        ;
    }
}

/// The byte ranges of all segments of an asset.
pub fn split_ranges(content_length: u64, segment_size: u64) -> (res: Vec<ByteRange>)
    requires
        segment_size > 0,
    ensures
        res@ == segments(content_length as nat, segment_size as nat),
{
    let mut res: Vec<ByteRange> = Vec::new();
    let mut start: u64 = 0;
    let ghost size = segment_size as nat;
    let ghost length = content_length as nat;
    proof {
        assert(res@.len() * size == 0) by (nonlinear_arith)
            requires
                res@.len() == 0,
        ;
    }
    while start < content_length
        invariant
            segment_size > 0,
            size == segment_size,
            length == content_length,
            start == min_of(res@.len() * size, length),
            res@.len() > 0 ==> (res@.len() - 1) * size < length,
            forall|i: int| 0 <= i < res@.len() ==> #[trigger] res@[i] == segment_at(length, size, i),
        decreases content_length - start,
    {
        let ghost k = res@.len();
        proof {
            assert((k + 1) * size == k * size + size) by (nonlinear_arith);
        }
        if content_length - start <= segment_size {
            res.push(ByteRange { start, end: content_length - 1 });
            start = content_length;
        } else {
            res.push(ByteRange { start, end: start + segment_size - 1 });
            start = start + segment_size;
        }
    }
    proof {
        lemma_segment_count(length, size, res@.len());
        assert(res@ =~= segments(length, size));
    }
    res
}

/// What is known of a download in segments.
#[verifier::ext_equal]
pub struct SegmentedView {
    /// The size of the asset in bytes.
    pub content_length: nat,
    /// The size of a segment in bytes.
    pub segment_size: nat,
    /// Which segments are there.
    pub downloaded: Seq<bool>,
    /// How many bytes have been counted as downloaded.
    pub downloaded_bytes: nat,
    /// How many segments to download at a time.
    pub parallel_count: nat,
}

impl SegmentedView {
    /// All segments.
    pub open spec fn ranges(self) -> Seq<ByteRange> {
        segments(self.content_length, self.segment_size)
    }

    /// Every segment has its mark.
    pub open spec fn wf(self) -> bool {
        &&& 0 < self.segment_size <= u64::MAX
        &&& self.content_length <= u64::MAX
        &&& self.downloaded.len() == segment_count(self.content_length, self.segment_size)
    }
}

/// A download in segments as it begins, with `parts` for the record of an earlier one.
pub open spec fn planned(
    parallel_segments: nat,
    segment_size: nat,
    content_length: nat,
    parts: Option<Seq<char>>,
) -> SegmentedView {
    let downloaded = Seq::new(
        segment_count(content_length, segment_size),
        |i: int| parts is Some && recorded(parts->0, i as nat),
    );
    SegmentedView {
        content_length,
        segment_size,
        downloaded,
        downloaded_bytes: marked_bytes(
            segments(content_length, segment_size),
            downloaded,
            true,
        ) as nat,
        parallel_count: min_of(
            min_of(parallel_segments, optimal_segments(content_length, segment_size)),
            unmarked(downloaded).len(),
        ),
    }
}

/// A download in segments.
pub struct SegmentedDownload {
    content_length: u64,
    segment_size: u64,
    ranges: Vec<ByteRange>,
    downloaded: Vec<bool>,
    downloaded_bytes: u64,
    parallel_count: usize,
}

impl View for SegmentedDownload {
    type V = SegmentedView;

    closed spec fn view(&self) -> SegmentedView {
        SegmentedView {
            content_length: self.content_length as nat,
            segment_size: self.segment_size as nat,
            downloaded: self.downloaded@,
            downloaded_bytes: self.downloaded_bytes as nat,
            parallel_count: self.parallel_count as nat,
        }
    }
}

impl<C> Fetcher<C> {
    /// The best number of parallel segments for a file of `file_size` bytes.
    pub fn calculate_optimal_segments(&self, file_size: u64) -> (res: usize)
        requires
            self.segment_size > 0,
        ensures
            res == optimal_segments(file_size as nat, self.segment_size as nat),
    {
        let segment_size = self.segment_size as u64;
        let full_segments: u64 = file_size / segment_size;
        let rest: u64 = file_size % segment_size;
        proof {
            let size = segment_size as int;
            let q = full_segments as int;
            assert(file_size == q * size + rest) by {
                vstd::arithmetic::div_mod::lemma_fundamental_div_mod(file_size as int, size);
                vstd::arithmetic::mul::lemma_mul_is_commutative(q, size);
            }
            assert(rest > 0 ==> q < file_size) by (nonlinear_arith)
                requires
                    file_size == q * size + rest,
                    q >= 0,
                    size > 0,
            ;
            let k: nat = if rest == 0 {
                q as nat
            } else {
                (q + 1) as nat
            };
            assert((q + 1) * size == q * size + size) by (nonlinear_arith);
            assert((q - 1) * size == q * size - size) by (nonlinear_arith);
            lemma_segment_count(file_size as nat, size as nat, k);
        }
        let total_segments: u64 = if rest == 0 {
            full_segments
        } else {
            full_segments + 1
        };
        let file_size_mb = file_size / 1_048_576;
        let max_parallel_segments: u64 = if file_size_mb < 10 {
            1
        } else if file_size_mb < 50 {
            2
        } else if file_size_mb < 100 {
            4
        } else if file_size_mb < 500 {
            8
        } else if file_size_mb < 1000 {
            12
        } else if file_size_mb < 2000 {
            16
        } else {
            24
        };
        if total_segments < max_parallel_segments {
            total_segments as usize
        } else {
            max_parallel_segments as usize
        }
    }

    /// How many segments may be downloaded at a time.
    fn parallel_allowed(&self) -> (res: usize)
        requires
            self.segment_size > 0,
        ensures
            res == parallel_within(
                self.parallel_segments as nat,
                self.segment_size as nat,
                self.max_buffer_size,
            ),
    {
        let fitting: usize = match self.max_buffer_size {
            Some(size) => if size < self.segment_size {
                1
            } else {
                size / self.segment_size
            },
            None => self.parallel_segments,
        };
        if self.parallel_segments < fitting {
            self.parallel_segments
        } else {
            fitting
        }
    }

    /// Plans a download in segments. `parts` is the record of an earlier, interrupted
    /// download, if there is one: the segments in it are not downloaded again. No more
    /// segments are downloaded at a time than may be held in memory.
    pub fn plan_segments(&self, content_length: u64, parts: Option<&str>) -> (res:
        SegmentedDownload)
        requires
            self.segment_size > 0,
        ensures
            res@.wf(),
            res.wf(),
            res@ == planned(
                parallel_within(
                    self.parallel_segments as nat,
                    self.segment_size as nat,
                    self.max_buffer_size,
                ),
                self.segment_size as nat,
                content_length as nat,
                match parts {
                    Some(content) => Some(content@),
                    None => None,
                },
            ),
    {
        let segment_size = self.segment_size as u64;
        let ranges = split_ranges(content_length, segment_size);
        let count = ranges.len();
        let downloaded: Vec<bool> = match parts {
            Some(content) => read_parts(content, count),
            None => none_downloaded(count),
        };
        let ghost view = planned(
            parallel_within(
                self.parallel_segments as nat,
                self.segment_size as nat,
                self.max_buffer_size,
            ),
            self.segment_size as nat,
            content_length as nat,
            match parts {
                Some(content) => Some(content@),
                None => None,
            },
        );
        proof {
            assert(downloaded@ =~= view.downloaded);
        }
        let optimal_segments = self.calculate_optimal_segments(content_length);
        let allowed_segments = self.parallel_allowed();
        let parallel_segments = if allowed_segments < optimal_segments {
            allowed_segments
        } else {
            optimal_segments
        };
        let mut downloaded_bytes: u64 = 0;
        let mut pending: usize = 0;
        let mut i: usize = 0;
        proof {
            assert(ranges@.take(0) =~= Seq::<ByteRange>::empty());
            assert(downloaded@.take(0) =~= Seq::<bool>::empty());
        }
        while i < count
            invariant
                segment_size > 0,
                count == ranges@.len(),
                count == downloaded@.len(),
                ranges@ == segments(content_length as nat, segment_size as nat),
                i <= count,
                downloaded_bytes == marked_bytes(ranges@.take(i as int), downloaded@, true),
                pending == unmarked(downloaded@.take(i as int)).len(),
                pending <= i,
            decreases count - i,
        {
            proof {
                assert(ranges@.take(i + 1).drop_last() =~= ranges@.take(i as int));
                assert(downloaded@.take(i + 1).drop_last() =~= downloaded@.take(i as int));
                lemma_marked_bytes_bound(
                    content_length as nat,
                    segment_size as nat,
                    downloaded@,
                    i + 1,
                );
                lemma_segment_shape(content_length as nat, segment_size as nat, i as int);
            }
            if downloaded[i] {
                downloaded_bytes = downloaded_bytes + (ranges[i].end - ranges[i].start + 1);
            } else {
                pending = pending + 1;
            }
            i = i + 1;
        }
        proof {
            assert(ranges@.take(count as int) =~= ranges@);
            assert(downloaded@.take(count as int) =~= downloaded@);
        }
        let parallel_count = if parallel_segments < pending {
            parallel_segments
        } else {
            pending
        };
        SegmentedDownload {
            content_length,
            segment_size,
            ranges,
            downloaded,
            downloaded_bytes,
            parallel_count,
        }
    }
}

/// A segment is not empty and not longer than a segment may be.
proof fn lemma_segment_shape(length: nat, size: nat, i: int)
    requires
        size > 0,
        length <= u64::MAX,
        0 <= i < segment_count(length, size),
    ensures
        segment_at(length, size, i).start == i * size,
        segment_at(length, size, i).end == min_of((i * size + size) as nat, length) - 1,
        0 <= i * size < length,
{
    law_segment_count(length, size);
    let k = segment_count(length, size);
    assert(0 <= i * size <= (k - 1) * size) by (nonlinear_arith)
        requires
            0 <= i <= k - 1,
            size > 0,
    ;
}

/// The first `k` segments hold the first bytes, without a gap.
proof fn lemma_bytes_of_first(length: nat, size: nat, marks: Seq<bool>, k: int)
    requires
        size > 0,
        length <= u64::MAX,
        0 <= k <= segment_count(length, size),
    ensures
        marked_bytes(segments(length, size).take(k), marks, true) + marked_bytes(
            segments(length, size).take(k),
            marks,
            false,
        ) == min_of((k * size) as nat, length),
        marked_bytes(segments(length, size).take(k), marks, true) >= 0,
        marked_bytes(segments(length, size).take(k), marks, false) >= 0,
    decreases k,
{
    let all = segments(length, size);
    if k == 0 {
        assert(k * size == 0) by (nonlinear_arith)
            requires
                k == 0,
        ;
    } else {
        lemma_bytes_of_first(length, size, marks, k - 1);
        lemma_segment_shape(length, size, k - 1);
        assert(all.take(k).drop_last() =~= all.take(k - 1));
        assert((k - 1) * size + size == k * size) by (nonlinear_arith);
    }
}

proof fn lemma_marked_bytes_bound(length: nat, size: nat, marks: Seq<bool>, k: int)
    requires
        size > 0,
        length <= u64::MAX,
        0 <= k <= segment_count(length, size),
    ensures
        0 <= marked_bytes(segments(length, size).take(k), marks, true) <= length,
{
    lemma_bytes_of_first(length, size, marks, k);
}

impl SegmentedDownload {
    /// The stored ranges are those of the asset.
    pub closed spec fn wf(self) -> bool {
        &&& self@.wf()
        &&& self.ranges@ == self@.ranges()
    }

    /// The size of the asset in bytes.
    pub fn total_bytes(&self) -> (res: u64)
        ensures
            res == self@.content_length,
    {
        self.content_length
    }

    /// How many bytes have been counted as downloaded.
    pub fn downloaded_bytes(&self) -> (res: u64)
        ensures
            res == self@.downloaded_bytes,
    {
        self.downloaded_bytes
    }

    /// How many segments to download at a time.
    pub fn parallel_count(&self) -> (res: usize)
        ensures
            res == self@.parallel_count,
    {
        self.parallel_count
    }

    /// How many segments the asset has.
    pub fn segment_count(&self) -> (res: usize)
        ensures
            res == self@.downloaded.len(),
    {
        self.downloaded.len()
    }

    /// The segments that are still to be downloaded, each with its index.
    pub fn pending(&self) -> (res: Vec<(usize, ByteRange)>)
        requires
            self.wf(),
        ensures
            res@.len() == unmarked(self@.downloaded).len(),
            forall|k: int|
                0 <= k < res@.len() ==> {
                    &&& (#[trigger] res@[k]).0 == unmarked(self@.downloaded)[k]
                    &&& res@[k].1 == self@.ranges()[unmarked(self@.downloaded)[k]]
                },
    {
        let mut res: Vec<(usize, ByteRange)> = Vec::new();
        let mut i: usize = 0;
        proof {
            assert(self.downloaded@.take(0) =~= Seq::<bool>::empty());
        }
        while i < self.ranges.len()
            invariant
                self.wf(),
                i <= self.ranges@.len(),
                self.ranges@.len() == self.downloaded@.len(),
                res@.len() == unmarked(self.downloaded@.take(i as int)).len(),
                forall|k: int|
                    0 <= k < res@.len() ==> {
                        &&& (#[trigger] res@[k]).0 == unmarked(self.downloaded@.take(i as int))[k]
                        &&& res@[k].1 == self@.ranges()[unmarked(
                            self.downloaded@.take(i as int),
                        )[k]]
                    },
            decreases self.ranges@.len() - i,
        {
            proof {
                assert(self.downloaded@.take(i + 1).drop_last() =~= self.downloaded@.take(
                    i as int,
                ));
            }
            if !self.downloaded[i] {
                res.push((i, self.ranges[i]));
            }
            i = i + 1;
        }
        proof {
            assert(self.downloaded@.take(i as int) =~= self.downloaded@);
        }
        res
    }

    /// Notes that a segment is there, and gives the line that records it.
    pub fn mark_downloaded(&mut self, index: usize) -> (line: String)
        requires
            old(self).wf(),
            index < old(self)@.downloaded.len(),
        ensures
            final(self).wf(),
            final(self)@ == (SegmentedView {
                downloaded: old(self)@.downloaded.update(index as int, true),
                ..old(self)@
            }),
            line@ == parts_line(index as nat),
    {
        self.downloaded.set(index, true);
        format_parts_line(index)
    }

    /// Counts bytes that came, and gives the new count.
    pub fn add_bytes(&mut self, count: u64) -> (res: u64)
        requires
            old(self).wf(),
            old(self)@.downloaded_bytes + count <= u64::MAX,
        ensures
            final(self).wf(),
            final(self)@ == (SegmentedView {
                downloaded_bytes: old(self)@.downloaded_bytes + count as nat,
                ..old(self)@
            }),
            res == final(self)@.downloaded_bytes,
    {
        self.downloaded_bytes = self.downloaded_bytes + count;
        self.downloaded_bytes
    }

    /// Says how the download ends, given how each segment that was still to be downloaded
    /// ended. It is complete if and only if none of them failed; otherwise the first failure
    /// is the one to be told.
    pub fn finish<E>(&self, outcomes: Vec<Result<(), E>>) -> (res: SegmentedEnd<E>)
        ensures
            res == segmented_end(self@.content_length, outcomes@),
    {
        let ghost all = outcomes@;
        proof {
            assert(all.skip(0) =~= all);
        }
        for outcome in it: outcomes
            invariant
                it.seq() == all,
                all == outcomes@,
                first_failure(all) == it.index() + first_failure(all.skip(it.index() as int)),
        {
            proof {
                let k = it.index() as int;
                assert(all.skip(k)[0] == all[k]);
                assert(all.skip(k).skip(1) =~= all.skip(k + 1));
            }
            if let Err(error) = outcome {
                return SegmentedEnd::Failed(error);
            }
        }
        SegmentedEnd::Complete {
            downloaded_bytes: self.content_length,
            total_bytes: self.content_length,
        }
    }
}

/// How a download in segments ends.
pub enum SegmentedEnd<E> {
    /// The asset is complete: report these counts, and remove the record.
    Complete {
        /// The downloaded bytes to report.
        downloaded_bytes: u64,
        /// The total bytes to report.
        total_bytes: u64,
    },
    /// A segment failed: tell the error, and keep the record for the next download.
    Failed(E),
}

/// The position of the first failure, or the number of outcomes if there is none.
pub open spec fn first_failure<E>(outcomes: Seq<Result<(), E>>) -> int
    decreases outcomes.len(),
{
    if outcomes.len() == 0 || outcomes[0] is Err {
        0
    } else {
        1 + first_failure(outcomes.skip(1))
    }
}

/// How a download of `content_length` bytes ends when its segments ended like this.
pub open spec fn segmented_end<E>(
    content_length: nat,
    outcomes: Seq<Result<(), E>>,
) -> SegmentedEnd<E> {
    let k = first_failure(outcomes);
    if k < outcomes.len() {
        SegmentedEnd::Failed(outcomes[k]->Err_0)
    } else {
        SegmentedEnd::Complete {
            downloaded_bytes: content_length as u64,
            total_bytes: content_length as u64,
        }
    }
}

/// A download in segments is complete if and only if every segment succeeded, and then it
/// reports that all bytes of all are there. Otherwise it tells an error that a segment gave,
/// and no earlier one gave any.
pub proof fn law_complete_if_all_succeed<E>(content_length: nat, outcomes: Seq<Result<(), E>>)
    requires
        content_length <= u64::MAX,
    ensures
        segmented_end(content_length, outcomes) is Complete <==> forall|i: int|
            0 <= i < outcomes.len() ==> #[trigger] outcomes[i] is Ok,
        segmented_end(content_length, outcomes) matches SegmentedEnd::Complete {
            downloaded_bytes,
            total_bytes,
        } ==> downloaded_bytes == content_length && total_bytes == content_length,
        segmented_end(content_length, outcomes) matches SegmentedEnd::Failed(error) ==> exists|
            i: int,
        |
            0 <= i < outcomes.len() && #[trigger] outcomes[i] == Err::<(), E>(error) && forall|
                j: int,
            |
                0 <= j < i ==> outcomes[j] is Ok,
{
    lemma_first_failure(outcomes);
    let k = first_failure(outcomes);
    if k < outcomes.len() {
        assert(outcomes[k] is Err);
        assert(outcomes[k] == Err::<(), E>(outcomes[k]->Err_0));
    }
}

proof fn lemma_first_failure<E>(outcomes: Seq<Result<(), E>>)
    ensures
        0 <= first_failure(outcomes) <= outcomes.len(),
        first_failure(outcomes) < outcomes.len() ==> outcomes[first_failure(outcomes)] is Err,
        forall|i: int| 0 <= i < first_failure(outcomes) ==> outcomes[i] is Ok,
    decreases outcomes.len(),
{
    if outcomes.len() > 0 && outcomes[0] is Ok {
        let rest = outcomes.skip(1);
        lemma_first_failure(rest);
        assert forall|i: int| 0 <= i < first_failure(outcomes) implies outcomes[i] is Ok by {
            if i > 0 {
                assert(rest[i - 1] == outcomes[i]);
            }
        }
        let k = first_failure(rest);
        if k < rest.len() {
            assert(rest[k] == outcomes[k + 1]);
        }
    }
}

/// The segments follow each other without gap or overlap from the first byte to the last,
/// none is empty, and all but the last have the full size.
pub proof fn law_segments_follow_each_other(length: nat, size: nat, i: int)
    requires
        size > 0,
        length <= u64::MAX,
        0 <= i < segment_count(length, size),
    ensures
        1 <= range_len(segments(length, size)[i]) <= size,
        i == 0 ==> segments(length, size)[i].start == 0,
        i + 1 < segment_count(length, size) ==> range_len(segments(length, size)[i]) == size
            && segments(length, size)[i + 1].start == segments(length, size)[i].end + 1,
        i + 1 == segment_count(length, size) ==> segments(length, size)[i].end == length - 1,
{
    lemma_segment_shape(length, size, i);
    law_segment_count(length, size);
    assert((i + 1) * size == i * size + size) by (nonlinear_arith);
    assert(i == 0 ==> i * size == 0) by (nonlinear_arith);
    if i + 1 < segment_count(length, size) {
        lemma_segment_shape(length, size, i + 1);
    }
}

/// Every byte of the asset lies in exactly one segment.
pub proof fn law_every_byte_in_one_segment(length: nat, size: nat, byte: nat, i: int)
    requires
        size > 0,
        length <= u64::MAX,
        byte < length,
        0 <= i < segment_count(length, size),
    ensures
        0 <= byte / size < segment_count(length, size),
        segments(length, size)[i].start <= byte <= segments(length, size)[i].end <==> i == byte
            / size,
{
    let q = (byte / size) as int;
    let r = (byte % size) as int;
    assert(byte == q * size + r && 0 <= r < size && q >= 0) by {
        vstd::arithmetic::div_mod::lemma_fundamental_div_mod(byte as int, size as int);
        vstd::arithmetic::mul::lemma_mul_is_commutative(q, size as int);
        vstd::arithmetic::div_mod::lemma_div_pos_is_pos(byte as int, size as int);
    }
    law_segment_count(length, size);
    let k = segment_count(length, size) as int;
    assert(q < k) by (nonlinear_arith)
        requires
            q * size <= byte,
            byte < length,
            k * size >= length,
            size > 0,
    ;
    lemma_segment_shape(length, size, i);
    if i < q {
        assert(i * size + size <= q * size) by (nonlinear_arith)
            requires
                i + 1 <= q,
                size > 0,
        ;
    } else if i > q {
        assert(q * size + size <= i * size) by (nonlinear_arith)
            requires
                q + 1 <= i,
                size > 0,
        ;
    }
}

/// What is there and what is still to come make up the whole asset.
pub proof fn law_bytes_add_up(length: nat, size: nat, marks: Seq<bool>)
    requires
        size > 0,
        length <= u64::MAX,
    ensures
        marked_bytes(segments(length, size), marks, true) + marked_bytes(
            segments(length, size),
            marks,
            false,
        ) == length,
        marked_bytes(segments(length, size), marks, true) >= 0,
        marked_bytes(segments(length, size), marks, false) >= 0,
{
    let k = segment_count(length, size) as int;
    law_segment_count(length, size);
    lemma_bytes_of_first(length, size, marks, k);
    assert(segments(length, size).take(k) =~= segments(length, size));
}

/// The segments that are still to be downloaded are exactly those that are not there, each
/// once and in their order.
pub proof fn law_pending_is_what_is_missing(marks: Seq<bool>, i: int)
    ensures
        unmarked(marks).contains(i) <==> 0 <= i < marks.len() && !marks[i],
        forall|a: int, b: int|
            0 <= a < b < unmarked(marks).len() ==> unmarked(marks)[a] < unmarked(marks)[b],
        unmarked(marks).len() <= marks.len(),
    decreases marks.len(),
{
    if marks.len() > 0 {
        let rest = marks.drop_last();
        let earlier = unmarked(rest);
        let all = unmarked(marks);
        law_pending_is_what_is_missing(rest, i);
        assert forall|a: int| 0 <= a < earlier.len() implies 0 <= #[trigger] earlier[a]
            < marks.len() - 1 by {
            law_pending_is_what_is_missing(rest, earlier[a]);
            assert(earlier.contains(earlier[a]));
        }
        if !marks.last() {
            assert(all == earlier.push(marks.len() - 1));
            if i == marks.len() - 1 {
                assert(all[all.len() - 1] == i);
            }
            if earlier.contains(i) {
                let a = choose|a: int| 0 <= a < earlier.len() && earlier[a] == i;
                assert(all[a] == i);
            }
            if all.contains(i) && i != marks.len() - 1 {
                let a = choose|a: int| 0 <= a < all.len() && all[a] == i;
                assert(earlier[a] == i);
            }
        }
    }
}

/// An interrupted download is taken up where it stopped: a segment is fetched again if and
/// only if the record does not have it, and the bytes counted at the beginning are those
/// that need not be fetched.
pub proof fn law_resumption(
    parallel_segments: nat,
    segment_size: nat,
    content_length: nat,
    parts: Option<Seq<char>>,
    i: int,
)
    requires
        segment_size > 0,
        content_length <= u64::MAX,
    ensures
        ({
            let plan = planned(parallel_segments, segment_size, content_length, parts);
            &&& unmarked(plan.downloaded).contains(i) <==> 0 <= i < segment_count(
                content_length,
                segment_size,
            ) && !(parts is Some && recorded(parts->0, i as nat))
            &&& plan.downloaded_bytes + marked_bytes(plan.ranges(), plan.downloaded, false)
                == content_length
            &&& plan.parallel_count <= parallel_segments
            &&& plan.parallel_count <= unmarked(plan.downloaded).len()
        }),
{
    let plan = planned(parallel_segments, segment_size, content_length, parts);
    law_pending_is_what_is_missing(plan.downloaded, i);
    law_bytes_add_up(content_length, segment_size, plan.downloaded);
}

/// A segment that was marked and recorded is not fetched again: a download that is planned
/// anew, from the record with the line of the segment behind it, has the segment marked,
/// and every other mark as if the line were not there.
pub proof fn law_mark_survives_restart(
    parallel_segments: nat,
    segment_size: nat,
    content_length: nat,
    content: Seq<char>,
    index: nat,
)
    requires
        segment_size > 0,
        content_length <= u64::MAX,
        whole_lines(content),
        index <= usize::MAX,
        index < segment_count(content_length, segment_size),
    ensures
        planned(
            parallel_segments,
            segment_size,
            content_length,
            Some(content + parts_line(index)),
        ).downloaded == planned(
            parallel_segments,
            segment_size,
            content_length,
            Some(content),
        ).downloaded.update(index as int, true),
{
    let again = planned(
        parallel_segments,
        segment_size,
        content_length,
        Some(content + parts_line(index)),
    ).downloaded;
    let first = planned(parallel_segments, segment_size, content_length, Some(content)).downloaded;
    assert forall|i: int| 0 <= i < again.len() implies again[i] == first.update(
        index as int,
        true,
    )[i] by {
        law_append_records(content, index, i as nat);
    }
    assert(again =~= first.update(index as int, true));
}

/// Once every segment that was missing is marked, the asset is complete: nothing is left to
/// download, and the marked segments hold all of it.
pub proof fn law_all_marked_is_complete(length: nat, size: nat, marks: Seq<bool>)
    requires
        size > 0,
        length <= u64::MAX,
        marks.len() == segment_count(length, size),
    ensures
        unmarked(marks).len() == 0 <==> marked_bytes(segments(length, size), marks, true)
            == length,
{
    law_bytes_add_up(length, size, marks);
    if unmarked(marks).len() == 0 {
        assert forall|i: int| 0 <= i < marks.len() implies marks[i] by {
            law_pending_is_what_is_missing(marks, i);
        }
        lemma_nothing_missing(segments(length, size), marks);
    } else {
        let i = unmarked(marks)[0];
        law_pending_is_what_is_missing(marks, i);
        assert(unmarked(marks).contains(i));
        lemma_something_missing(length, size, marks, i, marks.len() as int);
        assert(segments(length, size).take(marks.len() as int) =~= segments(length, size));
    }
}

proof fn lemma_nothing_missing(ranges: Seq<ByteRange>, marks: Seq<bool>)
    requires
        ranges.len() <= marks.len(),
        forall|i: int| 0 <= i < ranges.len() ==> marks[i],
    ensures
        marked_bytes(ranges, marks, false) == 0,
    decreases ranges.len(),
{
    if ranges.len() > 0 {
        lemma_nothing_missing(ranges.drop_last(), marks);
    }
}

proof fn lemma_something_missing(length: nat, size: nat, marks: Seq<bool>, i: int, k: int)
    requires
        size > 0,
        length <= u64::MAX,
        0 <= i < k <= segment_count(length, size),
        !marks[i],
    ensures
        marked_bytes(segments(length, size).take(k), marks, false) > 0,
    decreases k,
{
    let all = segments(length, size);
    lemma_segment_shape(length, size, k - 1);
    assert(all.take(k).drop_last() =~= all.take(k - 1));
    lemma_bytes_of_first(length, size, marks, k - 1);
    if i < k - 1 {
        lemma_something_missing(length, size, marks, i, k - 1);
    }
}

/// How many bytes the segments `under_way` hold together.
pub open spec fn bytes_under_way(ranges: Seq<ByteRange>, under_way: Seq<int>) -> int
    decreases under_way.len(),
{
    if under_way.len() == 0 {
        0
    } else {
        bytes_under_way(ranges, under_way.drop_last()) + range_len(ranges[under_way.last()])
    }
}

/// The segments that are under way hold no more than so many full segments.
pub proof fn law_segments_in_memory(length: nat, size: nat, under_way: Seq<int>)
    requires
        size > 0,
        length <= u64::MAX,
        forall|k: int|
            0 <= k < under_way.len() ==> 0 <= #[trigger] under_way[k] < segment_count(length, size),
    ensures
        0 <= bytes_under_way(segments(length, size), under_way) <= under_way.len() * size,
    decreases under_way.len(),
{
    if under_way.len() > 0 {
        let n = under_way.len();
        assert forall|k: int| 0 <= k < n - 1 implies 0 <= #[trigger] under_way.drop_last()[k]
            < segment_count(length, size) by {
            assert(under_way.drop_last()[k] == under_way[k]);
        }
        law_segments_in_memory(length, size, under_way.drop_last());
        assert(under_way[n - 1] == under_way.last());
        law_segments_follow_each_other(length, size, under_way.last());
        assert((n - 1) * size + size == n * size) by (nonlinear_arith);
    }
}

/// Whether `file` holds the bytes of `asset` in `range`.
pub open spec fn holds(file: Seq<u8>, asset: Seq<u8>, range: ByteRange) -> bool {
    forall|p: int| range.start <= p <= range.end ==> #[trigger] file[p] == asset[p]
}

/// `file` after the bytes of `asset` in `range` were written into it.
pub open spec fn put(file: Seq<u8>, asset: Seq<u8>, range: ByteRange) -> Seq<u8> {
    Seq::new(
        file.len(),
        |p: int|
            if range.start <= p <= range.end {
                asset[p]
            } else {
                file[p]
            },
    )
}

/// `file` after the segments `order` of `asset` were written into it, one after the other.
pub open spec fn assembled(
    file: Seq<u8>,
    asset: Seq<u8>,
    ranges: Seq<ByteRange>,
    order: Seq<int>,
) -> Seq<u8>
    decreases order.len(),
{
    if order.len() == 0 {
        file
    } else {
        put(assembled(file, asset, ranges, order.drop_last()), asset, ranges[order.last()])
    }
}

/// Writing segments keeps what the file holds of the asset, and adds the written segments.
proof fn lemma_assembled(
    file: Seq<u8>,
    asset: Seq<u8>,
    ranges: Seq<ByteRange>,
    order: Seq<int>,
    p: int,
)
    requires
        file.len() == asset.len(),
        0 <= p < asset.len(),
    ensures
        file[p] == asset[p] ==> assembled(file, asset, ranges, order)[p] == asset[p],
        forall|k: int|
            0 <= k < order.len() && (#[trigger] ranges[order[k]]).start <= p
                <= ranges[order[k]].end ==> assembled(file, asset, ranges, order)[p] == asset[p],
    decreases order.len(),
{
    lemma_assembled_len(file, asset, ranges, order);
    if order.len() > 0 {
        lemma_assembled(file, asset, ranges, order.drop_last(), p);
        lemma_assembled_len(file, asset, ranges, order.drop_last());
        assert forall|k: int|
            0 <= k < order.len() && (#[trigger] ranges[order[k]]).start <= p
                <= ranges[order[k]].end implies assembled(file, asset, ranges, order)[p]
            == asset[p] by {
            if k < order.len() - 1 {
                assert(order.drop_last()[k] == order[k]);
            }
        }
    }
}

/// The segments make up the asset, in whatever order they come: if the file holds every
/// segment that is marked, and every other one that it does not hold is written, then the
/// file is the asset.
pub proof fn law_segments_make_up_the_asset(
    size: nat,
    marks: Seq<bool>,
    file: Seq<u8>,
    asset: Seq<u8>,
    order: Seq<int>,
)
    requires
        size > 0,
        asset.len() <= u64::MAX,
        file.len() == asset.len(),
        marks.len() == segment_count(asset.len(), size),
        forall|i: int|
            0 <= i < marks.len() && marks[i] ==> holds(
                file,
                asset,
                #[trigger] segments(asset.len(), size)[i],
            ),
        forall|i: int| #[trigger]
            unmarked(marks).contains(i) ==> order.contains(i) || holds(
                file,
                asset,
                segments(asset.len(), size)[i],
            ),
    ensures
        assembled(file, asset, segments(asset.len(), size), order) == asset,
{
    let ranges = segments(asset.len(), size);
    let all = assembled(file, asset, ranges, order);
    lemma_assembled_len(file, asset, ranges, order);
    assert forall|p: int| 0 <= p < asset.len() implies #[trigger] all[p] == asset[p] by {
        lemma_assembled(file, asset, ranges, order, p);
        law_segment_count(asset.len(), size);
        law_every_byte_in_one_segment(asset.len(), size, p as nat, 0);
        let i = (p as nat / size) as int;
        law_every_byte_in_one_segment(asset.len(), size, p as nat, i);
        law_pending_is_what_is_missing(marks, i);
        if order.contains(i) {
            let k = choose|k: int| 0 <= k < order.len() && order[k] == i;
            assert(ranges[order[k]].start <= p <= ranges[order[k]].end);
        } else {
            assert(holds(file, asset, ranges[i]));
            assert(file[p] == asset[p]);
        }
    }
    assert(all =~= asset);
}

/// What is read of `file` to see whether it holds the segment `range`.
pub open spec fn sample_of(file: Seq<u8>, range: ByteRange) -> Seq<u8> {
    file.subrange(
        range.start as int,
        range.start + min_of(SAMPLE_SIZE as nat, range_len(range) as nat),
    )
}

/// Whether `file` holds nothing but zeros in `range`.
pub open spec fn untouched(file: Seq<u8>, range: ByteRange) -> bool {
    forall|p: int| range.start <= p <= range.end ==> #[trigger] file[p] == 0
}

/// An interrupted download in segments is resumed. Its file has the full size and holds
/// every recorded segment, and of each other segment all or nothing. Then the download is
/// planned in segments, into the same file; the pending segments are exactly those that the
/// record lacks; and once those of them whose sample is empty are written, in whatever
/// order, the file is the asset.
pub proof fn law_interrupted_segments_are_resumed(
    parallel_segments: nat,
    segment_size: nat,
    record: Seq<char>,
    file: Seq<u8>,
    asset: Seq<u8>,
    order: Seq<int>,
)
    requires
        segment_size > 0,
        asset.len() <= u64::MAX,
        file.len() == asset.len(),
        forall|i: int|
            0 <= i < segment_count(asset.len(), segment_size) ==> {
                let range = #[trigger] segments(asset.len(), segment_size)[i];
                holds(file, asset, range) || !recorded(record, i as nat) && untouched(file, range)
            },
        forall|i: int|
            0 <= i < segment_count(asset.len(), segment_size) && !recorded(record, i as nat) ==> {
                let sample = sample_of(file, #[trigger] segments(asset.len(), segment_size)[i]);
                sample_is_empty(sample.len() as usize, sample) ==> order.contains(i)
            },
    ensures
        ({
            let length = asset.len() as u64;
            let plan = planned(parallel_segments, segment_size, asset.len(), Some(record));
            &&& fetch_plan(true, Some(length), true, Some(length), true) == (FetchPlan::Segmented {
                content_length: length,
                reuse_file: true,
            })
            &&& forall|i: int| #[trigger]
                unmarked(plan.downloaded).contains(i) <==> 0 <= i < segment_count(
                    asset.len(),
                    segment_size,
                ) && !recorded(record, i as nat)
            &&& assembled(file, asset, plan.ranges(), order) == asset
        }),
{
    let plan = planned(parallel_segments, segment_size, asset.len(), Some(record));
    let ranges = segments(asset.len(), segment_size);
    assert forall|i: int| #[trigger]
        unmarked(plan.downloaded).contains(i) <==> 0 <= i < segment_count(
            asset.len(),
            segment_size,
        ) && !recorded(record, i as nat) by {
        law_resumption(parallel_segments, segment_size, asset.len(), Some(record), i);
    }
    assert forall|i: int| #[trigger] unmarked(plan.downloaded).contains(i) implies order.contains(i)
        || holds(file, asset, ranges[i]) by {
        let range = ranges[i];
        lemma_segment_shape(asset.len(), segment_size, i);
        let sample = sample_of(file, range);
        if !holds(file, asset, range) {
            assert(untouched(file, range));
            assert forall|k: int| 0 <= k < sample.len() implies sample[k] == 0 by {
                assert(sample[k] == file[range.start + k]);
            }
            assert(sample_is_empty(sample.len() as usize, sample));
        }
    }
    law_segments_make_up_the_asset(segment_size, plan.downloaded, file, asset, order);
}

proof fn lemma_assembled_len(
    file: Seq<u8>,
    asset: Seq<u8>,
    ranges: Seq<ByteRange>,
    order: Seq<int>,
)
    ensures
        assembled(file, asset, ranges, order).len() == file.len(),
    decreases order.len(),
{
    if order.len() > 0 {
        lemma_assembled_len(file, asset, ranges, order.drop_last());
    }
}

/// The number of parallel segments suits the file: at least one for a file that is not
/// empty, never more than 24, and never more than the file has segments.
pub proof fn law_optimal_segments_bounds(file_size: nat, segment_size: nat)
    requires
        segment_size > 0,
    ensures
        optimal_segments(file_size, segment_size) <= 24,
        optimal_segments(file_size, segment_size) <= segment_count(file_size, segment_size),
        file_size > 0 ==> optimal_segments(file_size, segment_size) >= 1,
{
    law_segment_count(file_size, segment_size);
}

/// A larger file never gets fewer parallel segments.
pub proof fn law_optimal_segments_grow(small: nat, large: nat, segment_size: nat)
    requires
        segment_size > 0,
        small <= large,
    ensures
        optimal_segments(small, segment_size) <= optimal_segments(large, segment_size),
{
    vstd::arithmetic::div_mod::lemma_div_is_ordered(small as int, large as int, 1_048_576);
    vstd::arithmetic::div_mod::lemma_div_is_ordered(
        small + segment_size - 1,
        large + segment_size - 1,
        segment_size as int,
    );
}

/// How much of a segment is looked at to see whether it is there.
pub const SAMPLE_SIZE: u64 = 1024;

/// How many bytes to read of a segment to see whether it is there.
pub fn sample_len(range: ByteRange) -> (res: usize)
    requires
        range.start <= range.end,
        range_len(range) <= u64::MAX,
    ensures
        res == min_of(SAMPLE_SIZE as nat, range_len(range) as nat),
{
    let len = range.end - range.start + 1;
    if len < SAMPLE_SIZE {
        len as usize
    } else {
        SAMPLE_SIZE as usize
    }
}

/// Whether a sample of the file shows nothing of a segment: nothing could be read, or
/// nothing but zeros.
pub open spec fn sample_is_empty(bytes_read: usize, sample: Seq<u8>) -> bool {
    bytes_read == 0 || forall|i: int| 0 <= i < sample.len() ==> sample[i] == 0
}

/// Whether a segment is still to be downloaded, judged by a sample of the file.
pub fn is_segment_empty(bytes_read: usize, sample: &[u8]) -> (res: bool)
    ensures
        res == sample_is_empty(bytes_read, sample@),
{
    if bytes_read == 0 {
        return true;
    }
    let mut i: usize = 0;
    while i < sample.len()
        invariant
            bytes_read != 0,
            i <= sample@.len(),
            forall|j: int| 0 <= j < i ==> sample@[j] == 0,
        decreases sample@.len() - i,
    {
        if sample[i] != 0 {
            proof {
                assert(sample@[i as int] != 0);
            }
            return false;
        }
        i = i + 1;
    }
    true
}

/// The smaller of two numbers is one of them, and no larger than either.
pub proof fn law_min_of(a: nat, b: nat)
    ensures
        min_of(a, b) <= a,
        min_of(a, b) <= b,
        min_of(a, b) == a || min_of(a, b) == b,
{
}

/// How many parallel segments a file gets by its size in bytes, if it has that many: one below
/// 10 MB, 2 below 50 MB, 4 below 100 MB, 8 below 500 MB, 12 below 1000 MB, 16 below 2000 MB,
/// and 24 from there on. With fewer segments than that, it gets as many as it has.
pub proof fn law_optimal_segments_by_size(file_size: nat, segment_size: nat)
    ensures
        ({
            let got = optimal_segments(file_size, segment_size);
            let count = segment_count(file_size, segment_size);
            let mb: int = 1_048_576;
            &&& count == 0 ==> got == 0
            &&& 1 <= count && file_size < 10 * mb ==> got == 1
            &&& 2 <= count && 10 * mb <= file_size < 50 * mb ==> got == 2
            &&& 4 <= count && 50 * mb <= file_size < 100 * mb ==> got == 4
            &&& 8 <= count && 100 * mb <= file_size < 500 * mb ==> got == 8
            &&& 12 <= count && 500 * mb <= file_size < 1000 * mb ==> got == 12
            &&& 16 <= count && 1000 * mb <= file_size < 2000 * mb ==> got == 16
            &&& 24 <= count && 2000 * mb <= file_size ==> got == 24
            &&& got == count || got == 1 || got == 2 || got == 4 || got == 8 || got == 12 || got
                == 16 || got == 24
            &&& count < 2 && 10 * mb <= file_size ==> got == count
            &&& count < 4 && 50 * mb <= file_size ==> got == count
            &&& count < 8 && 100 * mb <= file_size ==> got == count
            &&& count < 12 && 500 * mb <= file_size ==> got == count
            &&& count < 16 && 1000 * mb <= file_size ==> got == count
            &&& count < 24 && 2000 * mb <= file_size ==> got == count
        }),
{
}

/// The number of segments that may be downloaded at a time is the largest that is no more than
/// is wanted and fits into memory; where not even one fits, it is one, unless none is wanted.
pub proof fn law_parallel_within(
    parallel_segments: nat,
    segment_size: nat,
    max_buffer_size: usize,
    larger: nat,
)
    requires
        segment_size > 0,
    ensures
        parallel_within(parallel_segments, segment_size, None) == parallel_segments,
        ({
            let allowed = parallel_within(parallel_segments, segment_size, Some(max_buffer_size));
            &&& allowed <= parallel_segments
            &&& allowed * segment_size <= max_buffer_size || allowed <= 1
            &&& larger > allowed ==> larger > parallel_segments || larger * segment_size
                > max_buffer_size
            &&& parallel_segments > 0 ==> allowed > 0
        }),
{
    let size = segment_size as int;
    let m = max_buffer_size as int;
    let fitting = m / size;
    vstd::arithmetic::div_mod::lemma_fundamental_div_mod(m, size);
    vstd::arithmetic::mul::lemma_mul_is_commutative(fitting, size);
    let allowed = parallel_within(parallel_segments, segment_size, Some(max_buffer_size)) as int;
    if m >= size {
        assert(fitting >= 1) by (nonlinear_arith)
            requires
                m == size * fitting + m % size,
                m % size < size,
                m >= size,
                size > 0,
        ;
        assert(allowed * size <= fitting * size) by (nonlinear_arith)
            requires
                allowed <= fitting,
                size > 0,
        ;
        if larger > fitting {
            assert(larger * size >= fitting * size + size) by (nonlinear_arith)
                requires
                    larger >= fitting + 1,
                    size > 0,
            ;
        }
    } else if larger > 1 {
        assert(larger * size >= size) by (nonlinear_arith)
            requires
                larger >= 1,
                size > 0,
        ;
    } else if larger == 1 {
        assert(larger * size == size) by (nonlinear_arith)
            requires
                larger == 1,
        ;
    }
}

/// As many segments are downloaded at a time as may be: the number is no more than is allowed,
/// than suits the file and than are missing, and it is one of these three.
pub proof fn law_parallel_count(
    parallel_segments: nat,
    segment_size: nat,
    content_length: nat,
    parts: Option<Seq<char>>,
)
    ensures
        ({
            let plan = planned(parallel_segments, segment_size, content_length, parts);
            let suits = optimal_segments(content_length, segment_size);
            let missing = unmarked(plan.downloaded).len();
            &&& plan.parallel_count <= parallel_segments
            &&& plan.parallel_count <= suits
            &&& plan.parallel_count <= missing
            &&& plan.parallel_count == parallel_segments || plan.parallel_count == suits
                || plan.parallel_count == missing
            &&& plan.content_length == content_length
            &&& plan.segment_size == segment_size
            &&& plan.ranges() == segments(content_length, segment_size)
            &&& plan.downloaded.len() == segment_count(content_length, segment_size)
        }),
{
}

/// Marking a segment counts exactly its bytes: they are added to what is there, and taken from
/// what is missing. Where nothing is marked, nothing is there.
pub proof fn law_marking_counts_the_segment(ranges: Seq<ByteRange>, marks: Seq<bool>, i: int)
    requires
        marks.len() == ranges.len(),
        0 <= i < marks.len(),
        !marks[i],
    ensures
        marked_bytes(ranges, marks.update(i, true), true) == marked_bytes(ranges, marks, true) + (
        ranges[i].end - ranges[i].start + 1),
        marked_bytes(ranges, marks.update(i, true), false) == marked_bytes(ranges, marks, false) - (
        ranges[i].end - ranges[i].start + 1),
        marked_bytes(ranges, Seq::new(marks.len(), |k: int| false), true) == 0,
{
    lemma_marking(ranges, marks, i, true);
    lemma_marking(ranges, marks, i, false);
    lemma_nothing_marked(ranges, Seq::new(marks.len(), |k: int| false));
}

proof fn lemma_marking(ranges: Seq<ByteRange>, marks: Seq<bool>, i: int, mark: bool)
    requires
        ranges.len() <= marks.len(),
        0 <= i < marks.len(),
        !marks[i],
    ensures
        marked_bytes(ranges, marks.update(i, true), mark) == marked_bytes(ranges, marks, mark) + if i
            >= ranges.len() {
            0
        } else if mark {
            range_len(ranges[i])
        } else {
            -range_len(ranges[i])
        },
    decreases ranges.len(),
{
    if ranges.len() > 0 {
        lemma_marking(ranges.drop_last(), marks, i, mark);
    }
}

proof fn lemma_nothing_marked(ranges: Seq<ByteRange>, marks: Seq<bool>)
    requires
        ranges.len() <= marks.len(),
        forall|i: int| 0 <= i < ranges.len() ==> !marks[i],
    ensures
        marked_bytes(ranges, marks, true) == 0,
    decreases ranges.len(),
{
    if ranges.len() > 0 {
        lemma_nothing_marked(ranges.drop_last(), marks);
    }
}

/// `file` after `data` was written into it from `start` on.
pub open spec fn write_at(file: Seq<u8>, start: int, data: Seq<u8>) -> Seq<u8> {
    Seq::new(
        file.len(),
        |p: int|
            if start <= p < start + data.len() {
                data[p - start]
            } else {
                file[p]
            },
    )
}

/// What the server answers to the request for a segment fills the segment: if it sends the
/// bytes that the header names, writing them where the segment begins puts exactly the bytes
/// of the segment into the file.
pub proof fn law_answer_fills_the_segment(
    file: Seq<u8>,
    asset: Seq<u8>,
    size: nat,
    i: int,
    answer: Seq<u8>,
)
    requires
        size > 0,
        file.len() == asset.len() <= u64::MAX,
        0 <= i < segment_count(asset.len(), size),
        forall|dash: int, first: nat, last: nat|
            asks_for_range(
                range_value(
                    segments(asset.len(), size)[i].start as nat,
                    segments(asset.len(), size)[i].end as nat,
                ),
                dash,
                first,
                last,
            ) ==> answer == asset.subrange(first as int, last as int + 1),
    ensures
        write_at(file, segments(asset.len(), size)[i].start as int, answer) == put(
            file,
            asset,
            segments(asset.len(), size)[i],
        ),
{
    let range = segments(asset.len(), size)[i];
    law_range_header_asks_for_the_segment(range.start as nat, range.end as nat);
    lemma_segment_shape(asset.len(), size, i);
    assert(answer == asset.subrange(range.start as int, range.end + 1));
    assert(write_at(file, range.start as int, answer) =~= put(file, asset, range));
}

} // verus!
