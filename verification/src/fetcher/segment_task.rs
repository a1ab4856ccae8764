//! Getting one segment of an asset: looking whether it is there, downloading it, and trying
//! again.
use crate::error::Error;
use crate::fetcher::request::ByteRange;
use crate::fetcher::retry::{
    after_failure, backoff_ms, exhausted_text, RetryLoop, MAX_BACKOFF_ATTEMPT,
};
use crate::fetcher::segments::{
    is_segment_empty, min_of, range_len, sample_is_empty, sample_len, SAMPLE_SIZE,
};
use vstd::arithmetic::power2::pow2;
use vstd::prelude::*;

verus! {

/// What a segment waits for.
#[derive(Debug, Clone, Copy, PartialEq, Eq, Structural)]
pub enum Phase {
    /// A sample of the file.
    Sampling,
    /// Its data.
    Downloading,
    /// The next attempt.
    Waiting,
    /// Nothing: it is there.
    Done,
    /// Nothing: it was given up.
    Failed,
}

/// What happened to a segment.
pub enum SegmentEvent {
    /// A sample of the file was read: how many bytes came, and the buffer they came into.
    Sampled(usize, Vec<u8>),
    /// The data came and stands in the file.
    Downloaded,
    /// What was to be done has failed.
    Failed,
    /// The time to wait is over.
    Waited,
}

/// What to do for a segment.
#[derive(Debug, Clone, Copy, PartialEq, Eq, Structural)]
pub enum SegmentAction {
    /// Read a sample of so many bytes from where the segment begins in the file.
    ReadSample(usize),
    /// Ask the server for the segment, and write it where it belongs.
    Download,
    /// Wait so many milliseconds.
    Wait(u64),
    /// Record that the segment is there.
    Record,
    /// Give up, with the error of the last attempt.
    GiveUp,
    /// Give up without an attempt: none is allowed.
    Exhausted,
}

/// A segment on its way into the file.
#[derive(Debug, Clone, Copy, PartialEq, Eq, Structural)]
pub struct SegmentTask {
    /// The bytes of the segment.
    pub range: ByteRange,
    /// What it waits for.
    pub phase: Phase,
    /// The attempts at it.
    pub attempts: RetryLoop,
}

/// What to read of a segment to see whether it is there.
pub open spec fn read_sample(range: ByteRange) -> SegmentAction {
    SegmentAction::ReadSample(min_of(SAMPLE_SIZE as nat, range_len(range) as nat) as usize)
}

/// A segment as it begins, and what to do first.
pub open spec fn first_step(range: ByteRange, retry_attempts: usize) -> (
    SegmentTask,
    SegmentAction,
) {
    let attempts = RetryLoop { attempt: 0, retry_attempts };
    if retry_attempts == 0 {
        (SegmentTask { range, phase: Phase::Failed, attempts }, SegmentAction::Exhausted)
    } else {
        (SegmentTask { range, phase: Phase::Sampling, attempts }, read_sample(range))
    }
}

/// Whether `event` can happen to the segment.
pub open spec fn expects(task: SegmentTask, event: SegmentEvent) -> bool {
    match event {
        SegmentEvent::Sampled(_, _) => task.phase is Sampling,
        SegmentEvent::Downloaded => task.phase is Downloading,
        SegmentEvent::Failed => task.phase is Sampling || task.phase is Downloading,
        SegmentEvent::Waited => task.phase is Waiting,
    }
}

/// The segment after an event, and what to do then.
pub open spec fn next_step(task: SegmentTask, event: SegmentEvent) -> (SegmentTask, SegmentAction) {
    match event {
        SegmentEvent::Sampled(bytes_read, sample) => if sample_is_empty(bytes_read, sample@) {
            (SegmentTask { phase: Phase::Downloading, ..task }, SegmentAction::Download)
        } else {
            (SegmentTask { phase: Phase::Done, ..task }, SegmentAction::Record)
        },
        SegmentEvent::Downloaded => (
            SegmentTask { phase: Phase::Done, ..task },
            SegmentAction::Record,
        ),
        SegmentEvent::Failed => {
            let attempts = after_failure(task.attempts);
            if attempts.attempt < attempts.retry_attempts {
                (
                    SegmentTask { phase: Phase::Waiting, attempts, ..task },
                    SegmentAction::Wait(backoff_ms(task.attempts.attempt as nat) as u64),
                )
            } else {
                (SegmentTask { phase: Phase::Failed, attempts, ..task }, SegmentAction::GiveUp)
            }
        },
        SegmentEvent::Waited => (
            SegmentTask { phase: Phase::Sampling, ..task },
            read_sample(task.range),
        ),
    }
}

impl SegmentTask {
    /// What holds of a segment at all times: it has bytes, and while it is worked on there
    /// is an attempt left.
    pub open spec fn wf(self) -> bool {
        &&& self.range.start <= self.range.end
        &&& range_len(self.range) <= u64::MAX
        &&& self.attempts.attempt <= self.attempts.retry_attempts
        &&& !(self.phase is Failed) ==> self.attempts.attempt < self.attempts.retry_attempts
        &&& self.phase is Failed ==> self.attempts.attempt == self.attempts.retry_attempts
        &&& self.phase is Waiting ==> self.attempts.attempt > 0
    }

    /// Begins with a segment, and says what to do first.
    pub fn begin(range: ByteRange, retry_attempts: usize) -> (res: (Self, SegmentAction))
        requires
            range.start <= range.end,
            range_len(range) <= u64::MAX,
        ensures
            res == first_step(range, retry_attempts),
            res.0.wf(),
    {
        let attempts = RetryLoop::new(retry_attempts);
        if attempts.may_try() {
            (
                SegmentTask { range, phase: Phase::Sampling, attempts },
                SegmentAction::ReadSample(sample_len(range)),
            )
        } else {
            (SegmentTask { range, phase: Phase::Failed, attempts }, SegmentAction::Exhausted)
        }
    }

    /// Notes what happened to the segment, and says what to do then. A segment whose sample
    /// is not empty is taken as downloaded. A failed attempt is followed by another one
    /// after a while, as long as there is one.
    pub fn step(&mut self, event: SegmentEvent) -> (res: SegmentAction)
        requires
            old(self).wf(),
            expects(*old(self), event),
            event is Failed && old(self).attempts.attempt + 1 < old(self).attempts.retry_attempts
                ==> old(self).attempts.attempt <= MAX_BACKOFF_ATTEMPT,
        ensures
            (*final(self), res) == next_step(*old(self), event),
            final(self).wf(),
    {
        match event {
            SegmentEvent::Sampled(bytes_read, sample) => {
                if is_segment_empty(bytes_read, sample.as_slice()) {
                    self.phase = Phase::Downloading;
                    SegmentAction::Download
                } else {
                    self.phase = Phase::Done;
                    SegmentAction::Record
                }
            },
            SegmentEvent::Downloaded => {
                self.phase = Phase::Done;
                SegmentAction::Record
            },
            SegmentEvent::Failed => match self.attempts.failed() {
                Some(ms) => {
                    self.phase = Phase::Waiting;
                    SegmentAction::Wait(ms)
                },
                None => {
                    self.phase = Phase::Failed;
                    SegmentAction::GiveUp
                },
            },
            SegmentEvent::Waited => {
                self.phase = Phase::Sampling;
                SegmentAction::ReadSample(sample_len(self.range))
            },
        }
    }

    /// What is to be said when no attempt is allowed.
    pub fn exhausted(&self) -> (res: Error)
        ensures
            res matches Error::Unknown(text) && text@ == exhausted_text(
                self.attempts.retry_attempts as nat,
            ),
    {
        self.attempts.exhausted()
    }
}

/// The segment after a sequence of events.
pub open spec fn task_after(task: SegmentTask, events: Seq<SegmentEvent>) -> SegmentTask
    decreases events.len(),
{
    if events.len() == 0 {
        task
    } else {
        next_step(task_after(task, events.drop_last()), events.last()).0
    }
}

/// Whether the events can happen to the segment, one after the other.
pub open spec fn expects_all(task: SegmentTask, events: Seq<SegmentEvent>) -> bool
    decreases events.len(),
{
    events.len() == 0 || expects_all(task, events.drop_last()) && expects(
        task_after(task, events.drop_last()),
        events.last(),
    )
}

/// How many attempts were begun by the time that the events had happened: each begins with
/// a sample.
pub open spec fn attempts_begun(task: SegmentTask, events: Seq<SegmentEvent>) -> nat
    decreases events.len(),
{
    if events.len() == 0 {
        if task.phase is Sampling {
            1
        } else {
            0
        }
    } else {
        let earlier = events.drop_last();
        attempts_begun(task, earlier) + if next_step(
            task_after(task, earlier),
            events.last(),
        ).1 is ReadSample {
            1nat
        } else {
            0
        }
    }
}

/// Every event keeps a segment well formed, and none changes which segment it is or how
/// many attempts it has.
pub proof fn law_step_keeps_task_wf(task: SegmentTask, event: SegmentEvent)
    requires
        task.wf(),
        expects(task, event),
    ensures
        next_step(task, event).0.wf(),
        next_step(task, event).0.range == task.range,
        next_step(task, event).0.attempts.retry_attempts == task.attempts.retry_attempts,
{
}

/// A segment is recorded only if its data came or the file holds something of it already.
pub proof fn law_recorded_only_if_there(task: SegmentTask, event: SegmentEvent)
    requires
        expects(task, event),
    ensures
        next_step(task, event).1 is Record <==> event is Downloaded || (
        event matches SegmentEvent::Sampled(bytes_read, sample) && !sample_is_empty(
            bytes_read,
            sample@,
        )),
        next_step(task, event).1 is Record <==> next_step(task, event).0.phase is Done,
{
}

/// A segment is attempted as often as was asked for at most, and it comes to an end: at
/// every time the attempts begun are those that failed and the one that is under way, and
/// there are no more than three events to an attempt.
pub proof fn law_segment_comes_to_an_end(
    range: ByteRange,
    retry_attempts: usize,
    events: Seq<SegmentEvent>,
)
    requires
        range.start <= range.end,
        range_len(range) <= u64::MAX,
        expects_all(first_step(range, retry_attempts).0, events),
    ensures
        ({
            let first = first_step(range, retry_attempts).0;
            let task = task_after(first, events);
            &&& task.wf()
            &&& task.range == range
            &&& task.attempts.retry_attempts == retry_attempts
            &&& attempts_begun(first, events) <= retry_attempts
            &&& events.len() <= 3 * retry_attempts
            &&& task.phase is Failed ==> attempts_begun(first, events) == retry_attempts
        }),
{
    lemma_counts(range, retry_attempts, events);
}

proof fn lemma_counts(range: ByteRange, retry_attempts: usize, events: Seq<SegmentEvent>)
    requires
        range.start <= range.end,
        range_len(range) <= u64::MAX,
        expects_all(first_step(range, retry_attempts).0, events),
    ensures
        ({
            let first = first_step(range, retry_attempts).0;
            let task = task_after(first, events);
            let failed = task.attempts.attempt as int;
            &&& task.wf()
            &&& task.range == range
            &&& task.attempts.retry_attempts == retry_attempts
            &&& attempts_begun(first, events) == match task.phase {
                Phase::Sampling | Phase::Downloading | Phase::Done => failed + 1,
                Phase::Waiting | Phase::Failed => failed,
            }
            &&& events.len() <= match task.phase {
                Phase::Sampling => 3 * failed,
                Phase::Downloading => 3 * failed + 1,
                Phase::Done => 3 * failed + 2,
                Phase::Waiting => 3 * failed - 1,
                Phase::Failed => if failed == 0 {
                    0
                } else {
                    3 * failed - 1
                },
            }
        }),
    decreases events.len(),
{
    if events.len() > 0 {
        let first = first_step(range, retry_attempts).0;
        lemma_counts(range, retry_attempts, events.drop_last());
        law_step_keeps_task_wf(task_after(first, events.drop_last()), events.last());
    }
}

/// What follows from what. A sample that shows nothing of the segment leads to its download,
/// and any other one ends the work. A failure leads to a wait of a quarter of a second,
/// doubled for every failure before, as long as attempts are left, and to the end otherwise;
/// and a wait leads to the next attempt, which begins with a sample of the segment.
pub proof fn law_segment_events(task: SegmentTask, event: SegmentEvent)
    requires
        task.wf(),
        expects(task, event),
    ensures
        ({
            let (after, action) = next_step(task, event);
            let left = task.attempts.retry_attempts - task.attempts.attempt;
            &&& event is Failed && left > 1 ==> after.phase is Waiting && action
                == SegmentAction::Wait((250 * pow2(task.attempts.attempt as nat)) as u64)
            &&& event is Failed && left == 1 ==> after.phase is Failed && action
                == SegmentAction::GiveUp
            &&& event is Failed ==> after.attempts.attempt == task.attempts.attempt + 1
            &&& !(event is Failed) ==> after.attempts == task.attempts
            &&& event is Waited ==> after.phase is Sampling && action == read_sample(task.range)
            &&& event is Downloaded ==> action == SegmentAction::Record
            &&& event matches SegmentEvent::Sampled(bytes_read, sample) ==> (action
                == SegmentAction::Download <==> bytes_read == 0 || forall|i: int|
                0 <= i < sample@.len() ==> sample@[i] == 0) && (action == SegmentAction::Download
                || action == SegmentAction::Record) && (after.phase is Downloading <==> action
                == SegmentAction::Download)
        }),
{
}

/// An attempt begins with a sample of the whole segment, or of its first kilobyte if it is
/// longer. Without an attempt nothing is read.
pub proof fn law_sample_size(range: ByteRange, retry_attempts: usize)
    requires
        range.start <= range.end,
        range_len(range) <= u64::MAX,
    ensures
        retry_attempts > 0 ==> first_step(range, retry_attempts).1 == read_sample(range)
            && first_step(range, retry_attempts).0.phase is Sampling,
        retry_attempts == 0 ==> first_step(range, retry_attempts).1 is Exhausted,
        read_sample(range) matches SegmentAction::ReadSample(count) ==> 1 <= count <= 1024 && count
            <= range.end - range.start + 1 && (count == 1024 || count == range.end - range.start
            + 1),
        read_sample(range) is ReadSample,
{
}

} // verus!
