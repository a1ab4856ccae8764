//! Download manager with priority queue and concurrent downloads limitation.
//!
//! The manager keeps the queue, the status of every download and the set of downloads in
//! progress. Whoever runs the downloads asks it what to start, tells it what happened, and
//! does as it says.
use crate::fetcher::Fetcher;
use std::cmp::Ordering;
use std::collections::{HashMap, HashSet};
use std::path::PathBuf;
use vstd::prelude::*;

verus! {

broadcast use {vstd::std_specs::hash::group_hash_axioms, vstd::set::group_set_axioms};

/// A path of the file system, carried through as it is.
#[verifier::external_type_specification]
#[verifier::external_body]
pub struct ExPathBuf(std::path::PathBuf);

/// Download priority.
#[derive(Debug, Clone, Copy, PartialEq, Eq, Structural)]
pub enum DownloadPriority {
    /// Low priority.
    Low,
    /// Normal priority.
    Normal,
    /// High priority.
    High,
    /// Critical priority.
    Critical,
}

/// The number of a priority: the higher, the more urgent.
pub open spec fn rank(p: DownloadPriority) -> int {
    match p {
        DownloadPriority::Low => 0,
        DownloadPriority::Normal => 1,
        DownloadPriority::High => 2,
        DownloadPriority::Critical => 3,
    }
}

/// The priority with the number `value`, or `Normal` if there is none.
pub open spec fn priority_of(value: int) -> DownloadPriority {
    if value == 0 {
        DownloadPriority::Low
    } else if value == 2 {
        DownloadPriority::High
    } else if value == 3 {
        DownloadPriority::Critical
    } else {
        DownloadPriority::Normal
    }
}

impl DownloadPriority {
    /// Converts an integer to a priority; one that stands for none gives `Normal`.
    pub fn from_i32(value: i32) -> (res: Self)
        ensures
            res == priority_of(value as int),
    {
        match value {
            0 => Self::Low,
            1 => Self::Normal,
            2 => Self::High,
            3 => Self::Critical,
            _ => Self::Normal,
        }
    }

    /// The number of the priority.
    pub fn as_i32(self) -> (res: i32)
        ensures
            res == rank(self),
    {
        match self {
            Self::Low => 0,
            Self::Normal => 1,
            Self::High => 2,
            Self::Critical => 3,
        }
    }
}

/// Download task.
///
/// `C` is the type of the progress callback.
pub struct DownloadTask<C> {
    /// URL to download.
    pub url: String,
    /// Destination path.
    pub destination: PathBuf,
    /// Download priority.
    pub priority: DownloadPriority,
    /// Unique ID of the task.
    pub id: u64,
    /// Progress callback.
    pub progress_callback: Option<C>,
}

/// Whether `a` is served before `b`: the higher priority first, and of two tasks of one
/// priority the older one, which has the smaller ID.
pub open spec fn before<C>(a: DownloadTask<C>, b: DownloadTask<C>) -> bool {
    rank(a.priority) > rank(b.priority) || (a.priority == b.priority && a.id < b.id)
}

/// The order in which tasks are served: what comes first is `Less`.
pub open spec fn task_order<C>(a: DownloadTask<C>, b: DownloadTask<C>) -> Ordering {
    if before(a, b) {
        Ordering::Less
    } else if before(b, a) {
        Ordering::Greater
    } else {
        Ordering::Equal
    }
}

impl<C> PartialEq for DownloadTask<C> {
    /// Two tasks are the same if their IDs are.
    fn eq(&self, other: &Self) -> (res: bool) {
        self.id == other.id
    }
}

impl<C> vstd::std_specs::cmp::PartialEqSpecImpl for DownloadTask<C> {
    open spec fn obeys_eq_spec() -> bool {
        true
    }

    open spec fn eq_spec(&self, other: &Self) -> bool {
        self.id == other.id
    }
}

impl<C> Eq for DownloadTask<C> {

}

impl<C> PartialOrd for DownloadTask<C> {
    /// The order of service.
    fn partial_cmp(&self, other: &Self) -> (res: Option<Ordering>) {
        Some(self.cmp(other))
    }
}

impl<C> vstd::std_specs::cmp::PartialOrdSpecImpl for DownloadTask<C> {
    open spec fn obeys_partial_cmp_spec() -> bool {
        true
    }

    open spec fn partial_cmp_spec(&self, other: &Self) -> Option<Ordering> {
        Some(task_order(*self, *other))
    }
}

impl<C> DownloadTask<C> {
    /// The order of service: first by priority, then by ID.
    pub fn cmp(&self, other: &Self) -> (res: Ordering)
        ensures
            res == task_order(*self, *other),
    {
        let mine = self.priority.as_i32();
        let theirs = other.priority.as_i32();
        if mine > theirs {
            Ordering::Less
        } else if mine < theirs {
            Ordering::Greater
        } else if self.id < other.id {
            Ordering::Less
        } else if self.id > other.id {
            Ordering::Greater
        } else {
            Ordering::Equal
        }
    }
}

impl<C> DownloadTask<C> {
    /// Whether `self` is served before `other`.
    pub fn is_before(&self, other: &Self) -> (res: bool)
        ensures
            res == before(*self, *other),
    {
        match self.cmp(other) {
            Ordering::Less => true,
            _ => false,
        }
    }

    /// What to print for the progress callback, which itself cannot be printed.
    pub fn callback_text(&self) -> (res: &'static str)
        ensures
            res@ == if self.progress_callback is Some {
                "Some(Fn)"@
            } else {
                "None"@
            },
    {
        if self.progress_callback.is_some() {
            "Some(Fn)"
        } else {
            "None"
        }
    }
}

/// Download manager configuration.
#[derive(Debug, Clone)]
pub struct ManagerConfig {
    /// Maximum number of concurrent downloads.
    pub max_concurrent_downloads: usize,
    /// Segment size for parallel download (in bytes).
    pub segment_size: usize,
    /// Number of parallel segments per download.
    pub parallel_segments: usize,
    /// Number of download attempts in case of failure.
    pub retry_attempts: usize,
    /// Maximum buffer size per download (in bytes). A download in segments has no more of them
    /// under way than fit into it, but one at least; one in one piece gathers no more than
    /// half of it before it writes.
    pub max_buffer_size: usize,
}

/// The configuration of a manager that was given none: three downloads at a time, each in
/// four segments of 5 MB with three attempts, and a buffer of 10 MB.
pub open spec fn default_config() -> ManagerConfig {
    ManagerConfig {
        max_concurrent_downloads: 3,
        segment_size: 5_242_880,
        parallel_segments: 4,
        retry_attempts: 3,
        max_buffer_size: 10_485_760,
    }
}

impl Default for ManagerConfig {
    fn default() -> (res: Self)
        ensures
            res == default_config(),
    {
        ManagerConfig {
            max_concurrent_downloads: 3,
            segment_size: 5_242_880,
            parallel_segments: 4,
            retry_attempts: 3,
            max_buffer_size: 10_485_760,
        }
    }
}

/// Download status.
#[derive(Debug, PartialEq, Eq)]
pub enum DownloadStatus {
    /// Queued.
    Queued,
    /// Downloading.
    Downloading {
        /// Downloaded bytes.
        downloaded_bytes: u64,
        /// Total size in bytes.
        total_bytes: u64,
    },
    /// Download completed.
    Completed,
    /// Download failed.
    Failed {
        /// Reason of failure.
        reason: String,
    },
    /// Download canceled.
    Canceled,
}

impl Clone for DownloadStatus {
    fn clone(&self) -> (res: Self)
        ensures
            res == *self,
    {
        match self {
            DownloadStatus::Queued => DownloadStatus::Queued,
            DownloadStatus::Downloading { downloaded_bytes, total_bytes } => {
                DownloadStatus::Downloading {
                    downloaded_bytes: *downloaded_bytes,
                    total_bytes: *total_bytes,
                }
            },
            DownloadStatus::Completed => DownloadStatus::Completed,
            DownloadStatus::Failed { reason } => DownloadStatus::Failed { reason: reason.clone() },
            DownloadStatus::Canceled => DownloadStatus::Canceled,
        }
    }
}

/// Whether a download with this status is over: it completed, failed or was canceled.
pub open spec fn is_final(status: DownloadStatus) -> bool {
    status is Completed || status is Failed || status is Canceled
}

/// A download that is to start now.
pub struct Launch<C> {
    /// The ID of the download.
    pub id: u64,
    /// Where the data goes.
    pub destination: PathBuf,
    /// The fetcher to run, with the progress callback of the task if it has one.
    pub fetcher: Fetcher<C>,
}

/// What to do about the queue.
pub enum QueueStep<C> {
    /// Start this download.
    Start(Launch<C>),
    /// There is nothing to start: the queue is empty.
    Idle,
    /// There is nothing to start now: as many downloads as are allowed are in progress.
    Saturated,
}

/// What waiting for a download has come to.
pub enum WaitStep {
    /// The download is over.
    Finished(DownloadStatus),
    /// The download goes on: look again after so many milliseconds.
    PollAgain(u64),
}

/// How long to wait before looking at a status again, in milliseconds.
pub const POLL_INTERVAL_MS: u64 = 100;

/// The largest number of concurrent downloads that a manager can be given.
pub const MAX_PERMITS: usize = usize::MAX / 8;

/// What a download manager knows.
#[verifier::ext_equal]
pub struct ManagerView<C> {
    /// The configuration.
    pub config: ManagerConfig,
    /// The queued tasks, in the order in which they came.
    pub queue: Seq<DownloadTask<C>>,
    /// The ID of the next download.
    pub next_id: u64,
    /// The status of every download so far.
    pub statuses: Map<u64, DownloadStatus>,
    /// The downloads in progress.
    pub active: Set<u64>,
    /// The downloads that were canceled while in progress and have not ended yet.
    pub stopping: Set<u64>,
}

/// Whether the task at `i` is the one that `queue` serves next.
pub open spec fn is_next<C>(queue: Seq<DownloadTask<C>>, i: int) -> bool {
    &&& 0 <= i < queue.len()
    &&& forall|j: int| 0 <= j < queue.len() && j != i ==> before(queue[i], #[trigger] queue[j])
}

/// The position of the task that `queue` serves next.
pub open spec fn next_index<C>(queue: Seq<DownloadTask<C>>) -> int {
    choose|i: int| is_next(queue, i)
}

/// Whether `launch` carries out `task` under `config`.
pub open spec fn launches<C>(
    launch: Launch<C>,
    task: DownloadTask<C>,
    config: ManagerConfig,
) -> bool {
    &&& launch.id == task.id
    &&& launch.destination == task.destination
    &&& launch.fetcher.url@ == task.url@
    &&& launch.fetcher.segment_size == config.segment_size
    &&& launch.fetcher.parallel_segments == config.parallel_segments
    &&& launch.fetcher.retry_attempts == config.retry_attempts
    &&& launch.fetcher.max_buffer_size == Some(config.max_buffer_size)
    &&& launch.fetcher.progress_callback == task.progress_callback
}

/// A manager that has seen no download yet.
pub open spec fn new_manager<C>(config: ManagerConfig) -> ManagerView<C> {
    ManagerView {
        config,
        queue: Seq::empty(),
        next_id: 0,
        statuses: Map::empty(),
        active: Set::empty(),
        stopping: Set::empty(),
    }
}

impl<C> ManagerView<C> {
    /// Whether the download is in the queue.
    pub open spec fn is_queued(self, id: u64) -> bool {
        exists|i: int| 0 <= i < self.queue.len() && #[trigger] self.queue[i].id == id
    }

    /// How many downloads run: those in progress, and those that were canceled and have not
    /// ended yet.
    pub open spec fn running(self) -> nat {
        self.active.len() + self.stopping.len()
    }

    /// Whether a further download may start.
    pub open spec fn has_capacity(self) -> bool {
        self.running() < self.config.max_concurrent_downloads
    }

    /// What holds of a manager at all times: IDs are given out in order and never twice;
    /// a download has a status if and only if its ID was given out; the queue holds exactly
    /// the downloads with status `Queued`, the oldest first; those in progress are exactly
    /// the ones with status `Downloading`; those that were canceled and still run have status
    /// `Canceled`; and no more run than the configuration allows.
    pub open spec fn wf(self) -> bool {
        &&& forall|i: int, j: int|
            0 <= i < j < self.queue.len() ==> #[trigger] self.queue[i].id
                < #[trigger] self.queue[j].id
        &&& forall|id: u64| #[trigger]
            self.statuses.contains_key(id) <==> id < self.next_id
        &&& forall|i: int|
            0 <= i < self.queue.len() ==> self.statuses.contains_key(
                (#[trigger] self.queue[i]).id,
            ) && self.statuses[self.queue[i].id] is Queued
        &&& forall|id: u64|
            #![trigger self.statuses[id]]
            self.statuses.contains_key(id) && self.statuses[id] is Queued ==> self.is_queued(id)
        &&& forall|id: u64| #[trigger]
            self.active.contains(id) <==> self.statuses.contains_key(id)
                && self.statuses[id] is Downloading
        &&& forall|id: u64| #[trigger]
            self.stopping.contains(id) ==> self.statuses.contains_key(id)
                && self.statuses[id] is Canceled
        &&& self.active.finite()
        &&& self.stopping.finite()
        &&& self.running() <= self.config.max_concurrent_downloads
    }

    /// The manager with one more download in its queue.
    pub open spec fn enqueue(
        self,
        url: String,
        destination: PathBuf,
        priority: Option<DownloadPriority>,
        progress_callback: Option<C>,
    ) -> Self {
        ManagerView {
            queue: self.queue.push(
                DownloadTask {
                    url,
                    destination,
                    priority: match priority {
                        Some(p) => p,
                        None => DownloadPriority::Normal,
                    },
                    id: self.next_id,
                    progress_callback,
                },
            ),
            next_id: (self.next_id + 1) as u64,
            statuses: self.statuses.insert(self.next_id, DownloadStatus::Queued),
            ..self
        }
    }

    /// The manager after one step of its queue: the next task has left the queue and is in
    /// progress, if there is one and there is capacity for it.
    pub open spec fn process(self) -> Self {
        if self.has_capacity() && self.queue.len() > 0 {
            let task = self.queue[next_index(self.queue)];
            ManagerView {
                queue: self.queue.remove(next_index(self.queue)),
                statuses: self.statuses.insert(
                    task.id,
                    DownloadStatus::Downloading { downloaded_bytes: 0, total_bytes: 0 },
                ),
                active: self.active.insert(task.id),
                ..self
            }
        } else {
            self
        }
    }

    /// The manager after a download in progress has got on.
    pub open spec fn progress(self, id: u64, downloaded_bytes: u64, total_bytes: u64) -> Self {
        if self.active.contains(id) {
            ManagerView {
                statuses: self.statuses.insert(
                    id,
                    DownloadStatus::Downloading { downloaded_bytes, total_bytes },
                ),
                ..self
            }
        } else {
            self
        }
    }

    /// The manager after a download has ended. One that was canceled before stays canceled,
    /// and only gives its place back.
    pub open spec fn finish(self, id: u64, outcome: Result<(), String>) -> Self {
        if self.active.contains(id) {
            ManagerView {
                active: self.active.remove(id),
                statuses: self.statuses.insert(
                    id,
                    match outcome {
                        Ok(_) => DownloadStatus::Completed,
                        Err(reason) => DownloadStatus::Failed { reason },
                    },
                ),
                ..self
            }
        } else {
            ManagerView { stopping: self.stopping.remove(id), ..self }
        }
    }

    /// Whether the download can be canceled: it is queued or in progress.
    pub open spec fn can_cancel(self, id: u64) -> bool {
        self.statuses.contains_key(id) && !is_final(self.statuses[id])
    }

    /// The manager after a download was canceled, if that can be. One that was in progress
    /// keeps its place until it has ended.
    pub open spec fn cancel(self, id: u64) -> Self {
        if self.can_cancel(id) {
            ManagerView {
                queue: self.queue.filter(|t: DownloadTask<C>| t.id != id),
                active: self.active.remove(id),
                stopping: if self.active.contains(id) {
                    self.stopping.insert(id)
                } else {
                    self.stopping
                },
                statuses: self.statuses.insert(id, DownloadStatus::Canceled),
                ..self
            }
        } else {
            self
        }
    }
}

/// Download manager.
pub struct DownloadManager<C> {
    config: ManagerConfig,
    queue: Vec<DownloadTask<C>>,
    next_id: u64,
    statuses: HashMap<u64, DownloadStatus>,
    active: HashSet<u64>,
    stopping: HashSet<u64>,
}

impl<C> View for DownloadManager<C> {
    type V = ManagerView<C>;

    closed spec fn view(&self) -> ManagerView<C> {
        ManagerView {
            config: self.config,
            queue: self.queue@,
            next_id: self.next_id,
            statuses: self.statuses@,
            active: self.active@,
            stopping: self.stopping@,
        }
    }
}

impl<C> Default for DownloadManager<C> {
    fn default() -> (res: Self)
        ensures
            res@.wf(),
            res@ == new_manager::<C>(default_config()),
    {
        Self::new()
    }
}

impl<C> DownloadManager<C> {
    /// Creates a new download manager with default configuration.
    pub fn new() -> (res: Self)
        ensures
            res@.wf(),
            res@ == new_manager::<C>(default_config()),
    {
        Self::with_config(ManagerConfig::default())
    }

    /// Creates a new download manager with custom configuration.
    pub fn with_config(config: ManagerConfig) -> (res: Self)
        requires
            config.max_concurrent_downloads <= MAX_PERMITS,
        ensures
            res@.wf(),
            res@ == new_manager::<C>(config),
    {
        DownloadManager {
            config,
            queue: Vec::new(),
            next_id: 0,
            statuses: HashMap::new(),
            active: HashSet::new(),
            stopping: HashSet::new(),
        }
    }

    /// The ID that the next download gets.
    pub fn next_id(&self) -> (res: u64)
        ensures
            res == self@.next_id,
    {
        self.next_id
    }

    /// Whether no task is queued.
    pub fn queue_is_empty(&self) -> (res: bool)
        ensures
            res == (self@.queue.len() == 0),
    {
        self.queue.is_empty()
    }

    fn push_task(
        &mut self,
        url: String,
        destination: PathBuf,
        priority: Option<DownloadPriority>,
        progress_callback: Option<C>,
    ) -> (id: u64)
        requires
            old(self)@.wf(),
            old(self)@.next_id < u64::MAX,
        ensures
            id == old(self)@.next_id,
            final(self)@ == old(self)@.enqueue(url, destination, priority, progress_callback),
            final(self)@.wf(),
    {
        let id = self.next_id;
        self.next_id = id + 1;
        let priority = match priority {
            Some(p) => p,
            None => DownloadPriority::Normal,
        };
        self.queue.push(DownloadTask { url, destination, priority, id, progress_callback });
        self.statuses.insert(id, DownloadStatus::Queued);
        proof {
            lemma_enqueue_wf(old(self)@, url, destination, Some(priority), progress_callback);
        }
        id
    }

    /// Adds a download to the queue; without a priority it gets `Normal`.
    ///
    /// Returns the ID of the download.
    pub fn enqueue(
        &mut self,
        url: String,
        destination: PathBuf,
        priority: Option<DownloadPriority>,
    ) -> (id: u64)
        requires
            old(self)@.wf(),
            old(self)@.next_id < u64::MAX,
        ensures
            id == old(self)@.next_id,
            final(self)@ == old(self)@.enqueue(url, destination, priority, None),
            final(self)@.wf(),
    {
        self.push_task(url, destination, priority, None)
    }

    /// Adds a download to the queue with a progress callback; without a priority it gets
    /// `Normal`.
    ///
    /// Returns the ID of the download.
    pub fn enqueue_with_progress(
        &mut self,
        url: String,
        destination: PathBuf,
        priority: Option<DownloadPriority>,
        progress_callback: C,
    ) -> (id: u64)
        requires
            old(self)@.wf(),
            old(self)@.next_id < u64::MAX,
        ensures
            id == old(self)@.next_id,
            final(self)@ == old(self)@.enqueue(
                url,
                destination,
                priority,
                Some(progress_callback),
            ),
            final(self)@.wf(),
    {
        self.push_task(url, destination, priority, Some(progress_callback))
    }

    /// The status of a download, or `None` if the ID doesn't exist.
    pub fn get_status(&self, id: u64) -> (res: Option<DownloadStatus>)
        ensures
            res == if self@.statuses.contains_key(id) {
                Some(self@.statuses[id])
            } else {
                None
            },
    {
        match self.statuses.get(&id) {
            Some(status) => Some(status.clone()),
            None => None,
        }
    }

    /// What waiting for a download to complete has come to, or `None` if the ID doesn't
    /// exist.
    pub fn wait_for_completion(&self, id: u64) -> (res: Option<WaitStep>)
        ensures
            res == if !self@.statuses.contains_key(id) {
                None
            } else if is_final(self@.statuses[id]) {
                Some(WaitStep::Finished(self@.statuses[id]))
            } else {
                Some(WaitStep::PollAgain(POLL_INTERVAL_MS))
            },
    {
        match self.get_status(id) {
            Some(status) => match status {
                DownloadStatus::Completed | DownloadStatus::Failed { .. }
                | DownloadStatus::Canceled => Some(WaitStep::Finished(status)),
                _ => Some(WaitStep::PollAgain(POLL_INTERVAL_MS)),
            },
            None => None,
        }
    }

    /// Takes the next task off the queue, if there is one and a further download may
    /// start, and says how to run it.
    pub fn process_queue(&mut self) -> (res: QueueStep<C>)
        requires
            old(self)@.wf(),
        ensures
            final(self)@ == old(self)@.process(),
            final(self)@.wf(),
            match res {
                QueueStep::Saturated => !old(self)@.has_capacity(),
                QueueStep::Idle => old(self)@.has_capacity() && old(self)@.queue.len() == 0,
                QueueStep::Start(launch) => {
                    &&& old(self)@.has_capacity()
                    &&& old(self)@.queue.len() > 0
                    &&& is_next(old(self)@.queue, next_index(old(self)@.queue))
                    &&& launches(
                        launch,
                        old(self)@.queue[next_index(old(self)@.queue)],
                        old(self)@.config,
                    )
                },
            },
    {
        if self.active.len() + self.stopping.len() >= self.config.max_concurrent_downloads {
            return QueueStep::Saturated;
        }
        if self.queue.is_empty() {
            return QueueStep::Idle;
        }
        let ghost queue = self.queue@;
        let best = next_position(&self.queue);
        proof {
            lemma_next_index(queue, best as int);
            lemma_process_wf(old(self)@);
        }
        let task = self.queue.remove(best);
        let DownloadTask { url, destination, priority: _, id, progress_callback } = task;
        self.statuses.insert(
            id,
            DownloadStatus::Downloading { downloaded_bytes: 0, total_bytes: 0 },
        );
        self.active.insert(id);
        let fetcher = Fetcher::new(url.as_str()).with_segment_size(
            self.config.segment_size,
        ).with_parallel_segments(self.config.parallel_segments).with_retry_attempts(
            self.config.retry_attempts,
        ).with_max_buffer_size(self.config.max_buffer_size);
        let fetcher = match progress_callback {
            Some(callback) => fetcher.with_progress_callback(callback),
            None => fetcher,
        };
        QueueStep::Start(Launch { id, destination, fetcher })
    }

    /// Notes how far a download in progress has got. A download that is not in progress
    /// keeps its status.
    pub fn update_progress(&mut self, id: u64, downloaded_bytes: u64, total_bytes: u64)
        requires
            old(self)@.wf(),
        ensures
            final(self)@ == old(self)@.progress(id, downloaded_bytes, total_bytes),
            final(self)@.wf(),
    {
        if self.active.contains(&id) {
            self.statuses.insert(
                id,
                DownloadStatus::Downloading { downloaded_bytes, total_bytes },
            );
            proof {
                lemma_progress_wf(old(self)@, id, downloaded_bytes, total_bytes);
            }
        }
    }

    /// Notes that a download has ended, and with what outcome. A download that is not in
    /// progress keeps its status; one that was canceled gives its place back.
    pub fn finish(&mut self, id: u64, outcome: Result<(), String>)
        requires
            old(self)@.wf(),
        ensures
            final(self)@ == old(self)@.finish(id, outcome),
            final(self)@.wf(),
    {
        if self.active.contains(&id) {
            self.active.remove(&id);
            let status = match outcome {
                Ok(_) => DownloadStatus::Completed,
                Err(reason) => DownloadStatus::Failed { reason },
            };
            self.statuses.insert(id, status);
        } else {
            self.stopping.remove(&id);
        }
        proof {
            lemma_finish_wf(old(self)@, id, outcome);
        }
    }

    /// Cancels a download. One that is in progress has to be stopped, and keeps its place
    /// until `finish` is told that it has ended.
    ///
    /// Returns true if the download was canceled, false if it doesn't exist or is already
    /// completed.
    pub fn cancel(&mut self, id: u64) -> (res: bool)
        requires
            old(self)@.wf(),
        ensures
            res == old(self)@.can_cancel(id),
            final(self)@ == old(self)@.cancel(id),
            final(self)@.wf(),
    {
        proof {
            lemma_cancel_wf(self@, id);
        }
        if self.active.contains(&id) {
            self.active.remove(&id);
            self.stopping.insert(id);
            self.statuses.insert(id, DownloadStatus::Canceled);
            proof {
                lemma_filter_absent(old(self)@.queue, id);
            }
            return true;
        }
        let mut i: usize = 0;
        while i < self.queue.len()
            invariant
                self@ == old(self)@,
                old(self)@.wf(),
                i <= self.queue@.len(),
                !self@.active.contains(id),
                forall|j: int| 0 <= j < i ==> (#[trigger] self.queue@[j]).id != id,
            decreases self.queue@.len() - i,
        {
            if self.queue[i].id == id {
                let ghost queue = self.queue@;
                proof {
                    lemma_filter_present(queue, id, i as int);
                }
                self.queue.remove(i);
                self.statuses.insert(id, DownloadStatus::Canceled);
                proof {
                    lemma_cancel_wf(old(self)@, id);
                    assert(old(self)@.active.remove(id) =~= old(self)@.active);
                }
                return true;
            }
            i = i + 1;
        }
        false
    }
}

/// The position of the task that is served next.
fn next_position<C>(queue: &Vec<DownloadTask<C>>) -> (best: usize)
    requires
        queue@.len() > 0,
        forall|i: int, j: int|
            0 <= i < j < queue@.len() ==> #[trigger] queue@[i].id < #[trigger] queue@[j].id,
    ensures
        is_next(queue@, best as int),
{
    let mut best: usize = 0;
    let mut i: usize = 1;
    while i < queue.len()
        invariant
            best < i <= queue@.len(),
            forall|i: int, j: int|
                0 <= i < j < queue@.len() ==> #[trigger] queue@[i].id < #[trigger] queue@[j].id,
            forall|j: int|
                0 <= j < i && j != best ==> before(queue@[best as int], #[trigger] queue@[j]),
        decreases queue@.len() - i,
    {
        proof {
            assert(queue@[best as int].id < queue@[i as int].id);
        }
        if queue[i].is_before(&queue[best]) {
            best = i;
        }
        i = i + 1;
    }
    best
}

/// Only one position of a queue is the next to be served.
proof fn lemma_next_index<C>(queue: Seq<DownloadTask<C>>, i: int)
    requires
        is_next(queue, i),
    ensures
        is_next(queue, next_index(queue)),
        next_index(queue) == i,
{
    let n = next_index(queue);
    assert(is_next(queue, n));
    if n != i {
        assert(before(queue[i], queue[n]));
        assert(before(queue[n], queue[i]));
    }
}

/// A queue with ascending IDs that is not empty has a next task.
pub(crate) proof fn lemma_next_exists<C>(queue: Seq<DownloadTask<C>>)
    requires
        queue.len() > 0,
        forall|i: int, j: int|
            0 <= i < j < queue.len() ==> #[trigger] queue[i].id < #[trigger] queue[j].id,
    ensures
        is_next(queue, next_index(queue)),
    decreases queue.len(),
{
    if queue.len() == 1 {
        assert(is_next(queue, 0));
    } else {
        let rest = queue.drop_last();
        let last = queue.len() - 1;
        lemma_next_exists(rest);
        let n = next_index(rest);
        assert(queue[n].id < queue[last].id);
        if before(queue[n], queue[last]) {
            assert forall|j: int| 0 <= j < queue.len() && j != n implies before(
                queue[n],
                #[trigger] queue[j],
            ) by {
                if j < last {
                    assert(before(rest[n], rest[j]));
                }
            }
            assert(is_next(queue, n));
        } else {
            assert forall|j: int| 0 <= j < queue.len() && j != last implies before(
                queue[last],
                #[trigger] queue[j],
            ) by {
                if j != n {
                    assert(before(rest[n], rest[j]));
                }
            }
            assert(is_next(queue, last));
        }
    }
}

proof fn lemma_filter_absent<C>(queue: Seq<DownloadTask<C>>, id: u64)
    requires
        forall|i: int| 0 <= i < queue.len() ==> (#[trigger] queue[i]).id != id,
    ensures
        queue.filter(|t: DownloadTask<C>| t.id != id) == queue,
    decreases queue.len(),
{
    reveal(Seq::filter);
    if queue.len() > 0 {
        lemma_filter_absent(queue.drop_last(), id);
        assert(queue.last().id != id);
        assert(queue.drop_last().push(queue.last()) =~= queue);
    }
}

proof fn lemma_filter_present<C>(queue: Seq<DownloadTask<C>>, id: u64, i: int)
    requires
        0 <= i < queue.len(),
        queue[i].id == id,
        forall|j: int| 0 <= j < queue.len() && j != i ==> (#[trigger] queue[j]).id != id,
    ensures
        queue.filter(|t: DownloadTask<C>| t.id != id) == queue.remove(i),
    decreases queue.len(),
{
    reveal(Seq::filter);
    let rest = queue.drop_last();
    if i == queue.len() - 1 {
        lemma_filter_absent(rest, id);
        assert(queue.remove(i) =~= rest);
    } else {
        lemma_filter_present(rest, id, i);
        assert(queue.last().id != id);
        assert(queue.remove(i) =~= rest.remove(i).push(queue.last()));
    }
}

pub(crate) proof fn lemma_enqueue_wf<C>(
    m: ManagerView<C>,
    url: String,
    destination: PathBuf,
    priority: Option<DownloadPriority>,
    progress_callback: Option<C>,
)
    requires
        m.wf(),
        m.next_id < u64::MAX,
    ensures
        m.enqueue(url, destination, priority, progress_callback).wf(),
{
    let n = m.enqueue(url, destination, priority, progress_callback);
    assert(n.queue.last().id == m.next_id);
    assert forall|id: u64|
        #![trigger n.statuses[id]]
        n.statuses.contains_key(id) && n.statuses[id] is Queued implies n.is_queued(id) by {
        if id == m.next_id {
            assert(n.queue[n.queue.len() - 1].id == id);
        } else {
            let i = choose|i: int| 0 <= i < m.queue.len() && #[trigger] m.queue[i].id == id;
            assert(n.queue[i].id == id);
        }
    }
}

pub(crate) proof fn lemma_process_wf<C>(m: ManagerView<C>)
    requires
        m.wf(),
    ensures
        m.process().wf(),
{
    if m.has_capacity() && m.queue.len() > 0 {
        lemma_next_exists(m.queue);
        let k = next_index(m.queue);
        let n = m.process();
        let task = m.queue[k];
        assert forall|i: int| 0 <= i < n.queue.len() implies n.statuses.contains_key(
            (#[trigger] n.queue[i]).id,
        ) && n.statuses[n.queue[i].id] is Queued by {
            let j = if i < k { i } else { i + 1 };
            assert(n.queue[i] == m.queue[j]);
            assert(j < k ==> m.queue[j].id < m.queue[k].id);
            assert(j > k ==> m.queue[k].id < m.queue[j].id);
        }
        assert forall|id: u64|
            #![trigger n.statuses[id]]
            n.statuses.contains_key(id) && n.statuses[id] is Queued implies n.is_queued(id) by {
            let j = choose|j: int| 0 <= j < m.queue.len() && #[trigger] m.queue[j].id == id;
            let i = if j < k { j } else { j - 1 };
            assert(n.queue[i] == m.queue[j]);
        }
        assert forall|i: int, j: int| 0 <= i < j < n.queue.len() implies #[trigger] n.queue[i].id
            < #[trigger] n.queue[j].id by {
            let a = if i < k { i } else { i + 1 };
            let b = if j < k { j } else { j + 1 };
            assert(n.queue[i] == m.queue[a] && n.queue[j] == m.queue[b]);
        }
    }
}

pub(crate) proof fn lemma_progress_wf<C>(m: ManagerView<C>, id: u64, downloaded_bytes: u64, total_bytes: u64)
    requires
        m.wf(),
    ensures
        m.progress(id, downloaded_bytes, total_bytes).wf(),
{
    lemma_status_change_keeps_queue(m, m.progress(id, downloaded_bytes, total_bytes), id);
}

pub(crate) proof fn lemma_finish_wf<C>(m: ManagerView<C>, id: u64, outcome: Result<(), String>)
    requires
        m.wf(),
    ensures
        m.finish(id, outcome).wf(),
{
    lemma_status_change_keeps_queue(m, m.finish(id, outcome), id);
}

/// If only a status that neither was nor becomes `Queued` changes, the queue still holds
/// exactly the downloads with status `Queued`.
proof fn lemma_status_change_keeps_queue<C>(m: ManagerView<C>, n: ManagerView<C>, id: u64)
    requires
        m.wf(),
        n.queue == m.queue,
        n.statuses == m.statuses || (m.statuses.contains_key(id) && !(m.statuses[id] is Queued)
            && n.statuses == m.statuses.insert(id, n.statuses[id]) && !(n.statuses[id] is Queued)),
    ensures
        forall|k: u64|
            #![trigger n.statuses[k]]
            n.statuses.contains_key(k) && n.statuses[k] is Queued ==> n.is_queued(k),
{
    assert forall|k: u64|
        #![trigger n.statuses[k]]
        n.statuses.contains_key(k) && n.statuses[k] is Queued implies n.is_queued(k) by {
        assert(m.statuses[k] is Queued);
        assert(m.is_queued(k));
        let i = choose|i: int| 0 <= i < m.queue.len() && #[trigger] m.queue[i].id == k;
        assert(n.queue[i].id == k);
    }
}

/// What canceling does to the queue: a queued task leaves it from its position, which is the
/// only one with its ID; otherwise nothing changes.
pub(crate) proof fn lemma_cancel_queue<C>(m: ManagerView<C>, id: u64) -> (k: int)
    requires
        m.wf(),
    ensures
        if m.can_cancel(id) && m.is_queued(id) {
            &&& 0 <= k < m.queue.len()
            &&& m.queue[k].id == id
            &&& forall|j: int|
                0 <= j < m.queue.len() && j != k ==> (#[trigger] m.queue[j]).id != id
            &&& m.cancel(id).queue == m.queue.remove(k)
        } else {
            m.cancel(id).queue == m.queue
        },
{
    if m.can_cancel(id) && m.is_queued(id) {
        let k = choose|i: int| 0 <= i < m.queue.len() && #[trigger] m.queue[i].id == id;
        assert forall|j: int| 0 <= j < m.queue.len() && j != k implies (#[trigger] m.queue[j]).id
            != id by {
            assert(j < k ==> m.queue[j].id < m.queue[k].id);
            assert(j > k ==> m.queue[k].id < m.queue[j].id);
        }
        lemma_filter_present(m.queue, id, k);
        k
    } else {
        if m.can_cancel(id) {
            lemma_filter_absent(m.queue, id);
        }
        0
    }
}

pub(crate) proof fn lemma_cancel_wf<C>(m: ManagerView<C>, id: u64)
    requires
        m.wf(),
    ensures
        m.cancel(id).wf(),
        m.can_cancel(id) <==> m.active.contains(id) || m.is_queued(id),
        m.active.contains(id) ==> !m.is_queued(id),
{
    let n = m.cancel(id);
    if m.can_cancel(id) {
        assert(m.statuses[id] is Queued || m.statuses[id] is Downloading);
        if m.statuses[id] is Downloading {
            lemma_filter_absent(m.queue, id);
            lemma_status_change_keeps_queue(m, n, id);
        } else {
            assert(m.is_queued(id));
            let k = lemma_cancel_queue(m, id);
            assert forall|i: int| 0 <= i < n.queue.len() implies n.statuses.contains_key(
                (#[trigger] n.queue[i]).id,
            ) && n.statuses[n.queue[i].id] is Queued by {
                let j = if i < k { i } else { i + 1 };
                assert(n.queue[i] == m.queue[j]);
            }
            assert forall|c: u64|
                #![trigger n.statuses[c]]
                n.statuses.contains_key(c) && n.statuses[c] is Queued implies n.is_queued(c) by {
                let j = choose|j: int| 0 <= j < m.queue.len() && #[trigger] m.queue[j].id == c;
                let i = if j < k { j } else { j - 1 };
                assert(n.queue[i] == m.queue[j]);
            }
            assert forall|i: int, j: int| 0 <= i < j < n.queue.len() implies #[trigger]
            n.queue[i].id < #[trigger] n.queue[j].id by {
                let a = if i < k { i } else { i + 1 };
                let b = if j < k { j } else { j + 1 };
                assert(n.queue[i] == m.queue[a] && n.queue[j] == m.queue[b]);
            }
        }
    }
}

} // verus!
