//! What holds of a download manager whatever happens to it.
use crate::fetcher::download_manager::{
    before, is_final, is_next, launches, lemma_cancel_queue, lemma_cancel_wf, lemma_enqueue_wf,
    lemma_finish_wf, lemma_next_exists, lemma_process_wf, lemma_progress_wf, new_manager,
    next_index, priority_of, rank, task_order, DownloadPriority, DownloadStatus, DownloadTask,
    Launch, ManagerConfig, ManagerView,
};
use crate::fetcher::segments::{
    bytes_under_way, law_optimal_segments_bounds, law_pending_is_what_is_missing,
    law_segment_count, law_segments_in_memory, parallel_within, planned, segment_count, unmarked,
    SegmentedView,
};
use std::path::PathBuf;
use vstd::prelude::*;

verus! {

broadcast use vstd::set::group_set_axioms;

/// Something that happens to a download manager.
pub enum ManagerEvent<C> {
    /// A download is added to the queue.
    Enqueue(String, PathBuf, Option<DownloadPriority>, Option<C>),
    /// The queue is processed.
    Process,
    /// A download reports its progress.
    Progress(u64, u64, u64),
    /// A download ends.
    Finish(u64, Result<(), String>),
    /// A download is canceled.
    Cancel(u64),
}

/// The manager after one event.
pub open spec fn step<C>(m: ManagerView<C>, e: ManagerEvent<C>) -> ManagerView<C> {
    match e {
        ManagerEvent::Enqueue(url, destination, priority, callback) => m.enqueue(
            url,
            destination,
            priority,
            callback,
        ),
        ManagerEvent::Process => m.process(),
        ManagerEvent::Progress(id, downloaded, total) => m.progress(id, downloaded, total),
        ManagerEvent::Finish(id, outcome) => m.finish(id, outcome),
        ManagerEvent::Cancel(id) => m.cancel(id),
    }
}

/// The manager after a sequence of events.
pub open spec fn run<C>(m: ManagerView<C>, events: Seq<ManagerEvent<C>>) -> ManagerView<C>
    decreases events.len(),
{
    if events.len() == 0 {
        m
    } else {
        step(run(m, events.drop_last()), events.last())
    }
}

/// A priority is found again by its number.
pub proof fn law_priority_round_trip(p: DownloadPriority)
    ensures
        priority_of(rank(p)) == p,
{
}

/// The order of service is a strict total order on tasks with different IDs.
pub proof fn law_order_is_total<C>(a: DownloadTask<C>, b: DownloadTask<C>, c: DownloadTask<C>)
    ensures
        !before(a, a),
        before(a, b) ==> !before(b, a),
        before(a, b) && before(b, c) ==> before(a, c),
        a.id != b.id ==> before(a, b) || before(b, a),
{
}

/// Every event keeps the manager well formed.
pub proof fn law_step_keeps_wf<C>(m: ManagerView<C>, e: ManagerEvent<C>)
    requires
        m.wf(),
        m.next_id < u64::MAX,
    ensures
        step(m, e).wf(),
        step(m, e).config == m.config,
        m.next_id <= step(m, e).next_id <= m.next_id + 1,
{
    match e {
        ManagerEvent::Enqueue(url, destination, priority, callback) => {
            lemma_enqueue_wf(m, url, destination, priority, callback);
        },
        ManagerEvent::Process => {
            lemma_process_wf(m);
        },
        ManagerEvent::Progress(id, downloaded, total) => {
            lemma_progress_wf(m, id, downloaded, total);
        },
        ManagerEvent::Finish(id, outcome) => {
            lemma_finish_wf(m, id, outcome);
        },
        ManagerEvent::Cancel(id) => {
            lemma_cancel_wf(m, id);
        },
    }
}

/// Every sequence of events keeps the manager well formed.
pub proof fn law_run_keeps_wf<C>(m: ManagerView<C>, events: Seq<ManagerEvent<C>>)
    requires
        m.wf(),
        m.next_id + events.len() <= u64::MAX,
    ensures
        run(m, events).wf(),
        run(m, events).config == m.config,
        m.next_id <= run(m, events).next_id <= m.next_id + events.len(),
    decreases events.len(),
{
    if events.len() > 0 {
        law_run_keeps_wf(m, events.drop_last());
        law_step_keeps_wf(run(m, events.drop_last()), events.last());
    }
}

/// Never do more downloads run than the configuration allows, those included that were
/// canceled and have not ended yet.
pub proof fn law_concurrency_limit<C>(config: ManagerConfig, events: Seq<ManagerEvent<C>>)
    requires
        events.len() <= u64::MAX,
    ensures
        run(new_manager::<C>(config), events).running() <= config.max_concurrent_downloads,
{
    law_run_keeps_wf(new_manager::<C>(config), events);
}

/// Two downloads never get the same ID, and the later one gets the larger: after a download
/// was added and anything happened, the next ID is still above its own, and no download
/// had that ID before.
pub proof fn law_ids_are_unique<C>(
    m: ManagerView<C>,
    url: String,
    destination: PathBuf,
    priority: Option<DownloadPriority>,
    callback: Option<C>,
    events: Seq<ManagerEvent<C>>,
)
    requires
        m.wf(),
        m.next_id + 1 + events.len() <= u64::MAX,
    ensures
        !m.statuses.contains_key(m.next_id),
        run(m.enqueue(url, destination, priority, callback), events).next_id > m.next_id,
{
    lemma_enqueue_wf(m, url, destination, priority, callback);
    law_run_keeps_wf(m.enqueue(url, destination, priority, callback), events);
}

/// Every download is in exactly one place: in the queue, in progress, or over.
pub proof fn law_no_download_is_lost<C>(m: ManagerView<C>, id: u64)
    requires
        m.wf(),
        id < m.next_id,
    ensures
        m.statuses.contains_key(id),
        m.is_queued(id) <==> m.statuses[id] is Queued,
        m.active.contains(id) <==> m.statuses[id] is Downloading,
        !m.is_queued(id) && !m.active.contains(id) <==> is_final(m.statuses[id]),
{
    assert(m.statuses.contains_key(id));
    if m.is_queued(id) {
        let i = choose|i: int| 0 <= i < m.queue.len() && #[trigger] m.queue[i].id == id;
        assert(m.statuses[m.queue[i].id] is Queued);
    }
}

/// Processing the queue starts the most urgent task: while there is capacity, a queued task
/// is started only if every other one comes behind it, so of two queued tasks the less
/// urgent one stays in the queue.
pub proof fn law_urgent_first<C>(m: ManagerView<C>, i: int, j: int)
    requires
        m.wf(),
        0 <= i < m.queue.len(),
        0 <= j < m.queue.len(),
        before(m.queue[i], m.queue[j]),
    ensures
        m.process().is_queued(m.queue[j].id),
        !m.process().active.contains(m.queue[j].id),
{
    lemma_next_exists(m.queue);
    lemma_process_wf(m);
    let k = next_index(m.queue);
    let n = m.process();
    if m.has_capacity() {
        if k == j {
            assert(before(m.queue[j], m.queue[i]));
        }
        let p = if j < k { j } else { j - 1 };
        assert(n.queue[p] == m.queue[j]);
    } else {
        assert(n.queue[j] == m.queue[j]);
    }
    assert(n.statuses[m.queue[j].id] is Queued);
}

/// While there is capacity, processing a queue that is not empty starts exactly one
/// download: the next one, which leaves the queue and is then in progress.
pub proof fn law_processing_gets_on<C>(m: ManagerView<C>)
    requires
        m.wf(),
        m.has_capacity(),
        m.queue.len() > 0,
    ensures
        is_next(m.queue, next_index(m.queue)),
        m.process().queue.len() == m.queue.len() - 1,
        m.process().active.len() == m.active.len() + 1,
        m.process().active.contains(m.queue[next_index(m.queue)].id),
        !m.active.contains(m.queue[next_index(m.queue)].id),
        !m.process().is_queued(m.queue[next_index(m.queue)].id),
{
    lemma_next_exists(m.queue);
    lemma_process_wf(m);
    let id = m.queue[next_index(m.queue)].id;
    assert(m.statuses[id] is Queued);
    law_no_download_is_lost(m.process(), id);
}

/// How the status of a download may change in one event.
pub open spec fn may_become(from: DownloadStatus, to: DownloadStatus) -> bool {
    ||| from == to
    ||| from is Queued && to == (DownloadStatus::Downloading {
        downloaded_bytes: 0,
        total_bytes: 0,
    })
    ||| from is Queued && to is Canceled
    ||| from is Downloading && (to is Downloading || is_final(to))
}

/// A status changes only from queued to downloading or canceled, and from downloading to
/// further progress or to an end.
pub proof fn law_status_changes<C>(m: ManagerView<C>, e: ManagerEvent<C>, id: u64)
    requires
        m.wf(),
        m.next_id < u64::MAX,
        id < m.next_id,
    ensures
        step(m, e).statuses.contains_key(id),
        may_become(m.statuses[id], step(m, e).statuses[id]),
{
    assert(m.statuses.contains_key(id));
    match e {
        ManagerEvent::Process => {
            if m.has_capacity() && m.queue.len() > 0 {
                lemma_next_exists(m.queue);
                assert(m.statuses[m.queue[next_index(m.queue)].id] is Queued);
            }
        },
        ManagerEvent::Progress(k, _, _) => {
            assert(m.active.contains(k) ==> m.statuses[k] is Downloading);
        },
        ManagerEvent::Finish(k, _) => {
            assert(m.active.contains(k) ==> m.statuses[k] is Downloading);
        },
        _ => {},
    }
}

/// A download that is over keeps its status, whatever happens afterwards.
pub proof fn law_final_status_stays<C>(m: ManagerView<C>, events: Seq<ManagerEvent<C>>, id: u64)
    requires
        m.wf(),
        m.next_id + events.len() <= u64::MAX,
        m.statuses.contains_key(id),
        is_final(m.statuses[id]),
    ensures
        run(m, events).statuses.contains_key(id),
        run(m, events).statuses[id] == m.statuses[id],
    decreases events.len(),
{
    if events.len() > 0 {
        let before_last = run(m, events.drop_last());
        law_final_status_stays(m, events.drop_last(), id);
        law_run_keeps_wf(m, events.drop_last());
        law_status_changes(before_last, events.last(), id);
    }
}

/// A canceled download stays canceled: it is neither queued nor in progress again, whatever
/// happens, and canceling it a second time is refused.
pub proof fn law_canceled_never_runs<C>(m: ManagerView<C>, id: u64, events: Seq<ManagerEvent<C>>)
    requires
        m.wf(),
        m.can_cancel(id),
        m.next_id + events.len() <= u64::MAX,
    ensures
        run(m.cancel(id), events).statuses[id] is Canceled,
        !run(m.cancel(id), events).is_queued(id),
        !run(m.cancel(id), events).active.contains(id),
        !run(m.cancel(id), events).can_cancel(id),
{
    lemma_cancel_wf(m, id);
    law_final_status_stays(m.cancel(id), events, id);
    law_run_keeps_wf(m.cancel(id), events);
    law_no_download_is_lost(run(m.cancel(id), events), id);
}

/// Canceling one download changes nothing for the others.
pub proof fn law_cancel_spares_others<C>(m: ManagerView<C>, id: u64, other: u64)
    requires
        m.wf(),
        other != id,
        other < m.next_id,
    ensures
        m.cancel(id).statuses[other] == m.statuses[other],
        m.cancel(id).is_queued(other) == m.is_queued(other),
        m.cancel(id).active.contains(other) == m.active.contains(other),
{
    lemma_cancel_wf(m, id);
    law_no_download_is_lost(m, other);
    law_no_download_is_lost(m.cancel(id), other);
}

/// Whether the event starts the download.
pub open spec fn starts<C>(m: ManagerView<C>, e: ManagerEvent<C>, id: u64) -> bool {
    &&& e is Process
    &&& m.has_capacity()
    &&& m.queue.len() > 0
    &&& m.queue[next_index(m.queue)].id == id
}

/// How often the download is started while the events happen.
pub open spec fn times_started<C>(
    m: ManagerView<C>,
    events: Seq<ManagerEvent<C>>,
    id: u64,
) -> nat
    decreases events.len(),
{
    if events.len() == 0 {
        0
    } else {
        let earlier = events.drop_last();
        times_started(m, earlier, id) + if starts(run(m, earlier), events.last(), id) {
            1nat
        } else {
            0
        }
    }
}

/// How often the queue is processed, while the events happen, at a time when a further
/// download may start.
pub open spec fn chances<C>(m: ManagerView<C>, events: Seq<ManagerEvent<C>>) -> nat
    decreases events.len(),
{
    if events.len() == 0 {
        0
    } else {
        let earlier = events.drop_last();
        chances(m, earlier) + if events.last() is Process && run(m, earlier).has_capacity() {
            1nat
        } else {
            0
        }
    }
}

/// Whether the event adds a download that is more urgent than `priority`.
pub open spec fn is_more_urgent<C>(e: ManagerEvent<C>, priority: DownloadPriority) -> bool {
    e matches ManagerEvent::Enqueue(_, _, wanted, _) && rank(
        match wanted {
            Some(p) => p,
            None => DownloadPriority::Normal,
        },
    ) > rank(priority)
}

/// How many downloads that are more urgent than `priority` the events add.
pub open spec fn newcomers<C>(events: Seq<ManagerEvent<C>>, priority: DownloadPriority) -> nat
    decreases events.len(),
{
    if events.len() == 0 {
        0
    } else {
        newcomers(events.drop_last(), priority) + if is_more_urgent(events.last(), priority) {
            1nat
        } else {
            0
        }
    }
}

/// How many tasks of the queue are served before `task`.
pub open spec fn ahead<C>(queue: Seq<DownloadTask<C>>, task: DownloadTask<C>) -> nat
    decreases queue.len(),
{
    if queue.len() == 0 {
        0
    } else {
        ahead(queue.drop_last(), task) + if before(queue.last(), task) {
            1nat
        } else {
            0
        }
    }
}

proof fn lemma_ahead_remove<C>(queue: Seq<DownloadTask<C>>, task: DownloadTask<C>, k: int)
    requires
        0 <= k < queue.len(),
    ensures
        ahead(queue.remove(k), task) == ahead(queue, task) - if before(queue[k], task) {
            1int
        } else {
            0
        },
    decreases queue.len(),
{
    let rest = queue.drop_last();
    if k == queue.len() - 1 {
        assert(queue.remove(k) =~= rest);
    } else {
        lemma_ahead_remove(rest, task, k);
        assert(queue.remove(k).drop_last() =~= rest.remove(k));
        assert(queue.remove(k).last() == queue.last());
    }
}

/// What one event does to a task that waits: it is started, or it goes on waiting, and then
/// a chance has brought it one place forward and a more urgent newcomer one place back.
proof fn lemma_waiting_step<C>(m: ManagerView<C>, e: ManagerEvent<C>, task: DownloadTask<C>)
    requires
        m.wf(),
        m.next_id < u64::MAX,
        m.queue.contains(task),
        e != ManagerEvent::<C>::Cancel(task.id),
        !starts(m, e, task.id),
    ensures
        step(m, e).queue.contains(task),
        ahead(step(m, e).queue, task) + if e is Process && m.has_capacity() {
            1nat
        } else {
            0
        } <= ahead(m.queue, task) + if is_more_urgent(e, task.priority) {
            1nat
        } else {
            0
        },
{
    let p = choose|p: int| 0 <= p < m.queue.len() && m.queue[p] == task;
    let n = step(m, e);
    match e {
        ManagerEvent::Enqueue(url, destination, priority, callback) => {
            assert(n.queue.drop_last() =~= m.queue);
            assert(n.queue[p] == task);
            assert(m.statuses.contains_key(m.queue[p].id));
        },
        ManagerEvent::Process => {
            if m.has_capacity() {
                lemma_next_exists(m.queue);
                let k = next_index(m.queue);
                lemma_ahead_remove(m.queue, task, k);
                assert(before(m.queue[k], m.queue[p]));
                let q = if p < k { p } else { p - 1 };
                assert(n.queue[q] == task);
            } else {
                assert(n.queue[p] == task);
            }
        },
        ManagerEvent::Cancel(id) => {
            let k = lemma_cancel_queue(m, id);
            if m.can_cancel(id) && m.is_queued(id) {
                lemma_ahead_remove(m.queue, task, k);
                let q = if p < k { p } else { p - 1 };
                assert(n.queue[q] == task);
            } else {
                assert(n.queue[p] == task);
            }
        },
        _ => {
            assert(n.queue[p] == task);
        },
    }
}

/// A download is started once at most, however often and by however many the queue is
/// processed; and once it was started, it is not queued any more.
pub proof fn law_started_once_at_most<C>(
    m: ManagerView<C>,
    events: Seq<ManagerEvent<C>>,
    id: u64,
)
    requires
        m.wf(),
        m.next_id + events.len() <= u64::MAX,
    ensures
        times_started(m, events, id) <= 1,
        times_started(m, events, id) > 0 ==> run(m, events).statuses.contains_key(id) && !run(
            m,
            events,
        ).is_queued(id),
    decreases events.len(),
{
    if events.len() > 0 {
        let earlier = run(m, events.drop_last());
        let e = events.last();
        law_started_once_at_most(m, events.drop_last(), id);
        law_run_keeps_wf(m, events.drop_last());
        law_step_keeps_wf(earlier, e);
        if starts(earlier, e, id) {
            lemma_next_exists(earlier.queue);
            assert(earlier.queue[next_index(earlier.queue)].id == id);
            assert(earlier.is_queued(id));
            law_processing_gets_on(earlier);
            assert(earlier.statuses.contains_key(id));
        }
        if times_started(m, events.drop_last(), id) > 0 {
            assert(id < earlier.next_id);
            law_status_changes(earlier, e, id);
            law_no_download_is_lost(earlier, id);
            law_no_download_is_lost(step(earlier, e), id);
        }
    }
}

/// A queued task stays what it was, whatever happens: the task that is started under its ID
/// has its URL, its destination, its priority and its callback, and the configuration that
/// it is started under is that of the manager.
pub proof fn law_queued_task_is_kept<C>(
    m: ManagerView<C>,
    events: Seq<ManagerEvent<C>>,
    task: DownloadTask<C>,
    i: int,
)
    requires
        m.wf(),
        m.next_id + events.len() <= u64::MAX,
        m.queue.contains(task),
        0 <= i < run(m, events).queue.len(),
        run(m, events).queue[i].id == task.id,
    ensures
        run(m, events).queue[i] == task,
        run(m, events).config == m.config,
    decreases events.len(),
{
    law_run_keeps_wf(m, events);
    let p = choose|p: int| 0 <= p < m.queue.len() && m.queue[p] == task;
    if events.len() == 0 {
        assert(i < p ==> m.queue[i].id < m.queue[p].id);
        assert(i > p ==> m.queue[p].id < m.queue[i].id);
    } else {
        let earlier = run(m, events.drop_last());
        let e = events.last();
        let n = run(m, events);
        law_run_keeps_wf(m, events.drop_last());
        assert(m.statuses.contains_key(m.queue[p].id));
        assert(task.id < earlier.next_id);
        lemma_queue_shrinks(earlier, e, i);
        let j = choose|j: int| 0 <= j < earlier.queue.len() && earlier.queue[j] == n.queue[i];
        law_queued_task_is_kept(m, events.drop_last(), task, j);
    }
}

/// A queued task other than a new one was queued before.
proof fn lemma_queue_shrinks<C>(m: ManagerView<C>, e: ManagerEvent<C>, i: int)
    requires
        m.wf(),
        m.next_id < u64::MAX,
        0 <= i < step(m, e).queue.len(),
        step(m, e).queue[i].id < m.next_id,
    ensures
        m.queue.contains(step(m, e).queue[i]),
{
    let n = step(m, e);
    match e {
        ManagerEvent::Enqueue(..) => {
            assert(n.queue[i] == m.queue[i]);
        },
        ManagerEvent::Process => {
            if m.has_capacity() && m.queue.len() > 0 {
                lemma_next_exists(m.queue);
                let k = next_index(m.queue);
                let j = if i < k { i } else { i + 1 };
                assert(n.queue[i] == m.queue[j]);
            } else {
                assert(n.queue[i] == m.queue[i]);
            }
        },
        ManagerEvent::Cancel(id) => {
            let k = lemma_cancel_queue(m, id);
            if m.can_cancel(id) && m.is_queued(id) {
                let j = if i < k { i } else { i + 1 };
                assert(n.queue[i] == m.queue[j]);
            } else {
                assert(n.queue[i] == m.queue[i]);
            }
        },
        _ => {
            assert(n.queue[i] == m.queue[i]);
        },
    }
}

proof fn lemma_waiting<C>(
    m: ManagerView<C>,
    events: Seq<ManagerEvent<C>>,
    task: DownloadTask<C>,
)
    requires
        m.wf(),
        m.next_id + events.len() <= u64::MAX,
        m.queue.contains(task),
        forall|k: int|
            0 <= k < events.len() ==> #[trigger] events[k] != ManagerEvent::<C>::Cancel(task.id),
    ensures
        times_started(m, events, task.id) == 0 ==> run(m, events).queue.contains(task) && ahead(
            run(m, events).queue,
            task,
        ) + chances(m, events) <= ahead(m.queue, task) + newcomers(events, task.priority),
    decreases events.len(),
{
    if events.len() > 0 && times_started(m, events, task.id) == 0 {
        let earlier = events.drop_last();
        assert forall|k: int| 0 <= k < earlier.len() implies #[trigger] earlier[k]
            != ManagerEvent::<C>::Cancel(task.id) by {
            assert(earlier[k] == events[k]);
        }
        lemma_waiting(m, earlier, task);
        law_run_keeps_wf(m, earlier);
        assert(events[events.len() - 1] == events.last());
        lemma_waiting_step(run(m, earlier), events.last(), task);
    }
}

/// Every task that is not canceled is started, and once only. It is started at the latest
/// when the queue has been processed, at times when a further download may start, once more
/// often than there were tasks ahead of it and more urgent ones added since.
pub proof fn law_every_task_is_started<C>(
    m: ManagerView<C>,
    events: Seq<ManagerEvent<C>>,
    task: DownloadTask<C>,
)
    requires
        m.wf(),
        m.next_id + events.len() <= u64::MAX,
        m.queue.contains(task),
        forall|k: int|
            0 <= k < events.len() ==> #[trigger] events[k] != ManagerEvent::<C>::Cancel(task.id),
        chances(m, events) > ahead(m.queue, task) + newcomers(events, task.priority),
    ensures
        times_started(m, events, task.id) == 1,
        !run(m, events).is_queued(task.id),
{
    lemma_waiting(m, events, task);
    law_started_once_at_most(m, events, task.id);
}

/// The chances come: if downloads are allowed at all, then either one may start, or one runs
/// whose end, however it comes about, lets the next one start.
pub proof fn law_end_makes_room<C>(m: ManagerView<C>, id: u64, outcome: Result<(), String>)
    requires
        m.wf(),
        m.config.max_concurrent_downloads >= 1,
    ensures
        !m.has_capacity() ==> exists|running: u64|
            m.active.contains(running) || m.stopping.contains(running),
        m.active.contains(id) || m.stopping.contains(id) ==> m.finish(id, outcome).has_capacity(),
{
    if !m.has_capacity() {
        if m.active.len() > 0 {
            assert(m.active.contains(m.active.choose()));
        } else {
            assert(m.stopping.contains(m.stopping.choose()));
        }
    }
}

/// A canceled download keeps its place until it has ended, and its end changes no status:
/// the number of downloads that run stays the same when one is canceled, and is one less
/// when that one has ended.
pub proof fn law_canceled_keeps_its_place<C>(
    m: ManagerView<C>,
    id: u64,
    outcome: Result<(), String>,
)
    requires
        m.wf(),
        m.active.contains(id),
    ensures
        m.cancel(id).running() == m.running(),
        m.cancel(id).stopping.contains(id),
        m.cancel(id).finish(id, outcome).running() == m.running() - 1,
        m.cancel(id).finish(id, outcome).statuses == m.cancel(id).statuses,
{
    assert(!m.stopping.contains(id));
}

/// The segments that a download has under way never hold more than the buffer that the
/// configuration grants it, if one segment fits into that.
pub proof fn law_buffer_holds_segments(
    config: ManagerConfig,
    content_length: nat,
    parts: Option<Seq<char>>,
    under_way: Seq<int>,
)
    requires
        0 < config.segment_size <= config.max_buffer_size,
        content_length <= u64::MAX,
        forall|k: int|
            0 <= k < under_way.len() ==> 0 <= #[trigger] under_way[k] < segment_count(
                content_length,
                config.segment_size as nat,
            ),
        under_way.len() <= managed_plan(config, content_length, parts).parallel_count,
    ensures
        bytes_under_way(managed_plan(config, content_length, parts).ranges(), under_way)
            <= config.max_buffer_size,
{
    let size = config.segment_size as nat;
    let fitting = config.max_buffer_size as nat / size;
    law_segments_in_memory(content_length, size, under_way);
    assert(under_way.len() * size <= fitting * size) by (nonlinear_arith)
        requires
            under_way.len() <= fitting,
    ;
    vstd::arithmetic::div_mod::lemma_fundamental_div_mod(
        config.max_buffer_size as int,
        size as int,
    );
    vstd::arithmetic::mul::lemma_mul_is_commutative(fitting as int, size as int);
}

/// A download in segments as it begins under the configuration of a manager.
pub open spec fn managed_plan(
    config: ManagerConfig,
    content_length: nat,
    parts: Option<Seq<char>>,
) -> SegmentedView {
    planned(
        parallel_within(
            config.parallel_segments as nat,
            config.segment_size as nat,
            Some(config.max_buffer_size),
        ),
        config.segment_size as nat,
        content_length,
        parts,
    )
}

/// A download still gets on: if parallel segments are wanted at all and a segment is
/// missing, then one at least is downloaded, however small the buffer is.
pub proof fn law_small_buffer_does_not_stop(
    config: ManagerConfig,
    content_length: nat,
    parts: Option<Seq<char>>,
)
    requires
        config.segment_size > 0,
        config.parallel_segments > 0,
        unmarked(managed_plan(config, content_length, parts).downloaded).len() > 0,
    ensures
        managed_plan(config, content_length, parts).parallel_count >= 1,
{
    let size = config.segment_size as nat;
    let plan = managed_plan(config, content_length, parts);
    law_pending_is_what_is_missing(plan.downloaded, 0);
    law_segment_count(content_length, size);
    law_optimal_segments_bounds(content_length, size);
    if config.max_buffer_size >= config.segment_size {
        vstd::arithmetic::div_mod::lemma_div_non_zero(
            config.max_buffer_size as int,
            size as int,
        );
    }
}

/// Whether `p` is strictly more urgent than `q`: critical before high, high before normal,
/// normal before low.
pub open spec fn outranks(p: DownloadPriority, q: DownloadPriority) -> bool {
    match p {
        DownloadPriority::Critical => !(q is Critical),
        DownloadPriority::High => q is Normal || q is Low,
        DownloadPriority::Normal => q is Low,
        DownloadPriority::Low => false,
    }
}

/// Priority comes before age: a task of a higher priority is served before one of a lower,
/// whatever their IDs; and of two tasks of one priority the one with the smaller ID is. No
/// other task is served before another.
pub proof fn law_priority_before_age<C>(a: DownloadTask<C>, b: DownloadTask<C>)
    ensures
        outranks(a.priority, b.priority) ==> before(a, b) && !before(b, a),
        a.priority == b.priority ==> (before(a, b) <==> a.id < b.id),
        rank(a.priority) > rank(b.priority) ==> before(a, b),
        rank(a.priority) > rank(b.priority) <==> outranks(a.priority, b.priority),
{
}

/// Comparing two tasks tells which one is served first: less is the one of the higher
/// priority, or of one priority the older; the other way round it is greater; and only tasks
/// with the same priority and the same ID compare as equal.
pub proof fn law_comparison<C>(a: DownloadTask<C>, b: DownloadTask<C>)
    ensures
        task_order(a, b) is Less <==> outranks(a.priority, b.priority) || a.priority == b.priority
            && a.id < b.id,
        task_order(a, b) is Greater <==> outranks(b.priority, a.priority) || a.priority
            == b.priority && a.id > b.id,
        task_order(a, b) is Equal <==> a.priority == b.priority && a.id == b.id,
{
}

/// Two tasks are the same exactly if their IDs are, whatever else they hold; and they are
/// ordered as they are compared.
pub proof fn law_same_task_by_id<C>(a: DownloadTask<C>, b: DownloadTask<C>)
    ensures
        vstd::std_specs::cmp::PartialEqSpec::eq_spec(&a, &b) <==> a.id == b.id,
        vstd::std_specs::cmp::PartialOrdSpec::partial_cmp_spec(&a, &b) == Some(task_order(a, b)),
{
}

/// The numbers of the priorities are 0 to 3, the more urgent the higher; each of them is read
/// back as its priority, and every other number as the normal one.
pub proof fn law_priority_numbers(p: DownloadPriority, q: DownloadPriority, value: int)
    ensures
        0 <= rank(p) <= 3,
        outranks(p, q) <==> rank(p) > rank(q),
        0 <= value <= 3 ==> rank(priority_of(value)) == value,
        !(0 <= value <= 3) ==> priority_of(value) is Normal,
{
}

/// A download is over exactly if it is neither queued nor in progress.
pub proof fn law_final_statuses(status: DownloadStatus)
    ensures
        is_final(status) <==> !(status is Queued) && !(status is Downloading),
{
}

/// What a report does: the status of the download in progress is exactly what was reported,
/// whatever was reported before, so of several reports the last one stands. Nothing else
/// changes, and a download that is not in progress cannot report.
pub proof fn law_last_report_stands<C>(
    m: ManagerView<C>,
    id: u64,
    earlier: (u64, u64),
    downloaded: u64,
    total: u64,
    other: u64,
)
    ensures
        ({
            let n = m.progress(id, downloaded, total);
            let after_earlier = m.progress(id, earlier.0, earlier.1);
            let said = DownloadStatus::Downloading {
                downloaded_bytes: downloaded,
                total_bytes: total,
            };
            &&& m.active.contains(id) ==> n.statuses[id] == said && n.statuses.contains_key(id)
            &&& after_earlier.progress(id, downloaded, total) == n
            &&& !m.active.contains(id) ==> n == m
            &&& other != id ==> n.statuses[other] == m.statuses[other] && (n.statuses.contains_key(
                other,
            ) <==> m.statuses.contains_key(other))
            &&& n.queue == m.queue && n.active == m.active && n.stopping == m.stopping && n.next_id
                == m.next_id && n.config == m.config
        }),
{
    let n = m.progress(id, downloaded, total);
    let after_earlier = m.progress(id, earlier.0, earlier.1);
    assert(after_earlier.progress(id, downloaded, total) =~= n);
}

/// Whether the event is about the download.
pub open spec fn concerns<C>(e: ManagerEvent<C>, id: u64) -> bool {
    match e {
        ManagerEvent::Progress(k, _, _) => k == id,
        ManagerEvent::Finish(k, _) => k == id,
        ManagerEvent::Cancel(k) => k == id,
        _ => false,
    }
}

/// What a download has reported stands until something happens to that download, whatever
/// happens to the others.
pub proof fn law_report_stands_until_the_next<C>(
    m: ManagerView<C>,
    id: u64,
    downloaded: u64,
    total: u64,
    events: Seq<ManagerEvent<C>>,
)
    requires
        m.wf(),
        m.next_id + events.len() <= u64::MAX,
        m.active.contains(id),
        forall|k: int| 0 <= k < events.len() ==> !concerns(#[trigger] events[k], id),
    ensures
        run(m.progress(id, downloaded, total), events).statuses[id]
            == (DownloadStatus::Downloading { downloaded_bytes: downloaded, total_bytes: total }),
        run(m.progress(id, downloaded, total), events).active.contains(id),
    decreases events.len(),
{
    let first = m.progress(id, downloaded, total);
    lemma_progress_wf(m, id, downloaded, total);
    if events.len() > 0 {
        let earlier = events.drop_last();
        assert forall|k: int| 0 <= k < earlier.len() implies !concerns(
            #[trigger] earlier[k],
            id,
        ) by {
            assert(earlier[k] == events[k]);
        }
        law_report_stands_until_the_next(m, id, downloaded, total, earlier);
        law_run_keeps_wf(first, earlier);
        assert(events[events.len() - 1] == events.last());
        let n = run(first, earlier);
        assert(n.statuses.contains_key(id));
        if n.has_capacity() && n.queue.len() > 0 {
            lemma_next_exists(n.queue);
            assert(n.statuses[n.queue[next_index(n.queue)].id] is Queued);
        }
    }
}

/// What adding a download does: it goes behind all others with what it was given, under the
/// next ID, with the normal priority if it was given none, and is then queued. Nothing
/// changes for the others.
pub proof fn law_enqueue<C>(
    m: ManagerView<C>,
    url: String,
    destination: PathBuf,
    priority: Option<DownloadPriority>,
    callback: Option<C>,
    other: u64,
)
    requires
        m.wf(),
        m.next_id < u64::MAX,
    ensures
        ({
            let n = m.enqueue(url, destination, priority, callback);
            let task = n.queue.last();
            &&& n.queue.drop_last() == m.queue && n.queue.len() == m.queue.len() + 1
            &&& task.id == m.next_id && n.next_id == m.next_id + 1
            &&& task.url == url && task.destination == destination && task.progress_callback
                == callback
            &&& priority is Some ==> task.priority == priority->0
            &&& priority is None ==> task.priority is Normal
            &&& n.statuses.contains_key(task.id) && n.statuses[task.id] is Queued
            &&& other != task.id ==> n.statuses[other] == m.statuses[other] && (
            n.statuses.contains_key(other) <==> m.statuses.contains_key(other))
            &&& n.active == m.active && n.stopping == m.stopping && n.config == m.config
        }),
{
    let n = m.enqueue(url, destination, priority, callback);
    assert(n.queue.drop_last() =~= m.queue);
}

/// What processing the queue does: a download is started if and only if one is queued and
/// fewer run than are allowed. It is one that is served before all others, it leaves the
/// queue, and it is then in progress with nothing downloaded. Nothing changes for the others.
pub proof fn law_process<C>(m: ManagerView<C>, other: u64)
    requires
        m.wf(),
    ensures
        m.running() == m.active.len() + m.stopping.len(),
        m.has_capacity() <==> m.active.len() + m.stopping.len()
            < m.config.max_concurrent_downloads,
        ({
            let n = m.process();
            let k = next_index(m.queue);
            let task = m.queue[k];
            if m.queue.len() > 0 && m.active.len() + m.stopping.len()
                < m.config.max_concurrent_downloads {
                &&& 0 <= k < m.queue.len()
                &&& forall|j: int|
                    0 <= j < m.queue.len() && j != k ==> outranks(
                        task.priority,
                        (#[trigger] m.queue[j]).priority,
                    ) || task.priority == m.queue[j].priority && task.id < m.queue[j].id
                &&& n.queue == m.queue.remove(k)
                &&& n.statuses[task.id] == (DownloadStatus::Downloading {
                    downloaded_bytes: 0,
                    total_bytes: 0,
                })
                &&& n.active == m.active.insert(task.id)
                &&& other != task.id ==> n.statuses[other] == m.statuses[other]
                &&& n.stopping == m.stopping && n.next_id == m.next_id && n.config == m.config
            } else {
                n == m
            }
        }),
{
    if m.queue.len() > 0 {
        lemma_next_exists(m.queue);
    }
}

/// What the end of a download does: one in progress completes or fails with the given reason;
/// one that was canceled stays so; and either gives its place back. Nothing changes for the
/// others, and an end that nobody waits for changes nothing.
pub proof fn law_finish<C>(m: ManagerView<C>, id: u64, reason: String, other: u64)
    requires
        m.wf(),
    ensures
        ({
            let done = m.finish(id, Ok(()));
            let failed = m.finish(id, Err(reason));
            &&& m.active.contains(id) ==> done.statuses[id] is Completed && failed.statuses[id]
                == (DownloadStatus::Failed { reason })
            &&& !m.active.contains(id) ==> done.statuses == m.statuses && failed.statuses
                == m.statuses
            &&& m.active.contains(id) || m.stopping.contains(id) ==> done.running() == m.running()
                - 1 && failed.running() == m.running() - 1
            &&& !m.active.contains(id) && !m.stopping.contains(id) ==> done == m && failed == m
            &&& !done.active.contains(id) && !done.stopping.contains(id)
            &&& other != id ==> done.statuses[other] == m.statuses[other] && failed.statuses[other]
                == m.statuses[other] && (done.active.contains(other) <==> m.active.contains(other))
                && (done.stopping.contains(other) <==> m.stopping.contains(other))
            &&& done.queue == m.queue && failed.queue == m.queue
            &&& done.next_id == m.next_id && done.config == m.config
            &&& failed.active == done.active && failed.stopping == done.stopping && failed.next_id
                == m.next_id && failed.config == m.config
        }),
{
    let done = m.finish(id, Ok(()));
    let failed = m.finish(id, Err(reason));
    if m.active.contains(id) {
        assert(!m.stopping.contains(id));
    } else if !m.stopping.contains(id) {
        assert(m.stopping.remove(id) =~= m.stopping);
        assert(done =~= m);
        assert(failed =~= m);
    }
}

/// What canceling does: it succeeds exactly for a download that is queued or in progress,
/// which then is canceled and in neither of these places. Otherwise nothing changes.
pub proof fn law_cancel<C>(m: ManagerView<C>, id: u64)
    requires
        m.wf(),
    ensures
        m.can_cancel(id) <==> m.is_queued(id) || m.active.contains(id),
        m.can_cancel(id) <==> m.statuses.contains_key(id) && (m.statuses[id] is Queued
            || m.statuses[id] is Downloading),
        m.can_cancel(id) ==> m.cancel(id).statuses[id] is Canceled && !m.cancel(id).is_queued(id)
            && !m.cancel(id).active.contains(id),
        m.can_cancel(id) ==> (m.cancel(id).stopping.contains(id) <==> m.active.contains(id)),
        !m.can_cancel(id) ==> m.cancel(id) == m,
        m.cancel(id).next_id == m.next_id,
        m.cancel(id).config == m.config,
{
    lemma_cancel_wf(m, id);
    if m.can_cancel(id) {
        assert(m.statuses.contains_key(id));
        law_no_download_is_lost(m.cancel(id), id);
        assert(m.stopping.contains(id) ==> m.statuses[id] is Canceled);
    }
}

/// A download is started with everything that its task and the configuration say.
pub proof fn law_launch_carries_everything<C>(
    launch: Launch<C>,
    task: DownloadTask<C>,
    config: ManagerConfig,
)
    ensures
        launches(launch, task, config) <==> launch.id == task.id && launch.destination
            == task.destination && launch.fetcher.url@ == task.url@
            && launch.fetcher.progress_callback == task.progress_callback
            && launch.fetcher.segment_size == config.segment_size
            && launch.fetcher.parallel_segments == config.parallel_segments
            && launch.fetcher.retry_attempts == config.retry_attempts
            && launch.fetcher.max_buffer_size == Some(config.max_buffer_size),
{
}

/// A new manager has no downloads, and its first one gets the ID zero.
pub proof fn law_new_manager<C>(config: ManagerConfig, id: u64)
    ensures
        new_manager::<C>(config).wf(),
        !new_manager::<C>(config).statuses.contains_key(id),
        !new_manager::<C>(config).is_queued(id),
        new_manager::<C>(config).running() == 0,
        new_manager::<C>(config).next_id == 0,
        new_manager::<C>(config).config == config,
{
}

} // verus!
