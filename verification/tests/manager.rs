use std::cmp::Ordering;
use std::path::PathBuf;
use yt_fetcher::fetcher::download_manager::{
    DownloadManager, DownloadPriority, DownloadStatus, DownloadTask, Launch, ManagerConfig,
    QueueStep, WaitStep,
};

fn config(max_concurrent_downloads: usize) -> ManagerConfig {
    ManagerConfig { max_concurrent_downloads, ..ManagerConfig::default() }
}

fn manager(max: usize) -> DownloadManager<u32> {
    DownloadManager::with_config(config(max))
}

fn add(m: &mut DownloadManager<u32>, priority: Option<DownloadPriority>) -> u64 {
    m.enqueue("http://a/b".to_string(), PathBuf::from("/tmp/b"), priority)
}

fn start(m: &mut DownloadManager<u32>) -> Launch<u32> {
    match m.process_queue() {
        QueueStep::Start(launch) => launch,
        _ => panic!("nothing was started"),
    }
}

fn progress(downloaded_bytes: u64, total_bytes: u64) -> Option<DownloadStatus> {
    Some(DownloadStatus::Downloading { downloaded_bytes, total_bytes })
}

fn task(id: u64, priority: DownloadPriority) -> DownloadTask<u32> {
    DownloadTask {
        url: "u".to_string(),
        destination: PathBuf::from("d"),
        priority,
        id,
        progress_callback: None,
    }
}

#[test]
fn priorities_by_number() {
    assert_eq!(DownloadPriority::from_i32(0), DownloadPriority::Low);
    assert_eq!(DownloadPriority::from_i32(1), DownloadPriority::Normal);
    assert_eq!(DownloadPriority::from_i32(2), DownloadPriority::High);
    assert_eq!(DownloadPriority::from_i32(3), DownloadPriority::Critical);
    assert_eq!(DownloadPriority::from_i32(4), DownloadPriority::Normal);
    assert_eq!(DownloadPriority::from_i32(-1), DownloadPriority::Normal);
    for n in 0..4 {
        assert_eq!(DownloadPriority::from_i32(n).as_i32(), n);
    }
}

#[test]
fn order_of_tasks() {
    let low = task(0, DownloadPriority::Low);
    let high = task(5, DownloadPriority::High);
    let later = task(6, DownloadPriority::High);
    assert_eq!(high.cmp(&low), Ordering::Less);
    assert_eq!(low.cmp(&high), Ordering::Greater);
    assert_eq!(high.cmp(&later), Ordering::Less);
    assert_eq!(later.cmp(&high), Ordering::Greater);
    assert_eq!(high.cmp(&high), Ordering::Equal);
    assert_eq!(high.partial_cmp(&low), Some(Ordering::Less));
    assert!(high.is_before(&low) && !low.is_before(&high));
}

#[test]
fn tasks_are_equal_by_id() {
    assert!(task(3, DownloadPriority::Low) == task(3, DownloadPriority::High));
    assert!(task(3, DownloadPriority::Low) != task(4, DownloadPriority::Low));
}

#[test]
fn default_settings() {
    let c = ManagerConfig::default();
    assert_eq!(c.max_concurrent_downloads, 3);
    assert_eq!(c.segment_size, 1024 * 1024 * 5);
    assert_eq!(c.parallel_segments, 4);
    assert_eq!(c.retry_attempts, 3);
    assert_eq!(c.max_buffer_size, 1024 * 1024 * 10);
}

#[test]
fn new_manager_is_idle() {
    let mut m = DownloadManager::<u32>::new();
    assert!(m.queue_is_empty());
    assert_eq!(m.next_id(), 0);
    assert!(matches!(m.process_queue(), QueueStep::Idle));
    let mut other = DownloadManager::<u32>::default();
    assert!(matches!(other.process_queue(), QueueStep::Idle));
}

#[test]
fn default_manager_runs_three_at_a_time() {
    let mut m = DownloadManager::<u32>::new();
    for _ in 0..4 {
        add(&mut m, None);
    }
    for _ in 0..3 {
        start(&mut m);
    }
    assert!(matches!(m.process_queue(), QueueStep::Saturated));
}

#[test]
fn ids_are_given_in_order() {
    let mut m = manager(1);
    assert_eq!(add(&mut m, None), 0);
    assert_eq!(add(&mut m, None), 1);
    assert!(m.cancel(0));
    assert_eq!(add(&mut m, None), 2);
    assert_eq!(m.next_id(), 3);
}

#[test]
fn critical_runs_first() {
    let mut m = manager(10);
    let low = add(&mut m, Some(DownloadPriority::Low));
    let normal = add(&mut m, None);
    let critical = add(&mut m, Some(DownloadPriority::Critical));
    let high = add(&mut m, Some(DownloadPriority::High));
    let order: Vec<u64> = (0..4).map(|_| start(&mut m).id).collect();
    assert_eq!(order, vec![critical, high, normal, low]);
    assert!(m.queue_is_empty());
}

#[test]
fn older_runs_first_within_a_priority() {
    let mut m = manager(10);
    let ids: Vec<u64> = (0..4).map(|_| add(&mut m, Some(DownloadPriority::High))).collect();
    let order: Vec<u64> = (0..4).map(|_| start(&mut m).id).collect();
    assert_eq!(order, ids);
}

#[test]
fn missing_priority_is_normal() {
    let mut m = manager(10);
    let first = add(&mut m, None);
    let second = add(&mut m, Some(DownloadPriority::Normal));
    let low = add(&mut m, Some(DownloadPriority::Low));
    let order: Vec<u64> = (0..3).map(|_| start(&mut m).id).collect();
    assert_eq!(order, vec![first, second, low]);
}

#[test]
fn started_download_carries_its_task() {
    let mut m = DownloadManager::with_config(ManagerConfig {
        max_concurrent_downloads: 1,
        segment_size: 11,
        parallel_segments: 12,
        retry_attempts: 13,
        max_buffer_size: 14,
    });
    let id = m.enqueue_with_progress("http://x".to_string(), PathBuf::from("/y"), None, 42u32);
    let launch = start(&mut m);
    assert_eq!(launch.id, id);
    assert_eq!(launch.destination, PathBuf::from("/y"));
    assert_eq!(launch.fetcher.url, "http://x");
    assert_eq!(launch.fetcher.segment_size, 11);
    assert_eq!(launch.fetcher.parallel_segments, 12);
    assert_eq!(launch.fetcher.retry_attempts, 13);
    assert_eq!(launch.fetcher.max_buffer_size, Some(14));
    assert_eq!(launch.fetcher.progress_callback, Some(42));
    let plain = m.enqueue("http://z".to_string(), PathBuf::from("/z"), None);
    m.finish(id, Ok(()));
    let launch = start(&mut m);
    assert_eq!(launch.id, plain);
    assert_eq!(launch.fetcher.progress_callback, None);
}

#[test]
fn limit_is_kept() {
    let mut m = manager(2);
    for _ in 0..3 {
        add(&mut m, None);
    }
    let first = start(&mut m).id;
    start(&mut m);
    assert!(matches!(m.process_queue(), QueueStep::Saturated));
    m.finish(first, Ok(()));
    assert_eq!(start(&mut m).id, 2);
    assert!(matches!(m.process_queue(), QueueStep::Saturated));
}

#[test]
fn no_download_runs_without_permits() {
    let mut m = manager(0);
    add(&mut m, Some(DownloadPriority::Critical));
    assert!(matches!(m.process_queue(), QueueStep::Saturated));
    assert_eq!(m.get_status(0), Some(DownloadStatus::Queued));
}

#[test]
fn life_of_a_download() {
    let mut m = manager(1);
    assert_eq!(m.get_status(0), None);
    let id = add(&mut m, None);
    assert_eq!(m.get_status(id), Some(DownloadStatus::Queued));
    start(&mut m);
    assert_eq!(m.get_status(id), progress(0, 0));
    m.update_progress(id, 10, 100);
    assert_eq!(m.get_status(id), progress(10, 100));
    m.finish(id, Ok(()));
    assert_eq!(m.get_status(id), Some(DownloadStatus::Completed));
}

#[test]
fn failure_keeps_its_reason() {
    let mut m = manager(1);
    let id = add(&mut m, None);
    start(&mut m);
    m.finish(id, Err("no route".to_string()));
    assert_eq!(
        m.get_status(id),
        Some(DownloadStatus::Failed { reason: "no route".to_string() })
    );
}

#[test]
fn cancel_a_queued_download() {
    let mut m = manager(1);
    let first = add(&mut m, None);
    let second = add(&mut m, None);
    assert!(m.cancel(first));
    assert_eq!(m.get_status(first), Some(DownloadStatus::Canceled));
    assert_eq!(m.get_status(second), Some(DownloadStatus::Queued));
    assert_eq!(start(&mut m).id, second);
    assert!(m.queue_is_empty());
}

#[test]
fn cancel_a_running_download() {
    let mut m = manager(1);
    let first = add(&mut m, None);
    let second = add(&mut m, None);
    start(&mut m);
    assert!(m.cancel(first));
    assert_eq!(m.get_status(first), Some(DownloadStatus::Canceled));
    assert!(matches!(m.process_queue(), QueueStep::Saturated));
    m.finish(first, Err("aborted".to_string()));
    assert_eq!(m.get_status(first), Some(DownloadStatus::Canceled));
    assert_eq!(start(&mut m).id, second);
}

#[test]
fn canceled_download_keeps_its_place_until_it_ends() {
    let mut m = manager(2);
    let ids: Vec<u64> = (0..4).map(|_| add(&mut m, None)).collect();
    start(&mut m);
    start(&mut m);
    assert!(m.cancel(ids[0]));
    assert!(!m.cancel(ids[0]));
    m.update_progress(ids[0], 1, 2);
    assert!(matches!(m.process_queue(), QueueStep::Saturated));
    m.finish(ids[0], Ok(()));
    assert_eq!(m.get_status(ids[0]), Some(DownloadStatus::Canceled));
    assert_eq!(start(&mut m).id, ids[2]);
    m.finish(ids[0], Ok(()));
    assert!(matches!(m.process_queue(), QueueStep::Saturated));
}

#[test]
fn default_download_stays_within_its_buffer() {
    let mut m = DownloadManager::<u32>::new();
    add(&mut m, None);
    let fetcher = start(&mut m).fetcher;
    let plan = fetcher.plan_segments(100 * 1024 * 1024, None);
    let held: u64 = plan
        .pending()
        .iter()
        .take(plan.parallel_count())
        .map(|(_, r)| r.end - r.start + 1)
        .sum();
    assert_eq!(held, ManagerConfig::default().max_buffer_size as u64);
}

#[test]
fn cancel_is_refused_when_there_is_nothing_to_cancel() {
    let mut m = manager(1);
    assert!(!m.cancel(0));
    let id = add(&mut m, None);
    start(&mut m);
    m.finish(id, Ok(()));
    assert!(!m.cancel(id));
    assert_eq!(m.get_status(id), Some(DownloadStatus::Completed));
    let other = add(&mut m, None);
    assert!(m.cancel(other));
    assert!(!m.cancel(other));
}

#[test]
fn final_status_stays() {
    let mut m = manager(1);
    let id = add(&mut m, None);
    start(&mut m);
    m.cancel(id);
    m.update_progress(id, 5, 6);
    m.finish(id, Ok(()));
    assert_eq!(m.get_status(id), Some(DownloadStatus::Canceled));
}

#[test]
fn report_of_a_queued_download_is_ignored() {
    let mut m = manager(1);
    let id = add(&mut m, None);
    m.update_progress(id, 5, 6);
    m.finish(id, Ok(()));
    assert_eq!(m.get_status(id), Some(DownloadStatus::Queued));
}

#[test]
fn waiting() {
    let mut m = manager(1);
    assert!(m.wait_for_completion(0).is_none());
    let id = add(&mut m, None);
    assert!(matches!(m.wait_for_completion(id), Some(WaitStep::PollAgain(100))));
    start(&mut m);
    assert!(matches!(m.wait_for_completion(id), Some(WaitStep::PollAgain(100))));
    m.finish(id, Err("x".to_string()));
    match m.wait_for_completion(id) {
        Some(WaitStep::Finished(status)) => {
            assert_eq!(status, DownloadStatus::Failed { reason: "x".to_string() })
        }
        _ => panic!("the download is over"),
    }
}

#[test]
fn callback_in_words() {
    let mut t = task(1, DownloadPriority::Low);
    assert_eq!(t.callback_text(), "None");
    t.progress_callback = Some(5);
    assert_eq!(t.callback_text(), "Some(Fn)");
}

#[test]
fn every_task_is_started_once() {
    let mut m = manager(2);
    let mut ids: Vec<u64> = Vec::new();
    for n in 0..8 {
        ids.push(add(&mut m, Some(DownloadPriority::from_i32(n % 4))));
    }
    let mut started: Vec<u64> = Vec::new();
    let mut running: Vec<u64> = Vec::new();
    loop {
        while let QueueStep::Start(launch) = m.process_queue() {
            started.push(launch.id);
            running.push(launch.id);
        }
        if running.is_empty() {
            break;
        }
        m.finish(running.remove(0), Ok(()));
    }
    assert_eq!(started, vec![3, 7, 2, 6, 1, 5, 0, 4]);
    started.sort();
    assert_eq!(started, ids);
}

#[test]
fn end_of_a_download_makes_room() {
    let mut m = manager(1);
    let first = add(&mut m, None);
    let second = add(&mut m, None);
    let third = add(&mut m, None);
    start(&mut m);
    assert!(matches!(m.process_queue(), QueueStep::Saturated));
    m.finish(first, Err("x".to_string()));
    assert_eq!(start(&mut m).id, second);
    assert!(m.cancel(second));
    m.finish(second, Err("aborted".to_string()));
    assert_eq!(start(&mut m).id, third);
}
