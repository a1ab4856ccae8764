use yt_fetcher::error::Error;
use yt_fetcher::fetcher::request::ByteRange;
use yt_fetcher::fetcher::retry::{backoff, RetryLoop};
use yt_fetcher::fetcher::segment_task::{Phase, SegmentAction, SegmentEvent, SegmentTask};

#[test]
fn backoff_doubles() {
    assert_eq!(backoff(0), 250);
    assert_eq!(backoff(1), 500);
    assert_eq!(backoff(5), 8000);
    assert_eq!(backoff(56), 250 * 2u64.pow(56));
}

#[test]
fn three_attempts() {
    let mut attempts = RetryLoop::new(3);
    assert!(attempts.may_try());
    assert_eq!(attempts.failed(), Some(250));
    assert!(attempts.may_try());
    assert_eq!(attempts.failed(), Some(500));
    assert!(attempts.may_try());
    assert_eq!(attempts.failed(), None);
    assert!(!attempts.may_try());
}

#[test]
fn waits_add_up() {
    let mut total = 0;
    for attempt in 0..10 {
        assert_eq!(total + 250, backoff(attempt));
        total += backoff(attempt);
    }
}

#[test]
fn no_attempt_at_all() {
    let attempts = RetryLoop::new(0);
    assert!(!attempts.may_try());
    assert_eq!(
        attempts.exhausted(),
        Error::Unknown("Failed to download segment after 0 attempts".to_string())
    );
}

fn begin(retry_attempts: usize) -> (SegmentTask, SegmentAction) {
    SegmentTask::begin(ByteRange { start: 100, end: 149 }, retry_attempts)
}

#[test]
fn segment_is_sampled_downloaded_and_recorded() {
    let (mut task, first) = begin(3);
    assert_eq!(first, SegmentAction::ReadSample(50));
    assert_eq!(task.step(SegmentEvent::Sampled(50, vec![0; 50])), SegmentAction::Download);
    assert_eq!(task.step(SegmentEvent::Downloaded), SegmentAction::Record);
    assert_eq!(task.phase, Phase::Done);
}

#[test]
fn segment_that_is_there_is_not_downloaded() {
    let (mut task, _) = begin(3);
    let mut sample = vec![0; 50];
    sample[7] = 1;
    assert_eq!(task.step(SegmentEvent::Sampled(50, sample)), SegmentAction::Record);
}

#[test]
fn segment_is_given_up_after_the_last_attempt() {
    let (mut task, _) = begin(2);
    assert_eq!(task.step(SegmentEvent::Failed), SegmentAction::Wait(250));
    assert_eq!(task.step(SegmentEvent::Waited), SegmentAction::ReadSample(50));
    assert_eq!(task.step(SegmentEvent::Sampled(0, vec![0; 50])), SegmentAction::Download);
    assert_eq!(task.step(SegmentEvent::Failed), SegmentAction::GiveUp);
    assert_eq!(task.phase, Phase::Failed);
    assert_eq!(task.attempts.attempt, 2);
}

#[test]
fn segment_without_attempts_is_exhausted() {
    let (task, first) = begin(0);
    assert_eq!(first, SegmentAction::Exhausted);
    assert_eq!(
        task.exhausted(),
        Error::Unknown("Failed to download segment after 0 attempts".to_string())
    );
}

#[test]
fn segment_is_attempted_as_often_as_allowed() {
    for allowed in 1..6 {
        let (mut task, mut action) = begin(allowed);
        let mut begun = 0;
        let mut events = 0;
        while action != SegmentAction::GiveUp {
            let event = match action {
                SegmentAction::ReadSample(n) => {
                    begun += 1;
                    SegmentEvent::Sampled(n, vec![0; n])
                }
                SegmentAction::Wait(_) => SegmentEvent::Waited,
                _ => SegmentEvent::Failed,
            };
            action = task.step(event);
            events += 1;
        }
        assert_eq!(begun, allowed);
        assert!(events <= 3 * allowed);
    }
}
