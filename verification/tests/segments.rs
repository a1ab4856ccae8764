use yt_fetcher::fetcher::parts::{format_parts_line, parts_path, read_parts};
use yt_fetcher::fetcher::request::{decide_fetch, ByteRange, FetchPlan};
use yt_fetcher::fetcher::segments::{is_segment_empty, sample_len, split_ranges, SegmentedEnd};
use yt_fetcher::fetcher::Fetcher;

const MB: u64 = 1024 * 1024;

fn range(start: u64, end: u64) -> ByteRange {
    ByteRange { start, end }
}

#[test]
fn ranges_of_a_file() {
    assert_eq!(split_ranges(25, 10), vec![range(0, 9), range(10, 19), range(20, 24)]);
    assert_eq!(split_ranges(20, 10), vec![range(0, 9), range(10, 19)]);
    assert_eq!(split_ranges(1, 10), vec![range(0, 0)]);
    assert_eq!(split_ranges(0, 10), vec![]);
}

#[test]
fn ranges_at_the_end_of_the_number_range() {
    let ranges = split_ranges(u64::MAX, u64::MAX - 1);
    assert_eq!(ranges, vec![range(0, u64::MAX - 2), range(u64::MAX - 1, u64::MAX - 1)]);
}

#[test]
fn ranges_cover_every_byte_once() {
    for length in 0u64..40 {
        for size in 1u64..12 {
            let mut next = 0;
            for r in split_ranges(length, size) {
                assert_eq!(r.start, next);
                assert!(r.start <= r.end && r.end - r.start < size);
                next = r.end + 1;
            }
            assert_eq!(next, length);
        }
    }
}

#[test]
fn optimal_segments_follow_the_file_size() {
    let fetcher = Fetcher::<()>::new("u").with_segment_size(1024 * 1024);
    assert_eq!(fetcher.calculate_optimal_segments(0), 0);
    assert_eq!(fetcher.calculate_optimal_segments(1), 1);
    assert_eq!(fetcher.calculate_optimal_segments(10 * MB - 1), 1);
    assert_eq!(fetcher.calculate_optimal_segments(10 * MB), 2);
    assert_eq!(fetcher.calculate_optimal_segments(50 * MB), 4);
    assert_eq!(fetcher.calculate_optimal_segments(100 * MB), 8);
    assert_eq!(fetcher.calculate_optimal_segments(500 * MB), 12);
    assert_eq!(fetcher.calculate_optimal_segments(1000 * MB), 16);
    assert_eq!(fetcher.calculate_optimal_segments(2000 * MB), 24);
    let coarse = Fetcher::<()>::new("u").with_segment_size(1024 * 1024 * 1024);
    assert_eq!(coarse.calculate_optimal_segments(2000 * MB), 2);
}

#[test]
fn fresh_download_has_everything_to_do() {
    let fetcher = Fetcher::<()>::new("u").with_segment_size(10);
    let plan = fetcher.plan_segments(25, None);
    assert_eq!(plan.segment_count(), 3);
    assert_eq!(plan.total_bytes(), 25);
    assert_eq!(plan.downloaded_bytes(), 0);
    assert_eq!(plan.parallel_count(), 1);
    assert_eq!(plan.pending(), vec![(0, range(0, 9)), (1, range(10, 19)), (2, range(20, 24))]);
}

#[test]
fn parallel_count_is_the_smallest_bound() {
    let size = 5 * 1024 * 1024;
    let plan = Fetcher::<()>::new("u").with_segment_size(size).plan_segments(120 * MB, None);
    assert_eq!(plan.parallel_count(), 4);
    let many = Fetcher::<()>::new("u").with_segment_size(size).with_parallel_segments(100);
    assert_eq!(many.plan_segments(120 * MB, None).parallel_count(), 8);
    let record: String = (0..22).map(format_parts_line).collect();
    assert_eq!(many.plan_segments(120 * MB, Some(&record)).parallel_count(), 2);
    let none = Fetcher::<()>::new("u").with_segment_size(size).with_parallel_segments(0);
    assert_eq!(none.plan_segments(120 * MB, None).parallel_count(), 0);
}

#[test]
fn record_is_taken_up_again() {
    let fetcher = Fetcher::<()>::new("u").with_segment_size(10);
    let plan = fetcher.plan_segments(25, Some("2\n0\n"));
    assert_eq!(plan.downloaded_bytes(), 15);
    assert_eq!(plan.pending(), vec![(1, range(10, 19))]);
    assert_eq!(plan.parallel_count(), 1);
}

#[test]
fn marked_segment_survives_a_restart() {
    let fetcher = Fetcher::<()>::new("u").with_segment_size(10);
    let mut plan = fetcher.plan_segments(25, None);
    let mut record = String::new();
    for index in [2, 0] {
        record.push_str(&plan.mark_downloaded(index));
    }
    assert_eq!(record, "2\n0\n");
    assert_eq!(plan.pending(), vec![(1, range(10, 19))]);
    let again = fetcher.plan_segments(25, Some(&record));
    assert_eq!(again.pending(), plan.pending());
    assert_eq!(again.downloaded_bytes(), 15);
}

#[test]
fn all_marked_is_complete() {
    let fetcher = Fetcher::<()>::new("u").with_segment_size(10);
    let mut plan = fetcher.plan_segments(25, Some("1\n"));
    for (index, r) in plan.pending() {
        plan.mark_downloaded(index);
        plan.add_bytes(r.end - r.start + 1);
    }
    assert!(plan.pending().is_empty());
    assert_eq!(plan.downloaded_bytes(), plan.total_bytes());
}

#[test]
fn counting_bytes() {
    let mut plan = Fetcher::<()>::new("u").with_segment_size(10).plan_segments(25, None);
    assert_eq!(plan.add_bytes(7), 7);
    assert_eq!(plan.add_bytes(10), 17);
    assert_eq!(plan.downloaded_bytes(), 17);
}

#[test]
fn record_lines() {
    assert_eq!(format_parts_line(0), "0\n");
    assert_eq!(format_parts_line(1234), "1234\n");
    assert_eq!(parts_path("/tmp/file.mp4"), "/tmp/file.mp4.parts");
}

#[test]
fn record_is_read_line_by_line() {
    assert_eq!(read_parts("", 2), vec![false, false]);
    assert_eq!(read_parts("1\n0\r\n", 3), vec![true, true, false]);
    assert_eq!(read_parts("1", 2), vec![false, true]);
    assert_eq!(read_parts("1\r", 2), vec![false, false]);
    assert_eq!(read_parts("+1\n\n x\n7\n-0\n", 2), vec![false, true]);
    assert_eq!(read_parts("99999999999999999999999\n0", 1), vec![true]);
    assert_eq!(read_parts("0\n", 0), Vec::<bool>::new());
}

#[test]
fn record_is_read_as_std_reads_lines() {
    for text in ["3\n1\r\n\r\n2", "0\r1\n2\n", "\n\n4\r\r\n4\n", "1\n2\n3"] {
        let mut expected = vec![false; 5];
        for line in text.lines() {
            if let Ok(index) = line.parse::<usize>() {
                if index < expected.len() {
                    expected[index] = true;
                }
            }
        }
        assert_eq!(read_parts(text, 5), expected);
    }
}

#[test]
fn record_round_trip() {
    let written = [5usize, 0, 12, 3, 5];
    let record: String = written.iter().map(|i| format_parts_line(*i)).collect();
    for (i, mark) in read_parts(&record, 14).iter().enumerate() {
        assert_eq!(*mark, written.contains(&i));
    }
}

#[test]
fn sample_of_a_segment() {
    assert_eq!(sample_len(range(0, 0)), 1);
    assert_eq!(sample_len(range(10, 1032)), 1023);
    assert_eq!(sample_len(range(0, 1023)), 1024);
    assert_eq!(sample_len(range(5, 5_000_000)), 1024);
}

#[test]
fn zeros_are_an_empty_segment() {
    assert!(is_segment_empty(0, &[1, 2, 3]));
    assert!(is_segment_empty(3, &[0, 0, 0]));
    assert!(!is_segment_empty(3, &[0, 0, 1]));
    assert!(!is_segment_empty(1, &[9]));
}

#[test]
fn segments_make_up_the_asset() {
    let asset: Vec<u8> = (1..=25u8).collect();
    let mut file = vec![0u8; 25];
    file[10..20].copy_from_slice(&asset[10..20]);
    let fetcher = Fetcher::<()>::new("u").with_segment_size(10);
    let mut plan = fetcher.plan_segments(25, Some("1\n"));
    for (index, r) in plan.pending().into_iter().rev() {
        let place = r.start as usize..r.end as usize + 1;
        file[place.clone()].copy_from_slice(&asset[place]);
        plan.mark_downloaded(index);
    }
    assert_eq!(file, asset);
    assert!(plan.pending().is_empty());
}

#[test]
fn interrupted_segments_are_resumed() {
    let asset: Vec<u8> = (1..=45u8).collect();
    let mut file = vec![0u8; 45];
    let fetcher = Fetcher::<()>::new("u").with_segment_size(10);
    let mut first = fetcher.plan_segments(45, None);
    let mut record = String::new();
    for (index, r) in first.pending().into_iter().filter(|(i, _)| *i == 3 || *i == 1) {
        let place = r.start as usize..r.end as usize + 1;
        file[place.clone()].copy_from_slice(&asset[place]);
        record.push_str(&first.mark_downloaded(index));
    }

    let plan = decide_fetch(true, Some(45), true, Some(file.len() as u64), true);
    assert_eq!(plan, FetchPlan::Segmented { content_length: 45, reuse_file: true });
    let again = fetcher.plan_segments(45, Some(&record));
    let indices: Vec<usize> = again.pending().iter().map(|(i, _)| *i).collect();
    assert_eq!(indices, vec![0, 2, 4]);
    assert_eq!(again.downloaded_bytes(), 20);
    for (_, r) in again.pending() {
        let sample = file[r.start as usize..r.start as usize + sample_len(r)].to_vec();
        assert!(is_segment_empty(sample.len(), &sample));
        let place = r.start as usize..r.end as usize + 1;
        file[place.clone()].copy_from_slice(&asset[place]);
    }
    assert_eq!(file, asset);
}

#[test]
fn download_is_complete_if_all_segments_are() {
    let plan = Fetcher::<()>::new("u").with_segment_size(10).plan_segments(25, None);
    for outcomes in [vec![], vec![Ok(()), Ok(()), Ok::<(), u8>(())]] {
        match plan.finish(outcomes) {
            SegmentedEnd::Complete { downloaded_bytes, total_bytes } => {
                assert_eq!((downloaded_bytes, total_bytes), (25, 25))
            }
            SegmentedEnd::Failed(e) => panic!("{}", e),
        }
    }
}

#[test]
fn download_fails_with_the_first_error() {
    let plan = Fetcher::<()>::new("u").with_segment_size(10).plan_segments(25, None);
    match plan.finish(vec![Ok(()), Err("first"), Err("second")]) {
        SegmentedEnd::Complete { .. } => panic!("a segment is missing"),
        SegmentedEnd::Failed(e) => assert_eq!(e, "first"),
    }
}

fn held_at_a_time(fetcher: &Fetcher<()>, length: u64) -> u64 {
    let plan = fetcher.plan_segments(length, None);
    plan.pending().iter().take(plan.parallel_count()).map(|(_, r)| r.end - r.start + 1).sum()
}

#[test]
fn segments_under_way_fit_the_memory() {
    let fetcher = Fetcher::<()>::new("u");
    assert_eq!(held_at_a_time(&fetcher, 120 * MB), 20 * MB);
    let limited = fetcher.with_max_buffer_size(10 * 1024 * 1024);
    assert_eq!(held_at_a_time(&limited, 120 * MB), 10 * MB);
    let tight = limited.with_max_buffer_size(10 * 1024 * 1024 - 1);
    assert_eq!(held_at_a_time(&tight, 120 * MB), 5 * MB);
    let wide = tight.with_max_buffer_size(1000 * 1024 * 1024);
    assert_eq!(held_at_a_time(&wide, 120 * MB), 20 * MB);
}

#[test]
fn one_segment_is_always_downloaded() {
    let fetcher = Fetcher::<()>::new("u").with_max_buffer_size(1);
    assert_eq!(fetcher.plan_segments(120 * MB, None).parallel_count(), 1);
}
