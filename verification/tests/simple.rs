use yt_fetcher::error::Error;
use yt_fetcher::fetcher::simple::{SimpleDownload, BLOCK_SIZE};
use yt_fetcher::fetcher::Fetcher;

fn begin(status: u16, size: Option<u64>, length: Option<u64>) -> SimpleDownload {
    match SimpleDownload::begin(status, size, length, BLOCK_SIZE) {
        Ok(download) => download,
        Err(e) => panic!("{:?}", e),
    }
}

#[test]
fn whole_content_overwrites() {
    let d = begin(200, Some(10), Some(30));
    assert!(!d.append_mode());
    assert_eq!((d.downloaded_bytes(), d.total_bytes()), (0, 30));
}

#[test]
fn partial_content_continues() {
    let d = begin(206, Some(10), Some(30));
    assert!(d.append_mode());
    assert_eq!((d.downloaded_bytes(), d.total_bytes()), (10, 40));
}

#[test]
fn partial_content_without_a_file_does_not_append() {
    assert!(!begin(206, None, Some(30)).append_mode());
    let d = begin(206, Some(0), Some(30));
    assert!(!d.append_mode());
    assert_eq!((d.downloaded_bytes(), d.total_bytes()), (0, 30));
}

#[test]
fn unknown_length_is_zero() {
    let d = begin(206, Some(10), None);
    assert_eq!((d.downloaded_bytes(), d.total_bytes()), (10, 0));
}

#[test]
fn other_statuses_are_refused() {
    for (status, text) in [
        (404, "Unexpected status code: 404 Not Found"),
        (416, "Unexpected status code: 416 Range Not Satisfiable"),
        (204, "Unexpected status code: 204 No Content"),
        (799, "Unexpected status code: 799 <unknown status code>"),
    ] {
        match SimpleDownload::begin(status, Some(3), None, BLOCK_SIZE) {
            Ok(_) => panic!("{} was accepted", status),
            Err(e) => assert_eq!(e, Error::Unknown(text.to_string())),
        }
    }
}

#[test]
fn chunks_are_gathered_into_blocks() {
    let mut d = begin(200, None, None);
    assert_eq!(d.push_chunk(&[1, 2, 3]), None);
    assert_eq!(d.downloaded_bytes(), 3);
    let rest = vec![7u8; BLOCK_SIZE - 3];
    let block = d.push_chunk(&rest).unwrap();
    assert_eq!(block.len(), BLOCK_SIZE);
    assert_eq!(&block[..4], &[1, 2, 3, 7]);
    assert_eq!(d.push_chunk(&[9]), None);
    assert_eq!(d.downloaded_bytes(), BLOCK_SIZE as u64 + 1);
    assert_eq!(d.finish(), Some(vec![9]));
}

#[test]
fn nothing_left_to_write() {
    let mut d = begin(200, None, None);
    let all = vec![1u8; BLOCK_SIZE];
    assert_eq!(d.push_chunk(&all), Some(all));
    assert_eq!(d.finish(), None);
}

#[test]
fn no_byte_is_lost() {
    let mut d = begin(200, None, Some(3_000_000));
    let mut came: Vec<u8> = Vec::new();
    let mut written: Vec<u8> = Vec::new();
    for n in 0..30u8 {
        let chunk = vec![n; 100_000];
        came.extend_from_slice(&chunk);
        if let Some(block) = d.push_chunk(&chunk) {
            written.extend_from_slice(&block);
        }
    }
    assert_eq!(d.downloaded_bytes(), d.total_bytes());
    if let Some(block) = d.finish() {
        written.extend_from_slice(&block);
    }
    assert!(written == came);
}

#[test]
fn interrupted_download_is_completed() {
    let asset: Vec<u8> = (0..200u8).collect();
    for (status, sent) in [(206, &asset[80..]), (200, &asset[..])] {
        let mut file = asset[..80].to_vec();
        let mut d = begin(status, Some(80), Some(sent.len() as u64));
        if !d.append_mode() {
            file.clear();
        }
        for chunk in sent.chunks(33) {
            if let Some(block) = d.push_chunk(chunk) {
                file.extend_from_slice(&block);
            }
        }
        assert_eq!(d.downloaded_bytes(), d.total_bytes());
        if let Some(block) = d.finish() {
            file.extend_from_slice(&block);
        }
        assert_eq!(file, asset);
    }
}

#[test]
fn block_fits_the_memory() {
    let fetcher = |size| Fetcher::<()>::new("u").with_max_buffer_size(size);
    assert_eq!(Fetcher::<()>::new("u").block_size(), BLOCK_SIZE);
    assert_eq!(fetcher(10 * BLOCK_SIZE).block_size(), BLOCK_SIZE);
    assert_eq!(fetcher(2 * BLOCK_SIZE).block_size(), BLOCK_SIZE);
    assert_eq!(fetcher(1000).block_size(), 500);
    assert_eq!(fetcher(1).block_size(), 1);
    assert_eq!(fetcher(0).block_size(), 1);
}

#[test]
fn one_piece_stays_within_the_memory() {
    let limit = 100;
    let block_size = Fetcher::<()>::new("u").with_max_buffer_size(limit).block_size();
    let mut d = match SimpleDownload::begin(200, None, None, block_size) {
        Ok(download) => download,
        Err(e) => panic!("{:?}", e),
    };
    let mut gathered = 0;
    for len in [49, 50, 1, 48, 50, 30, 30, 30] {
        gathered += len;
        assert!(gathered <= limit);
        if let Some(block) = d.push_chunk(&vec![1; len]) {
            assert_eq!(block.len(), gathered);
            gathered = 0;
        }
    }
    assert_eq!(d.finish().map(|rest| rest.len()), Some(30));
}
