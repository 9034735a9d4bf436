use librespot::download::{
    file_size_from_header, initial_data_length, range_request_packet, CommandOutcome,
    DownloadStatus, DownloadStrategy, StreamLoaderCommand, INITIAL_DOWNLOAD_SIZE,
    MINIMUM_DOWNLOAD_SIZE,
};
use librespot::range::Range;
use librespot::range_set::RangeSet;
use librespot::receiver::{DataReceiver, ResponseTimes};
use librespot::stream::{clamp_to_file, plan_read, range_available_in_file};

fn bounds(set: &RangeSet) -> Vec<(usize, usize)> {
    set.iter().map(|r| (r.start(), r.end())).collect()
}

fn pairs(ranges: &[Range]) -> Vec<(usize, usize)> {
    ranges.iter().map(|r| (r.start(), r.end())).collect()
}

fn status(requested: &[(usize, usize)], downloaded: &[(usize, usize)]) -> DownloadStatus {
    let mut s = DownloadStatus::new();
    for &(a, b) in requested {
        s.requested.add_range(Range::from(a..b));
    }
    for &(a, b) in downloaded {
        s.downloaded.add_range(Range::from(a..b));
    }
    s
}

#[test]
fn packet_layout() {
    let mut file_id = [0u8; 20];
    for (i, b) in file_id.iter_mut().enumerate() {
        *b = i as u8 + 1;
    }
    let packet = range_request_packet(0x1234, &file_id, 8, 16);
    let mut expected = vec![
        0x12, 0x34, 0x00, 0x01, 0x00, 0x00, 0x00, 0x00, 0x00, 0x00, 0x00, 0x00, 0x9C, 0x40, 0x00,
        0x02, 0x00, 0x00,
    ];
    expected.extend_from_slice(&file_id);
    expected.extend_from_slice(&[0, 0, 0, 2, 0, 0, 0, 6]);
    assert_eq!(packet, expected);
}

#[test]
fn header_gives_size_in_words() {
    assert_eq!(file_size_from_header(&[0x00, 0x01, 0x02, 0x03, 0xff]), 0x0001_0203 * 4);
    assert_eq!(file_size_from_header(&[0, 0, 0, 0]), 0);
}

#[test]
fn initial_length_is_aligned() {
    assert_eq!(initial_data_length(false, 12345), INITIAL_DOWNLOAD_SIZE);
    assert_eq!(initial_data_length(true, 10), INITIAL_DOWNLOAD_SIZE + 12);
    assert_eq!(initial_data_length(true, 8), INITIAL_DOWNLOAD_SIZE + 8);
}

#[test]
fn download_is_widened_aligned_and_cut() {
    let mut s = status(&[], &[(100, 200)]);
    let to_request = s.plan_download(5, 10, 100_000);
    assert_eq!(bounds(&to_request), vec![(4, 100), (200, 4 + MINIMUM_DOWNLOAD_SIZE + 4)]);
    assert_eq!(bounds(&s.requested), vec![(4, 100), (200, 16392)]);
    // near the end of the file the window stops at the end, rounded up to a multiple of 4
    let mut s = DownloadStatus::new();
    let to_request = s.plan_download(99_990, 10, 100_001);
    assert_eq!(bounds(&to_request), vec![(99_988, 100_004)]);
    // past the end nothing is requested
    let mut s = DownloadStatus::new();
    assert!(s.plan_download(100, 10, 100).is_empty());
    assert!(s.requested.is_empty());
    // what is requested already is not requested again
    let mut s = status(&[(0, 20000)], &[]);
    assert!(s.plan_download(0, 100, 50000).is_empty());
}

#[test]
fn received_data_completes_the_file() {
    let mut s = status(&[(0, 100)], &[]);
    assert!(!s.record_received(0, 50, 100));
    assert_eq!(s.pending_bytes(), 50);
    assert!(s.record_received(50, 50, 100));
    assert_eq!(s.pending_bytes(), 0);
    assert_eq!(bounds(&s.downloaded), vec![(0, 100)]);
    assert!(s.is_downloaded(Range::from(10..90)));
    assert!(!s.is_downloaded(Range::from(90..110)));
}

#[test]
fn missing_and_refetch() {
    let s = status(&[(20, 40)], &[(0, 10)]);
    assert_eq!(bounds(&s.missing_in(0, 50)), vec![(10, 20), (40, 50)]);
    assert!(!s.needs_refetch(Range::from(0..10)));
    assert!(!s.needs_refetch(Range::from(25..40)));
    assert!(s.needs_refetch(Range::from(5..25)));
}

#[test]
fn readable_length_stops_at_a_gap() {
    let s = status(&[], &[(10, 20)]);
    assert_eq!(s.readable_length(12, 100), 8);
    assert_eq!(s.readable_length(12, 5), 5);
    assert_eq!(s.readable_length(25, 5), 0);
}

#[test]
fn prefetch_reads_ahead_first() {
    let mut s = status(&[], &[(0, 1000)]);
    let planned = s.plan_prefetch(20000, 4, 100_000, 500);
    assert_eq!(pairs(&planned), vec![(1000, 21000)]);
    let mut s = status(&[], &[(0, 1000)]);
    let planned = s.plan_prefetch(5000, 2, 100_000, 500);
    assert_eq!(pairs(&planned), vec![(1000, 17384)]);
}

#[test]
fn read_position_past_the_end_without_prefetch() {
    let mut s = status(&[], &[(0, 1000)]);
    assert!(s.plan_poll_prefetch(DownloadStrategy::RandomAccess, 0, 5000, 100, 200).is_empty());
    assert!(s.plan_poll_prefetch(DownloadStrategy::Streaming, 4, 5000, 100, 200).is_empty());
    assert!(s.plan_prefetch(0, 3, 100, 200).is_empty());
    assert!(s.plan_prefetch(500, 0, 100, 200).is_empty());
    assert_eq!(bounds(&s.requested), vec![]);
}

#[test]
fn prefetch_falls_back_to_the_beginning() {
    let mut s = status(&[(20000, 50000)], &[(0, 10000)]);
    let planned = s.plan_prefetch(3000, 1, 50000, 20000);
    assert_eq!(pairs(&planned), vec![(10000, 20000)]);
    assert_eq!(bounds(&s.requested), vec![(10000, 50000)]);
    // nothing missing: nothing planned
    let planned = s.plan_prefetch(3000, 4, 50000, 20000);
    assert!(planned.is_empty());
}

#[test]
fn prefetch_uses_several_requests() {
    let mut s = status(&[(30000, 40000)], &[]);
    let planned = s.plan_prefetch(40000, 3, 60000, 25000);
    // from the read position: [25000, 30000) widened to the minimum size, which reaches past
    // the requested part; then the rest of the file; then the beginning
    assert_eq!(
        pairs(&planned),
        vec![(25000, 30000), (40000, 41384), (41384, 60000), (0, 16384)]
    );
    assert_eq!(bounds(&s.requested), vec![(0, 16384), (25000, 60000)]);
}

#[test]
fn poll_prefetch_only_while_streaming() {
    let mut s = status(&[], &[(0, 1000)]);
    assert!(s.plan_poll_prefetch(DownloadStrategy::RandomAccess, 0, 5000, 100_000, 0).is_empty());
    assert!(s.plan_poll_prefetch(DownloadStrategy::Streaming, 4, 5000, 100_000, 0).is_empty());
    assert!(s.plan_poll_prefetch(DownloadStrategy::Streaming, 0, 0, 100_000, 0).is_empty());
    let planned = s.plan_poll_prefetch(DownloadStrategy::Streaming, 1, 5000, 100_000, 0);
    assert_eq!(pairs(&planned), vec![(1000, 17384)]);
}

#[test]
fn commands() {
    let mut s = DownloadStatus::new();
    let mut strategy = DownloadStrategy::RandomAccess;
    match s.apply_command(StreamLoaderCommand::StreamMode, &mut strategy, 1000) {
        CommandOutcome::Continue => {}
        _ => panic!("stream mode goes on"),
    }
    assert_eq!(strategy, DownloadStrategy::Streaming);
    match s.apply_command(StreamLoaderCommand::RandomAccessMode, &mut strategy, 1000) {
        CommandOutcome::Continue => {}
        _ => panic!("random access mode goes on"),
    }
    assert_eq!(strategy, DownloadStrategy::RandomAccess);
    match s.apply_command(StreamLoaderCommand::Fetch(Range::from(10..20)), &mut strategy, 1000) {
        CommandOutcome::Request(set) => assert_eq!(bounds(&set), vec![(8, 1000)]),
        _ => panic!("a fetch requests"),
    }
    match s.apply_command(StreamLoaderCommand::Close, &mut strategy, 1000) {
        CommandOutcome::Stop => {}
        _ => panic!("close stops"),
    }
}

#[test]
fn receiver_follows_chunks() {
    let mut r = DataReceiver::new(100, 50, 0);
    let c = r.on_chunk(20);
    assert_eq!((c.offset, c.report_response_time, c.overrun, c.done), (100, true, false, false));
    let c = r.on_chunk(30);
    assert_eq!((c.offset, c.report_response_time, c.overrun, c.done), (120, false, false, true));
    let mut s = status(&[(100, 150)], &[]);
    assert!(!r.finish(&mut s));
    assert_eq!(bounds(&s.requested), vec![(100, 150)]);

    let mut r = DataReceiver::new(0, 50, 2);
    let c = r.on_chunk(60);
    assert_eq!((c.offset, c.report_response_time, c.overrun, c.done), (0, false, true, true));

    let mut r = DataReceiver::new(0, 50, 1);
    r.on_chunk(20);
    let mut s = status(&[(0, 50)], &[]);
    assert!(r.finish(&mut s));
    assert_eq!(bounds(&s.requested), vec![(0, 20)]);
}

#[test]
fn ping_estimate_is_median_of_last_three() {
    let mut t = ResponseTimes::new();
    assert_eq!(t.record(100), 100);
    assert_eq!(t.record(200), 150);
    assert_eq!(t.record(50), 100);
    assert_eq!(t.record(300), 200);
    assert_eq!(t.record(250), 250);
}

#[test]
fn stream_bounds() {
    let r = clamp_to_file(Range::from(90..120), 100);
    assert_eq!((r.start(), r.end()), (90, 100));
    let r = clamp_to_file(Range::from(100..120), 100);
    assert_eq!((r.start(), r.end()), (100, 100));
    let r = clamp_to_file(Range::from(10..20), 100);
    assert_eq!((r.start(), r.end()), (10, 20));
    assert!(range_available_in_file(Range::from(10..20), 100));
    assert!(!range_available_in_file(Range::from(90..120), 100));
    assert!(range_available_in_file(Range::from(90..100), 100));
    assert!(!range_available_in_file(Range::from(150..160), 100));
}

#[test]
fn read_plans() {
    assert_eq!(plan_read(DownloadStrategy::RandomAccess, 100, 10, 1000, 100), None);
    assert_eq!(plan_read(DownloadStrategy::RandomAccess, 10, 10, 1000, 100), Some((10, 10)));
    assert_eq!(plan_read(DownloadStrategy::Streaming, 10, 10, 20, 100), Some((10, 30)));
    assert_eq!(plan_read(DownloadStrategy::Streaming, 10, 10, 1000, 100), Some((10, 90)));
    assert_eq!(plan_read(DownloadStrategy::Streaming, 95, 10, 1000, 100), Some((5, 5)));
}
