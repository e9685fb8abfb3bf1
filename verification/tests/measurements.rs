use speedtest_rs::ping::{ping_stats, ping_url, strip_path, contains_slash, PingError};
use speedtest_rs::speedtest::{
    progress_percent, tui_progress, random_payload, rate_hundredths, transfer_url, worker_count, workers_for,
    DOWNLOAD_SIZE, PAYLOAD_SEED, UPLOAD_CHUNK, MAX_WORKERS,
};

#[test]
fn strip_path_removes_last_segment() {
    assert_eq!(strip_path("http://sp.example.net:8080/speedtest/upload.php"), "http://sp.example.net:8080/speedtest");
    assert_eq!(strip_path("a/b/"), "a/b");
    assert_eq!(strip_path("/x"), "");
}

#[test]
fn ping_url_replaces_last_segment() {
    assert_eq!(ping_url("http://host:8080/speedtest/upload.php").unwrap(), "http://host:8080/speedtest/ping.php");
    assert!(ping_url("no-slash-here").is_none());
    assert!(contains_slash("a/b"));
    assert!(!contains_slash("ab"));
}

#[test]
fn ping_stats_of_a_series() {
    let p = ping_stats(&vec![10_000_000, 20_000_000, 15_000_000]).unwrap();
    assert_eq!(p.count, 3);
    assert_eq!(p.total_ns, 45_000_000);
    assert_eq!(p.min_ns, 10_000_000);
    assert_eq!(p.max_ns, 20_000_000);
    assert_eq!(p.jitter_total_ns, 15_000_000);
}

#[test]
fn ping_stats_single_sample_has_no_jitter() {
    let p = ping_stats(&vec![7]).unwrap();
    assert_eq!((p.count, p.total_ns, p.min_ns, p.max_ns, p.jitter_total_ns), (1, 7, 7, 7, 0));
}

#[test]
fn ping_stats_without_samples_fails() {
    assert_eq!(ping_stats(&vec![]).err(), Some(PingError::NoSamples));
}

#[test]
fn ping_stats_bounds_on_concrete_series() {
    let s = vec![5, 90, 3, 3, 40, u64::MAX];
    let p = ping_stats(&s).unwrap();
    let n = p.count as u128;
    assert!(n * (p.min_ns as u128) <= p.total_ns && p.total_ns <= n * (p.max_ns as u128));
    assert!(p.jitter_total_ns <= (n - 1) * ((p.max_ns - p.min_ns) as u128));
    assert_eq!(p.total_ns, 141 + u64::MAX as u128);
}

fn step(mut x: u64) -> u64 {
    x ^= x << 13;
    x ^= x >> 7;
    x ^= x << 17;
    x
}

#[test]
fn payload_is_xorshift_words_little_endian() {
    let p = random_payload(20);
    assert_eq!(p.len(), 20);
    let s1 = step(PAYLOAD_SEED);
    let s2 = step(s1);
    let s3 = step(s2);
    let mut expected = Vec::new();
    expected.extend_from_slice(&s1.to_le_bytes());
    expected.extend_from_slice(&s2.to_le_bytes());
    expected.extend_from_slice(&s3.to_le_bytes());
    expected.truncate(20);
    assert_eq!(p, expected);
}

#[test]
fn payload_prefixes_agree() {
    let short = random_payload(5);
    let long = random_payload(4096);
    assert_eq!(&long[..5], &short[..]);
    assert!(random_payload(0).is_empty());
    assert_eq!(random_payload(UPLOAD_CHUNK).len(), 1_048_576);
}

#[test]
fn transfer_urls() {
    assert_eq!(transfer_url("http://h/s/upload.php", true).unwrap(), "http://h/s/download?size=50000000");
    assert_eq!(transfer_url("http://h/s/upload.php", false).unwrap(), "http://h/s/upload");
    assert!(transfer_url("nothing", true).is_none());
    assert_eq!(DOWNLOAD_SIZE, 50_000_000);
}

#[test]
fn worker_counts() {
    assert_eq!(workers_for(4), 4);
    assert_eq!(workers_for(8), 8);
    assert_eq!(workers_for(64), 8);
    let n = worker_count();
    assert!(n >= 1 && n <= MAX_WORKERS);
}

#[test]
fn rates_in_hundredths_of_mbps() {
    // 1 MB in one second is 8 Mbps
    assert_eq!(rate_hundredths(1_000_000, 1_000_000_000), Some(800));
    assert_eq!(rate_hundredths(1_000_000, 100_000_000), None);
    assert_eq!(rate_hundredths(1_000_000, 100_000_001), Some(7999));
    assert_eq!(rate_hundredths(u64::MAX, 100_000_001), Some(147573951113936901));
    assert_eq!(rate_hundredths(0, 5_000_000_000), Some(0));
}

#[test]
fn progress_in_percent() {
    assert_eq!(progress_percent(5_000_000_000, 10), 50);
    assert_eq!(progress_percent(9_999_999_999, 10), 99);
    assert_eq!(progress_percent(12_000_000_000, 10), 120);
    assert_eq!(progress_percent(0, 1), 0);
}

#[test]
fn tui_progress_stops_at_the_duration() {
    assert_eq!(tui_progress(0, 10), Some(0));
    assert_eq!(tui_progress(5_000_000_000, 10), Some(50));
    assert_eq!(tui_progress(9_999_999_999, 10), Some(99));
    assert_eq!(tui_progress(10_000_000_000, 10), None);
    assert_eq!(tui_progress(0, 0), None);
    let mut last = 0;
    for e in (0..10_000_000_000u64).step_by(123_456_789) {
        let p = tui_progress(e, 10).unwrap();
        assert!(p >= last && p < 100);
        last = p;
    }
}
