use mesh_share::serve::{
    compute_http_throttle_delay, metadata_version_supported, partial_content_range, plan_file_range, tracker_accepts,
    unsatisfied_content_range, RangePlan, RateLimiter, MAX_CHUNK_SIZE,
};

fn plan(h: Option<&str>, size: u64) -> RangePlan {
    plan_file_range(h, size)
}

#[test]
fn range_without_header_sends_whole_file() {
    assert!(matches!(plan(None, 1000), RangePlan::Full));
    assert!(matches!(plan(Some("items=0-5"), 1000), RangePlan::Full));
    assert!(matches!(plan(Some("bytes=-5"), 1000), RangePlan::Full));
    assert!(matches!(plan(Some("bytes=x-5"), 1000), RangePlan::Full));
    assert!(matches!(plan(None, 0), RangePlan::Full));
}

#[test]
fn range_bounds_are_clamped() {
    assert!(matches!(plan(Some("bytes=0-99"), 1000), RangePlan::Partial { start: 0, end: 99 }));
    assert!(matches!(plan(Some("bytes=500-"), 1000), RangePlan::Partial { start: 500, end: 999 }));
    assert!(matches!(plan(Some("bytes=5-99999"), 10), RangePlan::Partial { start: 5, end: 9 }));
    assert!(matches!(plan(Some("bytes=5-x"), 10), RangePlan::Partial { start: 5, end: 9 }));
    assert!(matches!(plan(Some("bytes=+3-4-7"), 10), RangePlan::Partial { start: 3, end: 4 }));
}

#[test]
fn unsatisfiable_ranges() {
    assert!(matches!(plan(Some("bytes=2000-"), 1000), RangePlan::Unsatisfiable { content_range: true }));
    assert!(matches!(plan(Some("bytes=1000-1000"), 1000), RangePlan::Unsatisfiable { content_range: true }));
    assert!(matches!(plan(Some("bytes=10-5"), 1000), RangePlan::Unsatisfiable { content_range: false }));
    assert!(matches!(plan(Some("bytes=1-"), 0), RangePlan::Unsatisfiable { content_range: false }));
}

#[test]
fn long_ranges_are_too_large() {
    let size = 100 * 1024 * 1024;
    assert!(matches!(plan(Some("bytes=0-"), size), RangePlan::TooLarge));
    assert!(matches!(plan(Some("bytes=0-52428799"), size), RangePlan::Partial { start: 0, end: 52428799 }));
    assert!(matches!(plan(Some("bytes=0-52428800"), size), RangePlan::TooLarge));
    assert_eq!(MAX_CHUNK_SIZE, 50 * 1024 * 1024);
}

#[test]
fn empty_file_range_starting_at_zero() {
    assert!(matches!(plan(Some("bytes=0-"), 0), RangePlan::Partial { start: 0, end: 0 }));
}

#[test]
fn throttle_steps() {
    assert_eq!(compute_http_throttle_delay(0), 0);
    assert_eq!(compute_http_throttle_delay(1), 50);
    assert_eq!(compute_http_throttle_delay(3), 50);
    assert_eq!(compute_http_throttle_delay(4), 150);
    assert_eq!(compute_http_throttle_delay(7), 150);
    assert_eq!(compute_http_throttle_delay(8), 300);
    assert_eq!(compute_http_throttle_delay(usize::MAX), 300);
}

#[test]
fn metadata_versions_and_tracker_cap() {
    assert!(metadata_version_supported(None));
    assert!(metadata_version_supported(Some(1)));
    assert!(!metadata_version_supported(Some(0)));
    assert!(!metadata_version_supported(Some(2)));
    assert!(tracker_accepts(199));
    assert!(!tracker_accepts(200));
}

#[test]
fn rate_limiter_window_slides() {
    let mut l = RateLimiter::new();
    for i in 0..5000u64 {
        assert!(l.enforce_rate_limit(i));
    }
    assert!(!l.enforce_rate_limit(5000));
    assert!(!l.enforce_rate_limit(1_000_000_000));
    assert!(l.enforce_rate_limit(1_000_000_001));
    assert!(!l.enforce_rate_limit(1_000_000_001));
}

#[test]
fn content_range_headers() {
    assert_eq!(partial_content_range(0, 99, 1000), "bytes 0-99/1000");
    assert_eq!(unsatisfied_content_range(1000), "bytes */1000");
}
