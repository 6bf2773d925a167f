use mesh_share::runtime::{format_recent_activity, ClientStatsReport, ShareRuntime, FileLookup};
use mesh_share::session::{generate_session_id, SharedFile};

const SEC: u64 = 1_000_000_000;

fn file(id: &str, path: &str, size: u64) -> SharedFile {
    SharedFile {
        file_id: id.to_string(),
        file_name: path.rsplit('/').next().unwrap().to_string(),
        file_path: path.to_string(),
        file_size: size,
        info_hash: "ab".repeat(20),
        piece_size: 262144,
        piece_count: 1,
        magnet_uri: "magnet:?xt=urn:btih:x".to_string(),
        content_signature: "sig".to_string(),
        seed_reused: false,
        torrent_bytes: vec![1, 2, 3],
    }
}

fn report(client: &str, file_id: &str, p2p: u64, peers: usize, seeding: bool) -> ClientStatsReport {
    ClientStatsReport {
        client_id: client.to_string(),
        file_id: file_id.to_string(),
        p2p_uploaded_bytes: p2p,
        active_peers: peers,
        is_seeding: seeding,
    }
}

#[test]
fn rebuild_reported_metrics_aggregates_p2p_and_peer_counts() {
    let now = 1000 * SEC;
    let mut runtime = ShareRuntime::new(vec![], false, 0);
    runtime.store_client_report(&report("b", "f", 256, 3, false), now - SEC, 0);
    runtime.store_client_report(&report("a", "f", 128, 2, true), now, 0);

    runtime.rebuild_reported_metrics(now);

    let m = runtime.build_metrics(now);
    assert_eq!(m.p2p_uploaded_bytes, 384);
    assert_eq!(m.active_p2p_peer_count, 5);
    assert_eq!(m.seeding_peer_count, 1);
}

#[test]
fn reports_older_than_window_are_dropped() {
    let mut runtime = ShareRuntime::new(vec![], false, 0);
    runtime.store_client_report(&report("old", "f", 100, 1, true), 10 * SEC, 0);
    runtime.store_client_report(&report("new", "f", 7, 4, false), 311 * SEC, 0);
    let m = runtime.build_metrics(311 * SEC);
    assert_eq!(m.p2p_uploaded_bytes, 7);
    assert_eq!(m.active_p2p_peer_count, 4);
    assert_eq!(m.seeding_peer_count, 0);
}

#[test]
fn a_clients_new_report_replaces_its_old_one() {
    let mut runtime = ShareRuntime::new(vec![], false, 0);
    runtime.store_client_report(&report("a", "f", 100, 1, true), SEC, 0);
    runtime.store_client_report(&report("a", "f", 50, 2, false), 2 * SEC, 9);
    let m = runtime.build_metrics(2 * SEC);
    assert_eq!(m.p2p_uploaded_bytes, 50);
    assert_eq!(m.active_p2p_peer_count, 2);
    assert_eq!(m.seeding_peer_count, 0);
    assert_eq!(m.last_activity_unix_ms, 9);
}

#[test]
fn reported_bytes_wrap_around() {
    let mut runtime = ShareRuntime::new(vec![], false, 0);
    runtime.store_client_report(&report("a", "f", u64::MAX, 0, false), SEC, 0);
    runtime.store_client_report(&report("b", "f", 2, 0, false), SEC, 0);
    assert_eq!(runtime.build_metrics(SEC).p2p_uploaded_bytes, 1);
}

#[test]
fn recent_activity_labels() {
    assert_eq!(format_recent_activity(0, 99), "暫無活動");
    assert_eq!(format_recent_activity(1000, 1500), "剛剛");
    assert_eq!(format_recent_activity(5000, 1000), "剛剛");
    assert_eq!(format_recent_activity(1000, 6999), "5 秒前");
    assert_eq!(format_recent_activity(1000, 121_000), "2 分鐘前");
    assert_eq!(format_recent_activity(1, 7_200_001), "2 小時前");
}

#[test]
fn session_id_is_prefixed_time() {
    assert_eq!(generate_session_id(1_700_000_000_000), "sess-1700000000000");
    assert_eq!(generate_session_id(0), "sess-0");
    assert_ne!(generate_session_id(1), generate_session_id(10));
}

#[test]
fn active_clients_are_distinct_recent_addresses() {
    let mut runtime = ShareRuntime::new(vec![], false, 0);
    runtime.record_client_activity("10.0.0.1".to_string(), SEC, 1);
    runtime.record_client_activity("10.0.0.2".to_string(), 2 * SEC, 2);
    runtime.record_client_activity("10.0.0.1".to_string(), 3 * SEC, 3);
    assert_eq!(runtime.build_metrics(3 * SEC).active_client_count, 2);
    assert_eq!(runtime.build_metrics(302 * SEC).active_client_count, 2);
    assert_eq!(runtime.build_metrics(303 * SEC).active_client_count, 1);
    assert_eq!(runtime.build_metrics(400 * SEC).active_client_count, 0);
    runtime.record_client_activity("10.0.0.3".to_string(), 400 * SEC, 4);
    let m = runtime.build_metrics(400 * SEC);
    assert_eq!(m.active_client_count, 1);
    assert_eq!(m.last_activity_unix_ms, 4);
}

#[test]
fn idle_runtime_status() {
    let runtime = ShareRuntime::new(vec!["wss://t".to_string()], true, 0);
    let s = runtime.status(0, 10);
    assert!(!s.is_sharing);
    assert_eq!(s.server_url, "");
    assert!(s.fallback_http_enabled);
    assert!(s.session.is_none());
    assert!(s.processing_progress.is_none());
    assert_eq!(s.insights.share_state, "未啟動");
    assert_eq!(s.insights.reachability, "尚未啟動");
    assert_eq!(s.insights.next_action_hint, "先加入檔案後按「啟動分享」");
    assert_eq!(s.insights.recent_activity_label, "暫無活動");
    assert_eq!(s.metrics.metadata_revision, 0);
}

#[test]
fn start_add_and_stop_a_share() {
    let mut runtime = ShareRuntime::new(vec!["wss://t".to_string()], false, 0);
    assert!(!runtime.stop());
    let err = runtime.add_context().err().unwrap();
    assert_eq!(err, "Share session is not active");
    let err = runtime.finish_add(vec![file("file-2", "/b", 1)], 5).err().unwrap();
    assert_eq!(err, "Share session is not active");

    runtime.begin_processing(1);
    assert!(runtime.status(0, 0).processing_progress.is_some());
    assert_eq!(runtime.status(0, 0).insights.share_state, "正在處理檔案");
    let trackers = runtime.share_trackers("https://h:1");
    assert_eq!(trackers, vec!["wss://h:1/announce", "wss://t"]);
    let session = runtime.finish_start(vec![file("file-1", "/a", 10)], trackers, "sess-1".to_string(), 100);
    assert_eq!(session.revision, 1);
    assert_eq!(session.file_count, 1);
    assert_eq!(session.total_size, 10);
    assert_eq!(session.started_at_unix_ms, 100);

    let err = runtime.add_context().err().unwrap();
    assert_eq!(err, "Share server is not running");
    runtime.set_server_url("https://h:1".to_string());
    let ctx = runtime.add_context().ok().unwrap();
    assert_eq!(ctx.base_url, "https://h:1");
    assert_eq!(ctx.existing_paths, vec!["/a"]);
    assert_eq!(ctx.next_index, 1);
    assert_eq!(ctx.tracker_urls, vec!["wss://h:1/announce", "wss://t"]);

    let added = runtime.finish_add(vec![file("file-2", "/b", 5)], 200).ok().unwrap();
    assert_eq!(added.revision, 2);
    assert_eq!(added.file_count, 2);
    assert_eq!(added.total_size, 15);
    assert_eq!(added.last_updated_unix_ms, 200);

    let status = runtime.status(0, 200);
    assert!(status.is_sharing);
    assert_eq!(status.server_url, "https://h:1");
    assert_eq!(status.insights.share_state, "分享中");
    assert_eq!(status.insights.reachability, "LAN 可連線");
    assert_eq!(status.metrics.metadata_revision, 2);

    assert!(matches!(runtime.lookup_file(&"file-2".to_string()), FileLookup::Found(f) if f.file_path == "/b"));
    assert!(matches!(runtime.lookup_file(&"file-9".to_string()), FileLookup::NotFound));

    assert!(runtime.stop());
    assert!(!runtime.status(0, 0).is_sharing);
    assert!(matches!(runtime.lookup_file(&"file-1".to_string()), FileLookup::NoSession));
}

#[test]
fn stopping_cancels_processing() {
    let mut runtime = ShareRuntime::new(vec![], false, 0);
    runtime.begin_processing(3);
    assert!(runtime.report_progress("a.bin".to_string(), 1, 100, 50, 50).is_ok());
    let p = runtime.status(0, 0).processing_progress.unwrap();
    assert_eq!(p.current_file_name, "a.bin");
    assert_eq!(p.total_files, 3);
    assert_eq!(p.bytes_processed, 50);
    assert_eq!(p.percentage, 50);
    assert!(runtime.report_progress("b.bin".to_string(), 2, 0, 0, 99).is_ok());
    assert_eq!(runtime.status(0, 0).processing_progress.unwrap().percentage, 50);
    assert!(runtime.stop());
    assert_eq!(runtime.report_progress("a.bin".to_string(), 1, 100, 60, 60).err().unwrap(), "分享已停止");
}

#[test]
fn failed_processing_is_reported() {
    let mut runtime = ShareRuntime::new(vec![], false, 0);
    runtime.begin_processing(1);
    runtime.fail_processing("disk error".to_string());
    let s = runtime.status(0, 0);
    assert!(s.processing_progress.is_none());
    assert_eq!(s.insights.recent_error, Some("disk error".to_string()));
}

#[test]
fn transfers_are_counted() {
    let mut runtime = ShareRuntime::new(vec![], false, 0);
    runtime.note_full_transfer(5);
    runtime.note_range_transfer(100, 6);
    runtime.note_range_transfer(50, 7);
    let m = runtime.build_metrics(0);
    assert_eq!(m.fallback_transfer_count, 3);
    assert_eq!(m.http_uploaded_bytes, 150);
    assert_eq!(m.last_activity_unix_ms, 7);
    assert_eq!(runtime.seeders_for_throttle(), 0);
}
