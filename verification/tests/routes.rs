use mesh_share::routes::{
    chunk_too_large_text, client_stats_route, file_route, metadata_route, pass_rate_limit, torrent_route,
};
use mesh_share::runtime::{ClientStatsReport, ShareRuntime};
use mesh_share::serve::RateLimiter;
use mesh_share::session::SharedFile;

const SEC: u64 = 1_000_000_000;

fn shared(id: &str) -> SharedFile {
    SharedFile {
        file_id: id.to_string(),
        file_name: "a.bin".to_string(),
        file_path: "/data/a.bin".to_string(),
        file_size: 3,
        info_hash: "00".repeat(20),
        piece_size: 262144,
        piece_count: 1,
        magnet_uri: "m".to_string(),
        content_signature: "s".to_string(),
        seed_reused: false,
        torrent_bytes: vec![9, 8, 7],
    }
}

fn stats(file_id: &str) -> ClientStatsReport {
    ClientStatsReport {
        client_id: "client-a".to_string(),
        file_id: file_id.to_string(),
        p2p_uploaded_bytes: 64,
        active_peers: 1,
        is_seeding: true,
    }
}

fn running() -> ShareRuntime {
    let mut runtime = ShareRuntime::new(vec![], true, 0);
    runtime.set_server_url("https://192.168.1.2:8443".to_string());
    runtime.finish_start(vec![shared("file-1")], vec![], "sess-1".to_string(), 50);
    runtime
}

#[test]
fn inactive_session_routes_return_gone() {
    let mut runtime = ShareRuntime::new(vec![], false, 0);
    let mut limiter = RateLimiter::new();
    let ip = "127.0.0.1".to_string();

    let metadata_response = metadata_route(&mut runtime, &mut limiter, Some(1), ip.clone(), SEC, 1).err().unwrap();
    assert_eq!(metadata_response.status, 410);

    let file_response = file_route(&mut runtime, &mut limiter, &"file-1".to_string(), ip.clone(), SEC, 1).err().unwrap();
    assert_eq!(file_response.status, 410);

    let torrent_response =
        torrent_route(&mut runtime, &mut limiter, &"file-1".to_string(), ip.clone(), SEC, 1).err().unwrap();
    assert_eq!(torrent_response.status, 410);

    let client_stats_response = client_stats_route(&mut runtime, &mut limiter, &stats("file-1"), ip, SEC, 1).err().unwrap();
    assert_eq!(client_stats_response.status, 410);
}

#[test]
fn gone_replies_carry_messages() {
    let mut runtime = ShareRuntime::new(vec![], false, 0);
    let mut limiter = RateLimiter::new();
    let e = metadata_route(&mut runtime, &mut limiter, None, "1.2.3.4".to_string(), SEC, 7).err().unwrap();
    assert_eq!(e.body.error, "Share session is not active");
    assert_eq!(e.body.error_code, None);
    let e = client_stats_route(&mut runtime, &mut limiter, &stats("file-1"), "1.2.3.4".to_string(), SEC, 7)
        .err()
        .unwrap();
    assert_eq!(e.body.error, "Share session is not active");
    assert_eq!(e.body.error_code, Some("SESSION_INACTIVE".to_string()));
    assert_eq!(runtime.build_metrics(SEC).active_client_count, 1);
    assert_eq!(runtime.build_metrics(SEC).last_activity_unix_ms, 7);
}

#[test]
fn unsupported_metadata_version_needs_upgrade() {
    let mut runtime = running();
    let mut limiter = RateLimiter::new();
    let e = metadata_route(&mut runtime, &mut limiter, Some(2), "1.2.3.4".to_string(), SEC, 1).err().unwrap();
    assert_eq!(e.status, 426);
    assert_eq!(e.body.error, "Unsupported metadata version: 2. Supported range: 1..=1");
    assert_eq!(e.body.error_code, Some("METADATA_VERSION_UNSUPPORTED".to_string()));
    assert_eq!(e.body.upgrade_hint, Some("Please upgrade download page to metadataVersion=1".to_string()));
    let e = metadata_route(&mut runtime, &mut limiter, Some(0), "1.2.3.4".to_string(), SEC, 1).err().unwrap();
    assert_eq!(e.status, 426);
    assert_eq!(runtime.build_metrics(SEC).active_client_count, 0);
}

#[test]
fn metadata_hands_out_rotating_piece_offsets() {
    let mut runtime = running();
    let mut limiter = RateLimiter::new();
    for i in 0..18u64 {
        let m = metadata_route(&mut runtime, &mut limiter, Some(1), "1.2.3.4".to_string(), SEC, 1).ok().unwrap();
        assert_eq!(m.piece_priority_offset, i % 16);
        assert_eq!(m.session_id, "sess-1");
        assert_eq!(m.builtin_tracker_url, "wss://192.168.1.2:8443/announce");
        assert!(m.fallback_http_enabled);
        assert_eq!(m.metadata_version, 1);
        assert_eq!(m.files.len(), 1);
        assert_eq!(m.revision, 1);
    }
}

#[test]
fn file_and_torrent_routes_find_shared_files() {
    let mut runtime = running();
    let mut limiter = RateLimiter::new();
    let ip = "10.0.0.9".to_string();
    assert_eq!(file_route(&mut runtime, &mut limiter, &"file-1".to_string(), ip.clone(), SEC, 1).ok().unwrap(), "/data/a.bin");
    let e = file_route(&mut runtime, &mut limiter, &"file-2".to_string(), ip.clone(), SEC, 1).err().unwrap();
    assert_eq!(e.status, 404);
    assert_eq!(e.body.error, "Shared file not found");
    assert_eq!(torrent_route(&mut runtime, &mut limiter, &"file-1".to_string(), ip.clone(), SEC, 1).ok().unwrap(), vec![9, 8, 7]);
    let e = torrent_route(&mut runtime, &mut limiter, &"nope".to_string(), ip, SEC, 1).err().unwrap();
    assert_eq!(e.status, 404);
    assert_eq!(e.body.error, "Shared torrent descriptor not found");
}

#[test]
fn client_stats_route_checks_file_and_stores_report() {
    let mut runtime = running();
    let mut limiter = RateLimiter::new();
    let e = client_stats_route(&mut runtime, &mut limiter, &stats("file-9"), "1.1.1.1".to_string(), SEC, 3).err().unwrap();
    assert_eq!(e.status, 404);
    assert_eq!(e.body.error, "Shared file not found");
    assert_eq!(e.body.error_code, Some("FILE_NOT_FOUND".to_string()));
    assert!(client_stats_route(&mut runtime, &mut limiter, &stats("file-1"), "1.1.1.1".to_string(), SEC, 4).is_ok());
    let m = runtime.build_metrics(SEC);
    assert_eq!(m.p2p_uploaded_bytes, 64);
    assert_eq!(m.active_p2p_peer_count, 1);
    assert_eq!(m.seeding_peer_count, 1);
    assert_eq!(runtime.seeders_for_throttle(), 1);
}

#[test]
fn rate_limit_refuses_with_429() {
    let mut runtime = running();
    let mut limiter = RateLimiter::new();
    for _ in 0..5000 {
        assert!(pass_rate_limit(&mut limiter, SEC).is_ok());
    }
    let e = pass_rate_limit(&mut limiter, SEC).err().unwrap();
    assert_eq!(e.status, 429);
    assert_eq!(e.body.error, "Rate limit exceeded");
    let e = metadata_route(&mut runtime, &mut limiter, Some(1), "1.2.3.4".to_string(), SEC, 1).err().unwrap();
    assert_eq!(e.status, 429);
    assert_eq!(runtime.build_metrics(SEC).active_client_count, 0);
    assert!(pass_rate_limit(&mut limiter, 2 * SEC + 1).is_ok());
}

#[test]
fn chunk_too_large_message() {
    assert_eq!(chunk_too_large_text(), "Chunk too large (max 50 MB), please use smaller Range requests");
}

#[test]
fn stopped_share_routes_are_gone() {
    let mut runtime = running();
    let mut limiter = RateLimiter::new();
    assert!(runtime.stop());
    let ip = "10.1.1.1".to_string();
    assert_eq!(metadata_route(&mut runtime, &mut limiter, Some(1), ip.clone(), SEC, 1).err().unwrap().status, 410);
    assert_eq!(file_route(&mut runtime, &mut limiter, &"file-1".to_string(), ip.clone(), SEC, 1).err().unwrap().status, 410);
    assert_eq!(torrent_route(&mut runtime, &mut limiter, &"file-1".to_string(), ip.clone(), SEC, 1).err().unwrap().status, 410);
    assert_eq!(client_stats_route(&mut runtime, &mut limiter, &stats("file-1"), ip, SEC, 1).err().unwrap().status, 410);
}

#[test]
fn added_files_reach_download_pages() {
    let mut runtime = running();
    let mut limiter = RateLimiter::new();
    let before = metadata_route(&mut runtime, &mut limiter, Some(1), "1.1.1.1".to_string(), SEC, 1).ok().unwrap();
    assert_eq!(before.files.len(), 1);
    let added = runtime.finish_add(vec![shared("file-2")], 70).ok().unwrap();
    assert_eq!(added.revision, 2);
    let after = metadata_route(&mut runtime, &mut limiter, None, "1.1.1.1".to_string(), SEC, 2).ok().unwrap();
    assert_eq!(after.files.len(), 2);
    assert_eq!(after.files[0].file_id, "file-1");
    assert_eq!(after.files[1].file_id, "file-2");
    assert_eq!(after.revision, 2);
    assert_eq!(after.file_count, 2);
    assert_eq!(after.total_size, 6);
    assert_ne!(after.piece_priority_offset, before.piece_priority_offset);
}

#[test]
fn resent_client_report_changes_no_figure() {
    let mut runtime = running();
    let mut limiter = RateLimiter::new();
    assert!(client_stats_route(&mut runtime, &mut limiter, &stats("file-1"), "1.1.1.1".to_string(), SEC, 4).is_ok());
    let first = runtime.build_metrics(SEC);
    assert!(client_stats_route(&mut runtime, &mut limiter, &stats("file-1"), "2.2.2.2".to_string(), SEC, 5).is_ok());
    let second = runtime.build_metrics(SEC);
    assert_eq!(second.p2p_uploaded_bytes, first.p2p_uploaded_bytes);
    assert_eq!(second.active_p2p_peer_count, first.active_p2p_peer_count);
    assert_eq!(second.seeding_peer_count, first.seeding_peer_count);
    assert_eq!(second.p2p_uploaded_bytes, 64);
}

#[test]
fn report_resent_later_changes_no_figure() {
    let mut runtime = running();
    let mut limiter = RateLimiter::new();
    assert!(client_stats_route(&mut runtime, &mut limiter, &stats("file-1"), "1.1.1.1".to_string(), SEC, 4).is_ok());
    assert!(client_stats_route(&mut runtime, &mut limiter, &stats("file-1"), "1.1.1.1".to_string(), 30 * SEC, 5).is_ok());
    let m = runtime.build_metrics(30 * SEC);
    assert_eq!(m.p2p_uploaded_bytes, 64);
    assert_eq!(m.active_p2p_peer_count, 1);
    assert_eq!(m.seeding_peer_count, 1);
}
