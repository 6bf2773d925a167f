use mesh_share::session::{build_metadata_response, refresh_session_summary, total_file_size, ShareSession, SharedFile};

fn f(id: &str, size: u64) -> SharedFile {
    SharedFile {
        file_id: id.to_string(),
        file_name: id.to_string(),
        file_path: format!("/{id}"),
        file_size: size,
        info_hash: String::new(),
        piece_size: 262144,
        piece_count: 1,
        magnet_uri: String::new(),
        content_signature: String::new(),
        seed_reused: false,
        torrent_bytes: vec![],
    }
}

fn session(files: Vec<SharedFile>) -> ShareSession {
    ShareSession {
        session_id: "sess-9".to_string(),
        files,
        file_count: 0,
        total_size: 0,
        revision: 1,
        last_updated_unix_ms: 0,
        tracker_urls: vec!["wss://t".to_string()],
        started_at_unix_ms: 3,
    }
}

#[test]
fn summary_counts_files_and_bytes() {
    let mut s = session(vec![f("a", 10), f("b", 32)]);
    refresh_session_summary(&mut s, 7, 99);
    assert_eq!(s.file_count, 2);
    assert_eq!(s.total_size, 42);
    assert_eq!(s.revision, 7);
    assert_eq!(s.last_updated_unix_ms, 99);
    assert_eq!(s.started_at_unix_ms, 3);
}

#[test]
fn total_size_wraps() {
    assert_eq!(total_file_size(&vec![f("a", u64::MAX), f("b", 3)]), 2);
    assert_eq!(total_file_size(&vec![]), 0);
}

#[test]
fn metadata_response_copies_session() {
    let mut s = session(vec![f("a", 10)]);
    refresh_session_summary(&mut s, 4, 5);
    let m = build_metadata_response(&s, true, 3, "wss://h/announce".to_string());
    assert_eq!(m.metadata_version, 1);
    assert_eq!(m.min_supported_metadata_version, 1);
    assert_eq!(m.max_supported_metadata_version, 1);
    assert_eq!(m.session_id, "sess-9");
    assert_eq!(m.files.len(), 1);
    assert_eq!(m.files[0].file_id, "a");
    assert_eq!(m.file_count, 1);
    assert_eq!(m.total_size, 10);
    assert_eq!(m.revision, 4);
    assert_eq!(m.last_updated_unix_ms, 5);
    assert_eq!(m.tracker_urls, vec!["wss://t"]);
    assert_eq!(m.started_at_unix_ms, 3);
    assert!(m.fallback_http_enabled);
    assert_eq!(m.piece_priority_offset, 3);
    assert_eq!(m.builtin_tracker_url, "wss://h/announce");
}
