use mesh_share::batch::{check_selection, FileBatch};
use mesh_share::torrent::SeedMetadata;

fn meta(size: u64) -> SeedMetadata {
    SeedMetadata {
        file_size: size,
        info_hash: "h".repeat(40),
        piece_size: 262144,
        piece_count: 1,
        magnet_uri: "m".to_string(),
        content_signature: "c".to_string(),
        seed_reused: true,
        torrent_bytes: vec![1],
    }
}

#[test]
fn new_files_get_next_ids() {
    let mut batch = FileBatch::new(vec!["/old/a.bin".to_string()], 2, "https://h:1".to_string());
    assert!(batch.plan(0, "/old/a.bin").is_none());
    let p = batch.plan(1, "/new/b.bin").expect("plan");
    assert_eq!(p.file_id, "file-4");
    assert_eq!(p.file_name, "b.bin");
    assert_eq!(p.file_path, "/new/b.bin");
    assert_eq!(p.web_seed_url, "https://h:1/api/file/file-4");
    assert_eq!(p.file_index, 2);
    batch.add(p, meta(5));
    assert!(batch.plan(2, "/new/b.bin").is_none());
    let files = batch.finish().ok().unwrap();
    assert_eq!(files.len(), 1);
    assert_eq!(files[0].file_id, "file-4");
    assert_eq!(files[0].file_size, 5);
    assert!(files[0].seed_reused);
}

#[test]
fn planned_file_is_named_by_its_last_component() {
    let mut batch = FileBatch::new(vec![], 0, "https://h:1".to_string());
    let p = batch.plan(0, "/data/a.txt").expect("plan");
    assert_eq!(p.file_name, "a.txt");
    assert_eq!(p.file_id, "file-1");
}

#[test]
fn batch_without_new_files_fails() {
    let batch = FileBatch::new(vec![], 0, String::new());
    assert_eq!(batch.finish().err().unwrap(), "No new files were added to the share session");
}

#[test]
fn empty_selection_is_refused() {
    assert_eq!(check_selection(0, true).err().unwrap(), "Please select at least one file to add");
    assert_eq!(check_selection(0, false).err().unwrap(), "Please select at least one file to share");
    assert!(check_selection(2, true).is_ok());
}
