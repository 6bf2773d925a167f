use sha1::Digest;
use mesh_share::paths::{display_name, download_name, seed_descriptor_path};
use mesh_share::torrent::{
    build_magnet_uri, build_torrent_bytes, descriptor_reusable, fresh_seed_metadata, piece_size_for_file,
    reuse_seed_metadata, reused_metadata_from, seed_layout, try_reuse_descriptor, PieceHasher, SeedDescriptor, SeedMetadata,
    METADATA_VERSION,
};

const DATA: &[u8] = b"mesh-p2p-test";
const WEB_SEED: &str = "http://127.0.0.1:3000/api/file/file-1";
const INFO_HASH: &str = "3f18293d6d8c1de3e72f7c03219302d0c074d260";

fn trackers() -> Vec<String> {
    vec!["wss://tracker.example.com".to_string()]
}

fn hash_pieces(data: &[u8], piece_size: usize) -> Vec<u8> {
    let mut h = PieceHasher::new(piece_size);
    for chunk in data.chunks(piece_size) {
        h.absorb(chunk);
    }
    assert_eq!(h.bytes_processed(), data.len() as u64);
    h.finish()
}

fn fresh(name: &str, modified: u128, now_ms: u128) -> (SeedMetadata, SeedDescriptor) {
    let (piece_size, piece_count) = seed_layout(DATA.len() as u64);
    let pieces = hash_pieces(DATA, piece_size);
    fresh_seed_metadata(
        name,
        DATA.len() as u64,
        modified,
        piece_size,
        piece_count,
        &pieces,
        &trackers(),
        WEB_SEED,
        now_ms,
    )
}

#[test]
fn piece_size_grows_with_file_size() {
    assert_eq!(piece_size_for_file(0), 256 * 1024);
    assert_eq!(piece_size_for_file(256 * 1024 * 1024), 256 * 1024);
    assert_eq!(piece_size_for_file(256 * 1024 * 1024 + 1), 512 * 1024);
    assert_eq!(piece_size_for_file(1024 * 1024 * 1024), 512 * 1024);
    assert_eq!(piece_size_for_file(1024 * 1024 * 1024 + 1), 1024 * 1024);
    assert_eq!(piece_size_for_file(4 * 1024 * 1024 * 1024), 1024 * 1024);
    assert_eq!(piece_size_for_file(4 * 1024 * 1024 * 1024 + 1), 2 * 1024 * 1024);
    assert_eq!(piece_size_for_file(u64::MAX), 2 * 1024 * 1024);
}

#[test]
fn seed_layout_rounds_piece_count_up() {
    assert_eq!(seed_layout(0), (262144, 1));
    assert_eq!(seed_layout(13), (262144, 1));
    assert_eq!(seed_layout(262144), (262144, 1));
    assert_eq!(seed_layout(262145), (262144, 2));
    assert_eq!(seed_layout(2 * 1024 * 1024 * 1024), (1024 * 1024, 2048));
    assert_eq!(seed_layout(5 * 1024 * 1024 * 1024), (2 * 1024 * 1024, 2560));
}

#[test]
fn piece_hasher_writes_sha1_of_each_piece() {
    let pieces = hash_pieces(DATA, 262144);
    assert_eq!(hex_of(&pieces), "9f33cc27e61c97b502d87d543b144a431cd8e042");
    let two = hash_pieces(b"abcd", 2);
    assert_eq!(two.len(), 40);
}

fn hex_of(b: &[u8]) -> String {
    b.iter().map(|x| format!("{:02x}", x)).collect()
}

#[test]
fn torrent_bytes_and_info_hash_are_exact() {
    let pieces = hash_pieces(DATA, 262144);
    let (bytes, info_hash) =
        build_torrent_bytes("sample.bin", 13, 262144, &pieces, &trackers(), WEB_SEED, 1_700_000_000_123);
    assert_eq!(info_hash, INFO_HASH);
    let mut expected = b"d8:announce25:wss://tracker.example.com13:announce-listll25:wss://tracker.example.comee10:created by8:mesh-p2p13:creation datei1700000000e4:infod6:lengthi13e4:name10:sample.bin12:piece lengthi262144e6:pieces20:".to_vec();
    expected.extend_from_slice(&pieces);
    expected.extend_from_slice(b"e8:url-listl37:http://127.0.0.1:3000/api/file/file-1ee");
    assert_eq!(bytes, expected);
}

#[test]
fn torrent_without_trackers_has_no_announce() {
    let (bytes, _) = build_torrent_bytes("a", 0, 262144, &[], &[], "w", 5000);
    assert_eq!(
        bytes,
        b"d10:created by8:mesh-p2p13:creation datei5e4:infod6:lengthi0e4:name1:a12:piece lengthi262144e6:pieces0:e8:url-listl1:wee".to_vec()
    );
}

#[test]
fn magnet_uri_percent_encodes_parts() {
    let uri = build_magnet_uri(INFO_HASH, "sample.bin", 13, &trackers(), WEB_SEED);
    assert_eq!(
        uri,
        "magnet:?xt=urn:btih:3f18293d6d8c1de3e72f7c03219302d0c074d260&dn=sample.bin&xl=13&tr=wss%3A%2F%2Ftracker.example.com&ws=http%3A%2F%2F127.0.0.1%3A3000%2Fapi%2Ffile%2Ffile-1"
    );
    let spaced = build_magnet_uri("h", "a b~é", 1, &[], "x");
    assert_eq!(spaced, "magnet:?xt=urn:btih:h&dn=a%20b~%C3%A9&xl=1&ws=x");
}

#[test]
fn build_seed_metadata_for_valid_file() {
    let (metadata, _) = fresh("sample.bin", 1, 1_700_000_000_123);

    assert!(metadata.file_size > 0);
    assert!(!metadata.info_hash.is_empty());
    assert!(metadata.magnet_uri.contains("magnet:?xt=urn:btih:"));
    assert!(metadata.magnet_uri.contains("tracker.example.com"));
    assert!(!metadata.content_signature.is_empty());
    assert_eq!(metadata.info_hash, INFO_HASH);
    assert_eq!(metadata.content_signature, format!("{INFO_HASH}:13:1"));
    assert!(!metadata.seed_reused);
}

#[test]
fn fresh_descriptor_records_layout_and_pieces() {
    let (metadata, d) = fresh("sample.bin", 77, 0);
    assert_eq!(d.schema_version, METADATA_VERSION);
    assert_eq!(d.file_size, 13);
    assert_eq!(d.modified_unix_ms, 77);
    assert_eq!(d.piece_size, 262144);
    assert_eq!(d.piece_count, 1);
    assert_eq!(d.info_hash, metadata.info_hash);
    assert_eq!(d.pieces_base64, "nzPMJ+Ycl7UC2H1UOxRKQxzY4EI=");
}

#[test]
fn build_seed_metadata_reuses_descriptor_when_file_unchanged() {
    let (first, d) = fresh("sample.bin", 1234, 1_700_000_000_000);
    assert!(!first.seed_reused);

    assert!(descriptor_reusable(&d, 13, 1234, 262144, 1));
    let second = reuse_seed_metadata(&d, "sample.bin", 13, 262144, &trackers(), WEB_SEED, 1_700_000_000_000)
        .expect("second metadata");

    assert!(second.seed_reused);
    assert_eq!(first.info_hash, second.info_hash);
    assert_eq!(first.magnet_uri, second.magnet_uri);
    assert_eq!(first.content_signature, second.content_signature);
    assert_eq!(first.torrent_bytes, second.torrent_bytes);

    let descriptor_path = seed_descriptor_path("/tmp/mesh/sample.bin").expect("descriptor path");
    assert_eq!(descriptor_path, "/tmp/mesh/sample.bin.mesh.seed.json");
}

#[test]
fn changed_file_does_not_reuse_descriptor() {
    let (_, d) = fresh("sample.bin", 1234, 0);
    assert!(!descriptor_reusable(&d, 13, 1235, 262144, 1));
    assert!(!descriptor_reusable(&d, 14, 1234, 262144, 1));
    assert!(!descriptor_reusable(&d, 13, 1234, 524288, 1));
    assert!(!descriptor_reusable(&d, 13, 1234, 262144, 2));
    let mut old = d;
    old.schema_version = 0;
    assert!(!descriptor_reusable(&old, 13, 1234, 262144, 1));
}

#[test]
fn empty_file_descriptor_is_not_reusable() {
    let (m, d) = fresh_seed_metadata("e", 0, 5, 262144, 1, &[], &trackers(), WEB_SEED, 0);
    assert_eq!(d.pieces_base64, "");
    assert!(!descriptor_reusable(&d, 0, 5, 262144, 1));
    assert_eq!(m.piece_count, 1);
}

#[test]
fn broken_descriptor_pieces_fail_to_decode() {
    let (_, mut d) = fresh("sample.bin", 1, 0);
    d.pieces_base64 = "not base64!".to_string();
    let err = reuse_seed_metadata(&d, "sample.bin", 13, 262144, &trackers(), WEB_SEED, 0)
        .err()
        .expect("decode error");
    assert!(err.starts_with("Failed to decode seed descriptor pieces: "));
    assert!(err.len() > "Failed to decode seed descriptor pieces: ".len());
}

#[test]
fn display_name_takes_last_component() {
    assert_eq!(display_name("/tmp/mesh/sample.bin"), "sample.bin");
    assert_eq!(display_name("/"), "shared-file");
    assert!(seed_descriptor_path("/").is_none());
    assert_eq!(display_name("plain.bin"), "plain.bin");
    assert_eq!(download_name("/srv/x/movie.mkv"), "movie.mkv");
    assert_eq!(download_name("/"), "download.bin");
    assert_eq!(seed_descriptor_path("plain.bin"), Some("plain.bin.mesh.seed.json".to_string()));
}

#[test]
fn descriptor_sits_beside_the_file() {
    assert_eq!(
        seed_descriptor_path("/data/movie.mkv"),
        Some("/data/movie.mkv.mesh.seed.json".to_string())
    );
    assert_eq!(seed_descriptor_path("/movie.mkv"), Some("/movie.mkv.mesh.seed.json".to_string()));
    assert_eq!(display_name("/data/movie.mkv"), "movie.mkv");
}

fn expected_digests(pieces: &[&[u8]]) -> Vec<u8> {
    let mut out = Vec::new();
    for piece in pieces {
        out.extend_from_slice(&<sha1::Sha1 as Digest>::digest(piece));
    }
    out
}

#[test]
fn piece_hasher_cuts_pieces_whatever_the_chunks() {
    let mut h = PieceHasher::new(2);
    h.absorb(b"abc");
    h.absorb(b"d");
    h.absorb(b"");
    h.absorb(b"efg");
    assert_eq!(h.bytes_processed(), 7);
    assert_eq!(h.finish(), expected_digests(&[b"ab", b"cd", b"ef", b"g"]));
}

#[test]
fn piece_hasher_on_whole_pieces_and_on_nothing() {
    let mut h = PieceHasher::new(2);
    h.absorb(b"abcd");
    assert_eq!(h.finish(), expected_digests(&[b"ab", b"cd"]));
    let empty = PieceHasher::new(4);
    assert_eq!(empty.bytes_processed(), 0);
    assert!(empty.finish().is_empty());
}

#[test]
fn decoded_pieces_rebuild_metadata() {
    let (first, d) = fresh("sample.bin", 3, 9000);
    let pieces = hash_pieces(DATA, 262144);
    let m = reused_metadata_from(&d, Ok(pieces), "sample.bin", 13, 262144, &trackers(), WEB_SEED, 9000)
        .ok()
        .unwrap();
    assert!(m.seed_reused);
    assert_eq!(m.info_hash, first.info_hash);
    assert_eq!(m.torrent_bytes, first.torrent_bytes);
    let e = reused_metadata_from(&d, Err("bad".to_string()), "sample.bin", 13, 262144, &trackers(), WEB_SEED, 0)
        .err()
        .unwrap();
    assert_eq!(e, "Failed to decode seed descriptor pieces: bad");
}

#[test]
fn unchanged_file_reuses_its_descriptor() {
    let (first, d) = fresh("sample.bin", 3, 9000);
    let (piece_size, piece_count) = seed_layout(DATA.len() as u64);
    let size = DATA.len() as u64;
    let found = Some(d);
    let second = try_reuse_descriptor(&found, "sample.bin", size, 3, piece_size, piece_count, &trackers(), WEB_SEED, 9000)
        .expect("reusable")
        .ok()
        .unwrap();
    assert!(!first.seed_reused);
    assert!(second.seed_reused);
    assert_eq!(second.info_hash, first.info_hash);
    assert_eq!(second.torrent_bytes, first.torrent_bytes);
    assert!(try_reuse_descriptor(&found, "sample.bin", size, 4, piece_size, piece_count, &trackers(), WEB_SEED, 9000)
        .is_none());
    assert!(try_reuse_descriptor(&None, "sample.bin", size, 3, piece_size, piece_count, &trackers(), WEB_SEED, 9000)
        .is_none());
}
