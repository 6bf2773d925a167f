//! The share as downloaders see it: the shared files, the session that
//! lists them, and the metadata document served to download pages.
use vstd::prelude::*;
use crate::text::{append_chars, chars_of, decimal, decimal_chars};

verus! {

/// One shared file.
pub struct SharedFile {
    pub file_id: String,
    pub file_name: String,
    pub file_path: String,
    pub file_size: u64,
    pub info_hash: String,
    pub piece_size: usize,
    pub piece_count: usize,
    pub magnet_uri: String,
    pub content_signature: String,
    pub seed_reused: bool,
    pub torrent_bytes: Vec<u8>,
}

pub struct SharedFileView {
    pub file_id: Seq<char>,
    pub file_name: Seq<char>,
    pub file_path: Seq<char>,
    pub file_size: u64,
    pub info_hash: Seq<char>,
    pub piece_size: usize,
    pub piece_count: usize,
    pub magnet_uri: Seq<char>,
    pub content_signature: Seq<char>,
    pub seed_reused: bool,
    pub torrent_bytes: Seq<u8>,
}

impl View for SharedFile {
    type V = SharedFileView;

    open spec fn view(&self) -> SharedFileView {
        SharedFileView {
            file_id: self.file_id@,
            file_name: self.file_name@,
            file_path: self.file_path@,
            file_size: self.file_size,
            info_hash: self.info_hash@,
            piece_size: self.piece_size,
            piece_count: self.piece_count,
            magnet_uri: self.magnet_uri@,
            content_signature: self.content_signature@,
            seed_reused: self.seed_reused,
            torrent_bytes: self.torrent_bytes@,
        }
    }
}

/// A running share: its files and what download pages are told about it.
pub struct ShareSession {
    pub session_id: String,
    pub files: Vec<SharedFile>,
    pub file_count: usize,
    pub total_size: u64,
    pub revision: u64,
    pub last_updated_unix_ms: u128,
    pub tracker_urls: Vec<String>,
    pub started_at_unix_ms: u128,
}

pub struct SessionView {
    pub session_id: Seq<char>,
    pub files: Seq<SharedFileView>,
    pub file_count: usize,
    pub total_size: u64,
    pub revision: u64,
    pub last_updated_unix_ms: u128,
    pub tracker_urls: Seq<Seq<char>>,
    pub started_at_unix_ms: u128,
}

pub open spec fn files_view(files: Seq<SharedFile>) -> Seq<SharedFileView> {
    files.map_values(|f: SharedFile| f@)
}

impl View for ShareSession {
    type V = SessionView;

    open spec fn view(&self) -> SessionView {
        SessionView {
            session_id: self.session_id@,
            files: files_view(self.files@),
            file_count: self.file_count,
            total_size: self.total_size,
            revision: self.revision,
            last_updated_unix_ms: self.last_updated_unix_ms,
            tracker_urls: self.tracker_urls.deep_view(),
            started_at_unix_ms: self.started_at_unix_ms,
        }
    }
}

fn copy_bytes(v: &Vec<u8>) -> (r: Vec<u8>)
    ensures
        r@ == v@,
{
    let mut r: Vec<u8> = Vec::new();
    let mut i: usize = 0;
    while i < v.len()
        invariant
            i <= v.len(),
            r@ == v@.take(i as int),
        decreases v.len() - i,
    {
        r.push(v[i]);
        i += 1;
        assert(r@ =~= v@.take(i as int));
    }
    assert(v@.take(i as int) =~= v@);
    r
}

/// A copy of a list of strings.
pub fn copy_texts(v: &Vec<String>) -> (r: Vec<String>)
    ensures
        r.deep_view() == v.deep_view(),
{
    let mut r: Vec<String> = Vec::new();
    let mut i: usize = 0;
    while i < v.len()
        invariant
            i <= v.len(),
            r.deep_view() == v.deep_view().take(i as int),
        decreases v.len() - i,
    {
        let ghost before = r.deep_view();
        let t = v[i].clone();
        r.push(t);
        assert(r.deep_view() =~= before.push(v.deep_view()[i as int]));
        i += 1;
        assert(r.deep_view() =~= v.deep_view().take(i as int));
    }
    assert(v.deep_view().take(i as int) =~= v.deep_view());
    r
}

impl SharedFile {
    /// A copy of this file's record.
    pub fn copy(&self) -> (r: SharedFile)
        ensures
            r@ == self@,
    {
        SharedFile {
            file_id: self.file_id.clone(),
            file_name: self.file_name.clone(),
            file_path: self.file_path.clone(),
            file_size: self.file_size,
            info_hash: self.info_hash.clone(),
            piece_size: self.piece_size,
            piece_count: self.piece_count,
            magnet_uri: self.magnet_uri.clone(),
            content_signature: self.content_signature.clone(),
            seed_reused: self.seed_reused,
            torrent_bytes: copy_bytes(&self.torrent_bytes),
        }
    }
}

/// A copy of a list of file records.
pub fn copy_files(v: &Vec<SharedFile>) -> (r: Vec<SharedFile>)
    ensures
        files_view(r@) == files_view(v@),
{
    let mut r: Vec<SharedFile> = Vec::new();
    let mut i: usize = 0;
    while i < v.len()
        invariant
            i <= v.len(),
            files_view(r@) == files_view(v@).take(i as int),
        decreases v.len() - i,
    {
        let ghost before = files_view(r@);
        let f = v[i].copy();
        r.push(f);
        assert(files_view(r@) =~= before.push(files_view(v@)[i as int]));
        i += 1;
        assert(files_view(r@) =~= files_view(v@).take(i as int));
    }
    assert(files_view(v@).take(i as int) =~= files_view(v@));
    r
}

impl ShareSession {
    /// A copy of this session.
    pub fn copy(&self) -> (r: ShareSession)
        ensures
            r@ == self@,
    {
        ShareSession {
            session_id: self.session_id.clone(),
            files: copy_files(&self.files),
            file_count: self.file_count,
            total_size: self.total_size,
            revision: self.revision,
            last_updated_unix_ms: self.last_updated_unix_ms,
            tracker_urls: copy_texts(&self.tracker_urls),
            started_at_unix_ms: self.started_at_unix_ms,
        }
    }
}

/// Sum of the file sizes.
pub open spec fn size_sum(files: Seq<SharedFileView>) -> nat
    decreases files.len(),
{
    if files.len() == 0 {
        0
    } else {
        size_sum(files.drop_last()) + files.last().file_size as nat
    }
}

pub open spec fn wrap_u64(n: nat) -> u64 {
    (n % 0x1_0000_0000_0000_0000) as u64
}

/// Sum of the sizes of `files`, wrapping at 2^64.
pub fn total_file_size(files: &Vec<SharedFile>) -> (r: u64)
    ensures
        r == wrap_u64(size_sum(files_view(files@))),
{
    let ghost fv = files_view(files@);
    let mut total: u64 = 0;
    let mut i: usize = 0;
    while i < files.len()
        invariant
            i <= files.len(),
            fv == files_view(files@),
            total == wrap_u64(size_sum(fv.take(i as int))),
        decreases files.len() - i,
    {
        assert(fv.take(i + 1).drop_last() =~= fv.take(i as int));
        let ghost before = size_sum(fv.take(i as int));
        total = total.wrapping_add(files[i].file_size);
        proof {
            crate::text::lemma_wrapping_add_mod(
                before as int,
                files@[i as int].file_size as int,
                0x1_0000_0000_0000_0000,
            );
        }
        i += 1;
    }
    assert(fv.take(i as int) =~= fv);
    total
}

/// Brings the summary of a session up to date: file count, total size
/// (wrapping at 2^64), revision and time of the update.
pub fn refresh_session_summary(session: &mut ShareSession, revision: u64, last_updated_unix_ms: u128)
    ensures
        final(session)@ == (SessionView {
            file_count: old(session)@.files.len() as usize,
            total_size: wrap_u64(size_sum(old(session)@.files)),
            revision,
            last_updated_unix_ms,
            ..old(session)@
        }),
{
    session.file_count = session.files.len();
    session.total_size = total_file_size(&session.files);
    session.revision = revision;
    session.last_updated_unix_ms = last_updated_unix_ms;
}

/// The metadata document served to download pages.
pub struct MetadataResponse {
    pub metadata_version: u16,
    pub min_supported_metadata_version: u16,
    pub max_supported_metadata_version: u16,
    pub session_id: String,
    pub files: Vec<SharedFile>,
    pub file_count: usize,
    pub total_size: u64,
    pub revision: u64,
    pub last_updated_unix_ms: u128,
    pub tracker_urls: Vec<String>,
    pub started_at_unix_ms: u128,
    pub fallback_http_enabled: bool,
    pub piece_priority_offset: u64,
    pub builtin_tracker_url: String,
}

/// `m` is the metadata document of session `s`, with the given flag,
/// piece offset and built-in tracker URL.
pub open spec fn metadata_describes(
    m: MetadataResponse,
    s: SessionView,
    fallback_http_enabled: bool,
    piece_priority_offset: u64,
    builtin_tracker_url: Seq<char>,
) -> bool {
    &&& m.metadata_version == crate::torrent::METADATA_VERSION
    &&& m.min_supported_metadata_version == crate::serve::MIN_SUPPORTED_METADATA_VERSION
    &&& m.max_supported_metadata_version == crate::serve::MAX_SUPPORTED_METADATA_VERSION
    &&& m.session_id@ == s.session_id
    &&& files_view(m.files@) == s.files
    &&& m.file_count == s.file_count
    &&& m.total_size == s.total_size
    &&& m.revision == s.revision
    &&& m.last_updated_unix_ms == s.last_updated_unix_ms
    &&& m.tracker_urls.deep_view() == s.tracker_urls
    &&& m.started_at_unix_ms == s.started_at_unix_ms
    &&& m.fallback_http_enabled == fallback_http_enabled
    &&& m.piece_priority_offset == piece_priority_offset
    &&& m.builtin_tracker_url@ == builtin_tracker_url
}

/// The metadata document for a session: its fields, the version range
/// this server speaks, and the given flag, piece offset and tracker URL.
pub fn build_metadata_response(
    session: &ShareSession,
    fallback_http_enabled: bool,
    piece_priority_offset: u64,
    builtin_tracker_url: String,
) -> (r: MetadataResponse)
    ensures
        r.metadata_version == crate::torrent::METADATA_VERSION,
        r.min_supported_metadata_version == crate::serve::MIN_SUPPORTED_METADATA_VERSION,
        r.max_supported_metadata_version == crate::serve::MAX_SUPPORTED_METADATA_VERSION,
        r.session_id@ == session@.session_id,
        files_view(r.files@) == session@.files,
        r.file_count == session.file_count,
        r.total_size == session.total_size,
        r.revision == session.revision,
        r.last_updated_unix_ms == session.last_updated_unix_ms,
        r.tracker_urls.deep_view() == session@.tracker_urls,
        r.started_at_unix_ms == session.started_at_unix_ms,
        r.fallback_http_enabled == fallback_http_enabled,
        r.piece_priority_offset == piece_priority_offset,
        r.builtin_tracker_url == builtin_tracker_url,
{
    MetadataResponse {
        metadata_version: crate::torrent::METADATA_VERSION,
        min_supported_metadata_version: crate::serve::MIN_SUPPORTED_METADATA_VERSION,
        max_supported_metadata_version: crate::serve::MAX_SUPPORTED_METADATA_VERSION,
        session_id: session.session_id.clone(),
        files: copy_files(&session.files),
        file_count: session.file_count,
        total_size: session.total_size,
        revision: session.revision,
        last_updated_unix_ms: session.last_updated_unix_ms,
        tracker_urls: copy_texts(&session.tracker_urls),
        started_at_unix_ms: session.started_at_unix_ms,
        fallback_http_enabled,
        piece_priority_offset,
        builtin_tracker_url,
    }
}

/// `sess-<ms>`.
pub fn generate_session_id(now_unix_ms: u128) -> (r: String)
    ensures
        r@ == "sess-"@ + decimal(now_unix_ms as nat),
{
    let mut r = String::new();
    append_chars(&mut r, &chars_of("sess-"));
    append_chars(&mut r, &decimal_chars(now_unix_ms));
    r
}

/// Sessions started at different milliseconds get different ids.
pub proof fn lemma_session_ids_distinct(a: u128, b: u128)
    requires
        a != b,
    ensures
        "sess-"@ + decimal(a as nat) != "sess-"@ + decimal(b as nat),
{
    if "sess-"@ + decimal(a as nat) == "sess-"@ + decimal(b as nat) {
        let p = "sess-"@;
        assert(("sess-"@ + decimal(a as nat)).skip(p.len() as int) =~= decimal(a as nat));
        assert(("sess-"@ + decimal(b as nat)).skip(p.len() as int) =~= decimal(b as nat));
        crate::text::lemma_decimal_injective(a as nat, b as nat);
    }
}

} // verus!
