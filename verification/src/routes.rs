//! What the sharing server's routes answer: each request is first counted
//! against the rate limit, then noted as activity of its client, and then
//! served from the running share or refused with a status and a message.
use vstd::prelude::*;
use crate::runtime::{
    added_share, drop_stale, file_index, opt_text, tracker_of, wrapping_inc, ClientStatsReport, ErrorResponse,
    FileLookup, ReportView, RuntimeView, ShareRuntime, fresh_reports, reported_figures,
    report_ids, runtime_wf, stale, upsert_report,
};
use crate::serve::{
    drop_expired, metadata_version_supported, RateLimiter, MAX_CHUNK_SIZE,
    MAX_SUPPORTED_METADATA_VERSION, MIN_SUPPORTED_METADATA_VERSION, RATE_LIMIT_MAX,
};
use crate::session::{files_view, metadata_describes, MetadataResponse, SharedFileView};
use crate::text::{append_chars, chars_of, decimal, decimal_chars};

verus! {

/// A refused request: the HTTP status and the JSON body.
pub struct RouteError {
    pub status: u16,
    pub body: ErrorResponse,
}

/// Status, message, error code and upgrade hint of a refusal.
pub open spec fn error_view(e: RouteError) -> (u16, Seq<char>, Option<Seq<char>>, Option<Seq<char>>) {
    (e.status, e.body.error@, opt_text(e.body.error_code), opt_text(e.body.upgrade_hint))
}

pub open spec fn plain_error(status: u16, msg: Seq<char>) -> (u16, Seq<char>, Option<Seq<char>>, Option<Seq<char>>) {
    (status, msg, None, None)
}

/// The message refusing metadata version `v`.
pub open spec fn version_message(v: u16) -> Seq<char> {
    "Unsupported metadata version: "@ + decimal(v as nat) + ". Supported range: "@ + decimal(
        MIN_SUPPORTED_METADATA_VERSION as nat,
    ) + "..="@ + decimal(MAX_SUPPORTED_METADATA_VERSION as nat)
}

/// The hint sent with a refused metadata version.
pub open spec fn version_hint() -> Seq<char> {
    "Please upgrade download page to metadataVersion="@ + decimal(MAX_SUPPORTED_METADATA_VERSION as nat)
}

/// Whether the rate limiter with window `q` admits a request at `now`.
pub open spec fn admitted(q: Seq<u64>, now: u64) -> bool {
    drop_expired(q, now).len() < RATE_LIMIT_MAX
}

/// The runtime after noting a request from `ip` at `now_ns` / `now_unix_ms`.
pub open spec fn seen(v: RuntimeView, ip: Seq<char>, now_ns: u64, now_unix_ms: u128) -> RuntimeView {
    RuntimeView {
        activity: drop_stale(v.activity.push((ip, now_ns)), now_ns),
        last_activity_unix_ms: now_unix_ms,
        ..v
    }
}

fn text(lit: &str) -> (r: String)
    ensures
        r@ == lit@,
{
    let mut r = String::new();
    append_chars(&mut r, &chars_of(lit));
    r
}

fn error(status: u16, msg: String, code: Option<String>, hint: Option<String>) -> (e: RouteError)
    ensures
        error_view(e) == (status, msg@, opt_text(code), opt_text(hint)),
{
    RouteError { status, body: ErrorResponse { error: msg, error_code: code, upgrade_hint: hint } }
}

/// Counts a request at `now_ns` against the rate limit; refused with 429
/// when the window is full.
pub fn pass_rate_limit(limiter: &mut RateLimiter, now_ns: u64) -> (r: Result<(), RouteError>)
    ensures
        r is Ok == admitted(old(limiter)@, now_ns),
        r matches Err(e) ==> error_view(e) == plain_error(429, "Rate limit exceeded"@),
        final(limiter)@ == if admitted(old(limiter)@, now_ns) {
            drop_expired(old(limiter)@, now_ns).push(now_ns)
        } else {
            drop_expired(old(limiter)@, now_ns)
        },
{
    if limiter.enforce_rate_limit(now_ns) {
        Ok(())
    } else {
        Err(error(429, text("Rate limit exceeded"), None, None))
    }
}

fn version_error(v: u16) -> (e: RouteError)
    ensures
        error_view(e) == (
            426u16,
            version_message(v),
            Some("METADATA_VERSION_UNSUPPORTED"@),
            Some(version_hint()),
        ),
{
    let mut msg = text("Unsupported metadata version: ");
    append_chars(&mut msg, &decimal_chars(v as u128));
    append_chars(&mut msg, &chars_of(". Supported range: "));
    append_chars(&mut msg, &decimal_chars(MIN_SUPPORTED_METADATA_VERSION as u128));
    append_chars(&mut msg, &chars_of("..="));
    append_chars(&mut msg, &decimal_chars(MAX_SUPPORTED_METADATA_VERSION as u128));
    let mut hint = text("Please upgrade download page to metadataVersion=");
    append_chars(&mut hint, &decimal_chars(MAX_SUPPORTED_METADATA_VERSION as u128));
    error(426, msg, Some(text("METADATA_VERSION_UNSUPPORTED")), Some(hint))
}

/// The rate limiter's window after a request at `now`.
pub open spec fn window_after(q: Seq<u64>, now: u64) -> Seq<u64> {
    if admitted(q, now) {
        drop_expired(q, now).push(now)
    } else {
        drop_expired(q, now)
    }
}

/// Whether a metadata request with this (optional) version is served.
pub open spec fn metadata_version_ok(version: Option<u16>) -> bool {
    match version {
        None => true,
        Some(v) => MIN_SUPPORTED_METADATA_VERSION <= v <= MAX_SUPPORTED_METADATA_VERSION,
    }
}

/// What `GET /api/metadata` does: from runtime `v0` and rate-limit window
/// `q0`, a request at version `version` from `ip` is answered `r` and leaves
/// `v1`. Past the rate limit: 429, nothing else changes. At an unsupported
/// version: 426 with a code and an upgrade hint, nothing else changes.
/// Otherwise the request is noted as activity; without a share: 410; with
/// one: its metadata document with the next piece offset.
pub open spec fn metadata_outcome(
    v0: RuntimeView,
    q0: Seq<u64>,
    version: Option<u16>,
    ip: Seq<char>,
    now_ns: u64,
    now_unix_ms: u128,
    r: Result<MetadataResponse, RouteError>,
    v1: RuntimeView,
) -> bool {
    if !admitted(q0, now_ns) {
        (r matches Err(e) && error_view(e) == plain_error(429, "Rate limit exceeded"@)) && v1 == v0
    } else if !metadata_version_ok(version) {
        (r matches Err(e) && error_view(e) == (
            426u16,
            version_message(version->0),
            Some("METADATA_VERSION_UNSUPPORTED"@),
            Some(version_hint()),
        )) && v1 == v0
    } else {
        let v = seen(v0, ip, now_ns, now_unix_ms);
        match v.session {
            None => (r matches Err(e) && error_view(e) == plain_error(410, "Share session is not active"@))
                && v1 == v,
            Some(s) => (r matches Ok(m) && metadata_describes(
                m,
                s,
                v.fallback_http_enabled,
                v.piece_offset_counter % crate::runtime::NUM_PIECE_SLICES,
                tracker_of(v.server_url),
            )) && v1 == (RuntimeView { piece_offset_counter: wrapping_inc(v.piece_offset_counter), ..v }),
        }
    }
}

/// What a request for the shared file with id `file_id` does: past the
/// rate limit 429 and nothing else changes; otherwise the request is noted
/// as activity, and without a share it is refused with 410, for a file the
/// share does not have with 404 and `not_found`, else `found` is told the
/// file.
pub open spec fn lookup_outcome<T>(
    v0: RuntimeView,
    q0: Seq<u64>,
    file_id: Seq<char>,
    ip: Seq<char>,
    now_ns: u64,
    now_unix_ms: u128,
    not_found: Seq<char>,
    found: spec_fn(SharedFileView, T) -> bool,
    r: Result<T, RouteError>,
    v1: RuntimeView,
) -> bool {
    if !admitted(q0, now_ns) {
        (r matches Err(e) && error_view(e) == plain_error(429, "Rate limit exceeded"@)) && v1 == v0
    } else {
        let v = seen(v0, ip, now_ns, now_unix_ms);
        &&& v1 == v
        &&& match v.session {
            None => r matches Err(e) && error_view(e) == plain_error(410, "Share session is not active"@),
            Some(s) => match file_index(s.files, file_id) {
                None => r matches Err(e) && error_view(e) == plain_error(404, not_found),
                Some(i) => r matches Ok(x) && found(s.files[i], x),
            },
        }
    }
}

/// What `POST /api/client-stats` does with `report`: past the rate limit
/// 429 and nothing else changes; otherwise the request is noted as
/// activity, and without a share it is refused with 410
/// (`SESSION_INACTIVE`), for a file the share does not have with 404
/// (`FILE_NOT_FOUND`); otherwise the report replaces the client's earlier
/// one, stale reports are dropped and the reported figures recomputed.
pub open spec fn client_stats_outcome(
    v0: RuntimeView,
    q0: Seq<u64>,
    report: ClientStatsReport,
    ip: Seq<char>,
    now_ns: u64,
    now_unix_ms: u128,
    r: Result<(), RouteError>,
    v1: RuntimeView,
) -> bool {
    if !admitted(q0, now_ns) {
        (r matches Err(e) && error_view(e) == plain_error(429, "Rate limit exceeded"@)) && v1 == v0
    } else {
        let v = seen(v0, ip, now_ns, now_unix_ms);
        match v.session {
            None => (r matches Err(e) && error_view(e) == (
                410u16,
                "Share session is not active"@,
                Some("SESSION_INACTIVE"@),
                None::<Seq<char>>,
            )) && v1 == v,
            Some(s) => if file_index(s.files, report.file_id@) is None {
                (r matches Err(e) && error_view(e) == (
                    404u16,
                    "Shared file not found"@,
                    Some("FILE_NOT_FOUND"@),
                    None::<Seq<char>>,
                )) && v1 == v
            } else {
                let snap = ReportView {
                    p2p_uploaded_bytes: report.p2p_uploaded_bytes,
                    active_peers: report.active_peers,
                    is_seeding: report.is_seeding,
                    last_seen_ns: now_ns,
                };
                let fresh = fresh_reports(upsert_report(v.reports, report.client_id@, snap), now_ns);
                &&& r is Ok
                &&& v1 == (RuntimeView {
                    reports: fresh,
                    p2p_uploaded_bytes: reported_figures(fresh).0,
                    active_p2p_peer_count: reported_figures(fresh).1,
                    seeding_peer_count: reported_figures(fresh).2,
                    ..v
                })
            },
        }
    }
}

/// `GET /api/metadata` (see `metadata_outcome`).
pub fn metadata_route(
    runtime: &mut ShareRuntime,
    limiter: &mut RateLimiter,
    metadata_version: Option<u16>,
    client_ip: String,
    now_ns: u64,
    now_unix_ms: u128,
) -> (r: Result<MetadataResponse, RouteError>)
    requires
        old(runtime).wf(),
    ensures
        final(runtime).wf(),
        final(limiter)@ == window_after(old(limiter)@, now_ns),
        metadata_outcome(
            old(runtime)@,
            old(limiter)@,
            metadata_version,
            client_ip@,
            now_ns,
            now_unix_ms,
            r,
            final(runtime)@,
        ),
{
    pass_rate_limit(limiter, now_ns)?;
    if !metadata_version_supported(metadata_version) {
        return Err(version_error(metadata_version.unwrap()));
    }
    runtime.record_client_activity(client_ip, now_ns, now_unix_ms);
    match runtime.metadata_reply() {
        Some(m) => Ok(m),
        None => Err(error(410, text("Share session is not active"), None, None)),
    }
}

/// The file's path.
pub open spec fn path_of(f: SharedFileView, p: String) -> bool {
    p@ == f.file_path
}

/// The file's torrent.
pub open spec fn torrent_of(f: SharedFileView, b: Vec<u8>) -> bool {
    b@ == f.torrent_bytes
}

/// `GET /api/file/<id>`: the path of the shared file to send (see
/// `lookup_outcome`).
pub fn file_route(
    runtime: &mut ShareRuntime,
    limiter: &mut RateLimiter,
    file_id: &String,
    client_ip: String,
    now_ns: u64,
    now_unix_ms: u128,
) -> (r: Result<String, RouteError>)
    requires
        old(runtime).wf(),
    ensures
        final(runtime).wf(),
        final(limiter)@ == window_after(old(limiter)@, now_ns),
        lookup_outcome(
            old(runtime)@,
            old(limiter)@,
            file_id@,
            client_ip@,
            now_ns,
            now_unix_ms,
            "Shared file not found"@,
            |f: SharedFileView, p: String| path_of(f, p),
            r,
            final(runtime)@,
        ),
{
    pass_rate_limit(limiter, now_ns)?;
    runtime.record_client_activity(client_ip, now_ns, now_unix_ms);
    match runtime.lookup_file(file_id) {
        FileLookup::NoSession => Err(error(410, text("Share session is not active"), None, None)),
        FileLookup::NotFound => Err(error(404, text("Shared file not found"), None, None)),
        FileLookup::Found(f) => Ok(f.file_path),
    }
}

/// `GET /api/torrent/<id>`: the torrent file of a shared file (see
/// `lookup_outcome`).
pub fn torrent_route(
    runtime: &mut ShareRuntime,
    limiter: &mut RateLimiter,
    file_id: &String,
    client_ip: String,
    now_ns: u64,
    now_unix_ms: u128,
) -> (r: Result<Vec<u8>, RouteError>)
    requires
        old(runtime).wf(),
    ensures
        final(runtime).wf(),
        final(limiter)@ == window_after(old(limiter)@, now_ns),
        lookup_outcome(
            old(runtime)@,
            old(limiter)@,
            file_id@,
            client_ip@,
            now_ns,
            now_unix_ms,
            "Shared torrent descriptor not found"@,
            |f: SharedFileView, b: Vec<u8>| torrent_of(f, b),
            r,
            final(runtime)@,
        ),
{
    pass_rate_limit(limiter, now_ns)?;
    runtime.record_client_activity(client_ip, now_ns, now_unix_ms);
    match runtime.lookup_file(file_id) {
        FileLookup::NoSession => Err(error(410, text("Share session is not active"), None, None)),
        FileLookup::NotFound => Err(error(404, text("Shared torrent descriptor not found"), None, None)),
        FileLookup::Found(f) => Ok(f.torrent_bytes),
    }
}

/// `POST /api/client-stats` (see `client_stats_outcome`).
pub fn client_stats_route(
    runtime: &mut ShareRuntime,
    limiter: &mut RateLimiter,
    report: &ClientStatsReport,
    client_ip: String,
    now_ns: u64,
    now_unix_ms: u128,
) -> (r: Result<(), RouteError>)
    requires
        old(runtime).wf(),
    ensures
        final(runtime).wf(),
        final(limiter)@ == window_after(old(limiter)@, now_ns),
        client_stats_outcome(
            old(runtime)@,
            old(limiter)@,
            *report,
            client_ip@,
            now_ns,
            now_unix_ms,
            r,
            final(runtime)@,
        ),
{
    pass_rate_limit(limiter, now_ns)?;
    runtime.record_client_activity(client_ip, now_ns, now_unix_ms);
    match runtime.lookup_file(&report.file_id) {
        FileLookup::NoSession => Err(
            error(410, text("Share session is not active"), Some(text("SESSION_INACTIVE")), None),
        ),
        FileLookup::NotFound => Err(
            error(404, text("Shared file not found"), Some(text("FILE_NOT_FOUND")), None),
        ),
        FileLookup::Found(_) => {
            runtime.store_client_report(report, now_ns, now_unix_ms);
            Ok(())
        },
    }
}

/// Once no share is running, the routes serving downloads refuse with 410
/// every request the rate limit admits (metadata requests at a supported
/// version), and no share starts.
pub proof fn lemma_stopped_share_is_gone<T>(
    v0: RuntimeView,
    q0: Seq<u64>,
    version: Option<u16>,
    file_id: Seq<char>,
    report: ClientStatsReport,
    ip: Seq<char>,
    now_ns: u64,
    now_unix_ms: u128,
    not_found: Seq<char>,
    found: spec_fn(SharedFileView, T) -> bool,
    metadata: Result<MetadataResponse, RouteError>,
    v_metadata: RuntimeView,
    lookup: Result<T, RouteError>,
    v_lookup: RuntimeView,
    stats: Result<(), RouteError>,
    v_stats: RuntimeView,
)
    requires
        v0.session is None,
        admitted(q0, now_ns),
        metadata_outcome(v0, q0, version, ip, now_ns, now_unix_ms, metadata, v_metadata),
        lookup_outcome(v0, q0, file_id, ip, now_ns, now_unix_ms, not_found, found, lookup, v_lookup),
        client_stats_outcome(v0, q0, report, ip, now_ns, now_unix_ms, stats, v_stats),
    ensures
        metadata_version_ok(version) ==> (metadata matches Err(e) && e.status == 410) && v_metadata.session
            is None,
        lookup matches Err(e) && e.status == 410 && v_lookup.session is None,
        stats matches Err(e) && e.status == 410 && v_stats.session is None,
{
}

/// Files added to a running share reach download pages: the next metadata
/// document served lists the share's earlier files followed by the new
/// ones, under the next revision.
pub proof fn lemma_added_files_reach_metadata(
    v0: RuntimeView,
    new_files: Seq<SharedFileView>,
    added_at: u128,
    q0: Seq<u64>,
    version: Option<u16>,
    ip: Seq<char>,
    now_ns: u64,
    now_unix_ms: u128,
    r: Result<MetadataResponse, RouteError>,
    v1: RuntimeView,
)
    requires
        v0.session is Some,
        admitted(q0, now_ns),
        metadata_version_ok(version),
        metadata_outcome(added_share(v0, new_files, added_at), q0, version, ip, now_ns, now_unix_ms, r, v1),
    ensures
        r matches Ok(m) && files_view(m.files@) == v0.session->0.files + new_files && m.revision
            == wrapping_inc(v0.metadata_revision) && m.file_count == (v0.session->0.files.len()
            + new_files.len()) as usize,
{
}

/// A client report sent again replaces the first and adds nothing: both
/// are accepted, the same clients keep reports, and the figures computed
/// from them (bytes uploaded between peers, active peer connections,
/// seeders) stay as the first left them, provided no stored report has aged
/// out by the time the second arrives (as at the same moment, when the
/// stored reports themselves stay the same).
pub proof fn lemma_resent_report_changes_nothing(
    v0: RuntimeView,
    q0: Seq<u64>,
    q1: Seq<u64>,
    report: ClientStatsReport,
    ip1: Seq<char>,
    ip2: Seq<char>,
    now_ns1: u64,
    now_ns2: u64,
    now_unix_ms1: u128,
    now_unix_ms2: u128,
    r1: Result<(), RouteError>,
    v1: RuntimeView,
    r2: Result<(), RouteError>,
    v2: RuntimeView,
)
    requires
        runtime_wf(v0),
        v0.session matches Some(s) && file_index(s.files, report.file_id@) is Some,
        admitted(q0, now_ns1),
        admitted(q1, now_ns2),
        client_stats_outcome(v0, q0, report, ip1, now_ns1, now_unix_ms1, r1, v1),
        client_stats_outcome(v1, q1, report, ip2, now_ns2, now_unix_ms2, r2, v2),
        now_ns1 == now_ns2 || forall|i: int|
            0 <= i < v1.reports.len() ==> !stale((#[trigger] v1.reports[i]).1.last_seen_ns, now_ns2),
    ensures
        r1 is Ok,
        r2 is Ok,
        report_ids(v2.reports) == report_ids(v1.reports),
        v2.p2p_uploaded_bytes == v1.p2p_uploaded_bytes,
        v2.active_p2p_peer_count == v1.active_p2p_peer_count,
        v2.seeding_peer_count == v1.seeding_peer_count,
        now_ns1 == now_ns2 ==> v2.reports == v1.reports,
{
    let snap1 = ReportView {
        p2p_uploaded_bytes: report.p2p_uploaded_bytes,
        active_peers: report.active_peers,
        is_seeding: report.is_seeding,
        last_seen_ns: now_ns1,
    };
    let snap2 = ReportView { last_seen_ns: now_ns2, ..snap1 };
    crate::runtime::lemma_upsert_again(v0.reports, report.client_id@, snap1, now_ns1, snap2, now_ns2);
}

/// The body of a 413 reply to a byte range longer than `MAX_CHUNK_SIZE`.
pub open spec fn chunk_too_large_message() -> Seq<char> {
    "Chunk too large (max "@ + decimal((MAX_CHUNK_SIZE / 1024 / 1024) as nat)
        + " MB), please use smaller Range requests"@
}

/// The body of a 413 reply to a byte range longer than `MAX_CHUNK_SIZE`.
pub fn chunk_too_large_text() -> (r: String)
    ensures
        r@ == chunk_too_large_message(),
{
    let mut r = text("Chunk too large (max ");
    append_chars(&mut r, &decimal_chars((MAX_CHUNK_SIZE / 1024 / 1024) as u128));
    append_chars(&mut r, &chars_of(" MB), please use smaller Range requests"));
    r
}

} // verus!
