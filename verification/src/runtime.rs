//! The sharing state behind the desktop commands and the HTTP routes:
//! the session, the processing progress, transfer counters, who has been
//! seen recently, what downloaders report, and the built-in tracker.
use vstd::prelude::*;
use std::collections::VecDeque;
use crate::session::{
    build_metadata_response, copy_files, copy_texts, files_view, metadata_describes,
    refresh_session_summary, size_sum, total_file_size, wrap_u64, MetadataResponse, SessionView,
    ShareSession, SharedFile, SharedFileView,
};
use crate::swarm::{
    seeders, tracker_leave, tracker_reply, TrackerMessage, TrackerReply, TrackerState, TrackerView,
};
use crate::text::{append_chars, chars_of, decimal, decimal_chars};
use crate::trackers::{builtin_tracker, builtin_tracker_url, trackers_with_builtin};

verus! {

/// How long a client or a report counts as recent: 300 s, in nanoseconds.
pub const CLIENT_ACTIVITY_WINDOW_NS: u64 = 300_000_000_000;

/// Piece offsets handed out to download pages cycle through this many values.
pub const NUM_PIECE_SLICES: u64 = 16;

/// Time from `t` to `now` on a monotonic clock (none when `now` is earlier).
pub open spec fn elapsed(t: u64, now: u64) -> nat {
    if now >= t {
        (now - t) as nat
    } else {
        0
    }
}

/// Seen more than the activity window ago.
pub open spec fn stale(t: u64, now: u64) -> bool {
    elapsed(t, now) > CLIENT_ACTIVITY_WINDOW_NS
}

/// Progress of hashing the files of a share being started or extended.
pub struct ProcessingProgress {
    pub is_processing: bool,
    pub current_file_name: String,
    pub current_file_index: usize,
    pub total_files: usize,
    pub bytes_processed: u64,
    pub total_bytes: u64,
    pub percentage: u8,
}

pub struct ProgressView {
    pub is_processing: bool,
    pub current_file_name: Seq<char>,
    pub current_file_index: usize,
    pub total_files: usize,
    pub bytes_processed: u64,
    pub total_bytes: u64,
    pub percentage: u8,
}

impl View for ProcessingProgress {
    type V = ProgressView;

    open spec fn view(&self) -> ProgressView {
        ProgressView {
            is_processing: self.is_processing,
            current_file_name: self.current_file_name@,
            current_file_index: self.current_file_index,
            total_files: self.total_files,
            bytes_processed: self.bytes_processed,
            total_bytes: self.total_bytes,
            percentage: self.percentage,
        }
    }
}

impl ProcessingProgress {
    pub fn copy(&self) -> (r: ProcessingProgress)
        ensures
            r@ == self@,
    {
        ProcessingProgress {
            is_processing: self.is_processing,
            current_file_name: self.current_file_name.clone(),
            current_file_index: self.current_file_index,
            total_files: self.total_files,
            bytes_processed: self.bytes_processed,
            total_bytes: self.total_bytes,
            percentage: self.percentage,
        }
    }
}

/// The last statistics a downloader reported.
pub struct ClientReportSnapshot {
    pub p2p_uploaded_bytes: u64,
    pub active_peers: usize,
    pub is_seeding: bool,
    pub last_seen_ns: u64,
}

/// Statistics sent by a download page.
pub struct ClientStatsReport {
    pub client_id: String,
    pub file_id: String,
    pub p2p_uploaded_bytes: u64,
    pub active_peers: usize,
    pub is_seeding: bool,
}

/// Transfer figures shown to the sharer.
pub struct ShareMetrics {
    pub active_client_count: usize,
    pub http_uploaded_bytes: u64,
    pub p2p_uploaded_bytes: u64,
    pub active_p2p_peer_count: usize,
    pub fallback_transfer_count: u64,
    pub seeding_peer_count: usize,
    pub metadata_revision: u64,
    pub last_activity_unix_ms: u128,
}

/// Plain-language summary shown to the sharer.
pub struct ShareInsights {
    pub share_state: String,
    pub reachability: String,
    pub active_downloads: usize,
    pub seeding_peers: usize,
    pub recent_error: Option<String>,
    pub recent_activity_label: String,
    pub next_action_hint: String,
}

/// Everything the sharer's window shows.
pub struct ShareStatus {
    pub is_sharing: bool,
    pub server_url: String,
    pub fallback_http_enabled: bool,
    pub session: Option<ShareSession>,
    pub metrics: ShareMetrics,
    pub insights: ShareInsights,
    pub processing_progress: Option<ProcessingProgress>,
}

/// Reply to starting a share.
pub struct StartShareResponse {
    pub server_url: String,
    pub session: ShareSession,
}

/// Body of an error reply.
pub struct ErrorResponse {
    pub error: String,
    pub error_code: Option<String>,
    pub upgrade_hint: Option<String>,
}

pub struct ReportView {
    pub p2p_uploaded_bytes: u64,
    pub active_peers: usize,
    pub is_seeding: bool,
    pub last_seen_ns: u64,
}

pub open spec fn report_view(r: ClientReportSnapshot) -> ReportView {
    ReportView {
        p2p_uploaded_bytes: r.p2p_uploaded_bytes,
        active_peers: r.active_peers,
        is_seeding: r.is_seeding,
        last_seen_ns: r.last_seen_ns,
    }
}

pub struct RuntimeView {
    pub server_url: Option<Seq<char>>,
    pub session: Option<SessionView>,
    pub tracker_urls: Seq<Seq<char>>,
    pub fallback_http_enabled: bool,
    pub http_uploaded_bytes: u64,
    pub p2p_uploaded_bytes: u64,
    pub active_p2p_peer_count: usize,
    pub fallback_transfer_count: u64,
    pub seeding_peer_count: usize,
    pub metadata_revision: u64,
    pub last_activity_unix_ms: u128,
    /// Client addresses and when they were seen, oldest first.
    pub activity: Seq<(Seq<char>, u64)>,
    /// Last report of each client.
    pub reports: Seq<(Seq<char>, ReportView)>,
    pub last_error: Option<Seq<char>>,
    pub progress: Option<ProgressView>,
    pub cancel_requested: bool,
    pub tracker: TrackerView,
    pub piece_offset_counter: u64,
}

/// The state of a share.
pub struct ShareRuntime {
    server_url: Option<String>,
    session: Option<ShareSession>,
    tracker_urls: Vec<String>,
    fallback_http_enabled: bool,
    http_uploaded_bytes: u64,
    p2p_uploaded_bytes: u64,
    active_p2p_peer_count: usize,
    fallback_transfer_count: u64,
    seeding_peer_count: usize,
    metadata_revision: u64,
    last_activity_unix_ms: u128,
    client_activity: VecDeque<(String, u64)>,
    client_reports: Vec<(String, ClientReportSnapshot)>,
    last_error: Option<String>,
    processing_progress: Option<ProcessingProgress>,
    processing_cancel_requested: bool,
    tracker: TrackerState,
    piece_offset_counter: u64,
}

pub open spec fn opt_text(o: Option<String>) -> Option<Seq<char>> {
    match o {
        Some(s) => Some(s@),
        None => None,
    }
}

pub open spec fn opt_session(o: Option<ShareSession>) -> Option<SessionView> {
    match o {
        Some(s) => Some(s@),
        None => None,
    }
}

pub open spec fn opt_progress(o: Option<ProcessingProgress>) -> Option<ProgressView> {
    match o {
        Some(p) => Some(p@),
        None => None,
    }
}

pub open spec fn reports_view(r: Seq<(String, ClientReportSnapshot)>) -> Seq<(Seq<char>, ReportView)> {
    r.map_values(|e: (String, ClientReportSnapshot)| (e.0@, report_view(e.1)))
}

pub open spec fn activity_view(a: Seq<(String, u64)>) -> Seq<(Seq<char>, u64)> {
    a.map_values(|e: (String, u64)| (e.0@, e.1))
}

impl View for ShareRuntime {
    type V = RuntimeView;

    closed spec fn view(&self) -> RuntimeView {
        RuntimeView {
            server_url: opt_text(self.server_url),
            session: opt_session(self.session),
            tracker_urls: self.tracker_urls.deep_view(),
            fallback_http_enabled: self.fallback_http_enabled,
            http_uploaded_bytes: self.http_uploaded_bytes,
            p2p_uploaded_bytes: self.p2p_uploaded_bytes,
            active_p2p_peer_count: self.active_p2p_peer_count,
            fallback_transfer_count: self.fallback_transfer_count,
            seeding_peer_count: self.seeding_peer_count,
            metadata_revision: self.metadata_revision,
            last_activity_unix_ms: self.last_activity_unix_ms,
            activity: activity_view(self.client_activity@),
            reports: reports_view(self.client_reports@),
            last_error: opt_text(self.last_error),
            progress: opt_progress(self.processing_progress),
            cancel_requested: self.processing_cancel_requested,
            tracker: self.tracker@,
            piece_offset_counter: self.piece_offset_counter,
        }
    }
}

/// Well-formed runtime state: the tracker is well formed and each client
/// has at most one report.
pub open spec fn runtime_wf(v: RuntimeView) -> bool {
    &&& crate::swarm::tracker_wf(v.tracker)
    &&& forall|i: int, j: int|
        0 <= i < v.reports.len() && 0 <= j < v.reports.len() && i != j ==> #[trigger] v.reports[i].0
            != #[trigger] v.reports[j].0
}

fn text(lit: &str) -> (r: String)
    ensures
        r@ == lit@,
{
    let mut r = String::new();
    append_chars(&mut r, &chars_of(lit));
    r
}

impl ShareRuntime {
    pub open spec fn wf(&self) -> bool {
        runtime_wf(self@)
    }

    /// A runtime with no server, no share and no activity yet.
    pub fn new(tracker_urls: Vec<String>, fallback_http_enabled: bool, now_unix_ms: u128) -> (r: Self)
        ensures
            r.wf(),
            r@.server_url is None,
            r@.session is None,
            r@.tracker_urls == tracker_urls.deep_view(),
            r@.fallback_http_enabled == fallback_http_enabled,
            r@.http_uploaded_bytes == 0,
            r@.p2p_uploaded_bytes == 0,
            r@.active_p2p_peer_count == 0,
            r@.fallback_transfer_count == 0,
            r@.seeding_peer_count == 0,
            r@.metadata_revision == 0,
            r@.last_activity_unix_ms == now_unix_ms,
            r@.activity.len() == 0,
            r@.reports.len() == 0,
            r@.last_error is None,
            r@.progress is None,
            !r@.cancel_requested,
            r@.tracker.swarms.len() == 0,
            r@.tracker.meta.len() == 0,
            r@.piece_offset_counter == 0,
    {
        let r = ShareRuntime {
            server_url: None,
            session: None,
            tracker_urls,
            fallback_http_enabled,
            http_uploaded_bytes: 0,
            p2p_uploaded_bytes: 0,
            active_p2p_peer_count: 0,
            fallback_transfer_count: 0,
            seeding_peer_count: 0,
            metadata_revision: 0,
            last_activity_unix_ms: now_unix_ms,
            client_activity: VecDeque::new(),
            client_reports: Vec::new(),
            last_error: None,
            processing_progress: None,
            processing_cancel_requested: false,
            tracker: TrackerState::new(),
            piece_offset_counter: 0,
        };
        assert(r@.reports =~= Seq::<(Seq<char>, ReportView)>::empty());
        r
    }

    /// The URL of the running sharing server, if it was started.
    pub fn server_url(&self) -> (r: Option<String>)
        ensures
            opt_text(r) == self@.server_url,
    {
        match &self.server_url {
            Some(u) => Some(u.clone()),
            None => None,
        }
    }

    /// Records that the sharing server runs at `base_url`.
    pub fn set_server_url(&mut self, base_url: String)
        requires
            old(self).wf(),
        ensures
            final(self).wf(),
            final(self)@ == (RuntimeView { server_url: Some(base_url@), ..old(self)@ }),
    {
        self.server_url = Some(base_url);
    }

    /// Starts reporting progress on `total_files` files.
    pub fn begin_processing(&mut self, total_files: usize)
        requires
            old(self).wf(),
        ensures
            final(self).wf(),
            final(self)@ == (RuntimeView {
                cancel_requested: false,
                progress: Some(
                    ProgressView {
                        is_processing: true,
                        current_file_name: Seq::empty(),
                        current_file_index: 0,
                        total_files,
                        bytes_processed: 0,
                        total_bytes: 0,
                        percentage: 0,
                    },
                ),
                ..old(self)@
            }),
    {
        self.processing_cancel_requested = false;
        self.processing_progress = Some(
            ProcessingProgress {
                is_processing: true,
                current_file_name: String::new(),
                current_file_index: 0,
                total_files,
                bytes_processed: 0,
                total_bytes: 0,
                percentage: 0,
            },
        );
    }

    /// Reports progress on the file being hashed; fails when the share was
    /// stopped meanwhile. The percentage is taken only when the file size is
    /// known to be non-zero.
    pub fn report_progress(
        &mut self,
        file_name: String,
        file_index: usize,
        file_total_size: u64,
        bytes_processed: u64,
        percentage: u8,
    ) -> (r: Result<(), String>)
        requires
            old(self).wf(),
        ensures
            final(self).wf(),
            old(self)@.cancel_requested ==> r == Err::<(), String>(r->Err_0) && r->Err_0@ == "分享已停止"@
                && final(self)@ == old(self)@,
            !old(self)@.cancel_requested ==> r is Ok && final(self)@ == (RuntimeView {
                progress: match old(self)@.progress {
                    Some(p) => Some(
                        ProgressView {
                            current_file_name: file_name@,
                            current_file_index: file_index,
                            total_bytes: file_total_size,
                            bytes_processed,
                            percentage: if file_total_size > 0 {
                                percentage
                            } else {
                                p.percentage
                            },
                            ..p
                        },
                    ),
                    None => None,
                },
                ..old(self)@
            }),
    {
        if self.processing_cancel_requested {
            return Err(text("分享已停止"));
        }
        match &mut self.processing_progress {
            Some(p) => {
                p.current_file_name = file_name;
                p.current_file_index = file_index;
                p.total_bytes = file_total_size;
                p.bytes_processed = bytes_processed;
                if file_total_size > 0 {
                    p.percentage = percentage;
                }
            },
            None => {},
        }
        Ok(())
    }

    /// Records why processing failed and stops reporting progress.
    pub fn fail_processing(&mut self, err: String)
        requires
            old(self).wf(),
        ensures
            final(self).wf(),
            final(self)@ == (RuntimeView { last_error: Some(err@), progress: None, ..old(self)@ }),
    {
        self.last_error = Some(err);
        self.processing_progress = None;
    }

    /// Stops the share: processing is cancelled, reports, peer figures and
    /// the tracker are cleared, and the session ends. Returns whether a
    /// share or processing was under way.
    pub fn stop(&mut self) -> (r: bool)
        requires
            old(self).wf(),
        ensures
            final(self).wf(),
            r == (old(self)@.session is Some || old(self)@.progress is Some),
            final(self)@ == (RuntimeView {
                cancel_requested: true,
                progress: None,
                reports: Seq::empty(),
                seeding_peer_count: 0,
                p2p_uploaded_bytes: 0,
                active_p2p_peer_count: 0,
                tracker: final(self)@.tracker,
                piece_offset_counter: 0,
                session: None,
                ..old(self)@
            }),
            final(self)@.tracker.swarms.len() == 0,
            final(self)@.tracker.meta.len() == 0,
    {
        let existed = self.session.is_some() || self.processing_progress.is_some();
        self.processing_cancel_requested = true;
        self.processing_progress = None;
        self.client_reports = Vec::new();
        self.seeding_peer_count = 0;
        self.p2p_uploaded_bytes = 0;
        self.active_p2p_peer_count = 0;
        self.tracker.clear();
        self.piece_offset_counter = 0;
        self.session = None;
        assert(self@.reports =~= Seq::<(Seq<char>, ReportView)>::empty());
        existed
    }
}

/// What adding files to a running share needs to know.
pub struct AddContext {
    pub tracker_urls: Vec<String>,
    pub base_url: String,
    pub existing_paths: Vec<String>,
    pub next_index: usize,
}

pub open spec fn file_paths(files: Seq<SharedFileView>) -> Seq<Seq<char>> {
    files.map_values(|f: SharedFileView| f.file_path)
}

/// The session started with `files`: revision 1, both times `started_at`.
pub open spec fn started_session(
    files: Seq<SharedFileView>,
    tracker_urls: Seq<Seq<char>>,
    session_id: Seq<char>,
    started_at: u128,
) -> SessionView {
    SessionView {
        session_id,
        files,
        file_count: files.len() as usize,
        total_size: wrap_u64(size_sum(files)),
        revision: 1,
        last_updated_unix_ms: started_at,
        tracker_urls,
        started_at_unix_ms: started_at,
    }
}

/// The runtime after `new_files` were added at `now_unix_ms`: the metadata
/// revision goes up by one (wrapping), the error and progress are cleared,
/// and a running share lists the new files after its own, its summary
/// brought up to date.
pub open spec fn added_share(v: RuntimeView, new_files: Seq<SharedFileView>, now_unix_ms: u128) -> RuntimeView {
    let rev = wrapping_inc(v.metadata_revision);
    let base = RuntimeView {
        metadata_revision: rev,
        last_activity_unix_ms: now_unix_ms,
        last_error: None,
        progress: None,
        cancel_requested: false,
        ..v
    };
    match v.session {
        None => base,
        Some(s) => {
            let files = s.files + new_files;
            RuntimeView {
                session: Some(
                    SessionView {
                        files,
                        file_count: files.len() as usize,
                        total_size: wrap_u64(size_sum(files)),
                        revision: rev,
                        last_updated_unix_ms: now_unix_ms,
                        ..s
                    },
                ),
                ..base
            }
        },
    }
}

impl ShareRuntime {
    /// The tracker list for a share served at `server_url`.
    pub fn share_trackers(&self, server_url: &str) -> (r: Vec<String>)
        ensures
            r.deep_view() == seq![builtin_tracker(server_url@)] + self@.tracker_urls,
    {
        trackers_with_builtin(server_url, self.tracker_urls.as_slice())
    }

    /// What adding files needs: fails when no share is running or the
    /// server is not running.
    pub fn add_context(&self) -> (r: Result<AddContext, String>)
        ensures
            self@.session is None ==> (r matches Err(e) && e@ == "Share session is not active"@),
            self@.session is Some && self@.server_url is None ==> (r matches Err(e) && e@
                == "Share server is not running"@),
            self@.session is Some && self@.server_url is Some ==> (r matches Ok(c) && {
                let base = self@.server_url->0;
                let files = self@.session->0.files;
                &&& c.base_url@ == base
                &&& c.tracker_urls.deep_view() == seq![builtin_tracker(base)] + self@.tracker_urls
                &&& c.existing_paths.deep_view() == file_paths(files)
                &&& c.next_index == files.len()
            }),
    {
        let session = match &self.session {
            None => {
                return Err(text("Share session is not active"));
            },
            Some(s) => s,
        };
        let base = match &self.server_url {
            None => {
                return Err(text("Share server is not running"));
            },
            Some(b) => b.clone(),
        };
        let ghost fv = files_view(session.files@);
        let mut paths: Vec<String> = Vec::new();
        let mut i: usize = 0;
        while i < session.files.len()
            invariant
                i <= session.files.len(),
                fv == files_view(session.files@),
                paths.deep_view() == file_paths(fv).take(i as int),
            decreases session.files.len() - i,
        {
            let ghost before = paths.deep_view();
            let p = session.files[i].file_path.clone();
            paths.push(p);
            assert(paths.deep_view() =~= before.push(file_paths(fv)[i as int]));
            i += 1;
            assert(paths.deep_view() =~= file_paths(fv).take(i as int));
        }
        assert(file_paths(fv).take(i as int) =~= file_paths(fv));
        let trackers = trackers_with_builtin(base.as_str(), self.tracker_urls.as_slice());
        Ok(
            AddContext {
                tracker_urls: trackers,
                base_url: base,
                existing_paths: paths,
                next_index: session.files.len(),
            },
        )
    }

    /// Starts a share of `files`: counters, activity and reports are reset,
    /// the metadata revision is 1, and the new session is returned.
    pub fn finish_start(
        &mut self,
        files: Vec<SharedFile>,
        tracker_urls: Vec<String>,
        session_id: String,
        started_at: u128,
    ) -> (r: ShareSession)
        requires
            old(self).wf(),
        ensures
            final(self).wf(),
            r@ == started_session(files_view(files@), tracker_urls.deep_view(), session_id@, started_at),
            final(self)@ == (RuntimeView {
                http_uploaded_bytes: 0,
                p2p_uploaded_bytes: 0,
                active_p2p_peer_count: 0,
                fallback_transfer_count: 0,
                seeding_peer_count: 0,
                metadata_revision: 1,
                last_activity_unix_ms: started_at,
                last_error: None,
                activity: Seq::empty(),
                reports: Seq::empty(),
                progress: None,
                cancel_requested: false,
                session: Some(r@),
                ..old(self)@
            }),
    {
        let total_size = total_file_size(&files);
        let session = ShareSession {
            session_id,
            file_count: files.len(),
            total_size,
            revision: 1,
            last_updated_unix_ms: started_at,
            files,
            tracker_urls,
            started_at_unix_ms: started_at,
        };
        self.http_uploaded_bytes = 0;
        self.p2p_uploaded_bytes = 0;
        self.active_p2p_peer_count = 0;
        self.fallback_transfer_count = 0;
        self.seeding_peer_count = 0;
        self.metadata_revision = 1;
        self.last_activity_unix_ms = started_at;
        self.last_error = None;
        self.client_activity = VecDeque::new();
        self.client_reports = Vec::new();
        self.processing_progress = None;
        self.processing_cancel_requested = false;
        self.session = Some(session.copy());
        assert(self@.reports =~= Seq::<(Seq<char>, ReportView)>::empty());
        assert(self@.activity =~= Seq::<(Seq<char>, u64)>::empty());
        session
    }

    /// Adds `new_files` to the running share: the metadata revision goes up
    /// by one (wrapping), the error and progress are cleared, and the
    /// session's summary is brought up to date. Fails, after that
    /// bookkeeping, when no share is running.
    pub fn finish_add(&mut self, new_files: Vec<SharedFile>, now_unix_ms: u128) -> (r: Result<
        ShareSession,
        String,
    >)
        requires
            old(self).wf(),
        ensures
            final(self).wf(),
            final(self)@ == added_share(old(self)@, files_view(new_files@), now_unix_ms),
            old(self)@.session is None ==> (r matches Err(e) && e@ == "Share session is not active"@),
            old(self)@.session is Some ==> (r matches Ok(v) && Some(v@) == final(self)@.session),
    {
        self.metadata_revision = self.metadata_revision.wrapping_add(1);
        self.last_activity_unix_ms = now_unix_ms;
        self.last_error = None;
        self.processing_progress = None;
        self.processing_cancel_requested = false;
        let revision = self.metadata_revision;
        match &mut self.session {
            None => Err(text("Share session is not active")),
            Some(session) => {
                let ghost old_files = files_view(session.files@);
                let mut extra = new_files;
                let ghost extra_v = files_view(extra@);
                session.files.append(&mut extra);
                assert(files_view(session.files@) =~= old_files + extra_v);
                refresh_session_summary(session, revision, now_unix_ms);
                Ok(session.copy())
            },
        }
    }
}

/// The activity log after dropping, oldest first, the entries that are stale.
pub open spec fn drop_stale(acts: Seq<(Seq<char>, u64)>, now: u64) -> Seq<(Seq<char>, u64)>
    decreases acts.len(),
{
    if acts.len() > 0 && stale(acts[0].1, now) {
        drop_stale(acts.drop_first(), now)
    } else {
        acts
    }
}

/// Addresses seen within the activity window, in log order.
pub open spec fn recent_ips(acts: Seq<(Seq<char>, u64)>, now: u64) -> Seq<Seq<char>> {
    acts.filter(|a: (Seq<char>, u64)| !stale(a.1, now)).map_values(|a: (Seq<char>, u64)| a.0)
}

/// Reports received within the activity window.
pub open spec fn fresh_reports(reports: Seq<(Seq<char>, ReportView)>, now: u64) -> Seq<(Seq<char>, ReportView)> {
    reports.filter(|r: (Seq<char>, ReportView)| !stale(r.1.last_seen_ns, now))
}

pub open spec fn p2p_sum(reports: Seq<(Seq<char>, ReportView)>) -> nat
    decreases reports.len(),
{
    if reports.len() == 0 {
        0
    } else {
        p2p_sum(reports.drop_last()) + reports.last().1.p2p_uploaded_bytes as nat
    }
}

pub open spec fn peers_sum(reports: Seq<(Seq<char>, ReportView)>) -> nat
    decreases reports.len(),
{
    if reports.len() == 0 {
        0
    } else {
        peers_sum(reports.drop_last()) + reports.last().1.active_peers as nat
    }
}

pub open spec fn seeding_count(reports: Seq<(Seq<char>, ReportView)>) -> nat {
    reports.filter(|r: (Seq<char>, ReportView)| r.1.is_seeding).len()
}

pub open spec fn wrap_usize(n: nat) -> usize {
    (n % (usize::MAX as nat + 1)) as usize
}

/// The figures the reports give: bytes uploaded between peers and active
/// peer connections (both summed with wrap-around), and seeders.
pub open spec fn reported_figures(reports: Seq<(Seq<char>, ReportView)>) -> (u64, usize, usize) {
    (wrap_u64(p2p_sum(reports)), wrap_usize(peers_sum(reports)), seeding_count(reports) as usize)
}

impl ShareRuntime {
    /// Notes a request from `ip` at `now_ns` (monotonic nanoseconds): it is
    /// appended to the activity log, stale entries are dropped from the
    /// front, and the time of last activity becomes `now_unix_ms`.
    pub fn record_client_activity(&mut self, ip: String, now_ns: u64, now_unix_ms: u128)
        requires
            old(self).wf(),
        ensures
            final(self).wf(),
            final(self)@ == (RuntimeView {
                activity: drop_stale(old(self)@.activity.push((ip@, now_ns)), now_ns),
                last_activity_unix_ms: now_unix_ms,
                ..old(self)@
            }),
    {
        let ghost a0 = old(self)@.activity.push((ip@, now_ns));
        self.client_activity.push_back((ip, now_ns));
        assert(activity_view(self.client_activity@) =~= a0);
        loop
            invariant
                drop_stale(activity_view(self.client_activity@), now_ns) == drop_stale(a0, now_ns),
                self.session == old(self).session,
                self.client_reports == old(self).client_reports,
                self@ == (RuntimeView { activity: activity_view(self.client_activity@), ..old(self)@ }),
            ensures
                activity_view(self.client_activity@) == drop_stale(a0, now_ns),
                self@ == (RuntimeView { activity: activity_view(self.client_activity@), ..old(self)@ }),
            decreases self.client_activity@.len(),
        {
            if self.client_activity.len() == 0 {
                assert(activity_view(self.client_activity@).len() == 0);
                break;
            }
            let seen = self.client_activity[0].1;
            let age = if now_ns >= seen {
                now_ns - seen
            } else {
                0
            };
            assert(activity_view(self.client_activity@)[0].1 == seen);
            if age > CLIENT_ACTIVITY_WINDOW_NS {
                let ghost before = self.client_activity@;
                let _ = self.client_activity.pop_front();
                assert(activity_view(self.client_activity@) =~= activity_view(before).drop_first());
            } else {
                break;
            }
        }
        self.last_activity_unix_ms = now_unix_ms;
    }
}

pub open spec fn report_ids(rs: Seq<(Seq<char>, ReportView)>) -> Seq<Seq<char>> {
    rs.map_values(|e: (Seq<char>, ReportView)| e.0)
}

/// The reports with `id`'s report replaced, or added when it had none.
pub open spec fn upsert_report(rs: Seq<(Seq<char>, ReportView)>, id: Seq<char>, r: ReportView) -> Seq<
    (Seq<char>, ReportView),
> {
    if report_ids(rs).contains(id) {
        rs.update(report_ids(rs).index_of(id), (id, r))
    } else {
        rs.push((id, r))
    }
}

fn copy_report(r: &ClientReportSnapshot) -> (c: ClientReportSnapshot)
    ensures
        report_view(c) == report_view(*r),
{
    ClientReportSnapshot {
        p2p_uploaded_bytes: r.p2p_uploaded_bytes,
        active_peers: r.active_peers,
        is_seeding: r.is_seeding,
        last_seen_ns: r.last_seen_ns,
    }
}

impl ShareRuntime {
    fn insert_report(&mut self, client_id: String, report: ClientReportSnapshot)
        requires
            old(self).wf(),
        ensures
            final(self).wf(),
            final(self)@ == (RuntimeView {
                reports: upsert_report(old(self)@.reports, client_id@, report_view(report)),
                ..old(self)@
            }),
    {
        let ghost rs = self@.reports;
        let ghost rv = report_view(report);
        let mut i: usize = 0;
        while i < self.client_reports.len()
            invariant
                i <= self.client_reports.len(),
                rs == reports_view(self.client_reports@),
                rs == old(self)@.reports,
                self@ == old(self)@,
                runtime_wf(old(self)@),
                rv == report_view(report),
                forall|j: int| 0 <= j < i ==> rs[j].0 != client_id@,
            decreases self.client_reports.len() - i,
        {
            if self.client_reports[i].0 == client_id {
                proof {
                    assert(report_ids(rs)[i as int] == client_id@);
                    assert(report_ids(rs).contains(client_id@));
                    let k = report_ids(rs).index_of(client_id@);
                    assert(report_ids(rs)[k] == client_id@);
                    assert(k == i) by {
                        if k != i {
                            assert(rs[k].0 == rs[i as int].0);
                        }
                    }
                }
                self.client_reports.set(i, (client_id, report));
                assert(reports_view(self.client_reports@) =~= rs.update(i as int, (client_id@, rv)));
                return;
            }
            i += 1;
        }
        assert(!report_ids(rs).contains(client_id@)) by {
            if report_ids(rs).contains(client_id@) {
                let k = choose|k: int| 0 <= k < report_ids(rs).len() && report_ids(rs)[k] == client_id@;
                assert(rs[k].0 == client_id@);
            }
        }
        self.client_reports.push((client_id, report));
        assert(reports_view(self.client_reports@) =~= rs.push((client_id@, rv)));
        assert forall|a: int, b: int|
            0 <= a < self@.reports.len() && 0 <= b < self@.reports.len() && a != b
                implies #[trigger] self@.reports[a].0 != #[trigger] self@.reports[b].0 by {
            if a == rs.len() {
                assert(self@.reports[b] == rs[b]);
            } else if b == rs.len() {
                assert(self@.reports[a] == rs[a]);
            } else {
                assert(self@.reports[a] == rs[a] && self@.reports[b] == rs[b]);
            }
        }
    }

    /// Drops the reports older than the activity window and recomputes the
    /// figures they give.
    pub fn rebuild_reported_metrics(&mut self, now_ns: u64)
        requires
            old(self).wf(),
        ensures
            final(self).wf(),
            ({
                let fresh = fresh_reports(old(self)@.reports, now_ns);
                final(self)@ == (RuntimeView {
                    reports: fresh,
                    p2p_uploaded_bytes: reported_figures(fresh).0,
                    active_p2p_peer_count: reported_figures(fresh).1,
                    seeding_peer_count: reported_figures(fresh).2,
                    ..old(self)@
                })
            }),
    {
        let ghost rs = self@.reports;
        let ghost keep = |r: (Seq<char>, ReportView)| !stale(r.1.last_seen_ns, now_ns);
        let ghost seeding = |r: (Seq<char>, ReportView)| r.1.is_seeding;
        let mut kept: Vec<(String, ClientReportSnapshot)> = Vec::new();
        let mut p2p: u64 = 0;
        let mut peers: usize = 0;
        let mut seeders: usize = 0;
        let mut i: usize = 0;
        proof {
            reveal_with_fuel(Seq::filter, 1);
            assert(rs.take(0) =~= Seq::<(Seq<char>, ReportView)>::empty());
        }
        while i < self.client_reports.len()
            invariant
                i <= self.client_reports.len(),
                rs == reports_view(self.client_reports@),
                keep == (|r: (Seq<char>, ReportView)| !stale(r.1.last_seen_ns, now_ns)),
                seeding == (|r: (Seq<char>, ReportView)| r.1.is_seeding),
                reports_view(kept@) == rs.take(i as int).filter(keep),
                p2p == wrap_u64(p2p_sum(reports_view(kept@))),
                peers == wrap_usize(peers_sum(reports_view(kept@))),
                seeders == seeding_count(reports_view(kept@)),
                seeders <= kept.len(),
            decreases self.client_reports.len() - i,
        {
            let ghost kv = reports_view(kept@);
            proof {
                rs.take(i as int).lemma_filter_push(rs[i as int], keep);
                assert(rs.take(i + 1) =~= rs.take(i as int).push(rs[i as int]));
            }
            let seen = self.client_reports[i].1.last_seen_ns;
            let age = if now_ns >= seen {
                now_ns - seen
            } else {
                0
            };
            if age <= CLIENT_ACTIVITY_WINDOW_NS {
                let id = self.client_reports[i].0.clone();
                let snap = copy_report(&self.client_reports[i].1);
                let ghost e = rs[i as int];
                proof {
                    crate::text::lemma_wrapping_add_mod(
                        p2p_sum(kv) as int,
                        snap.p2p_uploaded_bytes as int,
                        0x1_0000_0000_0000_0000,
                    );
                    crate::text::lemma_wrapping_add_mod(
                        peers_sum(kv) as int,
                        snap.active_peers as int,
                        usize::MAX as int + 1,
                    );
                    kv.lemma_filter_push(e, seeding);
                    kv.lemma_filter_len(seeding);
                }
                p2p = p2p.wrapping_add(snap.p2p_uploaded_bytes);
                peers = peers.wrapping_add(snap.active_peers);
                if snap.is_seeding {
                    seeders = seeders + 1;
                }
                kept.push((id, snap));
                assert(reports_view(kept@) =~= kv.push(e));
                assert(reports_view(kept@).drop_last() =~= kv);
            }
            i += 1;
        }
        assert(rs.take(i as int) =~= rs);
        proof {
            let fresh = rs.filter(keep);
            assert forall|a: int, b: int|
                0 <= a < fresh.len() && 0 <= b < fresh.len() && a != b implies #[trigger] fresh[a].0
                    != #[trigger] fresh[b].0 by {
                lemma_filter_keeps_distinct_ids(rs, keep);
            }
        }
        self.client_reports = kept;
        self.p2p_uploaded_bytes = p2p;
        self.active_p2p_peer_count = peers;
        self.seeding_peer_count = seeders;
    }
}

proof fn lemma_filter_keeps_distinct_ids(rs: Seq<(Seq<char>, ReportView)>, p: spec_fn((Seq<char>, ReportView)) -> bool)
    requires
        forall|a: int, b: int|
            0 <= a < rs.len() && 0 <= b < rs.len() && a != b ==> #[trigger] rs[a].0 != #[trigger] rs[b].0,
    ensures
        forall|a: int, b: int|
            0 <= a < rs.filter(p).len() && 0 <= b < rs.filter(p).len() && a != b
                ==> #[trigger] rs.filter(p)[a].0 != #[trigger] rs.filter(p)[b].0,
        forall|a: int| 0 <= a < rs.filter(p).len() ==> rs.contains(#[trigger] rs.filter(p)[a]),
    decreases rs.len(),
{
    reveal(Seq::filter);
    if rs.len() > 0 {
        let d = rs.drop_last();
        lemma_filter_keeps_distinct_ids(d, p);
        let f = rs.filter(p);
        let fd = d.filter(p);
        assert forall|a: int| 0 <= a < f.len() implies rs.contains(#[trigger] f[a]) by {
            if a < fd.len() {
                assert(f[a] == fd[a]);
                assert(d.contains(fd[a]));
                let m = choose|m: int| 0 <= m < d.len() && d[m] == fd[a];
                assert(rs[m] == f[a]);
            } else {
                assert(rs[rs.len() - 1] == f[a]);
            }
        }
        assert forall|a: int, b: int|
            0 <= a < f.len() && 0 <= b < f.len() && a != b implies #[trigger] f[a].0 != #[trigger] f[b].0 by {
            if a < fd.len() && b < fd.len() {
                assert(f[a] == fd[a] && f[b] == fd[b]);
            } else if a < fd.len() {
                assert(f[a] == fd[a]);
                assert(d.contains(fd[a]));
                let m = choose|m: int| 0 <= m < d.len() && d[m] == fd[a];
                assert(rs[m] == f[a]);
                assert(f[b] == rs[rs.len() - 1]);
            } else {
                assert(f[b] == fd[b]);
                assert(d.contains(fd[b]));
                let m = choose|m: int| 0 <= m < d.len() && d[m] == fd[b];
                assert(rs[m] == f[b]);
                assert(f[a] == rs[rs.len() - 1]);
            }
        }
    }
}

/// Reports all received within the activity window are kept whole when
/// stale ones are dropped.
proof fn lemma_fresh_keeps_all(rs: Seq<(Seq<char>, ReportView)>, now: u64)
    requires
        forall|i: int| 0 <= i < rs.len() ==> !stale(#[trigger] rs[i].1.last_seen_ns, now),
    ensures
        fresh_reports(rs, now) == rs,
    decreases rs.len(),
{
    reveal(Seq::filter);
    if rs.len() > 0 {
        let d = rs.drop_last();
        assert forall|i: int| 0 <= i < d.len() implies !stale(#[trigger] d[i].1.last_seen_ns, now) by {
            assert(d[i] == rs[i]);
        }
        lemma_fresh_keeps_all(d, now);
        assert(!stale(rs[rs.len() - 1].1.last_seen_ns, now));
        assert(d.push(rs.last()) =~= rs);
    }
}

/// Reports that agree on what they report give the same figures.
proof fn lemma_same_figures(a: Seq<(Seq<char>, ReportView)>, b: Seq<(Seq<char>, ReportView)>)
    requires
        a.len() == b.len(),
        forall|i: int|
            0 <= i < a.len() ==> (#[trigger] a[i]).1.p2p_uploaded_bytes == b[i].1.p2p_uploaded_bytes
                && a[i].1.active_peers == b[i].1.active_peers && a[i].1.is_seeding == b[i].1.is_seeding,
    ensures
        p2p_sum(a) == p2p_sum(b),
        peers_sum(a) == peers_sum(b),
        seeding_count(a) == seeding_count(b),
        reported_figures(a) == reported_figures(b),
    decreases a.len(),
{
    reveal(Seq::filter);
    if a.len() > 0 {
        let (da, db) = (a.drop_last(), b.drop_last());
        assert forall|i: int| 0 <= i < da.len() implies (#[trigger] da[i]).1.p2p_uploaded_bytes
            == db[i].1.p2p_uploaded_bytes && da[i].1.active_peers == db[i].1.active_peers
            && da[i].1.is_seeding == db[i].1.is_seeding by {
            assert(da[i] == a[i] && db[i] == b[i]);
        }
        lemma_same_figures(da, db);
        assert(a[a.len() - 1] == a.last() && b[b.len() - 1] == b.last());
    }
}

/// Storing a client's report and dropping stale reports, then storing a
/// report of the same figures from that client again (at `now2`, by when
/// no stored report has aged out) and dropping stale reports once more:
/// the same clients keep reports and the figures stay as they were; at the
/// same moment and with the same report, the reports are the same.
pub(crate) proof fn lemma_upsert_again(
    rs: Seq<(Seq<char>, ReportView)>,
    id: Seq<char>,
    snap1: ReportView,
    now1: u64,
    snap2: ReportView,
    now2: u64,
)
    requires
        forall|a: int, b: int|
            0 <= a < rs.len() && 0 <= b < rs.len() && a != b ==> #[trigger] rs[a].0 != #[trigger] rs[b].0,
        !stale(snap1.last_seen_ns, now1),
        !stale(snap2.last_seen_ns, now2),
        snap1.p2p_uploaded_bytes == snap2.p2p_uploaded_bytes,
        snap1.active_peers == snap2.active_peers,
        snap1.is_seeding == snap2.is_seeding,
        now1 == now2 || forall|i: int|
            0 <= i < fresh_reports(upsert_report(rs, id, snap1), now1).len() ==> !stale(
                (#[trigger] fresh_reports(upsert_report(rs, id, snap1), now1)[i]).1.last_seen_ns,
                now2,
            ),
    ensures
        ({
            let f = fresh_reports(upsert_report(rs, id, snap1), now1);
            let g = fresh_reports(upsert_report(f, id, snap2), now2);
            &&& report_ids(g) == report_ids(f)
            &&& reported_figures(g) == reported_figures(f)
            &&& (snap1 == snap2 && now1 == now2 ==> g == f)
        }),
{
    let u = upsert_report(rs, id, snap1);
    let keep = |r: (Seq<char>, ReportView)| !stale(r.1.last_seen_ns, now1);
    let m: int = if report_ids(rs).contains(id) {
        report_ids(rs).index_of(id)
    } else {
        rs.len() as int
    };
    if report_ids(rs).contains(id) {
        assert(report_ids(rs)[m] == id);
        assert(rs[m].0 == id);
        assert(u =~= rs.update(m, (id, snap1)));
        assert forall|a: int, b: int|
            0 <= a < u.len() && 0 <= b < u.len() && a != b implies #[trigger] u[a].0 != #[trigger] u[b].0 by {
            assert(u[a].0 == rs[a].0 && u[b].0 == rs[b].0);
        }
    } else {
        assert(u =~= rs.push((id, snap1)));
        assert forall|a: int, b: int|
            0 <= a < u.len() && 0 <= b < u.len() && a != b implies #[trigger] u[a].0 != #[trigger] u[b].0 by {
            if a < rs.len() && b < rs.len() {
                assert(u[a] == rs[a] && u[b] == rs[b]);
            } else if a < rs.len() {
                assert(report_ids(rs)[a] == rs[a].0);
                assert(u[a] == rs[a]);
            } else {
                assert(report_ids(rs)[b] == rs[b].0);
                assert(u[b] == rs[b]);
            }
        }
    }
    assert(u[m] == (id, snap1));
    let f = u.filter(keep);
    assert(f == fresh_reports(u, now1));
    lemma_filter_keeps_distinct_ids(u, keep);
    u.lemma_filter_contains(keep, m);
    let k = choose|k: int| 0 <= k < f.len() && f[k] == (id, snap1);
    assert(report_ids(f)[k] == id);
    assert(report_ids(f).contains(id));
    let j = report_ids(f).index_of(id);
    assert(report_ids(f)[j] == id);
    assert(f[j].0 == id);
    assert(f[k].0 == id);
    assert(j == k);
    let u2 = upsert_report(f, id, snap2);
    assert(u2 =~= f.update(k, (id, snap2)));
    assert forall|i: int| 0 <= i < u2.len() implies !stale(#[trigger] u2[i].1.last_seen_ns, now2) by {
        if i != k {
            assert(u2[i] == f[i]);
            if now1 == now2 {
                u.lemma_filter_pred(keep, i);
            }
        }
    }
    lemma_fresh_keeps_all(u2, now2);
    assert(report_ids(u2) =~= report_ids(f));
    lemma_same_figures(u2, f);
    if snap1 == snap2 && now1 == now2 {
        assert(u2 =~= f);
    }
}

/// How long ago `unix_ms` was at `now_unix_ms`, in words: no activity when
/// it is zero, "just now" under a second, else whole seconds, minutes or
/// hours.
pub open spec fn recent_activity_text(unix_ms: u128, now_unix_ms: u128) -> Seq<char> {
    if unix_ms == 0 {
        "暫無活動"@
    } else {
        let d: nat = if now_unix_ms >= unix_ms {
            (now_unix_ms - unix_ms) as nat
        } else {
            0
        };
        if d < 1000 {
            "剛剛"@
        } else if d < 60000 {
            decimal(d / 1000) + " 秒前"@
        } else if d < 3600000 {
            decimal(d / 60000) + " 分鐘前"@
        } else {
            decimal(d / 3600000) + " 小時前"@
        }
    }
}

/// Describes how long ago the last activity was.
pub fn format_recent_activity(unix_ms: u128, now_unix_ms: u128) -> (r: String)
    ensures
        r@ == recent_activity_text(unix_ms, now_unix_ms),
{
    if unix_ms == 0 {
        return text("暫無活動");
    }
    let delta = now_unix_ms.saturating_sub(unix_ms);
    if delta < 1000 {
        return text("剛剛");
    }
    let mut r = String::new();
    if delta < 60000 {
        append_chars(&mut r, &decimal_chars(delta / 1000));
        append_chars(&mut r, &chars_of(" 秒前"));
    } else if delta < 3600000 {
        append_chars(&mut r, &decimal_chars(delta / 60000));
        append_chars(&mut r, &chars_of(" 分鐘前"));
    } else {
        append_chars(&mut r, &decimal_chars(delta / 3600000));
        append_chars(&mut r, &chars_of(" 小時前"));
    }
    r
}

fn count_recent_ips(acts: &VecDeque<(String, u64)>, now_ns: u64) -> (r: usize)
    ensures
        r == recent_ips(activity_view(acts@), now_ns).to_set().len(),
{
    let ghost av = activity_view(acts@);
    let ghost keep = |a: (Seq<char>, u64)| !stale(a.1, now_ns);
    let ghost ip = |a: (Seq<char>, u64)| a.0;
    let mut seen: Vec<String> = Vec::new();
    let mut i: usize = 0;
    proof {
        reveal_with_fuel(Seq::filter, 1);
        assert(av.take(0).filter(keep).map_values(ip).to_set() =~= Set::<Seq<char>>::empty());
        assert(seen.deep_view().to_set() =~= Set::<Seq<char>>::empty());
    }
    while i < acts.len()
        invariant
            i <= acts.len(),
            av == activity_view(acts@),
            keep == (|a: (Seq<char>, u64)| !stale(a.1, now_ns)),
            ip == (|a: (Seq<char>, u64)| a.0),
            seen.deep_view().no_duplicates(),
            seen.deep_view().to_set() == av.take(i as int).filter(keep).map_values(ip).to_set(),
        decreases acts.len() - i,
    {
        let ghost sv = seen.deep_view();
        let ghost e = av[i as int];
        proof {
            av.take(i as int).lemma_filter_push(e, keep);
            assert(av.take(i + 1) =~= av.take(i as int).push(e));
        }
        let t = acts[i].1;
        let age = if now_ns >= t {
            now_ns - t
        } else {
            0
        };
        if age <= CLIENT_ACTIVITY_WINDOW_NS {
            let ghost f = av.take(i as int).filter(keep);
            assert(f.push(e).map_values(ip) =~= f.map_values(ip).push(e.0));
            proof {
                f.map_values(ip).lemma_push_to_set_commute(e.0);
            }
            let mut found = false;
            let mut k: usize = 0;
            while k < seen.len()
                invariant
                    k <= seen.len(),
                    sv == seen.deep_view(),
                    !found ==> forall|j: int| 0 <= j < k ==> sv[j] != e.0,
                    found ==> sv.contains(e.0),
                    i < acts.len(),
                    e == av[i as int],
                    av == activity_view(acts@),
                decreases seen.len() - k,
            {
                if seen[k] == acts[i].0 {
                    found = true;
                    assert(sv[k as int] == e.0);
                }
                k += 1;
            }
            if found {
                assert(sv.to_set().insert(e.0) =~= sv.to_set());
            } else {
                let name = acts[i].0.clone();
                seen.push(name);
                assert(seen.deep_view() =~= sv.push(e.0));
                proof {
                    sv.lemma_push_to_set_commute(e.0);
                }
            }
        }
        i += 1;
    }
    assert(av.take(i as int) =~= av);
    proof {
        seen.deep_view().unique_seq_to_set();
    }
    seen.len()
}

/// `m` shows runtime `v` at `now_ns`: the distinct addresses seen within
/// the activity window, and the stored counters.
pub open spec fn metrics_describe(m: ShareMetrics, v: RuntimeView, now_ns: u64) -> bool {
    &&& m.active_client_count == recent_ips(v.activity, now_ns).to_set().len()
    &&& m.http_uploaded_bytes == v.http_uploaded_bytes
    &&& m.p2p_uploaded_bytes == v.p2p_uploaded_bytes
    &&& m.active_p2p_peer_count == v.active_p2p_peer_count
    &&& m.fallback_transfer_count == v.fallback_transfer_count
    &&& m.seeding_peer_count == v.seeding_peer_count
    &&& m.metadata_revision == v.metadata_revision
    &&& m.last_activity_unix_ms == v.last_activity_unix_ms
}

/// `i` sums runtime `v` up in words at `now_ns` / `now_unix_ms`.
pub open spec fn insights_describe(i: ShareInsights, v: RuntimeView, now_ns: u64, now_unix_ms: u128) -> bool {
    &&& i.share_state@ == if v.progress is Some {
        "正在處理檔案"@
    } else if v.session is Some {
        "分享中"@
    } else {
        "未啟動"@
    }
    &&& i.reachability@ == if v.session is Some {
        "LAN 可連線"@
    } else {
        "尚未啟動"@
    }
    &&& i.active_downloads == recent_ips(v.activity, now_ns).to_set().len()
    &&& i.seeding_peers == v.seeding_peer_count
    &&& opt_text(i.recent_error) == v.last_error
    &&& i.recent_activity_label@ == recent_activity_text(v.last_activity_unix_ms, now_unix_ms)
    &&& i.next_action_hint@ == if v.progress is Some {
        "等待種子資料處理完成，系統會自動更新狀態"@
    } else if v.session is Some {
        "可複製分享 URL 給下載者，或追加新檔案"@
    } else {
        "先加入檔案後按「啟動分享」"@
    }
}

/// The addresses that made a request within the activity window at `now`.
pub open spec fn addresses_seen(acts: Seq<(Seq<char>, u64)>, now: u64) -> Set<Seq<char>> {
    Set::new(
        |ip: Seq<char>|
            exists|k: int| 0 <= k < acts.len() && (#[trigger] acts[k]).0 == ip && !stale(acts[k].1, now),
    )
}

/// The sharer's window counts active downloads as the metrics count active
/// clients at the same moment: the number of distinct addresses that made
/// a request within the activity window, so that repeated requests from one
/// address count once.
pub proof fn lemma_active_downloads_are_clients(
    v: RuntimeView,
    now_ns: u64,
    now_unix_ms: u128,
    m: ShareMetrics,
    i: ShareInsights,
)
    requires
        metrics_describe(m, v, now_ns),
        insights_describe(i, v, now_ns, now_unix_ms),
    ensures
        i.active_downloads == m.active_client_count,
        m.active_client_count == addresses_seen(v.activity, now_ns).len(),
{
    let acts = v.activity;
    let keep = |a: (Seq<char>, u64)| !stale(a.1, now_ns);
    let f = acts.filter(keep);
    let r = f.map_values(|a: (Seq<char>, u64)| a.0);
    assert(r == recent_ips(acts, now_ns));
    assert forall|x: Seq<char>| r.to_set().contains(x) <==> #[trigger] addresses_seen(acts, now_ns).contains(x) by {
        if r.contains(x) {
            let j = choose|j: int| 0 <= j < r.len() && r[j] == x;
            acts.lemma_filter_pred(keep, j);
            assert(f.contains(f[j]));
            acts.lemma_filter_contains_rev(keep, f[j]);
            let k = choose|k: int| 0 <= k < acts.len() && acts[k] == f[j];
            assert(acts[k].0 == x && !stale(acts[k].1, now_ns));
        }
        if addresses_seen(acts, now_ns).contains(x) {
            let k = choose|k: int| 0 <= k < acts.len() && (#[trigger] acts[k]).0 == x && !stale(acts[k].1, now_ns);
            acts.lemma_filter_contains(keep, k);
            let j = choose|j: int| 0 <= j < f.len() && f[j] == acts[k];
            assert(r[j] == x);
            assert(r.contains(x));
        }
    }
    assert(r.to_set() =~= addresses_seen(acts, now_ns));
}

impl ShareRuntime {
    /// The transfer figures at `now_ns`: distinct addresses seen within the
    /// activity window, and the stored counters.
    pub fn build_metrics(&self, now_ns: u64) -> (r: ShareMetrics)
        ensures
            metrics_describe(r, self@, now_ns),
    {
        ShareMetrics {
            active_client_count: count_recent_ips(&self.client_activity, now_ns),
            http_uploaded_bytes: self.http_uploaded_bytes,
            p2p_uploaded_bytes: self.p2p_uploaded_bytes,
            active_p2p_peer_count: self.active_p2p_peer_count,
            fallback_transfer_count: self.fallback_transfer_count,
            seeding_peer_count: self.seeding_peer_count,
            metadata_revision: self.metadata_revision,
            last_activity_unix_ms: self.last_activity_unix_ms,
        }
    }

    /// The plain-language summary at `now_ns` / `now_unix_ms`.
    pub fn build_insights(&self, now_ns: u64, now_unix_ms: u128) -> (r: ShareInsights)
        ensures
            insights_describe(r, self@, now_ns, now_unix_ms),
    {
        let is_sharing = self.session.is_some();
        let processing = self.processing_progress.is_some();
        let metrics = self.build_metrics(now_ns);
        let reachability = if is_sharing {
            text("LAN 可連線")
        } else {
            text("尚未啟動")
        };
        let share_state = if processing {
            text("正在處理檔案")
        } else if is_sharing {
            text("分享中")
        } else {
            text("未啟動")
        };
        let next_action_hint = if processing {
            text("等待種子資料處理完成，系統會自動更新狀態")
        } else if is_sharing {
            text("可複製分享 URL 給下載者，或追加新檔案")
        } else {
            text("先加入檔案後按「啟動分享」")
        };
        let recent_error = match &self.last_error {
            Some(e) => Some(e.clone()),
            None => None,
        };
        ShareInsights {
            share_state,
            reachability,
            active_downloads: metrics.active_client_count,
            seeding_peers: metrics.seeding_peer_count,
            recent_error,
            recent_activity_label: format_recent_activity(self.last_activity_unix_ms, now_unix_ms),
            next_action_hint,
        }
    }

    /// Everything the sharer's window shows at `now_ns` / `now_unix_ms`.
    pub fn status(&self, now_ns: u64, now_unix_ms: u128) -> (r: ShareStatus)
        ensures
            r.is_sharing == self@.session is Some,
            r.server_url@ == match self@.server_url {
                Some(u) => u,
                None => Seq::empty(),
            },
            r.fallback_http_enabled == self@.fallback_http_enabled,
            opt_session(r.session) == self@.session,
            metrics_describe(r.metrics, self@, now_ns),
            insights_describe(r.insights, self@, now_ns, now_unix_ms),
            opt_progress(r.processing_progress) == self@.progress,
    {
        let server_url = match &self.server_url {
            Some(u) => u.clone(),
            None => String::new(),
        };
        let session = match &self.session {
            Some(s) => Some(s.copy()),
            None => None,
        };
        let progress = match &self.processing_progress {
            Some(p) => Some(p.copy()),
            None => None,
        };
        ShareStatus {
            is_sharing: self.session.is_some(),
            server_url,
            fallback_http_enabled: self.fallback_http_enabled,
            session,
            metrics: self.build_metrics(now_ns),
            insights: self.build_insights(now_ns, now_unix_ms),
            processing_progress: progress,
        }
    }
}


/// Position of the first of `files` whose id is `id`, when one has it.
pub open spec fn file_index(files: Seq<SharedFileView>, id: Seq<char>) -> Option<int> {
    if exists|i: int| 0 <= i < files.len() && files[i].file_id == id {
        Some(
            choose|i: int|
                0 <= i < files.len() && files[i].file_id == id && forall|j: int|
                    0 <= j < i ==> files[j].file_id != id,
        )
    } else {
        None
    }
}

fn find_file(files: &Vec<SharedFile>, id: &String) -> (r: Option<usize>)
    ensures
        match r {
            None => file_index(files_view(files@), id@) is None,
            Some(i) => i < files.len() && file_index(files_view(files@), id@) == Some(i as int),
        },
{
    let ghost fv = files_view(files@);
    let mut i: usize = 0;
    while i < files.len()
        invariant
            i <= files.len(),
            fv == files_view(files@),
            forall|j: int| 0 <= j < i ==> fv[j].file_id != id@,
        decreases files.len() - i,
    {
        if files[i].file_id == *id {
            proof {
                let k = choose|k: int|
                    0 <= k < fv.len() && fv[k].file_id == id@ && forall|j: int|
                        0 <= j < k ==> fv[j].file_id != id@;
                assert(fv[i as int].file_id == id@);
                assert(k == i) by {
                    if k < i {
                        assert(fv[k].file_id != id@);
                    } else if k > i {
                        assert(fv[i as int].file_id != id@);
                    }
                }
            }
            return Some(i);
        }
        i += 1;
    }
    None
}

/// What a request for a shared file finds.
pub enum FileLookup {
    /// No share is running.
    NoSession,
    /// The share has no file with that id.
    NotFound,
    /// The file.
    Found(SharedFile),
}

/// The built-in tracker of the server at `server_url`, or empty text when
/// the server is not running.
pub open spec fn tracker_of(server_url: Option<Seq<char>>) -> Seq<char> {
    match server_url {
        Some(u) => builtin_tracker(u),
        None => Seq::empty(),
    }
}

pub open spec fn wrapping_inc(n: u64) -> u64 {
    (if n == u64::MAX {
        0
    } else {
        n + 1
    }) as u64
}

pub open spec fn wrapping_sum(a: u64, b: u64) -> u64 {
    wrap_u64((a + b) as nat)
}

impl ShareRuntime {
    /// Looks up the shared file with id `file_id`.
    pub fn lookup_file(&self, file_id: &String) -> (r: FileLookup)
        ensures
            match self@.session {
                None => r is NoSession,
                Some(s) => match file_index(s.files, file_id@) {
                    None => r is NotFound,
                    Some(i) => r matches FileLookup::Found(f) && f@ == s.files[i],
                },
            },
    {
        match &self.session {
            None => FileLookup::NoSession,
            Some(session) => match find_file(&session.files, file_id) {
                None => FileLookup::NotFound,
                Some(i) => FileLookup::Found(session.files[i].copy()),
            },
        }
    }

    /// The metadata document for a download page, when a share is running.
    /// Each document takes the next piece offset (the counter modulo
    /// `NUM_PIECE_SLICES`; the counter goes up by one, wrapping).
    pub fn metadata_reply(&mut self) -> (r: Option<MetadataResponse>)
        requires
            old(self).wf(),
        ensures
            final(self).wf(),
            old(self)@.session is None ==> r is None && final(self)@ == old(self)@,
            old(self)@.session matches Some(s) ==> {
                &&& r matches Some(m) && metadata_describes(
                    m,
                    s,
                    old(self)@.fallback_http_enabled,
                    old(self)@.piece_offset_counter % NUM_PIECE_SLICES,
                    tracker_of(old(self)@.server_url),
                )
                &&& final(self)@ == (RuntimeView {
                    piece_offset_counter: wrapping_inc(old(self)@.piece_offset_counter),
                    ..old(self)@
                })
            },
    {
        match &self.session {
            None => None,
            Some(session) => {
                let counter = self.piece_offset_counter;
                let offset = counter % NUM_PIECE_SLICES;
                let tracker_url = match &self.server_url {
                    Some(u) => builtin_tracker_url(u.as_str()),
                    None => String::new(),
                };
                let m = build_metadata_response(session, self.fallback_http_enabled, offset, tracker_url);
                self.piece_offset_counter = counter.wrapping_add(1);
                Some(m)
            },
        }
    }

    /// Counts a whole-file transfer served over HTTP.
    pub fn note_full_transfer(&mut self, now_unix_ms: u128)
        requires
            old(self).wf(),
        ensures
            final(self).wf(),
            final(self)@ == (RuntimeView {
                fallback_transfer_count: wrapping_inc(old(self)@.fallback_transfer_count),
                last_activity_unix_ms: now_unix_ms,
                ..old(self)@
            }),
    {
        self.fallback_transfer_count = self.fallback_transfer_count.wrapping_add(1);
        self.last_activity_unix_ms = now_unix_ms;
    }

    /// Counts a byte range of `bytes` bytes served over HTTP.
    pub fn note_range_transfer(&mut self, bytes: u64, now_unix_ms: u128)
        requires
            old(self).wf(),
        ensures
            final(self).wf(),
            final(self)@ == (RuntimeView {
                http_uploaded_bytes: wrapping_sum(old(self)@.http_uploaded_bytes, bytes),
                fallback_transfer_count: wrapping_inc(old(self)@.fallback_transfer_count),
                last_activity_unix_ms: now_unix_ms,
                ..old(self)@
            }),
    {
        self.http_uploaded_bytes = self.http_uploaded_bytes.wrapping_add(bytes);
        self.fallback_transfer_count = self.fallback_transfer_count.wrapping_add(1);
        self.last_activity_unix_ms = now_unix_ms;
    }

    /// Seeders that slow the HTTP fallback down: those the download pages
    /// report and those on the built-in tracker (saturating).
    pub fn seeders_for_throttle(&self) -> (r: usize)
        ensures
            r == if self@.seeding_peer_count + seeders(self@.tracker.swarms) <= usize::MAX {
                self@.seeding_peer_count + seeders(self@.tracker.swarms)
            } else {
                usize::MAX as int
            },
    {
        self.seeding_peer_count.saturating_add(self.tracker.total_seeders())
    }

    /// Stores what a download page reported at `now_ns` (replacing that
    /// client's earlier report), recomputes the reported figures and notes
    /// activity at `now_unix_ms`.
    pub fn store_client_report(&mut self, report: &ClientStatsReport, now_ns: u64, now_unix_ms: u128)
        requires
            old(self).wf(),
        ensures
            final(self).wf(),
            ({
                let snap = ReportView {
                    p2p_uploaded_bytes: report.p2p_uploaded_bytes,
                    active_peers: report.active_peers,
                    is_seeding: report.is_seeding,
                    last_seen_ns: now_ns,
                };
                let fresh = fresh_reports(upsert_report(old(self)@.reports, report.client_id@, snap), now_ns);
                final(self)@ == (RuntimeView {
                    reports: fresh,
                    p2p_uploaded_bytes: reported_figures(fresh).0,
                    active_p2p_peer_count: reported_figures(fresh).1,
                    seeding_peer_count: reported_figures(fresh).2,
                    last_activity_unix_ms: now_unix_ms,
                    ..old(self)@
                })
            }),
    {
        let snap = ClientReportSnapshot {
            p2p_uploaded_bytes: report.p2p_uploaded_bytes,
            active_peers: report.active_peers,
            is_seeding: report.is_seeding,
            last_seen_ns: now_ns,
        };
        self.insert_report(report.client_id.clone(), snap);
        self.rebuild_reported_metrics(now_ns);
        let ghost v = self@;
        self.last_activity_unix_ms = now_unix_ms;
        assert(self@ == (RuntimeView { last_activity_unix_ms: now_unix_ms, ..v }));
    }

    /// Passes a message from tracker connection `conn` to the built-in
    /// tracker.
    pub fn tracker_message(&mut self, msg: &TrackerMessage, conn: u64, peer_slot: &mut Option<String>) -> (r:
        TrackerReply)
        requires
            old(self).wf(),
        ensures
            final(self).wf(),
            final(self)@ == (RuntimeView { tracker: final(self)@.tracker, ..old(self)@ }),
            tracker_reply(old(self)@.tracker, *msg, conn, *old(peer_slot), final(self)@.tracker, *final(peer_slot), r),
    {
        self.tracker.handle_message(msg, conn, peer_slot)
    }

    /// Forgets the peer of a tracker connection that closed.
    pub fn tracker_disconnect(&mut self, peer_id: &String)
        requires
            old(self).wf(),
        ensures
            final(self).wf(),
            final(self)@ == (RuntimeView { tracker: tracker_leave(old(self)@.tracker, peer_id@), ..old(self)@ }),
    {
        self.tracker.remove_peer(peer_id);
    }
}

/// The log's times never decrease.
pub open spec fn times_sorted(acts: Seq<(Seq<char>, u64)>) -> bool {
    forall|i: int, j: int| 0 <= i < j < acts.len() ==> (#[trigger] acts[i]).1 <= (#[trigger] acts[j]).1
}

proof fn lemma_drop_stale_skip(q: Seq<(Seq<char>, u64)>, now: u64) -> (k: int)
    ensures
        0 <= k <= q.len(),
        drop_stale(q, now) == q.skip(k),
        k < q.len() ==> !stale(q[k].1, now),
        forall|j: int| 0 <= j < k ==> stale((#[trigger] q[j]).1, now),
    decreases q.len(),
{
    if q.len() > 0 && stale(q[0].1, now) {
        let k = lemma_drop_stale_skip(q.drop_first(), now);
        assert(q.drop_first().skip(k) =~= q.skip(k + 1));
        assert forall|j: int| 0 <= j < k + 1 implies stale((#[trigger] q[j]).1, now) by {
            if j > 0 {
                assert(q[j] == q.drop_first()[j - 1]);
            }
        }
        k + 1
    } else {
        assert(q.skip(0) =~= q);
        0
    }
}

/// With a clock that does not run backwards, noting a request keeps the
/// activity log in time order, ends it with the new entry, and leaves in
/// it only entries from within the activity window.
pub proof fn lemma_activity_stays_fresh(acts: Seq<(Seq<char>, u64)>, ip: Seq<char>, now_ns: u64)
    requires
        times_sorted(acts),
        forall|i: int| 0 <= i < acts.len() ==> (#[trigger] acts[i]).1 <= now_ns,
    ensures
        ({
            let r = drop_stale(acts.push((ip, now_ns)), now_ns);
            &&& times_sorted(r)
            &&& r.len() > 0 && r.last() == (ip, now_ns)
            &&& forall|i: int| 0 <= i < r.len() ==> !stale((#[trigger] r[i]).1, now_ns)
        }),
{
    let q = acts.push((ip, now_ns));
    let k = lemma_drop_stale_skip(q, now_ns);
    let r = q.skip(k);
    assert(times_sorted(q)) by {
        assert forall|i: int, j: int| 0 <= i < j < q.len() implies (#[trigger] q[i]).1 <= (#[trigger] q[j]).1 by {
            if j < acts.len() {
                assert(q[i] == acts[i] && q[j] == acts[j]);
            } else {
                assert(q[i] == acts[i]);
            }
        }
    }
    assert(!stale(now_ns, now_ns));
    assert(k < q.len()) by {
        if k == q.len() {
            assert(q[q.len() - 1].1 == now_ns);
        }
    }
    assert forall|i: int, j: int| 0 <= i < j < r.len() implies (#[trigger] r[i]).1 <= (#[trigger] r[j]).1 by {
        assert(r[i] == q[i + k] && r[j] == q[j + k]);
    }
    assert forall|i: int| 0 <= i < r.len() implies !stale((#[trigger] r[i]).1, now_ns) by {
        assert(r[i] == q[i + k]);
        if i > 0 {
            assert(q[k].1 <= q[i + k].1);
        }
        if i + k < acts.len() {
            assert(q[i + k] == acts[i + k]);
        }
    }
    assert(r.last() == q.last());
}

/// Piece offsets handed to download pages stay below `NUM_PIECE_SLICES`,
/// two pages served one after the other get different offsets, and the
/// offsets go round in order.
pub proof fn lemma_offsets_rotate(counter: u64)
    ensures
        counter % NUM_PIECE_SLICES < NUM_PIECE_SLICES,
        wrapping_inc(counter) % NUM_PIECE_SLICES != counter % NUM_PIECE_SLICES,
        wrapping_inc(counter) % NUM_PIECE_SLICES == (counter % NUM_PIECE_SLICES + 1) % (NUM_PIECE_SLICES as int),
{
}

} // verus!
