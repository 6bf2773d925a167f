//! Collecting the files of a share being started or extended: each chosen
//! path not shared yet gets the next file id and its web-seed URL, and,
//! once hashed, becomes a shared file.
use vstd::prelude::*;
use crate::paths::{base_name, display_name, is_substring, ordinary_path, plain_name};
use crate::session::{files_view, SharedFile, SharedFileView};
use crate::text::{append_chars, chars_of, decimal, decimal_chars, string_of};
use crate::torrent::SeedMetadata;

verus! {

/// `file-<n>`.
pub open spec fn file_id_text(n: nat) -> Seq<char> {
    "file-"@ + decimal(n)
}

/// `<base>/api/file/<id>`.
pub open spec fn web_seed_text(base_url: Seq<char>, file_id: Seq<char>) -> Seq<char> {
    base_url + "/api/file/"@ + file_id
}

/// A file about to be hashed: its id, name, path, web-seed URL and its
/// position (from 1) among the files chosen.
pub struct FilePlan {
    pub file_id: String,
    pub file_name: String,
    pub file_path: String,
    pub web_seed_url: String,
    pub file_index: usize,
}

pub struct BatchView {
    /// Paths already shared or added, which are skipped.
    pub seen: Seq<Seq<char>>,
    /// The files added so far.
    pub files: Seq<SharedFileView>,
    pub next_index: usize,
    pub base_url: Seq<char>,
}

/// The files being added to a share.
pub struct FileBatch {
    seen: Vec<String>,
    files: Vec<SharedFile>,
    next_index: usize,
    base_url: String,
}

impl View for FileBatch {
    type V = BatchView;

    closed spec fn view(&self) -> BatchView {
        BatchView {
            seen: self.seen.deep_view(),
            files: files_view(self.files@),
            next_index: self.next_index,
            base_url: self.base_url@,
        }
    }
}

/// The shared file a plan becomes once its pieces are known.
pub open spec fn planned_file(p: FilePlan, m: SeedMetadata) -> SharedFileView {
    SharedFileView {
        file_id: p.file_id@,
        file_name: p.file_name@,
        file_path: p.file_path@,
        file_size: m.file_size,
        info_hash: m.info_hash@,
        piece_size: m.piece_size,
        piece_count: m.piece_count,
        magnet_uri: m.magnet_uri@,
        content_signature: m.content_signature@,
        seed_reused: m.seed_reused,
        torrent_bytes: m.torrent_bytes@,
    }
}

fn contains_path(v: &Vec<String>, p: &String) -> (r: bool)
    ensures
        r == v.deep_view().contains(p@),
{
    let mut i: usize = 0;
    while i < v.len()
        invariant
            i <= v.len(),
            forall|j: int| 0 <= j < i ==> v.deep_view()[j] != p@,
        decreases v.len() - i,
    {
        if v[i] == *p {
            assert(v.deep_view()[i as int] == p@);
            return true;
        }
        i += 1;
    }
    false
}

impl FileBatch {
    /// A batch that skips `existing_paths` and numbers new files from
    /// `next_index + 1`, served under `base_url`.
    pub fn new(existing_paths: Vec<String>, next_index: usize, base_url: String) -> (r: Self)
        ensures
            r@ == (BatchView {
                seen: existing_paths.deep_view(),
                files: Seq::empty(),
                next_index,
                base_url: base_url@,
            }),
    {
        let r = FileBatch { seen: existing_paths, files: Vec::new(), next_index, base_url };
        assert(files_view(r.files@) =~= Seq::<SharedFileView>::empty());
        r
    }

    /// The plan for the chosen path at position `offset` (from 0): none
    /// when the path is already in the share or in this batch.
    pub fn plan(&self, offset: usize, file_path: &str) -> (r: Option<FilePlan>)
        requires
            self@.next_index + offset + 1 <= usize::MAX,
        ensures
            r is None <==> self@.seen.contains(file_path@),
            r matches Some(p) ==> {
                &&& p.file_id@ == file_id_text((self@.next_index + offset + 1) as nat)
                &&& p.file_path@ == file_path@
                &&& p.web_seed_url@ == web_seed_text(self@.base_url, p.file_id@)
                &&& p.file_index == offset + 1
                &&& p.file_name@.len() > 0
                &&& (p.file_name@ == "shared-file"@ || is_substring(p.file_name@, file_path@))
                &&& plain_name(file_path@) ==> p.file_name@ == file_path@
                &&& ordinary_path(file_path@) ==> p.file_name@ == base_name(file_path@)
            },
    {
        let path = string_of(&chars_of(file_path));
        if contains_path(&self.seen, &path) {
            return None;
        }
        let file_name = display_name(file_path);
        let mut file_id = string_of(&chars_of("file-"));
        append_chars(&mut file_id, &decimal_chars((self.next_index + offset + 1) as u128));
        let mut web_seed_url = self.base_url.clone();
        append_chars(&mut web_seed_url, &chars_of("/api/file/"));
        append_chars(&mut web_seed_url, &chars_of(file_id.as_str()));
        Some(
            FilePlan {
                file_id,
                file_name,
                file_path: path,
                web_seed_url,
                file_index: offset + 1,
            },
        )
    }

    /// Adds the hashed file of `plan`; its path is skipped from now on.
    pub fn add(&mut self, plan: FilePlan, meta: SeedMetadata)
        ensures
            final(self)@ == (BatchView {
                seen: old(self)@.seen.push(plan.file_path@),
                files: old(self)@.files.push(planned_file(plan, meta)),
                ..old(self)@
            }),
    {
        let ghost pv = planned_file(plan, meta);
        let path = plan.file_path.clone();
        let f = SharedFile {
            file_id: plan.file_id,
            file_name: plan.file_name,
            file_path: plan.file_path,
            file_size: meta.file_size,
            info_hash: meta.info_hash,
            piece_size: meta.piece_size,
            piece_count: meta.piece_count,
            magnet_uri: meta.magnet_uri,
            content_signature: meta.content_signature,
            seed_reused: meta.seed_reused,
            torrent_bytes: meta.torrent_bytes,
        };
        assert(f@ == pv);
        let ghost fv0 = files_view(self.files@);
        self.files.push(f);
        assert(files_view(self.files@) =~= fv0.push(pv));
        let ghost s0 = self.seen.deep_view();
        self.seen.push(path);
        assert(self.seen.deep_view() =~= s0.push(plan.file_path@));
    }

    /// The files added; fails when there are none.
    pub fn finish(self) -> (r: Result<Vec<SharedFile>, String>)
        ensures
            self@.files.len() == 0 ==> (r matches Err(e) && e@
                == "No new files were added to the share session"@),
            self@.files.len() > 0 ==> (r matches Ok(v) && files_view(v@) == self@.files),
    {
        if self.files.len() == 0 {
            return Err(string_of(&chars_of("No new files were added to the share session")));
        }
        Ok(self.files)
    }
}

/// Refuses an empty choice of files: `adding` tells adding to a running
/// share from starting one.
pub fn check_selection(count: usize, adding: bool) -> (r: Result<(), String>)
    ensures
        count > 0 <==> r is Ok,
        r matches Err(e) ==> e@ == if adding {
            "Please select at least one file to add"@
        } else {
            "Please select at least one file to share"@
        },
{
    if count > 0 {
        Ok(())
    } else if adding {
        Err(string_of(&chars_of("Please select at least one file to add")))
    } else {
        Err(string_of(&chars_of("Please select at least one file to share")))
    }
}

} // verus!
