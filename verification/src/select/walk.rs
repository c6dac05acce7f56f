//! Selected archive members and selection counters.
//!
//! Paths are carried as their UTF-8 text; the filesystem walk that fills these
//! values runs outside the library.

use vstd::prelude::*;

verus! {

/// Kind of selected archive member (file body vs link metadata only).
///
/// Tar formats archive all three. Non-tar formats keep only
/// [`MemberKind::File`] and skip symlinks / hard-link members at encode time.
#[derive(Debug, Clone, PartialEq, Eq)]
pub enum MemberKind {
    /// Regular file; `size` is content length.
    File,
    /// Symbolic link; `size` is always 0; the target is stored as written.
    Symlink { target: String },
    /// Hard link to an earlier regular-file member; `size` is always 0.
    /// `target` is that member's `archive_name`.
    HardLink { target: String },
}

impl Default for MemberKind {
    fn default() -> (k: Self)
        ensures
            k is File,
    {
        MemberKind::File
    }
}

/// Default mode when metadata is unavailable or for synthetic entries.
pub const DEFAULT_FILE_MODE: u32 = 0o644;

/// Ustar uname/gname field width (bytes); longer names go to pax.
pub const USTAR_NAME_FIELD: usize = 32;

/// One selected archive member (regular file, symlink, or hard link).
#[derive(Debug, Clone, PartialEq, Eq)]
pub struct SelectedEntry {
    /// Absolute or resolved path used for open/read (file) or lstat (link).
    pub abs_path: String,
    /// Path inside the archive (`/`-separated).
    pub archive_name: String,
    /// Size in bytes at selection time (0 for symlinks and hard links).
    pub size: u64,
    /// Unix mtime seconds at selection (None if unavailable).
    pub mtime_unix: Option<u64>,
    /// Permission bits at selection. Default `0o644` if unknown.
    pub mode: u32,
    /// Owner uid at selection (0 if unavailable).
    pub uid: u32,
    /// Owner gid at selection (0 if unavailable).
    pub gid: u32,
    /// Owner user name at selection (empty if unresolved).
    pub uname: String,
    /// Owner group name at selection (empty if unresolved).
    pub gname: String,
    /// File vs symlink vs hard-link member.
    pub kind: MemberKind,
}

impl SelectedEntry {
    /// True when this entry is a symbolic link member.
    pub fn is_symlink(&self) -> (b: bool)
        ensures
            b == (self.kind is Symlink),
    {
        match &self.kind {
            MemberKind::Symlink { .. } => true,
            _ => false,
        }
    }

    /// True when this entry is a hard-link member.
    pub fn is_hard_link(&self) -> (b: bool)
        ensures
            b == (self.kind is HardLink),
    {
        match &self.kind {
            MemberKind::HardLink { .. } => true,
            _ => false,
        }
    }

    /// True when the member has a file data body (regular file only).
    pub fn has_data_body(&self) -> (b: bool)
        ensures
            b == (self.kind is File),
    {
        match &self.kind {
            MemberKind::File => true,
            _ => false,
        }
    }

    /// Link target for a symlink (as stored on disk) or hard link (first archive name).
    pub fn link_target(&self) -> (t: Option<&str>)
        ensures
            match self.kind {
                MemberKind::Symlink { target } => t matches Some(s) && s@ == target@,
                MemberKind::HardLink { target } => t matches Some(s) && s@ == target@,
                MemberKind::File => t is None,
            },
    {
        match &self.kind {
            MemberKind::Symlink { target } => Some(target.as_str()),
            MemberKind::HardLink { target } => Some(target.as_str()),
            MemberKind::File => None,
        }
    }
}

/// The mtime used for ranking: the selection-time mtime, or 0 when unknown.
pub open spec fn mtime_of(e: SelectedEntry) -> u64 {
    match e.mtime_unix {
        Some(t) => t,
        None => 0,
    }
}

/// Selection-time mtime of an entry, 0 when unknown.
pub fn entry_mtime_secs(e: &SelectedEntry) -> (t: u64)
    ensures
        t == mtime_of(*e),
{
    match e.mtime_unix {
        Some(t) => t,
        None => 0,
    }
}

/// The modification time compared and ranked for an entry: the one stored at
/// selection, else `disk`, the time read from disk for it (0 when unreadable).
pub open spec fn mtime_or(e: SelectedEntry, disk: u64) -> u64 {
    match e.mtime_unix {
        Some(t) => t,
        None => disk,
    }
}

/// Per entry, the stored time or else the one read from disk.
pub open spec fn effective_times(es: Seq<SelectedEntry>, disk: Seq<u64>) -> Seq<u64> {
    Seq::new(es.len(), |i: int| mtime_or(es[i], disk[i]))
}

/// The entries with their modification times replaced by `mt`.
pub open spec fn with_times(es: Seq<SelectedEntry>, mt: Seq<u64>) -> Seq<SelectedEntry> {
    Seq::new(es.len(), |i: int| SelectedEntry { mtime_unix: Some(mt[i]), ..es[i] })
}

/// Per entry, the stored time or else the one read from disk.
pub fn effective_mtimes(es: &[SelectedEntry], disk: &[u64]) -> (v: Vec<u64>)
    requires
        disk.len() == es.len(),
    ensures
        v@ == effective_times(es@, disk@),
{
    let mut v: Vec<u64> = Vec::new();
    let mut i: usize = 0;
    while i < es.len()
        invariant
            i <= es.len(),
            disk.len() == es.len(),
            v@.len() == i,
            forall|k: int| 0 <= k < i ==> v@[k] == mtime_or(es@[k], disk@[k]),
        decreases es.len() - i,
    {
        let t = match es[i].mtime_unix {
            Some(t) => t,
            None => disk[i],
        };
        v.push(t);
        i = i + 1;
    }
    assert(v@ =~= effective_times(es@, disk@));
    v
}

fn copy_kind(k: &MemberKind) -> (r: MemberKind)
    ensures
        r == *k,
{
    match k {
        MemberKind::File => MemberKind::File,
        MemberKind::Symlink { target } => MemberKind::Symlink { target: target.clone() },
        MemberKind::HardLink { target } => MemberKind::HardLink { target: target.clone() },
    }
}

/// A copy of `e` whose modification time is `t`.
fn with_time(e: &SelectedEntry, t: u64) -> (r: SelectedEntry)
    ensures
        r == (SelectedEntry { mtime_unix: Some(t), ..*e }),
{
    SelectedEntry {
        abs_path: e.abs_path.clone(),
        archive_name: e.archive_name.clone(),
        size: e.size,
        mtime_unix: Some(t),
        mode: e.mode,
        uid: e.uid,
        gid: e.gid,
        uname: e.uname.clone(),
        gname: e.gname.clone(),
        kind: copy_kind(&e.kind),
    }
}

/// Copies of the entries with their modification times replaced by `mt`.
pub fn retimed(es: &[SelectedEntry], mt: &[u64]) -> (r: Vec<SelectedEntry>)
    requires
        mt.len() == es.len(),
    ensures
        r@ == with_times(es@, mt@),
{
    let mut r: Vec<SelectedEntry> = Vec::new();
    let mut i: usize = 0;
    while i < es.len()
        invariant
            i <= es.len(),
            mt.len() == es.len(),
            r@.len() == i,
            forall|k: int| 0 <= k < i ==> r@[k] == (SelectedEntry { mtime_unix: Some(mt@[k]), ..es@[k] }),
        decreases es.len() - i,
    {
        r.push(with_time(&es[i], mt[i]));
        i = i + 1;
    }
    assert(r@ =~= with_times(es@, mt@));
    r
}

/// Counters for skipped items during selection.
#[derive(Debug, Clone, Copy, PartialEq, Eq, Structural)]
pub struct SelectionStats {
    pub selected: u64,
    pub skipped_symlinks: u64,
    /// Hard-link members dropped at encode for formats that only pack regular files.
    pub skipped_hardlinks: u64,
    pub skipped_special: u64,
    pub skipped_excluded: u64,
    /// Files dropped because a directory size budget was exhausted.
    pub skipped_dir_budget: u64,
    /// Files dropped because a directory file-count limit was exhausted.
    pub skipped_dir_file_limit: u64,
    /// Single-file size above the per-file maximum.
    pub skipped_max_size: u64,
    /// Skipped by a per-pattern file size list.
    pub skipped_file_size_from: u64,
    /// Single-file size below the per-file minimum.
    pub skipped_min_size: u64,
    /// File mtime older than the newer-than window.
    pub skipped_older_than: u64,
    /// Dropped by the global total-size cap (newest-first fill).
    pub skipped_max_total_size: u64,
    /// Dropped by the global file-count cap (newest-first).
    pub skipped_max_files: u64,
}

/// All counters zero.
pub open spec fn zero_stats() -> SelectionStats {
    SelectionStats {
        selected: 0,
        skipped_symlinks: 0,
        skipped_hardlinks: 0,
        skipped_special: 0,
        skipped_excluded: 0,
        skipped_dir_budget: 0,
        skipped_dir_file_limit: 0,
        skipped_max_size: 0,
        skipped_file_size_from: 0,
        skipped_min_size: 0,
        skipped_older_than: 0,
        skipped_max_total_size: 0,
        skipped_max_files: 0,
    }
}

impl Default for SelectionStats {
    fn default() -> (s: Self)
        ensures
            s == zero_stats(),
    {
        SelectionStats {
            selected: 0,
            skipped_symlinks: 0,
            skipped_hardlinks: 0,
            skipped_special: 0,
            skipped_excluded: 0,
            skipped_dir_budget: 0,
            skipped_dir_file_limit: 0,
            skipped_max_size: 0,
            skipped_file_size_from: 0,
            skipped_min_size: 0,
            skipped_older_than: 0,
            skipped_max_total_size: 0,
            skipped_max_files: 0,
        }
    }
}

} // verus!
