//! The decisions of the selection walk: which paths become members, which
//! are skipped and counted, which names collide, and which regular files are
//! hard links to an earlier member.
//!
//! The walk itself (directory traversal, `lstat`, `read_link`, owner name
//! lookup) runs outside the library and hands each path's facts to a
//! [`SelectionBuilder`].

use crate::error::{Error, Result};
use crate::select::matcher::action_spec;
use crate::select::pathnorm::{basename_utf8, basename_utf8_spec, norm_result, normalize_archive_str};
use crate::select::rules::{RuleAction, RuleSet};
use crate::select::walk::{zero_stats, MemberKind, SelectedEntry, SelectionStats};
use crate::text::{chars_of, string_from, string_of, trim, trim_chars, utf8};
use vstd::hash_map::HashMapWithView;
use vstd::hash_set::StringHashSet;
use vstd::prelude::*;

verus! {

/// What a non-following `stat` of a path shows that selection keeps.
#[derive(Debug, Clone, Copy, PartialEq, Eq, Structural)]
pub struct PathMeta {
    /// Content length.
    pub size: u64,
    /// Modification time, Unix seconds, when known.
    pub mtime_unix: Option<u64>,
    /// Permission bits.
    pub mode: u32,
    pub uid: u32,
    pub gid: u32,
    /// Device and inode number, which identify hard-linked paths.
    pub dev: u64,
    pub ino: u64,
}

/// Device and inode number as one key.
pub open spec fn inode_key(dev: u64, ino: u64) -> u128 {
    (dev * 0x1_0000_0000_0000_0000 + ino) as u128
}

fn inode_key_of(dev: u64, ino: u64) -> (k: u128)
    ensures
        k == inode_key(dev, ino),
{
    assert(dev * 0x1_0000_0000_0000_0000 + ino <= u128::MAX) by (nonlinear_arith)
        requires
            dev <= u64::MAX,
            ino <= u64::MAX,
    ;
    (dev as u128) * 0x1_0000_0000_0000_0000u128 + (ino as u128)
}

/// `e` is the member for a path with facts `meta`: a hard link to `first`
/// when an earlier regular file had the same inode, else the file itself.
pub open spec fn file_member(
    e: SelectedEntry,
    abs_path: String,
    name: Seq<char>,
    meta: PathMeta,
    un: String,
    gn: String,
    first: Option<Seq<char>>,
) -> bool {
    &&& e.abs_path == abs_path
    &&& e.archive_name@ == name
    &&& e.mtime_unix == meta.mtime_unix
    &&& e.mode == meta.mode
    &&& e.uid == meta.uid
    &&& e.gid == meta.gid
    &&& e.uname == un
    &&& e.gname == gn
    &&& match first {
        Some(t) => e.size == 0 && (e.kind matches MemberKind::HardLink { target } && target@ == t),
        None => e.size == meta.size && e.kind is File,
    }
}

/// `e` is the member for a symbolic link to `target`.
pub open spec fn link_member(
    e: SelectedEntry,
    abs_path: String,
    name: Seq<char>,
    meta: PathMeta,
    un: String,
    gn: String,
    target: Seq<char>,
) -> bool {
    &&& e.abs_path == abs_path
    &&& e.archive_name@ == name
    &&& e.size == 0
    &&& e.mtime_unix == meta.mtime_unix
    &&& e.mode == meta.mode
    &&& e.uid == meta.uid
    &&& e.gid == meta.gid
    &&& e.uname == un
    &&& e.gname == gn
    &&& (e.kind matches MemberKind::Symlink { target: t } && t@ == target)
}

/// The selection gathered so far: members in walk order, skip counters, the
/// archive names taken, and the first member name of each regular-file inode.
pub struct SelectionBuilder {
    entries: Vec<SelectedEntry>,
    stats: SelectionStats,
    names: StringHashSet,
    inodes: HashMapWithView<u128, String>,
}

impl SelectionBuilder {
    /// Members selected so far, in order.
    pub closed spec fn entries_of(&self) -> Seq<SelectedEntry> {
        self.entries@
    }

    /// Skip counters so far.
    pub closed spec fn stats_of(&self) -> SelectionStats {
        self.stats
    }

    /// Archive names taken so far.
    pub closed spec fn names_of(&self) -> Set<Seq<char>> {
        self.names@
    }

    /// First member name of each regular-file inode seen so far.
    pub closed spec fn first_names(&self) -> Map<u128, Seq<char>> {
        self.inodes@.map_values(|s: String| s@)
    }

    /// Every member's name is taken, and no two members share one.
    pub open spec fn wf(&self) -> bool {
        &&& forall|k: int| 0 <= k < self.entries_of().len() ==> self.names_of().contains(#[trigger] self.entries_of()[k].archive_name@)
        &&& forall|a: int, b: int|
            0 <= a < b < self.entries_of().len() ==> #[trigger] self.entries_of()[a].archive_name@ != #[trigger] self.entries_of()[b].archive_name@
    }

    /// Nothing selected yet.
    pub fn new() -> (b: Self)
        ensures
            b.entries_of() == Seq::<SelectedEntry>::empty(),
            b.stats_of() == zero_stats(),
            b.names_of() == Set::<Seq<char>>::empty(),
            b.first_names() == Map::<u128, Seq<char>>::empty(),
            b.wf(),
    {
        broadcast use vstd::std_specs::hash::group_hash_axioms;

        let b = SelectionBuilder {
            entries: Vec::new(),
            stats: SelectionStats::default(),
            names: StringHashSet::new(),
            inodes: HashMapWithView::new(),
        };
        assert(b.first_names() =~= Map::<u128, Seq<char>>::empty());
        b
    }

    /// The skip counters so far.
    pub fn stats(&self) -> (s: SelectionStats)
        ensures
            s == self.stats_of(),
    {
        self.stats
    }

    /// Count a path that is neither a regular file, a directory nor a link.
    pub fn skip_special(&mut self)
        requires
            old(self).stats_of().skipped_special < u64::MAX,
        ensures
            final(self).stats_of() == (SelectionStats {
                skipped_special: (old(self).stats_of().skipped_special + 1) as u64,
                ..old(self).stats_of()
            }),
            final(self).entries_of() == old(self).entries_of(),
            final(self).names_of() == old(self).names_of(),
            final(self).first_names() == old(self).first_names(),
    {
        self.stats.skipped_special = self.stats.skipped_special + 1;
    }

    /// Apply the rules to `archive_name` and take the name: `Ok(false)` when
    /// the rules exclude it (counted), a collision error when it is taken.
    fn take_name(&mut self, rules: &RuleSet, archive_name: &str) -> (r: Result<bool>)
        requires
            old(self).stats_of().skipped_excluded < u64::MAX,
        ensures
            final(self).entries_of() == old(self).entries_of(),
            final(self).first_names() == old(self).first_names(),
            action_spec(rules@, utf8(archive_name@), false) is Exclude ==> r == Ok::<bool, Error>(false)
                && final(self).stats_of() == (SelectionStats {
                skipped_excluded: (old(self).stats_of().skipped_excluded + 1) as u64,
                ..old(self).stats_of()
            }) && final(self).names_of() == old(self).names_of(),
            action_spec(rules@, utf8(archive_name@), false) is Include && old(self).names_of().contains(archive_name@)
                ==> (r matches Err(e) && (e matches Error::Collision(n) && n@ == archive_name@))
                && final(self).stats_of() == old(self).stats_of() && final(self).names_of() == old(self).names_of(),
            action_spec(rules@, utf8(archive_name@), false) is Include && !old(self).names_of().contains(archive_name@)
                ==> r == Ok::<bool, Error>(true) && final(self).stats_of() == old(self).stats_of() && final(self).names_of()
                == old(self).names_of().insert(archive_name@),
    {
        match rules.action_for(archive_name, false) {
            RuleAction::Exclude => {
                self.stats.skipped_excluded = self.stats.skipped_excluded + 1;
                Ok(false)
            },
            RuleAction::Include => {
                let inserted = self.names.insert(string_from(archive_name));
                if inserted {
                    Ok(true)
                } else {
                    Err(Error::Collision(string_from(archive_name)))
                }
            },
        }
    }

    /// Consider a regular file named `archive_name`: skipped when the rules
    /// exclude it, a collision error when the name is taken, else a member,
    /// which is a hard link to the first member with the same inode, if any.
    /// `owner_names` gives the owner user and group names of a uid and gid;
    /// it is consulted only for a new member.
    pub fn add_file<G: Fn(u32, u32) -> (String, String)>(
        &mut self,
        rules: &RuleSet,
        archive_name: &str,
        abs_path: String,
        meta: PathMeta,
        owner_names: G,
    ) -> (r: Result<()>)
        requires
            old(self).stats_of().skipped_excluded < u64::MAX,
            call_requires(owner_names, (meta.uid, meta.gid)),
            old(self).wf(),
        ensures
            final(self).wf(),
            action_spec(rules@, utf8(archive_name@), false) is Exclude ==> r is Ok && final(self).entries_of()
                == old(self).entries_of() && final(self).stats_of() == (SelectionStats {
                skipped_excluded: (old(self).stats_of().skipped_excluded + 1) as u64,
                ..old(self).stats_of()
            }) && final(self).names_of() == old(self).names_of() && final(self).first_names() == old(
                self,
            ).first_names(),
            action_spec(rules@, utf8(archive_name@), false) is Include && old(self).names_of().contains(archive_name@)
                ==> (r matches Err(e) && (e matches Error::Collision(n) && n@ == archive_name@)),
            action_spec(rules@, utf8(archive_name@), false) is Include && !old(self).names_of().contains(archive_name@)
                ==> r is Ok && final(self).stats_of() == old(self).stats_of() && final(self).names_of() == old(
                self,
            ).names_of().insert(archive_name@) && final(self).entries_of().len() == old(self).entries_of().len() + 1
                && final(self).entries_of().drop_last() == old(self).entries_of() && (exists|un: String, gn: String|
                call_ensures(owner_names, (meta.uid, meta.gid), (un, gn)) && file_member(
                    final(self).entries_of().last(),
                    abs_path,
                    archive_name@,
                    meta,
                    un,
                    gn,
                    if old(self).first_names().contains_key(inode_key(meta.dev, meta.ino)) {
                        Some(old(self).first_names()[inode_key(meta.dev, meta.ino)])
                    } else {
                        None
                    },
                )) && final(self).first_names() == (if old(self).first_names().contains_key(
                inode_key(meta.dev, meta.ino),
            ) {
                old(self).first_names()
            } else {
                old(self).first_names().insert(inode_key(meta.dev, meta.ino), archive_name@)
            }),
    {
        let ghost e0 = self.entries@;
        if !self.take_name(rules, archive_name)? {
            return Ok(());
        }
        let (uname, gname) = owner_names(meta.uid, meta.gid);
        let key = inode_key_of(meta.dev, meta.ino);
        let (size, kind) = match self.inodes.get(&key) {
            Some(first) => (0u64, MemberKind::HardLink { target: string_from(first.as_str()) }),
            None => {
                self.inodes.insert(key, string_from(archive_name));
                (meta.size, MemberKind::File)
            },
        };
        let e = SelectedEntry {
            abs_path,
            archive_name: string_from(archive_name),
            size,
            mtime_unix: meta.mtime_unix,
            mode: meta.mode,
            uid: meta.uid,
            gid: meta.gid,
            uname,
            gname,
            kind,
        };
        self.entries.push(e);
        proof {
            assert(self.entries@.drop_last() == e0);
            lemma_push_keeps_wf(e0, self.entries@, old(self).names_of(), self.names@);
            assert(self.first_names() =~= (if old(self).first_names().contains_key(key) {
                old(self).first_names()
            } else {
                old(self).first_names().insert(key, archive_name@)
            }));
        }
        Ok(())
    }

    /// Consider a symbolic link named `archive_name`: skipped when the rules
    /// exclude it, a collision error when the name is taken, else a member
    /// whose target `read_target` gives (its error, if any, is returned).
    pub fn add_symlink<T: Fn() -> Result<String>, G: Fn(u32, u32) -> (String, String)>(
        &mut self,
        rules: &RuleSet,
        archive_name: &str,
        abs_path: String,
        meta: PathMeta,
        read_target: T,
        owner_names: G,
    ) -> (r: Result<()>)
        requires
            old(self).stats_of().skipped_excluded < u64::MAX,
            call_requires(read_target, ()),
            call_requires(owner_names, (meta.uid, meta.gid)),
            old(self).wf(),
        ensures
            final(self).wf(),
            final(self).first_names() == old(self).first_names(),
            action_spec(rules@, utf8(archive_name@), false) is Exclude ==> r is Ok && final(self).entries_of()
                == old(self).entries_of() && final(self).stats_of() == (SelectionStats {
                skipped_excluded: (old(self).stats_of().skipped_excluded + 1) as u64,
                ..old(self).stats_of()
            }) && final(self).names_of() == old(self).names_of(),
            action_spec(rules@, utf8(archive_name@), false) is Include && old(self).names_of().contains(archive_name@)
                ==> (r matches Err(e) && (e matches Error::Collision(n) && n@ == archive_name@)),
            action_spec(rules@, utf8(archive_name@), false) is Include && !old(self).names_of().contains(archive_name@)
                ==> exists|t: Result<String>| call_ensures(read_target, (), t) && match t {
                Err(e) => r == Err::<(), Error>(e),
                Ok(target) => r is Ok && final(self).stats_of() == old(self).stats_of() && final(self).names_of()
                    == old(self).names_of().insert(archive_name@) && final(self).entries_of().len() == old(
                    self,
                ).entries_of().len() + 1 && final(self).entries_of().drop_last() == old(self).entries_of() && (exists|
                    un: String,
                    gn: String,
                | call_ensures(owner_names, (meta.uid, meta.gid), (un, gn)) && link_member(
                    final(self).entries_of().last(),
                    abs_path,
                    archive_name@,
                    meta,
                    un,
                    gn,
                    target@,
                )),
            },
    {
        let ghost e0 = self.entries@;
        if !self.take_name(rules, archive_name)? {
            return Ok(());
        }
        let t = read_target();
        let ghost tg = t;
        let target = match t {
            Ok(target) => target,
            Err(e) => {
                assert(call_ensures(read_target, (), tg));
                return Err(e);
            },
        };
        let (uname, gname) = owner_names(meta.uid, meta.gid);
        let ghost un = uname;
        let ghost gn = gname;
        let ghost ab = abs_path;
        let e = SelectedEntry {
            abs_path,
            archive_name: string_from(archive_name),
            size: 0,
            mtime_unix: meta.mtime_unix,
            mode: meta.mode,
            uid: meta.uid,
            gid: meta.gid,
            uname,
            gname,
            kind: MemberKind::Symlink { target },
        };
        self.entries.push(e);
        proof {
            assert(self.entries@.drop_last() == e0);
            lemma_push_keeps_wf(e0, self.entries@, old(self).names_of(), self.names@);
            assert(call_ensures(owner_names, (meta.uid, meta.gid), (un, gn)));
            assert(link_member(self.entries@.last(), ab, archive_name@, meta, un, gn, tg->Ok_0@));
            assert(call_ensures(read_target, (), tg));
        }
        Ok(())
    }

    /// The members in order, and the counters with `selected` set to their number.
    pub fn finish(self) -> (r: (Vec<SelectedEntry>, SelectionStats))
        ensures
            r.0@ == self.entries_of(),
            r.1 == (SelectionStats { selected: self.entries_of().len() as u64, ..self.stats_of() }),
    {
        let mut stats = self.stats;
        stats.selected = self.entries.len() as u64;
        (self.entries, stats)
    }
}

/// Adding a member whose name was just taken keeps names taken and distinct.
proof fn lemma_push_keeps_wf(e0: Seq<SelectedEntry>, e1: Seq<SelectedEntry>, n0: Set<Seq<char>>, n1: Set<Seq<char>>)
    requires
        e1.len() == e0.len() + 1,
        e1.drop_last() == e0,
        forall|k: int| 0 <= k < e0.len() ==> n0.contains(#[trigger] e0[k].archive_name@),
        forall|a: int, b: int| 0 <= a < b < e0.len() ==> #[trigger] e0[a].archive_name@ != #[trigger] e0[b].archive_name@,
        !n0.contains(e1.last().archive_name@),
        n1 == n0.insert(e1.last().archive_name@),
    ensures
        forall|k: int| 0 <= k < e1.len() ==> n1.contains(#[trigger] e1[k].archive_name@),
        forall|a: int, b: int| 0 <= a < b < e1.len() ==> #[trigger] e1[a].archive_name@ != #[trigger] e1[b].archive_name@,
{
    assert forall|k: int| 0 <= k < e1.len() implies n1.contains(#[trigger] e1[k].archive_name@) by {
        if k < e0.len() {
            assert(e1[k] == e0[k]);
        }
    }
    assert forall|a: int, b: int| 0 <= a < b < e1.len() implies #[trigger] e1[a].archive_name@ != #[trigger] e1[b].archive_name@ by {
        assert(e1[a] == e0[a]);
        if b < e0.len() {
            assert(e1[b] == e0[b]);
        } else {
            assert(n0.contains(e0[a].archive_name@));
        }
    }
}

/// A `--files-from` line's path: the trimmed line, unless it is blank or a
/// `#` comment.
pub fn files_from_path(line: &str) -> (r: Option<String>)
    ensures
        match r {
            Some(p) => p@ == trim(line@) && trim(line@).len() > 0 && trim(line@)[0] != '#',
            None => trim(line@).len() == 0 || trim(line@)[0] == '#',
        },
{
    let v = chars_of(line);
    let t = trim_chars(&v);
    if t.len() == 0 || t[0] == '#' {
        None
    } else {
        Some(string_of(&t))
    }
}

/// Archive name for a `--files-from` path: an absolute path keeps its
/// basename, a relative one its normalized text.
pub fn files_from_archive_name(path: &str) -> (r: Result<String>)
    ensures
        path@.len() > 0 && path@[0] == '/' ==> match basename_utf8_spec(path@) {
            Some(n) => r matches Ok(v) && v@ == n,
            None => r matches Err(e) && e is InvalidMemberName,
        },
        !(path@.len() > 0 && path@[0] == '/') ==> norm_result(path@, r),
{
    let v = chars_of(path);
    if v.len() > 0 && v[0] == '/' {
        basename_utf8(path)
    } else {
        normalize_archive_str(path)
    }
}

} // verus!
