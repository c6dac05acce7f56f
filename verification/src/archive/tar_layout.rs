//! Layout of the uncompressed tar payload shared by tar.zst and tar.lz4: each
//! member's headers and data (padded to 512-byte blocks), the parent
//! directories emitted once before their first member, the end-of-archive
//! blocks, and the `RATAIDX1` index with its start offset.
//!
//! The writer asks this layout for the bytes to emit and streams file data
//! itself; the layout keeps the offsets and the index.

use crate::archive::tar_common::{
    build_tar_headers, encode_index, mviews, tar_headers_spec, tar_index_bytes, TarEntryModel,
    TarMemberIndexEntry, TarMemberMeta,
};
use crate::bytes::{le_bytes, push_le};
use crate::error::{Error, Result};
use crate::text::{
    chars_of, eq_chars, has_prefix, nonempty, slice_of, split, split_chars, starts_with, string_from,
    strip_leading, strip_leading_chars, strip_trailing, strip_trailing_chars, views,
};
use vstd::hash_set::StringHashSet;
use vstd::prelude::*;

verus! {

/// `n` zero bytes.
pub open spec fn zeros(n: nat) -> Seq<u8> {
    Seq::new(n, |i: int| 0u8)
}

fn zero_bytes(n: usize) -> (v: Vec<u8>)
    ensures
        v@ == zeros(n as nat),
{
    let mut v: Vec<u8> = Vec::new();
    let mut i: usize = 0;
    while i < n
        invariant
            i <= n,
            v@ == zeros(i as nat),
        decreases n - i,
    {
        v.push(0u8);
        i = i + 1;
        assert(v@ =~= zeros(i as nat));
    }
    v
}

/// Zero padding after `written` data bytes up to the next 512-byte block.
pub open spec fn pad_len(written: u64) -> nat {
    ((512 - written % 512) % 512) as nat
}

/// The index entry of a member whose headers start at `hoff` and whose data
/// starts at `doff`.
pub open spec fn entry_for(name: Seq<char>, m: TarMemberMeta, hoff: u64, doff: u64) -> TarEntryModel {
    TarEntryModel {
        name,
        hoff,
        doff,
        dlen: m.size,
        mode: m.mode,
        mtime: m.mtime,
        uid: m.uid,
        gid: m.gid,
    }
}

pub open spec fn dir_names(v: Seq<String>) -> Seq<Seq<char>> {
    v.map_values(|s: String| s@)
}


/// How many levels above a member's file its parent directory `dir` sits: the
/// number of non-empty `/`-pieces after `dir` in the member name. `None`
/// when `dir` is the root, is not a prefix of the name at a `/`, or leaves
/// nothing after it.
pub open spec fn dir_hops_spec(name: Seq<char>, dir: Seq<char>) -> Option<nat> {
    let prefix = strip_trailing(dir, '/');
    let file = strip_leading(name, '/');
    if prefix.len() == 0 || !starts_with(file, prefix) || file.len() == prefix.len() || file[prefix.len() as int] != '/' {
        None
    } else {
        let n = nonempty(split(file.skip(prefix.len() + 1 as int), '/')).len();
        if n == 0 {
            None
        } else {
            Some(n)
        }
    }
}

/// Number of non-empty parts.
fn count_nonempty(parts: &Vec<Vec<char>>) -> (n: usize)
    ensures
        n == nonempty(views(parts@)).len(),
{
    let mut n: usize = 0;
    let mut i: usize = 0;
    while i < parts.len()
        invariant
            i <= parts.len(),
            n == nonempty(views(parts@).take(i as int)).len(),
            n <= i,
        decreases parts.len() - i,
    {
        assert(views(parts@).take(i + 1).drop_last() =~= views(parts@).take(i as int));
        assert(views(parts@)[i as int] == parts@[i as int]@);
        if parts[i].len() > 0 {
            n = n + 1;
        }
        i = i + 1;
    }
    assert(views(parts@).take(parts.len() as int) =~= views(parts@));
    n
}

/// How many directory levels to climb from a member's file to reach its
/// parent directory `dir_name` (see [`dir_hops_spec`]).
pub fn dir_hops(archive_name: &str, dir_name: &str) -> (r: Option<usize>)
    ensures
        match dir_hops_spec(archive_name@, dir_name@) {
            Some(n) => r == Some(n as usize),
            None => r is None,
        },
{
    let dv = chars_of(dir_name);
    let prefix = strip_trailing_chars(&dv, '/');
    if prefix.len() == 0 {
        return None;
    }
    let nv = chars_of(archive_name);
    let file = strip_leading_chars(&nv, '/');
    if !has_prefix(&file, &prefix) || file.len() == prefix.len() || file[prefix.len()] != '/' {
        return None;
    }
    let rest = slice_of(&file, prefix.len() + 1, file.len());
    assert(rest@ == file@.skip(prefix.len() + 1 as int));
    let parts = split_chars(&rest, '/');
    let n = count_nonempty(&parts);
    if n == 0 {
        None
    } else {
        Some(n)
    }
}

/// Running layout of a tar payload.
pub struct TarLayout {
    pos: u64,
    index: Vec<TarMemberIndexEntry>,
    dirs: Vec<String>,
    dir_set: StringHashSet,
    open: Option<TarMemberIndexEntry>,
}

impl TarLayout {
    /// Payload bytes emitted so far.
    pub closed spec fn pos_spec(&self) -> nat {
        self.pos as nat
    }

    /// Index entries of the members completed so far.
    pub closed spec fn index_spec(&self) -> Seq<TarEntryModel> {
        mviews(self.index@)
    }

    /// Directory members emitted so far.
    pub closed spec fn dirs_spec(&self) -> Seq<Seq<char>> {
        dir_names(self.dirs@)
    }

    /// The set of emitted directory names mirrors the list.
    pub closed spec fn dirs_indexed(&self) -> bool {
        self.dir_set@ == self.dirs_spec().to_set()
    }

    /// The member whose headers were emitted and whose data is streaming.
    pub closed spec fn open_spec(&self) -> Option<TarEntryModel> {
        match self.open {
            Some(e) => Some(e@),
            None => None,
        }
    }

    /// Every recorded member's headers precede its data, and its data lies
    /// within what was emitted.
    pub open spec fn wf(&self) -> bool {
        &&& self.dirs_indexed()
        &&& forall|k: int|
            0 <= k < self.index_spec().len() ==> (#[trigger] self.index_spec()[k]).hoff <= self.index_spec()[k].doff
                && self.index_spec()[k].doff + self.index_spec()[k].dlen <= self.pos_spec()
        &&& match self.open_spec() {
            Some(e) => e.hoff <= e.doff && e.doff == self.pos_spec(),
            None => true,
        }
    }

    /// An empty payload.
    pub fn new() -> (l: Self)
        ensures
            l.wf(),
            l.pos_spec() == 0,
            l.index_spec() == Seq::<TarEntryModel>::empty(),
            l.dirs_spec() == Seq::<Seq<char>>::empty(),
            l.open_spec() is None,
    {
        let l = TarLayout { pos: 0, index: Vec::new(), dirs: Vec::new(), dir_set: StringHashSet::new(), open: None };
        assert(l.index_spec() =~= Seq::<TarEntryModel>::empty());
        assert(l.dirs_spec() =~= Seq::<Seq<char>>::empty());
        assert(l.dirs_spec().to_set() =~= Set::<Seq<char>>::empty());
        l
    }

    /// Payload bytes emitted so far.
    pub fn pos(&self) -> (p: u64)
        ensures
            p == self.pos_spec(),
    {
        self.pos
    }

    /// Index entries of the members completed so far.
    pub fn index(&self) -> (v: &[TarMemberIndexEntry])
        ensures
            mviews(v@) == self.index_spec(),
    {
        self.index.as_slice()
    }

    /// Whether the directory member `name` was emitted.
    pub fn has_dir(&self, name: &str) -> (b: bool)
        requires
            self.wf(),
        ensures
            b == self.dirs_spec().contains(name@),
    {
        self.dir_set.contains(name)
    }

    /// Emit the directory member `dir_name` unless it was emitted before:
    /// `Ok(None)` when it was, else its headers, recorded in the index with no
    /// data. Fails when the headers cannot be built or the offset overflows.
    pub fn add_dir(&mut self, dir_name: &str, meta: &TarMemberMeta) -> (r: Result<Option<Vec<u8>>>)
        requires
            old(self).wf(),
            old(self).open_spec() is None,
        ensures
            final(self).wf(),
            final(self).open_spec() is None,
            old(self).dirs_spec().contains(dir_name@) ==> (r matches Ok(None) && *final(self) == *old(self)),
            !old(self).dirs_spec().contains(dir_name@) ==> match tar_headers_spec(dir_name@, meta@) {
                None => r matches Err(e) && e is Archive,
                Some(h) => if old(self).pos_spec() + h.len() > u64::MAX {
                    r matches Err(e) && e is Archive
                } else {
                    &&& r matches Ok(Some(v)) && v@ == h
                    &&& final(self).pos_spec() == old(self).pos_spec() + h.len()
                    &&& final(self).dirs_spec() == old(self).dirs_spec().push(dir_name@)
                    &&& final(self).index_spec() == old(self).index_spec().push(
                        TarEntryModel { dlen: 0, ..entry_for(dir_name@, *meta, old(self).pos_spec() as u64, (old(self).pos_spec() + h.len()) as u64) },
                    )
                },
            },
    {
        if self.has_dir(dir_name) {
            return Ok(None);
        }
        let h = build_tar_headers(dir_name, meta)?;
        let hl = h.len() as u64;
        if self.pos > u64::MAX - hl {
            return Err(Error::Archive(string_from("tar offset overflow")));
        }
        let hoff = self.pos;
        let doff = self.pos + hl;
        let e = TarMemberIndexEntry {
            name: string_from(dir_name),
            tar_header_offset: hoff,
            tar_data_offset: doff,
            data_len: 0,
            mode: meta.mode,
            mtime_unix: meta.mtime,
            uid: meta.uid,
            gid: meta.gid,
        };
        let ghost i0 = self.index_spec();
        let ghost d0 = self.dirs_spec();
        let ghost em = e@;
        self.index.push(e);
        self.dirs.push(string_from(dir_name));
        self.dir_set.insert(string_from(dir_name));
        self.pos = doff;
        proof {
            assert(self.dirs_spec().to_set() =~= d0.to_set().insert(dir_name@)) by {
                assert forall|y: Seq<char>| #[trigger] self.dirs_spec().contains(y) <==> (d0.contains(y) || y == dir_name@) by {
                    if self.dirs_spec().contains(y) {
                        let p = choose|p: int| 0 <= p < self.dirs_spec().len() && self.dirs_spec()[p] == y;
                        if p < d0.len() {
                            assert(d0[p] == y);
                        }
                    }
                    if d0.contains(y) {
                        let p = choose|p: int| 0 <= p < d0.len() && d0[p] == y;
                        assert(self.dirs_spec()[p] == y);
                    }
                    if y == dir_name@ {
                        assert(self.dirs_spec()[d0.len() as int] == y);
                    }
                }
            }
            assert(self.index_spec() =~= i0.push(em));
            assert(self.dirs_spec() =~= d0.push(dir_name@));
            assert forall|k: int| 0 <= k < self.index_spec().len() implies (#[trigger] self.index_spec()[k]).hoff
                <= self.index_spec()[k].doff && self.index_spec()[k].doff + self.index_spec()[k].dlen <= self.pos_spec() by {
                if k < i0.len() {
                    assert(self.index_spec()[k] == i0[k]);
                }
            }
        }
        Ok(Some(h))
    }

    /// Emit the headers of member `name`; its data follows. Fails when the
    /// headers cannot be built or the offset overflows.
    pub fn begin_member(&mut self, name: &str, meta: &TarMemberMeta) -> (r: Result<Vec<u8>>)
        requires
            old(self).wf(),
            old(self).open_spec() is None,
        ensures
            final(self).wf(),
            match tar_headers_spec(name@, meta@) {
                None => r matches Err(e) && e is Archive,
                Some(h) => if old(self).pos_spec() + h.len() > u64::MAX {
                    r matches Err(e) && e is Archive
                } else {
                    &&& r matches Ok(v) && v@ == h
                    &&& final(self).pos_spec() == old(self).pos_spec() + h.len()
                    &&& final(self).index_spec() == old(self).index_spec()
                    &&& final(self).dirs_spec() == old(self).dirs_spec()
                    &&& final(self).open_spec() == Some(
                        entry_for(name@, *meta, old(self).pos_spec() as u64, (old(self).pos_spec() + h.len()) as u64),
                    )
                },
            },
    {
        let h = build_tar_headers(name, meta)?;
        let hl = h.len() as u64;
        if self.pos > u64::MAX - hl {
            return Err(Error::Archive(string_from("tar offset overflow")));
        }
        let hoff = self.pos;
        let doff = self.pos + hl;
        self.open = Some(
            TarMemberIndexEntry {
                name: string_from(name),
                tar_header_offset: hoff,
                tar_data_offset: doff,
                data_len: meta.size,
                mode: meta.mode,
                mtime_unix: meta.mtime,
                uid: meta.uid,
                gid: meta.gid,
            },
        );
        self.pos = doff;
        proof {
            assert forall|k: int| 0 <= k < self.index_spec().len() implies (#[trigger] self.index_spec()[k]).hoff
                <= self.index_spec()[k].doff && self.index_spec()[k].doff + self.index_spec()[k].dlen <= self.pos_spec() by {
                assert(self.index_spec()[k] == old(self).index_spec()[k]);
            }
        }
        Ok(h)
    }

    /// Close the open member after `written` data bytes were emitted: an error
    /// when that is not the size its header announced or the offset
    /// overflows; else the zero padding to the next block, and the member is
    /// recorded in the index.
    pub fn end_member(&mut self, written: u64) -> (r: Result<Vec<u8>>)
        requires
            old(self).wf(),
            old(self).open_spec() is Some,
        ensures
            ({
                let e = old(self).open_spec()->0;
                if written != e.dlen {
                    r matches Err(err) && err is Archive
                } else if old(self).pos_spec() + written + pad_len(written) > u64::MAX {
                    r matches Err(err) && err is Archive
                } else {
                    &&& r matches Ok(v) && v@ == zeros(pad_len(written))
                    &&& final(self).wf()
                    &&& final(self).open_spec() is None
                    &&& final(self).pos_spec() == old(self).pos_spec() + written + pad_len(written)
                    &&& final(self).index_spec() == old(self).index_spec().push(e)
                    &&& final(self).dirs_spec() == old(self).dirs_spec()
                }
            }),
    {
        let e = match self.open.take() {
            Some(e) => e,
            None => {
                return Err(Error::Archive(string_from("no open tar member")));
            },
        };
        if written != e.data_len {
            return Err(Error::Archive(string_from("size changed while archiving")));
        }
        let pad = (512 - written % 512) % 512;
        if self.pos > u64::MAX - written || self.pos + written > u64::MAX - pad {
            return Err(Error::Archive(string_from("tar offset overflow")));
        }
        let ghost i0 = self.index_spec();
        let ghost em = e@;
        assert(em == old(self).open_spec()->0);
        assert(i0 == old(self).index_spec());
        assert(em.doff == old(self).pos_spec());
        self.pos = self.pos + written + pad;
        self.index.push(e);
        proof {
            assert(self.index_spec() =~= i0.push(em));
            assert forall|k: int| 0 <= k < self.index_spec().len() implies (#[trigger] self.index_spec()[k]).hoff
                <= self.index_spec()[k].doff && self.index_spec()[k].doff + self.index_spec()[k].dlen <= self.pos_spec() by {
                if k < i0.len() {
                    assert(self.index_spec()[k] == i0[k]);
                    assert(old(self).index_spec()[k].doff + old(self).index_spec()[k].dlen <= old(self).pos_spec());
                } else {
                    assert(self.index_spec()[k] == em);
                }
            }
        }
        Ok(zero_bytes(pad as usize))
    }

    /// The end of the payload: two zero blocks, the member index, then the
    /// offset where the index starts.
    pub fn finish(&self) -> (r: Result<Vec<u8>>)
        requires
            self.wf(),
            self.open_spec() is None,
        ensures
            if self.pos_spec() + 1024 > u64::MAX {
                r matches Err(e) && e is Archive
            } else {
                r matches Ok(v) && v@ == zeros(1024) + tar_index_bytes(self.index_spec()) + le_bytes(
                    self.pos_spec() + 1024,
                    8,
                )
            },
    {
        if self.pos > u64::MAX - 1024 {
            return Err(Error::Archive(string_from("tar offset overflow")));
        }
        let index_start = self.pos + 1024;
        let mut v = zero_bytes(1024);
        let idx = encode_index(self.index.as_slice())?;
        crate::bytes::bextend(&mut v, &idx);
        push_le(&mut v, index_start, 8);
        Ok(v)
    }
}

} // verus!
