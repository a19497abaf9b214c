//! The filesystem adapter's state and per-operation logic: a stable
//! inode namespace synthesized from the region's chunk coordinates, and
//! the decision of every kernel operation, each returning either its
//! reply value or the errno it fails with. Transporting requests and
//! replies to the kernel happens outside the library.

use std::collections::HashMap;

use vstd::prelude::*;

use crate::anvil::{slot_of, RegionFile, RegionModel, MAX_CHUNK_LEN, SECTOR_LEN};
use crate::codec::CompressionType;
use crate::inode::{FileHandleAlloc, InoAlloc, InoSet, Inode, InodeData, ROOT_INO};
use crate::names::{spec_parse_name, FileKey, FileKind};

verus! {

broadcast use vstd::std_specs::hash::group_hash_axioms, crate::anvil::lemma_slot_of_bounds;

/// The attributes a stat reports, in plain values; times are seconds
/// since the Unix epoch and stand for all four stamps.
#[derive(Clone, Copy, Debug, PartialEq, Eq, Structural)]
pub struct Attr {
    pub ino: u64,
    pub size: u64,
    pub blocks: u64,
    pub mtime: u64,
    pub is_dir: bool,
    pub perm: u16,
    pub nlink: u32,
    pub uid: u32,
    pub gid: u32,
    pub blksize: u32,
}

/// The attributes of a regular file inode under the given mount.
pub open spec fn attr_of(inode: Inode, writable: bool, uid: u32, gid: u32) -> Attr {
    Attr {
        ino: inode.ino,
        size: inode.data.content().len() as u64,
        blocks: ((inode.data.content().len() + 511) / 512) as u64,
        mtime: inode.mtime,
        is_dir: false,
        perm: if writable {
            0o644
        } else {
            0o444
        },
        nlink: if inode.linked {
            1
        } else {
            0
        },
        uid,
        gid,
        blksize: SECTOR_LEN as u32,
    }
}

/// The attributes of the root directory under the given mount.
pub open spec fn root_attr_of(writable: bool, uid: u32, gid: u32) -> Attr {
    Attr {
        ino: ROOT_INO,
        size: 0,
        blocks: 0,
        mtime: 0,
        is_dir: true,
        perm: if writable {
            0o755
        } else {
            0o555
        },
        nlink: 2,
        uid,
        gid,
        blksize: SECTOR_LEN as u32,
    }
}

/// One row of a directory snapshot.
pub struct DirRow {
    pub ino: u64,
    pub is_dir: bool,
    pub name: Vec<u8>,
}

/// A snapshot of the directory, taken at `opendir`.
pub struct DirHandle {
    pub entries: Vec<DirRow>,
}

/// One entry a `readdir` reply reports.
#[derive(Debug)]
pub struct DirEntry {
    pub ino: u64,
    pub next_offset: i64,
    pub is_dir: bool,
    pub name: Vec<u8>,
}

/// What `unlink` removed: enough to name the entry the kernel should
/// drop from its caches.
#[derive(Clone, Copy, Debug, PartialEq, Eq, Structural)]
pub struct DeletionInfo {
    pub ino: u64,
    pub x: u8,
    pub z: u8,
    pub kind: FileKind,
}

/// The filesystem adapter: the parsed region, the mount's identity, the
/// slot-indexed link table, the live inodes, the open directory
/// snapshots, and the two allocators.
pub struct SmithyFs {
    region: RegionFile,
    uid: u32,
    gid: u32,
    writable: bool,
    links: Vec<Option<InoSet>>,
    inodes: HashMap<u64, Inode>,
    dir_handles: HashMap<u64, DirHandle>,
    ino_alloc: InoAlloc,
    fh_alloc: FileHandleAlloc,
}

impl SmithyFs {
    pub closed spec fn region_view(&self) -> RegionModel {
        self.region@
    }

    pub closed spec fn links_view(&self) -> Seq<Option<InoSet>> {
        self.links@
    }

    pub closed spec fn inodes_view(&self) -> Map<u64, Inode> {
        self.inodes@
    }

    pub closed spec fn dirs_view(&self) -> Map<u64, DirHandle> {
        self.dir_handles@
    }

    pub closed spec fn ino_mark(&self) -> u64 {
        self.ino_alloc.mark()
    }

    pub closed spec fn fh_mark(&self) -> u64 {
        self.fh_alloc.mark()
    }

    pub closed spec fn writable_spec(&self) -> bool {
        self.writable
    }

    pub closed spec fn uid_spec(&self) -> u32 {
        self.uid
    }

    pub closed spec fn gid_spec(&self) -> u32 {
        self.gid
    }

    /// The namespace invariant: the link table and the inode table agree,
    /// inode numbers never reach the allocator's mark, and every open
    /// handle stays below the handle mark.
    pub open spec fn wf(&self) -> bool {
        &&& self.links_view().len() == 1024
        &&& self.ino_mark() >= ROOT_INO + 1
        &&& forall|k: u64|
            #[trigger] self.inodes_view().dom().contains(k) ==> {
                let ino = self.inodes_view()[k];
                &&& ino.ino == k
                &&& ROOT_INO < k < self.ino_mark()
                &&& ino.x < 32
                &&& ino.z < 32
                &&& (ino.linked ==> self.links_view()[slot_of(ino.x, ino.z)] is Some
                    && self.links_view()[slot_of(ino.x, ino.z)]->0.get_spec(ino.data.kind_spec())
                    == k)
                &&& forall|fh: u64|
                    #[trigger] ino.open_handles@.dom().contains(fh) ==> 0 < fh <= self.fh_mark()
            }
        &&& forall|s: int|
            0 <= s < 1024 && (#[trigger] self.links_view()[s]) is Some ==> {
                let is = self.links_view()[s]->0;
                &&& self.inodes_view().dom().contains(is.chunk_ino)
                &&& self.inodes_view().dom().contains(is.info_ino)
                &&& is.chunk_ino != is.info_ino
                &&& self.inodes_view()[is.chunk_ino].linked
                &&& self.inodes_view()[is.info_ino].linked
                &&& self.inodes_view()[is.chunk_ino].data is Chunk
                &&& self.inodes_view()[is.info_ino].data is Info
                &&& slot_of(
                    self.inodes_view()[is.chunk_ino].x,
                    self.inodes_view()[is.chunk_ino].z,
                ) == s
                &&& slot_of(
                    self.inodes_view()[is.info_ino].x,
                    self.inodes_view()[is.info_ino].z,
                ) == s
            }
        &&& forall|fh: u64| #[trigger] self.dirs_view().dom().contains(fh) ==> 0 < fh <= self.fh_mark()
        &&& forall|fh: u64|
            #[trigger] self.dirs_view().dom().contains(fh)
                ==> self.dirs_view()[fh].entries@.len() <= 4096
        &&& self.region_view().wf()
        &&& self.region_view().payload_ok()
    }

    /// Builds the adapter over a parsed region: every stored chunk gets
    /// its pair of inodes, both linked, with no lookups or handles yet.
    pub fn new(region: RegionFile, uid: u32, gid: u32, writable: bool) -> (r: Self)
        requires
            region@.wf(),
            region@.payload_ok(),
        ensures
            r.wf(),
            r.region_view() == region@,
            r.writable_spec() == writable,
            r.uid_spec() == uid,
            r.gid_spec() == gid,
            r.fh_mark() == 0,
            r.dirs_view().dom() =~= Set::<u64>::empty(),
            forall|s: int|
                0 <= s < 1024 ==> ((#[trigger] r.links_view()[s]) is Some <==> region@.headers[s].address
                    is Some),
            forall|s: int|
                0 <= s < 1024 && (#[trigger] r.links_view()[s]) is Some ==> {
                    let is = r.links_view()[s]->0;
                    let ci = r.inodes_view()[is.chunk_ino];
                    let ii = r.inodes_view()[is.info_ino];
                    let a = region@.headers[s].address->0;
                    &&& ci.data.content() == region@.data.subrange(
                        (a.offset - 2) * (SECTOR_LEN as int) + 5,
                        (a.offset - 2) * (SECTOR_LEN as int) + 4 + region@.meta_len_at(a),
                    )
                    &&& ii.data == InodeData::Info(
                        CompressionType::decode_spec(region@.codec_at(a)),
                    )
                    &&& ci.mtime == region@.headers[s].mtime
                    &&& ii.mtime == region@.headers[s].mtime
                    &&& ci.nlookup == 0 && ii.nlookup == 0
                    &&& ci.open_handles@.len() == 0 && ii.open_handles@.len() == 0
                },
    {
        let mut links: Vec<Option<InoSet>> = Vec::new();
        let mut i: usize = 0;
        while i < 1024
            invariant
                links@.len() == i,
                i <= 1024,
                forall|s: int| 0 <= s < i ==> (#[trigger] links@[s]) is None,
            decreases 1024 - i,
        {
            links.push(None);
            i = i + 1;
        }
        let mut fs = SmithyFs {
            region,
            uid,
            gid,
            writable,
            links,
            inodes: HashMap::new(),
            dir_handles: HashMap::new(),
            ino_alloc: InoAlloc::new(),
            fh_alloc: FileHandleAlloc::new(),
        };
        let ghost rm = fs.region@;
        let mut idx: usize = 0;
        while idx < 1024
            invariant
                idx <= 1024,
                fs.region@ == rm,
                rm.wf() && rm.payload_ok(),
                fs.uid == uid && fs.gid == gid && fs.writable == writable,
                fs.fh_alloc.mark() == 0,
                fs.dir_handles@.dom() =~= Set::<u64>::empty(),
                fs.links@.len() == 1024,
                fs.ino_alloc.mark() >= ROOT_INO + 1,
                fs.ino_alloc.mark() <= 2 + 3 * idx,
                forall|s: int|
                    idx <= s < 1024 ==> (#[trigger] fs.links@[s]) is None,
                forall|s: int|
                    0 <= s < idx ==> ((#[trigger] fs.links@[s]) is Some <==> rm.headers[s].address
                        is Some),
                forall|k: u64|
                    #[trigger] fs.inodes@.dom().contains(k) ==> {
                        let ino = fs.inodes@[k];
                        &&& ino.ino == k
                        &&& ROOT_INO < k < fs.ino_alloc.mark()
                        &&& ino.x < 32
                        &&& ino.z < 32
                        &&& ino.linked
                        &&& slot_of(ino.x, ino.z) < idx
                        &&& fs.links@[slot_of(ino.x, ino.z)] is Some
                        &&& fs.links@[slot_of(ino.x, ino.z)]->0.get_spec(ino.data.kind_spec())
                            == k
                        &&& ino.open_handles@.len() == 0
                        &&& ino.open_handles@.dom() =~= Set::<u64>::empty()
                        &&& ino.nlookup == 0
                    },
                forall|s: int|
                    0 <= s < 1024 && (#[trigger] fs.links@[s]) is Some ==> {
                        let is = fs.links@[s]->0;
                        let a = rm.headers[s].address->0;
                        &&& fs.inodes@.dom().contains(is.chunk_ino)
                        &&& fs.inodes@.dom().contains(is.info_ino)
                        &&& is.chunk_ino != is.info_ino
                        &&& fs.inodes@[is.chunk_ino].linked
                        &&& fs.inodes@[is.info_ino].linked
                        &&& fs.inodes@[is.chunk_ino].data is Chunk
                        &&& fs.inodes@[is.info_ino].data is Info
                        &&& slot_of(fs.inodes@[is.chunk_ino].x, fs.inodes@[is.chunk_ino].z) == s
                        &&& slot_of(fs.inodes@[is.info_ino].x, fs.inodes@[is.info_ino].z) == s
                        &&& rm.headers[s].address is Some
                        &&& fs.inodes@[is.chunk_ino].data.content() == rm.data.subrange(
                            (a.offset - 2) * (SECTOR_LEN as int) + 5,
                            (a.offset - 2) * (SECTOR_LEN as int) + 4 + rm.meta_len_at(a),
                        )
                        &&& fs.inodes@[is.info_ino].data == InodeData::Info(
                            CompressionType::decode_spec(rm.codec_at(a)),
                        )
                        &&& fs.inodes@[is.chunk_ino].mtime == rm.headers[s].mtime
                        &&& fs.inodes@[is.info_ino].mtime == rm.headers[s].mtime
                        &&& fs.inodes@[is.chunk_ino].nlookup == 0
                        &&& fs.inodes@[is.info_ino].nlookup == 0
                        &&& fs.inodes@[is.chunk_ino].open_handles@.len() == 0
                        &&& fs.inodes@[is.info_ino].open_handles@.len() == 0
                    },
            decreases 1024 - idx,
        {
            let (x, z) = crate::anvil::idx_to_coords(idx);
            proof {
                assert(slot_of(x, z) == idx);
            }
            let chunk = match fs.region.lookup_chunk(x, z) {
                Some(c) => c,
                None => {
                    idx = idx + 1;
                    continue ;
                },
            };
            proof {
                let cx = chunk.x;
                let cz = chunk.z;
                assert(cx == x && cz == z) by (bit_vector)
                    requires
                        cx == x & 31,
                        cz == z & 31,
                        x < 32,
                        z < 32,
                ;
            }
            let inos = fs.ino_alloc.allocate_inos();
            let chunk_inode = Inode::new(&chunk, &inos, FileKind::Chunk);
            let info_inode = Inode::new(&chunk, &inos, FileKind::CompressionInfo);
            fs.links.set(idx, Some(inos));
            fs.inodes.insert(inos.chunk_ino, chunk_inode);
            fs.inodes.insert(inos.info_ino, info_inode);
            idx = idx + 1;
        }
        fs
    }
}


/// The open directory handles of a state whose snapshot table and
/// handle mark are carried over stay below that mark.
proof fn lemma_dirs_bound(a: SmithyFs, b: SmithyFs)
    requires
        a.wf(),
        b.dirs_view() == a.dirs_view(),
        b.fh_mark() >= a.fh_mark(),
    ensures
        forall|fh: u64| #[trigger] b.dirs_view().dom().contains(fh) ==> 0 < fh <= b.fh_mark(),
        forall|fh: u64|
            #[trigger] b.dirs_view().dom().contains(fh) ==> b.dirs_view()[fh].entries@.len()
                <= 4096,
{
    assert forall|fh: u64|
        #[trigger] b.dirs_view().dom().contains(fh) implies 0 < fh <= b.fh_mark()
        && b.dirs_view()[fh].entries@.len() <= 4096 by {
        assert(a.dirs_view().dom().contains(fh));
    }
}

/// The attributes of a regular file inode, as `attr_of` states them.
fn fattr_inode(inode: &Inode, writable: bool, uid: u32, gid: u32) -> (r: Attr)
    ensures
        r == attr_of(*inode, writable, uid, gid),
{
    let len = inode.data.len();
    let blocks = (((len as u128) + 511) / 512) as u64;
    Attr {
        ino: inode.ino,
        size: len as u64,
        blocks,
        mtime: inode.mtime,
        is_dir: false,
        perm: if writable {
            0o644
        } else {
            0o444
        },
        nlink: if inode.linked {
            1
        } else {
            0
        },
        uid,
        gid,
        blksize: SECTOR_LEN as u32,
    }
}

impl SmithyFs {
    /// Discards the inode when nothing reaches it any more; says whether
    /// it did.
    fn try_discard(&mut self, ino: u64) -> (r: bool)
        requires
            old(self).wf(),
        ensures
            final(self).wf(),
            final(self).region_view() == old(self).region_view(),
            final(self).links_view() == old(self).links_view(),
            final(self).dirs_view() == old(self).dirs_view(),
            final(self).ino_mark() == old(self).ino_mark(),
            final(self).fh_mark() == old(self).fh_mark(),
            final(self).writable_spec() == old(self).writable_spec(),
            final(self).uid_spec() == old(self).uid_spec(),
            final(self).gid_spec() == old(self).gid_spec(),
            r == (old(self).inodes_view().dom().contains(ino) && old(self).inodes_view()[ino].can_discard_spec()),
            r ==> final(self).inodes_view() == old(self).inodes_view().remove(ino),
            !r ==> final(self).inodes_view() == old(self).inodes_view(),
    {
        let discard = match self.inodes.get(&ino) {
            Some(inode) => inode.can_discard(),
            None => false,
        };
        if discard {
            let removed = self.inodes.remove(&ino);
            proof {
                let m2 = self.inodes@;
                assert forall|s: int|
                    0 <= s < 1024 && (#[trigger] self.links@[s]) is Some implies {
                    let is = self.links@[s]->0;
                    &&& m2.dom().contains(is.chunk_ino)
                    &&& m2.dom().contains(is.info_ino)
                } by {
                    let is = self.links@[s]->0;
                    assert(old(self).inodes_view()[is.chunk_ino].linked);
                    assert(old(self).inodes_view()[is.info_ino].linked);
                }
                lemma_dirs_bound(*old(self), *self);
            }
            true
        } else {
            false
        }
    }

    /// Looks a name up under the root: the name must parse and its slot
    /// must be linked; success counts one kernel lookup on the inode.
    pub fn lookup(&mut self, parent: u64, name: &[u8]) -> (r: Result<Attr, i32>)
        requires
            old(self).wf(),
        ensures
            final(self).wf(),
            final(self).region_view() == old(self).region_view(),
            final(self).links_view() == old(self).links_view(),
            final(self).dirs_view() == old(self).dirs_view(),
            final(self).ino_mark() == old(self).ino_mark(),
            final(self).fh_mark() == old(self).fh_mark(),
            final(self).writable_spec() == old(self).writable_spec(),
            final(self).uid_spec() == old(self).uid_spec(),
            final(self).gid_spec() == old(self).gid_spec(),
            ({
                let miss = r == Err::<Attr, i32>(crate::inode::ENOENT) && final(self).inodes_view()
                    == old(self).inodes_view();
                if parent != ROOT_INO {
                    miss
                } else {
                    match spec_parse_name(name@) {
                        Some((x, z, kind)) => match old(self).links_view()[slot_of(x, z)] {
                            Some(is) => {
                                let k = is.get_spec(kind);
                                let ino = old(self).inodes_view()[k];
                                let upd = (Inode {
                                    nlookup: if ino.nlookup < u64::MAX {
                                        (ino.nlookup + 1) as u64
                                    } else {
                                        ino.nlookup
                                    },
                                    ..ino
                                });
                                &&& r == Ok::<Attr, i32>(
                                    attr_of(
                                        upd,
                                        old(self).writable_spec(),
                                        old(self).uid_spec(),
                                        old(self).gid_spec(),
                                    ),
                                )
                                &&& final(self).inodes_view() == old(self).inodes_view().insert(
                                    k,
                                    upd,
                                )
                            },
                            None => miss,
                        },
                        None => miss,
                    }
                }
            }),
    {
        if parent != ROOT_INO {
            return Err(crate::inode::ENOENT);
        }
        let key = match FileKey::parse(name) {
            Some(key) => key,
            None => {
                return Err(crate::inode::ENOENT);
            },
        };
        let slot = crate::anvil::coords_to_idx(key.x, key.z);
        let is = match self.links[slot] {
            Some(is) => is,
            None => {
                return Err(crate::inode::ENOENT);
            },
        };
        let k = is.get(key.kind);
        let mut inode = match self.inodes.remove(&k) {
            Some(inode) => inode,
            None => {
                // unreachable: the link table points only at live inodes
                proof {
                    assert(false);
                }
                return Err(crate::inode::ENOENT);
            },
        };
        inode.inc_lookup();
        let attr = fattr_inode(&inode, self.writable, self.uid, self.gid);
        self.inodes.insert(k, inode);
        proof {
            lemma_dirs_bound(*old(self), *self);
        }
        Ok(attr)
    }

    /// Forgets `nlookup` kernel references to an inode; an unknown inode
    /// is ignored, and an unlinked inode with nothing left is discarded.
    pub fn forget(&mut self, ino: u64, nlookup: u64)
        requires
            old(self).wf(),
        ensures
            final(self).wf(),
            final(self).region_view() == old(self).region_view(),
            final(self).links_view() == old(self).links_view(),
            final(self).dirs_view() == old(self).dirs_view(),
            final(self).ino_mark() == old(self).ino_mark(),
            final(self).fh_mark() == old(self).fh_mark(),
            final(self).writable_spec() == old(self).writable_spec(),
            final(self).uid_spec() == old(self).uid_spec(),
            final(self).gid_spec() == old(self).gid_spec(),
            ({
                if !old(self).inodes_view().dom().contains(ino) {
                    final(self).inodes_view() == old(self).inodes_view()
                } else {
                    let inode = old(self).inodes_view()[ino];
                    let newn = if inode.nlookup >= nlookup {
                        (inode.nlookup - nlookup) as u64
                    } else {
                        0u64
                    };
                    let upd = (Inode { nlookup: newn, ..inode });
                    if newn == 0 && !inode.linked && inode.open_handles@.len() == 0 {
                        final(self).inodes_view() == old(self).inodes_view().remove(ino)
                    } else {
                        final(self).inodes_view() == old(self).inodes_view().insert(ino, upd)
                    }
                }
            }),
    {
        let mut inode = match self.inodes.remove(&ino) {
            Some(inode) => inode,
            None => {
                proof {
                    lemma_dirs_bound(*old(self), *self);
                    assert(self.inodes@ =~= old(self).inodes@);
                }
                return ;
            },
        };
        let left = inode.dec_lookup(nlookup);
        let discard = left == 0 && inode.can_discard();
        if !discard {
            self.inodes.insert(ino, inode);
            proof {
                lemma_dirs_bound(*old(self), *self);
            }
        } else {
            proof {
                let m2 = self.inodes@;
                assert forall|s: int|
                    0 <= s < 1024 && (#[trigger] self.links@[s]) is Some implies {
                    let is = self.links@[s]->0;
                    &&& m2.dom().contains(is.chunk_ino)
                    &&& m2.dom().contains(is.info_ino)
                } by {
                    let is = self.links@[s]->0;
                    assert(old(self).inodes_view()[is.chunk_ino].linked);
                    assert(old(self).inodes_view()[is.info_ino].linked);
                }
                lemma_dirs_bound(*old(self), *self);
                assert(self.inodes@ =~= old(self).inodes@.remove(ino));
            }
        }
    }

    /// Stats an inode: the root's fixed directory attributes, or the
    /// file's.
    pub fn getattr(&self, ino: u64) -> (r: Result<Attr, i32>)
        requires
            self.wf(),
        ensures
            r == if ino == ROOT_INO {
                Ok::<Attr, i32>(
                    root_attr_of(self.writable_spec(), self.uid_spec(), self.gid_spec()),
                )
            } else if self.inodes_view().dom().contains(ino) {
                Ok::<Attr, i32>(
                    attr_of(
                        self.inodes_view()[ino],
                        self.writable_spec(),
                        self.uid_spec(),
                        self.gid_spec(),
                    ),
                )
            } else {
                Err::<Attr, i32>(crate::inode::ENOENT)
            },
    {
        if ino == ROOT_INO {
            return Ok(
                Attr {
                    ino: ROOT_INO,
                    size: 0,
                    blocks: 0,
                    mtime: 0,
                    is_dir: true,
                    perm: if self.writable {
                        0o755
                    } else {
                        0o555
                    },
                    nlink: 2,
                    uid: self.uid,
                    gid: self.gid,
                    blksize: SECTOR_LEN as u32,
                },
            );
        }
        match self.inodes.get(&ino) {
            Some(inode) => Ok(fattr_inode(inode, self.writable, self.uid, self.gid)),
            None => Err(crate::inode::ENOENT),
        }
    }
}


/// The two snapshot rows of one slot: its payload file then its selector
/// file, or nothing when the slot is not linked.
pub open spec fn slot_rows(links: Seq<Option<InoSet>>, s: int) -> Seq<(u64, Seq<u8>)> {
    match links[s] {
        Some(is) => seq![
            (is.chunk_ino, crate::names::fname_bytes((s % 32) as u8, (s / 32) as u8, FileKind::Chunk)),
            (
                is.info_ino,
                crate::names::fname_bytes((s % 32) as u8, (s / 32) as u8, FileKind::CompressionInfo),
            ),
        ],
        None => Seq::empty(),
    }
}

/// The snapshot rows of the first `k` slots, in slot order.
pub open spec fn rows_upto(links: Seq<Option<InoSet>>, k: int) -> Seq<(u64, Seq<u8>)>
    decreases k,
{
    if k <= 0 {
        Seq::empty()
    } else {
        rows_upto(links, k - 1) + slot_rows(links, k - 1)
    }
}

proof fn lemma_rows_len(links: Seq<Option<InoSet>>, k: int)
    requires
        k >= 0,
    ensures
        rows_upto(links, k).len() <= 2 * k,
    decreases k,
{
    if k > 0 {
        lemma_rows_len(links, k - 1);
    }
}

impl SmithyFs {
    /// Opens the root directory: a fresh handle over a snapshot holding
    /// the two dot rows and both files of every linked slot, in slot
    /// order. Any other inode is no directory.
    pub fn opendir(&mut self, ino: u64) -> (r: Result<u64, i32>)
        requires
            old(self).wf(),
            old(self).fh_mark() < u64::MAX,
        ensures
            final(self).wf(),
            final(self).region_view() == old(self).region_view(),
            final(self).links_view() == old(self).links_view(),
            final(self).inodes_view() == old(self).inodes_view(),
            final(self).ino_mark() == old(self).ino_mark(),
            final(self).writable_spec() == old(self).writable_spec(),
            final(self).uid_spec() == old(self).uid_spec(),
            final(self).gid_spec() == old(self).gid_spec(),
            ino != ROOT_INO ==> r == Err::<u64, i32>(crate::inode::ENOTDIR) && final(self).dirs_view()
                == old(self).dirs_view() && final(self).fh_mark() == old(self).fh_mark(),
            ino == ROOT_INO ==> {
                let fh = (old(self).fh_mark() + 1) as u64;
                let rows = rows_upto(old(self).links_view(), 1024);
                &&& r == Ok::<u64, i32>(fh)
                &&& final(self).fh_mark() == fh
                &&& final(self).dirs_view().dom() =~= old(self).dirs_view().dom().insert(fh)
                &&& final(self).dirs_view().remove(fh) =~= old(self).dirs_view()
                &&& ({
                    let entries = final(self).dirs_view()[fh].entries@;
                    &&& entries.len() == 2 + rows.len()
                    &&& entries[0].ino == ROOT_INO && entries[0].is_dir && entries[0].name@
                        == seq![46u8]
                    &&& entries[1].ino == ROOT_INO && entries[1].is_dir && entries[1].name@
                        == seq![46u8, 46u8]
                    &&& forall|j: int|
                        0 <= j < rows.len() ==> (#[trigger] entries[j + 2]).ino == rows[j].0 && !entries[j
                            + 2].is_dir && entries[j + 2].name@ == rows[j].1
                })
            },
    {
        if ino != ROOT_INO {
            return Err(crate::inode::ENOTDIR);
        }
        let fh = self.fh_alloc.allocate();
        let mut entries: Vec<DirRow> = Vec::new();
        let mut dot: Vec<u8> = Vec::new();
        dot.push(46);
        let mut dotdot: Vec<u8> = Vec::new();
        dotdot.push(46);
        dotdot.push(46);
        proof {
            assert(dot@ =~= seq![46u8]);
            assert(dotdot@ =~= seq![46u8, 46u8]);
        }
        entries.push(DirRow { ino: ROOT_INO, is_dir: true, name: dot });
        entries.push(DirRow { ino: ROOT_INO, is_dir: true, name: dotdot });
        let mut s: usize = 0;
        while s < 1024
            invariant
                s <= 1024,
                self.links@.len() == 1024,
                entries@.len() == 2 + rows_upto(self.links@, s as int).len(),
                entries@[0].ino == ROOT_INO && entries@[0].is_dir && entries@[0].name@ == seq![
                    46u8,
                ],
                entries@[1].ino == ROOT_INO && entries@[1].is_dir && entries@[1].name@ == seq![
                    46u8,
                    46u8,
                ],
                forall|j: int|
                    0 <= j < rows_upto(self.links@, s as int).len() ==> (#[trigger] entries@[j
                        + 2]).ino == rows_upto(self.links@, s as int)[j].0 && !entries@[j
                        + 2].is_dir && entries@[j + 2].name@ == rows_upto(self.links@, s as int)[j].1,
            decreases 1024 - s,
        {
            let ghost rows_before = rows_upto(self.links@, s as int);
            if let Some(is) = self.links[s] {
                let (x, z) = crate::anvil::idx_to_coords(s);
                proof {
                    assert((x & 31) == x && (z & 31) == z) by (bit_vector)
                        requires
                            x < 32,
                            z < 32,
                    ;
                    assert(x == s % 32 && z == s / 32) by (nonlinear_arith)
                        requires
                            x < 32,
                            z < 32,
                            x + 32 * (z as int) == s,
                    ;
                }
                let cname = FileKind::Chunk.make_fname(x, z);
                let iname = FileKind::CompressionInfo.make_fname(x, z);
                entries.push(DirRow { ino: is.chunk_ino, is_dir: false, name: cname });
                entries.push(DirRow { ino: is.info_ino, is_dir: false, name: iname });
            }
            proof {
                assert(rows_upto(self.links@, s + 1) == rows_before + slot_rows(
                    self.links@,
                    s as int,
                ));
            }
            s = s + 1;
        }
        self.dir_handles.insert(fh, DirHandle { entries });
        proof {
            assert forall|f: u64|
                #[trigger] self.dirs_view().dom().contains(f) implies 0 < f <= self.fh_mark() by {
                if f != fh {
                    assert(old(self).dirs_view().dom().contains(f));
                }
            }
            assert(self.dirs_view().dom() =~= old(self).dirs_view().dom().insert(fh));
            assert(self.dirs_view().remove(fh) =~= old(self).dirs_view()) by {
                assert(!old(self).dirs_view().dom().contains(fh));
            }
            lemma_rows_len(self.links@, 1024);
            assert forall|f: u64|
                #[trigger] self.dirs_view().dom().contains(f) implies self.dirs_view()[f].entries@.len()
                <= 4096 by {
                if f != fh {
                    assert(old(self).dirs_view().dom().contains(f));
                }
            }
        }
        Ok(fh)
    }

    /// Reads a directory snapshot from `offset`: each reported entry
    /// carries the offset the next read should start at.
    pub fn readdir(&self, ino: u64, fh: u64, offset: i64) -> (r: Result<Vec<DirEntry>, i32>)
        requires
            self.wf(),
        ensures
            ino != ROOT_INO ==> r == Err::<Vec<DirEntry>, i32>(crate::inode::ENOENT),
            ino == ROOT_INO && !self.dirs_view().dom().contains(fh) ==> r == Err::<
                Vec<DirEntry>,
                i32,
            >(crate::inode::EBADF),
            ino == ROOT_INO && self.dirs_view().dom().contains(fh) ==> r is Ok && ({
                let entries = self.dirs_view()[fh].entries@;
                let start = if offset < 0 || offset > entries.len() {
                    entries.len() as int
                } else {
                    offset as int
                };
                let v = r->Ok_0;
                &&& v@.len() == entries.len() - start
                &&& forall|j: int|
                    0 <= j < v@.len() ==> (#[trigger] v@[j]).ino == entries[start + j].ino && v@[j].next_offset
                        == start + j + 1 && v@[j].is_dir == entries[start + j].is_dir && v@[j].name@
                        == entries[start + j].name@
            }),
    {
        if ino != ROOT_INO {
            return Err(crate::inode::ENOENT);
        }
        let handle = match self.dir_handles.get(&fh) {
            Some(handle) => handle,
            None => {
                return Err(crate::inode::EBADF);
            },
        };
        let n = handle.entries.len();
        proof {
            assert(self.dirs_view().dom().contains(fh));
            assert(*handle == self.dirs_view()[fh]);
            assert(n <= 4096);
        }
        let start: usize = if offset < 0 || offset > n as i64 {
            n
        } else {
            offset as usize
        };
        let mut v: Vec<DirEntry> = Vec::new();
        let mut i: usize = start;
        while i < n
            invariant
                start <= i <= n,
                n == handle.entries@.len(),
                n <= i64::MAX,
                v@.len() == i - start,
                forall|j: int|
                    0 <= j < v@.len() ==> (#[trigger] v@[j]).ino == handle.entries@[start + j].ino
                        && v@[j].next_offset == start + j + 1 && v@[j].is_dir
                        == handle.entries@[start + j].is_dir && v@[j].name@ == handle.entries@[start
                        + j].name@,
            decreases n - i,
        {
            let row = &handle.entries[i];
            let mut name: Vec<u8> = Vec::new();
            let mut b: usize = 0;
            while b < row.name.len()
                invariant
                    b <= row.name@.len(),
                    name@ == row.name@.subrange(0, b as int),
                decreases row.name@.len() - b,
            {
                name.push(row.name[b]);
                proof {
                    assert(name@ =~= row.name@.subrange(0, b + 1));
                }
                b = b + 1;
            }
            proof {
                assert(name@ =~= row.name@);
            }
            v.push(
                DirEntry { ino: row.ino, next_offset: (i + 1) as i64, is_dir: row.is_dir, name },
            );
            i = i + 1;
        }
        Ok(v)
    }

    /// Closes a directory snapshot.
    pub fn releasedir(&mut self, fh: u64) -> (r: Result<(), i32>)
        requires
            old(self).wf(),
        ensures
            final(self).wf(),
            final(self).region_view() == old(self).region_view(),
            final(self).links_view() == old(self).links_view(),
            final(self).inodes_view() == old(self).inodes_view(),
            final(self).ino_mark() == old(self).ino_mark(),
            final(self).fh_mark() == old(self).fh_mark(),
            final(self).writable_spec() == old(self).writable_spec(),
            final(self).uid_spec() == old(self).uid_spec(),
            final(self).gid_spec() == old(self).gid_spec(),
            if old(self).dirs_view().dom().contains(fh) {
                r == Ok::<(), i32>(()) && final(self).dirs_view() == old(self).dirs_view().remove(
                    fh,
                )
            } else {
                r == Err::<(), i32>(crate::inode::EBADF) && final(self).dirs_view() == old(self).dirs_view()
            },
    {
        match self.dir_handles.remove(&fh) {
            Some(_) => {
                proof {
                    assert forall|f: u64|
                        #[trigger] self.dirs_view().dom().contains(f) implies 0 < f
                        <= self.fh_mark() && self.dirs_view()[f].entries@.len() <= 4096 by {
                        assert(old(self).dirs_view().dom().contains(f));
                    }
                }
                Ok(())
            },
            None => {
                proof {
                    assert(self.dirs_view() =~= old(self).dirs_view());
                    lemma_dirs_bound(*old(self), *self);
                }
                Err(crate::inode::EBADF)
            },
        }
    }
}


/// The `open(2)` access-mode bits.
pub const O_ACCMODE: i32 = 3;

pub const O_RDONLY: i32 = 0;

pub const O_WRONLY: i32 = 1;

pub const O_RDWR: i32 = 2;

pub const O_TRUNC: i32 = 512;

/// The regular-file bits of a `mknod` mode.
pub const S_IFMT: u32 = 0o170000;

pub const S_IFREG: u32 = 0o100000;

impl SmithyFs {
    /// Opens a file: the access mode gives the handle its permissions; a
    /// read-only open may not truncate, writing needs a writable mount,
    /// and other access modes are refused.
    pub fn open(&mut self, ino: u64, flags: i32) -> (r: Result<u64, i32>)
        requires
            old(self).wf(),
            old(self).fh_mark() < u64::MAX,
        ensures
            final(self).wf(),
            final(self).region_view() == old(self).region_view(),
            final(self).links_view() == old(self).links_view(),
            final(self).dirs_view() == old(self).dirs_view(),
            final(self).ino_mark() == old(self).ino_mark(),
            final(self).writable_spec() == old(self).writable_spec(),
            final(self).uid_spec() == old(self).uid_spec(),
            final(self).gid_spec() == old(self).gid_spec(),
            ({
                let unchanged = final(self).inodes_view() == old(self).inodes_view() && final(self).fh_mark()
                    == old(self).fh_mark();
                let acc = flags & O_ACCMODE;
                if acc == O_RDONLY && flags & O_TRUNC != 0 {
                    r == Err::<u64, i32>(crate::inode::EACCES) && unchanged
                } else if acc != O_RDONLY && acc != O_WRONLY && acc != O_RDWR {
                    r == Err::<u64, i32>(crate::inode::EINVAL) && unchanged
                } else if acc != O_RDONLY && !old(self).writable_spec() {
                    r == Err::<u64, i32>(crate::inode::EROFS) && unchanged
                } else if !old(self).inodes_view().dom().contains(ino) {
                    r == Err::<u64, i32>(crate::inode::ENOENT) && unchanged
                } else {
                    let fh = (old(self).fh_mark() + 1) as u64;
                    let oi = old(self).inodes_view()[ino];
                    let fi = final(self).inodes_view()[ino];
                    &&& r == Ok::<u64, i32>(fh)
                    &&& final(self).fh_mark() == fh
                    &&& final(self).inodes_view() == old(self).inodes_view().insert(ino, fi)
                    &&& fi == (Inode { open_handles: fi.open_handles, ..oi })
                    &&& fi.open_handles@.dom() =~= oi.open_handles@.dom().insert(fh)
                    &&& fi.open_handles@[fh].can_read_spec() == (acc == O_RDONLY || acc == O_RDWR)
                    &&& fi.open_handles@[fh].can_write_spec() == (acc == O_WRONLY || acc == O_RDWR)
                    &&& forall|h: u64|
                        #[trigger] oi.open_handles@.dom().contains(h) ==> fi.open_handles@[h]
                            == oi.open_handles@[h]
                }
            }),
    {
        let acc = flags & O_ACCMODE;
        let (read, write) = if acc == O_RDONLY {
            if flags & O_TRUNC != 0 {
                return Err(crate::inode::EACCES);
            }
            (true, false)
        } else if acc == O_WRONLY {
            (false, true)
        } else if acc == O_RDWR {
            (true, true)
        } else {
            return Err(crate::inode::EINVAL);
        };
        if write && !self.writable {
            return Err(crate::inode::EROFS);
        }
        let mut inode = match self.inodes.remove(&ino) {
            Some(inode) => inode,
            None => {
                proof {
                    assert(self.inodes@ =~= old(self).inodes@);
                    lemma_dirs_bound(*old(self), *self);
                }
                return Err(crate::inode::ENOENT);
            },
        };
        let fh = self.fh_alloc.allocate();
        let ghost old_handles = inode.open_handles@;
        inode.open_handles.insert(fh, crate::inode::FileHandle::new(read, write));
        self.inodes.insert(ino, inode);
        proof {
            lemma_dirs_bound(*old(self), *self);
            let fi = self.inodes@[ino];
            assert(fi.open_handles@.dom() =~= old_handles.dom().insert(fh));
            assert(fi == (Inode { open_handles: fi.open_handles, ..old(self).inodes_view()[ino] }));
            assert forall|k: u64| #[trigger] self.inodes@.dom().contains(k) implies {
                let i2 = self.inodes@[k];
                forall|h: u64|
                    #[trigger] i2.open_handles@.dom().contains(h) ==> 0 < h <= self.fh_mark()
            } by {
                if k != ino {
                    assert(old(self).inodes_view().dom().contains(k));
                    assert(old(self).inodes_view()[k] == self.inodes@[k]);
                    assert forall|h: u64|
                        #[trigger] self.inodes@[k].open_handles@.dom().contains(h) implies 0 < h
                        <= self.fh_mark() by {
                        assert(old(self).inodes_view()[k].open_handles@.dom().contains(h));
                    }
                } else {
                    assert forall|h: u64|
                        #[trigger] self.inodes@[k].open_handles@.dom().contains(h) implies 0 < h
                        <= self.fh_mark() by {
                        if h != fh {
                            assert(old(self).inodes_view()[ino].open_handles@.dom().contains(h));
                        }
                    }
                }
            }
        }
        Ok(fh)
    }

    /// Closes a file handle, and discards the inode when nothing reaches
    /// it any more.
    pub fn release(&mut self, ino: u64, fh: u64) -> (r: Result<(), i32>)
        requires
            old(self).wf(),
        ensures
            final(self).wf(),
            final(self).region_view() == old(self).region_view(),
            final(self).links_view() == old(self).links_view(),
            final(self).dirs_view() == old(self).dirs_view(),
            final(self).ino_mark() == old(self).ino_mark(),
            final(self).fh_mark() == old(self).fh_mark(),
            final(self).writable_spec() == old(self).writable_spec(),
            final(self).uid_spec() == old(self).uid_spec(),
            final(self).gid_spec() == old(self).gid_spec(),
            ({
                let unchanged = final(self).inodes_view() == old(self).inodes_view();
                if !old(self).inodes_view().dom().contains(ino) {
                    r == Err::<(), i32>(crate::inode::ENOENT) && unchanged
                } else if !old(self).inodes_view()[ino].open_handles@.dom().contains(fh) {
                    r == Err::<(), i32>(crate::inode::EBADF) && unchanged
                } else {
                    let oi = old(self).inodes_view()[ino];
                    let fi = final(self).inodes_view()[ino];
                    &&& r == Ok::<(), i32>(())
                    &&& if !oi.linked && oi.nlookup == 0 && oi.open_handles@.len() == 1 {
                        !final(self).inodes_view().dom().contains(ino) && final(self).inodes_view()
                            =~= old(self).inodes_view().remove(ino)
                    } else {
                        &&& final(self).inodes_view() == old(self).inodes_view().insert(ino, fi)
                        &&& fi == (Inode { open_handles: fi.open_handles, ..oi })
                        &&& fi.open_handles@ == oi.open_handles@.remove(fh)
                    }
                }
            }),
    {
        let mut inode = match self.inodes.remove(&ino) {
            Some(inode) => inode,
            None => {
                proof {
                    assert(self.inodes@ =~= old(self).inodes@);
                    lemma_dirs_bound(*old(self), *self);
                }
                return Err(crate::inode::ENOENT);
            },
        };
        if !inode.open_handles.contains_key(&fh) {
            self.inodes.insert(ino, inode);
            proof {
                assert(self.inodes@ =~= old(self).inodes@);
                lemma_dirs_bound(*old(self), *self);
            }
            return Err(crate::inode::EBADF);
        }
        inode.open_handles.remove(&fh);
        let discard = inode.can_discard();
        if !discard {
            self.inodes.insert(ino, inode);
            proof {
                lemma_dirs_bound(*old(self), *self);
                let oi = old(self).inodes_view()[ino];
                assert(self.inodes@[ino].open_handles@ =~= oi.open_handles@.remove(fh));
                assert(oi.open_handles@.dom().contains(fh));
                assert(oi.open_handles@.remove(fh).dom() =~= oi.open_handles@.dom().remove(fh));
                if !oi.linked && oi.nlookup == 0 && oi.open_handles@.len() == 1 {
                    assert(oi.open_handles@.remove(fh).dom() =~= Set::<u64>::empty());
                    assert(false);
                }
            }
            Ok(())
        } else {
            proof {
                lemma_dirs_bound(*old(self), *self);
                assert(self.inodes@ =~= old(self).inodes@.remove(ino));
                let oi = old(self).inodes_view()[ino];
                assert(oi.open_handles@.remove(fh).dom() =~= oi.open_handles@.dom().remove(fh));
                assert(oi.open_handles@.dom() =~= oi.open_handles@.remove(fh).dom().insert(fh));
                assert(oi.open_handles@.len() == 1) by {
                    vstd::set_lib::lemma_set_empty_equivalency_len(
                        oi.open_handles@.remove(fh).dom(),
                    );
                }
                assert forall|s: int|
                    0 <= s < 1024 && (#[trigger] self.links@[s]) is Some implies {
                    let is = self.links@[s]->0;
                    &&& self.inodes@.dom().contains(is.chunk_ino)
                    &&& self.inodes@.dom().contains(is.info_ino)
                } by {
                    let is = self.links@[s]->0;
                    assert(old(self).inodes_view()[is.chunk_ino].linked);
                    assert(old(self).inodes_view()[is.info_ino].linked);
                }
            }
            Ok(())
        }
    }

    /// Reads from an open file: the handle must exist and allow reading;
    /// the reply is the window clipped to the content.
    pub fn read(&self, ino: u64, fh: u64, offset: i64, size: u32) -> (r: Result<Vec<u8>, i32>)
        requires
            self.wf(),
        ensures
            !self.inodes_view().dom().contains(ino) ==> r == Err::<Vec<u8>, i32>(
                crate::inode::ENOENT,
            ),
            self.inodes_view().dom().contains(ino) ==> {
                let inode = self.inodes_view()[ino];
                if !inode.open_handles@.dom().contains(fh) {
                    r == Err::<Vec<u8>, i32>(crate::inode::EBADF)
                } else if !inode.open_handles@[fh].can_read_spec() {
                    r == Err::<Vec<u8>, i32>(crate::inode::EACCES)
                } else if offset < 0 {
                    r == Err::<Vec<u8>, i32>(crate::inode::EINVAL)
                } else {
                    r is Ok && r->Ok_0@ == crate::inode::read_window(
                        inode.data.content(),
                        offset as int,
                        size,
                    )
                }
            },
    {
        let inode = match self.inodes.get(&ino) {
            Some(inode) => inode,
            None => {
                return Err(crate::inode::ENOENT);
            },
        };
        let handle = match inode.open_handles.get(&fh) {
            Some(handle) => handle,
            None => {
                return Err(crate::inode::EBADF);
            },
        };
        if handle.can_read() {
            inode.data.read(offset, size)
        } else {
            Err(crate::inode::EACCES)
        }
    }

    /// Writes to an open file: the mount and the handle must allow it;
    /// chunk bytes land in the buffer and selector text must parse.
    pub fn write(&mut self, ino: u64, fh: u64, offset: i64, data: &[u8]) -> (r: Result<u32, i32>)
        requires
            old(self).wf(),
        ensures
            final(self).wf(),
            final(self).region_view() == old(self).region_view(),
            final(self).links_view() == old(self).links_view(),
            final(self).dirs_view() == old(self).dirs_view(),
            final(self).ino_mark() == old(self).ino_mark(),
            final(self).fh_mark() == old(self).fh_mark(),
            final(self).writable_spec() == old(self).writable_spec(),
            final(self).uid_spec() == old(self).uid_spec(),
            final(self).gid_spec() == old(self).gid_spec(),
            ({
                let unchanged = final(self).inodes_view() == old(self).inodes_view();
                if !old(self).writable_spec() {
                    r == Err::<u32, i32>(crate::inode::EROFS) && unchanged
                } else if !old(self).inodes_view().dom().contains(ino) {
                    r == Err::<u32, i32>(crate::inode::ENOENT) && unchanged
                } else {
                    let oi = old(self).inodes_view()[ino];
                    if !oi.open_handles@.dom().contains(fh) {
                        r == Err::<u32, i32>(crate::inode::EBADF) && unchanged
                    } else if !oi.open_handles@[fh].can_write_spec() {
                        r == Err::<u32, i32>(crate::inode::EACCES) && unchanged
                    } else {
                        let fi = final(self).inodes_view()[ino];
                        &&& final(self).inodes_view() == old(self).inodes_view().insert(ino, fi)
                        &&& fi == (Inode { data: fi.data, ..oi })
                        &&& crate::inode::write_step(oi.data, offset, data@, r, fi.data)
                    }
                }
            }),
    {
        if !self.writable {
            return Err(crate::inode::EROFS);
        }
        let mut inode = match self.inodes.remove(&ino) {
            Some(inode) => inode,
            None => {
                proof {
                    assert(self.inodes@ =~= old(self).inodes@);
                    lemma_dirs_bound(*old(self), *self);
                }
                return Err(crate::inode::ENOENT);
            },
        };
        let can = match inode.open_handles.get(&fh) {
            Some(handle) => handle.can_write(),
            None => {
                self.inodes.insert(ino, inode);
                proof {
                    assert(self.inodes@ =~= old(self).inodes@);
                    lemma_dirs_bound(*old(self), *self);
                }
                return Err(crate::inode::EBADF);
            },
        };
        if !can {
            self.inodes.insert(ino, inode);
            proof {
                assert(self.inodes@ =~= old(self).inodes@);
                lemma_dirs_bound(*old(self), *self);
            }
            return Err(crate::inode::EACCES);
        }
        let r = inode.data.write(offset, data);
        self.inodes.insert(ino, inode);
        proof {
            lemma_dirs_bound(*old(self), *self);
        }
        r
    }
}


impl SmithyFs {
    /// The parsed region the namespace was built from.
    pub fn region(&self) -> (r: &RegionFile)
        ensures
            r@ == self.region_view(),
    {
        &self.region
    }

    /// The last file handle dealt out: new handles are allocated above it.
    pub fn handle_mark(&self) -> (r: u64)
        ensures
            r == self.fh_mark(),
    {
        self.fh_alloc.current()
    }

    /// The inode allocator's mark: every live inode number lies below it.
    pub fn inode_mark(&self) -> (r: u64)
        ensures
            r == self.ino_mark(),
    {
        self.ino_alloc.current()
    }

    /// Whether the mount allows writing.
    pub fn is_writable(&self) -> (r: bool)
        ensures
            r == self.writable_spec(),
    {
        self.writable
    }

    /// Handles the size field of a `setattr`: truncates or grows chunk
    /// bytes, leaves selector data alone, and reports the new attributes;
    /// without a size there is nothing this filesystem implements.
    pub fn setattr_size(&mut self, ino: u64, size: Option<u64>, fh: Option<u64>) -> (r: Result<
        Attr,
        i32,
    >)
        requires
            old(self).wf(),
        ensures
            final(self).wf(),
            final(self).region_view() == old(self).region_view(),
            final(self).links_view() == old(self).links_view(),
            final(self).dirs_view() == old(self).dirs_view(),
            final(self).ino_mark() == old(self).ino_mark(),
            final(self).fh_mark() == old(self).fh_mark(),
            final(self).writable_spec() == old(self).writable_spec(),
            final(self).uid_spec() == old(self).uid_spec(),
            final(self).gid_spec() == old(self).gid_spec(),
            ({
                let unchanged = final(self).inodes_view() == old(self).inodes_view();
                if !old(self).inodes_view().dom().contains(ino) {
                    r == Err::<Attr, i32>(crate::inode::ENOENT) && unchanged
                } else {
                    let oi = old(self).inodes_view()[ino];
                    match size {
                        Some(target) => if !old(self).writable_spec() {
                            r == Err::<Attr, i32>(crate::inode::EROFS) && unchanged
                        } else if match fh {
                            Some(h) => oi.open_handles@.dom().contains(h)
                                && !oi.open_handles@[h].can_write_spec(),
                            None => false,
                        } {
                            r == Err::<Attr, i32>(crate::inode::EACCES) && unchanged
                        } else if oi.data is Chunk && target >= MAX_CHUNK_LEN {
                            r == Err::<Attr, i32>(crate::inode::EFBIG) && unchanged
                        } else {
                            let fi = final(self).inodes_view()[ino];
                            &&& final(self).inodes_view() == old(self).inodes_view().insert(
                                ino,
                                fi,
                            )
                            &&& fi == (Inode { data: fi.data, ..oi })
                            &&& r == Ok::<Attr, i32>(
                                attr_of(
                                    fi,
                                    old(self).writable_spec(),
                                    old(self).uid_spec(),
                                    old(self).gid_spec(),
                                ),
                            )
                            &&& (oi.data is Info ==> fi.data == oi.data)
                            &&& (oi.data is Chunk ==> fi.data is Chunk && fi.data.content().len()
                                == target && (forall|i: int|
                                0 <= i < target ==> fi.data.content()[i] == (
                                if i < oi.data.content().len() {
                                    oi.data.content()[i]
                                } else {
                                    0u8
                                })))
                        },
                        None => r == Err::<Attr, i32>(crate::inode::ENOSYS) && unchanged,
                    }
                }
            }),
    {
        let mut inode = match self.inodes.remove(&ino) {
            Some(inode) => inode,
            None => {
                proof {
                    assert(self.inodes@ =~= old(self).inodes@);
                    lemma_dirs_bound(*old(self), *self);
                }
                return Err(crate::inode::ENOENT);
            },
        };
        let target = match size {
            Some(target) => target,
            None => {
                self.inodes.insert(ino, inode);
                proof {
                    assert(self.inodes@ =~= old(self).inodes@);
                    lemma_dirs_bound(*old(self), *self);
                }
                return Err(crate::inode::ENOSYS);
            },
        };
        if !self.writable {
            self.inodes.insert(ino, inode);
            proof {
                assert(self.inodes@ =~= old(self).inodes@);
                lemma_dirs_bound(*old(self), *self);
            }
            return Err(crate::inode::EROFS);
        }
        let blocked = match fh {
            Some(h) => match inode.open_handles.get(&h) {
                Some(handle) => !handle.can_write(),
                None => false,
            },
            None => false,
        };
        if blocked {
            self.inodes.insert(ino, inode);
            proof {
                assert(self.inodes@ =~= old(self).inodes@);
                lemma_dirs_bound(*old(self), *self);
            }
            return Err(crate::inode::EACCES);
        }
        match inode.data.set_len(target) {
            Ok(_) => {},
            Err(e) => {
                self.inodes.insert(ino, inode);
                proof {
                    assert(self.inodes@ =~= old(self).inodes@);
                    lemma_dirs_bound(*old(self), *self);
                }
                return Err(e);
            },
        }
        let attr = fattr_inode(&inode, self.writable, self.uid, self.gid);
        self.inodes.insert(ino, inode);
        proof {
            lemma_dirs_bound(*old(self), *self);
        }
        Ok(attr)
    }

    /// Creates both files of an empty slot: the payload starts empty and
    /// the selector at its sentinel. Only regular files under the root of
    /// a writable mount, with a well-formed unused name, are accepted.
    pub fn mknod(&mut self, parent: u64, name: &[u8], mode: u32, now: u64) -> (r: Result<Attr, i32>)
        requires
            old(self).wf(),
            old(self).ino_mark() <= u64::MAX - 3,
        ensures
            final(self).wf(),
            final(self).region_view() == old(self).region_view(),
            final(self).links_view().len() == 1024,
            final(self).dirs_view() == old(self).dirs_view(),
            final(self).fh_mark() == old(self).fh_mark(),
            final(self).writable_spec() == old(self).writable_spec(),
            final(self).uid_spec() == old(self).uid_spec(),
            final(self).gid_spec() == old(self).gid_spec(),
            ({
                let unchanged = final(self).inodes_view() == old(self).inodes_view() && final(self).links_view()
                    == old(self).links_view() && final(self).ino_mark() == old(self).ino_mark();
                if !old(self).writable_spec() {
                    r == Err::<Attr, i32>(crate::inode::EROFS) && unchanged
                } else if parent != ROOT_INO {
                    r == Err::<Attr, i32>(crate::inode::ENOENT) && unchanged
                } else if mode & S_IFMT != S_IFREG {
                    r == Err::<Attr, i32>(crate::inode::EPERM) && unchanged
                } else {
                    match spec_parse_name(name@) {
                        None => r == Err::<Attr, i32>(crate::inode::EINVAL) && unchanged,
                        Some((x, z, kind)) => {
                            let slot = slot_of(x, z);
                            if old(self).links_view()[slot] is Some {
                                r == Err::<Attr, i32>(crate::inode::EEXIST) && unchanged
                            } else {
                                let is = final(self).links_view()[slot]->0;
                                let ci = final(self).inodes_view()[is.chunk_ino];
                                let ii = final(self).inodes_view()[is.info_ino];
                                &&& final(self).links_view() == old(self).links_view().update(
                                    slot,
                                    Some(is),
                                )
                                &&& old(self).ino_mark() <= is.chunk_ino
                                &&& is.info_ino == is.chunk_ino + 1
                                &&& final(self).inodes_view() == old(self).inodes_view().insert(
                                    is.chunk_ino,
                                    ci,
                                ).insert(is.info_ino, ii)
                                &&& ci.data.content() == Seq::<u8>::empty()
                                &&& ii.data == InodeData::Info(CompressionType::Unknown(42))
                                &&& ci.x == x && ci.z == z && ii.x == x && ii.z == z
                                &&& ci.mtime == now && ii.mtime == now
                                &&& ci.linked && ii.linked
                                &&& ci.nlookup == 0 && ii.nlookup == 0
                                &&& ci.open_handles@.len() == 0 && ii.open_handles@.len() == 0
                                &&& r == Ok::<Attr, i32>(
                                    attr_of(
                                        (if kind is Chunk {
                                            ci
                                        } else {
                                            ii
                                        }),
                                        old(self).writable_spec(),
                                        old(self).uid_spec(),
                                        old(self).gid_spec(),
                                    ),
                                )
                            }
                        },
                    }
                }
            }),
    {
        if !self.writable {
            return Err(crate::inode::EROFS);
        }
        if parent != ROOT_INO {
            return Err(crate::inode::ENOENT);
        }
        if mode & S_IFMT != S_IFREG {
            return Err(crate::inode::EPERM);
        }
        let key = match FileKey::parse(name) {
            Some(key) => key,
            None => {
                return Err(crate::inode::EINVAL);
            },
        };
        let slot = crate::anvil::coords_to_idx(key.x, key.z);
        if self.links[slot].is_some() {
            return Err(crate::inode::EEXIST);
        }
        let inos = self.ino_alloc.allocate_inos();
        let chunk_inode = Inode::blank(key.x, key.z, &inos, FileKind::Chunk, now);
        let info_inode = Inode::blank(key.x, key.z, &inos, FileKind::CompressionInfo, now);
        let attr = if matches!(key.kind, FileKind::Chunk) {
            fattr_inode(&chunk_inode, self.writable, self.uid, self.gid)
        } else {
            fattr_inode(&info_inode, self.writable, self.uid, self.gid)
        };
        proof {
            if old(self).inodes_view().dom().contains(inos.chunk_ino) {
                assert(inos.chunk_ino < old(self).ino_mark());
            }
            if old(self).inodes_view().dom().contains(inos.info_ino) {
                assert(inos.info_ino < old(self).ino_mark());
            }
        }
        self.links.set(slot, Some(inos));
        self.inodes.insert(inos.chunk_ino, chunk_inode);
        self.inodes.insert(inos.info_ino, info_inode);
        proof {
            lemma_dirs_bound(*old(self), *self);
            assert forall|k: u64| #[trigger] self.inodes@.dom().contains(k) implies {
                let i2 = self.inodes@[k];
                forall|h: u64|
                    #[trigger] i2.open_handles@.dom().contains(h) ==> 0 < h <= self.fh_mark()
            } by {
                if k != inos.chunk_ino && k != inos.info_ino {
                    assert(old(self).inodes_view().dom().contains(k));
                    assert forall|h: u64|
                        #[trigger] self.inodes@[k].open_handles@.dom().contains(h) implies 0 < h
                        <= self.fh_mark() by {
                        assert(old(self).inodes_view()[k].open_handles@.dom().contains(h));
                    }
                } else {
                    assert(self.inodes@[k].open_handles@.dom() =~= Set::<u64>::empty());
                }
            }
            assert(self.links@.len() == 1024);
            assert forall|k: u64| #[trigger] self.inodes@.dom().contains(k) implies {
                let ino2 = self.inodes@[k];
                &&& ino2.ino == k
                &&& ROOT_INO < k < self.ino_alloc.mark()
                &&& ino2.x < 32
                &&& ino2.z < 32
                &&& (ino2.linked ==> self.links@[slot_of(ino2.x, ino2.z)] is Some
                    && self.links@[slot_of(ino2.x, ino2.z)]->0.get_spec(ino2.data.kind_spec())
                    == k)
            } by {
                if k != inos.chunk_ino && k != inos.info_ino {
                    assert(old(self).inodes_view().dom().contains(k));
                    let ino2 = self.inodes@[k];
                    if ino2.linked {
                        assert(old(self).links_view()[slot_of(ino2.x, ino2.z)] is Some);
                        assert(slot_of(ino2.x, ino2.z) != slot);
                        assert(self.links@[slot_of(ino2.x, ino2.z)] == old(
                            self,
                        ).links_view()[slot_of(ino2.x, ino2.z)]);
                    }
                } else {
                    let ino2 = self.inodes@[k];
                    assert(ino2.x == key.x && ino2.z == key.z);
                    assert(slot_of(key.x, key.z) == slot);
                    assert(self.links@[slot as int] == Some(inos));
                    if k == inos.chunk_ino {
                        assert(ino2 == chunk_inode);
                        assert(ino2.data.kind_spec() == FileKind::Chunk);
                    } else {
                        assert(ino2 == info_inode);
                        assert(ino2.data.kind_spec() == FileKind::CompressionInfo);
                    }
                }
            }
            assert forall|s: int|
                0 <= s < 1024 && (#[trigger] self.links@[s]) is Some implies {
                let os = self.links@[s]->0;
                &&& self.inodes@.dom().contains(os.chunk_ino)
                &&& self.inodes@.dom().contains(os.info_ino)
                &&& os.chunk_ino != os.info_ino
                &&& self.inodes@[os.chunk_ino].linked
                &&& self.inodes@[os.info_ino].linked
                &&& self.inodes@[os.chunk_ino].data is Chunk
                &&& self.inodes@[os.info_ino].data is Info
                &&& slot_of(self.inodes@[os.chunk_ino].x, self.inodes@[os.chunk_ino].z) == s
                &&& slot_of(self.inodes@[os.info_ino].x, self.inodes@[os.info_ino].z) == s
            } by {
                let os = self.links@[s]->0;
                if s != slot {
                    assert(old(self).links_view()[s] is Some);
                    assert(old(self).inodes_view().dom().contains(os.chunk_ino));
                    assert(old(self).inodes_view().dom().contains(os.info_ino));
                    assert(os.chunk_ino < old(self).ino_mark());
                    assert(os.info_ino < old(self).ino_mark());
                    assert(os.chunk_ino != inos.chunk_ino && os.chunk_ino != inos.info_ino);
                    assert(os.info_ino != inos.chunk_ino && os.info_ino != inos.info_ino);
                }
            }
            assert(self.wf());
        }
        Ok(attr)
    }

    /// Unlinks a slot through its payload name: the selector file goes
    /// with it, unreachable inodes are discarded at once, and the reply
    /// names both removed entries so the kernel can drop them.
    pub fn unlink(&mut self, parent: u64, name: &[u8]) -> (r: Result<Vec<DeletionInfo>, i32>)
        requires
            old(self).wf(),
        ensures
            final(self).wf(),
            final(self).region_view() == old(self).region_view(),
            final(self).links_view().len() == 1024,
            final(self).dirs_view() == old(self).dirs_view(),
            final(self).ino_mark() == old(self).ino_mark(),
            final(self).fh_mark() == old(self).fh_mark(),
            final(self).writable_spec() == old(self).writable_spec(),
            final(self).uid_spec() == old(self).uid_spec(),
            final(self).gid_spec() == old(self).gid_spec(),
            ({
                let unchanged = final(self).inodes_view() == old(self).inodes_view() && final(self).links_view()
                    == old(self).links_view();
                let miss = r == Err::<Vec<DeletionInfo>, i32>(crate::inode::ENOENT) && unchanged;
                if parent != ROOT_INO {
                    miss
                } else {
                    match spec_parse_name(name@) {
                        None => miss,
                        Some((x, z, kind)) => {
                            if !(kind is Chunk) {
                                r == Err::<Vec<DeletionInfo>, i32>(crate::inode::EACCES)
                                    && unchanged
                            } else {
                                let slot = slot_of(x, z);
                                match old(self).links_view()[slot] {
                                    None => miss,
                                    Some(is) => {
                                        let ci = old(self).inodes_view()[is.chunk_ino];
                                        let ii = old(self).inodes_view()[is.info_ino];
                                        &&& final(self).links_view() == old(self).links_view().update(slot, Option::<InoSet>::None)
                                        &&& r is Ok
                                        &&& ({
                                            let ds = r->Ok_0;
                                            &&& ds@.len() == 2
                                            &&& ds@[0] == (DeletionInfo {
                                                ino: is.chunk_ino,
                                                x: ci.x,
                                                z: ci.z,
                                                kind: FileKind::Chunk,
                                            })
                                            &&& ds@[1] == (DeletionInfo {
                                                ino: is.info_ino,
                                                x: ii.x,
                                                z: ii.z,
                                                kind: FileKind::CompressionInfo,
                                            })
                                        })
                                        &&& (ci.nlookup == 0 && ci.open_handles@.len() == 0
                                            ==> !final(self).inodes_view().dom().contains(
                                            is.chunk_ino,
                                        ))
                                        &&& (!(ci.nlookup == 0 && ci.open_handles@.len() == 0)
                                            ==> final(self).inodes_view().dom().contains(
                                            is.chunk_ino,
                                        ) && final(self).inodes_view()[is.chunk_ino] == (Inode {
                                            linked: false,
                                            ..ci
                                        }))
                                        &&& (ii.nlookup == 0 && ii.open_handles@.len() == 0
                                            ==> !final(self).inodes_view().dom().contains(
                                            is.info_ino,
                                        ))
                                        &&& (!(ii.nlookup == 0 && ii.open_handles@.len() == 0)
                                            ==> final(self).inodes_view().dom().contains(
                                            is.info_ino,
                                        ) && final(self).inodes_view()[is.info_ino] == (Inode {
                                            linked: false,
                                            ..ii
                                        }))
                                        &&& forall|k: u64|
                                            k != is.chunk_ino && k != is.info_ino ==> (final(self).inodes_view().dom().contains(k) == old(self).inodes_view().dom().contains(k)) && (old(self).inodes_view().dom().contains(k) ==> final(self).inodes_view()[k] == #[trigger] old(self).inodes_view()[k])
                                    },
                                }
                            }
                        },
                    }
                }
            }),
    {
        if parent != ROOT_INO {
            return Err(crate::inode::ENOENT);
        }
        let key = match FileKey::parse(name) {
            Some(key) => key,
            None => {
                return Err(crate::inode::ENOENT);
            },
        };
        if !key.kind.is_chunk() {
            return Err(crate::inode::EACCES);
        }
        let slot = crate::anvil::coords_to_idx(key.x, key.z);
        let is = match self.links[slot] {
            Some(is) => is,
            None => {
                return Err(crate::inode::ENOENT);
            },
        };
        self.links.set(slot, None);
        let ghost mid = *self;
        let mut deletions: Vec<DeletionInfo> = Vec::new();
        let mut chunk_inode = match self.inodes.remove(&is.chunk_ino) {
            Some(inode) => inode,
            None => {
                // unreachable: the link table points only at live inodes
                proof {
                    assert(false);
                }
                return Err(crate::inode::ENOENT);
            },
        };
        chunk_inode.linked = false;
        deletions.push(
            DeletionInfo {
                ino: is.chunk_ino,
                x: chunk_inode.x,
                z: chunk_inode.z,
                kind: FileKind::Chunk,
            },
        );
        let keep_chunk = !chunk_inode.can_discard();
        if keep_chunk {
            self.inodes.insert(is.chunk_ino, chunk_inode);
        }
        let mut info_inode = match self.inodes.remove(&is.info_ino) {
            Some(inode) => inode,
            None => {
                // unreachable: both of a linked slot's inodes are live
                proof {
                    assert(false);
                }
                return Err(crate::inode::ENOENT);
            },
        };
        info_inode.linked = false;
        deletions.push(
            DeletionInfo {
                ino: is.info_ino,
                x: info_inode.x,
                z: info_inode.z,
                kind: FileKind::CompressionInfo,
            },
        );
        let keep_info = !info_inode.can_discard();
        if keep_info {
            self.inodes.insert(is.info_ino, info_inode);
        }
        proof {
            lemma_dirs_bound(*old(self), *self);
            let ci = old(self).inodes_view()[is.chunk_ino];
            let ii = old(self).inodes_view()[is.info_ino];
            assert(is.chunk_ino != is.info_ino);
            // the pair belongs to this slot alone, so every other slot's
            // inodes are untouched and still linked
            assert forall|s: int|
                0 <= s < 1024 && (#[trigger] self.links@[s]) is Some implies {
                let os = self.links@[s]->0;
                &&& self.inodes@.dom().contains(os.chunk_ino)
                &&& self.inodes@.dom().contains(os.info_ino)
                &&& self.inodes@[os.chunk_ino].linked
                &&& self.inodes@[os.info_ino].linked
            } by {
                let os = self.links@[s]->0;
                assert(s != slot);
                assert(old(self).links_view()[s] is Some);
                assert(old(self).inodes_view()[os.chunk_ino].linked);
                assert(old(self).inodes_view()[os.info_ino].linked);
                assert(slot_of(
                    old(self).inodes_view()[os.chunk_ino].x,
                    old(self).inodes_view()[os.chunk_ino].z,
                ) == s);
                assert(slot_of(
                    old(self).inodes_view()[os.info_ino].x,
                    old(self).inodes_view()[os.info_ino].z,
                ) == s);
                assert(os.chunk_ino != is.chunk_ino && os.chunk_ino != is.info_ino) by {
                    assert(slot_of(ci.x, ci.z) == slot && slot_of(ii.x, ii.z) == slot);
                }
                assert(os.info_ino != is.chunk_ino && os.info_ino != is.info_ino) by {
                    assert(slot_of(ci.x, ci.z) == slot && slot_of(ii.x, ii.z) == slot);
                }
            }
        }
        Ok(deletions)
    }
}


/// Inode lifetime: every live inode number lies below the allocator's
/// mark, and the allocator only hands out numbers at or above it, so a
/// live inode number is never reused. Together with each operation's
/// contract, which removes an inode exactly when it is unlinked with no
/// lookups and no open handles left, this pins the inode lifecycle.
pub proof fn lemma_no_ino_reuse(fs: SmithyFs)
    requires
        fs.wf(),
    ensures
        forall|k: u64| #[trigger] fs.inodes_view().dom().contains(k) ==> k < fs.ino_mark(),
{
}

} // verus!
