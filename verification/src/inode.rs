//! The inode table's building blocks: per-file handles and their
//! permissions, the per-inode data (owned chunk bytes or a compression
//! selector), the paired inode numbers of a slot, and the two monotonic
//! allocators.

use std::collections::HashMap;

use vstd::prelude::*;

use crate::codec::{selector_line, spec_parse_selector, CompressionType};
use crate::names::FileKind;
use crate::anvil::{Chunk, MAX_CHUNK_LEN};

verus! {

broadcast use vstd::std_specs::hash::group_hash_axioms;

/// The inode number of the root directory.
pub const ROOT_INO: u64 = 1;

pub const EPERM: i32 = 1;

pub const ENOENT: i32 = 2;

pub const EBADF: i32 = 9;

pub const EACCES: i32 = 13;

pub const EEXIST: i32 = 17;

pub const EINVAL: i32 = 22;

pub const EFBIG: i32 = 27;

pub const ENOTDIR: i32 = 20;

pub const EROFS: i32 = 30;

pub const ENOSYS: i32 = 38;

/// Relies on `core::str::from_utf8`: it accepts a byte slice exactly
/// when the bytes are valid UTF-8, the property `vstd::utf8::valid_utf8`
/// formalizes.
#[verifier::external_body]
fn utf8_ok(data: &[u8]) -> (r: bool)
    ensures
        r == vstd::utf8::valid_utf8(data@),
{
    core::str::from_utf8(data).is_ok()
}

/// A copy of a byte vector.
fn copy_bytes(src: &Vec<u8>) -> (r: Vec<u8>)
    ensures
        r@ == src@,
{
    let mut r: Vec<u8> = Vec::new();
    let mut i: usize = 0;
    while i < src.len()
        invariant
            i <= src@.len(),
            r@ == src@.subrange(0, i as int),
        decreases src@.len() - i,
    {
        r.push(src[i]);
        proof {
            assert(r@ =~= src@.subrange(0, i + 1));
        }
        i = i + 1;
    }
    proof {
        assert(r@ =~= src@);
    }
    r
}

/// The overlap of the window `[offset, offset + size)` with `content`:
/// empty past the end, clipped at it.
pub open spec fn read_window(content: Seq<u8>, offset: int, size: u32) -> Seq<u8> {
    if offset >= content.len() {
        Seq::<u8>::empty()
    } else if offset + size <= content.len() {
        content.subrange(offset, offset + size)
    } else {
        content.subrange(offset, content.len() as int)
    }
}

fn clip_window(content: &Vec<u8>, offset: u64, size: u32) -> (r: Vec<u8>)
    ensures
        r@ == read_window(content@, offset as int, size),
{
    let clen = content.len();
    if offset >= clen as u64 {
        return Vec::new();
    }
    let start = offset as usize;
    let end = if (size as u64) <= (clen - start) as u64 {
        start + size as usize
    } else {
        clen
    };
    let mut out: Vec<u8> = Vec::new();
    let mut i: usize = start;
    while i < end
        invariant
            start <= i <= end <= content@.len(),
            out@.len() == i - start,
            forall|k: int| 0 <= k < out@.len() ==> out@[k] == content@[start + k],
        decreases end - i,
    {
        out.push(content[i]);
        i = i + 1;
    }
    proof {
        assert(out@ =~= content@.subrange(start as int, end as int));
    }
    out
}

/// The read and write permissions of one open file handle.
pub struct FileHandle {
    perms: u8,
}

impl FileHandle {
    pub closed spec fn can_read_spec(&self) -> bool {
        self.perms & 1 != 0
    }

    pub closed spec fn can_write_spec(&self) -> bool {
        self.perms & 2 != 0
    }

    pub fn new(read: bool, write: bool) -> (r: Self)
        ensures
            r.can_read_spec() == read,
            r.can_write_spec() == write,
    {
        let perms = (if read {
            1u8
        } else {
            0u8
        }) | ((if write {
            1u8
        } else {
            0u8
        }) << 1);
        let r = FileHandle { perms };
        proof {
            assert(perms & 1 == (if read {
                1u8
            } else {
                0u8
            }) && perms & 2 == (if write {
                2u8
            } else {
                0u8
            })) by (bit_vector)
                requires
                    perms == (if read {
                        1u8
                    } else {
                        0u8
                    }) | ((if write {
                        1u8
                    } else {
                        0u8
                    }) << 1),
            ;
        }
        r
    }

    pub fn can_read(&self) -> (r: bool)
        ensures
            r == self.can_read_spec(),
    {
        self.perms & 1 != 0
    }

    pub fn can_write(&self) -> (r: bool)
        ensures
            r == self.can_write_spec(),
    {
        self.perms & 2 != 0
    }
}

/// The monotonic file-handle counter of a mount session.
pub struct FileHandleAlloc {
    next: u64,
}

impl FileHandleAlloc {
    pub closed spec fn mark(&self) -> u64 {
        self.next
    }

    pub fn new() -> (r: Self)
        ensures
            r.mark() == 0,
    {
        FileHandleAlloc { next: 0 }
    }

    /// The counter's current value.
    pub fn current(&self) -> (r: u64)
        ensures
            r == self.mark(),
    {
        self.next
    }

    /// Hands out the next handle, greater than every one before it.
    pub fn allocate(&mut self) -> (r: u64)
        requires
            old(self).mark() < u64::MAX,
        ensures
            r == old(self).mark() + 1,
            final(self).mark() == old(self).mark() + 1,
    {
        self.next = self.next + 1;
        self.next
    }
}

/// What an inode holds: a chunk's owned payload bytes, or the codec its
/// selector file renders.
pub enum InodeData {
    Chunk(Vec<u8>),
    Info(CompressionType),
}

impl InodeData {
    pub open spec fn kind_spec(&self) -> FileKind {
        match self {
            InodeData::Chunk(_) => FileKind::Chunk,
            InodeData::Info(_) => FileKind::CompressionInfo,
        }
    }

    /// The bytes a read of this inode serves: the payload itself, or the
    /// rendered selector line.
    pub open spec fn content(&self) -> Seq<u8> {
        match self {
            InodeData::Chunk(d) => d@,
            InodeData::Info(ct) => selector_line(*ct),
        }
    }

    /// Builds the data of one of a stored chunk's two files.
    pub fn new(kind: FileKind, chunk: &Chunk) -> (r: InodeData)
        ensures
            r.kind_spec() == kind,
            r.content() == match kind {
                FileKind::Chunk => chunk.data@,
                FileKind::CompressionInfo => selector_line(chunk.compression_type),
            },
            kind is CompressionInfo ==> r == InodeData::Info(chunk.compression_type),
    {
        match kind {
            FileKind::Chunk => InodeData::Chunk(copy_bytes(&chunk.data)),
            FileKind::CompressionInfo => InodeData::Info(chunk.compression_type),
        }
    }

    /// The data of a freshly created file: no bytes, or the sentinel
    /// codec a user is expected to overwrite.
    pub fn blank(kind: FileKind) -> (r: InodeData)
        ensures
            r.kind_spec() == kind,
            r.content() == match kind {
                FileKind::Chunk => Seq::<u8>::empty(),
                FileKind::CompressionInfo => selector_line(CompressionType::Unknown(42)),
            },
            kind is CompressionInfo ==> r == InodeData::Info(CompressionType::Unknown(42)),
    {
        match kind {
            FileKind::Chunk => InodeData::Chunk(Vec::new()),
            FileKind::CompressionInfo => InodeData::Info(CompressionType::Unknown(42)),
        }
    }

    /// The length a stat reports: stored bytes, or the rendered line.
    pub fn len(&self) -> (r: usize)
        ensures
            r == self.content().len(),
    {
        match self {
            InodeData::Chunk(d) => d.len(),
            InodeData::Info(ct) => ct.make_selector_string().len(),
        }
    }

    pub fn kind(&self) -> (r: FileKind)
        ensures
            r == self.kind_spec(),
    {
        match self {
            InodeData::Chunk(_) => FileKind::Chunk,
            InodeData::Info(_) => FileKind::CompressionInfo,
        }
    }

    /// Serves a read: a negative offset is refused; past the end the
    /// reply is empty; otherwise the overlap of the window with the
    /// content.
    pub fn read(&self, offset: i64, size: u32) -> (r: Result<Vec<u8>, i32>)
        ensures
            offset < 0 ==> r == Err::<Vec<u8>, i32>(EINVAL),
            offset >= 0 ==> r is Ok && r->Ok_0@ == read_window(self.content(), offset as int, size),
    {
        if offset < 0 {
            return Err(EINVAL);
        }
        match self {
            InodeData::Chunk(d) => Ok(clip_window(d, offset as u64, size)),
            InodeData::Info(ct) => {
                let rendered = ct.make_selector_string();
                Ok(clip_window(&rendered, offset as u64, size))
            },
        }
    }


    /// Resizes chunk bytes for a truncate, zero-filling growth and
    /// refusing the size ceiling; selector data is left as it stands.
    pub fn set_len(&mut self, target: u64) -> (r: Result<(), i32>)
        ensures
            match *old(self) {
                InodeData::Chunk(d) => if target >= MAX_CHUNK_LEN {
                    r == Err::<(), i32>(EFBIG) && *final(self) == *old(self)
                } else {
                    &&& r == Ok::<(), i32>(())
                    &&& (*final(self)) is Chunk
                    &&& (*final(self)).content().len() == target
                    &&& forall|i: int|
                        0 <= i < target ==> (*final(self)).content()[i] == (if i < d@.len() {
                            d@[i]
                        } else {
                            0u8
                        })
                },
                InodeData::Info(_) => r == Ok::<(), i32>(()) && *final(self) == *old(self),
            },
    {
        match self {
            InodeData::Chunk(chunk) => {
                if target >= MAX_CHUNK_LEN as u64 {
                    return Err(EFBIG);
                }
                let t = target as usize;
                let ghost old_chunk = chunk@;
                if t <= chunk.len() {
                    chunk.truncate(t);
                } else {
                    while chunk.len() < t
                        invariant
                            chunk@.len() <= t,
                            old_chunk.len() <= chunk@.len(),
                            forall|k: int|
                                0 <= k < chunk@.len() ==> chunk@[k] == if k < old_chunk.len() {
                                    old_chunk[k]
                                } else {
                                    0u8
                                },
                        decreases t - chunk@.len(),
                    {
                        chunk.push(0);
                    }
                }
                Ok(())
            },
            InodeData::Info(_) => Ok(()),
        }
    }

    /// Serves a write. Chunk bytes grow the buffer, zero-filling any gap,
    /// up to the size ceiling; selector text must land at offset zero, be
    /// UTF-8, and parse.
    pub fn write(&mut self, offset: i64, data: &[u8]) -> (r: Result<u32, i32>)
        ensures
            write_step(*old(self), offset, data@, r, *final(self)),
    {
        match self {
            InodeData::Chunk(chunk) => {
                if offset < 0 {
                    return Err(EINVAL);
                }
                let end128 = (offset as u128) + (data.len() as u128);
                if end128 >= MAX_CHUNK_LEN as u128 {
                    return Err(EFBIG);
                }
                let off = offset as usize;
                let end = end128 as usize;
                let ghost old_chunk = chunk@;
                if end > chunk.len() {
                    while chunk.len() < end
                        invariant
                            chunk@.len() <= end,
                            old_chunk.len() <= chunk@.len(),
                            forall|k: int|
                                0 <= k < chunk@.len() ==> chunk@[k] == if k < old_chunk.len() {
                                    old_chunk[k]
                                } else {
                                    0u8
                                },
                        decreases end - chunk@.len(),
                    {
                        chunk.push(0);
                    }
                }
                let mut i: usize = 0;
                while i < data.len()
                    invariant
                        i <= data@.len(),
                        off == offset,
                        off + data@.len() == end <= chunk@.len(),
                        chunk@.len() == if end > old_chunk.len() {
                            end as int
                        } else {
                            old_chunk.len() as int
                        },
                        forall|k: int|
                            0 <= k < chunk@.len() ==> chunk@[k] == if off <= k < off + i {
                                data@[k - off]
                            } else if k < old_chunk.len() {
                                old_chunk[k]
                            } else {
                                0u8
                            },
                    decreases data@.len() - i,
                {
                    chunk.set(off + i, data[i]);
                    i = i + 1;
                }
                Ok(data.len() as u32)
            },
            InodeData::Info(ct) => {
                if offset != 0 {
                    return Err(EINVAL);
                }
                if !utf8_ok(data) {
                    return Err(EINVAL);
                }
                match CompressionType::parse_selector_string(data) {
                    Some(ct_new) => {
                        *ct = ct_new;
                        Ok(#[verifier::truncate] (data.len() as u32))
                    },
                    None => Err(EINVAL),
                }
            },
        }
    }
}

/// The two inode numbers of one slot: its payload file and its selector
/// file.
#[derive(Clone, Copy, Debug, PartialEq, Eq, Structural)]
pub struct InoSet {
    pub chunk_ino: u64,
    pub info_ino: u64,
}

impl InoSet {
    pub open spec fn get_spec(self, kind: FileKind) -> u64 {
        match kind {
            FileKind::Chunk => self.chunk_ino,
            FileKind::CompressionInfo => self.info_ino,
        }
    }

    /// The slot's inode number for one of its two files.
    pub fn get(&self, kind: FileKind) -> (r: u64)
        ensures
            r == self.get_spec(kind),
    {
        match kind {
            FileKind::Chunk => self.chunk_ino,
            FileKind::CompressionInfo => self.info_ino,
        }
    }
}

/// The monotonic inode-number allocator: numbers are handed out in
/// aligned pairs and never reused within a session.
pub struct InoAlloc {
    next: u64,
}

impl InoAlloc {
    pub closed spec fn mark(&self) -> u64 {
        self.next
    }

    pub fn new() -> (r: Self)
        ensures
            r.mark() == ROOT_INO + 1,
    {
        InoAlloc { next: ROOT_INO + 1 }
    }

    /// The allocator's current mark.
    pub fn current(&self) -> (r: u64)
        ensures
            r == self.mark(),
    {
        self.next
    }

    /// Rounds up to the next even number and hands out that pair: both
    /// numbers are at or above the old mark, and below the new one.
    pub fn allocate_inos(&mut self) -> (r: InoSet)
        requires
            old(self).mark() <= u64::MAX - 3,
        ensures
            r.chunk_ino % 2 == 0,
            r.info_ino == r.chunk_ino + 1,
            old(self).mark() <= r.chunk_ino <= old(self).mark() + 1,
            final(self).mark() == r.chunk_ino + 2,
    {
        if self.next % 2 == 1 {
            self.next = self.next + 1;
        }
        let entry = InoSet { chunk_ino: self.next, info_ino: self.next + 1 };
        self.next = self.next + 2;
        entry
    }
}


/// How a write lands on an inode's data: chunk bytes grow the buffer,
/// zero-filling any gap, up to the size ceiling; selector text must land
/// at offset zero, be UTF-8, and parse into a codec.
pub open spec fn write_step(
    old_data: InodeData,
    offset: i64,
    bytes: Seq<u8>,
    r: Result<u32, i32>,
    new_data: InodeData,
) -> bool {
    match old_data {
        InodeData::Chunk(d) => {
            let end = offset + bytes.len();
            if offset < 0 {
                r == Err::<u32, i32>(EINVAL) && new_data == old_data
            } else if end >= MAX_CHUNK_LEN {
                r == Err::<u32, i32>(EFBIG) && new_data == old_data
            } else {
                &&& r == Ok::<u32, i32>(bytes.len() as u32)
                &&& new_data is Chunk
                &&& new_data.content().len() == if end > d@.len() {
                    end
                } else {
                    d@.len() as int
                }
                &&& forall|i: int|
                    0 <= i < new_data.content().len() ==> new_data.content()[i] == (if offset <= i
                        < end {
                        bytes[i - offset]
                    } else if i < d@.len() {
                        d@[i]
                    } else {
                        0u8
                    })
            }
        },
        InodeData::Info(_) => {
            if offset != 0 {
                r == Err::<u32, i32>(EINVAL) && new_data == old_data
            } else if !vstd::utf8::valid_utf8(bytes) {
                r == Err::<u32, i32>(EINVAL) && new_data == old_data
            } else {
                match spec_parse_selector(bytes) {
                    Some(ct) => r == Ok::<u32, i32>(bytes.len() as u32) && new_data
                        == InodeData::Info(ct),
                    None => r == Err::<u32, i32>(EINVAL) && new_data == old_data,
                }
            }
        },
    }
}

/// One live inode: its number, slot coordinates, data, time, open
/// handles, whether the directory still links it, and the kernel's
/// outstanding lookup count.
#[verifier::ext_equal]
pub struct Inode {
    pub ino: u64,
    pub x: u8,
    pub z: u8,
    pub data: InodeData,
    pub mtime: u64,
    pub open_handles: HashMap<u64, FileHandle>,
    pub linked: bool,
    pub nlookup: u64,
}

impl Inode {
    /// An inode may be discarded once nothing reaches it: unlinked, no
    /// outstanding lookups, no open handles.
    pub open spec fn can_discard_spec(&self) -> bool {
        !self.linked && self.nlookup == 0 && self.open_handles@.len() == 0
    }

    /// Builds one of a stored chunk's two inodes.
    pub fn new(chunk: &Chunk, inos: &InoSet, kind: FileKind) -> (r: Self)
        ensures
            r.ino == inos.get_spec(kind),
            r.x == chunk.x,
            r.z == chunk.z,
            r.data.kind_spec() == kind,
            r.data.content() == match kind {
                FileKind::Chunk => chunk.data@,
                FileKind::CompressionInfo => selector_line(chunk.compression_type),
            },
            kind is CompressionInfo ==> r.data == InodeData::Info(chunk.compression_type),
            r.mtime == chunk.mtime,
            r.open_handles@.len() == 0,
            r.linked,
            r.nlookup == 0,
    {
        Inode {
            ino: inos.get(kind),
            x: chunk.x,
            z: chunk.z,
            data: InodeData::new(kind, chunk),
            mtime: chunk.mtime as u64,
            open_handles: HashMap::new(),
            linked: true,
            nlookup: 0,
        }
    }

    /// Builds one of a freshly created slot's two inodes.
    pub fn blank(x: u8, z: u8, inos: &InoSet, kind: FileKind, now: u64) -> (r: Self)
        ensures
            r.ino == inos.get_spec(kind),
            r.x == x,
            r.z == z,
            r.data.kind_spec() == kind,
            r.data.content() == match kind {
                FileKind::Chunk => Seq::<u8>::empty(),
                FileKind::CompressionInfo => selector_line(CompressionType::Unknown(42)),
            },
            kind is CompressionInfo ==> r.data == InodeData::Info(CompressionType::Unknown(42)),
            r.mtime == now,
            r.open_handles@.len() == 0,
            r.linked,
            r.nlookup == 0,
    {
        Inode {
            ino: inos.get(kind),
            x,
            z,
            data: InodeData::blank(kind),
            mtime: now,
            open_handles: HashMap::new(),
            linked: true,
            nlookup: 0,
        }
    }

    /// Counts one more kernel lookup, holding at the ceiling.
    pub fn inc_lookup(&mut self)
        ensures
            *final(self) == (Inode {
                nlookup: if old(self).nlookup < u64::MAX {
                    (old(self).nlookup + 1) as u64
                } else {
                    old(self).nlookup
                },
                ..*old(self)
            }),
    {
        if self.nlookup < u64::MAX {
            self.nlookup = self.nlookup + 1;
        }
    }

    /// Forgets `count` kernel lookups; an over-count empties the counter
    /// rather than failing.
    pub fn dec_lookup(&mut self, count: u64) -> (r: u64)
        ensures
            *final(self) == (Inode {
                nlookup: if old(self).nlookup >= count {
                    (old(self).nlookup - count) as u64
                } else {
                    0u64
                },
                ..*old(self)
            }),
            r == final(self).nlookup,
    {
        if self.nlookup >= count {
            self.nlookup = self.nlookup - count;
        } else {
            self.nlookup = 0;
        }
        self.nlookup
    }

    pub fn can_discard(&self) -> (r: bool)
        ensures
            r == self.can_discard_spec(),
    {
        !self.linked && self.nlookup == 0 && self.open_handles.is_empty()
    }

    /// The directory name of this inode's file.
    pub fn make_fname(&self) -> (r: Vec<u8>)
        requires
            self.x < 32,
            self.z < 32,
        ensures
            r@ == crate::names::fname_bytes(self.x, self.z, self.data.kind_spec()),
    {
        self.data.kind().make_fname(self.x, self.z)
    }
}

} // verus!
