//! The region engine: a 32x32 grid of chunk slots packed into 4096-byte
//! sectors behind an 8192-byte header. Two header tables of 1024 entries
//! each give per-slot sector addresses and modification times; the sectors
//! after them hold each chunk's payload, led by a 4-byte big-endian length
//! and a codec byte. The engine parses such an image, serves lookups,
//! allocates and frees sector runs first-fit over an occupancy map, tracks
//! dirty sectors, and serializes back to an image.

use vstd::prelude::*;

use crate::bits::BitSet;
use crate::codec::CompressionType;

verus! {

/// Bytes in one sector.
pub const SECTOR_LEN: usize = 4096;

/// Sectors taken by the two header tables.
pub const HEADER_SECTORS: usize = 2;

/// Bytes taken by the two header tables.
pub const HEADER_LEN: usize = 8192;

/// The largest chunk payload accepted: one byte short of it fills 254
/// sectors with the 5-byte lead.
pub const MAX_CHUNK_LEN: usize = 1040384;

/// The sector-count ceiling the 24-bit offset field allows.
pub const MAX_SECTORS: usize = 16777213;

/// The slot of coordinates (x, z), each masked to 5 bits.
pub open spec fn slot_of(x: u8, z: u8) -> int {
    (x & 31) + 32 * ((z & 31) as int)
}

pub broadcast proof fn lemma_slot_of_bounds(x: u8, z: u8)
    ensures
        0 <= #[trigger] slot_of(x, z) < 1024,
{
    let a = x & 31;
    let b = z & 31;
    assert(a < 32 && b < 32) by (bit_vector)
        requires
            a == x & 31,
            b == z & 31,
    ;
}

/// Converts chunk coordinates to their header-table slot.
pub fn coords_to_idx(x: u8, z: u8) -> (r: usize)
    ensures
        r == slot_of(x, z),
        r < 1024,
{
    let r: usize = ((x & 31) as usize) | (((z & 31) as usize) << 5);
    proof {
        let a = (x & 31) as usize;
        let b = (z & 31) as usize;
        assert(a < 32 && b < 32) by (bit_vector)
            requires
                a == (x & 31) as usize,
                b == (z & 31) as usize,
        ;
        assert(a | (b << 5) == a + 32 * b) by (bit_vector)
            requires
                a < 32 && b < 32,
        ;
    }
    r
}

/// Converts a header-table slot back to its chunk coordinates.
pub fn idx_to_coords(idx: usize) -> (r: (u8, u8))
    requires
        idx < 1024,
    ensures
        r.0 < 32,
        r.1 < 32,
        slot_of(r.0, r.1) == idx,
{
    let x = (idx & 31) as u8;
    let z = ((idx >> 5) & 31) as u8;
    proof {
        assert(x < 32 && z < 32 && (x & 31) == x && (z & 31) == z && x + 32 * (z as usize) == idx)
            by (bit_vector)
            requires
                x == (idx & 31) as u8,
                z == ((idx >> 5) & 31) as u8,
                idx < 1024,
        ;
    }
    (x, z)
}

/// The big-endian 32-bit value at `off` in `s`.
pub open spec fn be32(s: Seq<u8>, off: int) -> int {
    s[off] * 0x1000000 + s[off + 1] * 0x10000 + s[off + 2] * 0x100 + s[off + 3]
}

/// Byte `k` of the big-endian 4-byte encoding of `v`.
pub open spec fn be_byte(v: int, k: int) -> u8 {
    if k == 0 {
        ((v / 0x1000000) % 256) as u8
    } else if k == 1 {
        ((v / 0x10000) % 256) as u8
    } else if k == 2 {
        ((v / 0x100) % 256) as u8
    } else {
        (v % 256) as u8
    }
}

/// A chunk's sector run, in whole sectors from the start of the file:
/// the first payload sector of the file is offset 2.
#[derive(Clone, Copy, Debug, PartialEq, Eq, Structural)]
pub struct ChunkAddress {
    pub offset: u32,
    pub len: u32,
}

/// One slot of the header table; `address` is `None` when the slot holds
/// no valid chunk. `mtime` is seconds since the Unix epoch.
#[derive(Clone, Copy, Debug)]
pub struct ChunkHeader {
    pub address: Option<ChunkAddress>,
    pub mtime: u32,
}

impl ChunkHeader {
    /// Builds a header from raw table fields, validating the address
    /// against the file's sector count.
    pub fn new(offset: u32, len: u32, mtime: u32, sector_count: u32) -> (r: Self)
        ensures
            r.mtime == mtime,
            r.address == if 2 <= offset && 0 < len && offset + len - 2 <= sector_count {
                Some(ChunkAddress { offset, len })
            } else {
                Option::<ChunkAddress>::None
            },
    {
        let address = if offset >= 2 && len > 0 && ((offset as u64) + (len as u64) - 2
            <= sector_count as u64) {
            Some(ChunkAddress { offset, len })
        } else {
            None
        };
        ChunkHeader { address, mtime }
    }

    /// Whether the slot holds a chunk.
    pub fn valid(&self) -> (r: bool)
        ensures
            r == (self.address is Some),
    {
        self.address.is_some()
    }

    /// Whether this header's run covers payload sector `i`.
    pub open spec fn covers(self, i: int) -> bool {
        match self.address {
            Some(a) => a.offset - 2 <= i < a.offset + a.len - 2,
            None => false,
        }
    }

    /// The payload sector one past this header's run, 0 for an empty slot.
    pub open spec fn end_sector(self) -> int {
        match self.address {
            Some(a) => a.offset + a.len - 2,
            None => 0,
        }
    }

    /// The address fields lie within the format's and the file's bounds.
    pub open spec fn addr_ok(self, sector_count: int) -> bool {
        match self.address {
            Some(a) => 2 <= a.offset <= 0xffffff && 1 <= a.len <= 255 && a.offset + a.len - 2
                <= sector_count,
            None => true,
        }
    }
}

/// The in-memory form of one region: the mathematical state that the
/// engine's contracts speak of.
pub ghost struct RegionModel {
    pub headers: Seq<ChunkHeader>,
    pub data: Seq<u8>,
    pub occ: Seq<bool>,
    pub dirty: Seq<bool>,
}

impl RegionModel {
    pub open spec fn sector_count(self) -> int {
        self.occ.len() as int
    }

    /// Structural well-formedness: table sizes agree and every address
    /// stays inside the payload.
    pub open spec fn wf(self) -> bool {
        &&& self.headers.len() == 1024
        &&& self.data.len() == SECTOR_LEN * self.occ.len()
        &&& self.dirty.len() == self.occ.len()
        &&& self.occ.len() <= MAX_SECTORS
        &&& forall|s: int|
            0 <= s < 1024 ==> (#[trigger] self.headers[s]).addr_ok(self.sector_count())
    }

    /// The stored length field of the chunk at address `a`.
    pub open spec fn meta_len_at(self, a: ChunkAddress) -> int {
        be32(self.data, (a.offset - 2) * (SECTOR_LEN as int))
    }

    /// The stored codec id of the chunk at address `a`.
    pub open spec fn codec_at(self, a: ChunkAddress) -> u8 {
        self.data[(a.offset - 2) * (SECTOR_LEN as int) + 4]
    }

    /// Every stored chunk's length field counts at least the codec byte
    /// and fits its run.
    pub open spec fn payload_ok(self) -> bool {
        forall|s: int|
            0 <= s < 1024 && (#[trigger] self.headers[s]).address is Some ==> {
                let a = self.headers[s].address->0;
                1 <= self.meta_len_at(a) && self.meta_len_at(a) + 4 <= a.len * (SECTOR_LEN as int)
            }
    }

    /// Each occupied bit is claimed by some header's run.
    pub open spec fn occ_matches(self) -> bool {
        forall|i: int|
            0 <= i < self.occ.len() ==> self.occ[i] == exists|s: int|
                0 <= s < 1024 && (#[trigger] self.headers[s]).covers(i)
    }

    /// No sector is claimed by two slots.
    pub open spec fn runs_disjoint(self) -> bool {
        forall|s1: int, s2: int, i: int|
            0 <= s1 < 1024 && 0 <= s2 < 1024 && #[trigger] self.headers[s1].covers(i)
                && #[trigger] self.headers[s2].covers(i) ==> s1 == s2
    }
}

/// The region engine's state: per-slot headers, the payload bytes, and
/// the occupancy and dirtiness maps over payload sectors.
pub struct RegionFile {
    headers: Vec<ChunkHeader>,
    chunk_data: Vec<u8>,
    occupied_sectors: BitSet,
    dirty_sectors: BitSet,
}

impl RegionFile {
    pub closed spec fn view(&self) -> RegionModel {
        RegionModel {
            headers: self.headers@,
            data: self.chunk_data@,
            occ: self.occupied_sectors@,
            dirty: self.dirty_sectors@,
        }
    }
}

/// Appends zero bytes up to `new_len`.
fn grow_zero(v: &mut Vec<u8>, new_len: usize)
    requires
        old(v)@.len() <= new_len,
    ensures
        final(v)@.len() == new_len,
        forall|i: int|
            0 <= i < new_len ==> final(v)@[i] == if i < old(v)@.len() {
                old(v)@[i]
            } else {
                0u8
            },
{
    while v.len() < new_len
        invariant
            v@.len() <= new_len,
            old(v)@.len() <= v@.len(),
            forall|i: int|
                0 <= i < v@.len() ==> v@[i] == if i < old(v)@.len() {
                    old(v)@[i]
                } else {
                    0u8
                },
        decreases new_len - v@.len(),
    {
        v.push(0);
    }
}

/// Zeroes the bytes of `[a, b)`.
fn fill_zero(v: &mut Vec<u8>, a: usize, b: usize)
    requires
        a <= b <= old(v)@.len(),
    ensures
        final(v)@.len() == old(v)@.len(),
        forall|i: int|
            0 <= i < old(v)@.len() ==> final(v)@[i] == if a <= i < b {
                0u8
            } else {
                old(v)@[i]
            },
{
    let mut i: usize = a;
    while i < b
        invariant
            a <= i <= b <= v@.len(),
            v@.len() == old(v)@.len(),
            forall|j: int|
                0 <= j < v@.len() ==> v@[j] == if a <= j < i {
                    0u8
                } else {
                    old(v)@[j]
                },
        decreases b - i,
    {
        v.set(i, 0);
        i = i + 1;
    }
}

/// Copies `src` into `dst` at `at`.
fn copy_into(dst: &mut Vec<u8>, at: usize, src: &[u8])
    requires
        at + src@.len() <= old(dst)@.len(),
    ensures
        final(dst)@.len() == old(dst)@.len(),
        forall|i: int|
            0 <= i < old(dst)@.len() ==> final(dst)@[i] == if at <= i < at + src@.len() {
                src@[i - at]
            } else {
                old(dst)@[i]
            },
{
    let dlen = dst.len();
    let mut i: usize = 0;
    while i < src.len()
        invariant
            i <= src@.len(),
            at + src@.len() <= dlen,
            dlen == dst@.len(),
            dst@.len() == old(dst)@.len(),
            forall|j: int|
                0 <= j < dst@.len() ==> dst@[j] == if at <= j < at + i {
                    src@[j - at]
                } else {
                    old(dst)@[j]
                },
        decreases src@.len() - i,
    {
        dst.set(at + i, src[i]);
        i = i + 1;
    }
}

/// Writes the big-endian 4-byte encoding of `val` at `at`.
fn write_be32_at(dst: &mut Vec<u8>, at: usize, val: u32)
    requires
        at + 4 <= old(dst)@.len(),
    ensures
        final(dst)@.len() == old(dst)@.len(),
        forall|i: int|
            0 <= i < old(dst)@.len() ==> final(dst)@[i] == if at <= i < at + 4 {
                be_byte(val as int, i - at)
            } else {
                old(dst)@[i]
            },
{
    let len = dst.len();
    proof {
        assert(at + 4 <= len);
    }
    let b0 = ((val >> 24) & 0xff) as u8;
    let b1 = ((val >> 16) & 0xff) as u8;
    let b2 = ((val >> 8) & 0xff) as u8;
    let b3 = (val & 0xff) as u8;
    proof {
        assert((val >> 24) & 0xff == (val / 0x1000000) % 256 && (val >> 16) & 0xff == (val
            / 0x10000) % 256 && (val >> 8) & 0xff == (val / 0x100) % 256 && val & 0xff == val % 256)
            by (bit_vector);
    }
    dst.set(at, b0);
    dst.set(at + 1, b1);
    dst.set(at + 2, b2);
    dst.set(at + 3, b3);
}

/// Reads the big-endian 32-bit value at `offset`.
pub fn read_big_endian(raw: &[u8], offset: usize) -> (r: u32)
    requires
        offset + 4 <= raw@.len(),
    ensures
        r == be32(raw@, offset as int),
{
    let a = raw[offset] as u32;
    let b = raw[offset + 1] as u32;
    let c = raw[offset + 2] as u32;
    let d = raw[offset + 3] as u32;
    let r = (a << 24) | (b << 16) | (c << 8) | d;
    proof {
        assert((a << 24) | (b << 16) | (c << 8) | d == a * 0x1000000 + b * 0x10000 + c * 0x100 + d)
            by (bit_vector)
            requires
                a < 256 && b < 256 && c < 256 && d < 256,
        ;
    }
    r
}

/// A run of `len` sectors starting at `s` has no occupied bit; bits past
/// the end of the map count as free.
pub open spec fn run_free(occ: Seq<bool>, s: int, len: int) -> bool {
    forall|i: int| s <= i < s + len ==> i >= occ.len() || !occ[i]
}

/// The lowest start of a free run of `len` sectors, scanning from `s`.
pub open spec fn first_fit_from(occ: Seq<bool>, len: int, s: int) -> int
    decreases occ.len() - s when 0 <= s <= occ.len()
{
    if s >= occ.len() || run_free(occ, s, len) {
        s
    } else {
        first_fit_from(occ, len, s + 1)
    }
}

/// Where a run of `len` free sectors is first placed.
pub open spec fn first_fit(occ: Seq<bool>, len: int) -> int {
    first_fit_from(occ, len, 0)
}

pub proof fn lemma_first_fit_props(occ: Seq<bool>, len: int, s: int)
    requires
        0 <= s <= occ.len(),
        len >= 1,
    ensures
        s <= first_fit_from(occ, len, s) <= occ.len(),
        run_free(occ, first_fit_from(occ, len, s), len),
        forall|t: int| s <= t < first_fit_from(occ, len, s) ==> !run_free(occ, t, len),
    decreases occ.len() - s,
{
    if s >= occ.len() {
        assert(run_free(occ, s, len));
    } else if run_free(occ, s, len) {
    } else {
        lemma_first_fit_props(occ, len, s + 1);
    }
}

/// The occupancy map after freeing the run of `a`.
pub open spec fn seq_cleared(occ: Seq<bool>, a: ChunkAddress) -> Seq<bool> {
    Seq::new(occ.len(), |i: int| if a.offset - 2 <= i < a.offset + a.len - 2 {
        false
    } else {
        occ[i]
    })
}

/// The model after a slot's run is freed: the header keeps its time but
/// loses its address, and the run's bits clear.
pub open spec fn model_free(m: RegionModel, slot: int) -> RegionModel {
    match m.headers[slot].address {
        Some(a) => RegionModel {
            headers: m.headers.update(
                slot,
                ChunkHeader { address: None, mtime: m.headers[slot].mtime },
            ),
            occ: seq_cleared(m.occ, a),
            ..m
        },
        None => m,
    }
}

impl RegionFile {
    /// Frees the sector run of slot (x, z), if any: the header's address
    /// clears, and so do the run's occupancy bits.
    pub fn free_chunk(&mut self, chunk_x: u8, chunk_z: u8)
        requires
            old(self)@.wf(),
        ensures
            final(self)@ == model_free(old(self)@, slot_of(chunk_x, chunk_z)),
            final(self)@.wf(),
    {
        let idx = coords_to_idx(chunk_x, chunk_z);
        let header = self.headers[idx];
        match header.address {
            Some(addr) => {
                let mtime = header.mtime;
                self.headers.set(idx, ChunkHeader { address: None, mtime });
                let start = (addr.offset as usize) - HEADER_SECTORS;
                let end = (addr.offset as usize) + (addr.len as usize) - HEADER_SECTORS;
                let end = if end < self.occupied_sectors.len() {
                    end
                } else {
                    self.occupied_sectors.len()
                };
                if start < end {
                    self.occupied_sectors.fill_range(start, end, false);
                }
                proof {
                    assert(self@.occ =~= seq_cleared(old(self)@.occ, addr));
                    assert(self@ == model_free(old(self)@, slot_of(chunk_x, chunk_z)));
                }
            },
            None => {
                proof {
                    assert(self@ == model_free(old(self)@, slot_of(chunk_x, chunk_z)));
                }
            },
        }
    }

    /// Deletes the chunk of slot (x, z): its time becomes `now` and its
    /// run is freed.
    pub fn delete_chunk(&mut self, chunk_x: u8, chunk_z: u8, now: u32)
        requires
            old(self)@.wf(),
        ensures
            final(self)@ == model_free(
                RegionModel {
                    headers: old(self)@.headers.update(
                        slot_of(chunk_x, chunk_z),
                        ChunkHeader {
                            address: old(self)@.headers[slot_of(chunk_x, chunk_z)].address,
                            mtime: now,
                        },
                    ),
                    ..old(self)@
                },
                slot_of(chunk_x, chunk_z),
            ),
            final(self)@.wf(),
    {
        let idx = coords_to_idx(chunk_x, chunk_z);
        let header = self.headers[idx];
        self.headers.set(idx, ChunkHeader { address: header.address, mtime: now });
        self.free_chunk(chunk_x, chunk_z);
    }
}

/// Allocates the first free run of `len` sectors in `occ`, growing the
/// map when the run extends past its end; fails only against the 24-bit
/// ceiling. The chosen start is the lowest possible, the run was wholly
/// free, and no other bit changes.
pub fn allocate_run(occ: &mut BitSet, len: usize) -> (r: Option<ChunkAddress>)
    requires
        len >= 1,
        len <= 255,
        old(occ)@.len() <= MAX_SECTORS,
    ensures
        ({
            let st = first_fit(old(occ)@, len as int);
            match r {
                Some(a) => {
                    &&& st + len < MAX_SECTORS
                    &&& a.offset == st + 2
                    &&& a.offset >= 2
                    &&& a.len == len
                    &&& forall|i: int|
                        st <= i < st + len ==> i >= old(occ)@.len() || !old(occ)@[i]
                    &&& final(occ)@.len() == if st + len > old(occ)@.len() {
                        st + len
                    } else {
                        old(occ)@.len() as int
                    }
                    &&& forall|i: int|
                        0 <= i < final(occ)@.len() ==> final(occ)@[i] == (st <= i < st + len || (i
                            < old(occ)@.len() && old(occ)@[i]))
                },
                None => st + len >= MAX_SECTORS && final(occ)@ == old(occ)@,
            }
        }),
{
    let ghost st = first_fit(old(occ)@, len as int);
    proof {
        lemma_first_fit_props(old(occ)@, len as int, 0);
    }
    let mut start: usize = 0;
    loop
        invariant
            start <= occ@.len(),
            occ@ == old(occ)@,
            occ@.len() <= MAX_SECTORS,
            forall|t: int| 0 <= t < start ==> !run_free(occ@, t, len as int),
            len >= 1,
            len <= 255,
            st == first_fit(occ@, len as int),
        decreases occ@.len() - start,
    {
        proof {
            lemma_first_fit_props(occ@, len as int, 0);
        }
        match occ.first_zero_from(start) {
            Some(zero_at) => {
                proof {
                    assert(forall|t: int| start <= t < zero_at ==> occ@[t]);
                    assert forall|t: int| 0 <= t < zero_at implies !run_free(occ@, t, len as int)
                    by {
                        if start <= t {
                            assert(occ@[t]);
                            assert(!(t >= occ@.len() || !occ@[t]));
                        }
                    }
                }
                let search_end = if zero_at + len < occ.len() {
                    zero_at + len
                } else {
                    occ.len()
                };
                match occ.first_one_in(zero_at, search_end) {
                    Some(one_at) => {
                        proof {
                            assert forall|t: int|
                                0 <= t <= one_at implies !run_free(occ@, t, len as int) by {
                                if zero_at <= t {
                                    assert(occ@[one_at as int]);
                                    assert(one_at < t + len);
                                }
                            }
                        }
                        start = one_at + 1;
                    },
                    None => {
                        proof {
                            assert(run_free(occ@, zero_at as int, len as int));
                            assert(st == zero_at);
                        }
                        let end = zero_at + len;
                        if end >= MAX_SECTORS {
                            return None;
                        }
                        occ.set_range_grow(zero_at, end);
                        return Some(
                            ChunkAddress {
                                offset: (zero_at + HEADER_SECTORS) as u32,
                                len: len as u32,
                            },
                        );
                    },
                }
            },
            None => {
                proof {
                    assert forall|t: int|
                        0 <= t < occ@.len() implies !run_free(occ@, t, len as int) by {
                        if start <= t {
                            assert(occ@[t]);
                        }
                    }
                    assert(run_free(occ@, occ@.len() as int, len as int));
                    assert(st == occ@.len());
                }
                let here = occ.len();
                let end = here + len;
                if end >= MAX_SECTORS {
                    return None;
                }
                occ.set_range_grow(here, end);
                return Some(
                    ChunkAddress { offset: (here + HEADER_SECTORS) as u32, len: len as u32 },
                );
            },
        }
    }
}

/// Rounding division upward.
pub open spec fn ceil_div(a: int, b: int) -> int {
    (a + b - 1) / b
}

proof fn lemma_div_below(len: int, e: int, s: int)
    requires
        s > 0,
        len >= 0,
        len / s < e,
    ensures
        len < e * s,
{
    vstd::arithmetic::div_mod::lemma_fundamental_div_mod(len, s);
    vstd::arithmetic::div_mod::lemma_mod_bound(len, s);
    assert(len < e * s) by (nonlinear_arith)
        requires
            len == s * (len / s) + len % s,
            0 <= len % s < s,
            len / s < e,
            s > 0,
    ;
}

proof fn lemma_div_reached(len: int, e: int, s: int)
    requires
        s > 0,
        len >= 0,
        len / s >= e,
    ensures
        len >= e * s,
{
    vstd::arithmetic::div_mod::lemma_fundamental_div_mod(len, s);
    vstd::arithmetic::div_mod::lemma_mod_bound(len, s);
    assert(len >= e * s) by (nonlinear_arith)
        requires
            len == s * (len / s) + len % s,
            0 <= len % s < s,
            len / s >= e,
            s > 0,
    ;
}

/// The ceiling division covers its argument and wastes less than one
/// divisor.
proof fn lemma_ceil_bounds(c: int, s: int)
    requires
        s > 0,
        c >= 1,
    ensures
        ceil_div(c, s) >= 1,
        ceil_div(c, s) * s >= c,
        c + s > ceil_div(c, s) * s,
{
    let q = ceil_div(c, s);
    vstd::arithmetic::div_mod::lemma_fundamental_div_mod(c + s - 1, s);
    vstd::arithmetic::div_mod::lemma_mod_bound(c + s - 1, s);
    assert(q >= 1 && q * s >= c && c + s > q * s) by (nonlinear_arith)
        requires
            c + s - 1 == s * q + (c + s - 1) % s,
            0 <= (c + s - 1) % s < s,
            s > 0,
            c >= 1,
    ;
}

/// One byte of the payload after a chunk is placed at byte offset `base`
/// with its run ending at byte `run_end`: the 4-byte big-endian length
/// (payload plus codec byte), the codec byte, the payload, then zeros to
/// the end of the run; bytes outside the run keep their old value.
pub open spec fn placed_byte(
    old_data: Seq<u8>,
    data: Seq<u8>,
    ct: CompressionType,
    base: int,
    run_end: int,
    i: int,
) -> u8 {
    if base <= i < base + 4 {
        be_byte(data.len() as int + 1, i - base)
    } else if i == base + 4 {
        ct.encode_spec()
    } else if base + 5 <= i < base + 5 + data.len() {
        data[i - base - 5]
    } else if base + 5 + data.len() <= i < run_end {
        0
    } else if i < old_data.len() {
        old_data[i]
    } else {
        0
    }
}

/// The model after a chunk is placed in the run `[st, st + n)`.
pub open spec fn model_place(
    m1: RegionModel,
    slot: int,
    data: Seq<u8>,
    ct: CompressionType,
    mtime: u32,
    st: int,
    n: int,
) -> RegionModel {
    let sc2 = if st + n > m1.occ.len() {
        st + n
    } else {
        m1.occ.len() as int
    };
    let base = st * (SECTOR_LEN as int);
    RegionModel {
        headers: m1.headers.update(
            slot,
            ChunkHeader {
                address: Some(ChunkAddress { offset: (st + 2) as u32, len: n as u32 }),
                mtime,
            },
        ),
        data: Seq::new(
            (sc2 * SECTOR_LEN) as nat,
            |i: int| placed_byte(m1.data, data, ct, base, base + n * (SECTOR_LEN as int), i),
        ),
        occ: Seq::new(sc2 as nat, |i: int| st <= i < st + n || (i < m1.occ.len() && m1.occ[i])),
        dirty: Seq::new(
            sc2 as nat,
            |i: int| st <= i < st + n || (i < m1.dirty.len() && m1.dirty[i]),
        ),
    }
}

/// The model after a write to a slot: the old run is freed; an oversized
/// payload, or one the 24-bit ceiling cannot hold, is dropped there; any
/// other lands first-fit with the slot's header rewritten.
pub open spec fn model_write(
    m: RegionModel,
    slot: int,
    data: Seq<u8>,
    ct: CompressionType,
    mtime: u32,
) -> RegionModel {
    let m1 = model_free(m, slot);
    if data.len() >= MAX_CHUNK_LEN {
        m1
    } else {
        let n = ceil_div(data.len() as int + 5, SECTOR_LEN as int);
        let st = first_fit(m1.occ, n);
        if st + n >= MAX_SECTORS {
            m1
        } else {
            model_place(m1, slot, data, ct, mtime, st, n)
        }
    }
}

impl RegionFile {
    /// Writes a chunk into slot (x, z): frees the old run, drops the
    /// write when the payload is oversized or no run can be had, and
    /// otherwise places length, codec byte and payload first-fit, marking
    /// the run dirty and rewriting the header.
    pub fn write_chunk(
        &mut self,
        chunk_x: u8,
        chunk_z: u8,
        data: &[u8],
        compression_type: CompressionType,
        mtime: u32,
    )
        requires
            old(self)@.wf(),
        ensures
            final(self)@ == model_write(
                old(self)@,
                slot_of(chunk_x, chunk_z),
                data@,
                compression_type,
                mtime,
            ),
            final(self)@.wf(),
    {
        let ghost slot = slot_of(chunk_x, chunk_z);
        self.free_chunk(chunk_x, chunk_z);
        let ghost m1 = self@;
        if data.len() >= MAX_CHUNK_LEN {
            return ;
        }
        let container_len = data.len() + 5;
        let n = (container_len + (SECTOR_LEN - 1)) / SECTOR_LEN;
        proof {
            assert(n == ceil_div(data@.len() as int + 5, SECTOR_LEN as int));
            lemma_ceil_bounds(container_len as int, SECTOR_LEN as int);
            vstd::arithmetic::div_mod::lemma_div_is_ordered(
                container_len as int + 4095,
                1048575,
                4096,
            );
            assert(1048575int / 4096 == 255);
            assert(1 <= n <= 255);
        }
        let addr = match allocate_run(&mut self.occupied_sectors, n) {
            Some(addr) => addr,
            None => {
                proof {
                    assert(self@ =~= m1);
                }
                return ;
            },
        };
        let ghost st = first_fit(m1.occ, n as int);
        let ghost mp = model_place(m1, slot, data@, compression_type, mtime, st, n as int);
        proof {
            lemma_first_fit_props(m1.occ, n as int, 0);
        }
        let ghost occ2 = self.occupied_sectors@;
        let st_sector = (addr.offset - 2) as usize;
        let end_sector = st_sector + addr.len as usize;
        // grow the payload to cover the run, one zero byte at a time, so
        // that every byte offset below stays within the vector's length
        while self.chunk_data.len() / SECTOR_LEN < end_sector
            invariant
                self.chunk_data@.len() >= m1.data.len(),
                st + n > m1.occ.len() ==> self.chunk_data@.len() <= (end_sector as int) * (
                SECTOR_LEN as int),
                st_sector == st,
                end_sector == st + n,
                m1.data.len() == SECTOR_LEN * m1.occ.len(),
                st + n > m1.occ.len() ==> m1.data.len() <= (end_sector as int) * (
                SECTOR_LEN as int),
                st + n <= m1.occ.len() ==> self.chunk_data@.len() == m1.data.len(),
                forall|i: int|
                    0 <= i < self.chunk_data@.len() ==> self.chunk_data@[i] == if i
                        < m1.data.len() {
                        m1.data[i]
                    } else {
                        0u8
                    },
                self.headers@ == m1.headers,
                self.dirty_sectors@ == m1.dirty,
                self.occupied_sectors@ == occ2,
            decreases (end_sector as int) * (SECTOR_LEN as int) - self.chunk_data@.len(),
        {
            proof {
                lemma_div_below(self.chunk_data@.len() as int, end_sector as int, SECTOR_LEN as int);
            }
            self.chunk_data.push(0);
        }
        let dlen = self.chunk_data.len();
        proof {
            lemma_div_reached(dlen as int, end_sector as int, SECTOR_LEN as int);
            assert(dlen as int >= (end_sector as int) * (SECTOR_LEN as int));
            assert((st_sector as int) * (SECTOR_LEN as int) <= (end_sector as int) * (
            SECTOR_LEN as int));
        }
        let start = st_sector * SECTOR_LEN;
        let end = start + (addr.len as usize) * SECTOR_LEN;
        proof {
            assert(end == (end_sector as int) * (SECTOR_LEN as int)) by (nonlinear_arith)
                requires
                    start == (st_sector as int) * (SECTOR_LEN as int),
                    end == start + (addr.len as int) * (SECTOR_LEN as int),
                    end_sector == st_sector + addr.len,
            ;
            assert(end <= dlen);
        }
        let container_end = start + container_len;
        fill_zero(&mut self.chunk_data, container_end, end);
        write_be32_at(&mut self.chunk_data, start, (data.len() + 1) as u32);
        let codec = compression_type.encode();
        self.chunk_data.set(start + 4, codec);
        copy_into(&mut self.chunk_data, start + 5, data);
        let dirty_start = (addr.offset - 2) as usize;
        let dirty_end = dirty_start + addr.len as usize;
        self.dirty_sectors.set_range_grow(dirty_start, dirty_end);
        let idx = coords_to_idx(chunk_x, chunk_z);
        self.headers.set(idx, ChunkHeader { address: Some(addr), mtime });
        proof {
            assert(be_byte((data@.len() as int + 1) as u32 as int, 0) == be_byte(data@.len() as int + 1, 0));
            assert(self@.data =~= mp.data);
            assert(self@.occ =~= mp.occ);
            assert(self@.dirty =~= mp.dirty);
            assert(self@.headers =~= mp.headers);
            assert(self@ == mp);
        }
    }

    /// Reads the chunk of slot (x, z): its payload bytes, codec and
    /// time, or nothing when the slot is empty.
    pub fn lookup_chunk(&self, chunk_x: u8, chunk_z: u8) -> (r: Option<Chunk>)
        requires
            self@.wf(),
            self@.payload_ok(),
        ensures
            match self@.headers[slot_of(chunk_x, chunk_z)].address {
                Some(a) => r is Some && {
                    let c = r->0;
                    let base = (a.offset - 2) * (SECTOR_LEN as int);
                    &&& c.x == chunk_x & 31
                    &&& c.z == chunk_z & 31
                    &&& c.mtime == self@.headers[slot_of(chunk_x, chunk_z)].mtime
                    &&& c.compression_type == CompressionType::decode_spec(self@.codec_at(a))
                    &&& c.compression_type.canonical()
                    &&& c.data@ == self@.data.subrange(base + 5, base + 4 + self@.meta_len_at(a))
                },
                None => r is None,
            },
    {
        let idx = coords_to_idx(chunk_x, chunk_z);
        let header = self.headers[idx];
        let addr = match header.address {
            Some(addr) => addr,
            None => {
                return None;
            },
        };
        let dlen = self.chunk_data.len();
        proof {
            assert(((addr.offset - 2) as int) * (SECTOR_LEN as int) + (addr.len as int) * (
            SECTOR_LEN as int) <= dlen as int) by (nonlinear_arith)
                requires
                    addr.offset >= 2,
                    addr.len >= 1,
                    addr.offset + addr.len - 2 <= self@.occ.len(),
                    dlen as int == (SECTOR_LEN as int) * self@.occ.len(),
            ;
        }
        let start = ((addr.offset - 2) as usize) * SECTOR_LEN;
        let run_len = (addr.len as usize) * SECTOR_LEN;
        proof {
            assert(start + run_len <= dlen);
        }
        let meta_len = read_big_endian(self.chunk_data.as_slice(), start) as usize;
        let codec_id = self.chunk_data[start + 4];
        let compression_type = CompressionType::decode(codec_id);
        proof {
            assert(self@.meta_len_at(addr) == meta_len);
            assert(meta_len + 4 <= (addr.len as int) * (SECTOR_LEN as int));
        }
        let data_start = start + 5;
        let data_end = start + 4 + meta_len;
        let mut payload: Vec<u8> = Vec::new();
        let mut i: usize = data_start;
        while i < data_end
            invariant
                data_start <= i <= data_end,
                data_end <= self.chunk_data@.len(),
                payload@.len() == i - data_start,
                forall|k: int|
                    0 <= k < payload@.len() ==> payload@[k] == self.chunk_data@[data_start + k],
            decreases data_end - i,
        {
            payload.push(self.chunk_data[i]);
            i = i + 1;
        }
        proof {
            assert(payload@ =~= self@.data.subrange(
                data_start as int,
                start + 4 + self@.meta_len_at(addr),
            ));
        }
        Some(
            Chunk {
                x: chunk_x & 31,
                z: chunk_z & 31,
                mtime: header.mtime,
                compression_type,
                data: payload,
            },
        )
    }
}


/// The sector count of an image: its payload bytes rounded up to whole
/// sectors.
pub open spec fn spec_sector_count(bytes: Seq<u8>) -> int {
    ceil_div(bytes.len() - HEADER_LEN, SECTOR_LEN as int)
}

/// The payload of an image, zero-padded to a whole sector count.
pub open spec fn spec_payload(bytes: Seq<u8>) -> Seq<u8> {
    Seq::new(
        (spec_sector_count(bytes) * SECTOR_LEN) as nat,
        |i: int|
            if i < bytes.len() - HEADER_LEN {
                bytes[HEADER_LEN + i]
            } else {
                0u8
            },
    )
}

/// A padded length is exactly the unpadded length rounded up to whole
/// sectors.
proof fn lemma_pad_exact(olen: int, plen: int)
    requires
        olen >= 0,
        plen % (SECTOR_LEN as int) == 0,
        olen <= plen,
        plen <= ceil_div(olen, SECTOR_LEN as int) * (SECTOR_LEN as int),
    ensures
        plen == ceil_div(olen, SECTOR_LEN as int) * (SECTOR_LEN as int),
{
    let s = SECTOR_LEN as int;
    let q = ceil_div(olen, s);
    if olen == 0 {
        assert(q == 0);
    } else {
        lemma_ceil_bounds(olen, s);
        vstd::arithmetic::div_mod::lemma_fundamental_div_mod(plen, s);
        assert(plen == q * s) by (nonlinear_arith)
            requires
                plen == s * (plen / s) + plen % s,
                plen % s == 0,
                olen <= plen <= q * s,
                olen + s > q * s,
                s > 0,
        ;
    }
}

/// The header a slot of an image parses to: the address survives only
/// when it lies within the file and its stored chunk length is sound.
pub open spec fn spec_header(bytes: Seq<u8>, s: int) -> ChunkHeader {
    let pos = be32(bytes, 4 * s);
    let off = pos / 256;
    let len = pos % 256;
    let mtime = be32(bytes, 4096 + 4 * s) as u32;
    let sc = spec_sector_count(bytes);
    if 2 <= off && 1 <= len && off + len - 2 <= sc {
        let l = be32(spec_payload(bytes), (off - 2) * (SECTOR_LEN as int));
        if l > 1 && l + 4 <= len * (SECTOR_LEN as int) {
            ChunkHeader {
                address: Some(ChunkAddress { offset: off as u32, len: len as u32 }),
                mtime,
            }
        } else {
            ChunkHeader { address: None, mtime }
        }
    } else {
        ChunkHeader { address: None, mtime }
    }
}

/// The region an image parses to.
pub open spec fn model_parse(bytes: Seq<u8>) -> RegionModel {
    let sc = spec_sector_count(bytes);
    let headers = Seq::new(1024, |s: int| spec_header(bytes, s));
    RegionModel {
        headers,
        data: spec_payload(bytes),
        occ: Seq::new(
            sc as nat,
            |i: int| exists|s: int| 0 <= s < 1024 && (#[trigger] headers[s]).covers(i),
        ),
        dirty: Seq::new(sc as nat, |i: int| false),
    }
}

/// No slot whose table entry lies within the file stores an externally-
/// kept chunk: a codec byte with its high bit set stops the engine, so
/// the parser is only given images free of them.
pub open spec fn spec_no_external(bytes: Seq<u8>) -> bool {
    forall|s: int|
        0 <= s < 1024 ==> {
            let pos = #[trigger] be32(bytes, 4 * s);
            let off = pos / 256;
            let len = pos % 256;
            (2 <= off && 1 <= len && off + len - 2 <= spec_sector_count(bytes)) ==> spec_payload(
                bytes,
            )[(off - 2) * (SECTOR_LEN as int) + 4] < 128
        }
}

impl RegionFile {
    /// Parses a region image: the 8192-byte header tables, then the
    /// payload padded to whole sectors. Corrupt slots lose their address
    /// but keep their time; the occupancy map is rebuilt from the
    /// surviving addresses and nothing starts dirty.
    pub fn new(data: Vec<u8>) -> (r: Self)
        requires
            data@.len() >= HEADER_LEN,
            data@.len() <= HEADER_LEN + SECTOR_LEN * MAX_SECTORS,
            spec_no_external(data@),
        ensures
            r@ == model_parse(data@),
            r@.wf(),
            r@.payload_ok(),
            r@.occ_matches(),
    {
        let ghost bytes = data@;
        let mut header_data = data;
        let chunk_rest = header_data.split_off(HEADER_LEN);
        let mut chunk_data = chunk_rest;
        proof {
            assert(header_data@ == bytes.subrange(0, HEADER_LEN as int));
            assert(chunk_data@ == bytes.subrange(HEADER_LEN as int, bytes.len() as int));
            assert(forall|i: int|
                0 <= i < chunk_data@.len() ==> chunk_data@[i] == bytes[HEADER_LEN + i]);
            lemma_ceil_bounds(1, SECTOR_LEN as int);
            if bytes.len() - HEADER_LEN >= 1 {
                lemma_ceil_bounds(bytes.len() - HEADER_LEN, SECTOR_LEN as int);
            }
        }
        // pad the payload to a whole sector count
        while chunk_data.len() % SECTOR_LEN != 0
            invariant
                bytes.len() - HEADER_LEN <= chunk_data@.len(),
                chunk_data@.len() <= spec_sector_count(bytes) * (SECTOR_LEN as int),
                forall|i: int|
                    0 <= i < chunk_data@.len() ==> chunk_data@[i] == if i < bytes.len()
                        - HEADER_LEN {
                        bytes[HEADER_LEN + i]
                    } else {
                        0u8
                    },
            decreases spec_sector_count(bytes) * (SECTOR_LEN as int) - chunk_data@.len(),
        {
            proof {
                vstd::arithmetic::div_mod::lemma_mod_multiples_basic(
                    spec_sector_count(bytes),
                    SECTOR_LEN as int,
                );
                assert(chunk_data@.len() < spec_sector_count(bytes) * (SECTOR_LEN as int));
            }
            chunk_data.push(0);
        }
        proof {
            lemma_pad_exact(bytes.len() - HEADER_LEN, chunk_data@.len() as int);
            assert(chunk_data@ =~= spec_payload(bytes));
        }
        let sector_count = chunk_data.len() / SECTOR_LEN;
        proof {
            assert(sector_count == spec_sector_count(bytes)) by (nonlinear_arith)
                requires
                    chunk_data@.len() == spec_sector_count(bytes) * (SECTOR_LEN as int),
                    sector_count == chunk_data@.len() as int / (SECTOR_LEN as int),
                    spec_sector_count(bytes) >= 0,
            ;
            if bytes.len() - HEADER_LEN == 0 {
                assert(spec_sector_count(bytes) == 0);
            } else {
                assert(spec_sector_count(bytes) * (SECTOR_LEN as int) < bytes.len() - HEADER_LEN
                    + SECTOR_LEN);
                assert(spec_sector_count(bytes) <= MAX_SECTORS) by (nonlinear_arith)
                    requires
                        spec_sector_count(bytes) * (SECTOR_LEN as int) < bytes.len() - HEADER_LEN
                            + SECTOR_LEN,
                        bytes.len() <= HEADER_LEN + SECTOR_LEN * MAX_SECTORS,
                ;
            }
        }
        let mut headers: Vec<ChunkHeader> = Vec::new();
        let mut occupied_sectors = BitSet::new(sector_count);
        let dirty_sectors = BitSet::new(sector_count);
        let mut idx: usize = 0;
        while idx < 1024
            invariant
                idx <= 1024,
                headers@.len() == idx,
                forall|s: int| 0 <= s < idx ==> headers@[s] == spec_header(bytes, s),
                occupied_sectors@.len() == sector_count,
                sector_count == spec_sector_count(bytes),
                sector_count <= MAX_SECTORS,
                chunk_data@ == spec_payload(bytes),
                chunk_data@.len() == sector_count * (SECTOR_LEN as int),
                header_data@ == bytes.subrange(0, HEADER_LEN as int),
                bytes.len() >= HEADER_LEN,
                spec_no_external(bytes),
                forall|i: int|
                    0 <= i < sector_count ==> occupied_sectors@[i] == exists|s: int|
                        0 <= s < idx && (#[trigger] headers@[s]).covers(i),
            decreases 1024 - idx,
        {
            let base = 4 * idx;
            let pos_info = read_big_endian(header_data.as_slice(), base);
            let offset = pos_info >> 8;
            let len = pos_info & 0xff;
            let mtime = read_big_endian(header_data.as_slice(), base + 0x1000);
            proof {
                assert(offset == pos_info / 256 && len == pos_info % 256 && offset <= 0xffffff
                    && len < 256) by (bit_vector)
                    requires
                        offset == pos_info >> 8,
                        len == pos_info & 0xff,
                ;
                assert(be32(header_data@, 4 * idx) == be32(bytes, 4 * idx));
                assert(be32(header_data@, 4096 + 4 * idx) == be32(bytes, 4096 + 4 * idx));
            }
            let mut header = ChunkHeader::new(offset, len, mtime, sector_count as u32);
            if let Some(addr) = header.address {
                proof {
                    assert(((addr.offset - 2) as int) * (SECTOR_LEN as int) + (addr.len as int) * (
                    SECTOR_LEN as int) <= chunk_data@.len()) by (nonlinear_arith)
                        requires
                            addr.offset >= 2,
                            addr.len >= 1,
                            addr.offset + addr.len - 2 <= sector_count,
                            chunk_data@.len() == sector_count * (SECTOR_LEN as int),
                    ;
                    assert((addr.len as int) * (SECTOR_LEN as int) >= SECTOR_LEN as int)
                        by (nonlinear_arith)
                        requires
                            addr.len >= 1,
                    ;
                }
                let cl = chunk_data.len();
                proof {
                    assert(((addr.offset - 2) as int) * (SECTOR_LEN as int) <= cl as int);
                }
                let byte_offset = ((addr.offset - 2) as usize) * SECTOR_LEN;
                let meta_len = read_big_endian(chunk_data.as_slice(), byte_offset) as usize;
                let byte_len = (addr.len as usize) * SECTOR_LEN;
                if meta_len <= 1 || meta_len > byte_len - 4 {
                    header.address = None;
                }
            }
            proof {
                assert(header == spec_header(bytes, idx as int));
            }
            let ghost hs_before = headers@;
            let ghost occ_before = occupied_sectors@;
            if let Some(addr) = header.address {
                let start = (addr.offset as usize) - HEADER_SECTORS;
                let end = (addr.offset as usize) + (addr.len as usize) - HEADER_SECTORS;
                occupied_sectors.fill_range(start, end, true);
            }
            headers.push(header);
            proof {
                assert forall|i: int|
                    0 <= i < sector_count implies occupied_sectors@[i] == exists|s: int|
                    0 <= s < idx + 1 && (#[trigger] headers@[s]).covers(i) by {
                    assert(forall|s: int| 0 <= s < idx ==> headers@[s] == hs_before[s]);
                    if occupied_sectors@[i] {
                        if occ_before[i] {
                            let s = choose|s: int|
                                0 <= s < idx && (#[trigger] hs_before[s]).covers(i);
                            assert(headers@[s].covers(i));
                        } else {
                            assert(headers@[idx as int].covers(i));
                        }
                    } else {
                        assert(!occ_before[i]);
                        assert(!headers@[idx as int].covers(i));
                        assert forall|s: int|
                            0 <= s < idx + 1 implies !(#[trigger] headers@[s]).covers(i) by {
                            if s < idx {
                                assert(headers@[s] == hs_before[s]);
                            }
                        }
                    }
                }
            }
            idx = idx + 1;
        }
        let r = RegionFile { headers, chunk_data, occupied_sectors, dirty_sectors };
        proof {
            assert(r@.headers =~= model_parse(bytes).headers);
            assert(r@.occ =~= model_parse(bytes).occ);
            assert(r@.dirty =~= model_parse(bytes).dirty);
            assert(r@ == model_parse(bytes));
        }
        r
    }
}


/// The largest end sector over the first `k` slots.
pub open spec fn max_end_upto(headers: Seq<ChunkHeader>, k: int) -> int
    decreases k,
{
    if k <= 0 {
        0
    } else {
        let e = headers[k - 1].end_sector();
        let m = max_end_upto(headers, k - 1);
        if e > m {
            e
        } else {
            m
        }
    }
}

/// The sector count a serialized image keeps: the end of the furthest
/// stored chunk, 0 when no slot holds one.
pub open spec fn spec_max_end(headers: Seq<ChunkHeader>) -> int {
    max_end_upto(headers, 1024)
}

pub proof fn lemma_max_end_bounds(headers: Seq<ChunkHeader>, k: int, sc: int)
    requires
        0 <= k <= headers.len(),
        sc >= 0,
        forall|s: int| 0 <= s < headers.len() ==> (#[trigger] headers[s]).addr_ok(sc),
    ensures
        0 <= max_end_upto(headers, k) <= sc,
        forall|s: int| 0 <= s < k ==> (#[trigger] headers[s]).end_sector() <= max_end_upto(
            headers,
            k,
        ),
    decreases k,
{
    if k > 0 {
        lemma_max_end_bounds(headers, k - 1, sc);
    }
}

/// One byte of the serialized image: the location table, the timestamp
/// table, then the payload.
pub open spec fn spec_out_byte(m: RegionModel, i: int) -> u8 {
    if i < 4096 {
        let s = i / 4;
        let k = i % 4;
        match m.headers[s].address {
            Some(a) => be_byte(a.offset * 256 + a.len, k),
            None => 0u8,
        }
    } else if i < 8192 {
        let s = (i - 4096) / 4;
        be_byte(m.headers[s].mtime as int, (i - 4096) % 4)
    } else {
        m.data[i - 8192]
    }
}

/// The full image of a region: both header tables, then every payload
/// sector up to the last stored end.
pub open spec fn spec_serialize(m: RegionModel) -> Seq<u8> {
    Seq::new(
        (HEADER_LEN + spec_max_end(m.headers) * SECTOR_LEN) as nat,
        |i: int| spec_out_byte(m, i),
    )
}

impl RegionFile {
    /// The header of slot (x, z).
    pub fn lookup_header(&self, chunk_x: u8, chunk_z: u8) -> (r: ChunkHeader)
        requires
            self@.wf(),
        ensures
            r == self@.headers[slot_of(chunk_x, chunk_z)],
    {
        let idx = coords_to_idx(chunk_x, chunk_z);
        self.headers[idx]
    }

    /// How many payload sectors the map tracks.
    pub fn sector_count(&self) -> (r: usize)
        ensures
            r == self@.occ.len(),
    {
        self.occupied_sectors.len()
    }

    /// Whether payload sector `i` is occupied.
    pub fn occupied(&self, i: usize) -> (r: bool)
        requires
            i < self@.occ.len(),
        ensures
            r == self@.occ[i as int],
    {
        self.occupied_sectors.get(i)
    }

    /// Whether payload sector `i` is dirty.
    pub fn dirty(&self, i: usize) -> (r: bool)
        requires
            i < self@.dirty.len(),
        ensures
            r == self@.dirty[i as int],
    {
        self.dirty_sectors.get(i)
    }

    /// The sector count a write-out would keep.
    pub fn max_occupied_end(&self) -> (r: usize)
        requires
            self@.wf(),
        ensures
            r == spec_max_end(self@.headers),
            r <= self@.occ.len(),
    {
        let mut m: usize = 0;
        let mut s: usize = 0;
        while s < 1024
            invariant
                s <= 1024,
                self@.wf(),
                m == max_end_upto(self@.headers, s as int),
                m <= self@.occ.len(),
            decreases 1024 - s,
        {
            proof {
                assert(self@.headers[s as int].addr_ok(self@.occ.len() as int));
            }
            match self.headers[s].address {
                Some(a) => {
                    let e = ((a.offset + a.len) as usize) - HEADER_SECTORS;
                    if e > m {
                        m = e;
                    }
                },
                None => {},
            }
            s = s + 1;
        }
        m
    }

    /// Serializes the region to a full image: the location and timestamp
    /// tables, then every payload sector up to the last stored end.
    pub fn serialize_full(&self) -> (r: Vec<u8>)
        requires
            self@.wf(),
        ensures
            r@ == spec_serialize(self@),
    {
        let max_end = self.max_occupied_end();
        let mut out: Vec<u8> = Vec::new();
        let mut s: usize = 0;
        while s < 1024
            invariant
                s <= 1024,
                self@.wf(),
                out@.len() == 4 * s,
                forall|i: int| 0 <= i < out@.len() ==> out@[i] == spec_out_byte(self@, i),
            decreases 1024 - s,
        {
            proof {
                assert(self@.headers[s as int].addr_ok(self@.occ.len() as int));
                assert forall|k: int| 0 <= k < 4 implies (4 * s + #[trigger] (k + 0)) / 4 == s && (
                4 * s + k) % 4 == k by {
                    assert((4 * s + k) / 4 == s && (4 * s + k) % 4 == k) by (nonlinear_arith)
                        requires
                            0 <= k < 4,
                            s >= 0,
                    ;
                }
            }
            match self.headers[s].address {
                Some(a) => {
                    let w: u32 = a.offset * 256 + a.len;
                    let b0 = ((w >> 24) & 0xff) as u8;
                    let b1 = ((w >> 16) & 0xff) as u8;
                    let b2 = ((w >> 8) & 0xff) as u8;
                    let b3 = (w & 0xff) as u8;
                    proof {
                        assert((w >> 24) & 0xff == (w / 0x1000000) % 256 && (w >> 16) & 0xff == (w
                            / 0x10000) % 256 && (w >> 8) & 0xff == (w / 0x100) % 256 && w & 0xff
                            == w % 256) by (bit_vector);
                    }
                    out.push(b0);
                    out.push(b1);
                    out.push(b2);
                    out.push(b3);
                },
                None => {
                    out.push(0);
                    out.push(0);
                    out.push(0);
                    out.push(0);
                },
            }
            s = s + 1;
        }
        s = 0;
        while s < 1024
            invariant
                s <= 1024,
                self@.wf(),
                out@.len() == 4096 + 4 * s,
                forall|i: int| 0 <= i < out@.len() ==> out@[i] == spec_out_byte(self@, i),
            decreases 1024 - s,
        {
            proof {
                assert forall|k: int|
                    0 <= k < 4 implies (4096 + 4 * s + #[trigger] (k + 0) - 4096) / 4 == s && (4096
                    + 4 * s + k - 4096) % 4 == k by {
                    assert((4 * s + k) / 4 == s && (4 * s + k) % 4 == k) by (nonlinear_arith)
                        requires
                            0 <= k < 4,
                            s >= 0,
                    ;
                }
            }
            let t = self.headers[s].mtime;
            let b0 = ((t >> 24) & 0xff) as u8;
            let b1 = ((t >> 16) & 0xff) as u8;
            let b2 = ((t >> 8) & 0xff) as u8;
            let b3 = (t & 0xff) as u8;
            proof {
                assert((t >> 24) & 0xff == (t / 0x1000000) % 256 && (t >> 16) & 0xff == (t
                    / 0x10000) % 256 && (t >> 8) & 0xff == (t / 0x100) % 256 && t & 0xff == t % 256)
                    by (bit_vector);
            }
            out.push(b0);
            out.push(b1);
            out.push(b2);
            out.push(b3);
            s = s + 1;
        }
        let dlen = self.chunk_data.len();
        proof {
            assert((max_end as int) * (SECTOR_LEN as int) <= dlen as int) by (nonlinear_arith)
                requires
                    max_end <= self@.occ.len(),
                    dlen as int == (SECTOR_LEN as int) * self@.occ.len(),
        ;
        }
        let end = max_end * SECTOR_LEN;
        let mut i: usize = 0;
        while i < end
            invariant
                i <= end,
                end <= self.chunk_data@.len(),
                out@.len() == 8192 + i,
                forall|j: int| 0 <= j < out@.len() ==> out@[j] == spec_out_byte(self@, j),
            decreases end - i,
        {
            out.push(self.chunk_data[i]);
            i = i + 1;
        }
        proof {
            assert(out@ =~= spec_serialize(self@));
        }
        out
    }

    /// The sectors a partial write-out touches: every dirty sector below
    /// the kept sector count, in increasing order.
    pub fn dirty_sector_indices(&self) -> (r: Vec<usize>)
        requires
            self@.wf(),
        ensures
            forall|k: int|
                0 <= k < r@.len() ==> 0 <= #[trigger] r@[k] < spec_max_end(self@.headers)
                    && self@.dirty[r@[k] as int],
            forall|i: int|
                0 <= i < spec_max_end(self@.headers) && self@.dirty[i] ==> r@.contains(i as usize),
            forall|k1: int, k2: int| 0 <= k1 < k2 < r@.len() ==> r@[k1] < r@[k2],
    {
        let max_end = self.max_occupied_end();
        self.dirty_sectors.ones_below(max_end)
    }

    /// Forgets every dirty mark, once a write-out has landed.
    pub fn mark_clean(&mut self)
        ensures
            final(self)@ == (RegionModel {
                dirty: Seq::new(old(self)@.dirty.len(), |i: int| false),
                ..old(self)@
            }),
    {
        self.dirty_sectors.clear_all();
    }
}


/// A big-endian word is recovered from its four bytes.
proof fn lemma_be32_of_bytes(s: Seq<u8>, off: int, w: int)
    requires
        0 <= w < 0x100000000,
        0 <= off,
        off + 4 <= s.len(),
        s[off] == be_byte(w, 0),
        s[off + 1] == be_byte(w, 1),
        s[off + 2] == be_byte(w, 2),
        s[off + 3] == be_byte(w, 3),
    ensures
        be32(s, off) == w,
{
    vstd::arithmetic::div_mod::lemma_fundamental_div_mod(w, 0x1000000);
    vstd::arithmetic::div_mod::lemma_mod_bound(w, 0x1000000);
    vstd::arithmetic::div_mod::lemma_mod_bound(w, 0x100);
    vstd::arithmetic::div_mod::lemma_breakdown(w, 0x10000, 0x100);
    vstd::arithmetic::div_mod::lemma_breakdown(w, 0x100, 0x100);
    assert(w / 0x1000000 < 256) by (nonlinear_arith)
        requires
            0 <= w < 0x100000000,
    ;
    vstd::arithmetic::div_mod::lemma_mod_bound(w / 0x1000000, 256);
    vstd::arithmetic::div_mod::lemma_mod_bound(w / 0x10000, 256);
    vstd::arithmetic::div_mod::lemma_mod_bound(w / 0x100, 256);
    assert((w / 0x1000000) % 256 == w / 0x1000000) by (nonlinear_arith)
        requires
            0 <= w / 0x1000000 < 256,
    ;
    assert(0x10000 * 0x100 == 0x1000000 && 0x100 * 0x100 == 0x10000);
    assert(w % 0x1000000 == 0x10000 * ((w / 0x10000) % 0x100) + w % 0x10000);
    assert(w % 0x10000 == 0x100 * ((w / 0x100) % 0x100) + w % 0x100);
    assert(be32(s, off) == ((w / 0x1000000) % 256) * 0x1000000 + ((w / 0x10000) % 256) * 0x10000 + (
    (w / 0x100) % 256) * 0x100 + w % 256);
}

impl RegionModel {
    /// Every stored chunk would survive a reparse: its stored length
    /// counts at least one payload byte besides the codec byte, and its
    /// codec id is not the externally-stored escape.
    pub open spec fn parse_stable(self) -> bool {
        forall|s: int|
            0 <= s < 1024 && (#[trigger] self.headers[s]).address is Some ==> {
                let a = self.headers[s].address->0;
                self.meta_len_at(a) >= 2 && self.codec_at(a) < 128
            }
    }
}

/// Freeing a slot keeps the occupancy map matched to the headers, the
/// runs disjoint and the stored chunks sound: only the freed run's bits
/// clear, and no other slot claimed them.
pub proof fn lemma_free_preserves(m: RegionModel, slot: int)
    requires
        0 <= slot < 1024,
        m.wf(),
        m.occ_matches(),
        m.runs_disjoint(),
        m.payload_ok(),
    ensures
        model_free(m, slot).wf(),
        model_free(m, slot).occ_matches(),
        model_free(m, slot).runs_disjoint(),
        model_free(m, slot).payload_ok(),
        m.parse_stable() ==> model_free(m, slot).parse_stable(),
{
    let m2 = model_free(m, slot);
    match m.headers[slot].address {
        None => {},
        Some(a) => {
            assert(m2.headers[slot].address is None);
            assert(forall|s: int|
                0 <= s < 1024 && s != slot ==> m2.headers[s] == #[trigger] m.headers[s]);
            assert forall|i: int|
                0 <= i < m2.occ.len() implies m2.occ[i] == (exists|s: int|
                0 <= s < 1024 && (#[trigger] m2.headers[s]).covers(i)) by {
                if a.offset - 2 <= i < a.offset + a.len - 2 {
                    assert(!m2.occ[i]);
                    assert forall|s: int|
                        0 <= s < 1024 implies !(#[trigger] m2.headers[s]).covers(i) by {
                        if s != slot && m2.headers[s].covers(i) {
                            assert(m.headers[s].covers(i));
                            assert(m.headers[slot].covers(i));
                        }
                    }
                } else {
                    assert(m2.occ[i] == m.occ[i]);
                    if m.occ[i] {
                        let s = choose|s: int|
                            0 <= s < 1024 && (#[trigger] m.headers[s]).covers(i);
                        assert(!m.headers[slot].covers(i));
                        assert(s != slot);
                        assert(m2.headers[s].covers(i));
                    } else {
                        assert forall|s: int|
                            0 <= s < 1024 implies !(#[trigger] m2.headers[s]).covers(i) by {
                            assert(!m.headers[s].covers(i));
                            if s != slot {
                                assert(m2.headers[s] == m.headers[s]);
                            }
                        }
                    }
                }
            }
        },
    }
}

/// Deleting a chunk is stamping its slot's time and then freeing it; the
/// stamp touches no address, so every invariant carries over.
pub proof fn lemma_delete_preserves(m: RegionModel, slot: int, now: u32)
    requires
        0 <= slot < 1024,
        m.wf(),
        m.occ_matches(),
        m.runs_disjoint(),
        m.payload_ok(),
    ensures
        ({
            let stamped = RegionModel {
                headers: m.headers.update(
                    slot,
                    ChunkHeader { address: m.headers[slot].address, mtime: now },
                ),
                ..m
            };
            &&& model_free(stamped, slot).wf()
            &&& model_free(stamped, slot).occ_matches()
            &&& model_free(stamped, slot).runs_disjoint()
            &&& model_free(stamped, slot).payload_ok()
            &&& (m.parse_stable() ==> model_free(stamped, slot).parse_stable())
        }),
{
    let stamped = RegionModel {
        headers: m.headers.update(slot, ChunkHeader { address: m.headers[slot].address, mtime: now }),
        ..m
    };
    assert(forall|s: int, i: int|
        0 <= s < 1024 ==> (#[trigger] stamped.headers[s].covers(i)) == m.headers[s].covers(i));
    assert forall|i: int|
        0 <= i < stamped.occ.len() implies stamped.occ[i] == (exists|s: int|
        0 <= s < 1024 && (#[trigger] stamped.headers[s]).covers(i)) by {
        if m.occ[i] {
            let s = choose|s: int| 0 <= s < 1024 && (#[trigger] m.headers[s]).covers(i);
            assert(stamped.headers[s].covers(i));
        } else {
            assert forall|s: int|
                0 <= s < 1024 implies !(#[trigger] stamped.headers[s]).covers(i) by {
                assert(!m.headers[s].covers(i));
            }
        }
    }
    assert(m.parse_stable() ==> stamped.parse_stable()) by {
        if m.parse_stable() {
            assert forall|s: int|
                0 <= s < 1024 && (#[trigger] stamped.headers[s]).address is Some implies {
                let a = stamped.headers[s].address->0;
                stamped.meta_len_at(a) >= 2 && stamped.codec_at(a) < 128
            } by {
                assert(stamped.headers[s].address == m.headers[s].address);
            }
        }
    }
    lemma_free_preserves(stamped, slot);
}

/// Writing keeps the occupancy map matched, the runs disjoint and the
/// stored chunks sound: the new run is carved from free sectors, so no
/// other stored chunk's bytes are touched.
pub proof fn lemma_write_preserves(
    m: RegionModel,
    slot: int,
    data: Seq<u8>,
    ct: CompressionType,
    mtime: u32,
)
    requires
        0 <= slot < 1024,
        m.wf(),
        m.occ_matches(),
        m.runs_disjoint(),
        m.payload_ok(),
    ensures
        model_write(m, slot, data, ct, mtime).wf(),
        model_write(m, slot, data, ct, mtime).occ_matches(),
        model_write(m, slot, data, ct, mtime).runs_disjoint(),
        model_write(m, slot, data, ct, mtime).payload_ok(),
        m.parse_stable() && data.len() >= 1 && ct.encode_spec() < 128 ==> model_write(
            m,
            slot,
            data,
            ct,
            mtime,
        ).parse_stable(),
{
    lemma_free_preserves(m, slot);
    let m1 = model_free(m, slot);
    if data.len() >= MAX_CHUNK_LEN {
        return ;
    }
    let sl = SECTOR_LEN as int;
    let n = ceil_div(data.len() as int + 5, sl);
    lemma_ceil_bounds(data.len() as int + 5, sl);
    vstd::arithmetic::div_mod::lemma_div_is_ordered(data.len() as int + 5 + 4095, 1048575, 4096);
    assert(1048575int / 4096 == 255);
    assert(1 <= n <= 255);
    let st = first_fit(m1.occ, n);
    lemma_first_fit_props(m1.occ, n, 0);
    if st + n >= MAX_SECTORS {
        return ;
    }
    let w = model_place(m1, slot, data, ct, mtime, st, n);
    let base = st * sl;
    let run_end = base + n * sl;
    let sc2 = if st + n > m1.occ.len() {
        st + n
    } else {
        m1.occ.len() as int
    };
    assert(w == model_write(m, slot, data, ct, mtime));
    // no old run reaches into the new one
    assert forall|s: int, i: int|
        0 <= s < 1024 && st <= i < st + n implies !(#[trigger] m1.headers[s].covers(i)) by {
        if m1.headers[s].covers(i) {
            assert(m1.headers[s].addr_ok(m1.occ.len() as int));
            assert(i < m1.occ.len());
            assert(m1.occ[i]);
            assert(run_free(m1.occ, st, n));
        }
    }
    let newaddr = ChunkAddress { offset: (st + 2) as u32, len: n as u32 };
    assert(w.headers[slot].address == Some(newaddr));
    assert(forall|s: int| 0 <= s < 1024 && s != slot ==> w.headers[s] == #[trigger] m1.headers[s]);
    assert(forall|i: int| w.headers[slot].covers(i) == (st <= i < st + n));
    // sizes
    assert(w.occ.len() == sc2 && w.dirty.len() == sc2 && w.data.len() == sc2 * sl);
    assert(w.data.len() == SECTOR_LEN * w.occ.len()) by (nonlinear_arith)
        requires
            w.data.len() == sc2 * sl,
            w.occ.len() == sc2,
            sl == SECTOR_LEN as int,
    ;
    // addresses stay in bounds
    assert forall|s: int| 0 <= s < 1024 implies (#[trigger] w.headers[s]).addr_ok(sc2) by {
        if s != slot {
            assert(m1.headers[s].addr_ok(m1.occ.len() as int));
        }
    }
    // occupancy matches
    assert forall|i: int|
        0 <= i < w.occ.len() implies w.occ[i] == (exists|s: int|
        0 <= s < 1024 && (#[trigger] w.headers[s]).covers(i)) by {
        if st <= i < st + n {
            assert(w.occ[i]);
            assert(w.headers[slot].covers(i));
        } else {
            if i < m1.occ.len() {
                assert(w.occ[i] == m1.occ[i]);
                if m1.occ[i] {
                    let s = choose|s: int| 0 <= s < 1024 && (#[trigger] m1.headers[s]).covers(i);
                    assert(s != slot || m1.headers[slot].covers(i));
                    assert(w.headers[s].covers(i) || w.headers[slot].covers(i));
                } else {
                    assert forall|s: int|
                        0 <= s < 1024 implies !(#[trigger] w.headers[s]).covers(i) by {
                        if s != slot {
                            assert(!m1.headers[s].covers(i));
                        }
                    }
                }
            } else {
                assert(st <= i < st + n);
            }
        }
    }
    // runs disjoint
    assert forall|s1: int, s2: int, i: int|
        0 <= s1 < 1024 && 0 <= s2 < 1024 && #[trigger] w.headers[s1].covers(i)
            && #[trigger] w.headers[s2].covers(i) implies s1 == s2 by {
        if s1 != slot && s2 != slot {
            assert(m1.headers[s1].covers(i) && m1.headers[s2].covers(i));
        } else if s1 == slot && s2 != slot {
            assert(st <= i < st + n && m1.headers[s2].covers(i));
        } else if s2 == slot && s1 != slot {
            assert(st <= i < st + n && m1.headers[s1].covers(i));
        }
    }
    // the new chunk's stored bytes
    assert(w.data[base] == be_byte(data.len() as int + 1, 0) && w.data[base + 1] == be_byte(
        data.len() as int + 1,
        1,
    ) && w.data[base + 2] == be_byte(data.len() as int + 1, 2) && w.data[base + 3] == be_byte(
        data.len() as int + 1,
        3,
    ) && w.data[base + 4] == ct.encode_spec()) by {
        assert(base + 5 <= run_end <= w.data.len()) by (nonlinear_arith)
            requires
                base == st * sl,
                run_end == base + n * sl,
                n >= 1,
                sl == 4096,
                st >= 0,
                w.data.len() == sc2 * sl,
                sc2 >= st + n,
        ;
    }
    lemma_be32_of_bytes(w.data, base, data.len() as int + 1);
    assert(w.meta_len_at(newaddr) == data.len() as int + 1);
    assert(w.meta_len_at(newaddr) + 4 <= newaddr.len * sl);
    assert(w.codec_at(newaddr) == ct.encode_spec());
    // every other stored chunk's bytes are untouched
    assert forall|s: int|
        0 <= s < 1024 && s != slot && (#[trigger] w.headers[s]).address is Some implies {
        let a = w.headers[s].address->0;
        w.meta_len_at(a) == m1.meta_len_at(a) && w.codec_at(a) == m1.codec_at(a)
    } by {
        let a = w.headers[s].address->0;
        assert(m1.headers[s].address == Some(a));
        assert(m1.headers[s].addr_ok(m1.occ.len() as int));
        // the two sector runs are disjoint, so one lies wholly before the other
        assert(a.offset + a.len - 2 <= st || st + n <= a.offset - 2) by {
            if a.offset + a.len - 2 > st && st + n > a.offset - 2 {
                let j = if a.offset - 2 >= st {
                    a.offset - 2
                } else {
                    st
                };
                assert(m1.headers[s].covers(j as int));
                assert(st <= j < st + n);
            }
        }
        let bo = (a.offset - 2) * sl;
        assert forall|i: int| bo <= i < bo + 5 implies w.data[i] == m1.data[i] by {
            assert(bo + a.len * sl <= base || run_end <= bo) by (nonlinear_arith)
                requires
                    a.offset + a.len - 2 <= st || st + n <= a.offset - 2,
                    bo == (a.offset - 2) * sl,
                    base == st * sl,
                    run_end == base + n * sl,
                    sl == 4096,
                    a.offset >= 2,
                    st >= 0,
            ;
            assert(bo + 5 <= bo + a.len * sl) by (nonlinear_arith)
                requires
                    a.len >= 1,
                    sl == 4096,
                    bo >= 0,
            ;
            assert(bo + a.len * sl <= m1.data.len()) by (nonlinear_arith)
                requires
                    a.offset + a.len - 2 <= m1.occ.len(),
                    bo == (a.offset - 2) * sl,
                    m1.data.len() == sl * m1.occ.len(),
                    sl == 4096,
                    a.offset >= 2,
            ;
            assert(i < m1.data.len());
            assert(!(base <= i < run_end));
        }
    }
    assert(w.payload_ok());
    if m.parse_stable() && data.len() >= 1 && ct.encode_spec() < 128 {
        assert(w.parse_stable());
    }
}

/// Sector bookkeeping: with matched occupancy and disjoint runs, a
/// sector is occupied exactly when some header claims it, and that
/// header is unique. `model_write` and `model_free` preserve both sides,
/// so the property holds after any sequence of writes and deletes.
pub proof fn lemma_sector_bookkeeping(m: RegionModel)
    requires
        m.occ_matches(),
        m.runs_disjoint(),
    ensures
        forall|i: int|
            0 <= i < m.occ.len() && m.occ[i] ==> exists|s: int|
                0 <= s < 1024 && (#[trigger] m.headers[s]).covers(i),
        forall|i: int, s1: int, s2: int|
            0 <= i < m.occ.len() && 0 <= s1 < 1024 && 0 <= s2 < 1024
                && #[trigger] m.headers[s1].covers(i) && #[trigger] m.headers[s2].covers(i) ==> s1
                == s2,
        forall|i: int, s: int|
            0 <= i < m.occ.len() && 0 <= s < 1024 && #[trigger] m.headers[s].covers(i) ==> m.occ[i],
{
}


/// Shared facts about a full image: its length, its sector count, and
/// its payload being the kept prefix.
proof fn lemma_serialize_basics(m: RegionModel)
    requires
        m.wf(),
    ensures
        spec_serialize(m).len() == HEADER_LEN + spec_max_end(m.headers) * (SECTOR_LEN as int),
        spec_serialize(m).len() >= HEADER_LEN,
        spec_serialize(m).len() <= HEADER_LEN + SECTOR_LEN * MAX_SECTORS,
        0 <= spec_max_end(m.headers) <= m.occ.len(),
        spec_sector_count(spec_serialize(m)) == spec_max_end(m.headers),
        spec_payload(spec_serialize(m)) == m.data.subrange(
            0,
            spec_max_end(m.headers) * (SECTOR_LEN as int),
        ),
        forall|s: int|
            0 <= s < 1024 ==> (#[trigger] m.headers[s]).end_sector() <= spec_max_end(m.headers),
{
    let sl = SECTOR_LEN as int;
    let me = spec_max_end(m.headers);
    lemma_max_end_bounds(m.headers, 1024, m.occ.len() as int);
    let out = spec_serialize(m);
    assert(me * sl <= SECTOR_LEN * MAX_SECTORS) by (nonlinear_arith)
        requires
            0 <= me <= MAX_SECTORS,
            sl == SECTOR_LEN as int,
    ;
    assert(me * sl >= 0) by (nonlinear_arith)
        requires
            me >= 0,
            sl > 0,
    ;
    vstd::arithmetic::div_mod::lemma_mod_multiples_basic(me, sl);
    lemma_pad_exact(me * sl, me * sl);
    assert(spec_sector_count(out) == me) by (nonlinear_arith)
        requires
            me * sl == ceil_div(me * sl, sl) * sl,
            spec_sector_count(out) == ceil_div(me * sl, sl),
            sl > 0,
            me >= 0,
    ;
    let payload = spec_payload(out);
    assert(payload.len() == me * sl);
    assert forall|i: int| 0 <= i < me * sl implies payload[i] == m.data[i] by {
        assert(out[HEADER_LEN + i] == spec_out_byte(m, HEADER_LEN + i));
    }
    assert(me * sl <= m.data.len()) by (nonlinear_arith)
        requires
            me <= m.occ.len(),
            m.data.len() == SECTOR_LEN * m.occ.len(),
            sl == SECTOR_LEN as int,
    ;
    assert(payload =~= m.data.subrange(0, me * sl));
}

/// One slot of a full image parses back to the very header it was
/// written from, and never looks externally stored.
proof fn lemma_header_survives(m: RegionModel, s: int)
    requires
        m.wf(),
        m.payload_ok(),
        m.parse_stable(),
        0 <= s < 1024,
    ensures
        spec_header(spec_serialize(m), s) == m.headers[s],
        ({
            let pos = be32(spec_serialize(m), 4 * s);
            let off = pos / 256;
            let len = pos % 256;
            (2 <= off && 1 <= len && off + len - 2 <= spec_sector_count(spec_serialize(m)))
                ==> spec_payload(spec_serialize(m))[(off - 2) * (SECTOR_LEN as int) + 4] < 128
        }),
{
    let sl = SECTOR_LEN as int;
    let me = spec_max_end(m.headers);
    lemma_serialize_basics(m);
    let out = spec_serialize(m);
    let payload = spec_payload(out);
    let h = m.headers[s];
    assert(h.addr_ok(m.occ.len() as int));
    assert(h.end_sector() <= me);
    assert forall|k: int| 0 <= k < 4 implies (4 * s + #[trigger] (k + 0)) / 4 == s && (4 * s + k)
        % 4 == k && (4096 + 4 * s + k - 4096) / 4 == s && (4096 + 4 * s + k - 4096) % 4 == k by {
        assert((4 * s + k) / 4 == s && (4 * s + k) % 4 == k) by (nonlinear_arith)
            requires
                0 <= k < 4,
                s >= 0,
        ;
    }
    assert(4 * s + 3 < 4096 && 4096 + 4 * s + 3 < 8192 <= out.len());
    assert(out[4 * s] == spec_out_byte(m, 4 * s) && out[4 * s + 1] == spec_out_byte(m, 4 * s + 1)
        && out[4 * s + 2] == spec_out_byte(m, 4 * s + 2) && out[4 * s + 3] == spec_out_byte(
        m,
        4 * s + 3,
    ));
    assert(out[4096 + 4 * s] == be_byte(h.mtime as int, 0) && out[4096 + 4 * s + 1] == be_byte(
        h.mtime as int,
        1,
    ) && out[4096 + 4 * s + 2] == be_byte(h.mtime as int, 2) && out[4096 + 4 * s + 3] == be_byte(
        h.mtime as int,
        3,
    ));
    lemma_be32_of_bytes(out, 4096 + 4 * s, h.mtime as int);
    assert(be32(out, 4096 + 4 * s) == h.mtime);
    let pos = be32(out, 4 * s);
    match h.address {
        Some(a) => {
            let w = a.offset * 256 + a.len;
            assert(0 <= w < 0x100000000) by (nonlinear_arith)
                requires
                    w == a.offset * 256 + a.len,
                    2 <= a.offset <= 0xffffff,
                    1 <= a.len <= 255,
            ;
            lemma_be32_of_bytes(out, 4 * s, w as int);
            assert(pos == w);
            assert(pos / 256 == a.offset && pos % 256 == a.len) by (nonlinear_arith)
                requires
                    pos == a.offset * 256 + a.len,
                    0 <= a.len < 256,
                    a.offset >= 0,
            ;
            let bo = (a.offset - 2) * sl;
            assert(bo + 5 <= (a.offset + a.len - 2) * sl <= me * sl) by (nonlinear_arith)
                requires
                    bo == (a.offset - 2) * sl,
                    a.offset >= 2,
                    a.len >= 1,
                    a.offset + a.len - 2 <= me,
                    sl == 4096,
            ;
            assert(payload[bo] == m.data[bo] && payload[bo + 1] == m.data[bo + 1] && payload[bo + 2]
                == m.data[bo + 2] && payload[bo + 3] == m.data[bo + 3] && payload[bo + 4] == m.data[
            bo + 4]);
            assert(be32(payload, bo) == be32(m.data, bo));
            assert(m.meta_len_at(a) >= 2 && m.meta_len_at(a) + 4 <= a.len * sl);
            assert(spec_header(out, s).address == Some(a)) by {
                assert(2 <= pos / 256 && 1 <= pos % 256 && pos / 256 + pos % 256 - 2
                    <= spec_sector_count(out));
                assert(be32(spec_payload(out), (pos / 256 - 2) * sl) > 1);
                assert(be32(spec_payload(out), (pos / 256 - 2) * sl) + 4 <= (pos % 256) * sl);
            }
            assert(spec_header(out, s).mtime == h.mtime);
            assert(payload[bo + 4] == m.codec_at(a) && m.codec_at(a) < 128);
        },
        None => {
            lemma_be32_of_bytes(out, 4 * s, 0);
            assert(pos == 0);
            assert(pos / 256 == 0);
            assert(spec_header(out, s) == ChunkHeader { address: None, mtime: h.mtime });
        },
    }
}

/// Round trip: serializing a well-formed, reparse-stable region in full
/// and parsing the image back yields identical headers (address and
/// time) and byte-identical payload sectors; and the image is one the
/// parser accepts.
pub proof fn lemma_region_round_trip(m: RegionModel)
    requires
        m.wf(),
        m.payload_ok(),
        m.parse_stable(),
    ensures
        spec_serialize(m).len() >= HEADER_LEN,
        spec_serialize(m).len() <= HEADER_LEN + SECTOR_LEN * MAX_SECTORS,
        spec_no_external(spec_serialize(m)),
        model_parse(spec_serialize(m)).headers == m.headers,
        model_parse(spec_serialize(m)).data == m.data.subrange(
            0,
            spec_max_end(m.headers) * (SECTOR_LEN as int),
        ),
        m.occ_matches() ==> model_parse(spec_serialize(m)).occ == m.occ.subrange(
            0,
            spec_max_end(m.headers),
        ),
{
    let me = spec_max_end(m.headers);
    lemma_serialize_basics(m);
    let out = spec_serialize(m);
    assert forall|s: int| 0 <= s < 1024 implies spec_header(out, s) == #[trigger] m.headers[s] by {
        lemma_header_survives(m, s);
    }
    assert(model_parse(out).headers =~= m.headers);
    assert forall|s: int| 0 <= s < 1024 implies {
        let pos = #[trigger] be32(out, 4 * s);
        let off = pos / 256;
        let len = pos % 256;
        (2 <= off && 1 <= len && off + len - 2 <= spec_sector_count(out)) ==> spec_payload(out)[(
        off - 2) * (SECTOR_LEN as int) + 4] < 128
    } by {
        lemma_header_survives(m, s);
    }
    if m.occ_matches() {
        let headers2 = model_parse(out).headers;
        assert forall|i: int|
            0 <= i < me implies model_parse(out).occ[i] == m.occ.subrange(0, me)[i] by {
            assert(i < m.occ.len());
            if m.occ[i] {
                let s = choose|s: int| 0 <= s < 1024 && (#[trigger] m.headers[s]).covers(i);
                assert(headers2[s].covers(i));
            } else {
                assert forall|s: int| 0 <= s < 1024 implies !(#[trigger] headers2[s]).covers(
                    i,
                ) by {
                    assert(headers2[s] == m.headers[s]);
                    assert(!m.headers[s].covers(i));
                }
            }
        }
        assert(model_parse(out).occ =~= m.occ.subrange(0, me));
    }
}


/// Whether some slot whose table entry lies within the file stores an
/// externally-kept chunk. The engine cannot handle such images, so
/// callers test this before parsing one.
pub fn has_external_chunk(data: &[u8]) -> (r: bool)
    requires
        data@.len() >= HEADER_LEN,
        data@.len() <= HEADER_LEN + SECTOR_LEN * MAX_SECTORS,
    ensures
        r == !spec_no_external(data@),
{
    let plen = data.len() - HEADER_LEN;
    let sc = (plen + (SECTOR_LEN - 1)) / SECTOR_LEN;
    proof {
        assert(sc == spec_sector_count(data@));
        if plen > 0 {
            lemma_ceil_bounds(plen as int, SECTOR_LEN as int);
        }
    }
    let mut idx: usize = 0;
    while idx < 1024
        invariant
            idx <= 1024,
            data@.len() >= HEADER_LEN,
            data@.len() <= usize::MAX,
            plen == data@.len() - HEADER_LEN,
            sc == spec_sector_count(data@),
            plen > 0 ==> (sc - 1) * (SECTOR_LEN as int) < plen,
            plen == 0 ==> sc == 0,
            forall|s: int|
                0 <= s < idx ==> {
                    let pos = #[trigger] be32(data@, 4 * s);
                    let off = pos / 256;
                    let len = pos % 256;
                    (2 <= off && 1 <= len && off + len - 2 <= spec_sector_count(data@))
                        ==> spec_payload(data@)[(off - 2) * (SECTOR_LEN as int) + 4] < 128
                },
        decreases 1024 - idx,
    {
        let pos = read_big_endian(data, 4 * idx);
        let off = pos >> 8;
        let len = pos & 0xff;
        proof {
            assert(off == pos / 256 && len == pos % 256 && off <= 0xffffff && len < 256)
                by (bit_vector)
                requires
                    off == pos >> 8,
                    len == pos & 0xff,
            ;
        }
        if off >= 2 && len >= 1 && (off as u64) + (len as u64) - 2 <= sc as u64 {
            proof {
                assert(((off - 2) as int) * (SECTOR_LEN as int) < plen) by (nonlinear_arith)
                    requires
                        off >= 2,
                        len >= 1,
                        off + len - 2 <= sc,
                        plen > 0 ==> (sc - 1) * (SECTOR_LEN as int) < plen,
                        plen == 0 ==> sc == 0,
                ;
            }
            let i = ((off - 2) as usize) * SECTOR_LEN + 4;
            let b = if i < plen {
                data[HEADER_LEN + i]
            } else {
                0
            };
            proof {
                assert(((off - 2) as int) * (SECTOR_LEN as int) + 4 < sc * (SECTOR_LEN as int))
                    by (nonlinear_arith)
                    requires
                        off >= 2,
                        len >= 1,
                        off + len - 2 <= sc,
                        SECTOR_LEN == 4096,
                ;
                assert(spec_payload(data@)[i as int] == b);
            }
            if b >= 128 {
                return true;
            }
        }
        idx = idx + 1;
    }
    false
}

/// An owned copy of one chunk: its coordinates, time, codec and payload.
pub struct Chunk {
    pub x: u8,
    pub z: u8,
    pub mtime: u32,
    pub compression_type: CompressionType,
    pub data: Vec<u8>,
}

} // verus!
