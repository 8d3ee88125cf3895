//! Bounds-checked raw decode of the parts of an OLE compound file that a
//! happy-path reader hides: the header, the FAT and mini-FAT sector chains,
//! and the whole 128-byte directory-entry array, orphaned entries included.
//!
//! Every read of the input goes through a checked helper; a field whose bytes
//! lie outside the buffer reads as zero, and every chain walk is capped and
//! loop-guarded.
use vstd::prelude::*;
use vstd::arithmetic::power2::pow2;
use vstd::arithmetic::power2::lemma_pow2_unfold;
use crate::layout::{
    BYTE_ORDER, FIRST_DIFAT_SECTOR, FIRST_DIR_SECTOR, FIRST_MINIFAT_SECTOR, HEADER_SIZE,
    MAJOR_VERSION, MINI_SECTOR_SHIFT, MINI_STREAM_CUTOFF, NUM_DIFAT_SECTORS, OLECF_SIGNATURE,
    SECTOR_SHIFT, SECTOR_SHIFT_V3, DIFAT_HEADER_COUNT, DIFAT_HEADER_OFFSET, ENDOFCHAIN, MAX_CHAIN_STEPS, MAX_DIR_ENTRIES,
    MAX_SECTORS, CHILD, CLSID, COLOR, CREATE_TIME, DIR_ENTRY_SIZE, LEFT_SIBLING, MAXREGSECT, MODIFY_TIME, NAME,
    NAME_LEN, OBJECT_TYPE, RIGHT_SIBLING, START_SECTOR, STATE_BITS, STREAM_SIZE,
};
use crate::text::{spec_utf16_lossy, utf16_lossy};

verus! {

// ---------------------------------------------------------------------------
// Little-endian field reads
// ---------------------------------------------------------------------------

/// The little-endian `u16` at `off` in `d`, or zero when the two bytes are not
/// all inside `d`.
pub open spec fn spec_le16(d: Seq<u8>, off: int) -> u16 {
    if 0 <= off && off + 2 <= d.len() {
        (d[off] + 256 * d[off + 1]) as u16
    } else {
        0
    }
}

/// The little-endian `u32` at `off` in `d`, or zero when the four bytes are not
/// all inside `d`.
pub open spec fn spec_le32(d: Seq<u8>, off: int) -> u32 {
    if 0 <= off && off + 4 <= d.len() {
        (d[off] + 256 * d[off + 1] + 65536 * d[off + 2] + 16777216 * d[off + 3]) as u32
    } else {
        0
    }
}

/// The little-endian `u64` at `off` in `d`, or zero when the eight bytes are
/// not all inside `d`.
pub open spec fn spec_le64(d: Seq<u8>, off: int) -> u64 {
    if 0 <= off && off + 8 <= d.len() {
        (d[off] + 0x100 * d[off + 1] + 0x1_0000 * d[off + 2] + 0x100_0000 * d[off + 3]
            + 0x1_0000_0000 * d[off + 4] + 0x100_0000_0000 * d[off + 5] + 0x1_0000_0000_0000
            * d[off + 6] + 0x100_0000_0000_0000 * d[off + 7]) as u64
    } else {
        0
    }
}

/// Reads the little-endian `u16` at `off`, or zero when it runs past the end.
pub fn le_u16(data: &[u8], off: usize) -> (v: u16)
    ensures
        v == spec_le16(data@, off as int),
{
    if off <= data.len() && data.len() - off >= 2 {
        let b0 = data[off] as u16;
        let b1 = data[off + 1] as u16;
        b0 + 256 * b1
    } else {
        0
    }
}

/// Reads the little-endian `u32` at `off`, or zero when it runs past the end.
pub fn le_u32(data: &[u8], off: usize) -> (v: u32)
    ensures
        v == spec_le32(data@, off as int),
{
    if off <= data.len() && data.len() - off >= 4 {
        let b0 = data[off] as u32;
        let b1 = data[off + 1] as u32;
        let b2 = data[off + 2] as u32;
        let b3 = data[off + 3] as u32;
        b0 + 256 * b1 + 65536 * b2 + 16777216 * b3
    } else {
        0
    }
}

/// Reads the little-endian `u64` at `off`, or zero when it runs past the end.
pub fn le_u64(data: &[u8], off: usize) -> (v: u64)
    ensures
        v == spec_le64(data@, off as int),
{
    if off <= data.len() && data.len() - off >= 8 {
        let b0 = data[off] as u64;
        let b1 = data[off + 1] as u64;
        let b2 = data[off + 2] as u64;
        let b3 = data[off + 3] as u64;
        let b4 = data[off + 4] as u64;
        let b5 = data[off + 5] as u64;
        let b6 = data[off + 6] as u64;
        let b7 = data[off + 7] as u64;
        b0 + 0x100 * b1 + 0x1_0000 * b2 + 0x100_0000 * b3 + 0x1_0000_0000 * b4 + 0x100_0000_0000
            * b5 + 0x1_0000_0000_0000 * b6 + 0x100_0000_0000_0000 * b7
    } else {
        0
    }
}

// ---------------------------------------------------------------------------
// Sector geometry
// ---------------------------------------------------------------------------

/// `(sid + 1) * 2^sector_shift`, the byte offset of regular sector `sid`, when
/// it fits in a `u64`; `None` when it does not.
pub open spec fn spec_sector_offset(sid: u32, sector_shift: u16) -> Option<u64> {
    let v = (sid + 1) * pow2(sector_shift as nat);
    if v <= u64::MAX {
        Some(v as u64)
    } else {
        None
    }
}

proof fn lemma_scaled_pow2_grows(base: nat, i: nat, n: nat)
    requires
        i <= n,
    ensures
        base * pow2(i) <= base * pow2(n),
        i < n ==> base * pow2(i) * 2 <= base * pow2(n),
    decreases n - i,
{
    if i < n {
        lemma_scaled_pow2_grows(base, i + 1, n);
        lemma_pow2_unfold(i + 1);
        assert(pow2(i + 1) == 2 * pow2(i));
        assert(base * pow2(i + 1) == base * pow2(i) * 2) by (nonlinear_arith)
            requires
                pow2(i + 1) == 2 * pow2(i),
        ;
        assert(base * pow2(i) <= base * pow2(i) * 2) by (nonlinear_arith);
    }
}

/// Byte offset of regular sector `sid`: `(sid + 1) << sector_shift`.
/// Returns `None` when that offset overflows a `u64`, which includes every
/// shift of 64 or more.
pub fn sector_offset(sid: u32, sector_shift: u16) -> (r: Option<u64>)
    ensures
        r == spec_sector_offset(sid, sector_shift),
{
    let mut v: u64 = sid as u64 + 1;
    let mut i: u16 = 0;
    proof {
        assert(pow2(0) == 1) by {
            vstd::arithmetic::power2::lemma2_to64();
        }
    }
    while i < sector_shift
        invariant
            i <= sector_shift,
            v as nat == (sid + 1) * pow2(i as nat),
        decreases sector_shift - i,
    {
        proof {
            lemma_pow2_unfold((i + 1) as nat);
            assert((sid + 1) * pow2((i + 1) as nat) == (sid + 1) * pow2(i as nat) * 2)
                by (nonlinear_arith)
                requires
                    pow2((i + 1) as nat) == 2 * pow2(i as nat),
            ;
            lemma_scaled_pow2_grows((sid + 1) as nat, i as nat, sector_shift as nat);
        }
        if v > u64::MAX / 2 {
            return None;
        }
        v = v * 2;
        i = i + 1;
    }
    Some(v)
}

/// The `ss`-byte sector `sid` of `d` (it starts at `(sid + 1) * ss`), when it
/// lies wholly inside `d`.
pub open spec fn spec_sector(d: Seq<u8>, ss: int, sid: int) -> Option<Seq<u8>> {
    let start = (sid + 1) * ss;
    if 0 <= sid && 0 <= ss && start + ss <= d.len() {
        Some(d.subrange(start, start + ss))
    } else {
        None
    }
}

/// The bytes of regular sector `sid`, or `None` when it is not wholly inside
/// `data`.
pub fn sector_slice(data: &[u8], sector_size: usize, sid: u32) -> (r: Option<&[u8]>)
    ensures
        r matches Some(s) ==> spec_sector(data@, sector_size as int, sid as int) == Some(s@),
        r is None ==> spec_sector(data@, sector_size as int, sid as int) is None,
{
    let len = data.len();
    let start = (sid as u64 + 1).checked_mul(sector_size as u64);
    match start {
        None => {
            proof {
                assert((sid as u64 + 1) * (sector_size as u64) > u64::MAX);
                assert(data@.len() == len);
                assert(usize::MAX <= u64::MAX);
            }
            None
        },
        Some(start) => {
            if start <= data.len() as u64 && (data.len() as u64) - start >= sector_size as u64 {
                let s = start as usize;
                Some(vstd::slice::slice_subrange(data, s, s + sector_size))
            } else {
                None
            }
        },
    }
}

// ---------------------------------------------------------------------------
// Directory entries
// ---------------------------------------------------------------------------

/// A decoded 128-byte directory entry. Every field is read with bounds checks;
/// a truncated entry yields zeroed / empty fields rather than a panic.
#[derive(Debug, Clone, PartialEq, Eq)]
pub struct DirEntry {
    /// Index of this entry in the directory array (its stream id / SID).
    pub sid: u32,
    /// UTF-16LE name, lossily decoded and trimmed at the declared name length.
    pub name: String,
    /// Raw object-type byte (`0x00`/`0x01`/`0x02`/`0x05`).
    pub object_type: u8,
    /// Raw colour byte (`0x00` red / `0x01` black).
    pub color: u8,
    /// Left-sibling SID, or `NOSTREAM`.
    pub left: u32,
    /// Right-sibling SID, or `NOSTREAM`.
    pub right: u32,
    /// Child SID (storages only), or `NOSTREAM`.
    pub child: u32,
    /// 16-byte class id, verbatim.
    pub clsid: [u8; 16],
    /// User-defined state bits.
    pub state_bits: u32,
    /// Creation FILETIME (raw `u64`).
    pub create_time: u64,
    /// Modification FILETIME (raw `u64`).
    pub modify_time: u64,
    /// Starting sector id of the entry's stream (or mini-stream for the root).
    pub start_sector: u32,
    /// Declared stream size in bytes.
    pub stream_size: u64,
}

/// A directory entry as a mathematical value: the name as characters and the
/// class id as a byte sequence.
pub struct DirEntryView {
    pub sid: u32,
    pub name: Seq<char>,
    pub object_type: u8,
    pub color: u8,
    pub left: u32,
    pub right: u32,
    pub child: u32,
    pub clsid: Seq<u8>,
    pub state_bits: u32,
    pub create_time: u64,
    pub modify_time: u64,
    pub start_sector: u32,
    pub stream_size: u64,
}

impl View for DirEntry {
    type V = DirEntryView;

    open spec fn view(&self) -> DirEntryView {
        DirEntryView {
            sid: self.sid,
            name: self.name@,
            object_type: self.object_type,
            color: self.color,
            left: self.left,
            right: self.right,
            child: self.child,
            clsid: self.clsid@,
            state_bits: self.state_bits,
            create_time: self.create_time,
            modify_time: self.modify_time,
            start_sector: self.start_sector,
            stream_size: self.stream_size,
        }
    }
}

/// Object types `0x01` (storage), `0x02` (stream) and `0x05` (root storage)
/// mark a live slot; anything else is unallocated.
pub open spec fn spec_is_allocated(object_type: u8) -> bool {
    object_type == 0x01 || object_type == 0x02 || object_type == 0x05
}

impl DirEntry {
    /// True if this entry's object type marks it as a live stream or storage
    /// (`0x01`/`0x02`/`0x05`) rather than an unallocated `0x00` slot.
    pub fn is_allocated(&self) -> (r: bool)
        ensures
            r == spec_is_allocated(self.object_type),
    {
        self.object_type == 0x01 || self.object_type == 0x02 || self.object_type == 0x05
    }

    /// True for a stream object (`0x02`).
    pub fn is_stream(&self) -> (r: bool)
        ensures
            r == (self.object_type == 0x02),
    {
        self.object_type == 0x02
    }
}

/// The byte at `off`, or zero past the end.
pub open spec fn spec_byte(d: Seq<u8>, off: int) -> u8 {
    if 0 <= off < d.len() {
        d[off]
    } else {
        0
    }
}

/// The number of UTF-16 code units of an entry's name: the declared byte
/// length (which counts the terminating NUL) clamped to the 64-byte field,
/// halved, less the terminator.
pub open spec fn spec_name_unit_count(declared_len: int) -> int {
    let byte_len = if declared_len < 64 {
        declared_len
    } else {
        64
    };
    let chars = byte_len / 2;
    if chars > 0 {
        chars - 1
    } else {
        0
    }
}

/// The name's code units: the first `spec_name_unit_count` little-endian `u16`s
/// of the name field.
pub open spec fn spec_name_units(raw: Seq<u8>, declared_len: int) -> Seq<u16> {
    Seq::new(
        spec_name_unit_count(declared_len) as nat,
        |i: int| spec_le16(raw, NAME as int + 2 * i),
    )
}

/// The class id bytes of an entry, or sixteen zeros when the field is cut off.
pub open spec fn spec_clsid(raw: Seq<u8>) -> Seq<u8> {
    if CLSID + 16 <= raw.len() {
        raw.subrange(CLSID as int, CLSID + 16)
    } else {
        Seq::new(16, |i: int| 0u8)
    }
}

/// The directory entry that the bytes `raw` decode to, as entry number `sid`.
pub open spec fn spec_dir_entry(raw: Seq<u8>, sid: u32) -> DirEntryView {
    DirEntryView {
        sid: sid,
        name: spec_utf16_lossy(spec_name_units(raw, spec_le16(raw, NAME_LEN as int) as int)),
        object_type: spec_byte(raw, OBJECT_TYPE as int),
        color: spec_byte(raw, COLOR as int),
        left: spec_le32(raw, LEFT_SIBLING as int),
        right: spec_le32(raw, RIGHT_SIBLING as int),
        child: spec_le32(raw, CHILD as int),
        clsid: spec_clsid(raw),
        state_bits: spec_le32(raw, STATE_BITS as int),
        create_time: spec_le64(raw, CREATE_TIME as int),
        modify_time: spec_le64(raw, MODIFY_TIME as int),
        start_sector: spec_le32(raw, START_SECTOR as int),
        stream_size: spec_le64(raw, STREAM_SIZE as int),
    }
}

/// Lossily decodes an entry's UTF-16LE name, honoring the declared byte length
/// (which includes the terminating NUL) but never trusting it past 64 bytes.
fn decode_entry_name(raw: &[u8], declared_len: usize) -> (name: String)
    ensures
        name@ == spec_utf16_lossy(spec_name_units(raw@, declared_len as int)),
{
    let byte_len = if declared_len < NAME_LEN {
        declared_len
    } else {
        NAME_LEN
    };
    let chars = byte_len / 2;
    let chars = if chars > 0 {
        chars - 1
    } else {
        0
    };
    let mut units: Vec<u16> = Vec::with_capacity(chars);
    for i in 0..chars
        invariant
            chars == spec_name_unit_count(declared_len as int),
            chars <= 32,
            units@ =~= spec_name_units(raw@, declared_len as int).take(i as int),
    {
        units.push(le_u16(raw, NAME + i * 2));
    }
    assert(units@ =~= spec_name_units(raw@, declared_len as int));
    utf16_lossy(units.as_slice())
}

/// Decodes one 128-byte directory entry as entry number `sid`. Every field read
/// goes through a bounds-checked helper.
fn parse_dir_entry(raw: &[u8], sid: u32) -> (e: DirEntry)
    ensures
        e@ == spec_dir_entry(raw@, sid),
{
    let name_len = le_u16(raw, NAME_LEN) as usize;
    let name = decode_entry_name(raw, name_len);

    let mut clsid = [0u8; 16];
    if raw.len() >= CLSID + 16 {
        for i in 0..16
            invariant
                raw@.len() >= CLSID + 16,
                forall|j: int| 0 <= j < i ==> clsid@[j] == raw@[CLSID + j],
                forall|j: int| i <= j < 16 ==> clsid@[j] == 0,
        {
            clsid[i] = raw[CLSID + i];
        }
    }
    proof {
        assert(clsid@ =~= spec_clsid(raw@));
    }
    let object_type = if raw.len() > OBJECT_TYPE {
        raw[OBJECT_TYPE]
    } else {
        0
    };
    let color = if raw.len() > COLOR {
        raw[COLOR]
    } else {
        0
    };
    DirEntry {
        sid,
        name,
        object_type,
        color,
        left: le_u32(raw, LEFT_SIBLING),
        right: le_u32(raw, RIGHT_SIBLING),
        child: le_u32(raw, CHILD),
        clsid,
        state_bits: le_u32(raw, STATE_BITS),
        create_time: le_u64(raw, CREATE_TIME),
        modify_time: le_u64(raw, MODIFY_TIME),
        start_sector: le_u32(raw, START_SECTOR),
        stream_size: le_u64(raw, STREAM_SIZE),
    }
}


// ---------------------------------------------------------------------------
// Sequences of sector words and chains
// ---------------------------------------------------------------------------

/// The first `n` little-endian `u32` words of `sec`.
pub open spec fn spec_words(sec: Seq<u8>, n: int) -> Seq<u32> {
    Seq::new(n as nat, |i: int| spec_le32(sec, 4 * i))
}

/// The regular sector ids (`<= MAXREGSECT`) of `s`, in order.
pub open spec fn spec_keep_regular(s: Seq<u32>) -> Seq<u32>
    decreases s.len(),
{
    if s.len() == 0 {
        Seq::empty()
    } else {
        let p = spec_keep_regular(s.drop_last());
        if s.last() <= MAXREGSECT {
            p.push(s.last())
        } else {
            p
        }
    }
}

proof fn lemma_keep_regular_push(s: Seq<u32>, x: u32)
    ensures
        spec_keep_regular(s.push(x)) == (if x <= MAXREGSECT {
            spec_keep_regular(s).push(x)
        } else {
            spec_keep_regular(s)
        }),
{
    assert(s.push(x).drop_last() =~= s);
}

/// The concatenation, in order, of `f(id)` over the ids of `ids`.
pub open spec fn concat_map<A>(ids: Seq<u32>, f: spec_fn(u32) -> Seq<A>) -> Seq<A>
    decreases ids.len(),
{
    if ids.len() == 0 {
        Seq::empty()
    } else {
        concat_map(ids.drop_last(), f) + f(ids.last())
    }
}

pub(crate) proof fn lemma_concat_map_append<A>(a: Seq<u32>, b: Seq<u32>, f: spec_fn(u32) -> Seq<A>)
    ensures
        concat_map(a + b, f) == concat_map(a, f) + concat_map(b, f),
    decreases b.len(),
{
    if b.len() == 0 {
        assert(a + b =~= a);
        assert(concat_map(a, f) + concat_map(b, f) =~= concat_map(a, f));
    } else {
        assert((a + b).drop_last() =~= a + b.drop_last());
        lemma_concat_map_append(a, b.drop_last(), f);
        assert(concat_map(a + b, f) =~= concat_map(a, f) + concat_map(b, f));
    }
}

proof fn lemma_concat_map_push<A>(a: Seq<u32>, x: u32, f: spec_fn(u32) -> Seq<A>)
    ensures
        concat_map(a.push(x), f) == concat_map(a, f) + f(x),
{
    assert(a.push(x).drop_last() =~= a);
}

/// `s`, cut down to its first `cap` items when it is longer.
pub open spec fn spec_cap<A>(s: Seq<A>, cap: int) -> Seq<A> {
    if s.len() <= cap {
        s
    } else {
        s.take(cap)
    }
}

/// A prefix `p` of `s` that reached `cap` items is `spec_cap(s, cap)`.
proof fn lemma_cap_of_prefix<A>(p: Seq<A>, s: Seq<A>, cap: int)
    requires
        p.len() == cap,
        p.len() <= s.len(),
        s.take(p.len() as int) == p,
    ensures
        spec_cap(s, cap) == p,
{
    if s.len() == cap {
        assert(s =~= s.take(cap));
    }
}

/// The words of regular sector `sid`: `ss / 4` of them, or none when the
/// sector is not wholly inside `d`.
pub open spec fn spec_sector_words(d: Seq<u8>, ss: int, sid: u32) -> Seq<u32> {
    match spec_sector(d, ss, sid as int) {
        Some(sec) => spec_words(sec, ss / 4),
        None => Seq::empty(),
    }
}

/// The FAT-sector ids listed in the 109 header DIFAT slots.
pub open spec fn spec_header_fat_ids(d: Seq<u8>) -> Seq<u32> {
    spec_keep_regular(
        Seq::new(DIFAT_HEADER_COUNT as nat, |i: int| spec_le32(d, DIFAT_HEADER_OFFSET + 4 * i)),
    )
}

/// The FAT-sector ids gathered along the DIFAT-sector chain from `sid`, after
/// `steps` DIFAT sectors, appended to `acc`. Each DIFAT sector contributes the
/// regular ids among its first `ss / 4 - 1` words; its last word names the next
/// DIFAT sector. The walk stops at a marker id, at a sector outside the file,
/// after `MAX_SECTORS` sectors, or once more than `MAX_SECTORS` ids are held.
pub open spec fn spec_difat_walk(d: Seq<u8>, ss: int, sid: u32, steps: int, acc: Seq<u32>) -> Seq<
    u32,
>
    decreases MAX_SECTORS - steps,
{
    if sid <= MAXREGSECT && 0 <= steps < MAX_SECTORS {
        match spec_sector(d, ss, sid as int) {
            None => acc,
            Some(sec) => {
                let e = ss / 4;
                let acc2 = acc + spec_keep_regular(spec_words(sec, e - 1));
                if acc2.len() > MAX_SECTORS {
                    acc2
                } else {
                    spec_difat_walk(d, ss, spec_le32(sec, (e - 1) * 4), steps + 1, acc2)
                }
            },
        }
    } else {
        acc
    }
}

/// Every FAT-sector id the DIFAT names: the header slots, then the DIFAT chain.
pub open spec fn spec_fat_ids(d: Seq<u8>, ss: int, first_difat_sector: u32) -> Seq<u32> {
    spec_difat_walk(d, ss, first_difat_sector, 0, spec_header_fat_ids(d))
}

/// The FAT: the words of every FAT sector the DIFAT names, concatenated,
/// capped at `MAX_SECTORS` slots.
pub open spec fn spec_fat(d: Seq<u8>, ss: int, first_difat_sector: u32) -> Seq<u32> {
    spec_cap(
        concat_map(spec_fat_ids(d, ss, first_difat_sector), |sid: u32| spec_sector_words(d, ss, sid)),
        MAX_SECTORS as int,
    )
}

/// A sector size the decoder can produce: a power of two from 512 to 1 MiB.
pub open spec fn valid_sector_size(ss: int) -> bool {
    512 <= ss <= 1048576 && ss % 128 == 0
}

/// Gathers every FAT-sector id the DIFAT lists: the 109 in-header slots, then
/// the DIFAT-sector chain from `first_difat_sector`, keeping the regular ids.
/// The chain walk is bounded by `MAX_SECTORS` steps and ids.
pub(crate) fn read_fat_sector_ids(data: &[u8], sector_size: usize, first_difat_sector: u32) -> (ids:
    Vec<u32>)
    requires
        valid_sector_size(sector_size as int),
    ensures
        ids@ == spec_fat_ids(data@, sector_size as int, first_difat_sector),
{
    let ghost d = data@;
    let ghost ss = sector_size as int;
    let entries_per_sector = sector_size / 4;
    let mut fat_sector_ids: Vec<u32> = Vec::new();

    // 109 in-header DIFAT entries.
    let ghost slots = Seq::new(
        DIFAT_HEADER_COUNT as nat,
        |i: int| spec_le32(d, DIFAT_HEADER_OFFSET + 4 * i),
    );
    for i in 0..DIFAT_HEADER_COUNT
        invariant
            d == data@,
            slots == Seq::new(
                DIFAT_HEADER_COUNT as nat,
                |i: int| spec_le32(d, DIFAT_HEADER_OFFSET + 4 * i),
            ),
            fat_sector_ids@ == spec_keep_regular(slots.take(i as int)),
            fat_sector_ids@.len() <= i,
    {
        let sid = le_u32(data, DIFAT_HEADER_OFFSET + i * 4);
        proof {
            assert(slots.take(i + 1) =~= slots.take(i as int).push(sid));
            lemma_keep_regular_push(slots.take(i as int), sid);
        }
        if sid <= MAXREGSECT {
            fat_sector_ids.push(sid);
        }
    }
    assert(slots.take(DIFAT_HEADER_COUNT as int) =~= slots);

    // DIFAT-sector chain: each DIFAT sector holds (entries_per_sector - 1) FAT
    // sector ids plus a trailing next-DIFAT-sector pointer.
    let mut difat_sid = first_difat_sector;
    let mut steps = 0usize;
    loop
        invariant_except_break
            fat_sector_ids@.len() <= MAX_SECTORS,
            spec_fat_ids(d, ss, first_difat_sector) == spec_difat_walk(
                d,
                ss,
                difat_sid,
                steps as int,
                fat_sector_ids@,
            ),
        invariant
            d == data@,
            ss == sector_size,
            valid_sector_size(ss),
            entries_per_sector == ss / 4,
            steps <= MAX_SECTORS,
        ensures
            fat_sector_ids@ == spec_fat_ids(d, ss, first_difat_sector),
        decreases MAX_SECTORS - steps,
    {
        if !(difat_sid <= MAXREGSECT && steps < MAX_SECTORS && steps < MAX_CHAIN_STEPS) {
            break;
        }
        let sector = match sector_slice(data, sector_size, difat_sid) {
            Some(sector) => sector,
            None => {
                break;
            },
        };
        let ghost acc = fat_sector_ids@;
        let ghost words = spec_words(sector@, ss / 4 - 1);
        for i in 0..(entries_per_sector - 1)
            invariant
                entries_per_sector == ss / 4,
                valid_sector_size(ss),
                sector@.len() == ss,
                words == spec_words(sector@, ss / 4 - 1),
                acc.len() <= MAX_SECTORS,
                fat_sector_ids@ == acc + spec_keep_regular(words.take(i as int)),
                fat_sector_ids@.len() <= acc.len() + i,
        {
            let sid = le_u32(sector, i * 4);
            proof {
                assert(words.take(i + 1) =~= words.take(i as int).push(sid));
                lemma_keep_regular_push(words.take(i as int), sid);
            }
            if sid <= MAXREGSECT {
                fat_sector_ids.push(sid);
            }
            assert(fat_sector_ids@ =~= acc + spec_keep_regular(words.take(i + 1)));
        }
        assert(words.take(ss / 4 - 1) =~= words);
        if fat_sector_ids.len() > MAX_SECTORS {
            break;
        }
        difat_sid = le_u32(sector, (entries_per_sector - 1) * 4);
        steps += 1;
    }

    fat_sector_ids
}

/// Assembles the FAT by following the DIFAT: the 109 in-header slots, then any
/// DIFAT-sector chain. Each referenced FAT sector contributes `sector_size / 4`
/// next-pointers. Bounded by `MAX_SECTORS`.
fn read_fat(data: &[u8], sector_size: usize, first_difat_sector: u32) -> (fat: Vec<u32>)
    requires
        valid_sector_size(sector_size as int),
    ensures
        fat@ == spec_fat(data@, sector_size as int, first_difat_sector),
{
    let ghost d = data@;
    let ghost ss = sector_size as int;
    let entries_per_sector = sector_size / 4;
    let fat_sector_ids = read_fat_sector_ids(data, sector_size, first_difat_sector);

    // Concatenate the FAT sectors into the full next-pointer table.
    let ghost ids = fat_sector_ids@;
    let ghost f = |sid: u32| spec_sector_words(d, ss, sid);
    let ghost full = concat_map(ids, f);
    let mut fat: Vec<u32> = Vec::new();
    for k in 0..fat_sector_ids.len()
        invariant
            d == data@,
            ss == sector_size,
            valid_sector_size(ss),
            entries_per_sector == ss / 4,
            ids == fat_sector_ids@,
            f == (|sid: u32| spec_sector_words(d, ss, sid)),
            full == concat_map(ids, f),
            ids == spec_fat_ids(d, ss, first_difat_sector),
            fat@ == concat_map(ids.take(k as int), f),
            fat@.len() < MAX_SECTORS,
    {
        let sid = fat_sector_ids[k];
        proof {
            assert(ids.take(k + 1) =~= ids.take(k as int).push(sid));
            lemma_concat_map_push(ids.take(k as int), sid, f);
        }
        match sector_slice(data, sector_size, sid) {
            None => {
                assert(f(sid) =~= Seq::<u32>::empty());
                assert(fat@ =~= concat_map(ids.take(k + 1), f));
            },
            Some(sector) => {
                let ghost prefix = fat@;
                let ghost words = spec_words(sector@, ss / 4);
                assert(f(sid) == words);
                for i in 0..entries_per_sector
                    invariant
                        d == data@,
                        ss == sector_size,
                        f == (|sid: u32| spec_sector_words(d, ss, sid)),
                        entries_per_sector == ss / 4,
                        sector@.len() == ss,
                        words == spec_words(sector@, ss / 4),
                        fat@ == prefix + words.take(i as int),
                        fat@.len() < MAX_SECTORS,
                        prefix == concat_map(ids.take(k as int), f),
                        f(sid) == words,
                        full == concat_map(ids, f),
                        ids == spec_fat_ids(d, ss, first_difat_sector),
                        0 <= k < ids.len(),
                        ids[k as int] == sid,
                {
                    fat.push(le_u32(sector, i * 4));
                    assert(fat@ =~= prefix + words.take(i + 1));
                    if fat.len() >= MAX_SECTORS {
                        proof {
                            lemma_fat_prefix_capped(ids, k as int, f, prefix, words, i + 1, fat@);
                        }
                        return fat;
                    }
                }
                assert(words.take(ss / 4) =~= words);
                assert(fat@ =~= concat_map(ids.take(k + 1), f));
            },
        }
    }
    assert(ids.take(ids.len() as int) =~= ids);
    fat
}

/// A prefix of the concatenation over `ids` that ends inside the `k`-th
/// sector's words and holds `MAX_SECTORS` items is the capped concatenation.
proof fn lemma_fat_prefix_capped<A>(
    ids: Seq<u32>,
    k: int,
    f: spec_fn(u32) -> Seq<A>,
    prefix: Seq<A>,
    words: Seq<A>,
    i: int,
    out: Seq<A>,
)
    requires
        0 <= k < ids.len(),
        prefix == concat_map(ids.take(k), f),
        words == f(ids[k]),
        0 <= i <= words.len(),
        out == prefix + words.take(i),
        out.len() == MAX_SECTORS,
    ensures
        spec_cap(concat_map(ids, f), MAX_SECTORS as int) == out,
{
    lemma_concat_map_prefix(ids, k, f, prefix, words, i, out);
    lemma_cap_of_prefix(out, concat_map(ids, f), MAX_SECTORS as int);
}

/// `prefix + words.take(i)` is a prefix of the whole concatenation.
proof fn lemma_concat_map_prefix<A>(
    ids: Seq<u32>,
    k: int,
    f: spec_fn(u32) -> Seq<A>,
    prefix: Seq<A>,
    words: Seq<A>,
    i: int,
    out: Seq<A>,
)
    requires
        0 <= k < ids.len(),
        prefix == concat_map(ids.take(k), f),
        words == f(ids[k]),
        0 <= i <= words.len(),
        out == prefix + words.take(i),
    ensures
        out.len() <= concat_map(ids, f).len(),
        concat_map(ids, f).take(out.len() as int) == out,
{
    let rest = ids.skip(k + 1);
    assert(ids =~= ids.take(k).push(ids[k]) + rest);
    lemma_concat_map_push(ids.take(k), ids[k], f);
    lemma_concat_map_append(ids.take(k).push(ids[k]), rest, f);
    let all = concat_map(ids, f);
    assert(all == prefix + words + concat_map(rest, f));
    assert(all.take(out.len() as int) =~= out);
}

// ---------------------------------------------------------------------------
// FAT chains: the mini-FAT table and the directory
// ---------------------------------------------------------------------------

/// The FAT next-pointer of `sid`, or `ENDOFCHAIN` when `sid` is past the table.
pub open spec fn spec_next(fat: Seq<u32>, sid: u32) -> u32 {
    if (sid as int) < fat.len() {
        fat[sid as int]
    } else {
        ENDOFCHAIN
    }
}

/// The sector ids of the FAT chain from `sid`, after `seen` steps with the ids
/// in `visited` already walked. The walk stops at a marker id, on a sector
/// that the FAT has already led to (a loop), at a sector outside the file, or
/// after `MAX_CHAIN_STEPS` steps.
pub open spec fn spec_chain(
    d: Seq<u8>,
    ss: int,
    fat: Seq<u32>,
    sid: u32,
    visited: Set<u32>,
    seen: int,
) -> Seq<u32>
    decreases MAX_CHAIN_STEPS - seen,
{
    if sid <= MAXREGSECT && 0 <= seen < MAX_CHAIN_STEPS && !((sid as int) < fat.len()
        && visited.contains(sid)) && spec_sector(d, ss, sid as int) is Some {
        seq![sid] + spec_chain(d, ss, fat, spec_next(fat, sid), visited.insert(sid), seen + 1)
    } else {
        Seq::empty()
    }
}

/// The chain of sectors from `first`, from a fresh start.
pub open spec fn spec_chain_from(d: Seq<u8>, ss: int, fat: Seq<u32>, first: u32) -> Seq<u32> {
    spec_chain(d, ss, fat, first, Set::empty(), 0)
}

/// The table a FAT chain holds (the mini-FAT): the words of each sector of the
/// chain from `first`, concatenated, capped at `MAX_SECTORS` slots.
pub open spec fn spec_chain_table(d: Seq<u8>, ss: int, fat: Seq<u32>, first: u32) -> Seq<u32> {
    spec_cap(
        concat_map(spec_chain_from(d, ss, fat, first), |sid: u32| spec_sector_words(d, ss, sid)),
        MAX_SECTORS as int,
    )
}

/// The 128-byte directory-entry slots of regular sector `sid`.
pub open spec fn spec_sector_entries(d: Seq<u8>, ss: int, sid: u32) -> Seq<Seq<u8>> {
    match spec_sector(d, ss, sid as int) {
        Some(sec) => Seq::new(
            (ss / 128) as nat,
            |i: int| sec.subrange(DIR_ENTRY_SIZE * i, DIR_ENTRY_SIZE * i + DIR_ENTRY_SIZE),
        ),
        None => Seq::empty(),
    }
}

/// The raw bytes of every directory entry: the 128-byte slots of each sector of
/// the directory chain from `first`, capped at `MAX_DIR_ENTRIES` entries.
pub open spec fn spec_dir_slots(d: Seq<u8>, ss: int, fat: Seq<u32>, first: u32) -> Seq<Seq<u8>> {
    spec_cap(
        concat_map(spec_chain_from(d, ss, fat, first), |sid: u32| spec_sector_entries(d, ss, sid)),
        MAX_DIR_ENTRIES as int,
    )
}

/// The decoded directory: slot `i` decoded as entry number `i`.
pub open spec fn spec_directory(d: Seq<u8>, ss: int, fat: Seq<u32>, first: u32) -> Seq<
    DirEntryView,
> {
    let slots = spec_dir_slots(d, ss, fat, first);
    Seq::new(slots.len(), |i: int| spec_dir_entry(slots[i], i as u32))
}

/// FAT next-pointer for `sid`, or `ENDOFCHAIN` when the sid is past the table
/// (an out-of-range pointer ends the chain).
pub(crate) fn next_in_fat(fat: &[u32], sid: u32) -> (n: u32)
    ensures
        n == spec_next(fat@, sid),
{
    if (sid as usize) < fat.len() {
        fat[sid as usize]
    } else {
        ENDOFCHAIN
    }
}

/// The chain walk, unrolled by one step.
proof fn lemma_chain_step(
    d: Seq<u8>,
    ss: int,
    fat: Seq<u32>,
    sid: u32,
    visited: Set<u32>,
    seen: int,
)
    requires
        sid <= MAXREGSECT,
        0 <= seen < MAX_CHAIN_STEPS,
        !((sid as int) < fat.len() && visited.contains(sid)),
        spec_sector(d, ss, sid as int) is Some,
    ensures
        spec_chain(d, ss, fat, sid, visited, seen) == seq![sid] + spec_chain(
            d,
            ss,
            fat,
            spec_next(fat, sid),
            visited.insert(sid),
            seen + 1,
        ),
{
}

/// Follows a FAT sector chain from `first_sid`, concatenating each sector's
/// `u32` slots into a flat table (used for the mini-FAT). Loop-guarded.
fn read_chain_table(data: &[u8], sector_size: usize, fat: &[u32], first_sid: u32) -> (out: Vec<
    u32,
>)
    requires
        valid_sector_size(sector_size as int),
    ensures
        out@ == spec_chain_table(data@, sector_size as int, fat@, first_sid),
{
    let ghost d = data@;
    let ghost ss = sector_size as int;
    let ghost f = |sid: u32| spec_sector_words(d, ss, sid);
    let ghost full = spec_chain_from(d, ss, fat@, first_sid);
    let entries_per_sector = sector_size / 4;
    let mut out: Vec<u32> = Vec::new();
    let mut sid = first_sid;
    let mut seen = 0usize;
    let mut visited = vec![false; fat.len()];
    let ghost mut walked: Seq<u32> = Seq::empty();
    let ghost mut vset: Set<u32> = Set::empty();
    assert(walked + spec_chain(d, ss, fat@, sid, vset, seen as int) =~= full);
    loop
        invariant
            d == data@,
            ss == sector_size,
            valid_sector_size(ss),
            entries_per_sector == ss / 4,
            f == (|sid: u32| spec_sector_words(d, ss, sid)),
            full == spec_chain_from(d, ss, fat@, first_sid),
            full == walked + spec_chain(d, ss, fat@, sid, vset, seen as int),
            out@ == concat_map(walked, f),
            out@.len() < MAX_SECTORS,
            seen <= MAX_CHAIN_STEPS,
            visited@.len() == fat@.len(),
            forall|j: u32| (j as int) < fat@.len() ==> visited@[j as int] == vset.contains(j),
        decreases MAX_CHAIN_STEPS - seen,
    {
        if !(sid <= MAXREGSECT && seen < MAX_CHAIN_STEPS) {
            assert(full =~= walked);
            return out;
        }
        if (sid as usize) < visited.len() {
            if visited[sid as usize] {
                // chain loop
                assert(full =~= walked);
                return out;
            }
            visited.set(sid as usize, true);
        }
        let sector = match sector_slice(data, sector_size, sid) {
            Some(sector) => sector,
            None => {
                assert(full =~= walked);
                return out;
            },
        };
        proof {
            lemma_chain_step(d, ss, fat@, sid, vset, seen as int);
            assert(full == (walked + seq![sid]) + spec_chain(
                d,
                ss,
                fat@,
                spec_next(fat@, sid),
                vset.insert(sid),
                seen + 1,
            ));
        }
        let ghost prefix = out@;
        let ghost words = spec_words(sector@, ss / 4);
        assert(f(sid) == words);
        for i in 0..entries_per_sector
            invariant
                entries_per_sector == ss / 4,
                sector@.len() == ss,
                words == spec_words(sector@, ss / 4),
                out@ == prefix + words.take(i as int),
                out@.len() < MAX_SECTORS,
                prefix == concat_map(walked, f),
                f(sid) == words,
                d == data@,
                ss == sector_size,
                f == (|sid: u32| spec_sector_words(d, ss, sid)),
                full == spec_chain_from(d, ss, fat@, first_sid),
                full.take(walked.len() as int) == walked,
                walked.len() < full.len(),
                full[walked.len() as int] == sid,
        {
            out.push(le_u32(sector, i * 4));
            assert(out@ =~= prefix + words.take(i + 1));
            if out.len() >= MAX_SECTORS {
                proof {
                    lemma_fat_prefix_capped(full, walked.len() as int, f, prefix, words, i + 1, out@);
                }
                return out;
            }
        }
        assert(words.take(ss / 4) =~= words);
        proof {
            lemma_concat_map_push(walked, sid, f);
            walked = walked.push(sid);
            vset = vset.insert(sid);
        }
        assert(out@ =~= concat_map(walked, f));
        sid = next_in_fat(fat, sid);
        seen += 1;
    }
}

/// True when `entries` decode the directory slots `slots`: one entry per
/// slot, entry `i` decoded from slot `i` as entry number `i`.
pub open spec fn decodes_slots(entries: Seq<DirEntry>, slots: Seq<Seq<u8>>) -> bool {
    &&& entries.len() == slots.len()
    &&& forall|i: int| 0 <= i < slots.len() ==> #[trigger] entries[i]@ == spec_dir_entry(
        slots[i],
        i as u32,
    )
}

/// Reads every directory entry by following the directory-sector chain from
/// `first_dir_sector` and slicing each sector into 128-byte entries. Bounded by
/// `MAX_DIR_ENTRIES`; loop-guarded against a cyclic directory chain.
fn read_directory(data: &[u8], sector_size: usize, fat: &[u32], first_dir_sector: u32) -> (entries:
    Vec<DirEntry>)
    requires
        valid_sector_size(sector_size as int),
    ensures
        decodes_slots(entries@, spec_dir_slots(data@, sector_size as int, fat@, first_dir_sector)),
{
    let ghost d = data@;
    let ghost ss = sector_size as int;
    let ghost g = |sid: u32| spec_sector_entries(d, ss, sid);
    let ghost full = spec_chain_from(d, ss, fat@, first_dir_sector);
    let entries_per_sector = sector_size / DIR_ENTRY_SIZE;
    let mut entries: Vec<DirEntry> = Vec::new();
    let mut sid = first_dir_sector;
    let mut seen = 0usize;
    let mut visited = vec![false; fat.len()];
    let ghost mut walked: Seq<u32> = Seq::empty();
    let ghost mut vset: Set<u32> = Set::empty();
    assert(walked + spec_chain(d, ss, fat@, sid, vset, seen as int) =~= full);
    assert(concat_map(walked, g) =~= Seq::<Seq<u8>>::empty());
    loop
        invariant
            d == data@,
            ss == sector_size,
            valid_sector_size(ss),
            entries_per_sector == ss / 128,
            g == (|sid: u32| spec_sector_entries(d, ss, sid)),
            full == spec_chain_from(d, ss, fat@, first_dir_sector),
            full == walked + spec_chain(d, ss, fat@, sid, vset, seen as int),
            decodes_slots(entries@, concat_map(walked, g)),
            entries@.len() < MAX_DIR_ENTRIES,
            seen <= MAX_CHAIN_STEPS,
            visited@.len() == fat@.len(),
            forall|j: u32| (j as int) < fat@.len() ==> visited@[j as int] == vset.contains(j),
        decreases MAX_CHAIN_STEPS - seen,
    {
        if !(sid <= MAXREGSECT && seen < MAX_CHAIN_STEPS) {
            assert(full =~= walked);
            return entries;
        }
        if (sid as usize) < visited.len() {
            if visited[sid as usize] {
                // directory-chain loop
                assert(full =~= walked);
                return entries;
            }
            visited.set(sid as usize, true);
        }
        let sector = match sector_slice(data, sector_size, sid) {
            Some(sector) => sector,
            None => {
                assert(full =~= walked);
                return entries;
            },
        };
        proof {
            lemma_chain_step(d, ss, fat@, sid, vset, seen as int);
            assert(full == (walked + seq![sid]) + spec_chain(
                d,
                ss,
                fat@,
                spec_next(fat@, sid),
                vset.insert(sid),
                seen + 1,
            ));
        }
        let ghost prefix = concat_map(walked, g);
        let ghost slots = g(sid);
        assert(slots.len() == ss / 128);
        for i in 0..entries_per_sector
            invariant
                entries_per_sector == ss / 128,
                valid_sector_size(ss),
                sector@.len() == ss,
                slots == g(sid),
                slots.len() == ss / 128,
                forall|k: int| 0 <= k < slots.len() ==> #[trigger] slots[k] == sector@.subrange(
                    DIR_ENTRY_SIZE * k,
                    DIR_ENTRY_SIZE * k + DIR_ENTRY_SIZE,
                ),
                decodes_slots(entries@, prefix + slots.take(i as int)),
                entries@.len() < MAX_DIR_ENTRIES,
                prefix == concat_map(walked, g),
                d == data@,
                ss == sector_size,
                g == (|sid: u32| spec_sector_entries(d, ss, sid)),
                full == spec_chain_from(d, ss, fat@, first_dir_sector),
                full.take(walked.len() as int) == walked,
                walked.len() < full.len(),
                full[walked.len() as int] == sid,
        {
            let base = i * DIR_ENTRY_SIZE;
            proof {
                assert((i + 1) * 128 <= ss) by (nonlinear_arith)
                    requires
                        i < ss / 128,
                        ss % 128 == 0,
                        ss >= 0,
                ;
            }
            let raw = vstd::slice::slice_subrange(sector, base, base + DIR_ENTRY_SIZE);
            let sid_index = entries.len() as u32;
            let ghost before = entries@;
            entries.push(parse_dir_entry(raw, sid_index));
            proof {
                let now = prefix + slots.take(i + 1);
                assert(now =~= (prefix + slots.take(i as int)).push(slots[i as int]));
                assert forall|j: int| 0 <= j < now.len() implies #[trigger] entries@[j]@
                    == spec_dir_entry(now[j], j as u32) by {
                    if j < before.len() {
                        assert(entries@[j] == before[j]);
                    }
                }
            }
            if entries.len() >= MAX_DIR_ENTRIES {
                proof {
                    let out = prefix + slots.take(i + 1);
                    lemma_concat_map_prefix(full, walked.len() as int, g, prefix, slots, i + 1, out);
                    lemma_cap_of_prefix(out, concat_map(full, g), MAX_DIR_ENTRIES as int);
                }
                return entries;
            }
        }
        assert(slots.take(ss / 128) =~= slots);
        proof {
            lemma_concat_map_push(walked, sid, g);
            walked = walked.push(sid);
            vset = vset.insert(sid);
        }
        sid = next_in_fat(fat, sid);
        seen += 1;
    }
}

// ---------------------------------------------------------------------------
// The whole decode
// ---------------------------------------------------------------------------

/// The decoded shape of a compound file, carrying everything the analyzer needs
/// that a happy-path reader does not surface.
#[derive(Debug, Clone)]
pub struct RawCfb {
    /// Major version (3 or 4) as read from the header.
    pub major_version: u16,
    /// `log2(sector size)` from the header.
    pub sector_shift: u16,
    /// `log2(mini-sector size)` from the header (normally 6).
    pub mini_sector_shift: u16,
    /// Mini-stream size cutoff (normally 4096).
    pub mini_stream_cutoff: u32,
    /// Byte-order mark as read (normally `0xFFFE`).
    pub byte_order: u16,
    /// Resolved sector size in bytes (`1 << sector_shift`, clamped to a sane range).
    pub sector_size: usize,
    /// First DIFAT sector id from the header.
    pub first_difat_sector: u32,
    /// Declared DIFAT sector count from the header.
    pub num_difat_sectors: u32,
    /// The full FAT: one next-SID slot per sector in the file.
    pub fat: Vec<u32>,
    /// The mini-FAT: one next-mini-SID slot per mini-sector.
    pub mini_fat: Vec<u32>,
    /// Every directory entry, in array order (live and orphaned alike).
    pub dir_entries: Vec<DirEntry>,
    /// Total file length in bytes.
    pub file_len: u64,
}

/// A decoded compound file as a mathematical value.
pub struct RawCfbView {
    pub major_version: u16,
    pub sector_shift: u16,
    pub mini_sector_shift: u16,
    pub mini_stream_cutoff: u32,
    pub byte_order: u16,
    pub sector_size: usize,
    pub first_difat_sector: u32,
    pub num_difat_sectors: u32,
    pub fat: Seq<u32>,
    pub mini_fat: Seq<u32>,
    pub dir_entries: Seq<DirEntryView>,
    pub file_len: u64,
}

impl View for RawCfb {
    type V = RawCfbView;

    open spec fn view(&self) -> RawCfbView {
        RawCfbView {
            major_version: self.major_version,
            sector_shift: self.sector_shift,
            mini_sector_shift: self.mini_sector_shift,
            mini_stream_cutoff: self.mini_stream_cutoff,
            byte_order: self.byte_order,
            sector_size: self.sector_size,
            first_difat_sector: self.first_difat_sector,
            num_difat_sectors: self.num_difat_sectors,
            fat: self.fat@,
            mini_fat: self.mini_fat@,
            dir_entries: self.dir_entries@.map_values(|e: DirEntry| e@),
            file_len: self.file_len,
        }
    }
}

/// True when `d` is long enough to hold a header and opens with the OLECF
/// signature.
pub open spec fn spec_is_cfb(d: Seq<u8>) -> bool {
    d.len() >= HEADER_SIZE && d.take(8) == OLECF_SIGNATURE@
}

/// The sector shift the decoder uses: the header's when it lies in 9..=20,
/// else the version-3 shift.
pub open spec fn spec_effective_shift(sector_shift: u16) -> u16 {
    if 9 <= sector_shift <= 20 {
        sector_shift
    } else {
        SECTOR_SHIFT_V3
    }
}

/// The sector size the decoder uses for a header sector shift.
pub open spec fn spec_sector_size(sector_shift: u16) -> nat {
    pow2(spec_effective_shift(sector_shift) as nat)
}

/// What `decode` makes of `d`: `None` when `d` is too short for a header or
/// lacks the signature; otherwise the header fields, the FAT assembled through
/// the DIFAT, the mini-FAT read along its FAT chain, and the directory read
/// along its FAT chain.
pub open spec fn spec_decode(d: Seq<u8>) -> Option<RawCfbView> {
    if !spec_is_cfb(d) {
        None
    } else {
        let sector_shift = spec_le16(d, SECTOR_SHIFT as int);
        let ss = spec_sector_size(sector_shift) as int;
        let first_difat_sector = spec_le32(d, FIRST_DIFAT_SECTOR as int);
        let fat = spec_fat(d, ss, first_difat_sector);
        Some(
            RawCfbView {
                major_version: spec_le16(d, MAJOR_VERSION as int),
                sector_shift: sector_shift,
                mini_sector_shift: spec_le16(d, MINI_SECTOR_SHIFT as int),
                mini_stream_cutoff: spec_le32(d, MINI_STREAM_CUTOFF as int),
                byte_order: spec_le16(d, BYTE_ORDER as int),
                sector_size: ss as usize,
                first_difat_sector: first_difat_sector,
                num_difat_sectors: spec_le32(d, NUM_DIFAT_SECTORS as int),
                fat: fat,
                mini_fat: spec_chain_table(d, ss, fat, spec_le32(d, FIRST_MINIFAT_SECTOR as int)),
                dir_entries: spec_directory(d, ss, fat, spec_le32(d, FIRST_DIR_SECTOR as int)),
                file_len: d.len() as u64,
            },
        )
    }
}

/// `2^shift` for a shift in 9..=20, with the facts the decoder relies on.
fn sector_size_for(shift: u16) -> (ss: usize)
    requires
        9 <= shift <= 20,
    ensures
        ss == pow2(shift as nat),
        valid_sector_size(ss as int),
{
    let mut v: usize = 1;
    let mut i: u16 = 0;
    proof {
        vstd::arithmetic::power2::lemma2_to64();
    }
    while i < shift
        invariant
            i <= shift <= 20,
            v == pow2(i as nat),
            v <= 1048576,
            i >= 7 ==> v % 128 == 0,
            i < 7 ==> v * pow2((7 - i) as nat) == 128,
            i >= 9 ==> v >= 512,
            i < 9 ==> v * pow2((9 - i) as nat) == 512,
        decreases shift - i,
    {
        proof {
            vstd::arithmetic::power2::lemma2_to64();
            lemma_pow2_unfold((i + 1) as nat);
            if i < 7 {
                lemma_pow2_unfold((7 - i) as nat);
                assert(v * pow2((7 - i) as nat) == v * 2 * pow2((7 - i - 1) as nat))
                    by (nonlinear_arith)
                    requires
                        pow2((7 - i) as nat) == 2 * pow2((7 - i - 1) as nat),
                ;
            }
            if i < 9 {
                lemma_pow2_unfold((9 - i) as nat);
                assert(v * pow2((9 - i) as nat) == v * 2 * pow2((9 - i - 1) as nat))
                    by (nonlinear_arith)
                    requires
                        pow2((9 - i) as nat) == 2 * pow2((9 - i - 1) as nat),
                ;
            }
            assert(pow2((i + 1) as nat) <= pow2(20)) by {
                if i + 1 < 20 {
                    vstd::arithmetic::power2::lemma_pow2_strictly_increases((i + 1) as nat, 20);
                }
            }
        }
        v = v * 2;
        i = i + 1;
    }
    v
}

/// Decodes a compound file's header, FAT, mini-FAT, and directory array.
///
/// Returns `None` only when the buffer is too small to hold a header or lacks
/// the OLECF signature; every field beyond that degrades to a safe default
/// rather than failing, so partially-corrupt images still yield residue.
pub fn decode(data: &[u8]) -> (r: Option<RawCfb>)
    ensures
        r is None <==> spec_decode(data@) is None,
        r matches Some(raw) ==> spec_decode(data@) == Some(raw@),
        r matches Some(raw) ==> valid_sector_size(raw.sector_size as int),
{
    if data.len() < HEADER_SIZE {
        return None;
    }
    let sig = OLECF_SIGNATURE;
    for i in 0..8
        invariant
            data@.len() >= HEADER_SIZE,
            sig@ == OLECF_SIGNATURE@,
            forall|j: int| 0 <= j < i ==> data@[j] == sig@[j],
    {
        if data[i] != sig[i] {
            proof {
                assert(data@.take(8)[i as int] != OLECF_SIGNATURE@[i as int]);
            }
            return None;
        }
    }
    assert(data@.take(8) =~= OLECF_SIGNATURE@);

    let major_version = le_u16(data, MAJOR_VERSION);
    let sector_shift = le_u16(data, SECTOR_SHIFT);
    let mini_sector_shift = le_u16(data, MINI_SECTOR_SHIFT);
    let mini_stream_cutoff = le_u32(data, MINI_STREAM_CUTOFF);
    let byte_order = le_u16(data, BYTE_ORDER);

    // Clamp the sector shift to 9..=20 (v3 and v4 use 9 and 12); an absurd
    // shift would otherwise produce a meaningless sector size. Default to v3.
    let effective_shift = if 9 <= sector_shift && sector_shift <= 20 {
        sector_shift
    } else {
        SECTOR_SHIFT_V3
    };
    let sector_size = sector_size_for(effective_shift);

    let first_dir_sector = le_u32(data, FIRST_DIR_SECTOR);
    let first_minifat_sector = le_u32(data, FIRST_MINIFAT_SECTOR);
    let first_difat_sector = le_u32(data, FIRST_DIFAT_SECTOR);
    let num_difat_sectors = le_u32(data, NUM_DIFAT_SECTORS);

    let file_len = data.len() as u64;

    let fat = read_fat(data, sector_size, first_difat_sector);
    let mini_fat = read_chain_table(data, sector_size, fat.as_slice(), first_minifat_sector);
    let dir_entries = read_directory(data, sector_size, fat.as_slice(), first_dir_sector);

    let raw = RawCfb {
        major_version,
        sector_shift,
        mini_sector_shift,
        mini_stream_cutoff,
        byte_order,
        sector_size,
        first_difat_sector,
        num_difat_sectors,
        fat,
        mini_fat,
        dir_entries,
        file_len,
    };
    proof {
        let slots = spec_dir_slots(data@, sector_size as int, raw.fat@, first_dir_sector);
        assert(raw.dir_entries@.map_values(|e: DirEntry| e@) =~= spec_directory(
            data@,
            sector_size as int,
            raw.fat@,
            first_dir_sector,
        ));
    }
    Some(raw)
}

// ---------------------------------------------------------------------------
// The live red-black tree
// ---------------------------------------------------------------------------

/// `b` is the child, left or right pointer of entry `a`, and both are entries
/// of the directory (a pointer past the array or above `MAXREGSECT` leads
/// nowhere).
pub open spec fn spec_tree_edge(entries: Seq<DirEntryView>, a: int, b: int) -> bool {
    &&& 0 <= a < entries.len()
    &&& 0 <= b < entries.len()
    &&& b <= MAXREGSECT
    &&& (b == entries[a].child || b == entries[a].left || b == entries[a].right)
}

/// `p` is a walk down the tree pointers that starts at the root (entry 0).
pub open spec fn spec_tree_path(entries: Seq<DirEntryView>, p: Seq<int>) -> bool {
    &&& p.len() > 0
    &&& p[0] == 0
    &&& 0 < entries.len()
    &&& forall|i: int| 0 <= i < p.len() - 1 ==> #[trigger] spec_tree_edge(entries, p[i], p[i + 1])
}

/// Entry `x` is reachable from the root entry through child/left/right
/// pointers.
pub open spec fn spec_reachable(entries: Seq<DirEntryView>, x: int) -> bool {
    exists|p: Seq<int>| #[trigger] spec_tree_path(entries, p) && p.last() == x
}

proof fn lemma_reach_edge(entries: Seq<DirEntryView>, a: int, b: int)
    requires
        spec_reachable(entries, a),
        spec_tree_edge(entries, a, b),
    ensures
        spec_reachable(entries, b),
{
    let p = choose|p: Seq<int>| #[trigger] spec_tree_path(entries, p) && p.last() == a;
    let q = p.push(b);
    assert forall|i: int| 0 <= i < q.len() - 1 implies #[trigger] spec_tree_edge(
        entries,
        q[i],
        q[i + 1],
    ) by {
        if i < p.len() - 1 {
            assert(q[i] == p[i] && q[i + 1] == p[i + 1]);
        }
    }
    assert(spec_tree_path(entries, q));
}

pub(crate) proof fn lemma_root_reachable(entries: Seq<DirEntryView>)
    requires
        entries.len() > 0,
    ensures
        spec_reachable(entries, 0),
{
    let p = seq![0int];
    assert(spec_tree_path(entries, p));
}

/// A set of entries that holds the root and is closed under the tree pointers
/// holds every entry on a walk from the root.
proof fn lemma_closed_holds_path(entries: Seq<DirEntryView>, marked: Seq<bool>, p: Seq<int>, i: int)
    requires
        marked.len() == entries.len(),
        entries.len() > 0 ==> marked[0],
        forall|a: int, b: int|
            0 <= a < marked.len() && #[trigger] marked[a] && #[trigger] spec_tree_edge(
                entries,
                a,
                b,
            ) ==> marked[b],
        spec_tree_path(entries, p),
        0 <= i < p.len(),
    ensures
        0 <= p[i] < marked.len(),
        marked[p[i]],
    decreases i,
{
    if i > 0 {
        lemma_closed_holds_path(entries, marked, p, i - 1);
        assert(spec_tree_edge(entries, p[i - 1], p[i - 1 + 1]));
    }
}

/// The number of `true` slots of `s`.
pub open spec fn count_true(s: Seq<bool>) -> nat
    decreases s.len(),
{
    if s.len() == 0 {
        0
    } else {
        count_true(s.drop_last()) + if s.last() {
            1nat
        } else {
            0nat
        }
    }
}

proof fn lemma_count_true_bound(s: Seq<bool>)
    ensures
        count_true(s) <= s.len(),
    decreases s.len(),
{
    if s.len() > 0 {
        lemma_count_true_bound(s.drop_last());
    }
}

proof fn lemma_count_true_set(s: Seq<bool>, i: int)
    requires
        0 <= i < s.len(),
        !s[i],
    ensures
        count_true(s.update(i, true)) == count_true(s) + 1,
    decreases s.len(),
{
    let t = s.update(i, true);
    if i == s.len() - 1 {
        assert(t.drop_last() =~= s.drop_last());
    } else {
        assert(t.drop_last() =~= s.drop_last().update(i, true));
        lemma_count_true_set(s.drop_last(), i);
    }
}

/// Walks the live red-black directory tree from the root entry, returning for
/// each entry whether it is reachable through child/left/right pointers.
/// Everything allocated-but-unreached is an orphan.
///
/// Loop-guarded by the visited marks, so a corrupt sibling cycle terminates.
pub fn reachable_sids(entries: &[DirEntry]) -> (reachable: Vec<bool>)
    ensures
        reachable@.len() == entries@.len(),
        forall|i: int|
            0 <= i < entries@.len() ==> (#[trigger] reachable@[i] <==> spec_reachable(
                entries@.map_values(|e: DirEntry| e@),
                i,
            )),
{
    let n = entries.len();
    let mut reachable = vec![false; n];
    let ghost es = entries@.map_values(|e: DirEntry| e@);
    if n == 0 {
        return reachable;
    }
    // The root storage is always entry 0 (`[MS-CFB]` 2.6.2).
    let mut stack: Vec<u32> = Vec::new();
    stack.push(0);
    let ghost mut marked_count: nat = 0;
    proof {
        assert(stack@[0] == 0u32);
        assert(reachable@ =~= Seq::new(n as nat, |i: int| false));
        assert forall|j: int| 0 <= j <= reachable@.len() implies count_true(
            reachable@.take(j),
        ) == 0 by {
            lemma_all_false_count(reachable@.take(j));
        }
        assert(reachable@.take(n as int) =~= reachable@);
        lemma_root_reachable(es);
    }
    loop
        invariant
            es == entries@.map_values(|e: DirEntry| e@),
            n == es.len(),
            n > 0,
            reachable@.len() == n,
            marked_count == count_true(reachable@),
            marked_count <= n,
            forall|j: int| 0 <= j < stack@.len() ==> (#[trigger] stack@[j] as int) < n,
            forall|j: int| 0 <= j < stack@.len() ==> spec_reachable(es, #[trigger] stack@[j] as int),
            forall|i: int| 0 <= i < n && #[trigger] reachable@[i] ==> spec_reachable(es, i),
            reachable@[0] || stack@.contains(0u32),
            forall|a: int, b: int|
                0 <= a < n && #[trigger] reachable@[a] && #[trigger] spec_tree_edge(es, a, b)
                    ==> reachable@[b] || stack@.contains(b as u32),
        decreases (n - marked_count) * 4 + stack@.len(),
    {
        let ghost old_stack = stack@;
        let ghost old_reach = reachable@;
        match stack.pop() {
            None => {
                proof {
                    assert(stack@.len() == 0);
                    assert forall|i: int| 0 <= i < n implies (#[trigger] reachable@[i]
                        <==> spec_reachable(es, i)) by {
                        if spec_reachable(es, i) {
                            let p = choose|p: Seq<int>| #[trigger] spec_tree_path(es, p) && p.last() == i;
                            assert forall|a: int, b: int|
                                0 <= a < reachable@.len() && #[trigger] reachable@[a]
                                    && #[trigger] spec_tree_edge(es, a, b) implies reachable@[b] by {
                                assert(!stack@.contains(b as u32));
                            }
                            assert(!stack@.contains(0u32));
                            lemma_closed_holds_path(es, reachable@, p, p.len() - 1);
                        }
                    }
                }
                return reachable;
            },
            Some(sid) => {
                proof {
                    assert(old_stack =~= stack@.push(sid));
                    assert(old_stack[old_stack.len() - 1] == sid);
                }
                let idx = sid as usize;
                if reachable[idx] {
                    proof {
                        assert forall|a: int, b: int|
                            0 <= a < n && #[trigger] reachable@[a] && #[trigger] spec_tree_edge(
                                es,
                                a,
                                b,
                            ) implies reachable@[b] || stack@.contains(b as u32) by {
                            if !reachable@[b] {
                                assert(old_stack.contains(b as u32));
                                let j = choose|j: int|
                                    0 <= j < old_stack.len() && old_stack[j] == b as u32;
                                if j < stack@.len() {
                                    assert(stack@[j] == b as u32);
                                }
                            }
                        }
                        if !reachable@[0] {
                            let j = choose|j: int| 0 <= j < old_stack.len() && old_stack[j] == 0u32;
                            if j < stack@.len() {
                                assert(stack@[j] == 0u32);
                            }
                        }
                    }
                } else {
                    proof {
                        assert(spec_reachable(es, sid as int));
                        lemma_count_true_set(reachable@, idx as int);
                        lemma_count_true_bound(reachable@.update(idx as int, true));
                    }
                    reachable.set(idx, true);
                    proof {
                        marked_count = marked_count + 1;
                    }
                    let entry = &entries[idx];
                    assert(es[idx as int] == entry@);
                    let ghost mid_stack = stack@;
                    let ghost mut ci: int = 0;
                    let ghost mut li: int = 0;
                    let ghost mut ri: int = 0;
                    if entry.child <= MAXREGSECT && (entry.child as usize) < n {
                        proof {
                            assert(spec_tree_edge(es, idx as int, entry.child as int));
                            lemma_reach_edge(es, idx as int, entry.child as int);
                            ci = stack@.len() as int;
                        }
                        stack.push(entry.child);
                    }
                    if entry.left <= MAXREGSECT && (entry.left as usize) < n {
                        proof {
                            assert(spec_tree_edge(es, idx as int, entry.left as int));
                            lemma_reach_edge(es, idx as int, entry.left as int);
                            li = stack@.len() as int;
                        }
                        stack.push(entry.left);
                    }
                    if entry.right <= MAXREGSECT && (entry.right as usize) < n {
                        proof {
                            assert(spec_tree_edge(es, idx as int, entry.right as int));
                            lemma_reach_edge(es, idx as int, entry.right as int);
                            ri = stack@.len() as int;
                        }
                        stack.push(entry.right);
                    }
                    proof {
                        if entry.child <= MAXREGSECT && (entry.child as int) < n {
                            assert(stack@[ci] == entry.child);
                        }
                        if entry.left <= MAXREGSECT && (entry.left as int) < n {
                            assert(stack@[li] == entry.left);
                        }
                        if entry.right <= MAXREGSECT && (entry.right as int) < n {
                            assert(stack@[ri] == entry.right);
                        }
                        assert(stack@.len() <= mid_stack.len() + 3);
                        assert(forall|j: int|
                            0 <= j < mid_stack.len() ==> stack@[j] == #[trigger] mid_stack[j]);
                        assert forall|a: int, b: int|
                            0 <= a < n && #[trigger] reachable@[a] && #[trigger] spec_tree_edge(
                                es,
                                a,
                                b,
                            ) implies reachable@[b] || stack@.contains(b as u32) by {
                            if a == idx as int {
                                if b == entry.child as int {
                                    assert(stack@.contains(entry.child));
                                } else if b == entry.left as int {
                                    assert(stack@.contains(entry.left));
                                } else {
                                    assert(stack@.contains(entry.right));
                                }
                            } else if !reachable@[b] {
                                assert(old_reach[a]);
                                assert(old_stack.contains(b as u32));
                                let j = choose|j: int|
                                    0 <= j < old_stack.len() && old_stack[j] == b as u32;
                                if j < mid_stack.len() {
                                    assert(stack@[j] == b as u32);
                                }
                            }
                        }
                        if !reachable@[0] {
                            let j = choose|j: int| 0 <= j < old_stack.len() && old_stack[j] == 0u32;
                            if j < mid_stack.len() {
                                assert(stack@[j] == 0u32);
                            }
                        }
                    }
                }
            },
        }
    }
}

proof fn lemma_all_false_count(s: Seq<bool>)
    requires
        forall|i: int| 0 <= i < s.len() ==> !s[i],
    ensures
        count_true(s) == 0,
    decreases s.len(),
{
    if s.len() > 0 {
        lemma_all_false_count(s.drop_last());
    }
}

/// The FAT and mini-FAT of a decode never hold more than `MAX_SECTORS` slots.
pub proof fn lemma_cap_len_le(fat: Seq<u32>, mini_fat: Seq<u32>, d: Seq<u8>, raw: RawCfbView)
    requires
        spec_decode(d) == Some(raw),
        fat == raw.fat,
        mini_fat == raw.mini_fat,
    ensures
        fat.len() <= MAX_SECTORS,
        mini_fat.len() <= MAX_SECTORS,
{
}

} // verus!
