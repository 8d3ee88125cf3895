//! The carving audit: what `audit_bytes` reports of a compound file, stated
//! over the raw decode, and the walk that produces it.
use vstd::prelude::*;
use crate::anomaly::{AnomalyView, IssueView, OlecfAnomaly, OrphanDetail, OrphanView, StructureIssue};
use crate::carve::{Carve, carve_chain, count_nonzero, spec_block, spec_carve, spec_carve_loops, spec_count_nonzero, spec_tail};
use crate::layout::{
    BYTE_ORDER_LE, FREESECT, MAX_MINI_STREAM, MINI_SECTOR_SIZE, MINI_STREAM_CUTOFF_VALUE,
};
use crate::raw::{
    decode, reachable_sids, read_fat_sector_ids, sector_slice, spec_decode, spec_fat_ids,
    spec_reachable, spec_sector, valid_sector_size, DirEntry, DirEntryView, RawCfb, RawCfbView,
};
use crate::text::{format_clsid, spec_guid_text};

verus! {

/// The views of a sequence of observations.
pub open spec fn views(s: Seq<OlecfAnomaly>) -> Seq<AnomalyView> {
    s.map_values(|a: OlecfAnomaly| a@)
}

/// `f(0) + f(1) + ... + f(n - 1)`.
pub open spec fn spec_collect(n: int, f: spec_fn(int) -> Seq<AnomalyView>) -> Seq<AnomalyView>
    decreases n,
{
    if n <= 0 {
        Seq::empty()
    } else {
        spec_collect(n - 1, f) + f(n - 1)
    }
}

/// Everything the audit reads off a decoded file: the bytes, the decode, which
/// entries the live tree reaches, and the materialized mini-stream.
pub struct AuditContext {
    pub d: Seq<u8>,
    pub raw: RawCfbView,
    pub reach: Seq<bool>,
    pub mini: Seq<u8>,
    pub mini_loops: bool,
}

/// Entry 0 is the root storage.
pub open spec fn spec_has_root(raw: RawCfbView) -> bool {
    raw.dir_entries.len() > 0 && raw.dir_entries[0].object_type == 0x05
}

/// How many mini-stream bytes are materialized: the root's stream size, at
/// most `MAX_MINI_STREAM`.
pub open spec fn spec_mini_total(root: DirEntryView) -> int {
    if root.stream_size < MAX_MINI_STREAM {
        root.stream_size as int
    } else {
        MAX_MINI_STREAM as int
    }
}

/// The mini-stream: the root entry's stream, carved along the FAT.
pub open spec fn spec_mini_stream(d: Seq<u8>, raw: RawCfbView) -> Seq<u8> {
    if spec_has_root(raw) {
        spec_carve(
            d,
            raw.sector_size as int,
            1,
            raw.fat,
            raw.dir_entries[0].start_sector,
            spec_mini_total(raw.dir_entries[0]),
            Set::empty(),
        )
    } else {
        Seq::empty()
    }
}

/// The mini-stream's FAT chain loops.
pub open spec fn spec_mini_stream_loops(d: Seq<u8>, raw: RawCfbView) -> bool {
    spec_has_root(raw) && spec_carve_loops(
        d,
        raw.sector_size as int,
        1,
        raw.fat,
        raw.dir_entries[0].start_sector,
        spec_mini_total(raw.dir_entries[0]),
        Set::empty(),
    )
}

/// The audit context of a decoded file.
pub open spec fn spec_context(d: Seq<u8>, raw: RawCfbView) -> AuditContext {
    AuditContext {
        d: d,
        raw: raw,
        reach: Seq::new(
            raw.dir_entries.len(),
            |i: int| spec_reachable(raw.dir_entries, i),
        ),
        mini: spec_mini_stream(d, raw),
        mini_loops: spec_mini_stream_loops(d, raw),
    }
}

/// `n` rounded up to a multiple of `unit`.
pub open spec fn spec_round_up(n: int, unit: int) -> int {
    ((n + unit - 1) / unit) * unit
}

/// A walk along one stream's chain: in which space, how many bytes to carve,
/// and from which offset the carved bytes are looked at.
pub struct Walk {
    pub in_mini: bool,
    pub total: int,
    pub from: int,
}

/// The walk the audit makes for entry `i`. An orphaned stream is carved for
/// its declared size (to measure what is recoverable); a live, non-empty
/// stream is carved to the end of its final (mini-)sector (to see its slack).
/// Streams below the mini-stream cutoff live in the mini-stream. No walk is
/// made for other entries, nor for a live regular stream that could not fit
/// in the file.
pub open spec fn spec_entry_walk(c: AuditContext, i: int) -> Option<Walk> {
    let e = c.raw.dir_entries[i];
    let in_mini = e.stream_size < MINI_STREAM_CUTOFF_VALUE;
    let ss = c.raw.sector_size as int;
    if e.object_type != 0x02 {
        None
    } else if !c.reach[i] {
        Some(Walk { in_mini: in_mini, total: e.stream_size as int, from: e.stream_size as int })
    } else if e.stream_size == 0 {
        None
    } else if in_mini {
        Some(
            Walk {
                in_mini: true,
                total: spec_round_up(e.stream_size as int, MINI_SECTOR_SIZE as int),
                from: e.stream_size as int,
            },
        )
    } else if e.stream_size + ss <= c.d.len() {
        Some(
            Walk {
                in_mini: false,
                total: spec_round_up(e.stream_size as int, ss),
                from: e.stream_size as int,
            },
        )
    } else {
        None
    }
}

/// The bytes a walk carves from `start`.
pub open spec fn spec_walk_carve(c: AuditContext, start: u32, w: Walk) -> Seq<u8> {
    if w.in_mini {
        spec_carve(c.mini, MINI_SECTOR_SIZE as int, 0, c.raw.mini_fat, start, w.total, Set::empty())
    } else {
        spec_carve(c.d, c.raw.sector_size as int, 1, c.raw.fat, start, w.total, Set::empty())
    }
}

/// The walk stopped on a loop in its chain.
pub open spec fn spec_walk_loops(c: AuditContext, start: u32, w: Walk) -> bool {
    if w.in_mini {
        spec_carve_loops(
            c.mini,
            MINI_SECTOR_SIZE as int,
            0,
            c.raw.mini_fat,
            start,
            w.total,
            Set::empty(),
        )
    } else {
        spec_carve_loops(c.d, c.raw.sector_size as int, 1, c.raw.fat, start, w.total, Set::empty())
    }
}

/// The bytes the walk of entry `i` carves, or none when it makes no walk.
pub open spec fn spec_entry_carve(c: AuditContext, i: int) -> Seq<u8> {
    match spec_entry_walk(c, i) {
        Some(w) => spec_walk_carve(c, c.raw.dir_entries[i].start_sector, w),
        None => Seq::empty(),
    }
}

/// The orphan report of entry `e`: an allocated storage or stream the live
/// tree does not reach, with its metadata and how many bytes its
/// still-resident chain gives (`carved`).
pub open spec fn spec_orphan_of(e: DirEntryView, reached: bool, carved: usize) -> Seq<AnomalyView> {
    if (e.object_type == 0x01 || e.object_type == 0x02) && !reached {
        seq![
            AnomalyView::OrphanedDirEntry(
                OrphanView {
                    sid: e.sid,
                    name: e.name,
                    object_type: e.object_type,
                    stream_size: e.stream_size,
                    start_sector: e.start_sector,
                    create_time: e.create_time,
                    modify_time: e.modify_time,
                    carved_len: carved,
                },
            ),
        ]
    } else {
        Seq::empty()
    }
}

/// Entry `i` is an orphan; a stream orphan carries the length of its carve.
pub open spec fn spec_orphan_part(c: AuditContext, i: int) -> Seq<AnomalyView> {
    spec_orphan_of(c.raw.dir_entries[i], c.reach[i], spec_entry_carve(c, i).len() as usize)
}

/// Some byte of the class id is non-zero.
pub open spec fn spec_nonzero_clsid(clsid: Seq<u8>) -> bool {
    exists|j: int| 0 <= j < clsid.len() && clsid[j] != 0
}

/// The tamper tells of entry `e`: a stream entry must carry a zero CLSID,
/// zero state bits and zero FILETIMEs.
pub open spec fn spec_tamper_of(e: DirEntryView) -> Seq<AnomalyView> {
    if e.object_type == 0x02 {
        (if spec_nonzero_clsid(e.clsid) {
            seq![AnomalyView::StructureAnomaly(IssueView::StreamNonZeroClsid { sid: e.sid, name: e.name })]
        } else {
            Seq::empty()
        }) + (if e.state_bits != 0 {
            seq![
                AnomalyView::StructureAnomaly(
                    IssueView::StreamNonZeroStateBits {
                        sid: e.sid,
                        name: e.name,
                        state_bits: e.state_bits,
                    },
                ),
            ]
        } else {
            Seq::empty()
        }) + (if e.create_time != 0 || e.modify_time != 0 {
            seq![AnomalyView::StructureAnomaly(IssueView::StreamNonZeroFiletime { sid: e.sid, name: e.name })]
        } else {
            Seq::empty()
        })
    } else {
        Seq::empty()
    }
}

/// The tamper tells of entry `i`.
pub open spec fn spec_tamper_part(c: AuditContext, i: int) -> Seq<AnomalyView> {
    spec_tamper_of(c.raw.dir_entries[i])
}

/// The name of the allocation table of a space.
pub open spec fn spec_space(in_mini: bool) -> Seq<char> {
    if in_mini {
        "mini-FAT"@
    } else {
        "FAT"@
    }
}

/// The slack report of live stream `e` whose walk `w` carved `carved_len`
/// bytes, of which `tail` are those past the declared size: when the carve
/// holds the whole final (mini-)sector, the non-zero bytes of that tail.
pub open spec fn spec_slack_of(
    e: DirEntryView,
    reached: bool,
    w: Option<Walk>,
    carved_len: int,
    tail: Seq<u8>,
) -> Seq<AnomalyView> {
    match w {
        Some(w) => {
            let n = spec_count_nonzero(tail);
            if reached && carved_len == w.total && n > 0 {
                seq![
                    AnomalyView::SlackResidue {
                        sid: e.sid,
                        name: e.name,
                        space: spec_space(w.in_mini),
                        slack_len: n as usize,
                    },
                ]
            } else {
                Seq::empty()
            }
        },
        None => Seq::empty(),
    }
}

/// The slack of live stream `i`.
pub open spec fn spec_slack_part(c: AuditContext, i: int) -> Seq<AnomalyView> {
    let carved = spec_entry_carve(c, i);
    let from = match spec_entry_walk(c, i) {
        Some(w) => w.from,
        None => 0,
    };
    spec_slack_of(
        c.raw.dir_entries[i],
        c.reach[i],
        spec_entry_walk(c, i),
        carved.len() as int,
        spec_tail(carved, from),
    )
}

/// What the audit reports of entry `i`, in order: orphan, tamper tells, slack.
pub open spec fn spec_entry_part(c: AuditContext, i: int) -> Seq<AnomalyView> {
    spec_orphan_part(c, i) + spec_tamper_part(c, i) + spec_slack_part(c, i)
}

/// The walk of entry `i` is in the given space and looped.
pub open spec fn spec_walk_loops_in(c: AuditContext, i: int, in_mini: bool) -> bool {
    match spec_entry_walk(c, i) {
        Some(w) => w.in_mini == in_mini && spec_walk_loops(c, c.raw.dir_entries[i].start_sector, w),
        None => false,
    }
}

/// Some walk in the regular FAT among the first `k` entries, or the
/// mini-stream's own chain, looped.
pub open spec fn spec_fat_loop_upto(c: AuditContext, k: int) -> bool
    decreases k,
{
    if k <= 0 {
        c.mini_loops
    } else {
        spec_fat_loop_upto(c, k - 1) || spec_walk_loops_in(c, k - 1, false)
    }
}

/// Some walk in the mini-FAT among the first `k` entries looped.
pub open spec fn spec_mini_loop_upto(c: AuditContext, k: int) -> bool
    decreases k,
{
    if k <= 0 {
        false
    } else {
        spec_mini_loop_upto(c, k - 1) || spec_walk_loops_in(c, k - 1, true)
    }
}

/// One chain-loop report per space in which some chain looped.
pub open spec fn spec_loop_part(c: AuditContext) -> Seq<AnomalyView> {
    let n = c.raw.dir_entries.len() as int;
    (if spec_fat_loop_upto(c, n) {
        seq![AnomalyView::StructureAnomaly(IssueView::ChainLoop { space: "FAT"@ })]
    } else {
        Seq::empty()
    }) + (if spec_mini_loop_upto(c, n) {
        seq![AnomalyView::StructureAnomaly(IssueView::ChainLoop { space: "mini-FAT"@ })]
    } else {
        Seq::empty()
    })
}

/// The header byte-order mark is not the little-endian mark.
pub open spec fn spec_byte_order_part(raw: RawCfbView) -> Seq<AnomalyView> {
    if raw.byte_order != BYTE_ORDER_LE {
        seq![AnomalyView::StructureAnomaly(IssueView::BadByteOrder { value: raw.byte_order })]
    } else {
        Seq::empty()
    }
}

/// Every FAT-sector id the DIFAT of the context lists: the header slots, then
/// the DIFAT-sector chain.
pub open spec fn spec_difat_ids(c: AuditContext) -> Seq<u32> {
    spec_fat_ids(c.d, c.raw.sector_size as int, c.raw.first_difat_sector)
}

/// The `k`-th FAT-sector id the DIFAT lists names a sector that is not wholly
/// inside the file.
pub open spec fn spec_difat_part(d: Seq<u8>, ss: int, ids: Seq<u32>, k: int) -> Seq<AnomalyView> {
    let sid = ids[k];
    if spec_sector(d, ss, sid as int) is None {
        seq![AnomalyView::StructureAnomaly(IssueView::DifatOffFile { sid: sid })]
    } else {
        Seq::empty()
    }
}

/// The root storage's provenance: its CLSID as GUID text and its timestamps.
pub open spec fn spec_root_part(raw: RawCfbView) -> Seq<AnomalyView> {
    if spec_has_root(raw) {
        let e = raw.dir_entries[0];
        seq![
            AnomalyView::RootClsid {
                sid: e.sid,
                name: e.name,
                clsid: spec_guid_text(e.clsid),
                create_time: e.create_time,
                modify_time: e.modify_time,
            },
        ]
    } else {
        Seq::empty()
    }
}

/// FAT slot `j` is free, yet its sector is in the file and holds non-zero
/// bytes.
pub open spec fn spec_free_fat_part(d: Seq<u8>, raw: RawCfbView, j: int) -> Seq<AnomalyView> {
    let ss = raw.sector_size as int;
    if raw.fat[j] == FREESECT {
        match spec_sector(d, ss, j) {
            Some(sec) => if spec_count_nonzero(sec) > 0 {
                seq![
                    AnomalyView::FreeSectorResidue {
                        sid: j as u32,
                        space: "FAT"@,
                        offset: ((j + 1) * ss) as u64,
                        residue_len: spec_count_nonzero(sec) as usize,
                    },
                ]
            } else {
                Seq::empty()
            },
            None => Seq::empty(),
        }
    } else {
        Seq::empty()
    }
}

/// Mini-FAT slot `j` is free, yet its mini-sector is in the mini-stream and
/// holds non-zero bytes; the offset is within the mini-stream.
pub open spec fn spec_free_mini_part(c: AuditContext, j: int) -> Seq<AnomalyView> {
    if c.raw.mini_fat[j] == FREESECT {
        match spec_block(c.mini, MINI_SECTOR_SIZE as int, 0, j) {
            Some(blk) => if spec_count_nonzero(blk) > 0 {
                seq![
                    AnomalyView::FreeSectorResidue {
                        sid: j as u32,
                        space: "mini-FAT"@,
                        offset: (j * MINI_SECTOR_SIZE) as u64,
                        residue_len: spec_count_nonzero(blk) as usize,
                    },
                ]
            } else {
                Seq::empty()
            },
            None => Seq::empty(),
        }
    } else {
        Seq::empty()
    }
}

/// Everything `audit_bytes` reports of a decoded file, in order: a bad
/// byte-order mark, DIFAT slots off the file, the root provenance, each
/// entry's orphan / tamper / slack reports, chain loops, then free-sector
/// residue in the FAT and in the mini-FAT.
pub open spec fn spec_audit_decoded(c: AuditContext) -> Seq<AnomalyView> {
    let ss = c.raw.sector_size as int;
    spec_byte_order_part(c.raw) + spec_collect(
        spec_difat_ids(c).len() as int,
        |k: int| spec_difat_part(c.d, ss, spec_difat_ids(c), k),
    ) + spec_root_part(c.raw) + spec_collect(
        c.raw.dir_entries.len() as int,
        |i: int| spec_entry_part(c, i),
    ) + spec_loop_part(c) + spec_collect(
        c.raw.fat.len() as int,
        |j: int| spec_free_fat_part(c.d, c.raw, j),
    ) + spec_collect(c.raw.mini_fat.len() as int, |j: int| spec_free_mini_part(c, j))
}

/// What `audit_bytes` reports of `d`: nothing when `d` does not decode as a
/// compound file.
pub open spec fn spec_audit(d: Seq<u8>) -> Seq<AnomalyView> {
    match spec_decode(d) {
        None => Seq::empty(),
        Some(raw) => spec_audit_decoded(spec_context(d, raw)),
    }
}

proof fn lemma_collect_step(n: int, f: spec_fn(int) -> Seq<AnomalyView>)
    requires
        0 <= n,
    ensures
        spec_collect(n + 1, f) == spec_collect(n, f) + f(n),
{
    assert(n + 1 - 1 == n);
}

proof fn lemma_views_push(s: Seq<OlecfAnomaly>, a: OlecfAnomaly)
    ensures
        views(s.push(a)) == views(s).push(a@),
{
    assert(views(s.push(a)) =~= views(s).push(a@));
}

/// Appends one observation.
fn emit(out: &mut Vec<OlecfAnomaly>, a: OlecfAnomaly)
    ensures
        views(final(out)@) == views(old(out)@).push(a@),
{
    let ghost before = out@;
    out.push(a);
    proof {
        lemma_views_push(before, a);
    }
}

/// Reports a bad byte-order mark and every FAT-sector id the DIFAT lists (in
/// the header or along the DIFAT-sector chain) whose sector is not wholly
/// inside the file.
fn audit_header(data: &[u8], raw: &RawCfb, out: &mut Vec<OlecfAnomaly>)
    requires
        valid_sector_size(raw.sector_size as int),
    ensures
        views(final(out)@) == views(old(out)@) + spec_byte_order_part(raw@) + spec_collect(
            spec_fat_ids(data@, raw.sector_size as int, raw.first_difat_sector).len() as int,
            |k: int|
                spec_difat_part(
                    data@,
                    raw.sector_size as int,
                    spec_fat_ids(data@, raw.sector_size as int, raw.first_difat_sector),
                    k,
                ),
        ),
{
    let ghost base = views(out@);
    if raw.byte_order != BYTE_ORDER_LE {
        emit(out, OlecfAnomaly::StructureAnomaly(StructureIssue::BadByteOrder { value: raw.byte_order }));
    }
    assert(views(out@) =~= base + spec_byte_order_part(raw@));
    let ghost base2 = views(out@);
    let ids = read_fat_sector_ids(data, raw.sector_size, raw.first_difat_sector);
    let ghost f = |k: int| spec_difat_part(data@, raw.sector_size as int, ids@, k);
    for k in 0..ids.len()
        invariant
            valid_sector_size(raw.sector_size as int),
            ids@ == spec_fat_ids(data@, raw.sector_size as int, raw.first_difat_sector),
            f == (|k: int| spec_difat_part(data@, raw.sector_size as int, ids@, k)),
            views(out@) == base2 + spec_collect(k as int, f),
    {
        proof {
            lemma_collect_step(k as int, f);
        }
        let ghost before = views(out@);
        let sid = ids[k];
        if sector_slice(data, raw.sector_size, sid).is_none() {
            emit(out, OlecfAnomaly::StructureAnomaly(StructureIssue::DifatOffFile { sid }));
        }
        assert(views(out@) =~= before + f(k as int));
    }
}

/// Reports the root storage's CLSID and timestamps.
fn audit_root(raw: &RawCfb, out: &mut Vec<OlecfAnomaly>)
    ensures
        views(final(out)@) == views(old(out)@) + spec_root_part(raw@),
{
    let ghost base = views(out@);
    if raw.dir_entries.len() > 0 && raw.dir_entries[0].object_type == 0x05 {
        let e = &raw.dir_entries[0];
        assert(raw@.dir_entries[0] == e@);
        let clsid = format_clsid(&e.clsid);
        emit(
            out,
            OlecfAnomaly::RootClsid {
                sid: e.sid,
                name: e.name.clone(),
                clsid,
                create_time: e.create_time,
                modify_time: e.modify_time,
            },
        );
    }
    assert(views(out@) =~= base + spec_root_part(raw@));
}

/// `n` rounded up to a multiple of `unit`.
fn round_up(n: u64, unit: u64) -> (r: u64)
    requires
        0 < unit,
        n + unit <= u64::MAX,
    ensures
        r == spec_round_up(n as int, unit as int),
{
    let x = n + unit - 1;
    let q = x / unit;
    assert(q * unit <= x) by (nonlinear_arith)
        requires
            q == x / unit,
            0 < unit,
            0 <= x,
    ;
    q * unit
}

/// True when some byte of the class id is non-zero.
fn clsid_nonzero(c: &[u8; 16]) -> (r: bool)
    ensures
        r == spec_nonzero_clsid(c@),
{
    for j in 0..16
        invariant
            c@.len() == 16,
            forall|k: int| 0 <= k < j ==> c@[k] == 0,
    {
        if c[j] != 0 {
            return true;
        }
    }
    false
}

/// The audit context's relation to the executable values it is read from.
pub open spec fn context_holds(
    data: Seq<u8>,
    raw: RawCfb,
    reach: Seq<bool>,
    mini: Seq<u8>,
) -> bool {
    &&& valid_sector_size(raw.sector_size as int)
    &&& reach == spec_context(data, raw@).reach
    &&& mini == spec_context(data, raw@).mini
}

/// A planned walk as a mathematical value.
pub open spec fn walk_of(w: Option<(bool, u64, u64)>) -> Option<Walk> {
    match w {
        Some((m, t, f)) => Some(Walk { in_mini: m, total: t as int, from: f as int }),
        None => None,
    }
}

/// Plans the walk of entry `i`.
fn plan_walk(data: &[u8], raw: &RawCfb, reach: &Vec<bool>, i: usize) -> (w: Option<(bool, u64, u64)>)
    requires
        valid_sector_size(raw.sector_size as int),
        reach@ == spec_context(data@, raw@).reach,
        i < raw.dir_entries@.len(),
    ensures
        walk_of(w) == spec_entry_walk(spec_context(data@, raw@), i as int),
{
    let e = &raw.dir_entries[i];
    assert(raw@.dir_entries[i as int] == e@);
    let reached = reach[i];
    let size = e.stream_size;
    let in_mini = size < MINI_STREAM_CUTOFF_VALUE as u64;
    let ss = raw.sector_size as u64;
    let len = data.len() as u64;
    if e.object_type != 0x02 {
        None
    } else if !reached {
        Some((in_mini, size, size))
    } else if size == 0 {
        None
    } else if in_mini {
        Some((true, round_up(size, MINI_SECTOR_SIZE as u64), size))
    } else if ss <= len && size <= len - ss {
        Some((false, round_up(size, ss), size))
    } else {
        None
    }
}

/// Makes a planned walk from `start`.
fn run_walk(
    data: &[u8],
    raw: &RawCfb,
    mini: &Vec<u8>,
    start: u32,
    w: (bool, u64, u64),
) -> (cv: Carve)
    requires
        valid_sector_size(raw.sector_size as int),
        mini@ == spec_context(data@, raw@).mini,
    ensures
        cv.carved == spec_walk_carve(spec_context(data@, raw@), start, walk_of(Some(w)).unwrap()).len(),
        cv.tail@ == spec_tail(
            spec_walk_carve(spec_context(data@, raw@), start, walk_of(Some(w)).unwrap()),
            w.2 as int,
        ),
        cv.looped == spec_walk_loops(spec_context(data@, raw@), start, walk_of(Some(w)).unwrap()),
{
    let (m, t, f) = w;
    if m {
        carve_chain(mini.as_slice(), MINI_SECTOR_SIZE, 0, raw.mini_fat.as_slice(), start, t, f)
    } else {
        carve_chain(data, raw.sector_size, 1, raw.fat.as_slice(), start, t, f)
    }
}

/// Reports entry `e` as an orphan when it is one.
fn emit_orphan(e: &DirEntry, reached: bool, carved_len: usize, out: &mut Vec<OlecfAnomaly>)
    ensures
        views(final(out)@) == views(old(out)@) + spec_orphan_of(e@, reached, carved_len),
{
    let ghost base = views(out@);
    if (e.object_type == 0x01 || e.object_type == 0x02) && !reached {
        emit(
            out,
            OlecfAnomaly::OrphanedDirEntry(
                OrphanDetail {
                    sid: e.sid,
                    name: e.name.clone(),
                    object_type: e.object_type,
                    stream_size: e.stream_size,
                    start_sector: e.start_sector,
                    create_time: e.create_time,
                    modify_time: e.modify_time,
                    carved_len,
                },
            ),
        );
    }
    assert(views(out@) =~= base + spec_orphan_of(e@, reached, carved_len));
}

/// Reports the tamper tells of entry `e`.
fn emit_tamper(e: &DirEntry, out: &mut Vec<OlecfAnomaly>)
    ensures
        views(final(out)@) == views(old(out)@) + spec_tamper_of(e@),
{
    let ghost base = views(out@);
    if e.object_type == 0x02 {
        if clsid_nonzero(&e.clsid) {
            emit(
                out,
                OlecfAnomaly::StructureAnomaly(
                    StructureIssue::StreamNonZeroClsid { sid: e.sid, name: e.name.clone() },
                ),
            );
        }
        if e.state_bits != 0 {
            emit(
                out,
                OlecfAnomaly::StructureAnomaly(
                    StructureIssue::StreamNonZeroStateBits {
                        sid: e.sid,
                        name: e.name.clone(),
                        state_bits: e.state_bits,
                    },
                ),
            );
        }
        if e.create_time != 0 || e.modify_time != 0 {
            emit(
                out,
                OlecfAnomaly::StructureAnomaly(
                    StructureIssue::StreamNonZeroFiletime { sid: e.sid, name: e.name.clone() },
                ),
            );
        }
    }
    assert(views(out@) =~= base + spec_tamper_of(e@));
}

/// Reports the slack of entry `e` from the carve of its walk: `carved` bytes
/// in all, `tail` of them past the declared size.
fn emit_slack(
    e: &DirEntry,
    reached: bool,
    w: Option<(bool, u64, u64)>,
    carved: u64,
    tail: &[u8],
    out: &mut Vec<OlecfAnomaly>,
)
    ensures
        views(final(out)@) == views(old(out)@) + spec_slack_of(
            e@,
            reached,
            walk_of(w),
            carved as int,
            tail@,
        ),
{
    let ghost base = views(out@);
    match w {
        Some((m, t, _f)) => {
            if reached && carved == t {
                let n = count_nonzero(tail);
                if n > 0 {
                    let space: &'static str = if m {
                        "mini-FAT"
                    } else {
                        "FAT"
                    };
                    emit(
                        out,
                        OlecfAnomaly::SlackResidue { sid: e.sid, name: e.name.clone(), space, slack_len: n },
                    );
                }
            }
        },
        None => {},
    }
    assert(views(out@) =~= base + spec_slack_of(e@, reached, walk_of(w), carved as int, tail@));
}

/// Reports entry `i`: whether it is an orphan (and how much of it is
/// recoverable), its tamper tells, and its slack. Returns whether the walk
/// along its chain looped, in the FAT and in the mini-FAT.
fn audit_entry(
    data: &[u8],
    raw: &RawCfb,
    reach: &Vec<bool>,
    mini: &Vec<u8>,
    i: usize,
    out: &mut Vec<OlecfAnomaly>,
) -> (flags: (bool, bool))
    requires
        context_holds(data@, *raw, reach@, mini@),
        i < raw.dir_entries@.len(),
    ensures
        views(final(out)@) == views(old(out)@) + spec_entry_part(spec_context(data@, raw@), i as int),
        flags.0 == spec_walk_loops_in(spec_context(data@, raw@), i as int, false),
        flags.1 == spec_walk_loops_in(spec_context(data@, raw@), i as int, true),
{
    let ghost c = spec_context(data@, raw@);
    let ghost base = views(out@);
    let e = &raw.dir_entries[i];
    assert(raw@.dir_entries[i as int] == e@);
    let reached = reach[i];
    let w = plan_walk(data, raw, reach, i);
    let mut carved: u64 = 0;
    let mut tail: Vec<u8> = Vec::new();
    let mut fat_looped = false;
    let mut mini_looped = false;
    match w {
        Some(wv) => {
            let cv = run_walk(data, raw, mini, e.start_sector, wv);
            carved = cv.carved;
            tail = cv.tail;
            if wv.0 {
                mini_looped = cv.looped;
            } else {
                fat_looped = cv.looped;
            }
        },
        None => {},
    }
    assert(carved == spec_entry_carve(c, i as int).len());
    emit_orphan(e, reached, carved as usize, out);
    emit_tamper(e, out);
    emit_slack(e, reached, w, carved, tail.as_slice(), out);
    assert(views(out@) =~= base + spec_entry_part(c, i as int));
    (fat_looped, mini_looped)
}

/// Materializes the mini-stream (the root entry's stream, at most
/// `MAX_MINI_STREAM` bytes) and says whether its FAT chain looped.
fn read_mini_stream(data: &[u8], raw: &RawCfb) -> (r: (Vec<u8>, bool))
    requires
        valid_sector_size(raw.sector_size as int),
    ensures
        r.0@ == spec_mini_stream(data@, raw@),
        r.1 == spec_mini_stream_loops(data@, raw@),
{
    if raw.dir_entries.len() > 0 && raw.dir_entries[0].object_type == 0x05 {
        let root = &raw.dir_entries[0];
        assert(raw@.dir_entries[0] == root@);
        let total: u64 = if root.stream_size < MAX_MINI_STREAM as u64 {
            root.stream_size
        } else {
            MAX_MINI_STREAM as u64
        };
        let cv = carve_chain(data, raw.sector_size, 1, raw.fat.as_slice(), root.start_sector, total, 0);
        let ghost full = spec_carve(
            data@,
            raw.sector_size as int,
            1,
            raw.fat@,
            root.start_sector,
            total as int,
            Set::empty(),
        );
        assert(full.skip(0) =~= full);
        (cv.tail, cv.looped)
    } else {
        (Vec::new(), false)
    }
}

/// Reports every orphan, tamper tell and slack of the directory, and says
/// whether some chain looped in the FAT and in the mini-FAT.
fn audit_entries(
    data: &[u8],
    raw: &RawCfb,
    reach: &Vec<bool>,
    mini: &Vec<u8>,
    mini_loops: bool,
    out: &mut Vec<OlecfAnomaly>,
) -> (flags: (bool, bool))
    requires
        context_holds(data@, *raw, reach@, mini@),
        mini_loops == spec_context(data@, raw@).mini_loops,
    ensures
        views(final(out)@) == views(old(out)@) + spec_collect(
            raw@.dir_entries.len() as int,
            |i: int| spec_entry_part(spec_context(data@, raw@), i),
        ),
        flags.0 == spec_fat_loop_upto(spec_context(data@, raw@), raw@.dir_entries.len() as int),
        flags.1 == spec_mini_loop_upto(spec_context(data@, raw@), raw@.dir_entries.len() as int),
{
    let ghost c = spec_context(data@, raw@);
    let ghost f = |i: int| spec_entry_part(c, i);
    let ghost base = views(out@);
    let mut fat_loop = mini_loops;
    let mut mini_loop = false;
    for i in 0..raw.dir_entries.len()
        invariant
            context_holds(data@, *raw, reach@, mini@),
            c == spec_context(data@, raw@),
            f == (|i: int| spec_entry_part(c, i)),
            views(out@) == base + spec_collect(i as int, f),
            fat_loop == spec_fat_loop_upto(c, i as int),
            mini_loop == spec_mini_loop_upto(c, i as int),
    {
        proof {
            lemma_collect_step(i as int, f);
        }
        let flags = audit_entry(data, raw, reach, mini, i, out);
        fat_loop = fat_loop || flags.0;
        mini_loop = mini_loop || flags.1;
        proof {
            assert(i + 1 - 1 == i);
        }
    }
    proof {
        assert(raw@.dir_entries.len() == raw.dir_entries@.len());
    }
    (fat_loop, mini_loop)
}

/// Reports one chain loop per space in which some chain looped.
fn audit_loops(fat_loop: bool, mini_loop: bool, out: &mut Vec<OlecfAnomaly>)
    ensures
        views(final(out)@) == views(old(out)@) + (if fat_loop {
            seq![AnomalyView::StructureAnomaly(IssueView::ChainLoop { space: "FAT"@ })]
        } else {
            Seq::empty()
        }) + (if mini_loop {
            seq![AnomalyView::StructureAnomaly(IssueView::ChainLoop { space: "mini-FAT"@ })]
        } else {
            Seq::empty()
        }),
{
    let ghost base = views(out@);
    if fat_loop {
        emit(out, OlecfAnomaly::StructureAnomaly(StructureIssue::ChainLoop { space: "FAT" }));
    }
    let ghost mid = views(out@);
    if mini_loop {
        emit(out, OlecfAnomaly::StructureAnomaly(StructureIssue::ChainLoop { space: "mini-FAT" }));
    }
    assert(views(out@) =~= base + (if fat_loop {
        seq![AnomalyView::StructureAnomaly(IssueView::ChainLoop { space: "FAT"@ })]
    } else {
        Seq::empty()
    }) + (if mini_loop {
        seq![AnomalyView::StructureAnomaly(IssueView::ChainLoop { space: "mini-FAT"@ })]
    } else {
        Seq::empty()
    }));
}

/// Reports every free FAT slot whose sector still holds non-zero bytes.
fn audit_free_fat(data: &[u8], raw: &RawCfb, out: &mut Vec<OlecfAnomaly>)
    requires
        valid_sector_size(raw.sector_size as int),
        raw.fat@.len() <= crate::layout::MAX_SECTORS,
    ensures
        views(final(out)@) == views(old(out)@) + spec_collect(
            raw@.fat.len() as int,
            |j: int| spec_free_fat_part(data@, raw@, j),
        ),
{
    let ghost f = |j: int| spec_free_fat_part(data@, raw@, j);
    let ghost base = views(out@);
    for j in 0..raw.fat.len()
        invariant
            valid_sector_size(raw.sector_size as int),
            raw.fat@.len() <= crate::layout::MAX_SECTORS,
            f == (|j: int| spec_free_fat_part(data@, raw@, j)),
            views(out@) == base + spec_collect(j as int, f),
    {
        proof {
            lemma_collect_step(j as int, f);
        }
        let ghost before = views(out@);
        if raw.fat[j] == FREESECT {
            match sector_slice(data, raw.sector_size, j as u32) {
                Some(sec) => {
                    let n = count_nonzero(sec);
                    if n > 0 {
                        assert((j + 1) * raw.sector_size <= 0x10_0000_0000_0000) by (nonlinear_arith)
                            requires
                                j < 0x100_0000,
                                raw.sector_size <= 1048576,
                        ;
                        let offset = (j as u64 + 1) * (raw.sector_size as u64);
                        emit(
                            out,
                            OlecfAnomaly::FreeSectorResidue {
                                sid: j as u32,
                                space: "FAT",
                                offset,
                                residue_len: n,
                            },
                        );
                    }
                },
                None => {},
            }
        }
        assert(views(out@) =~= before + f(j as int));
    }
}

/// Reports every free mini-FAT slot whose mini-sector still holds non-zero
/// bytes.
fn audit_free_mini(data: &[u8], raw: &RawCfb, mini: &Vec<u8>, out: &mut Vec<OlecfAnomaly>)
    requires
        mini@ == spec_context(data@, raw@).mini,
        raw.mini_fat@.len() <= crate::layout::MAX_SECTORS,
    ensures
        views(final(out)@) == views(old(out)@) + spec_collect(
            raw@.mini_fat.len() as int,
            |j: int| spec_free_mini_part(spec_context(data@, raw@), j),
        ),
{
    let ghost c = spec_context(data@, raw@);
    let ghost f = |j: int| spec_free_mini_part(c, j);
    let ghost base = views(out@);
    for j in 0..raw.mini_fat.len()
        invariant
            mini@ == c.mini,
            c == spec_context(data@, raw@),
            raw.mini_fat@.len() <= crate::layout::MAX_SECTORS,
            f == (|j: int| spec_free_mini_part(c, j)),
            views(out@) == base + spec_collect(j as int, f),
    {
        proof {
            lemma_collect_step(j as int, f);
        }
        let ghost before = views(out@);
        if raw.mini_fat[j] == FREESECT {
            let start = j * MINI_SECTOR_SIZE;
            if start <= mini.len() && mini.len() - start >= MINI_SECTOR_SIZE {
                let blk = vstd::slice::slice_subrange(mini.as_slice(), start, start + MINI_SECTOR_SIZE);
                let n = count_nonzero(blk);
                if n > 0 {
                    emit(
                        out,
                        OlecfAnomaly::FreeSectorResidue {
                            sid: j as u32,
                            space: "mini-FAT",
                            offset: start as u64,
                            residue_len: n,
                        },
                    );
                }
            }
        }
        assert(views(out@) =~= before + f(j as int));
    }
}

/// Audits a compound file: decodes its header, FAT, mini-FAT and directory
/// independently of any live reader and reports, as hedged observations,
/// structure anomalies, the root provenance, orphaned directory entries with
/// their recoverable length, stream tamper tells, slack, chain loops and
/// free-sector residue. Input that does not decode as a compound file yields
/// no observation.
pub fn audit_bytes(data: &[u8]) -> (out: Vec<OlecfAnomaly>)
    ensures
        views(out@) == spec_audit(data@),
{
    let mut out: Vec<OlecfAnomaly> = Vec::new();
    let raw = match decode(data) {
        None => {
            assert(views(out@) =~= Seq::<AnomalyView>::empty());
            return out;
        },
        Some(raw) => raw,
    };
    let ghost c = spec_context(data@, raw@);
    let reach = reachable_sids(raw.dir_entries.as_slice());
    assert(reach@ =~= c.reach);
    let (mini, mini_loops) = read_mini_stream(data, &raw);
    proof {
        crate::raw::lemma_cap_len_le(raw.fat@, raw.mini_fat@, data@, raw@);
    }
    assert(views(out@) =~= Seq::<AnomalyView>::empty());
    audit_header(data, &raw, &mut out);
    audit_root(&raw, &mut out);
    let flags = audit_entries(data, &raw, &reach, &mini, mini_loops, &mut out);
    audit_loops(flags.0, flags.1, &mut out);
    audit_free_fat(data, &raw, &mut out);
    audit_free_mini(data, &raw, &mini, &mut out);
    assert(views(out@) =~= spec_audit(data@));
    out
}

} // verus!
