//! Properties of the audit's reports, one kind of observation at a time:
//! which inputs give a report of that kind, what it carries, and that it is
//! not given twice.
use vstd::prelude::*;
use crate::anomaly::{AnomalyView, IssueView};
use crate::audit::{
    spec_audit, spec_audit_decoded, spec_byte_order_part, spec_collect, spec_context,
    spec_difat_ids, spec_difat_part, spec_entry_part, spec_free_fat_part, spec_free_mini_part,
    spec_has_root, spec_loop_part, spec_orphan_part, spec_root_part, spec_slack_part,
    spec_tamper_part, AuditContext,
};
use crate::raw::{spec_decode, spec_fat_ids, spec_sector, RawCfbView};

verus! {

// ---------------------------------------------------------------------------
// Where a report stands in the audit
// ---------------------------------------------------------------------------

/// Where part `m` of `ps` starts in their concatenation.
pub open spec fn part_start(ps: Seq<Seq<AnomalyView>>, m: int) -> int
    decreases m,
{
    if m <= 0 {
        0
    } else {
        part_start(ps, m - 1) + ps[m - 1].len()
    }
}

/// The first `m` parts of `ps`, concatenated.
pub open spec fn joined(ps: Seq<Seq<AnomalyView>>, m: int) -> Seq<AnomalyView>
    decreases m,
{
    if m <= 0 {
        Seq::empty()
    } else {
        joined(ps, m - 1) + ps[m - 1]
    }
}

proof fn lemma_joined_len(ps: Seq<Seq<AnomalyView>>, m: int)
    requires
        0 <= m <= ps.len(),
    ensures
        joined(ps, m).len() == part_start(ps, m),
    decreases m,
{
    if m > 0 {
        lemma_joined_len(ps, m - 1);
    }
}

proof fn lemma_joined_locate(ps: Seq<Seq<AnomalyView>>, m: int, k: int) -> (q: int)
    requires
        0 <= m <= ps.len(),
        0 <= k < joined(ps, m).len(),
    ensures
        0 <= q < m,
        part_start(ps, q) <= k < part_start(ps, q) + ps[q].len(),
        joined(ps, m)[k] == ps[q][k - part_start(ps, q)],
    decreases m,
{
    lemma_joined_len(ps, m - 1);
    if k < joined(ps, m - 1).len() {
        let q = lemma_joined_locate(ps, m - 1, k);
        q
    } else {
        m - 1
    }
}

proof fn lemma_joined_at(ps: Seq<Seq<AnomalyView>>, m: int, q: int, j: int)
    requires
        0 <= q < m <= ps.len(),
        0 <= j < ps[q].len(),
    ensures
        0 <= part_start(ps, q),
        part_start(ps, q) + j < joined(ps, m).len(),
        joined(ps, m)[part_start(ps, q) + j] == ps[q][j],
    decreases m,
{
    lemma_joined_len(ps, m - 1);
    lemma_joined_len(ps, q);
    if q < m - 1 {
        lemma_joined_at(ps, m - 1, q, j);
    }
}

proof fn lemma_collect_joined(n: int, f: spec_fn(int) -> Seq<AnomalyView>)
    requires
        0 <= n,
    ensures
        spec_collect(n, f) == joined(Seq::new(n as nat, f), n),
    decreases n,
{
    if n > 0 {
        lemma_collect_joined(n - 1, f);
        lemma_joined_prefix(Seq::new(n as nat, f), Seq::new((n - 1) as nat, f), n - 1);
    }
}

proof fn lemma_joined_prefix(ps: Seq<Seq<AnomalyView>>, qs: Seq<Seq<AnomalyView>>, m: int)
    requires
        0 <= m <= ps.len(),
        m <= qs.len(),
        forall|i: int| 0 <= i < m ==> ps[i] == qs[i],
    ensures
        joined(ps, m) == joined(qs, m),
    decreases m,
{
    if m > 0 {
        lemma_joined_prefix(ps, qs, m - 1);
    }
}

/// The seven parts of the audit of a decoded file, in order.
pub open spec fn audit_parts(c: AuditContext) -> Seq<Seq<AnomalyView>> {
    let ss = c.raw.sector_size as int;
    seq![
        spec_byte_order_part(c.raw),
        spec_collect(
            spec_difat_ids(c).len() as int,
            |k: int| spec_difat_part(c.d, ss, spec_difat_ids(c), k),
        ),
        spec_root_part(c.raw),
        spec_collect(c.raw.dir_entries.len() as int, |i: int| spec_entry_part(c, i)),
        spec_loop_part(c),
        spec_collect(c.raw.fat.len() as int, |j: int| spec_free_fat_part(c.d, c.raw, j)),
        spec_collect(c.raw.mini_fat.len() as int, |j: int| spec_free_mini_part(c, j)),
    ]
}

proof fn lemma_audit_joined(c: AuditContext)
    ensures
        spec_audit_decoded(c) == joined(audit_parts(c), 7),
{
    let ps = audit_parts(c);
    reveal_with_fuel(joined, 8);
    assert(spec_audit_decoded(c) =~= joined(ps, 7));
}

/// A stream tamper tell.
pub open spec fn is_tamper_tell(a: AnomalyView) -> bool {
    match a {
        AnomalyView::StructureAnomaly(i) => match i {
            IssueView::StreamNonZeroClsid { .. } => true,
            IssueView::StreamNonZeroStateBits { .. } => true,
            IssueView::StreamNonZeroFiletime { .. } => true,
            _ => false,
        },
        _ => false,
    }
}

/// The kinds of report part `m` of the audit can hold.
pub open spec fn part_kind(m: int, a: AnomalyView) -> bool {
    if m == 0 {
        a matches AnomalyView::StructureAnomaly(IssueView::BadByteOrder { .. })
    } else if m == 1 {
        a matches AnomalyView::StructureAnomaly(IssueView::DifatOffFile { .. })
    } else if m == 2 {
        a is RootClsid
    } else if m == 3 {
        a is OrphanedDirEntry || a is SlackResidue || is_tamper_tell(a)
    } else if m == 4 {
        a matches AnomalyView::StructureAnomaly(IssueView::ChainLoop { .. })
    } else if m == 5 {
        a matches AnomalyView::FreeSectorResidue { space, .. } && space == "FAT"@
    } else {
        a matches AnomalyView::FreeSectorResidue { space, .. } && space == "mini-FAT"@
    }
}

proof fn lemma_entry_part_kind(c: AuditContext, i: int, j: int)
    requires
        0 <= j < spec_entry_part(c, i).len(),
    ensures
        part_kind(3, spec_entry_part(c, i)[j]),
{
    let o = spec_orphan_part(c, i);
    let t = spec_tamper_part(c, i);
    let s = spec_slack_part(c, i);
    assert(spec_entry_part(c, i) == o + t + s);
    if j < o.len() {
        assert(spec_entry_part(c, i)[j] == o[j]);
    } else if j < o.len() + t.len() {
        assert(spec_entry_part(c, i)[j] == t[j - o.len()]);
    } else {
        assert(spec_entry_part(c, i)[j] == s[j - o.len() - t.len()]);
    }
}

proof fn lemma_part_kind(c: AuditContext, m: int, j: int)
    requires
        0 <= m < 7,
        0 <= j < audit_parts(c)[m].len(),
    ensures
        part_kind(m, audit_parts(c)[m][j]),
{
    reveal_strlit("FAT");
    reveal_strlit("mini-FAT");
    let ps = audit_parts(c);
    let ss = c.raw.sector_size as int;
    if m == 1 {
        let f = |k: int| spec_difat_part(c.d, ss, spec_difat_ids(c), k);
        lemma_collect_joined(spec_difat_ids(c).len() as int, f);
        let q = lemma_joined_locate(
            Seq::new(spec_difat_ids(c).len(), f),
            spec_difat_ids(c).len() as int,
            j,
        );
    } else if m == 3 {
        let f = |i: int| spec_entry_part(c, i);
        let n = c.raw.dir_entries.len() as int;
        lemma_collect_joined(n, f);
        let q = lemma_joined_locate(Seq::new(n as nat, f), n, j);
        lemma_entry_part_kind(c, q, j - part_start(Seq::new(n as nat, f), q));
    } else if m == 4 {
        let l = spec_loop_part(c);
        assert(part_kind(4, l[j]));
    } else if m == 5 {
        let f = |k: int| spec_free_fat_part(c.d, c.raw, k);
        let n = c.raw.fat.len() as int;
        lemma_collect_joined(n, f);
        let q = lemma_joined_locate(Seq::new(n as nat, f), n, j);
    } else if m == 6 {
        let f = |k: int| spec_free_mini_part(c, k);
        let n = c.raw.mini_fat.len() as int;
        lemma_collect_joined(n, f);
        let q = lemma_joined_locate(Seq::new(n as nat, f), n, j);
    }
}

/// Report `k` of the audit of a decoded file lies in part `m`, at `j`, and is
/// of the kind that part holds.
proof fn lemma_audit_locate(c: AuditContext, k: int) -> (m: int)
    requires
        0 <= k < spec_audit_decoded(c).len(),
    ensures
        0 <= m < 7,
        part_start(audit_parts(c), m) <= k < part_start(audit_parts(c), m) + audit_parts(c)[m].len(),
        spec_audit_decoded(c)[k] == audit_parts(c)[m][k - part_start(audit_parts(c), m)],
        part_kind(m, spec_audit_decoded(c)[k]),
{
    lemma_audit_joined(c);
    let m = lemma_joined_locate(audit_parts(c), 7, k);
    lemma_part_kind(c, m, k - part_start(audit_parts(c), m));
    m
}

/// Report `j` of part `m` stands in the audit.
proof fn lemma_audit_has(c: AuditContext, m: int, j: int)
    requires
        0 <= m < 7,
        0 <= j < audit_parts(c)[m].len(),
    ensures
        0 <= part_start(audit_parts(c), m) + j < spec_audit_decoded(c).len(),
        spec_audit_decoded(c)[part_start(audit_parts(c), m) + j] == audit_parts(c)[m][j],
{
    lemma_audit_joined(c);
    lemma_joined_at(audit_parts(c), 7, m, j);
}

/// Item `j` of `f(i)` stands in `spec_collect(n, f)`.
proof fn lemma_collect_at(n: int, f: spec_fn(int) -> Seq<AnomalyView>, i: int, j: int) -> (k: int)
    requires
        0 <= i < n,
        0 <= j < f(i).len(),
    ensures
        0 <= k < spec_collect(n, f).len(),
        spec_collect(n, f)[k] == f(i)[j],
{
    lemma_collect_joined(n, f);
    lemma_joined_at(Seq::new(n as nat, f), n, i, j);
    part_start(Seq::new(n as nat, f), i) + j
}

/// Item `k` of `spec_collect(n, f)` is item `k - part_start(.., i)` of `f(i)`.
proof fn lemma_collect_locate(n: int, f: spec_fn(int) -> Seq<AnomalyView>, k: int) -> (i: int)
    requires
        0 <= n,
        0 <= k < spec_collect(n, f).len(),
    ensures
        0 <= i < n,
        part_start(Seq::new(n as nat, f), i) <= k < part_start(Seq::new(n as nat, f), i) + f(i).len(),
        spec_collect(n, f)[k] == f(i)[k - part_start(Seq::new(n as nat, f), i)],
{
    lemma_collect_joined(n, f);
    lemma_joined_locate(Seq::new(n as nat, f), n, k)
}

/// The decode of `d`.
pub open spec fn decoded(d: Seq<u8>) -> RawCfbView {
    spec_decode(d).unwrap()
}

/// The audit context of `d`.
pub open spec fn context_of(d: Seq<u8>) -> AuditContext {
    spec_context(d, decoded(d))
}

// ---------------------------------------------------------------------------
// FAT sectors the DIFAT lists outside the file
// ---------------------------------------------------------------------------

/// The sector a DIFAT off-file report names.
pub open spec fn difat_report_sid(a: AnomalyView) -> Option<u32> {
    match a {
        AnomalyView::StructureAnomaly(IssueView::DifatOffFile { sid }) => Some(sid),
        _ => None,
    }
}

/// Every FAT-sector id the DIFAT of `d` lists, in the header slots and along
/// the DIFAT-sector chain.
pub open spec fn listed_fat_ids(d: Seq<u8>) -> Seq<u32> {
    spec_fat_ids(d, decoded(d).sector_size as int, decoded(d).first_difat_sector)
}

/// Listing `m` of the DIFAT of `d` names a FAT sector that is not wholly
/// inside the file.
pub open spec fn listed_off_file(d: Seq<u8>, m: int) -> bool {
    &&& 0 <= m < listed_fat_ids(d).len()
    &&& spec_sector(d, decoded(d).sector_size as int, listed_fat_ids(d)[m] as int) is None
}

/// The DIFAT off-file report of FAT sector `sid`.
pub open spec fn difat_report(sid: u32) -> AnomalyView {
    AnomalyView::StructureAnomaly(IssueView::DifatOffFile { sid: sid })
}

/// DIFAT off-file reports name exactly the FAT-sector ids the DIFAT lists, in
/// its header slots or along its DIFAT-sector chain, whose sector is not
/// wholly inside the file: each such listing is reported, and nothing else is.
pub proof fn law_difat_reports_are_the_off_file_ids(d: Seq<u8>)
    requires
        spec_decode(d) is Some,
    ensures
        forall|k: int|
            (0 <= k < spec_audit(d).len() && #[trigger] difat_report_sid(spec_audit(d)[k]) is Some)
                ==> (exists|m: int|
                listed_off_file(d, m) && listed_fat_ids(d)[m] == difat_report_sid(
                    spec_audit(d)[k],
                ).unwrap()),
        forall|m: int|
            #[trigger] listed_off_file(d, m) ==> (exists|k: int|
                0 <= k < spec_audit(d).len() && spec_audit(d)[k] == difat_report(
                    listed_fat_ids(d)[m],
                )),
{
    let c = context_of(d);
    let ss = c.raw.sector_size as int;
    let ids = listed_fat_ids(d);
    let f = |k: int| spec_difat_part(c.d, ss, spec_difat_ids(c), k);
    let n = ids.len() as int;
    let a = spec_audit(d);
    assert(a == spec_audit_decoded(c));
    assert forall|k: int|
        0 <= k < a.len() && #[trigger] difat_report_sid(a[k]) is Some implies exists|m: int|
        listed_off_file(d, m) && ids[m] == difat_report_sid(a[k]).unwrap() by {
        let p = lemma_audit_locate(c, k);
        assert(p == 1);
        let i = lemma_collect_locate(n, f, k - part_start(audit_parts(c), 1));
        assert(f(i).len() > 0);
    }
    assert forall|m: int| #[trigger] listed_off_file(d, m) implies exists|k: int|
        0 <= k < a.len() && a[k] == difat_report(ids[m]) by {
        let j = lemma_collect_at(n, f, m, 0);
        lemma_audit_has(c, 1, j);
    }
}

// ---------------------------------------------------------------------------
// The root provenance
// ---------------------------------------------------------------------------

/// The root provenance report of entry 0 of `raw`.
pub open spec fn root_report(raw: RawCfbView) -> AnomalyView {
    AnomalyView::RootClsid {
        sid: 0,
        name: raw.dir_entries[0].name,
        clsid: crate::text::spec_guid_text(raw.dir_entries[0].clsid),
        create_time: raw.dir_entries[0].create_time,
        modify_time: raw.dir_entries[0].modify_time,
    }
}

/// The audit gives at most one root provenance report; it gives one exactly
/// when entry 0 is the root storage, and then it carries entry 0's name, its
/// CLSID as GUID text and its timestamps.
pub proof fn law_root_provenance_is_reported_once(d: Seq<u8>)
    requires
        spec_decode(d) is Some,
    ensures
        forall|k1: int, k2: int|
            (0 <= k1 < spec_audit(d).len() && 0 <= k2 < spec_audit(d).len() && (#[trigger] spec_audit(
                d,
            )[k1] is RootClsid) && (#[trigger] spec_audit(d)[k2] is RootClsid)) ==> k1 == k2,
        spec_has_root(decoded(d)) ==> (exists|k: int|
            0 <= k < spec_audit(d).len() && spec_audit(d)[k] == root_report(decoded(d))),
        !spec_has_root(decoded(d)) ==> (forall|k: int|
            0 <= k < spec_audit(d).len() ==> !(#[trigger] spec_audit(d)[k] is RootClsid)),
{
    let c = context_of(d);
    let a = spec_audit(d);
    let ps = audit_parts(c);
    assert(a == spec_audit_decoded(c));
    assert(ps[2].len() <= 1);
    assert forall|k1: int, k2: int|
        0 <= k1 < a.len() && 0 <= k2 < a.len() && #[trigger] a[k1] is RootClsid
            && #[trigger] a[k2] is RootClsid implies k1 == k2 by {
        let m1 = lemma_audit_locate(c, k1);
        let m2 = lemma_audit_locate(c, k2);
        assert(m1 == 2 && m2 == 2);
    }
    if spec_has_root(decoded(d)) {
        crate::laws::law_entries_are_numbered_in_order(d, 0);
        lemma_audit_has(c, 2, 0);
    } else {
        assert forall|k: int| 0 <= k < a.len() implies !(#[trigger] a[k] is RootClsid) by {
            let m = lemma_audit_locate(c, k);
        }
    }
}

// ---------------------------------------------------------------------------
// Per-entry reports
// ---------------------------------------------------------------------------

/// Some report of the audit of `d` is `x`.
pub open spec fn reported(d: Seq<u8>, x: AnomalyView) -> bool {
    exists|k: int| 0 <= k < spec_audit(d).len() && spec_audit(d)[k] == x
}

/// What a report found in entry `q`'s part says of entry `q`: an orphan
/// report comes first and copies the entry; a tamper tell names the entry and
/// the field that is not zero; a slack report names the live stream and
/// counts fewer non-zero bytes than one sector (or mini-sector) holds.
pub open spec fn entry_report_fits(c: AuditContext, q: int, j: int, a: AnomalyView) -> bool {
    let e = c.raw.dir_entries[q];
    match a {
        AnomalyView::OrphanedDirEntry(o) => {
            &&& j == 0
            &&& a == spec_orphan_part(c, q)[0]
            &&& o.sid == e.sid
            &&& o.name == e.name
            &&& o.object_type == e.object_type
            &&& o.stream_size == e.stream_size
            &&& o.start_sector == e.start_sector
            &&& o.create_time == e.create_time
            &&& o.modify_time == e.modify_time
            &&& o.carved_len as int == crate::audit::spec_entry_carve(c, q).len() as usize
            &&& (e.object_type == 0x01 || e.object_type == 0x02)
            &&& !c.reach[q]
        },
        AnomalyView::StructureAnomaly(IssueView::StreamNonZeroClsid { sid, name }) => {
            &&& e.object_type == 0x02
            &&& sid == e.sid
            &&& name == e.name
            &&& crate::audit::spec_nonzero_clsid(e.clsid)
        },
        AnomalyView::StructureAnomaly(IssueView::StreamNonZeroStateBits { sid, name, state_bits }) => {
            &&& e.object_type == 0x02
            &&& sid == e.sid
            &&& name == e.name
            &&& state_bits == e.state_bits
            &&& e.state_bits != 0
        },
        AnomalyView::StructureAnomaly(IssueView::StreamNonZeroFiletime { sid, name }) => {
            &&& e.object_type == 0x02
            &&& sid == e.sid
            &&& name == e.name
            &&& (e.create_time != 0 || e.modify_time != 0)
        },
        AnomalyView::SlackResidue { sid, name, space, slack_len } => {
            &&& e.object_type == 0x02
            &&& sid == e.sid
            &&& name == e.name
            &&& c.reach[q]
            &&& crate::audit::spec_entry_walk(c, q) is Some
            &&& crate::audit::spec_entry_carve(c, q).len() == crate::audit::spec_entry_walk(c, q).unwrap().total
            &&& space == crate::audit::spec_space(crate::audit::spec_entry_walk(c, q).unwrap().in_mini)
            &&& slack_len == crate::carve::spec_count_nonzero(
                crate::carve::spec_tail(
                    crate::audit::spec_entry_carve(c, q),
                    crate::audit::spec_entry_walk(c, q).unwrap().from,
                ),
            ) as usize
            &&& crate::carve::spec_count_nonzero(
                crate::carve::spec_tail(
                    crate::audit::spec_entry_carve(c, q),
                    crate::audit::spec_entry_walk(c, q).unwrap().from,
                ),
            ) > 0
        },
        _ => false,
    }
}

proof fn lemma_entry_report_fits(c: AuditContext, q: int, j: int)
    requires
        0 <= j < spec_entry_part(c, q).len(),
    ensures
        entry_report_fits(c, q, j, spec_entry_part(c, q)[j]),
{
    let o = spec_orphan_part(c, q);
    let t = spec_tamper_part(c, q);
    let s = spec_slack_part(c, q);
    assert(spec_entry_part(c, q) == o + t + s);
    if j < o.len() {
        assert(spec_entry_part(c, q)[j] == o[j]);
    } else if j < o.len() + t.len() {
        assert(spec_entry_part(c, q)[j] == t[j - o.len()]);
        let e = c.raw.dir_entries[q];
        let t1 = if crate::audit::spec_nonzero_clsid(e.clsid) {
            seq![AnomalyView::StructureAnomaly(IssueView::StreamNonZeroClsid { sid: e.sid, name: e.name })]
        } else {
            Seq::empty()
        };
        let t2 = if e.state_bits != 0 {
            seq![
                AnomalyView::StructureAnomaly(
                    IssueView::StreamNonZeroStateBits { sid: e.sid, name: e.name, state_bits: e.state_bits },
                ),
            ]
        } else {
            Seq::empty()
        };
        let t3 = if e.create_time != 0 || e.modify_time != 0 {
            seq![AnomalyView::StructureAnomaly(IssueView::StreamNonZeroFiletime { sid: e.sid, name: e.name })]
        } else {
            Seq::empty()
        };
        assert(e.object_type == 0x02);
        assert(t == t1 + t2 + t3);
        let jt = j - o.len();
        if jt < t1.len() {
            assert(t[jt] == t1[jt]);
        } else if jt < t1.len() + t2.len() {
            assert(t[jt] == t2[jt - t1.len()]);
        } else {
            assert(t[jt] == t3[jt - t1.len() - t2.len()]);
        }
    } else {
        assert(spec_entry_part(c, q)[j] == s[j - o.len() - t.len()]);
    }
}

/// Report `k` of the audit of `d` comes from the part of entry `q`, at `j`.
proof fn lemma_entry_report(d: Seq<u8>, k: int) -> (qj: (int, int))
    requires
        spec_decode(d) is Some,
        0 <= k < spec_audit(d).len(),
        part_kind(3, spec_audit(d)[k]),
    ensures
        0 <= qj.0 < decoded(d).dir_entries.len(),
        0 <= qj.1 < spec_entry_part(context_of(d), qj.0).len(),
        spec_audit(d)[k] == spec_entry_part(context_of(d), qj.0)[qj.1],
        entry_report_fits(context_of(d), qj.0, qj.1, spec_audit(d)[k]),
        decoded(d).dir_entries[qj.0].sid == qj.0,
        part_start(audit_parts(context_of(d)), 3) + part_start(
            Seq::new(
                decoded(d).dir_entries.len(),
                |i: int| spec_entry_part(context_of(d), i),
            ),
            qj.0,
        ) + qj.1 == k,
{
    reveal_strlit("FAT");
    reveal_strlit("mini-FAT");
    let c = context_of(d);
    let n = c.raw.dir_entries.len() as int;
    let f = |i: int| spec_entry_part(c, i);
    assert(spec_audit(d) == spec_audit_decoded(c));
    let m = lemma_audit_locate(c, k);
    assert(m == 3);
    let kk = k - part_start(audit_parts(c), 3);
    let q = lemma_collect_locate(n, f, kk);
    let j = kk - part_start(Seq::new(n as nat, f), q);
    lemma_entry_report_fits(c, q, j);
    crate::laws::law_entries_are_numbered_in_order(d, q);
    (q, j)
}

/// The tamper tell of entry `i` (a stream) for a non-zero CLSID.
pub open spec fn clsid_tell(d: Seq<u8>, i: int) -> AnomalyView {
    AnomalyView::StructureAnomaly(
        IssueView::StreamNonZeroClsid { sid: i as u32, name: decoded(d).dir_entries[i].name },
    )
}

/// The tamper tell of entry `i` (a stream) for non-zero state bits.
pub open spec fn state_bits_tell(d: Seq<u8>, i: int) -> AnomalyView {
    AnomalyView::StructureAnomaly(
        IssueView::StreamNonZeroStateBits {
            sid: i as u32,
            name: decoded(d).dir_entries[i].name,
            state_bits: decoded(d).dir_entries[i].state_bits,
        },
    )
}

/// The tamper tell of entry `i` (a stream) for a non-zero FILETIME.
pub open spec fn filetime_tell(d: Seq<u8>, i: int) -> AnomalyView {
    AnomalyView::StructureAnomaly(
        IssueView::StreamNonZeroFiletime { sid: i as u32, name: decoded(d).dir_entries[i].name },
    )
}

/// A stream entry gets each tamper tell exactly when the field it is about is
/// not zero: its CLSID, its state bits, or either of its FILETIMEs.
#[verifier::rlimit(60)]
pub proof fn law_stream_tamper_tells(d: Seq<u8>, i: int)
    requires
        spec_decode(d) is Some,
        0 <= i < decoded(d).dir_entries.len(),
        decoded(d).dir_entries[i].object_type == 0x02,
    ensures
        reported(d, clsid_tell(d, i)) <==> crate::audit::spec_nonzero_clsid(
            decoded(d).dir_entries[i].clsid,
        ),
        reported(d, state_bits_tell(d, i)) <==> decoded(d).dir_entries[i].state_bits != 0,
        reported(d, filetime_tell(d, i)) <==> (decoded(d).dir_entries[i].create_time != 0
            || decoded(d).dir_entries[i].modify_time != 0),
{
    let c = context_of(d);
    let e = c.raw.dir_entries[i];
    crate::laws::law_entries_are_numbered_in_order(d, i);
    let j1 = lemma_tells_in_part(c, i);
    if crate::audit::spec_nonzero_clsid(e.clsid) {
        lemma_entry_member_reported(d, i, j1.0);
    }
    if e.state_bits != 0 {
        lemma_entry_member_reported(d, i, j1.1);
    }
    if e.create_time != 0 || e.modify_time != 0 {
        lemma_entry_member_reported(d, i, j1.2);
    }
    if reported(d, clsid_tell(d, i)) {
        lemma_tell_owed(d, i, clsid_tell(d, i));
    }
    if reported(d, state_bits_tell(d, i)) {
        lemma_tell_owed(d, i, state_bits_tell(d, i));
    }
    if reported(d, filetime_tell(d, i)) {
        lemma_tell_owed(d, i, filetime_tell(d, i));
    }
}

/// Where each owed tamper tell of stream entry `i` stands in its part.
proof fn lemma_tells_in_part(c: AuditContext, i: int) -> (js: (int, int, int))
    requires
        c.raw.dir_entries[i].object_type == 0x02,
    ensures
        crate::audit::spec_nonzero_clsid(c.raw.dir_entries[i].clsid) ==> (0 <= js.0 < spec_entry_part(
            c,
            i,
        ).len() && spec_entry_part(c, i)[js.0] == AnomalyView::StructureAnomaly(
            IssueView::StreamNonZeroClsid {
                sid: c.raw.dir_entries[i].sid,
                name: c.raw.dir_entries[i].name,
            },
        )),
        c.raw.dir_entries[i].state_bits != 0 ==> (0 <= js.1 < spec_entry_part(c, i).len()
            && spec_entry_part(c, i)[js.1] == AnomalyView::StructureAnomaly(
            IssueView::StreamNonZeroStateBits {
                sid: c.raw.dir_entries[i].sid,
                name: c.raw.dir_entries[i].name,
                state_bits: c.raw.dir_entries[i].state_bits,
            },
        )),
        (c.raw.dir_entries[i].create_time != 0 || c.raw.dir_entries[i].modify_time != 0) ==> (0
            <= js.2 < spec_entry_part(c, i).len() && spec_entry_part(c, i)[js.2]
            == AnomalyView::StructureAnomaly(
            IssueView::StreamNonZeroFiletime {
                sid: c.raw.dir_entries[i].sid,
                name: c.raw.dir_entries[i].name,
            },
        )),
{
    let e = c.raw.dir_entries[i];
    let o = spec_orphan_part(c, i);
    let t = spec_tamper_part(c, i);
    let s = spec_slack_part(c, i);
    assert(spec_entry_part(c, i) == o + t + s);
    let x1 = AnomalyView::StructureAnomaly(IssueView::StreamNonZeroClsid { sid: e.sid, name: e.name });
    let x2 = AnomalyView::StructureAnomaly(
        IssueView::StreamNonZeroStateBits { sid: e.sid, name: e.name, state_bits: e.state_bits },
    );
    let x3 = AnomalyView::StructureAnomaly(IssueView::StreamNonZeroFiletime { sid: e.sid, name: e.name });
    let t1 = if crate::audit::spec_nonzero_clsid(e.clsid) { seq![x1] } else { Seq::empty() };
    let t2 = if e.state_bits != 0 { seq![x2] } else { Seq::empty() };
    let t3 = if e.create_time != 0 || e.modify_time != 0 { seq![x3] } else { Seq::empty() };
    assert(t == t1 + t2 + t3);
    let j0 = o.len() as int;
    let j1 = (o.len() + t1.len()) as int;
    let j2 = (o.len() + t1.len() + t2.len()) as int;
    if crate::audit::spec_nonzero_clsid(e.clsid) {
        assert(spec_entry_part(c, i)[j0] == x1);
    }
    if e.state_bits != 0 {
        assert(spec_entry_part(c, i)[j1] == x2);
    }
    if e.create_time != 0 || e.modify_time != 0 {
        assert(spec_entry_part(c, i)[j2] == x3);
    }
    (j0, j1, j2)
}

/// Item `j` of entry `i`'s part is reported.
proof fn lemma_entry_member_reported(d: Seq<u8>, i: int, j: int)
    requires
        spec_decode(d) is Some,
        0 <= i < decoded(d).dir_entries.len(),
        0 <= j < spec_entry_part(context_of(d), i).len(),
    ensures
        reported(d, spec_entry_part(context_of(d), i)[j]),
{
    let c = context_of(d);
    let n = c.raw.dir_entries.len() as int;
    let f = |q: int| spec_entry_part(c, q);
    assert(spec_audit(d) == spec_audit_decoded(c));
    let kk = lemma_collect_at(n, f, i, j);
    lemma_audit_has(c, 3, kk);
    assert(spec_audit(d)[part_start(audit_parts(c), 3) + kk] == spec_entry_part(c, i)[j]);
}

/// A reported tamper tell that names entry `i` is about a field of entry `i`
/// that is not zero.
proof fn lemma_tell_owed(d: Seq<u8>, i: int, x: AnomalyView)
    requires
        spec_decode(d) is Some,
        0 <= i < decoded(d).dir_entries.len(),
        decoded(d).dir_entries[i].sid == i,
        x == clsid_tell(d, i) || x == state_bits_tell(d, i) || x == filetime_tell(d, i),
        reported(d, x),
    ensures
        x == clsid_tell(d, i) ==> crate::audit::spec_nonzero_clsid(decoded(d).dir_entries[i].clsid),
        x == state_bits_tell(d, i) ==> decoded(d).dir_entries[i].state_bits != 0,
        x == filetime_tell(d, i) ==> (decoded(d).dir_entries[i].create_time != 0
            || decoded(d).dir_entries[i].modify_time != 0),
{
    let a = spec_audit(d);
    let k = choose|k: int| 0 <= k < a.len() && a[k] == x;
    let (q, j) = lemma_entry_report(d, k);
    assert(q == i);
}

// ---------------------------------------------------------------------------
// Slack
// ---------------------------------------------------------------------------

/// What a slack report says of the decode of `d`: it names a live stream
/// entry by its index and name, the space its chain runs in, and counts some
/// non-zero bytes, fewer than one sector of that space holds.
pub open spec fn slack_report_fits(d: Seq<u8>, a: AnomalyView) -> bool {
    match a {
        AnomalyView::SlackResidue { sid, name, space, slack_len } => {
            let raw = decoded(d);
            &&& (sid as int) < raw.dir_entries.len()
            &&& raw.dir_entries[sid as int].object_type == 0x02
            &&& raw.dir_entries[sid as int].name == name
            &&& crate::raw::spec_reachable(raw.dir_entries, sid as int)
            &&& ((space == "FAT"@ && 0 < slack_len < raw.sector_size) || (space == "mini-FAT"@ && 0
                < slack_len < crate::layout::MINI_SECTOR_SIZE))
        },
        _ => true,
    }
}

/// Every slack report is about a live stream entry, carries its name, names
/// the FAT or the mini-FAT, and counts between one byte and less than one
/// sector (or mini-sector) of that space.
pub proof fn law_slack_reports_fit(d: Seq<u8>)
    requires
        spec_decode(d) is Some,
    ensures
        forall|k: int| 0 <= k < spec_audit(d).len() ==> slack_report_fits(d, #[trigger] spec_audit(d)[k]),
{
    assert forall|k: int| 0 <= k < spec_audit(d).len() implies slack_report_fits(
        d,
        #[trigger] spec_audit(d)[k],
    ) by {
        if spec_audit(d)[k] is SlackResidue {
            lemma_slack_report_fits(d, k);
        }
    }
}

proof fn lemma_slack_report_fits(d: Seq<u8>, k: int)
    requires
        spec_decode(d) is Some,
        0 <= k < spec_audit(d).len(),
        spec_audit(d)[k] is SlackResidue,
    ensures
        slack_report_fits(d, spec_audit(d)[k]),
{
    reveal_strlit("FAT");
    reveal_strlit("mini-FAT");
    let c = context_of(d);
    assert(spec_audit(d) == spec_audit_decoded(c));
    let m = lemma_audit_locate(c, k);
    let (q, j) = lemma_entry_report(d, k);
    let w = crate::audit::spec_entry_walk(c, q).unwrap();
    let e = c.raw.dir_entries[q];
    let carved = crate::audit::spec_entry_carve(c, q);
    let tail = crate::carve::spec_tail(carved, w.from);
    crate::laws::lemma_decoded_sector_size(d);
    let unit = if w.in_mini {
        crate::layout::MINI_SECTOR_SIZE as int
    } else {
        c.raw.sector_size as int
    };
    crate::laws::lemma_round_up_gap(e.stream_size as int, unit);
    crate::laws::lemma_count_nonzero_le(tail);
    assert(tail.len() < unit);
}

// ---------------------------------------------------------------------------
// Orphans
// ---------------------------------------------------------------------------

/// What an orphan report says of the decode of `d`: it names an allocated
/// storage or stream the live tree does not reach, copies that entry's name,
/// type, size, start sector and timestamps, and recovered no more bytes than
/// the entry declares.
pub open spec fn orphan_report_fits(d: Seq<u8>, a: AnomalyView) -> bool {
    match a {
        AnomalyView::OrphanedDirEntry(o) => {
            let raw = decoded(d);
            let e = raw.dir_entries[o.sid as int];
            &&& (o.sid as int) < raw.dir_entries.len()
            &&& (e.object_type == 0x01 || e.object_type == 0x02)
            &&& !crate::raw::spec_reachable(raw.dir_entries, o.sid as int)
            &&& o.name == e.name
            &&& o.object_type == e.object_type
            &&& o.stream_size == e.stream_size
            &&& o.start_sector == e.start_sector
            &&& o.create_time == e.create_time
            &&& o.modify_time == e.modify_time
            &&& o.carved_len <= o.stream_size
        },
        _ => true,
    }
}

/// Every orphan report copies the entry it names (name, type, size, start
/// sector, timestamps) and recovered at most the declared size; no entry is
/// reported as an orphan twice.
pub proof fn law_orphan_reports_copy_their_entry(d: Seq<u8>)
    requires
        spec_decode(d) is Some,
    ensures
        forall|k: int| 0 <= k < spec_audit(d).len() ==> orphan_report_fits(d, #[trigger] spec_audit(d)[k]),
        forall|k1: int, k2: int|
            (0 <= k1 < spec_audit(d).len() && 0 <= k2 < spec_audit(d).len() && k1 != k2
                && #[trigger] crate::laws::is_orphan_report(spec_audit(d)[k1])
                && #[trigger] crate::laws::is_orphan_report(spec_audit(d)[k2])) ==> crate::laws::orphan_sid(
                spec_audit(d)[k1],
            ) != crate::laws::orphan_sid(spec_audit(d)[k2]),
{
    assert forall|k: int| 0 <= k < spec_audit(d).len() implies orphan_report_fits(
        d,
        #[trigger] spec_audit(d)[k],
    ) by {
        if spec_audit(d)[k] is OrphanedDirEntry {
            lemma_orphan_report_fits(d, k);
        }
    }
    assert forall|k1: int, k2: int|
        (0 <= k1 < spec_audit(d).len() && 0 <= k2 < spec_audit(d).len() && k1 != k2
            && #[trigger] crate::laws::is_orphan_report(spec_audit(d)[k1])
            && #[trigger] crate::laws::is_orphan_report(spec_audit(d)[k2])) implies crate::laws::orphan_sid(
        spec_audit(d)[k1],
    ) != crate::laws::orphan_sid(spec_audit(d)[k2]) by {
        let (q1, j1) = lemma_entry_report(d, k1);
        let (q2, j2) = lemma_entry_report(d, k2);
    }
}

proof fn lemma_orphan_report_fits(d: Seq<u8>, k: int)
    requires
        spec_decode(d) is Some,
        0 <= k < spec_audit(d).len(),
        spec_audit(d)[k] is OrphanedDirEntry,
    ensures
        orphan_report_fits(d, spec_audit(d)[k]),
{
    let c = context_of(d);
    let (q, j) = lemma_entry_report(d, k);
    let e = c.raw.dir_entries[q];
    let carved = crate::audit::spec_entry_carve(c, q);
    crate::laws::law_carve_within_request(
        c.d,
        c.raw.sector_size as int,
        1,
        c.raw.fat,
        e.start_sector,
        e.stream_size as int,
        Set::empty(),
    );
    crate::laws::law_carve_within_request(
        c.mini,
        crate::layout::MINI_SECTOR_SIZE as int,
        0,
        c.raw.mini_fat,
        e.start_sector,
        e.stream_size as int,
        Set::empty(),
    );
    assert(carved.len() <= e.stream_size);
    let y: u64 = carved.len() as u64;
    assert((y as usize) <= y) by (bit_vector);
}

// ---------------------------------------------------------------------------
// Free-sector residue in the FAT
// ---------------------------------------------------------------------------

/// The sector a FAT free-sector residue report names.
pub open spec fn fat_residue_sid(a: AnomalyView) -> Option<u32> {
    match a {
        AnomalyView::FreeSectorResidue { sid, space, .. } => if space == "FAT"@ {
            Some(sid)
        } else {
            None
        },
        _ => None,
    }
}

/// FAT slot `i` of `d` is free while its sector lies in the file and holds a
/// non-zero byte.
pub open spec fn free_with_residue(d: Seq<u8>, i: int) -> bool {
    let raw = decoded(d);
    &&& 0 <= i < raw.fat.len()
    &&& raw.fat[i] == crate::layout::FREESECT
    &&& spec_sector(d, raw.sector_size as int, i) is Some
    &&& crate::carve::spec_count_nonzero(spec_sector(d, raw.sector_size as int, i).unwrap()) > 0
}

/// The residue report of free FAT sector `i` of `d`: its offset in the file
/// and how many of its bytes are non-zero.
pub open spec fn fat_residue_report(d: Seq<u8>, i: int) -> AnomalyView {
    let ss = decoded(d).sector_size as int;
    AnomalyView::FreeSectorResidue {
        sid: i as u32,
        space: "FAT"@,
        offset: ((i + 1) * ss) as u64,
        residue_len: crate::carve::spec_count_nonzero(spec_sector(d, ss, i).unwrap()) as usize,
    }
}

/// FAT free-sector residue is reported completely and once: every free FAT
/// slot whose sector lies in the file and holds a non-zero byte is reported,
/// at offset `(i + 1) * sector size`, with the count of its non-zero bytes
/// (at most one sector's worth); every such report is of that form; no sector
/// is reported twice.
pub proof fn law_free_fat_residue_is_complete(d: Seq<u8>)
    requires
        spec_decode(d) is Some,
    ensures
        forall|i: int| #[trigger] free_with_residue(d, i) ==> reported(d, fat_residue_report(d, i)),
        forall|k: int|
            (0 <= k < spec_audit(d).len() && #[trigger] fat_residue_sid(spec_audit(d)[k]) is Some) ==> (
            exists|i: int|
                free_with_residue(d, i) && spec_audit(d)[k] == fat_residue_report(d, i)
                    && crate::carve::spec_count_nonzero(
                    spec_sector(d, decoded(d).sector_size as int, i).unwrap(),
                ) <= decoded(d).sector_size),
        forall|k1: int, k2: int|
            (0 <= k1 < spec_audit(d).len() && 0 <= k2 < spec_audit(d).len() && k1 != k2
                && #[trigger] fat_residue_sid(spec_audit(d)[k1]) is Some
                && #[trigger] fat_residue_sid(spec_audit(d)[k2]) is Some) ==> fat_residue_sid(
                spec_audit(d)[k1],
            ) != fat_residue_sid(spec_audit(d)[k2]),
{
    let c = context_of(d);
    let n = c.raw.fat.len() as int;
    let f = |j: int| spec_free_fat_part(c.d, c.raw, j);
    assert(spec_audit(d) == spec_audit_decoded(c));
    assert forall|i: int| #[trigger] free_with_residue(d, i) implies reported(d, fat_residue_report(d, i)) by {
        let kk = lemma_collect_at(n, f, i, 0);
        lemma_audit_has(c, 5, kk);
        assert(spec_audit(d)[part_start(audit_parts(c), 5) + kk] == fat_residue_report(d, i));
    }
    assert forall|k: int|
        (0 <= k < spec_audit(d).len() && #[trigger] fat_residue_sid(spec_audit(d)[k]) is Some) implies (
        exists|i: int|
            free_with_residue(d, i) && spec_audit(d)[k] == fat_residue_report(d, i)
                && crate::carve::spec_count_nonzero(
                spec_sector(d, decoded(d).sector_size as int, i).unwrap(),
            ) <= decoded(d).sector_size) by {
        let i = lemma_fat_report(d, k);
        crate::laws::lemma_count_nonzero_le(spec_sector(d, decoded(d).sector_size as int, i).unwrap());
    }
    assert forall|k1: int, k2: int|
        (0 <= k1 < spec_audit(d).len() && 0 <= k2 < spec_audit(d).len() && k1 != k2
            && #[trigger] fat_residue_sid(spec_audit(d)[k1]) is Some
            && #[trigger] fat_residue_sid(spec_audit(d)[k2]) is Some) implies fat_residue_sid(
        spec_audit(d)[k1],
    ) != fat_residue_sid(spec_audit(d)[k2]) by {
        let i1 = lemma_fat_report(d, k1);
        let i2 = lemma_fat_report(d, k2);
    }
}

/// Report `k` of the audit of `d`, a FAT free-sector residue report, is the
/// report of free FAT sector `i`, standing at its place in the FAT part.
proof fn lemma_fat_report(d: Seq<u8>, k: int) -> (i: int)
    requires
        spec_decode(d) is Some,
        0 <= k < spec_audit(d).len(),
        fat_residue_sid(spec_audit(d)[k]) is Some,
    ensures
        free_with_residue(d, i),
        spec_audit(d)[k] == fat_residue_report(d, i),
        fat_residue_sid(spec_audit(d)[k]) == Some(i as u32),
        0 <= i < 0x1_0000_0000,
        k == part_start(audit_parts(context_of(d)), 5) + part_start(
            Seq::new(
                decoded(d).fat.len(),
                |j: int| spec_free_fat_part(context_of(d).d, context_of(d).raw, j),
            ),
            i,
        ),
{
    reveal_strlit("FAT");
    reveal_strlit("mini-FAT");
    let c = context_of(d);
    let n = c.raw.fat.len() as int;
    let f = |j: int| spec_free_fat_part(c.d, c.raw, j);
    assert(spec_audit(d) == spec_audit_decoded(c));
    crate::laws::law_decode_is_capped(d);
    let m = lemma_audit_locate(c, k);
    assert("FAT"@.len() == 3 && "mini-FAT"@.len() == 8);
    assert(m == 5);
    let kk = k - part_start(audit_parts(c), 5);
    let i = lemma_collect_locate(n, f, kk);
    assert(f(i).len() <= 1);
    i
}

// ---------------------------------------------------------------------------
// The byte-order mark
// ---------------------------------------------------------------------------

/// The value a bad byte-order report carries.
pub open spec fn byte_order_report_value(a: AnomalyView) -> Option<u16> {
    match a {
        AnomalyView::StructureAnomaly(IssueView::BadByteOrder { value }) => Some(value),
        _ => None,
    }
}

/// The audit reports a bad byte-order mark exactly when the header's
/// byte-order field (the little-endian `u16` at offset 28) is not 0xFFFE, and
/// every such report carries that field's value.
pub proof fn law_bad_byte_order_is_reported(d: Seq<u8>)
    requires
        spec_decode(d) is Some,
    ensures
        reported(
            d,
            AnomalyView::StructureAnomaly(IssueView::BadByteOrder { value: crate::raw::spec_le16(d, 28) }),
        ) <==> crate::raw::spec_le16(d, 28) != 0xFFFE,
        forall|k: int|
            (0 <= k < spec_audit(d).len() && #[trigger] byte_order_report_value(spec_audit(d)[k]) is Some)
                ==> byte_order_report_value(spec_audit(d)[k]) == Some(crate::raw::spec_le16(d, 28)),
{
    let c = context_of(d);
    let a = spec_audit(d);
    let x = AnomalyView::StructureAnomaly(IssueView::BadByteOrder { value: crate::raw::spec_le16(d, 28) });
    assert(a == spec_audit_decoded(c));
    assert(c.raw.byte_order == crate::raw::spec_le16(d, 28));
    if crate::raw::spec_le16(d, 28) != 0xFFFE {
        lemma_audit_has(c, 0, 0);
        assert(a[part_start(audit_parts(c), 0) + 0] == x);
    }
    assert forall|k: int|
        (0 <= k < a.len() && #[trigger] byte_order_report_value(a[k]) is Some) implies byte_order_report_value(
        a[k],
    ) == Some(crate::raw::spec_le16(d, 28)) by {
        let m = lemma_audit_locate(c, k);
    }
    if reported(d, x) {
        let k = choose|k: int| 0 <= k < a.len() && a[k] == x;
        let m = lemma_audit_locate(c, k);
    }
}

// ---------------------------------------------------------------------------
// Chain loops
// ---------------------------------------------------------------------------

/// The chain-loop report of a space.
pub open spec fn loop_report(space: Seq<char>) -> AnomalyView {
    AnomalyView::StructureAnomaly(IssueView::ChainLoop { space: space })
}

proof fn lemma_mini_loop_upto(c: AuditContext, k: int)
    requires
        0 <= k,
    ensures
        crate::audit::spec_mini_loop_upto(c, k) <==> exists|i: int|
            0 <= i < k && #[trigger] crate::audit::spec_walk_loops_in(c, i, true),
    decreases k,
{
    if k > 0 {
        lemma_mini_loop_upto(c, k - 1);
    }
}

proof fn lemma_fat_loop_upto(c: AuditContext, k: int)
    requires
        0 <= k,
    ensures
        crate::audit::spec_fat_loop_upto(c, k) <==> (c.mini_loops || exists|i: int|
            0 <= i < k && #[trigger] crate::audit::spec_walk_loops_in(c, i, false)),
    decreases k,
{
    if k > 0 {
        lemma_fat_loop_upto(c, k - 1);
    }
}

/// A chain loop is reported in the mini-FAT exactly when the walk of some
/// directory entry runs in the mini-FAT and loops back to a mini-sector it
/// already gave while bytes were still wanted; and in the FAT exactly when
/// the mini-stream's own chain, or the walk of some entry in the FAT, loops.
pub proof fn law_chain_loops_are_reported(d: Seq<u8>)
    requires
        spec_decode(d) is Some,
    ensures
        reported(d, loop_report("mini-FAT"@)) <==> exists|i: int|
            0 <= i < decoded(d).dir_entries.len() && #[trigger] crate::audit::spec_walk_loops_in(
                context_of(d),
                i,
                true,
            ),
        reported(d, loop_report("FAT"@)) <==> (context_of(d).mini_loops || exists|i: int|
            0 <= i < decoded(d).dir_entries.len() && #[trigger] crate::audit::spec_walk_loops_in(
                context_of(d),
                i,
                false,
            )),
{
    reveal_strlit("FAT");
    reveal_strlit("mini-FAT");
    let c = context_of(d);
    let a = spec_audit(d);
    let n = c.raw.dir_entries.len() as int;
    assert(a == spec_audit_decoded(c));
    lemma_mini_loop_upto(c, n);
    lemma_fat_loop_upto(c, n);
    let l = spec_loop_part(c);
    let fl = crate::audit::spec_fat_loop_upto(c, n);
    let ml = crate::audit::spec_mini_loop_upto(c, n);
    let lf = if fl { seq![loop_report("FAT"@)] } else { Seq::<AnomalyView>::empty() };
    let lm = if ml { seq![loop_report("mini-FAT"@)] } else { Seq::<AnomalyView>::empty() };
    assert(l == lf + lm);
    assert("FAT"@ != "mini-FAT"@) by {
        assert("FAT"@.len() != "mini-FAT"@.len());
    }
    if fl {
        assert(l[0] == loop_report("FAT"@));
        lemma_audit_has(c, 4, 0);
    }
    if ml {
        assert(l[lf.len() as int] == loop_report("mini-FAT"@));
        lemma_audit_has(c, 4, lf.len() as int);
    }
    if reported(d, loop_report("mini-FAT"@)) {
        let k = choose|k: int| 0 <= k < a.len() && a[k] == loop_report("mini-FAT"@);
        let m = lemma_audit_locate(c, k);
        let j = k - part_start(audit_parts(c), 4);
        if j < lf.len() {
            assert(l[j] == lf[j]);
        }
    }
    if reported(d, loop_report("FAT"@)) {
        let k = choose|k: int| 0 <= k < a.len() && a[k] == loop_report("FAT"@);
        let m = lemma_audit_locate(c, k);
        let j = k - part_start(audit_parts(c), 4);
        if j >= lf.len() {
            assert(l[j] == lm[j - lf.len()]);
        }
    }
}

// ---------------------------------------------------------------------------
// The DIFAT-sector chain
// ---------------------------------------------------------------------------

proof fn lemma_keep_regular_len(s: Seq<u32>)
    ensures
        crate::raw::spec_keep_regular(s).len() <= s.len(),
    decreases s.len(),
{
    if s.len() > 0 {
        lemma_keep_regular_len(s.drop_last());
    }
}

proof fn lemma_keep_regular_has(s: Seq<u32>, m: int)
    requires
        0 <= m < s.len(),
        s[m] <= crate::layout::MAXREGSECT,
    ensures
        crate::raw::spec_keep_regular(s).contains(s[m]),
    decreases s.len(),
{
    let p = crate::raw::spec_keep_regular(s.drop_last());
    if m < s.len() - 1 {
        lemma_keep_regular_has(s.drop_last(), m);
        let i = choose|i: int| 0 <= i < p.len() && p[i] == s[m];
        if s.last() <= crate::layout::MAXREGSECT {
            assert(p.push(s.last())[i] == s[m]);
        }
    } else {
        assert(p.push(s.last())[p.len() as int] == s[m]);
    }
}

proof fn lemma_difat_walk_extends(d: Seq<u8>, ss: int, sid: u32, steps: int, acc: Seq<u32>)
    ensures
        crate::raw::spec_difat_walk(d, ss, sid, steps, acc).len() >= acc.len(),
        forall|i: int|
            0 <= i < acc.len() ==> #[trigger] crate::raw::spec_difat_walk(d, ss, sid, steps, acc)[i]
                == acc[i],
    decreases crate::layout::MAX_SECTORS - steps,
{
    if sid <= crate::layout::MAXREGSECT && 0 <= steps < crate::layout::MAX_SECTORS {
        if let Some(sec) = spec_sector(d, ss, sid as int) {
            let e = ss / 4;
            let acc2 = acc + crate::raw::spec_keep_regular(crate::raw::spec_words(sec, e - 1));
            if acc2.len() <= crate::layout::MAX_SECTORS {
                lemma_difat_walk_extends(d, ss, crate::raw::spec_le32(sec, (e - 1) * 4), steps + 1, acc2);
                assert forall|i: int| 0 <= i < acc.len() implies #[trigger] crate::raw::spec_difat_walk(
                    d,
                    ss,
                    sid,
                    steps,
                    acc,
                )[i] == acc[i] by {
                    assert(acc2[i] == acc[i]);
                }
            }
        }
    }
}

/// The DIFAT sector the header names first.
pub open spec fn first_difat(d: Seq<u8>) -> u32 {
    decoded(d).first_difat_sector
}

/// Word `m` of regular sector `sid` of `d`.
pub open spec fn sector_word(d: Seq<u8>, sid: u32, m: int) -> u32 {
    crate::raw::spec_le32(spec_sector(d, decoded(d).sector_size as int, sid as int).unwrap(), 4 * m)
}

/// The DIFAT sector a DIFAT sector links to: its last word.
pub open spec fn next_difat(d: Seq<u8>, sid: u32) -> u32 {
    sector_word(d, sid, decoded(d).sector_size / 4 - 1)
}

/// The DIFAT is followed along its sector chain, past its first sector: when
/// the header names a first DIFAT sector `x` inside the file, whose last word
/// names a second DIFAT sector `y` inside the file, every regular id among
/// the header's 109 slots, among `x`'s first `sector_size / 4 - 1` words and
/// among `y`'s is listed as a FAT sector; and each listed id of `y` whose
/// sector is not wholly inside the file is reported as off the file.
pub proof fn law_difat_chain_is_followed(d: Seq<u8>)
    requires
        spec_decode(d) is Some,
        first_difat(d) <= crate::layout::MAXREGSECT,
        spec_sector(d, decoded(d).sector_size as int, first_difat(d) as int) is Some,
        next_difat(d, first_difat(d)) <= crate::layout::MAXREGSECT,
        spec_sector(d, decoded(d).sector_size as int, next_difat(d, first_difat(d)) as int) is Some,
    ensures
        forall|i: int|
            0 <= i < 109 && #[trigger] crate::raw::spec_le32(d, 76 + 4 * i) <= crate::layout::MAXREGSECT
                ==> listed_fat_ids(d).contains(crate::raw::spec_le32(d, 76 + 4 * i)),
        forall|m: int|
            0 <= m < decoded(d).sector_size / 4 - 1 && #[trigger] sector_word(d, first_difat(d), m)
                <= crate::layout::MAXREGSECT ==> listed_fat_ids(d).contains(sector_word(d, first_difat(d), m)),
        forall|m: int|
            0 <= m < decoded(d).sector_size / 4 - 1 && #[trigger] sector_word(
                d,
                next_difat(d, first_difat(d)),
                m,
            ) <= crate::layout::MAXREGSECT ==> listed_fat_ids(d).contains(
                sector_word(d, next_difat(d, first_difat(d)), m),
            ),
        forall|m: int|
            0 <= m < decoded(d).sector_size / 4 - 1 && #[trigger] sector_word(
                d,
                next_difat(d, first_difat(d)),
                m,
            ) <= crate::layout::MAXREGSECT && spec_sector(
                d,
                decoded(d).sector_size as int,
                sector_word(d, next_difat(d, first_difat(d)), m) as int,
            ) is None ==> reported(d, difat_report(sector_word(d, next_difat(d, first_difat(d)), m))),
{
    let raw = decoded(d);
    let ss = raw.sector_size as int;
    let e = ss / 4;
    let x = first_difat(d);
    let y = next_difat(d, x);
    crate::laws::lemma_decoded_sector_size(d);
    let secx = spec_sector(d, ss, x as int).unwrap();
    let secy = spec_sector(d, ss, y as int).unwrap();
    let slots = Seq::new(109, |i: int| crate::raw::spec_le32(d, 76 + 4 * i));
    let h = crate::raw::spec_keep_regular(slots);
    assert(h == crate::raw::spec_header_fat_ids(d));
    let wx = crate::raw::spec_words(secx, e - 1);
    let wy = crate::raw::spec_words(secy, e - 1);
    let acc2 = h + crate::raw::spec_keep_regular(wx);
    let acc3 = acc2 + crate::raw::spec_keep_regular(wy);
    lemma_keep_regular_len(slots);
    lemma_keep_regular_len(wx);
    lemma_keep_regular_len(wy);
    assert(acc3.len() <= crate::layout::MAX_SECTORS);
    assert(crate::raw::spec_le32(secx, (e - 1) * 4) == y);
    let ynext = crate::raw::spec_le32(secy, (e - 1) * 4);
    assert(listed_fat_ids(d) == crate::raw::spec_difat_walk(d, ss, x, 0, h));
    assert(crate::raw::spec_difat_walk(d, ss, x, 0, h) == crate::raw::spec_difat_walk(d, ss, y, 1, acc2));
    assert(crate::raw::spec_difat_walk(d, ss, y, 1, acc2) == crate::raw::spec_difat_walk(d, ss, ynext, 2, acc3));
    lemma_difat_walk_extends(d, ss, ynext, 2, acc3);
    let ids = listed_fat_ids(d);
    assert forall|p: int| 0 <= p < acc3.len() implies ids[p] == acc3[p] by {}
    assert forall|i: int|
        0 <= i < 109 && #[trigger] crate::raw::spec_le32(d, 76 + 4 * i) <= crate::layout::MAXREGSECT implies ids.contains(
        crate::raw::spec_le32(d, 76 + 4 * i),
    ) by {
        assert(slots[i] == crate::raw::spec_le32(d, 76 + 4 * i));
        lemma_keep_regular_has(slots, i);
        let p = choose|p: int| 0 <= p < h.len() && h[p] == slots[i];
        assert(acc3[p] == h[p]);
        assert(ids[p] == slots[i]);
    }
    assert forall|m: int|
        0 <= m < e - 1 && #[trigger] sector_word(d, x, m) <= crate::layout::MAXREGSECT implies ids.contains(
        sector_word(d, x, m),
    ) by {
        assert(wx[m] == sector_word(d, x, m));
        lemma_keep_regular_has(wx, m);
        let r = crate::raw::spec_keep_regular(wx);
        let p = choose|p: int| 0 <= p < r.len() && r[p] == wx[m];
        assert(acc3[h.len() + p] == r[p]);
        assert(ids[h.len() + p] == wx[m]);
    }
    assert forall|m: int|
        0 <= m < e - 1 && #[trigger] sector_word(d, y, m) <= crate::layout::MAXREGSECT implies ids.contains(
        sector_word(d, y, m),
    ) by {
        assert(wy[m] == sector_word(d, y, m));
        lemma_keep_regular_has(wy, m);
        let r = crate::raw::spec_keep_regular(wy);
        let p = choose|p: int| 0 <= p < r.len() && r[p] == wy[m];
        assert(acc3[acc2.len() + p] == r[p]);
        assert(ids[acc2.len() + p] == wy[m]);
    }
    law_difat_reports_are_the_off_file_ids(d);
    assert forall|m: int|
        0 <= m < e - 1 && #[trigger] sector_word(d, y, m) <= crate::layout::MAXREGSECT && spec_sector(
            d,
            ss,
            sector_word(d, y, m) as int,
        ) is None implies reported(d, difat_report(sector_word(d, y, m))) by {
        assert(ids.contains(sector_word(d, y, m)));
        let p = choose|p: int| 0 <= p < ids.len() && ids[p] == sector_word(d, y, m);
        assert(listed_off_file(d, p));
    }
}

// ---------------------------------------------------------------------------
// The mini-stream and free mini-sectors
// ---------------------------------------------------------------------------

/// The bytes of the regular sectors `ch` of `d`, in order.
pub open spec fn chain_bytes(d: Seq<u8>, ss: int, ch: Seq<u32>) -> Seq<u8>
    decreases ch.len(),
{
    if ch.len() == 0 {
        Seq::empty()
    } else {
        spec_sector(d, ss, ch[0] as int).unwrap() + chain_bytes(d, ss, ch.skip(1))
    }
}

/// `ch` is an intact FAT chain of `d`: distinct regular sectors, each wholly
/// inside the file, each linked by `fat` to the next.
pub open spec fn intact_chain(d: Seq<u8>, ss: int, fat: Seq<u32>, ch: Seq<u32>) -> bool {
    &&& forall|t: int|
        0 <= t < ch.len() ==> #[trigger] ch[t] <= crate::layout::MAXREGSECT && spec_sector(
            d,
            ss,
            ch[t] as int,
        ) is Some
    &&& forall|t: int|
        0 <= t < ch.len() - 1 ==> (#[trigger] ch[t] as int) < fat.len() && fat[ch[t] as int] == ch[t + 1]
    &&& forall|t: int, u: int| 0 <= t < u < ch.len() ==> #[trigger] ch[t] != #[trigger] ch[u]
}

proof fn lemma_carve_along_chain(
    d: Seq<u8>,
    ss: int,
    fat: Seq<u32>,
    ch: Seq<u32>,
    rem: int,
    visited: Set<u32>,
)
    requires
        ss > 0,
        ch.len() > 0,
        intact_chain(d, ss, fat, ch),
        0 <= rem <= chain_bytes(d, ss, ch).len(),
        forall|t: int| 0 <= t < ch.len() ==> !visited.contains(#[trigger] ch[t]),
    ensures
        crate::carve::spec_carve(d, ss, 1, fat, ch[0], rem, visited) == chain_bytes(d, ss, ch).take(rem),
    decreases ch.len(),
{
    let sec = spec_sector(d, ss, ch[0] as int).unwrap();
    let rest = ch.skip(1);
    assert(chain_bytes(d, ss, ch) == sec + chain_bytes(d, ss, rest));
    assert(crate::carve::spec_block(d, ss, 1, ch[0] as int) == Some(sec));
    if rem == 0 {
        assert(chain_bytes(d, ss, ch).take(0) =~= Seq::<u8>::empty());
    } else if rem <= ss {
        let next = crate::raw::spec_next(fat, ch[0]);
        assert(crate::carve::spec_carve(d, ss, 1, fat, next, 0, visited.insert(ch[0])) =~= Seq::<
            u8,
        >::empty());
        assert(sec.take(rem) + Seq::<u8>::empty() =~= chain_bytes(d, ss, ch).take(rem));
    } else {
        assert(rest.len() > 0) by {
            if rest.len() == 0 {
                assert(chain_bytes(d, ss, rest) =~= Seq::<u8>::empty());
            }
        }
        assert(ch[0] != ch[1]);
        assert(crate::raw::spec_next(fat, ch[0]) == rest[0]);
        assert forall|t: int| 0 <= t < rest.len() implies !visited.insert(ch[0]).contains(
            #[trigger] rest[t],
        ) by {
            assert(rest[t] == ch[t + 1]);
            assert(ch[0] != ch[t + 1]);
        }
        assert(intact_chain(d, ss, fat, rest)) by {
            assert forall|t: int| 0 <= t < rest.len() implies #[trigger] rest[t] <= crate::layout::MAXREGSECT
                && spec_sector(d, ss, rest[t] as int) is Some by {
                assert(rest[t] == ch[t + 1]);
            }
            assert forall|t: int| 0 <= t < rest.len() - 1 implies (#[trigger] rest[t] as int) < fat.len()
                && fat[rest[t] as int] == rest[t + 1] by {
                assert(rest[t] == ch[t + 1]);
                assert(rest[t + 1] == ch[t + 2]);
            }
            assert forall|t: int, u: int| 0 <= t < u < rest.len() implies #[trigger] rest[t]
                != #[trigger] rest[u] by {
                assert(rest[t] == ch[t + 1]);
                assert(rest[u] == ch[u + 1]);
            }
        }
        lemma_carve_along_chain(d, ss, fat, rest, rem - ss, visited.insert(ch[0]));
        assert(sec.take(ss) =~= sec);
        assert(sec + chain_bytes(d, ss, rest).take(rem - ss) =~= chain_bytes(d, ss, ch).take(rem));
    }
}

/// How many bytes of the root's stream the mini-stream holds: its declared
/// size, at most 16 MiB.
pub open spec fn mini_stream_len(d: Seq<u8>) -> int {
    let size = decoded(d).dir_entries[0].stream_size;
    if size < 16777216 {
        size as int
    } else {
        16777216
    }
}

/// The mini-stream is the root entry's stream read along the FAT, past its
/// first sector: when the root's chain `ch` (from its start sector) is intact
/// and holds at least the root's declared size (at most 16 MiB), the
/// mini-stream is exactly that many bytes of the chain's sectors, in chain
/// order.
pub proof fn law_mini_stream_follows_the_root_chain(d: Seq<u8>, ch: Seq<u32>)
    requires
        spec_decode(d) is Some,
        spec_has_root(decoded(d)),
        ch.len() > 0,
        ch[0] == decoded(d).dir_entries[0].start_sector,
        intact_chain(d, decoded(d).sector_size as int, decoded(d).fat, ch),
        mini_stream_len(d) <= chain_bytes(d, decoded(d).sector_size as int, ch).len(),
    ensures
        context_of(d).mini == chain_bytes(d, decoded(d).sector_size as int, ch).take(mini_stream_len(d)),
        context_of(d).mini.len() == mini_stream_len(d),
{
    crate::laws::lemma_decoded_sector_size(d);
    assert(crate::layout::MAX_MINI_STREAM == 16777216);
    lemma_carve_along_chain(
        d,
        decoded(d).sector_size as int,
        decoded(d).fat,
        ch,
        mini_stream_len(d),
        Set::empty(),
    );
}

/// The mini-sector a mini-FAT free-sector residue report names.
pub open spec fn mini_residue_sid(a: AnomalyView) -> Option<u32> {
    match a {
        AnomalyView::FreeSectorResidue { sid, space, .. } => if space == "mini-FAT"@ {
            Some(sid)
        } else {
            None
        },
        _ => None,
    }
}

/// The 64 bytes of mini-sector `j` of the mini-stream of `d`.
pub open spec fn mini_sector_bytes(d: Seq<u8>, j: int) -> Seq<u8> {
    context_of(d).mini.subrange(64 * j, 64 * j + 64)
}

/// Mini-FAT slot `j` of `d` is free while its mini-sector lies inside the
/// mini-stream and holds a non-zero byte.
pub open spec fn free_mini_with_residue(d: Seq<u8>, j: int) -> bool {
    &&& 0 <= j < decoded(d).mini_fat.len()
    &&& decoded(d).mini_fat[j] == crate::layout::FREESECT
    &&& 64 * j + 64 <= context_of(d).mini.len()
    &&& crate::carve::spec_count_nonzero(mini_sector_bytes(d, j)) > 0
}

/// The residue report of free mini-sector `j` of `d`: its offset inside the
/// mini-stream and how many of its bytes are non-zero.
pub open spec fn mini_residue_report(d: Seq<u8>, j: int) -> AnomalyView {
    AnomalyView::FreeSectorResidue {
        sid: j as u32,
        space: "mini-FAT"@,
        offset: (64 * j) as u64,
        residue_len: crate::carve::spec_count_nonzero(mini_sector_bytes(d, j)) as usize,
    }
}

/// Mini-FAT free-sector residue is reported completely and once: every free
/// mini-FAT slot whose mini-sector lies inside the mini-stream and holds a
/// non-zero byte is reported, at offset `64 * j`, with the count of its
/// non-zero bytes (at most 64); every such report is of that form; no
/// mini-sector is reported twice.
pub proof fn law_free_mini_residue_is_complete(d: Seq<u8>)
    requires
        spec_decode(d) is Some,
    ensures
        forall|j: int| #[trigger] free_mini_with_residue(d, j) ==> reported(d, mini_residue_report(d, j)),
        forall|k: int|
            (0 <= k < spec_audit(d).len() && #[trigger] mini_residue_sid(spec_audit(d)[k]) is Some) ==> (
            exists|j: int|
                free_mini_with_residue(d, j) && spec_audit(d)[k] == mini_residue_report(d, j)
                    && crate::carve::spec_count_nonzero(mini_sector_bytes(d, j)) <= 64),
        forall|k1: int, k2: int|
            (0 <= k1 < spec_audit(d).len() && 0 <= k2 < spec_audit(d).len() && k1 != k2
                && #[trigger] mini_residue_sid(spec_audit(d)[k1]) is Some
                && #[trigger] mini_residue_sid(spec_audit(d)[k2]) is Some) ==> mini_residue_sid(
                spec_audit(d)[k1],
            ) != mini_residue_sid(spec_audit(d)[k2]),
{
    let c = context_of(d);
    let n = c.raw.mini_fat.len() as int;
    let f = |j: int| spec_free_mini_part(c, j);
    assert(spec_audit(d) == spec_audit_decoded(c));
    assert forall|j: int| #[trigger] free_mini_with_residue(d, j) implies reported(
        d,
        mini_residue_report(d, j),
    ) by {
        assert(crate::carve::spec_block(c.mini, 64, 0, j) == Some(mini_sector_bytes(d, j)));
        let kk = lemma_collect_at(n, f, j, 0);
        lemma_audit_has(c, 6, kk);
        assert(spec_audit(d)[part_start(audit_parts(c), 6) + kk] == mini_residue_report(d, j));
    }
    assert forall|k: int|
        (0 <= k < spec_audit(d).len() && #[trigger] mini_residue_sid(spec_audit(d)[k]) is Some) implies (
        exists|j: int|
            free_mini_with_residue(d, j) && spec_audit(d)[k] == mini_residue_report(d, j)
                && crate::carve::spec_count_nonzero(mini_sector_bytes(d, j)) <= 64) by {
        let j = lemma_mini_report(d, k);
        crate::laws::lemma_count_nonzero_le(mini_sector_bytes(d, j));
    }
    assert forall|k1: int, k2: int|
        (0 <= k1 < spec_audit(d).len() && 0 <= k2 < spec_audit(d).len() && k1 != k2
            && #[trigger] mini_residue_sid(spec_audit(d)[k1]) is Some
            && #[trigger] mini_residue_sid(spec_audit(d)[k2]) is Some) implies mini_residue_sid(
        spec_audit(d)[k1],
    ) != mini_residue_sid(spec_audit(d)[k2]) by {
        let j1 = lemma_mini_report(d, k1);
        let j2 = lemma_mini_report(d, k2);
    }
}

/// Report `k` of the audit of `d`, a mini-FAT free-sector residue report, is
/// the report of free mini-sector `j`, standing at its place in the mini-FAT
/// part.
proof fn lemma_mini_report(d: Seq<u8>, k: int) -> (j: int)
    requires
        spec_decode(d) is Some,
        0 <= k < spec_audit(d).len(),
        mini_residue_sid(spec_audit(d)[k]) is Some,
    ensures
        free_mini_with_residue(d, j),
        spec_audit(d)[k] == mini_residue_report(d, j),
        mini_residue_sid(spec_audit(d)[k]) == Some(j as u32),
        0 <= j < 0x1_0000_0000,
        k == part_start(audit_parts(context_of(d)), 6) + part_start(
            Seq::new(decoded(d).mini_fat.len(), |i: int| spec_free_mini_part(context_of(d), i)),
            j,
        ),
{
    reveal_strlit("FAT");
    reveal_strlit("mini-FAT");
    let c = context_of(d);
    let n = c.raw.mini_fat.len() as int;
    let f = |i: int| spec_free_mini_part(c, i);
    assert(spec_audit(d) == spec_audit_decoded(c));
    crate::laws::law_decode_is_capped(d);
    let m = lemma_audit_locate(c, k);
    assert("FAT"@.len() == 3 && "mini-FAT"@.len() == 8);
    assert(m == 6);
    let kk = k - part_start(audit_parts(c), 6);
    let j = lemma_collect_locate(n, f, kk);
    assert(f(j).len() <= 1);
    j
}

// ---------------------------------------------------------------------------
// Loops in mini-FAT chains
// ---------------------------------------------------------------------------

/// `ch` is a chain of `table` whose mini-sectors all lie inside `src` and
/// whose last link leads back into the chain: distinct regular ids, each
/// linked to the next, the last linked to one of them.
pub open spec fn looping_mini_chain(src: Seq<u8>, table: Seq<u32>, ch: Seq<u32>) -> bool {
    &&& ch.len() > 0
    &&& forall|t: int|
        0 <= t < ch.len() ==> #[trigger] ch[t] <= crate::layout::MAXREGSECT && (ch[t] as int)
            < table.len() && 64 * ch[t] + 64 <= src.len()
    &&& forall|t: int| 0 <= t < ch.len() - 1 ==> table[#[trigger] ch[t] as int] == ch[t + 1]
    &&& forall|t: int, u: int| 0 <= t < u < ch.len() ==> #[trigger] ch[t] != #[trigger] ch[u]
    &&& exists|t: int| 0 <= t < ch.len() && table[ch[ch.len() - 1] as int] == #[trigger] ch[t]
}

proof fn lemma_carve_loops_along(
    src: Seq<u8>,
    table: Seq<u32>,
    ch: Seq<u32>,
    rem: int,
    visited: Set<u32>,
    target: u32,
)
    requires
        ch.len() > 0,
        forall|t: int|
            0 <= t < ch.len() ==> #[trigger] ch[t] <= crate::layout::MAXREGSECT && (ch[t] as int)
                < table.len() && 64 * ch[t] + 64 <= src.len(),
        forall|t: int| 0 <= t < ch.len() - 1 ==> table[#[trigger] ch[t] as int] == ch[t + 1],
        forall|t: int, u: int| 0 <= t < u < ch.len() ==> #[trigger] ch[t] != #[trigger] ch[u],
        forall|t: int| 0 <= t < ch.len() ==> !visited.contains(#[trigger] ch[t]),
        table[ch[ch.len() - 1] as int] == target,
        target <= crate::layout::MAXREGSECT,
        (target as int) < table.len(),
        visited.contains(target) || exists|t: int| 0 <= t < ch.len() && #[trigger] ch[t] == target,
        rem > 64 * ch.len(),
    ensures
        crate::carve::spec_carve_loops(src, 64, 0, table, ch[0], rem, visited),
    decreases ch.len(),
{
    let v2 = visited.insert(ch[0]);
    assert(crate::carve::spec_block(src, 64, 0, ch[0] as int) is Some);
    if ch.len() == 1 {
        assert(crate::raw::spec_next(table, ch[0]) == target);
        assert(v2.contains(target));
        assert(crate::carve::spec_carve_loops(src, 64, 0, table, target, rem - 64, v2));
    } else {
        let rest = ch.skip(1);
        assert(crate::raw::spec_next(table, ch[0]) == rest[0]);
        assert forall|t: int| 0 <= t < rest.len() implies !v2.contains(#[trigger] rest[t]) by {
            assert(rest[t] == ch[t + 1]);
            assert(ch[0] != ch[t + 1]);
        }
        assert forall|t: int|
            0 <= t < rest.len() implies #[trigger] rest[t] <= crate::layout::MAXREGSECT && (rest[t] as int)
                < table.len() && 64 * rest[t] + 64 <= src.len() by {
            assert(rest[t] == ch[t + 1]);
        }
        assert forall|t: int| 0 <= t < rest.len() - 1 implies table[#[trigger] rest[t] as int] == rest[t + 1] by {
            assert(rest[t] == ch[t + 1]);
            assert(rest[t + 1] == ch[t + 2]);
        }
        assert forall|t: int, u: int| 0 <= t < u < rest.len() implies #[trigger] rest[t] != #[trigger] rest[u] by {
            assert(rest[t] == ch[t + 1]);
            assert(rest[u] == ch[u + 1]);
        }
        assert(rest[rest.len() - 1] == ch[ch.len() - 1]);
        if !visited.contains(target) {
            let t0 = choose|t: int| 0 <= t < ch.len() && #[trigger] ch[t] == target;
            if t0 > 0 {
                assert(rest[t0 - 1] == target);
            }
        }
        lemma_carve_loops_along(src, table, rest, rem - 64, v2, target);
    }
}

/// A loop in a mini-FAT chain is reported: when stream entry `i` is a
/// small stream (under the 4096-byte cutoff, so it lives in the mini-stream)
/// declaring more bytes than the mini-sectors of `ch` hold, and `ch` — from
/// the entry's start sector — runs through mini-sectors inside the
/// mini-stream and links back into itself, the audit reports a chain loop in
/// the mini-FAT.
pub proof fn law_mini_chain_loop_is_reported(d: Seq<u8>, i: int, ch: Seq<u32>)
    requires
        spec_decode(d) is Some,
        0 <= i < decoded(d).dir_entries.len(),
        decoded(d).dir_entries[i].object_type == 0x02,
        decoded(d).dir_entries[i].stream_size < 4096,
        decoded(d).dir_entries[i].stream_size > 64 * ch.len(),
        looping_mini_chain(context_of(d).mini, decoded(d).mini_fat, ch),
        ch[0] == decoded(d).dir_entries[i].start_sector,
    ensures
        reported(d, loop_report("mini-FAT"@)),
{
    let c = context_of(d);
    let e = c.raw.dir_entries[i];
    let w = crate::audit::spec_entry_walk(c, i).unwrap();
    crate::laws::lemma_round_up_gap(e.stream_size as int, 64);
    assert(w.in_mini && w.total >= e.stream_size);
    let table = c.raw.mini_fat;
    let target = table[ch[ch.len() - 1] as int];
    let t0 = choose|t: int| 0 <= t < ch.len() && table[ch[ch.len() - 1] as int] == #[trigger] ch[t];
    assert(ch[t0] == target);
    lemma_carve_loops_along(c.mini, table, ch, w.total, Set::empty(), target);
    assert(crate::audit::spec_walk_loops_in(c, i, true));
    law_chain_loops_are_reported(d);
}

} // verus!
