//! Properties of the library as a whole, proved over the specifications that
//! the functions' own contracts use.
use vstd::prelude::*;
use crate::anomaly::{AnomalyView, spec_code, spec_note};
use crate::audit::{
    spec_entry_walk, spec_entry_carve, spec_round_up,
    spec_audit, spec_audit_decoded, spec_collect, spec_context, spec_difat_ids, spec_entry_part, spec_orphan_part,
    spec_tamper_part, spec_slack_part, spec_byte_order_part, spec_difat_part, spec_root_part,
    spec_loop_part, spec_free_fat_part, spec_free_mini_part, AuditContext,
};
use crate::carve::{spec_carve, spec_count_nonzero, spec_tail};
use crate::layout::{FREESECT, MAX_DIR_ENTRIES, MAX_SECTORS, MINI_SECTOR_SIZE};
use crate::raw::{
    concat_map, spec_cap, spec_decode, spec_is_cfb, spec_reachable, spec_sector_offset, DirEntryView,
};

verus! {

/// True when the observation reports an orphaned directory entry.
pub open spec fn is_orphan_report(a: AnomalyView) -> bool {
    a is OrphanedDirEntry
}

/// The number of the entry an orphan report is about.
pub open spec fn orphan_sid(a: AnomalyView) -> u32 {
    match a {
        AnomalyView::OrphanedDirEntry(o) => o.sid,
        _ => 0,
    }
}

/// Input that is not a compound file (shorter than a header, or without the
/// signature) yields no observation at all.
pub proof fn law_non_compound_input_yields_nothing(d: Seq<u8>)
    requires
        !spec_is_cfb(d),
    ensures
        spec_audit(d) == Seq::<AnomalyView>::empty(),
{
}

/// The decode caps what hostile counts can make it hold: the FAT and the
/// mini-FAT hold at most `MAX_SECTORS` slots, the directory at most
/// `MAX_DIR_ENTRIES` entries.
pub proof fn law_decode_is_capped(d: Seq<u8>)
    requires
        spec_decode(d) is Some,
    ensures
        spec_decode(d).unwrap().fat.len() <= MAX_SECTORS,
        spec_decode(d).unwrap().mini_fat.len() <= MAX_SECTORS,
        spec_decode(d).unwrap().dir_entries.len() <= MAX_DIR_ENTRIES,
{
}

proof fn lemma_concat_len_multiple<A>(ids: Seq<u32>, f: spec_fn(u32) -> Seq<A>, e: int)
    requires
        e > 0,
        forall|x: u32| #[trigger] f(x).len() as int % e == 0,
    ensures
        concat_map(ids, f).len() as int % e == 0,
    decreases ids.len(),
{
    if ids.len() > 0 {
        lemma_concat_len_multiple(ids.drop_last(), f, e);
        let a = concat_map(ids.drop_last(), f).len() as int;
        let b = f(ids.last()).len() as int;
        vstd::arithmetic::div_mod::lemma_mod_adds(a, b, e);
        assert(concat_map(ids, f).len() == a + b);
    } else {
        vstd::arithmetic::div_mod::lemma_small_mod(0, e as nat);
    }
}

proof fn lemma_cap_len_multiple<A>(s: Seq<A>, cap: int, e: int)
    requires
        e > 0,
        s.len() as int % e == 0,
        cap >= 0,
        cap % e == 0,
    ensures
        spec_cap(s, cap).len() as int % e == 0,
{
}

/// The decode reads whole sectors: the FAT and the mini-FAT hold a whole
/// number of sectors' worth of slots (`sector size / 4` each), and the
/// directory a whole number of sectors' worth of entries (`sector size / 128`
/// each).
pub proof fn law_decode_reads_whole_sectors(d: Seq<u8>)
    requires
        spec_decode(d) is Some,
    ensures
        spec_decode(d).unwrap().fat.len() as int % (spec_decode(d).unwrap().sector_size / 4) as int == 0,
        spec_decode(d).unwrap().mini_fat.len() as int % (spec_decode(d).unwrap().sector_size / 4) as int == 0,
        spec_decode(d).unwrap().dir_entries.len() as int % (spec_decode(d).unwrap().sector_size / 128) as int
            == 0,
{
    let raw = spec_decode(d).unwrap();
    let ss = raw.sector_size as int;
    let shift = crate::raw::spec_effective_shift(
        crate::raw::spec_le16(d, crate::layout::SECTOR_SHIFT as int),
    );
    vstd::arithmetic::power2::lemma2_to64();
    assert(9 <= shift <= 20);
    assert(ss == vstd::arithmetic::power2::pow2(shift as nat));
    assert(MAX_SECTORS as int % (ss / 4) == 0 && MAX_DIR_ENTRIES as int % (ss / 128) == 0 && ss % 128 == 0) by {
        if shift == 9 {
        } else if shift == 10 {
        } else if shift == 11 {
        } else if shift == 12 {
        } else if shift == 13 {
        } else if shift == 14 {
        } else if shift == 15 {
        } else if shift == 16 {
        } else if shift == 17 {
        } else if shift == 18 {
        } else if shift == 19 {
        } else {
        }
    }
    let e = ss / 4;
    let g = ss / 128;
    let fw = |sid: u32| crate::raw::spec_sector_words(d, ss, sid);
    let fe = |sid: u32| crate::raw::spec_sector_entries(d, ss, sid);
    assert forall|x: u32| #[trigger] fw(x).len() as int % e == 0 by {
        if fw(x).len() != 0 {
            assert(fw(x).len() == e);
        }
    }
    assert forall|x: u32| #[trigger] fe(x).len() as int % g == 0 by {
        if fe(x).len() != 0 {
            assert(fe(x).len() == g);
        }
    }
    let ids = crate::raw::spec_fat_ids(d, ss, raw.first_difat_sector);
    lemma_concat_len_multiple(ids, fw, e);
    lemma_cap_len_multiple(concat_map(ids, fw), MAX_SECTORS as int, e);
    let mini_first = crate::raw::spec_le32(d, crate::layout::FIRST_MINIFAT_SECTOR as int);
    let mchain = crate::raw::spec_chain_from(d, ss, raw.fat, mini_first);
    lemma_concat_len_multiple(mchain, fw, e);
    lemma_cap_len_multiple(concat_map(mchain, fw), MAX_SECTORS as int, e);
    let dir_first = crate::raw::spec_le32(d, crate::layout::FIRST_DIR_SECTOR as int);
    let dchain = crate::raw::spec_chain_from(d, ss, raw.fat, dir_first);
    lemma_concat_len_multiple(dchain, fe, g);
    lemma_cap_len_multiple(concat_map(dchain, fe), MAX_DIR_ENTRIES as int, g);
}

/// An entry's name is read from at most 31 UTF-16 units, all within the
/// first 62 bytes of the name field, whatever byte length the entry declares
/// (a declared length past the 64-byte field reads as 64, and one of 3 or
/// less gives the empty name); lossy decoding gives at most one character per
/// unit, so a name holds at most 31 characters.
pub proof fn law_entry_names_are_short(raw: Seq<u8>, declared_len: int)
    ensures
        crate::raw::spec_name_units(raw, declared_len).len() <= 31,
        crate::raw::spec_name_units(raw, declared_len) == crate::raw::spec_name_units(
            raw,
            if declared_len < 64 {
                declared_len
            } else {
                64
            },
        ),
        forall|i: int|
            0 <= i < crate::raw::spec_name_units(raw, declared_len).len() ==> (#[trigger] crate::raw::spec_name_units(
                raw,
                declared_len,
            )[i] == crate::raw::spec_le16(raw, crate::layout::NAME as int + 2 * i) && crate::layout::NAME
                + 2 * i + 2 <= crate::layout::NAME + 62),
        crate::text::spec_utf16_lossy(crate::raw::spec_name_units(raw, declared_len)).len() <= 31,
        declared_len <= 3 ==> crate::text::spec_utf16_lossy(
            crate::raw::spec_name_units(raw, declared_len),
        ) == Seq::<char>::empty(),
{
    let units = crate::raw::spec_name_units(raw, declared_len);
    let clamped = if declared_len < 64 {
        declared_len
    } else {
        64
    };
    assert(units =~= crate::raw::spec_name_units(raw, clamped));
    crate::text::lemma_utf16_lossy_len(units);
}

/// The header's first directory sector.
pub open spec fn first_dir_sector(d: Seq<u8>) -> u32 {
    crate::raw::spec_le32(d, crate::layout::FIRST_DIR_SECTOR as int)
}

/// Slot `j` (128 bytes) of regular sector `sid` of `d`.
pub open spec fn dir_slot(d: Seq<u8>, ss: int, sid: u32, j: int) -> Seq<u8> {
    crate::raw::spec_sector(d, ss, sid as int).unwrap().subrange(128 * j, 128 * j + 128)
}

/// The directory is read along its FAT chain, not only from its first
/// sector: when the header's first directory sector `s1` is a regular sector
/// inside the file and the decoded FAT links it to another regular sector
/// `s2 != s1` inside the file, the directory holds every slot of both — slot
/// `j` of `s1` decoded as entry `j`, and slot `j` of `s2` as entry
/// `sector_size / 128 + j`.
pub proof fn law_directory_follows_its_chain(d: Seq<u8>)
    requires
        spec_decode(d) is Some,
        first_dir_sector(d) <= crate::layout::MAXREGSECT,
        crate::raw::spec_sector(d, spec_decode(d).unwrap().sector_size as int, first_dir_sector(d) as int)
            is Some,
        (first_dir_sector(d) as int) < spec_decode(d).unwrap().fat.len(),
        spec_decode(d).unwrap().fat[first_dir_sector(d) as int] <= crate::layout::MAXREGSECT,
        spec_decode(d).unwrap().fat[first_dir_sector(d) as int] != first_dir_sector(d),
        crate::raw::spec_sector(
            d,
            spec_decode(d).unwrap().sector_size as int,
            spec_decode(d).unwrap().fat[first_dir_sector(d) as int] as int,
        ) is Some,
    ensures
        spec_decode(d).unwrap().dir_entries.len() >= 2 * (spec_decode(d).unwrap().sector_size / 128),
        forall|j: int|
            0 <= j < spec_decode(d).unwrap().sector_size / 128 ==> #[trigger] spec_decode(
                d,
            ).unwrap().dir_entries[j] == crate::raw::spec_dir_entry(
                dir_slot(d, spec_decode(d).unwrap().sector_size as int, first_dir_sector(d), j),
                j as u32,
            ),
        forall|j: int|
            0 <= j < spec_decode(d).unwrap().sector_size / 128 ==> #[trigger] spec_decode(
                d,
            ).unwrap().dir_entries[spec_decode(d).unwrap().sector_size / 128 + j]
                == crate::raw::spec_dir_entry(
                dir_slot(
                    d,
                    spec_decode(d).unwrap().sector_size as int,
                    spec_decode(d).unwrap().fat[first_dir_sector(d) as int],
                    j,
                ),
                (spec_decode(d).unwrap().sector_size / 128 + j) as u32,
            ),
{
    let raw = spec_decode(d).unwrap();
    let ss = raw.sector_size as int;
    let fat = raw.fat;
    let s1 = first_dir_sector(d);
    let s2 = fat[s1 as int];
    let g = ss / 128;
    lemma_decoded_sector_size(d);
    assert(4 <= g <= 8192);
    let shift = crate::raw::spec_effective_shift(
        crate::raw::spec_le16(d, crate::layout::SECTOR_SHIFT as int),
    );
    vstd::arithmetic::power2::lemma2_to64();
    assert(9 <= shift <= 20);
    assert(ss == vstd::arithmetic::power2::pow2(shift as nat));
    let fe = |sid: u32| crate::raw::spec_sector_entries(d, ss, sid);
    let rest = crate::raw::spec_chain(d, ss, fat, crate::raw::spec_next(fat, s2), Set::empty().insert(s1).insert(s2), 2);
    let chain = crate::raw::spec_chain_from(d, ss, fat, s1);
    assert(crate::raw::spec_next(fat, s1) == s2);
    assert(crate::raw::spec_chain(d, ss, fat, s2, Set::empty().insert(s1), 1) == seq![s2] + rest);
    assert(chain == seq![s1] + (seq![s2] + rest));
    assert(chain =~= seq![s1, s2] + rest);
    crate::raw::lemma_concat_map_append(seq![s1, s2], rest, fe);
    assert(seq![s1, s2].drop_last() =~= seq![s1]);
    assert(seq![s1].drop_last() =~= Seq::<u32>::empty());
    assert(concat_map(Seq::<u32>::empty(), fe) =~= Seq::<Seq<u8>>::empty());
    assert(concat_map(seq![s1], fe) =~= fe(s1));
    assert(concat_map(seq![s1, s2], fe) =~= fe(s1) + fe(s2));
    let all = concat_map(chain, fe);
    assert(all == fe(s1) + fe(s2) + concat_map(rest, fe));
    assert(fe(s1).len() == g && fe(s2).len() == g);
    let slots = crate::raw::spec_dir_slots(d, ss, fat, s1);
    assert(slots == spec_cap(all, MAX_DIR_ENTRIES as int));
    assert(slots.len() >= 2 * g);
    assert(raw.dir_entries == crate::raw::spec_directory(d, ss, fat, s1));
    let sec1 = crate::raw::spec_sector(d, ss, s1 as int).unwrap();
    let sec2 = crate::raw::spec_sector(d, ss, s2 as int).unwrap();
    assert forall|j: int| 0 <= j < g implies #[trigger] raw.dir_entries[j] == crate::raw::spec_dir_entry(
        dir_slot(d, ss, s1, j),
        j as u32,
    ) by {
        assert(all[j] == fe(s1)[j]);
        assert(slots[j] == all[j]);
        assert(fe(s1)[j] == sec1.subrange(128 * j, 128 * j + 128));
    }
    assert forall|j: int| 0 <= j < g implies #[trigger] raw.dir_entries[g + j] == crate::raw::spec_dir_entry(
        dir_slot(d, ss, s2, j),
        (g + j) as u32,
    ) by {
        assert(all[g + j] == fe(s2)[j]);
        assert(slots[g + j] == all[g + j]);
        assert(fe(s2)[j] == sec2.subrange(128 * j, 128 * j + 128));
    }
}

/// Every decoded directory entry carries its own index in the directory array
/// as its stream id.
pub proof fn law_entries_are_numbered_in_order(d: Seq<u8>, i: int)
    requires
        spec_decode(d) is Some,
        0 <= i < spec_decode(d).unwrap().dir_entries.len(),
    ensures
        spec_decode(d).unwrap().dir_entries[i].sid == i,
{
    law_decode_is_capped(d);
}

/// The root entry (entry 0) is reachable whenever the directory is not empty,
/// so it is never reported as an orphan.
pub proof fn law_root_is_reachable(entries: Seq<DirEntryView>)
    requires
        entries.len() > 0,
    ensures
        spec_reachable(entries, 0),
{
    crate::raw::lemma_root_reachable(entries);
}

/// A shift of 64 or more never yields a sector offset, whatever the sector id.
pub proof fn law_wide_shift_has_no_offset(sid: u32, sector_shift: u16)
    requires
        sector_shift >= 64,
    ensures
        spec_sector_offset(sid, sector_shift) is None,
{
    vstd::arithmetic::power2::lemma2_to64();
    if sector_shift > 64 {
        vstd::arithmetic::power2::lemma_pow2_strictly_increases(64, sector_shift as nat);
    }
    assert((sid + 1) * vstd::arithmetic::power2::pow2(sector_shift as nat) >= vstd::arithmetic::power2::pow2(
        sector_shift as nat,
    )) by (nonlinear_arith)
        requires
            sid + 1 >= 1,
            vstd::arithmetic::power2::pow2(sector_shift as nat) >= 0,
    ;
}

/// A carve never gives more bytes than were asked for.
pub proof fn law_carve_within_request(
    src: Seq<u8>,
    unit: int,
    skip: int,
    table: Seq<u32>,
    sid: u32,
    remaining: int,
    visited: Set<u32>,
)
    ensures
        spec_carve(src, unit, skip, table, sid, remaining, visited).len() <= if remaining < 0 {
            0
        } else {
            remaining
        },
    decreases remaining,
{
    if crate::carve::spec_carve_goes_on(src, unit, skip, table, sid, remaining, visited) {
        let t = if unit < remaining {
            unit
        } else {
            remaining
        };
        law_carve_within_request(
            src,
            unit,
            skip,
            table,
            crate::raw::spec_next(table, sid),
            remaining - t,
            visited.insert(sid),
        );
    }
}

/// Every observation code carries the `OLECF-` scheme prefix.
pub proof fn law_codes_are_prefixed(a: AnomalyView)
    ensures
        spec_code(a).len() > 6,
        spec_code(a).take(6) == "OLECF-"@,
{
    reveal_strlit("OLECF-");
    reveal_strlit("OLECF-ORPHANED-DIR-ENTRY");
    reveal_strlit("OLECF-FREE-SECTOR-RESIDUE");
    reveal_strlit("OLECF-SLACK-RESIDUE");
    reveal_strlit("OLECF-STRUCTURE-ANOMALY");
    reveal_strlit("OLECF-ROOT-CLSID");
    assert(spec_code(a).take(6) =~= "OLECF-"@);
}

/// Every observation has a non-empty hedged note.
pub proof fn law_notes_are_nonempty(a: AnomalyView)
    ensures
        spec_note(a).len() > 0,
{
    reveal_strlit(
        "directory entry unreachable from the root tree; consistent with a deleted stream or storage whose metadata and resident content remain recoverable",
    );
    reveal_strlit(
        "sector marked free still holds non-zero bytes; consistent with remnants of deleted stream content",
    );
    reveal_strlit(
        "non-zero bytes past the stream's declared size in its final sector; consistent with leftover or hidden data",
    );
    reveal_strlit(
        "stream entry carries a non-zero CLSID, which [MS-CFB] requires to be zero; consistent with tampering",
    );
    reveal_strlit(
        "stream entry carries non-zero state bits, which [MS-CFB] requires to be zero; consistent with tampering",
    );
    reveal_strlit(
        "stream entry carries a non-zero creation or modification FILETIME, which [MS-CFB] requires to be zero; consistent with tampering or timestomping",
    );
    reveal_strlit(
        "a sector chain loops back on itself; consistent with corruption or deliberate obfuscation",
    );
    reveal_strlit(
        "the DIFAT lists a FAT sector beyond the end of the file; consistent with truncation or tampering",
    );
    reveal_strlit(
        "the header byte-order mark is not 0xFFFE; consistent with corruption or tampering",
    );
    reveal_strlit(
        "root storage CLSID and the creation/modification times the compound file records; provenance, not an anomaly",
    );
}

// ---------------------------------------------------------------------------
// Which entries are reported as orphans
// ---------------------------------------------------------------------------

pub(crate) proof fn lemma_collect_member(n: int, f: spec_fn(int) -> Seq<AnomalyView>, k: int)
    requires
        0 <= k < spec_collect(n, f).len(),
    ensures
        exists|i: int, j: int| 0 <= i < n && 0 <= j < f(i).len() && spec_collect(n, f)[k] == #[trigger] f(i)[j],
    decreases n,
{
    if n > 0 {
        let p = spec_collect(n - 1, f);
        if k < p.len() {
            lemma_collect_member(n - 1, f, k);
        } else {
            assert(spec_collect(n, f)[k] == f(n - 1)[k - p.len()]);
        }
    }
}

pub(crate) proof fn lemma_collect_has(n: int, f: spec_fn(int) -> Seq<AnomalyView>, i: int, j: int)
    requires
        0 <= i < n,
        0 <= j < f(i).len(),
    ensures
        exists|k: int| 0 <= k < spec_collect(n, f).len() && spec_collect(n, f)[k] == f(i)[j],
    decreases n,
{
    let p = spec_collect(n - 1, f);
    if i < n - 1 {
        lemma_collect_has(n - 1, f, i, j);
        let k = choose|k: int| 0 <= k < p.len() && p[k] == f(i)[j];
        assert(spec_collect(n, f)[k] == f(i)[j]);
    } else {
        assert(spec_collect(n, f)[p.len() + j] == f(i)[j]);
    }
}

/// No observation of `s` is an orphan report.
pub open spec fn no_orphan_reports(s: Seq<AnomalyView>) -> bool {
    forall|k: int| 0 <= k < s.len() ==> !is_orphan_report(#[trigger] s[k])
}

proof fn lemma_collect_no_orphans(n: int, f: spec_fn(int) -> Seq<AnomalyView>)
    requires
        forall|i: int| 0 <= i < n ==> no_orphan_reports(#[trigger] f(i)),
    ensures
        no_orphan_reports(spec_collect(n, f)),
{
    assert forall|k: int| 0 <= k < spec_collect(n, f).len() implies !is_orphan_report(
        #[trigger] spec_collect(n, f)[k],
    ) by {
        lemma_collect_member(n, f, k);
        let (i, j) = choose|i: int, j: int|
            0 <= i < n && 0 <= j < f(i).len() && spec_collect(n, f)[k] == #[trigger] f(i)[j];
        assert(no_orphan_reports(f(i)));
    }
}

/// Entry `i` of the context is an allocated storage or stream that the live
/// tree does not reach.
pub open spec fn unreached_allocated(c: AuditContext, i: int) -> bool {
    let e = c.raw.dir_entries[i];
    &&& 0 <= i < c.raw.dir_entries.len()
    &&& (e.object_type == 0x01 || e.object_type == 0x02)
    &&& !spec_reachable(c.raw.dir_entries, i)
}

proof fn lemma_entry_part_orphans(c: AuditContext, i: int, j: int)
    requires
        c.reach.len() == c.raw.dir_entries.len(),
        forall|x: int| 0 <= x < c.reach.len() ==> c.reach[x] == spec_reachable(c.raw.dir_entries, x),
        0 <= i < c.raw.dir_entries.len(),
        0 <= j < spec_entry_part(c, i).len(),
        is_orphan_report(spec_entry_part(c, i)[j]),
    ensures
        unreached_allocated(c, i),
        orphan_sid(spec_entry_part(c, i)[j]) == c.raw.dir_entries[i].sid,
{
    let o = spec_orphan_part(c, i);
    let t = spec_tamper_part(c, i);
    let s = spec_slack_part(c, i);
    assert(spec_entry_part(c, i) == o + t + s);
    assert(no_orphan_reports(t));
    assert(no_orphan_reports(s));
    if j >= o.len() {
        if j < o.len() + t.len() {
            assert(spec_entry_part(c, i)[j] == t[j - o.len()]);
        } else {
            assert(spec_entry_part(c, i)[j] == s[j - o.len() - t.len()]);
        }
    }
}

/// The observations of a decoded file before the per-entry reports.
pub open spec fn audit_head(c: AuditContext) -> Seq<AnomalyView> {
    let ss = c.raw.sector_size as int;
    spec_byte_order_part(c.raw) + spec_collect(
        spec_difat_ids(c).len() as int,
        |k: int| spec_difat_part(c.d, ss, spec_difat_ids(c), k),
    ) + spec_root_part(c.raw)
}

/// The observations of a decoded file after the per-entry reports.
pub open spec fn audit_rest(c: AuditContext) -> Seq<AnomalyView> {
    spec_loop_part(c) + spec_collect(
        c.raw.fat.len() as int,
        |j: int| spec_free_fat_part(c.d, c.raw, j),
    ) + spec_collect(c.raw.mini_fat.len() as int, |j: int| spec_free_mini_part(c, j))
}

proof fn lemma_audit_shape(c: AuditContext)
    ensures
        spec_audit_decoded(c) == audit_head(c) + spec_collect(
            c.raw.dir_entries.len() as int,
            |i: int| spec_entry_part(c, i),
        ) + audit_rest(c),
        no_orphan_reports(audit_head(c)),
        no_orphan_reports(audit_rest(c)),
{
    let ss = c.raw.sector_size as int;
    let fd = |k: int| spec_difat_part(c.d, ss, spec_difat_ids(c), k);
    let ff = |j: int| spec_free_fat_part(c.d, c.raw, j);
    let fm = |j: int| spec_free_mini_part(c, j);
    assert(spec_audit_decoded(c) =~= audit_head(c) + spec_collect(
        c.raw.dir_entries.len() as int,
        |i: int| spec_entry_part(c, i),
    ) + audit_rest(c));
    lemma_collect_no_orphans(spec_difat_ids(c).len() as int, fd);
    lemma_collect_no_orphans(c.raw.fat.len() as int, ff);
    lemma_collect_no_orphans(c.raw.mini_fat.len() as int, fm);
    let p1 = audit_head(c);
    let q = spec_collect(spec_difat_ids(c).len() as int, fd);
    let b = spec_byte_order_part(c.raw);
    assert forall|k: int| 0 <= k < p1.len() implies !is_orphan_report(#[trigger] p1[k]) by {
        if k >= b.len() && k < b.len() + q.len() {
            assert(p1[k] == q[k - b.len()]);
        }
    }
    let p2 = audit_rest(c);
    let l = spec_loop_part(c);
    let q1 = spec_collect(c.raw.fat.len() as int, ff);
    let q2 = spec_collect(c.raw.mini_fat.len() as int, fm);
    assert forall|k: int| 0 <= k < p2.len() implies !is_orphan_report(#[trigger] p2[k]) by {
        if k >= l.len() && k < l.len() + q1.len() {
            assert(p2[k] == q1[k - l.len()]);
        } else if k >= l.len() + q1.len() {
            assert(p2[k] == q2[k - l.len() - q1.len()]);
        }
    }
}

/// Orphan reports name exactly the unreached allocated entries: every orphan
/// report is about an allocated storage or stream that the live tree does not
/// reach (so no live entry is ever reported as an orphan), and every such
/// entry is reported.
pub proof fn law_orphans_are_the_unreached_entries(d: Seq<u8>)
    requires
        spec_decode(d) is Some,
    ensures
        forall|k: int|
            0 <= k < spec_audit(d).len() && is_orphan_report(#[trigger] spec_audit(d)[k]) ==> exists|i: int|
                unreached_allocated(spec_context(d, spec_decode(d).unwrap()), i) && orphan_sid(
                    spec_audit(d)[k],
                ) == i,
        forall|i: int|
            #[trigger] unreached_allocated(spec_context(d, spec_decode(d).unwrap()), i) ==> exists|k: int|
                0 <= k < spec_audit(d).len() && is_orphan_report(spec_audit(d)[k]) && orphan_sid(
                    spec_audit(d)[k],
                ) == i,
{
    let raw = spec_decode(d).unwrap();
    let c = spec_context(d, raw);
    let n = raw.dir_entries.len() as int;
    let fe = |i: int| spec_entry_part(c, i);
    lemma_audit_shape(c);
    let p1 = audit_head(c);
    let mid = spec_collect(n, fe);
    let p2 = audit_rest(c);
    let a = spec_audit(d);
    assert(a == p1 + mid + p2);
    assert forall|k: int|
        0 <= k < a.len() && is_orphan_report(#[trigger] a[k]) implies exists|i: int|
        unreached_allocated(c, i) && orphan_sid(a[k]) == i by {
        if k < p1.len() {
            assert(a[k] == p1[k]);
        } else if k >= p1.len() + mid.len() {
            assert(a[k] == p2[k - p1.len() - mid.len()]);
        } else {
            let km = k - p1.len();
            assert(a[k] == mid[km]);
            lemma_collect_member(n, fe, km);
            let (i, j) = choose|i: int, j: int|
                0 <= i < n && 0 <= j < fe(i).len() && mid[km] == #[trigger] fe(i)[j];
            lemma_entry_part_orphans(c, i, j);
            law_entries_are_numbered_in_order(d, i);
        }
    }
    assert forall|i: int| #[trigger] unreached_allocated(c, i) implies exists|k: int|
        0 <= k < a.len() && is_orphan_report(a[k]) && orphan_sid(a[k]) == i by {
        law_entries_are_numbered_in_order(d, i);
        assert(spec_entry_part(c, i) == spec_orphan_part(c, i) + spec_tamper_part(c, i)
            + spec_slack_part(c, i));
        assert(spec_orphan_part(c, i).len() == 1);
        assert(fe(i)[0] == spec_orphan_part(c, i)[0]);
        lemma_collect_has(n, fe, i, 0);
        let km = choose|km: int| 0 <= km < mid.len() && mid[km] == fe(i)[0];
        assert(a[p1.len() + km] == mid[km]);
    }
}

// ---------------------------------------------------------------------------
// Residue reports
// ---------------------------------------------------------------------------

/// A residue report of the context is sound: a free-sector residue report
/// counts some non-zero bytes and names a slot its allocation table marks
/// free; a slack report counts some non-zero bytes.
pub open spec fn residue_report_sound(c: AuditContext, a: AnomalyView) -> bool {
    match a {
        AnomalyView::FreeSectorResidue { sid, space, residue_len, .. } => {
            &&& residue_len > 0
            &&& (space == "FAT"@ && (sid as int) < c.raw.fat.len() && c.raw.fat[sid as int] == FREESECT)
                || (space == "mini-FAT"@ && (sid as int) < c.raw.mini_fat.len()
                && c.raw.mini_fat[sid as int] == FREESECT)
        },
        AnomalyView::SlackResidue { slack_len, .. } => slack_len > 0,
        _ => true,
    }
}

/// Every observation of `s` is a sound residue report or no residue report.
pub open spec fn residue_sound_all(c: AuditContext, s: Seq<AnomalyView>) -> bool {
    forall|k: int| 0 <= k < s.len() ==> residue_report_sound(c, #[trigger] s[k])
}

proof fn lemma_collect_residue_sound(c: AuditContext, n: int, f: spec_fn(int) -> Seq<AnomalyView>)
    requires
        forall|i: int| 0 <= i < n ==> residue_sound_all(c, #[trigger] f(i)),
    ensures
        residue_sound_all(c, spec_collect(n, f)),
{
    assert forall|k: int| 0 <= k < spec_collect(n, f).len() implies residue_report_sound(
        c,
        #[trigger] spec_collect(n, f)[k],
    ) by {
        lemma_collect_member(n, f, k);
        let (i, j) = choose|i: int, j: int|
            0 <= i < n && 0 <= j < f(i).len() && spec_collect(n, f)[k] == #[trigger] f(i)[j];
        assert(residue_sound_all(c, f(i)));
    }
}

pub(crate) proof fn lemma_count_nonzero_le(s: Seq<u8>)
    ensures
        spec_count_nonzero(s) <= s.len(),
    decreases s.len(),
{
    if s.len() > 0 {
        lemma_count_nonzero_le(s.drop_last());
    }
}

pub(crate) proof fn lemma_round_up_gap(n: int, unit: int)
    requires
        0 <= n,
        0 < unit,
    ensures
        n <= spec_round_up(n, unit) < n + unit,
{
    assert(n <= ((n + unit - 1) / unit) * unit < n + unit) by (nonlinear_arith)
        requires
            0 <= n,
            0 < unit,
    ;
}

/// The sector size of a decode lies between 512 bytes and 1 MiB.
pub(crate) proof fn lemma_decoded_sector_size(d: Seq<u8>)
    requires
        spec_decode(d) is Some,
    ensures
        512 <= spec_decode(d).unwrap().sector_size <= 1048576,
{
    let shift = crate::raw::spec_effective_shift(crate::raw::spec_le16(d, crate::layout::SECTOR_SHIFT as int));
    vstd::arithmetic::power2::lemma2_to64();
    if shift > 9 {
        vstd::arithmetic::power2::lemma_pow2_strictly_increases(9, shift as nat);
    }
    if shift < 20 {
        vstd::arithmetic::power2::lemma_pow2_strictly_increases(shift as nat, 20);
    }
}

proof fn lemma_entry_part_residue_sound(d: Seq<u8>, i: int)
    requires
        spec_decode(d) is Some,
        0 <= i < spec_decode(d).unwrap().dir_entries.len(),
    ensures
        residue_sound_all(
            spec_context(d, spec_decode(d).unwrap()),
            spec_entry_part(spec_context(d, spec_decode(d).unwrap()), i),
        ),
{
    let c = spec_context(d, spec_decode(d).unwrap());
    let o = spec_orphan_part(c, i);
    let t = spec_tamper_part(c, i);
    let s = spec_slack_part(c, i);
    assert(spec_entry_part(c, i) == o + t + s);
    if let Some(w) = spec_entry_walk(c, i) {
        let carved = spec_entry_carve(c, i);
        let tail = spec_tail(carved, w.from);
        if c.reach[i] && carved.len() == w.total && spec_count_nonzero(tail) > 0 {
            lemma_decoded_sector_size(d);
            let e = c.raw.dir_entries[i];
            let unit = if w.in_mini {
                MINI_SECTOR_SIZE as int
            } else {
                c.raw.sector_size as int
            };
            lemma_round_up_gap(e.stream_size as int, unit);
            lemma_count_nonzero_le(tail);
            assert(tail.len() < unit);
        }
    }
}

proof fn lemma_free_fat_residue_sound(d: Seq<u8>, j: int)
    requires
        spec_decode(d) is Some,
        0 <= j < spec_decode(d).unwrap().fat.len(),
    ensures
        residue_sound_all(
            spec_context(d, spec_decode(d).unwrap()),
            spec_free_fat_part(d, spec_decode(d).unwrap(), j),
        ),
{
    let raw = spec_decode(d).unwrap();
    law_decode_is_capped(d);
    lemma_decoded_sector_size(d);
    if let Some(sec) = crate::raw::spec_sector(d, raw.sector_size as int, j) {
        lemma_count_nonzero_le(sec);
    }
}

proof fn lemma_free_mini_residue_sound(d: Seq<u8>, j: int)
    requires
        spec_decode(d) is Some,
        0 <= j < spec_decode(d).unwrap().mini_fat.len(),
    ensures
        residue_sound_all(
            spec_context(d, spec_decode(d).unwrap()),
            spec_free_mini_part(spec_context(d, spec_decode(d).unwrap()), j),
        ),
{
    let c = spec_context(d, spec_decode(d).unwrap());
    law_decode_is_capped(d);
    reveal_strlit("FAT");
    reveal_strlit("mini-FAT");
    if let Some(blk) = crate::carve::spec_block(c.mini, MINI_SECTOR_SIZE as int, 0, j) {
        lemma_count_nonzero_le(blk);
    }
}

/// Residue reports are sound: every free-sector residue report counts some
/// non-zero bytes in a slot that its FAT or mini-FAT marks free, and every
/// slack report counts some non-zero bytes.
pub proof fn law_residue_reports_are_sound(d: Seq<u8>)
    requires
        spec_decode(d) is Some,
    ensures
        residue_sound_all(spec_context(d, spec_decode(d).unwrap()), spec_audit(d)),
{
    let raw = spec_decode(d).unwrap();
    let c = spec_context(d, raw);
    let n = raw.dir_entries.len() as int;
    let ss = raw.sector_size as int;
    let fd = |k: int| spec_difat_part(d, ss, spec_difat_ids(c), k);
    let fe = |i: int| spec_entry_part(c, i);
    let ff = |j: int| spec_free_fat_part(d, raw, j);
    let fm = |j: int| spec_free_mini_part(c, j);
    reveal_strlit("FAT");
    reveal_strlit("mini-FAT");
    lemma_collect_residue_sound(c, spec_difat_ids(c).len() as int, fd);
    assert forall|i: int| 0 <= i < n implies residue_sound_all(c, #[trigger] fe(i)) by {
        lemma_entry_part_residue_sound(d, i);
    }
    lemma_collect_residue_sound(c, n, fe);
    assert forall|j: int| 0 <= j < raw.fat.len() implies residue_sound_all(c, #[trigger] ff(j)) by {
        lemma_free_fat_residue_sound(d, j);
    }
    lemma_collect_residue_sound(c, raw.fat.len() as int, ff);
    assert forall|j: int| 0 <= j < raw.mini_fat.len() implies residue_sound_all(c, #[trigger] fm(j)) by {
        lemma_free_mini_residue_sound(d, j);
    }
    lemma_collect_residue_sound(c, raw.mini_fat.len() as int, fm);
    let parts = seq![
        spec_byte_order_part(raw),
        spec_collect(spec_difat_ids(c).len() as int, fd),
        spec_root_part(raw),
        spec_collect(n, fe),
        spec_loop_part(c),
        spec_collect(raw.fat.len() as int, ff),
        spec_collect(raw.mini_fat.len() as int, fm),
    ];
    let a = spec_audit(d);
    assert(a =~= parts[0] + parts[1] + parts[2] + parts[3] + parts[4] + parts[5] + parts[6]);
    assert forall|k: int| 0 <= k < a.len() implies residue_report_sound(c, #[trigger] a[k]) by {
        let l0 = parts[0].len() as int;
        let l1 = l0 + parts[1].len();
        let l2 = l1 + parts[2].len();
        let l3 = l2 + parts[3].len();
        let l4 = l3 + parts[4].len();
        let l5 = l4 + parts[5].len();
        if k < l0 {
            assert(a[k] == parts[0][k]);
        } else if k < l1 {
            assert(a[k] == parts[1][k - l0]);
        } else if k < l2 {
            assert(a[k] == parts[2][k - l1]);
        } else if k < l3 {
            assert(a[k] == parts[3][k - l2]);
        } else if k < l4 {
            assert(a[k] == parts[4][k - l3]);
        } else if k < l5 {
            assert(a[k] == parts[5][k - l4]);
        } else {
            assert(a[k] == parts[6][k - l5]);
        }
    }
}

} // verus!
