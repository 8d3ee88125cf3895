//! Scenarios for each kind of observation, minted with the `cfb` crate and
//! then altered byte by byte, plus the raw helpers on concrete values.

use cfb_forensic::layout;
use cfb_forensic::raw::{self, DirEntry};
use cfb_forensic::{audit_bytes, OlecfAnomaly, StructureIssue};
use forensicnomicon::olecf as k;
use std::io::{Cursor, Write};

/// Root + `/docs` storage + `/docs/note` (42 bytes) + `/summary` (23 bytes)
/// + `/payload` (5000 bytes of 0x41), as the `cfb` crate writes it.
fn sample_cfb() -> Vec<u8> {
    let mut comp = cfb::CompoundFile::create(Cursor::new(Vec::new())).unwrap();
    comp.create_storage("/docs").unwrap();
    {
        let mut s = comp.create_stream("/docs/note").unwrap();
        s.write_all(b"a short note that lives in the mini-stream").unwrap();
    }
    {
        let mut s = comp.create_stream("/summary").unwrap();
        s.write_all(b"summary stream contents").unwrap();
    }
    {
        let mut s = comp.create_stream("/payload").unwrap();
        s.write_all(&vec![0x41u8; 5000]).unwrap();
    }
    comp.flush().unwrap();
    comp.into_inner().into_inner()
}

fn entry<'a>(raw: &'a raw::RawCfb, name: &str) -> &'a DirEntry {
    raw.dir_entries.iter().find(|e| e.name == name).unwrap()
}

fn put_u32(bytes: &mut [u8], off: usize, v: u32) {
    bytes[off..off + 4].copy_from_slice(&v.to_le_bytes());
}

fn sector_offset(raw: &raw::RawCfb, sid: u32) -> usize {
    (sid as usize + 1) * raw.sector_size
}

fn dir_entry_offset(bytes: &[u8], sid: usize) -> usize {
    let raw = raw::decode(bytes).unwrap();
    let first = raw::le_u32(bytes, k::FIRST_DIR_SECTOR);
    sector_offset(&raw, first) + sid * k::DIR_ENTRY_SIZE
}

fn structure_issues(a: &[OlecfAnomaly]) -> Vec<StructureIssue> {
    a.iter()
        .filter_map(|x| match x {
            OlecfAnomaly::StructureAnomaly(i) => Some(i.clone()),
            _ => None,
        })
        .collect()
}

#[test]
fn layout_matches_forensicnomicon() {
    assert_eq!(layout::OLECF_SIGNATURE, k::OLECF_SIGNATURE);
    assert_eq!(layout::HEADER_SIZE, k::HEADER_SIZE);
    assert_eq!(layout::MAJOR_VERSION, k::MAJOR_VERSION);
    assert_eq!(layout::BYTE_ORDER, k::BYTE_ORDER);
    assert_eq!(layout::SECTOR_SHIFT, k::SECTOR_SHIFT);
    assert_eq!(layout::MINI_SECTOR_SHIFT, k::MINI_SECTOR_SHIFT);
    assert_eq!(layout::FIRST_DIR_SECTOR, k::FIRST_DIR_SECTOR);
    assert_eq!(layout::MINI_STREAM_CUTOFF, k::MINI_STREAM_CUTOFF);
    assert_eq!(layout::FIRST_MINIFAT_SECTOR, k::FIRST_MINIFAT_SECTOR);
    assert_eq!(layout::FIRST_DIFAT_SECTOR, k::FIRST_DIFAT_SECTOR);
    assert_eq!(layout::NUM_DIFAT_SECTORS, k::NUM_DIFAT_SECTORS);
    assert_eq!(layout::DIFAT_HEADER_OFFSET, k::DIFAT_HEADER_OFFSET);
    assert_eq!(layout::DIFAT_HEADER_COUNT, k::DIFAT_HEADER_COUNT);
    assert_eq!(layout::BYTE_ORDER_LE, k::BYTE_ORDER_LE);
    assert_eq!(layout::MINI_STREAM_CUTOFF_VALUE, k::MINI_STREAM_CUTOFF_VALUE);
    assert_eq!(layout::MINI_SECTOR_SIZE, k::MINI_SECTOR_SIZE);
    assert_eq!(layout::SECTOR_SHIFT_V3, k::SECTOR_SHIFT_V3);
    assert_eq!(layout::DIR_ENTRY_SIZE, k::DIR_ENTRY_SIZE);
    assert_eq!(layout::FREESECT, k::FREESECT);
    assert_eq!(layout::ENDOFCHAIN, k::ENDOFCHAIN);
    assert_eq!(layout::MAXREGSECT, k::MAXREGSECT);
    assert_eq!(layout::NOSTREAM, k::NOSTREAM);
    assert_eq!(layout::NAME, k::NAME);
    assert_eq!(layout::NAME_LEN, k::NAME_LEN);
    assert_eq!(layout::OBJECT_TYPE, k::OBJECT_TYPE);
    assert_eq!(layout::COLOR, k::COLOR);
    assert_eq!(layout::LEFT_SIBLING, k::LEFT_SIBLING);
    assert_eq!(layout::RIGHT_SIBLING, k::RIGHT_SIBLING);
    assert_eq!(layout::CHILD, k::CHILD);
    assert_eq!(layout::CLSID, k::CLSID);
    assert_eq!(layout::STATE_BITS, k::STATE_BITS);
    assert_eq!(layout::CREATE_TIME, k::CREATE_TIME);
    assert_eq!(layout::MODIFY_TIME, k::MODIFY_TIME);
    assert_eq!(layout::START_SECTOR, k::START_SECTOR);
    assert_eq!(layout::STREAM_SIZE, k::STREAM_SIZE);
}

#[test]
fn little_endian_reads_and_zero_past_the_end() {
    let d = [0x01u8, 0x02, 0x03, 0x04, 0x05, 0x06, 0x07, 0x08, 0x09];
    assert_eq!(raw::le_u16(&d, 0), 0x0201);
    assert_eq!(raw::le_u32(&d, 1), 0x0504_0302);
    assert_eq!(raw::le_u64(&d, 1), 0x0908_0706_0504_0302);
    assert_eq!(raw::le_u16(&d, 8), 0);
    assert_eq!(raw::le_u32(&d, 6), 0);
    assert_eq!(raw::le_u64(&d, 2), 0);
    assert_eq!(raw::le_u32(&d, usize::MAX), 0);
}

#[test]
fn sector_offset_none_when_the_value_overflows() {
    assert_eq!(raw::sector_offset(u32::MAX, 31), Some(1u64 << 63));
    assert_eq!(raw::sector_offset(u32::MAX, 32), None);
    assert_eq!(raw::sector_offset(0, 63), Some(1u64 << 63));
    assert_eq!(raw::sector_offset(1, 63), None);
    assert_eq!(raw::sector_offset(7, 200), None);
}

#[test]
fn sector_slice_is_none_outside_the_file() {
    let d: Vec<u8> = (0..2048u32).map(|i| (i % 256) as u8).collect();
    let s = raw::sector_slice(&d, 512, 0).unwrap();
    assert_eq!(s.len(), 512);
    assert_eq!(s[0], 0);
    assert_eq!(s[1], 1);
    assert_eq!(raw::sector_slice(&d, 512, 2).unwrap()[0], 0);
    assert!(raw::sector_slice(&d, 512, 3).is_none());
    assert!(raw::sector_slice(&d, 512, u32::MAX).is_none());
}

#[test]
fn decode_refuses_short_or_unsigned_input() {
    assert!(raw::decode(&[]).is_none());
    let mut short = k::OLECF_SIGNATURE.to_vec();
    short.resize(511, 0);
    assert!(raw::decode(&short).is_none());
    let mut unsigned = vec![0u8; 512];
    unsigned[0] = 0xD0;
    assert!(raw::decode(&unsigned).is_none());
    let mut bare = k::OLECF_SIGNATURE.to_vec();
    bare.resize(512, 0);
    let raw = raw::decode(&bare).unwrap();
    // An absurd (zero) sector shift falls back to 512-byte sectors.
    assert_eq!(raw.sector_shift, 0);
    assert_eq!(raw.sector_size, 512);
    assert_eq!(raw.file_len, 512);
    assert!(raw.dir_entries.is_empty());
    // A zeroed header: no byte-order mark, and every header DIFAT slot names
    // sector 0, which lies past the end of a header-only file.
    let issues = structure_issues(&audit_bytes(&bare));
    assert_eq!(issues.len(), 1 + 109);
    assert_eq!(issues[0], StructureIssue::BadByteOrder { value: 0 });
    assert!(issues[1..].iter().all(|i| *i == StructureIssue::DifatOffFile { sid: 0 }));
}

#[test]
fn decode_reads_the_cfb_written_layout() {
    let bytes = sample_cfb();
    let raw = raw::decode(&bytes).unwrap();
    assert_eq!(raw.major_version, 4);
    assert_eq!(raw.sector_shift, 12);
    assert_eq!(raw.sector_size, 4096);
    assert_eq!(raw.byte_order, 0xFFFE);
    assert_eq!(raw.mini_sector_shift, 6);
    assert_eq!(raw.mini_stream_cutoff, 4096);
    assert_eq!(raw.file_len, bytes.len() as u64);
    assert!(raw.fat.len() <= layout::MAX_SECTORS);
    // Entries are numbered by their index and names decode from UTF-16.
    for (i, e) in raw.dir_entries.iter().enumerate() {
        assert_eq!(e.sid as usize, i);
    }
    let names: Vec<&str> = raw.dir_entries.iter().map(|e| e.name.as_str()).collect();
    assert_eq!(names[0], "Root Entry");
    for n in ["docs", "note", "summary", "payload"] {
        assert!(names.contains(&n), "{n} decoded");
    }
    assert_eq!(entry(&raw, "payload").stream_size, 5000);
    assert!(entry(&raw, "payload").is_stream());
    assert_eq!(entry(&raw, "docs").object_type, 0x01);
    // Every live entry is reachable from the root.
    let reach = raw::reachable_sids(&raw.dir_entries);
    for e in &raw.dir_entries {
        assert_eq!(reach[e.sid as usize], e.is_allocated(), "{}", e.name);
    }
}

fn bare_entry(sid: u32, object_type: u8, left: u32, right: u32, child: u32) -> DirEntry {
    DirEntry {
        sid,
        name: format!("e{sid}"),
        object_type,
        color: 1,
        left,
        right,
        child,
        clsid: [0u8; 16],
        state_bits: 0,
        create_time: 0,
        modify_time: 0,
        start_sector: 0,
        stream_size: 0,
    }
}

#[test]
fn reachability_follows_pointers_and_survives_cycles() {
    let none = k::NOSTREAM;
    let entries = vec![
        bare_entry(0, 5, none, none, 1),
        bare_entry(1, 2, 3, 0, none), // right points back at the root: a cycle
        bare_entry(2, 2, none, none, none), // nothing points here
        bare_entry(3, 1, 1, 99, 4), // left cycles back, right is past the array
        bare_entry(4, 2, 0xFFFF_FFFB, none, none),
    ];
    let reach = raw::reachable_sids(&entries);
    assert_eq!(reach, vec![true, true, false, true, true]);
    assert!(raw::reachable_sids(&[]).is_empty());
}

#[test]
fn clean_file_reports_root_provenance_only() {
    let bytes = sample_cfb();
    let a = audit_bytes(&bytes);
    assert_eq!(a.len(), 1);
    match &a[0] {
        OlecfAnomaly::RootClsid { sid, name, clsid, .. } => {
            assert_eq!(*sid, 0);
            assert_eq!(name, "Root Entry");
            assert_eq!(clsid, "00000000-0000-0000-0000-000000000000");
        },
        other => panic!("unexpected {other:?}"),
    }
}

#[test]
fn root_clsid_renders_as_mixed_endian_guid_text() {
    let mut bytes = sample_cfb();
    let root = dir_entry_offset(&bytes, 0);
    let clsid: [u8; 16] = [
        0x33, 0x22, 0x11, 0x00, 0x55, 0x44, 0x77, 0x66, 0x88, 0x99, 0xAA, 0xBB, 0xCC, 0xDD, 0xEE, 0xFF,
    ];
    bytes[root + k::CLSID..root + k::CLSID + 16].copy_from_slice(&clsid);
    let a = audit_bytes(&bytes);
    match &a[0] {
        OlecfAnomaly::RootClsid { clsid, .. } => {
            assert_eq!(clsid, "00112233-4455-6677-8899-aabbccddeeff");
        },
        other => panic!("unexpected {other:?}"),
    }
}

#[test]
fn bad_byte_order_is_reported() {
    let mut bytes = sample_cfb();
    bytes[k::BYTE_ORDER] = 0x34;
    bytes[k::BYTE_ORDER + 1] = 0x12;
    let issues = structure_issues(&audit_bytes(&bytes));
    assert_eq!(issues, vec![StructureIssue::BadByteOrder { value: 0x1234 }]);
}

#[test]
fn difat_slot_past_the_end_is_reported() {
    let mut bytes = sample_cfb();
    put_u32(&mut bytes, k::DIFAT_HEADER_OFFSET + 108 * 4, 0x0010_0000);
    let issues = structure_issues(&audit_bytes(&bytes));
    assert_eq!(issues, vec![StructureIssue::DifatOffFile { sid: 0x0010_0000 }]);
}

#[test]
fn difat_chain_entry_past_the_end_is_reported() {
    // Append one DIFAT sector to the file and chain it from the header: its
    // first slot lists a FAT sector far past the end, the rest are free, and
    // its trailing pointer ends the chain.
    let mut bytes = sample_cfb();
    let raw = raw::decode(&bytes).unwrap();
    let ss = raw.sector_size;
    assert_eq!(bytes.len() % ss, 0);
    let difat_sid = (bytes.len() / ss - 1) as u32;
    let mut sector = vec![0xFFu8; ss];
    sector[0..4].copy_from_slice(&0x0020_0000u32.to_le_bytes());
    sector[ss - 4..].copy_from_slice(&k::ENDOFCHAIN.to_le_bytes());
    bytes.extend_from_slice(&sector);
    put_u32(&mut bytes, k::FIRST_DIFAT_SECTOR, difat_sid);
    put_u32(&mut bytes, k::NUM_DIFAT_SECTORS, 1);
    let issues = structure_issues(&audit_bytes(&bytes));
    assert_eq!(issues, vec![StructureIssue::DifatOffFile { sid: 0x0020_0000 }]);

    // A DIFAT-chain entry naming a sector inside the file is not reported.
    let mut bytes2 = bytes.clone();
    let off = (difat_sid as usize + 1) * ss;
    put_u32(&mut bytes2, off, 0);
    assert!(structure_issues(&audit_bytes(&bytes2)).is_empty());
}

#[test]
fn detached_storage_orphans_its_whole_subtree() {
    let mut bytes = sample_cfb();
    let raw = raw::decode(&bytes).unwrap();
    let docs = entry(&raw, "docs").sid;
    // Unhook `docs` from whichever entry points at it.
    for e in &raw.dir_entries {
        let at = dir_entry_offset(&bytes, e.sid as usize);
        for (field, v) in [(k::LEFT_SIBLING, e.left), (k::RIGHT_SIBLING, e.right), (k::CHILD, e.child)] {
            if v == docs {
                put_u32(&mut bytes, at + field, k::NOSTREAM);
            }
        }
    }
    let a = audit_bytes(&bytes);
    let orphans: Vec<&cfb_forensic::OrphanDetail> = a
        .iter()
        .filter_map(|x| match x {
            OlecfAnomaly::OrphanedDirEntry(d) => Some(d),
            _ => None,
        })
        .collect();
    let names: Vec<&str> = orphans.iter().map(|d| d.name.as_str()).collect();
    assert!(names.contains(&"docs"));
    assert!(names.contains(&"note"));
    for d in &orphans {
        if d.name == "docs" {
            assert_eq!(d.object_type, 0x01);
            assert_eq!(d.carved_len, 0);
        }
        if d.name == "note" {
            // The mini-stream still holds every byte of the small stream.
            assert_eq!(d.carved_len, 42);
            assert!(d.carved_len as u64 <= d.stream_size);
        }
    }
}

#[test]
fn slack_past_a_regular_stream_is_reported() {
    let mut bytes = sample_cfb();
    let raw = raw::decode(&bytes).unwrap();
    let p = entry(&raw, "payload");
    let second = raw.fat[p.start_sector as usize];
    let off = sector_offset(&raw, second) + (5000 - 4096);
    for b in &mut bytes[off..off + 10] {
        *b = 0x5A;
    }
    let a = audit_bytes(&bytes);
    let slack: Vec<_> = a
        .iter()
        .filter_map(|x| match x {
            OlecfAnomaly::SlackResidue { name, space, slack_len, .. } => Some((name.clone(), *space, *slack_len)),
            _ => None,
        })
        .collect();
    assert_eq!(slack, vec![("payload".to_string(), "FAT", 10)]);
}

#[test]
fn slack_past_a_mini_stream_is_reported() {
    let mut bytes = sample_cfb();
    let raw = raw::decode(&bytes).unwrap();
    let root = &raw.dir_entries[0];
    let note = entry(&raw, "note");
    let off = sector_offset(&raw, root.start_sector) + note.start_sector as usize * 64 + 42;
    bytes[off] = 1;
    bytes[off + 5] = 2;
    let a = audit_bytes(&bytes);
    let slack: Vec<_> = a
        .iter()
        .filter_map(|x| match x {
            OlecfAnomaly::SlackResidue { name, space, slack_len, .. } => Some((name.clone(), *space, *slack_len)),
            _ => None,
        })
        .collect();
    assert_eq!(slack, vec![("note".to_string(), "mini-FAT", 2)]);
}

#[test]
fn freed_mini_sector_residue_is_reported() {
    let mut bytes = sample_cfb();
    let raw = raw::decode(&bytes).unwrap();
    let note = entry(&raw, "note");
    let minifat = raw::le_u32(&bytes, k::FIRST_MINIFAT_SECTOR);
    let slot = sector_offset(&raw, minifat) + note.start_sector as usize * 4;
    put_u32(&mut bytes, slot, k::FREESECT);
    let a = audit_bytes(&bytes);
    let residue: Vec<_> = a
        .iter()
        .filter_map(|x| match x {
            OlecfAnomaly::FreeSectorResidue { sid, space, offset, residue_len } => {
                Some((*sid, *space, *offset, *residue_len))
            },
            _ => None,
        })
        .collect();
    assert_eq!(
        residue,
        vec![(note.start_sector, "mini-FAT", note.start_sector as u64 * 64, 42)]
    );
}

#[test]
fn self_looping_fat_chain_is_reported_once() {
    let mut bytes = sample_cfb();
    let raw = raw::decode(&bytes).unwrap();
    let p = entry(&raw, "payload");
    let fat_sector = raw::le_u32(&bytes, k::DIFAT_HEADER_OFFSET);
    let slot = sector_offset(&raw, fat_sector) + p.start_sector as usize * 4;
    put_u32(&mut bytes, slot, p.start_sector);
    let issues = structure_issues(&audit_bytes(&bytes));
    assert_eq!(issues, vec![StructureIssue::ChainLoop { space: "FAT" }]);
}

#[test]
fn truncated_file_degrades_without_panicking() {
    let bytes = sample_cfb();
    for cut in [512usize, 600, 4096, 4097, 8192, bytes.len() - 1] {
        let a = audit_bytes(&bytes[..cut]);
        for x in &a {
            assert!(x.code().starts_with("OLECF-"));
        }
    }
}

#[test]
fn observations_carry_subjects_and_evidence() {
    let o = OlecfAnomaly::StructureAnomaly(StructureIssue::StreamNonZeroStateBits {
        sid: 2,
        name: "note".into(),
        state_bits: 0xDEAD_BEEF,
    });
    assert_eq!(o.subject(), Some(("sid:2".to_string(), "note".to_string())));
    let ev = o.evidence();
    assert_eq!(ev.len(), 1);
    assert_eq!(ev[0].field, "state_bits");
    assert_eq!(ev[0].value, "0xdeadbeef");
    assert_eq!(o.mitre(), vec!["T1070"]);

    let d = OlecfAnomaly::StructureAnomaly(StructureIssue::DifatOffFile { sid: 42 });
    assert_eq!(d.subject(), None);
    assert_eq!(d.evidence()[0].field, "fat_sector");
    assert_eq!(d.evidence()[0].value, "42");

    let b = OlecfAnomaly::StructureAnomaly(StructureIssue::BadByteOrder { value: 0x1234 });
    assert_eq!(b.evidence()[0].value, "0x1234");

    let f = OlecfAnomaly::FreeSectorResidue { sid: 9, space: "FAT", offset: 8192, residue_len: 64 };
    assert_eq!(f.subject(), None);
    let fields: Vec<&str> = f.evidence().iter().map(|e| e.field).collect();
    assert_eq!(fields, vec!["space", "sector", "offset", "residue_len"]);
    assert_eq!(f.evidence()[2].value, "8192");

    let orphan = OlecfAnomaly::OrphanedDirEntry(cfb_forensic::OrphanDetail {
        sid: 1234567890,
        name: "payload".into(),
        object_type: 2,
        stream_size: 5000,
        start_sector: 4,
        create_time: 0,
        modify_time: 0,
        carved_len: 5000,
    });
    assert_eq!(orphan.subject().unwrap().0, "sid:1234567890");
    assert_eq!(orphan.evidence()[1].value, "0x02");
    assert_eq!(orphan.mitre(), vec!["T1070", "T1564"]);
    assert_eq!(orphan.code(), "OLECF-ORPHANED-DIR-ENTRY");
    assert!(orphan.note().contains("consistent with"));
}

#[test]
fn entry_names_decode_utf16_lossily() {
    let mut bytes = sample_cfb();
    let raw = raw::decode(&bytes).unwrap();
    let sid = entry(&raw, "summary").sid as usize;
    let off = dir_entry_offset(&bytes, sid);
    // 'x', an unpaired high surrogate, 'y', a surrogate pair (U+1F600), NUL.
    let units: [u16; 6] = [0x78, 0xD800, 0x79, 0xD83D, 0xDE00, 0];
    for (i, u) in units.iter().enumerate() {
        bytes[off + k::NAME + 2 * i..off + k::NAME + 2 * i + 2].copy_from_slice(&u.to_le_bytes());
    }
    bytes[off + k::NAME_LEN..off + k::NAME_LEN + 2].copy_from_slice(&12u16.to_le_bytes());
    let raw = raw::decode(&bytes).unwrap();
    assert_eq!(raw.dir_entries[sid].name, "x\u{FFFD}y\u{1F600}");

    // A hostile declared length reads no further than the 64-byte field.
    bytes[off + k::NAME_LEN..off + k::NAME_LEN + 2].copy_from_slice(&0xFFFFu16.to_le_bytes());
    let raw = raw::decode(&bytes).unwrap();
    assert!(raw.dir_entries[sid].name.encode_utf16().count() <= 31);
    assert!(raw.dir_entries[sid].name.starts_with("x\u{FFFD}y\u{1F600}"));

    // A declared length of 3 or less gives the empty name.
    bytes[off + k::NAME_LEN..off + k::NAME_LEN + 2].copy_from_slice(&2u16.to_le_bytes());
    let raw = raw::decode(&bytes).unwrap();
    assert_eq!(raw.dir_entries[sid].name, "");
}

#[test]
fn source_values_come_from_the_library() {
    assert_eq!(cfb_forensic::analyzer_name(), "cfb-forensic");
    assert_eq!(cfb_forensic::Scope::Whole.label(), "whole file");
    assert_eq!(cfb_forensic::library_version(), "0.2.1");
    assert_eq!(cfb_forensic::subject_scheme(), "cfb");
    assert_eq!(cfb_forensic::subject_kind(), "directory_entry");
}

#[test]
fn decode_reads_whole_sectors() {
    let bytes = sample_cfb();
    let raw = raw::decode(&bytes).unwrap();
    let ss = raw.sector_size;
    assert!(!raw.fat.is_empty());
    assert_eq!(raw.fat.len() % (ss / 4), 0);
    assert_eq!(raw.mini_fat.len() % (ss / 4), 0);
    assert_eq!(raw.dir_entries.len() % (ss / k::DIR_ENTRY_SIZE), 0);
    for (i, e) in raw.dir_entries.iter().enumerate() {
        assert_eq!(e.sid as usize, i);
    }
}
