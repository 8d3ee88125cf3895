//! Integration tests over compound files minted with the `cfb` crate: a clean
//! file, a file with a deleted stream, a file whose `payload` entry has been
//! detached from the live tree, and a Jump-List-shaped file.
//!
//! The cross-check oracle is the `cfb` crate's own live listing: the orphan
//! set must be exactly the entries `cfb` no longer reaches.

use cfb_forensic::{audit_bytes, live_entry_names, OlecfAnomaly, StructureIssue};
use forensicnomicon::olecf as k;
use std::io::{Cursor, Write};

fn finish(comp: cfb::CompoundFile<Cursor<Vec<u8>>>) -> Vec<u8> {
    let mut comp = comp;
    comp.flush().unwrap();
    comp.into_inner().into_inner()
}

/// A root storage with one sub-storage and three streams: two small ones in
/// the mini-stream and a 5000-byte `payload` of `0x41` in the regular FAT.
fn clean_cfb() -> Vec<u8> {
    let mut comp = cfb::CompoundFile::create(Cursor::new(Vec::new())).unwrap();
    comp.create_storage("/docs").unwrap();
    {
        let mut s = comp.create_stream("/docs/note").unwrap();
        s.write_all(b"a short note that lives in the mini-stream").unwrap();
    }
    {
        let mut s = comp.create_stream("/summary").unwrap();
        s.write_all(b"summary stream contents").unwrap();
    }
    {
        let mut s = comp.create_stream("/payload").unwrap();
        s.write_all(&vec![0x41u8; 5000]).unwrap();
    }
    finish(comp)
}

/// The 6000-byte recognizable payload of the deleted `secret` stream.
fn recognizable_secret() -> Vec<u8> {
    let marker = b"SECRET-CARVE-MARKER-0123456789-";
    let mut out = Vec::with_capacity(6000);
    while out.len() < 6000 {
        out.extend_from_slice(marker);
    }
    out.truncate(6000);
    out
}

/// Three streams written, then the middle one removed: its sectors are freed
/// but keep their bytes.
fn deleted_stream_cfb() -> Vec<u8> {
    let mut comp = cfb::CompoundFile::create(Cursor::new(Vec::new())).unwrap();
    {
        let mut s = comp.create_stream("/keep_a").unwrap();
        s.write_all(b"keep_a payload that should remain reachable").unwrap();
    }
    {
        let mut s = comp.create_stream("/secret").unwrap();
        s.write_all(&recognizable_secret()).unwrap();
    }
    {
        let mut s = comp.create_stream("/keep_b").unwrap();
        s.write_all(b"keep_b payload that should remain reachable").unwrap();
    }
    comp.flush().unwrap();
    comp.remove_stream("/secret").unwrap();
    finish(comp)
}

/// The clean file with the left-sibling pointer of entry 3 (`summary`), which
/// leads to entry 4 (`payload`), overwritten with `NOSTREAM`: `payload` stays
/// intact but is no longer reachable.
fn orphaned_entry_cfb() -> Vec<u8> {
    let mut bytes = clean_cfb();
    let first_dir_sector = u32::from_le_bytes([
        bytes[k::FIRST_DIR_SECTOR],
        bytes[k::FIRST_DIR_SECTOR + 1],
        bytes[k::FIRST_DIR_SECTOR + 2],
        bytes[k::FIRST_DIR_SECTOR + 3],
    ]) as u64;
    let sector_shift = u16::from_le_bytes([bytes[k::SECTOR_SHIFT], bytes[k::SECTOR_SHIFT + 1]]);
    let sector_size = 1u64 << sector_shift;
    let dir_sector0 = (first_dir_sector + 1) * sector_size;
    let target = (dir_sector0 as usize) + 3 * k::DIR_ENTRY_SIZE + k::LEFT_SIBLING;
    bytes[target..target + 4].copy_from_slice(&k::NOSTREAM.to_le_bytes());
    bytes
}

/// A file shaped like a Windows `*.automaticDestinations-ms` Jump List: a
/// `DestList` stream beside numbered link streams.
fn jumplist_cfb() -> Vec<u8> {
    let mut comp = cfb::CompoundFile::create(Cursor::new(Vec::new())).unwrap();
    for (i, len) in [(1u32, 700usize), (2, 5200), (3, 310), (4, 9000)] {
        let mut s = comp.create_stream(format!("/{i:x}")).unwrap();
        let body: Vec<u8> = (0..len).map(|j| (j % 251) as u8 + 1).collect();
        s.write_all(&body).unwrap();
    }
    {
        let mut s = comp.create_stream("/DestList").unwrap();
        let body: Vec<u8> = (0..3000usize).map(|j| (j % 13) as u8 + 7).collect();
        s.write_all(&body).unwrap();
    }
    finish(comp)
}

fn codes(anomalies: &[OlecfAnomaly]) -> Vec<&'static str> {
    anomalies.iter().map(OlecfAnomaly::code).collect()
}

#[test]
fn clean_file_has_no_residue_or_tamper_findings() {
    let clean = clean_cfb();
    let anomalies = audit_bytes(&clean);
    // Only the benign provenance breadcrumb; no orphan/residue/slack/tamper.
    assert_eq!(codes(&anomalies), vec!["OLECF-ROOT-CLSID"]);
    assert!(!codes(&anomalies).contains(&"OLECF-ORPHANED-DIR-ENTRY"));
    assert!(!codes(&anomalies).contains(&"OLECF-FREE-SECTOR-RESIDUE"));
}

#[test]
fn orphaned_entry_is_detected_and_carved() {
    let orphaned = orphaned_entry_cfb();
    let anomalies = audit_bytes(&orphaned);
    let orphans: Vec<_> = anomalies
        .iter()
        .filter_map(|a| match a {
            OlecfAnomaly::OrphanedDirEntry(d) => Some(d),
            _ => None,
        })
        .collect();

    assert_eq!(orphans.len(), 1, "exactly one orphaned entry expected");
    let orphan = orphans[0];
    assert_eq!(orphan.name, "payload");
    assert_eq!(orphan.object_type, 0x02);
    assert_eq!(orphan.stream_size, 5000);
    // The resident FAT chain still holds the stream, so the carve recovers every byte.
    assert_eq!(orphan.carved_len, 5000, "carved the full resident stream");
}

#[test]
fn orphan_set_matches_cfb_live_set_difference() {
    let clean = clean_cfb();
    let orphaned = orphaned_entry_cfb();
    let clean_live = live_entry_names(&clean).expect("cfb opens clean");
    let orphaned_live = live_entry_names(&orphaned).expect("cfb opens orphaned");

    assert!(clean_live.contains(&"payload".to_string()));
    assert!(!orphaned_live.contains(&"payload".to_string()));

    let orphan_names: Vec<String> = audit_bytes(&orphaned)
        .iter()
        .filter_map(|a| match a {
            OlecfAnomaly::OrphanedDirEntry(d) => Some(d.name.clone()),
            _ => None,
        })
        .collect();
    assert_eq!(orphan_names, vec!["payload".to_string()]);
}

#[test]
fn deleted_stream_leaves_free_sector_residue() {
    let deleted = deleted_stream_cfb();
    let anomalies = audit_bytes(&deleted);
    let residue: Vec<_> = anomalies
        .iter()
        .filter_map(|a| match a {
            OlecfAnomaly::FreeSectorResidue { residue_len, .. } => Some(*residue_len),
            _ => None,
        })
        .collect();

    assert!(!residue.is_empty(), "freed sectors still hold the secret bytes");
    // The deleted `secret` stream was 6000 bytes; its freed FAT sectors retain
    // exactly that many non-zero bytes (4096-byte sectors: 4096 + 1904 = 6000).
    let total: usize = residue.iter().sum();
    assert_eq!(total, 6000, "all 6000 secret bytes survive as free-sector residue");

    // cfb's live set no longer lists `secret`.
    let live = live_entry_names(&deleted).expect("cfb opens deleted");
    assert!(!live.contains(&"secret".to_string()));
}

#[test]
fn stream_tamper_tells_fire_for_nonzero_clsid_state_filetime() {
    // A stream entry's CLSID, state bits, and FILETIMEs must be zero. Mutate
    // the clean file's `note` stream entry to violate all three.
    let mut bytes = clean_cfb();
    let fds = u32::from_le_bytes(bytes[k::FIRST_DIR_SECTOR..k::FIRST_DIR_SECTOR + 4].try_into().unwrap());
    let shift = u16::from_le_bytes([bytes[k::SECTOR_SHIFT], bytes[k::SECTOR_SHIFT + 1]]);
    let dir0 = ((u64::from(fds) + 1) << shift) as usize;
    let note = dir0 + 2 * k::DIR_ENTRY_SIZE; // sid 2 = "note"
    bytes[note + k::CLSID] = 0xAB;
    bytes[note + k::STATE_BITS] = 0x01;
    bytes[note + k::CREATE_TIME] = 0x99;

    let anomalies = audit_bytes(&bytes);
    let issues: Vec<_> = anomalies
        .iter()
        .filter_map(|a| match a {
            OlecfAnomaly::StructureAnomaly(i) => Some(i.clone()),
            _ => None,
        })
        .collect();

    assert!(issues.iter().any(|i| matches!(i, StructureIssue::StreamNonZeroClsid { .. })));
    assert!(issues.iter().any(|i| matches!(i, StructureIssue::StreamNonZeroStateBits { .. })));
    assert!(issues.iter().any(|i| matches!(i, StructureIssue::StreamNonZeroFiletime { .. })));
}

#[test]
fn real_world_jumplist_parses_without_panic_and_is_clean() {
    let jumplist = jumplist_cfb();
    assert!(live_entry_names(&jumplist).is_some(), "cfb opens the real jumplist");
    let anomalies = audit_bytes(&jumplist);
    assert!(!codes(&anomalies).contains(&"OLECF-ORPHANED-DIR-ENTRY"));
    assert!(!codes(&anomalies).contains(&"OLECF-STRUCTURE-ANOMALY"));
}

#[test]
fn malformed_input_never_panics() {
    assert!(audit_bytes(&[]).is_empty());
    assert!(audit_bytes(&[0u8; 10]).is_empty());
    assert!(audit_bytes(&[0xFFu8; 5000]).is_empty());
    // Valid signature, garbage body — must not panic.
    let mut sig = k::OLECF_SIGNATURE.to_vec();
    sig.extend_from_slice(&[0xCCu8; 4096]);
    let _ = audit_bytes(&sig);
}
