//! The typed vocabulary of what the audit observes, with each observation's
//! stable code, hedged note, MITRE techniques, severity and category.
//!
//! Every observation is hedged as "consistent with" some cause; drawing the
//! conclusion is left to the examiner.
use vstd::prelude::*;
use vstd::string::StringExecFns;
use crate::layout::MINI_SECTOR_SIZE;

verus! {

/// Audit scope.
#[derive(Debug, Clone, Copy, PartialEq, Eq)]
pub enum Scope {
    /// The whole file.
    Whole,
}

impl Scope {
    /// How the scope is named in the source of a finding.
    pub fn label(&self) -> (s: &'static str)
        ensures
            s@ == "whole file"@,
    {
        match self {
            Scope::Whole => "whole file",
        }
    }
}

/// The name findings of this library are tagged with as their analyzer.
pub fn analyzer_name() -> (s: &'static str)
    ensures
        s@ == "cfb-forensic"@,
{
    "cfb-forensic"
}

/// The version of this library (its package version) that findings record.
pub fn library_version() -> (s: &'static str)
    ensures
        s@ == "0.2.1"@,
{
    "0.2.1"
}

/// What the audit recovers of an orphaned directory entry.
#[derive(Debug, Clone, PartialEq, Eq)]
pub struct OrphanDetail {
    pub sid: u32,
    pub name: String,
    pub object_type: u8,
    pub stream_size: u64,
    pub start_sector: u32,
    pub create_time: u64,
    pub modify_time: u64,
    pub carved_len: usize,
}

/// A structural or tamper observation.
#[derive(Debug, Clone, PartialEq, Eq)]
pub enum StructureIssue {
    StreamNonZeroClsid { sid: u32, name: String },
    StreamNonZeroStateBits { sid: u32, name: String, state_bits: u32 },
    StreamNonZeroFiletime { sid: u32, name: String },
    ChainLoop { space: &'static str },
    DifatOffFile { sid: u32 },
    BadByteOrder { value: u16 },
}

/// One observation of the audit.
#[derive(Debug, Clone, PartialEq, Eq)]
pub enum OlecfAnomaly {
    OrphanedDirEntry(OrphanDetail),
    FreeSectorResidue { sid: u32, space: &'static str, offset: u64, residue_len: usize },
    SlackResidue { sid: u32, name: String, space: &'static str, slack_len: usize },
    StructureAnomaly(StructureIssue),
    RootClsid { sid: u32, name: String, clsid: String, create_time: u64, modify_time: u64 },
}

/// An orphan detail as a mathematical value.
pub struct OrphanView {
    pub sid: u32,
    pub name: Seq<char>,
    pub object_type: u8,
    pub stream_size: u64,
    pub start_sector: u32,
    pub create_time: u64,
    pub modify_time: u64,
    pub carved_len: usize,
}

/// A structural issue as a mathematical value.
pub enum IssueView {
    StreamNonZeroClsid { sid: u32, name: Seq<char> },
    StreamNonZeroStateBits { sid: u32, name: Seq<char>, state_bits: u32 },
    StreamNonZeroFiletime { sid: u32, name: Seq<char> },
    ChainLoop { space: Seq<char> },
    DifatOffFile { sid: u32 },
    BadByteOrder { value: u16 },
}

/// An observation as a mathematical value.
pub enum AnomalyView {
    OrphanedDirEntry(OrphanView),
    FreeSectorResidue { sid: u32, space: Seq<char>, offset: u64, residue_len: usize },
    SlackResidue { sid: u32, name: Seq<char>, space: Seq<char>, slack_len: usize },
    StructureAnomaly(IssueView),
    RootClsid {
        sid: u32,
        name: Seq<char>,
        clsid: Seq<char>,
        create_time: u64,
        modify_time: u64,
    },
}

impl View for OrphanDetail {
    type V = OrphanView;

    open spec fn view(&self) -> OrphanView {
        OrphanView {
            sid: self.sid,
            name: self.name@,
            object_type: self.object_type,
            stream_size: self.stream_size,
            start_sector: self.start_sector,
            create_time: self.create_time,
            modify_time: self.modify_time,
            carved_len: self.carved_len,
        }
    }
}

impl View for StructureIssue {
    type V = IssueView;

    open spec fn view(&self) -> IssueView {
        match self {
            StructureIssue::StreamNonZeroClsid { sid, name } => IssueView::StreamNonZeroClsid {
                sid: *sid,
                name: name@,
            },
            StructureIssue::StreamNonZeroStateBits {
                sid,
                name,
                state_bits,
            } => IssueView::StreamNonZeroStateBits {
                sid: *sid,
                name: name@,
                state_bits: *state_bits,
            },
            StructureIssue::StreamNonZeroFiletime { sid, name } => IssueView::StreamNonZeroFiletime {
                sid: *sid,
                name: name@,
            },
            StructureIssue::ChainLoop { space } => IssueView::ChainLoop { space: space@ },
            StructureIssue::DifatOffFile { sid } => IssueView::DifatOffFile { sid: *sid },
            StructureIssue::BadByteOrder { value } => IssueView::BadByteOrder { value: *value },
        }
    }
}

impl View for OlecfAnomaly {
    type V = AnomalyView;

    open spec fn view(&self) -> AnomalyView {
        match self {
            OlecfAnomaly::OrphanedDirEntry(d) => AnomalyView::OrphanedDirEntry(d@),
            OlecfAnomaly::FreeSectorResidue {
                sid,
                space,
                offset,
                residue_len,
            } => AnomalyView::FreeSectorResidue {
                sid: *sid,
                space: space@,
                offset: *offset,
                residue_len: *residue_len,
            },
            OlecfAnomaly::SlackResidue {
                sid,
                name,
                space,
                slack_len,
            } => AnomalyView::SlackResidue {
                sid: *sid,
                name: name@,
                space: space@,
                slack_len: *slack_len,
            },
            OlecfAnomaly::StructureAnomaly(i) => AnomalyView::StructureAnomaly(i@),
            OlecfAnomaly::RootClsid {
                sid,
                name,
                clsid,
                create_time,
                modify_time,
            } => AnomalyView::RootClsid {
                sid: *sid,
                name: name@,
                clsid: clsid@,
                create_time: *create_time,
                modify_time: *modify_time,
            },
        }
    }
}

/// Severity on the five-level scale of the findings model.
#[derive(Debug, Clone, Copy, PartialEq, Eq)]
pub enum SeverityLevel {
    Info,
    Low,
    Medium,
    High,
    Critical,
}

/// The analytical lens an observation is filed under.
#[derive(Debug, Clone, Copy, PartialEq, Eq)]
pub enum CategoryLens {
    /// Orphaned entries, free-sector and slack residue.
    Residue,
    /// Structure and tamper observations.
    Integrity,
    /// The root CLSID and timestamps.
    Provenance,
}

/// The stable, scheme-prefixed code of an observation.
pub open spec fn spec_code(a: AnomalyView) -> Seq<char> {
    match a {
        AnomalyView::OrphanedDirEntry(_) => "OLECF-ORPHANED-DIR-ENTRY"@,
        AnomalyView::FreeSectorResidue { .. } => "OLECF-FREE-SECTOR-RESIDUE"@,
        AnomalyView::SlackResidue { .. } => "OLECF-SLACK-RESIDUE"@,
        AnomalyView::StructureAnomaly(_) => "OLECF-STRUCTURE-ANOMALY"@,
        AnomalyView::RootClsid { .. } => "OLECF-ROOT-CLSID"@,
    }
}

/// The hedged note of an observation.
pub open spec fn spec_note(a: AnomalyView) -> Seq<char> {
    match a {
        AnomalyView::OrphanedDirEntry(_) =>
            "directory entry unreachable from the root tree; consistent with a deleted stream or storage whose metadata and resident content remain recoverable"@,
        AnomalyView::FreeSectorResidue { .. } =>
            "sector marked free still holds non-zero bytes; consistent with remnants of deleted stream content"@,
        AnomalyView::SlackResidue { .. } =>
            "non-zero bytes past the stream's declared size in its final sector; consistent with leftover or hidden data"@,
        AnomalyView::StructureAnomaly(i) => match i {
            IssueView::StreamNonZeroClsid { .. } =>
                "stream entry carries a non-zero CLSID, which [MS-CFB] requires to be zero; consistent with tampering"@,
            IssueView::StreamNonZeroStateBits { .. } =>
                "stream entry carries non-zero state bits, which [MS-CFB] requires to be zero; consistent with tampering"@,
            IssueView::StreamNonZeroFiletime { .. } =>
                "stream entry carries a non-zero creation or modification FILETIME, which [MS-CFB] requires to be zero; consistent with tampering or timestomping"@,
            IssueView::ChainLoop { .. } =>
                "a sector chain loops back on itself; consistent with corruption or deliberate obfuscation"@,
            IssueView::DifatOffFile { .. } =>
                "the DIFAT lists a FAT sector beyond the end of the file; consistent with truncation or tampering"@,
            IssueView::BadByteOrder { .. } =>
                "the header byte-order mark is not 0xFFFE; consistent with corruption or tampering"@,
        },
        AnomalyView::RootClsid { .. } =>
            "root storage CLSID and the creation/modification times the compound file records; provenance, not an anomaly"@,
    }
}

/// The MITRE ATT&CK techniques an observation is consistent with.
pub open spec fn spec_mitre(a: AnomalyView) -> Seq<Seq<char>> {
    match a {
        AnomalyView::OrphanedDirEntry(_) => seq!["T1070"@, "T1564"@],
        AnomalyView::FreeSectorResidue { .. } => seq!["T1070"@],
        AnomalyView::SlackResidue { .. } => seq!["T1564"@, "T1027"@],
        AnomalyView::StructureAnomaly(i) => match i {
            IssueView::StreamNonZeroClsid { .. } => seq!["T1070"@],
            IssueView::StreamNonZeroStateBits { .. } => seq!["T1070"@],
            IssueView::StreamNonZeroFiletime { .. } => seq!["T1070"@],
            _ => seq!["T1027"@],
        },
        AnomalyView::RootClsid { .. } => Seq::empty(),
    }
}

/// The severity of an observation: an orphan or a stream tamper tell is High,
/// free-sector residue and the other structure observations Medium, slack
/// Medium from one mini-sector's worth of bytes up and Low below it, and the
/// root provenance Info.
pub open spec fn spec_severity(a: AnomalyView) -> SeverityLevel {
    match a {
        AnomalyView::OrphanedDirEntry(_) => SeverityLevel::High,
        AnomalyView::FreeSectorResidue { .. } => SeverityLevel::Medium,
        AnomalyView::SlackResidue { slack_len, .. } => if slack_len >= MINI_SECTOR_SIZE {
            SeverityLevel::Medium
        } else {
            SeverityLevel::Low
        },
        AnomalyView::StructureAnomaly(i) => match i {
            IssueView::StreamNonZeroClsid { .. } => SeverityLevel::High,
            IssueView::StreamNonZeroStateBits { .. } => SeverityLevel::High,
            IssueView::StreamNonZeroFiletime { .. } => SeverityLevel::High,
            _ => SeverityLevel::Medium,
        },
        AnomalyView::RootClsid { .. } => SeverityLevel::Info,
    }
}

/// The category of an observation.
pub open spec fn spec_category(a: AnomalyView) -> CategoryLens {
    match a {
        AnomalyView::StructureAnomaly(_) => CategoryLens::Integrity,
        AnomalyView::RootClsid { .. } => CategoryLens::Provenance,
        _ => CategoryLens::Residue,
    }
}

impl OlecfAnomaly {
    /// The stable, scheme-prefixed code of this observation.
    pub fn code(&self) -> (c: &'static str)
        ensures
            c@ == spec_code(self@),
    {
        match self {
            OlecfAnomaly::OrphanedDirEntry(_) => "OLECF-ORPHANED-DIR-ENTRY",
            OlecfAnomaly::FreeSectorResidue { .. } => "OLECF-FREE-SECTOR-RESIDUE",
            OlecfAnomaly::SlackResidue { .. } => "OLECF-SLACK-RESIDUE",
            OlecfAnomaly::StructureAnomaly(_) => "OLECF-STRUCTURE-ANOMALY",
            OlecfAnomaly::RootClsid { .. } => "OLECF-ROOT-CLSID",
        }
    }

    /// The hedged note: what the observation is consistent with.
    pub fn note(&self) -> (n: String)
        ensures
            n@ == spec_note(self@),
    {
        let s = match self {
            OlecfAnomaly::OrphanedDirEntry(_) =>
                "directory entry unreachable from the root tree; consistent with a deleted stream or storage whose metadata and resident content remain recoverable",
            OlecfAnomaly::FreeSectorResidue { .. } =>
                "sector marked free still holds non-zero bytes; consistent with remnants of deleted stream content",
            OlecfAnomaly::SlackResidue { .. } =>
                "non-zero bytes past the stream's declared size in its final sector; consistent with leftover or hidden data",
            OlecfAnomaly::StructureAnomaly(i) => match i {
                StructureIssue::StreamNonZeroClsid { .. } =>
                    "stream entry carries a non-zero CLSID, which [MS-CFB] requires to be zero; consistent with tampering",
                StructureIssue::StreamNonZeroStateBits { .. } =>
                    "stream entry carries non-zero state bits, which [MS-CFB] requires to be zero; consistent with tampering",
                StructureIssue::StreamNonZeroFiletime { .. } =>
                    "stream entry carries a non-zero creation or modification FILETIME, which [MS-CFB] requires to be zero; consistent with tampering or timestomping",
                StructureIssue::ChainLoop { .. } =>
                    "a sector chain loops back on itself; consistent with corruption or deliberate obfuscation",
                StructureIssue::DifatOffFile { .. } =>
                    "the DIFAT lists a FAT sector beyond the end of the file; consistent with truncation or tampering",
                StructureIssue::BadByteOrder { .. } =>
                    "the header byte-order mark is not 0xFFFE; consistent with corruption or tampering",
            },
            OlecfAnomaly::RootClsid { .. } =>
                "root storage CLSID and the creation/modification times the compound file records; provenance, not an anomaly",
        };
        String::from_str(s)
    }

    /// The MITRE ATT&CK techniques this observation is consistent with, never
    /// an assertion that they occurred.
    pub fn mitre(&self) -> (m: Vec<&'static str>)
        ensures
            m@.map_values(|s: &'static str| s@) == spec_mitre(self@),
    {
        let mut m: Vec<&'static str> = Vec::new();
        match self {
            OlecfAnomaly::OrphanedDirEntry(_) => {
                m.push("T1070");
                m.push("T1564");
            },
            OlecfAnomaly::FreeSectorResidue { .. } => {
                m.push("T1070");
            },
            OlecfAnomaly::SlackResidue { .. } => {
                m.push("T1564");
                m.push("T1027");
            },
            OlecfAnomaly::StructureAnomaly(i) => match i {
                StructureIssue::StreamNonZeroClsid { .. } => {
                    m.push("T1070");
                },
                StructureIssue::StreamNonZeroStateBits { .. } => {
                    m.push("T1070");
                },
                StructureIssue::StreamNonZeroFiletime { .. } => {
                    m.push("T1070");
                },
                _ => {
                    m.push("T1027");
                },
            },
            OlecfAnomaly::RootClsid { .. } => {},
        }
        assert(m@.map_values(|s: &'static str| s@) =~= spec_mitre(self@));
        m
    }

    /// The severity of this observation.
    pub fn severity_level(&self) -> (s: SeverityLevel)
        ensures
            s == spec_severity(self@),
    {
        match self {
            OlecfAnomaly::OrphanedDirEntry(_) => SeverityLevel::High,
            OlecfAnomaly::FreeSectorResidue { .. } => SeverityLevel::Medium,
            OlecfAnomaly::SlackResidue { slack_len, .. } => {
                if *slack_len >= MINI_SECTOR_SIZE {
                    SeverityLevel::Medium
                } else {
                    SeverityLevel::Low
                }
            },
            OlecfAnomaly::StructureAnomaly(i) => match i {
                StructureIssue::StreamNonZeroClsid { .. } => SeverityLevel::High,
                StructureIssue::StreamNonZeroStateBits { .. } => SeverityLevel::High,
                StructureIssue::StreamNonZeroFiletime { .. } => SeverityLevel::High,
                _ => SeverityLevel::Medium,
            },
            OlecfAnomaly::RootClsid { .. } => SeverityLevel::Info,
        }
    }

    /// The category of this observation.
    pub fn category_lens(&self) -> (c: CategoryLens)
        ensures
            c == spec_category(self@),
    {
        match self {
            OlecfAnomaly::StructureAnomaly(_) => CategoryLens::Integrity,
            OlecfAnomaly::RootClsid { .. } => CategoryLens::Provenance,
            _ => CategoryLens::Residue,
        }
    }
}

} // verus!
