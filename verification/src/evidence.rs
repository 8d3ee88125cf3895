//! What each observation is about and the evidence rows that back it, as
//! plain text values.
use vstd::prelude::*;
use vstd::string::StringExecFns;
use crate::anomaly::{AnomalyView, IssueView, OlecfAnomaly, StructureIssue};
use crate::text::{decimal_text, hex_text, spec_decimal, spec_hex_fixed};

verus! {

/// One evidence row: a field name and its observed value as text.
#[derive(Debug, Clone, PartialEq, Eq)]
pub struct EvidenceRow {
    pub field: &'static str,
    pub value: String,
}

/// An evidence row as a mathematical value.
pub struct EvidenceView {
    pub field: Seq<char>,
    pub value: Seq<char>,
}

impl View for EvidenceRow {
    type V = EvidenceView;

    open spec fn view(&self) -> EvidenceView {
        EvidenceView { field: self.field@, value: self.value@ }
    }
}

/// A row from its field and value.
pub open spec fn row(field: Seq<char>, value: Seq<char>) -> EvidenceView {
    EvidenceView { field: field, value: value }
}

/// `0x` and the last `width` hexadecimal digits of `n`.
pub open spec fn spec_hex(n: nat, width: nat) -> Seq<char> {
    "0x"@ + spec_hex_fixed(n, width)
}

/// The evidence rows of an observation, in order.
pub open spec fn spec_evidence(a: AnomalyView) -> Seq<EvidenceView> {
    match a {
        AnomalyView::OrphanedDirEntry(o) => seq![
            row("name"@, o.name),
            row("object_type"@, spec_hex(o.object_type as nat, 2)),
            row("stream_size"@, spec_decimal(o.stream_size as nat)),
            row("start_sector"@, spec_decimal(o.start_sector as nat)),
            row("create_time"@, spec_decimal(o.create_time as nat)),
            row("modify_time"@, spec_decimal(o.modify_time as nat)),
            row("carved_len"@, spec_decimal(o.carved_len as nat)),
        ],
        AnomalyView::FreeSectorResidue { sid, space, offset, residue_len } => seq![
            row("space"@, space),
            row("sector"@, spec_decimal(sid as nat)),
            row("offset"@, spec_decimal(offset as nat)),
            row("residue_len"@, spec_decimal(residue_len as nat)),
        ],
        AnomalyView::SlackResidue { space, slack_len, .. } => seq![
            row("space"@, space),
            row("slack_len"@, spec_decimal(slack_len as nat)),
        ],
        AnomalyView::StructureAnomaly(i) => match i {
            IssueView::StreamNonZeroClsid { .. } => seq![row("clsid"@, "non-zero"@)],
            IssueView::StreamNonZeroStateBits { state_bits, .. } => seq![
                row("state_bits"@, spec_hex(state_bits as nat, 8)),
            ],
            IssueView::StreamNonZeroFiletime { .. } => seq![row("filetime"@, "non-zero"@)],
            IssueView::ChainLoop { space } => seq![row("space"@, space)],
            IssueView::DifatOffFile { sid } => seq![row("fat_sector"@, spec_decimal(sid as nat))],
            IssueView::BadByteOrder { value } => seq![row("byte_order"@, spec_hex(value as nat, 4))],
        },
        AnomalyView::RootClsid { clsid, create_time, modify_time, .. } => seq![
            row("clsid"@, clsid),
            row("create_time"@, spec_decimal(create_time as nat)),
            row("modify_time"@, spec_decimal(modify_time as nat)),
        ],
    }
}

/// The directory entry an observation is about (its number and name), when it
/// is about one: orphans, slack, stream tamper tells and the root provenance.
pub open spec fn spec_subject(a: AnomalyView) -> Option<(u32, Seq<char>)> {
    match a {
        AnomalyView::OrphanedDirEntry(o) => Some((o.sid, o.name)),
        AnomalyView::SlackResidue { sid, name, .. } => Some((sid, name)),
        AnomalyView::StructureAnomaly(i) => match i {
            IssueView::StreamNonZeroClsid { sid, name } => Some((sid, name)),
            IssueView::StreamNonZeroStateBits { sid, name, .. } => Some((sid, name)),
            IssueView::StreamNonZeroFiletime { sid, name } => Some((sid, name)),
            _ => None,
        },
        AnomalyView::RootClsid { sid, name, .. } => Some((sid, name)),
        _ => None,
    }
}

/// Appends a row.
fn push_row(rows: &mut Vec<EvidenceRow>, field: &'static str, value: String)
    ensures
        final(rows)@.map_values(|e: EvidenceRow| e@) == old(rows)@.map_values(|e: EvidenceRow| e@).push(
            row(field@, value@),
        ),
{
    rows.push(EvidenceRow { field, value });
    assert(rows@.map_values(|e: EvidenceRow| e@) =~= old(rows)@.map_values(|e: EvidenceRow| e@).push(
        row(field@, value@),
    ));
}

/// The scheme a subject id belongs to: the compound file's own numbering.
pub fn subject_scheme() -> (s: &'static str)
    ensures
        s@ == "cfb"@,
{
    "cfb"
}

/// The kind of thing a subject names: a directory entry.
pub fn subject_kind() -> (s: &'static str)
    ensures
        s@ == "directory_entry"@,
{
    "directory_entry"
}

impl OlecfAnomaly {
    /// The directory entry this observation is about, as a subject id
    /// (`sid:<number>`) and label (the entry's name).
    pub fn subject(&self) -> (s: Option<(String, String)>)
        ensures
            match s {
                Some((id, label)) => spec_subject(self@) matches Some((sid, name)) && id@ == "sid:"@
                    + spec_decimal(sid as nat) && label@ == name,
                None => spec_subject(self@) is None,
            },
    {
        let entry: Option<(u32, &String)> = match self {
            OlecfAnomaly::OrphanedDirEntry(o) => Some((o.sid, &o.name)),
            OlecfAnomaly::SlackResidue { sid, name, .. } => Some((*sid, name)),
            OlecfAnomaly::StructureAnomaly(i) => match i {
                StructureIssue::StreamNonZeroClsid { sid, name } => Some((*sid, name)),
                StructureIssue::StreamNonZeroStateBits { sid, name, .. } => Some((*sid, name)),
                StructureIssue::StreamNonZeroFiletime { sid, name } => Some((*sid, name)),
                _ => None,
            },
            OlecfAnomaly::RootClsid { sid, name, .. } => Some((*sid, name)),
            _ => None,
        };
        match entry {
            Some((sid, name)) => {
                let mut id = String::from_str("sid:");
                let n = decimal_text(sid as u64);
                id.append(n.as_str());
                Some((id, name.clone()))
            },
            None => None,
        }
    }

    /// The evidence rows backing this observation.
    pub fn evidence(&self) -> (rows: Vec<EvidenceRow>)
        ensures
            rows@.map_values(|e: EvidenceRow| e@) == spec_evidence(self@),
    {
        let mut rows: Vec<EvidenceRow> = Vec::new();
        match self {
            OlecfAnomaly::OrphanedDirEntry(o) => {
                push_row(&mut rows, "name", o.name.clone());
                push_row(&mut rows, "object_type", hex_text(o.object_type as u64, 2));
                push_row(&mut rows, "stream_size", decimal_text(o.stream_size));
                push_row(&mut rows, "start_sector", decimal_text(o.start_sector as u64));
                push_row(&mut rows, "create_time", decimal_text(o.create_time));
                push_row(&mut rows, "modify_time", decimal_text(o.modify_time));
                push_row(&mut rows, "carved_len", decimal_text(o.carved_len as u64));
            },
            OlecfAnomaly::FreeSectorResidue { sid, space, offset, residue_len } => {
                push_row(&mut rows, "space", String::from_str(space));
                push_row(&mut rows, "sector", decimal_text(*sid as u64));
                push_row(&mut rows, "offset", decimal_text(*offset));
                push_row(&mut rows, "residue_len", decimal_text(*residue_len as u64));
            },
            OlecfAnomaly::SlackResidue { space, slack_len, .. } => {
                push_row(&mut rows, "space", String::from_str(space));
                push_row(&mut rows, "slack_len", decimal_text(*slack_len as u64));
            },
            OlecfAnomaly::StructureAnomaly(i) => match i {
                StructureIssue::StreamNonZeroClsid { .. } => {
                    push_row(&mut rows, "clsid", String::from_str("non-zero"));
                },
                StructureIssue::StreamNonZeroStateBits { state_bits, .. } => {
                    push_row(&mut rows, "state_bits", hex_text(*state_bits as u64, 8));
                },
                StructureIssue::StreamNonZeroFiletime { .. } => {
                    push_row(&mut rows, "filetime", String::from_str("non-zero"));
                },
                StructureIssue::ChainLoop { space } => {
                    push_row(&mut rows, "space", String::from_str(space));
                },
                StructureIssue::DifatOffFile { sid } => {
                    push_row(&mut rows, "fat_sector", decimal_text(*sid as u64));
                },
                StructureIssue::BadByteOrder { value } => {
                    push_row(&mut rows, "byte_order", hex_text(*value as u64, 4));
                },
            },
            OlecfAnomaly::RootClsid { clsid, create_time, modify_time, .. } => {
                push_row(&mut rows, "clsid", clsid.clone());
                push_row(&mut rows, "create_time", decimal_text(*create_time));
                push_row(&mut rows, "modify_time", decimal_text(*modify_time));
            },
        }
        assert(rows@.map_values(|e: EvidenceRow| e@) =~= spec_evidence(self@));
        rows
    }
}

} // verus!
