//! Forensic carving over OLE Compound File Binary (`[MS-CFB]`) files.
use vstd::prelude::*;

mod anomaly;
mod audit;
mod carve;
mod evidence;
pub mod laws;
pub mod report_laws;
pub mod layout;
mod live;
pub mod raw;
mod text;

pub use audit::audit_bytes;
pub use evidence::{subject_kind, subject_scheme, EvidenceRow, EvidenceView};
pub use live::{cfb_live_names, cfb_stream_bytes, live_entry_names, read_live_stream};
pub use anomaly::{
    analyzer_name, library_version, AnomalyView, CategoryLens, IssueView, OlecfAnomaly, OrphanDetail, OrphanView, Scope, SeverityLevel,
    StructureIssue,
};

verus! {

} // verus!
