//! The happy-path view of a compound file, read with the `cfb` crate: the
//! live entries it reaches and the contents of a live stream. The audit never
//! depends on it; it serves as the cross-check oracle and for clean
//! extraction.
use std::io::Read;
use vstd::prelude::*;

verus! {

/// The names of the entries that `cfb::CompoundFile::walk` visits (the live
/// tree, root included, in preorder) when `cfb::CompoundFile::open` accepts
/// `data`; `None` when it refuses them.
pub uninterp spec fn cfb_live_names(data: Seq<u8>) -> Option<Seq<Seq<char>>>;

/// The bytes `cfb` reads from the stream at `path` of `data`; `None` when the
/// file does not open, the path names no stream, or reading fails.
pub uninterp spec fn cfb_stream_bytes(data: Seq<u8>, path: Seq<char>) -> Option<Seq<u8>>;

/// Opens `data` with `cfb::CompoundFile::open` over an in-memory cursor and
/// collects the name of every entry `CompoundFile::walk` yields. The contract
/// only names the result: it depends on `data` alone, and which names it holds
/// is `cfb`'s reading of the live tree, which is not restated here. That `cfb`
/// never panics on hostile bytes is not stated either.
#[verifier::external_body]
fn cfb_walk_names(data: &[u8]) -> (r: Option<Vec<String>>)
    ensures
        r.deep_view() == cfb_live_names(data@),
{
    let comp = cfb::CompoundFile::open(std::io::Cursor::new(data)).ok()?;
    Some(comp.walk().map(|e| e.name().to_string()).collect())
}

/// Opens `data` with `cfb::CompoundFile::open`, opens the stream at `path`
/// with `CompoundFile::open_stream` and reads it to the end. The contract only
/// names the result, a function of `data` and `path` alone; what bytes `cfb`
/// returns is its own reading of the stream's chain and is not restated here.
#[verifier::external_body]
fn cfb_read_stream(data: &[u8], path: &str) -> (r: Option<Vec<u8>>)
    ensures
        r.deep_view() == cfb_stream_bytes(data@, path@),
{
    let mut comp = cfb::CompoundFile::open(std::io::Cursor::new(data)).ok()?;
    let mut stream = comp.open_stream(path).ok()?;
    let mut buf = Vec::new();
    stream.read_to_end(&mut buf).ok()?;
    Some(buf)
}

/// The names of the live entries the `cfb` crate reaches, or `None` when it
/// cannot open `data`.
pub fn live_entry_names(data: &[u8]) -> (r: Option<Vec<String>>)
    ensures
        r.deep_view() == cfb_live_names(data@),
{
    cfb_walk_names(data)
}

/// The contents of the live stream at `path`, read with the `cfb` crate, or
/// `None` when there is no such stream.
pub fn read_live_stream(data: &[u8], path: &str) -> (r: Option<Vec<u8>>)
    ensures
        r.deep_view() == cfb_stream_bytes(data@, path@),
{
    cfb_read_stream(data, path)
}

} // verus!
