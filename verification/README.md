# cfb-forensic

Forensic carving over OLE Compound File Binary (`[MS-CFB]`) files: the audit
decodes a compound file independently of any reader, walks the live
directory tree from the root, and reports what a happy-path reader never
shows — orphaned directory entries with their recoverable bytes, free-sector
and slack residue, stream tamper tells, DIFAT listings past the end of the
file, chain loops, a bad byte-order mark, and the root storage's provenance.
Every observation is hedged ("consistent with …").

## Layout

- `src/` — the library, verified with Verus.
  - `layout` — the `[MS-CFB]` offsets, sizes and markers, and the caps that
    bound what hostile counts can make the decoder hold.
  - `raw` — little-endian reads, sector addressing, the DIFAT/FAT, mini-FAT
    and directory reads, `decode`, and reachability over the live tree.
  - `text` — lossy UTF-16 name decoding and GUID / number text.
  - `carve` — loop-guarded carving along FAT and mini-FAT chains.
  - `anomaly`, `evidence` — the observation types, with their codes, notes,
    MITRE techniques, severity, category, subject and evidence rows.
  - `audit` — `audit_bytes`, whose contract is the exact list of reports
    (`spec_audit`).
  - `live` — the live-tree view read with the `cfb` crate.
  - `laws`, `report_laws` — properties of the library as a whole, proved.
- `tests/` — scenarios on files minted with the `cfb` crate and altered byte
  by byte.
- `app/` — the report-model glue: observations as `forensicnomicon` findings.

## What is proved and what is trusted

Every function in `src/` is verified against its contract, and no verified
function can panic. `audit_bytes` returns exactly `spec_audit(data)`;
`decode` returns exactly `spec_decode(data)`.

Four functions are trusted (their bodies are not verified):

- `char_from_u32` — `char::from_u32`: `Some` exactly for Unicode scalar
  values, with that character.
- `string_from_chars` — `String::from_iter` over `char`s: the characters in
  order.
- `cfb_walk_names`, `cfb_read_stream` — `cfb::CompoundFile::open` followed by
  `walk` / `open_stream` and `read_to_end`. Their results are named
  (`cfb_live_names`, `cfb_stream_bytes`) as functions of their arguments; what
  `cfb` returns is not restated.
