# data_recovery

A verified library for recovering files from disk images: partition tables
(MBR and GPT), FAT32, exFAT (live and deleted entries, allocation bitmap),
APFS (checkpoints, object maps, catalog B-trees, extents, extended
attributes, snapshots), signature carving, forensic imaging with retries,
and the candidate pipeline steps (path normalisation, scoring,
deduplication, content validation) as functions a caller applies to
candidates. `scan_device` lists what the volume scans and carving find; it
does not score or deduplicate them, and it lists no FAT32 files.

Every function in `src/` is checked by Verus against its `requires` /
`ensures` contract. The contracts are stated over the bytes a source holds
(`BlockDevice::contents`), so a parser's result is pinned to the bytes it
read, and each function that can fail says on which inputs it succeeds.

Layout:

- `src/` — the verified library, one module per format or stage.
- `tests/` — ordinary Rust tests run against the compiled library.
- `app/` — a thin command-line program: argument handling, file I/O and
  serialisation around the library.

The library never writes to a source: devices are only ever read through
`&self`, and imaging writes only to the sink it is given.
