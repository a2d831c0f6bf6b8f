# comtrade-io

Reading and writing COMTRADE (IEEE C37.111) fault-record files — configuration
(`.cfg`), sample data (`.dat`), information (`.inf`), device model (`.dmf`), combined
single files (`.cff`) and recorder dumps (`.dfr`, read only) — with the parsing and
serialisation logic specified and proved in Verus.

## Layout

- `src/` — the verified library (`comtrade_io`):
  - `text.rs`, `time.rs`, `encoding.rs` — character helpers, timestamps (parsing all
    accepted layouts, formatting, microsecond arithmetic), UTF-8 / GBK / cp1251 text;
  - `cfg/` — header, channel counts, status channels, versions and data types, and the
    line layout of a configuration file;
  - `dat/` — binary sample records (raw values), status-change detection, and the
    column operations on sample data (fitting to a configuration, cropping, replacing);
  - `inf/` — sections of information files, channel lists and device fields;
  - `dmf/` — an XML pull reader, the element tree of device model files, and the lines
    written for channel groups;
  - `cff.rs`, `dfr.rs` — splitting and framing combined files; the recorder-dump header,
    binary area and sample frames;
  - `edit.rs` — removing and inserting channels with the counts and columns in step;
  - `equipment.rs`, `model.rs`, `export.rs`, `error.rs` (with the error messages).
- `tests/` — tests of the library.
- `app/` — plain Rust around the library: file I/O, and everything that holds
  floating-point engineering values (analog channels, scaled samples, device ratings),
  which Verus does not reason about here.

The round-trip properties (what a writer produces, the matching reader gives back) are
stated as public proof functions next to the code they are about, named `lemma_*`.
