# gbtrace

Execution traces of Game Boy (and related) emulators, and the tools to
inspect and compare them, with the logic verified by Verus.

A trace is JSONL: a header line naming the emulator, the ROM, the model and
the captured fields, then one entry per instruction (or per T-cycle). Traces
are read plain or gzip-compressed; Parquet trace files are neither read nor
written, so the lazily decoded row-group store that serves them is absent too
(the row-group index and cache in `row_groups` are there).

## Layout

- `src/` — the verified library. Every function states its behaviour in
  `requires`/`ensures` over mathematical models (`Seq`, `Map`, views), and
  the public `law_*` proof functions state properties that span functions.
  - `header`, `entry`, `reader`: the header (validation, boot-ROM text), trace
    entries, and reading a JSONL trace line by line.
  - `loader`: a column store from the raw bytes of a trace, gzip-compressed
    (known by its magic bytes) or plain.
  - `profile`, `catalogue`, `system`: the field catalogue, capture profiles
    and the machines that share a CPU and video chip.
  - `query`: the condition language (`pc=0150`, `a changes`,
    `flag z becomes set`, ...) and its evaluation.
  - `column_store`, `trace_store`, `downsample`, `row_groups`: columnar
    storage, the viewer's store (frames, pixels, downsampling to instruction
    steps), and the row-group index and cache of partitioned traces.
  - `diff`, `diff_store`: aligning two traces by cycle or by instruction
    sequence, divergences and their regions, per-field match statistics.
  - `edit`, `display`: stripping the boot ROM, trimming at a condition,
    and the text the command line prints.
  - `framebuffer`, `snapshot`, `format`: frames from pixel data, fixed
    byte layouts of snapshot payloads, and the native format's records.
  - `capture`, `adapter`, `field_writer`: the decisions of capture runs,
    debugger-protocol framing and the adapters' helpers, and a writer that
    adapters fill by column.
  - `text`, `names`, `error`: text handling shared by the parsers.
- `tests/` — tests of the library on concrete values.
- `app/` — the `gbtrace-cli` program: argument handling, files, JSON and
  gzip, TOML profiles, PNG output, and the Emulicious adapter's debugger
  session.
