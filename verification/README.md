# manga_eroico

The verified core of a manga translation workflow (detect → OCR → inpaint →
translate → polish → render), written in Verus.

- `src/` — the library; every function carries a contract. Verus proves
  them all except those of the few wrappers around outside calls (SHA-256,
  UUID generation, the clock, `String::push`), whose contracts are taken
  from those crates' documented behaviour.
  - `text`, `sorted_map` — character-sequence helpers and an ordered string map.
  - `graph` — the six-step pipeline configuration and retry verdicts.
  - `components`, `raster`, `inpaint` — islands of a detection map, painting
    text boxes with their ring colour, mask binarization and dilation.
  - `ocr`, `render`, `layout` — script sniffing and CTC collapsing, line
    wrapping, vertical columns and the font-size search.
  - `translate` — prompt building, answer parsing and the echo backend.
  - `project`, `versions`, `import` — project metadata, artifact version
    names, folder-import grouping.
  - `hardware`, `registry`, `download` — tier decision, model registry,
    checksums and resume decisions.
  - `host` — glue used by the command-line and desktop hosts.
- `app/` — the `me-server` command line: file and network I/O, ONNX
  inference, float geometry and font rasterization around the library.
- `tests/` — tests of the library on concrete values.
