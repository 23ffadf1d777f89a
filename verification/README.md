# splatforge

A toolkit for Gaussian-splat assets — PLY, SPZ, glTF/GLB with
`KHR_gaussian_splatting`, the MesonGS++ and PostHAC containers, LODGE
level-of-detail pyramids — whose core is written in Verus and proved
against its contracts.

## Layout

- `src/` — the verified library.
  - `bytes`, `text` — little-endian words and string building shared by
    every format.
  - `json` — the JSON value the glTF readers work on, and member access.
  - `detect`, `coords`, `ir` — format detection, coordinate-system labels,
    the bit-level splat representation and the stable BLAKE3 scene hash.
  - `ply`, `ply_roundtrip` — the PLY header grammar, the vertex record
    layout, the binary-body bounds check, and the proof that the writer's
    header reads back as what was written.
  - `spz` — the SPZ v2 header, payload sections and fixed-point packings
    around flate2's zlib.
  - `gltf` — buffer alignment, the GLB container, the FLOAT chunk buffer and
    the inspector: reading a parsed document, the extension checks and the
    walk over the streaming index's chunks.
  - `accessors` — buffer views and accessors of FLOAT and
    `KHR_mesh_quantization` primitives, the quantized chunk buffer, SPZ
    placeholder documents, and reading attributes back.
  - `streaming` — chunking of glTF output, chunk buffer names and the
    streaming-index records.
  - `khr` — the 30 `KHR_gaussian_splatting` conformance clauses (23 on
    an asset that does not use SPZ), for the release-candidate attribute
    layout and the earlier one, and validation of `.gltf`/`.glb` bytes.
  - `meson`, `index_stream`, `codebook` — Morton codes, row permutations,
    bit-packed code streams, index-stream histograms and framing, the
    codebook blob, and the CRC-protected container.
  - `posthac` — the PostHAC header, weights and container, and its hash grid.
  - `optimize`, `presets` — pass statistics and configurations, a verified
    stable ordering, the integer parts of the passes, and the built-in
    preset pipelines.
  - `lodge` — Morton chunking of a level and digest-checked reassembly.
  - `cli`, `mcp` — the pure decisions of the command-line tool and of the
    Model Context Protocol server.
- `tests/` — tests of the library on concrete values.
- `app/` — the command-line program: file I/O, argument handling, and the
  floating-point parts of decoding and optimization.

Values that are `f32` in files are carried through the library as their
IEEE-754 bit patterns, so every byte-level property is exact.
