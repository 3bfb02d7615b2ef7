# motioncam_decoder

A decoder for MotionCam MCRAW files, verified with Verus.

- `src/container.rs`: item types and the fixed records of the container.
- `src/error.rs`: the error type and little-endian reads.
- `src/simd_portable.rs`: block headers and eight-lane loads and stores
  (through `wide`).
- `src/raw.rs`: type 7 frames (block-packed samples with per-block widths
  and references).
- `src/raw_legacy.rs`: type 6 frames.
- `src/decoder.rs`: opening a container held in a memory map (`memmap2`),
  its metadata (`serde_json`), frame index, frames and audio.
- `app/`: opening a file, decoding all frames on a thread pool (`rayon`),
  printable errors (`thiserror`) and the frame and audio dumping tool.

Each decoding step is specified by a spec function over the bytes it reads,
and the executable functions are proved to compute it.  The JSON parse and
the member and integer lookups are serde_json's: the specifications speak of
their results through named functions (`json_value`, `json_get`,
`json_as_u64`, `json_as_i64`), whose contracts are trusted.
