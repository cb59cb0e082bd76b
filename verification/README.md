# nebula_tools

Tools for `.nbl` particle animation files: a verified library that reads,
writes, plays and stream-edits the container and its frames, checks
particleex commands, and holds the deterministic helpers of the editors;
and a small command-line program around it.

## Layout

- `src/` — the library, verified with Verus.
  - `bytes.rs` little-endian integers and columns;
  - `header.rs`, `frame.rs`, `container.rs`, `chunk.rs` the file format:
    header, texture block, I- and P-frame chunks, index tables, zstd
    compression of chunks, whole-file writing with a read-back guarantee;
  - `state.rs`, `player.rs` the live particles, the particle lifecycle of
    I- and P-frames, loading, seeking, the soundness of replay from a
    keyframe, saved frames playing back, and the pairing by id of the
    snapshot between two frames;
  - `encode.rs` building I- and P-frames from snapshots, undone by playback;
  - `edit.rs`, `stream.rs` the decisions, tables and index of streaming
    edits, whose keyframe table lists exactly the I-frames written;
  - `timeline.rs` frame ranges, frame merging, tracks laid out as frames;
  - `editor.rs` emitter shapes, the simulation's random generator,
    keyframe choice;
  - `particleex.rs`, `text.rs` splitting, reading and validating
    particleex command lines; `compile.rs` the compiler's pipeline from
    command texts to frames, taking the float track generation as a
    closure;
  - `i18n.rs`, `settings.rs` languages, translation tables, saved settings.
- `tests/` — tests of the library on concrete values.
- `app/` — the command-line program: file access, float arithmetic on
  positions and sizes, and the serde forms of the settings.

Floats are carried through the library as their bit patterns; the float
arithmetic (quantization, deltas, interpolation, bounding boxes) is done by
the program and handed to the library as closures or plain values.
