# moz2d_blob

Blob images are recordings of drawing commands. This crate holds what a
rendering engine needs to know about them: the stream format, how a partial
update is merged into a recording, which fonts a recording uses, and the
bookkeeping around rasterization. All of it is verified with Verus.

- `src/bytes.rs`, `src/reader.rs`: integers as bytes, and a cursor over a buffer.
- `src/index.rs`, `src/writer.rs`: the stream format, read and written.
- `src/cache.rs`, `src/merge.rs`: items by their bounds, and merging.
- `src/laws.rs`: what holds of blobs and of merging as a whole.
- `src/fonts.rs`: the fonts of a recording, and the order in which to load them.
- `src/commands.rs`, `src/handler.rs`, `src/rasterizer.rs`: the known images,
  their updates, and jobs for rasterizing them.
- `src/geometry.rs`, `src/keys.rs`: rectangles and handles.

Functions that expect something of their input have a companion that tests it:
`can_merge_blob_images` for `merge_blob_images`, `can_add` for `add`, and so on.

`app/` connects the library to WebRender, to the drawing backend and to a pool
of threads. It is not verified.

The byte order of a recording is that of the machine that made it, and is passed
to the functions that read or write one.
