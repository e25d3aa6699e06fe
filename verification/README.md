# fr_persist

Persistence formats of a Redis-compatible server, verified with Verus.

- `src/` is the library. Every function states what it returns for every input, and every
  property that spans several functions stands beside them as a public proof function whose
  name starts with `law_`.
  - `bytes`, `decimal`, `text`, `order`, `score`: numbers, texts and sorting.
  - `crc64`, `lzf`, `rdb_wire`, `records`: checksum, compression, lengths and strings.
  - `listpack`, `listpack_members`, `listpack_encode`, `intset`, `ziplist`, `rdb_compact`:
    packed collections.
  - `stream_node`, `stream_encode`, `stream_unpack`, `stream_private`, `rdb_stream`: streams.
  - `rdb_types`, `rdb_aux`, `rdb_values`, `rdb_save`, `rdb_load`: snapshots.
  - `resp`, `aof`, `aof_tail`: command logs and what becomes of a damaged end.
  - `manifest`, `manifest_format`, `multipart`: logs in several files.
  - `stream_laws`, `value_laws`, `member_laws`, `snapshot_laws`, `plain_laws`, `log_laws`,
    `manifest_laws`: what is written is read back.
  - `stream_local`, `snapshot_local`, `snapshot_whole`: what stands behind a stream or a
    snapshot does not matter, and a written snapshot is taken whole.
  - `stream_flat`: the ways to unpack a stream agree.
- `app/` moves the formats to and from files, and turns scores into floating-point numbers.
- `tests/` runs the library on values.

Scores are kept as the bits of a double with its text, as an integer, or as the text of a
number; the library never computes with floating-point numbers. A double that goes into a pack
comes with its text.
