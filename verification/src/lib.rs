//! Persistence formats of a Redis-compatible server: append-only files, their
//! manifests, RDB snapshots, and the packed encodings that snapshots are made of.

pub mod bytes;
pub mod decimal;
pub mod lzf;
pub mod crc64;
pub mod rdb_wire;
pub mod order;
pub mod listpack;
pub mod score;
pub mod listpack_members;
pub mod listpack_encode;
pub mod rdb_types;
pub mod stream_node;
pub mod stream_encode;
pub mod rdb_stream;
pub mod stream_unpack;
pub mod intset;
pub mod rdb_compact;
pub mod records;
pub mod stream_private;
pub mod rdb_save;
pub mod ziplist;
pub mod rdb_aux;
pub mod rdb_values;
pub mod text;
pub mod resp;
pub mod persist_error;
pub mod rdb_load;
pub mod aof;
pub mod aof_tail;
pub mod manifest;
pub mod manifest_format;
pub mod line_laws;
pub mod manifest_laws;
pub mod multipart;
pub mod stream_laws;
pub mod stream_local;
pub mod stream_flat;
pub mod value_laws;
pub mod member_laws;
pub mod number_laws;
pub mod score_laws;
pub mod snapshot_local;
pub mod snapshot_laws;
pub mod snapshot_items;
pub mod wire_laws;
pub mod compress_laws;
pub mod zip_laws;
pub mod pack_laws;
pub mod shape_laws;
pub mod form_laws;
pub mod choice_laws;
pub mod node_laws;
pub mod stream_layouts;
pub mod stream_written;
pub mod snapshot_whole;
pub mod plain_laws;
pub mod log_laws;
pub mod crc_laws;
pub mod frame_laws;
pub mod tail_laws;
pub mod file_laws;
