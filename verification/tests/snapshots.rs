//! Snapshots: what is written, and what is read back.

use fr_persist::crc64::crc64_redis;
use fr_persist::intset::decode_intset_members;
use fr_persist::listpack::{decode_listpack, ListpackEntry};
use fr_persist::listpack_encode::encode_listpack_strings_blob;
use fr_persist::persist_error::PersistError;
use fr_persist::rdb_compact::{
    encode_compact_list_quicklist2, encode_compact_set_intset, encode_hash_listpack_blob,
    encode_set_listpack_blob, CompactRdbThresholds,
};
use fr_persist::rdb_load::{decode_rdb, decode_rdb_prefix, RDB_CHECKSUM_LEN};
use fr_persist::rdb_save::{
    encode_rdb, encode_rdb_string_entries_with_functions, encode_rdb_with_functions,
    encode_rdb_with_options, RdbEncodeOptions, RDB_OPCODE_AUX, RDB_OPCODE_EOF,
    RDB_OPCODE_EXPIRETIME_MS, RDB_OPCODE_FUNCTION2, RDB_OPCODE_RESIZEDB, RDB_OPCODE_SELECTDB,
    RDB_TYPE_HASH, RDB_TYPE_HASH_LISTPACK, RDB_TYPE_HASH_WITH_TTLS, RDB_TYPE_LIST,
    RDB_TYPE_LIST_QUICKLIST_2, RDB_TYPE_SET, RDB_TYPE_SET_INTSET, RDB_TYPE_SET_LISTPACK,
    RDB_TYPE_STRING, RDB_TYPE_ZSET_2, RDB_TYPE_ZSET_LISTPACK,
};
use fr_persist::rdb_stream::UPSTREAM_RDB_TYPE_STREAM_LISTPACKS_3;
use fr_persist::rdb_types::{
    RdbEntry, RdbStreamConsumer, RdbStreamConsumerGroup, RdbStreamMetadata, RdbStreamPendingEntry,
    RdbStringEntryRef, RdbValue,
};
use fr_persist::rdb_wire::{
    rdb_decode_length, rdb_decode_string, rdb_encode_length, rdb_encode_string,
};
use fr_persist::score::RdbScore;

/// A score as callers give it: a double, with its text.
fn double(value: f64) -> RdbScore {
    RdbScore::Double {
        bits: value.to_bits(),
        text: format!("{value}").into_bytes(),
    }
}

/// The double that a score stands for.
fn value_of(score: &RdbScore) -> f64 {
    match score {
        RdbScore::Double { bits, .. } => f64::from_bits(*bits),
        RdbScore::Integer(v) => *v as f64,
        RdbScore::Decimal(text) => std::str::from_utf8(text)
            .expect("score text is ascii")
            .parse()
            .expect("score text parses"),
    }
}

/// The entries with each score by its bits alone.
fn by_bits(mut entries: Vec<RdbEntry>) -> Vec<RdbEntry> {
    for entry in &mut entries {
        if let RdbValue::SortedSet(members) = &mut entry.value {
            for member in members {
                let bits = value_of(&member.1).to_bits();
                member.1 = RdbScore::Double { bits, text: Vec::new() };
            }
        }
    }
    entries
}

fn decode_length(data: &[u8]) -> Option<(usize, usize)> {
    rdb_decode_length(data, 0).map(|(n, end)| (n as usize, end))
}

fn decode_string(data: &[u8]) -> Option<(Vec<u8>, usize)> {
    rdb_decode_string(data, 0)
}

fn append_rdb_checksum(encoded: &mut Vec<u8>) {
    let checksum = crc64_redis(encoded);
    encoded.extend_from_slice(&checksum.to_le_bytes());
}

fn rdb_encode_raw_stream_id(buf: &mut Vec<u8>, ms: u64, seq: u64) {
    buf.extend_from_slice(&ms.to_be_bytes());
    buf.extend_from_slice(&seq.to_be_bytes());
}

fn rdb_encode_millisecond_time(buf: &mut Vec<u8>, ms: u64) {
    buf.extend_from_slice(&ms.to_le_bytes());
}

fn encode_single_raw_rdb_entry(type_byte: u8, key: &[u8], payload: &[u8]) -> Vec<u8> {
    let mut encoded = b"REDIS0011".to_vec();
    encoded.push(RDB_OPCODE_SELECTDB);
    rdb_encode_length(&mut encoded, 0);
    encoded.push(RDB_OPCODE_RESIZEDB);
    rdb_encode_length(&mut encoded, 1);
    rdb_encode_length(&mut encoded, 0);
    encoded.push(type_byte);
    rdb_encode_string(&mut encoded, key);
    encoded.extend_from_slice(payload);
    encoded.push(RDB_OPCODE_EOF);
    append_rdb_checksum(&mut encoded);
    encoded
}

#[test]
fn borrowed_string_entries_encode_like_generic_rdb_entries() {
    let entries = vec![
        RdbEntry {
            db: 2,
            key: b"z".to_vec(),
            value: RdbValue::String(b"last".to_vec()),
            expire_ms: Some(55),
        },
        RdbEntry {
            db: 0,
            key: b"a".to_vec(),
            value: RdbValue::String(b"first".to_vec()),
            expire_ms: None,
        },
        RdbEntry {
            db: 2,
            key: b"m".to_vec(),
            value: RdbValue::String(b"middle".to_vec()),
            expire_ms: None,
        },
    ];
    let mut refs: Vec<RdbStringEntryRef<'_>> = entries
        .iter()
        .map(|entry| {
            let RdbValue::String(value) = &entry.value else {
                unreachable!("test entries are string-only");
            };
            RdbStringEntryRef {
                db: entry.db,
                key: &entry.key,
                value,
                expire_ms: entry.expire_ms,
            }
        })
        .collect();
    refs.sort_by(|left, right| left.db.cmp(&right.db).then_with(|| left.key.cmp(right.key)));

    let aux = [("redis-ver", "7.2.4"), ("frankenredis", "true")];
    let lib = b"#!lua name=borrowed\nredis.register_function('bf', function() return 1 end)";
    let functions = [lib.as_slice()];

    assert_eq!(
        encode_rdb_string_entries_with_functions(&refs, &aux, &functions),
        encode_rdb_with_functions(&entries, &aux, &functions)
    );
}

#[test]
fn rdb_round_trip_string() {
    let entries = vec![RdbEntry {
        db: 0,
        key: b"hello".to_vec(),
        value: RdbValue::String(b"world".to_vec()),
        expire_ms: None,
    }];
    let encoded = encode_rdb(&entries, &[]);
    let (decoded, _aux) = decode_rdb(&encoded).expect("decode");
    assert_eq!(by_bits(strip_stream_metadata(decoded)), by_bits(entries));
}

#[test]
fn rdb_round_trip_with_expiry() {
    let entries = vec![RdbEntry {
        db: 0,
        key: b"temp".to_vec(),
        value: RdbValue::String(b"val".to_vec()),
        expire_ms: Some(1_700_000_000_000),
    }];
    let encoded = encode_rdb(&entries, &[]);
    let (decoded, _) = decode_rdb(&encoded).expect("decode");
    assert_eq!(by_bits(strip_stream_metadata(decoded)), by_bits(entries));
}

#[test]
fn rdb_round_trip_list() {
    let entries = vec![RdbEntry {
        db: 0,
        key: b"mylist".to_vec(),
        value: RdbValue::List(vec![b"a".to_vec(), b"b".to_vec(), b"c".to_vec()]),
        expire_ms: None,
    }];
    let encoded = encode_rdb(&entries, &[]);
    let (decoded, _) = decode_rdb(&encoded).expect("decode");
    assert_eq!(by_bits(strip_stream_metadata(decoded)), by_bits(entries));
}

#[test]
fn large_list_rdb_uses_multinode_quicklist2_not_legacy() {
    let th = CompactRdbThresholds::default();

    let items: Vec<Vec<u8>> = (0..10000).map(|i| format!("e{i}").into_bytes()).collect();
    let payload = encode_compact_list_quicklist2(&items, &th)
        .expect("large all-small-item list must encode as QUICKLIST_2 (not fall back to None)");
    let (node_count, _) = decode_length(&payload).expect("node count");
    assert!(
        node_count > 1,
        "expected multiple PACKED nodes, got {node_count}"
    );

    let small =
        encode_compact_list_quicklist2(&[b"a".to_vec(), b"b".to_vec(), b"c".to_vec()], &th)
            .expect("small list encodes");
    assert_eq!(decode_length(&small).unwrap().0, 1);

    let mixed_thresholds = CompactRdbThresholds {
        list_max_listpack_size: 13,
        ..CompactRdbThresholds::default()
    };
    let plain = b"plain-payload!".to_vec();
    let mixed = encode_compact_list_quicklist2(
        &[b"a".to_vec(), b"b".to_vec(), plain.clone(), b"c".to_vec()],
        &mixed_thresholds,
    )
    .expect("mixed quicklist2 encodes");
    let first_reference =
        encode_listpack_strings_blob(&[b"a".as_slice(), b"b".as_slice()]).unwrap();
    let middle_reference = encode_listpack_strings_blob(&[plain.as_slice()]).unwrap();
    let last_reference = encode_listpack_strings_blob(&[b"c".as_slice()]).unwrap();
    let mut expected = Vec::new();
    rdb_encode_length(&mut expected, 3);
    rdb_encode_length(&mut expected, 2);
    rdb_encode_string(&mut expected, &first_reference);
    rdb_encode_length(&mut expected, 2);
    rdb_encode_string(&mut expected, &middle_reference);
    rdb_encode_length(&mut expected, 2);
    rdb_encode_string(&mut expected, &last_reference);
    assert_eq!(mixed, expected);

    let (node_count, mut cursor) = decode_length(&mixed).expect("mixed node count");
    assert_eq!(node_count, 3);
    let (first_container, consumed) =
        decode_length(&mixed[cursor..]).expect("first container");
    cursor += consumed;
    assert_eq!(first_container, 2);
    let (first_node, consumed) = decode_string(&mixed[cursor..]).expect("first node");
    cursor += consumed;
    assert_eq!(
        decode_listpack(&first_node).expect("first packed node"),
        vec![
            ListpackEntry::String(b"a".to_vec()),
            ListpackEntry::String(b"b".to_vec()),
        ]
    );
    let (plain_container, consumed) =
        decode_length(&mixed[cursor..]).expect("middle container");
    cursor += consumed;
    assert_eq!(plain_container, 2);
    let (plain_node, consumed) = decode_string(&mixed[cursor..]).expect("middle node");
    cursor += consumed;
    assert_eq!(
        decode_listpack(&plain_node).expect("middle packed node"),
        vec![ListpackEntry::String(plain)]
    );
    let (last_container, consumed) =
        decode_length(&mixed[cursor..]).expect("last container");
    cursor += consumed;
    assert_eq!(last_container, 2);
    let (last_node, consumed) = decode_string(&mixed[cursor..]).expect("last node");
    cursor += consumed;
    assert_eq!(
        decode_listpack(&last_node).expect("last packed node"),
        vec![ListpackEntry::String(b"c".to_vec())]
    );
    assert_eq!(cursor, mixed.len());

    let entries = vec![RdbEntry {
        db: 0,
        key: b"big".to_vec(),
        value: RdbValue::List(items),
        expire_ms: None,
    }];
    let encoded = encode_rdb(&entries, &[]);
    let (decoded, _) = decode_rdb(&encoded).expect("decode");
    assert_eq!(by_bits(strip_stream_metadata(decoded)), by_bits(entries));
}

#[test]
fn rdb_round_trip_set() {
    let entries = vec![RdbEntry {
        db: 0,
        key: b"myset".to_vec(),
        value: RdbValue::MemberSet(vec![b"x".to_vec(), b"y".to_vec()]),
        expire_ms: None,
    }];
    let encoded = encode_rdb(&entries, &[]);
    let (decoded, _) = decode_rdb(&encoded).expect("decode");
    assert_eq!(by_bits(strip_stream_metadata(decoded)), by_bits(entries));
}

#[test]
fn rdb_round_trip_hash() {
    let entries = vec![RdbEntry {
        db: 0,
        key: b"myhash".to_vec(),
        value: RdbValue::Hash(vec![
            (b"f1".to_vec(), b"v1".to_vec()),
            (b"f2".to_vec(), b"v2".to_vec()),
        ]),
        expire_ms: None,
    }];
    let encoded = encode_rdb(&entries, &[]);
    let (decoded, _) = decode_rdb(&encoded).expect("decode");
    assert_eq!(by_bits(strip_stream_metadata(decoded)), by_bits(entries));
}

#[test]
fn rdb_round_trip_sorted_set() {
    let entries = vec![RdbEntry {
        db: 0,
        key: b"myzset".to_vec(),
        value: RdbValue::SortedSet(vec![(b"alice".to_vec(), double(1.5)), (b"bob".to_vec(), double(2.0))]),
        expire_ms: None,
    }];
    let encoded = encode_rdb(&entries, &[]);
    let (decoded, _) = decode_rdb(&encoded).expect("decode");
    assert_eq!(by_bits(strip_stream_metadata(decoded)), by_bits(entries));
}

#[test]
fn rdb_round_trip_aux_fields() {
    let entries = vec![RdbEntry {
        db: 0,
        key: b"k".to_vec(),
        value: RdbValue::String(b"v".to_vec()),
        expire_ms: None,
    }];
    let aux = [("redis-ver", "7.0.0"), ("ctime", "1700000000")];
    let encoded = encode_rdb(&entries, &aux);
    let (decoded, aux_map) = decode_rdb(&encoded).expect("decode");
    assert_eq!(by_bits(strip_stream_metadata(decoded)), by_bits(entries));
    assert_eq!(aux_map.get("redis-ver").map(String::as_str), Some("7.0.0"));
    assert_eq!(aux_map.get("ctime").map(String::as_str), Some("1700000000"));
}

#[test]
fn rdb_opcode_contract_decodes_selectdb_resizedb_expiry_and_aux() {
    let entries = vec![RdbEntry {
        db: 7,
        key: b"contract-key".to_vec(),
        value: RdbValue::String(b"contract-value".to_vec()),
        expire_ms: Some(1_700_000_001_234),
    }];
    let encoded = encode_rdb(&entries, &[("future-aux-field", "ignored-safely")]);

    assert!(encoded.contains(&RDB_OPCODE_AUX));
    assert!(encoded.contains(&RDB_OPCODE_SELECTDB));
    assert!(encoded.contains(&RDB_OPCODE_RESIZEDB));
    assert!(encoded.contains(&RDB_OPCODE_EXPIRETIME_MS));

    let decoded = decode_rdb_prefix(&encoded).expect("required RDB opcodes must decode");
    assert_eq!(decoded.consumed, encoded.len());
    assert_eq!(decoded.entries, entries);
    assert_eq!(
        decoded.aux.get("future-aux-field").map(String::as_str),
        Some("ignored-safely")
    );
}

#[test]
fn rdb_function2_opcode_is_captured_and_keys_still_load() {
    let lib_a = b"#!lua name=liba\nredis.register_function('fa', function() return 1 end)";
    let lib_b = b"#!lua name=libb\nredis.register_function('fb', function() return 2 end)";

    let mut encoded = Vec::new();
    encoded.extend_from_slice(b"REDIS0011");

    encoded.push(RDB_OPCODE_FUNCTION2);
    rdb_encode_string(&mut encoded, lib_a);
    encoded.push(RDB_OPCODE_FUNCTION2);
    rdb_encode_string(&mut encoded, lib_b);

    encoded.push(RDB_OPCODE_SELECTDB);
    rdb_encode_length(&mut encoded, 0);
    encoded.push(RDB_TYPE_STRING);
    rdb_encode_string(&mut encoded, b"survivor");
    rdb_encode_string(&mut encoded, b"value");
    encoded.push(RDB_OPCODE_EOF);
    append_rdb_checksum(&mut encoded);

    let decoded = decode_rdb_prefix(&encoded).expect("FUNCTION2 dump must load, not abort");
    assert_eq!(decoded.consumed, encoded.len());
    assert_eq!(
        decoded.functions,
        vec![lib_a.to_vec(), lib_b.to_vec()],
        "both library payloads must be captured in file order"
    );
    assert_eq!(
        decoded.entries,
        vec![RdbEntry {
            db: 0,
            key: b"survivor".to_vec(),
            value: RdbValue::String(b"value".to_vec()),
            expire_ms: None,
        }],
        "keys following the function payloads must survive the load"
    );
}

#[test]
fn encode_rdb_with_functions_round_trips_through_decode() {
    let lib = b"#!lua name=rt\nredis.register_function('g', function() return 9 end)";
    let entries = vec![RdbEntry {
        db: 0,
        key: b"k".to_vec(),
        value: RdbValue::String(b"v".to_vec()),
        expire_ms: None,
    }];
    let encoded = encode_rdb_with_functions(&entries, &[], &[lib.as_slice()]);
    let decoded = decode_rdb_prefix(&encoded).expect("round-trip decode");
    assert_eq!(decoded.consumed, encoded.len());
    assert_eq!(decoded.functions, vec![lib.to_vec()]);
    assert_eq!(decoded.entries, entries);
}

#[test]
fn rdb_aux_contract_preserves_unknown_and_non_utf8_fields() {
    let mut encoded = Vec::new();
    encoded.extend_from_slice(b"REDIS0011");
    encoded.push(RDB_OPCODE_AUX);
    rdb_encode_string(&mut encoded, b"unknown-compatible-aux");
    rdb_encode_string(&mut encoded, b"preserved");
    encoded.push(RDB_OPCODE_AUX);
    rdb_encode_string(&mut encoded, b"\xFFbinary-key");
    rdb_encode_string(&mut encoded, b"\xFFbinary-value");
    encoded.push(RDB_OPCODE_EOF);
    append_rdb_checksum(&mut encoded);

    let decoded = decode_rdb_prefix(&encoded).expect("unknown AUX must be safe");
    let lossy_key = String::from_utf8_lossy(b"\xFFbinary-key").into_owned();
    let lossy_value = String::from_utf8_lossy(b"\xFFbinary-value").into_owned();

    assert_eq!(decoded.entries, Vec::new());
    assert_eq!(
        decoded
            .aux
            .get("unknown-compatible-aux")
            .map(String::as_str),
        Some("preserved")
    );
    assert_eq!(decoded.aux.get(&lossy_key), Some(&lossy_value));
}

#[test]
fn rdb_rejects_unknown_mandatory_opcode_with_valid_checksum() {
    let mut encoded = Vec::new();
    encoded.extend_from_slice(b"REDIS0011");
    encoded.push(0xF4);
    encoded.push(RDB_OPCODE_EOF);
    append_rdb_checksum(&mut encoded);

    let err = decode_rdb_prefix(&encoded).expect_err("unknown mandatory opcode must fail");
    assert_eq!(err, PersistError::InvalidFrame);
}

#[test]
fn rdb_rejects_expiry_opcode_not_followed_by_value_type() {
    let mut encoded = Vec::new();
    encoded.extend_from_slice(b"REDIS0011");
    encoded.push(RDB_OPCODE_EXPIRETIME_MS);
    encoded.extend_from_slice(&1_700_000_001_234_u64.to_le_bytes());
    encoded.push(RDB_OPCODE_SELECTDB);
    rdb_encode_length(&mut encoded, 1);
    encoded.push(RDB_OPCODE_EOF);
    append_rdb_checksum(&mut encoded);

    let err = decode_rdb_prefix(&encoded).expect_err("dangling expiry must fail");
    assert_eq!(err, PersistError::InvalidFrame);
}

#[test]
fn rdb_round_trip_multiple_types() {
    let entries = vec![
        RdbEntry {
            db: 0,
            key: b"str".to_vec(),
            value: RdbValue::String(b"hello".to_vec()),
            expire_ms: Some(9_999_999),
        },
        RdbEntry {
            db: 2,
            key: b"hsh".to_vec(),
            value: RdbValue::Hash(vec![(b"a".to_vec(), b"b".to_vec())]),
            expire_ms: None,
        },
        RdbEntry {
            db: 2,
            key: b"lst".to_vec(),
            value: RdbValue::List(vec![b"1".to_vec(), b"2".to_vec()]),
            expire_ms: None,
        },
    ];
    let encoded = encode_rdb(&entries, &[]);
    let (decoded, _) = decode_rdb(&encoded).expect("decode");
    assert_eq!(by_bits(strip_stream_metadata(decoded)), by_bits(entries));
}

#[test]
fn rdb_decodes_lzf_encoded_string_values() {
    let mut encoded = Vec::new();
    encoded.extend_from_slice(b"REDIS0011");
    encoded.push(RDB_TYPE_STRING);
    rdb_encode_string(&mut encoded, b"msg");
    encoded.push(0xC3);
    rdb_encode_length(&mut encoded, 6);
    rdb_encode_length(&mut encoded, 6);
    encoded.extend_from_slice(&[2, b'a', b'b', b'c', 0x20, 0x02]);
    encoded.push(RDB_OPCODE_EOF);
    let checksum = crc64_redis(&encoded);
    encoded.extend_from_slice(&checksum.to_le_bytes());

    let (decoded, aux) = decode_rdb(&encoded).expect("decode lzf rdb");
    assert!(aux.is_empty());
    assert_eq!(
        decoded,
        vec![RdbEntry {
            db: 0,
            key: b"msg".to_vec(),
            value: RdbValue::String(b"abcabc".to_vec()),
            expire_ms: None,
        }]
    );
}

#[test]
fn rdb_encode_string_emits_lzf_for_long_compressible_string() {
    let payload: Vec<u8> = b"abc"[..].iter().copied().cycle().take(256).collect();
    let entries = vec![RdbEntry {
        db: 0,
        key: b"big".to_vec(),
        value: RdbValue::String(payload.clone()),
        expire_ms: None,
    }];
    let encoded = encode_rdb(&entries, &[]);
    let (decoded, _) = decode_rdb(&encoded).expect("decode lzf-encoded string");
    assert_eq!(by_bits(strip_stream_metadata(decoded)), by_bits(entries));

    assert!(
        encoded.contains(&0xC3),
        "expected LZF marker (0xC3) in encoded RDB; raw byte search across {} bytes",
        encoded.len()
    );
}

#[test]
fn rdb_encode_string_emits_raw_for_short_string() {
    let entries = vec![RdbEntry {
        db: 0,
        key: b"k".to_vec(),
        value: RdbValue::String(b"short value".to_vec()),
        expire_ms: None,
    }];
    let encoded = encode_rdb(&entries, &[]);

    let body_end = encoded.len().saturating_sub(8);
    assert!(
        !encoded[..body_end].contains(&0xC3),
        "did not expect LZF marker for short payload; encoded body: {:?}",
        &encoded[..body_end.min(48)]
    );
    let (decoded, _) = decode_rdb(&encoded).expect("decode short string");
    assert_eq!(by_bits(strip_stream_metadata(decoded)), by_bits(entries));
}

#[test]
fn rdb_encode_string_emits_raw_when_compression_grows_payload() {
    for seed in 0..16u8 {
        let payload: Vec<u8> = (0..28u8)
            .map(|i| seed.wrapping_mul(73).wrapping_add(i.wrapping_mul(101)))
            .collect();
        let entries = vec![RdbEntry {
            db: 0,
            key: format!("k{seed}").into_bytes(),
            value: RdbValue::String(payload.clone()),
            expire_ms: None,
        }];
        let encoded = encode_rdb(&entries, &[]);
        let (decoded, _) = decode_rdb(&encoded).expect("decode incompressible-ish");
        assert_eq!(decoded, entries, "round-trip drift for seed {seed}");
    }
}

fn build_listpack_for_test(entries: &[&[u8]]) -> Vec<u8> {
    fn push_backlen(buf: &mut Vec<u8>, len: usize) {
        if len <= 127 {
            buf.push(len as u8);
        } else if len < 16_383 {
            buf.push((len >> 7) as u8);
            buf.push(((len & 0x7F) as u8) | 0x80);
        } else {
            unreachable!("test listpack entries should not exceed 2-byte backlen");
        }
    }
    let mut entry_bytes = Vec::new();
    for entry in entries {
        let start = entry_bytes.len();

        assert!(
            entry.len() < 64,
            "test helper only supports literal-string entries < 64 bytes"
        );
        entry_bytes.push(0x80 | entry.len() as u8);
        entry_bytes.extend_from_slice(entry);
        let data_len = entry_bytes.len() - start;
        push_backlen(&mut entry_bytes, data_len);
    }
    let total_bytes = (6 + entry_bytes.len() + 1) as u32;
    let entry_count = u16::try_from(entries.len()).unwrap_or(u16::MAX);
    let mut out = Vec::with_capacity(total_bytes as usize);
    out.extend_from_slice(&total_bytes.to_le_bytes());
    out.extend_from_slice(&entry_count.to_le_bytes());
    out.extend_from_slice(&entry_bytes);
    out.push(0xFF);
    out
}

fn build_intset_for_test(values: &[i64]) -> Vec<u8> {
    let needs_64 = values
        .iter()
        .any(|v| !(i32::MIN as i64..=i32::MAX as i64).contains(v));
    let needs_32 = !needs_64
        && values
            .iter()
            .any(|v| !(i16::MIN as i64..=i16::MAX as i64).contains(v));
    let (encoding, width) = if needs_64 {
        (8u32, 8usize)
    } else if needs_32 {
        (4u32, 4usize)
    } else {
        (2u32, 2usize)
    };
    let mut out = Vec::with_capacity(8 + values.len() * width);
    out.extend_from_slice(&encoding.to_le_bytes());
    out.extend_from_slice(&(values.len() as u32).to_le_bytes());

    let mut sorted = values.to_vec();
    sorted.sort_unstable();
    for v in sorted {
        match width {
            2 => out.extend_from_slice(&(v as i16).to_le_bytes()),
            4 => out.extend_from_slice(&(v as i32).to_le_bytes()),
            8 => out.extend_from_slice(&v.to_le_bytes()),
            _ => unreachable!(),
        }
    }
    out
}

fn append_rdb_wrapped_string(buf: &mut Vec<u8>, data: &[u8]) {
    rdb_encode_length(buf, data.len());
    buf.extend_from_slice(data);
}

fn finalize_rdb_blob(payload: &mut Vec<u8>) -> Vec<u8> {
    payload.push(RDB_OPCODE_EOF);
    let checksum = crc64_redis(payload);
    payload.extend_from_slice(&checksum.to_le_bytes());
    std::mem::take(payload)
}

fn type_byte_for_key(encoded: &[u8], key: &[u8]) -> Option<u8> {
    let (_, aux) = decode_rdb(encoded).ok()?;

    let _ = aux;

    let mut wire_key = Vec::new();
    rdb_encode_length(&mut wire_key, key.len());
    wire_key.extend_from_slice(key);
    let mut idx = 0;
    while idx + wire_key.len() <= encoded.len() {
        if encoded[idx..idx + wire_key.len()] == wire_key[..] {
            if idx > 0 {
                return Some(encoded[idx - 1]);
            }
            return None;
        }
        idx += 1;
    }
    None
}

fn compact_listpack_payload_for_key(encoded: &[u8], key: &[u8]) -> Option<Vec<u8>> {
    let mut wire_key = Vec::new();
    rdb_encode_length(&mut wire_key, key.len());
    wire_key.extend_from_slice(key);
    let mut idx = 0;
    while idx + wire_key.len() <= encoded.len() {
        if encoded[idx..idx + wire_key.len()] == wire_key[..] {
            let cursor = idx + wire_key.len();
            let (payload, _) = decode_string(&encoded[cursor..])?;
            return Some(payload);
        }
        idx += 1;
    }
    None
}

#[test]
fn encode_rdb_default_options_emit_canonical_type_tags() {
    let entries = vec![
        RdbEntry {
            db: 0,
            key: b"s_canon".to_vec(),
            value: RdbValue::MemberSet(vec![b"alpha".to_vec(), b"beta".to_vec()]),
            expire_ms: None,
        },
        RdbEntry {
            db: 0,
            key: b"h_canon".to_vec(),
            value: RdbValue::Hash(vec![(b"f".to_vec(), b"v".to_vec())]),
            expire_ms: None,
        },
        RdbEntry {
            db: 0,
            key: b"z_canon".to_vec(),
            value: RdbValue::SortedSet(vec![(b"a".to_vec(), double(1.0))]),
            expire_ms: None,
        },
        RdbEntry {
            db: 0,
            key: b"l_canon".to_vec(),
            value: RdbValue::List(vec![b"x".to_vec(), b"y".to_vec()]),
            expire_ms: None,
        },
    ];
    let encoded = encode_rdb_with_options(&entries, &[], RdbEncodeOptions::default());

    assert_eq!(type_byte_for_key(&encoded, b"s_canon"), Some(RDB_TYPE_SET));
    assert_eq!(type_byte_for_key(&encoded, b"h_canon"), Some(RDB_TYPE_HASH));
    assert_eq!(
        type_byte_for_key(&encoded, b"z_canon"),
        Some(RDB_TYPE_ZSET_2)
    );
    assert_eq!(type_byte_for_key(&encoded, b"l_canon"), Some(RDB_TYPE_LIST));
}

#[test]
fn encode_rdb_default_wrapper_emits_compact_type_tags() {
    let entries = vec![
        RdbEntry {
            db: 0,
            key: b"s_intset".to_vec(),
            value: RdbValue::MemberSet(vec![b"1".to_vec(), b"2".to_vec(), b"3".to_vec()]),
            expire_ms: None,
        },
        RdbEntry {
            db: 0,
            key: b"s_listpack".to_vec(),
            value: RdbValue::MemberSet(vec![b"alpha".to_vec(), b"beta".to_vec(), b"gamma".to_vec()]),
            expire_ms: None,
        },
        RdbEntry {
            db: 0,
            key: b"h_listpack".to_vec(),
            value: RdbValue::Hash(vec![(b"f".to_vec(), b"v".to_vec())]),
            expire_ms: None,
        },
        RdbEntry {
            db: 0,
            key: b"z_listpack".to_vec(),
            value: RdbValue::SortedSet(vec![(b"a".to_vec(), double(1.0))]),
            expire_ms: None,
        },
        RdbEntry {
            db: 0,
            key: b"l_quicklist".to_vec(),
            value: RdbValue::List(vec![b"x".to_vec(), b"y".to_vec()]),
            expire_ms: None,
        },
    ];
    let encoded = encode_rdb(&entries, &[]);
    assert_eq!(
        type_byte_for_key(&encoded, b"s_intset"),
        Some(RDB_TYPE_SET_INTSET)
    );
    assert_eq!(
        type_byte_for_key(&encoded, b"s_listpack"),
        Some(RDB_TYPE_SET_LISTPACK)
    );
    assert_eq!(
        type_byte_for_key(&encoded, b"h_listpack"),
        Some(RDB_TYPE_HASH_LISTPACK)
    );
    assert_eq!(
        type_byte_for_key(&encoded, b"z_listpack"),
        Some(RDB_TYPE_ZSET_LISTPACK)
    );
    assert_eq!(
        type_byte_for_key(&encoded, b"l_quicklist"),
        Some(RDB_TYPE_LIST_QUICKLIST_2)
    );
}

#[test]
fn encode_rdb_compact_zset_listpack_orders_scores_like_redis() {
    let entries = vec![RdbEntry {
        db: 0,
        key: b"z".to_vec(),
        value: RdbValue::SortedSet(vec![
            (b"c".to_vec(), double(7.25)),
            (b"b".to_vec(), double(2.5)),
            (b"aa".to_vec(), double(1.0)),
            (b"a".to_vec(), double(1.0)),
        ]),
        expire_ms: None,
    }];

    let encoded = encode_rdb(&entries, &[]);
    assert_eq!(
        type_byte_for_key(&encoded, b"z"),
        Some(RDB_TYPE_ZSET_LISTPACK)
    );

    let (decoded, _) = decode_rdb(&encoded).expect("decode compact zset listpack");
    match &decoded[0].value {
        RdbValue::SortedSet(members) => {
            let actual: Vec<(&[u8], f64)> = members
                .iter()
                .map(|(member, score)| (member.as_slice(), value_of(score)))
                .collect();
            let expected: Vec<(&[u8], f64)> = vec![
                (&b"a"[..], 1.0),
                (&b"aa"[..], 1.0),
                (&b"b"[..], 2.5),
                (&b"c"[..], 7.25),
            ];
            assert_eq!(actual, expected);
        }
        other => assert!(
            matches!(other, RdbValue::SortedSet(_)),
            "expected sorted set after compact zset decode"
        ),
    }
}

#[test]
fn encode_rdb_compact_zset_presorted_input_is_byte_identical() {
    let presorted = vec![RdbEntry {
        db: 0,
        key: b"z".to_vec(),
        value: RdbValue::SortedSet(vec![
            (b"neg".to_vec(), double(-7.0)),
            (b"same-a".to_vec(), double(2.0)),
            (b"same-b".to_vec(), double(2.0)),
            (b"frac".to_vec(), double(3.5)),
            (b"large".to_vec(), double(4095.0)),
        ]),
        expire_ms: None,
    }];
    let unsorted = vec![RdbEntry {
        db: 0,
        key: b"z".to_vec(),
        value: RdbValue::SortedSet(vec![
            (b"large".to_vec(), double(4095.0)),
            (b"same-b".to_vec(), double(2.0)),
            (b"neg".to_vec(), double(-7.0)),
            (b"frac".to_vec(), double(3.5)),
            (b"same-a".to_vec(), double(2.0)),
        ]),
        expire_ms: None,
    }];
    let encoded = encode_rdb(&presorted, &[]);

    assert_eq!(encoded, encode_rdb(&unsorted, &[]));
    assert_eq!(
        type_byte_for_key(&encoded, b"z"),
        Some(RDB_TYPE_ZSET_LISTPACK)
    );
}

#[test]
fn encode_rdb_compact_listpacks_integer_encode_numeric_strings_like_redis() {
    let entries = vec![
        RdbEntry {
            db: 0,
            key: b"s_listpack".to_vec(),
            value: RdbValue::MemberSet(vec![b"alpha".to_vec(), b"127".to_vec(), b"4095".to_vec()]),
            expire_ms: None,
        },
        RdbEntry {
            db: 0,
            key: b"h_listpack".to_vec(),
            value: RdbValue::Hash(vec![
                (b"field".to_vec(), b"127".to_vec()),
                (b"4095".to_vec(), b"value".to_vec()),
            ]),
            expire_ms: None,
        },
        RdbEntry {
            db: 0,
            key: b"z_listpack".to_vec(),
            value: RdbValue::SortedSet(vec![
                (b"127".to_vec(), double(1.0)),
                (b"member".to_vec(), double(4095.0)),
                (b"other".to_vec(), double(2.5)),
            ]),
            expire_ms: None,
        },
        RdbEntry {
            db: 0,
            key: b"z_int_listpack".to_vec(),
            value: RdbValue::SortedSet(vec![
                (b"same-b".to_vec(), double(2.0)),
                (b"large".to_vec(), double(4095.0)),
                (b"zero".to_vec(), double(0.0)),
                (b"same-a".to_vec(), double(2.0)),
                (b"neg".to_vec(), double(-7.0)),
            ]),
            expire_ms: None,
        },
        RdbEntry {
            db: 0,
            key: b"z_mixed_listpack".to_vec(),
            value: RdbValue::SortedSet(vec![
                (b"frac-b".to_vec(), double(3.5)),
                (b"int-high".to_vec(), double(4.0)),
                (b"frac-a".to_vec(), double(3.5)),
                (b"neg".to_vec(), double(-2.0)),
            ]),
            expire_ms: None,
        },
    ];

    let encoded = encode_rdb(&entries, &[]);
    assert_eq!(
        type_byte_for_key(&encoded, b"s_listpack"),
        Some(RDB_TYPE_SET_LISTPACK)
    );
    assert_eq!(
        type_byte_for_key(&encoded, b"h_listpack"),
        Some(RDB_TYPE_HASH_LISTPACK)
    );
    assert_eq!(
        type_byte_for_key(&encoded, b"z_listpack"),
        Some(RDB_TYPE_ZSET_LISTPACK)
    );
    assert_eq!(
        type_byte_for_key(&encoded, b"z_int_listpack"),
        Some(RDB_TYPE_ZSET_LISTPACK)
    );
    assert_eq!(
        type_byte_for_key(&encoded, b"z_mixed_listpack"),
        Some(RDB_TYPE_ZSET_LISTPACK)
    );

    let set_payload = compact_listpack_payload_for_key(&encoded, b"s_listpack")
        .expect("set listpack payload");
    let set_entries = decode_listpack(&set_payload).expect("decode set lp");
    assert_eq!(
        set_entries,
        vec![
            ListpackEntry::String(b"alpha".to_vec()),
            ListpackEntry::Integer(127),
            ListpackEntry::Integer(4095),
        ]
    );

    let hash_payload = compact_listpack_payload_for_key(&encoded, b"h_listpack")
        .expect("hash listpack payload");
    let hash_entries = decode_listpack(&hash_payload).expect("decode hash lp");
    assert_eq!(
        hash_entries,
        vec![
            ListpackEntry::String(b"field".to_vec()),
            ListpackEntry::Integer(127),
            ListpackEntry::Integer(4095),
            ListpackEntry::String(b"value".to_vec()),
        ]
    );

    let zset_payload = compact_listpack_payload_for_key(&encoded, b"z_listpack")
        .expect("zset listpack payload");
    let zset_entries = decode_listpack(&zset_payload).expect("decode zset lp");
    assert_eq!(
        zset_entries,
        vec![
            ListpackEntry::Integer(127),
            ListpackEntry::Integer(1),
            ListpackEntry::String(b"other".to_vec()),
            ListpackEntry::String(b"2.5".to_vec()),
            ListpackEntry::String(b"member".to_vec()),
            ListpackEntry::Integer(4095),
        ]
    );

    let zset_int_payload = compact_listpack_payload_for_key(&encoded, b"z_int_listpack")
        .expect("integer zset listpack payload");
    let zset_int_entries =
        decode_listpack(&zset_int_payload).expect("decode integer zset lp");
    assert_eq!(
        zset_int_entries,
        vec![
            ListpackEntry::String(b"neg".to_vec()),
            ListpackEntry::Integer(-7),
            ListpackEntry::String(b"zero".to_vec()),
            ListpackEntry::Integer(0),
            ListpackEntry::String(b"same-a".to_vec()),
            ListpackEntry::Integer(2),
            ListpackEntry::String(b"same-b".to_vec()),
            ListpackEntry::Integer(2),
            ListpackEntry::String(b"large".to_vec()),
            ListpackEntry::Integer(4095),
        ]
    );

    let zset_mixed_payload = compact_listpack_payload_for_key(&encoded, b"z_mixed_listpack")
        .expect("mixed-score zset listpack payload");
    let zset_mixed_entries =
        decode_listpack(&zset_mixed_payload).expect("decode mixed zset lp");
    assert_eq!(
        zset_mixed_entries,
        vec![
            ListpackEntry::String(b"neg".to_vec()),
            ListpackEntry::Integer(-2),
            ListpackEntry::String(b"frac-a".to_vec()),
            ListpackEntry::String(b"3.5".to_vec()),
            ListpackEntry::String(b"frac-b".to_vec()),
            ListpackEntry::String(b"3.5".to_vec()),
            ListpackEntry::String(b"int-high".to_vec()),
            ListpackEntry::Integer(4),
        ]
    );
}

#[test]
fn compact_hash_listpack_direct_emit_matches_flat_reference() {
    let fields = vec![
        (b"field".to_vec(), b"127".to_vec()),
        (b"4095".to_vec(), b"value".to_vec()),
        (b"neg".to_vec(), b"-2".to_vec()),
        (b"bytes".to_vec(), b"hello\0world".to_vec()),
    ];
    let direct = encode_hash_listpack_blob(&fields).expect("direct hash listpack");
    let flat: Vec<&[u8]> = fields
        .iter()
        .flat_map(|(field, value)| [field.as_slice(), value.as_slice()])
        .collect();
    let reference = encode_listpack_strings_blob(&flat).expect("flat hash listpack reference");

    assert_eq!(direct, reference);
    assert_eq!(
        u16::from_le_bytes(direct[4..6].try_into().expect("listpack count")),
        flat.len() as u16
    );

    let decoded = decode_listpack(&direct).expect("decode direct hash lp");
    assert_eq!(
        decoded,
        vec![
            ListpackEntry::String(b"field".to_vec()),
            ListpackEntry::Integer(127),
            ListpackEntry::Integer(4095),
            ListpackEntry::String(b"value".to_vec()),
            ListpackEntry::String(b"neg".to_vec()),
            ListpackEntry::Integer(-2),
            ListpackEntry::String(b"bytes".to_vec()),
            ListpackEntry::String(b"hello\0world".to_vec()),
        ]
    );
}

#[test]
fn compact_set_listpack_direct_emit_matches_flat_reference() {
    let members = vec![
        b"alpha".to_vec(),
        b"127".to_vec(),
        b"4095".to_vec(),
        b"-2".to_vec(),
        b"hello\0world".to_vec(),
    ];
    let direct = encode_set_listpack_blob(&members).expect("direct set listpack");
    let flat: Vec<&[u8]> = members.iter().map(Vec::as_slice).collect();
    let reference = encode_listpack_strings_blob(&flat).expect("flat set listpack reference");

    assert_eq!(direct, reference);
    assert_eq!(
        u16::from_le_bytes(direct[4..6].try_into().expect("listpack count")),
        flat.len() as u16
    );

    let decoded = decode_listpack(&direct).expect("decode direct set lp");
    assert_eq!(
        decoded,
        vec![
            ListpackEntry::String(b"alpha".to_vec()),
            ListpackEntry::Integer(127),
            ListpackEntry::Integer(4095),
            ListpackEntry::Integer(-2),
            ListpackEntry::String(b"hello\0world".to_vec()),
        ]
    );
}

#[test]
fn encode_rdb_with_compact_options_emits_compact_type_tags() {
    let entries = vec![
        RdbEntry {
            db: 0,
            key: b"s_intset".to_vec(),
            value: RdbValue::MemberSet(vec![b"1".to_vec(), b"2".to_vec(), b"3".to_vec()]),
            expire_ms: None,
        },
        RdbEntry {
            db: 0,
            key: b"s_listpack".to_vec(),
            value: RdbValue::MemberSet(vec![b"alpha".to_vec(), b"beta".to_vec(), b"gamma".to_vec()]),
            expire_ms: None,
        },
        RdbEntry {
            db: 0,
            key: b"h_listpack".to_vec(),
            value: RdbValue::Hash(vec![
                (b"f1".to_vec(), b"v1".to_vec()),
                (b"f2".to_vec(), b"v2".to_vec()),
            ]),
            expire_ms: None,
        },
        RdbEntry {
            db: 0,
            key: b"z_listpack".to_vec(),
            value: RdbValue::SortedSet(vec![
                (b"a".to_vec(), double(1.0)),
                (b"b".to_vec(), double(2.5)),
                (b"c".to_vec(), double(7.25)),
            ]),
            expire_ms: None,
        },
        RdbEntry {
            db: 0,
            key: b"l_quicklist".to_vec(),
            value: RdbValue::List(vec![b"a".to_vec(), b"b".to_vec(), b"c".to_vec()]),
            expire_ms: None,
        },
    ];
    let opts = RdbEncodeOptions {
        compact: Some(CompactRdbThresholds::default()),
    };
    let encoded = encode_rdb_with_options(&entries, &[], opts);

    assert_eq!(
        type_byte_for_key(&encoded, b"s_intset"),
        Some(RDB_TYPE_SET_INTSET),
    );
    assert_eq!(
        type_byte_for_key(&encoded, b"s_listpack"),
        Some(RDB_TYPE_SET_LISTPACK),
    );
    assert_eq!(
        type_byte_for_key(&encoded, b"h_listpack"),
        Some(RDB_TYPE_HASH_LISTPACK),
    );
    assert_eq!(
        type_byte_for_key(&encoded, b"z_listpack"),
        Some(RDB_TYPE_ZSET_LISTPACK),
    );
    assert_eq!(
        type_byte_for_key(&encoded, b"l_quicklist"),
        Some(RDB_TYPE_LIST_QUICKLIST_2),
    );

    let (decoded, _) = decode_rdb(&encoded).expect("compact-encoded RDB should decode");
    assert_eq!(decoded.len(), entries.len());
    for original in &entries {
        let restored = decoded
            .iter()
            .find(|d| d.key == original.key)
            .unwrap_or_else(|| panic!("missing key {:?} in decoded", original.key));
        match (&original.value, &restored.value) {
            (RdbValue::MemberSet(a), RdbValue::MemberSet(b)) => {
                let mut a = a.clone();
                let mut b = b.clone();
                a.sort();
                b.sort();
                assert_eq!(a, b, "set round-trip drift on key {:?}", original.key);
            }
            (RdbValue::Hash(a), RdbValue::Hash(b)) => {
                let mut a = a.clone();
                let mut b = b.clone();
                a.sort();
                b.sort();
                assert_eq!(a, b, "hash round-trip drift on key {:?}", original.key);
            }
            (RdbValue::SortedSet(a), RdbValue::SortedSet(b)) => {
                assert_eq!(a.len(), b.len());
                for ((am, asc), (bm, bsc)) in a.iter().zip(b.iter()) {
                    assert_eq!(am, bm, "zset member drift");
                    assert!((value_of(asc) - value_of(bsc)).abs() < 1e-9, "zset score drift");
                }
            }
            (RdbValue::List(a), RdbValue::List(b)) => {
                assert_eq!(a, b, "list round-trip drift on key {:?}", original.key);
            }
            _ => panic!("kind mismatch on key {:?}", original.key),
        }
    }
}

#[test]
fn encode_rdb_compact_falls_back_to_canonical_above_thresholds() {
    let big_int_members: Vec<Vec<u8>> =
        (0..600).map(|i: i64| i.to_string().into_bytes()).collect();

    let big_hash = vec![(b"f".to_vec(), vec![b'x'; 100])];

    let big_set = vec![b"a".to_vec(), vec![b'b'; 100]];

    let big_zset = vec![(b"a".to_vec(), double(1.0)), (vec![b'm'; 100], double(2.0))];

    let entries = vec![
        RdbEntry {
            db: 0,
            key: b"s_big_int".to_vec(),
            value: RdbValue::MemberSet(big_int_members),
            expire_ms: None,
        },
        RdbEntry {
            db: 0,
            key: b"h_big_value".to_vec(),
            value: RdbValue::Hash(big_hash),
            expire_ms: None,
        },
        RdbEntry {
            db: 0,
            key: b"s_big_value".to_vec(),
            value: RdbValue::MemberSet(big_set),
            expire_ms: None,
        },
        RdbEntry {
            db: 0,
            key: b"z_big_value".to_vec(),
            value: RdbValue::SortedSet(big_zset),
            expire_ms: None,
        },
    ];
    let opts = RdbEncodeOptions {
        compact: Some(CompactRdbThresholds::default()),
    };
    let encoded = encode_rdb_with_options(&entries, &[], opts);

    assert_eq!(
        type_byte_for_key(&encoded, b"s_big_int"),
        Some(RDB_TYPE_SET),
        "600-entry integer set must overshoot intset threshold (512) into RDB_TYPE_SET",
    );
    assert_eq!(
        type_byte_for_key(&encoded, b"h_big_value"),
        Some(RDB_TYPE_HASH),
        "100-byte value must overshoot hash listpack value threshold (64) into RDB_TYPE_HASH",
    );
    assert_eq!(
        type_byte_for_key(&encoded, b"s_big_value"),
        Some(RDB_TYPE_SET),
        "100-byte member must overshoot set listpack value threshold (64) into RDB_TYPE_SET",
    );
    assert_eq!(
        type_byte_for_key(&encoded, b"z_big_value"),
        Some(RDB_TYPE_ZSET_2),
        "100-byte member must overshoot zset listpack value threshold (64) into RDB_TYPE_ZSET_2",
    );

    let (decoded, _) = decode_rdb(&encoded).expect("compact fallback RDB should decode");
    assert_eq!(decoded.len(), entries.len());
}

#[test]
fn encode_rdb_compact_set_intset_rejects_non_canonical_integers() {
    let opts = RdbEncodeOptions {
        compact: Some(CompactRdbThresholds::default()),
    };
    for non_canonical in [b"+1".to_vec(), b"01".to_vec(), b" 1".to_vec()] {
        let entries = vec![RdbEntry {
            db: 0,
            key: b"s".to_vec(),
            value: RdbValue::MemberSet(vec![non_canonical.clone(), b"2".to_vec()]),
            expire_ms: None,
        }];
        let encoded = encode_rdb_with_options(&entries, &[], opts);

        assert_ne!(
            type_byte_for_key(&encoded, b"s"),
            Some(RDB_TYPE_SET_INTSET),
            "non-canonical integer member {:?} must NOT trigger intset encoding",
            non_canonical,
        );
    }
}

#[test]
fn compact_set_intset_noalloc_canonical_check_matches_roundtrip_oracle() {
    fn round_trip_accepts(raw: &[u8]) -> bool {
        let Ok(s) = std::str::from_utf8(raw) else {
            return false;
        };
        let Ok(value) = s.parse::<i64>() else {
            return false;
        };
        value.to_string().as_bytes() == raw
    }

    let thresholds = CompactRdbThresholds::default();
    let cases: Vec<Vec<Vec<u8>>> = vec![
        vec![
            b"0".to_vec(),
            b"1".to_vec(),
            b"-2".to_vec(),
            b"9223372036854775807".to_vec(),
        ],
        vec![
            b"-9223372036854775808".to_vec(),
            b"42".to_vec(),
            b"-4096".to_vec(),
        ],
        vec![b"+1".to_vec(), b"2".to_vec()],
        vec![b"01".to_vec(), b"2".to_vec()],
        vec![b"-0".to_vec(), b"2".to_vec()],
        vec![b" 1".to_vec(), b"2".to_vec()],
        vec![b"1 ".to_vec(), b"2".to_vec()],
        vec![b"9223372036854775808".to_vec(), b"2".to_vec()],
        vec![b"-9223372036854775809".to_vec(), b"2".to_vec()],
        vec![b"\xff".to_vec(), b"2".to_vec()],
    ];

    for members in cases {
        let expected = members.iter().all(|raw| round_trip_accepts(raw));
        assert_eq!(
            encode_compact_set_intset(&members, &thresholds).is_some(),
            expected,
            "compact intset selection drift for {members:?}"
        );
    }
}

#[test]
fn compact_encoder_reemits_upstream_shaped_seeds_byte_identically() {
    let zset_listpack = encode_listpack_strings_blob(&[
        b"d".as_slice(),
        b"-3.14159".as_slice(),
        b"a".as_slice(),
        b"1".as_slice(),
        b"b".as_slice(),
        b"2.5".as_slice(),
        b"c".as_slice(),
        b"7.25".as_slice(),
    ])
    .expect("encode sorted compact zset listpack");
    let mut zset_payload = Vec::new();
    rdb_encode_length(&mut zset_payload, zset_listpack.len());
    zset_payload.extend_from_slice(&zset_listpack);

    let mut well_formed: Vec<(&str, u8, Vec<u8>, Vec<u8>)> = Vec::new();
    let mut intset_payload = Vec::new();
    rdb_encode_string(&mut intset_payload, &build_intset_for_test(&[-5, 1, 2, 3, 100]));
    let mut set_payload = Vec::new();
    rdb_encode_string(
        &mut set_payload,
        &build_listpack_for_test(&[b"alpha", b"beta", b"gamma"]),
    );
    let mut hash_payload = Vec::new();
    rdb_encode_string(
        &mut hash_payload,
        &build_listpack_for_test(&[b"f1", b"v1", b"f2", b"v2", b"f3", b"v3"]),
    );
    let mut list_payload = Vec::new();
    rdb_encode_length(&mut list_payload, 1);
    rdb_encode_length(&mut list_payload, 2);
    rdb_encode_string(
        &mut list_payload,
        &build_listpack_for_test(&[b"a", b"b", b"c", b"d", b"e"]),
    );
    for (seed_name, expected_tag, key, payload) in [
        (
            "compact_intset_small_16bit",
            RDB_TYPE_SET_INTSET,
            b"si".as_slice(),
            intset_payload,
        ),
        (
            "compact_set_listpack",
            RDB_TYPE_SET_LISTPACK,
            b"slp".as_slice(),
            set_payload,
        ),
        (
            "compact_hash_listpack",
            RDB_TYPE_HASH_LISTPACK,
            b"hlp".as_slice(),
            hash_payload,
        ),
        (
            "compact_quicklist2_packed",
            RDB_TYPE_LIST_QUICKLIST_2,
            b"lq".as_slice(),
            list_payload,
        ),
    ] {
        let bytes = encode_single_raw_rdb_entry(expected_tag, key, &payload);
        well_formed.push((seed_name, expected_tag, key.to_vec(), bytes));
    }
    well_formed.push((
        "compact_zset_listpack_sorted_by_score",
        RDB_TYPE_ZSET_LISTPACK,
        b"zlp".to_vec(),
        encode_single_raw_rdb_entry(RDB_TYPE_ZSET_LISTPACK, b"zlp", &zset_payload),
    ));

    for (seed_name, expected_tag, key, seed_bytes) in well_formed {
        let (entries, _) =
            decode_rdb(&seed_bytes).expect("decode upstream-shaped compact seed");

        let re_emitted = encode_rdb(&with_texts(entries), &[]);

        let re_emitted_tag =
            type_byte_for_key(&re_emitted, &key).expect("re-emitted compact RDB missing key");
        assert_eq!(
            re_emitted_tag,
            expected_tag,
            "compact re-emit drifted: seed {seed_name} (key {:?}) decoded → \
             re-encoded with type byte 0x{:02X}, expected 0x{:02X}",
            std::str::from_utf8(&key).unwrap_or("?"),
            re_emitted_tag,
            expected_tag,
        );

        assert_eq!(
            re_emitted, seed_bytes,
            "compact re-emit must be byte-identical for seed {seed_name}"
        );
    }
}

#[test]
fn encode_rdb_round_trip_invariants_for_fuzz_seeds() {
    let fixtures: &[(&str, RdbValue)] = &[
        ("string_short", RdbValue::String(b"hello world".to_vec())),
        (
            "string_long",
            RdbValue::String(b"abc".repeat(50)),
        ),
        (
            "list_small",
            RdbValue::List(vec![b"a".to_vec(), b"b".to_vec(), b"c".to_vec()]),
        ),
        (
            "list_long_element",
            RdbValue::List(vec![b"x".repeat(8500)]),
        ),
        (
            "set_intset",
            RdbValue::MemberSet(vec![
                b"1".to_vec(),
                b"2".to_vec(),
                b"3".to_vec(),
                b"100".to_vec(),
                b"-5".to_vec(),
            ]),
        ),
        (
            "set_listpack",
            RdbValue::MemberSet(vec![b"alpha".to_vec(), b"beta".to_vec(), b"gamma".to_vec()]),
        ),
        (
            "set_canonical",
            RdbValue::MemberSet(
                (0..200)
                    .map(|i: i32| format!("m{i}").into_bytes())
                    .collect(),
            ),
        ),
        (
            "hash_listpack",
            RdbValue::Hash(vec![
                (b"f1".to_vec(), b"v1".to_vec()),
                (b"f2".to_vec(), b"v2".to_vec()),
                (b"f3".to_vec(), b"v3".to_vec()),
            ]),
        ),
        (
            "hash_canonical",
            RdbValue::Hash(
                (0..600)
                    .map(|i: i32| (format!("f{i}").into_bytes(), format!("v{i}").into_bytes()))
                    .collect(),
            ),
        ),
        (
            "zset_listpack",
            RdbValue::SortedSet(vec![
                (b"a".to_vec(), double(1.0)),
                (b"b".to_vec(), double(2.5)),
                (b"c".to_vec(), double(-3.5)),
            ]),
        ),
    ];

    for (name, value) in fixtures {
        for compact in [None, Some(CompactRdbThresholds::default())] {
            let label = if compact.is_some() {
                "compact"
            } else {
                "canonical"
            };
            let entries = vec![RdbEntry {
                db: 0,
                key: name.as_bytes().to_vec(),
                value: value.clone(),
                expire_ms: None,
            }];
            let opts = RdbEncodeOptions { compact };
            let encoded = encode_rdb_with_options(&entries, &[], opts);

            assert!(
                encoded.starts_with(b"REDIS"),
                "[{label}] {name}: missing REDIS magic"
            );
            assert!(encoded.len() > 18, "[{label}] {name}: encoded too short");

            let (decoded, _aux) = decode_rdb(&encoded).unwrap_or_else(|e| {
                panic!(
                    "[{label}] {name}: decode_rdb rejected encoder output: {e:?}\n\
                     encoded.len()={}\nfirst 64: {:02x?}",
                    encoded.len(),
                    &encoded[..encoded.len().min(64)],
                )
            });
            assert_eq!(
                decoded.len(),
                1,
                "[{label}] {name}: round-trip dropped entry"
            );
            assert_eq!(
                decoded[0].key,
                name.as_bytes(),
                "[{label}] {name}: round-trip key drift",
            );

            match (value, &decoded[0].value) {
                (RdbValue::String(a), RdbValue::String(b)) => {
                    assert_eq!(a, b, "[{label}] {name}: string drift")
                }
                (RdbValue::List(a), RdbValue::List(b)) => {
                    assert_eq!(a, b, "[{label}] {name}: list drift")
                }

                (
                    RdbValue::MemberSet(a) | RdbValue::SetHashtable(a),
                    RdbValue::MemberSet(b) | RdbValue::SetHashtable(b),
                ) => {
                    let mut x = a.clone();
                    let mut y = b.clone();
                    x.sort();
                    y.sort();
                    assert_eq!(x, y, "[{label}] {name}: set drift");
                }
                (RdbValue::Hash(a), RdbValue::Hash(b)) => {
                    let mut x = a.clone();
                    let mut y = b.clone();
                    x.sort();
                    y.sort();
                    assert_eq!(x, y, "[{label}] {name}: hash drift");
                }
                (RdbValue::SortedSet(a), RdbValue::SortedSet(b)) => {
                    assert_eq!(a.len(), b.len(), "[{label}] {name}: zset card drift");
                    let mut x = a.clone();
                    let mut y = b.clone();
                    x.sort_by(|p, q| {
                        p.0.cmp(&q.0)
                            .then(value_of(&p.1).partial_cmp(&value_of(&q.1)).unwrap_or(std::cmp::Ordering::Equal))
                    });
                    y.sort_by(|p, q| {
                        p.0.cmp(&q.0)
                            .then(value_of(&p.1).partial_cmp(&value_of(&q.1)).unwrap_or(std::cmp::Ordering::Equal))
                    });
                    for (xi, yi) in x.iter().zip(y.iter()) {
                        assert_eq!(xi.0, yi.0, "[{label}] {name}: zset member drift");
                        assert!(
                            (value_of(&xi.1) - value_of(&yi.1)).abs() < 1e-9,
                            "[{label}] {name}: zset score drift {} vs {}",
                            value_of(&xi.1),
                            value_of(&yi.1)
                        );
                    }
                }
                _ => panic!("[{label}] {name}: kind mismatch"),
            }
        }
    }
}

#[test]
fn encode_rdb_compact_zset_listpack_rejects_nan() {
    let entries = vec![RdbEntry {
        db: 0,
        key: b"z_nan".to_vec(),
        value: RdbValue::SortedSet(vec![(b"a".to_vec(), double(f64::NAN))]),
        expire_ms: None,
    }];
    let opts = RdbEncodeOptions {
        compact: Some(CompactRdbThresholds::default()),
    };
    let encoded = encode_rdb_with_options(&entries, &[], opts);
    assert_eq!(
        type_byte_for_key(&encoded, b"z_nan"),
        Some(RDB_TYPE_ZSET_2),
        "NaN score must force fallback to RDB_TYPE_ZSET_2",
    );
}

#[test]
fn rdb_decodes_compact_set_intset() {
    let mut blob = Vec::new();
    blob.extend_from_slice(b"REDIS0011");
    blob.push(RDB_TYPE_SET_INTSET);
    rdb_encode_string(&mut blob, b"si");
    let intset = build_intset_for_test(&[1, 2, 3, 5]);
    append_rdb_wrapped_string(&mut blob, &intset);
    let bytes = finalize_rdb_blob(&mut blob);

    let (entries, _) = decode_rdb(&bytes).expect("decode set_intset");
    assert_eq!(entries.len(), 1);
    assert_eq!(entries[0].key, b"si");
    match &entries[0].value {
        RdbValue::MemberSet(members) => {
            let mut got: Vec<&[u8]> = members.iter().map(Vec::as_slice).collect();
            got.sort();
            assert_eq!(got, vec![b"1" as &[u8], b"2", b"3", b"5"]);
        }
        other => panic!("expected RdbValue::Set, got {other:?}"),
    }
}

#[test]
fn rdb_decodes_compact_set_listpack() {
    let mut blob = Vec::new();
    blob.extend_from_slice(b"REDIS0011");
    blob.push(RDB_TYPE_SET_LISTPACK);
    rdb_encode_string(&mut blob, b"slp");
    let lp = build_listpack_for_test(&[b"alpha", b"beta", b"gamma"]);
    append_rdb_wrapped_string(&mut blob, &lp);
    let bytes = finalize_rdb_blob(&mut blob);

    let (entries, _) = decode_rdb(&bytes).expect("decode set_listpack");
    match &entries[0].value {
        RdbValue::MemberSet(members) => {
            let mut got: Vec<&[u8]> = members.iter().map(Vec::as_slice).collect();
            got.sort();
            assert_eq!(got, vec![b"alpha" as &[u8], b"beta", b"gamma"]);
        }
        other => panic!("expected RdbValue::Set, got {other:?}"),
    }
}

#[test]
fn rdb_decodes_compact_hash_listpack() {
    let mut blob = Vec::new();
    blob.extend_from_slice(b"REDIS0011");
    blob.push(RDB_TYPE_HASH_LISTPACK);
    rdb_encode_string(&mut blob, b"hlp");
    let lp = build_listpack_for_test(&[b"f1", b"v1", b"f2", b"v2"]);
    append_rdb_wrapped_string(&mut blob, &lp);
    let bytes = finalize_rdb_blob(&mut blob);

    let (entries, _) = decode_rdb(&bytes).expect("decode hash_listpack");
    match &entries[0].value {
        RdbValue::Hash(fields) => {
            assert_eq!(
                fields,
                &vec![
                    (b"f1".to_vec(), b"v1".to_vec()),
                    (b"f2".to_vec(), b"v2".to_vec()),
                ]
            );
        }
        other => panic!("expected RdbValue::Hash, got {other:?}"),
    }
}

#[test]
fn rdb_decodes_compact_hash_listpack_rejects_odd_entry_count() {
    let mut blob = Vec::new();
    blob.extend_from_slice(b"REDIS0011");
    blob.push(RDB_TYPE_HASH_LISTPACK);
    rdb_encode_string(&mut blob, b"bad");
    let lp = build_listpack_for_test(&[b"f1", b"v1", b"orphan"]);
    append_rdb_wrapped_string(&mut blob, &lp);
    let bytes = finalize_rdb_blob(&mut blob);

    assert!(matches!(
        decode_rdb(&bytes),
        Err(PersistError::InvalidFrame)
    ));
}

#[test]
fn rdb_decodes_compact_zset_listpack() {
    let mut blob = Vec::new();
    blob.extend_from_slice(b"REDIS0011");
    blob.push(RDB_TYPE_ZSET_LISTPACK);
    rdb_encode_string(&mut blob, b"zlp");

    let lp = build_listpack_for_test(&[b"a", b"1", b"b", b"2.5", b"c", b"7.25"]);
    append_rdb_wrapped_string(&mut blob, &lp);
    let bytes = finalize_rdb_blob(&mut blob);

    let (entries, _) = decode_rdb(&bytes).expect("decode zset_listpack");
    match &entries[0].value {
        RdbValue::SortedSet(members) => {
            assert_eq!(members.len(), 3);
            assert_eq!(members[0].0, b"a");
            assert!((value_of(&members[0].1) - 1.0).abs() < f64::EPSILON);
            assert_eq!(members[1].0, b"b");
            assert!((value_of(&members[1].1) - 2.5).abs() < f64::EPSILON);
            assert_eq!(members[2].0, b"c");
            assert!((value_of(&members[2].1) - 7.25).abs() < f64::EPSILON);
        }
        other => panic!("expected RdbValue::SortedSet, got {other:?}"),
    }
}

#[test]
fn rdb_decodes_compact_zset_listpack_rejects_non_numeric_score() {
    let mut blob = Vec::new();
    blob.extend_from_slice(b"REDIS0011");
    blob.push(RDB_TYPE_ZSET_LISTPACK);
    rdb_encode_string(&mut blob, b"bad");
    let lp = build_listpack_for_test(&[b"a", b"not_a_number"]);
    append_rdb_wrapped_string(&mut blob, &lp);
    let bytes = finalize_rdb_blob(&mut blob);

    assert!(matches!(
        decode_rdb(&bytes),
        Err(PersistError::InvalidFrame)
    ));
}

#[test]
fn rdb_decodes_compact_list_quicklist_2_packed_node() {
    let mut blob = Vec::new();
    blob.extend_from_slice(b"REDIS0011");
    blob.push(RDB_TYPE_LIST_QUICKLIST_2);
    rdb_encode_string(&mut blob, b"lq");

    rdb_encode_length(&mut blob, 1);
    rdb_encode_length(&mut blob, 2);
    let lp = build_listpack_for_test(&[b"a", b"b", b"c"]);
    append_rdb_wrapped_string(&mut blob, &lp);
    let bytes = finalize_rdb_blob(&mut blob);

    let (entries, _) = decode_rdb(&bytes).expect("decode list_quicklist_2 packed");
    match &entries[0].value {
        RdbValue::List(items) => {
            assert_eq!(items, &vec![b"a".to_vec(), b"b".to_vec(), b"c".to_vec()]);
        }
        other => panic!("expected RdbValue::List, got {other:?}"),
    }
}

#[test]
fn rdb_decodes_compact_list_quicklist_2_plain_node() {
    let mut blob = Vec::new();
    blob.extend_from_slice(b"REDIS0011");
    blob.push(RDB_TYPE_LIST_QUICKLIST_2);
    rdb_encode_string(&mut blob, b"lq_plain");

    rdb_encode_length(&mut blob, 1);
    rdb_encode_length(&mut blob, 1);
    rdb_encode_string(&mut blob, b"single_plain_element");
    let bytes = finalize_rdb_blob(&mut blob);

    let (entries, _) = decode_rdb(&bytes).expect("decode list_quicklist_2 plain");
    match &entries[0].value {
        RdbValue::List(items) => {
            assert_eq!(items, &vec![b"single_plain_element".to_vec()]);
        }
        other => panic!("expected RdbValue::List, got {other:?}"),
    }
}

#[test]
fn rdb_decodes_compact_list_quicklist_2_rejects_unknown_container() {
    let mut blob = Vec::new();
    blob.extend_from_slice(b"REDIS0011");
    blob.push(RDB_TYPE_LIST_QUICKLIST_2);
    rdb_encode_string(&mut blob, b"bad");
    rdb_encode_length(&mut blob, 1);
    rdb_encode_length(&mut blob, 99);
    let lp = build_listpack_for_test(&[b"x"]);
    append_rdb_wrapped_string(&mut blob, &lp);
    let bytes = finalize_rdb_blob(&mut blob);

    assert!(matches!(
        decode_rdb(&bytes),
        Err(PersistError::InvalidFrame)
    ));
}

#[test]
fn intset_helper_decoder_handles_each_width() {
    let blob_16 = build_intset_for_test(&[-1, 0, 1, 32_000]);
    let got = decode_intset_members(&blob_16).expect("16-bit intset");
    assert_eq!(
        got,
        vec![
            b"-1".to_vec(),
            b"0".to_vec(),
            b"1".to_vec(),
            b"32000".to_vec()
        ]
    );

    let blob_32 = build_intset_for_test(&[-100_000, 0, 100_000]);
    let got = decode_intset_members(&blob_32).expect("32-bit intset");
    assert_eq!(
        got,
        vec![b"-100000".to_vec(), b"0".to_vec(), b"100000".to_vec()]
    );

    let blob_64 = build_intset_for_test(&[i64::MIN, 0, i64::MAX]);
    let got = decode_intset_members(&blob_64).expect("64-bit intset");
    assert_eq!(
        got,
        vec![
            i64::MIN.to_string().into_bytes(),
            b"0".to_vec(),
            i64::MAX.to_string().into_bytes(),
        ]
    );

    assert!(decode_intset_members(&[0; 4]).is_none());
}

#[test]
fn rdb_rejects_invalid_magic() {
    assert!(decode_rdb(b"NOTREDIS").is_err());
}

#[test]
fn rdb_rejects_checksum_mismatch() {
    let entries = vec![RdbEntry {
        db: 0,
        key: b"tamper".to_vec(),
        value: RdbValue::String(b"proof".to_vec()),
        expire_ms: None,
    }];
    let mut encoded = encode_rdb(&entries, &[]);
    let len = encoded.len();
    encoded[len - 1] ^= 0xFF;

    assert!(decode_rdb(&encoded).is_err());
}

#[test]
fn rdb_rejects_missing_eof_trailer() {
    let entries = vec![RdbEntry {
        db: 0,
        key: b"missing".to_vec(),
        value: RdbValue::String(b"eof".to_vec()),
        expire_ms: None,
    }];
    let mut encoded = encode_rdb(&entries, &[]);
    encoded.truncate(encoded.len() - (1 + RDB_CHECKSUM_LEN));

    assert!(decode_rdb(&encoded).is_err());
}

fn reversion_rdb(encoded: &mut [u8], version: &[u8; 4]) {
    encoded[5..9].copy_from_slice(version);
    let crc_at = encoded.len() - RDB_CHECKSUM_LEN;
    let crc = crc64_redis(&encoded[..crc_at]);
    encoded[crc_at..].copy_from_slice(&crc.to_le_bytes());
}

#[test]
fn rdb_rejects_too_new_version() {
    let entries = vec![RdbEntry {
        db: 0,
        key: b"version".to_vec(),
        value: RdbValue::String(b"too-new".to_vec()),
        expire_ms: None,
    }];
    let mut encoded = encode_rdb(&entries, &[]);
    reversion_rdb(&mut encoded, b"0099");
    assert_eq!(
        decode_rdb(&encoded).unwrap_err(),
        PersistError::InvalidFrame
    );

    let mut zero = encode_rdb(&entries, &[]);
    reversion_rdb(&mut zero, b"0000");
    assert_eq!(decode_rdb(&zero).unwrap_err(), PersistError::InvalidFrame);
}

#[test]
fn rdb_accepts_older_supported_versions() {
    let entries = vec![RdbEntry {
        db: 0,
        key: b"legacy-key".to_vec(),
        value: RdbValue::String(b"legacy-value".to_vec()),
        expire_ms: None,
    }];

    for ver in [b"0005", b"0009", b"0010", b"0011"] {
        let mut encoded = encode_rdb(&entries, &[]);
        reversion_rdb(&mut encoded, ver);
        let (decoded, _aux) = decode_rdb(&encoded)
            .unwrap_or_else(|e| panic!("RDB version {ver:?} must load: {e:?}"));
        assert_eq!(decoded, entries, "version {ver:?} round-trip");
    }
}

fn unhex(s: &str) -> Vec<u8> {
    (0..s.len())
        .step_by(2)
        .map(|i| u8::from_str_radix(&s[i..i + 2], 16).expect("valid hex"))
        .collect()
}

#[test]
fn rdb_decodes_legacy_ziplist_zipmap_quicklist_fixtures() {
    let hash_zl = "524544495330303039fa0972656469732d7665720b3235352e3235352e323535fa0a72656469732d62697473c040fa056374696d65c2c85c9660fa08757365642d6d656dc290ad0c00fa0c616f662d707265616d626c65c000fe00fb01000d04686173681b1b00000016000000040000026631040276310402663204027632ffff4f9cd1fd16699883";
    let (e, _) = decode_rdb(&unhex(hash_zl)).expect("hash-ziplist must load");
    assert_eq!(
        e,
        vec![RdbEntry {
            db: 0,
            key: b"hash".to_vec(),
            value: RdbValue::Hash(vec![
                (b"f1".to_vec(), b"v1".to_vec()),
                (b"f2".to_vec(), b"v2".to_vec()),
            ]),
            expire_ms: None,
        }]
    );

    let zset_zl = "524544495330303130fa0972656469732d7665720b3235352e3235352e323535fa0a72656469732d62697473c040fa056374696d65c262b71361fa08757365642d6d656dc250f40c00fa0c616f662d707265616d626c65c000fe00fb01000c047a736574191900000016000000040000036f6e6505f2020374776f05f3ffff1fb2fdf0997f9e19";
    let (e, _) = decode_rdb(&unhex(zset_zl)).expect("zset-ziplist must load");
    assert_eq!(
        by_bits(e),
        by_bits(vec![RdbEntry {
            db: 0,
            key: b"zset".to_vec(),
            value: RdbValue::SortedSet(vec![(b"one".to_vec(), double(1.0)), (b"two".to_vec(), double(2.0))]),
            expire_ms: None,
        }])
    );

    let hash_zm = "524544495330303033fe0009046861736810020266310200763102663202007632ffff";
    let (e, _) = decode_rdb(&unhex(hash_zm)).expect("hash-zipmap must load");
    assert_eq!(
        e,
        vec![RdbEntry {
            db: 0,
            key: b"hash".to_vec(),
            value: RdbValue::Hash(vec![
                (b"f1".to_vec(), b"v1".to_vec()),
                (b"f2".to_vec(), b"v2".to_vec()),
            ]),
            expire_ms: None,
        }]
    );

    let list_ql = "524544495330303038fa0972656469732d76657205342e302e39fa0a72656469732d62697473c040fa056374696d65c29f062661fa08757365642d6d656dc280920700fa0c616f662d707265616d626c65c000fe00fb02000e046c697374010d0d0000000a000000010000f8ff000178c007ff3572f8541ac4d740";
    let (e, _) = decode_rdb(&unhex(list_ql)).expect("list-quicklist must load");
    assert_eq!(
        e,
        vec![
            RdbEntry {
                db: 0,
                key: b"list".to_vec(),
                value: RdbValue::List(vec![b"7".to_vec()]),
                expire_ms: None,
            },
            RdbEntry {
                db: 0,
                key: b"x".to_vec(),
                value: RdbValue::String(b"7".to_vec()),
                expire_ms: None,
            },
        ]
    );
}

fn strip_stream_metadata(mut entries: Vec<RdbEntry>) -> Vec<RdbEntry> {
    for entry in &mut entries {
        if let RdbValue::Stream(_, _, _, metadata, _, _) = &mut entry.value {
            *metadata = None;
        }
    }
    entries
}

#[test]
fn stream_rdb_save_uses_upstream_compatible_type21() {
    let entries = vec![RdbEntry {
        db: 0,
        key: b"s".to_vec(),
        value: RdbValue::Stream(
            vec![(1, 0, vec![(b"f".to_vec(), b"v".to_vec())])],
            Some((1, 0)),
            Vec::new(),
            None,
            Some(1),
            None,
        ),
        expire_ms: None,
    }];
    let encoded = encode_rdb(&entries, &[]);
    let (decoded, _) = decode_rdb(&encoded).expect("decode");
    match &decoded[0].value {
        RdbValue::Stream(_, _, _, Some(md), _, _) => {
            assert_eq!(
                md.upstream_type_byte, UPSTREAM_RDB_TYPE_STREAM_LISTPACKS_3,
                "stream must SAVE as type 21 (STREAM_LISTPACKS_3)"
            );
        }
        other => panic!("expected type-21 stream metadata on decode, got {other:?}"),
    }
}

#[test]
fn rdb_round_trip_stream() {
    let entries = vec![RdbEntry {
        db: 0,
        key: b"mystream".to_vec(),
        value: RdbValue::Stream(
            vec![
                (
                    1000,
                    0,
                    vec![
                        (b"name".to_vec(), b"Alice".to_vec()),
                        (b"age".to_vec(), b"30".to_vec()),
                    ],
                ),
                (1001, 0, vec![(b"name".to_vec(), b"Bob".to_vec())]),
            ],
            Some((1001, 0)),
            Vec::new(),
            None,
            Some(2),
            None,
        ),
        expire_ms: None,
    }];
    let encoded = encode_rdb(&entries, &[]);
    let (decoded, _) = decode_rdb(&encoded).expect("decode");
    assert_eq!(by_bits(strip_stream_metadata(decoded)), by_bits(entries));
}

#[test]
fn rdb_round_trip_stream_preserves_max_deleted_entry_id() {
    let entries = vec![RdbEntry {
        db: 0,
        key: b"mystream".to_vec(),
        value: RdbValue::Stream(
            vec![(1001, 0, vec![(b"name".to_vec(), b"Bob".to_vec())])],
            Some((1001, 0)),
            Vec::new(),
            None,
            Some(2),
            Some((1000, 0)),
        ),
        expire_ms: None,
    }];
    let encoded = encode_rdb(&entries, &[]);
    let (decoded, _) = decode_rdb(&encoded).expect("decode");
    assert_eq!(by_bits(strip_stream_metadata(decoded)), by_bits(entries));
}

#[test]
fn rdb_round_trip_stream_no_watermark() {
    let entries = vec![RdbEntry {
        db: 0,
        key: b"emptystream".to_vec(),
        value: RdbValue::Stream(vec![], None, Vec::new(), None, Some(0), None),
        expire_ms: None,
    }];
    let encoded = encode_rdb(&entries, &[]);
    let (decoded, _) = decode_rdb(&encoded).expect("decode");
    assert_eq!(by_bits(strip_stream_metadata(decoded)), by_bits(entries));
}

#[test]
fn rdb_round_trip_stream_with_expiry() {
    let entries = vec![RdbEntry {
        db: 0,
        key: b"tempstream".to_vec(),
        value: RdbValue::Stream(
            vec![(5000, 1, vec![(b"field".to_vec(), b"value".to_vec())])],
            Some((5000, 1)),
            Vec::new(),
            None,
            Some(1),
            None,
        ),
        expire_ms: Some(9_999_999),
    }];
    let encoded = encode_rdb(&entries, &[]);
    let (decoded, _) = decode_rdb(&encoded).expect("decode");
    assert_eq!(by_bits(strip_stream_metadata(decoded)), by_bits(entries));
}

#[test]
fn rdb_round_trip_stream_with_consumer_groups() {
    let entries = vec![RdbEntry {
        db: 0,
        key: b"cg_stream".to_vec(),
        value: RdbValue::Stream(
            vec![
                (1000, 0, vec![(b"msg".to_vec(), b"hello".to_vec())]),
                (1001, 0, vec![(b"msg".to_vec(), b"world".to_vec())]),
            ],
            Some((1001, 0)),
            vec![RdbStreamConsumerGroup {
                name: b"mygroup".to_vec(),
                last_delivered_id_ms: 1001,
                last_delivered_id_seq: 0,
                entries_read: None,
                consumers: vec![
                    RdbStreamConsumer::named(b"alice".to_vec()),
                    RdbStreamConsumer::named(b"bob".to_vec()),
                ],
                pending: vec![
                    RdbStreamPendingEntry {
                        entry_id_ms: 1000,
                        entry_id_seq: 0,
                        consumer: b"alice".to_vec(),
                        deliveries: 2,
                        last_delivered_ms: 5000,
                    },
                    RdbStreamPendingEntry {
                        entry_id_ms: 1001,
                        entry_id_seq: 0,
                        consumer: b"bob".to_vec(),
                        deliveries: 1,
                        last_delivered_ms: 6000,
                    },
                ],
            }],
            None,
            Some(2),
            None,
        ),
        expire_ms: None,
    }];
    let encoded = encode_rdb(&entries, &[]);
    let (decoded, _) = decode_rdb(&encoded).expect("decode");
    assert_eq!(by_bits(strip_stream_metadata(decoded)), by_bits(entries));
}

#[test]
fn rdb_feature_encodes_streams_as_upstream_type21() {
    let entries = vec![RdbEntry {
        db: 0,
        key: b"cg_stream".to_vec(),
        value: RdbValue::Stream(
            vec![(1000, 0, vec![(b"msg".to_vec(), b"hello".to_vec())])],
            Some((1000, 0)),
            vec![RdbStreamConsumerGroup {
                name: b"mygroup".to_vec(),
                last_delivered_id_ms: 1000,
                last_delivered_id_seq: 0,
                entries_read: None,
                consumers: vec![RdbStreamConsumer::named(b"alice".to_vec())],
                pending: vec![RdbStreamPendingEntry {
                    entry_id_ms: 1000,
                    entry_id_seq: 0,
                    consumer: b"alice".to_vec(),
                    deliveries: 2,
                    last_delivered_ms: 5000,
                }],
            }],
            None,
            Some(1),
            None,
        ),
        expire_ms: None,
    }];

    let encoded = encode_rdb(&entries, &[]);

    assert_eq!(encoded[14], UPSTREAM_RDB_TYPE_STREAM_LISTPACKS_3);

    let (decoded, _) = decode_rdb(&encoded).expect("decode");
    assert_eq!(decoded.len(), 1);
    let RdbValue::Stream(
        decoded_entries,
        decoded_watermark,
        decoded_groups,
        metadata,
        decoded_entries_added,
        _,
    ) = &decoded[0].value
    else {
        panic!("expected decoded stream");
    };
    let RdbValue::Stream(
        expected_entries,
        expected_watermark,
        expected_groups,
        _,
        expected_entries_added,
        _,
    ) = &entries[0].value
    else {
        panic!("expected source stream");
    };
    assert_eq!(decoded_entries, expected_entries);
    assert_eq!(decoded_watermark, expected_watermark);
    assert_eq!(decoded_groups, expected_groups);
    assert_eq!(decoded_entries_added, expected_entries_added);
    assert!(
        metadata.is_some(),
        "upstream stream decode should retain raw payload metadata"
    );
}

#[test]
fn rdb_hash_with_ttls_uses_private_non_upstream_stream_type_tag() {
    let entries = vec![RdbEntry {
        db: 0,
        key: b"httl".to_vec(),
        value: RdbValue::HashWithTtls(vec![
            (b"persist".to_vec(), b"v0".to_vec(), None),
            (b"expiring".to_vec(), b"v1".to_vec(), Some(123_456)),
        ]),
        expire_ms: None,
    }];
    let encoded = encode_rdb(&entries, &[]);

    assert_eq!(encoded[14], RDB_TYPE_HASH_WITH_TTLS);
    assert_ne!(encoded[14], UPSTREAM_RDB_TYPE_STREAM_LISTPACKS_3);

    let (decoded, _) = decode_rdb(&encoded).expect("decode");
    assert_eq!(by_bits(strip_stream_metadata(decoded)), by_bits(entries));
}

#[test]
fn rdb_decodes_upstream_type21_stream_consumer_groups() {
    let mut payload = Vec::new();
    rdb_encode_length(&mut payload, 0);
    rdb_encode_length(&mut payload, 0);
    rdb_encode_length(&mut payload, 42);
    rdb_encode_length(&mut payload, 7);
    rdb_encode_length(&mut payload, 42);
    rdb_encode_length(&mut payload, 7);
    rdb_encode_length(&mut payload, 0);
    rdb_encode_length(&mut payload, 0);
    rdb_encode_length(&mut payload, 1);
    rdb_encode_length(&mut payload, 1);

    rdb_encode_string(&mut payload, b"g");
    rdb_encode_length(&mut payload, 42);
    rdb_encode_length(&mut payload, 7);
    rdb_encode_length(&mut payload, 1);
    rdb_encode_length(&mut payload, 1);
    rdb_encode_raw_stream_id(&mut payload, 42, 7);
    rdb_encode_millisecond_time(&mut payload, 1000);
    rdb_encode_length(&mut payload, 3);
    rdb_encode_length(&mut payload, 1);
    rdb_encode_string(&mut payload, b"alice");
    rdb_encode_millisecond_time(&mut payload, 1100);
    rdb_encode_millisecond_time(&mut payload, 1200);
    rdb_encode_length(&mut payload, 1);
    rdb_encode_raw_stream_id(&mut payload, 42, 7);

    let encoded =
        encode_single_raw_rdb_entry(UPSTREAM_RDB_TYPE_STREAM_LISTPACKS_3, b"stream", &payload);
    let (decoded, _) = decode_rdb(&encoded).expect("decode type21 stream");
    assert_eq!(
        decoded,
        vec![RdbEntry {
            db: 0,
            key: b"stream".to_vec(),
            value: RdbValue::Stream(
                Vec::new(),
                Some((42, 7)),
                vec![RdbStreamConsumerGroup {
                    name: b"g".to_vec(),
                    last_delivered_id_ms: 42,
                    last_delivered_id_seq: 7,
                    entries_read: Some(1),
                    consumers: vec![RdbStreamConsumer {
                        name: b"alice".to_vec(),
                        seen_time_ms: 1100,
                        active_time_ms: Some(1200),
                    }],
                    pending: vec![RdbStreamPendingEntry {
                        entry_id_ms: 42,
                        entry_id_seq: 7,
                        consumer: b"alice".to_vec(),
                        deliveries: 3,
                        last_delivered_ms: 1000,
                    }],
                }],
                Some(RdbStreamMetadata {
                    upstream_type_byte: UPSTREAM_RDB_TYPE_STREAM_LISTPACKS_3,
                    upstream_payload: payload.clone(),
                }),
                Some(1),
                None,
            ),
            expire_ms: None,
        }]
    );
}

#[test]
fn rdb_stream_decode_rejects_missing_group_count() {
    let entries = vec![RdbEntry {
        db: 0,
        key: b"cg_stream".to_vec(),
        value: RdbValue::Stream(
            vec![(1000, 0, vec![(b"msg".to_vec(), b"hello".to_vec())])],
            Some((1000, 0)),
            Vec::new(),
            None,
            Some(1),
            None,
        ),
        expire_ms: None,
    }];
    let mut encoded = encode_rdb(&entries, &[]);

    encoded.pop();
    assert!(decode_rdb(&encoded).is_err());
}

#[test]
fn rdb_round_trip_all_types_together() {
    let entries = vec![
        RdbEntry {
            db: 0,
            key: b"hsh".to_vec(),
            value: RdbValue::Hash(vec![(b"f".to_vec(), b"v".to_vec())]),
            expire_ms: None,
        },
        RdbEntry {
            db: 0,
            key: b"lst".to_vec(),
            value: RdbValue::List(vec![b"a".to_vec(), b"b".to_vec()]),
            expire_ms: None,
        },
        RdbEntry {
            db: 0,
            key: b"st".to_vec(),
            value: RdbValue::MemberSet(vec![b"x".to_vec(), b"y".to_vec()]),
            expire_ms: None,
        },
        RdbEntry {
            db: 0,
            key: b"str".to_vec(),
            value: RdbValue::String(b"hello".to_vec()),
            expire_ms: None,
        },
        RdbEntry {
            db: 0,
            key: b"strm".to_vec(),
            value: RdbValue::Stream(
                vec![(100, 0, vec![(b"k".to_vec(), b"v".to_vec())])],
                Some((100, 0)),
                Vec::new(),
                None,
                Some(1),
                None,
            ),
            expire_ms: Some(1_000_000),
        },
        RdbEntry {
            db: 0,
            key: b"zst".to_vec(),
            value: RdbValue::SortedSet(vec![(b"m".to_vec(), double(2.5))]),
            expire_ms: None,
        },
    ];
    let encoded = encode_rdb(&entries, &[("redis-ver", "7.2.0")]);
    let (decoded, aux) = decode_rdb(&encoded).expect("decode");
    assert_eq!(by_bits(strip_stream_metadata(decoded)), by_bits(entries));
    assert_eq!(aux.get("redis-ver").map(String::as_str), Some("7.2.0"));
}

#[test]
fn golden_rdb_magic_header() {
    let encoded = encode_rdb(&[], &[]);
    assert!(
        encoded.starts_with(b"REDIS0011"),
        "RDB magic header must start with REDIS0011"
    );
}

#[test]
fn golden_rdb_empty() {
    let encoded = encode_rdb(&[], &[]);

    assert_eq!(encoded.len(), 18, "Empty RDB should be 18 bytes");
    assert_eq!(&encoded[..9], b"REDIS0011", "RDB header must be REDIS0011");
    assert_eq!(encoded[9], 0xFF, "RDB EOF opcode must be 0xFF");
}

#[test]
fn golden_rdb_aux_field() {
    let encoded = encode_rdb(&[], &[("redis-ver", "7.0.0")]);

    assert!(
        encoded.starts_with(b"REDIS0011"),
        "RDB header must be REDIS0011"
    );

    assert_eq!(encoded[9], 0xFA, "AUX opcode must be 0xFA");
}

#[test]
fn golden_rdb_string_type() {
    let entries = vec![RdbEntry {
        db: 0,
        key: b"k".to_vec(),
        value: RdbValue::String(b"v".to_vec()),
        expire_ms: None,
    }];
    let encoded = encode_rdb(&entries, &[]);

    let pos = encoded.iter().position(|&b| b == 0x00).unwrap();
    assert!(
        pos < encoded.len() - 8,
        "String type opcode should appear before EOF"
    );
}

#[test]
fn golden_rdb_expiry_opcode() {
    let entries = vec![RdbEntry {
        db: 0,
        key: b"k".to_vec(),
        value: RdbValue::String(b"v".to_vec()),
        expire_ms: Some(1_000_000),
    }];
    let encoded = encode_rdb(&entries, &[]);

    assert!(
        encoded.contains(&0xFC),
        "RDB with expiry must contain EXPIRETIME_MS opcode (0xFC)"
    );
}

#[test]
fn golden_rdb_selectdb_opcode() {
    let entries = vec![RdbEntry {
        db: 3,
        key: b"k".to_vec(),
        value: RdbValue::String(b"v".to_vec()),
        expire_ms: None,
    }];
    let encoded = encode_rdb(&entries, &[]);

    assert!(
        encoded.contains(&0xFE),
        "RDB must contain SELECTDB opcode (0xFE)"
    );
}

#[test]
fn golden_rdb_resizedb_counts_multiple_databases() {
    let entries = vec![
        RdbEntry {
            db: 7,
            key: b"c".to_vec(),
            value: RdbValue::String(b"vc".to_vec()),
            expire_ms: Some(7000),
        },
        RdbEntry {
            db: 2,
            key: b"a".to_vec(),
            value: RdbValue::String(b"va".to_vec()),
            expire_ms: None,
        },
        RdbEntry {
            db: 9,
            key: b"d".to_vec(),
            value: RdbValue::String(b"vd".to_vec()),
            expire_ms: None,
        },
        RdbEntry {
            db: 2,
            key: b"b".to_vec(),
            value: RdbValue::String(b"vb".to_vec()),
            expire_ms: Some(2000),
        },
    ];
    let encoded = encode_rdb(&entries, &[]);
    let headers: Vec<[u8; 5]> = encoded
        .windows(5)
        .filter(|window| {
            window[0] == RDB_OPCODE_SELECTDB && window[2] == RDB_OPCODE_RESIZEDB
        })
        .map(|window| [window[0], window[1], window[2], window[3], window[4]])
        .collect();

    assert_eq!(
        headers,
        vec![
            [RDB_OPCODE_SELECTDB, 2, RDB_OPCODE_RESIZEDB, 2, 1],
            [RDB_OPCODE_SELECTDB, 7, RDB_OPCODE_RESIZEDB, 1, 1],
            [RDB_OPCODE_SELECTDB, 9, RDB_OPCODE_RESIZEDB, 1, 0],
        ],
    );
}

#[test]
fn golden_rdb_list_type() {
    let entries = vec![RdbEntry {
        db: 0,
        key: b"mylist".to_vec(),
        value: RdbValue::List(vec![b"a".to_vec(), b"b".to_vec()]),
        expire_ms: None,
    }];
    let encoded = encode_rdb(&entries, &[]);

    assert_eq!(
        type_byte_for_key(&encoded, b"mylist"),
        Some(RDB_TYPE_LIST_QUICKLIST_2),
        "RDB list must use LIST_QUICKLIST_2 (0x12)"
    );
}

#[test]
fn golden_rdb_set_type() {
    let entries = vec![RdbEntry {
        db: 0,
        key: b"myset".to_vec(),
        value: RdbValue::MemberSet(vec![b"x".to_vec()]),
        expire_ms: None,
    }];
    let encoded = encode_rdb(&entries, &[]);

    assert_eq!(
        type_byte_for_key(&encoded, b"myset"),
        Some(RDB_TYPE_SET_LISTPACK),
        "RDB non-integer set must use SET_LISTPACK (0x14)"
    );
}

#[test]
fn golden_rdb_hash_type() {
    let entries = vec![RdbEntry {
        db: 0,
        key: b"myhash".to_vec(),
        value: RdbValue::Hash(vec![(b"f".to_vec(), b"v".to_vec())]),
        expire_ms: None,
    }];
    let encoded = encode_rdb(&entries, &[]);

    assert_eq!(
        type_byte_for_key(&encoded, b"myhash"),
        Some(RDB_TYPE_HASH_LISTPACK),
        "RDB hash must use HASH_LISTPACK (0x10)"
    );
}

#[test]
fn golden_rdb_zset_type() {
    let entries = vec![RdbEntry {
        db: 0,
        key: b"myzset".to_vec(),
        value: RdbValue::SortedSet(vec![(b"member".to_vec(), double(1.5))]),
        expire_ms: None,
    }];
    let encoded = encode_rdb(&entries, &[]);

    assert_eq!(
        type_byte_for_key(&encoded, b"myzset"),
        Some(RDB_TYPE_ZSET_LISTPACK),
        "RDB sorted set must use ZSET_LISTPACK (0x11)"
    );
}

#[test]
fn golden_rdb_stream_type() {
    let entries = vec![RdbEntry {
        db: 0,
        key: b"mystream".to_vec(),
        value: RdbValue::Stream(vec![], None, Vec::new(), None, Some(0), None),
        expire_ms: None,
    }];
    let encoded = encode_rdb(&entries, &[]);

    assert!(
        encoded.contains(&0x0F),
        "RDB stream must have TYPE_STREAM (0x0F)"
    );
}

#[test]
fn golden_rdb_eof_marker() {
    let entries = vec![RdbEntry {
        db: 0,
        key: b"k".to_vec(),
        value: RdbValue::String(b"v".to_vec()),
        expire_ms: None,
    }];
    let encoded = encode_rdb(&entries, &[]);

    let eof_pos = encoded.len() - 9;
    assert_eq!(
        encoded[eof_pos], 0xFF,
        "RDB EOF marker must be 0xFF at position {}",
        eof_pos
    );
}

#[test]
fn golden_rdb_checksum_length() {
    let encoded = encode_rdb(&[], &[]);

    let checksum_bytes = &encoded[encoded.len() - 8..];
    assert_eq!(checksum_bytes.len(), 8, "RDB checksum must be 8 bytes");
}

/// The entries with each score as a double with its text.
fn with_texts(mut entries: Vec<RdbEntry>) -> Vec<RdbEntry> {
    for entry in &mut entries {
        if let RdbValue::SortedSet(members) = &mut entry.value {
            for member in members {
                member.1 = double(value_of(&member.1));
            }
        }
    }
    entries
}
