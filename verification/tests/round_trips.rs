//! Laws of the formats, on values.

use fr_persist::aof::{
    decode_aof_replay_stream, decode_aof_stream, encode_aof_stream, AofRecord,
    AofReplayTailFailure,
};
use fr_persist::aof_tail::{
    classify_aof_replay_tail_repair, trim_incomplete_multi_replay, AofReplaySegmentPosition,
    AofReplayTailRepairOutcome, AofReplayTailRepairPolicy,
};
use fr_persist::crc64::crc64_redis;
use fr_persist::intset::{decode_intset_members, encode_intset_blob};
use fr_persist::listpack_encode::encode_listpack_strings_blob;
use fr_persist::lzf::{lzf_compress, lzf_decompress};
use fr_persist::manifest::{parse_aof_manifest, AofManifest, AofManifestEntry, AofManifestFileType};
use fr_persist::manifest_format::format_aof_manifest;
use fr_persist::multipart::{new_aof_manifest, MultipartAofLoad};
use fr_persist::persist_error::PersistError;
use fr_persist::rdb_compact::CompactRdbThresholds;
use fr_persist::rdb_load::{decode_rdb, decode_rdb_prefix, decode_rdb_whole};
use fr_persist::rdb_save::{
    encode_rdb, encode_rdb_with_functions, encode_rdb_with_functions_and_thresholds,
    encode_rdb_with_options, RdbEncodeOptions,
};
use fr_persist::rdb_stream::{
    decode_upstream_stream_payload, decode_upstream_stream_skeleton, UpstreamStreamSkeleton,
    UPSTREAM_RDB_TYPE_STREAM_LISTPACKS_3,
};
use fr_persist::rdb_types::{
    RdbEntry, RdbStreamConsumer, RdbStreamConsumerGroup, RdbStreamPendingEntry, RdbValue,
    StreamEntry,
};
use fr_persist::rdb_wire::{
    rdb_decode_length, rdb_decode_string, rdb_encode_length, rdb_encode_string, rdb_length_size,
};
use fr_persist::resp::RespParseError;
use fr_persist::score::RdbScore;
use fr_persist::stream_encode::{
    encode_upstream_stream_listpacks3, encode_upstream_stream_listpacks3_payload,
};

fn entry(db: usize, key: &[u8], value: RdbValue) -> RdbEntry {
    RdbEntry { db, key: key.to_vec(), value, expire_ms: None }
}

fn text(s: &[u8]) -> RdbValue {
    RdbValue::String(s.to_vec())
}

fn record(words: &[&[u8]]) -> AofRecord {
    AofRecord { argv: words.iter().map(|w| w.to_vec()).collect() }
}

fn double(value: f64) -> RdbScore {
    RdbScore::Double { bits: value.to_bits(), text: format!("{value}").into_bytes() }
}

fn saved_and_loaded(value: RdbValue) -> RdbValue {
    let encoded = encode_rdb(&[entry(0, b"key", value)], &[]);
    let (mut entries, _) = decode_rdb(&encoded).expect("decode");
    assert_eq!(entries.len(), 1);
    entries.remove(0).value
}

#[test]
fn lengths_are_read_back() {
    for (n, size) in [
        (0usize, 1usize),
        (63, 1),
        (64, 2),
        (16_383, 2),
        (16_384, 5),
        (u32::MAX as usize, 5),
        (u32::MAX as usize + 1, 9),
        (usize::MAX, 9),
    ] {
        let mut buf = vec![7u8];
        rdb_encode_length(&mut buf, n);
        assert_eq!(buf.len(), 1 + size);
        assert_eq!(rdb_length_size(n), size);
        assert_eq!(rdb_decode_length(&buf, 1), Some((n as u64, buf.len())));
        assert_eq!(rdb_decode_length(&buf[..buf.len() - 1], 1), None);
    }
    let mut buf = Vec::new();
    rdb_encode_length(&mut buf, 1000);
    assert_eq!(buf, vec![0x43, 0xE8]);
    assert_eq!(rdb_decode_length(&[0x82, 0, 0], 0), None);
    assert_eq!(rdb_decode_length(&[], 0), None);
}

#[test]
fn strings_are_read_back() {
    for s in [
        b"".to_vec(),
        b"short".to_vec(),
        vec![b'a'; 20],
        vec![b'a'; 21],
        vec![b'x'; 10_000],
        (0..=255u8).collect::<Vec<u8>>(),
        b"12345".to_vec(),
    ] {
        let mut buf = vec![9u8, 9];
        rdb_encode_string(&mut buf, &s);
        assert_eq!(rdb_decode_string(&buf, 2), Some((s.clone(), buf.len())));
    }
    let mut packed = Vec::new();
    rdb_encode_string(&mut packed, &[b'x'; 10_000]);
    assert_eq!(packed[0], 0xC3);
    assert!(packed.len() < 300);
}

#[test]
fn integer_strings_are_read() {
    assert_eq!(rdb_decode_string(&[0xC0, 0xFF], 0), Some((b"-1".to_vec(), 2)));
    assert_eq!(rdb_decode_string(&[0xC1, 0x00, 0x80], 0), Some((b"-32768".to_vec(), 3)));
    assert_eq!(
        rdb_decode_string(&[0xC2, 0xFF, 0xFF, 0xFF, 0x7F], 0),
        Some((b"2147483647".to_vec(), 5))
    );
    assert_eq!(rdb_decode_string(&[0xC2, 0xFF, 0xFF, 0xFF], 0), None);
    assert_eq!(rdb_decode_string(&[0xC4], 0), None);
}

#[test]
fn compression_is_undone_and_keeps_to_its_budget() {
    let input: Vec<u8> = b"round and round and round and round it goes".to_vec();
    for budget in 0..64usize {
        if let Some(out) = lzf_compress(&input, budget) {
            assert!(!out.is_empty() && out.len() <= budget);
            assert_eq!(lzf_decompress(&out, input.len() as u64), Some(input.clone()));
            assert_eq!(lzf_decompress(&out, input.len() as u64 + 1), None);
        }
    }
    assert!(lzf_compress(&input, 63).is_some());
}

#[test]
fn integer_sets_are_read_back_in_order() {
    let blob = encode_intset_blob(&vec![300, -2, 7], 2).expect("three values");
    assert_eq!(blob, vec![2, 0, 0, 0, 3, 0, 0, 0, 0xFE, 0xFF, 7, 0, 0x2C, 0x01]);
    assert_eq!(
        decode_intset_members(&blob),
        Some(vec![b"-2".to_vec(), b"7".to_vec(), b"300".to_vec()])
    );
    let set = RdbValue::MemberSet(vec![b"300".to_vec(), b"-2".to_vec(), b"7".to_vec()]);
    assert_eq!(
        saved_and_loaded(set),
        RdbValue::MemberSet(vec![b"-2".to_vec(), b"7".to_vec(), b"300".to_vec()])
    );
}

#[test]
fn sets_stored_member_by_member_stay_so() {
    let members = vec![b"b".to_vec(), b"a".to_vec()];
    assert_eq!(
        saved_and_loaded(RdbValue::SetHashtable(members.clone())),
        RdbValue::SetHashtable(members.clone())
    );
    let wide: Vec<Vec<u8>> = (0..200).map(|i| format!("member-{i}").into_bytes()).collect();
    assert_eq!(
        saved_and_loaded(RdbValue::MemberSet(wide.clone())),
        RdbValue::SetHashtable(wide)
    );
}

#[test]
fn ready_packs_are_read_back_as_a_list() {
    let first = encode_listpack_strings_blob(&[b"a".as_slice(), b"17"]).expect("pack");
    let second = encode_listpack_strings_blob(&[b"b".as_slice()]).expect("pack");
    assert_eq!(
        saved_and_loaded(RdbValue::ListQuicklist2Packed(vec![first, second])),
        RdbValue::List(vec![b"a".to_vec(), b"17".to_vec(), b"b".to_vec()])
    );
}

#[test]
fn lists_keep_their_items_over_several_nodes() {
    let items: Vec<Vec<u8>> = (0..500usize).map(|i| vec![b'a' + (i % 26) as u8; i % 90]).collect();
    assert_eq!(saved_and_loaded(RdbValue::List(items.clone())), RdbValue::List(items));
    assert_eq!(saved_and_loaded(RdbValue::List(Vec::new())), RdbValue::List(Vec::new()));
}

#[test]
fn hashes_with_deadlines_are_read_back() {
    let fields = vec![
        (b"a".to_vec(), b"1".to_vec(), None),
        (b"b".to_vec(), b"2".to_vec(), Some(0)),
        (b"c".to_vec(), b"3".to_vec(), Some(u64::MAX - 1)),
    ];
    assert_eq!(
        saved_and_loaded(RdbValue::HashWithTtls(fields.clone())),
        RdbValue::HashWithTtls(fields)
    );
}

#[test]
fn sorted_sets_are_read_back_by_score() {
    let members = vec![
        (b"big".to_vec(), double(1e300)),
        (b"zero".to_vec(), double(-0.0)),
        (b"half".to_vec(), double(0.5)),
        (b"less".to_vec(), double(f64::NEG_INFINITY)),
        (b"most".to_vec(), double(f64::INFINITY)),
        (b"whole".to_vec(), double(-7.0)),
    ];
    let RdbValue::SortedSet(loaded) = saved_and_loaded(RdbValue::SortedSet(members.clone())) else {
        panic!("a sorted set");
    };
    assert_eq!(
        loaded,
        vec![
            (b"less".to_vec(), RdbScore::Decimal(b"-inf".to_vec())),
            (b"whole".to_vec(), RdbScore::Integer(-7)),
            (b"zero".to_vec(), RdbScore::Integer(0)),
            (b"half".to_vec(), RdbScore::Decimal(b"0.5".to_vec())),
            (b"big".to_vec(), RdbScore::Decimal(format!("{}", 1e300).into_bytes())),
            (b"most".to_vec(), RdbScore::Decimal(b"inf".to_vec())),
        ]
    );
    let plain = encode_rdb_with_options(
        &[entry(0, b"key", RdbValue::SortedSet(members.clone()))],
        &[],
        RdbEncodeOptions { compact: None },
    );
    let (entries, _) = decode_rdb(&plain).expect("decode");
    let RdbValue::SortedSet(loaded) = &entries[0].value else {
        panic!("a sorted set");
    };
    for (one, other) in loaded.iter().zip(members.iter()) {
        assert_eq!(one.0, other.0);
        let RdbScore::Double { bits, .. } = other.1 else {
            panic!("a double");
        };
        assert_eq!(one.1, RdbScore::Double { bits, text: Vec::new() });
    }
}

fn pending(ms: u64, consumer: &[u8], deliveries: u64) -> RdbStreamPendingEntry {
    RdbStreamPendingEntry {
        entry_id_ms: ms,
        entry_id_seq: 0,
        consumer: consumer.to_vec(),
        deliveries,
        last_delivered_ms: 10 * deliveries,
    }
}

fn group(pending: Vec<RdbStreamPendingEntry>) -> RdbStreamConsumerGroup {
    RdbStreamConsumerGroup {
        name: b"g".to_vec(),
        last_delivered_id_ms: 9,
        last_delivered_id_seq: 1,
        entries_read: Some(3),
        consumers: vec![
            RdbStreamConsumer { name: b"a".to_vec(), seen_time_ms: 5, active_time_ms: Some(6) },
            RdbStreamConsumer::named(b"b".to_vec()),
        ],
        pending,
    }
}

fn stream(groups: Vec<RdbStreamConsumerGroup>) -> RdbValue {
    RdbValue::Stream(
        vec![
            (1, 0, vec![(b"f".to_vec(), b"1".to_vec())]),
            (2, 0, vec![(b"f".to_vec(), b"x".to_vec()), (b"g".to_vec(), b"-3".to_vec())]),
        ],
        Some((2, 5)),
        groups,
        None,
        Some(9),
        Some((1, 7)),
    )
}

fn kept_bytes(value: &RdbValue) -> Option<u8> {
    match value {
        RdbValue::Stream(_, _, _, kept, _, _) => kept.as_ref().map(|m| m.upstream_type_byte),
        _ => None,
    }
}

fn without_bytes(value: RdbValue) -> RdbValue {
    match value {
        RdbValue::Stream(a, b, c, _, d, e) => RdbValue::Stream(a, b, c, None, d, e),
        other => other,
    }
}

#[test]
fn streams_that_lose_nothing_are_packed() {
    let value = stream(vec![group(vec![pending(1, b"a", 2), pending(2, b"b", 1)])]);
    let loaded = saved_and_loaded(value.clone());
    assert_eq!(kept_bytes(&loaded), Some(UPSTREAM_RDB_TYPE_STREAM_LISTPACKS_3));
    assert_eq!(without_bytes(loaded), value);
}

#[test]
fn streams_that_would_lose_something_are_plain() {
    let crossed = stream(vec![group(vec![pending(2, b"b", 1), pending(1, b"a", 2)])]);
    let loaded = saved_and_loaded(crossed.clone());
    assert_eq!(kept_bytes(&loaded), None);
    assert_eq!(loaded, crossed);
    let foreign = stream(vec![group(vec![pending(1, b"nobody", 2)])]);
    assert_eq!(saved_and_loaded(foreign.clone()), foreign);
}

#[test]
fn streams_are_written_back_byte_for_byte() {
    let encoded = encode_rdb(&[entry(0, b"s", stream(Vec::new()))], &[]);
    let (entries, _) = decode_rdb(&encoded).expect("decode");
    assert_eq!(encode_rdb(&entries, &[]), encoded);
}

#[test]
fn pending_entries_take_the_last_delivery_of_their_id() {
    let entries: Vec<StreamEntry> = vec![(1, 0, Vec::new())];
    let groups = vec![group(vec![pending(1, b"b", 4), pending(1, b"a", 2)])];
    let payload = encode_upstream_stream_listpacks3(&entries, Some((1, 0)), &groups, None, None)
        .expect("encodes");
    let (value, _) =
        decode_upstream_stream_skeleton(UPSTREAM_RDB_TYPE_STREAM_LISTPACKS_3, &payload)
            .expect("decodes");
    let RdbValue::Stream(_, _, loaded, _, _, _) = value else {
        panic!("a stream");
    };
    assert_eq!(loaded, vec![group(vec![pending(1, b"a", 2), pending(1, b"b", 2)])]);
}

#[test]
fn what_follows_a_stream_does_not_matter() {
    let entries: Vec<StreamEntry> = vec![(3, 4, vec![(b"k".to_vec(), b"v".to_vec())])];
    let mut payload =
        encode_upstream_stream_listpacks3(&entries, None, &[], None, None).expect("encodes");
    let n = payload.len();
    let alone = decode_upstream_stream_payload(UPSTREAM_RDB_TYPE_STREAM_LISTPACKS_3, &payload);
    payload.extend_from_slice(b"anything at all");
    let followed = decode_upstream_stream_payload(UPSTREAM_RDB_TYPE_STREAM_LISTPACKS_3, &payload);
    assert_eq!(alone, followed);
    let (value, consumed) = alone.expect("decodes");
    assert_eq!(consumed, n);
    let RdbValue::Stream(loaded, watermark, _, _, added, deleted) = value else {
        panic!("a stream");
    };
    assert_eq!(loaded, entries);
    assert_eq!(watermark, Some((3, 4)));
    assert_eq!(added, Some(1));
    assert_eq!(deleted, None);
    assert_eq!(decode_upstream_stream_payload(20, &payload), None);
}

#[test]
fn written_streams_pass_the_check() {
    let entries: Vec<StreamEntry> =
        (0..250u64).map(|i| (i / 3, i % 3, vec![(b"f".to_vec(), vec![b'v'; 40])])).collect();
    let payload =
        encode_upstream_stream_listpacks3(&entries, None, &[], None, None).expect("encodes");
    let (skeleton, _) =
        UpstreamStreamSkeleton::decode(UPSTREAM_RDB_TYPE_STREAM_LISTPACKS_3, &payload)
            .expect("decodes");
    assert_eq!(skeleton.validate_entries(), Ok(Some((83, 0))));
    assert_eq!(skeleton.declared_len(), 250);
    assert_eq!(skeleton.entries().expect("entries"), entries);
    let flat = skeleton.flat_entries().expect("entries");
    assert_eq!(flat.len(), 250);
    assert_eq!(flat.field_count(), 250);
    assert_eq!(flat.arena_hint(), 250 * (40 + 2));
    assert_eq!(flat.iter()[100].0, (33, 1));
    assert_eq!(skeleton.upstream_payload(), payload.as_slice());
}

#[test]
fn snapshots_are_read_back_in_the_order_of_keys() {
    let lib = b"#!lua name=l".as_slice();
    let given = vec![
        RdbEntry { expire_ms: Some(77), ..entry(1, b"b", text(b"2")) },
        entry(0, b"z", text(b"1")),
        entry(1, b"a", text(b"3")),
    ];
    let encoded = encode_rdb_with_functions(&given, &[("a", "1"), ("a", "2")], &[lib]);
    let loaded = decode_rdb_whole(&encoded).expect("decode");
    assert_eq!(loaded.entries, vec![given[1].clone(), given[2].clone(), given[0].clone()]);
    assert_eq!(loaded.aux.get("a").map(String::as_str), Some("2"));
    assert_eq!(loaded.aux.pairs().len(), 1);
    assert_eq!(loaded.functions, vec![lib.to_vec()]);
    assert_eq!(loaded.consumed, encoded.len());
}

#[test]
fn the_order_of_entries_does_not_matter() {
    let a = entry(0, b"a", text(b"1"));
    let b = entry(0, b"b", text(b"2"));
    let c = entry(2, b"a", text(b"3"));
    let one = encode_rdb(&[a.clone(), b.clone(), c.clone()], &[]);
    assert_eq!(one, encode_rdb(&[c.clone(), a.clone(), b.clone()], &[]));
    assert_eq!(one, encode_rdb(&[b, c, a], &[]));
}

#[test]
fn snapshots_end_with_their_checksum() {
    let encoded = encode_rdb(&[entry(0, b"k", text(b"v"))], &[("x", "y")]);
    let n = encoded.len() - 8;
    assert_eq!(encoded[n..], crc64_redis(&encoded[..n]).to_le_bytes());
}

#[test]
fn wrong_checksums_and_cut_snapshots_are_rejected() {
    let encoded = encode_rdb(&[entry(0, b"k", text(b"v"))], &[]);
    let n = encoded.len();
    for at in n - 8..n {
        let mut bad = encoded.clone();
        bad[at] ^= 1;
        assert_eq!(decode_rdb(&bad), Err(PersistError::InvalidFrame));
    }
    for cut in 0..n {
        assert_eq!(decode_rdb(&encoded[..cut]), Err(PersistError::InvalidFrame));
    }
    let mut unchecked = encoded.clone();
    unchecked[n - 8..].copy_from_slice(&[0; 8]);
    assert!(decode_rdb(&unchecked).is_ok());
}

#[test]
fn names_do_not_change_entries() {
    let entries = vec![entry(0, b"k", text(b"v")), entry(3, b"l", text(b"w"))];
    let (one, _) = decode_rdb(&encode_rdb(&entries, &[])).expect("decode");
    let (other, aux) = decode_rdb(&encode_rdb(&entries, &[("p", "q"), ("\u{e9}", "\u{4e2d}")]))
        .expect("decode");
    assert_eq!(one, other);
    assert_eq!(aux.get("\u{e9}").map(String::as_str), Some("\u{4e2d}"));
    assert!(aux.get("missing").is_none());
}

#[test]
fn thresholds_decide_between_the_forms() {
    let hash = entry(0, b"h", RdbValue::Hash(vec![(b"f".to_vec(), b"v".to_vec())]));
    let packed = CompactRdbThresholds::default();
    let plain = CompactRdbThresholds { hash_max_listpack_entries: 0, ..packed };
    let a = encode_rdb_with_functions_and_thresholds(&[hash.clone()], &[], &[], packed);
    let b = encode_rdb_with_functions_and_thresholds(&[hash.clone()], &[], &[], plain);
    assert_eq!(a[14], 16);
    assert_eq!(b[14], 4);
    assert_eq!(decode_rdb(&a).expect("a").0, vec![hash.clone()]);
    assert_eq!(decode_rdb(&b).expect("b").0, vec![hash]);
}

#[test]
fn logs_are_replayed_up_to_a_torn_record() {
    let front = vec![record(&[b"SET", b"k", b"a\r\nb"]), record(&[b""])];
    let last = record(&[b"RPUSH", b"list", b"0123456789"]);
    let whole = encode_aof_stream(&front);
    let tail = encode_aof_stream(&[last]);
    for k in 1..tail.len() {
        let mut data = whole.clone();
        data.extend_from_slice(&tail[..k]);
        let outcome = classify_aof_replay_tail_repair(
            &data,
            AofReplaySegmentPosition::Final,
            AofReplayTailRepairPolicy::BoundedFinalSegment { max_tail_bytes: k },
        );
        let AofReplayTailRepairOutcome::Repaired(repair) = outcome else {
            panic!("a torn record is cut off");
        };
        assert_eq!(repair.truncated_from_offset, whole.len());
        assert_eq!(repair.truncated_bytes, k);
        assert_eq!(repair.failure, AofReplayTailFailure::Parse(RespParseError::Incomplete));
        assert_eq!(repair.records.len(), 2);
        assert_eq!(repair.records[0].record, front[0]);
        assert_eq!(repair.records[1].end_offset, whole.len());
    }
}

#[test]
fn logs_are_joined_by_joining_their_bytes() {
    let one = vec![record(&[b"A"]), record(&[b"B", b"1"])];
    let other = vec![record(&[b"C", b"", b"2"])];
    let mut joined = one.clone();
    joined.extend(other.clone());
    let mut bytes = encode_aof_stream(&one);
    bytes.extend(encode_aof_stream(&other));
    assert_eq!(encode_aof_stream(&joined), bytes);
    assert_eq!(decode_aof_stream(&bytes), Ok(joined));
    assert_eq!(encode_aof_stream(&[]), Vec::<u8>::new());
    assert_eq!(decode_aof_stream(&[]), Ok(Vec::new()));
}

#[test]
fn the_length_of_a_record_is_that_of_its_bytes() {
    for argv in [vec![], vec![b"".to_vec()], vec![b"SET".to_vec(), vec![b'x'; 1234]]] {
        let record = AofRecord { argv };
        assert_eq!(record.encoded_resp_len(), record.to_resp_frame().to_bytes().len());
        assert_eq!(record.encoded_resp_len(), encode_aof_stream(&[record]).len());
    }
}

#[test]
fn a_log_behind_a_snapshot_is_replayed() {
    let entries = vec![entry(4, b"k", text(b"v"))];
    let mut data = encode_rdb(&entries, &[]);
    let n = data.len();
    data.extend(encode_aof_stream(&[record(&[b"DEL", b"k"])]));
    let stream = decode_aof_replay_stream(&data).expect("decode");
    assert_eq!(stream.rdb_preamble.expect("snapshot").entries, entries);
    assert_eq!(stream.records.len(), 1);
    assert_eq!(stream.records[0].start_offset, n);
    assert_eq!(stream.records[0].end_offset, data.len());
}

#[test]
fn trimming_leaves_no_open_transaction() {
    let records = vec![
        record(&[b"MULTI"]),
        record(&[b"SET", b"a", b"1"]),
        record(&[b"eXeC"]),
        record(&[b"mUlTi"]),
        record(&[b"MULTI"]),
    ];
    let data = encode_aof_stream(&records);
    let stream = decode_aof_replay_stream(&data).expect("decode");
    let trimmed = trim_incomplete_multi_replay(&stream.records);
    assert_eq!(trimmed.records.len(), 3);
    assert_eq!(trimmed.truncated_from_offset, Some(stream.records[3].start_offset));
    let again = trim_incomplete_multi_replay(&trimmed.records);
    assert_eq!(again.records, trimmed.records);
    assert_eq!(again.truncated_from_offset, None);
}

fn row(file_name: &str, file_seq: u64, file_type: AofManifestFileType) -> AofManifestEntry {
    AofManifestEntry { file_name: file_name.to_string(), file_seq, file_type }
}

#[test]
fn manifests_are_read_back() {
    let manifest = AofManifest {
        base: Some(row("a base.rdb", 4, AofManifestFileType::Base)),
        history: vec![row("old\"name\".aof", 2, AofManifestFileType::History)],
        incremental: vec![
            row("tab\tand\nline.aof", 5, AofManifestFileType::Incremental),
            row("\u{1}odd\u{7f}.aof", 6, AofManifestFileType::Incremental),
        ],
        curr_base_file_seq: 4,
        curr_incr_file_seq: 6,
    };
    let text = format_aof_manifest(&manifest);
    assert_eq!(parse_aof_manifest(&text), Ok(manifest));
}

#[test]
fn names_in_manifests_are_read_byte_by_byte() {
    let manifest = parse_aof_manifest("file caf\u{e9}.aof seq 1 type i\n").expect("parses");
    assert_eq!(manifest.incremental[0].file_name, "caf\u{c3}\u{a9}.aof");
    let plain = AofManifest {
        incremental: vec![row("\u{e9}", 1, AofManifestFileType::Incremental)],
        curr_incr_file_seq: 1,
        ..AofManifest::default()
    };
    assert_eq!(format_aof_manifest(&plain), "file \u{e9} seq 1 type i\n");
    let quoted = AofManifest {
        incremental: vec![row("\u{e9} x", 1, AofManifestFileType::Incremental)],
        curr_incr_file_seq: 1,
        ..AofManifest::default()
    };
    assert_eq!(format_aof_manifest(&quoted), "file \"\u{c3}\u{a9} x\" seq 1 type i\n");
}

#[test]
fn new_logs_are_loaded() {
    let manifest = new_aof_manifest("log", 12);
    assert_eq!(parse_aof_manifest(&format_aof_manifest(&manifest)).as_ref(), Ok(&manifest));
    let rows = manifest.replay_entries();
    assert_eq!(rows[0].file_name, "log.12.base.rdb");
    assert_eq!(rows[1].file_name, "log.12.incr.aof");
    let entries = vec![entry(0, b"k", text(b"v"))];
    let mut load = MultipartAofLoad::default();
    load.take_file(rows[0], &encode_rdb(&entries, &[])).expect("base");
    load.take_file(rows[1], &encode_aof_stream(&[record(&[b"PING"])])).expect("increment");
    load.take_file(rows[1], &[]).expect("an empty file adds nothing");
    assert_eq!(load.base_rdb_entries, entries);
    assert_eq!(load.records, vec![record(&[b"PING"])]);
    assert_eq!(load.take_file(rows[0], b"junk"), Err(PersistError::InvalidFrame));
    let plain = row("log.base.aof", 1, AofManifestFileType::Base);
    load.take_file(&plain, &encode_aof_stream(&[record(&[b"PONG"])])).expect("plain base");
    assert_eq!(load.records.len(), 2);
}

#[test]
fn snapshots_leave_what_follows_alone() {
    let mut data = encode_rdb(&[entry(0, b"k", text(b"v"))], &[]);
    let n = data.len();
    data.extend_from_slice(b"REDIS");
    assert_eq!(decode_rdb_prefix(&data).expect("prefix").consumed, n);
    assert_eq!(decode_rdb_whole(&data), Err(PersistError::InvalidFrame));
    assert_eq!(decode_rdb(&data), Err(PersistError::InvalidFrame));
}

#[test]
fn groups_are_taken_out_of_a_stream() {
    let entries: Vec<StreamEntry> = vec![(1, 0, Vec::new()), (2, 0, Vec::new())];
    let groups = vec![group(vec![pending(1, b"a", 2), pending(2, b"b", 1)])];
    let payload =
        encode_upstream_stream_listpacks3_payload(&entries, Some((2, 0)), &groups, None, None)
            .expect("encodes");
    assert_eq!(
        encode_upstream_stream_listpacks3(&entries, Some((2, 0)), &groups, None, None),
        Some(payload.clone())
    );
    let (skeleton, consumed) =
        UpstreamStreamSkeleton::decode(UPSTREAM_RDB_TYPE_STREAM_LISTPACKS_3, &payload)
            .expect("decodes");
    assert_eq!(consumed, payload.len());
    assert_eq!(skeleton.into_groups(), groups);
}
