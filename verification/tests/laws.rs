//! Declared lengths, what stands behind a value, and what is taken whole.

use fr_persist::aof::{decode_aof_replay_stream, encode_aof_stream, AofRecord};
use fr_persist::crc64::crc64_redis;
use fr_persist::intset::encode_intset_blob;
use fr_persist::listpack::ListpackError;
use fr_persist::manifest::parse_aof_manifest;
use fr_persist::manifest_format::format_aof_manifest;
use fr_persist::multipart::{new_aof_manifest, MultipartAofLoad};
use fr_persist::rdb_load::{decode_rdb, decode_rdb_prefix};
use fr_persist::rdb_save::{encode_rdb, encode_rdb_with_options, RdbEncodeOptions};
use fr_persist::rdb_stream::{
    UpstreamStreamError, UpstreamStreamSkeleton, UPSTREAM_RDB_TYPE_STREAM_LISTPACKS,
    UPSTREAM_RDB_TYPE_STREAM_LISTPACKS_3,
};
use fr_persist::rdb_types::{
    RdbEntry, RdbStreamConsumer, RdbStreamConsumerGroup, RdbStreamPendingEntry, RdbValue,
    StreamEntry,
};
use fr_persist::score::RdbScore;
use fr_persist::stream_encode::encode_upstream_stream_listpacks3;
use fr_persist::stream_unpack::StreamOut;

fn entry(db: usize, key: &[u8], value: RdbValue) -> RdbEntry {
    RdbEntry { db, key: key.to_vec(), value, expire_ms: None }
}

fn two_entries() -> Vec<StreamEntry> {
    vec![
        (7, 1, vec![(b"k".to_vec(), b"v".to_vec())]),
        (2, 9, vec![(b"k".to_vec(), b"w".to_vec()), (b"l".to_vec(), b"5".to_vec())]),
    ]
}

fn one_group() -> RdbStreamConsumerGroup {
    RdbStreamConsumerGroup {
        name: b"readers".to_vec(),
        last_delivered_id_ms: 7,
        last_delivered_id_seq: 1,
        entries_read: Some(2),
        consumers: vec![RdbStreamConsumer {
            name: b"ann".to_vec(),
            seen_time_ms: 11,
            active_time_ms: Some(12),
        }],
        pending: vec![RdbStreamPendingEntry {
            entry_id_ms: 7,
            entry_id_seq: 1,
            consumer: b"ann".to_vec(),
            deliveries: 3,
            last_delivered_ms: 13,
        }],
    }
}

#[test]
fn declared_lengths_are_checked() {
    let data = [0, 5, 0, 0, 0];
    let (skeleton, n) =
        UpstreamStreamSkeleton::decode(UPSTREAM_RDB_TYPE_STREAM_LISTPACKS, &data).expect("decodes");
    assert_eq!(n, 5);
    assert_eq!(skeleton.declared_len(), 5);
    assert_eq!(skeleton.validate_entries(), Err(UpstreamStreamError::InconsistentEntryCount));
    assert!(matches!(
        skeleton.flat_entries(),
        Err(UpstreamStreamError::InconsistentEntryCount)
    ));
    assert_eq!(skeleton.owned_entries(), Ok(Vec::new()));
    let empty = [0, 0, 0, 0, 0];
    let (skeleton, _) = UpstreamStreamSkeleton::decode(UPSTREAM_RDB_TYPE_STREAM_LISTPACKS, &empty)
        .expect("decodes");
    assert_eq!(skeleton.validate_entries(), Ok(None));
    assert_eq!(skeleton.flat_entries().expect("no entries").len(), 0);
}

#[test]
fn both_ways_of_unpacking_agree() {
    let payload = encode_upstream_stream_listpacks3(&two_entries(), None, &[], None, None)
        .expect("encodes");
    let (skeleton, n) =
        UpstreamStreamSkeleton::decode(UPSTREAM_RDB_TYPE_STREAM_LISTPACKS_3, &payload)
            .expect("decodes");
    assert_eq!(n, payload.len());
    let owned = skeleton.owned_entries().expect("entries");
    let flat = skeleton.flat_entries().expect("entries");
    assert_eq!(owned, vec![two_entries()[1].clone(), two_entries()[0].clone()]);
    let listed: Vec<StreamEntry> =
        flat.iter().into_iter().map(|(id, fields)| (id.0, id.1, fields.to_vec())).collect();
    assert_eq!(listed, owned);
    assert_eq!(flat.ids(), vec![(2, 9), (7, 1)]);
    assert_eq!(flat.field_count(), 3);
    assert_eq!(skeleton.validate_entries(), Ok(Some((7, 1))));
    assert_eq!(skeleton.declared_len(), flat.len() as u64);
}

#[test]
fn skeletons_are_local_and_copied() {
    let mut payload =
        encode_upstream_stream_listpacks3(&two_entries(), Some((9, 9)), &[one_group()], Some(4), None)
            .expect("encodes");
    let alone = UpstreamStreamSkeleton::decode(UPSTREAM_RDB_TYPE_STREAM_LISTPACKS_3, &payload)
        .expect("decodes");
    let n = payload.len();
    assert_eq!(alone.1, n);
    assert_eq!(alone.0.groups(), [one_group()].as_slice());
    payload.extend_from_slice(&[0xFF; 20]);
    let followed = UpstreamStreamSkeleton::decode(UPSTREAM_RDB_TYPE_STREAM_LISTPACKS_3, &payload)
        .expect("decodes");
    assert_eq!(alone, followed);
    let copy = alone.0.clone();
    assert_eq!(copy, alone.0);
    assert_eq!(copy.upstream_payload(), &payload[..n]);
    for cut in 0..n {
        assert!(UpstreamStreamSkeleton::decode(
            UPSTREAM_RDB_TYPE_STREAM_LISTPACKS_3,
            &payload[..cut]
        )
        .is_err());
    }
}

#[test]
fn all_ones_stand_for_no_number() {
    let mut group = one_group();
    group.entries_read = Some(u64::MAX);
    group.consumers[0].active_time_ms = Some(u64::MAX);
    let payload =
        encode_upstream_stream_listpacks3(&two_entries(), None, &[group.clone()], None, None)
            .expect("encodes");
    let (skeleton, n) =
        UpstreamStreamSkeleton::decode(UPSTREAM_RDB_TYPE_STREAM_LISTPACKS_3, &payload)
            .expect("decodes");
    assert_eq!(n, payload.len());
    group.entries_read = None;
    group.consumers[0].active_time_ms = None;
    assert_eq!(skeleton.into_groups(), vec![group]);
}

#[test]
fn defaults_and_conversions_of_streams() {
    let out = StreamOut::default();
    assert_eq!(out.len(), 0);
    assert_eq!(out.field_count(), 0);
    assert_eq!(out.arena_hint(), 0);
    assert!(out.ids().is_empty());
    assert_eq!(
        UpstreamStreamError::from(ListpackError::ShortHeader),
        UpstreamStreamError::InvalidListpack(ListpackError::ShortHeader)
    );
}

#[test]
fn integers_that_do_not_fit_make_no_set() {
    assert_eq!(encode_intset_blob(&vec![1, 40_000], 2), None);
    assert_eq!(encode_intset_blob(&vec![-32_768, 32_767], 2).map(|b| b.len()), Some(12));
    assert_eq!(encode_intset_blob(&vec![40_000], 4).map(|b| b.len()), Some(12));
    assert_eq!(encode_intset_blob(&vec![1 << 40], 4), None);
    assert_eq!(encode_intset_blob(&vec![1 << 40], 8).map(|b| b.len()), Some(16));
}

#[test]
fn snapshots_have_a_frame() {
    let empty = encode_rdb(&[], &[]);
    assert_eq!(empty.len(), 18);
    for data in [empty, encode_rdb(&[entry(3, b"k", RdbValue::List(vec![b"i".to_vec()]))], &[])] {
        let n = data.len();
        assert_eq!(&data[..9], b"REDIS0011");
        assert_eq!(data[n - 9], 0xFF);
        assert_eq!(data[n - 8..], crc64_redis(&data[..n - 8]).to_le_bytes());
    }
}

#[test]
fn bytes_behind_a_snapshot_change_nothing() {
    let stream = RdbValue::Stream(two_entries(), None, vec![one_group()], None, None, None);
    let scores = RdbValue::SetHashtable(vec![b"m".to_vec(), vec![b'x'; 100]]);
    let entries = vec![entry(0, b"s", stream), entry(1, b"t", scores)];
    let mut data = encode_rdb(&entries, &[("a", "b")]);
    let alone = decode_rdb_prefix(&data).expect("prefix");
    assert_eq!(alone.consumed, data.len());
    data.extend_from_slice(&[0xFA; 30]);
    let followed = decode_rdb_prefix(&data).expect("prefix");
    assert_eq!(alone, followed);
    let old = *b"REDIS0003\xFF-------";
    assert_eq!(decode_rdb_prefix(&old).expect("no checksum").consumed, 10);
    assert!(decode_rdb_prefix(&old[..10]).is_err());
}

#[test]
fn plain_snapshots_come_back_as_they_are() {
    let long = vec![b'z'; 9000];
    let many: Vec<Vec<u8>> = (0..700u32).map(|i| format!("item {i}").into_bytes()).collect();
    let entries = vec![
        entry(0, b"a", RdbValue::String(long.clone())),
        entry(0, b"b", RdbValue::List(many)),
        entry(0, b"c", RdbValue::Hash(vec![(b"f".to_vec(), b"1".to_vec())])),
        entry(2, b"a", RdbValue::Hash(vec![(b"f".to_vec(), long)])),
        entry(2, b"b", RdbValue::HashWithTtls(vec![
            (b"f".to_vec(), b"v".to_vec(), Some(5)),
            (b"g".to_vec(), b"w".to_vec(), None),
        ])),
    ];
    let data = encode_rdb(&entries, &[("redis-ver", "7.2.0"), ("redis-bits", "64")]);
    let (loaded, aux) = decode_rdb(&data).expect("decode");
    assert_eq!(loaded, entries);
    assert_eq!(aux.get("redis-ver").map(|v| v.as_str()), Some("7.2.0"));
    assert_eq!(aux.get("redis-bits").map(|v| v.as_str()), Some("64"));
    assert_eq!(aux.pairs().len(), 2);
}

#[test]
fn a_log_behind_any_accepted_snapshot_is_replayed() {
    let stream = RdbValue::Stream(two_entries(), None, vec![one_group()], None, None, None);
    let mut data = encode_rdb(&[entry(0, b"s", stream)], &[]);
    let n = data.len();
    let alone = decode_rdb_prefix(&data).expect("prefix");
    let records = vec![
        AofRecord { argv: vec![b"XTRIM".to_vec(), b"s".to_vec()] },
        AofRecord { argv: vec![b"PING".to_vec()] },
    ];
    data.extend(encode_aof_stream(&records));
    let replay = decode_aof_replay_stream(&data).expect("replay");
    assert_eq!(replay.rdb_preamble.expect("snapshot").entries, alone.entries);
    assert_eq!(replay.records.len(), 2);
    assert_eq!(replay.records[0].start_offset, n);
    assert_eq!(replay.records[0].end_offset, replay.records[1].start_offset);
    assert_eq!(replay.records[1].end_offset, data.len());
    assert_eq!(replay.records[1].record, records[1]);
}

#[test]
fn new_logs_come_back_from_their_files() {
    let name = "n".repeat(400);
    let manifest = new_aof_manifest(&name, 3);
    let read = parse_aof_manifest(&format_aof_manifest(&manifest)).expect("manifest");
    assert_eq!(read, manifest);
    let entries = vec![entry(0, b"k", RdbValue::String(b"v".to_vec()))];
    let records = vec![AofRecord { argv: vec![b"GET".to_vec(), b"k".to_vec()] }];
    let rows = read.replay_entries();
    let mut load = MultipartAofLoad::default();
    load.take_file(rows[0], &encode_rdb(&entries, &[])).expect("base");
    load.take_file(rows[1], &encode_aof_stream(&records)).expect("increment");
    assert_eq!(load.base_rdb_entries, entries);
    assert_eq!(load.records, records);
    let quoted = new_aof_manifest("a \"b\"", 1);
    assert_eq!(parse_aof_manifest(&format_aof_manifest(&quoted)), Ok(quoted));
}

fn double(value: f64) -> RdbScore {
    RdbScore::Double { bits: value.to_bits(), text: format!("{value}").into_bytes() }
}

fn loaded(value: RdbValue, compact: bool) -> RdbValue {
    let entries = [entry(0, b"k", value)];
    let data = if compact {
        encode_rdb(&entries, &[])
    } else {
        encode_rdb_with_options(&entries, &[], RdbEncodeOptions { compact: None })
    };
    decode_rdb(&data).expect("decode").0.remove(0).value
}

#[test]
fn sets_keep_their_members() {
    let sets: [Vec<&[u8]>; 3] = [
        vec![b"70000", b"-1", b"5", b"5000000000"],
        vec![b"word", b"-1", b"05"],
        vec![b"a", &[b'x'; 90]],
    ];
    for members in sets {
        let mut members: Vec<Vec<u8>> = members.into_iter().map(|m| m.to_vec()).collect();
        for compact in [true, false] {
            let mut found = match loaded(RdbValue::MemberSet(members.clone()), compact) {
                RdbValue::MemberSet(found) | RdbValue::SetHashtable(found) => found,
                other => panic!("expected a set, got {other:?}"),
            };
            found.sort();
            members.sort();
            assert_eq!(found, members);
        }
    }
}

#[test]
fn sorted_sets_keep_their_members() {
    let members = vec![
        (b"c".to_vec(), double(3.0)),
        (b"a".to_vec(), double(-2.5)),
        (b"b".to_vec(), double(2e18)),
        (b"d".to_vec(), double(-1e18)),
    ];
    let packed = loaded(RdbValue::SortedSet(members.clone()), true);
    assert_eq!(
        packed,
        RdbValue::SortedSet(vec![
            (b"d".to_vec(), RdbScore::Integer(-1_000_000_000_000_000_000)),
            (b"a".to_vec(), RdbScore::Decimal(b"-2.5".to_vec())),
            (b"c".to_vec(), RdbScore::Integer(3)),
            (b"b".to_vec(), RdbScore::Integer(2_000_000_000_000_000_000)),
        ])
    );
    let RdbValue::SortedSet(mut bare) = loaded(RdbValue::SortedSet(members.clone()), false) else {
        panic!("a sorted set");
    };
    for (one, other) in bare.iter_mut().zip(&members) {
        let RdbScore::Double { bits, text } = &mut one.1 else {
            panic!("a double");
        };
        assert!(text.is_empty());
        *text = format!("{}", f64::from_bits(*bits)).into_bytes();
        assert_eq!(one, other);
    }
    assert_eq!(loaded(RdbValue::SortedSet(bare), true), packed);
}

#[test]
fn a_sorted_set_with_a_nan_is_written_by_its_bits() {
    let members =
        vec![(b"n".to_vec(), double(f64::NAN)), (b"h".to_vec(), double(0.5))];
    let bits = |v: f64| RdbScore::Double { bits: v.to_bits(), text: Vec::new() };
    assert_eq!(
        loaded(RdbValue::SortedSet(members), true),
        RdbValue::SortedSet(vec![
            (b"n".to_vec(), bits(f64::NAN)),
            (b"h".to_vec(), bits(0.5)),
        ])
    );
}
