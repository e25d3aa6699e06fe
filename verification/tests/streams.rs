//! Stored streams: writing, reading, and checking them.

use fr_persist::listpack::{LISTPACK_EOF, LISTPACK_HEADER_SIZE};
use fr_persist::rdb_stream::{
    decode_upstream_stream_skeleton, UpstreamStreamError, UpstreamStreamSkeleton,
    UPSTREAM_RDB_TYPE_STREAM_LISTPACKS, UPSTREAM_RDB_TYPE_STREAM_LISTPACKS_2,
    UPSTREAM_RDB_TYPE_STREAM_LISTPACKS_3,
};
use fr_persist::rdb_types::{
    RdbStreamConsumer, RdbStreamConsumerGroup, RdbStreamPendingEntry, RdbValue, StreamEntry,
};
use fr_persist::rdb_wire::rdb_encode_length;
use fr_persist::stream_encode::encode_upstream_stream_listpacks3;
use fr_persist::stream_node::{STREAM_ITEM_FLAG_DELETED, STREAM_ITEM_FLAG_SAMEFIELDS};

#[test]
fn validate_entries_rejects_duplicate_ids_and_accepts_reordered_unique_ones() {
    let dup: Vec<StreamEntry> = vec![
        (7, 1, vec![(b"f".to_vec(), b"a".to_vec())]),
        (7, 1, vec![(b"f".to_vec(), b"b".to_vec())]),
    ];
    if let Some((skeleton, _)) =
        encode_upstream_stream_listpacks3(&dup, Some((7, 1)), &[], Some(2), None)
            .and_then(|payload| UpstreamStreamSkeleton::decode(UPSTREAM_RDB_TYPE_STREAM_LISTPACKS_3, &payload).ok())
    {
        assert!(
            skeleton.validate_entries().is_err(),
            "a payload with two entries at 7-1 must be rejected"
        );
    }

    let reordered: Vec<StreamEntry> = vec![
        (9, 1, vec![(b"f".to_vec(), b"a".to_vec())]),
        (3, 1, vec![(b"f".to_vec(), b"b".to_vec())]),
    ];
    if let Some((skeleton, _)) =
        encode_upstream_stream_listpacks3(&reordered, Some((9, 1)), &[], Some(2), None)
            .and_then(|payload| UpstreamStreamSkeleton::decode(UPSTREAM_RDB_TYPE_STREAM_LISTPACKS_3, &payload).ok())
    {
        assert_eq!(
            skeleton.validate_entries().is_ok(),
            skeleton.flat_entries().is_ok(),
            "reordered-but-unique ids must be accepted"
        );
    }
}

#[test]
fn validate_entries_accepts_and_rejects_exactly_what_flat_entries_does() {
    let entries: Vec<StreamEntry> = (1..=24u64)
        .map(|i| {
            (
                i,
                1,
                vec![
                    (format!("f{i}").into_bytes(), format!("v{i}").into_bytes()),
                    (b"shared".to_vec(), vec![b'x'; (i % 7) as usize]),
                ],
            )
        })
        .collect();
    let payload =
        encode_upstream_stream_listpacks3(&entries, Some((24, 1)), &[], Some(24), None)
            .expect("encodes");

    let clean = UpstreamStreamSkeleton::decode(UPSTREAM_RDB_TYPE_STREAM_LISTPACKS_3, &payload)
        .expect("clean payload decodes")
        .0;
    assert!(
        clean.flat_entries().is_ok(),
        "clean payload must materialise"
    );
    assert!(
        clean.validate_entries().is_ok(),
        "clean payload must validate"
    );

    let mut agreed = 0_u32;
    let mut both_rejected = 0_u32;
    for offset in 0..payload.len() {
        for xor in [0x01_u8, 0xff] {
            let mut bad = payload.clone();
            bad[offset] ^= xor;
            let Ok((skeleton, _)) =
                UpstreamStreamSkeleton::decode(UPSTREAM_RDB_TYPE_STREAM_LISTPACKS_3, &bad)
            else {

                continue;
            };

            let reference_ok = match skeleton.flat_entries() {
                Err(_) => false,
                Ok(flat) => {
                    let mut ids: Vec<(u64, u64)> = flat.ids();
                    ids.sort_unstable();
                    !ids.windows(2).any(|w| w[0] == w[1])
                }
            };
            let validate_ok = skeleton.validate_entries().is_ok();
            assert_eq!(
                reference_ok, validate_ok,
                "validator disagrees with what a load accepts at byte {offset} ^ {xor:#04x}: \
                 reference ok={reference_ok} validate_entries ok={validate_ok}"
            );
            let flat_ok = reference_ok;
            agreed += 1;
            if !flat_ok {
                both_rejected += 1;
            }
        }
    }

    assert!(
        both_rejected > 0,
        "no corruption was rejected by either path -- the oracle test proves nothing"
    );
    assert!(agreed > 100, "too few comparable corruptions: {agreed}");
}

type StreamParts = (
    Vec<StreamEntry>,
    Option<(u64, u64)>,
    Vec<RdbStreamConsumerGroup>,
);

fn lp_u7(value: u8) -> Vec<u8> {
    assert!(value <= 0x7F);
    vec![value, 1]
}

fn lp_i16(value: i16) -> Vec<u8> {
    let bytes = value.to_le_bytes();

    vec![0xF1, bytes[0], bytes[1], 3]
}

fn lp_str(bytes: &[u8]) -> Vec<u8> {
    assert!(bytes.len() <= 63);
    let data_len = 1 + bytes.len();
    assert!(data_len <= 127);
    let mut out = Vec::with_capacity(data_len + 1);
    out.push(0x80 | (bytes.len() as u8));
    out.extend_from_slice(bytes);
    out.push(data_len as u8);
    out
}

fn assemble_listpack(entries: &[Vec<u8>]) -> Vec<u8> {
    let payload: Vec<u8> = entries.iter().flat_map(|e| e.iter().copied()).collect();
    let total_bytes = (LISTPACK_HEADER_SIZE + payload.len() + 1) as u32;
    let num_elements = entries.len().min(u16::MAX as usize) as u16;
    let mut out = Vec::with_capacity(total_bytes as usize);
    out.extend_from_slice(&total_bytes.to_le_bytes());
    out.extend_from_slice(&num_elements.to_le_bytes());
    out.extend_from_slice(&payload);
    out.push(LISTPACK_EOF);
    out
}

fn streamid_bytes(ms: u64, seq: u64) -> Vec<u8> {
    let mut v = Vec::with_capacity(16);
    v.extend_from_slice(&ms.to_be_bytes());
    v.extend_from_slice(&seq.to_be_bytes());
    v
}

fn rdb_encode_raw_bytes(buf: &mut Vec<u8>, bytes: &[u8]) {
    rdb_encode_length(buf, bytes.len());
    buf.extend_from_slice(bytes);
}

fn rdb_encode_raw_stream_id(buf: &mut Vec<u8>, ms: u64, seq: u64) {
    buf.extend_from_slice(&ms.to_be_bytes());
    buf.extend_from_slice(&seq.to_be_bytes());
}

fn rdb_encode_millisecond_time(buf: &mut Vec<u8>, ms: u64) {
    buf.extend_from_slice(&ms.to_le_bytes());
}

fn build_empty_type15(last_ms: u64, last_seq: u64) -> Vec<u8> {
    let mut buf = Vec::new();
    rdb_encode_length(&mut buf, 0);
    rdb_encode_length(&mut buf, 0);
    rdb_encode_length(&mut buf, last_ms as usize);
    rdb_encode_length(&mut buf, last_seq as usize);
    rdb_encode_length(&mut buf, 0);
    buf
}

fn build_unique_fields_listpack() -> Vec<u8> {
    let entries: Vec<Vec<u8>> = vec![
        lp_u7(1),
        lp_u7(0),
        lp_u7(2),
        lp_str(b"f1"),
        lp_str(b"f2"),
        lp_u7(0),
        lp_u7(0),
        lp_u7(5),
        lp_u7(0),
        lp_u7(2),
        lp_str(b"f1"),
        lp_str(b"V1"),
        lp_str(b"f2"),
        lp_str(b"V2"),
        lp_u7(8),
    ];
    assemble_listpack(&entries)
}

fn build_inconsistent_lp_count_listpack() -> Vec<u8> {
    let entries: Vec<Vec<u8>> = vec![
        lp_u7(1),
        lp_u7(0),
        lp_u7(2),
        lp_str(b"f1"),
        lp_str(b"f2"),
        lp_u7(0),
        lp_u7(0),
        lp_u7(5),
        lp_u7(0),
        lp_u7(2),
        lp_str(b"f1"),
        lp_str(b"V1"),
        lp_str(b"f2"),
        lp_str(b"V2"),
        lp_u7(10),
    ];
    assemble_listpack(&entries)
}

fn build_inconsistent_header_count_listpack() -> Vec<u8> {
    let entries: Vec<Vec<u8>> = vec![
        lp_u7(0),
        lp_u7(0),
        lp_u7(2),
        lp_str(b"f1"),
        lp_str(b"f2"),
        lp_u7(0),
        lp_u7(0),
        lp_u7(5),
        lp_u7(0),
        lp_u7(2),
        lp_str(b"f1"),
        lp_str(b"V1"),
        lp_str(b"f2"),
        lp_str(b"V2"),
        lp_u7(8),
    ];
    assemble_listpack(&entries)
}

fn build_samefields_and_deleted_listpack() -> Vec<u8> {
    let entries: Vec<Vec<u8>> = vec![
        lp_u7(2),
        lp_u7(1),
        lp_u7(1),
        lp_str(b"only"),
        lp_u7(0),

        lp_u7(STREAM_ITEM_FLAG_SAMEFIELDS as u8),
        lp_u7(0),
        lp_u7(1),
        lp_str(b"A"),
        lp_u7(4),

        lp_u7((STREAM_ITEM_FLAG_SAMEFIELDS | STREAM_ITEM_FLAG_DELETED) as u8),
        lp_u7(0),
        lp_u7(2),
        lp_str(b"X"),
        lp_u7(4),

        lp_u7(0),
        lp_u7(0),
        lp_i16(300),
        lp_u7(1),
        lp_str(b"only"),
        lp_str(b"B"),
        lp_u7(6),
    ];
    assemble_listpack(&entries)
}

fn build_type15_payload_with_listpack(
    lp_bytes: &[u8],
    master_ms: u64,
    master_seq: u64,
) -> Vec<u8> {
    let mut buf = Vec::new();
    rdb_encode_length(&mut buf, 1);
    rdb_encode_raw_bytes(&mut buf, &streamid_bytes(master_ms, master_seq));
    rdb_encode_raw_bytes(&mut buf, lp_bytes);
    rdb_encode_length(&mut buf, 1);
    rdb_encode_length(&mut buf, master_ms as usize);
    rdb_encode_length(&mut buf, master_seq as usize);
    rdb_encode_length(&mut buf, 0);
    buf
}

fn build_type21_payload_with_consumer_group() -> Vec<u8> {
    let mut buf = Vec::new();
    rdb_encode_length(&mut buf, 0);
    rdb_encode_length(&mut buf, 0);
    rdb_encode_length(&mut buf, 42);
    rdb_encode_length(&mut buf, 7);
    rdb_encode_length(&mut buf, 42);
    rdb_encode_length(&mut buf, 7);
    rdb_encode_length(&mut buf, 0);
    rdb_encode_length(&mut buf, 0);
    rdb_encode_length(&mut buf, 1);
    rdb_encode_length(&mut buf, 1);

    rdb_encode_raw_bytes(&mut buf, b"g");
    rdb_encode_length(&mut buf, 42);
    rdb_encode_length(&mut buf, 7);
    rdb_encode_length(&mut buf, 1);

    rdb_encode_length(&mut buf, 1);
    rdb_encode_raw_stream_id(&mut buf, 42, 7);
    rdb_encode_millisecond_time(&mut buf, 1000);
    rdb_encode_length(&mut buf, 3);

    rdb_encode_length(&mut buf, 2);
    rdb_encode_raw_bytes(&mut buf, b"alice");
    rdb_encode_millisecond_time(&mut buf, 1100);
    rdb_encode_millisecond_time(&mut buf, 1200);
    rdb_encode_length(&mut buf, 1);
    rdb_encode_raw_stream_id(&mut buf, 42, 7);
    rdb_encode_raw_bytes(&mut buf, b"bob");
    rdb_encode_millisecond_time(&mut buf, 1300);
    rdb_encode_millisecond_time(&mut buf, 1400);
    rdb_encode_length(&mut buf, 0);

    buf
}

fn build_type19_payload_with_consumer_group() -> Vec<u8> {
    let mut buf = Vec::new();
    rdb_encode_length(&mut buf, 0);
    rdb_encode_length(&mut buf, 0);
    rdb_encode_length(&mut buf, 42);
    rdb_encode_length(&mut buf, 7);
    rdb_encode_length(&mut buf, 42);
    rdb_encode_length(&mut buf, 7);
    rdb_encode_length(&mut buf, 0);
    rdb_encode_length(&mut buf, 0);
    rdb_encode_length(&mut buf, 1);
    rdb_encode_length(&mut buf, 1);

    rdb_encode_raw_bytes(&mut buf, b"g");
    rdb_encode_length(&mut buf, 42);
    rdb_encode_length(&mut buf, 7);
    rdb_encode_length(&mut buf, 1);

    rdb_encode_length(&mut buf, 1);
    rdb_encode_raw_stream_id(&mut buf, 42, 7);
    rdb_encode_millisecond_time(&mut buf, 1000);
    rdb_encode_length(&mut buf, 3);

    rdb_encode_length(&mut buf, 1);
    rdb_encode_raw_bytes(&mut buf, b"alice");
    rdb_encode_millisecond_time(&mut buf, 1100);
    rdb_encode_length(&mut buf, 1);
    rdb_encode_raw_stream_id(&mut buf, 42, 7);

    buf
}

fn build_type21_payload_with_missing_global_pel() -> Vec<u8> {
    let mut buf = Vec::new();
    rdb_encode_length(&mut buf, 0);
    rdb_encode_length(&mut buf, 0);
    rdb_encode_length(&mut buf, 42);
    rdb_encode_length(&mut buf, 7);
    rdb_encode_length(&mut buf, 42);
    rdb_encode_length(&mut buf, 7);
    rdb_encode_length(&mut buf, 0);
    rdb_encode_length(&mut buf, 0);
    rdb_encode_length(&mut buf, 1);
    rdb_encode_length(&mut buf, 1);

    rdb_encode_raw_bytes(&mut buf, b"g");
    rdb_encode_length(&mut buf, 42);
    rdb_encode_length(&mut buf, 7);
    rdb_encode_length(&mut buf, 1);
    rdb_encode_length(&mut buf, 0);

    rdb_encode_length(&mut buf, 1);
    rdb_encode_raw_bytes(&mut buf, b"alice");
    rdb_encode_millisecond_time(&mut buf, 1100);
    rdb_encode_millisecond_time(&mut buf, 1200);
    rdb_encode_length(&mut buf, 1);
    rdb_encode_raw_stream_id(&mut buf, 42, 7);

    buf
}

fn stream_parts(value: RdbValue) -> Option<StreamParts> {
    match value {
        RdbValue::Stream(entries, watermark, groups, _, _, _) => {
            Some((entries, watermark, groups))
        }
        _ => None,
    }
}

#[test]
fn encode_type21_round_trips_entries_and_consumer_groups() {
    let entries = vec![
        (
            1001,
            1,
            vec![
                (b"name".to_vec(), b"Bob".to_vec()),
                (b"age".to_vec(), b"31".to_vec()),
            ],
        ),
        (
            1000,
            0,
            vec![
                (b"name".to_vec(), b"Alice".to_vec()),
                (b"age".to_vec(), b"30".to_vec()),
            ],
        ),
    ];
    let groups = vec![RdbStreamConsumerGroup {
        name: b"group".to_vec(),
        last_delivered_id_ms: 1001,
        last_delivered_id_seq: 1,
        entries_read: Some(2),
        consumers: vec![
            RdbStreamConsumer::named(b"alice".to_vec()),
            RdbStreamConsumer::named(b"bob".to_vec()),
        ],
        pending: vec![
            RdbStreamPendingEntry {
                entry_id_ms: 1001,
                entry_id_seq: 1,
                consumer: b"bob".to_vec(),
                deliveries: 2,
                last_delivered_ms: 6000,
            },
            RdbStreamPendingEntry {
                entry_id_ms: 1000,
                entry_id_seq: 0,
                consumer: b"alice".to_vec(),
                deliveries: 1,
                last_delivered_ms: 5000,
            },
        ],
    }];

    let payload =
        encode_upstream_stream_listpacks3(&entries, Some((1001, 1)), &groups, None, None)
            .expect("encode type21 payload");
    let (value, consumed) =
        decode_upstream_stream_skeleton(UPSTREAM_RDB_TYPE_STREAM_LISTPACKS_3, &payload)
            .expect("decode encoded payload");
    assert_eq!(consumed, payload.len());

    let stream = stream_parts(value);
    assert!(stream.is_some(), "expected Stream");
    let Some((decoded_entries, watermark, decoded_groups)) = stream else {
        return;
    };
    assert_eq!(
        decoded_entries,
        vec![
            (
                1000,
                0,
                vec![
                    (b"name".to_vec(), b"Alice".to_vec()),
                    (b"age".to_vec(), b"30".to_vec()),
                ],
            ),
            (
                1001,
                1,
                vec![
                    (b"name".to_vec(), b"Bob".to_vec()),
                    (b"age".to_vec(), b"31".to_vec()),
                ],
            ),
        ]
    );
    assert_eq!(watermark, Some((1001, 1)));
    assert_eq!(
        decoded_groups,
        vec![RdbStreamConsumerGroup {
            name: b"group".to_vec(),
            last_delivered_id_ms: 1001,
            last_delivered_id_seq: 1,
            entries_read: Some(2),
            consumers: vec![
                RdbStreamConsumer::named(b"alice".to_vec()),
                RdbStreamConsumer::named(b"bob".to_vec()),
            ],
            pending: vec![
                RdbStreamPendingEntry {
                    entry_id_ms: 1000,
                    entry_id_seq: 0,
                    consumer: b"alice".to_vec(),
                    deliveries: 1,
                    last_delivered_ms: 5000,
                },
                RdbStreamPendingEntry {
                    entry_id_ms: 1001,
                    entry_id_seq: 1,
                    consumer: b"bob".to_vec(),
                    deliveries: 2,
                    last_delivered_ms: 6000,
                },
            ],
        }]
    );
}

#[test]
fn encode_type21_round_trips_max_deleted_entry_id() {
    let entries = vec![(1001, 0, vec![(b"name".to_vec(), b"bob".to_vec())])];
    let payload = encode_upstream_stream_listpacks3(
        &entries,
        Some((1001, 0)),
        &[],
        Some(2),
        Some((1000, 0)),
    )
    .expect("encode type21 payload");

    let (value, consumed) =
        decode_upstream_stream_skeleton(UPSTREAM_RDB_TYPE_STREAM_LISTPACKS_3, &payload)
            .expect("decode encoded payload");
    assert_eq!(consumed, payload.len());

    let RdbValue::Stream(
        decoded_entries,
        watermark,
        groups,
        _metadata,
        entries_added,
        max_deleted,
    ) = value
    else {
        panic!("expected decoded stream");
    };
    assert_eq!(decoded_entries, entries);
    assert_eq!(watermark, Some((1001, 0)));
    assert_eq!(groups, Vec::<RdbStreamConsumerGroup>::new());
    assert_eq!(entries_added, Some(2));
    assert_eq!(max_deleted, Some((1000, 0)));
}

#[test]
fn encode_type21_declines_pending_consumer_missing_from_group() {
    let entries = vec![(1000, 0, vec![(b"field".to_vec(), b"value".to_vec())])];
    let groups = vec![RdbStreamConsumerGroup {
        name: b"group".to_vec(),
        last_delivered_id_ms: 1000,
        last_delivered_id_seq: 0,
        entries_read: None,
        consumers: vec![RdbStreamConsumer::named(b"alice".to_vec())],
        pending: vec![RdbStreamPendingEntry {
            entry_id_ms: 1000,
            entry_id_seq: 0,
            consumer: b"bob".to_vec(),
            deliveries: 1,
            last_delivered_ms: 5000,
        }],
    }];

    assert!(
        encode_upstream_stream_listpacks3(&entries, Some((1000, 0)), &groups, None, None)
            .is_none()
    );
}

#[test]
fn encode_type21_round_trips_twenty_stream_fixtures() {
    for fixture in 0..20_u64 {
        let entry_count = usize::try_from((fixture % 4) + 1).expect("small count");
        let field_count = usize::try_from((fixture % 3) + 1).expect("small count");
        let entries: Vec<StreamEntry> = (0..entry_count)
            .rev()
            .map(|offset| {
                let ms = 10_000 + fixture;
                let seq = offset as u64;
                let fields = (0..field_count)
                    .map(|field| {
                        (
                            format!("f{field}").into_bytes(),
                            format!("fixture-{fixture}-{offset}-{field}").into_bytes(),
                        )
                    })
                    .collect();
                (ms, seq, fields)
            })
            .collect();
        let mut expected_entries = entries.clone();
        expected_entries.sort_by_key(|entry| (entry.0, entry.1));
        let watermark = expected_entries
            .last()
            .map(|entry| (entry.0, entry.1))
            .expect("fixture has entries");

        let groups = if fixture % 2 == 0 {
            let pending_id = expected_entries[0].clone();
            vec![RdbStreamConsumerGroup {
                name: format!("group-{fixture}").into_bytes(),
                last_delivered_id_ms: watermark.0,
                last_delivered_id_seq: watermark.1,
                entries_read: None,
                consumers: vec![RdbStreamConsumer::named(b"consumer".to_vec())],
                pending: vec![RdbStreamPendingEntry {
                    entry_id_ms: pending_id.0,
                    entry_id_seq: pending_id.1,
                    consumer: b"consumer".to_vec(),
                    deliveries: fixture + 1,
                    last_delivered_ms: 50_000 + fixture,
                }],
            }]
        } else {
            Vec::new()
        };

        let payload =
            encode_upstream_stream_listpacks3(&entries, Some(watermark), &groups, None, None)
                .expect("encode fixture");
        let (value, consumed) =
            decode_upstream_stream_skeleton(UPSTREAM_RDB_TYPE_STREAM_LISTPACKS_3, &payload)
                .expect("decode fixture");
        assert_eq!(consumed, payload.len());

        let stream = stream_parts(value);
        assert!(stream.is_some(), "expected Stream for fixture {fixture}");
        let Some((decoded_entries, decoded_watermark, decoded_groups)) = stream else {
            return;
        };
        assert_eq!(decoded_entries, expected_entries, "fixture {fixture}");
        assert_eq!(decoded_watermark, Some(watermark), "fixture {fixture}");
        assert_eq!(decoded_groups, groups, "fixture {fixture}");
    }
}

#[test]
fn decode_empty_type15_returns_skeleton_stream_with_watermark() {
    let payload = build_empty_type15(12345, 7);
    let (value, consumed) =
        decode_upstream_stream_skeleton(UPSTREAM_RDB_TYPE_STREAM_LISTPACKS, &payload)
            .expect("decode skeleton");
    assert_eq!(consumed, payload.len());
    let stream = stream_parts(value);
    assert!(stream.is_some(), "expected Stream");
    let Some((entries, watermark, groups)) = stream else {
        return;
    };
    assert!(entries.is_empty());
    assert!(groups.is_empty());
    assert_eq!(watermark, Some((12345, 7)));
}

#[test]
fn decode_rejects_unsupported_type_byte() {
    let payload = build_empty_type15(0, 0);
    let err = decode_upstream_stream_skeleton(22, &payload).unwrap_err();
    assert_eq!(err, UpstreamStreamError::UnsupportedTypeByte(22));
}

#[test]
fn decode_rejects_nodekey_of_wrong_length() {
    let mut buf = Vec::new();
    rdb_encode_length(&mut buf, 1);

    rdb_encode_length(&mut buf, 10);
    buf.extend_from_slice(&[0u8; 10]);
    let err =
        decode_upstream_stream_skeleton(UPSTREAM_RDB_TYPE_STREAM_LISTPACKS, &buf).unwrap_err();
    assert_eq!(err, UpstreamStreamError::InvalidNodekeyLength);
}

#[test]
fn decode_single_unique_fields_entry() {
    let lp = build_unique_fields_listpack();
    let payload = build_type15_payload_with_listpack(&lp, 1000, 0);
    let (value, consumed) =
        decode_upstream_stream_skeleton(UPSTREAM_RDB_TYPE_STREAM_LISTPACKS, &payload)
            .expect("decode entry");
    assert_eq!(consumed, payload.len());
    let stream = stream_parts(value);
    assert!(stream.is_some(), "expected Stream");
    let Some((entries, watermark, groups)) = stream else {
        return;
    };
    assert!(groups.is_empty());
    assert_eq!(watermark, Some((1000, 0)));
    assert_eq!(entries.len(), 1);
    let (ms, seq, fields) = &entries[0];
    assert_eq!(*ms, 1005);
    assert_eq!(*seq, 0);
    assert_eq!(
        fields,
        &vec![
            (b"f1".to_vec(), b"V1".to_vec()),
            (b"f2".to_vec(), b"V2".to_vec()),
        ]
    );
}

#[test]
fn decode_rejects_inconsistent_entry_trailer_count() {
    let lp = build_inconsistent_lp_count_listpack();
    let payload = build_type15_payload_with_listpack(&lp, 1000, 0);
    let err = decode_upstream_stream_skeleton(UPSTREAM_RDB_TYPE_STREAM_LISTPACKS, &payload)
        .unwrap_err();
    assert_eq!(err, UpstreamStreamError::InconsistentEntryTrailer);
}

#[test]
fn decode_rejects_inconsistent_header_entry_count() {
    let lp = build_inconsistent_header_count_listpack();
    let payload = build_type15_payload_with_listpack(&lp, 1000, 0);
    let err = decode_upstream_stream_skeleton(UPSTREAM_RDB_TYPE_STREAM_LISTPACKS, &payload)
        .unwrap_err();
    assert_eq!(err, UpstreamStreamError::InconsistentEntryCount);
}

#[test]
fn decode_samefields_drops_tombstones() {
    let lp = build_samefields_and_deleted_listpack();
    let payload = build_type15_payload_with_listpack(&lp, 2000, 100);
    let (value, _) =
        decode_upstream_stream_skeleton(UPSTREAM_RDB_TYPE_STREAM_LISTPACKS, &payload)
            .expect("decode same-fields");
    let stream = stream_parts(value);
    assert!(stream.is_some(), "expected Stream");
    let Some((entries, _, _)) = stream else {
        return;
    };
    assert_eq!(entries.len(), 2, "tombstone (flag=3) must be skipped");
    let (ms0, seq0, fields0) = &entries[0];
    assert_eq!(*ms0, 2000);
    assert_eq!(*seq0, 101);
    assert_eq!(fields0, &vec![(b"only".to_vec(), b"A".to_vec())]);
    let (ms1, seq1, fields1) = &entries[1];
    assert_eq!(*ms1, 2000);
    assert_eq!(*seq1, 400);
    assert_eq!(fields1, &vec![(b"only".to_vec(), b"B".to_vec())]);
}

#[test]
fn decode_type21_reifies_consumer_groups_and_pel_ownership() {
    let payload = build_type21_payload_with_consumer_group();
    let (value, consumed) =
        decode_upstream_stream_skeleton(UPSTREAM_RDB_TYPE_STREAM_LISTPACKS_3, &payload)
            .expect("decode type 21 consumer group");
    assert_eq!(consumed, payload.len());

    let stream = stream_parts(value);
    assert!(stream.is_some(), "expected Stream");
    let Some((entries, watermark, groups)) = stream else {
        return;
    };
    assert!(entries.is_empty());
    assert_eq!(watermark, Some((42, 7)));
    assert_eq!(groups.len(), 1);

    let group = &groups[0];
    assert_eq!(group.name, b"g".to_vec());
    assert_eq!(group.last_delivered_id_ms, 42);
    assert_eq!(group.last_delivered_id_seq, 7);
    assert_eq!(
        group.consumers,
        vec![
            RdbStreamConsumer {
                name: b"alice".to_vec(),
                seen_time_ms: 1100,
                active_time_ms: Some(1200),
            },
            RdbStreamConsumer {
                name: b"bob".to_vec(),
                seen_time_ms: 1300,
                active_time_ms: Some(1400),
            },
        ]
    );
    assert_eq!(
        group.pending,
        vec![RdbStreamPendingEntry {
            entry_id_ms: 42,
            entry_id_seq: 7,
            consumer: b"alice".to_vec(),
            deliveries: 3,
            last_delivered_ms: 1000,
        }]
    );
}

#[test]
fn decode_type19_reifies_consumer_groups_and_seen_time() {
    let payload = build_type19_payload_with_consumer_group();
    let (value, consumed) =
        decode_upstream_stream_skeleton(UPSTREAM_RDB_TYPE_STREAM_LISTPACKS_2, &payload)
            .expect("decode type 19 consumer group");
    assert_eq!(consumed, payload.len());

    let stream = stream_parts(value);
    assert!(stream.is_some(), "expected Stream");
    let Some((entries, watermark, groups)) = stream else {
        return;
    };
    assert!(entries.is_empty());
    assert_eq!(watermark, Some((42, 7)));
    assert_eq!(groups.len(), 1);

    let group = &groups[0];
    assert_eq!(group.name, b"g".to_vec());
    assert_eq!(
        group.consumers,
        vec![RdbStreamConsumer {
            name: b"alice".to_vec(),
            seen_time_ms: 1100,
            active_time_ms: None,
        }]
    );
    assert_eq!(
        group.pending,
        vec![RdbStreamPendingEntry {
            entry_id_ms: 42,
            entry_id_seq: 7,
            consumer: b"alice".to_vec(),
            deliveries: 3,
            last_delivered_ms: 1000,
        }]
    );
}

#[test]
fn decode_type21_rejects_consumer_pel_without_global_entry() {
    let payload = build_type21_payload_with_missing_global_pel();
    let err = decode_upstream_stream_skeleton(UPSTREAM_RDB_TYPE_STREAM_LISTPACKS_3, &payload)
        .unwrap_err();
    assert_eq!(err, UpstreamStreamError::MissingGlobalPelEntry);
}

#[test]
fn encode_consumer_group_writes_scg_invalid_entries_read_sentinel() {

    let entries: Vec<StreamEntry> = vec![(10, 0, vec![(b"f".to_vec(), b"v".to_vec())])];
    let groups = vec![RdbStreamConsumerGroup {
        name: b"g".to_vec(),
        last_delivered_id_ms: 10,
        last_delivered_id_seq: 0,
        entries_read: None,
        consumers: vec![RdbStreamConsumer::named(b"alice".to_vec())],
        pending: vec![
            RdbStreamPendingEntry {
                entry_id_ms: 10,
                entry_id_seq: 0,
                consumer: b"alice".to_vec(),
                deliveries: 1,
                last_delivered_ms: 100,
            },
            RdbStreamPendingEntry {
                entry_id_ms: 11,
                entry_id_seq: 0,
                consumer: b"alice".to_vec(),
                deliveries: 1,
                last_delivered_ms: 101,
            },
        ],
    }];

    let payload =
        encode_upstream_stream_listpacks3(&entries, Some((11, 0)), &groups, None, None)
            .expect("encode type21 payload with consumer group");

    let needle: [u8; 9] = [0x81, 0xFF, 0xFF, 0xFF, 0xFF, 0xFF, 0xFF, 0xFF, 0xFF];
    assert!(
        payload.windows(needle.len()).any(|w| w == needle),
        "expected SCG_INVALID_ENTRIES_READ sentinel (0x81 + 8x0xFF) somewhere in the \
         encoded payload; got {} bytes: {:?}",
        payload.len(),
        &payload[..payload.len().min(64)]
    );

    let group_name_marker: &[u8] = &[0x01, b'g'];
    let group_start = payload
        .windows(2)
        .position(|w| w == group_name_marker)
        .expect("group name marker present");

    let entries_read_byte = payload[group_start + 4];
    assert_eq!(
        entries_read_byte, 0x81,
        "entries_read slot should start with the 0x81 (64-bit length) marker, \
         not with 0x02 (= pending.len()); got 0x{entries_read_byte:02X}"
    );

    let (_, consumed) =
        decode_upstream_stream_skeleton(UPSTREAM_RDB_TYPE_STREAM_LISTPACKS_3, &payload)
            .expect("decode payload with sentinel entries_read");
    assert_eq!(consumed, payload.len());
}
