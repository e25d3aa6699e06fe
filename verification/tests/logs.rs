//! Command logs and their manifests.

use fr_persist::aof::{
    argv_to_aof_records, decode_aof_replay_stream, decode_aof_stream,
    decode_aof_stream_with_offsets, encode_aof_stream, AofRecord, AofReplayTailFailure,
};
use fr_persist::aof_tail::{
    classify_aof_replay_tail_repair, trim_incomplete_multi_replay, AofReplaySegmentPosition,
    AofReplayTailRepairOutcome, AofReplayTailRepairPolicy,
};
use fr_persist::manifest::{parse_aof_manifest, AofManifest, AofManifestFileType};
use fr_persist::manifest_format::format_aof_manifest;
use fr_persist::multipart::{new_aof_manifest, MultipartAofLoad};
use fr_persist::persist_error::PersistError;
use fr_persist::rdb_load::{decode_rdb, decode_rdb_prefix};
use fr_persist::rdb_save::{encode_rdb, encode_rdb_with_functions};
use fr_persist::rdb_types::{RdbEntry, RdbValue};
use fr_persist::resp::{RespFrame, RespParseError};

/// Loads the files that a manifest names.
fn load_files(manifest: &AofManifest, files: &[(&str, &[u8])]) -> MultipartAofLoad {
    let mut load = MultipartAofLoad::default();
    for row in manifest.replay_entries() {
        let data = files
            .iter()
            .find(|file| file.0 == row.file_name)
            .expect("the file is there")
            .1;
        load.take_file(row, data).expect("the file loads");
    }
    load
}

#[test]
fn round_trip_aof_record() {
    let record = AofRecord {
        argv: vec![b"SET".to_vec(), b"k".to_vec(), b"v".to_vec()],
    };
    let frame = record.to_resp_frame();
    let decoded = AofRecord::from_resp_frame(&frame).expect("decode");
    assert_eq!(decoded, record);
}

#[test]
fn invalid_frame_rejected() {
    let frame = RespFrame::BulkString(Some(b"x".to_vec()));
    assert!(AofRecord::from_resp_frame(&frame).is_err());
}

#[test]
fn empty_array_record_rejected() {
    let frame = RespFrame::Array(Some(Vec::new()));
    let err = AofRecord::from_resp_frame(&frame).expect_err("must fail");
    assert_eq!(err, PersistError::InvalidFrame);
}

#[test]
fn round_trip_multi_record_stream() {
    let records = vec![
        AofRecord {
            argv: vec![b"SET".to_vec(), b"k".to_vec(), b"v".to_vec()],
        },
        AofRecord {
            argv: vec![b"INCR".to_vec(), b"counter".to_vec()],
        },
    ];
    let encoded = encode_aof_stream(&records);
    let decoded = decode_aof_stream(&encoded).expect("decode stream");
    assert_eq!(decoded, records);
}

#[test]
fn decode_aof_stream_with_offsets_preserves_record_boundaries() {
    let records = vec![
        AofRecord {
            argv: vec![b"SET".to_vec(), b"k".to_vec(), b"v".to_vec()],
        },
        AofRecord {
            argv: vec![b"INCR".to_vec(), b"counter".to_vec()],
        },
    ];
    let first_len = records[0].to_resp_frame().to_bytes().len();
    let encoded = encode_aof_stream(&records);

    let decoded = decode_aof_stream_with_offsets(&encoded).expect("decode stream");

    assert_eq!(decoded.len(), 2);
    assert_eq!(decoded[0].record, records[0]);
    assert_eq!(decoded[0].start_offset, 0);
    assert_eq!(decoded[0].end_offset, first_len);
    assert_eq!(decoded[1].record, records[1]);
    assert_eq!(decoded[1].start_offset, first_len);
    assert_eq!(decoded[1].end_offset, encoded.len());
}

#[test]
fn decode_aof_stream_with_offsets_accepts_empty_stream() {
    let decoded = decode_aof_stream_with_offsets(b"").expect("empty stream");
    assert!(decoded.is_empty());
}

#[test]
fn decode_aof_stream_with_offsets_rejects_invalid_and_incomplete_frames() {
    let err = decode_aof_stream_with_offsets(b"$3\r\nbad\r\n").expect_err("must fail");
    assert_eq!(err, PersistError::InvalidFrame);

    let err =
        decode_aof_stream_with_offsets(b"*2\r\n$3\r\nGET\r\n$1\r\nk").expect_err("must fail");
    assert_eq!(err, PersistError::Parse(RespParseError::Incomplete));
}

#[test]
fn decode_aof_replay_stream_decodes_resp_only_input_with_offsets() {
    let records = vec![
        AofRecord {
            argv: vec![b"SET".to_vec(), b"k".to_vec(), b"v".to_vec()],
        },
        AofRecord {
            argv: vec![b"DEL".to_vec(), b"k".to_vec()],
        },
    ];
    let first_len = records[0].to_resp_frame().to_bytes().len();
    let encoded = encode_aof_stream(&records);

    let replay = decode_aof_replay_stream(&encoded).expect("decode replay stream");

    assert!(replay.rdb_preamble.is_none());
    assert_eq!(replay.records.len(), 2);
    assert_eq!(replay.records[0].record, records[0]);
    assert_eq!(replay.records[0].start_offset, 0);
    assert_eq!(replay.records[0].end_offset, first_len);
    assert_eq!(replay.records[1].record, records[1]);
    assert_eq!(replay.records[1].start_offset, first_len);
    assert_eq!(replay.records[1].end_offset, encoded.len());
}

#[test]
fn trim_incomplete_multi_replay_returns_valid_prefix_and_truncation_offset() {
    let records = vec![
        AofRecord {
            argv: vec![b"SET".to_vec(), b"before".to_vec(), b"1".to_vec()],
        },
        AofRecord {
            argv: vec![b"MULTI".to_vec()],
        },
        AofRecord {
            argv: vec![b"SET".to_vec(), b"inside".to_vec(), b"2".to_vec()],
        },
        AofRecord {
            argv: vec![b"INCR".to_vec(), b"inside-counter".to_vec()],
        },
    ];
    let replay_records =
        decode_aof_stream_with_offsets(&encode_aof_stream(&records)).expect("decode records");
    let multi_offset = replay_records[1].start_offset;

    let trimmed = trim_incomplete_multi_replay(&replay_records);

    assert_eq!(trimmed.records, replay_records[..1]);
    assert_eq!(trimmed.truncated_from_offset, Some(multi_offset));
}

#[test]
fn trim_incomplete_multi_replay_preserves_complete_exec_transaction() {
    let records = vec![
        AofRecord {
            argv: vec![b"multi".to_vec()],
        },
        AofRecord {
            argv: vec![b"SET".to_vec(), b"k".to_vec(), b"v".to_vec()],
        },
        AofRecord {
            argv: vec![b"exec".to_vec()],
        },
    ];
    let replay_records =
        decode_aof_stream_with_offsets(&encode_aof_stream(&records)).expect("decode records");

    let trimmed = trim_incomplete_multi_replay(&replay_records);

    assert_eq!(trimmed.records, replay_records);
    assert_eq!(trimmed.truncated_from_offset, None);
}

#[test]
fn trim_incomplete_multi_replay_preserves_discarded_transaction_boundary() {
    let records = vec![
        AofRecord {
            argv: vec![b"MULTI".to_vec()],
        },
        AofRecord {
            argv: vec![b"SET".to_vec(), b"k".to_vec(), b"v".to_vec()],
        },
        AofRecord {
            argv: vec![b"DISCARD".to_vec()],
        },
        AofRecord {
            argv: vec![b"SET".to_vec(), b"after".to_vec(), b"1".to_vec()],
        },
    ];
    let replay_records =
        decode_aof_stream_with_offsets(&encode_aof_stream(&records)).expect("decode records");

    let trimmed = trim_incomplete_multi_replay(&replay_records);

    assert_eq!(trimmed.records, replay_records);
    assert_eq!(trimmed.truncated_from_offset, None);
}

#[test]
fn classify_aof_replay_tail_repair_preserves_clean_segment() -> Result<(), String> {
    let records = vec![AofRecord {
        argv: vec![b"SET".to_vec(), b"k".to_vec(), b"v".to_vec()],
    }];
    let encoded = encode_aof_stream(&records);

    let outcome = classify_aof_replay_tail_repair(
        &encoded,
        AofReplaySegmentPosition::Final,
        AofReplayTailRepairPolicy::Disabled,
    );

    let AofReplayTailRepairOutcome::Clean {
        records: replay_records,
    } = outcome
    else {
        return Err(format!(
            "clean segment should not require repair: {outcome:?}"
        ));
    };
    assert_eq!(replay_records.len(), 1);
    assert_eq!(replay_records[0].record, records[0]);
    assert_eq!(replay_records[0].start_offset, 0);
    assert_eq!(replay_records[0].end_offset, encoded.len());
    Ok(())
}

#[test]
fn classify_aof_replay_tail_repair_truncates_bounded_final_tail() -> Result<(), String> {
    let records = vec![AofRecord {
        argv: vec![b"SET".to_vec(), b"before".to_vec(), b"1".to_vec()],
    }];
    let valid_prefix = encode_aof_stream(&records);
    let mut encoded = valid_prefix.clone();
    encoded.extend_from_slice(b"*2\r\n$3\r\nSET\r\n$1\r\nx");
    let truncated_bytes = encoded.len() - valid_prefix.len();

    let outcome = classify_aof_replay_tail_repair(
        &encoded,
        AofReplaySegmentPosition::Final,
        AofReplayTailRepairPolicy::BoundedFinalSegment {
            max_tail_bytes: truncated_bytes,
        },
    );

    let AofReplayTailRepairOutcome::Repaired(repair) = outcome else {
        return Err(format!("bounded final tail should repair: {outcome:?}"));
    };
    assert_eq!(repair.records.len(), 1);
    assert_eq!(repair.records[0].record, records[0]);
    assert_eq!(repair.truncated_from_offset, valid_prefix.len());
    assert_eq!(repair.truncated_bytes, truncated_bytes);
    assert_eq!(
        repair.failure,
        AofReplayTailFailure::Parse(RespParseError::Incomplete)
    );
    assert_eq!(repair.reason_code, "persist.replay.tail_truncate_recover");
    assert_eq!(
        repair.policy_reason_code,
        "persist.replay.repair_policy_applied"
    );
    Ok(())
}

#[test]
fn classify_aof_replay_tail_repair_handles_corrupt_final_frame() -> Result<(), String> {
    let records = vec![AofRecord {
        argv: vec![b"SET".to_vec(), b"before".to_vec(), b"1".to_vec()],
    }];
    let valid_prefix = encode_aof_stream(&records);
    let mut encoded = valid_prefix.clone();
    encoded.extend_from_slice(b"$3\r\nbad\r\n");
    let corrupted_bytes = encoded.len() - valid_prefix.len();

    let outcome = classify_aof_replay_tail_repair(
        &encoded,
        AofReplaySegmentPosition::Final,
        AofReplayTailRepairPolicy::BoundedFinalSegment {
            max_tail_bytes: corrupted_bytes,
        },
    );

    let AofReplayTailRepairOutcome::Repaired(repair) = outcome else {
        return Err(format!(
            "bounded final corruption should repair: {outcome:?}"
        ));
    };
    assert_eq!(repair.records.len(), 1);
    assert_eq!(repair.truncated_from_offset, valid_prefix.len());
    assert_eq!(repair.truncated_bytes, corrupted_bytes);
    assert_eq!(repair.failure, AofReplayTailFailure::InvalidFrame);
    Ok(())
}

#[test]
fn classify_aof_replay_tail_repair_rejects_nonfinal_tail_corruption() -> Result<(), String> {
    let records = vec![AofRecord {
        argv: vec![b"SET".to_vec(), b"before".to_vec(), b"1".to_vec()],
    }];
    let valid_prefix = encode_aof_stream(&records);
    let mut encoded = valid_prefix.clone();
    encoded.extend_from_slice(b"*2\r\n$3\r\nSET\r\n$1\r\nx");

    let outcome = classify_aof_replay_tail_repair(
        &encoded,
        AofReplaySegmentPosition::NonFinal,
        AofReplayTailRepairPolicy::BoundedFinalSegment {
            max_tail_bytes: encoded.len(),
        },
    );

    let AofReplayTailRepairOutcome::Fatal(fatal) = outcome else {
        return Err(format!("non-final segment must fail closed: {outcome:?}"));
    };
    assert_eq!(fatal.records.len(), 1);
    assert_eq!(fatal.failure_offset, valid_prefix.len());
    assert_eq!(fatal.trailing_bytes, encoded.len() - valid_prefix.len());
    assert_eq!(
        fatal.failure,
        AofReplayTailFailure::Parse(RespParseError::Incomplete)
    );
    assert_eq!(
        fatal.reason_code,
        "persist.replay.nonfinal_truncation_fatal"
    );
    Ok(())
}

#[test]
fn classify_aof_replay_tail_repair_rejects_over_bound_final_tail() -> Result<(), String> {
    let records = vec![AofRecord {
        argv: vec![b"SET".to_vec(), b"before".to_vec(), b"1".to_vec()],
    }];
    let valid_prefix = encode_aof_stream(&records);
    let mut encoded = valid_prefix.clone();
    encoded.extend_from_slice(b"*2\r\n$3\r\nSET\r\n$1\r\nx");

    let outcome = classify_aof_replay_tail_repair(
        &encoded,
        AofReplaySegmentPosition::Final,
        AofReplayTailRepairPolicy::BoundedFinalSegment { max_tail_bytes: 1 },
    );

    let AofReplayTailRepairOutcome::Fatal(fatal) = outcome else {
        return Err(format!(
            "over-bound final tail should stay fatal: {outcome:?}"
        ));
    };
    assert_eq!(fatal.records.len(), 1);
    assert_eq!(fatal.failure_offset, valid_prefix.len());
    assert_eq!(
        fatal.reason_code,
        "persist.replay.tail_repair_bound_exceeded"
    );
    Ok(())
}

#[test]
fn classify_aof_replay_tail_repair_rejects_hardened_nonallowlisted_repair() -> Result<(), String>
{
    let records = vec![AofRecord {
        argv: vec![b"SET".to_vec(), b"before".to_vec(), b"1".to_vec()],
    }];
    let valid_prefix = encode_aof_stream(&records);
    let mut encoded = valid_prefix.clone();
    encoded.extend_from_slice(b"*2\r\n$3\r\nSET\r\n$1\r\nx");

    let outcome = classify_aof_replay_tail_repair(
        &encoded,
        AofReplaySegmentPosition::Final,
        AofReplayTailRepairPolicy::HardenedNonAllowlisted,
    );

    let AofReplayTailRepairOutcome::Fatal(fatal) = outcome else {
        return Err(format!(
            "non-allowlisted hardened repair must reject: {outcome:?}"
        ));
    };
    assert_eq!(fatal.records.len(), 1);
    assert_eq!(fatal.failure_offset, valid_prefix.len());
    assert_eq!(
        fatal.reason_code,
        "persist.hardened_nonallowlisted_rejected"
    );
    Ok(())
}

#[test]
fn decode_rejects_invalid_stream_frame() {
    let err = decode_aof_stream(b"$3\r\nbad\r\n").expect_err("must fail");
    assert_eq!(err, PersistError::InvalidFrame);
}

#[test]
fn decode_rejects_empty_command_array_record() {
    let err = decode_aof_stream(b"*0\r\n").expect_err("must fail");
    assert_eq!(err, PersistError::InvalidFrame);
}

#[test]
fn decode_rejects_incomplete_stream() {
    let err = decode_aof_stream(b"*2\r\n$3\r\nGET\r\n$1\r\nk").expect_err("must fail");
    assert_eq!(err, PersistError::Parse(RespParseError::Incomplete));
}

#[test]
fn argv_to_aof_records_converts() {
    let commands = vec![
        vec![b"SET".to_vec(), b"k".to_vec(), b"v".to_vec()],
        vec![
            b"HSET".to_vec(),
            b"h".to_vec(),
            b"f".to_vec(),
            b"v".to_vec(),
        ],
    ];
    let records = argv_to_aof_records(commands);
    assert_eq!(records.len(), 2);
    assert_eq!(records[0].argv[0], b"SET");
    assert_eq!(records[1].argv[0], b"HSET");
}

#[test]
fn aof_manifest_parses_base_history_and_incremental_rows() {
    let manifest = parse_aof_manifest(
        "# generated by Redis\n\
         file appendonly.aof.1.base.rdb seq 1 type b\n\
         file appendonly.aof.2.incr.aof seq 2 type h\n\
         file appendonly.aof.3.incr.aof seq 3 type i\n\
         file appendonly.aof.4.incr.aof seq 4 type i\n",
    )
    .expect("parse manifest");

    let base = manifest.base.as_ref().expect("base entry");
    assert_eq!(base.file_name, "appendonly.aof.1.base.rdb");
    assert_eq!(base.file_seq, 1);
    assert_eq!(base.file_type, AofManifestFileType::Base);
    assert_eq!(manifest.history.len(), 1);
    assert_eq!(manifest.incremental.len(), 2);
    assert_eq!(manifest.curr_base_file_seq, 1);
    assert_eq!(manifest.curr_incr_file_seq, 4);
}

#[test]
fn aof_manifest_skips_blank_and_comment_lines() {
    let manifest = parse_aof_manifest(
        "# generated by Redis\n\
         \n\
         file appendonly.aof.1.base.rdb seq 1 type b\n\
         \n\
         # history comes before active incrementals\n\
         file appendonly.aof.2.incr.aof seq 2 type h\n\
         file appendonly.aof.3.incr.aof seq 3 type i\n",
    )
    .expect("parse manifest with comments and blanks");

    assert_eq!(
        manifest.base.as_ref().map(|entry| entry.file_name.as_str()),
        Some("appendonly.aof.1.base.rdb")
    );
    assert_eq!(manifest.history.len(), 1);
    assert_eq!(manifest.incremental.len(), 1);
    assert_eq!(manifest.curr_incr_file_seq, 3);
}

#[test]
fn aof_manifest_format_preserves_redis_ordering() {
    let parsed = parse_aof_manifest(
        "file base.aof seq 1 type b\n\
         file old.aof seq 2 type h\n\
         file \"incr 3.aof\" seq 3 type i\n",
    )
    .expect("parse manifest");

    let formatted = format_aof_manifest(&parsed);
    assert_eq!(
        formatted,
        "file base.aof seq 1 type b\n\
         file old.aof seq 2 type h\n\
         file \"incr 3.aof\" seq 3 type i\n"
    );
    assert_eq!(parse_aof_manifest(&formatted).expect("reparse"), parsed);
}

#[test]
fn aof_manifest_replay_entries_exclude_history_and_preserve_replay_order() {
    let manifest = parse_aof_manifest(
        "file base.aof seq 1 type b\n\
         file old-2.aof seq 2 type h\n\
         file incr-3.aof seq 3 type i\n\
         file old-4.aof seq 4 type h\n\
         file incr-5.aof seq 5 type i\n",
    )
    .expect("parse manifest");

    let replay = manifest
        .replay_entries()
        .into_iter()
        .map(|entry| (entry.file_name.as_str(), entry.file_type))
        .collect::<Vec<_>>();

    assert_eq!(
        replay,
        vec![
            ("base.aof", AofManifestFileType::Base),
            ("incr-3.aof", AofManifestFileType::Incremental),
            ("incr-5.aof", AofManifestFileType::Incremental),
        ],
    );
}

#[test]
fn aof_manifest_replay_entries_allow_incremental_only_and_empty_manifests() {
    let manifest = parse_aof_manifest(
        "file incr-1.aof seq 1 type i\n\
         file incr-2.aof seq 2 type i\n",
    )
    .expect("parse manifest");

    let replay = manifest
        .replay_entries()
        .into_iter()
        .map(|entry| (entry.file_name.as_str(), entry.file_type))
        .collect::<Vec<_>>();

    assert_eq!(
        replay,
        vec![
            ("incr-1.aof", AofManifestFileType::Incremental),
            ("incr-2.aof", AofManifestFileType::Incremental),
        ],
    );
    assert!(AofManifest::default().replay_entries().is_empty());
}

#[test]
fn aof_manifest_empty_input_is_rejected_but_missing_file_is_empty() {
    let err = parse_aof_manifest("").expect_err("empty manifest must fail");
    assert_eq!(
        err,
        PersistError::ManifestParseViolation {
            line: 0,
            reason: "empty manifest",
        }
    );

    let missing = AofManifest::default();
    assert!(missing.is_empty());
}

#[test]
fn aof_manifest_rejects_duplicate_base() {
    let err = parse_aof_manifest(
        "file base-1.aof seq 1 type b\n\
         file base-2.aof seq 2 type b\n",
    )
    .expect_err("duplicate base must fail");

    assert_eq!(
        err,
        PersistError::ManifestParseViolation {
            line: 2,
            reason: "duplicate base file",
        }
    );
}

#[test]
fn aof_manifest_rejects_path_style_filename() {
    let err = parse_aof_manifest("file ../appendonly.aof seq 1 type b\n")
        .expect_err("path filename must fail");

    assert_eq!(
        err,
        PersistError::ManifestPathViolation {
            line: 1,
            file_name: "../appendonly.aof".to_string(),
        }
    );
}

#[test]
fn aof_manifest_rejects_non_monotonic_incremental_sequences() {
    let err = parse_aof_manifest(
        "file appendonly.aof.3.incr.aof seq 3 type i\n\
         file appendonly.aof.2.incr.aof seq 2 type i\n",
    )
    .expect_err("non-monotonic incr must fail");

    assert_eq!(
        err,
        PersistError::ManifestParseViolation {
            line: 2,
            reason: "non-monotonic incremental sequence",
        }
    );
}

#[test]
fn aof_manifest_rejects_malformed_rows() {
    let err =
        parse_aof_manifest("file appendonly.aof seq 1\n").expect_err("missing type must fail");
    assert_eq!(
        err,
        PersistError::ManifestParseViolation {
            line: 1,
            reason: "invalid field count",
        }
    );

    let err = parse_aof_manifest("file appendonly.aof seq 01 type i\n")
        .expect_err("leading-zero seq must fail");
    assert_eq!(
        err,
        PersistError::ManifestParseViolation {
            line: 1,
            reason: "invalid seq field",
        }
    );

    let err = parse_aof_manifest("file appendonly.aof seq x type i\n")
        .expect_err("nonnumeric seq must fail");
    assert_eq!(
        err,
        PersistError::ManifestParseViolation {
            line: 1,
            reason: "invalid seq field",
        }
    );
}

#[test]
fn read_aof_manifest_dir_loads_base_rdb_and_incr_records() {
    let base_entries = vec![RdbEntry {
        db: 0,
        key: b"base_key".to_vec(),
        value: RdbValue::String(b"base_val".to_vec()),
        expire_ms: None,
    }];
    let lib = b"#!lua name=ml\nredis.register_function('f', function() return 1 end)";
    let base_rdb = encode_rdb_with_functions(&base_entries, &[], &[lib.as_slice()]);
    let incr = encode_aof_stream(&[AofRecord {
        argv: vec![b"SET".to_vec(), b"incr_key".to_vec(), b"incr_val".to_vec()],
    }]);
    let manifest = parse_aof_manifest(
        "file appendonly.aof.1.base.rdb seq 1 type b\n\
         file appendonly.aof.1.incr.aof seq 1 type i\n",
    )
    .expect("parse manifest");

    let loaded = load_files(
        &manifest,
        &[
            ("appendonly.aof.1.base.rdb", base_rdb.as_slice()),
            ("appendonly.aof.1.incr.aof", incr.as_slice()),
        ],
    );
    assert_eq!(loaded.base_rdb_entries, base_entries);
    assert_eq!(loaded.base_rdb_functions, vec![lib.to_vec()]);
    assert_eq!(
        loaded.records,
        vec![AofRecord {
            argv: vec![b"SET".to_vec(), b"incr_key".to_vec(), b"incr_val".to_vec()],
        }]
    );
}

#[test]
fn write_aof_manifest_dir_round_trips_through_read() {
    let base_entries = vec![RdbEntry {
        db: 0,
        key: b"base_key".to_vec(),
        value: RdbValue::String(b"base_val".to_vec()),
        expire_ms: None,
    }];
    let lib = b"#!lua name=ml\nredis.register_function('f', function() return 1 end)";
    let base_rdb = encode_rdb_with_functions(&base_entries, &[], &[lib.as_slice()]);
    let incr = vec![
        AofRecord {
            argv: vec![b"SET".to_vec(), b"incr_key".to_vec(), b"v".to_vec()],
        },
        AofRecord {
            argv: vec![b"DEL".to_vec(), b"base_key".to_vec()],
        },
    ];

    let manifest = new_aof_manifest("appendonly.aof", 1);
    let text = format_aof_manifest(&manifest);
    assert_eq!(
        text,
        "file appendonly.aof.1.base.rdb seq 1 type b\n\
         file appendonly.aof.1.incr.aof seq 1 type i\n"
    );
    let incr_bytes = encode_aof_stream(&incr);
    let loaded = load_files(
        &parse_aof_manifest(&text).expect("parse manifest"),
        &[
            ("appendonly.aof.1.base.rdb", base_rdb.as_slice()),
            ("appendonly.aof.1.incr.aof", incr_bytes.as_slice()),
        ],
    );
    assert_eq!(loaded.base_rdb_entries, base_entries);
    assert_eq!(loaded.base_rdb_functions, vec![lib.to_vec()]);
    assert_eq!(loaded.records, incr);
}

#[test]
fn rdb_prefix_decode_reports_consumed_length_before_aof_tail() {
    let entries = vec![RdbEntry {
        db: 0,
        key: b"preamble-key".to_vec(),
        value: RdbValue::String(b"preamble-value".to_vec()),
        expire_ms: None,
    }];
    let mut combined = encode_rdb(&entries, &[("redis-ver", "7.2.0")]);
    let rdb_len = combined.len();
    let tail_records = vec![AofRecord {
        argv: vec![
            b"SET".to_vec(),
            b"tail-key".to_vec(),
            b"tail-value".to_vec(),
        ],
    }];
    combined.extend_from_slice(&encode_aof_stream(&tail_records));

    let decoded = decode_rdb_prefix(&combined).expect("decode rdb preamble");

    assert_eq!(decoded.consumed, rdb_len);
    assert_eq!(decoded.entries, entries);
    assert_eq!(
        decoded.aux.get("redis-ver").map(String::as_str),
        Some("7.2.0")
    );
    let decoded_tail = decode_aof_stream(&combined[decoded.consumed..]).expect("decode tail");
    assert_eq!(decoded_tail, tail_records);
}

#[test]
fn decode_aof_replay_stream_decodes_rdb_preamble_and_aof_tail() {
    let entries = vec![RdbEntry {
        db: 0,
        key: b"snapshot-key".to_vec(),
        value: RdbValue::String(b"snapshot-value".to_vec()),
        expire_ms: None,
    }];
    let mut combined = encode_rdb(&entries, &[("redis-ver", "7.2.4")]);
    let rdb_len = combined.len();
    let tail_records = vec![
        AofRecord {
            argv: vec![
                b"SET".to_vec(),
                b"tail-key".to_vec(),
                b"tail-value".to_vec(),
            ],
        },
        AofRecord {
            argv: vec![b"INCR".to_vec(), b"tail-counter".to_vec()],
        },
    ];
    let first_tail_len = tail_records[0].to_resp_frame().to_bytes().len();
    combined.extend_from_slice(&encode_aof_stream(&tail_records));

    let replay = decode_aof_replay_stream(&combined).expect("decode mixed replay stream");
    let preamble = replay.rdb_preamble.expect("rdb preamble");

    assert_eq!(preamble.consumed, rdb_len);
    assert_eq!(preamble.entries, entries);
    assert_eq!(
        preamble.aux.get("redis-ver").map(String::as_str),
        Some("7.2.4")
    );
    assert_eq!(replay.records.len(), 2);
    assert_eq!(replay.records[0].record, tail_records[0]);
    assert_eq!(replay.records[0].start_offset, rdb_len);
    assert_eq!(replay.records[0].end_offset, rdb_len + first_tail_len);
    assert_eq!(replay.records[1].record, tail_records[1]);
    assert_eq!(replay.records[1].start_offset, rdb_len + first_tail_len);
    assert_eq!(replay.records[1].end_offset, combined.len());
}

#[test]
fn decode_aof_replay_stream_rejects_corrupt_rdb_preamble_before_tail() {
    let entries = vec![RdbEntry {
        db: 0,
        key: b"snapshot-key".to_vec(),
        value: RdbValue::String(b"snapshot-value".to_vec()),
        expire_ms: None,
    }];
    let mut combined = encode_rdb(&entries, &[]);
    let checksum_byte = combined.len() - 1;
    combined[checksum_byte] ^= 0x7F;
    combined.extend_from_slice(&encode_aof_stream(&[AofRecord {
        argv: vec![b"SET".to_vec(), b"k".to_vec(), b"v".to_vec()],
    }]));

    let err = decode_aof_replay_stream(&combined).expect_err("corrupt preamble must fail");
    assert_eq!(err, PersistError::InvalidFrame);
}

#[test]
fn rdb_whole_file_decode_rejects_aof_tail_after_preamble() {
    let entries = vec![RdbEntry {
        db: 0,
        key: b"strict-key".to_vec(),
        value: RdbValue::String(b"strict-value".to_vec()),
        expire_ms: None,
    }];
    let mut combined = encode_rdb(&entries, &[]);
    combined.extend_from_slice(&encode_aof_stream(&[AofRecord {
        argv: vec![b"INCR".to_vec(), b"counter".to_vec()],
    }]));

    let err = decode_rdb(&combined).expect_err("strict decode must reject trailing AOF");
    assert_eq!(err, PersistError::InvalidFrame);
}

#[test]
fn golden_aof_set_command() {
    let record = AofRecord {
        argv: vec![b"SET".to_vec(), b"key".to_vec(), b"value".to_vec()],
    };
    let encoded = encode_aof_stream(&[record]);
    let golden = b"*3\r\n$3\r\nSET\r\n$3\r\nkey\r\n$5\r\nvalue\r\n";
    assert_eq!(
        encoded,
        golden.as_slice(),
        "AOF SET command encoding changed"
    );
}

#[test]
fn golden_aof_multi_command() {
    let records = vec![
        AofRecord {
            argv: vec![b"SET".to_vec(), b"k".to_vec(), b"v".to_vec()],
        },
        AofRecord {
            argv: vec![b"INCR".to_vec(), b"counter".to_vec()],
        },
    ];
    let encoded = encode_aof_stream(&records);
    let golden =
        b"*3\r\n$3\r\nSET\r\n$1\r\nk\r\n$1\r\nv\r\n*2\r\n$4\r\nINCR\r\n$7\r\ncounter\r\n";
    assert_eq!(
        encoded,
        golden.as_slice(),
        "AOF multi-command encoding changed"
    );
}
